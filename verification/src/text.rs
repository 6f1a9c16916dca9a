//! Byte-level views of strings: equality, lexicographic order (as `Ord for str` orders),
//! and sorted string sets.
use vstd::prelude::*;
use vstd::string::StrSliceExecFns;
use vstd::utf8::encode_utf8;

verus! {

/// The UTF-8 bytes of a string.
pub open spec fn text_bytes(s: String) -> Seq<u8> {
    encode_utf8(s@)
}

/// The UTF-8 bytes of a string, borrowed.
pub fn bytes_of(s: &String) -> (r: &[u8])
    ensures
        r@ == text_bytes(*s),
{
    s.as_str().as_bytes()
}

/// Lexicographic byte order, the order of `str`'s `Ord`.
pub open spec fn lex_lt(a: Seq<u8>, b: Seq<u8>) -> bool
    decreases a.len(),
{
    if a.len() == 0 {
        b.len() > 0
    } else if b.len() == 0 {
        false
    } else if a[0] < b[0] {
        true
    } else if a[0] > b[0] {
        false
    } else {
        lex_lt(a.drop_first(), b.drop_first())
    }
}

pub proof fn lemma_lex_irreflexive(a: Seq<u8>)
    ensures
        !lex_lt(a, a),
    decreases a.len(),
{
    if a.len() > 0 {
        lemma_lex_irreflexive(a.drop_first());
    }
}

pub proof fn lemma_lex_total(a: Seq<u8>, b: Seq<u8>)
    ensures
        a != b ==> lex_lt(a, b) || lex_lt(b, a),
        !(lex_lt(a, b) && lex_lt(b, a)),
    decreases a.len(),
{
    if a.len() > 0 && b.len() > 0 && a[0] == b[0] {
        lemma_lex_total(a.drop_first(), b.drop_first());
        if a.drop_first() == b.drop_first() {
            assert(a =~= seq![a[0]] + a.drop_first());
            assert(b =~= seq![b[0]] + b.drop_first());
        }
    } else if a.len() == 0 && b.len() == 0 {
        assert(a =~= b);
    }
}

pub proof fn lemma_lex_transitive(a: Seq<u8>, b: Seq<u8>, c: Seq<u8>)
    requires
        lex_lt(a, b),
        lex_lt(b, c),
    ensures
        lex_lt(a, c),
    decreases a.len(),
{
    if a.len() > 0 && b.len() > 0 && c.len() > 0 && a[0] == b[0] && b[0] == c[0] {
        lemma_lex_transitive(a.drop_first(), b.drop_first(), c.drop_first());
    }
}

/// Whether `a` orders strictly before `b`.
pub fn bytes_lt(a: &[u8], b: &[u8]) -> (r: bool)
    ensures
        r == lex_lt(a@, b@),
{
    let mut i: usize = 0;
    proof {
        assert(a@.skip(0) =~= a@);
        assert(b@.skip(0) =~= b@);
    }
    while i < a.len() && i < b.len()
        invariant
            i <= a@.len(),
            i <= b@.len(),
            a@.take(i as int) == b@.take(i as int),
            lex_lt(a@, b@) == lex_lt(a@.skip(i as int), b@.skip(i as int)),
        decreases a.len() - i,
    {
        if a[i] != b[i] {
            proof {
                assert(a@.skip(i as int)[0] == a@[i as int]);
                assert(b@.skip(i as int)[0] == b@[i as int]);
            }
            return a[i] < b[i];
        }
        proof {
            assert(a@.skip(i as int).drop_first() =~= a@.skip(i as int + 1));
            assert(b@.skip(i as int).drop_first() =~= b@.skip(i as int + 1));
            assert(a@.take(i as int + 1) =~= a@.take(i as int).push(a@[i as int]));
            assert(b@.take(i as int + 1) =~= b@.take(i as int).push(b@[i as int]));
        }
        i += 1;
    }
    i < b.len()
}

/// Whether `a` and `b` hold the same bytes.
pub fn bytes_eq(a: &[u8], b: &[u8]) -> (r: bool)
    ensures
        r == (a@ == b@),
{
    if a.len() != b.len() {
        return false;
    }
    let mut i: usize = 0;
    while i < a.len()
        invariant
            i <= a@.len(),
            a@.len() == b@.len(),
            forall|j: int| 0 <= j < i ==> a@[j] == b@[j],
        decreases a.len() - i,
    {
        if a[i] != b[i] {
            return false;
        }
        i += 1;
    }
    proof {
        assert(a@ =~= b@);
    }
    true
}

/// Strings in strictly increasing byte order (hence distinct).
pub open spec fn strictly_sorted(s: Seq<String>) -> bool {
    forall|i: int, j: int|
        0 <= i < j < s.len() ==> lex_lt(text_bytes(#[trigger] s[i]), text_bytes(#[trigger] s[j]))
}

/// The byte contents of a list of strings.
pub open spec fn byte_texts(s: Seq<String>) -> Seq<Seq<u8>> {
    s.map_values(|x: String| text_bytes(x))
}

/// Inserts `item` into a strictly sorted list unless an equal string is present.
pub fn insert_sorted(v: &mut Vec<String>, item: String)
    requires
        strictly_sorted(old(v)@),
    ensures
        strictly_sorted(final(v)@),
        byte_texts(final(v)@).to_set() == byte_texts(old(v)@).to_set().insert(text_bytes(item)),
        final(v)@.len() <= old(v)@.len() + 1,
{
    let ghost key = text_bytes(item);
    let mut i: usize = 0;
    while i < v.len() && !bytes_lt(bytes_of(&item), bytes_of(&v[i]))
        invariant
            i <= v@.len(),
            strictly_sorted(v@),
            v@ == old(v)@,
            key == text_bytes(item),
            forall|j: int| 0 <= j < i ==> lex_lt(text_bytes(#[trigger] v@[j]), key),
        decreases v.len() - i,
    {
        let current = bytes_of(&v[i]);
        let target = bytes_of(&item);
        proof {
            assert(byte_texts(v@)[i as int] == text_bytes(v@[i as int]));
        }
        if bytes_eq(current, target) {
            proof {
                assert(byte_texts(v@)[i as int] == key);
                assert(byte_texts(v@).to_set().insert(key) =~= byte_texts(v@).to_set());
            }
            return ;
        }
        proof {
            lemma_lex_total(text_bytes(v@[i as int]), key);
            assert(!lex_lt(key, text_bytes(v@[i as int])));
            assert(text_bytes(v@[i as int]) != key);
            assert(lex_lt(text_bytes(v@[i as int]), key));
        }
        i += 1;
    }
    let ghost before = v@;
    proof {
        if i < v@.len() {
            assert(lex_lt(key, text_bytes(v@[i as int])));
        }
    }
    v.insert(i, item);
    proof {
        assert(v@ =~= before.take(i as int).push(item) + before.skip(i as int));
        assert forall|a: int, b: int| 0 <= a < b < v@.len() implies lex_lt(
            text_bytes(#[trigger] v@[a]),
            text_bytes(#[trigger] v@[b]),
        ) by {
            if a < i && b == i {
            } else if a < i && b > i {
                assert(v@[b] == before[b - 1]);
                assert(v@[a] == before[a]);
                lemma_lex_transitive(text_bytes(before[a]), key, text_bytes(before[i as int]));
                if i as int != b - 1 {
                    lemma_lex_transitive(
                        text_bytes(before[a]),
                        text_bytes(before[i as int]),
                        text_bytes(before[b - 1]),
                    );
                }
            } else if a == i && b > i {
                assert(v@[b] == before[b - 1]);
                if b - 1 > i {
                    lemma_lex_transitive(
                        key,
                        text_bytes(before[i as int]),
                        text_bytes(before[b - 1]),
                    );
                }
            } else if a > i {
                assert(v@[a] == before[a - 1]);
                assert(v@[b] == before[b - 1]);
            }
        }
        assert(byte_texts(v@) =~= byte_texts(before).take(i as int).push(key) + byte_texts(
            before,
        ).skip(i as int));
        assert forall|x: Seq<u8>| byte_texts(v@).to_set().contains(x) <==> byte_texts(
            before,
        ).to_set().insert(key).contains(x) by {
            assert(byte_texts(v@)[i as int] == key);
            assert(byte_texts(v@).len() == byte_texts(before).len() + 1);
            assert forall|j: int| 0 <= j < i implies byte_texts(v@)[j] == byte_texts(before)[j] by {
                assert(v@[j] == before[j]);
            }
            assert forall|j: int| i < j < v@.len() implies byte_texts(v@)[j] == byte_texts(
                before,
            )[j - 1] by {
                assert(v@[j] == before[j - 1]);
            }
            if x == key {
                assert(byte_texts(v@).contains(key));
            }
            if byte_texts(before).to_set().contains(x) {
                let j = choose|j: int| 0 <= j < before.len() && byte_texts(before)[j] == x;
                if j < i {
                    assert(byte_texts(v@)[j] == x);
                } else {
                    assert(byte_texts(v@)[j + 1] == x);
                }
            }
            if byte_texts(v@).to_set().contains(x) {
                let j = choose|j: int| 0 <= j < v@.len() && byte_texts(v@)[j] == x;
                if j < i {
                    assert(byte_texts(before)[j] == x);
                } else if j > i {
                    assert(byte_texts(before)[j - 1] == x);
                }
            }
        }
        assert(byte_texts(v@).to_set() =~= byte_texts(before).to_set().insert(key));
    }
}

/// Whether `s` holds exactly the characters of `lit`.
pub fn text_is(s: &str, lit: &str) -> (r: bool)
    ensures
        r == (s@ == lit@),
{
    let n = s.unicode_len();
    if n != lit.unicode_len() {
        return false;
    }
    let mut i: usize = 0;
    while i < n
        invariant
            n == s@.len(),
            n == lit@.len(),
            i <= n,
            forall|j: int| 0 <= j < i ==> s@[j] == lit@[j],
        decreases n - i,
    {
        if s.get_char(i) != lit.get_char(i) {
            return false;
        }
        i += 1;
    }
    proof {
        assert(s@ =~= lit@);
    }
    true
}

} // verus!
