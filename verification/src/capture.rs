//! The captured source files of one compiler extraction: each file read once under the
//! root, within the file and byte budgets, then listed in path order with its digest.
use crate::graph::{sha256_hex, sha256_text};
use crate::text::{bytes_eq, bytes_of, text_bytes};
use vstd::utf8::encode_utf8;
use vstd::prelude::*;

verus! {

/// Most files one extraction may capture.
pub const MAX_FILES: usize = 4096;

/// Largest single captured file, in bytes.
pub const MAX_FILE_BYTES: usize = 4194304;

/// Most bytes all captured files may hold together.
pub const MAX_TOTAL_BYTES: usize = 67108864;

/// One captured file in the extraction manifest.
#[derive(Debug, Clone)]
pub struct CompilerSourceFile {
    pub path: String,
    pub sha256: String,
    pub byte_length: u32,
}

/// Rank of a path byte in path order: the separator comes before every other byte, so
/// that paths order component by component.
pub open spec fn path_rank(c: u8) -> int {
    if c == 47 {
        0
    } else {
        c as int + 1
    }
}

/// Whether relative path `a` orders strictly before `b`, component by component.
pub open spec fn path_before(a: Seq<u8>, b: Seq<u8>) -> bool
    decreases a.len(),
{
    if a.len() == 0 {
        b.len() > 0
    } else if b.len() == 0 {
        false
    } else if path_rank(a[0]) < path_rank(b[0]) {
        true
    } else if path_rank(a[0]) > path_rank(b[0]) {
        false
    } else {
        path_before(a.drop_first(), b.drop_first())
    }
}

proof fn lemma_path_total(a: Seq<u8>, b: Seq<u8>)
    ensures
        a != b ==> path_before(a, b) || path_before(b, a),
        !(path_before(a, b) && path_before(b, a)),
    decreases a.len(),
{
    if a.len() > 0 && b.len() > 0 && a[0] == b[0] {
        lemma_path_total(a.drop_first(), b.drop_first());
        if a.drop_first() == b.drop_first() {
            assert(a =~= seq![a[0]] + a.drop_first());
            assert(b =~= seq![b[0]] + b.drop_first());
        }
    } else if a.len() == 0 && b.len() == 0 {
        assert(a =~= b);
    }
}

proof fn lemma_path_transitive(a: Seq<u8>, b: Seq<u8>, c: Seq<u8>)
    requires
        path_before(a, b),
        path_before(b, c),
    ensures
        path_before(a, c),
    decreases a.len(),
{
    if a.len() > 0 && b.len() > 0 && c.len() > 0 && a[0] == b[0] && b[0] == c[0] {
        lemma_path_transitive(a.drop_first(), b.drop_first(), c.drop_first());
    }
}

/// Whether `a` orders strictly before `b` in path order.
fn path_lt(a: &[u8], b: &[u8]) -> (r: bool)
    ensures
        r == path_before(a@, b@),
{
    let mut i: usize = 0;
    proof {
        assert(a@.skip(0) =~= a@);
        assert(b@.skip(0) =~= b@);
    }
    while i < a.len() && i < b.len()
        invariant
            i <= a@.len(),
            i <= b@.len(),
            path_before(a@, b@) == path_before(a@.skip(i as int), b@.skip(i as int)),
        decreases a.len() - i,
    {
        if a[i] != b[i] {
            proof {
                assert(a@.skip(i as int)[0] == a@[i as int]);
                assert(b@.skip(i as int)[0] == b@[i as int]);
            }
            if a[i] == 47 {
                return true;
            }
            if b[i] == 47 {
                return false;
            }
            return a[i] < b[i];
        }
        proof {
            assert(a@.skip(i as int).drop_first() =~= a@.skip(i as int + 1));
            assert(b@.skip(i as int).drop_first() =~= b@.skip(i as int + 1));
        }
        i += 1;
    }
    i < b.len()
}

/// The relative path of a captured entry, as bytes.
pub open spec fn key_of(e: (String, Vec<u8>)) -> Seq<u8> {
    text_bytes(e.0)
}

/// A captured entry as plain values: its relative path and its bytes.
pub open spec fn entry_view(e: (String, Vec<u8>)) -> (Seq<char>, Seq<u8>) {
    (e.0@, e.1@)
}

/// The captured entries as plain values.
pub open spec fn entries_view(s: Seq<(String, Vec<u8>)>) -> Seq<(Seq<char>, Seq<u8>)> {
    s.map_values(|e: (String, Vec<u8>)| entry_view(e))
}

/// The total size of the captured files.
pub open spec fn total_bytes(s: Seq<(Seq<char>, Seq<u8>)>) -> int
    decreases s.len(),
{
    if s.len() == 0 {
        0
    } else {
        total_bytes(s.drop_last()) + s.last().1.len()
    }
}

/// Whether the paths of `v` are strictly ascending in path order.
pub open spec fn paths_ascending(v: Seq<(Seq<char>, Seq<u8>)>) -> bool {
    forall|i: int, j: int| 0 <= i < j < v.len() ==> path_before(encode_utf8(#[trigger] v[i].0), encode_utf8(#[trigger] v[j].0))
}

/// Whether the captured files are in strictly ascending path order and within budget.
pub open spec fn capture_wf(s: Seq<(String, Vec<u8>)>) -> bool {
    &&& s.len() <= MAX_FILES
    &&& total_bytes(entries_view(s)) <= MAX_TOTAL_BYTES
    &&& forall|i: int| 0 <= i < s.len() ==> (#[trigger] s[i]).1@.len() <= MAX_FILE_BYTES
    &&& forall|i: int, j: int| 0 <= i < j < s.len() ==> path_before(key_of(#[trigger] s[i]), key_of(#[trigger] s[j]))
}

/// The captured bytes of `path`, when it was captured.
pub open spec fn captured_bytes(s: Seq<(Seq<char>, Seq<u8>)>, path: Seq<char>) -> Option<Seq<u8>>
    decreases s.len(),
{
    if s.len() == 0 {
        None
    } else if s.last().0 == path {
        Some(s.last().1)
    } else {
        captured_bytes(s.drop_last(), path)
    }
}

/// Why a file could not be captured.
pub open spec fn admission_fault(s: Seq<(Seq<char>, Seq<u8>)>, size: int) -> Option<Seq<char>> {
    if s.len() >= MAX_FILES {
        Some("source file budget exceeded"@)
    } else if size > MAX_FILE_BYTES || size > MAX_TOTAL_BYTES - total_bytes(s) {
        Some("source byte budget exceeded"@)
    } else {
        None
    }
}

/// The files read for one extraction, by path relative to the source root. A file is read
/// at most once: later reads see the bytes first captured.
pub struct Capture {
    files: Vec<(String, Vec<u8>)>,
}

impl Capture {
    /// The captured files, in path order.
    pub closed spec fn view(&self) -> Seq<(Seq<char>, Seq<u8>)> {
        entries_view(self.files@)
    }

    /// Whether the capture is in path order and within its budgets.
    pub closed spec fn wf(&self) -> bool {
        capture_wf(self.files@)
    }

    /// A capture holding no file yet.
    pub fn new() -> (r: Capture)
        ensures
            r.wf(),
            r.view().len() == 0,
            paths_ascending(r.view()),
    {
        let r = Capture { files: Vec::new() };
        proof {
            assert(entries_view(r.files@) =~= Seq::<(Seq<char>, Seq<u8>)>::empty());
        }
        r
    }

    /// Position of the captured file at `path`.
    fn position(&self, path: &[u8]) -> (r: Option<usize>)
        ensures
            r matches Some(i) ==> i < self.files@.len() && key_of(self.files@[i as int]) == path@,
            r is None ==> forall|i: int| 0 <= i < self.files@.len() ==> key_of(#[trigger] self.files@[i]) != path@,
    {
        let mut i: usize = 0;
        while i < self.files.len()
            invariant
                i <= self.files@.len(),
                forall|j: int| 0 <= j < i ==> key_of(#[trigger] self.files@[j]) != path@,
            decreases self.files.len() - i,
        {
            if bytes_eq(bytes_of(&self.files[i].0), path) {
                return Some(i);
            }
            i += 1;
        }
        None
    }

    /// The captured bytes of the file at `path` (relative to the root), if it was captured.
    pub fn cached(&self, path: &str) -> (r: Option<Vec<u8>>)
        requires
            self.wf(),
        ensures
            match captured_bytes(self.view(), path@) {
                Some(b) => r matches Some(v) && v@ == b,
                None => r is None,
            },
    {
        match self.position(path.as_bytes()) {
            Some(i) => {
                proof {
                    lemma_found_key(self.files@, i as int, path@);
                }
                Some(self.files[i].1.clone())
            },
            None => {
                proof {
                    lemma_absent_key(self.files@, path@);
                }
                None
            },
        }
    }

    /// The relative path of the file at `path`, when it was captured.
    pub fn relative_path(&self, path: &str) -> (r: Option<String>)
        requires
            self.wf(),
        ensures
            captured_bytes(self.view(), path@) is Some ==> (r matches Some(p) && p@ == path@),
            captured_bytes(self.view(), path@) is None ==> r is None,
    {
        match self.position(path.as_bytes()) {
            Some(i) => {
                proof {
                    lemma_found_key(self.files@, i as int, path@);
                }
                Some(path.to_string())
            },
            None => {
                proof {
                    lemma_absent_key(self.files@, path@);
                }
                None
            },
        }
    }

    /// Captures `bytes` as the file at `path`, unless that file was captured before: then
    /// the bytes first captured are returned and nothing changes. A new file is refused
    /// when 4096 files are already captured, or when it exceeds 4 MiB or what remains of
    /// the 64 MiB total; otherwise it takes its place in path order.
    pub fn read(&mut self, path: String, bytes: Vec<u8>) -> (r: Result<Vec<u8>, String>)
        requires
            old(self).wf(),
        ensures
            final(self).wf(),
            paths_ascending(final(self).view()),
            match captured_bytes(old(self).view(), path@) {
                Some(b) => r matches Ok(v) && v@ == b && final(self).view() == old(self).view(),
                None => match admission_fault(old(self).view(), bytes@.len() as int) {
                    Some(m) => r matches Err(text) && text@ == m && final(self).view() == old(self).view(),
                    None => {
                        &&& r matches Ok(v) && v@ == bytes@
                        &&& exists|k: int| 0 <= k <= old(self).view().len()
                            && final(self).view() == old(self).view().insert(k, (path@, bytes@))
                        &&& captured_bytes(final(self).view(), path@) == Some(bytes@)
                    },
                },
            },
    {
        let key = bytes_of(&path);
        match self.position(key) {
            Some(i) => {
                proof {
                    lemma_found_key(self.files@, i as int, path@);
                }
                proof {
                    lemma_view_ascending(self.files@);
                }
                return Ok(self.files[i].1.clone());
            },
            None => {
                proof {
                    lemma_absent_key(self.files@, path@);
                }
            },
        }
        proof {
            lemma_view_ascending(self.files@);
        }
        if self.files.len() >= MAX_FILES {
            return Err("source file budget exceeded".to_string());
        }
        let used = self.used();
        if bytes.len() > MAX_FILE_BYTES || bytes.len() > MAX_TOTAL_BYTES - used {
            return Err("source byte budget exceeded".to_string());
        }
        let mut k: usize = 0;
        while k < self.files.len() && path_lt(bytes_of(&self.files[k].0), key)
            invariant
                k <= self.files@.len(),
                key@ == text_bytes(path),
                forall|j: int| 0 <= j < k ==> path_before(key_of(#[trigger] self.files@[j]), key@),
            decreases self.files.len() - k,
        {
            k += 1;
        }
        let ghost before = self.files@;
        let ghost nk = key@;
        let copy = bytes.clone();
        let entry = (path, copy);
        proof {
            assert(entry.1@ == bytes@);
            assert(key_of(entry) == nk);
        }
        self.files.insert(k, entry);
        proof {
            let s = self.files@;
            assert(s == before.insert(k as int, entry));
            assert forall|j: int| k <= j < before.len() implies path_before(nk, key_of(#[trigger] before[j])) by {
                assert(key_of(before[k as int]) != nk);
                lemma_path_total(nk, key_of(before[k as int]));
                if j > k {
                    lemma_path_transitive(nk, key_of(before[k as int]), key_of(before[j]));
                }
            }
            assert forall|i: int, j: int| 0 <= i < j < s.len() implies path_before(key_of(#[trigger] s[i]), key_of(#[trigger] s[j])) by {
                if j < k {
                    assert(s[i] == before[i] && s[j] == before[j]);
                } else if j == k {
                    assert(s[i] == before[i]);
                } else if i < k {
                    assert(s[i] == before[i] && s[j] == before[j - 1]);
                    lemma_path_transitive(key_of(before[i]), nk, key_of(before[j - 1]));
                } else if i == k {
                    assert(s[j] == before[j - 1]);
                } else {
                    assert(s[i] == before[i - 1] && s[j] == before[j - 1]);
                }
            }
            assert(entries_view(s) =~= entries_view(before).insert(k as int, (entry.0@, bytes@)));
            lemma_total_insert(entries_view(before), k as int, (entry.0@, bytes@));
            assert forall|i: int| 0 <= i < s.len() implies (#[trigger] s[i]).1@.len() <= MAX_FILE_BYTES by {
                if i < k {
                    assert(s[i] == before[i]);
                } else if i > k {
                    assert(s[i] == before[i - 1]);
                }
            }
            assert(s[k as int].0@ == entry.0@);
            lemma_found_key(s, k as int, entry.0@);
            lemma_view_ascending(s);
        }
        Ok(bytes)
    }

    /// The bytes captured so far.
    fn used(&self) -> (r: usize)
        requires
            capture_wf(self.files@),
        ensures
            r == total_bytes(entries_view(self.files@)),
    {
        let mut total: usize = 0;
        let mut i: usize = 0;
        while i < self.files.len()
            invariant
                i <= self.files@.len(),
                capture_wf(self.files@),
                total == total_bytes(entries_view(self.files@).take(i as int)),
                total <= MAX_TOTAL_BYTES,
            decreases self.files.len() - i,
        {
            proof {
                lemma_total_prefix(entries_view(self.files@), i + 1);
                assert(entries_view(self.files@)[i as int].1 == self.files@[i as int].1@);
            }
            total = total + self.files[i].1.len();
            i += 1;
        }
        proof {
            assert(entries_view(self.files@).take(i as int) =~= entries_view(self.files@));
        }
        total
    }

    /// The manifest of the captured files: each relative path in path order, with the
    /// SHA-256 digest and length of its captured bytes.
    pub fn files(&self) -> (r: Vec<CompilerSourceFile>)
        requires
            self.wf(),
        ensures
            r@.len() == self.view().len(),
            forall|i: int, j: int| 0 <= i < j < r@.len() ==> path_before(
                encode_utf8((#[trigger] r@[i]).path@),
                encode_utf8((#[trigger] r@[j]).path@),
            ),
            forall|i: int| 0 <= i < r@.len() ==> {
                &&& (#[trigger] r@[i]).path@ == self.view()[i].0
                &&& r@[i].sha256@ == sha256_hex(self.view()[i].1)
                &&& r@[i].byte_length == self.view()[i].1.len()
            },
    {
        let mut out: Vec<CompilerSourceFile> = Vec::new();
        let mut i: usize = 0;
        while i < self.files.len()
            invariant
                i <= self.files@.len(),
                capture_wf(self.files@),
                out@.len() == i,
                forall|j: int| 0 <= j < i ==> {
                    &&& (#[trigger] out@[j]).path == self.files@[j].0
                    &&& out@[j].sha256@ == sha256_hex(self.files@[j].1@)
                    &&& out@[j].byte_length == self.files@[j].1@.len()
                },
            decreases self.files.len() - i,
        {
            let entry = &self.files[i];
            proof {
                assert(entry.1@.len() <= MAX_FILE_BYTES);
            }
            let path = entry.0.clone();
            let digest = sha256_text(entry.1.as_slice());
            out.push(CompilerSourceFile { path, sha256: digest, byte_length: entry.1.len() as u32 });
            i += 1;
        }
        proof {
            assert forall|i: int| 0 <= i < out@.len() implies (#[trigger] out@[i]).path@ == self.view()[i].0 by {
                assert(self.view()[i] == entry_view(self.files@[i]));
            }
            lemma_view_ascending(self.files@);
            assert forall|i: int, j: int| 0 <= i < j < out@.len() implies path_before(
                encode_utf8((#[trigger] out@[i]).path@),
                encode_utf8((#[trigger] out@[j]).path@),
            ) by {
                assert(self.view()[i] == entry_view(self.files@[i]) && self.view()[j] == entry_view(self.files@[j]));
            }
        }
        out
    }
}

proof fn lemma_total_prefix(s: Seq<(Seq<char>, Seq<u8>)>, n: int)
    requires
        0 <= n <= s.len(),
    ensures
        total_bytes(s.take(n)) <= total_bytes(s),
        n > 0 ==> total_bytes(s.take(n)) == total_bytes(s.take(n - 1)) + s[n - 1].1.len(),
    decreases s.len(),
{
    if n > 0 {
        assert(s.take(n).drop_last() =~= s.take(n - 1));
    }
    if n < s.len() {
        lemma_total_prefix(s.drop_last(), n);
        assert(s.drop_last().take(n) =~= s.take(n));
    } else {
        assert(s.take(n) =~= s);
    }
}

proof fn lemma_total_insert(s: Seq<(Seq<char>, Seq<u8>)>, k: int, e: (Seq<char>, Seq<u8>))
    requires
        0 <= k <= s.len(),
    ensures
        total_bytes(s.insert(k, e)) == total_bytes(s) + e.1.len(),
    decreases s.len(),
{
    if k == s.len() {
        assert(s.insert(k, e).drop_last() =~= s);
    } else {
        lemma_total_insert(s.drop_last(), k, e);
        assert(s.insert(k, e).drop_last() =~= s.drop_last().insert(k, e));
        assert(s.insert(k, e).last() == s.last());
    }
}

/// Well-formed captures list their paths in strictly ascending path order.
proof fn lemma_view_ascending(s: Seq<(String, Vec<u8>)>)
    requires
        capture_wf(s),
    ensures
        paths_ascending(entries_view(s)),
{
    let v = entries_view(s);
    assert forall|i: int, j: int| 0 <= i < j < v.len() implies path_before(encode_utf8(#[trigger] v[i].0), encode_utf8(#[trigger] v[j].0)) by {
        assert(v[i] == entry_view(s[i]) && v[j] == entry_view(s[j]));
        assert(path_before(key_of(s[i]), key_of(s[j])));
    }
}

/// The bytes captured at a path held by exactly one entry are that entry's.
proof fn lemma_captured_at(v: Seq<(Seq<char>, Seq<u8>)>, i: int, path: Seq<char>)
    requires
        0 <= i < v.len(),
        v[i].0 == path,
        forall|a: int| 0 <= a < v.len() && a != i ==> (#[trigger] v[a]).0 != path,
    ensures
        captured_bytes(v, path) == Some(v[i].1),
    decreases v.len(),
{
    if i < v.len() - 1 {
        assert(v.last() == v[v.len() - 1]);
        assert forall|a: int| 0 <= a < v.drop_last().len() && a != i implies (#[trigger] v.drop_last()[a]).0 != path by {
            assert(v.drop_last()[a] == v[a]);
        }
        lemma_captured_at(v.drop_last(), i, path);
    }
}

/// No bytes are captured at a path no entry holds.
proof fn lemma_captured_none(v: Seq<(Seq<char>, Seq<u8>)>, path: Seq<char>)
    requires
        forall|a: int| 0 <= a < v.len() ==> (#[trigger] v[a]).0 != path,
    ensures
        captured_bytes(v, path) is None,
    decreases v.len(),
{
    if v.len() > 0 {
        assert(v.last() == v[v.len() - 1]);
        assert forall|a: int| 0 <= a < v.drop_last().len() implies (#[trigger] v.drop_last()[a]).0 != path by {
            assert(v.drop_last()[a] == v[a]);
        }
        lemma_captured_none(v.drop_last(), path);
    }
}

/// The entry at `i` is the one captured for its path.
proof fn lemma_found_key(s: Seq<(String, Vec<u8>)>, i: int, path: Seq<char>)
    requires
        forall|a: int, b: int| 0 <= a < b < s.len() ==> path_before(key_of(#[trigger] s[a]), key_of(#[trigger] s[b])),
        0 <= i < s.len(),
        key_of(s[i]) == encode_utf8(path) || s[i].0@ == path,
    ensures
        s[i].0@ == path,
        captured_bytes(entries_view(s), path) == Some(s[i].1@),
{
    vstd::utf8::encode_utf8_decode_utf8(path);
    vstd::utf8::encode_utf8_decode_utf8(s[i].0@);
    assert(key_of(s[i]) == encode_utf8(s[i].0@));
    let v = entries_view(s);
    assert(v[i] == entry_view(s[i]));
    assert forall|a: int| 0 <= a < v.len() && a != i implies (#[trigger] v[a]).0 != path by {
        assert(v[a] == entry_view(s[a]));
        if v[a].0 == path {
            assert(key_of(s[a]) == key_of(s[i]));
            lemma_path_total(key_of(s[i]), key_of(s[i]));
            if a < i {
                assert(path_before(key_of(s[a]), key_of(s[i])));
            } else {
                assert(path_before(key_of(s[i]), key_of(s[a])));
            }
        }
    }
    lemma_captured_at(v, i, path);
}

/// No entry is captured for a path whose bytes no entry has.
proof fn lemma_absent_key(s: Seq<(String, Vec<u8>)>, path: Seq<char>)
    requires
        forall|i: int| 0 <= i < s.len() ==> key_of(#[trigger] s[i]) != encode_utf8(path),
    ensures
        captured_bytes(entries_view(s), path) is None,
{
    let v = entries_view(s);
    assert forall|a: int| 0 <= a < v.len() implies (#[trigger] v[a]).0 != path by {
        assert(v[a] == entry_view(s[a]));
        assert(key_of(s[a]) == encode_utf8(s[a].0@));
    }
    lemma_captured_none(v, path);
}

} // verus!
