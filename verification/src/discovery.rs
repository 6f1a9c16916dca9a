//! Relative paths inside a captured source root: joining a manifest's directory with a
//! path it names, and resolving `.` and `..` without leaving the root.
use vstd::prelude::*;
use vstd::string::{StrSliceExecFns, StringExecFns};

verus! {

/// `value` taken relative to `base`: an absolute `value` stands alone; otherwise the two
/// are joined by one separator unless `base` is empty or already ends in one.
pub open spec fn joined(base: Seq<char>, value: Seq<char>) -> Seq<char> {
    if value.len() > 0 && value[0] == '/' {
        value
    } else if base.len() == 0 {
        value
    } else if base.last() == '/' {
        base + value
    } else {
        base + seq!['/'] + value
    }
}

/// The outcome of resolving segments: the remaining segments, or an escape above the root.
pub enum Resolved {
    Inside(Seq<Seq<char>>),
    Escapes,
}

/// Resolving one segment: empty and `.` segments vanish, `..` drops the last segment (and
/// escapes when there is none), and any other segment is kept.
pub open spec fn settle(r: Resolved, seg: Seq<char>) -> Resolved {
    match r {
        Resolved::Escapes => Resolved::Escapes,
        Resolved::Inside(st) => if seg.len() == 0 || seg == seq!['.'] {
            Resolved::Inside(st)
        } else if seg == seq!['.', '.'] {
            if st.len() == 0 {
                Resolved::Escapes
            } else {
                Resolved::Inside(st.drop_last())
            }
        } else {
            Resolved::Inside(st.push(seg))
        },
    }
}

/// After the first `n` characters of `s`: the segments resolved so far and the segment
/// being read.
pub open spec fn walk(s: Seq<char>, n: int) -> (Resolved, Seq<char>)
    decreases n,
{
    if n <= 0 {
        (Resolved::Inside(Seq::empty()), Seq::empty())
    } else {
        let (r, cur) = walk(s, n - 1);
        if s[n - 1] == '/' {
            (settle(r, cur), Seq::empty())
        } else {
            (r, cur.push(s[n - 1]))
        }
    }
}

/// Resolving every segment of `s`.
pub open spec fn resolve(s: Seq<char>) -> Resolved {
    let (r, cur) = walk(s, s.len() as int);
    settle(r, cur)
}

/// Segments joined by single separators.
pub open spec fn render(st: Seq<Seq<char>>) -> Seq<char>
    decreases st.len(),
{
    if st.len() == 0 {
        Seq::empty()
    } else if st.len() == 1 {
        st[0]
    } else {
        render(st.drop_last()) + seq!['/'] + st.last()
    }
}

/// The refusal of an absolute path.
pub open spec fn absolute_message(value: Seq<char>) -> Seq<char> {
    "absolute source path is not allowed: "@ + value
}

/// The refusal of a path that climbs above the root.
pub open spec fn escape_message(value: Seq<char>) -> Seq<char> {
    "path escapes captured source root: "@ + value
}

/// Resolves `value` against the directory `base`, both relative to a captured source
/// root: `.` and empty segments vanish and `..` drops a segment. Absolute results and
/// results that climb above the root are refused.
pub fn normalize_relative(base: &str, value: &str) -> (r: Result<String, String>)
    ensures
        ({
            let j = joined(base@, value@);
            if j.len() > 0 && j[0] == '/' {
                r matches Err(m) && m@ == absolute_message(value@)
            } else {
                match resolve(j) {
                    Resolved::Escapes => r matches Err(m) && m@ == escape_message(value@),
                    Resolved::Inside(st) => r matches Ok(p) && p@ == render(st),
                }
            }
        }),
{
    let vlen = value.unicode_len();
    let blen = base.unicode_len();
    let mut path = String::from_str(value);
    if !(vlen > 0 && value.get_char(0) == '/') && blen > 0 {
        path = String::from_str(base);
        if base.get_char(blen - 1) != '/' {
            path.append("/");
        }
        path.append(value);
    }
    let ghost j = joined(base@, value@);
    proof {
        reveal_strlit("/");
        if !(value@.len() > 0 && value@[0] == '/') && base@.len() > 0 {
            assert(base@.last() == base@[base@.len() - 1]);
        }
        assert(path@ =~= j);
    }
    let text = path.as_str();
    let n = text.unicode_len();
    if n > 0 && text.get_char(0) == '/' {
        let mut m = String::from_str("absolute source path is not allowed: ");
        m.append(value);
        return Err(m);
    }
    let mut stack: Vec<(usize, usize)> = Vec::new();
    let mut start: usize = 0;
    let mut i: usize = 0;
    proof {
        assert(segments_of(j, stack@) =~= Seq::<Seq<char>>::empty());
        assert(j.subrange(0, 0) =~= Seq::<char>::empty());
    }
    while i < n
        invariant
            i <= n,
            n == j.len(),
            text@ == j,
            j == joined(base@, value@),
            !(j.len() > 0 && j[0] == '/'),
            start <= i,
            forall|k: int| 0 <= k < stack@.len() ==> (#[trigger] stack@[k]).0 <= stack@[k].1 <= n,
            walk(j, i as int) == (Resolved::Inside(segments_of(j, stack@)), j.subrange(start as int, i as int)),
        decreases n - i,
    {
        let c = text.get_char(i);
        proof {
            assert(c == j[i as int]);
            if c == '/' {
                assert(walk(j, i as int + 1) == (settle(walk(j, i as int).0, walk(j, i as int).1), Seq::<char>::empty()));
            } else {
                assert(walk(j, i as int + 1) == (walk(j, i as int).0, walk(j, i as int).1.push(c)));
            }
        }
        if c == '/' {
            let ghost cur = j.subrange(start as int, i as int);
            let ghost before = segments_of(j, stack@);
            assert(cur.len() == i - start);
            let len = i - start;
            if len == 0 || (len == 1 && text.get_char(start) == '.') {
                proof {
                    if len == 1 {
                        assert(cur =~= seq!['.']);
                    }
                }
            } else if len == 2 && text.get_char(start) == '.' && text.get_char(start + 1) == '.' {
                proof {
                    assert(cur =~= seq!['.', '.']);
                }
                if stack.len() == 0 {
                    proof {
                        assert(before.len() == 0);
                        assert(j[i as int] == '/');
                        assert(settle(Resolved::Inside(before), cur) == Resolved::Escapes);
                        assert(walk(j, i as int + 1).0 == Resolved::Escapes);
                        lemma_walk_escapes(j, i as int + 1);
                    }
                    let mut m = String::from_str("path escapes captured source root: ");
                    m.append(value);
                    return Err(m);
                }
                stack.pop();
                proof {
                    assert(segments_of(j, stack@) =~= before.drop_last());
                }
            } else {
                proof {
                    if len == 1 {
                        assert(cur != seq!['.']) by {
                            assert(cur[0] == j[start as int]);
                        }
                    }
                    if len == 2 {
                        assert(cur != seq!['.', '.']) by {
                            assert(cur[0] == j[start as int]);
                            assert(cur[1] == j[start + 1]);
                        }
                    }
                }
                stack.push((start, i));
                proof {
                    assert(segments_of(j, stack@) =~= before.push(cur));
                }
            }
            start = i + 1;
            proof {
                assert(j.subrange(start as int, i + 1) =~= Seq::<char>::empty());
            }
        } else {
            proof {
                assert(j.subrange(start as int, i + 1) =~= j.subrange(start as int, i as int).push(c));
            }
        }
        i += 1;
    }
    let ghost cur = j.subrange(start as int, n as int);
    let ghost before = segments_of(j, stack@);
    let len = n - start;
    if len == 0 || (len == 1 && text.get_char(start) == '.') {
        proof {
            if len == 1 {
                assert(cur =~= seq!['.']);
            }
        }
    } else if len == 2 && text.get_char(start) == '.' && text.get_char(start + 1) == '.' {
        proof {
            assert(cur =~= seq!['.', '.']);
        }
        if stack.len() == 0 {
            let mut m = String::from_str("path escapes captured source root: ");
            m.append(value);
            return Err(m);
        }
        stack.pop();
        proof {
            assert(segments_of(j, stack@) =~= before.drop_last());
        }
    } else {
        proof {
            if len == 1 {
                assert(cur != seq!['.']) by {
                    assert(cur[0] == j[start as int]);
                }
            }
            if len == 2 {
                assert(cur != seq!['.', '.']) by {
                    assert(cur[0] == j[start as int]);
                    assert(cur[1] == j[start + 1]);
                }
            }
        }
        stack.push((start, n));
        proof {
            assert(segments_of(j, stack@) =~= before.push(cur));
        }
    }
    let mut out = String::from_str("");
    proof {
        reveal_strlit("");
        assert(segments_of(j, stack@).take(0) =~= Seq::<Seq<char>>::empty());
    }
    let mut k: usize = 0;
    while k < stack.len()
        invariant
            k <= stack@.len(),
            text@ == j,
            n == j.len(),
            forall|x: int| 0 <= x < stack@.len() ==> (#[trigger] stack@[x]).0 <= stack@[x].1 <= n,
            out@ == render(segments_of(j, stack@).take(k as int)),
        decreases stack.len() - k,
    {
        let (a, b) = stack[k];
        let piece = text.substring_char(a, b);
        proof {
            let segs = segments_of(j, stack@);
            assert(segs.take(k + 1).drop_last() =~= segs.take(k as int));
            assert(segs.take(k + 1).last() == segs[k as int]);
        }
        if k > 0 {
            out.append("/");
        }
        out.append(piece);
        proof {
            reveal_strlit("/");
            let segs = segments_of(j, stack@);
            if k == 0 {
                assert(segs.take(1) =~= seq![segs[0]]);
                assert(out@ =~= render(segs.take(1)));
            } else {
                assert(out@ =~= render(segs.take(k as int)) + seq!['/'] + segs[k as int]);
            }
        }
        k += 1;
    }
    proof {
        assert(segments_of(j, stack@).take(k as int) =~= segments_of(j, stack@));
    }
    Ok(out)
}

/// The segments that index pairs select from `s`.
pub open spec fn segments_of(s: Seq<char>, pairs: Seq<(usize, usize)>) -> Seq<Seq<char>> {
    pairs.map_values(|p: (usize, usize)| s.subrange(p.0 as int, p.1 as int))
}

/// An escape stays an escape through the rest of the walk.
proof fn lemma_walk_escapes(s: Seq<char>, n: int)
    requires
        0 < n <= s.len(),
        walk(s, n).0 == Resolved::Escapes,
    ensures
        resolve(s) == Resolved::Escapes,
    decreases s.len() - n,
{
    if n < s.len() {
        lemma_walk_escapes(s, n + 1);
    }
}

} // verus!
