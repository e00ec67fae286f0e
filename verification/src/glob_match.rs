//! Glob pattern matching for filename detection.
//!
//! Supports `*` (matches any sequence of bytes) and `?` (matches exactly one
//! byte). Patterns are matched against whole filenames, not paths. The
//! executable matcher is the classic iterative backtracking algorithm that
//! remembers only the most recent `*`; it is proved equivalent to the
//! declarative recursive definition [`glob_match`].

use vstd::prelude::*;
use vstd::string::StringSliceAdditionalSpecFns;

verus! {

/// The declarative meaning of a glob match on byte strings: `*` (byte 42)
/// absorbs any number of bytes, `?` (byte 63) exactly one, any other
/// pattern byte only itself.
pub open spec fn glob_match(p: Seq<u8>, t: Seq<u8>) -> bool
    decreases p.len() + t.len(),
{
    if p.len() == 0 {
        t.len() == 0
    } else if p[0] == 42u8 {
        glob_match(p.skip(1), t) || (t.len() > 0 && glob_match(p, t.skip(1)))
    } else if t.len() == 0 {
        false
    } else {
        (p[0] == 63u8 || p[0] == t[0]) && glob_match(p.skip(1), t.skip(1))
    }
}

/// One non-`*` pattern byte against one text byte.
spec fn char_match(pc: u8, tc: u8) -> bool {
    pc == 63u8 || pc == tc
}

/// A pattern fragment with no `*` in it.
spec fn star_free(s: Seq<u8>) -> bool {
    forall|i: int| 0 <= i < s.len() ==> s[i] != 42u8
}

/// A star-free fragment matching a text fragment byte for byte.
spec fn seg_matches(seg: Seq<u8>, u: Seq<u8>) -> bool {
    seg.len() == u.len() && forall|i: int| 0 <= i < seg.len() ==> char_match(seg[i], u[i])
}

/// Unfolding a non-`*` head: the heads must match and the tails must match.
proof fn lemma_char_step(p: Seq<u8>, t: Seq<u8>)
    requires
        p.len() > 0,
        p[0] != 42u8,
    ensures
        glob_match(p, t) <==> (t.len() > 0 && char_match(p[0], t[0]) && glob_match(
            p.skip(1),
            t.skip(1),
        )),
{
}

/// Unfolding a `*` head: the star absorbs some prefix of the text.
proof fn lemma_star_unfold(p: Seq<u8>, t: Seq<u8>)
    requires
        p.len() > 0,
        p[0] == 42u8,
    ensures
        glob_match(p, t) <==> exists|k: int|
            0 <= k <= t.len() && glob_match(p.skip(1), t.skip(k)),
    decreases t.len(),
{
    if glob_match(p, t) {
        if glob_match(p.skip(1), t) {
            assert(t.skip(0) =~= t);
            assert(0 <= 0 <= t.len() && glob_match(p.skip(1), t.skip(0)));
        } else {
            assert(t.len() > 0 && glob_match(p, t.skip(1)));
            lemma_star_unfold(p, t.skip(1));
            let k = choose|k: int|
                0 <= k <= t.skip(1).len() && glob_match(p.skip(1), t.skip(1).skip(k));
            assert(t.skip(1).skip(k) =~= t.skip(k + 1));
            assert(0 <= k + 1 <= t.len() && glob_match(p.skip(1), t.skip(k + 1)));
        }
    }
    if exists|k: int| 0 <= k <= t.len() && glob_match(p.skip(1), t.skip(k)) {
        let k = choose|k: int| 0 <= k <= t.len() && glob_match(p.skip(1), t.skip(k));
        if k == 0 {
            assert(t.skip(0) =~= t);
            assert(glob_match(p.skip(1), t));
        } else {
            assert(t.len() > 0);
            assert(t.skip(1).skip(k - 1) =~= t.skip(k));
            assert(0 <= k - 1 <= t.skip(1).len() && glob_match(p.skip(1), t.skip(1).skip(k - 1)));
            lemma_star_unfold(p, t.skip(1));
            assert(glob_match(p, t.skip(1)));
        }
    }
}

/// A star-free fragment in front of a pattern matches exactly when the text
/// starts with a byte-for-byte match of the fragment and the remainder of
/// the pattern matches the remainder of the text.
proof fn lemma_star_free_prefix(seg: Seq<u8>, rest: Seq<u8>, u: Seq<u8>)
    requires
        star_free(seg),
    ensures
        glob_match(seg + rest, u) <==> (u.len() >= seg.len() && seg_matches(
            seg,
            u.take(seg.len() as int),
        ) && glob_match(rest, u.skip(seg.len() as int))),
    decreases seg.len(),
{
    if seg.len() == 0 {
        assert(seg + rest =~= rest);
        assert(u.take(0) =~= Seq::<u8>::empty());
        assert(u.skip(0) =~= u);
        assert(seg_matches(seg, u.take(0)));
    } else {
        let s1 = seg.skip(1);
        let l = seg.len() as int;
        assert((seg + rest).len() > 0);
        assert((seg + rest)[0] == seg[0]);
        assert(seg[0] != 42u8);
        lemma_char_step(seg + rest, u);
        assert((seg + rest).skip(1) =~= s1 + rest);
        assert(star_free(s1));
        lemma_star_free_prefix(s1, rest, u.skip(1));
        if u.len() >= seg.len() {
            assert(u.skip(1).skip(l - 1) =~= u.skip(l));
            assert(u.skip(1).take(l - 1) =~= u.take(l).skip(1));
            if u.len() > 0 && char_match(seg[0], u[0]) {
                assert(seg_matches(seg, u.take(l)) <==> seg_matches(s1, u.skip(1).take(l - 1)))
                    by {
                    if seg_matches(seg, u.take(l)) {
                        assert forall|i: int|
                            0 <= i < s1.len() implies char_match(
                            s1[i],
                            u.skip(1).take(l - 1)[i],
                        ) by {
                            assert(s1[i] == seg[i + 1]);
                            assert(u.skip(1).take(l - 1)[i] == u.take(l)[i + 1]);
                            assert(char_match(seg[i + 1], u.take(l)[i + 1]));
                        }
                    }
                    if seg_matches(s1, u.skip(1).take(l - 1)) {
                        assert forall|i: int|
                            0 <= i < seg.len() implies char_match(seg[i], u.take(l)[i]) by {
                            if i == 0 {
                                assert(u.take(l)[0] == u[0]);
                            } else {
                                assert(seg[i] == s1[i - 1]);
                                assert(u.take(l)[i] == u.skip(1).take(l - 1)[i - 1]);
                                assert(char_match(s1[i - 1], u.skip(1).take(l - 1)[i - 1]));
                            }
                        }
                    }
                }
            } else {
                assert(!glob_match(seg + rest, u));
                if u.len() > 0 {
                    assert(seg_matches(seg, u.take(l)) ==> char_match(seg[0], u.take(l)[0])
                        && u.take(l)[0] == u[0]);
                }
            }
        } else {
            assert(u.skip(1).len() < s1.len() || u.len() == 0);
            assert(!(u.skip(1).len() >= s1.len()) || u.len() == 0);
            assert(!glob_match(s1 + rest, u.skip(1)) || u.len() == 0);
        }
    }
}

/// Check whether a filename pattern contains glob bytes (`*` or `?`).
pub fn is_glob_pattern(pattern: &str) -> (r: bool)
    ensures
        r == exists|i: int|
            0 <= i < pattern.spec_bytes().len() && (pattern.spec_bytes()[i] == 42u8
                || pattern.spec_bytes()[i] == 63u8),
{
    let bytes = pattern.as_bytes();
    let mut i: usize = 0;
    while i < bytes.len()
        invariant
            i <= bytes@.len(),
            bytes@ == pattern.spec_bytes(),
            forall|j: int| 0 <= j < i ==> bytes@[j] != 42u8 && bytes@[j] != 63u8,
        decreases bytes@.len() - i,
    {
        let b = bytes[i];
        if b == 42u8 || b == 63u8 {
            return true;
        }
        i += 1;
    }
    false
}

/// Match a glob pattern against a filename (not a full path). The match
/// covers the entire filename and is byte-wise over the UTF-8 encodings.
pub fn filename_glob_matches(pattern: &str, filename: &str) -> (r: bool)
    ensures
        r == glob_match(pattern.spec_bytes(), filename.spec_bytes()),
{
    glob_match_bytes(pattern.as_bytes(), filename.as_bytes())
}

/// Iterative glob matching on byte slices using a backtracking algorithm:
/// on a mismatch, fall back to the most recent `*` and let it absorb one
/// more byte. Proved to decide exactly [`glob_match`].
pub fn glob_match_bytes(pattern: &[u8], text: &[u8]) -> (r: bool)
    ensures
        r == glob_match(pattern@, text@),
{
    let ghost pt = pattern@;
    let ghost tx = text@;
    let mut p: usize = 0;
    let mut t: usize = 0;
    // Track the last `*` position for backtracking
    let mut has_star: bool = false;
    let mut star_p: usize = 0;
    let mut star_t: usize = 0;
    proof {
        assert(pt.skip(0) =~= pt);
        assert(tx.skip(0) =~= tx);
    }
    while t < text.len()
        invariant
            pt == pattern@,
            tx == text@,
            p <= pt.len(),
            t <= tx.len(),
            star_t <= t,
            has_star ==> star_p < p && pt[star_p as int] == 42u8 && star_t <= t && t - star_t == p
                - star_p - 1 && star_free(pt.subrange(star_p + 1, p as int)) && seg_matches(
                pt.subrange(star_p + 1, p as int),
                tx.subrange(star_t as int, t as int),
            ),
            glob_match(pt, tx) == (glob_match(pt.skip(p as int), tx.skip(t as int)) || (has_star
                && exists|k: int|
                star_t < k <= tx.len() && glob_match(pt.skip(star_p + 1), tx.skip(k)))),
        decreases tx.len() - star_t, tx.len() - t, pt.len() - p,
    {
        if p < pattern.len() && pattern[p] == 42u8 {
            proof {
                let sp = pt.skip(p as int);
                assert(sp[0] == pt[p as int]);
                assert(sp.skip(1) =~= pt.skip(p + 1));
                lemma_star_unfold(sp, tx.skip(t as int));
                // The suffix at p matches iff the star absorbs some k - t bytes.
                assert forall|k: int|
                    0 <= k <= tx.skip(t as int).len() && glob_match(
                        sp.skip(1),
                        tx.skip(t as int).skip(k),
                    ) implies exists|k2: int|
                    t <= k2 <= tx.len() && glob_match(pt.skip(p + 1), tx.skip(k2)) by {
                    assert(tx.skip(t as int).skip(k) =~= tx.skip(t + k));
                    assert(t <= t + k <= tx.len() && glob_match(pt.skip(p + 1), tx.skip(t + k)));
                }
                assert forall|k2: int|
                    t <= k2 <= tx.len() && glob_match(pt.skip(p + 1), tx.skip(k2)) implies exists|
                    k: int,
                |
                    0 <= k <= tx.skip(t as int).len() && glob_match(
                        sp.skip(1),
                        tx.skip(t as int).skip(k),
                    ) by {
                    assert(tx.skip(t as int).skip(k2 - t) =~= tx.skip(k2));
                    assert(0 <= k2 - t <= tx.skip(t as int).len() && glob_match(
                        sp.skip(1),
                        tx.skip(t as int).skip(k2 - t),
                    ));
                }
                // Any surviving alternative of the previous star is subsumed
                // by an alternative of this new one.
                if has_star && exists|k: int|
                    star_t < k <= tx.len() && glob_match(pt.skip(star_p + 1), tx.skip(k)) {
                    let k = choose|k: int|
                        star_t < k <= tx.len() && glob_match(pt.skip(star_p + 1), tx.skip(k));
                    let seg = pt.subrange(star_p + 1, p as int);
                    let l = seg.len() as int;
                    assert(pt.skip(star_p + 1) =~= seg + pt.skip(p as int));
                    lemma_star_free_prefix(seg, pt.skip(p as int), tx.skip(k));
                    assert(glob_match(pt.skip(p as int), tx.skip(k).skip(l)));
                    assert(tx.skip(k).skip(l) =~= tx.skip(k + l));
                    assert(glob_match(sp, tx.skip(k + l)));
                    lemma_star_unfold(sp, tx.skip(k + l));
                    let j = choose|j: int|
                        0 <= j <= tx.skip(k + l).len() && #[trigger] glob_match(
                            sp.skip(1),
                            tx.skip(k + l).skip(j),
                        );
                    assert(tx.skip(k + l).skip(j) =~= tx.skip(k + l + j));
                    assert(t < k + l + j <= tx.len() && glob_match(
                        pt.skip(p + 1),
                        tx.skip(k + l + j),
                    ));
                }
                assert(pt.subrange(p + 1, p + 1) =~= Seq::<u8>::empty());
                assert(tx.subrange(t as int, t as int) =~= Seq::<u8>::empty());
            }
            star_p = p;
            star_t = t;
            has_star = true;
            p = p + 1;
        } else if p < pattern.len() && (pattern[p] == 63u8 || pattern[p] == text[t]) {
            proof {
                let sp = pt.skip(p as int);
                let st = tx.skip(t as int);
                assert(sp[0] == pt[p as int] && st[0] == tx[t as int]);
                lemma_char_step(sp, st);
                assert(sp.skip(1) =~= pt.skip(p + 1));
                assert(st.skip(1) =~= tx.skip(t + 1));
                if has_star {
                    let seg = pt.subrange(star_p + 1, p as int);
                    let seg2 = pt.subrange(star_p + 1, p + 1);
                    let u = tx.subrange(star_t as int, t as int);
                    let u2 = tx.subrange(star_t as int, t + 1);
                    assert(seg2 =~= seg.push(pt[p as int]));
                    assert(u2 =~= u.push(tx[t as int]));
                    assert(seg_matches(seg2, u2)) by {
                        assert forall|i: int| 0 <= i < seg2.len() implies char_match(
                            seg2[i],
                            u2[i],
                        ) by {
                            if i < seg.len() {
                                assert(seg2[i] == seg[i] && u2[i] == u[i]);
                                assert(char_match(seg[i], u[i]));
                            } else {
                                assert(seg2[i] == pt[p as int] && u2[i] == tx[t as int]);
                            }
                        }
                    }
                    assert(star_free(seg2)) by {
                        assert forall|i: int| 0 <= i < seg2.len() implies seg2[i] != 42u8 by {
                            if i < seg.len() {
                                assert(seg2[i] == seg[i]);
                            } else {
                                assert(seg2[i] == pt[p as int]);
                            }
                        }
                    }
                }
            }
            p = p + 1;
            t = t + 1;
        } else if has_star {
            proof {
                let sp = pt.skip(p as int);
                let st = tx.skip(t as int);
                // The direct continuation is dead: either the pattern is
                // exhausted against remaining text, or the heads mismatch.
                if p < pt.len() {
                    assert(sp[0] == pt[p as int]);
                    assert(st[0] == tx[t as int]);
                    lemma_char_step(sp, st);
                    assert(!glob_match(sp, st));
                } else {
                    assert(sp =~= Seq::<u8>::empty());
                    assert(st.len() > 0);
                    assert(!glob_match(sp, st));
                }
                // Folding the k == star_t + 1 case into the new direct
                // continuation keeps the disjunction exactly.
                assert forall|k: int|
                    star_t + 1 < k <= tx.len() && glob_match(pt.skip(star_p + 1), tx.skip(k))
                        implies exists|k2: int|
                    star_t + 1 < k2 <= tx.len() && glob_match(pt.skip(star_p + 1), tx.skip(k2)) by {
                }
            }
            p = star_p + 1;
            star_t = star_t + 1;
            t = star_t;
            proof {
                assert(pt.subrange(star_p + 1, p as int) =~= Seq::<u8>::empty());
                assert(tx.subrange(star_t as int, t as int) =~= Seq::<u8>::empty());
            }
        } else {
            proof {
                let sp = pt.skip(p as int);
                let st = tx.skip(t as int);
                if p < pt.len() {
                    assert(sp[0] == pt[p as int]);
                    assert(st[0] == tx[t as int]);
                    lemma_char_step(sp, st);
                } else {
                    assert(sp =~= Seq::<u8>::empty());
                    assert(st.len() > 0);
                }
                assert(!glob_match(sp, st));
            }
            return false;
        }
    }
    proof {
        // At the end of the text no pending star alternative can still
        // succeed: its star-free segment is as long as the rest of the text
        // from the old mark, so absorbing even one more byte runs out.
        if has_star {
            assert forall|k: int|
                star_t < k <= tx.len() implies !glob_match(pt.skip(star_p + 1), tx.skip(k)) by {
                let seg = pt.subrange(star_p + 1, p as int);
                assert(pt.skip(star_p + 1) =~= seg + pt.skip(p as int));
                lemma_star_free_prefix(seg, pt.skip(p as int), tx.skip(k));
                assert(tx.skip(k).len() < seg.len());
            }
        }
    }
    // Consume trailing `*`s in the pattern
    while p < pattern.len() && pattern[p] == 42u8
        invariant
            pt == pattern@,
            tx == text@,
            p <= pt.len(),
            t == tx.len(),
            glob_match(pt, tx) == glob_match(pt.skip(p as int), tx.skip(t as int)),
        decreases pt.len() - p,
    {
        proof {
            let sp = pt.skip(p as int);
            assert(sp[0] == pt[p as int]);
            assert(tx.skip(t as int).len() == 0);
            assert(sp.skip(1) =~= pt.skip(p + 1));
        }
        p = p + 1;
    }
    proof {
        let sp = pt.skip(p as int);
        let st = tx.skip(t as int);
        assert(st.len() == 0);
        if p == pt.len() {
            assert(sp =~= Seq::<u8>::empty());
            assert(glob_match(sp, st));
        } else {
            assert(sp[0] == pt[p as int]);
            assert(sp[0] != 42u8);
            assert(!glob_match(sp, st));
        }
    }
    p == pattern.len()
}

} // verus!
