//! Laws about `replace_all`: a replacement can leave no occurrence of its
//! own pattern behind, and it can preserve the absence of an unrelated
//! pattern. These carry the log-format safety of note creation and the
//! idempotence of the archiver's repair step.

use vstd::prelude::*;
use crate::text::{contains_seq, is_space, lemma_trim_back_len, lemma_trim_front_len, matches_at,
    replace_all, starts_with, trim, trim_back, trim_front};

verus! {

/// A match on the right part of a concatenation.
proof fn lemma_matches_concat_right(x: Seq<char>, y: Seq<char>, p: Seq<char>, k: int)
    requires
        matches_at(x + y, p, k),
        k >= x.len(),
    ensures
        matches_at(y, p, k - x.len()),
{
    assert(y.subrange(k - x.len(), k - x.len() + p.len() as int) =~= (x + y).subrange(
        k,
        k + p.len() as int,
    ));
}

/// A matched pattern pins down each character it covers.
proof fn lemma_matches_char(s: Seq<char>, p: Seq<char>, k: int, m: int)
    requires
        matches_at(s, p, k),
        0 <= m < p.len(),
    ensures
        s[k + m] == p[m],
{
    assert(s.subrange(k, k + p.len() as int)[m] == p[m]);
}

/// If no character of `t` equals the first character of `d`, then `d`
/// does not occur in `t`.
pub proof fn lemma_no_first_char_no_occurrence(t: Seq<char>, d: Seq<char>)
    requires
        d.len() > 0,
        forall|i: int| 0 <= i < t.len() ==> t[i] != d[0],
    ensures
        !contains_seq(t, d),
{
    assert forall|k: int| !matches_at(t, d, k) by {
        if matches_at(t, d, k) {
            lemma_matches_char(t, d, k, 0);
        }
    }
}

/// Absence of a pattern carries over to any contiguous part.
pub proof fn lemma_absence_subrange(s: Seq<char>, p: Seq<char>, a: int, b: int)
    requires
        !contains_seq(s, p),
        0 <= a <= b <= s.len(),
    ensures
        !contains_seq(s.subrange(a, b), p),
{
    assert forall|k: int| !matches_at(s.subrange(a, b), p, k) by {
        if matches_at(s.subrange(a, b), p, k) {
            assert(s.subrange(a + k, a + k + p.len() as int) =~= s.subrange(a, b).subrange(
                k,
                k + p.len() as int,
            ));
            assert(matches_at(s, p, a + k));
        }
    }
}

/// If some part of `d` is absent from `s`, so is `d` itself.
pub proof fn lemma_absence_of_superstring(s: Seq<char>, d: Seq<char>, e: Seq<char>, o: int)
    requires
        !contains_seq(s, e),
        0 <= o,
        o + e.len() <= d.len(),
        d.subrange(o, o + e.len() as int) == e,
    ensures
        !contains_seq(s, d),
{
    assert forall|k: int| !matches_at(s, d, k) by {
        if matches_at(s, d, k) {
            assert(s.subrange(k + o, k + o + e.len() as int) =~= s.subrange(
                k,
                k + d.len() as int,
            ).subrange(o, o + e.len() as int));
            assert(matches_at(s, e, k + o));
        }
    }
}

/// After replacing `p` by `t`, no occurrence of `p` remains, provided the
/// pattern's first character reappears nowhere it could rebuild a match:
/// not later in `p`, not in `t` after its start, and `t` is told apart
/// from `p` by some position they share.
///
/// The second conclusion is the induction strengthening: a proper tail of
/// `p` standing at the front of the result must already stand at the
/// front of the input.
pub proof fn lemma_replace_removes_pattern(s: Seq<char>, p: Seq<char>, t: Seq<char>)
    requires
        p.len() > 0,
        t.len() > 0,
        forall|l: int| 1 <= l < p.len() ==> p[l] != t[0],
        forall|k: int| 0 < k < t.len() ==> t[k] != p[0],
        exists|j: int| 0 <= j < p.len() && j < t.len() && p[j] != t[j],
    ensures
        !contains_seq(replace_all(s, p, t), p),
        forall|l: int|
            1 <= l <= p.len() && starts_with(#[trigger] replace_all(s, p, t), p.skip(l))
                ==> starts_with(s, p.skip(l)),
    decreases s.len(),
{
    let r = replace_all(s, p, t);
    if s.len() < p.len() {
        assert forall|k: int| !matches_at(r, p, k) by {}
    } else if s.subrange(0, p.len() as int) == p {
        let s2 = s.skip(p.len() as int);
        let r2 = replace_all(s2, p, t);
        lemma_replace_removes_pattern(s2, p, t);
        assert(r == t + r2);
        assert forall|k: int| !matches_at(r, p, k) by {
            if matches_at(r, p, k) {
                if k >= t.len() {
                    lemma_matches_concat_right(t, r2, p, k);
                } else if k > 0 {
                    lemma_matches_char(r, p, k, 0);
                    assert(r[k] == t[k]);
                } else {
                    let j = choose|j: int| 0 <= j < p.len() && j < t.len() && p[j] != t[j];
                    lemma_matches_char(r, p, 0, j);
                    assert(r[j] == t[j]);
                }
            }
        }
        assert forall|l: int|
            1 <= l <= p.len() && starts_with(r, p.skip(l)) implies starts_with(s, p.skip(l)) by {
            if l < p.len() {
                assert(r[0] == p.skip(l)[0]) by {
                    assert(r.subrange(0, p.skip(l).len() as int)[0] == p.skip(l)[0]);
                }
                assert(r[0] == t[0]);
                assert(p[l] == p.skip(l)[0]);
            } else {
                assert(p.skip(l) =~= Seq::<char>::empty());
                assert(s.subrange(0, 0) =~= Seq::<char>::empty());
            }
        }
    } else {
        let s2 = s.drop_first();
        let r2 = replace_all(s2, p, t);
        lemma_replace_removes_pattern(s2, p, t);
        assert(r == seq![s[0]] + r2);
        assert forall|k: int| !matches_at(r, p, k) by {
            if matches_at(r, p, k) {
                if k >= 1 {
                    lemma_matches_concat_right(seq![s[0]], r2, p, k);
                } else if k == 0 {
                    // p would have to stand at the very front of s.
                    assert(starts_with(r2, p.skip(1))) by {
                        assert(r2.subrange(0, p.skip(1).len() as int) =~= p.skip(1)) by {
                            assert forall|m: int| 0 <= m < p.len() - 1 implies #[trigger] r2.subrange(
                                0,
                                p.skip(1).len() as int,
                            )[m] == p.skip(1)[m] by {
                                lemma_matches_char(r, p, 0, m + 1);
                                assert(r2[m] == r[m + 1]);
                                assert(p.skip(1)[m] == p[m + 1]);
                            }
                        }
                    }
                    assert(starts_with(s2, p.skip(1)));
                    lemma_matches_char(r, p, 0, 0);
                    assert(s[0] == p[0]);
                    assert(s.subrange(0, p.len() as int) =~= p) by {
                        assert forall|m: int| 0 <= m < p.len() implies #[trigger] s.subrange(
                            0,
                            p.len() as int,
                        )[m] == p[m] by {
                            if m > 0 {
                                assert(s2.subrange(0, p.skip(1).len() as int)[m - 1] == p.skip(
                                    1,
                                )[m - 1]);
                                assert(s2[m - 1] == p[m]);
                            }
                        }
                    }
                }
            }
        }
        assert forall|l: int|
            1 <= l <= p.len() && starts_with(r, p.skip(l)) implies starts_with(s, p.skip(l)) by {
            if l < p.len() {
                let q = p.skip(l);
                assert(r[0] == q[0]) by {
                    assert(r.subrange(0, q.len() as int)[0] == q[0]);
                }
                assert(s[0] == p[l]);
                assert(starts_with(r2, p.skip(l + 1))) by {
                    assert(r2.subrange(0, p.skip(l + 1).len() as int) =~= r.subrange(
                        1,
                        1 + p.skip(l + 1).len() as int,
                    ));
                    assert(r.subrange(1, 1 + p.skip(l + 1).len() as int) =~= p.skip(l + 1)) by {
                        assert forall|m: int| 0 <= m < p.len() - l - 1 implies #[trigger] r.subrange(
                            1,
                            1 + p.skip(l + 1).len() as int,
                        )[m] == p.skip(l + 1)[m] by {
                            assert(r.subrange(0, q.len() as int)[m + 1] == q[m + 1]);
                            assert(r[m + 1] == p[l + m + 1]);
                        }
                    }
                }
                assert(starts_with(s2, p.skip(l + 1)));
                assert(s.subrange(0, q.len() as int) =~= q) by {
                    assert forall|m: int| 0 <= m < q.len() implies s.subrange(
                        0,
                        q.len() as int,
                    )[m] == q[m] by {
                        if m > 0 {
                            assert(s2.subrange(0, p.skip(l + 1).len() as int)[m - 1] == p.skip(
                                l + 1,
                            )[m - 1]);
                            assert(s2[m - 1] == p[l + m]);
                        }
                    }
                }
            } else {
                assert(p.skip(l) =~= Seq::<char>::empty());
                assert(s.subrange(0, 0) =~= Seq::<char>::empty());
            }
        }
    }
}

/// Replacing `p` by `t` preserves the absence of an unrelated pattern
/// `d`, provided `d` avoids the boundary characters of `t` and does not
/// occur inside `t`.
pub proof fn lemma_replace_preserves_absence(
    s: Seq<char>,
    p: Seq<char>,
    t: Seq<char>,
    d: Seq<char>,
)
    requires
        p.len() > 0,
        t.len() > 0,
        d.len() > 0,
        !contains_seq(s, d),
        forall|k: int| 0 <= k < d.len() ==> d[k] != t[0] && d[k] != t.last(),
        !contains_seq(t, d),
    ensures
        !contains_seq(replace_all(s, p, t), d),
        forall|l: int|
            1 <= l <= d.len() && starts_with(#[trigger] replace_all(s, p, t), d.skip(l))
                ==> starts_with(s, d.skip(l)),
    decreases s.len(),
{
    let r = replace_all(s, p, t);
    if s.len() < p.len() {
        assert forall|l: int|
            1 <= l <= d.len() && starts_with(r, d.skip(l)) implies starts_with(s, d.skip(l)) by {}
    } else if s.subrange(0, p.len() as int) == p {
        let s2 = s.skip(p.len() as int);
        let r2 = replace_all(s2, p, t);
        lemma_absence_subrange(s, d, p.len() as int, s.len() as int);
        assert(s.subrange(p.len() as int, s.len() as int) =~= s2);
        lemma_replace_preserves_absence(s2, p, t, d);
        assert(r == t + r2);
        assert forall|k: int| !matches_at(r, d, k) by {
            if matches_at(r, d, k) {
                if k >= t.len() {
                    lemma_matches_concat_right(t, r2, d, k);
                } else if k + d.len() <= t.len() {
                    assert(matches_at(t, d, k)) by {
                        assert(t.subrange(k, k + d.len() as int) =~= r.subrange(
                            k,
                            k + d.len() as int,
                        ));
                    }
                } else {
                    // the occurrence covers the last character of t
                    let m = t.len() - 1 - k;
                    assert(0 <= m < d.len());
                    lemma_matches_char(r, d, k, m);
                    assert(r[t.len() - 1] == t[t.len() - 1]);
                    assert(d[m] == t.last());
                }
            }
        }
        assert forall|l: int|
            1 <= l <= d.len() && starts_with(r, d.skip(l)) implies starts_with(s, d.skip(l)) by {
            if l < d.len() {
                assert(r[0] == d.skip(l)[0]) by {
                    assert(r.subrange(0, d.skip(l).len() as int)[0] == d.skip(l)[0]);
                }
                assert(r[0] == t[0]);
                assert(d[l] == d.skip(l)[0]);
            } else {
                assert(d.skip(l) =~= Seq::<char>::empty());
                assert(s.subrange(0, 0) =~= Seq::<char>::empty());
            }
        }
    } else {
        let s2 = s.drop_first();
        let r2 = replace_all(s2, p, t);
        assert(!contains_seq(s2, d)) by {
            lemma_absence_subrange(s, d, 1, s.len() as int);
            assert(s.subrange(1, s.len() as int) =~= s2);
        }
        lemma_replace_preserves_absence(s2, p, t, d);
        assert(r == seq![s[0]] + r2);
        assert forall|k: int| !matches_at(r, d, k) by {
            if matches_at(r, d, k) {
                if k >= 1 {
                    lemma_matches_concat_right(seq![s[0]], r2, d, k);
                } else if k == 0 {
                    assert(starts_with(r2, d.skip(1))) by {
                        assert(r2.subrange(0, d.skip(1).len() as int) =~= r.subrange(
                            1,
                            1 + d.skip(1).len() as int,
                        ));
                        assert(r.subrange(1, 1 + d.skip(1).len() as int) =~= d.skip(1)) by {
                            assert forall|m: int| 0 <= m < d.len() - 1 implies r.subrange(
                                1,
                                1 + d.skip(1).len() as int,
                            )[m] == d.skip(1)[m] by {
                                lemma_matches_char(r, d, 0, m + 1);
                                assert(d.skip(1)[m] == d[m + 1]);
                            }
                        }
                    }
                    assert(starts_with(s2, d.skip(1)));
                    lemma_matches_char(r, d, 0, 0);
                    assert(s[0] == d[0]);
                    assert(matches_at(s, d, 0)) by {
                        assert(s.subrange(0, d.len() as int) =~= d) by {
                            assert forall|m: int| 0 <= m < d.len() implies s.subrange(
                                0,
                                d.len() as int,
                            )[m] == d[m] by {
                                if m > 0 {
                                    assert(s2.subrange(0, d.skip(1).len() as int)[m - 1] == d.skip(
                                        1,
                                    )[m - 1]);
                                    assert(s2[m - 1] == d[m]);
                                }
                            }
                        }
                    }
                }
            }
        }
        assert forall|l: int|
            1 <= l <= d.len() && starts_with(r, d.skip(l)) implies starts_with(s, d.skip(l)) by {
            if l < d.len() {
                let q = d.skip(l);
                assert(r[0] == q[0]) by {
                    assert(r.subrange(0, q.len() as int)[0] == q[0]);
                }
                assert(s[0] == d[l]);
                assert(starts_with(r2, d.skip(l + 1))) by {
                    assert(r2.subrange(0, d.skip(l + 1).len() as int) =~= r.subrange(
                        1,
                        1 + d.skip(l + 1).len() as int,
                    ));
                    assert(r.subrange(1, 1 + d.skip(l + 1).len() as int) =~= d.skip(l + 1)) by {
                        assert forall|m: int| 0 <= m < d.len() - l - 1 implies #[trigger] r.subrange(
                            1,
                            1 + d.skip(l + 1).len() as int,
                        )[m] == d.skip(l + 1)[m] by {
                            assert(r.subrange(0, q.len() as int)[m + 1] == q[m + 1]);
                            assert(r[m + 1] == d[l + m + 1]);
                        }
                    }
                }
                assert(starts_with(s2, d.skip(l + 1)));
                assert(s.subrange(0, q.len() as int) =~= q) by {
                    assert forall|m: int| 0 <= m < q.len() implies s.subrange(
                        0,
                        q.len() as int,
                    )[m] == q[m] by {
                        if m > 0 {
                            assert(s2.subrange(0, d.skip(l + 1).len() as int)[m - 1] == d.skip(
                                l + 1,
                            )[m - 1]);
                            assert(s2[m - 1] == d[l + m]);
                        }
                    }
                }
            } else {
                assert(d.skip(l) =~= Seq::<char>::empty());
                assert(s.subrange(0, 0) =~= Seq::<char>::empty());
            }
        }
    }
}

/// The ends of a replacement result come from the ends of the input or of
/// the replacement text, and emptiness is unchanged.
pub proof fn lemma_replace_ends(s: Seq<char>, p: Seq<char>, t: Seq<char>)
    requires
        p.len() > 0,
        t.len() > 0,
    ensures
        replace_all(s, p, t).len() > 0 <==> s.len() > 0,
        replace_all(s, p, t).len() > 0 ==> (replace_all(s, p, t)[0] == s[0] || replace_all(
            s,
            p,
            t,
        )[0] == t[0]),
        replace_all(s, p, t).len() > 0 ==> (replace_all(s, p, t).last() == s.last() || replace_all(
            s,
            p,
            t,
        ).last() == t.last()),
    decreases s.len(),
{
    let r = replace_all(s, p, t);
    if s.len() < p.len() {
    } else if s.subrange(0, p.len() as int) == p {
        let s2 = s.skip(p.len() as int);
        let r2 = replace_all(s2, p, t);
        lemma_replace_ends(s2, p, t);
        assert(r == t + r2);
        assert(r[0] == t[0]);
        if r2.len() > 0 {
            assert(r.last() == r2.last());
            assert(s2.last() == s.last());
        } else {
            assert(r.last() == t.last());
        }
    } else {
        let s2 = s.drop_first();
        let r2 = replace_all(s2, p, t);
        lemma_replace_ends(s2, p, t);
        assert(r == seq![s[0]] + r2);
        assert(r[0] == s[0]);
        if r2.len() > 0 {
            assert(r.last() == r2.last());
            assert(s2.last() == s.last());
        } else {
            assert(s2.len() == 0);
            assert(r.last() == s[0]);
            assert(s.last() == s[0]);
        }
    }
}

/// Text whose ends are not whitespace is unchanged by trimming.
pub proof fn lemma_trim_stable(s: Seq<char>)
    requires
        s.len() == 0 || (!is_space(s[0]) && !is_space(s.last())),
    ensures
        trim(s) == s,
{
    assert(trim_front(s) == s);
    assert(trim_back(s) == s);
}

/// Text unchanged by trimming has no whitespace at its ends.
pub proof fn lemma_trim_stable_ends(s: Seq<char>)
    requires
        trim(s) == s,
        s.len() > 0,
    ensures
        !is_space(s[0]),
        !is_space(s.last()),
{
    lemma_trim_front_len(s);
    if is_space(s[0]) {
        lemma_trim_back_len(trim_front(s));
    } else {
        assert(trim_front(s) == s);
        lemma_trim_back_len(s);
    }
}

/// `trim_back` keeps the first character and is itself front-trimmed.
proof fn lemma_trim_back_front(s: Seq<char>)
    requires
        s.len() > 0,
        !is_space(s[0]),
    ensures
        trim_back(s).len() > 0,
        trim_back(s)[0] == s[0],
    decreases s.len(),
{
    if s.len() > 0 && is_space(s.last()) {
        assert(s.drop_last()[0] == s[0]);
        assert(s.drop_last().len() > 0) by {
            assert(s.last() != s[0]);
        }
        lemma_trim_back_front(s.drop_last());
    }
}

/// `trim_front` leaves no leading space and keeps the last character.
proof fn lemma_trim_front_props(s: Seq<char>)
    ensures
        trim_front(s).len() > 0 ==> !is_space(trim_front(s)[0]),
        trim_front(s).len() > 0 ==> trim_front(s).last() == s.last() && s.len() > 0,
    decreases s.len(),
{
    if s.len() > 0 && is_space(s[0]) {
        lemma_trim_front_props(s.drop_first());
        if trim_front(s).len() > 0 {
            assert(s.drop_first().last() == s.last());
        }
    }
}

/// `trim_back` leaves no trailing space.
proof fn lemma_trim_back_props(s: Seq<char>)
    ensures
        trim_back(s).len() > 0 ==> !is_space(trim_back(s).last()),
    decreases s.len(),
{
    if s.len() > 0 && is_space(s.last()) {
        lemma_trim_back_props(s.drop_last());
    }
}

/// The result of `trim` is itself trim-stable.
pub proof fn lemma_trim_idempotent(s: Seq<char>)
    ensures
        trim(trim(s)) == trim(s),
        trim(s).len() > 0 ==> !is_space(trim(s)[0]) && !is_space(trim(s).last()),
{
    let f = trim_front(s);
    lemma_trim_front_props(s);
    lemma_trim_back_props(f);
    if trim(s).len() > 0 {
        assert(f.len() > 0);
        lemma_trim_back_front(f);
        lemma_trim_stable(trim(s));
    } else {
        assert(trim(Seq::<char>::empty()) == Seq::<char>::empty());
    }
}

/// A text with a non-space first character does not trim to empty, and
/// keeps that first character.
pub proof fn lemma_trim_nonempty(s: Seq<char>)
    requires
        s.len() > 0,
        !is_space(s[0]),
    ensures
        trim(s).len() > 0,
        trim(s)[0] == s[0],
{
    assert(trim_front(s) == s);
    lemma_trim_back_front(s);
}

/// Trimming preserves the absence of a pattern.
pub proof fn lemma_trim_preserves_absence(s: Seq<char>, p: Seq<char>)
    requires
        !contains_seq(s, p),
        p.len() > 0,
    ensures
        !contains_seq(trim(s), p),
{
    lemma_trim_front_subrange(s, p);
    lemma_trim_back_subrange(trim_front(s), p);
}

proof fn lemma_trim_front_subrange(s: Seq<char>, p: Seq<char>)
    requires
        !contains_seq(s, p),
        p.len() > 0,
    ensures
        !contains_seq(trim_front(s), p),
    decreases s.len(),
{
    if s.len() > 0 && is_space(s[0]) {
        lemma_absence_subrange(s, p, 1, s.len() as int);
        assert(s.subrange(1, s.len() as int) =~= s.drop_first());
        lemma_trim_front_subrange(s.drop_first(), p);
    }
}

proof fn lemma_trim_back_subrange(s: Seq<char>, p: Seq<char>)
    requires
        !contains_seq(s, p),
        p.len() > 0,
    ensures
        !contains_seq(trim_back(s), p),
    decreases s.len(),
{
    if s.len() > 0 && is_space(s.last()) {
        lemma_absence_subrange(s, p, 0, s.len() - 1);
        assert(s.subrange(0, s.len() - 1) =~= s.drop_last());
        lemma_trim_back_subrange(s.drop_last(), p);
    }
}

} // verus!
