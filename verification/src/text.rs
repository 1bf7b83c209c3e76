//! Character-sequence toolkit: trimming, substring search, replacement,
//! and whitespace tokenization, each with a specification-level definition
//! and a verified executable counterpart over `Vec<char>`.

use vstd::prelude::*;
use vstd::string::*;

verus! {

/// True of a character that the library treats as whitespace when
/// trimming and when splitting text into tokens.
pub open spec fn is_space(c: char) -> bool {
    c == ' ' || c == '\t' || c == '\n' || c == '\r'
}

/// The sequence with leading whitespace removed.
pub open spec fn trim_front(s: Seq<char>) -> Seq<char>
    decreases s.len(),
{
    if s.len() > 0 && is_space(s[0]) {
        trim_front(s.drop_first())
    } else {
        s
    }
}

/// The sequence with trailing whitespace removed.
pub open spec fn trim_back(s: Seq<char>) -> Seq<char>
    decreases s.len(),
{
    if s.len() > 0 && is_space(s.last()) {
        trim_back(s.drop_last())
    } else {
        s
    }
}

/// The sequence with whitespace removed from both ends.
pub open spec fn trim(s: Seq<char>) -> Seq<char> {
    trim_back(trim_front(s))
}

/// The pattern `p` occurs in `s` starting at position `i`.
pub open spec fn matches_at(s: Seq<char>, p: Seq<char>, i: int) -> bool {
    0 <= i && i + p.len() <= s.len() && s.subrange(i, i + p.len() as int) == p
}

/// The pattern `p` occurs somewhere in `s`.
pub open spec fn contains_seq(s: Seq<char>, p: Seq<char>) -> bool {
    exists|i: int| matches_at(s, p, i)
}

/// `p` is a prefix of `s`.
pub open spec fn starts_with(s: Seq<char>, p: Seq<char>) -> bool {
    p.len() <= s.len() && s.subrange(0, p.len() as int) == p
}

/// Position of the first occurrence of `p` in `s`, if any.
pub open spec fn find_pos(s: Seq<char>, p: Seq<char>) -> Option<int>
    decreases s.len(),
{
    if p.len() == 0 {
        Some(0)
    } else if s.len() < p.len() {
        None
    } else if s.subrange(0, p.len() as int) == p {
        Some(0)
    } else {
        match find_pos(s.drop_first(), p) {
            Some(i) => Some(i + 1),
            None => None,
        }
    }
}

/// `s` with every occurrence of `p` replaced by `t`, scanning left to
/// right and never rescanning replaced text.
pub open spec fn replace_all(s: Seq<char>, p: Seq<char>, t: Seq<char>) -> Seq<char>
    decreases s.len(),
{
    if p.len() == 0 || s.len() < p.len() {
        s
    } else if s.subrange(0, p.len() as int) == p {
        t + replace_all(s.skip(p.len() as int), p, t)
    } else {
        seq![s[0]] + replace_all(s.drop_first(), p, t)
    }
}

/// Shifting a match by one position when the first character is dropped.
proof fn lemma_matches_shift(s: Seq<char>, p: Seq<char>, i: int)
    requires
        s.len() > 0,
        0 <= i,
    ensures
        matches_at(s, p, i + 1) == matches_at(s.drop_first(), p, i),
{
    if i + 1 + p.len() <= s.len() {
        assert(s.drop_first().subrange(i, i + p.len() as int) =~= s.subrange(
            i + 1,
            i + 1 + p.len() as int,
        ));
    }
}

/// What `find_pos` returns: the first match, or a proof there is none.
pub proof fn lemma_find_pos(s: Seq<char>, p: Seq<char>)
    requires
        p.len() > 0,
    ensures
        match find_pos(s, p) {
            Some(i) => matches_at(s, p, i) && forall|j: int| 0 <= j < i ==> !matches_at(s, p, j),
            None => forall|j: int| !matches_at(s, p, j),
        },
    decreases s.len(),
{
    if s.len() < p.len() {
        assert(forall|j: int| !matches_at(s, p, j));
    } else if s.subrange(0, p.len() as int) == p {
        assert(matches_at(s, p, 0));
    } else {
        lemma_find_pos(s.drop_first(), p);
        assert forall|j: int| 0 <= j implies matches_at(s, p, j + 1) == matches_at(
            s.drop_first(),
            p,
            j,
        ) by {
            lemma_matches_shift(s, p, j);
        }
        match find_pos(s.drop_first(), p) {
            Some(i) => {
                assert(matches_at(s.drop_first(), p, i));
                assert(matches_at(s, p, i + 1));
                assert forall|j: int| 0 <= j < i + 1 implies !matches_at(s, p, j) by {
                    if j == 0 {
                        assert(!matches_at(s, p, 0));
                    } else {
                        assert(!matches_at(s.drop_first(), p, j - 1));
                        lemma_matches_shift(s, p, j - 1);
                    }
                }
            },
            None => {
                assert forall|j: int| !matches_at(s, p, j) by {
                    if j > 0 {
                        lemma_matches_shift(s, p, j - 1);
                    } else if j == 0 {
                        assert(!matches_at(s, p, 0));
                    }
                }
            },
        }
    }
}

/// `find_pos` is determined by a first match: a witness pins it down.
pub proof fn lemma_find_pos_unique(s: Seq<char>, p: Seq<char>, i: int)
    requires
        p.len() > 0,
        matches_at(s, p, i),
        forall|j: int| 0 <= j < i ==> !matches_at(s, p, j),
    ensures
        find_pos(s, p) == Some(i),
{
    lemma_find_pos(s, p);
    match find_pos(s, p) {
        Some(k) => {
            if k < i {
                assert(!matches_at(s, p, k));
            } else if k > i {
                assert(!matches_at(s, p, i));
            }
        },
        None => {
            assert(!matches_at(s, p, i));
        },
    }
}

/// Trimming never lengthens, and acts exactly on a space at the end.
pub proof fn lemma_trim_front_len(s: Seq<char>)
    ensures
        trim_front(s).len() <= s.len(),
        s.len() > 0 && is_space(s[0]) ==> trim_front(s).len() < s.len(),
    decreases s.len(),
{
    if s.len() > 0 && is_space(s[0]) {
        lemma_trim_front_len(s.drop_first());
    }
}

pub proof fn lemma_trim_back_len(s: Seq<char>)
    ensures
        trim_back(s).len() <= s.len(),
        s.len() > 0 && is_space(s.last()) ==> trim_back(s).len() < s.len(),
    decreases s.len(),
{
    if s.len() > 0 && is_space(s.last()) {
        lemma_trim_back_len(s.drop_last());
    }
}

/// Copies the characters of a string into a vector.
pub fn to_chars(s: &str) -> (v: Vec<char>)
    ensures
        v@ == s@,
{
    let n = s.unicode_len();
    let mut v: Vec<char> = Vec::new();
    let mut i: usize = 0;
    while i < n
        invariant
            i <= n,
            n == s@.len(),
            v@ == s@.subrange(0, i as int),
        decreases n - i,
    {
        let c = s.get_char(i);
        v.push(c);
        assert(v@ =~= s@.subrange(0, i + 1 as int));
        i += 1;
    }
    assert(v@ =~= s@);
    v
}

/// Relies on String::push: appends the one character to the string.
#[verifier::external_body]
fn push_char(s: &mut String, c: char)
    ensures
        final(s)@ == old(s)@.push(c),
{
    s.push(c);
}

/// Builds a string from a vector of characters.
pub fn from_chars(v: &Vec<char>) -> (s: String)
    ensures
        s@ == v@,
{
    let mut s = String::new();
    let mut i: usize = 0;
    while i < v.len()
        invariant
            i <= v.len(),
            s@ == v@.subrange(0, i as int),
        decreases v.len() - i,
    {
        push_char(&mut s, v[i]);
        assert(s@ =~= v@.subrange(0, i + 1 as int));
        i += 1;
    }
    assert(s@ =~= v@);
    s
}

/// Copies `v[a..b]` into a fresh vector.
pub fn subvec(v: &Vec<char>, a: usize, b: usize) -> (r: Vec<char>)
    requires
        a <= b <= v@.len(),
    ensures
        r@ == v@.subrange(a as int, b as int),
{
    let mut r: Vec<char> = Vec::new();
    let mut i: usize = a;
    while i < b
        invariant
            a <= i <= b <= v@.len(),
            r@ == v@.subrange(a as int, i as int),
        decreases b - i,
    {
        r.push(v[i]);
        assert(r@ =~= v@.subrange(a as int, i + 1 as int));
        i += 1;
    }
    r
}

/// Whether `p` occurs in `v` starting at `i`, checked character by character.
fn matches_at_exec(v: &Vec<char>, p: &Vec<char>, i: usize) -> (r: bool)
    requires
        i + p@.len() <= v@.len(),
    ensures
        r == matches_at(v@, p@, i as int),
{
    let n = v.len();
    let plen = p.len();
    let mut k: usize = 0;
    while k < plen
        invariant
            k <= plen,
            n == v@.len(),
            plen == p@.len(),
            i + plen <= n,
            forall|m: int| 0 <= m < k ==> v@[i + m] == p@[m],
        decreases plen - k,
    {
        if v[i + k] != p[k] {
            assert(v@.subrange(i as int, i + p@.len() as int)[k as int] != p@[k as int]);
            return false;
        }
        k += 1;
    }
    assert(v@.subrange(i as int, i + p@.len() as int) =~= p@);
    true
}

/// Finds the first occurrence of `p` in `v`.
pub fn find_sub(v: &Vec<char>, p: &Vec<char>) -> (r: Option<usize>)
    requires
        p@.len() > 0,
    ensures
        match r {
            Some(i) => find_pos(v@, p@) == Some(i as int) && i + p@.len() <= v@.len(),
            None => find_pos(v@, p@) is None,
        },
{
    proof {
        lemma_find_pos(v@, p@);
    }
    if v.len() < p.len() {
        return None;
    }
    let n = v.len();
    let last = v.len() - p.len();
    let mut i: usize = 0;
    while i <= last
        invariant
            p@.len() > 0,
            n == v@.len(),
            last == v@.len() - p@.len(),
            i <= last + 1,
            forall|j: int| 0 <= j < i ==> !matches_at(v@, p@, j),
        decreases last + 1 - i,
    {
        if matches_at_exec(v, p, i) {
            proof {
                lemma_find_pos_unique(v@, p@, i as int);
            }
            return Some(i);
        }
        i += 1;
    }
    assert(forall|j: int| !matches_at(v@, p@, j));
    proof {
        lemma_find_pos(v@, p@);
    }
    None
}

/// Unfolds `replace_all` at the first occurrence of the pattern.
proof fn lemma_replace_all_step(s: Seq<char>, p: Seq<char>, t: Seq<char>, i: int)
    requires
        p.len() > 0,
        find_pos(s, p) == Some(i),
    ensures
        0 <= i && i + p.len() <= s.len(),
        replace_all(s, p, t) == s.subrange(0, i) + t + replace_all(
            s.skip(i + p.len() as int),
            p,
            t,
        ),
    decreases s.len(),
{
    lemma_find_pos(s, p);
    if i == 0 {
        assert(s.subrange(0, 0) =~= Seq::<char>::empty());
        assert(s.subrange(0, 0) + t + replace_all(s.skip(p.len() as int), p, t) =~= t
            + replace_all(s.skip(p.len() as int), p, t));
    } else {
        assert(!matches_at(s, p, 0));
        assert(s.len() >= p.len());
        assert(s.subrange(0, p.len() as int) != p);
        lemma_matches_shift(s, p, i - 1);
        assert forall|j: int| 0 <= j < i - 1 implies !matches_at(s.drop_first(), p, j) by {
            lemma_matches_shift(s, p, j);
        }
        lemma_find_pos_unique(s.drop_first(), p, i - 1);
        lemma_replace_all_step(s.drop_first(), p, t, i - 1);
        assert(s.drop_first().subrange(0, i - 1) =~= s.subrange(1, i));
        assert(s.drop_first().skip(i - 1 + p.len() as int) =~= s.skip(i + p.len() as int));
        assert(seq![s[0]] + (s.subrange(1, i) + t + replace_all(s.skip(i + p.len() as int), p, t))
            =~= s.subrange(0, i) + t + replace_all(s.skip(i + p.len() as int), p, t));
    }
}

/// When the pattern does not occur, `replace_all` is the identity.
pub proof fn lemma_replace_all_absent(s: Seq<char>, p: Seq<char>, t: Seq<char>)
    requires
        p.len() > 0,
        !contains_seq(s, p),
    ensures
        replace_all(s, p, t) == s,
    decreases s.len(),
{
    if s.len() < p.len() {
    } else if s.subrange(0, p.len() as int) == p {
        assert(matches_at(s, p, 0));
    } else {
        assert(!contains_seq(s.drop_first(), p)) by {
            if exists|j: int| matches_at(s.drop_first(), p, j) {
                let j = choose|j: int| matches_at(s.drop_first(), p, j);
                lemma_matches_shift(s, p, j);
                assert(matches_at(s, p, j + 1));
            }
        }
        lemma_replace_all_absent(s.drop_first(), p, t);
        assert(seq![s[0]] + s.drop_first() =~= s);
    }
}

/// Replaces every occurrence of `p` in `v` by `t`.
pub fn replace_all_exec(v: &Vec<char>, p: &Vec<char>, t: &Vec<char>) -> (r: Vec<char>)
    requires
        p@.len() > 0,
    ensures
        r@ == replace_all(v@, p@, t@),
{
    let mut out: Vec<char> = Vec::new();
    let mut rest: Vec<char> = subvec(v, 0, v.len());
    assert(rest@ =~= v@);
    loop
        invariant
            p@.len() > 0,
            replace_all(v@, p@, t@) == out@ + replace_all(rest@, p@, t@),
        decreases rest@.len(),
    {
        match find_sub(&rest, p) {
            None => {
                proof {
                    lemma_find_pos(rest@, p@);
                    assert(!contains_seq(rest@, p@)) by {
                        if exists|j: int| matches_at(rest@, p@, j) {
                            let j = choose|j: int| matches_at(rest@, p@, j);
                            assert(!matches_at(rest@, p@, j));
                        }
                    }
                    lemma_replace_all_absent(rest@, p@, t@);
                }
                let ghost done = out@;
                let mut k: usize = 0;
                while k < rest.len()
                    invariant
                        k <= rest@.len(),
                        out@ == done + rest@.subrange(0, k as int),
                    decreases rest@.len() - k,
                {
                    out.push(rest[k]);
                    k += 1;
                    assert(out@ =~= done + rest@.subrange(0, k as int));
                }
                assert(rest@.subrange(0, rest@.len() as int) =~= rest@);
                return out;
            },
            Some(i) => {
                proof {
                    lemma_replace_all_step(rest@, p@, t@, i as int);
                }
                let ghost old_out = out@;
                let ghost old_rest = rest@;
                let mut k: usize = 0;
                while k < i
                    invariant
                        k <= i,
                        i + p@.len() <= rest@.len(),
                        rest@ == old_rest,
                        out@ == old_out + rest@.subrange(0, k as int),
                    decreases i - k,
                {
                    out.push(rest[k]);
                    k += 1;
                    assert(out@ =~= old_out + rest@.subrange(0, k as int));
                }
                let mut m: usize = 0;
                while m < t.len()
                    invariant
                        m <= t@.len(),
                        i + p@.len() <= rest@.len(),
                        rest@ == old_rest,
                        out@ == old_out + rest@.subrange(0, i as int) + t@.subrange(0, m as int),
                    decreases t@.len() - m,
                {
                    out.push(t[m]);
                    m += 1;
                    assert(out@ =~= old_out + rest@.subrange(0, i as int) + t@.subrange(
                        0,
                        m as int,
                    ));
                }
                assert(t@.subrange(0, t@.len() as int) =~= t@);
                let rlen = rest.len();
                assert(i + p@.len() <= rest@.len());
                let next = subvec(&rest, i + p.len(), rlen);
                assert(next@ =~= rest@.skip(i + p@.len() as int));
                proof {
                    assert((old_out + old_rest.subrange(0, i as int) + t@) + replace_all(
                        next@,
                        p@,
                        t@,
                    ) =~= old_out + (old_rest.subrange(0, i as int) + t@ + replace_all(
                        next@,
                        p@,
                        t@,
                    )));
                }
                rest = next;
            },
        }
    }
}

/// Trims whitespace from both ends of `v`.
pub fn trim_exec(v: &Vec<char>) -> (r: Vec<char>)
    ensures
        r@ == trim(v@),
{
    let mut a: usize = 0;
    let mut b: usize = v.len();
    assert(v@.subrange(0, v@.len() as int) =~= v@);
    while a < b && is_space_exec(v[a])
        invariant
            a <= b <= v@.len(),
            b == v@.len(),
            trim_front(v@) == trim_front(v@.subrange(a as int, b as int)),
        decreases b - a,
    {
        proof {
            let cur = v@.subrange(a as int, b as int);
            assert(cur.drop_first() =~= v@.subrange(a + 1 as int, b as int));
        }
        a += 1;
    }
    proof {
        let cur = v@.subrange(a as int, b as int);
        assert(trim_front(cur) == cur);
    }
    while a < b && is_space_exec(v[b - 1])
        invariant
            a <= b <= v@.len(),
            trim_front(v@.subrange(a as int, b as int)) == v@.subrange(a as int, b as int),
            trim(v@) == trim_back(v@.subrange(a as int, b as int)),
        decreases b - a,
    {
        proof {
            let cur = v@.subrange(a as int, b as int);
            assert(cur.drop_last() =~= v@.subrange(a as int, b - 1 as int));
            lemma_trim_front_stable_drop_last(cur);
        }
        b -= 1;
    }
    proof {
        let cur = v@.subrange(a as int, b as int);
        assert(trim_back(cur) == cur);
    }
    subvec(v, a, b)
}

/// Dropping the last character keeps an already-trimmed front trimmed.
proof fn lemma_trim_front_stable_drop_last(s: Seq<char>)
    requires
        s.len() > 0,
        trim_front(s) == s,
    ensures
        trim_front(s.drop_last()) == s.drop_last(),
{
    if s.len() == 1 {
        assert(s.drop_last() =~= Seq::<char>::empty());
    } else {
        assert(!is_space(s[0])) by {
            if is_space(s[0]) {
                lemma_trim_front_len(s.drop_first());
            }
        }
        assert(s.drop_last()[0] == s[0]);
    }
}

/// Executable test for the library's whitespace set.
pub fn is_space_exec(c: char) -> (r: bool)
    ensures
        r == is_space(c),
{
    c == ' ' || c == '\t' || c == '\n' || c == '\r'
}

} // verus!
