//! Link handling at note creation: horizontal-rule escaping, extraction
//! of `+http...` tokens, optimistic substitution of a local-copy
//! reference, the safe-filename mapping for archived pages, and the
//! failure marker the archiver writes when a download fails.

use vstd::prelude::*;
use crate::outside::{alnum_of, char_is_alphanumeric};
use crate::text::{contains_seq, is_space, is_space_exec, replace_all, starts_with, trim};
use crate::text::{from_chars, replace_all_exec, subvec, to_chars, trim_exec};
use crate::text_laws::{lemma_absence_of_superstring, lemma_no_first_char_no_occurrence,
    lemma_replace_preserves_absence, lemma_replace_removes_pattern, lemma_trim_idempotent,
    lemma_trim_preserves_absence, lemma_trim_stable};
use crate::codec::{danger_seq, wf_content};

verus! {

// ---- the safe-filename mapping -------------------------------------------

/// ASCII characters kept as they are: letters, digits, '-', '.', '_'.
pub open spec fn ascii_keep(c: char) -> bool {
    let n = c as u32;
    (48 <= n && n <= 57) || (65 <= n && n <= 90) || (97 <= n && n <= 122) || n == 45 || n == 46
        || n == 95
}

/// A character that survives the safe-filename mapping unchanged.
pub open spec fn keep_char(c: char) -> bool {
    if (c as u32) < 128 {
        ascii_keep(c)
    } else {
        alnum_of(c)
    }
}

/// Character-wise mapping to the safe set; everything else becomes '_'.
pub open spec fn map_safe(s: Seq<char>) -> Seq<char> {
    Seq::new(s.len(), |i: int| if keep_char(s[i]) { s[i] } else { '_' })
}

pub open spec fn http_seq() -> Seq<char> {
    seq!['h', 't', 't', 'p', ':', '/', '/']
}

pub open spec fn https_seq() -> Seq<char> {
    seq!['h', 't', 't', 'p', 's', ':', '/', '/']
}

/// The URL with a leading scheme removed.
pub open spec fn strip_scheme(u: Seq<char>) -> Seq<char> {
    if starts_with(u, http_seq()) {
        u.skip(7)
    } else if starts_with(u, https_seq()) {
        u.skip(8)
    } else {
        u
    }
}

pub open spec fn is_mark(c: char) -> bool {
    c == '.' || c == ' '
}

pub open spec fn trim_marks_front(s: Seq<char>) -> Seq<char>
    decreases s.len(),
{
    if s.len() > 0 && is_mark(s[0]) {
        trim_marks_front(s.drop_first())
    } else {
        s
    }
}

pub open spec fn trim_marks_back(s: Seq<char>) -> Seq<char>
    decreases s.len(),
{
    if s.len() > 0 && is_mark(s.last()) {
        trim_marks_back(s.drop_last())
    } else {
        s
    }
}

/// The safe filename derived from a URL: scheme stripped, characters
/// mapped to the safe set, dots and spaces trimmed from both ends.
pub open spec fn sanitize_spec(u: Seq<char>) -> Seq<char> {
    trim_marks_back(trim_marks_front(map_safe(strip_scheme(trim(u)))))
}

/// Every character of a sanitized name is in the safe set or '_'.
pub open spec fn safe_name_char(c: char) -> bool {
    ascii_keep(c) || c == '_' || (c as u32) >= 128
}

proof fn lemma_trim_marks_front_chars(s: Seq<char>)
    requires
        forall|i: int| 0 <= i < s.len() ==> safe_name_char(#[trigger] s[i]),
    ensures
        forall|i: int|
            0 <= i < trim_marks_front(s).len() ==> safe_name_char(#[trigger] trim_marks_front(s)[i]),
    decreases s.len(),
{
    if s.len() > 0 && is_mark(s[0]) {
        assert(forall|i: int|
            0 <= i < s.drop_first().len() ==> safe_name_char(#[trigger] s.drop_first()[i]));
        lemma_trim_marks_front_chars(s.drop_first());
        assert(trim_marks_front(s) == trim_marks_front(s.drop_first()));
    } else {
        assert(trim_marks_front(s) == s);
    }
}

proof fn lemma_trim_marks_back_chars(s: Seq<char>)
    requires
        forall|i: int| 0 <= i < s.len() ==> safe_name_char(#[trigger] s[i]),
    ensures
        forall|i: int|
            0 <= i < trim_marks_back(s).len() ==> safe_name_char(#[trigger] trim_marks_back(s)[i]),
    decreases s.len(),
{
    if s.len() > 0 && is_mark(s.last()) {
        assert(forall|i: int|
            0 <= i < s.drop_last().len() ==> safe_name_char(#[trigger] s.drop_last()[i]));
        lemma_trim_marks_back_chars(s.drop_last());
        assert(trim_marks_back(s) == trim_marks_back(s.drop_last()));
    } else {
        assert(trim_marks_back(s) == s);
    }
}

/// A sanitized name holds only safe characters; in particular neither
/// parentheses nor newlines.
pub proof fn lemma_sanitize_chars(u: Seq<char>)
    ensures
        forall|i: int|
            0 <= i < sanitize_spec(u).len() ==> safe_name_char(#[trigger] sanitize_spec(u)[i]),
        forall|i: int|
            0 <= i < sanitize_spec(u).len() ==> sanitize_spec(u)[i] != '(' && sanitize_spec(u)[i]
                != ')' && sanitize_spec(u)[i] != '\n',
{
    let m = map_safe(strip_scheme(trim(u)));
    assert(forall|i: int| 0 <= i < m.len() ==> safe_name_char(#[trigger] m[i]));
    lemma_trim_marks_front_chars(m);
    lemma_trim_marks_back_chars(trim_marks_front(m));
    assert forall|i: int| 0 <= i < sanitize_spec(u).len() implies sanitize_spec(u)[i] != '('
        && sanitize_spec(u)[i] != ')' && sanitize_spec(u)[i] != '\n' by {
        assert(safe_name_char(sanitize_spec(u)[i]));
        assert(('(' as u32) == 40 && (')' as u32) == 41 && ('\n' as u32) == 10);
    }
}

/// Executable test of `ascii_keep` together with the ASCII bound.
fn keep_char_exec(c: char) -> (r: bool)
    ensures
        r == keep_char(c),
{
    let n = c as u32;
    if n < 128 {
        (48 <= n && n <= 57) || (65 <= n && n <= 90) || (97 <= n && n <= 122) || n == 45 || n == 46
            || n == 95
    } else {
        char_is_alphanumeric(c)
    }
}

fn starts_with_exec(v: &Vec<char>, p: &Vec<char>) -> (r: bool)
    ensures
        r == starts_with(v@, p@),
{
    if p.len() > v.len() {
        return false;
    }
    let mut k: usize = 0;
    while k < p.len()
        invariant
            k <= p@.len() <= v@.len(),
            forall|m: int| 0 <= m < k ==> v@[m] == p@[m],
        decreases p@.len() - k,
    {
        if v[k] != p[k] {
            assert(v@.subrange(0, p@.len() as int)[k as int] != p@[k as int]);
            return false;
        }
        k += 1;
    }
    assert(v@.subrange(0, p@.len() as int) =~= p@);
    true
}

/// The safe-filename mapping over characters.
fn sanitize_chars(u: &Vec<char>) -> (r: Vec<char>)
    ensures
        r@ == sanitize_spec(u@),
{
    let t = trim_exec(u);
    let http: Vec<char> = vec!['h', 't', 't', 'p', ':', '/', '/'];
    let https: Vec<char> = vec!['h', 't', 't', 'p', 's', ':', '/', '/'];
    assert(http@ =~= http_seq());
    assert(https@ =~= https_seq());
    let tlen = t.len();
    let stripped: Vec<char> = if starts_with_exec(&t, &http) {
        let r = subvec(&t, 7, tlen);
        assert(r@ =~= t@.skip(7));
        r
    } else if starts_with_exec(&t, &https) {
        let r = subvec(&t, 8, tlen);
        assert(r@ =~= t@.skip(8));
        r
    } else {
        let r = subvec(&t, 0, tlen);
        assert(r@ =~= t@);
        r
    };
    let mut mapped: Vec<char> = Vec::new();
    let mut i: usize = 0;
    while i < stripped.len()
        invariant
            i <= stripped@.len(),
            mapped@ == map_safe(stripped@).subrange(0, i as int),
        decreases stripped@.len() - i,
    {
        let c = stripped[i];
        if keep_char_exec(c) {
            mapped.push(c);
        } else {
            mapped.push('_');
        }
        assert(mapped@ =~= map_safe(stripped@).subrange(0, i + 1));
        i += 1;
    }
    assert(mapped@ =~= map_safe(stripped@));
    // trim dots and spaces from both ends
    let mut a: usize = 0;
    let mut b: usize = mapped.len();
    assert(mapped@.subrange(0, mapped@.len() as int) =~= mapped@);
    while a < b && (mapped[a] == '.' || mapped[a] == ' ')
        invariant
            a <= b <= mapped@.len(),
            b == mapped@.len(),
            trim_marks_front(mapped@) == trim_marks_front(mapped@.subrange(a as int, b as int)),
        decreases b - a,
    {
        proof {
            let cur = mapped@.subrange(a as int, b as int);
            assert(cur.drop_first() =~= mapped@.subrange(a + 1 as int, b as int));
        }
        a += 1;
    }
    proof {
        let cur = mapped@.subrange(a as int, b as int);
        assert(trim_marks_front(cur) == cur);
    }
    while a < b && (mapped[b - 1] == '.' || mapped[b - 1] == ' ')
        invariant
            a <= b <= mapped@.len(),
            trim_marks_front(mapped@.subrange(a as int, b as int)) == mapped@.subrange(
                a as int,
                b as int,
            ),
            trim_marks_back(trim_marks_front(mapped@)) == trim_marks_back(
                mapped@.subrange(a as int, b as int),
            ),
        decreases b - a,
    {
        proof {
            let cur = mapped@.subrange(a as int, b as int);
            assert(cur.drop_last() =~= mapped@.subrange(a as int, b - 1 as int));
            lemma_trim_marks_front_stable_drop_last(cur);
        }
        b -= 1;
    }
    proof {
        let cur = mapped@.subrange(a as int, b as int);
        assert(trim_marks_back(cur) == cur);
    }
    subvec(&mapped, a, b)
}

proof fn lemma_trim_marks_front_len(s: Seq<char>)
    ensures
        trim_marks_front(s).len() <= s.len(),
    decreases s.len(),
{
    if s.len() > 0 && is_mark(s[0]) {
        lemma_trim_marks_front_len(s.drop_first());
    }
}

proof fn lemma_trim_marks_front_stable_drop_last(s: Seq<char>)
    requires
        s.len() > 0,
        trim_marks_front(s) == s,
    ensures
        trim_marks_front(s.drop_last()) == s.drop_last(),
{
    if s.len() == 1 {
        assert(s.drop_last() =~= Seq::<char>::empty());
    } else {
        assert(!is_mark(s[0])) by {
            if is_mark(s[0]) {
                lemma_trim_marks_front_len(s.drop_first());
            }
        }
        assert(s.drop_last()[0] == s[0]);
    }
}

/// Maps a URL to a safe on-disk filename component.
pub fn url_to_safe_filename(url: &str) -> (r: String)
    ensures
        r@ == sanitize_spec(url@),
{
    let u = to_chars(url);
    let s = sanitize_chars(&u);
    from_chars(&s)
}

// ---- tokens and links ----------------------------------------------------

/// Length of the leading run of non-whitespace characters.
pub open spec fn run_len(s: Seq<char>) -> nat
    decreases s.len(),
{
    if s.len() > 0 && !is_space(s[0]) {
        1 + run_len(s.drop_first())
    } else {
        0
    }
}

/// The whitespace-separated tokens of a text, in order.
pub open spec fn tokens_of(s: Seq<char>) -> Seq<Seq<char>>
    decreases s.len(),
{
    if s.len() == 0 {
        Seq::empty()
    } else if is_space(s[0]) {
        tokens_of(s.drop_first())
    } else {
        let k = if run_len(s) <= s.len() {
            run_len(s) as int
        } else {
            s.len() as int
        };
        seq![s.subrange(0, k)] + tokens_of(s.skip(k))
    }
}

pub open spec fn plus_http() -> Seq<char> {
    seq!['+', 'h', 't', 't', 'p']
}

/// The tokens that name a webpage to archive.
pub open spec fn link_filter(ts: Seq<Seq<char>>) -> Seq<Seq<char>>
    decreases ts.len(),
{
    if ts.len() == 0 {
        Seq::empty()
    } else {
        (if starts_with(ts[0], plus_http()) {
            seq![ts[0]]
        } else {
            Seq::empty()
        }) + link_filter(ts.drop_first())
    }
}

pub open spec fn links_of(s: Seq<char>) -> Seq<Seq<char>> {
    link_filter(tokens_of(s))
}

proof fn lemma_run_len_le(s: Seq<char>)
    ensures
        run_len(s) <= s.len(),
    decreases s.len(),
{
    if s.len() > 0 && !is_space(s[0]) {
        lemma_run_len_le(s.drop_first());
    }
}

/// The run length is pinned down by its first whitespace boundary.
proof fn lemma_run_len_count(s: Seq<char>, k: int)
    requires
        0 <= k <= s.len(),
        forall|m: int| 0 <= m < k ==> !is_space(#[trigger] s[m]),
        k == s.len() || is_space(s[k]),
    ensures
        run_len(s) == k,
    decreases s.len(),
{
    if s.len() > 0 && !is_space(s[0]) {
        assert(k >= 1);
        assert(forall|m: int| 0 <= m < k - 1 ==> !is_space(#[trigger] s.drop_first()[m]));
        if k - 1 < s.drop_first().len() {
            assert(s.drop_first()[k - 1] == s[k]);
        }
        lemma_run_len_count(s.drop_first(), k - 1);
    }
}

/// Characters inside the leading run are not whitespace.
proof fn lemma_run_len_nonspace(s: Seq<char>)
    ensures
        forall|m: int| 0 <= m < run_len(s) ==> !is_space(#[trigger] s[m]),
    decreases s.len(),
{
    if s.len() > 0 && !is_space(s[0]) {
        lemma_run_len_le(s);
        lemma_run_len_le(s.drop_first());
        lemma_run_len_nonspace(s.drop_first());
        assert forall|m: int| 0 <= m < run_len(s) implies !is_space(#[trigger] s[m]) by {
            if m > 0 {
                assert(!is_space(s.drop_first()[m - 1]));
                assert(s.drop_first()[m - 1] == s[m]);
            }
        }
    }
}

/// Every extracted link starts with the marker and holds no whitespace.
pub proof fn lemma_links_props(s: Seq<char>)
    ensures
        forall|k: int|
            0 <= k < links_of(s).len() ==> starts_with(#[trigger] links_of(s)[k], plus_http()),
        forall|k: int, i: int|
            0 <= k < links_of(s).len() && 0 <= i < links_of(s)[k].len() ==> !is_space(
                #[trigger] links_of(s)[k][i],
            ),
{
    lemma_tokens_props(s);
    lemma_link_filter_props(tokens_of(s));
}

proof fn lemma_tokens_props(s: Seq<char>)
    ensures
        forall|k: int, i: int|
            0 <= k < tokens_of(s).len() && 0 <= i < tokens_of(s)[k].len() ==> !is_space(
                #[trigger] tokens_of(s)[k][i],
            ),
    decreases s.len(),
{
    if s.len() == 0 {
    } else if is_space(s[0]) {
        lemma_tokens_props(s.drop_first());
        assert(tokens_of(s) == tokens_of(s.drop_first()));
    } else {
        lemma_run_len_le(s);
        let k = run_len(s) as int;
        assert(tokens_of(s) == seq![s.subrange(0, k)] + tokens_of(s.skip(k)));
        lemma_run_len_nonspace(s);
        lemma_tokens_props(s.skip(k));
        assert forall|a: int, i: int|
            0 <= a < tokens_of(s).len() && 0 <= i < tokens_of(s)[a].len() implies !is_space(
            #[trigger] tokens_of(s)[a][i],
        ) by {
            if a == 0 {
                assert(tokens_of(s)[0] == s.subrange(0, k));
                assert(s.subrange(0, k)[i] == s[i]);
            } else {
                assert(tokens_of(s)[a] == tokens_of(s.skip(k))[a - 1]);
            }
        }
    }
}

proof fn lemma_link_filter_props(ts: Seq<Seq<char>>)
    requires
        forall|k: int, i: int|
            0 <= k < ts.len() && 0 <= i < ts[k].len() ==> !is_space(#[trigger] ts[k][i]),
    ensures
        forall|k: int|
            0 <= k < link_filter(ts).len() ==> starts_with(#[trigger] link_filter(ts)[k], plus_http()),
        forall|k: int, i: int|
            0 <= k < link_filter(ts).len() && 0 <= i < link_filter(ts)[k].len() ==> !is_space(
                #[trigger] link_filter(ts)[k][i],
            ),
    decreases ts.len(),
{
    if ts.len() > 0 {
        assert(forall|k: int, i: int|
            0 <= k < ts.drop_first().len() && 0 <= i < ts.drop_first()[k].len() ==> !is_space(
                #[trigger] ts.drop_first()[k][i],
            ));
        lemma_link_filter_props(ts.drop_first());
        let head: Seq<Seq<char>> = if starts_with(ts[0], plus_http()) {
            seq![ts[0]]
        } else {
            Seq::empty()
        };
        assert forall|k: int|
            0 <= k < link_filter(ts).len() implies starts_with(link_filter(ts)[k], plus_http()) by {
            if k >= head.len() {
                assert(link_filter(ts)[k] == link_filter(ts.drop_first())[k - head.len()]);
            }
        }
        assert forall|k: int, i: int|
            0 <= k < link_filter(ts).len() && 0 <= i < link_filter(ts)[k].len() implies !is_space(
            link_filter(ts)[k][i],
        ) by {
            if k >= head.len() {
                assert(link_filter(ts)[k] == link_filter(ts.drop_first())[k - head.len()]);
            } else {
                assert(link_filter(ts)[k] == ts[0]);
            }
        }
    }
}

/// Views of a vector of token vectors.
pub open spec fn chars_views(v: Seq<Vec<char>>) -> Seq<Seq<char>> {
    v.map_values(|t: Vec<char>| t@)
}

/// Extracts the `+http...` tokens of a text, in order.
pub fn extract_links(v: &Vec<char>) -> (r: Vec<Vec<char>>)
    ensures
        chars_views(r@) == links_of(v@),
{
    let plus: Vec<char> = vec!['+', 'h', 't', 't', 'p'];
    assert(plus@ =~= plus_http());
    let n = v.len();
    let mut out: Vec<Vec<char>> = Vec::new();
    let mut i: usize = 0;
    assert(v@.skip(0) =~= v@);
    while i < n
        invariant
            i <= n,
            n == v@.len(),
            plus@ == plus_http(),
            links_of(v@) == chars_views(out@) + link_filter(tokens_of(v@.skip(i as int))),
        decreases n - i,
    {
        if is_space_exec(v[i]) {
            proof {
                assert(v@.skip(i as int).drop_first() =~= v@.skip(i + 1));
            }
            i += 1;
        } else {
            let start = i;
            let mut j = i;
            while j < n && !is_space_exec(v[j])
                invariant
                    start <= j <= n,
                    n == v@.len(),
                    forall|m: int| start <= m < j ==> !is_space(#[trigger] v@[m]),
                decreases n - j,
            {
                j += 1;
            }
            let tok = subvec(v, start, j);
            proof {
                let suf = v@.skip(start as int);
                assert(forall|m: int| 0 <= m < j - start ==> suf[m] == v@[start + m]);
                if j < n {
                    assert(suf[j - start] == v@[j as int]);
                }
                lemma_run_len_count(suf, j - start);
                assert(suf.subrange(0, j - start) =~= tok@);
                assert(suf.skip(j - start) =~= v@.skip(j as int));
            }
            let matched = starts_with_exec(&tok, &plus);
            let ghost tokv = tok@;
            let ghost prev_out = out@;
            if matched {
                out.push(tok);
            }
            proof {
                let suf = v@.skip(start as int);
                let head: Seq<Seq<char>> = if starts_with(tokv, plus_http()) {
                    seq![tokv]
                } else {
                    Seq::<Seq<char>>::empty()
                };
                assert(link_filter(tokens_of(suf)) == head + link_filter(
                    tokens_of(v@.skip(j as int)),
                )) by {
                    assert(tokens_of(suf)[0] == tokv);
                    assert(tokens_of(suf).drop_first() =~= tokens_of(v@.skip(j as int)));
                }
                if matched {
                    assert(chars_views(out@) =~= chars_views(prev_out).push(tokv));
                    assert(chars_views(prev_out).push(tokv) =~= chars_views(prev_out) + head);
                } else {
                    assert(chars_views(out@) + head =~= chars_views(out@));
                }
                assert(chars_views(out@) + link_filter(tokens_of(v@.skip(j as int)))
                    =~= links_of(v@));
            }
            i = j;
        }
    }
    proof {
        assert(v@.skip(n as int) =~= Seq::<char>::empty());
        assert(chars_views(out@) =~= links_of(v@));
    }
    out
}

// ---- substitution and the failure marker ---------------------------------

pub open spec fn marker_prefix() -> Seq<char> {
    seq!['(', 'l', 'o', 'c', 'a', 'l', ' ', 'c', 'o', 'p', 'y', ' ', 'a', 't', ' ']
}

/// What the archiver writes in place of a local-copy reference that
/// could not be downloaded.
pub open spec fn fail_seq() -> Seq<char> {
    seq!['(', 'l', 'o', 'c', 'a', 'l', ' ', 'c', 'o', 'p', 'y', ' ', 'f', 'a', 'i', 'l', 'e', 'd', ')']
}

pub open spec fn path_prefix() -> Seq<char> {
    seq!['a', 't', 't', 'a', 'c', 'h', 'm', 'e', 'n', 't', 's', '/', 'w', 'e', 'b', 'p', 'a', 'g', 'e', 's', '/']
}

pub open spec fn dot_html() -> Seq<char> {
    seq!['.', 'h', 't', 'm', 'l']
}

/// The relative path under which a webpage copy is archived.
pub open spec fn archive_path(url: Seq<char>) -> Seq<char> {
    path_prefix() + sanitize_spec(url) + dot_html()
}

/// The optimistic local-copy reference written at creation time.
pub open spec fn marker_seq(url: Seq<char>) -> Seq<char> {
    marker_prefix() + archive_path(url) + seq![')']
}

/// What a link token is replaced by: the URL followed by the reference.
pub open spec fn repl_seq(link: Seq<char>) -> Seq<char> {
    link.skip(1) + seq![' '] + marker_seq(link.skip(1))
}

pub open spec fn hr_pat() -> Seq<char> {
    seq!['-', '-', '-']
}

pub open spec fn hr_rep() -> Seq<char> {
    seq!['<', 'h', 'r', '>']
}

/// The content after horizontal-rule escaping, which also rules the
/// record delimiter out of any stored content.
pub open spec fn hr_content(raw: Seq<char>) -> Seq<char> {
    replace_all(raw, hr_pat(), hr_rep())
}

/// Sequential substitution of every link token.
pub open spec fn subst_all(c: Seq<char>, links: Seq<Seq<char>>) -> Seq<char>
    decreases links.len(),
{
    if links.len() == 0 {
        c
    } else {
        subst_all(replace_all(c, links[0], repl_seq(links[0])), links.drop_first())
    }
}

/// The content a note is created with, from the raw submission.
pub open spec fn created_content(raw: Seq<char>) -> Seq<char> {
    trim(subst_all(hr_content(raw), links_of(hr_content(raw))))
}

/// A note's content after the archiver repaired a failed download.
pub open spec fn repaired_content(c: Seq<char>, url: Seq<char>) -> Seq<char> {
    replace_all(c, marker_seq(url), fail_seq())
}

/// Character facts about the marker: an opening parenthesis only at the
/// front, no newline anywhere, and `a` where the failure text has `f`.
#[verifier::rlimit(100)]
pub proof fn lemma_marker_facts(url: Seq<char>)
    ensures
        marker_seq(url).len() >= 16,
        marker_seq(url)[0] == '(',
        forall|k: int| 0 < k < marker_seq(url).len() ==> #[trigger] marker_seq(url)[k] != '(',
        forall|k: int| 0 <= k < marker_seq(url).len() ==> #[trigger] marker_seq(url)[k] != '\n',
        marker_seq(url)[12] == 'a',
{
    lemma_sanitize_chars(url);
    let name = sanitize_spec(url);
    let m = marker_seq(url);
    assert(m.len() == 15 + 21 + name.len() + 5 + 1);
    assert forall|k: int| 0 < k < m.len() implies #[trigger] m[k] != '(' && m[k] != '\n' by {
        if k < 15 {
            assert(m[k] == marker_prefix()[k]);
        } else if k < 36 {
            assert(m[k] == path_prefix()[k - 15]);
        } else if k < 36 + name.len() {
            assert(m[k] == name[k - 36]);
            assert(name[k - 36] != '(' && name[k - 36] != '\n');
        } else if k < 41 + name.len() {
            assert(m[k] == dot_html()[k - 36 - name.len()]);
        } else {
            assert(m[k] == ')');
        }
    }
    assert(m[0] == marker_prefix()[0]);
    assert(m[12] == marker_prefix()[12]);
}

/// The replacement text for a link holds no newline, starts with `h`,
/// and ends with a closing parenthesis.
proof fn lemma_repl_facts(link: Seq<char>)
    requires
        starts_with(link, plus_http()),
        forall|i: int| 0 <= i < link.len() ==> !is_space(#[trigger] link[i]),
    ensures
        repl_seq(link).len() > 0,
        repl_seq(link)[0] == 'h',
        repl_seq(link).last() == ')',
        forall|i: int| 0 <= i < repl_seq(link).len() ==> #[trigger] repl_seq(link)[i] != '\n',
{
    let url = link.skip(1);
    let t = repl_seq(link);
    lemma_marker_facts(url);
    assert(link.subrange(0, 5)[1] == plus_http()[1]);
    assert(link[1] == 'h');
    assert(t[0] == url[0]);
    assert(url[0] == link[1]);
    let m = marker_seq(url);
    assert(t.last() == m.last());
    assert(m.last() == ')') by {
        assert(m[m.len() - 1] != '(');
        assert(m.len() - 1 >= 36 + sanitize_spec(url).len() + 5);
    }
    assert forall|i: int| 0 <= i < t.len() implies #[trigger] t[i] != '\n' by {
        if i < url.len() {
            assert(t[i] == url[i]);
            assert(url[i] == link[i + 1]);
            assert(!is_space(link[i + 1]));
        } else if i == url.len() {
            assert(t[i] == ' ');
        } else {
            assert(t[i] == m[i - url.len() - 1]);
        }
    }
}

/// Substituting link tokens never introduces the delimiter prefix.
proof fn lemma_subst_preserves(c: Seq<char>, links: Seq<Seq<char>>)
    requires
        !contains_seq(c, danger_seq()),
        forall|k: int| 0 <= k < links.len() ==> starts_with(#[trigger] links[k], plus_http()),
        forall|k: int, i: int|
            0 <= k < links.len() && 0 <= i < links[k].len() ==> !is_space(#[trigger] links[k][i]),
    ensures
        !contains_seq(subst_all(c, links), danger_seq()),
    decreases links.len(),
{
    if links.len() > 0 {
        let l = links[0];
        let t = repl_seq(l);
        lemma_repl_facts(l);
        assert(l.len() >= 5);
        lemma_no_first_char_no_occurrence(t, danger_seq());
        assert forall|k: int| 0 <= k < danger_seq().len() implies danger_seq()[k] != t[0]
            && danger_seq()[k] != t.last() by {}
        lemma_replace_preserves_absence(c, l, t, danger_seq());
        let c2 = replace_all(c, l, t);
        assert(forall|k: int|
            0 <= k < links.drop_first().len() ==> starts_with(
                #[trigger] links.drop_first()[k],
                plus_http(),
            ));
        assert(forall|k: int, i: int|
            0 <= k < links.drop_first().len() && 0 <= i < links.drop_first()[k].len() ==> !is_space(
                #[trigger] links.drop_first()[k][i],
            ));
        lemma_subst_preserves(c2, links.drop_first());
    }
}

/// Content built at creation time is well formed for the codec.
pub proof fn lemma_created_content_wf(raw: Seq<char>)
    ensures
        wf_content(created_content(raw)),
{
    lemma_replace_removes_pattern(raw, hr_pat(), hr_rep());
    let h = hr_content(raw);
    assert(danger_seq().subrange(2, 5) =~= hr_pat());
    lemma_absence_of_superstring(h, danger_seq(), hr_pat(), 2);
    lemma_links_props(h);
    lemma_subst_preserves(h, links_of(h));
    let su = subst_all(h, links_of(h));
    lemma_trim_preserves_absence(su, danger_seq());
    lemma_trim_idempotent(su);
}

/// The repair of a failed download is idempotent on the content.
pub proof fn lemma_repaired_idempotent(c: Seq<char>, url: Seq<char>)
    ensures
        repaired_content(repaired_content(c, url), url) == repaired_content(c, url),
{
    let m = marker_seq(url);
    let f = fail_seq();
    lemma_marker_facts(url);
    assert(m[12] != f[12]);
    lemma_replace_removes_pattern(c, m, f);
    crate::text::lemma_replace_all_absent(repaired_content(c, url), m, f);
}

/// The repair keeps the content well formed for the codec.
pub proof fn lemma_repaired_wf(c: Seq<char>, url: Seq<char>)
    requires
        wf_content(c),
    ensures
        wf_content(repaired_content(c, url)),
{
    let m = marker_seq(url);
    let f = fail_seq();
    lemma_marker_facts(url);
    lemma_no_first_char_no_occurrence(f, danger_seq());
    assert forall|k: int| 0 <= k < danger_seq().len() implies danger_seq()[k] != f[0]
        && danger_seq()[k] != f.last() by {}
    lemma_replace_preserves_absence(c, m, f, danger_seq());
    crate::text_laws::lemma_replace_ends(c, m, f);
    let r = repaired_content(c, url);
    if r.len() > 0 {
        crate::text_laws::lemma_trim_stable_ends(c);
        assert(!is_space(r[0]) && !is_space(r.last()));
    }
    lemma_trim_stable(r);
}

// ---- executable counterparts ---------------------------------------------

/// Appends all characters of `src` to `dst`.
pub fn append_all(dst: &mut Vec<char>, src: &Vec<char>)
    ensures
        final(dst)@ == old(dst)@ + src@,
{
    let mut k: usize = 0;
    while k < src.len()
        invariant
            k <= src@.len(),
            dst@ == old(dst)@ + src@.subrange(0, k as int),
        decreases src@.len() - k,
    {
        dst.push(src[k]);
        k += 1;
        assert(dst@ =~= old(dst)@ + src@.subrange(0, k as int));
    }
    assert(dst@ =~= old(dst)@ + src@);
}

/// Builds the failure marker text.
pub fn fail_chars() -> (r: Vec<char>)
    ensures
        r@ == fail_seq(),
{
    let r: Vec<char> = vec!['(', 'l', 'o', 'c', 'a', 'l', ' ', 'c', 'o', 'p', 'y', ' ', 'f', 'a',
        'i', 'l', 'e', 'd', ')'];
    assert(r@ =~= fail_seq());
    r
}

/// Builds the optimistic local-copy reference for a URL.
pub fn build_marker(url: &Vec<char>) -> (r: Vec<char>)
    ensures
        r@ == marker_seq(url@),
{
    let mut r: Vec<char> = vec!['(', 'l', 'o', 'c', 'a', 'l', ' ', 'c', 'o', 'p', 'y', ' ', 'a',
        't', ' '];
    assert(r@ =~= marker_prefix());
    let pp: Vec<char> = vec!['a', 't', 't', 'a', 'c', 'h', 'm', 'e', 'n', 't', 's', '/', 'w', 'e',
        'b', 'p', 'a', 'g', 'e', 's', '/'];
    assert(pp@ =~= path_prefix());
    append_all(&mut r, &pp);
    let name = sanitize_chars(url);
    append_all(&mut r, &name);
    let dh: Vec<char> = vec!['.', 'h', 't', 'm', 'l'];
    assert(dh@ =~= dot_html());
    append_all(&mut r, &dh);
    r.push(')');
    assert(r@ =~= marker_seq(url@));
    r
}

/// Builds the replacement text for a link token.
fn build_repl(link: &Vec<char>) -> (r: Vec<char>)
    requires
        link@.len() >= 1,
    ensures
        r@ == repl_seq(link@),
{
    let llen = link.len();
    let url = subvec(link, 1, llen);
    assert(url@ =~= link@.skip(1));
    let mut r = subvec(link, 1, llen);
    r.push(' ');
    let m = build_marker(&url);
    append_all(&mut r, &m);
    assert(r@ =~= repl_seq(link@));
    r
}

/// Builds a note's stored content from the raw submission, and returns
/// the link tokens found in it.
pub fn build_content(raw: &Vec<char>) -> (res: (Vec<char>, Vec<Vec<char>>))
    ensures
        res.0@ == created_content(raw@),
        chars_views(res.1@) == links_of(hr_content(raw@)),
{
    let pat: Vec<char> = vec!['-', '-', '-'];
    let rep: Vec<char> = vec!['<', 'h', 'r', '>'];
    assert(pat@ =~= hr_pat());
    assert(rep@ =~= hr_rep());
    let cur0 = replace_all_exec(raw, &pat, &rep);
    let links = extract_links(&cur0);
    proof {
        lemma_links_props(cur0@);
    }
    let ghost all_links = chars_views(links@);
    let mut cur = cur0;
    let mut k: usize = 0;
    assert(all_links.skip(0) =~= all_links);
    while k < links.len()
        invariant
            k <= links@.len(),
            all_links == chars_views(links@),
            all_links == links_of(hr_content(raw@)),
            forall|j: int| 0 <= j < all_links.len() ==> starts_with(
                #[trigger] all_links[j],
                plus_http(),
            ),
            subst_all(hr_content(raw@), all_links) == subst_all(cur@, all_links.skip(k as int)),
        decreases links@.len() - k,
    {
        let link = &links[k];
        assert(link@ == all_links[k as int]);
        assert(link@.len() >= 5);
        let r = build_repl(link);
        let next = replace_all_exec(&cur, link, &r);
        proof {
            let rest = all_links.skip(k as int);
            assert(rest[0] == all_links[k as int]);
            assert(rest.drop_first() =~= all_links.skip(k + 1));
            assert(subst_all(cur@, rest) == subst_all(next@, rest.drop_first()));
        }
        cur = next;
        k += 1;
    }
    proof {
        assert(all_links.skip(links@.len() as int) =~= Seq::<Seq<char>>::empty());
    }
    let t = trim_exec(&cur);
    (t, links)
}

} // verus!
