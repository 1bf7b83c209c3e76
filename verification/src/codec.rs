//! The note-log codec: a sequence of `(timestamp, content)` pairs is
//! serialized as `timestamp + "\n" + content + "\n\n---\n\n"` per record,
//! and parsed back by splitting on the record delimiter. Decoding never
//! fails: a fragment without a newline becomes content under a fallback
//! timestamp, and whitespace-only fragments are dropped.

use vstd::prelude::*;
use vstd::string::*;
use crate::text::{contains_seq, find_pos, is_space, lemma_find_pos, lemma_find_pos_unique,
    matches_at, trim};
use crate::text::{find_sub, from_chars, subvec, to_chars, trim_exec};
use crate::text_laws::{lemma_absence_subrange, lemma_trim_nonempty, lemma_trim_stable_ends};

verus! {

/// The one-character sequence holding a newline.
pub open spec fn nl_seq() -> Seq<char> {
    seq!['\n']
}

/// The record delimiter written between notes.
pub open spec fn delim_seq() -> Seq<char> {
    seq!['\n', '\n', '-', '-', '-', '\n', '\n']
}

/// The prefix of the delimiter that well-formed content must not hold:
/// text free of it can never run together with a following delimiter.
pub open spec fn danger_seq() -> Seq<char> {
    seq!['\n', '\n', '-', '-', '-']
}

/// A timestamp the codec round-trips: non-empty, single-line, trimmed.
pub open spec fn wf_timestamp(ts: Seq<char>) -> bool {
    &&& ts.len() > 0
    &&& trim(ts) == ts
    &&& forall|i: int| 0 <= i < ts.len() ==> ts[i] != '\n'
}

/// Content the codec round-trips: trimmed, and free of the delimiter prefix.
pub open spec fn wf_content(c: Seq<char>) -> bool {
    &&& trim(c) == c
    &&& !contains_seq(c, danger_seq())
}

pub open spec fn wf_pair(p: (Seq<char>, Seq<char>)) -> bool {
    wf_timestamp(p.0) && wf_content(p.1)
}

/// One encoded record.
pub open spec fn record_seq(ts: Seq<char>, c: Seq<char>) -> Seq<char> {
    ts + nl_seq() + c + delim_seq()
}

/// The encoded form of a sequence of pairs.
pub open spec fn encode_pairs_seq(ps: Seq<(Seq<char>, Seq<char>)>) -> Seq<char>
    decreases ps.len(),
{
    if ps.len() == 0 {
        Seq::empty()
    } else {
        record_seq(ps[0].0, ps[0].1) + encode_pairs_seq(ps.drop_first())
    }
}

/// Parsing one fragment: the first line is the timestamp, the trimmed
/// rest is the content; without a newline the whole fragment is content
/// under the fallback timestamp.
pub open spec fn parse_frag(b: Seq<char>, fb: Seq<char>) -> (Seq<char>, Seq<char>) {
    match find_pos(b, nl_seq()) {
        Some(i) => (trim(b.subrange(0, i)), trim(b.skip(i + 1))),
        None => (fb, b),
    }
}

/// A whitespace-only fragment yields nothing; any other yields one pair.
pub open spec fn frag_pairs(b: Seq<char>, fb: Seq<char>) -> Seq<(Seq<char>, Seq<char>)> {
    if trim(b).len() == 0 {
        Seq::empty()
    } else {
        seq![parse_frag(b, fb)]
    }
}

/// The decoded form of a log text.
pub open spec fn decode_pairs_seq(s: Seq<char>, fb: Seq<char>) -> Seq<(Seq<char>, Seq<char>)>
    decreases s.len(),
{
    match find_pos(s, delim_seq()) {
        Some(i) => if 0 <= i && i + delim_seq().len() <= s.len() {
            frag_pairs(s.subrange(0, i), fb) + decode_pairs_seq(
                s.skip(i + delim_seq().len() as int),
                fb,
            )
        } else {
            frag_pairs(s, fb)
        },
        None => frag_pairs(s, fb),
    }
}

/// Views of a vector of owned pairs.
pub open spec fn pair_views(v: Seq<(String, String)>) -> Seq<(Seq<char>, Seq<char>)> {
    v.map_values(|p: (String, String)| (p.0@, p.1@))
}

/// Encoding distributes over appending one pair at the end.
pub proof fn lemma_encode_push(ps: Seq<(Seq<char>, Seq<char>)>, q: (Seq<char>, Seq<char>))
    ensures
        encode_pairs_seq(ps.push(q)) == encode_pairs_seq(ps) + record_seq(q.0, q.1),
    decreases ps.len(),
{
    if ps.len() == 0 {
        assert(ps.push(q)[0] == q);
        assert(ps.push(q).drop_first() =~= Seq::<(Seq<char>, Seq<char>)>::empty());
        assert(encode_pairs_seq(ps.push(q).drop_first()) == Seq::<char>::empty());
        assert(encode_pairs_seq(ps.push(q)) == record_seq(q.0, q.1) + Seq::<char>::empty());
        assert(record_seq(q.0, q.1) + Seq::<char>::empty() =~= encode_pairs_seq(ps) + record_seq(
            q.0,
            q.1,
        ));
    } else {
        assert(ps.push(q).drop_first() =~= ps.drop_first().push(q));
        lemma_encode_push(ps.drop_first(), q);
        assert(ps.push(q)[0] == ps[0]);
        assert(record_seq(ps[0].0, ps[0].1) + (encode_pairs_seq(ps.drop_first()) + record_seq(
            q.0,
            q.1,
        )) =~= (record_seq(ps[0].0, ps[0].1) + encode_pairs_seq(ps.drop_first())) + record_seq(
            q.0,
            q.1,
        ));
    }
}

/// No delimiter can match before the end of a well-formed record.
#[verifier::rlimit(100)]
proof fn lemma_no_delim_before(ts: Seq<char>, c: Seq<char>, rest: Seq<char>, j: int)
    requires
        wf_timestamp(ts),
        wf_content(c),
        0 <= j < ts.len() + 1 + c.len(),
    ensures
        !matches_at(record_seq(ts, c) + rest, delim_seq(), j),
{
    let s = record_seq(ts, c) + rest;
    let tl = ts.len() as int;
    let bl = tl + 1 + c.len();
    assert(s.len() == bl + 7 + rest.len());
    if c.len() > 0 {
        lemma_trim_stable_ends(c);
    }
    if matches_at(s, delim_seq(), j) {
        assert(s.subrange(j, j + 7)[0] == delim_seq()[0]);
        assert(s.subrange(j, j + 7)[1] == delim_seq()[1]);
        assert(s.subrange(j, j + 7)[2] == delim_seq()[2]);
        assert(s[j] == '\n' && s[j + 1] == '\n' && s[j + 2] == '-');
        if j < tl {
            assert(s[j] == ts[j]);
        } else if j == tl {
            if c.len() > 0 {
                assert(s[j + 1] == c[0]);
                assert(!is_space(c[0]));
            } else {
                assert(s[j + 2] == delim_seq()[1]);
            }
        } else {
            // j lies inside the content
            let o = j - (tl + 1);
            assert(0 <= o < c.len());
            if o + 5 <= c.len() {
                assert(matches_at(c, danger_seq(), o)) by {
                    assert(c.subrange(o, o + 5) =~= s.subrange(j, j + 7).subrange(0, 5));
                    assert(s.subrange(j, j + 7).subrange(0, 5) =~= delim_seq().subrange(0, 5));
                    assert(delim_seq().subrange(0, 5) =~= danger_seq());
                }
            } else {
                let k = c.len() - o;
                assert(1 <= k <= 4);
                if k <= 2 {
                    // the content would end in a newline
                    assert(s.subrange(j, j + 7)[k - 1] == delim_seq()[k - 1]);
                    assert(s[j + k - 1] == c[c.len() - 1]);
                    assert(delim_seq()[k - 1] == '\n');
                    assert(!is_space(c.last()));
                } else {
                    // the character after the content is a newline, not '-'
                    assert(s.subrange(j, j + 7)[k] == delim_seq()[k]);
                    assert(s[j + k] == delim_seq()[0]);
                    assert(delim_seq()[k] == '-');
                }
            }
        }
    }
}

/// In the encoding of a well-formed pair followed by anything, the first
/// delimiter stands exactly after the content.
proof fn lemma_first_delim(ts: Seq<char>, c: Seq<char>, rest: Seq<char>)
    requires
        wf_timestamp(ts),
        wf_content(c),
    ensures
        find_pos(record_seq(ts, c) + rest, delim_seq()) == Some(ts.len() as int + 1 + c.len() as int),
{
    let s = record_seq(ts, c) + rest;
    let tl = ts.len() as int;
    let bl = tl + 1 + c.len();
    assert(matches_at(s, delim_seq(), bl)) by {
        assert(s.subrange(bl, bl + 7) =~= delim_seq());
    }
    assert forall|j: int| 0 <= j < bl implies !matches_at(s, delim_seq(), j) by {
        lemma_no_delim_before(ts, c, rest, j);
    }
    lemma_find_pos_unique(s, delim_seq(), bl);
}

/// A well-formed record fragment parses back to its own pair.
proof fn lemma_parse_record(ts: Seq<char>, c: Seq<char>)
    requires
        wf_timestamp(ts),
        wf_content(c),
    ensures
        forall|fb: Seq<char>| #[trigger] frag_pairs(ts + nl_seq() + c, fb) == seq![(ts, c)],
{
    let b = ts + nl_seq() + c;
    let tl = ts.len() as int;
    lemma_trim_stable_ends(ts);
    assert(b[0] == ts[0]);
    lemma_trim_nonempty(b);
    assert(trim(b).len() > 0);
    assert(matches_at(b, nl_seq(), tl)) by {
        assert(b.subrange(tl, tl + 1) =~= nl_seq());
    }
    assert forall|j: int| 0 <= j < tl implies !matches_at(b, nl_seq(), j) by {
        if matches_at(b, nl_seq(), j) {
            assert(b.subrange(j, j + 1)[0] == nl_seq()[0]);
            assert(b[j] == ts[j]);
        }
    }
    lemma_find_pos_unique(b, nl_seq(), tl);
    assert(b.subrange(0, tl) =~= ts);
    assert(b.skip(tl + 1) =~= c);
    assert forall|fb: Seq<char>| #[trigger] frag_pairs(b, fb) == seq![(ts, c)] by {
        assert(parse_frag(b, fb) == (trim(ts), trim(c)));
    }
}

/// Round trip: decoding an encoded sequence of well-formed pairs gives
/// back exactly those pairs, whatever fallback timestamp is in force.
pub proof fn lemma_round_trip(ps: Seq<(Seq<char>, Seq<char>)>, fb: Seq<char>)
    requires
        forall|k: int| 0 <= k < ps.len() ==> wf_pair(#[trigger] ps[k]),
    ensures
        decode_pairs_seq(encode_pairs_seq(ps), fb) == ps,
    decreases ps.len(),
{
    if ps.len() == 0 {
        let s = encode_pairs_seq(ps);
        assert(s.len() == 0);
        lemma_find_pos(s, delim_seq());
        assert(find_pos(s, delim_seq()) is None) by {
            if find_pos(s, delim_seq()) is Some {
                let i = find_pos(s, delim_seq())->0;
                assert(matches_at(s, delim_seq(), i));
            }
        }
        assert(trim(s) =~= s);
        assert(decode_pairs_seq(s, fb) =~= ps);
    } else {
        let ts = ps[0].0;
        let c = ps[0].1;
        let tail = encode_pairs_seq(ps.drop_first());
        let s = encode_pairs_seq(ps);
        assert(s == record_seq(ts, c) + tail);
        lemma_first_delim(ts, c, tail);
        let bl = ts.len() as int + 1 + c.len() as int;
        assert(s.subrange(0, bl) =~= ts + nl_seq() + c);
        assert(s.skip(bl + 7) =~= tail);
        lemma_parse_record(ts, c);
        assert forall|k: int| 0 <= k < ps.drop_first().len() implies wf_pair(
            #[trigger] ps.drop_first()[k],
        ) by {
            assert(ps.drop_first()[k] == ps[k + 1]);
        }
        lemma_round_trip(ps.drop_first(), fb);
        assert(decode_pairs_seq(s, fb) == seq![(ts, c)] + ps.drop_first());
        assert(seq![(ts, c)] + ps.drop_first() =~= ps);
    }
}

/// Builds the one-character newline pattern.
pub fn nl_chars() -> (v: Vec<char>)
    ensures
        v@ == nl_seq(),
{
    let v: Vec<char> = vec!['\n'];
    assert(v@ =~= nl_seq());
    v
}

/// Builds the record delimiter as characters.
pub fn delim_chars() -> (v: Vec<char>)
    ensures
        v@ == delim_seq(),
{
    let v: Vec<char> = vec!['\n', '\n', '-', '-', '-', '\n', '\n'];
    assert(v@ =~= delim_seq());
    v
}

/// Appends one encoded record to the accumulating log text.
pub fn append_record(out: &mut String, ts: &str, c: &str)
    ensures
        final(out)@ == old(out)@ + record_seq(ts@, c@),
{
    out.append(ts);
    out.append("\n");
    out.append(c);
    out.append("\n\n---\n\n");
    proof {
        reveal_strlit("\n");
        reveal_strlit("\n\n---\n\n");
        assert("\n"@ =~= nl_seq());
        assert("\n\n---\n\n"@ =~= delim_seq());
        assert(old(out)@ + ts@ + nl_seq() + c@ + delim_seq() =~= old(out)@ + record_seq(ts@, c@));
    }
}

/// Encodes a sequence of `(timestamp, content)` pairs as one log text.
pub fn encode_pairs(ps: &Vec<(String, String)>) -> (r: String)
    ensures
        r@ == encode_pairs_seq(pair_views(ps@)),
{
    let mut out = String::new();
    let mut i: usize = 0;
    while i < ps.len()
        invariant
            i <= ps@.len(),
            out@ == encode_pairs_seq(pair_views(ps@.subrange(0, i as int))),
        decreases ps@.len() - i,
    {
        let p = &ps[i];
        append_record(&mut out, p.0.as_str(), p.1.as_str());
        proof {
            assert(pair_views(ps@.subrange(0, i + 1)) =~= pair_views(
                ps@.subrange(0, i as int),
            ).push((ps@[i as int].0@, ps@[i as int].1@)));
            lemma_encode_push(
                pair_views(ps@.subrange(0, i as int)),
                (ps@[i as int].0@, ps@[i as int].1@),
            );
        }
        i += 1;
    }
    assert(ps@.subrange(0, ps@.len() as int) =~= ps@);
    out
}

/// Parses one fragment and appends what it yields.
fn push_frag(out: &mut Vec<(String, String)>, frag: &Vec<char>, fallback: &str)
    ensures
        pair_views(final(out)@) == pair_views(old(out)@) + frag_pairs(frag@, fallback@),
{
    let t = trim_exec(frag);
    if t.len() == 0 {
        assert(pair_views(out@) =~= pair_views(out@) + frag_pairs(frag@, fallback@));
        return ;
    }
    let nlv = nl_chars();
    match find_sub(frag, &nlv) {
        Some(i) => {
            let flen = frag.len();
            let ts_part = trim_exec(&subvec(frag, 0, i));
            let c_part = trim_exec(&subvec(frag, i + 1, flen));
            proof {
                assert(frag@.skip(i + 1) =~= frag@.subrange(i + 1, flen as int));
                assert(parse_frag(frag@, fallback@) == (ts_part@, c_part@));
            }
            let pair = (from_chars(&ts_part), from_chars(&c_part));
            out.push(pair);
            assert(pair_views(out@) =~= pair_views(old(out)@) + frag_pairs(frag@, fallback@));
        },
        None => {
            proof {
                assert(parse_frag(frag@, fallback@) == (fallback@, frag@));
            }
            let pair = (fallback.to_owned(), from_chars(frag));
            out.push(pair);
            assert(pair_views(out@) =~= pair_views(old(out)@) + frag_pairs(frag@, fallback@));
        },
    }
}

/// Decodes a log text into `(timestamp, content)` pairs; `fallback`
/// stands in for the timestamp of a fragment that has no newline.
pub fn decode_pairs(text: &str, fallback: &str) -> (r: Vec<(String, String)>)
    ensures
        pair_views(r@) == decode_pairs_seq(text@, fallback@),
{
    let d = delim_chars();
    let mut rest = to_chars(text);
    let mut out: Vec<(String, String)> = Vec::new();
    loop
        invariant
            d@ == delim_seq(),
            decode_pairs_seq(text@, fallback@) == pair_views(out@) + decode_pairs_seq(
                rest@,
                fallback@,
            ),
        decreases rest@.len(),
    {
        match find_sub(&rest, &d) {
            Some(i) => {
                let frag = subvec(&rest, 0, i);
                push_frag(&mut out, &frag, fallback);
                let rl = rest.len();
                let ghost old_rest = rest@;
                rest = subvec(&rest, i + d.len(), rl);
                proof {
                    assert(rest@ =~= old_rest.skip(i + 7));
                    assert(decode_pairs_seq(old_rest, fallback@) == frag_pairs(
                        old_rest.subrange(0, i as int),
                        fallback@,
                    ) + decode_pairs_seq(rest@, fallback@));
                    assert(pair_views(out@) + decode_pairs_seq(rest@, fallback@) =~= decode_pairs_seq(
                        text@,
                        fallback@,
                    ));
                }
            },
            None => {
                push_frag(&mut out, &rest, fallback);
                return out;
            },
        }
    }
}

} // verus!
