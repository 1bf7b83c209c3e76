//! The note store: an in-memory ordered sequence of notes mirrored, at
//! every quiet moment, by the canonical text log it carries along. Every
//! mutation re-establishes that the log text is exactly the encoding of
//! the note sequence, so the caller that persists `log_text` keeps the
//! disk copy in step with memory.

use vstd::prelude::*;
use vstd::string::*;
use crate::codec::{danger_seq, decode_pairs, decode_pairs_seq, encode_pairs_seq, append_record,
    lemma_encode_push, lemma_round_trip, pair_views, record_seq, wf_content, wf_pair,
    wf_timestamp};
use crate::links::{build_content, build_marker, chars_views, created_content, fail_chars,
    hr_content, lemma_created_content_wf, lemma_repaired_idempotent, lemma_repaired_wf, links_of,
    marker_seq, repaired_content};
use crate::outside::{lower_of, md_to_html, now_string, render_of, to_lower};
use crate::text::{contains_seq, lemma_find_pos, matches_at, replace_all, trim};
use crate::text::{find_sub, from_chars, replace_all_exec, to_chars, trim_exec};
use crate::text_laws::{lemma_replace_removes_pattern, lemma_trim_idempotent,
    lemma_trim_preserves_absence, lemma_trim_stable};

verus! {

/// How a store operation can fail.
#[derive(Clone, Copy, PartialEq, Eq, Structural, Debug)]
pub enum NoteError {
    NotFound,
}

/// A stored note: its creation timestamp, its markdown content as kept
/// on disk, and the rendered HTML of that content.
pub struct Note {
    pub id: u64,
    pub timestamp: String,
    pub content: String,
    pub html: String,
}

/// The mathematical shadow of a note.
#[verifier::ext_equal]
pub ghost struct NoteAbs {
    pub id: u64,
    pub timestamp: Seq<char>,
    pub content: Seq<char>,
    pub html: Seq<char>,
}

impl View for Note {
    type V = NoteAbs;

    open spec fn view(&self) -> NoteAbs {
        NoteAbs {
            id: self.id,
            timestamp: self.timestamp@,
            content: self.content@,
            html: self.html@,
        }
    }
}

pub open spec fn notes_views(v: Seq<Note>) -> Seq<NoteAbs> {
    v.map_values(|n: Note| n@)
}

pub open spec fn string_views(v: Seq<String>) -> Seq<Seq<char>> {
    v.map_values(|s: String| s@)
}

pub open spec fn pairs_of(ns: Seq<NoteAbs>) -> Seq<(Seq<char>, Seq<char>)> {
    ns.map_values(|n: NoteAbs| (n.timestamp, n.content))
}

/// A well-formed note: codec-safe fields, and HTML that is exactly the
/// rendering of the content.
pub open spec fn wf_note_abs(n: NoteAbs) -> bool {
    wf_timestamp(n.timestamp) && wf_content(n.content) && n.html == render_of(n.content)
}

/// The timestamp actually stored for a creation request: trimmed, and
/// replaced by a fixed epoch stamp if empty or spanning lines.
pub open spec fn fallback_ts() -> Seq<char> {
    seq!['1', '9', '7', '0', '-', '0', '1', '-', '0', '1', ' ', '0', '0', ':', '0', '0', ':', '0',
        '0']
}

pub open spec fn norm_timestamp(ts: Seq<char>) -> Seq<char> {
    let t = trim(ts);
    if t.len() > 0 && (forall|i: int| 0 <= i < t.len() ==> t[i] != '\n') {
        t
    } else {
        fallback_ts()
    }
}

/// What replaces the delimiter prefix in content read from a foreign log.
pub open spec fn blank_fix() -> Seq<char> {
    seq![' ', '-', '-', '-']
}

pub open spec fn norm_content(c: Seq<char>) -> Seq<char> {
    trim(replace_all(c, danger_seq(), blank_fix()))
}

pub open spec fn load_note(k: int, p: (Seq<char>, Seq<char>)) -> NoteAbs {
    NoteAbs {
        id: k as u64,
        timestamp: norm_timestamp(p.0),
        content: norm_content(p.1),
        html: render_of(norm_content(p.1)),
    }
}

/// The store contents read from a decoded log.
pub open spec fn load_model(ps: Seq<(Seq<char>, Seq<char>)>) -> Seq<NoteAbs> {
    Seq::new(ps.len(), |k: int| load_note(k, ps[k]))
}

/// The note created for a raw submission under a given clock reading.
pub open spec fn created_note(id: u64, raw: Seq<char>, now: Seq<char>) -> NoteAbs {
    NoteAbs {
        id: id,
        timestamp: norm_timestamp(now),
        content: created_content(raw),
        html: render_of(created_content(raw)),
    }
}

/// A note after the archiver recorded a failed download of `url`.
pub open spec fn repair_note_abs(n: NoteAbs, url: Seq<char>) -> NoteAbs {
    NoteAbs {
        id: n.id,
        timestamp: n.timestamp,
        content: repaired_content(n.content, url),
        html: render_of(repaired_content(n.content, url)),
    }
}

/// The whole store after a repair message for note `id`.
pub open spec fn repair_model(ns: Seq<NoteAbs>, id: u64, url: Seq<char>) -> Seq<NoteAbs> {
    ns.map_values(|n: NoteAbs| if n.id == id { repair_note_abs(n, url) } else { n })
}

/// First position of the note with the given identifier.
pub open spec fn idx_of(ns: Seq<NoteAbs>, id: u64) -> Option<int>
    decreases ns.len(),
{
    if ns.len() == 0 {
        None
    } else if ns[0].id == id {
        Some(0)
    } else {
        match idx_of(ns.drop_first(), id) {
            Some(i) => Some(i + 1),
            None => None,
        }
    }
}

/// The notes whose lowercased content holds the lowercased query.
pub open spec fn search_matches(ns: Seq<NoteAbs>, lq: Seq<char>) -> Seq<NoteAbs>
    decreases ns.len(),
{
    if ns.len() == 0 {
        Seq::empty()
    } else {
        search_matches(ns.drop_last(), lq) + (if contains_seq(lower_of(ns.last().content), lq) {
            seq![ns.last()]
        } else {
            Seq::empty()
        })
    }
}

/// The normalized timestamp is always well formed.
pub proof fn lemma_norm_timestamp_wf(ts: Seq<char>)
    ensures
        wf_timestamp(norm_timestamp(ts)),
{
    let t = trim(ts);
    lemma_trim_idempotent(ts);
    if t.len() > 0 && (forall|i: int| 0 <= i < t.len() ==> t[i] != '\n') {
    } else {
        let f = fallback_ts();
        assert(f.len() == 19);
        assert(forall|i: int| 0 <= i < f.len() ==> f[i] != '\n');
        assert(!crate::text::is_space(f[0]) && !crate::text::is_space(f.last()));
        lemma_trim_stable(f);
    }
}

/// Normalized content is always well formed.
pub proof fn lemma_norm_content_wf(c: Seq<char>)
    ensures
        wf_content(norm_content(c)),
{
    lemma_replace_removes_pattern(c, danger_seq(), blank_fix());
    let r = replace_all(c, danger_seq(), blank_fix());
    lemma_trim_preserves_absence(r, danger_seq());
    lemma_trim_idempotent(r);
}

/// What `idx_of` returns: the first note carrying the identifier.
pub proof fn lemma_idx_of(ns: Seq<NoteAbs>, id: u64)
    ensures
        match idx_of(ns, id) {
            Some(i) => 0 <= i < ns.len() && ns[i].id == id && forall|j: int|
                0 <= j < i ==> ns[j].id != id,
            None => forall|j: int| 0 <= j < ns.len() ==> ns[j].id != id,
        },
    decreases ns.len(),
{
    if ns.len() > 0 && ns[0].id != id {
        lemma_idx_of(ns.drop_first(), id);
        match idx_of(ns.drop_first(), id) {
            Some(i) => {
                assert(ns.drop_first()[i] == ns[i + 1]);
                assert forall|j: int| 0 <= j < i + 1 implies ns[j].id != id by {
                    if j > 0 {
                        assert(ns.drop_first()[j - 1] == ns[j]);
                        assert(ns.drop_first()[j - 1].id != id);
                    }
                }
            },
            None => {
                assert forall|j: int| 0 <= j < ns.len() implies ns[j].id != id by {
                    if j > 0 {
                        assert(ns.drop_first()[j - 1] == ns[j]);
                        assert(ns.drop_first()[j - 1].id != id);
                    }
                }
            },
        }
    }
}

/// A witness of the first matching position pins `idx_of` down.
pub proof fn lemma_idx_of_unique(ns: Seq<NoteAbs>, id: u64, i: int)
    requires
        0 <= i < ns.len(),
        ns[i].id == id,
        forall|j: int| 0 <= j < i ==> (#[trigger] ns[j].id) != id,
    ensures
        idx_of(ns, id) == Some(i),
{
    lemma_idx_of(ns, id);
    match idx_of(ns, id) {
        Some(k) => {
            if k < i {
                assert(ns[k].id != id);
            } else if k > i {
                assert(ns[i].id != id);
            }
        },
        None => {
            assert(ns[i].id != id);
        },
    }
}

/// The result of a store operation that created a note.
pub struct CreateOutcome {
    pub note: Note,
    pub links: Vec<String>,
    pub appended: String,
}

/// The note store. `notes` is the in-memory truth; `log` is the exact
/// text the backing file must hold once the caller persists it.
pub struct Store {
    notes: Vec<Note>,
    log: String,
    next_id: u64,
}

impl View for Store {
    type V = Seq<NoteAbs>;

    closed spec fn view(&self) -> Seq<NoteAbs> {
        notes_views(self.notes@)
    }
}

/// Makes an independent copy of a note.
pub fn clone_note(n: &Note) -> (r: Note)
    ensures
        r@ == n@,
{
    Note {
        id: n.id,
        timestamp: n.timestamp.clone(),
        content: n.content.clone(),
        html: n.html.clone(),
    }
}

/// Encodes the whole note sequence as one log text.
fn encode_notes(notes: &Vec<Note>) -> (r: String)
    ensures
        r@ == encode_pairs_seq(pairs_of(notes_views(notes@))),
{
    let mut out = String::new();
    let mut i: usize = 0;
    assert(pairs_of(notes_views(notes@.subrange(0, 0))) =~= Seq::<(Seq<char>, Seq<char>)>::empty());
    while i < notes.len()
        invariant
            i <= notes@.len(),
            out@ == encode_pairs_seq(pairs_of(notes_views(notes@.subrange(0, i as int)))),
        decreases notes@.len() - i,
    {
        let n = &notes[i];
        append_record(&mut out, n.timestamp.as_str(), n.content.as_str());
        proof {
            assert(pairs_of(notes_views(notes@.subrange(0, i + 1))) =~= pairs_of(
                notes_views(notes@.subrange(0, i as int)),
            ).push((notes@[i as int].timestamp@, notes@[i as int].content@)));
            lemma_encode_push(
                pairs_of(notes_views(notes@.subrange(0, i as int))),
                (notes@[i as int].timestamp@, notes@[i as int].content@),
            );
        }
        i += 1;
    }
    assert(notes@.subrange(0, notes@.len() as int) =~= notes@);
    out
}

/// Normalizes a clock reading into a stored timestamp.
fn normalize_timestamp_chars(v: &Vec<char>) -> (r: Vec<char>)
    ensures
        r@ == norm_timestamp(v@),
{
    let t = trim_exec(v);
    let mut ok: bool = t.len() > 0;
    let mut i: usize = 0;
    while i < t.len()
        invariant
            i <= t@.len(),
            ok == (t@.len() > 0 && forall|m: int| 0 <= m < i ==> t@[m] != '\n'),
        decreases t@.len() - i,
    {
        if t[i] == '\n' {
            ok = false;
        }
        i += 1;
    }
    if ok {
        t
    } else {
        let f: Vec<char> = vec!['1', '9', '7', '0', '-', '0', '1', '-', '0', '1', ' ', '0', '0',
            ':', '0', '0', ':', '0', '0'];
        assert(f@ =~= fallback_ts());
        f
    }
}

/// Normalizes content read from a log text.
fn norm_content_chars(v: &Vec<char>) -> (r: Vec<char>)
    ensures
        r@ == norm_content(v@),
{
    let d: Vec<char> = vec!['\n', '\n', '-', '-', '-'];
    let b: Vec<char> = vec![' ', '-', '-', '-'];
    assert(d@ =~= danger_seq());
    assert(b@ =~= blank_fix());
    let r = replace_all_exec(v, &d, &b);
    trim_exec(&r)
}

/// Whether `p` occurs anywhere in `h`.
fn contains_chars(h: &Vec<char>, p: &Vec<char>) -> (r: bool)
    ensures
        r == contains_seq(h@, p@),
{
    if p.len() == 0 {
        assert(matches_at(h@, p@, 0)) by {
            assert(h@.subrange(0, 0) =~= p@);
        }
        return true;
    }
    match find_sub(h, p) {
        Some(i) => {
            proof {
                lemma_find_pos(h@, p@);
            }
            true
        },
        None => {
            proof {
                lemma_find_pos(h@, p@);
                if exists|j: int| matches_at(h@, p@, j) {
                    let j = choose|j: int| matches_at(h@, p@, j);
                    assert(!matches_at(h@, p@, j));
                }
            }
            false
        },
    }
}

impl Store {
    pub closed spec fn log_view(&self) -> Seq<char> {
        self.log@
    }

    pub closed spec fn next_id_spec(&self) -> u64 {
        self.next_id
    }

    /// The store's standing invariant: every note is well formed, the
    /// identifiers are fresh and distinct, and the carried log text is
    /// exactly the encoding of the note sequence.
    pub open spec fn wf(&self) -> bool {
        &&& forall|i: int| 0 <= i < self@.len() ==> wf_note_abs(#[trigger] self@[i])
        &&& forall|i: int| 0 <= i < self@.len() ==> (#[trigger] self@[i].id) < self.next_id_spec()
        &&& forall|i: int, j: int|
            0 <= i < j < self@.len() ==> (#[trigger] self@[i].id) != (#[trigger] self@[j].id)
        &&& self.log_view() == encode_pairs_seq(pairs_of(self@))
    }

    /// A store with no notes.
    pub fn new_store() -> (s: Store)
        ensures
            s.wf(),
            s@ == Seq::<NoteAbs>::empty(),
            s.next_id_spec() == 0,
    {
        let s = Store { notes: Vec::new(), log: String::new(), next_id: 0 };
        proof {
            assert(notes_views(s.notes@) =~= Seq::<NoteAbs>::empty());
            assert(pairs_of(notes_views(s.notes@)) =~= Seq::<(Seq<char>, Seq<char>)>::empty());
        }
        s
    }

    /// Reads a store from a log text. Decoding never fails; fields are
    /// normalized so that the store invariant holds of whatever was read.
    pub fn load(text: &str, fallback: &str) -> (s: Store)
        ensures
            s.wf(),
            s@ == load_model(decode_pairs_seq(text@, fallback@)),
            s.next_id_spec() == s@.len(),
    {
        let ps = decode_pairs(text, fallback);
        let ghost model = load_model(decode_pairs_seq(text@, fallback@));
        let mut notes: Vec<Note> = Vec::new();
        let mut log = String::new();
        let mut k: usize = 0;
        proof {
            assert(pairs_of(notes_views(notes@)) =~= Seq::<(Seq<char>, Seq<char>)>::empty());
        }
        while k < ps.len()
            invariant
                k <= ps@.len(),
                model == load_model(pair_views(ps@)),
                model.len() == ps@.len(),
                notes_views(notes@) == model.subrange(0, k as int),
                log@ == encode_pairs_seq(pairs_of(notes_views(notes@))),
                forall|m: int| 0 <= m < k ==> wf_note_abs(#[trigger] model[m]),
            decreases ps@.len() - k,
        {
            let p = &ps[k];
            let tsv = normalize_timestamp_chars(&to_chars(p.0.as_str()));
            let cv = norm_content_chars(&to_chars(p.1.as_str()));
            let content = from_chars(&cv);
            let html = md_to_html(content.as_str());
            let note = Note { id: k as u64, timestamp: from_chars(&tsv), content, html };
            proof {
                lemma_norm_timestamp_wf(ps@[k as int].0@);
                lemma_norm_content_wf(ps@[k as int].1@);
                assert(note@ == model[k as int]);
            }
            append_record(&mut log, note.timestamp.as_str(), note.content.as_str());
            proof {
                lemma_encode_push(
                    pairs_of(notes_views(notes@)),
                    (note@.timestamp, note@.content),
                );
                assert(pairs_of(notes_views(notes@.push(note))) =~= pairs_of(
                    notes_views(notes@),
                ).push((note@.timestamp, note@.content)));
                assert(notes_views(notes@.push(note)) =~= notes_views(notes@).push(note@));
                assert(notes_views(notes@).push(note@) =~= model.subrange(0, k + 1));
            }
            notes.push(note);
            k += 1;
        }
        let n = notes.len();
        let s = Store { notes, log, next_id: n as u64 };
        proof {
            assert(model.subrange(0, model.len() as int) =~= model);
            assert forall|i: int| 0 <= i < s@.len() implies (#[trigger] s@[i].id) < s.next_id_spec()
                by {
                assert(s@[i] == load_note(i, pair_views(ps@)[i]));
            }
            assert forall|i: int, j: int| 0 <= i < j < s@.len() implies (#[trigger] s@[i].id) != (
            #[trigger] s@[j].id) by {
                assert(s@[i] == load_note(i, pair_views(ps@)[i]));
                assert(s@[j] == load_note(j, pair_views(ps@)[j]));
            }
        }
        s
    }

    /// Whether another note can still be given a fresh identifier.
    pub fn has_capacity(&self) -> (r: bool)
        ensures
            r == (self.next_id_spec() < u64::MAX),
    {
        self.next_id < u64::MAX
    }

    /// How many notes the store holds.
    pub fn count(&self) -> (n: usize)
        ensures
            n == self@.len(),
    {
        self.notes.len()
    }

    /// The exact text the backing log file must hold.
    pub fn log_text(&self) -> (r: String)
        ensures
            r@ == self.log_view(),
    {
        self.log.clone()
    }

    /// A snapshot copy of all notes, in order.
    pub fn list(&self) -> (r: Vec<Note>)
        ensures
            notes_views(r@) == self@,
    {
        let mut r: Vec<Note> = Vec::new();
        let mut i: usize = 0;
        while i < self.notes.len()
            invariant
                i <= self.notes@.len(),
                r@.len() == i,
                forall|m: int| 0 <= m < i ==> (#[trigger] r@[m])@ == self@[m],
            decreases self.notes@.len() - i,
        {
            let c = clone_note(&self.notes[i]);
            r.push(c);
            i += 1;
        }
        proof {
            assert(notes_views(r@) =~= self@);
        }
        r
    }

    /// The note at an index, or `NotFound` past the end.
    pub fn get(&self, index: usize) -> (r: Result<Note, NoteError>)
        ensures
            match r {
                Ok(n) => index < self@.len() && n@ == self@[index as int],
                Err(e) => index >= self@.len() && e == NoteError::NotFound,
            },
    {
        if index < self.notes.len() {
            Ok(clone_note(&self.notes[index]))
        } else {
            Err(NoteError::NotFound)
        }
    }

    /// Creates a note from a raw submission under a given clock reading:
    /// the content has `---` escaped and every `+http...` token replaced
    /// by its URL plus a local-copy reference, the log text grows by
    /// exactly the one encoded record, and the found links come back for
    /// the archiver.
    pub fn create_with_timestamp(&mut self, raw: &str, now: &str) -> (out: CreateOutcome)
        requires
            old(self).wf(),
            old(self).next_id_spec() < u64::MAX,
        ensures
            final(self).wf(),
            final(self)@ == old(self)@.push(
                created_note(old(self).next_id_spec(), raw@, now@),
            ),
            out.note@ == created_note(old(self).next_id_spec(), raw@, now@),
            string_views(out.links@) == links_of(hr_content(raw@)),
            final(self).next_id_spec() == old(self).next_id_spec() + 1,
            out.appended@ == record_seq(norm_timestamp(now@), created_content(raw@)),
            final(self).log_view() == old(self).log_view() + out.appended@,
    {
        let rawv = to_chars(raw);
        let built = build_content(&rawv);
        let cv = built.0;
        let linkvs = built.1;
        let nowv = to_chars(now);
        let tsv = normalize_timestamp_chars(&nowv);
        let content = from_chars(&cv);
        let html = md_to_html(content.as_str());
        let note = Note { id: self.next_id, timestamp: from_chars(&tsv), content, html };
        let copy = clone_note(&note);
        let mut appended = String::new();
        append_record(&mut appended, note.timestamp.as_str(), note.content.as_str());
        self.log.append(appended.as_str());
        proof {
            lemma_norm_timestamp_wf(now@);
            lemma_created_content_wf(raw@);
            lemma_encode_push(pairs_of(notes_views(self.notes@)), (note@.timestamp, note@.content));
            assert(pairs_of(notes_views(self.notes@.push(note))) =~= pairs_of(
                notes_views(self.notes@),
            ).push((note@.timestamp, note@.content)));
            assert(notes_views(self.notes@.push(note)) =~= notes_views(self.notes@).push(note@));
        }
        self.notes.push(note);
        self.next_id = self.next_id + 1;
        let mut links: Vec<String> = Vec::new();
        let mut i: usize = 0;
        while i < linkvs.len()
            invariant
                i <= linkvs@.len(),
                links@.len() == i,
                forall|m: int| 0 <= m < i ==> (#[trigger] links@[m])@ == linkvs@[m]@,
            decreases linkvs@.len() - i,
        {
            let s = from_chars(&linkvs[i]);
            links.push(s);
            i += 1;
        }
        proof {
            assert(string_views(links@) =~= chars_views(linkvs@));
        }
        CreateOutcome { note: copy, links, appended }
    }

    /// Creates a note stamped with the current clock reading.
    pub fn create(&mut self, raw: &str) -> (out: CreateOutcome)
        requires
            old(self).wf(),
            old(self).next_id_spec() < u64::MAX,
        ensures
            final(self).wf(),
            final(self)@.len() == old(self)@.len() + 1,
            final(self)@ == old(self)@.push(final(self)@.last()),
            final(self)@.last().content == created_content(raw@),
            final(self)@.last().html == render_of(created_content(raw@)),
            final(self)@.last().id == old(self).next_id_spec(),
            wf_timestamp(final(self)@.last().timestamp),
            out.note@ == final(self)@.last(),
            string_views(out.links@) == links_of(hr_content(raw@)),
            final(self).next_id_spec() == old(self).next_id_spec() + 1,
            out.appended@ == record_seq(final(self)@.last().timestamp, created_content(raw@)),
            final(self).log_view() == old(self).log_view() + out.appended@,
    {
        let now = now_string();
        let out = self.create_with_timestamp(raw, now.as_str());
        proof {
            lemma_norm_timestamp_wf(now@);
        }
        out
    }

    /// Removes the note at an index from memory and from the log text.
    pub fn delete(&mut self, index: usize) -> (r: Result<(), NoteError>)
        requires
            old(self).wf(),
        ensures
            final(self).wf(),
            final(self).next_id_spec() == old(self).next_id_spec(),
            match r {
                Ok(()) => index < old(self)@.len() && final(self)@ == old(self)@.remove(
                    index as int,
                ),
                Err(e) => index >= old(self)@.len() && final(self)@ == old(self)@ && e
                    == NoteError::NotFound && final(self).log_view() == old(self).log_view(),
            },
    {
        if index >= self.notes.len() {
            return Err(NoteError::NotFound);
        }
        let ghost old_views = notes_views(self.notes@);
        self.notes.remove(index);
        proof {
            assert(notes_views(self.notes@) =~= old_views.remove(index as int));
        }
        self.log = encode_notes(&self.notes);
        proof {
            let nv = notes_views(self.notes@);
            assert forall|i: int| 0 <= i < nv.len() implies wf_note_abs(#[trigger] nv[i]) && (
            #[trigger] nv[i].id) < self.next_id_spec() by {
                if i < index {
                    assert(nv[i] == old_views[i]);
                } else {
                    assert(nv[i] == old_views[i + 1]);
                }
            }
            assert forall|i: int, j: int| 0 <= i < j < nv.len() implies (#[trigger] nv[i].id) != (
            #[trigger] nv[j].id) by {
                let oi: int = if i < index { i } else { i + 1 };
                let oj: int = if j < index { j } else { j + 1 };
                assert(nv[i] == old_views[oi]);
                assert(nv[j] == old_views[oj]);
            }
        }
        Ok(())
    }

    /// The notes whose content holds the query, case-insensitively.
    pub fn search(&self, query: &str) -> (r: Vec<Note>)
        ensures
            notes_views(r@) == search_matches(self@, lower_of(query@)),
    {
        let lq = to_lower(query);
        let lqv = to_chars(lq.as_str());
        let mut r: Vec<Note> = Vec::new();
        let mut i: usize = 0;
        proof {
            assert(search_matches(self@.subrange(0, 0), lower_of(query@)) =~= Seq::<
                NoteAbs,
            >::empty());
            assert(notes_views(r@) =~= Seq::<NoteAbs>::empty());
        }
        while i < self.notes.len()
            invariant
                i <= self.notes@.len(),
                lqv@ == lower_of(query@),
                notes_views(r@) == search_matches(self@.subrange(0, i as int), lower_of(query@)),
            decreases self.notes@.len() - i,
        {
            let n = &self.notes[i];
            let lc = to_lower(n.content.as_str());
            let lcv = to_chars(lc.as_str());
            let hit = contains_chars(&lcv, &lqv);
            proof {
                let pre = self@.subrange(0, i + 1);
                assert(pre.drop_last() =~= self@.subrange(0, i as int));
                assert(pre.last() == self@[i as int]);
            }
            if hit {
                r.push(clone_note(n));
                proof {
                    assert(notes_views(r@) =~= search_matches(
                        self@.subrange(0, i + 1),
                        lower_of(query@),
                    ));
                }
            } else {
                proof {
                    assert(notes_views(r@) =~= search_matches(
                        self@.subrange(0, i + 1),
                        lower_of(query@),
                    ));
                }
            }
            i += 1;
        }
        proof {
            assert(self@.subrange(0, self@.len() as int) =~= self@);
        }
        r
    }

    /// Applies the archiver's repair message: if the note with the given
    /// identifier still exists, its content has the local-copy reference
    /// for `url` replaced by the failure marker and its HTML re-rendered,
    /// and the log text is rewritten; otherwise nothing changes.
    pub fn repair(&mut self, id: u64, url: &str) -> (found: bool)
        requires
            old(self).wf(),
        ensures
            final(self).wf(),
            final(self)@ == repair_model(old(self)@, id, url@),
            found == (idx_of(old(self)@, id) is Some),
            final(self).next_id_spec() == old(self).next_id_spec(),
    {
        let n = self.notes.len();
        let mut i: usize = 0;
        while i < n
            invariant
                i <= n,
                n == self.notes@.len(),
                old(self) == self,
                old(self).wf(),
                forall|m: int| 0 <= m < i ==> (#[trigger] self@[m].id) != id,
            decreases n - i,
        {
            if self.notes[i].id == id {
                proof {
                    assert(self@[i as int] == self.notes@[i as int]@);
                    lemma_idx_of_unique(self@, id, i as int);
                }
                let old_note = clone_note(&self.notes[i]);
                let cv = to_chars(old_note.content.as_str());
                let urlv = to_chars(url);
                let m = build_marker(&urlv);
                let f = fail_chars();
                proof {
                    crate::links::lemma_marker_facts(url@);
                }
                let newc = replace_all_exec(&cv, &m, &f);
                let content = from_chars(&newc);
                let html = md_to_html(content.as_str());
                let new_note = Note {
                    id: old_note.id,
                    timestamp: old_note.timestamp,
                    content,
                    html,
                };
                let ghost old_views = notes_views(self.notes@);
                proof {
                    assert(old_views == old(self)@);
                    assert(old_views[i as int] == self.notes@[i as int]@);
                    assert(wf_note_abs(old(self)@[i as int]));
                    assert(new_note@ == repair_note_abs(old_views[i as int], url@));
                    assert(old(self)@[i as int].id == id);
                    assert forall|k: int| 0 <= k < old_views.len() && k != i implies (
                    #[trigger] old_views[k].id) != id by {
                        if k < i {
                            assert(old(self)@[k].id != id);
                        } else {
                            assert(old(self)@[i as int].id != old(self)@[k].id);
                        }
                    }
                }
                self.notes.set(i, new_note);
                proof {
                    assert(notes_views(self.notes@) =~= old_views.update(i as int, new_note@));
                    assert forall|k: int| 0 <= k < old_views.len() implies repair_model(
                        old_views,
                        id,
                        url@,
                    )[k] == notes_views(self.notes@)[k] by {
                        if k != i {
                            assert(old_views[k].id != id);
                        }
                    }
                    assert(repair_model(old_views, id, url@) =~= notes_views(self.notes@));
                    lemma_repaired_wf(old_views[i as int].content, url@);
                }
                self.log = encode_notes(&self.notes);
                proof {
                    let nv = notes_views(self.notes@);
                    assert forall|k: int| 0 <= k < nv.len() implies wf_note_abs(#[trigger] nv[k])
                        && (#[trigger] nv[k].id) < self.next_id_spec() by {
                        assert(wf_note_abs(old(self)@[k]));
                        assert(old(self)@[k].id < old(self).next_id_spec());
                        if k != i {
                            assert(nv[k] == old_views[k]);
                        }
                    }
                    assert forall|k: int, j: int| 0 <= k < j < nv.len() implies (
                    #[trigger] nv[k].id) != (#[trigger] nv[j].id) by {
                        assert(nv[k].id == old_views[k].id);
                        assert(nv[j].id == old_views[j].id);
                    }
                }
                return true;
            }
            i += 1;
        }
        proof {
            assert forall|k: int| 0 <= k < self@.len() implies repair_model(self@, id, url@)[k]
                == self@[k] by {
                assert(self@[k].id != id);
            }
            assert(repair_model(self@, id, url@) =~= self@);
            lemma_idx_of(self@, id);
            if idx_of(self@, id) is Some {
                let w = idx_of(self@, id)->0;
                assert(self@[w].id == id);
            }
        }
        false
    }

    /// First index of the note with the given identifier, if it exists.
    pub fn find_by_id(&self, id: u64) -> (r: Option<usize>)
        ensures
            match r {
                Some(i) => idx_of(self@, id) == Some(i as int),
                None => idx_of(self@, id) is None,
            },
    {
        let n = self.notes.len();
        let mut i: usize = 0;
        while i < n
            invariant
                i <= n,
                n == self.notes@.len(),
                forall|m: int| 0 <= m < i ==> (#[trigger] self@[m].id) != id,
            decreases n - i,
        {
            if self.notes[i].id == id {
                proof {
                    assert(self@[i as int] == self.notes@[i as int]@);
                    lemma_idx_of_unique(self@, id, i as int);
                }
                return Some(i);
            }
            i += 1;
        }
        proof {
            lemma_idx_of(self@, id);
            if idx_of(self@, id) is Some {
                let w = idx_of(self@, id)->0;
                assert(self@[w].id == id);
            }
        }
        None
    }
}

/// After every store mutation the carried log text decodes back to
/// exactly the store's `(timestamp, content)` pairs, whatever fallback
/// timestamp a reader would use.
pub proof fn lemma_log_decodes(s: &Store, fb: Seq<char>)
    requires
        s.wf(),
    ensures
        decode_pairs_seq(s.log_view(), fb) == pairs_of(s@),
{
    assert forall|k: int| 0 <= k < pairs_of(s@).len() implies wf_pair(#[trigger] pairs_of(s@)[k])
        by {
        assert(wf_note_abs(s@[k]));
    }
    lemma_round_trip(pairs_of(s@), fb);
}

/// Index stability under a racing delete: a note created last keeps its
/// identity when an earlier note is deleted, and a repair message for it
/// still reaches exactly that note, at its shifted position.
pub proof fn lemma_index_stability(ns: Seq<NoteAbs>, a: NoteAbs, b: int, url: Seq<char>)
    requires
        0 <= b < ns.len(),
        forall|i: int| 0 <= i < ns.len() ==> (#[trigger] ns[i].id) != a.id,
    ensures
        ns.push(a).remove(b).len() == ns.len(),
        ns.push(a).remove(b).last() == a,
        idx_of(ns.push(a).remove(b), a.id) == Some(ns.len() - 1),
        repair_model(ns.push(a).remove(b), a.id, url) == ns.push(a).remove(b).update(
            ns.len() - 1,
            repair_note_abs(a, url),
        ),
{
    let s2 = ns.push(a).remove(b);
    assert(s2.len() == ns.len());
    assert(s2[ns.len() - 1] == ns.push(a)[ns.len() as int]);
    assert(s2.last() == a);
    assert forall|j: int| 0 <= j < ns.len() - 1 implies (#[trigger] s2[j].id) != a.id by {
        if j < b {
            assert(s2[j] == ns[j]);
        } else {
            assert(s2[j] == ns.push(a)[j + 1]);
            assert(ns.push(a)[j + 1] == ns[j + 1]);
        }
    }
    lemma_idx_of(s2, a.id);
    match idx_of(s2, a.id) {
        Some(i) => {
            if i < ns.len() - 1 {
                assert(s2[i].id != a.id);
            }
        },
        None => {
            assert(s2[ns.len() - 1].id == a.id);
        },
    }
    assert forall|k: int| 0 <= k < s2.len() implies repair_model(s2, a.id, url)[k] == s2.update(
        ns.len() - 1,
        repair_note_abs(a, url),
    )[k] by {
        if k < ns.len() - 1 {
            assert(s2[k].id != a.id);
        }
    }
    assert(repair_model(s2, a.id, url) =~= s2.update(ns.len() - 1, repair_note_abs(a, url)));
}

/// Idempotent repair: applying the same repair message twice leaves the
/// same store as applying it once.
pub proof fn lemma_repair_idempotent(ns: Seq<NoteAbs>, id: u64, url: Seq<char>)
    ensures
        repair_model(repair_model(ns, id, url), id, url) == repair_model(ns, id, url),
{
    let once = repair_model(ns, id, url);
    assert forall|k: int| 0 <= k < ns.len() implies repair_model(once, id, url)[k] == once[k] by {
        if ns[k].id == id {
            lemma_repaired_idempotent(ns[k].content, url);
        }
    }
    assert(repair_model(once, id, url) =~= once);
}

} // verus!
