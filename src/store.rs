//! The note store: the notes in the order they were saved, which is the
//! order of the file. Each change returns the text that brings the file in
//! line with the store.
use vstd::prelude::*;

use crate::archive::{
    failed, jobs_for, lemma_prepared_no_rule, marked_links, prepare_content, prepared, with_rules,
    ArchiveJob,
};
use crate::clock::{is_digit, now_timestamp, stamp_shaped};
use crate::codec::{
    block_of, decode, decode_text, encode, encode_notes, entry_of, entry_text, is_blank,
    lemma_round_trip, models, rendered, separator, storable, Note, NoteModel,
};
use crate::render::html_of;
use crate::text::{
    contains, contains_text, has_rule, is_space, lemma_rule_at, lower_of, lowercase, occurs_at,
    replace_text,
};
use vstd::string::StringExecFns;

verus! {

#[derive(Debug, PartialEq, Eq)]
pub enum StoreError {
    /// No note has the index or timestamp asked for.
    NotFound,
}

/// What saving a note gives: the note, the text to add at the end of the
/// file, and the pages to snapshot.
pub struct Saved {
    pub note: Note,
    pub entry: String,
    pub jobs: Vec<ArchiveJob>,
}

/// The notes, oldest first. Its view is the sequence of their models.
pub struct NoteStore {
    notes: Vec<Note>,
}

/// The index of the newest note stamped `ts`, or -1.
pub open spec fn newest_with(notes: Seq<NoteModel>, ts: Seq<char>) -> int
    decreases notes.len(),
{
    if notes.len() == 0 {
        -1
    } else if notes.last().timestamp == ts {
        notes.len() - 1
    } else {
        newest_with(notes.drop_last(), ts)
    }
}

/// The notes whose lower-cased content holds the lower-cased query, in order.
pub open spec fn search_result(notes: Seq<NoteModel>, q: Seq<char>) -> Seq<NoteModel>
    decreases notes.len(),
{
    if notes.len() == 0 {
        Seq::empty()
    } else {
        let front = search_result(notes.drop_last(), q);
        if contains(lower_of(notes.last().content), lower_of(q)) {
            front.push(notes.last())
        } else {
            front
        }
    }
}

/// Every note's HTML is rendered from its content.
pub open spec fn all_rendered(notes: Seq<NoteModel>) -> bool {
    forall|i: int| 0 <= i < notes.len() ==> rendered(#[trigger] notes[i])
}

proof fn lemma_newest_with(notes: Seq<NoteModel>, ts: Seq<char>)
    ensures
        -1 <= newest_with(notes, ts) < notes.len(),
        newest_with(notes, ts) >= 0 ==> notes[newest_with(notes, ts)].timestamp == ts,
        forall|j: int|
            newest_with(notes, ts) < j < notes.len() ==> #[trigger] notes[j].timestamp != ts,
    decreases notes.len(),
{
    if notes.len() > 0 && notes.last().timestamp != ts {
        lemma_newest_with(notes.drop_last(), ts);
        assert forall|j: int| newest_with(notes, ts) < j < notes.len() implies #[trigger] notes[j].timestamp != ts by {
            if j < notes.len() - 1 {
                assert(notes[j] == notes.drop_last()[j]);
            }
        }
    }
}

impl View for NoteStore {
    type V = Seq<NoteModel>;

    closed spec fn view(&self) -> Seq<NoteModel> {
        models(self.notes@)
    }
}

impl NoteStore {
    /// Every note's HTML is rendered from its content.
    pub open spec fn wf(&self) -> bool {
        all_rendered(self@)
    }

    /// An empty store.
    pub fn new() -> (r: NoteStore)
        ensures
            r@ == Seq::<NoteModel>::empty(),
            r.wf(),
    {
        let r = NoteStore { notes: Vec::new() };
        assert(r@ =~= Seq::<NoteModel>::empty());
        r
    }

    /// The store that a file text holds; a block without a newline is
    /// stamped `fallback`.
    pub fn from_text_at(text: &str, fallback: &str) -> (r: NoteStore)
        ensures
            r@ == decode(text@, fallback@),
            r.wf(),
    {
        let notes = decode_text(text, fallback);
        proof {
            lemma_decode_rendered(text@, fallback@);
        }
        NoteStore { notes }
    }

    /// The store that a file text holds; a block without a newline is
    /// stamped with the time of loading.
    pub fn from_text(text: &str) -> (r: NoteStore)
        ensures
            exists|f: Seq<char>| stamp_shaped(f) && r@ == decode(text@, f),
            r.wf(),
    {
        let now = now_timestamp();
        NoteStore::from_text_at(text, now.as_str())
    }

    /// The number of notes.
    pub fn len(&self) -> (r: usize)
        ensures
            r == self@.len(),
    {
        self.notes.len()
    }

    /// A copy of the notes, oldest first.
    pub fn list(&self) -> (r: Vec<Note>)
        ensures
            models(r@) == self@,
    {
        let mut r: Vec<Note> = Vec::new();
        let mut i: usize = 0;
        while i < self.notes.len()
            invariant
                i <= self.notes.len(),
                models(r@) == models(self.notes@).take(i as int),
            decreases self.notes.len() - i,
        {
            let ghost before = r@;
            let n = self.notes[i].duplicate();
            r.push(n);
            assert(models(r@) =~= models(before).push(self.notes@[i as int]@));
            assert(models(r@) =~= models(self.notes@).take(i + 1));
            i += 1;
        }
        assert(models(self.notes@).take(i as int) =~= self@);
        r
    }

    /// The note at `index`.
    pub fn get(&self, index: usize) -> (r: Result<Note, StoreError>)
        ensures
            index < self@.len() ==> (r matches Ok(n) && n@ == self@[index as int]),
            index >= self@.len() ==> r == Err::<Note, StoreError>(StoreError::NotFound),
    {
        if index >= self.notes.len() {
            return Err(StoreError::NotFound);
        }
        Ok(self.notes[index].duplicate())
    }

    /// The position of the newest note stamped `timestamp`.
    fn find(&self, timestamp: &str) -> (r: Option<usize>)
        ensures
            r is None ==> newest_with(self@, timestamp@) == -1,
            r matches Some(i) ==> i == newest_with(self@, timestamp@) && i < self.notes.len(),
    {
        proof {
            lemma_newest_with(self@, timestamp@);
        }
        let ts = timestamp.to_string();
        let mut i: usize = self.notes.len();
        while i > 0
            invariant
                i <= self.notes.len(),
                ts@ == timestamp@,
                -1 <= newest_with(self@, timestamp@) < i,
                forall|j: int| i <= j < self@.len() ==> #[trigger] self@[j].timestamp != timestamp@,
                newest_with(self@, timestamp@) >= 0 ==> self@[newest_with(self@, timestamp@)].timestamp == timestamp@,
                forall|j: int| newest_with(self@, timestamp@) < j < self@.len() ==> #[trigger] self@[j].timestamp != timestamp@,
            decreases i,
        {
            if self.notes[i - 1].timestamp == ts {
                assert(self@[i - 1].timestamp == timestamp@);
                return Some(i - 1);
            }
            i -= 1;
        }
        None
    }

    /// Saves `content` stamped `timestamp`: `---` becomes `<hr>`, marked
    /// links point at their pending snapshots, and the HTML is rendered.
    pub fn append_at(&mut self, content: &str, timestamp: String) -> (r: Saved)
        requires
            old(self).wf(),
        ensures
            final(self).wf(),
            r.note@ == saved_note(content@, timestamp@),
            final(self)@ == old(self)@.push(r.note@),
            r.entry@ == entry_of(r.note@),
            jobs_for(r.jobs@, marked_links(with_rules(content@))),
    {
        let (c, jobs) = prepare_content(content);
        let note = Note::new(timestamp, c);
        let entry = entry_text(&note);
        let kept = note.duplicate();
        let ghost before = self.notes@;
        self.notes.push(kept);
        assert(models(self.notes@) =~= models(before).push(note@));
        Saved { note, entry, jobs }
    }

    /// Saves `content`, stamped with the time now.
    pub fn append(&mut self, content: &str) -> (r: Saved)
        requires
            old(self).wf(),
        ensures
            final(self).wf(),
            r.note@ == saved_note(content@, r.note@.timestamp),
            stamp_shaped(r.note@.timestamp),
            storable(r.note@),
            final(self)@ == old(self)@.push(r.note@),
            r.entry@ == entry_of(r.note@),
            jobs_for(r.jobs@, marked_links(with_rules(content@))),
    {
        let now = now_timestamp();
        let r = self.append_at(content, now);
        proof {
            lemma_prepared_no_rule(content@);
            lemma_stamped_storable(r.note@);
        }
        r
    }

    /// Removes the note at `index`; returns the new file text.
    pub fn remove(&mut self, index: usize) -> (r: Result<String, StoreError>)
        requires
            old(self).wf(),
        ensures
            final(self).wf(),
            index < old(self)@.len() ==> (r matches Ok(t) && final(self)@ == old(self)@.remove(
                index as int,
            ) && t@ == encode(final(self)@)),
            index >= old(self)@.len() ==> r == Err::<String, StoreError>(StoreError::NotFound)
                && final(self)@ == old(self)@,
    {
        if index >= self.notes.len() {
            return Err(StoreError::NotFound);
        }
        let ghost before = self.notes@;
        self.notes.remove(index);
        assert(models(self.notes@) =~= models(before).remove(index as int));
        Ok(encode_notes(&self.notes))
    }

    /// Removes the newest note stamped `timestamp`; returns the new file text.
    pub fn remove_by_timestamp(&mut self, timestamp: &str) -> (r: Result<String, StoreError>)
        requires
            old(self).wf(),
        ensures
            final(self).wf(),
            newest_with(old(self)@, timestamp@) >= 0 ==> (r matches Ok(t) && final(self)@ == old(
                self,
            )@.remove(newest_with(old(self)@, timestamp@)) && t@ == encode(final(self)@)),
            newest_with(old(self)@, timestamp@) < 0 ==> r == Err::<String, StoreError>(
                StoreError::NotFound,
            ) && final(self)@ == old(self)@,
    {
        match self.find(timestamp) {
            Some(i) => self.remove(i),
            None => Err(StoreError::NotFound),
        }
    }

    /// The notes whose content holds `query`, ignoring case, oldest first.
    pub fn search(&self, query: &str) -> (r: Vec<Note>)
        ensures
            models(r@) == search_result(self@, query@),
    {
        let q = lowercase(query);
        let mut r: Vec<Note> = Vec::new();
        let mut i: usize = 0;
        while i < self.notes.len()
            invariant
                i <= self.notes.len(),
                q@ == lower_of(query@),
                models(r@) == search_result(self@.take(i as int), query@),
            decreases self.notes.len() - i,
        {
            let folded = lowercase(self.notes[i].content.as_str());
            assert(self@.take(i + 1).drop_last() =~= self@.take(i as int));
            assert(self@.take(i + 1).last() == self.notes@[i as int]@);
            if matches_folded(q.as_str(), folded.as_str()) {
                let ghost before = r@;
                r.push(self.notes[i].duplicate());
                assert(models(r@) =~= models(before).push(self.notes@[i as int]@));
            }
            i += 1;
        }
        assert(self@.take(i as int) =~= self@);
        r
    }

    /// Replaces the content of the newest note stamped `timestamp` and
    /// renders it again; its place and timestamp stay. Returns whether
    /// such a note was found.
    pub fn patch_content(&mut self, timestamp: &str, content: String) -> (r: bool)
        requires
            old(self).wf(),
        ensures
            final(self).wf(),
            r == (newest_with(old(self)@, timestamp@) >= 0),
            r ==> final(self)@ == old(self)@.update(
                newest_with(old(self)@, timestamp@),
                NoteModel { timestamp: timestamp@, content: content@, html: html_of(content@) },
            ),
            !r ==> final(self)@ == old(self)@,
    {
        match self.find(timestamp) {
            Some(i) => {
                let note = Note::new(timestamp.to_string(), content);
                let ghost before = self.notes@;
                self.notes.set(i, note);
                assert(models(self.notes@) =~= models(before).update(i as int, note@));
                true
            },
            None => false,
        }
    }

    /// Records that the snapshot at `path` could not be taken for the newest
    /// note stamped `timestamp`: its reference to the snapshot becomes
    /// `(local copy failed)`. Returns the new file text, or `None` when no
    /// such note is left.
    pub fn record_failure(&mut self, timestamp: &str, path: &str) -> (r: Option<String>)
        requires
            old(self).wf(),
        ensures
            final(self).wf(),
            r is Some == (newest_with(old(self)@, timestamp@) >= 0),
            r is Some ==> final(self)@ == old(self)@.update(
                newest_with(old(self)@, timestamp@),
                failed_note(old(self)@[newest_with(old(self)@, timestamp@)], path@),
            ),
            r matches Some(t) ==> t@ == encode(final(self)@),
            r is None ==> final(self)@ == old(self)@,
    {
        match self.find(timestamp) {
            Some(i) => {
                let mut fragment = String::from_str("([local copy](/");
                fragment.append(path);
                fragment.append("))");
                proof {
                    reveal_strlit("([local copy](/");
                }
                let content = replace_text(
                    self.notes[i].content.as_str(),
                    fragment.as_str(),
                    "(local copy failed)",
                );
                let note = Note::new(timestamp.to_string(), content);
                let ghost before = self.notes@;
                proof {
                    lemma_newest_with(self@, timestamp@);
                }
                self.notes.set(i, note);
                assert(models(self.notes@) =~= models(before).update(i as int, note@));
                Some(encode_notes(&self.notes))
            },
            None => None,
        }
    }

    /// The newest note stamped `timestamp`.
    pub fn get_by_timestamp(&self, timestamp: &str) -> (r: Result<Note, StoreError>)
        ensures
            newest_with(self@, timestamp@) >= 0 ==> (r matches Ok(n) && n@ == self@[newest_with(
                self@,
                timestamp@,
            )]),
            newest_with(self@, timestamp@) < 0 ==> r == Err::<Note, StoreError>(
                StoreError::NotFound,
            ),
    {
        match self.find(timestamp) {
            Some(i) => Ok(self.notes[i].duplicate()),
            None => Err(StoreError::NotFound),
        }
    }
}

/// The note that saving `content` at `timestamp` adds.
pub open spec fn saved_note(content: Seq<char>, timestamp: Seq<char>) -> NoteModel {
    NoteModel {
        timestamp,
        content: prepared(content),
        html: html_of(prepared(content)),
    }
}

/// A note after its snapshot at `path` failed.
pub open spec fn failed_note(n: NoteModel, path: Seq<char>) -> NoteModel {
    NoteModel { timestamp: n.timestamp, content: failed(n.content, path), html: html_of(failed(n.content, path)) }
}

/// Whether `folded_content` holds `folded_query`; both are lower-cased
/// already.
pub fn matches_folded(folded_query: &str, folded_content: &str) -> (r: bool)
    ensures
        r == contains(folded_content@, folded_query@),
{
    contains_text(folded_content, folded_query)
}

/// Every note reads back from the file as itself.
pub open spec fn all_storable(notes: Seq<NoteModel>) -> bool {
    forall|i: int| 0 <= i < notes.len() ==> storable(#[trigger] notes[i])
}

/// Saving a note adds its entry at the end of the file, and reading the
/// file back gives the notes with the saved one last, timestamp and content
/// as they were; this holds where every note reads back as itself.
pub proof fn lemma_append_durable(notes: Seq<NoteModel>, n: NoteModel, fallback: Seq<char>)
    requires
        all_rendered(notes),
        all_storable(notes),
        rendered(n),
        storable(n),
    ensures
        encode(notes.push(n)) == encode(notes) + entry_of(n),
        decode(encode(notes) + entry_of(n), fallback) == notes.push(n),
        decode(encode(notes) + entry_of(n), fallback).last().timestamp == n.timestamp,
        decode(encode(notes) + entry_of(n), fallback).last().content == n.content,
{
    let all = notes.push(n);
    assert(all.drop_last() =~= notes);
    assert forall|i: int| 0 <= i < all.len() implies storable(#[trigger] all[i]) && rendered(
        all[i],
    ) by {
        if i < notes.len() {
            assert(all[i] == notes[i]);
        }
    }
    lemma_round_trip(all, fallback);
}

/// Appends made one after another, each on the store the previous one left,
/// keep every saved note, in the order the calls completed, after the notes
/// that were there before.
pub proof fn lemma_appends_kept(states: Seq<Seq<NoteModel>>, saved: Seq<NoteModel>)
    requires
        states.len() == saved.len() + 1,
        forall|k: int| 0 <= k < saved.len() ==> #[trigger] states[k + 1] == states[k].push(saved[k]),
    ensures
        states.last() == states[0] + saved,
        forall|k: int|
            0 <= k < saved.len() ==> states.last()[states[0].len() + k] == #[trigger] saved[k],
    decreases saved.len(),
{
    if saved.len() == 0 {
        assert(states[0] + saved =~= states[0]);
    } else {
        let n = saved.len() - 1;
        lemma_appends_kept(states.drop_last(), saved.drop_last());
        assert(states.drop_last().last() == states[n]);
        assert(states[n + 1] == states[n].push(saved[n]));
        assert(states.last() =~= states[0] + saved);
    }
}

/// After a note is removed, the new file text reads back as the remaining
/// notes, one fewer, in the same order; this holds where every note reads
/// back as itself.
pub proof fn lemma_remove_durable(notes: Seq<NoteModel>, index: int, fallback: Seq<char>)
    requires
        all_rendered(notes),
        all_storable(notes),
        0 <= index < notes.len(),
    ensures
        notes.remove(index).len() == notes.len() - 1,
        decode(encode(notes.remove(index)), fallback) == notes.remove(index),
{
    let rest = notes.remove(index);
    assert forall|i: int| 0 <= i < rest.len() implies storable(#[trigger] rest[i]) && rendered(
        rest[i],
    ) by {
        if i < index {
            assert(rest[i] == notes[i]);
        } else {
            assert(rest[i] == notes[i + 1]);
        }
    }
    lemma_round_trip(rest, fallback);
}

/// A note stamped by the clock whose content has no three dashes in a row
/// reads back from the file as itself.
pub proof fn lemma_stamped_storable(n: NoteModel)
    requires
        stamp_shaped(n.timestamp),
        !has_rule(n.content),
    ensures
        storable(n),
{
    let ts = n.timestamp;
    let b = block_of(n);
    let e = entry_of(n);
    let tl = ts.len() as int;
    let bl = b.len() as int;
    assert forall|i: int| 0 <= i < ts.len() implies #[trigger] ts[i] != '\n' by {
        assert(crate::clock::is_stamp_char(ts[i]));
    }
    assert(b[tl - 1] == ts.last());
    assert(!is_space(b[tl - 1]));
    assert(!is_blank(b));
    assert forall|p: int| 0 <= p < bl implies !occurs_at(e, p, separator()) by {
        if occurs_at(e, p, separator()) {
            let w = e.subrange(p, p + 7);
            assert(w == separator());
            assert(e[p + 2] == w[2] && e[p + 3] == w[3] && e[p + 4] == w[4]);
            assert(e[p + 2] == '-' && e[p + 3] == '-' && e[p + 4] == '-');
            assert(e[bl] == '\n');
            assert(e[bl + 1] == '\n');
            if p + 4 < bl {
                assert(b[p + 2] == '-' && b[p + 3] == '-' && b[p + 4] == '-');
                assert(b[tl] == '\n');
                if p + 2 > tl {
                    let q = p + 2 - tl - 1;
                    assert(n.content[q] == b[p + 2]);
                    assert(n.content[q + 1] == b[p + 3]);
                    assert(n.content[q + 2] == b[p + 4]);
                    lemma_rule_at(n.content, q);
                } else if p + 3 < tl {
                    assert(ts[p + 2] == b[p + 2]);
                    assert(ts[p + 3] == b[p + 3]);
                    assert(is_digit(ts[p + 3]));
                }
            }
        }
    }
}

proof fn lemma_decode_rendered_blocks(bs: Seq<Seq<char>>, fallback: Seq<char>)
    ensures
        all_rendered(crate::codec::notes_of_blocks(bs, fallback)),
    decreases bs.len(),
{
    if bs.len() > 0 {
        lemma_decode_rendered_blocks(bs.drop_last(), fallback);
    }
}

/// Every note read from a file has its HTML rendered from its content.
pub proof fn lemma_decode_rendered(t: Seq<char>, fallback: Seq<char>)
    ensures
        all_rendered(decode(t, fallback)),
{
    lemma_decode_rendered_blocks(crate::codec::split_blocks(t), fallback);
}

} // verus!
