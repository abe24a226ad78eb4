//! The flat-file encoding of a sequence of notes.
//!
//! Each note is written as `<timestamp>\n<content>` followed by the block
//! separator `\n\n---\n\n`.
use vstd::prelude::*;

use crate::render::{html_of, md_to_html};
use crate::text::{
    chars_of, is_space, is_space_char, matches_at, occurs_at, push_char, push_range, string_of,
};

verus! {

/// One note: when it was written, its markdown, and the HTML rendered from it.
pub struct Note {
    pub timestamp: String,
    pub content: String,
    pub html: String,
}

/// What a note holds, as sequences of characters.
pub ghost struct NoteModel {
    pub timestamp: Seq<char>,
    pub content: Seq<char>,
    pub html: Seq<char>,
}

impl View for Note {
    type V = NoteModel;

    open spec fn view(&self) -> NoteModel {
        NoteModel { timestamp: self.timestamp@, content: self.content@, html: self.html@ }
    }
}

impl Note {
    /// A note whose HTML is rendered from its content.
    pub fn new(timestamp: String, content: String) -> (r: Note)
        ensures
            r@.timestamp == timestamp@,
            r@.content == content@,
            r@.html == html_of(content@),
    {
        let html = md_to_html(content.as_str());
        Note { timestamp, content, html }
    }

    /// A copy of this note.
    pub fn duplicate(&self) -> (r: Note)
        ensures
            r@ == self@,
    {
        Note {
            timestamp: self.timestamp.clone(),
            content: self.content.clone(),
            html: self.html.clone(),
        }
    }
}

/// A note whose HTML is the rendering of its content.
pub open spec fn rendered(n: NoteModel) -> bool {
    n.html == html_of(n.content)
}

/// The separator written after every note: a blank line, `---`, a blank line.
pub open spec fn separator() -> Seq<char> {
    seq!['\n', '\n', '-', '-', '-', '\n', '\n']
}

/// The text of a note without its separator.
pub open spec fn block_of(n: NoteModel) -> Seq<char> {
    n.timestamp + seq!['\n'] + n.content
}

/// The text that one note adds to the file.
pub open spec fn entry_of(n: NoteModel) -> Seq<char> {
    block_of(n) + separator()
}

/// The file text of a sequence of notes.
pub open spec fn encode(notes: Seq<NoteModel>) -> Seq<char>
    decreases notes.len(),
{
    if notes.len() == 0 {
        Seq::empty()
    } else {
        encode(notes.drop_last()) + entry_of(notes.last())
    }
}

/// The pieces of `t` between separators, found from left to right, as
/// `str::split` finds them: one more piece than there are separators.
pub open spec fn split_blocks(t: Seq<char>) -> Seq<Seq<char>>
    decreases t.len(),
{
    if t.len() == 0 {
        seq![Seq::empty()]
    } else if occurs_at(t, 0, separator()) {
        seq![Seq::<char>::empty()] + split_blocks(t.skip(7))
    } else {
        let rest = split_blocks(t.skip(1));
        rest.update(0, seq![t[0]] + rest[0])
    }
}

/// Whether `b` is whitespace only, as `str::trim` leaves nothing of it.
pub open spec fn is_blank(b: Seq<char>) -> bool {
    forall|i: int| 0 <= i < b.len() ==> is_space(#[trigger] b[i])
}

/// The position of the first newline in `b`, or its length if it has none.
pub open spec fn line_end(b: Seq<char>) -> int
    decreases b.len(),
{
    if b.len() == 0 {
        0
    } else if b[0] == '\n' {
        0
    } else {
        1 + line_end(b.skip(1))
    }
}

/// The note that a block holds: its first line is the timestamp, the rest
/// the content; a block without a newline is all content, stamped `fallback`.
pub open spec fn parse_block(b: Seq<char>, fallback: Seq<char>) -> NoteModel {
    let k = line_end(b);
    if k < b.len() {
        let content = b.skip(k + 1);
        NoteModel { timestamp: b.take(k), content, html: html_of(content) }
    } else {
        NoteModel { timestamp: fallback, content: b, html: html_of(b) }
    }
}

/// The notes held by a sequence of blocks; blank blocks hold none.
pub open spec fn notes_of_blocks(bs: Seq<Seq<char>>, fallback: Seq<char>) -> Seq<NoteModel>
    decreases bs.len(),
{
    if bs.len() == 0 {
        Seq::empty()
    } else {
        let front = notes_of_blocks(bs.drop_last(), fallback);
        if is_blank(bs.last()) {
            front
        } else {
            front.push(parse_block(bs.last(), fallback))
        }
    }
}

/// The notes read back from a file text.
pub open spec fn decode(t: Seq<char>, fallback: Seq<char>) -> Seq<NoteModel> {
    notes_of_blocks(split_blocks(t), fallback)
}

/// A note that reads back as itself: its timestamp is one line, its block
/// is not blank, and the separator after it is the first one in its entry.
pub open spec fn storable(n: NoteModel) -> bool {
    &&& forall|i: int| 0 <= i < n.timestamp.len() ==> #[trigger] n.timestamp[i] != '\n'
    &&& !is_blank(block_of(n))
    &&& forall|p: int| 0 <= p < block_of(n).len() ==> !occurs_at(entry_of(n), p, separator())
}

proof fn lemma_split_nonempty(t: Seq<char>)
    ensures
        split_blocks(t).len() >= 1,
    decreases t.len(),
{
    if t.len() > 0 && !occurs_at(t, 0, separator()) {
        lemma_split_nonempty(t.skip(1));
    }
}

/// Splitting a block, its separator and what follows, where no separator
/// starts inside the block, gives the block and then the pieces of the rest.
proof fn lemma_split_block(b: Seq<char>, rest: Seq<char>)
    requires
        forall|p: int| 0 <= p < b.len() ==> !occurs_at(b + separator() + rest, p, separator()),
    ensures
        split_blocks(b + separator() + rest) == seq![b] + split_blocks(rest),
    decreases b.len(),
{
    let t = b + separator() + rest;
    if b.len() == 0 {
        assert(t.subrange(0, 7) =~= separator());
        assert(t.skip(7) =~= rest);
        assert(b =~= Seq::<char>::empty());
        assert(t.len() > 0);
    } else {
        let b1 = b.skip(1);
        assert(t.skip(1) =~= b1 + separator() + rest);
        assert forall|p: int| 0 <= p < b1.len() implies !occurs_at(
            b1 + separator() + rest,
            p,
            separator(),
        ) by {
            assert(!occurs_at(t, p + 1, separator()));
            if occurs_at(b1 + separator() + rest, p, separator()) {
                assert(t.subrange(p + 1, p + 8) =~= (b1 + separator() + rest).subrange(p, p + 7));
            }
        }
        assert(!occurs_at(t, 0, separator()));
        lemma_split_block(b1, rest);
        assert(seq![t[0]] + b1 =~= b);
        assert(split_blocks(t) =~= seq![b] + split_blocks(rest));
    }
}

/// The encoding of a non-empty sequence starts with the entry of its first note.
proof fn lemma_encode_front(notes: Seq<NoteModel>)
    requires
        notes.len() > 0,
    ensures
        encode(notes) == entry_of(notes[0]) + encode(notes.skip(1)),
    decreases notes.len(),
{
    if notes.len() == 1 {
        assert(notes.drop_last() =~= Seq::<NoteModel>::empty());
        assert(notes.skip(1) =~= Seq::<NoteModel>::empty());
        assert(encode(notes.drop_last()) =~= Seq::<char>::empty());
        assert(notes.last() == notes[0]);
        assert(encode(notes) =~= entry_of(notes[0]));
        assert(encode(notes.skip(1)) =~= Seq::<char>::empty());
    } else {
        let front = notes.drop_last();
        lemma_encode_front(front);
        assert(front.skip(1) =~= notes.skip(1).drop_last());
        assert(notes.skip(1).last() == notes.last());
        assert(encode(notes) =~= entry_of(notes[0]) + encode(notes.skip(1)));
    }
}

proof fn lemma_entry_prefix(n: NoteModel, rest: Seq<char>)
    requires
        storable(n),
    ensures
        forall|p: int|
            0 <= p < block_of(n).len() ==> !occurs_at(
                block_of(n) + separator() + rest,
                p,
                separator(),
            ),
{
    let b = block_of(n);
    assert forall|p: int| 0 <= p < b.len() implies !occurs_at(
        b + separator() + rest,
        p,
        separator(),
    ) by {
        assert(!occurs_at(entry_of(n), p, separator()));
        if occurs_at(b + separator() + rest, p, separator()) {
            assert((b + separator() + rest).subrange(p, p + 7) =~= entry_of(n).subrange(p, p + 7));
        }
    }
}

/// The pieces of an encoding are the notes' blocks and one empty piece.
proof fn lemma_split_encode(notes: Seq<NoteModel>)
    requires
        forall|i: int| 0 <= i < notes.len() ==> storable(#[trigger] notes[i]),
    ensures
        split_blocks(encode(notes)) == notes.map_values(|n: NoteModel| block_of(n)).push(
            Seq::empty(),
        ),
    decreases notes.len(),
{
    if notes.len() == 0 {
        assert(split_blocks(encode(notes)) =~= seq![Seq::<char>::empty()]);
        assert(notes.map_values(|n: NoteModel| block_of(n)).push(Seq::empty()) =~= seq![
            Seq::<char>::empty(),
        ]);
    } else {
        let rest = notes.skip(1);
        lemma_encode_front(notes);
        assert(storable(notes[0]));
        lemma_entry_prefix(notes[0], encode(rest));
        assert(entry_of(notes[0]) + encode(rest) =~= block_of(notes[0]) + separator() + encode(
            rest,
        ));
        lemma_split_block(block_of(notes[0]), encode(rest));
        assert forall|i: int| 0 <= i < rest.len() implies storable(#[trigger] rest[i]) by {
            assert(rest[i] == notes[i + 1]);
        }
        lemma_split_encode(rest);
        assert(split_blocks(encode(notes)) =~= notes.map_values(|n: NoteModel| block_of(n)).push(
            Seq::empty(),
        ));
    }
}

proof fn lemma_line_end(b: Seq<char>, k: int)
    requires
        0 <= k < b.len(),
        b[k] == '\n',
        forall|i: int| 0 <= i < k ==> b[i] != '\n',
    ensures
        line_end(b) == k,
    decreases k,
{
    if k > 0 {
        lemma_line_end(b.skip(1), k - 1);
    }
}

/// A storable, rendered note reads back from its block as itself.
proof fn lemma_parse_block(n: NoteModel, fallback: Seq<char>)
    requires
        storable(n),
        rendered(n),
    ensures
        parse_block(block_of(n), fallback) == n,
{
    let b = block_of(n);
    let k = n.timestamp.len() as int;
    assert forall|i: int| 0 <= i < k implies b[i] != '\n' by {
        assert(b[i] == n.timestamp[i]);
    }
    lemma_line_end(b, k);
    assert(b.take(k) =~= n.timestamp);
    assert(b.skip(k + 1) =~= n.content);
}

/// The notes held by the blocks of storable, rendered notes are those notes.
proof fn lemma_notes_of_blocks(notes: Seq<NoteModel>, fallback: Seq<char>)
    requires
        forall|i: int| 0 <= i < notes.len() ==> storable(#[trigger] notes[i]) && rendered(notes[i]),
    ensures
        notes_of_blocks(notes.map_values(|n: NoteModel| block_of(n)), fallback) == notes,
    decreases notes.len(),
{
    let bs = notes.map_values(|n: NoteModel| block_of(n));
    if notes.len() == 0 {
        assert(notes_of_blocks(bs, fallback) =~= notes);
    } else {
        let front = notes.drop_last();
        assert forall|i: int| 0 <= i < front.len() implies storable(#[trigger] front[i])
            && rendered(front[i]) by {
            assert(front[i] == notes[i]);
        }
        lemma_notes_of_blocks(front, fallback);
        assert(bs.drop_last() =~= front.map_values(|n: NoteModel| block_of(n)));
        assert(storable(notes[notes.len() - 1]) && rendered(notes[notes.len() - 1]));
        lemma_parse_block(notes.last(), fallback);
        assert(notes_of_blocks(bs, fallback) =~= notes);
    }
}

/// Encoding storable, rendered notes and decoding the text gives the same
/// notes back.
pub proof fn lemma_round_trip(notes: Seq<NoteModel>, fallback: Seq<char>)
    requires
        forall|i: int| 0 <= i < notes.len() ==> storable(#[trigger] notes[i]) && rendered(notes[i]),
    ensures
        decode(encode(notes), fallback) == notes,
{
    assert forall|i: int| 0 <= i < notes.len() implies storable(#[trigger] notes[i]) by {}
    lemma_split_encode(notes);
    let bs = notes.map_values(|n: NoteModel| block_of(n));
    let all = bs.push(Seq::empty());
    assert(all.drop_last() =~= bs);
    assert(is_blank(all.last()));
    lemma_notes_of_blocks(notes, fallback);
}

/// The views of a sequence of notes.
pub open spec fn models(v: Seq<Note>) -> Seq<NoteModel> {
    v.map_values(|n: Note| n@)
}

/// The views of a sequence of character vectors.
pub open spec fn char_views(v: Seq<Vec<char>>) -> Seq<Seq<char>> {
    v.map_values(|b: Vec<char>| b@)
}

/// Appends the separator to `s`.
fn push_separator(s: &mut String)
    ensures
        final(s)@ == old(s)@ + separator(),
{
    push_char(s, '\n');
    push_char(s, '\n');
    push_char(s, '-');
    push_char(s, '-');
    push_char(s, '-');
    push_char(s, '\n');
    push_char(s, '\n');
    assert(s@ =~= old(s)@ + separator());
}

/// Appends the entry of `n` to `s`.
pub fn push_entry(s: &mut String, n: &Note)
    ensures
        final(s)@ == old(s)@ + entry_of(n@),
{
    let ts = chars_of(n.timestamp.as_str());
    let body = chars_of(n.content.as_str());
    push_range(s, &ts, 0, ts.len());
    push_char(s, '\n');
    push_range(s, &body, 0, body.len());
    push_separator(s);
    assert(ts@.subrange(0, ts@.len() as int) =~= ts@);
    assert(body@.subrange(0, body@.len() as int) =~= body@);
    assert(s@ =~= old(s)@ + entry_of(n@));
}

/// The text that one note adds to the file.
pub fn entry_text(n: &Note) -> (r: String)
    ensures
        r@ == entry_of(n@),
{
    let mut r = String::new();
    push_entry(&mut r, n);
    r
}

/// The file text of `notes`.
pub fn encode_notes(notes: &Vec<Note>) -> (r: String)
    ensures
        r@ == encode(models(notes@)),
{
    let mut r = String::new();
    let mut i: usize = 0;
    while i < notes.len()
        invariant
            i <= notes.len(),
            r@ == encode(models(notes@).take(i as int)),
        decreases notes.len() - i,
    {
        push_entry(&mut r, &notes[i]);
        proof {
            let ms = models(notes@).take(i + 1);
            assert(ms.drop_last() =~= models(notes@).take(i as int));
        }
        i += 1;
    }
    assert(models(notes@).take(i as int) =~= models(notes@));
    r
}

/// The pieces of `t` between separators.
fn split_text(t: &Vec<char>) -> (r: Vec<Vec<char>>)
    ensures
        char_views(r@) == split_blocks(t@),
{
    let sep = vec!['\n', '\n', '-', '-', '-', '\n', '\n'];
    assert(sep@ =~= separator());
    let mut out: Vec<Vec<char>> = Vec::new();
    let mut cur: Vec<char> = Vec::new();
    let mut i: usize = 0;
    proof {
        lemma_split_nonempty(t@);
        assert(t@.skip(0) =~= t@);
        let r = split_blocks(t@);
        assert(char_views(out@) + seq![cur@ + r[0]] + r.skip(1) =~= r);
    }
    while i < t.len()
        invariant
            i <= t.len(),
            sep@ == separator(),
            split_blocks(t@) == char_views(out@) + seq![cur@ + split_blocks(t@.skip(i as int))[0]]
                + split_blocks(t@.skip(i as int)).skip(1),
        decreases t.len() - i,
    {
        let ghost rest = t@.skip(i as int);
        proof {
            lemma_split_nonempty(rest);
        }
        if matches_at(t, i, &sep) {
            proof {
                assert(occurs_at(rest, 0, separator())) by {
                    assert(rest.subrange(0, 7) =~= t@.subrange(i as int, i + 7));
                }
                assert(rest.skip(7) =~= t@.skip(i + 7));
                lemma_split_nonempty(t@.skip(i + 7));
            }
            let ghost before_out = out@;
            let done = cur;
            let ghost done_view = done@;
            out.push(done);
            cur = Vec::new();
            i += 7;
            proof {
                let r2 = split_blocks(t@.skip(i as int));
                assert(char_views(out@) =~= char_views(before_out).push(done_view));
                assert(split_blocks(t@) =~= char_views(out@) + seq![cur@ + r2[0]] + r2.skip(1));
            }
        } else {
            proof {
                if occurs_at(rest, 0, separator()) {
                    assert(t@.subrange(i as int, i + 7) =~= rest.subrange(0, 7));
                }
                assert(rest.skip(1) =~= t@.skip(i + 1));
                lemma_split_nonempty(t@.skip(i + 1));
            }
            let ghost before = cur@;
            cur.push(t[i]);
            i += 1;
            proof {
                let r2 = split_blocks(t@.skip(i as int));
                assert(cur@ + r2[0] =~= before + (seq![rest[0]] + r2[0]));
                assert(split_blocks(t@) =~= char_views(out@) + seq![cur@ + r2[0]] + r2.skip(1));
            }
        }
    }
    proof {
        assert(t@.skip(i as int) =~= Seq::<char>::empty());
        assert(cur@ + Seq::<char>::empty() =~= cur@);
    }
    out.push(cur);
    proof {
        assert(split_blocks(t@) =~= char_views(out@));
    }
    out
}

fn blank(b: &Vec<char>) -> (r: bool)
    ensures
        r == is_blank(b@),
{
    let mut i: usize = 0;
    while i < b.len()
        invariant
            i <= b.len(),
            forall|j: int| 0 <= j < i ==> is_space(#[trigger] b@[j]),
        decreases b.len() - i,
    {
        if !is_space_char(b[i]) {
            return false;
        }
        i += 1;
    }
    true
}

/// The note that the block `b` holds.
fn parse_note(b: &Vec<char>, fallback: &str) -> (r: Note)
    ensures
        r@ == parse_block(b@, fallback@),
{
    let mut k: usize = 0;
    while k < b.len() && b[k] != '\n'
        invariant
            k <= b.len(),
            forall|j: int| 0 <= j < k ==> b@[j] != '\n',
        decreases b.len() - k,
    {
        k += 1;
    }
    proof {
        if k < b.len() {
            lemma_line_end(b@, k as int);
        } else {
            lemma_no_line_end(b@);
        }
    }
    if k < b.len() {
        let timestamp = string_of(b, 0, k);
        let content = string_of(b, k + 1, b.len());
        assert(b@.subrange(0, k as int) =~= b@.take(k as int));
        assert(b@.subrange(k + 1, b@.len() as int) =~= b@.skip(k + 1));
        Note::new(timestamp, content)
    } else {
        let content = string_of(b, 0, b.len());
        assert(b@.subrange(0, b@.len() as int) =~= b@);
        Note::new(fallback.to_string(), content)
    }
}

proof fn lemma_no_line_end(b: Seq<char>)
    requires
        forall|i: int| 0 <= i < b.len() ==> b[i] != '\n',
    ensures
        line_end(b) == b.len(),
    decreases b.len(),
{
    if b.len() > 0 {
        lemma_no_line_end(b.skip(1));
    }
}

/// The notes that the file text `text` holds; a block without a newline is
/// stamped `fallback`.
pub fn decode_text(text: &str, fallback: &str) -> (r: Vec<Note>)
    ensures
        models(r@) == decode(text@, fallback@),
{
    let t = chars_of(text);
    let blocks = split_text(&t);
    let ghost bs = char_views(blocks@);
    let mut r: Vec<Note> = Vec::new();
    let mut i: usize = 0;
    while i < blocks.len()
        invariant
            i <= blocks.len(),
            bs == char_views(blocks@),
            models(r@) == notes_of_blocks(bs.take(i as int), fallback@),
        decreases blocks.len() - i,
    {
        assert(bs.take(i + 1).drop_last() =~= bs.take(i as int));
        if !blank(&blocks[i]) {
            let n = parse_note(&blocks[i], fallback);
            r.push(n);
            assert(models(r@) =~= notes_of_blocks(bs.take(i + 1), fallback@));
        }
        i += 1;
    }
    assert(bs.take(i as int) =~= bs);
    r
}

} // verus!
