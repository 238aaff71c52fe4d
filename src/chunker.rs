//! Splitting a document's text into overlapping, character-addressed chunks.
//!
//! All positions are character indices into the trimmed text, never byte
//! indices, so multi-byte characters cannot be cut in half.
use crate::text::{
    chars_of, is_space, is_whitespace, lemma_trimmed_shape, string_of, trim_range, trimmed,
};
use vstd::prelude::*;
use vstd::slice::{slice_subrange, slice_to_vec};

verus! {

broadcast use vstd::string::to_string_from_display_ensures_for_str;

/// Default target size of a chunk, in characters.
pub const DEFAULT_CHUNK_SIZE: usize = 1000;

/// Default number of characters shared by consecutive chunks.
pub const DEFAULT_OVERLAP: usize = 200;

/// How many characters before a tentative end are searched for a break point.
pub const BREAK_SEARCH_WINDOW: usize = 200;

/// Configuration for text chunking.
#[derive(Debug, Clone, Copy)]
pub struct ChunkConfig {
    /// Target size of each chunk in characters (not bytes).
    pub chunk_size: usize,
    /// Number of characters consecutive chunks are meant to share.
    pub overlap: usize,
}

impl Default for ChunkConfig {
    fn default() -> (r: Self)
        ensures
            r.chunk_size == DEFAULT_CHUNK_SIZE,
            r.overlap == DEFAULT_OVERLAP,
            cuts_reach_next_start(r.chunk_size as int, r.overlap as int),
    {
        ChunkConfig { chunk_size: DEFAULT_CHUNK_SIZE, overlap: DEFAULT_OVERLAP }
    }
}

/// A chunk of a document's text.
#[derive(Debug, Clone)]
pub struct Chunk {
    pub id: String,
    pub document_id: String,
    /// Zero-based position of this chunk within its document.
    pub chunk_index: usize,
    /// The trimmed text of the chunk.
    pub content: String,
    /// Character offset where the chunk's range starts in the trimmed document.
    pub start_offset: usize,
    /// Character offset where the chunk's range ends in the trimmed document.
    pub end_offset: usize,
}

/// The mathematical value of a [`Chunk`].
pub struct ChunkModel {
    pub id: Seq<char>,
    pub document_id: Seq<char>,
    pub chunk_index: int,
    pub content: Seq<char>,
    pub start_offset: int,
    pub end_offset: int,
}

impl View for Chunk {
    type V = ChunkModel;

    open spec fn view(&self) -> ChunkModel {
        ChunkModel {
            id: self.id@,
            document_id: self.document_id@,
            chunk_index: self.chunk_index as int,
            content: self.content@,
            start_offset: self.start_offset as int,
            end_offset: self.end_offset as int,
        }
    }
}

/// The models of a sequence of chunks.
pub open spec fn chunk_models(cs: Seq<Chunk>) -> Seq<ChunkModel> {
    cs.map_values(|c: Chunk| c@)
}

/// The decimal digit for `d` in `0..10`.
pub open spec fn digit_char(d: int) -> char {
    if d == 0 {
        '0'
    } else if d == 1 {
        '1'
    } else if d == 2 {
        '2'
    } else if d == 3 {
        '3'
    } else if d == 4 {
        '4'
    } else if d == 5 {
        '5'
    } else if d == 6 {
        '6'
    } else if d == 7 {
        '7'
    } else if d == 8 {
        '8'
    } else {
        '9'
    }
}

/// Decimal notation of `n`, without leading zeros.
pub open spec fn decimal(n: nat) -> Seq<char>
    decreases n,
{
    if n < 10 {
        seq![digit_char(n as int)]
    } else {
        decimal(n / 10).push(digit_char((n % 10) as int))
    }
}

/// The id of the chunk at `index` of document `doc`: `"<doc>-<index>"`.
pub open spec fn chunk_id(doc: Seq<char>, index: int) -> Seq<char> {
    doc + seq!['-'] + decimal(index as nat)
}

/// How far the cursor moves from one chunk to the next.
pub open spec fn advance(chunk_size: int, overlap: int) -> int {
    let raw = if chunk_size > overlap {
        chunk_size - overlap
    } else {
        chunk_size / 2
    };
    if raw > 1 {
        raw
    } else {
        1
    }
}

/// A sentence terminator.
pub open spec fn is_terminator(c: char) -> bool {
    c == '.' || c == '!' || c == '?'
}

/// Reading from `j` towards `hi`, the position of the first newline when
/// only white space comes before it; -1 when a character that is not white
/// space, or `hi`, comes first.
pub open spec fn following_newline(t: Seq<char>, j: int, hi: int) -> int
    decreases hi - j,
{
    if j < 0 || j >= hi {
        -1
    } else if t[j] == '\n' {
        j
    } else if is_space(t[j]) {
        following_newline(t, j + 1, hi)
    } else {
        -1
    }
}

/// The last `i` in `lo..hi` where a paragraph break (two newlines with only
/// white space between them, the second before `end`) starts; -1 if none.
pub open spec fn last_paragraph(t: Seq<char>, lo: int, hi: int, end: int) -> int
    decreases hi - lo,
{
    if hi <= lo {
        -1
    } else if t[hi - 1] == '\n' && following_newline(t, hi, end) >= 0 {
        hi - 1
    } else {
        last_paragraph(t, lo, hi - 1, end)
    }
}

/// The last `i` in `lo..hi` holding a sentence terminator followed by white
/// space; -1 if none.
pub open spec fn last_sentence(t: Seq<char>, lo: int, hi: int) -> int
    decreases hi - lo,
{
    if hi <= lo {
        -1
    } else if is_terminator(t[hi - 1]) && is_space(t[hi]) {
        hi - 1
    } else {
        last_sentence(t, lo, hi - 1)
    }
}

/// The last `i` in `lo..hi` holding white space; -1 if none.
pub open spec fn last_space(t: Seq<char>, lo: int, hi: int) -> int
    decreases hi - lo,
{
    if hi <= lo {
        -1
    } else if is_space(t[hi - 1]) {
        hi - 1
    } else {
        last_space(t, lo, hi - 1)
    }
}

/// Start of the break-point search window: the last
/// `min(BREAK_SEARCH_WINDOW, end - start)` characters before `end`.
pub open spec fn search_start(start: int, end: int) -> int {
    if end - start > BREAK_SEARCH_WINDOW {
        end - BREAK_SEARCH_WINDOW
    } else {
        start
    }
}

/// Where a chunk starting at `start` with tentative end `end` is cut: just
/// after the second newline of the last paragraph break, else just after
/// the last sentence terminator that white space follows, else just after
/// the last white space, else at `end` itself.
pub open spec fn break_point(t: Seq<char>, start: int, end: int) -> int {
    let lo = search_start(start, end);
    let p = last_paragraph(t, lo, end, end);
    let s = last_sentence(t, lo, end - 1);
    let w = last_space(t, lo, end);
    if p >= 0 {
        following_newline(t, p + 1, end) + 1
    } else if s >= 0 {
        s + 1
    } else if w >= 0 {
        w + 1
    } else {
        end
    }
}

/// The end of the chunk that starts at `start`.
pub open spec fn chunk_end(t: Seq<char>, start: int, chunk_size: int) -> int {
    if start + chunk_size < t.len() {
        break_point(t, start, start + chunk_size)
    } else {
        t.len() as int
    }
}

/// The cursor after `start`, held at `total` once it passes the end.
pub open spec fn next_start(total: int, start: int, step: int) -> int {
    if start + step < total {
        if step > 1 {
            start + step
        } else {
            start + 1
        }
    } else {
        total
    }
}

/// The chunks that the cursor produces from `start` on, numbered from `index`.
pub open spec fn chunks_from(
    doc: Seq<char>,
    t: Seq<char>,
    chunk_size: int,
    overlap: int,
    start: int,
    index: int,
) -> Seq<ChunkModel>
    decreases t.len() - start,
{
    if start < 0 || start >= t.len() {
        seq![]
    } else {
        let end = chunk_end(t, start, chunk_size);
        let content = trimmed(t.subrange(start, end));
        let next = next_start(t.len() as int, start, advance(chunk_size, overlap));
        if content.len() > 0 {
            seq![
                ChunkModel {
                    id: chunk_id(doc, index),
                    document_id: doc,
                    chunk_index: index,
                    content,
                    start_offset: start,
                    end_offset: end,
                },
            ] + chunks_from(doc, t, chunk_size, overlap, next, index + 1)
        } else {
            chunks_from(doc, t, chunk_size, overlap, next, index)
        }
    }
}

/// The cursor always moves forward.
pub proof fn lemma_advance_positive(chunk_size: int, overlap: int)
    ensures
        advance(chunk_size, overlap) >= 1,
{
}

/// The chunks of `text` for document `doc`.
pub open spec fn chunk_plan(doc: Seq<char>, text: Seq<char>, chunk_size: int, overlap: int) -> Seq<
    ChunkModel,
> {
    let t = trimmed(text);
    if t.len() == 0 {
        seq![]
    } else if t.len() <= chunk_size {
        seq![
            ChunkModel {
                id: chunk_id(doc, 0),
                document_id: doc,
                chunk_index: 0,
                content: t,
                start_offset: 0,
                end_offset: t.len() as int,
            },
        ]
    } else {
        chunks_from(doc, t, chunk_size, overlap, 0, 0)
    }
}

/// The last `min(BREAK_SEARCH_WINDOW, end - start)` characters before `end`
/// begin here.
fn window_start(start: usize, end: usize) -> (r: usize)
    requires
        start <= end,
    ensures
        r == search_start(start as int, end as int),
{
    if end - start > BREAK_SEARCH_WINDOW {
        end - BREAK_SEARCH_WINDOW
    } else {
        start
    }
}

/// Find where to cut a chunk that starts at `start_char` and would
/// otherwise end at `end_char`, searching backwards from `end_char`.
fn find_break_point_chars(chars: &[char], start_char: usize, end_char: usize) -> (r: usize)
    requires
        start_char <= end_char < chars@.len(),
    ensures
        r == break_point(chars@, start_char as int, end_char as int),
{
    if start_char == end_char {
        return end_char;
    }
    let t = Ghost(chars@);
    let lo = window_start(start_char, end_char);
    // A paragraph break: two newlines with only white space between them.
    let mut i = end_char;
    let mut found_newline = false;
    let mut later_newline: usize = end_char;
    while i > lo
        invariant
            t@ == chars@,
            start_char <= lo <= i <= end_char < chars@.len(),
            lo == search_start(start_char as int, end_char as int),
            found_newline == (following_newline(t@, i as int, end_char as int) >= 0),
            found_newline ==> later_newline == following_newline(t@, i as int, end_char as int),
            last_paragraph(t@, lo as int, end_char as int, end_char as int) == last_paragraph(
                t@,
                lo as int,
                i as int,
                end_char as int,
            ),
        decreases i,
    {
        i = i - 1;
        let c = chars[i];
        if c == '\n' {
            if found_newline {
                proof {
                    lemma_following_newline_bound(t@, i + 1, end_char as int);
                }
                return later_newline + 1;
            }
            found_newline = true;
            later_newline = i;
        } else if !is_whitespace(c) {
            found_newline = false;
        }
    }
    // A sentence terminator followed by white space.
    let mut i = end_char - 1;
    while i > lo
        invariant
            t@ == chars@,
            start_char <= lo <= i < end_char < chars@.len(),
            lo == search_start(start_char as int, end_char as int),
            last_paragraph(t@, lo as int, end_char as int, end_char as int) < 0,
            last_sentence(t@, lo as int, end_char - 1) == last_sentence(t@, lo as int, i as int),
        decreases i,
    {
        i = i - 1;
        let c = chars[i];
        if (c == '.' || c == '!' || c == '?') && is_whitespace(chars[i + 1]) {
            return i + 1;
        }
    }
    // Any white space.
    let mut i = end_char;
    while i > lo
        invariant
            t@ == chars@,
            start_char <= lo <= i <= end_char < chars@.len(),
            lo == search_start(start_char as int, end_char as int),
            last_paragraph(t@, lo as int, end_char as int, end_char as int) < 0,
            last_sentence(t@, lo as int, end_char - 1) < 0,
            last_space(t@, lo as int, end_char as int) == last_space(t@, lo as int, i as int),
        decreases i,
    {
        i = i - 1;
        if is_whitespace(chars[i]) {
            return i + 1;
        }
    }
    end_char
}

proof fn lemma_following_newline_bound(t: Seq<char>, j: int, hi: int)
    ensures
        following_newline(t, j, hi) == -1 || (0 <= j <= following_newline(t, j, hi) < hi
            && t[following_newline(t, j, hi)] == '\n'),
    decreases hi - j,
{
    if 0 <= j < hi && t[j] != '\n' && is_space(t[j]) {
        lemma_following_newline_bound(t, j + 1, hi);
    }
}

proof fn lemma_last_paragraph_bounds(t: Seq<char>, lo: int, hi: int, end: int)
    ensures
        last_paragraph(t, lo, hi, end) == -1 || (lo <= last_paragraph(t, lo, hi, end) < hi
            && last_paragraph(t, lo, hi, end) < following_newline(
            t,
            last_paragraph(t, lo, hi, end) + 1,
            end,
        ) < end),
    decreases hi - lo,
{
    if hi > lo {
        if t[hi - 1] == '\n' && following_newline(t, hi, end) >= 0 {
            lemma_following_newline_bound(t, hi, end);
        } else {
            lemma_last_paragraph_bounds(t, lo, hi - 1, end);
        }
    }
}

proof fn lemma_last_sentence_bounds(t: Seq<char>, lo: int, hi: int)
    ensures
        last_sentence(t, lo, hi) == -1 || lo <= last_sentence(t, lo, hi) < hi,
    decreases hi - lo,
{
    if hi > lo {
        lemma_last_sentence_bounds(t, lo, hi - 1);
    }
}

proof fn lemma_last_space_bounds(t: Seq<char>, lo: int, hi: int)
    ensures
        last_space(t, lo, hi) == -1 || lo <= last_space(t, lo, hi) < hi,
    decreases hi - lo,
{
    if hi > lo {
        lemma_last_space_bounds(t, lo, hi - 1);
    }
}

/// A break point lies in `start..=end`, and after `start` when the window is
/// not empty.
pub proof fn lemma_break_point_bounds(t: Seq<char>, start: int, end: int)
    requires
        0 <= start <= end,
    ensures
        start <= break_point(t, start, end) <= end,
        start < end ==> start < break_point(t, start, end),
        start < end ==> search_start(start, end) < break_point(t, start, end),
{
    let lo = search_start(start, end);
    lemma_last_paragraph_bounds(t, lo, end, end);
    lemma_last_sentence_bounds(t, lo, end - 1);
    lemma_last_space_bounds(t, lo, end);
}

/// A chunk that starts inside the text ends after its start and inside the
/// text, unless the chunk size is zero.
pub proof fn lemma_chunk_end_bounds(t: Seq<char>, start: int, chunk_size: int)
    requires
        0 <= start < t.len(),
        0 <= chunk_size,
    ensures
        start <= chunk_end(t, start, chunk_size) <= t.len(),
        chunk_end(t, start, chunk_size) <= start + chunk_size,
        chunk_size > 0 ==> start < chunk_end(t, start, chunk_size),
{
    if start + chunk_size < t.len() {
        lemma_break_point_bounds(t, start, start + chunk_size);
    }
}

/// What holds of every chunk that the cursor produces from `start` on: dense
/// numbering from `index`, the document's id, a non-empty range inside the
/// text that is no longer than the chunk size, trimmed content, and starts
/// that are multiples of the advance and at least one advance apart.
pub proof fn lemma_chunks_from_shape(
    doc: Seq<char>,
    t: Seq<char>,
    chunk_size: int,
    overlap: int,
    start: int,
    index: int,
)
    requires
        0 <= start,
        0 <= chunk_size,
        start < t.len() ==> start % advance(chunk_size, overlap) == 0,
    ensures
        forall|j: int|
            #![trigger chunks_from(doc, t, chunk_size, overlap, start, index)[j]]
            0 <= j < chunks_from(doc, t, chunk_size, overlap, start, index).len() ==> {
                let c = chunks_from(doc, t, chunk_size, overlap, start, index)[j];
                &&& c.chunk_index == index + j
                &&& c.id == chunk_id(doc, index + j)
                &&& c.document_id == doc
                &&& start <= c.start_offset < c.end_offset <= t.len()
                &&& c.end_offset <= c.start_offset + chunk_size
                &&& c.start_offset % advance(chunk_size, overlap) == 0
                &&& c.content.len() > 0
                &&& c.content == trimmed(t.subrange(c.start_offset, c.end_offset))
            },
        forall|i: int, j: int|
            0 <= i < j < chunks_from(doc, t, chunk_size, overlap, start, index).len() ==> #[trigger] chunks_from(
                doc,
                t,
                chunk_size,
                overlap,
                start,
                index,
            )[i].start_offset + advance(chunk_size, overlap) <= #[trigger] chunks_from(
                doc,
                t,
                chunk_size,
                overlap,
                start,
                index,
            )[j].start_offset,
    decreases t.len() - start,
{
    if start < t.len() {
        let end = chunk_end(t, start, chunk_size);
        let step = advance(chunk_size, overlap);
        let next = next_start(t.len() as int, start, step);
        lemma_chunk_end_bounds(t, start, chunk_size);
        lemma_trimmed_shape(t.subrange(start, end));
        lemma_advance_positive(chunk_size, overlap);
        if next < t.len() {
            vstd::arithmetic::div_mod::lemma_mod_add_multiples_vanish(start, step);
        }
        let content = trimmed(t.subrange(start, end));
        let r = chunks_from(doc, t, chunk_size, overlap, start, index);
        if content.len() > 0 {
            lemma_chunks_from_shape(doc, t, chunk_size, overlap, next, index + 1);
            let rest = chunks_from(doc, t, chunk_size, overlap, next, index + 1);
            let head = ChunkModel {
                id: chunk_id(doc, index),
                document_id: doc,
                chunk_index: index,
                content,
                start_offset: start,
                end_offset: end,
            };
            assert(r == seq![head] + rest);
            assert forall|j: int| 0 <= j < r.len() implies {
                let c = #[trigger] r[j];
                &&& c.chunk_index == index + j
                &&& c.id == chunk_id(doc, index + j)
                &&& c.document_id == doc
                &&& start <= c.start_offset < c.end_offset <= t.len()
                &&& c.end_offset <= c.start_offset + chunk_size
                &&& c.start_offset % step == 0
                &&& c.content.len() > 0
                &&& c.content == trimmed(t.subrange(c.start_offset, c.end_offset))
            } by {
                if j > 0 {
                    assert(r[j] == rest[j - 1]);
                }
            }
            assert forall|i: int, j: int| 0 <= i < j < r.len() implies r[i].start_offset + step
                <= r[j].start_offset by {
                if i > 0 {
                    assert(r[i] == rest[i - 1]);
                }
                assert(r[j] == rest[j - 1]);
            }
        } else {
            lemma_chunks_from_shape(doc, t, chunk_size, overlap, next, index);
            assert(r == chunks_from(doc, t, chunk_size, overlap, next, index));
        }
    }
}

proof fn lemma_chunks_from_reaches_end(
    doc: Seq<char>,
    t: Seq<char>,
    chunk_size: int,
    overlap: int,
    start: int,
    index: int,
)
    requires
        0 <= start < t.len(),
        1 <= chunk_size,
        0 <= overlap,
        !is_space(t.last()),
    ensures
        chunks_from(doc, t, chunk_size, overlap, start, index).len() > 0,
        chunks_from(doc, t, chunk_size, overlap, start, index).last().end_offset == t.len(),
    decreases t.len() - start,
{
    let step = advance(chunk_size, overlap);
    let next = next_start(t.len() as int, start, step);
    let end = chunk_end(t, start, chunk_size);
    let content = trimmed(t.subrange(start, end));
    let r = chunks_from(doc, t, chunk_size, overlap, start, index);
    lemma_advance_positive(chunk_size, overlap);
    lemma_chunk_end_bounds(t, start, chunk_size);
    if next < t.len() {
        let idx = if content.len() > 0 {
            index + 1
        } else {
            index
        };
        lemma_chunks_from_reaches_end(doc, t, chunk_size, overlap, next, idx);
        let rest = chunks_from(doc, t, chunk_size, overlap, next, idx);
        if content.len() > 0 {
            assert(r.last() == rest.last());
        } else {
            assert(r == rest);
        }
    } else {
        assert(step <= chunk_size);
        assert(end == t.len());
        assert(t.subrange(start, end).last() == t.last());
        lemma_trimmed_shape(t.subrange(start, end));
        assert(chunks_from(doc, t, chunk_size, overlap, next, index + 1).len() == 0);
    }
}

/// A text no longer than the chunk size becomes one chunk that spans the
/// whole trimmed text.
pub proof fn lemma_short_text_single_chunk(
    doc: Seq<char>,
    text: Seq<char>,
    chunk_size: int,
    overlap: int,
)
    requires
        0 < trimmed(text).len() <= chunk_size,
    ensures
        chunk_plan(doc, text, chunk_size, overlap).len() == 1,
        chunk_plan(doc, text, chunk_size, overlap)[0].content == trimmed(text),
        chunk_plan(doc, text, chunk_size, overlap)[0].start_offset == 0,
        chunk_plan(doc, text, chunk_size, overlap)[0].end_offset == trimmed(text).len(),
        chunk_plan(doc, text, chunk_size, overlap)[0].chunk_index == 0,
{
}

/// Every chunk of a document carries the document's id and its own position
/// as index (0, 1, 2, ... with no gap), covers a non-empty character range
/// inside the trimmed text, holds that range's trimmed, non-empty text, and
/// starts after the chunk before it.
pub proof fn lemma_chunks_well_formed(
    doc: Seq<char>,
    text: Seq<char>,
    chunk_size: int,
    overlap: int,
)
    requires
        0 <= chunk_size,
        0 <= overlap,
    ensures
        forall|j: int|
            #![trigger chunk_plan(doc, text, chunk_size, overlap)[j]]
            0 <= j < chunk_plan(doc, text, chunk_size, overlap).len() ==> {
                let c = chunk_plan(doc, text, chunk_size, overlap)[j];
                &&& c.chunk_index == j
                &&& c.id == chunk_id(doc, j)
                &&& c.document_id == doc
                &&& 0 <= c.start_offset < c.end_offset <= trimmed(text).len()
                &&& c.content.len() > 0
                &&& c.content == trimmed(trimmed(text).subrange(c.start_offset, c.end_offset))
            },
        forall|i: int, j: int|
            0 <= i < j < chunk_plan(doc, text, chunk_size, overlap).len() ==> (#[trigger] chunk_plan(
                doc,
                text,
                chunk_size,
                overlap,
            )[i]).start_offset < (#[trigger] chunk_plan(doc, text, chunk_size, overlap)[j]).start_offset,
{
    let t = trimmed(text);
    if t.len() > 0 && t.len() <= chunk_size {
        crate::text::lemma_trimmed_idempotent(text);
        assert(t.subrange(0, t.len() as int) == t);
    } else if t.len() > chunk_size {
        lemma_advance_positive(chunk_size, overlap);
        lemma_chunks_from_shape(doc, t, chunk_size, overlap, 0, 0);
    }
}

/// The chunks of a text longer than the chunk size start at its first
/// character and end at its last, and each starts at least one advance after
/// the one before, so consecutive chunks share at most
/// `chunk_size - advance(chunk_size, overlap)` characters (`overlap`, when the
/// chunk size exceeds it by more than one).
pub proof fn lemma_chunks_span_text(doc: Seq<char>, text: Seq<char>, chunk_size: int, overlap: int)
    requires
        1 <= chunk_size < trimmed(text).len(),
        0 <= overlap,
    ensures
        chunk_plan(doc, text, chunk_size, overlap).len() > 0,
        chunk_plan(doc, text, chunk_size, overlap)[0].start_offset == 0,
        chunk_plan(doc, text, chunk_size, overlap).last().end_offset == trimmed(text).len(),
        forall|i: int|
            0 <= i < chunk_plan(doc, text, chunk_size, overlap).len() - 1 ==> {
                let a = #[trigger] chunk_plan(doc, text, chunk_size, overlap)[i];
                let b = chunk_plan(doc, text, chunk_size, overlap)[i + 1];
                &&& a.start_offset + advance(chunk_size, overlap) <= b.start_offset
                &&& a.end_offset - b.start_offset <= chunk_size - advance(chunk_size, overlap)
            },
{
    let t = trimmed(text);
    let r = chunks_from(doc, t, chunk_size, overlap, 0, 0);
    crate::text::lemma_trimmed_shape(text);
    lemma_advance_positive(chunk_size, overlap);
    lemma_chunks_from_shape(doc, t, chunk_size, overlap, 0, 0);
    lemma_chunks_from_reaches_end(doc, t, chunk_size, overlap, 0, 0);
    let end = chunk_end(t, 0, chunk_size);
    lemma_chunk_end_bounds(t, 0, chunk_size);
    assert(t.subrange(0, end)[0] == t[0]);
    lemma_trimmed_shape(t.subrange(0, end));
    assert forall|i: int| 0 <= i < r.len() - 1 implies {
        let a = #[trigger] r[i];
        let b = r[i + 1];
        &&& a.start_offset + advance(chunk_size, overlap) <= b.start_offset
        &&& a.end_offset - b.start_offset <= chunk_size - advance(chunk_size, overlap)
    } by {
        assert(r[i].start_offset + advance(chunk_size, overlap) <= r[i + 1].start_offset);
    }
}

/// Whether the cut of a chunk can never fall before the start of the next
/// one: the break-point search reaches back no further than one advance.
pub open spec fn cuts_reach_next_start(chunk_size: int, overlap: int) -> bool {
    let window = if chunk_size < BREAK_SEARCH_WINDOW {
        chunk_size
    } else {
        BREAK_SEARCH_WINDOW as int
    };
    advance(chunk_size, overlap) + window <= chunk_size + 1
}

proof fn lemma_chunk_end_reaches_next(t: Seq<char>, start: int, chunk_size: int, overlap: int)
    requires
        0 <= start < t.len(),
        1 <= chunk_size,
        cuts_reach_next_start(chunk_size, overlap),
    ensures
        next_start(t.len() as int, start, advance(chunk_size, overlap)) <= chunk_end(
            t,
            start,
            chunk_size,
        ),
{
    lemma_advance_positive(chunk_size, overlap);
    if start + chunk_size < t.len() {
        lemma_break_point_bounds(t, start, start + chunk_size);
    }
}

/// From `start` on, every character before the first chunk, between two
/// consecutive chunks, or (when there is no chunk) up to the end, is white
/// space.
proof fn lemma_chunks_from_gaps(
    doc: Seq<char>,
    t: Seq<char>,
    chunk_size: int,
    overlap: int,
    start: int,
    index: int,
)
    requires
        0 <= start,
        1 <= chunk_size,
        cuts_reach_next_start(chunk_size, overlap),
    ensures
        ({
            let r = chunks_from(doc, t, chunk_size, overlap, start, index);
            &&& r.len() == 0 ==> forall|x: int| start <= x < t.len() ==> is_space(#[trigger] t[x])
            &&& r.len() > 0 ==> forall|x: int|
                start <= x < r[0].start_offset ==> is_space(#[trigger] t[x])
            &&& forall|j: int, x: int|
                0 <= j < r.len() - 1 && (#[trigger] r[j]).end_offset <= x < r[j + 1].start_offset
                    ==> is_space(#[trigger] t[x])
        }),
    decreases t.len() - start,
{
    if start < t.len() {
        let end = chunk_end(t, start, chunk_size);
        let step = advance(chunk_size, overlap);
        let next = next_start(t.len() as int, start, step);
        let content = trimmed(t.subrange(start, end));
        let r = chunks_from(doc, t, chunk_size, overlap, start, index);
        lemma_advance_positive(chunk_size, overlap);
        lemma_chunk_end_bounds(t, start, chunk_size);
        lemma_chunk_end_reaches_next(t, start, chunk_size, overlap);
        if content.len() > 0 {
            lemma_chunks_from_gaps(doc, t, chunk_size, overlap, next, index + 1);
            let rest = chunks_from(doc, t, chunk_size, overlap, next, index + 1);
            assert forall|j: int, x: int|
                0 <= j < r.len() - 1 && (#[trigger] r[j]).end_offset <= x < r[j + 1].start_offset
                    implies is_space(#[trigger] t[x]) by {
                if j == 0 {
                    assert(r[1] == rest[0]);
                } else {
                    assert(r[j] == rest[j - 1] && r[j + 1] == rest[j]);
                }
            }
        } else {
            lemma_chunks_from_gaps(doc, t, chunk_size, overlap, next, index);
            assert forall|x: int| start <= x < end implies is_space(#[trigger] t[x]) by {
                if !is_space(t[x]) {
                    assert(t.subrange(start, end)[x - start] == t[x]);
                    crate::text::lemma_trimmed_keeps_non_space(t.subrange(start, end), x - start);
                }
            }
        }
    }
}

/// Under `cuts_reach_next_start` (the default 1000 / 200 configuration
/// satisfies it), chunks leave out nothing but white space: everything
/// between two consecutive chunks is white space; with
/// `lemma_chunks_span_text`, the chunks together with white space cover the
/// whole trimmed text.
pub proof fn lemma_chunks_cover_text(doc: Seq<char>, text: Seq<char>, chunk_size: int, overlap: int)
    requires
        1 <= chunk_size,
        cuts_reach_next_start(chunk_size, overlap),
    ensures
        forall|j: int, x: int|
            0 <= j < chunk_plan(doc, text, chunk_size, overlap).len() - 1 && (#[trigger] chunk_plan(
                doc,
                text,
                chunk_size,
                overlap,
            )[j]).end_offset <= x < chunk_plan(doc, text, chunk_size, overlap)[j + 1].start_offset
                ==> is_space(#[trigger] trimmed(text)[x]),
{
    let t = trimmed(text);
    if t.len() > chunk_size {
        lemma_chunks_from_gaps(doc, t, chunk_size, overlap, 0, 0);
    }
}

fn digit(d: usize) -> (c: char)
    requires
        d < 10,
    ensures
        c == digit_char(d as int),
{
    if d == 0 {
        '0'
    } else if d == 1 {
        '1'
    } else if d == 2 {
        '2'
    } else if d == 3 {
        '3'
    } else if d == 4 {
        '4'
    } else if d == 5 {
        '5'
    } else if d == 6 {
        '6'
    } else if d == 7 {
        '7'
    } else if d == 8 {
        '8'
    } else {
        '9'
    }
}

/// Append the decimal notation of `n` to `out`.
fn push_decimal(out: &mut Vec<char>, n: usize)
    ensures
        final(out)@ == old(out)@ + decimal(n as nat),
    decreases n,
{
    if n >= 10 {
        push_decimal(out, n / 10);
    }
    out.push(digit(n % 10));
    proof {
        if n < 10 {
            assert(decimal(n as nat) =~= seq![digit_char(n as int)]);
        }
    }
    assert(final(out)@ =~= old(out)@ + decimal(n as nat));
}

/// The id of the chunk at `chunk_index` of `document_id`.
fn make_chunk_id(document_id: &str, chunk_index: usize) -> (r: String)
    ensures
        r@ == chunk_id(document_id@, chunk_index as int),
{
    let mut cs = chars_of(document_id);
    cs.push('-');
    push_decimal(&mut cs, chunk_index);
    assert(cs@ =~= chunk_id(document_id@, chunk_index as int));
    string_of(cs.as_slice())
}

fn step_of(config: &ChunkConfig) -> (r: usize)
    ensures
        r == advance(config.chunk_size as int, config.overlap as int),
{
    let raw = if config.chunk_size > config.overlap {
        config.chunk_size - config.overlap
    } else {
        config.chunk_size / 2
    };
    if raw > 1 {
        raw
    } else {
        1
    }
}

/// Split `text` into overlapping chunks of about `config.chunk_size`
/// characters, preferring to cut at paragraph, sentence or word boundaries.
///
/// The text is trimmed first; offsets count characters of the trimmed text.
pub fn chunk_text(document_id: &str, text: &str, config: &ChunkConfig) -> (r: Vec<Chunk>)
    ensures
        chunk_models(r@) == chunk_plan(
            document_id@,
            text@,
            config.chunk_size as int,
            config.overlap as int,
        ),
{
    let ghost doc = document_id@;
    let ghost size = config.chunk_size as int;
    let ghost ov = config.overlap as int;
    let mut chunks: Vec<Chunk> = Vec::new();
    let all = chars_of(text);
    let (lo, hi) = trim_range(all.as_slice(), 0, all.len());
    assert(all@.subrange(0, all@.len() as int) =~= text@);
    let chars = slice_to_vec(slice_subrange(all.as_slice(), lo, hi));
    let ghost t = chars@;
    assert(t == trimmed(text@));
    let total = chars.len();
    if total == 0 {
        assert(chunk_models(chunks@) =~= chunk_plan(doc, text@, size, ov));
        return chunks;
    }
    if total <= config.chunk_size {
        chunks.push(
            Chunk {
                id: make_chunk_id(document_id, 0),
                document_id: document_id.to_string(),
                chunk_index: 0,
                content: string_of(chars.as_slice()),
                start_offset: 0,
                end_offset: total,
            },
        );
        assert(chunk_models(chunks@) =~= chunk_plan(doc, text@, size, ov));
        return chunks;
    }
    let step = step_of(config);
    let mut start: usize = 0;
    let mut chunk_index: usize = 0;
    while start < total
        invariant
            t == chars@,
            total == t.len(),
            doc == document_id@,
            size == config.chunk_size,
            ov == config.overlap,
            step == advance(size, ov),
            start <= total,
            chunk_index <= start,
            chunk_index == chunks@.len(),
            chunk_models(chunks@) + chunks_from(doc, t, size, ov, start as int, chunk_index as int)
                == chunks_from(doc, t, size, ov, 0, 0),
        decreases total - start,
    {
        let end = if config.chunk_size < total - start {
            find_break_point_chars(chars.as_slice(), start, start + config.chunk_size)
        } else {
            total
        };
        assert(end == chunk_end(t, start as int, size));
        proof {
            lemma_chunk_end_bounds(t, start as int, size);
        }
        let (a, b) = trim_range(chars.as_slice(), start, end);
        let next = if step < total - start {
            start + step
        } else {
            total
        };
        assert(next == next_start(total as int, start as int, step as int));
        let ghost before = chunk_models(chunks@);
        if a < b {
            let chunk = Chunk {
                id: make_chunk_id(document_id, chunk_index),
                document_id: document_id.to_string(),
                chunk_index,
                content: string_of(slice_subrange(chars.as_slice(), a, b)),
                start_offset: start,
                end_offset: end,
            };
            chunks.push(chunk);
            assert(chunk_models(chunks@) =~= before.push(chunk@));
            assert(before.push(chunk@) + chunks_from(
                doc,
                t,
                size,
                ov,
                next as int,
                chunk_index + 1,
            ) =~= before + chunks_from(doc, t, size, ov, start as int, chunk_index as int));
            chunk_index = chunk_index + 1;
        }
        start = next;
    }
    assert(chunk_models(chunks@) =~= chunks_from(doc, t, size, ov, 0, 0));
    chunks
}

} // verus!
