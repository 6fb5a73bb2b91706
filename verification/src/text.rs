//! The line-indexed text buffer.
//!
//! A `TextDocument` owns a document's text together with a table of line
//! start offsets. The table makes offset/position conversion a binary
//! search, and is patched incrementally when a ranged edit arrives instead
//! of being rebuilt from the whole text.
//!
//! Offsets here count characters; positions at this boundary are 0-based,
//! as the editor sends them.

use vstd::prelude::*;

verus! {

broadcast use vstd::string::group_string_axioms, vstd::std_specs::vec::axiom_spec_len;

/// A 0-based position as the editor protocol carries it.
#[derive(Copy, Clone, Debug, PartialEq, Eq, Structural)]
pub struct DocPosition {
    pub line: u64,
    pub character: u64,
}

/// A half-open range of protocol positions.
#[derive(Copy, Clone, Debug, PartialEq, Eq, Structural)]
pub struct DocRange {
    pub start: DocPosition,
    pub end: DocPosition,
}

/// One replacement: a range is replaced by new text.
#[derive(Debug, Clone)]
pub struct TextEdit {
    pub range: DocRange,
    pub new_text: String,
}

/// One document change: either a ranged replacement or, with no range,
/// a replacement of the whole document.
#[derive(Debug, Clone)]
pub struct ContentChange {
    pub range: Option<DocRange>,
    pub text: String,
}

/// A failure of the batch edit path.
#[derive(Copy, Clone, Debug, PartialEq, Eq, Structural)]
pub enum TextDocumentMutationError {
    OverlappingEdit,
}

/// Ordering of protocol positions: by line, then by character.
pub open spec fn dpos_le(a: DocPosition, b: DocPosition) -> bool {
    a.line < b.line || (a.line == b.line && a.character <= b.character)
}

/// Strict ordering of protocol positions.
pub open spec fn dpos_lt(a: DocPosition, b: DocPosition) -> bool {
    a.line < b.line || (a.line == b.line && a.character < b.character)
}

/// A range with its bounds put in order: a backwards range is swapped.
pub open spec fn spec_wellformed_range(r: DocRange) -> DocRange {
    if dpos_le(r.start, r.end) {
        r
    } else {
        DocRange { start: r.end, end: r.start }
    }
}

/// Puts a range's bounds in order, swapping a backwards range.
pub fn get_wellformed_range(range: DocRange) -> (r: DocRange)
    ensures
        r == spec_wellformed_range(range),
{
    if range.start.line > range.end.line || (range.start.line == range.end.line
        && range.start.character > range.end.character) {
        DocRange { start: range.end, end: range.start }
    } else {
        range
    }
}

/// Puts an edit's range in order, keeping its text.
pub fn get_wellformed_edit(edit: TextEdit) -> (r: TextEdit)
    ensures
        r.range == spec_wellformed_range(edit.range),
        r.new_text == edit.new_text,
{
    let TextEdit { range, new_text } = edit;
    TextEdit { range: get_wellformed_range(range), new_text }
}

/// The start offsets of the lines opened by newlines in `s`, with the text
/// imagined to begin at offset `off`: one entry `off + i + 1` for every
/// newline at index `i`.
pub open spec fn newline_starts(s: Seq<char>, off: int) -> Seq<int>
    decreases s.len(),
{
    if s.len() == 0 {
        Seq::empty()
    } else {
        newline_starts(s.drop_last(), off) + if s.last() == '\n' {
            seq![off + s.len()]
        } else {
            Seq::empty()
        }
    }
}

/// The number of newlines in `s`.
pub open spec fn newline_count(s: Seq<char>) -> int
    decreases s.len(),
{
    if s.len() == 0 {
        0
    } else {
        newline_count(s.drop_last()) + if s.last() == '\n' {
            1int
        } else {
            0int
        }
    }
}

/// The line start table of a text: offset 0, then one start per newline.
pub open spec fn line_starts(s: Seq<char>) -> Seq<int> {
    seq![0int] + newline_starts(s, 0)
}

/// What `newline_starts` yields: one entry per newline, strictly
/// increasing, each in `(off, off + len]` and pointing just past a newline.
#[verifier::rlimit(50)]
#[verifier::spinoff_prover]
pub proof fn lemma_ns_props(s: Seq<char>, off: int)
    ensures
        newline_starts(s, off).len() == newline_count(s),
        newline_count(s) <= s.len(),
        forall|k: int|
            0 <= k < newline_starts(s, off).len() ==> off < #[trigger] newline_starts(s, off)[k]
                <= off + s.len(),
        forall|k: int|
            0 <= k < newline_starts(s, off).len() ==> s[#[trigger] newline_starts(s, off)[k] - off
                - 1] == '\n',
        forall|i: int, j: int|
            0 <= i < j < newline_starts(s, off).len() ==> #[trigger] newline_starts(s, off)[i]
                < #[trigger] newline_starts(s, off)[j],
        forall|p: int|
            0 <= p < s.len() && s[p] == '\n' ==> exists|k: int|
                0 <= k < newline_starts(s, off).len() && #[trigger] newline_starts(s, off)[k] == off
                    + p + 1,
    decreases s.len(),
{
    if s.len() > 0 {
        lemma_ns_props(s.drop_last(), off);
        let d = s.drop_last();
        let ns = newline_starts(s, off);
        let nsd = newline_starts(d, off);
        assert forall|k: int| 0 <= k < ns.len() implies off < #[trigger] ns[k] <= off + s.len()
            && s[ns[k] - off - 1] == '\n' by {
            if k < nsd.len() {
                assert(ns[k] == nsd[k]);
                assert(d[nsd[k] - off - 1] == s[nsd[k] - off - 1]);
            } else {
                assert(s.last() == '\n');
                assert(ns[k] == off + s.len());
            }
        }
        assert forall|p: int| 0 <= p < s.len() && s[p] == '\n' implies exists|k: int|
            0 <= k < ns.len() && #[trigger] ns[k] == off + p + 1 by {
            if p < s.len() - 1 {
                assert(d[p] == s[p]);
                let k = choose|k: int| 0 <= k < nsd.len() && #[trigger] nsd[k] == off + p + 1;
                assert(ns[k] == off + p + 1);
            } else {
                assert(ns[ns.len() - 1] == off + s.len());
            }
        }
    }
}

/// Newline starts of a concatenation: those of each part, the second
/// shifted past the first.
pub proof fn lemma_ns_concat(a: Seq<char>, b: Seq<char>, off: int)
    ensures
        newline_starts(a + b, off) == newline_starts(a, off) + newline_starts(b, off + a.len()),
    decreases b.len(),
{
    if b.len() == 0 {
        assert(a + b =~= a);
        assert(newline_starts(a, off) + newline_starts(b, off + a.len()) =~= newline_starts(
            a,
            off,
        ));
    } else {
        lemma_ns_concat(a, b.drop_last(), off);
        assert((a + b).drop_last() =~= a + b.drop_last());
        assert((a + b).last() == b.last());
        if b.last() == '\n' {
            assert(newline_starts(a + b, off) =~= newline_starts(a, off) + newline_starts(
                b,
                off + a.len(),
            ));
        } else {
            assert(newline_starts(a + b, off) =~= newline_starts(a, off) + newline_starts(
                b,
                off + a.len(),
            ));
        }
    }
}

/// Moving the imagined start of the text shifts every entry alike.
pub proof fn lemma_ns_shift(s: Seq<char>, off1: int, off2: int)
    ensures
        newline_starts(s, off1).len() == newline_starts(s, off2).len(),
        forall|k: int|
            0 <= k < newline_starts(s, off1).len() ==> #[trigger] newline_starts(s, off1)[k]
                == newline_starts(s, off2)[k] + off1 - off2,
    decreases s.len(),
{
    if s.len() > 0 {
        lemma_ns_shift(s.drop_last(), off1, off2);
    }
}

/// The line index of a text is strictly increasing, starts at offset 0,
/// stays within the text, and has one entry per line: one more than the
/// count of newlines.
pub proof fn lemma_line_index_invariant(s: Seq<char>)
    ensures
        line_starts(s).len() == 1 + newline_count(s),
        line_starts(s).len() <= 1 + s.len(),
        line_starts(s)[0] == 0,
        forall|i: int, j: int|
            0 <= i < j < line_starts(s).len() ==> #[trigger] line_starts(s)[i] < #[trigger] line_starts(
                s,
            )[j],
        forall|k: int| 0 <= k < line_starts(s).len() ==> 0 <= #[trigger] line_starts(s)[k] <= s.len(),
{
    lemma_ns_props(s, 0);
}

/// The document buffer: identity, version, text, and the line index.
#[derive(Debug)]
pub struct TextDocument {
    pub uri: String,
    pub language_id: String,
    pub version: u64,
    pub content: Vec<char>,
    pub line_offsets: Vec<usize>,
}

/// A table of offsets read as mathematical integers.
pub open spec fn offsets_as_ints(s: Seq<usize>) -> Seq<int> {
    s.map_values(|u: usize| u as int)
}

/// `offsets_as_ints` maps the table elementwise.
pub proof fn lemma_offsets_index(s: Seq<usize>)
    ensures
        offsets_as_ints(s).len() == s.len(),
        forall|i: int| 0 <= i < s.len() ==> #[trigger] offsets_as_ints(s)[i] == s[i] as int,
{
}

/// The buffer is well formed when its line index is exactly the line
/// start table of its text.
pub open spec fn text_wf(d: TextDocument) -> bool {
    offsets_as_ints(d.line_offsets@) == line_starts(d.content@)
}

/// Collects the line start offsets found in `text`, taken to begin at
/// `start_offset`; with `is_line_start` the start itself is included.
pub fn compute_line_offsets(text: &Vec<char>, is_line_start: bool, start_offset: usize) -> (r: Vec<
    usize,
>)
    requires
        start_offset + text@.len() <= usize::MAX,
    ensures
        offsets_as_ints(r@) == (if is_line_start {
            seq![start_offset as int]
        } else {
            Seq::<int>::empty()
        }) + newline_starts(text@, start_offset as int),
{
    let ghost prefix: Seq<int> = if is_line_start {
        seq![start_offset as int]
    } else {
        Seq::<int>::empty()
    };
    let mut r: Vec<usize> = Vec::new();
    if is_line_start {
        r.push(start_offset);
    }
    proof {
        assert(text@.take(0) =~= Seq::<char>::empty());
        lemma_offsets_index(r@);
        assert(offsets_as_ints(r@) =~= prefix + newline_starts(
            text@.take(0),
            start_offset as int,
        ));
    }
    let mut i: usize = 0;
    while i < text.len()
        invariant
            i <= text@.len(),
            start_offset + text@.len() <= usize::MAX,
            offsets_as_ints(r@) == prefix + newline_starts(
                text@.take(i as int),
                start_offset as int,
            ),
        decreases text@.len() - i,
    {
        proof {
            assert(text@.take(i + 1).drop_last() =~= text@.take(i as int));
            assert(text@.take(i + 1).last() == text@[i as int]);
        }
        if text[i] == '\n' {
            let ghost before: Seq<usize> = r@;
            r.push(start_offset + i + 1);
            proof {
                lemma_offsets_index(before);
                lemma_offsets_index(r@);
                assert(offsets_as_ints(r@) =~= offsets_as_ints(before).push(
                    start_offset as int + i + 1,
                ));
                assert(offsets_as_ints(r@) =~= prefix + newline_starts(
                    text@.take(i + 1),
                    start_offset as int,
                ));
            }
        } else {
            proof {
                assert(newline_starts(text@.take(i + 1), start_offset as int) =~= newline_starts(
                    text@.take(i as int),
                    start_offset as int,
                ));
            }
        }
        i = i + 1;
    }
    proof {
        assert(text@.take(text@.len() as int) =~= text@);
    }
    r
}

/// The characters of a string slice, in order.
pub fn chars_of(text: &str) -> (r: Vec<char>)
    ensures
        r@ == text@,
{
    let mut out: Vec<char> = Vec::new();
    let mut it = text.chars();
    proof {
        assert(out@ =~= text@.take(0));
        assert(text@.skip(0) =~= text@);
    }
    loop
        invariant
            vstd::std_specs::iter::IteratorSpec::remaining(&it) == text@.skip(out@.len() as int),
            out@ == text@.take(out@.len() as int),
            out@.len() <= text@.len(),
        decreases text@.len() - out@.len(),
    {
        let ghost n: int = out@.len() as int;
        match it.next() {
            Some(c) => {
                proof {
                    assert(text@.skip(n).len() > 0);
                    assert(c == text@.skip(n)[0]);
                    assert(c == text@[n]);
                    assert(text@.skip(n).drop_first() =~= text@.skip(n + 1));
                    assert(out@.push(c) =~= text@.take(n + 1));
                }
                out.push(c);
            },
            None => {
                proof {
                    assert(text@.skip(n).len() == 0);
                    assert(out@ =~= text@);
                }
                return out;
            },
        }
    }
}

/// The string made of the given characters.
///
/// Relies on `String`'s `FromIterator` over characters: collecting the
/// characters yields a string holding exactly them.
#[verifier::external_body]
pub(crate) fn chars_to_string(v: &Vec<char>) -> (r: String)
    ensures
        r@ == v@,
{
    v.iter().collect()
}

/// The offset a position maps to: clamped to the end of the text when the
/// line is past the last one, otherwise clamped into the position's line.
pub open spec fn spec_offset_at(content: Seq<char>, pos: DocPosition) -> int {
    let ls = line_starts(content);
    if pos.line as int >= ls.len() {
        content.len() as int
    } else {
        let lo = ls[pos.line as int];
        let next = if pos.line as int + 1 < ls.len() {
            ls[pos.line as int + 1]
        } else {
            content.len() as int
        };
        if lo + pos.character as int <= next {
            lo + pos.character as int
        } else {
            next
        }
    }
}

/// The index of the last line start at or before `o`.
pub open spec fn spec_find_line(ls: Seq<int>, o: int) -> int
    decreases ls.len(),
{
    if ls.len() <= 1 {
        0
    } else if ls.last() <= o {
        ls.len() - 1
    } else {
        spec_find_line(ls.drop_last(), o)
    }
}

/// The position an offset maps to, after clamping the offset into the text:
/// the line whose start is the greatest one not past the offset, and the
/// distance to that start.
pub open spec fn spec_position_at(content: Seq<char>, offset: int) -> DocPosition {
    let o = if offset < 0 {
        0int
    } else if offset > content.len() {
        content.len() as int
    } else {
        offset
    };
    let ls = line_starts(content);
    let l = spec_find_line(ls, o);
    DocPosition { line: l as u64, character: (o - ls[l]) as u64 }
}

/// Where `spec_find_line` lands: at a start not past `o`, with the next
/// start (if any) past `o`.
pub proof fn lemma_find_line_props(ls: Seq<int>, o: int)
    requires
        ls.len() >= 1,
        ls[0] <= o,
        forall|i: int, j: int| 0 <= i < j < ls.len() ==> #[trigger] ls[i] < #[trigger] ls[j],
    ensures
        0 <= spec_find_line(ls, o) < ls.len(),
        ls[spec_find_line(ls, o)] <= o,
        spec_find_line(ls, o) == ls.len() - 1 || ls[spec_find_line(ls, o) + 1] > o,
    decreases ls.len(),
{
    if ls.len() <= 1 {
    } else if ls.last() <= o {
    } else {
        let d = ls.drop_last();
        assert(d[0] == ls[0]);
        assert forall|i: int, j: int| 0 <= i < j < d.len() implies #[trigger] d[i] < #[trigger] d[j] by {
            assert(d[i] == ls[i]);
            assert(d[j] == ls[j]);
        }
        lemma_find_line_props(d, o);
        let l = spec_find_line(d, o);
        assert(d[l] == ls[l]);
        if l < d.len() - 1 {
            assert(d[l + 1] == ls[l + 1]);
        }
    }
}

/// Only one index satisfies what `spec_find_line` looks for.
pub proof fn lemma_find_line_unique(ls: Seq<int>, o: int, l: int)
    requires
        ls.len() >= 1,
        ls[0] <= o,
        forall|i: int, j: int| 0 <= i < j < ls.len() ==> #[trigger] ls[i] < #[trigger] ls[j],
        0 <= l < ls.len(),
        ls[l] <= o,
        l == ls.len() - 1 || ls[l + 1] > o,
    ensures
        l == spec_find_line(ls, o),
    decreases ls.len(),
{
    if ls.len() <= 1 {
    } else if ls.last() <= o {
        if l < ls.len() - 1 {
            assert(ls[l + 1] <= ls[ls.len() - 1]) by {
                if l + 1 < ls.len() - 1 {
                    assert(ls[l + 1] < ls[ls.len() - 1]);
                }
            }
            assert(false);
        }
    } else {
        let d = ls.drop_last();
        assert(d[0] == ls[0]);
        assert forall|i: int, j: int| 0 <= i < j < d.len() implies #[trigger] d[i] < #[trigger] d[j] by {
            assert(d[i] == ls[i]);
            assert(d[j] == ls[j]);
        }
        assert(l < ls.len() - 1) by {
            if l == ls.len() - 1 {
                assert(ls[l] == ls.last());
            }
        }
        assert(d[l] == ls[l]);
        assert(l == d.len() - 1 || d[l + 1] == ls[l + 1]);
        lemma_find_line_unique(d, o, l);
    }
}

impl TextDocument {
    /// Creates a buffer for a freshly opened document, building its line
    /// index from the given text.
    pub fn new(uri: String, language_id: &str, version: u64, content: String) -> (r: TextDocument)
        ensures
            r.uri@ == uri@,
            r.language_id@ == language_id@,
            r.version == version,
            r.content@ == content@,
            text_wf(r),
    {
        let chars = chars_of(content.as_str());
        proof {
            assert(chars.len() == chars@.len());
        }
        let line_offsets = compute_line_offsets(&chars, true, 0);
        let r = TextDocument {
            uri,
            language_id: language_id.to_owned(),
            version,
            content: chars,
            line_offsets,
        };
        proof {
            assert(offsets_as_ints(r.line_offsets@) =~= line_starts(r.content@));
        }
        r
    }

    /// The document's identity.
    pub fn uri(&self) -> (r: &String)
        ensures
            r@ == self.uri@,
    {
        &self.uri
    }

    /// The document's language identifier.
    pub fn language_id(&self) -> (r: &String)
        ensures
            r@ == self.language_id@,
    {
        &self.language_id
    }

    /// The document's version counter.
    pub fn version(&self) -> (r: u64)
        ensures
            r == self.version,
    {
        self.version
    }

    /// The document's full text.
    pub fn text(&self) -> (r: String)
        ensures
            r@ == self.content@,
    {
        chars_to_string(&self.content)
    }

    /// The number of lines the index knows of.
    pub fn line_count(&self) -> (r: usize)
        ensures
            r == self.line_offsets@.len(),
    {
        self.line_offsets.len()
    }

    /// The text within a range, as a string.
    pub fn get_range(&self, range: DocRange) -> (r: String)
        requires
            text_wf(*self),
            spec_offset_at(self.content@, range.start) <= spec_offset_at(
                self.content@,
                range.end,
            ),
        ensures
            r@ == self.content@.subrange(
                spec_offset_at(self.content@, range.start),
                spec_offset_at(self.content@, range.end),
            ),
    {
        proof {
            lemma_offset_at_bounds(self.content@, range.start);
            lemma_offset_at_bounds(self.content@, range.end);
        }
        let start = self.offset_at(range.start);
        let end = self.offset_at(range.end);
        let mut sub: Vec<char> = Vec::new();
        let mut k = start;
        proof {
            assert(sub@ =~= self.content@.subrange(start as int, start as int));
        }
        while k < end
            invariant
                start <= k <= end <= self.content@.len(),
                sub@ == self.content@.subrange(start as int, k as int),
            decreases end - k,
        {
            sub.push(self.content[k]);
            proof {
                assert(sub@ =~= self.content@.subrange(start as int, k + 1));
            }
            k = k + 1;
        }
        chars_to_string(&sub)
    }

    /// Maps a position to a character offset, clamping as the
    /// specification of the mapping describes.
    pub fn offset_at(&self, pos: DocPosition) -> (r: usize)
        requires
            text_wf(*self),
        ensures
            r as int == spec_offset_at(self.content@, pos),
    {
        proof {
            lemma_line_index_invariant(self.content@);
        }
        let n = self.line_offsets.len();
        if pos.line >= n as u64 {
            self.content.len()
        } else {
            let li = pos.line as usize;
            proof {
                lemma_offsets_index(self.line_offsets@);
            }
            let lo = self.line_offsets[li];
            let next = if li + 1 < n {
                self.line_offsets[li + 1]
            } else {
                self.content.len()
            };
            proof {
                let ls = line_starts(self.content@);
                assert(lo as int == ls[li as int]);
                if li + 1 < n {
                    assert(next as int == ls[li + 1]);
                    assert(ls[li as int] < ls[li + 1]);
                } else {
                    assert(ls[li as int] <= self.content@.len());
                }
            }
            let room = next - lo;
            if pos.character >= room as u64 {
                next
            } else {
                lo + pos.character as usize
            }
        }
    }

    /// Maps a character offset to a position, by binary search for the
    /// greatest line start not past the offset.
    pub fn position_at(&self, offset: usize) -> (r: DocPosition)
        requires
            text_wf(*self),
        ensures
            r == spec_position_at(self.content@, offset as int),
    {
        proof {
            lemma_line_index_invariant(self.content@);
        }
        let ghost ls: Seq<int> = line_starts(self.content@);
        let o = if offset > self.content.len() {
            self.content.len()
        } else {
            offset
        };
        let n = self.line_offsets.len();
        let mut low: usize = 0;
        let mut high: usize = n;
        proof {
            lemma_offsets_index(self.line_offsets@);
        }
        while low < high
            invariant
                low <= high <= n,
                n == ls.len(),
                n == self.line_offsets@.len(),
                ls == line_starts(self.content@),
                text_wf(*self),
                o <= self.content@.len(),
                low > 0 ==> ls[low - 1] <= o as int,
                high < n ==> ls[high as int] > o as int,
            decreases high - low,
        {
            let mid = low + (high - low) / 2;
            proof {
                assert(mid < high);
                lemma_offsets_index(self.line_offsets@);
                assert(self.line_offsets@[mid as int] as int == ls[mid as int]);
            }
            if self.line_offsets[mid] > o {
                high = mid;
            } else {
                low = mid + 1;
            }
        }
        proof {
            lemma_offsets_index(self.line_offsets@);
            if low == 0 {
                assert(ls[0] > o as int);
                assert(ls[0] == 0);
                assert(false);
            }
            lemma_find_line_unique(ls, o as int, low - 1);
        }
        let l = low - 1;
        DocPosition { line: l as u64, character: (o - self.line_offsets[l]) as u64 }
    }
}

/// Where an offset lands: always within the text.
pub proof fn lemma_offset_at_bounds(content: Seq<char>, pos: DocPosition)
    ensures
        0 <= spec_offset_at(content, pos) <= content.len(),
{
    lemma_line_index_invariant(content);
    let ls = line_starts(content);
    if (pos.line as int) < ls.len() {
        if pos.line as int + 1 < ls.len() {
            assert(ls[pos.line as int] < ls[pos.line as int + 1]);
        }
    }
}

/// Offsets respect the order of positions.
pub proof fn lemma_offset_at_monotone(content: Seq<char>, a: DocPosition, b: DocPosition)
    requires
        dpos_le(a, b),
    ensures
        spec_offset_at(content, a) <= spec_offset_at(content, b),
{
    lemma_line_index_invariant(content);
    lemma_offset_at_bounds(content, a);
    lemma_offset_at_bounds(content, b);
    let ls = line_starts(content);
    if (a.line as int) < ls.len() && (b.line as int) < ls.len() && a.line < b.line {
        assert(ls[a.line as int + 1] <= ls[b.line as int]) by {
            if a.line as int + 1 < b.line as int {
                assert(ls[a.line as int + 1] < ls[b.line as int]);
            }
        }
    }
}

/// Offset/position round trip: every offset within the text is recovered
/// exactly from the position it maps to.
pub proof fn lemma_offset_position_roundtrip(content: Seq<char>, offset: int)
    requires
        0 <= offset <= content.len(),
        content.len() <= usize::MAX,
    ensures
        spec_offset_at(content, spec_position_at(content, offset)) == offset,
{
    lemma_line_index_invariant(content);
    let ls = line_starts(content);
    lemma_find_line_props(ls, offset);
    let l = spec_find_line(ls, offset);
    let pos = spec_position_at(content, offset);
    assert(ls.len() <= 1 + content.len());
    assert(pos.line as int == l);
    assert(pos.character as int == offset - ls[l]);
    if l + 1 < ls.len() {
        assert(ls[l] + pos.character as int <= ls[l + 1]);
    }
}

/// The version a caller-supplied value sets: the value itself, or 0 when
/// absent.
pub open spec fn spec_new_version(version: Option<i64>) -> u64 {
    match version {
        Some(v) => v as u64,
        None => 0,
    }
}

/// The text after one change: the new text splices over the normalized
/// range, or replaces the document wholesale when no range is given.
pub open spec fn spec_apply_change(content: Seq<char>, change: ContentChange) -> Seq<char> {
    match change.range {
        Some(r0) => {
            let r = spec_wellformed_range(r0);
            let so = spec_offset_at(content, r.start);
            let eo = spec_offset_at(content, r.end);
            content.take(so) + change.text@ + content.skip(eo)
        },
        None => change.text@,
    }
}

/// The text after an ordered list of changes, applied left to right.
pub open spec fn spec_apply_changes(content: Seq<char>, changes: Seq<ContentChange>) -> Seq<char>
    decreases changes.len(),
{
    if changes.len() == 0 {
        content
    } else {
        spec_apply_changes(spec_apply_change(content, changes[0]), changes.drop_first())
    }
}

/// A null edit changes nothing: replacing a range with the text it
/// already holds leaves the document's content as it was.
pub proof fn lemma_null_edit(content: Seq<char>, change: ContentChange)
    requires
        change.range is Some,
        ({
            let r = spec_wellformed_range(change.range->0);
            change.text@ == content.subrange(
                spec_offset_at(content, r.start),
                spec_offset_at(content, r.end),
            )
        }),
    ensures
        spec_apply_change(content, change) == content,
{
    let r = spec_wellformed_range(change.range->0);
    assert(dpos_le(r.start, r.end));
    lemma_offset_at_monotone(content, r.start, r.end);
    lemma_offset_at_bounds(content, r.start);
    lemma_offset_at_bounds(content, r.end);
    let so = spec_offset_at(content, r.start);
    let eo = spec_offset_at(content, r.end);
    assert(content.take(so) + content.subrange(so, eo) + content.skip(eo) =~= content);
}

impl TextDocument {
    /// Replaces the whole document's text and rebuilds the line index.
    fn apply_full_change(&mut self, text: &String)
        ensures
            text_wf(*final(self)),
            final(self).content@ == text@,
            final(self).uri@ == old(self).uri@,
            final(self).language_id@ == old(self).language_id@,
            final(self).version == old(self).version,
    {
        let chars = chars_of(text.as_str());
        proof {
            assert(chars.len() == chars@.len());
        }
        let line_offsets = compute_line_offsets(&chars, true, 0);
        self.content = chars;
        self.line_offsets = line_offsets;
        proof {
            assert(offsets_as_ints(self.line_offsets@) =~= line_starts(self.content@));
        }
    }

    /// Splices new text over a ranged edit and patches the line index:
    /// the entries strictly inside the edited span are replaced by the
    /// line starts found in the new text, and every later entry is
    /// shifted by the edit's net length change.
    #[verifier::rlimit(100)]
    #[verifier::spinoff_prover]
    fn apply_ranged_change(&mut self, range: DocRange, text: &String)
        requires
            text_wf(*old(self)),
        ensures
            text_wf(*final(self)),
            final(self).content@ == spec_apply_change(
                old(self).content@,
                ContentChange { range: Some(range), text: *text },
            ),
            final(self).uri@ == old(self).uri@,
            final(self).language_id@ == old(self).language_id@,
            final(self).version == old(self).version,
    {
        let r = get_wellformed_range(range);
        proof {
            assert(dpos_le(r.start, r.end));
            lemma_offset_at_monotone(self.content@, r.start, r.end);
            lemma_offset_at_bounds(self.content@, r.start);
            lemma_offset_at_bounds(self.content@, r.end);
            lemma_line_index_invariant(self.content@);
        }
        let so = self.offset_at(r.start);
        let eo = self.offset_at(r.end);
        let spos = self.position_at(so);
        let epos = self.position_at(eo);
        let sl = spos.line as usize;
        let el = epos.line as usize;
        let text_chars = chars_of(text.as_str());

        let ghost c: Seq<char> = self.content@;
        let ghost t: Seq<char> = text_chars@;
        let ghost x: Seq<char> = c.take(so as int);
        let ghost y: Seq<char> = c.subrange(so as int, eo as int);
        let ghost z: Seq<char> = c.skip(eo as int);
        let ghost nsx: Seq<int> = newline_starts(x, 0);
        let ghost nsy: Seq<int> = newline_starts(y, so as int);
        let ghost nsz: Seq<int> = newline_starts(z, eo as int);
        let ghost nst: Seq<int> = newline_starts(t, so as int);
        let ghost ls: Seq<int> = line_starts(c);
        let ghost p: int = nsx.len() as int;
        let ghost q: int = nsy.len() as int;
        let ghost ncv: Seq<char> = x + t + z;
        let ghost ls_new: Seq<int> = line_starts(ncv);

        proof {
            assert(c =~= (x + y) + z);
            lemma_ns_concat(x + y, z, 0);
            lemma_ns_concat(x, y, 0);
            assert(newline_starts(c, 0) == newline_starts((x + y) + z, 0));
            assert(ls =~= seq![0int] + (nsx + nsy) + nsz);
            lemma_ns_props(x, 0);
            lemma_ns_props(y, so as int);
            lemma_ns_props(z, eo as int);
            lemma_ns_props(t, so as int);

            // The search for the start line lands on the last prefix entry.
            assert(ls[p] <= so as int) by {
                if p > 0 {
                    assert(ls[p] == nsx[p - 1]);
                }
            }
            assert(p == ls.len() - 1 || ls[p + 1] > so as int) by {
                if p + 1 < ls.len() {
                    if q > 0 {
                        assert(ls[p + 1] == nsy[0]);
                    } else {
                        assert(ls[p + 1] == nsz[0]);
                    }
                }
            }
            lemma_find_line_unique(ls, so as int, p);
            assert(sl as int == p);

            // The search for the end line lands just before the kept tail.
            assert(ls[p + q] <= eo as int) by {
                if q > 0 {
                    assert(ls[p + q] == nsy[q - 1]);
                } else if p > 0 {
                    assert(ls[p] == nsx[p - 1]);
                }
            }
            assert(p + q == ls.len() - 1 || ls[p + q + 1] > eo as int) by {
                if p + q + 1 < ls.len() {
                    assert(ls[p + q + 1] == nsz[0]);
                }
            }
            lemma_find_line_unique(ls, eo as int, p + q);
            assert(el as int == p + q);

            // The edited text's line start table, decomposed the same way.
            assert(ncv =~= (x + t) + z);
            lemma_ns_concat(x + t, z, 0);
            lemma_ns_concat(x, t, 0);
            assert(ls_new =~= seq![0int] + (nsx + nst) + newline_starts(z, so + t.len()));
            lemma_ns_shift(z, so + t.len() as int, eo as int);
            lemma_ns_props(z, so + t.len() as int);
        }

        let nc = splice_chars(&self.content, so, eo, &text_chars);
        let nc_len = nc.len();
        proof {
            assert(nc@ == ncv);
            assert(nc_len == ncv.len());
        }
        let mids = compute_line_offsets(&text_chars, false, so);
        proof {
            lemma_offsets_index(self.line_offsets@);
            lemma_offsets_index(mids@);
            assert(offsets_as_ints(mids@) =~= nst);
            assert(ls.len() == p + q + 1 + nsz.len());
            assert(ls_new.len() == p + 1 + nst.len() + nsz.len());
            assert forall|j: int| 0 <= j <= sl as int implies #[trigger] ls_new[j]
                == self.line_offsets@[j] as int by {
                if j > 0 {
                    assert(ls[j] == nsx[j - 1]);
                    assert(ls_new[j] == nsx[j - 1]);
                }
                assert(self.line_offsets@[j] as int == ls[j]);
            }
            assert forall|j: int| 0 <= j < mids@.len() implies ls_new[sl + 1 + j]
                == (#[trigger] mids@[j]) as int by {}
            assert forall|j: int|
                el + 1 <= j < self.line_offsets@.len() implies (eo - so) <= #[trigger] self.line_offsets@[j] as int
                    && self.line_offsets@[j] as int - (eo - so) + text_chars.len() <= usize::MAX
                    && ls_new[sl + 1 + mids@.len() + (j - el - 1)] == self.line_offsets@[j] as int
                    - (eo - so) + text_chars.len() as int by {
                assert(self.line_offsets@[j] as int == ls[j]);
                assert(ls[j] == nsz[j - (p + q + 1)]);
                assert(eo < ls[j] <= c.len());
                assert(ls_new[p + 1 + nst.len() + (j - (p + q + 1))] == newline_starts(
                    z,
                    so + t.len(),
                )[j - (p + q + 1)]);
                assert(newline_starts(z, so + t.len())[j - (p + q + 1)] == nsz[j - (p + q + 1)] + (
                so + t.len()) - eo);
                assert(ls[j] - (eo - so) + t.len() <= ncv.len());
            }
            assert(ls_new.len() == sl + 1 + mids@.len() + (self.line_offsets@.len() - el - 1));
        }
        let nlo = patch_line_index(
            &self.line_offsets,
            sl,
            el,
            mids,
            eo - so,
            text_chars.len(),
            Ghost(ls_new),
        );
        self.content = nc;
        self.line_offsets = nlo;
        proof {
            assert(offsets_as_ints(self.line_offsets@) == line_starts(self.content@));
        }
    }

    /// Applies one change: ranged edits splice, a change without a range
    /// replaces the whole document.
    pub fn apply_change(&mut self, change: &ContentChange)
        requires
            text_wf(*old(self)),
        ensures
            text_wf(*final(self)),
            final(self).content@ == spec_apply_change(old(self).content@, *change),
            final(self).uri@ == old(self).uri@,
            final(self).language_id@ == old(self).language_id@,
            final(self).version == old(self).version,
    {
        match change.range {
            Some(r) => {
                self.apply_ranged_change(r, &change.text);
                proof {
                    assert(ContentChange { range: Some(r), text: change.text } == *change);
                }
            },
            None => {
                self.apply_full_change(&change.text);
            },
        }
    }

    /// Applies an ordered list of changes, then sets the version from the
    /// caller-supplied value, defaulting to 0 if absent.
    #[verifier::loop_isolation(false)]
    pub fn update(&mut self, changes: Vec<ContentChange>, version: Option<i64>)
        requires
            text_wf(*old(self)),
        ensures
            text_wf(*final(self)),
            final(self).content@ == spec_apply_changes(old(self).content@, changes@),
            final(self).version == spec_new_version(version),
            final(self).uri@ == old(self).uri@,
            final(self).language_id@ == old(self).language_id@,
    {
        let n = changes.len();
        let mut i: usize = 0;
        proof {
            assert(changes@.skip(0) =~= changes@);
        }
        while i < n
            invariant
                i <= n,
                text_wf(*self),
                spec_apply_changes(self.content@, changes@.skip(i as int)) == spec_apply_changes(
                    old(self).content@,
                    changes@,
                ),
                self.uri@ == old(self).uri@,
                self.language_id@ == old(self).language_id@,
            decreases n - i,
        {
            self.apply_change(&changes[i]);
            proof {
                assert(changes@.skip(i as int).drop_first() =~= changes@.skip(i + 1));
                assert(changes@.skip(i as int)[0] == changes@[i as int]);
            }
            i = i + 1;
        }
        proof {
            assert(changes@.skip(n as int) =~= Seq::<ContentChange>::empty());
        }
        self.version = match version {
            Some(v) => v as u64,
            None => 0,
        };
    }
}

/// An edit with its range put in order.
pub open spec fn spec_wellformed_edit(e: TextEdit) -> TextEdit {
    TextEdit { range: spec_wellformed_range(e.range), new_text: e.new_text }
}

/// A stable insertion into a list sorted by start position: the new edit
/// moves left past exactly the edits that start strictly after it.
pub open spec fn insert_sorted(sorted: Seq<TextEdit>, e: TextEdit) -> Seq<TextEdit>
    decreases sorted.len(),
{
    if sorted.len() > 0 && dpos_lt(e.range.start, sorted.last().range.start) {
        insert_sorted(sorted.drop_last(), e).push(sorted.last())
    } else {
        sorted.push(e)
    }
}

/// The edits sorted by start position, edits with equal starts keeping
/// their order.
pub open spec fn spec_sort_edits(edits: Seq<TextEdit>) -> Seq<TextEdit>
    decreases edits.len(),
{
    if edits.len() == 0 {
        Seq::empty()
    } else {
        insert_sorted(spec_sort_edits(edits.drop_last()), edits.last())
    }
}

/// Whether a walk over the sorted edits finds one that starts before the
/// offset already consumed by the edit before it.
pub open spec fn spec_overlaps(content: Seq<char>, edits: Seq<TextEdit>, last: int) -> bool
    decreases edits.len(),
{
    if edits.len() == 0 {
        false
    } else {
        spec_offset_at(content, edits[0].range.start) < last || spec_overlaps(
            content,
            edits.drop_first(),
            spec_offset_at(content, edits[0].range.end),
        )
    }
}

/// Whether the batch edit path must reject the edits: after ordering each
/// edit and sorting them by start, some edit begins inside its predecessor.
pub open spec fn spec_has_overlap(content: Seq<char>, edits: Seq<TextEdit>) -> bool {
    spec_overlaps(content, spec_sort_edits(edits.map_values(|e: TextEdit| spec_wellformed_edit(e))), 0)
}

/// Decides `dpos_lt` executably.
pub fn dpos_lt_exec(a: DocPosition, b: DocPosition) -> (r: bool)
    ensures
        r == dpos_lt(a, b),
{
    a.line < b.line || (a.line == b.line && a.character < b.character)
}

/// The text assembled by walking the sorted edits from the consumed
/// offset `last`: the untouched span before each edit, then the edit's
/// replacement text, and after the last edit the rest of the document.
pub open spec fn spec_splice_walk(content: Seq<char>, edits: Seq<TextEdit>, last: int) -> Seq<
    char,
>
    decreases edits.len(),
{
    if edits.len() == 0 {
        content.skip(last)
    } else {
        let so = spec_offset_at(content, edits[0].range.start);
        let eo = spec_offset_at(content, edits[0].range.end);
        content.subrange(last, so) + edits[0].new_text@ + spec_splice_walk(
            content,
            edits.drop_first(),
            eo,
        )
    }
}

/// The text a whole accepted batch produces: the walk-splice of the
/// edits after ordering each one and sorting them by start position.
pub open spec fn spec_batch_spliced(content: Seq<char>, edits: Seq<TextEdit>) -> Seq<char> {
    spec_splice_walk(
        content,
        spec_sort_edits(edits.map_values(|e: TextEdit| spec_wellformed_edit(e))),
        0,
    )
}

/// Inserting before the suffix of strictly later edits is what
/// `insert_sorted` does.
proof fn lemma_insert_sorted_at(s: Seq<TextEdit>, e: TextEdit, j: int)
    requires
        0 <= j <= s.len(),
        forall|i: int| j <= i < s.len() ==> dpos_lt(e.range.start, (#[trigger] s[i]).range.start),
        j == 0 || !dpos_lt(e.range.start, s[j - 1].range.start),
    ensures
        insert_sorted(s, e) == s.take(j) + seq![e] + s.skip(j),
    decreases s.len(),
{
    if j == s.len() {
        assert(insert_sorted(s, e) == s.push(e));
        assert(s.push(e) =~= s.take(j) + seq![e] + s.skip(j));
    } else {
        assert(dpos_lt(e.range.start, s[s.len() - 1].range.start));
        assert(insert_sorted(s, e) == insert_sorted(s.drop_last(), e).push(s.last()));
        assert forall|i: int| j <= i < s.drop_last().len() implies dpos_lt(
            e.range.start,
            (#[trigger] s.drop_last()[i]).range.start,
        ) by {
            assert(s.drop_last()[i] == s[i]);
        }
        if j > 0 {
            assert(s.drop_last()[j - 1] == s[j - 1]);
        }
        lemma_insert_sorted_at(s.drop_last(), e, j);
        assert(s.drop_last().take(j) =~= s.take(j));
        assert((s.take(j) + seq![e] + s.drop_last().skip(j)).push(s.last()) =~= s.take(j)
            + seq![e] + s.skip(j));
    }
}

impl TextDocument {
    /// Applies a batch of edits in one atomic step: the edits are
    /// order-normalized, sorted by start position, and spliced into an
    /// output buffer built by walking the unedited spans between them.
    /// Two intersecting edits reject the whole batch, and the document
    /// is then left untouched. On success the spliced text is installed
    /// and the line index rebuilt from it; the version is not touched,
    /// so callers publish the batch with a following `update`.
    #[verifier::loop_isolation(false)]
    pub fn apply_edits(&mut self, edits: Vec<TextEdit>) -> (r: Result<
        (),
        TextDocumentMutationError,
    >)
        requires
            text_wf(*old(self)),
        ensures
            (r is Err) == spec_has_overlap(old(self).content@, edits@),
            r is Err ==> r->Err_0 is OverlappingEdit && *final(self) == *old(self),
            r is Ok ==> final(self).content@ == spec_batch_spliced(old(self).content@, edits@)
                && text_wf(*final(self)),
            final(self).uri@ == old(self).uri@,
            final(self).language_id@ == old(self).language_id@,
            final(self).version == old(self).version,
    {
        let ghost input: Seq<TextEdit> = edits@;

        // Put every edit's range in order.
        let mut rest = edits;
        let mut norm: Vec<TextEdit> = Vec::new();
        proof {
            assert(input.map_values(|e: TextEdit| spec_wellformed_edit(e)).take(0)
                =~= Seq::<TextEdit>::empty());
        }
        while rest.len() > 0
            invariant
                rest@.len() <= input.len(),
                rest@ == input.skip(input.len() - rest@.len()),
                norm@ == input.map_values(|e: TextEdit| spec_wellformed_edit(e)).take(
                    input.len() - rest@.len(),
                ),
            decreases rest.len(),
        {
            let ghost done: int = input.len() - rest@.len();
            let e = rest.remove(0);
            proof {
                assert(e == input[done]);
                assert(rest@ =~= input.skip(done + 1));
            }
            let w = get_wellformed_edit(e);
            norm.push(w);
            proof {
                assert(w == spec_wellformed_edit(input[done]));
                assert(norm@ =~= input.map_values(|e2: TextEdit| spec_wellformed_edit(e2)).take(
                    done + 1,
                ));
            }
        }
        let ghost normed: Seq<TextEdit> = input.map_values(
            |e2: TextEdit| spec_wellformed_edit(e2),
        );
        proof {
            assert(norm@ =~= normed);
        }

        // Sort by start position, stably.
        let mut rest2 = norm;
        let mut sorted: Vec<TextEdit> = Vec::new();
        while rest2.len() > 0
            invariant
                rest2@.len() <= normed.len(),
                rest2@ == normed.skip(normed.len() - rest2@.len()),
                sorted@ == spec_sort_edits(normed.take(normed.len() - rest2@.len())),
                forall|a: int, b: int|
                    0 <= a < b < sorted@.len() ==> !dpos_lt(
                        (#[trigger] sorted@[b]).range.start,
                        (#[trigger] sorted@[a]).range.start,
                    ),
            decreases rest2.len(),
        {
            let ghost done: int = normed.len() - rest2@.len();
            let e = rest2.remove(0);
            proof {
                assert(e == normed[done]);
                assert(rest2@ =~= normed.skip(done + 1));
            }
            let mut j: usize = sorted.len();
            while j > 0 && dpos_lt_exec(e.range.start, sorted[j - 1].range.start)
                invariant
                    j <= sorted@.len(),
                    forall|i: int|
                        j <= i < sorted@.len() ==> dpos_lt(
                            e.range.start,
                            (#[trigger] sorted@[i]).range.start,
                        ),
                decreases j,
            {
                j = j - 1;
            }
            let ghost before: Seq<TextEdit> = sorted@;
            sorted.insert(j, e);
            proof {
                lemma_insert_sorted_at(before, e, j as int);
                assert(sorted@ =~= before.take(j as int) + seq![e] + before.skip(j as int));
                assert(normed.take(done + 1).drop_last() =~= normed.take(done));
                assert(normed.take(done + 1).last() == normed[done]);
                assert(sorted@ == spec_sort_edits(normed.take(done + 1)));
                assert forall|a: int, b: int|
                    0 <= a < b < sorted@.len() implies !dpos_lt(
                        (#[trigger] sorted@[b]).range.start,
                        (#[trigger] sorted@[a]).range.start,
                    ) by {
                    if a < j as int && b < j as int {
                        assert(sorted@[a] == before[a]);
                        assert(sorted@[b] == before[b]);
                    } else if a < j as int && b == j as int {
                        assert(sorted@[a] == before[a]);
                    } else if a < j as int && b > j as int {
                        assert(sorted@[a] == before[a]);
                        assert(sorted@[b] == before[b - 1]);
                    } else if a == j as int && b > j as int {
                        assert(sorted@[b] == before[b - 1]);
                    } else if a > j as int && b > j as int {
                        assert(sorted@[a] == before[a - 1]);
                        assert(sorted@[b] == before[b - 1]);
                    }
                }
            }
        }
        proof {
            assert(normed.take(normed.len() as int) =~= normed);
        }

        // Walk the sorted edits, tracking the offset consumed so far and
        // assembling the spliced text as we go.
        let ghost c: Seq<char> = old(self).content@;
        let n = sorted.len();
        let mut spliced: Vec<char> = Vec::new();
        let mut i: usize = 0;
        let mut last: usize = 0;
        proof {
            assert(sorted@.skip(0) =~= sorted@);
        }
        while i < n
            invariant
                i <= n,
                last <= c.len(),
                spec_overlaps(c, sorted@.skip(i as int), last as int) == spec_overlaps(
                    c,
                    sorted@,
                    0,
                ),
                spliced@ + spec_splice_walk(c, sorted@.skip(i as int), last as int)
                    == spec_splice_walk(c, sorted@, 0),
                *self == *old(self),
            decreases n - i,
        {
            let so = self.offset_at(sorted[i].range.start);
            proof {
                lemma_offset_at_bounds(c, sorted@[i as int].range.start);
                lemma_offset_at_bounds(c, sorted@[i as int].range.end);
                assert(sorted@.skip(i as int)[0] == sorted@[i as int]);
                assert(sorted@.skip(i as int).drop_first() =~= sorted@.skip(i + 1));
            }
            if so < last {
                return Err(TextDocumentMutationError::OverlappingEdit);
            }
            let ghost spliced_before: Seq<char> = spliced@;
            let mut k: usize = last;
            while k < so
                invariant
                    last <= k <= so <= c.len(),
                    self.content@ == c,
                    spliced@ == spliced_before + c.subrange(last as int, k as int),
                decreases so - k,
            {
                spliced.push(self.content[k]);
                proof {
                    assert(spliced@ =~= spliced_before + c.subrange(last as int, k + 1));
                }
                k = k + 1;
            }
            let mut piece = chars_of(sorted[i].new_text.as_str());
            spliced.append(&mut piece);
            proof {
                assert(spliced@ =~= (spliced_before + c.subrange(last as int, so as int))
                    + sorted@[i as int].new_text@);
                assert(spliced_before + (c.subrange(last as int, so as int)
                    + sorted@[i as int].new_text@ + spec_splice_walk(
                    c,
                    sorted@.skip(i + 1),
                    spec_offset_at(c, sorted@[i as int].range.end),
                )) =~= (spliced_before + c.subrange(last as int, so as int)
                    + sorted@[i as int].new_text@) + spec_splice_walk(
                    c,
                    sorted@.skip(i + 1),
                    spec_offset_at(c, sorted@[i as int].range.end),
                ));
            }
            last = self.offset_at(sorted[i].range.end);
            i = i + 1;
        }
        proof {
            assert(sorted@.skip(n as int) =~= Seq::<TextEdit>::empty());
        }
        // The tail of the document after the last consumed offset.
        let ghost spliced_mid: Seq<char> = spliced@;
        let mut k2: usize = last;
        while k2 < self.content.len()
            invariant
                last <= k2 <= c.len(),
                self.content@ == c,
                spliced@ == spliced_mid + c.subrange(last as int, k2 as int),
            decreases c.len() - k2,
        {
            spliced.push(self.content[k2]);
            proof {
                assert(spliced@ =~= spliced_mid + c.subrange(last as int, k2 + 1));
            }
            k2 = k2 + 1;
        }
        proof {
            assert(c.subrange(last as int, c.len() as int) =~= c.skip(last as int));
            assert(spliced@ =~= spec_splice_walk(c, sorted@, 0));
            assert(spliced.len() == spliced@.len());
        }
        let line_offsets = compute_line_offsets(&spliced, true, 0);
        self.content = spliced;
        self.line_offsets = line_offsets;
        proof {
            assert(offsets_as_ints(self.line_offsets@) =~= line_starts(self.content@));
        }
        Ok(())
    }
}

/// The characters of `content` with `text` spliced over `[so, eo)`.
fn splice_chars(content: &Vec<char>, so: usize, eo: usize, text: &Vec<char>) -> (r: Vec<char>)
    requires
        so <= eo <= content@.len(),
    ensures
        r@ == content@.take(so as int) + text@ + content@.skip(eo as int),
{
    let ghost c: Seq<char> = content@;
    let ghost t: Seq<char> = text@;
    let mut nc: Vec<char> = Vec::new();
    let mut k: usize = 0;
    while k < so
        invariant
            k <= so <= c.len(),
            content@ == c,
            nc@ == c.take(k as int),
        decreases so - k,
    {
        nc.push(content[k]);
        proof {
            assert(nc@ =~= c.take(k + 1));
        }
        k = k + 1;
    }
    let mut k2: usize = 0;
    proof {
        assert(nc@ =~= c.take(so as int) + t.take(0));
    }
    while k2 < text.len()
        invariant
            k2 <= t.len(),
            text@ == t,
            so <= c.len(),
            nc@ == c.take(so as int) + t.take(k2 as int),
        decreases t.len() - k2,
    {
        nc.push(text[k2]);
        proof {
            assert(nc@ =~= c.take(so as int) + t.take(k2 + 1));
        }
        k2 = k2 + 1;
    }
    let mut k3: usize = eo;
    proof {
        assert(t.take(t.len() as int) =~= t);
        assert(nc@ =~= c.take(so as int) + t + c.subrange(eo as int, eo as int));
    }
    while k3 < content.len()
        invariant
            eo <= k3 <= c.len(),
            so <= c.len(),
            content@ == c,
            text@ == t,
            nc@ == c.take(so as int) + t + c.subrange(eo as int, k3 as int),
        decreases c.len() - k3,
    {
        nc.push(content[k3]);
        proof {
            assert(nc@ =~= c.take(so as int) + t + c.subrange(eo as int, k3 + 1));
        }
        k3 = k3 + 1;
    }
    proof {
        assert(c.subrange(eo as int, c.len() as int) =~= c.skip(eo as int));
    }
    nc
}

/// A patched line index: the entries through `sl` kept, then `mids`, then
/// the entries after `el` each shifted by the net length change.
fn patch_line_index(
    old_lo: &Vec<usize>,
    sl: usize,
    el: usize,
    mids: Vec<usize>,
    removed: usize,
    added: usize,
    Ghost(ls_new): Ghost<Seq<int>>,
) -> (r: Vec<usize>)
    requires
        sl < old_lo@.len(),
        el < old_lo@.len(),
        ls_new.len() == sl + 1 + mids@.len() + (old_lo@.len() - el - 1),
        forall|j: int| 0 <= j <= sl as int ==> #[trigger] ls_new[j] == old_lo@[j] as int,
        forall|j: int| 0 <= j < mids@.len() ==> ls_new[sl + 1 + j] == (#[trigger] mids@[j]) as int,
        forall|j: int|
            el + 1 <= j < old_lo@.len() ==> removed <= #[trigger] old_lo@[j] as int
                && old_lo@[j] as int - removed + added <= usize::MAX && ls_new[sl + 1 + mids@.len()
                + (j - el - 1)] == old_lo@[j] as int - removed + added,
    ensures
        offsets_as_ints(r@) == ls_new,
{
    let n = old_lo.len();
    let mut nlo: Vec<usize> = Vec::new();
    let mut k: usize = 0;
    proof {
        lemma_offsets_index(nlo@);
        assert(offsets_as_ints(nlo@) =~= ls_new.take(0));
    }
    while k <= sl
        invariant
            k <= sl + 1,
            n == old_lo@.len(),
            sl < n,
            forall|j: int| 0 <= j <= sl as int ==> #[trigger] ls_new[j] == old_lo@[j] as int,
            sl + 1 <= ls_new.len(),
            offsets_as_ints(nlo@) == ls_new.take(k as int),
        decreases sl + 1 - k,
    {
        let ghost before: Seq<usize> = nlo@;
        nlo.push(old_lo[k]);
        proof {
            lemma_offsets_index(before);
            lemma_offsets_index(nlo@);
            assert(offsets_as_ints(nlo@) =~= ls_new.take(k + 1));
        }
        k = k + 1;
    }
    let ghost before_mids: Seq<usize> = nlo@;
    let ghost mids_view: Seq<usize> = mids@;
    let mut mids_tail = mids;
    nlo.append(&mut mids_tail);
    proof {
        lemma_offsets_index(before_mids);
        lemma_offsets_index(mids_view);
        lemma_offsets_index(nlo@);
        assert(nlo@ == before_mids + mids_view);
        assert forall|i: int| 0 <= i < nlo@.len() implies offsets_as_ints(nlo@)[i] == ls_new.take(
            sl + 1 + mids_view.len(),
        )[i] by {
            if i <= sl as int {
                assert(nlo@[i] == before_mids[i]);
                assert(offsets_as_ints(before_mids)[i] == ls_new.take(sl + 1)[i]);
            } else {
                assert(nlo@[i] == mids_view[i - (sl + 1)]);
            }
        }
        assert(offsets_as_ints(nlo@) =~= ls_new.take(sl + 1 + mids_view.len()));
    }
    let mut k2: usize = el + 1;
    while k2 < n
        invariant
            el + 1 <= k2 <= old_lo@.len(),
            n == old_lo@.len(),
            sl < old_lo@.len(),
            ls_new.len() == sl + 1 + mids_view.len() + (old_lo@.len() - el - 1),
            forall|j: int|
                el + 1 <= j < old_lo@.len() ==> removed <= #[trigger] old_lo@[j] as int
                    && old_lo@[j] as int - removed + added <= usize::MAX && ls_new[sl + 1
                    + mids_view.len() + (j - el - 1)] == old_lo@[j] as int - removed + added,
            offsets_as_ints(nlo@) == ls_new.take(sl + 1 + mids_view.len() + (k2 - el - 1)),
        decreases n - k2,
    {
        let ghost before: Seq<usize> = nlo@;
        let v = old_lo[k2];
        nlo.push(v - removed + added);
        proof {
            lemma_offsets_index(before);
            lemma_offsets_index(nlo@);
            assert(offsets_as_ints(nlo@) =~= ls_new.take(sl + 1 + mids_view.len() + (k2 - el - 1)
                + 1));
        }
        k2 = k2 + 1;
    }
    proof {
        assert(offsets_as_ints(nlo@) =~= ls_new);
    }
    nlo
}

/// Copies a character table cell for cell.
fn copy_chars(v: &Vec<char>) -> (r: Vec<char>)
    ensures
        r@ == v@,
{
    let mut out: Vec<char> = Vec::new();
    let mut k: usize = 0;
    while k < v.len()
        invariant
            k <= v@.len(),
            out@ == v@.take(k as int),
        decreases v@.len() - k,
    {
        out.push(v[k]);
        proof {
            assert(out@ =~= v@.take(k + 1));
        }
        k = k + 1;
    }
    proof {
        assert(out@ =~= v@);
    }
    out
}

/// Copies an offset table entry for entry.
fn copy_offsets(v: &Vec<usize>) -> (r: Vec<usize>)
    ensures
        r@ == v@,
{
    let mut out: Vec<usize> = Vec::new();
    let mut k: usize = 0;
    while k < v.len()
        invariant
            k <= v@.len(),
            out@ == v@.take(k as int),
        decreases v@.len() - k,
    {
        out.push(v[k]);
        proof {
            assert(out@ =~= v@.take(k + 1));
        }
        k = k + 1;
    }
    proof {
        assert(out@ =~= v@);
    }
    out
}

impl Clone for TextDocument {
    /// A copy with the same identity, version, text, and line index.
    fn clone(&self) -> (r: Self)
        ensures
            r.uri@ == self.uri@,
            r.language_id@ == self.language_id@,
            r.version == self.version,
            r.content@ == self.content@,
            r.line_offsets@ == self.line_offsets@,
    {
        TextDocument {
            uri: self.uri.clone(),
            language_id: self.language_id.clone(),
            version: self.version,
            content: copy_chars(&self.content),
            line_offsets: copy_offsets(&self.line_offsets),
        }
    }
}

/// Two well-formed buffers over the same text carry the same line index:
/// the index is determined by the text alone.
pub proof fn lemma_index_determined(a: TextDocument, b: TextDocument)
    requires
        text_wf(a),
        text_wf(b),
        a.content@ == b.content@,
    ensures
        a.line_offsets@ == b.line_offsets@,
{
    lemma_offsets_index(a.line_offsets@);
    lemma_offsets_index(b.line_offsets@);
    let ma = offsets_as_ints(a.line_offsets@);
    let mb = offsets_as_ints(b.line_offsets@);
    assert(ma == mb);
    assert forall|i: int| 0 <= i < a.line_offsets@.len() implies a.line_offsets@[i]
        == b.line_offsets@[i] by {
        assert(ma[i] == mb[i]);
    }
    assert(a.line_offsets@ =~= b.line_offsets@);
}

} // verus!
