use octave_lsp::text::{
    ContentChange, DocPosition, DocRange, TextDocument, TextDocumentMutationError, TextEdit,
};

fn doc(content: &str) -> TextDocument {
    TextDocument::new(
        String::from("file:///t.m"),
        "octave",
        0,
        String::from(content),
    )
}

fn pos(line: u64, character: u64) -> DocPosition {
    DocPosition { line, character }
}

fn range(sl: u64, sc: u64, el: u64, ec: u64) -> DocRange {
    DocRange { start: pos(sl, sc), end: pos(el, ec) }
}

#[test]
fn offset_position_round_trip() {
    let d = doc("ab\ncd\nef");
    for o in 0..=8usize {
        let p = d.position_at(o);
        assert_eq!(d.offset_at(p), o);
    }
}

#[test]
fn position_at_finds_line_and_column() {
    let d = doc("ab\ncd\nef");
    assert_eq!(d.position_at(0), pos(0, 0));
    assert_eq!(d.position_at(2), pos(0, 2));
    assert_eq!(d.position_at(3), pos(1, 0));
    assert_eq!(d.position_at(7), pos(2, 1));
    // Past the end the offset is clamped to the end of the text.
    assert_eq!(d.position_at(100), pos(2, 2));
}

#[test]
fn offset_at_clamps() {
    let d = doc("ab\ncd");
    // A column past the line end clamps to the next line start.
    assert_eq!(d.offset_at(pos(0, 50)), 3);
    // A line past the last clamps to the end of the text.
    assert_eq!(d.offset_at(pos(9, 0)), 5);
}

#[test]
fn line_index_invariant_after_edits() {
    let mut d = doc("ab\ncd");
    d.update(
        vec![ContentChange { range: Some(range(0, 1, 1, 1)), text: String::from("x\ny\nz") }],
        Some(1),
    );
    let text = d.text();
    let newlines = text.chars().filter(|c| *c == '\n').count();
    assert_eq!(d.line_count(), 1 + newlines);
    assert_eq!(d.line_offsets[0], 0);
    for i in 1..d.line_offsets.len() {
        assert!(d.line_offsets[i - 1] < d.line_offsets[i]);
        assert_eq!(text.chars().nth(d.line_offsets[i] - 1), Some('\n'));
    }
}

#[test]
fn ranged_edit_splices_text() {
    let mut d = doc("ab\ncd\nef");
    d.update(
        vec![ContentChange { range: Some(range(1, 0, 1, 2)), text: String::from("XY") }],
        Some(2),
    );
    assert_eq!(d.text(), "ab\nXY\nef");
    assert_eq!(d.version(), 2);
}

#[test]
fn full_replacement_rebuilds_index() {
    let mut d = doc("ab");
    d.update(
        vec![ContentChange { range: None, text: String::from("one\ntwo\nthree") }],
        Some(3),
    );
    assert_eq!(d.text(), "one\ntwo\nthree");
    assert_eq!(d.line_count(), 3);
    assert_eq!(d.line_offsets, vec![0, 4, 8]);
}

#[test]
fn null_edit_keeps_content_and_index() {
    let mut d = doc("ab\ncd\nef");
    let before_text = d.text();
    let before_index = d.line_offsets.clone();
    // Replace a range with exactly what it already holds.
    d.update(
        vec![ContentChange { range: Some(range(0, 1, 2, 1)), text: String::from("b\ncd\ne") }],
        Some(7),
    );
    assert_eq!(d.text(), before_text);
    assert_eq!(d.line_offsets, before_index);
    assert_eq!(d.version(), 7);
}

#[test]
fn overlapping_edits_are_rejected() {
    let mut d = doc("abcdef");
    let edits = vec![
        TextEdit { range: range(0, 0, 0, 2), new_text: String::from("x") },
        TextEdit { range: range(0, 1, 0, 3), new_text: String::from("y") },
    ];
    let r = d.apply_edits(edits);
    assert_eq!(r, Err(TextDocumentMutationError::OverlappingEdit));
    // A rejected batch leaves the document untouched.
    assert_eq!(d.text(), "abcdef");
}

#[test]
fn disjoint_edits_are_accepted_and_spliced() {
    let mut d = doc("abcdef");
    let edits = vec![
        TextEdit { range: range(0, 0, 0, 2), new_text: String::from("x") },
        TextEdit { range: range(0, 3, 0, 4), new_text: String::from("y") },
    ];
    assert_eq!(d.apply_edits(edits), Ok(()));
    // The batch is spliced in one step; the version is untouched.
    assert_eq!(d.text(), "xcyef");
    assert_eq!(d.version(), 0);
}

#[test]
fn batch_splice_handles_newlines_and_order() {
    let mut d = doc("ab
cd");
    // Given out of order; sorting by start puts the first-line edit first.
    let edits = vec![
        TextEdit { range: range(1, 0, 1, 1), new_text: String::from("X
Y") },
        TextEdit { range: range(0, 1, 0, 2), new_text: String::from("") },
    ];
    assert_eq!(d.apply_edits(edits), Ok(()));
    assert_eq!(d.text(), "a
X
Yd");
    assert_eq!(d.line_offsets, vec![0, 2, 4]);
}

#[test]
fn backwards_range_is_normalized() {
    let mut d = doc("abcdef");
    // The range comes reversed; update must swap it and still splice.
    d.update(
        vec![ContentChange { range: Some(range(0, 4, 0, 2)), text: String::from("Z") }],
        Some(1),
    );
    assert_eq!(d.text(), "abZef");
}

#[test]
fn incremental_edits_match_full_replacement() {
    let mut a = doc("ab\ncd\nef");
    a.update(
        vec![ContentChange { range: Some(range(0, 0, 0, 1)), text: String::from("X") }],
        Some(1),
    );
    a.update(
        vec![ContentChange { range: Some(range(2, 1, 2, 2)), text: String::from("Y\nZ") }],
        Some(2),
    );
    let mut b = doc("ignored");
    b.update(
        vec![ContentChange { range: None, text: a.text() }],
        Some(2),
    );
    assert_eq!(a.text(), b.text());
    assert_eq!(a.line_offsets, b.line_offsets);
    assert_eq!(a.version(), b.version());
}

#[test]
fn get_range_returns_slice() {
    let d = doc("ab\ncd");
    assert_eq!(d.get_range(range(0, 1, 1, 1)), "b\nc");
}

#[test]
fn new_document_exposes_metadata() {
    let d = doc("x = 1");
    assert_eq!(d.uri().as_str(), "file:///t.m");
    assert_eq!(d.language_id().as_str(), "octave");
    assert_eq!(d.version(), 0);
    assert_eq!(d.text(), "x = 1");
    assert_eq!(d.line_count(), 1);
}

#[test]
fn empty_document_has_one_line() {
    let d = doc("");
    assert_eq!(d.line_count(), 1);
    assert_eq!(d.position_at(0), pos(0, 0));
    assert_eq!(d.offset_at(pos(0, 0)), 0);
}
