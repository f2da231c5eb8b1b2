use fltk_richtext::RichTextBuilder;
use fltk_richtext::RichTextDisplay;
use fltk_richtext::Style;

fn red() -> Style {
    Style {
        color: 1,
        ..Style::default()
    }
}

#[test]
fn replace_first_substitutes_single_occurrence() {
    let mut b = RichTextBuilder::new();
    b.append("one x here", None).unwrap();
    b.replace_first("x", "y", Some(red())).unwrap();
    assert_eq!(b.text_bytes().as_slice(), b"one y here");
    assert_eq!(b.style_bytes().len(), b.text_bytes().len());
    assert_eq!(b.style_bytes().as_slice(), b"AAAABAAAAA");
}

#[test]
fn replace_first_without_occurrence_is_a_no_op() {
    let mut b = RichTextBuilder::new();
    b.append("abc", None).unwrap();
    let text_before = b.text_bytes().clone();
    let styles_before = b.style_bytes().clone();
    let table_before = b.style_table().clone();
    b.replace_first("x", "y", Some(red())).unwrap();
    assert_eq!(b.text_bytes(), &text_before);
    assert_eq!(b.style_bytes(), &styles_before);
    assert_eq!(b.style_table(), &table_before);
}

#[test]
fn replace_first_splices_with_longer_replacement() {
    let mut b = RichTextBuilder::new();
    b.append("abc", None).unwrap();
    b.replace_first("b", "zz", Some(red())).unwrap();
    assert_eq!(b.text_bytes().as_slice(), b"azzc");
    assert_eq!(b.style_bytes().as_slice(), b"ABBA");
}

#[test]
fn replace_first_splices_with_shorter_replacement() {
    let mut b = RichTextBuilder::new();
    b.append("abcd", None).unwrap();
    b.replace_first("cd", "e", Some(red())).unwrap();
    assert_eq!(b.text_bytes().as_slice(), b"abe");
    assert_eq!(b.style_bytes().as_slice(), b"AAB");
}

#[test]
fn replace_first_only_touches_leftmost_occurrence() {
    let mut b = RichTextBuilder::new();
    b.append("aXbXc", None).unwrap();
    b.replace_first("X", "-", Some(red())).unwrap();
    assert_eq!(b.text_bytes().as_slice(), b"a-bXc");
    assert_eq!(b.style_bytes().as_slice(), b"ABAAA");
}

#[test]
fn replace_first_with_empty_pattern_inserts_at_front() {
    let mut b = RichTextBuilder::new();
    b.append("ab", None).unwrap();
    b.replace_first("", "x", Some(red())).unwrap();
    assert_eq!(b.text_bytes().as_slice(), b"xab");
    assert_eq!(b.style_bytes().as_slice(), b"BAA");
}

#[test]
fn replace_all_substitutes_every_bullet() {
    let mut b = RichTextBuilder::new();
    b.append("- Point 1\n- Point 2\n", None).unwrap();
    b.replace_all("-", "  \u{2022}", Some(red())).unwrap();
    let expect = "  \u{2022} Point 1\n  \u{2022} Point 2\n";
    assert_eq!(b.text_bytes().as_slice(), expect.as_bytes());
    assert_eq!(b.style_bytes().len(), b.text_bytes().len());
    // the bullet is three bytes, so each replaced span carries five
    // symbols of the replacement style
    let mut styles = Vec::new();
    styles.extend_from_slice(b"BBBBB");
    styles.extend_from_slice(b"AAAAAAAAA");
    styles.extend_from_slice(b"BBBBB");
    styles.extend_from_slice(b"AAAAAAAAA");
    assert_eq!(b.style_bytes().as_slice(), styles.as_slice());
}

#[test]
fn replace_all_without_occurrence_is_a_no_op() {
    let mut b = RichTextBuilder::new();
    b.append("plain text", None).unwrap();
    let text_before = b.text_bytes().clone();
    let table_before = b.style_table().clone();
    b.replace_all("-", "x", Some(red())).unwrap();
    assert_eq!(b.text_bytes(), &text_before);
    assert_eq!(b.style_table(), &table_before);
}

#[test]
fn replace_all_handles_adjacent_occurrences() {
    let mut b = RichTextBuilder::new();
    b.append("--a--", None).unwrap();
    b.replace_all("-", "=+", Some(red())).unwrap();
    assert_eq!(b.text_bytes().as_slice(), b"=+=+a=+=+");
    assert_eq!(b.style_bytes().as_slice(), b"BBBBABBBB");
}

#[test]
fn replace_all_with_shrinking_replacement_strips_markup() {
    let mut b = RichTextBuilder::new();
    let heading = Style {
        font: 1,
        size: 16,
        ..Style::default()
    };
    b.append("# Heading\nbody\n", None).unwrap();
    b.replace_all("# Heading", "Heading", Some(heading)).unwrap();
    assert_eq!(b.text_bytes().as_slice(), b"Heading\nbody\n");
    assert_eq!(b.style_bytes().as_slice(), b"BBBBBBBAAAAAA");
    assert_eq!(b.style_table().len(), 2);
    assert_eq!(b.style_table()[1], heading);
}

#[test]
fn replace_all_advance_by_one_can_pass_over_uncovered_occurrence() {
    // the search resumes one position past the start of the last match,
    // not past the replacement, so an occurrence that the splice uncovers
    // behind that point survives — documented behavior of the cascade
    let mut b = RichTextBuilder::new();
    b.append("aab", None).unwrap();
    b.replace_all("ab", "b", Some(red())).unwrap();
    assert_eq!(b.text_bytes().as_slice(), b"ab");
    assert_eq!(b.style_bytes().as_slice(), b"AB");
}

struct BufferSink {
    text: Vec<u8>,
    styles: Vec<u8>,
    table: Vec<Style>,
}

impl RichTextDisplay for BufferSink {
    fn set_rich_text(&mut self, doc: RichTextBuilder) {
        self.text = doc.text_bytes().clone();
        self.styles = doc.style_bytes().clone();
        self.table = doc.style_table().clone();
    }
}

#[test]
fn apply_exposes_deduplicated_table() {
    let mut b = RichTextBuilder::new();
    let bold = Style {
        font: 1,
        ..Style::default()
    };
    b.append("title\n", Some(bold)).unwrap();
    b.append("body ", None).unwrap();
    b.append("more body", None).unwrap();
    b.append("!", Some(bold)).unwrap();
    let mut sink = BufferSink {
        text: Vec::new(),
        styles: Vec::new(),
        table: Vec::new(),
    };
    sink.set_rich_text(b);
    assert_eq!(sink.text.as_slice(), b"title\nbody more body!");
    assert_eq!(sink.styles.len(), sink.text.len());
    // two distinct records were interned, and the handed-over table holds
    // exactly those, without duplicates or extras
    assert_eq!(sink.table.len(), 2);
    assert_eq!(sink.table[0], Style::default());
    assert_eq!(sink.table[1], bold);
    // every symbol in use names a live table entry
    for &sym in sink.styles.iter() {
        assert!(((sym - b'A') as usize) < sink.table.len());
    }
}
