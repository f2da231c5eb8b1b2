use fltk_richtext::RichTextBuilder;
use fltk_richtext::Style;
use fltk_richtext::TableOverflow;

fn sized(size: i32) -> Style {
    Style {
        size,
        ..Style::default()
    }
}

#[test]
fn default_style_fields() {
    let s = Style::default();
    assert_eq!(s.color, 0);
    assert_eq!(s.font, 0);
    assert_eq!(s.size, 14);
    assert_eq!(s.attr, 0);
    assert_eq!(s.bgcolor, 7);
    assert_eq!(Style::normal(18).size, 18);
}

#[test]
fn new_builder_is_empty_with_seeded_table() {
    let b = RichTextBuilder::new();
    assert_eq!(b.text_bytes().len(), 0);
    assert_eq!(b.style_bytes().len(), 0);
    assert_eq!(b.style_table().as_slice(), &[Style::default()]);
}

#[test]
fn with_default_seeds_given_record() {
    let d = Style::normal(22);
    let b = RichTextBuilder::with_default(d);
    assert_eq!(b.style_table().as_slice(), &[d]);
}

#[test]
fn append_keeps_buffers_in_lockstep() {
    let mut b = RichTextBuilder::new();
    let s1 = sized(20);
    let s2 = sized(30);
    b.append("ab", None).unwrap();
    b.append("cd", Some(s1)).unwrap();
    b.append("", Some(s2)).unwrap();
    b.append("ef", Some(s1)).unwrap();
    assert_eq!(b.text_bytes().as_slice(), b"abcdef");
    assert_eq!(b.style_bytes().as_slice(), b"AABBBB");
    assert_eq!(b.style_bytes().len(), b.text_bytes().len());
    // every symbol of a run maps back, through the table, to the style
    // that was requested for that run
    let table = b.style_table();
    for i in 0..2 {
        assert_eq!(table[(b.style_bytes()[i] - b'A') as usize], Style::default());
    }
    for i in 2..4 {
        assert_eq!(table[(b.style_bytes()[i] - b'A') as usize], s1);
    }
    for i in 4..6 {
        assert_eq!(table[(b.style_bytes()[i] - b'A') as usize], s1);
    }
}

#[test]
fn append_empty_fragment_still_interns() {
    let mut b = RichTextBuilder::new();
    b.append("", Some(sized(33))).unwrap();
    assert_eq!(b.text_bytes().len(), 0);
    assert_eq!(b.style_bytes().len(), 0);
    assert_eq!(b.style_table().len(), 2);
}

#[test]
fn intern_is_idempotent() {
    let mut b = RichTextBuilder::new();
    let s = sized(99);
    let sym1 = b.intern(Some(s)).unwrap();
    let sym2 = b.intern(Some(s)).unwrap();
    let sym3 = b.intern(Some(s)).unwrap();
    assert_eq!(sym1, b'B');
    assert_eq!(sym2, sym1);
    assert_eq!(sym3, sym1);
    assert_eq!(b.style_table().len(), 2);
}

#[test]
fn intern_no_style_reuses_base_symbol() {
    let mut b = RichTextBuilder::new();
    let sym = b.intern(None).unwrap();
    assert_eq!(sym, b'A');
    assert_eq!(b.style_table().len(), 1);
}

#[test]
fn intern_deduplicates_by_value_equality() {
    let mut b = RichTextBuilder::new();
    // a record equal to the seeded default by value, built independently
    let twin = Style {
        color: 0,
        font: 0,
        size: 14,
        attr: 0,
        bgcolor: 7,
    };
    let sym = b.intern(Some(twin)).unwrap();
    assert_eq!(sym, b'A');
    assert_eq!(b.style_table().len(), 1);
}

#[test]
fn table_overflow_is_reported_and_changes_nothing() {
    let mut b = RichTextBuilder::new();
    for i in 0..61 {
        assert!(b.append("a", Some(sized(100 + i))).is_ok());
    }
    assert_eq!(b.style_table().len(), 62);
    let r = b.intern(Some(sized(999)));
    assert_eq!(r, Err(TableOverflow));
    assert_eq!(b.style_table().len(), 62);
    let r2 = b.append("b", Some(sized(998)));
    assert_eq!(r2, Err(TableOverflow));
    assert_eq!(b.text_bytes().len(), 61);
    // a record already in the table still interns at a full table
    assert!(b.append("b", Some(sized(100))).is_ok());
    assert_eq!(b.text_bytes().len(), 62);
    assert_eq!(*b.style_bytes().last().unwrap(), b'B');
}

#[test]
fn clear_then_append_reseeds_default() {
    let mut b = RichTextBuilder::new();
    b.append("styled", Some(sized(40))).unwrap();
    b.clear();
    assert_eq!(b.text_bytes().len(), 0);
    assert_eq!(b.style_bytes().len(), 0);
    assert_eq!(b.style_table().len(), 0);
    b.append("hi", None).unwrap();
    assert_eq!(b.style_bytes().as_slice(), b"AA");
    assert_eq!(b.style_table().as_slice(), &[Style::default()]);
}

#[test]
fn clear_keeps_custom_default_record() {
    let d = Style::normal(17);
    let mut b = RichTextBuilder::with_default(d);
    b.clear();
    b.append("x", None).unwrap();
    assert_eq!(b.style_table().as_slice(), &[d]);
}

#[test]
fn table_size_equals_distinct_records_interned() {
    let mut b = RichTextBuilder::new();
    let s1 = sized(21);
    let s2 = sized(22);
    b.append("a", Some(s1)).unwrap();
    b.append("b", Some(s2)).unwrap();
    b.append("c", Some(s1)).unwrap();
    b.append("d", None).unwrap();
    b.append("e", Some(s2)).unwrap();
    // three distinct records were interned: the default, s1 and s2
    let table = b.style_table();
    assert_eq!(table.len(), 3);
    for i in 0..table.len() {
        for j in (i + 1)..table.len() {
            assert_ne!(table[i], table[j]);
        }
    }
}
