use obswiki::meta::{decode_metadata, Date, MetadataError};
use obswiki::site::Layout;

fn v(s: &str) -> Vec<u8> {
    s.as_bytes().to_vec()
}

#[test]
fn empty_block_decodes_to_defaults() {
    let m = decode_metadata(b"").ok().unwrap();
    assert!(m.date.is_none());
    assert!(m.tags.is_empty());
    assert!(m.aliases.is_empty());
    assert!(m.layout.is_none());
    assert!(m.permalink.is_none());
    assert!(!m.private);
}

#[test]
fn absent_optional_fields_never_fail() {
    let m = decode_metadata(b"permalink: /here\n").ok().unwrap();
    assert_eq!(m.permalink, Some(v("/here")));
    assert!(m.date.is_none());
    assert!(m.tags.is_empty());
    assert!(m.aliases.is_empty());
    assert!(m.layout.is_none());
    assert!(!m.private);
}

#[test]
fn full_block_decodes_every_field() {
    let block = b"date: 2021-03-04\ntags: [a, b]\naliases: [\"Home\", other]\nlayout: Index\npermalink: /x\nprivate: true\n";
    let m = decode_metadata(block).ok().unwrap();
    assert_eq!(m.date, Some(Date { year: 2021, month: 3, day: 4 }));
    assert_eq!(m.tags, vec![v("a"), v("b")]);
    assert_eq!(m.aliases, vec![v("Home"), v("other")]);
    assert_eq!(m.layout, Some(Layout::Index));
    assert_eq!(m.permalink, Some(v("/x")));
    assert!(m.private);
}

#[test]
fn unknown_keys_are_ignored() {
    let m = decode_metadata(b"color: blue\nshape: [weird\n").ok().unwrap();
    assert!(m.date.is_none());
    assert!(!m.private);
}

#[test]
fn blank_lines_are_skipped() {
    let m = decode_metadata(b"\n   \nprivate: true\n\n").ok().unwrap();
    assert!(m.private);
}

#[test]
fn bad_date_shape_fails() {
    let r = decode_metadata(b"date: yesterday\n");
    assert_eq!(r.err().unwrap(), MetadataError::BadDate);
}

#[test]
fn impossible_calendar_day_fails() {
    let r = decode_metadata(b"date: 2021-02-29\n");
    assert_eq!(r.err().unwrap(), MetadataError::BadDate);
    let r = decode_metadata(b"date: 2021-13-01\n");
    assert_eq!(r.err().unwrap(), MetadataError::BadDate);
    let r = decode_metadata(b"date: 2021-04-31\n");
    assert_eq!(r.err().unwrap(), MetadataError::BadDate);
}

#[test]
fn leap_day_is_accepted() {
    let m = decode_metadata(b"date: 2020-02-29\n").ok().unwrap();
    assert_eq!(m.date, Some(Date { year: 2020, month: 2, day: 29 }));
    let r = decode_metadata(b"date: 1900-02-29\n");
    assert_eq!(r.err().unwrap(), MetadataError::BadDate);
    let m = decode_metadata(b"date: 2000-02-29\n").ok().unwrap();
    assert_eq!(m.date, Some(Date { year: 2000, month: 2, day: 29 }));
}

#[test]
fn scalar_where_list_expected_fails() {
    let r = decode_metadata(b"tags: notalist\n");
    assert_eq!(r.err().unwrap(), MetadataError::BadList);
}

#[test]
fn empty_list_item_fails() {
    let r = decode_metadata(b"aliases: [a,,b]\n");
    assert_eq!(r.err().unwrap(), MetadataError::BadList);
}

#[test]
fn empty_brackets_decode_to_empty_list() {
    let m = decode_metadata(b"tags: [ ]\n").ok().unwrap();
    assert!(m.tags.is_empty());
}

#[test]
fn unknown_layout_fails() {
    let r = decode_metadata(b"layout: Fancy\n");
    assert_eq!(r.err().unwrap(), MetadataError::BadLayout);
    let m = decode_metadata(b"layout: Article\n").ok().unwrap();
    assert_eq!(m.layout, Some(Layout::Article));
}

#[test]
fn non_boolean_private_fails() {
    let r = decode_metadata(b"private: maybe\n");
    assert_eq!(r.err().unwrap(), MetadataError::BadFlag);
    let m = decode_metadata(b"private: false\n").ok().unwrap();
    assert!(!m.private);
}

#[test]
fn line_without_separator_fails() {
    let r = decode_metadata(b"justsometext\n");
    assert_eq!(r.err().unwrap(), MetadataError::MissingColon);
}

#[test]
fn first_offending_line_decides_the_error() {
    let r = decode_metadata(b"date: nope\ntags: alsonotalist\n");
    assert_eq!(r.err().unwrap(), MetadataError::BadDate);
}
