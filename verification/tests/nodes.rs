use wiiarc::archive::read::ReadInfo;
use wiiarc::bytes::{
    extract_name, read_content, read_entry, read_text, read_u32_at, ByteCursor,
};
use wiiarc::error::DecodeError;
use wiiarc::wiifs::objs::{
    new_dir, new_empty_dir, new_empty_file, new_empty_root, new_file, new_root,
};
use wiiarc::wiifs::WiiFSObjectType;

#[test]
fn constructors_build_each_kind() {
    let f = new_file(String::from("a.bin"), vec![1, 2, 3]);
    assert_eq!(f.name(), "a.bin");
    assert!(matches!(f.obj_type(), WiiFSObjectType::File(b) if b == &vec![1u8, 2, 3]));
    assert!(!f.is_root());
    assert!(!f.can_have_children());
    assert_eq!(f.children().len(), 0);

    let e = new_empty_file(String::from("e"));
    assert!(matches!(e.obj_type(), WiiFSObjectType::File(b) if b.is_empty()));

    let d = new_empty_dir(String::from("d"));
    assert_eq!(d.name(), "d");
    assert!(matches!(d.obj_type(), WiiFSObjectType::Folder));
    assert!(!d.is_root());
    assert!(d.can_have_children());
    assert_eq!(d.children().len(), 0);

    let r = new_empty_root();
    assert_eq!(r.name(), "<root>");
    assert!(matches!(r.obj_type(), WiiFSObjectType::FolderRoot));
    assert!(r.is_root());
    assert!(r.can_have_children());
    assert_eq!(r.children().len(), 0);
}

#[test]
fn new_dir_keeps_children_and_picks_kind() {
    let kids = vec![new_empty_file(String::from("x")), new_empty_dir(String::from("y"))];
    let d = new_dir(String::from("top"), false, kids);
    assert!(matches!(d.obj_type(), WiiFSObjectType::Folder));
    assert_eq!(d.children().len(), 2);
    assert_eq!(d.children()[0].name(), "x");
    assert_eq!(d.children()[1].name(), "y");

    let r = new_dir(String::from("named"), true, Vec::new());
    assert!(r.is_root());
    assert_eq!(r.name(), "named");

    let root = new_root(vec![new_empty_file(String::from("z"))]);
    assert!(root.is_root());
    assert_eq!(root.name(), "<root>");
    assert_eq!(root.children().len(), 1);
    assert_eq!(root.children()[0].name(), "z");
}

#[test]
fn push_child_appends_in_order() {
    let mut d = new_empty_dir(String::from("d"));
    d.push_child(new_empty_file(String::from("first")));
    d.push_child(new_empty_dir(String::from("second")));
    assert_eq!(d.children().len(), 2);
    assert_eq!(d.children()[0].name(), "first");
    assert_eq!(d.children()[1].name(), "second");
}

#[test]
fn push_child_rejects_root_as_child() {
    let mut d = new_empty_dir(String::from("d"));
    d.push_child(new_empty_root());
    assert_eq!(d.children().len(), 0);
    let mut r = new_empty_root();
    r.push_child(new_empty_root());
    assert_eq!(r.children().len(), 0);
    r.push_child(new_root(vec![new_empty_file(String::from("x"))]));
    assert_eq!(r.children().len(), 0);
    r.push_child(new_empty_dir(String::from("ok")));
    assert_eq!(r.children().len(), 1);
    assert!(r.is_root());
}

#[test]
fn push_child_rejects_child_of_file() {
    let mut f = new_file(String::from("f"), vec![1]);
    f.push_child(new_empty_file(String::from("x")));
    f.push_child(new_empty_dir(String::from("y")));
    assert_eq!(f.children().len(), 0);
    assert!(matches!(f.obj_type(), WiiFSObjectType::File(b) if b == &vec![1u8]));
}

#[test]
fn read_info_counts_from_one() {
    let mut info = ReadInfo::new();
    assert_eq!(info.current_node(), 1);
    assert!(info.string_table().is_none());
    info.increment_node();
    info.increment_node();
    assert_eq!(info.current_node(), 3);
    info.init_string_table(String::from("abc\0"));
    assert_eq!(info.string_table().as_deref(), Some("abc\0"));
    assert_eq!(info.current_node(), 3);
}

#[test]
fn words_are_big_endian() {
    let data = [0x12u8, 0x34, 0x56, 0x78, 0x9A];
    assert_eq!(read_u32_at(&data, 0), Some(0x1234_5678));
    assert_eq!(read_u32_at(&data, 1), Some(0x3456_789A));
    assert_eq!(read_u32_at(&data, 2), None);
    assert_eq!(read_u32_at(&data, u64::MAX), None);
    assert_eq!(read_u32_at(&data[..3], 0), None);
    assert_eq!(read_u32_at(&[0, 0, 1, 0], 0), Some(256));
    assert_eq!(read_u32_at(&[0xFF, 0xFF, 0xFF, 0xFF], 0), Some(u32::MAX));
}

#[test]
fn entry_splits_tag_and_name_offset() {
    let data = [0u8, 0x01, 0x02, 0x03, 0x04, 0, 0, 0, 0x10, 0, 0, 1, 0x00, 0xEE];
    let e = read_entry(&data, 1).unwrap();
    assert_eq!(e.word, 0x0102_0304);
    assert_eq!(e.tag(), 1);
    assert_eq!(e.name_offset(), 0x02_0304);
    assert_eq!(e.field_b, 0x10);
    assert_eq!(e.field_c, 256);
    assert!(read_entry(&data, 3).is_none());
    assert!(read_entry(&data, 2).is_some());
    assert!(read_entry(&data[..11], 0).is_none());
}

#[test]
fn names_end_at_nul_or_pool_end() {
    let pool = "abc\0def\0";
    assert_eq!(extract_name(pool, 0), Ok(String::from("abc")));
    assert_eq!(extract_name(pool, 4), Ok(String::from("def")));
    assert_eq!(extract_name(pool, 1), Ok(String::from("bc")));
    assert_eq!(extract_name(pool, 3), Ok(String::new()));
    assert_eq!(extract_name(pool, 8), Ok(String::new()));
    assert_eq!(extract_name(pool, 9), Ok(String::new()));
    assert_eq!(extract_name(pool, 0xFF_FFFF), Ok(String::new()));
    assert_eq!(extract_name("tail", 1), Ok(String::from("ail")));
    assert_eq!(extract_name("", 0), Ok(String::new()));
}

#[test]
fn name_offsets_count_bytes() {
    // the first character takes two bytes
    let pool = "\u{e9}\0ab\0";
    assert_eq!(extract_name(pool, 0), Ok(String::from("\u{e9}")));
    assert_eq!(extract_name(pool, 2), Ok(String::new()));
    assert_eq!(extract_name(pool, 3), Ok(String::from("ab")));
    assert_eq!(extract_name(pool, 4), Ok(String::from("b")));
    let pool = "a\u{20ac}z";
    assert_eq!(extract_name(pool, 1), Ok(String::from("\u{20ac}z")));
    assert_eq!(extract_name(pool, 4), Ok(String::from("z")));
}

#[test]
fn name_offset_inside_character_is_an_error() {
    let pool = "\u{e9}\0ab\0";
    assert_eq!(extract_name(pool, 1), Err(DecodeError::NameOffset(1)));
    let pool = "a\u{20ac}z";
    assert_eq!(extract_name(pool, 2), Err(DecodeError::NameOffset(2)));
    assert_eq!(extract_name(pool, 3), Err(DecodeError::NameOffset(3)));
}

#[test]
fn content_is_the_exact_range_or_nothing() {
    let data = [1u8, 2, 3, 4, 5];
    assert_eq!(read_content(&data, 1, 3), Some(vec![2, 3, 4]));
    assert_eq!(read_content(&data, 0, 5), Some(vec![1, 2, 3, 4, 5]));
    assert_eq!(read_content(&data, 4, 1), Some(vec![5]));
    assert_eq!(read_content(&data, 2, 0), Some(Vec::new()));
    assert_eq!(read_content(&data, 5, 0), Some(Vec::new()));
    assert_eq!(read_content(&data, 3, 10), None);
    assert_eq!(read_content(&data, 0, 6), None);
    assert_eq!(read_content(&data, 5, 1), None);
    assert_eq!(read_content(&data, 6, 0), None);
    assert_eq!(read_content(&data, u32::MAX, u32::MAX), None);
}

#[test]
fn text_is_decoded_or_refused() {
    let data = [b'h', b'i', 0, 0xC3, 0xA9, 0xFF];
    assert_eq!(read_text(&data, 0, 3), Ok(String::from("hi\0")));
    assert_eq!(read_text(&data, 3, 5), Ok(String::from("\u{e9}")));
    assert_eq!(read_text(&data, 2, 2), Ok(String::new()));
    assert_eq!(read_text(&data, 3, 4), Err(DecodeError::InvalidText));
    assert_eq!(read_text(&data, 5, 6), Err(DecodeError::InvalidText));
    assert_eq!(read_text(&data, 4, 3), Err(DecodeError::OutOfBounds));
    assert_eq!(read_text(&data, 0, 7), Err(DecodeError::OutOfBounds));
}

#[test]
fn cursor_reads_words_in_sequence() {
    let data = [0xAAu8, 0, 0, 0, 1, 0, 0, 2, 0, 0xBB];
    let mut cursor = ByteCursor::new(&data);
    assert_eq!(cursor.position(), 0);
    cursor.set_position(1);
    assert_eq!(cursor.read_u32(), Ok(1));
    assert_eq!(cursor.position(), 5);
    assert_eq!(cursor.read_u32(), Ok(0x200));
    assert_eq!(cursor.position(), 9);
    assert_eq!(cursor.get_ref().len(), 10);
}

#[test]
fn cursor_read_past_end_fails_and_stays() {
    let data = [1u8, 2, 3, 4, 5];
    let mut cursor = ByteCursor::new(&data);
    cursor.set_position(2);
    assert_eq!(cursor.read_u32(), Err(DecodeError::OutOfBounds));
    assert_eq!(cursor.position(), 2);
    cursor.set_position(1);
    assert_eq!(cursor.read_u32(), Ok(0x0203_0405));
    assert_eq!(cursor.position(), 5);
    assert_eq!(cursor.read_u32(), Err(DecodeError::OutOfBounds));
    cursor.set_position(u64::MAX);
    assert_eq!(cursor.read_u32(), Err(DecodeError::OutOfBounds));
    assert_eq!(cursor.position(), u64::MAX);
}
