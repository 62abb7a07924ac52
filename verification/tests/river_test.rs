use john::layout::slots_of_len;
use john::rivers::{is_storable_name, storage_path};
use john::text::{strip_line_ends, without_line_ends};
use john::{ClearCommand, PeekCommand, PushCommand, River, Rivers, StorageError, MESSAGE_SIZE};

fn slot_of(message: &str) -> Vec<u8> {
    let mut slot = message.as_bytes().to_vec();
    slot.push(b'\n');
    slot.resize(4096, 0);
    slot
}

#[test]
fn slot_width_is_4096() {
    assert_eq!(4096, MESSAGE_SIZE);
    assert_eq!(10, john::LINE_END);
}

#[test]
fn slots_are_counted_with_the_started_one() {
    assert_eq!(0, slots_of_len(0));
    assert_eq!(1, slots_of_len(1));
    assert_eq!(1, slots_of_len(4095));
    assert_eq!(1, slots_of_len(4096));
    assert_eq!(2, slots_of_len(4097));
    assert_eq!(3, slots_of_len(3 * 4096));
    assert_eq!(usize::MAX / 4096 + 1, slots_of_len(usize::MAX));
}

#[test]
fn new_river_has_no_store() {
    let river = River::new("fresh");
    assert_eq!("fresh", river.name().as_str());
    assert!(!river.is_present());
    assert!(river.bytes().is_none());
    assert_eq!(0, river.size());
}

#[test]
fn push_writes_one_whole_slot() {
    let mut river = River::new("layout");
    river.push("hello").unwrap();
    let bytes = river.bytes().unwrap();
    assert_eq!(4096, bytes.len());
    assert_eq!(&slot_of("hello"), bytes);
    assert_eq!(b"hello\n\0\0", &bytes[..8]);
    assert!(bytes[6..].iter().all(|b| *b == 0));
}

#[test]
fn push_appends_slot_after_slot() {
    let mut river = River::new("layout");
    river.push("one").unwrap();
    river.push("").unwrap();
    river.push("three").unwrap();
    let bytes = river.bytes().unwrap();
    assert_eq!(3 * 4096, bytes.len());
    assert_eq!(&slot_of("one")[..], &bytes[..4096]);
    assert_eq!(&slot_of("")[..], &bytes[4096..8192]);
    assert_eq!(&slot_of("three")[..], &bytes[8192..]);
    assert_eq!(3, river.size());
}

#[test]
fn round_trip_returns_the_last_message_and_the_count_plus_one() {
    let mut river = River::new("round trip");
    for n in 1..=20usize {
        let message = format!("message {}", n);
        river.push(&message).unwrap();
        let found = river.peek_at(None).unwrap();
        assert_eq!(message, found.message);
        assert_eq!(n + 1, found.offset);
    }
}

#[test]
fn offset_addressing_returns_each_message() {
    let mut river = River::new("addressing");
    for n in 1..=12usize {
        river.push(&format!("message {}", n)).unwrap();
    }
    for k in 1..=12usize {
        let found = river.peek_at(Some(k)).unwrap();
        assert_eq!(format!("message {}", k), found.message);
        assert_eq!(k + 1, found.offset);
    }
}

#[test]
fn out_of_range_offsets_find_nothing() {
    let mut river = River::new("range");
    assert!(river.peek_at(Some(1)).is_none());
    assert!(river.peek_at(Some(0)).is_none());
    assert!(river.peek_at(None).is_none());
    for n in 1..=3usize {
        river.push("m").unwrap();
        assert!(river.peek_at(Some(n)).is_some());
        assert!(river.peek_at(Some(n + 1)).is_none());
        assert!(river.peek_at(Some(usize::MAX)).is_none());
        assert!(river.peek_at(Some(0)).is_none());
    }
}

#[test]
fn peek_creates_an_empty_store() {
    let mut river = River::new("lazy");
    assert!(river.peek_at(None).is_none());
    assert!(river.is_present());
    assert_eq!(0, river.bytes().unwrap().len());
}

#[test]
fn destroy_removes_the_store_and_may_be_repeated() {
    let mut river = River::new("gone");
    river.push("m").unwrap();
    assert_eq!(Ok(()), river.destroy());
    assert!(!river.is_present());
    assert_eq!(Ok(()), river.destroy());
    assert!(!river.is_present());
    assert!(river.peek_at(None).is_none());
}

#[test]
fn message_of_slot_width_is_rejected_and_nothing_is_written() {
    let mut river = River::new("large");
    let large = "x".repeat(4096);
    assert_eq!(Err(StorageError::MessageTooLarge), river.push(&large));
    assert!(!river.is_present());
    let larger = "x".repeat(10000);
    assert_eq!(Err(StorageError::MessageTooLarge), river.push(&larger));
    assert!(!river.is_present());

    river.push("kept").unwrap();
    let before = river.bytes().unwrap().clone();
    assert_eq!(Err(StorageError::MessageTooLarge), river.push(&large));
    assert_eq!(&before, river.bytes().unwrap());
}

#[test]
fn largest_message_fills_its_slot() {
    let mut river = River::new("full");
    let message = "y".repeat(4095);
    assert_eq!(Ok(()), river.push(&message));
    let bytes = river.bytes().unwrap();
    assert_eq!(4096, bytes.len());
    assert_eq!(b'\n', bytes[4095]);
    let found = river.peek_at(None).unwrap();
    assert_eq!(message, found.message);
    assert_eq!(2, found.offset);
}

#[test]
fn size_counts_bytes_not_characters() {
    let mut river = River::new("wide");
    let wide = "é".repeat(2048);
    assert_eq!(4096, wide.len());
    assert_eq!(Err(StorageError::MessageTooLarge), river.push(&wide));
    let fitting = "é".repeat(2047);
    assert_eq!(Ok(()), river.push(&fitting));
    assert_eq!(fitting, river.peek_at(Some(1)).unwrap().message);
}

#[test]
fn text_beyond_ascii_comes_back() {
    let mut river = River::new("text");
    river.push("grüße, 世界 🌊").unwrap();
    let found = river.peek_at(None).unwrap();
    assert_eq!("grüße, 世界 🌊", found.message);
    assert_eq!(2, found.offset);
}

#[test]
fn message_with_a_newline_is_read_up_to_it() {
    let mut river = River::new("lines");
    river.push("first\nsecond").unwrap();
    let found = river.peek_at(None).unwrap();
    assert_eq!("first", found.message);
    assert_eq!(2, found.offset);
    river.push("\nrest").unwrap();
    assert_eq!("", river.peek_at(Some(2)).unwrap().message);
}

#[test]
fn started_slot_is_completed_before_the_next_message() {
    let mut river = River::open("torn", b"abc".to_vec());
    assert_eq!(1, river.size());
    river.push("next").unwrap();
    let bytes = river.bytes().unwrap();
    assert_eq!(2 * 4096, bytes.len());
    assert_eq!(b"abc", &bytes[..3]);
    assert!(bytes[3..4096].iter().all(|b| *b == 0));
    assert_eq!(&slot_of("next")[..], &bytes[4096..]);
    let found = river.peek_at(None).unwrap();
    assert_eq!("next", found.message);
    assert_eq!(3, found.offset);
}

#[test]
fn slot_without_a_line_end_is_read_up_to_the_next_one() {
    let mut data = vec![b'a'; 4096];
    data.extend_from_slice(&slot_of("b"));
    let mut river = River::open("run on", data);
    let found = river.peek_at(Some(1)).unwrap();
    assert_eq!(format!("{}b", "a".repeat(4096)), found.message);
    assert_eq!(2, found.offset);
}

#[test]
fn slot_that_is_no_text_finds_nothing() {
    let mut data = vec![0xff, 0xfe, b'\n'];
    data.resize(4096, 0);
    data.extend_from_slice(&slot_of("fine"));
    let mut river = River::open("binary", data);
    assert!(river.peek_at(Some(1)).is_none());
    assert_eq!("fine", river.peek_at(Some(2)).unwrap().message);
    assert_eq!("fine", river.peek_at(None).unwrap().message);
}

#[test]
fn helpers_of_peek() {
    let mut river = River::new("parts");
    river.push("one").unwrap();
    river.push("two").unwrap();
    river.push("three").unwrap();

    assert_eq!(Some(2), river.get_actual_offset(None));
    assert_eq!(Some(0), river.get_actual_offset(Some(1)));
    assert_eq!(Some(1), river.get_actual_offset(Some(2)));
    assert_eq!(Some(2), river.get_actual_offset(Some(3)));
    assert_eq!(Some(2), river.get_actual_offset(Some(10)));
    assert_eq!(None, river.get_actual_offset(Some(0)));

    assert_eq!(Some(8192), river.get_seek_offset(None));
    assert_eq!(Some(0), river.get_seek_offset(Some(1)));
    assert_eq!(Some(4096), river.get_seek_offset(Some(2)));
    assert_eq!(Some(8192), river.get_seek_offset(Some(10)));
    assert_eq!(None, river.get_seek_offset(Some(0)));

    assert!(river.are_offsets_match(0, Some(1)));
    assert!(river.are_offsets_match(2, Some(3)));
    assert!(!river.are_offsets_match(2, Some(10)));
    assert!(!river.are_offsets_match(0, Some(0)));
    assert!(!river.are_offsets_match(usize::MAX, Some(0)));
    assert!(river.are_offsets_match(7, None));

    assert_eq!(Some("two".to_string()), river.seek_and_read_line(Some(2)));
    assert_eq!(Some("three".to_string()), river.seek_and_read_line(Some(10)));
    assert_eq!(None, river.seek_and_read_line(Some(0)));
    assert_eq!(Some((1, "two".to_string())), river.get_line(Some(2)));
    assert_eq!(Some((2, "three".to_string())), river.get_line(None));
    assert_eq!(Some("wo".to_string()), river.read_line(4097));
    assert_eq!(Some(String::new()), river.read_line(3 * 4096));
    assert_eq!(Some(String::new()), river.read_line(usize::MAX));

    let mut buf = vec![b'>'];
    assert!(river.read_one_byte_to_buf(0, &mut buf));
    assert_eq!(b">o".to_vec(), buf);
    assert!(!river.read_one_byte_to_buf(3, &mut buf));
    assert!(!river.read_one_byte_to_buf(3 * 4096, &mut buf));
    assert_eq!(b">o".to_vec(), buf);
    river.read_to_buf_until_eol(8192, &mut buf);
    assert_eq!(b">othree".to_vec(), buf);

    assert_eq!(Some("ok".to_string()), river.convert_buf_to_string(b"ok".to_vec()));
    assert_eq!(None, river.convert_buf_to_string(vec![0xc3]));
}

#[test]
fn abundant_bytes_complete_a_slot() {
    let river = River::new("padding");
    let padding = river.abundant_bytes(0);
    assert_eq!(4096, padding.len());
    assert_eq!(b'\n', padding[0]);
    assert!(padding[1..].iter().all(|b| *b == 0));
    assert_eq!(vec![b'\n'], river.abundant_bytes(4095));
    assert_eq!(vec![b'\n', 0, 0], river.abundant_bytes(4093));

    let mut river = River::open("padding", b"abc".to_vec());
    river.write_abundant_bytes(3);
    assert_eq!(&slot_of("abc"), river.bytes().unwrap());
}

#[test]
fn form_peek_result_checks_the_offset_and_strips_newlines() {
    let river = River::new("form");
    let formed = river.form_peek_result("a\nb\n".to_string(), 4, Some(5)).unwrap();
    assert_eq!("ab", formed.message);
    assert_eq!(6, formed.offset);
    let formed = river.form_peek_result("plain".to_string(), 0, None).unwrap();
    assert_eq!("plain", formed.message);
    assert_eq!(2, formed.offset);
    assert!(river.form_peek_result("plain".to_string(), 4, Some(9)).is_none());
    assert!(river.form_peek_result("plain".to_string(), 0, Some(0)).is_none());
}

#[test]
fn line_ends_are_taken_out() {
    assert_eq!(b"ab".to_vec(), strip_line_ends(b"\na\n\nb\n"));
    assert_eq!(Vec::<u8>::new(), strip_line_ends(b"\n\n"));
    assert_eq!(b"a\rb".to_vec(), strip_line_ends(b"a\rb"));
    assert_eq!("héllo wörld", without_line_ends("hé\nllo wörld\n"));
    assert_eq!("", without_line_ends(""));
    assert_eq!("🌊🌊", without_line_ends("🌊\n🌊"));
}

#[test]
fn peek_result_clones_to_an_equal_one() {
    let mut river = River::new("clone");
    river.push("copy me").unwrap();
    let found = river.peek_at(None).unwrap();
    let copy = found.clone();
    assert_eq!(found.message, copy.message);
    assert_eq!(found.offset, copy.offset);
}

#[test]
fn rivers_are_apart() {
    let mut rivers = Rivers::new();
    PushCommand::new().execute(&mut rivers, "a", "to a").unwrap();
    PushCommand::new().execute(&mut rivers, "b", "to b").unwrap();
    PushCommand::new().execute(&mut rivers, "a", "to a again").unwrap();
    assert!(rivers.contains("a"));
    assert!(rivers.contains("b"));
    assert!(!rivers.contains("c"));
    assert_eq!("to b", PeekCommand::new().execute(&mut rivers, "b", None).unwrap().message);
    assert_eq!(3, PeekCommand::new().execute(&mut rivers, "a", None).unwrap().offset);

    ClearCommand::new().execute(&mut rivers, "a").unwrap();
    assert!(!rivers.contains("a"));
    assert!(rivers.contains("b"));
    assert_eq!(4096, rivers.bytes("b").unwrap().len());
    assert!(rivers.bytes("a").is_none());
    assert_eq!("to b", PeekCommand::new().execute(&mut rivers, "b", Some(1)).unwrap().message);
}

#[test]
fn clear_is_idempotent_and_peek_finds_nothing_after_it() {
    let mut rivers = Rivers::new();
    PushCommand::new().execute(&mut rivers, "r", "m").unwrap();
    ClearCommand::new().execute(&mut rivers, "r").unwrap();
    assert!(!rivers.contains("r"));
    assert!(PeekCommand::new().execute(&mut rivers, "r", None).is_none());
    ClearCommand::new().execute(&mut rivers, "r").unwrap();
    assert!(!rivers.contains("r"));
    assert!(PeekCommand::new().execute(&mut rivers, "r", None).is_none());
    assert!(rivers.contains("r"));
    assert_eq!(0, rivers.bytes("r").unwrap().len());
}

#[test]
fn too_large_message_leaves_the_rivers_as_they_were() {
    let mut rivers = Rivers::new();
    let large = "x".repeat(4096);
    assert_eq!(
        Err(StorageError::MessageTooLarge),
        PushCommand::new().execute(&mut rivers, "r", &large)
    );
    assert!(!rivers.contains("r"));
    PushCommand::new().execute(&mut rivers, "r", "kept").unwrap();
    assert_eq!(
        Err(StorageError::MessageTooLarge),
        PushCommand::new().execute(&mut rivers, "r", &large)
    );
    assert_eq!(4096, rivers.bytes("r").unwrap().len());
    assert_eq!(2, PeekCommand::new().execute(&mut rivers, "r", None).unwrap().offset);
}

#[test]
fn opened_store_replaces_the_one_that_was_there() {
    let mut rivers = Rivers::new();
    PushCommand::new().execute(&mut rivers, "r", "old").unwrap();
    rivers.open("r", slot_of("loaded"));
    rivers.open("s", Vec::new());
    assert!(rivers.contains("s"));
    assert_eq!("loaded", PeekCommand::new().execute(&mut rivers, "r", None).unwrap().message);
    assert!(PeekCommand::new().execute(&mut rivers, "s", None).is_none());
}

#[test]
fn names_that_name_a_file_under_the_stores() {
    assert!(is_storable_name("a river"));
    assert!(is_storable_name("river.log"));
    assert!(is_storable_name("..."));
    assert!(is_storable_name(".hidden"));
    assert!(is_storable_name("fluß"));
    assert!(!is_storable_name(""));
    assert!(!is_storable_name("."));
    assert!(!is_storable_name(".."));
    assert!(!is_storable_name("../etc/passwd"));
    assert!(!is_storable_name("a/b"));
    assert!(!is_storable_name("/"));
    assert!(!is_storable_name("a\\b"));
    assert!(!is_storable_name("a\0b"));
}

#[test]
fn stores_are_kept_under_one_directory() {
    assert_eq!(Some("./tmp/rivers/a river".to_string()), storage_path("a river"));
    assert_eq!(Some("./tmp/rivers/..a".to_string()), storage_path("..a"));
    assert_eq!(None, storage_path(".."));
    assert_eq!(None, storage_path("up/../../there"));
    assert_eq!(None, storage_path(""));
}

#[test]
fn first_line_of_each_message_is_kept() {
    let mut river = River::new("lines");
    let messages = ["plain", "two\nlines", "\nempty first", "trailing\n", "é\nü", ""];
    let lines = ["plain", "two", "", "trailing", "é", ""];
    for message in messages.iter() {
        river.push(message).unwrap();
    }
    for k in 1..=messages.len() {
        let found = river.peek_at(Some(k)).unwrap();
        assert_eq!(lines[k - 1], found.message);
        assert_eq!(k + 1, found.offset);
    }
    assert_eq!("", river.peek_at(None).unwrap().message);
    assert_eq!(7, river.peek_at(None).unwrap().offset);
}
