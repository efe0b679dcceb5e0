use localoco::compiler::{break_down, encode, put_str, ParseError};
use localoco::strings::{decode_length, decode_string, Strings};

/// The record of the table `en` / `English` with the one entry `a` -> `b`.
fn small_record() -> Vec<u8> {
    let mut bytes = vec![0xFF, 0x27, 0xFF, 0, 0, 0, 0, 0, 0, 0, 38];
    bytes.extend_from_slice(&[0, 0, 0, 7]);
    bytes.extend_from_slice(b"English");
    bytes.extend_from_slice(&[0, 0, 0, 2]);
    bytes.extend_from_slice(b"en");
    bytes.extend_from_slice(&[0, 0, 0, 1, b'a']);
    bytes.extend_from_slice(&[0, 0, 0, 1, b'b']);
    bytes
}

fn small_table() -> Strings {
    let mut s = Strings::new("en", "English");
    s.add_string("a", "b");
    s
}

fn sample_table() -> Strings {
    let mut s = Strings::new("zh_CN", "简体中文");
    s.add_string("ui.hello", "你好, {0}!");
    s.add_string("ui.cancel", "取消");
    s.add_string("", "");
    s.add_string("long", &"x".repeat(70000));
    s
}

fn load_error(bytes: &[u8]) -> ParseError {
    match Strings::load(bytes) {
        Ok(_) => panic!("the bytes were read as a table"),
        Err(e) => e,
    }
}

fn total_of(bytes: &[u8]) -> u64 {
    let mut total: u64 = 0;
    for b in &bytes[3..11] {
        total = total * 256 + *b as u64;
    }
    total
}

#[test]
fn break_down_gives_the_bytes_most_significant_first() {
    assert_eq!(break_down(0x01020304), (1, 2, 3, 4));
    assert_eq!(break_down(0), (0, 0, 0, 0));
    assert_eq!(break_down(255), (0, 0, 0, 255));
    assert_eq!(break_down(256), (0, 0, 1, 0));
    assert_eq!(break_down(0xFFFFFFFF), (255, 255, 255, 255));
    assert_eq!(break_down(0x80000000), (128, 0, 0, 0));
}

#[test]
fn put_str_writes_length_and_bytes() {
    let mut dist = vec![9u8];
    assert_eq!(put_str(&mut dist, "abc"), Ok(()));
    assert_eq!(dist, vec![9, 0, 0, 0, 3, b'a', b'b', b'c']);
    assert_eq!(put_str(&mut dist, ""), Ok(()));
    assert_eq!(dist, vec![9, 0, 0, 0, 3, b'a', b'b', b'c', 0, 0, 0, 0]);
}

#[test]
fn put_str_counts_bytes_not_characters() {
    let mut dist = Vec::new();
    assert_eq!(put_str(&mut dist, "é✓"), Ok(()));
    assert_eq!(dist, vec![0, 0, 0, 5, 0xC3, 0xA9, 0xE2, 0x9C, 0x93]);
    let mut long = Vec::new();
    assert_eq!(put_str(&mut long, &"y".repeat(0x10203)), Ok(()));
    assert_eq!(&long[..4], &[0, 1, 2, 3]);
    assert_eq!(long.len(), 4 + 0x10203);
}

#[test]
fn decode_length_reads_four_bytes() {
    assert_eq!(decode_length(&[0, 0, 1, 2], 0), Ok((258, 4)));
    assert_eq!(decode_length(&[7, 0xFF, 0xFF, 0xFF, 0xFF], 1), Ok((0xFFFFFFFF, 4)));
    assert_eq!(decode_length(&[7, 1, 2, 3, 4, 9], 1), Ok((0x01020304, 4)));
}

#[test]
fn decode_length_stops_at_the_end() {
    assert_eq!(decode_length(&[0, 0, 1], 0), Err(ParseError::Truncated));
    assert_eq!(decode_length(&[0, 0, 1, 2], 1), Err(ParseError::Truncated));
    assert_eq!(decode_length(&[], 0), Err(ParseError::Truncated));
    assert_eq!(decode_length(&[0, 0, 0, 0], usize::MAX), Err(ParseError::Truncated));
}

#[test]
fn decode_string_reads_a_field() {
    assert_eq!(decode_string(&[0, 0, 0, 2, b'h', b'i', 1], 0), Ok(("hi".to_string(), 6)));
    assert_eq!(decode_string(&[9, 9, 0, 0, 0, 0], 2), Ok((String::new(), 4)));
    assert_eq!(
        decode_string(&[0, 0, 0, 3, 0xE2, 0x9C, 0x93], 0),
        Ok(("✓".to_string(), 7))
    );
}

#[test]
fn decode_string_stops_at_the_end() {
    assert_eq!(decode_string(&[0, 0, 0, 3, b'h', b'i'], 0), Err(ParseError::Truncated));
    assert_eq!(decode_string(&[0, 0, 0], 0), Err(ParseError::Truncated));
    assert_eq!(decode_string(&[0, 0, 0, 0], 4), Err(ParseError::Truncated));
    assert_eq!(
        decode_string(&[0xFF, 0xFF, 0xFF, 0xFF, 1, 2, 3], 0),
        Err(ParseError::Truncated)
    );
}

#[test]
fn decode_string_repairs_bytes_that_are_no_text() {
    assert_eq!(
        decode_string(&[0, 0, 0, 3, b'a', 0xFF, b'b'], 0),
        Ok(("a\u{FFFD}b".to_string(), 7))
    );
}

#[test]
fn encode_lays_the_record_out() {
    let entries = vec![("a".to_string(), "b".to_string())];
    assert_eq!(encode("English", "en", &entries), Ok(small_record()));
    assert_eq!(small_table().encode(), Ok(small_record()));
}

#[test]
fn encode_of_an_empty_table() {
    let bytes = Strings::new("", "").encode().unwrap();
    assert_eq!(
        bytes,
        vec![0xFF, 0x27, 0xFF, 0, 0, 0, 0, 0, 0, 0, 19, 0, 0, 0, 0, 0, 0, 0, 0]
    );
}

#[test]
fn encode_keeps_the_order_of_the_entries() {
    let mut s = Strings::new("x", "y");
    s.add_string("2", "b");
    s.add_string("1", "a");
    let bytes = s.encode().unwrap();
    assert_eq!(
        &bytes[21..],
        &[0, 0, 0, 1, b'2', 0, 0, 0, 1, b'b', 0, 0, 0, 1, b'1', 0, 0, 0, 1, b'a']
    );
}

#[test]
fn the_length_field_holds_the_length() {
    for table in [small_table(), sample_table(), Strings::new("", "")] {
        let bytes = table.encode().unwrap();
        assert_eq!(total_of(&bytes), bytes.len() as u64);
    }
}

#[test]
fn load_reads_the_record() {
    let s = Strings::load(&small_record()).unwrap();
    assert_eq!(s.get_lang_id(), "en");
    assert_eq!(s.get_lang_name(), "English");
    assert_eq!(s.translate("a"), "b");
    assert_eq!(s.translate("b"), "b");
    assert_eq!(s.translate("c"), "c");
}

#[test]
fn what_was_encoded_is_decoded() {
    let table = sample_table();
    let back = Strings::load(&table.encode().unwrap()).unwrap();
    assert_eq!(back.get_lang_id(), "zh_CN");
    assert_eq!(back.get_lang_name(), "简体中文");
    assert_eq!(back.translate("ui.hello"), "你好, {0}!");
    assert_eq!(back.translate("ui.cancel"), "取消");
    assert_eq!(back.translate(""), "");
    assert_eq!(back.translate("long"), "x".repeat(70000));
    assert_eq!(back.translate("absent"), "absent");
    assert_eq!(back.encode().unwrap(), table.encode().unwrap());
}

#[test]
fn a_record_among_other_bytes_is_found() {
    let record = sample_table().encode().unwrap();
    let mut bytes = vec![0x00, 0x27, 0xFF, 0xFF, 0x26, 0x10, 0xFF, 0x27];
    bytes.push(0x00);
    bytes.extend_from_slice(b"some other payload");
    let before = bytes.len();
    bytes.extend_from_slice(&record);
    bytes.extend_from_slice(&[0xFF, 0x27, 0xFF, 1, 2, 3]);
    bytes.extend_from_slice(b"and more behind it");
    let back = Strings::load(&bytes).unwrap();
    assert_eq!(back.encode().unwrap(), record);
    assert_eq!(back.translate("ui.cancel"), "取消");
    let alone = Strings::load(&bytes[before..]).unwrap();
    assert_eq!(alone.encode().unwrap(), record);
}

#[test]
fn the_first_of_two_records_is_read() {
    let mut bytes = small_record();
    bytes.extend_from_slice(&sample_table().encode().unwrap());
    let back = Strings::load(&bytes).unwrap();
    assert_eq!(back.get_lang_id(), "en");
    assert_eq!(back.translate("ui.cancel"), "ui.cancel");
}

#[test]
fn an_earlier_signature_is_taken_for_the_record() {
    let mut bytes = vec![0xFF, 0x27, 0xFF];
    bytes.extend_from_slice(&small_record());
    assert_eq!(load_error(&bytes), ParseError::Truncated);
}

#[test]
fn every_cut_record_is_refused() {
    let record = small_record();
    for n in 0..record.len() {
        let expected = if n < 3 { ParseError::SignatureNotFound } else { ParseError::Truncated };
        assert_eq!(load_error(&record[..n]), expected, "prefix of {} bytes", n);
    }
    let long = sample_table().encode().unwrap();
    for n in [0, 1, 2, 3, 10, 11, 12, 14, 15, 30, 100, long.len() - 1] {
        let expected = if n < 3 { ParseError::SignatureNotFound } else { ParseError::Truncated };
        assert_eq!(load_error(&long[..n]), expected, "prefix of {} bytes", n);
    }
}

#[test]
fn bytes_without_a_signature_are_refused() {
    assert_eq!(load_error(&[]), ParseError::SignatureNotFound);
    assert_eq!(load_error(&[0xFF, 0x27]), ParseError::SignatureNotFound);
    assert_eq!(load_error(&[0xFF, 0x27, 0xFE, 0xFF, 0x28, 0xFF]), ParseError::SignatureNotFound);
    assert_eq!(load_error(b"no record in here"), ParseError::SignatureNotFound);
}

#[test]
fn a_length_past_the_end_is_refused() {
    let mut bytes = small_record();
    bytes[10] = 39;
    assert_eq!(load_error(&bytes), ParseError::Truncated);
    bytes[3] = 0x80;
    assert_eq!(load_error(&bytes), ParseError::Truncated);
    bytes.push(0);
    bytes[3] = 0;
    assert!(Strings::load(&bytes).is_err());
}

#[test]
fn a_length_shorter_than_the_header_is_refused() {
    let mut bytes = small_record();
    for total in [0u8, 3, 10, 11, 14] {
        bytes[10] = total;
        assert_eq!(load_error(&bytes), ParseError::Truncated, "total {}", total);
    }
}

#[test]
fn a_name_or_id_past_the_record_is_refused() {
    let mut bytes = small_record();
    // The record ends inside the language name.
    bytes[10] = 17;
    assert_eq!(load_error(&bytes), ParseError::Truncated);
    // The record ends inside the length of the language id.
    bytes[10] = 24;
    assert_eq!(load_error(&bytes), ParseError::Truncated);
    // The record ends inside the language id.
    bytes[10] = 27;
    assert_eq!(load_error(&bytes), ParseError::Truncated);
}

#[test]
fn a_record_may_have_no_entries() {
    let mut bytes = small_record();
    bytes[10] = 28;
    let s = Strings::load(&bytes).unwrap();
    assert_eq!(s.get_lang_id(), "en");
    assert_eq!(s.translate("a"), "a");
}

#[test]
fn entries_that_are_not_whole_pairs_are_refused() {
    let mut bytes = small_record();
    // A key without a value.
    bytes[10] = 33;
    assert_eq!(load_error(&bytes), ParseError::MalformedEntries);
    // A key that is cut.
    bytes[10] = 32;
    assert_eq!(load_error(&bytes), ParseError::MalformedEntries);
    // A length that is cut.
    bytes[10] = 30;
    assert_eq!(load_error(&bytes), ParseError::MalformedEntries);
    // A value that is cut.
    bytes[10] = 37;
    assert_eq!(load_error(&bytes), ParseError::MalformedEntries);
    // A value that claims more than the record has.
    bytes[10] = 38;
    bytes[36] = 2;
    assert_eq!(load_error(&bytes), ParseError::MalformedEntries);
}

#[test]
fn of_two_entries_with_one_key_the_later_stays() {
    let mut bytes = small_record();
    bytes.extend_from_slice(&[0, 0, 0, 1, b'a', 0, 0, 0, 2, b'c', b'd']);
    bytes[10] = 49;
    let s = Strings::load(&bytes).unwrap();
    assert_eq!(s.translate("a"), "cd");
}

#[test]
fn bytes_that_are_no_text_are_repaired() {
    let mut bytes = small_record();
    bytes[37] = 0xFF;
    let s = Strings::load(&bytes).unwrap();
    assert_eq!(s.translate("a"), "\u{FFFD}");
    bytes[16] = 0xC0;
    let t = Strings::load(&bytes).unwrap();
    assert_eq!(t.get_lang_name(), "E\u{FFFD}glish");
}

#[test]
fn parse_reads_a_record_from_its_start() {
    let s = Strings::parse(&small_record()).ok().unwrap();
    assert_eq!(s.get_lang_name(), "English");
    assert_eq!(s.translate("a"), "b");
    assert_eq!(Strings::parse(&[0xFF, 0x27, 0xFF]).err(), Some(ParseError::Truncated));
    assert_eq!(Strings::parse(&small_record()[..37]).err(), Some(ParseError::MalformedEntries));
}
