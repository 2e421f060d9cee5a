use indexed_string::indexing::Indexing;
use indexed_string::indexing::IndexingError;
use indexed_string::indexing::StringIndex;
use indexed_string::indexing::try_index_after_bytes;

#[test]
fn test_unicode_index() {
    let test_string = "❤️".to_string();

    let index = test_string.first_index().unwrap();

    assert_eq!(index.utf8_char(), "❤️");
}

#[test]
fn test_unicode_string() {
    let test_string = "❤️é💯".to_string();

    let first_index = test_string.first_index().unwrap();

    let second_index = test_string.index_after(&first_index).unwrap();

    let third_index = test_string.index_after(&second_index).unwrap();

    assert_eq!(first_index.utf8_char(), "❤️");

    assert_eq!(second_index.utf8_char(), "é");

    assert_eq!(third_index.utf8_char(), "💯");
}

#[test]
fn test_null_string() {
    let test_string = "\u{0000}".to_string();

    let first_index = test_string.first_index().unwrap();

    assert_eq!(first_index.utf8_char(), "\u{0000}");
}

#[test]
fn zero_index_fields() {
    let zero = StringIndex::zero();
    assert_eq!(zero.value, 0);
    assert_eq!(zero.raw_start_index, 0);
    assert_eq!(zero.raw_len, 0);
    assert_eq!(zero.bytes, [0, 0, 0, 0]);
    assert_eq!(zero.extra_variation_selector, None);
}

#[test]
fn walk_ends_with_none() {
    let test_string = "aé".to_string();
    let first = test_string.try_index_after(&StringIndex::zero()).unwrap().unwrap();
    assert_eq!(first.value, 1);
    assert_eq!(first.raw_start_index, 0);
    assert_eq!(first.raw_len, 1);
    let second = test_string.try_index_after(&first).unwrap().unwrap();
    assert_eq!(second.value, 2);
    assert_eq!(second.raw_start_index, 1);
    assert_eq!(second.raw_len, 2);
    assert_eq!(second.bytes, [0xc3, 0xa9, 0, 0]);
    let end = test_string.try_index_after(&second).unwrap();
    assert_eq!(end, None);
}

#[test]
fn truncated_scalar_fails() {
    // a lone 4-byte lead byte with no continuation bytes
    let buffer: Vec<u8> = vec![0xf0];
    let result = try_index_after_bytes(&buffer, &StringIndex::zero());
    assert_eq!(result, Err(IndexingError::UnexpectedTerminate { location: 0 }));
}

#[test]
fn truncated_scalar_fails_mid_buffer() {
    // a 2-byte lead whose continuation byte is missing, after one unit
    let buffer: Vec<u8> = vec![b'a', 0xc3];
    let first = try_index_after_bytes(&buffer, &StringIndex::zero()).unwrap().unwrap();
    let result = try_index_after_bytes(&buffer, &first);
    assert_eq!(result, Err(IndexingError::UnexpectedTerminate { location: 1 }));
}

#[test]
fn bare_continuation_byte_fails() {
    // a continuation byte with no preceding lead byte
    let buffer: Vec<u8> = vec![0x80];
    let result = try_index_after_bytes(&buffer, &StringIndex::zero());
    assert_eq!(
        result,
        Err(IndexingError::InvalidUnicodePoint { location: 1, code_point: 0x80 })
    );
}

#[test]
fn error_messages() {
    let terminate = IndexingError::UnexpectedTerminate { location: 5 };
    assert_eq!(terminate.error_message(), "unexpected terminated at location 5");
    let invalid = IndexingError::InvalidUnicodePoint { location: 1, code_point: 128 };
    assert_eq!(invalid.error_message(), "Invalid Unicode Scalar 128 found at 1");
}

#[test]
fn byte_descriptions() {
    let test_string = "é".to_string();
    let index = test_string.first_index().unwrap();
    assert_eq!(index.raw_bytes_description(), "[195, 169, 0, 0]");
    assert_eq!(index.variation_selector_description(), "Empty");

    let heart = "❤️".to_string();
    let heart_index = heart.first_index().unwrap();
    assert_eq!(heart_index.raw_bytes_description(), "[226, 157, 164, 0]");
    assert_eq!(heart_index.variation_selector_description(), "[239, 184, 143]");
}

#[test]
fn index_description() {
    let test_string = "a".to_string();
    let index = test_string.first_index().unwrap();
    assert_eq!(
        index.description(),
        "index: 1,bytes: [[97, 0, 0, 0]],location in bytes: 0bytes length: 1variation selector: Empty"
    );
}

#[test]
fn selector_after_four_byte_scalar() {
    // U+1F4AF followed by the text-presentation selector U+FE0E: seven bytes, one unit
    let test_string = "💯\u{fe0e}".to_string();
    let index = test_string.first_index().unwrap();
    assert_eq!(index.raw_len, 7);
    assert_eq!(index.utf8_char(), "💯\u{fe0e}");
    assert_eq!(test_string.index_after(&index), None);
}

#[test]
fn char_at_matches_decoded_unit() {
    let test_string = "a💯b".to_string();
    let first = test_string.first_index().unwrap();
    let second = test_string.index_after(&first).unwrap();
    assert_eq!(test_string.utf8_char_at(&second), "💯");
}

#[test]
fn nul_descriptor_decodes_to_nul_alone() {
    // the descriptor cannot tell the NUL scalar from its padding, so its
    // own decoding drops the fused selector; the buffer range keeps it
    let test_string = "\u{0}\u{fe0f}".to_string();
    let index = test_string.first_index().unwrap();
    assert_eq!(index.raw_len, 4);
    assert_eq!(index.utf8_char(), "\u{0}");
    assert_eq!(test_string.utf8_char_at(&index), "\u{0}\u{fe0f}");
}
