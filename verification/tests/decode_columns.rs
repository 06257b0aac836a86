use row_codec::RowEncodingOptions;
use row_codec::categorical::{CategoricalDict, decode_str_as_cat};
use row_codec::decode::decode_str;
use row_codec::error::DecodeError;
use row_codec::varlen::encode_varlen_item;

fn asc() -> RowEncodingOptions {
    RowEncodingOptions::new_sorted()
}

fn rows_of(values: &[Option<&[u8]>]) -> (Vec<Vec<u8>>, Vec<usize>) {
    let rows: Vec<Vec<u8>> = values
        .iter()
        .map(|v| encode_varlen_item(&v.map(|b| b.to_vec()), asc()))
        .collect();
    let pos = vec![0usize; rows.len()];
    (rows, pos)
}

#[test]
fn all_non_null_column_has_no_bitmap() {
    let (rows, mut pos) = rows_of(&[Some(b"x"), Some(b"yy"), Some(b"")]);
    let arr = decode_str(&rows, &mut pos, asc()).unwrap();
    assert!(!arr.has_validity());
    assert_eq!(arr.len(), 3);
    assert_eq!(arr.value_bytes(0), &b"x".to_vec());
    assert_eq!(arr.value_bytes(1), &b"yy".to_vec());
    assert_eq!(arr.value_bytes(2), &Vec::new());
    assert_eq!(pos, vec![2, 3, 1]);
}

#[test]
fn null_in_first_row_promotes_bitmap() {
    let (rows, mut pos) = rows_of(&[None, Some(b"a")]);
    let arr = decode_str(&rows, &mut pos, asc()).unwrap();
    assert!(arr.has_validity());
    assert!(!arr.is_valid(0));
    assert!(arr.is_valid(1));
    assert_eq!(arr.value_bytes(1), &b"a".to_vec());
}

#[test]
fn null_in_second_row_promotes_bitmap() {
    let (rows, mut pos) = rows_of(&[Some(b"a"), None, Some(b"b")]);
    let arr = decode_str(&rows, &mut pos, asc()).unwrap();
    assert!(arr.has_validity());
    assert!(arr.is_valid(0));
    assert!(!arr.is_valid(1));
    assert!(arr.is_valid(2));
    assert_eq!(arr.value_bytes(0), &b"a".to_vec());
    assert_eq!(arr.value_bytes(2), &b"b".to_vec());
    assert_eq!(pos, vec![2, 1, 2]);
}

#[test]
fn null_in_last_row_promotes_bitmap() {
    let (rows, mut pos) = rows_of(&[Some(b"a"), Some(b"b"), None]);
    let arr = decode_str(&rows, &mut pos, asc()).unwrap();
    assert!(arr.has_validity());
    assert!(arr.is_valid(0));
    assert!(arr.is_valid(1));
    assert!(!arr.is_valid(2));
}

#[test]
fn all_null_column() {
    let (rows, mut pos) = rows_of(&[None, None, None]);
    let arr = decode_str(&rows, &mut pos, asc()).unwrap();
    assert!(arr.has_validity());
    for i in 0..3 {
        assert!(!arr.is_valid(i));
    }
    assert_eq!(pos, vec![1, 1, 1]);
}

#[test]
fn invalid_payload_byte_is_reported() {
    let rows = vec![vec![0x63u8, 0x00]];
    let mut pos = vec![0usize];
    let err = decode_str(&rows, &mut pos, asc()).unwrap_err();
    assert_eq!(err, DecodeError::InvalidByte);
}

#[test]
fn missing_terminator_is_reported() {
    let rows = vec![vec![0x63u8, 0x64]];
    let mut pos = vec![0usize];
    let err = decode_str(&rows, &mut pos, asc()).unwrap_err();
    assert_eq!(err, DecodeError::UnexpectedEnd);
}

#[test]
fn empty_row_is_reported() {
    let rows = vec![Vec::new()];
    let mut pos = vec![0usize];
    let err = decode_str(&rows, &mut pos, asc()).unwrap_err();
    assert_eq!(err, DecodeError::UnexpectedEnd);
}

#[test]
fn categorical_codes_follow_first_appearance() {
    let (rows, mut pos) = rows_of(&[Some(b"a"), Some(b"b"), Some(b"a"), Some(b"c"), Some(b"b")]);
    let mut dict = CategoricalDict::new();
    let arr = decode_str_as_cat(&rows, &mut pos, asc(), &mut dict).unwrap();
    assert!(!arr.validity.is_some());
    assert_eq!(arr.codes, vec![0, 1, 0, 2, 1]);
    assert_eq!(dict.len(), 3);
    assert_eq!(dict.value_of(0), &b"a".to_vec());
    assert_eq!(dict.value_of(1), &b"b".to_vec());
    assert_eq!(dict.value_of(2), &b"c".to_vec());
}

#[test]
fn categorical_null_gets_zero_code_and_bitmap() {
    let (rows, mut pos) = rows_of(&[Some(b"x"), None, Some(b"x")]);
    let mut dict = CategoricalDict::new();
    let arr = decode_str_as_cat(&rows, &mut pos, asc(), &mut dict).unwrap();
    let validity = arr.validity.as_ref().unwrap();
    assert_eq!(validity, &vec![true, false, true]);
    assert_eq!(arr.codes, vec![0, 0, 0]);
    assert_eq!(dict.len(), 1);
}

#[test]
fn categorical_dict_persists_across_decodes() {
    let mut dict = CategoricalDict::new();
    let (rows1, mut pos1) = rows_of(&[Some(b"p"), Some(b"q")]);
    decode_str_as_cat(&rows1, &mut pos1, asc(), &mut dict).unwrap();
    let (rows2, mut pos2) = rows_of(&[Some(b"q"), Some(b"r")]);
    let arr = decode_str_as_cat(&rows2, &mut pos2, asc(), &mut dict).unwrap();
    assert_eq!(arr.codes, vec![1, 2]);
    assert_eq!(dict.len(), 3);
}

#[test]
fn insert_cat_returns_existing_code() {
    let mut dict = CategoricalDict::new();
    assert_eq!(dict.insert_cat(&b"one".to_vec()).unwrap(), 0);
    assert_eq!(dict.insert_cat(&b"two".to_vec()).unwrap(), 1);
    assert_eq!(dict.insert_cat(&b"one".to_vec()).unwrap(), 0);
    assert_eq!(dict.len(), 2);
}

#[test]
fn categorical_decode_error_propagates() {
    let rows = vec![vec![0x63u8]];
    let mut pos = vec![0usize];
    let mut dict = CategoricalDict::new();
    let err = decode_str_as_cat(&rows, &mut pos, asc(), &mut dict).unwrap_err();
    assert_eq!(err, DecodeError::UnexpectedEnd);
}
