use row_codec::RowEncodingOptions;
use row_codec::varlen::{
    decode_varlen_item, encode_str, encode_varlen_item, len_from_buffer, len_from_item,
};

fn asc() -> RowEncodingOptions {
    RowEncodingOptions::new_sorted()
}

fn desc() -> RowEncodingOptions {
    RowEncodingOptions { descending: true, nulls_last: false, unordered: false }
}

fn nulls_last() -> RowEncodingOptions {
    RowEncodingOptions { descending: false, nulls_last: true, unordered: false }
}

#[test]
fn single_ascii_value_ascending() {
    let enc = encode_varlen_item(&Some(b"a".to_vec()), asc());
    assert_eq!(enc, vec![0x63, 0x01]);
}

#[test]
fn null_encodes_to_sentinel() {
    let enc = encode_varlen_item(&None, asc());
    assert_eq!(enc, vec![0x00]);
    let enc_last = encode_varlen_item(&None, nulls_last());
    assert_eq!(enc_last, vec![0xFF]);
}

#[test]
fn empty_string_distinct_from_null_and_below_longer() {
    let empty = encode_varlen_item(&Some(Vec::new()), asc());
    let a = encode_varlen_item(&Some(b"a".to_vec()), asc());
    let null = encode_varlen_item(&None, asc());
    assert_eq!(empty, vec![0x01]);
    assert_eq!(a, vec![0x63, 0x01]);
    assert_ne!(empty, null);
    assert!(empty < a);
    assert!(null < empty);
}

#[test]
fn descending_is_bitwise_not_of_ascending() {
    let enc = encode_varlen_item(&Some(b"a".to_vec()), desc());
    assert_eq!(enc, vec![0x9C, 0xFE]);
    let asc_enc = encode_varlen_item(&Some(b"polars".to_vec()), asc());
    let desc_enc = encode_varlen_item(&Some(b"polars".to_vec()), desc());
    assert_eq!(asc_enc.len(), desc_enc.len());
    for (x, y) in asc_enc.iter().zip(desc_enc.iter()) {
        assert_eq!(!*x, *y);
    }
}

#[test]
fn nulls_last_value_below_null() {
    let a = encode_varlen_item(&Some(b"a".to_vec()), nulls_last());
    let null = encode_varlen_item(&None, nulls_last());
    assert_eq!(a, vec![0x63, 0x01]);
    assert_eq!(null, vec![0xFF]);
    assert!(a < null);
}

#[test]
fn no_forbidden_bytes_in_payload() {
    let value = vec![0x00u8, 0x7F, 0xC0, 0xFB];
    for opt in [asc(), desc(), nulls_last()] {
        let enc = encode_varlen_item(&Some(value.clone()), opt);
        let last = *enc.last().unwrap();
        assert!(last == 0x01 || last == 0xFE);
        for &b in &enc[..enc.len() - 1] {
            assert!(b != 0x00 && b != 0xFF && b != 0x01 && b != 0xFE);
        }
    }
}

#[test]
fn boundary_bytes_round_trip() {
    let value = vec![0x7Fu8, 0xC0, 0x00, 0xFB];
    for opt in [asc(), desc(), nulls_last()] {
        let row = encode_varlen_item(&Some(value.clone()), opt);
        let (decoded, used) = decode_varlen_item(&row, 0, opt).unwrap();
        assert_eq!(decoded, Some(value.clone()));
        assert_eq!(used, row.len());
    }
}

#[test]
fn null_round_trip_consumes_one_byte() {
    for opt in [asc(), desc(), nulls_last()] {
        let row = encode_varlen_item(&None, opt);
        let (decoded, used) = decode_varlen_item(&row, 0, opt).unwrap();
        assert_eq!(decoded, None);
        assert_eq!(used, 1);
    }
}

#[test]
fn length_oracle_values() {
    assert_eq!(len_from_item(None, asc()), 1);
    assert_eq!(len_from_item(Some(0), asc()), 1);
    assert_eq!(len_from_item(Some(5), desc()), 6);
}

#[test]
fn len_from_buffer_matches_encoding() {
    let opt = asc();
    let mut row = encode_varlen_item(&Some(b"hello".to_vec()), opt);
    row.extend_from_slice(&[0x42, 0x42]);
    assert_eq!(len_from_buffer(&row, opt), 6);
    let null_row = encode_varlen_item(&None, opt);
    assert_eq!(len_from_buffer(&null_row, opt), 1);
}

#[test]
fn encode_str_advances_offsets_by_oracle() {
    let opt = asc();
    let input = vec![Some(b"ab".to_vec()), None, Some(b"c".to_vec())];
    let lens: Vec<usize> = input
        .iter()
        .map(|v| len_from_item(v.as_ref().map(|b| b.len()), opt))
        .collect();
    assert_eq!(lens, vec![3, 1, 2]);
    let mut offsets = vec![0usize, 3, 4];
    let mut buffer = vec![0u8; 6];
    encode_str(&mut buffer, &input, opt, &mut offsets);
    assert_eq!(offsets, vec![3, 4, 6]);
    assert_eq!(buffer, vec![0x63, 0x64, 0x01, 0x00, 0x65, 0x01]);
}

#[test]
fn encode_str_leaves_gap_bytes_alone() {
    let opt = asc();
    let input = vec![Some(b"a".to_vec()), Some(b"b".to_vec())];
    let mut offsets = vec![1usize, 5];
    let mut buffer = vec![0xAAu8; 8];
    encode_str(&mut buffer, &input, opt, &mut offsets);
    assert_eq!(offsets, vec![3, 7]);
    assert_eq!(buffer, vec![0xAA, 0x63, 0x01, 0xAA, 0xAA, 0x64, 0x01, 0xAA]);
}

#[test]
fn order_preserved_for_strings() {
    let opt = asc();
    let words: [&[u8]; 5] = [b"", b"a", b"ab", b"b", b"ba"];
    for x in words.iter() {
        for y in words.iter() {
            let ex = encode_varlen_item(&Some(x.to_vec()), opt);
            let ey = encode_varlen_item(&Some(y.to_vec()), opt);
            assert_eq!(x.cmp(y), ex.cmp(&ey));
        }
    }
}

#[test]
fn order_reversed_for_descending_strings() {
    let opt = desc();
    let words: [&[u8]; 4] = [b"", b"a", b"ab", b"b"];
    for x in words.iter() {
        for y in words.iter() {
            let ex = encode_varlen_item(&Some(x.to_vec()), opt);
            let ey = encode_varlen_item(&Some(y.to_vec()), opt);
            assert_eq!(y.cmp(x), ex.cmp(&ey));
        }
    }
}

#[test]
fn interleaved_null_rows_wire_bytes() {
    let opt = asc();
    let rows: Vec<Vec<u8>> = [Some(b"a".to_vec()), None, Some(b"b".to_vec())]
        .iter()
        .map(|v| encode_varlen_item(v, opt))
        .collect();
    assert_eq!(rows[0], vec![0x63, 0x01]);
    assert_eq!(rows[1], vec![0x00]);
    assert_eq!(rows[2], vec![0x64, 0x01]);
}

#[test]
fn multibyte_utf8_round_trip() {
    let value = "héllo → 世界".as_bytes().to_vec();
    for opt in [asc(), desc(), nulls_last()] {
        let row = encode_varlen_item(&Some(value.clone()), opt);
        let (decoded, used) = decode_varlen_item(&row, 0, opt).unwrap();
        assert_eq!(decoded, Some(value.clone()));
        assert_eq!(used, value.len() + 1);
    }
}

#[test]
fn unordered_mode_is_invertible() {
    let opt = RowEncodingOptions::new_unsorted();
    for v in [None, Some(Vec::new()), Some(b"key".to_vec())] {
        let row = encode_varlen_item(&v, opt);
        let (decoded, _) = decode_varlen_item(&row, 0, opt).unwrap();
        assert_eq!(decoded, v);
    }
}
