use row_codec::RowEncodingOptions;
use row_codec::error::DecodeError;
use row_codec::fixed::{
    decode_fixed_bool, decode_fixed_i32, decode_fixed_u32, encode_fixed_bool, encode_fixed_i32,
    encode_fixed_u32, f32_total_order_bits, f32_total_order_bits_back, f64_total_order_bits,
    f64_total_order_bits_back,
};
use row_codec::rows::{ColumnType, RowBuffer, Value, decode_rows, encode_rows};

fn asc() -> RowEncodingOptions {
    RowEncodingOptions::new_sorted()
}

fn desc() -> RowEncodingOptions {
    RowEncodingOptions { descending: true, nulls_last: false, unordered: false }
}

fn row_slices(rb: &RowBuffer) -> Vec<&[u8]> {
    (0..rb.offsets.len() - 1)
        .map(|i| &rb.buffer[rb.offsets[i]..rb.offsets[i + 1]])
        .collect()
}

#[test]
fn fixed_u32_wire_bytes() {
    assert_eq!(encode_fixed_u32(Some(1), asc()), vec![0x01, 0x00, 0x00, 0x00, 0x01]);
    assert_eq!(encode_fixed_u32(Some(0x01020304), asc()), vec![0x01, 0x01, 0x02, 0x03, 0x04]);
    assert_eq!(encode_fixed_u32(None, asc()), vec![0x00, 0x00, 0x00, 0x00, 0x00]);
}

#[test]
fn fixed_descending_inverts_whole_block() {
    let a = encode_fixed_u32(Some(7), asc());
    let d = encode_fixed_u32(Some(7), desc());
    for (x, y) in a.iter().zip(d.iter()) {
        assert_eq!(!*x, *y);
    }
    let null_desc = encode_fixed_u32(None, desc());
    assert_eq!(null_desc, vec![0xFF, 0xFF, 0xFF, 0xFF, 0xFF]);
}

#[test]
fn fixed_u32_round_trip() {
    for v in [None, Some(0u32), Some(1), Some(0xFFFF_FFFF), Some(0x8000_0000)] {
        for opt in [asc(), desc()] {
            let row = match v {
                None => encode_fixed_u32(None, opt),
                Some(x) => encode_fixed_u32(Some(x), opt),
            };
            let (decoded, used) = decode_fixed_u32(&row, 0, opt).unwrap();
            assert_eq!(decoded, v);
            assert_eq!(used, 5);
        }
    }
}

#[test]
fn fixed_i32_orders_negative_below_positive() {
    let values = [i32::MIN, -1, 0, 1, i32::MAX];
    for x in values {
        for y in values {
            let ex = encode_fixed_i32(Some(x), asc());
            let ey = encode_fixed_i32(Some(y), asc());
            assert_eq!(x.cmp(&y), ex.cmp(&ey));
        }
    }
}

#[test]
fn fixed_i32_round_trip() {
    for v in [i32::MIN, -7, 0, 7, i32::MAX] {
        let row = encode_fixed_i32(Some(v), desc());
        let (decoded, used) = decode_fixed_i32(&row, 0, desc()).unwrap();
        assert_eq!(decoded, Some(v));
        assert_eq!(used, 5);
    }
}

#[test]
fn fixed_bool_round_trip_and_order() {
    let f = encode_fixed_bool(Some(false), asc());
    let t = encode_fixed_bool(Some(true), asc());
    assert_eq!(f, vec![0x01, 0x00]);
    assert_eq!(t, vec![0x01, 0x01]);
    assert!(f < t);
    assert_eq!(decode_fixed_bool(&f, 0, asc()).unwrap(), (Some(false), 2));
    assert_eq!(decode_fixed_bool(&t, 0, asc()).unwrap(), (Some(true), 2));
}

#[test]
fn float_bit_transforms_round_trip() {
    for v in [-f32::INFINITY, -1.5f32, -0.0, 0.0, 1.5, f32::INFINITY, f32::NAN] {
        let bits = v.to_bits();
        assert_eq!(f32_total_order_bits_back(f32_total_order_bits(bits)), bits);
    }
    for v in [-f64::INFINITY, -2.25f64, 0.0, 2.25, f64::INFINITY] {
        let bits = v.to_bits();
        assert_eq!(f64_total_order_bits_back(f64_total_order_bits(bits)), bits);
    }
}

#[test]
fn float_bit_transforms_preserve_order() {
    let values = [-f32::INFINITY, -2.0f32, -0.5, -0.0, 0.0, 0.5, 2.0, f32::INFINITY];
    for w in values.windows(2) {
        let a = f32_total_order_bits(w[0].to_bits());
        let b = f32_total_order_bits(w[1].to_bits());
        assert!(a <= b);
    }
    let nan = f32_total_order_bits(f32::NAN.to_bits());
    assert!(nan > f32_total_order_bits(f32::INFINITY.to_bits()));
}

#[test]
fn rows_round_trip_mixed_schema() {
    let types = vec![ColumnType::Str, ColumnType::Int, ColumnType::UInt, ColumnType::Bool];
    let opts = vec![asc(), desc(), asc(), asc()];
    let rows = vec![
        vec![
            Value::Str(b"alpha".to_vec()),
            Value::Int(-3),
            Value::UInt(10),
            Value::Bool(true),
        ],
        vec![Value::Null, Value::Null, Value::Null, Value::Null],
        vec![Value::Str(Vec::new()), Value::Int(0), Value::UInt(0), Value::Bool(false)],
    ];
    let rb = encode_rows(&rows, &types, &opts).unwrap();
    assert_eq!(rb.num_rows(), 3);
    let decoded = decode_rows(&rb, &types, &opts).unwrap();
    assert_eq!(decoded, rows);
}

#[test]
fn rows_have_no_padding_between_columns() {
    let types = vec![ColumnType::Str, ColumnType::Bool];
    let opts = vec![asc(), asc()];
    let rows = vec![vec![Value::Str(b"a".to_vec()), Value::Bool(true)]];
    let rb = encode_rows(&rows, &types, &opts).unwrap();
    assert_eq!(rb.offsets, vec![0, 4]);
    assert_eq!(rb.buffer, vec![0x63, 0x01, 0x01, 0x01]);
}

#[test]
fn tuple_order_matches_byte_order() {
    let types = vec![ColumnType::Str, ColumnType::Int];
    let opts = vec![asc(), asc()];
    let rows = vec![
        vec![Value::Str(b"a".to_vec()), Value::Int(1)],
        vec![Value::Str(b"a".to_vec()), Value::Int(2)],
        vec![Value::Str(b"b".to_vec()), Value::Int(0)],
    ];
    let rb = encode_rows(&rows, &types, &opts).unwrap();
    let slices = row_slices(&rb);
    assert!(slices[0] < slices[1]);
    assert!(slices[1] < slices[2]);
}

#[test]
fn null_rows_sort_first_by_default() {
    let types = vec![ColumnType::Str];
    let opts = vec![asc()];
    let rows = vec![vec![Value::Null], vec![Value::Str(Vec::new())], vec![
        Value::Str(b"a".to_vec()),
    ]];
    let rb = encode_rows(&rows, &types, &opts).unwrap();
    let slices = row_slices(&rb);
    assert!(slices[0] < slices[1]);
    assert!(slices[1] < slices[2]);
}

#[test]
fn trailing_bytes_are_reported() {
    let types = vec![ColumnType::Bool];
    let opts = vec![asc()];
    let rb = RowBuffer { buffer: vec![0x01, 0x01, 0x42], offsets: vec![0, 3] };
    let err = decode_rows(&rb, &types, &opts).unwrap_err();
    assert_eq!(err, DecodeError::TrailingBytes);
}

#[test]
fn truncated_fixed_block_is_reported() {
    let types = vec![ColumnType::UInt];
    let opts = vec![asc()];
    let rb = RowBuffer { buffer: vec![0x01, 0x00, 0x00], offsets: vec![0, 3] };
    let err = decode_rows(&rb, &types, &opts).unwrap_err();
    assert_eq!(err, DecodeError::UnexpectedEnd);
}

#[test]
fn bad_fixed_marker_is_reported() {
    let types = vec![ColumnType::UInt];
    let opts = vec![asc()];
    let rb = RowBuffer { buffer: vec![0x42, 0x00, 0x00, 0x00, 0x00], offsets: vec![0, 5] };
    let err = decode_rows(&rb, &types, &opts).unwrap_err();
    assert_eq!(err, DecodeError::InvalidByte);
}

#[test]
fn fixed_null_uses_other_sentinel_when_descending() {
    let nulls_last = RowEncodingOptions { descending: false, nulls_last: true, unordered: false };
    let desc_nulls_last =
        RowEncodingOptions { descending: true, nulls_last: true, unordered: false };
    assert_eq!(encode_fixed_u32(None, nulls_last), vec![0xFF, 0x00, 0x00, 0x00, 0x00]);
    assert_eq!(encode_fixed_u32(None, desc_nulls_last), vec![0x00, 0xFF, 0xFF, 0xFF, 0xFF]);
    assert_eq!(decode_fixed_u32(&encode_fixed_u32(None, desc_nulls_last), 0, desc_nulls_last)
        .unwrap(), (None, 5));
}

#[test]
fn fixed_nulls_last_sorts_null_after_values() {
    let opt = RowEncodingOptions { descending: false, nulls_last: true, unordered: false };
    let null = encode_fixed_u32(None, opt);
    let big = encode_fixed_u32(Some(u32::MAX), opt);
    assert!(big < null);
}
