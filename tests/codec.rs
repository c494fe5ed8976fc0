use upsert::codec::{encode_key, encode_value_key, project_row, Datum, Row, UpsertError, UpsertKey};

fn row(datums: Vec<Datum>) -> Row {
    Row { datums }
}

#[test]
fn from_value_equals_from_key_of_projection() {
    let full = row(vec![
        Datum::Int64(7),
        Datum::Bytes(b"name".to_vec()),
        Datum::Null,
        Datum::Bool(true),
    ]);
    let key_row = row(vec![Datum::Int64(7), Datum::Null]);
    let by_value = UpsertKey::from_value(Ok(&full), &[0, 2]);
    let by_key = UpsertKey::from_key(Ok(&key_row));
    assert_eq!(by_value, by_key);
}

#[test]
fn from_value_takes_columns_in_position_order() {
    let full = row(vec![Datum::Int64(1), Datum::Int64(2), Datum::Int64(3)]);
    let projected = project_row(&full, &[2, 0]);
    assert_eq!(projected, row(vec![Datum::Int64(1), Datum::Int64(3)]));
}

#[test]
fn from_value_of_an_error_is_its_from_key() {
    let err = UpsertError::KeyDecode { raw: vec![1, 2, 3] };
    assert_eq!(UpsertKey::from_value(Err(&err), &[0]), UpsertKey::from_key(Err(&err)));
}

#[test]
fn keys_are_deterministic() {
    let a = row(vec![Datum::Bytes(b"k".to_vec()), Datum::Int64(-4)]);
    let b = row(vec![Datum::Bytes(b"k".to_vec()), Datum::Int64(-4)]);
    assert_eq!(UpsertKey::from_key(Ok(&a)), UpsertKey::from_key(Ok(&b)));
    assert_eq!(UpsertKey::from_key(Ok(&a)), UpsertKey::from_key(Ok(&a)));
}

#[test]
fn value_error_is_keyed_by_its_key_columns() {
    let key_row = row(vec![Datum::Int64(9)]);
    let err = UpsertError::Value { for_key: key_row.clone() };
    assert_eq!(UpsertKey::from_key(Err(&err)), UpsertKey::from_key(Ok(&key_row)));
}

#[test]
fn different_keys_differ() {
    let a = row(vec![Datum::Int64(1)]);
    let b = row(vec![Datum::Int64(2)]);
    assert_ne!(UpsertKey::from_key(Ok(&a)), UpsertKey::from_key(Ok(&b)));
    let null = UpsertError::NullKey;
    let empty_raw = UpsertError::KeyDecode { raw: vec![] };
    assert_ne!(UpsertKey::from_key(Err(&null)), UpsertKey::from_key(Err(&empty_raw)));
    let bool_row = row(vec![Datum::Bool(false)]);
    let null_row = row(vec![Datum::Null]);
    assert_ne!(UpsertKey::from_key(Ok(&bool_row)), UpsertKey::from_key(Ok(&null_row)));
}

#[test]
fn key_is_the_sha256_of_the_encoding() {
    let key = UpsertKey::from_key(Ok(&row(vec![Datum::Int64(1)])));
    let expected: [u8; 32] = [
        78, 36, 217, 244, 24, 114, 143, 181, 193, 212, 41, 12, 133, 84, 216, 153, 172, 114, 194, 7, 222, 237,
        80, 50, 173, 119, 148, 200, 178, 1, 7, 237,
    ];
    assert_eq!(key.as_ref(), &expected[..]);
    let null_key = UpsertKey::from_key(Err(&UpsertError::NullKey));
    let expected_null: [u8; 32] = [
        71, 220, 84, 12, 148, 206, 183, 4, 162, 56, 117, 193, 18, 115, 225, 107, 176, 184, 168, 122, 237, 132,
        222, 145, 31, 33, 51, 86, 129, 21, 242, 84,
    ];
    assert_eq!(null_key.as_ref(), &expected_null[..]);
}

#[test]
fn copies_and_comparisons() {
    let a = row(vec![Datum::Bytes(vec![0, 255]), Datum::Bool(true)]);
    let c = a.copy();
    assert_eq!(a, c);
    assert!(a.same(&c));
    let d = row(vec![Datum::Bytes(vec![0, 254]), Datum::Bool(true)]);
    assert!(!a.same(&d));
    assert!(!a.same(&row(vec![])));
}

#[test]
fn encoding_of_key_rows() {
    let r = row(vec![Datum::Int64(1), Datum::Bytes(vec![9, 8]), Datum::Bool(true), Datum::Null]);
    let mut expected = vec![0u8, 4, 0, 0, 0, 0, 0, 0, 0];
    expected.extend([2u8, 1, 0, 0, 0, 0, 0, 0, 0]);
    expected.extend([3u8, 2, 0, 0, 0, 0, 0, 0, 0, 9, 8]);
    expected.extend([1u8, 1]);
    expected.extend([0u8]);
    assert_eq!(encode_key(Ok(&r)), expected);
}

#[test]
fn encoding_of_negative_integers_is_twos_complement() {
    let r = row(vec![Datum::Int64(-2)]);
    assert_eq!(encode_key(Ok(&r)), vec![0u8, 1, 0, 0, 0, 0, 0, 0, 0, 2, 254, 255, 255, 255, 255, 255, 255, 255]);
}

#[test]
fn encoding_of_errors() {
    assert_eq!(encode_key(Err(&UpsertError::NullKey)), vec![1u8, 0]);
    let raw = UpsertError::KeyDecode { raw: vec![7] };
    assert_eq!(encode_key(Err(&raw)), vec![1u8, 3, 1, 0, 0, 0, 0, 0, 0, 0, 7]);
    let value_err = UpsertError::Value { for_key: row(vec![Datum::Null]) };
    assert_eq!(encode_key(Err(&value_err)), vec![0u8, 1, 0, 0, 0, 0, 0, 0, 0, 0]);
}

#[test]
fn value_encoding_projects_key_columns() {
    let full = row(vec![Datum::Int64(5), Datum::Null, Datum::Bool(false)]);
    assert_eq!(
        encode_value_key(Ok(&full), &[2, 0]),
        encode_key(Ok(&row(vec![Datum::Int64(5), Datum::Bool(false)])))
    );
    assert_eq!(encode_value_key(Ok(&full), &[7]), vec![0u8, 0, 0, 0, 0, 0, 0, 0, 0]);
}

#[test]
fn from_iter_equals_from_key_of_the_row() {
    let datums = vec![Datum::Int64(3), Datum::Bytes(vec![1])];
    let r = row(datums.clone());
    assert_eq!(UpsertKey::from_iter(Ok(&datums)), UpsertKey::from_key(Ok(&r)));
    let err = UpsertError::NullKey;
    assert_eq!(UpsertKey::from_iter(Err(&err)), UpsertKey::from_key(Err(&err)));
}
