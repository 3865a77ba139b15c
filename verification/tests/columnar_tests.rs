use stract::columnar::{
    Cardinality, ColumnOperation, ColumnType, ColumnWriter, ColumnarWriter, NumericalType,
    NumericalValue,
};

#[test]
fn test_column_writer_required_simple() {
    let mut column_writer = ColumnWriter::new();
    column_writer.record(0u32, NumericalValue::from(14i64));
    column_writer.record(1u32, NumericalValue::from(15i64));
    column_writer.record(2u32, NumericalValue::from(-16i64));
    assert_eq!(column_writer.get_cardinality(), Cardinality::Full);
    let symbols: Vec<ColumnOperation<NumericalValue>> = column_writer.operation_iterator(None);
    assert_eq!(symbols.len(), 6);
    assert!(matches!(symbols[0], ColumnOperation::NewDoc(0u32)));
    assert!(matches!(
        symbols[1],
        ColumnOperation::Value(NumericalValue::I64(14i64))
    ));
    assert!(matches!(symbols[2], ColumnOperation::NewDoc(1u32)));
    assert!(matches!(
        symbols[3],
        ColumnOperation::Value(NumericalValue::I64(15i64))
    ));
    assert!(matches!(symbols[4], ColumnOperation::NewDoc(2u32)));
    assert!(matches!(
        symbols[5],
        ColumnOperation::Value(NumericalValue::I64(-16i64))
    ));
}

#[test]
fn test_column_writer_multivalue_single_new_doc() {
    let mut column_writer = ColumnWriter::new();
    column_writer.record(7u32, NumericalValue::from(1u64));
    column_writer.record(7u32, NumericalValue::from(2u64));
    let symbols = column_writer.operation_iterator(None);
    assert_eq!(symbols.len(), 3);
    assert!(matches!(symbols[0], ColumnOperation::NewDoc(7u32)));
    assert!(matches!(
        symbols[1],
        ColumnOperation::Value(NumericalValue::U64(1u64))
    ));
    assert!(matches!(
        symbols[2],
        ColumnOperation::Value(NumericalValue::U64(2u64))
    ));
}

#[test]
fn test_operation_iterator_remaps_rows() {
    let mut column_writer = ColumnWriter::new();
    column_writer.record(0u32, NumericalValue::from(5u64));
    column_writer.record(1u32, NumericalValue::from(6u64));
    let mapping: Vec<u32> = vec![1, 0];
    let symbols = column_writer.operation_iterator(Some(&mapping));
    assert!(matches!(symbols[0], ColumnOperation::NewDoc(1u32)));
    assert!(matches!(symbols[2], ColumnOperation::NewDoc(0u32)));
}

#[test]
fn test_sort_order_ascending_and_reversed() {
    let mut writer = ColumnarWriter::new();
    writer.record_numerical(0u32, b"price", NumericalValue::from(30i64));
    writer.record_numerical(1u32, b"price", NumericalValue::from(10i64));
    writer.record_numerical(2u32, b"price", NumericalValue::from(20i64));
    let order = writer.sort_order(b"price", 3, false);
    assert_eq!(order, vec![1u32, 2, 0]);
    let reversed = writer.sort_order(b"price", 3, true);
    assert_eq!(reversed, vec![0u32, 2, 1]);
}

#[test]
fn test_sort_order_missing_docs_score_lowest() {
    let mut writer = ColumnarWriter::new();
    writer.record_numerical(1u32, b"rank", NumericalValue::from(-5i64));
    let order = writer.sort_order(b"rank", 3, false);
    // docs 0 and 2 have no value: they carry the lowest possible score and
    // sort before the valued document, keeping their own order
    assert_eq!(order, vec![0u32, 2, 1]);
    let reversed = writer.sort_order(b"rank", 3, true);
    assert_eq!(reversed, vec![1u32, 0, 2]);
}

#[test]
fn test_sort_order_unknown_column_is_empty() {
    let writer = ColumnarWriter::new();
    let order = writer.sort_order(b"missing", 4, false);
    assert!(order.is_empty());
}

#[test]
fn test_mem_usage_counts_operations() {
    let mut writer = ColumnarWriter::new();
    assert_eq!(writer.mem_usage(), 0);
    writer.record_bool(0u32, b"flag", true);
    // one NewDoc and one value operation were buffered
    assert_eq!(writer.mem_usage(), 2);
}

#[test]
fn test_record_column_type_forces_numerical_type() {
    let mut writer = ColumnarWriter::new();
    writer.record_column_type(b"n", ColumnType::U64, false);
    writer.record_numerical(0u32, b"n", NumericalValue::from(-1i64));
    // the forced type wins over the signed value seen later
    let mut out: Vec<u8> = Vec::new();
    writer.serialize(1, None, &mut out);
    assert_eq!(out[0], 1u8); // unsigned column kind code
}

#[test]
fn test_serialize_bytes_column_layout() {
    let mut writer = ColumnarWriter::new();
    writer.record_bytes(0u32, b"tag", b"ab".to_vec());
    let mut out: Vec<u8> = Vec::new();
    writer.serialize(1, None, &mut out);
    let expected: Vec<u8> = vec![
        4, // bytes column kind code
        3, 0, 0, 0, // name length
        b't', b'a', b'g', // name
        1, 0, 0, 0, // one row
        0, 0, 0, 0, // row id 0
        1, 0, 0, 0, // one value
        2, 0, 0, 0, // value length
        b'a', b'b', // value bytes
        1, 0, 0, 0, // document count
    ];
    assert_eq!(out, expected);
}

#[test]
fn test_serialize_numerical_column_offsets_signed_values() {
    let mut writer = ColumnarWriter::new();
    writer.record_numerical(0u32, b"v", NumericalValue::from(0i64));
    let mut out: Vec<u8> = Vec::new();
    writer.serialize(1, None, &mut out);
    assert_eq!(out[0], 0u8); // signed column kind code
    // the value 0 serializes as offset-binary 2^63
    let value_bytes = &out[out.len() - 12..out.len() - 4];
    assert_eq!(value_bytes, &[0, 0, 0, 0, 0, 0, 0, 0x80]);
}

#[test]
fn test_numerical_type_inference() {
    let mut w = ColumnarWriter::new();
    w.record_numerical(0u32, b"a", NumericalValue::from(3u64));
    w.record_numerical(0u32, b"b", NumericalValue::from(-3i64));
    let mut out: Vec<u8> = Vec::new();
    w.serialize(1, None, &mut out);
    assert_eq!(out[0], 1u8); // column "a" stayed unsigned
    let _ = NumericalType::I64;
}

#[test]
fn test_serialize_orders_columns_by_name_and_kind() {
    // recorded "b" before "a"; the output still lists "a" first
    let mut writer = ColumnarWriter::new();
    writer.record_numerical(0u32, b"b", NumericalValue::from(1i64));
    writer.record_bool(0u32, b"a", true);
    let mut out: Vec<u8> = Vec::new();
    writer.serialize(1, None, &mut out);
    assert_eq!(out[0], 2u8); // bool column kind code: column "a"
    assert_eq!(&out[1..5], &[1, 0, 0, 0]); // its name length
    assert_eq!(out[5], b'a');
}
