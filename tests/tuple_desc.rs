use sueql::data_type::{DataType, Literal};
use sueql::error::ErrorKind;
use sueql::tuple_desc::{Column, TupleDesc};

fn desc() -> TupleDesc {
    TupleDesc::new(&vec![
        Column { name: "a".to_string(), kind: DataType::I32 },
        Column { name: "b".to_string(), kind: DataType::VarChar },
    ])
}

#[test]
fn descriptor_scenario() {
    let d = desc();
    let bytes = d.encode(&vec![Literal::Integer(42), Literal::String("hi".to_string())]).unwrap();
    assert_eq!(bytes, vec![0x2A, 0, 0, 0, 0x02, 0x00, 0x68, 0x69]);
    assert_eq!(d.data_to_strings(&bytes, None), Some(vec!["42".to_string(), "hi".to_string()]));
    assert_eq!(d.data_to_strings(&bytes, Some(vec![1])), Some(vec!["hi".to_string()]));
    assert_eq!(d.data_to_strings(&bytes, Some(vec![2])), None);
}

#[test]
fn decode_fields_recovers_values() {
    let d = desc();
    let row = vec![Literal::Integer(-5), Literal::String("xyz".to_string())];
    let bytes = d.encode(&row).unwrap();
    let fields = d.decode_fields(&bytes).unwrap();
    assert_eq!(fields[0], DataType::I32.data_from_literal(&row[0]).unwrap());
    assert_eq!(fields[1], DataType::VarChar.data_from_literal(&row[1]).unwrap());
    assert_eq!(d.decode_fields(&bytes[..bytes.len() - 1]), None);
    let mut longer = bytes.clone();
    longer.push(0);
    assert_eq!(d.decode_fields(&longer), None);
    assert_eq!(d.assert_data_len(&longer), Err(ErrorKind::InvalidData));
    assert_eq!(d.assert_data_len(&bytes), Ok(()));
}

#[test]
fn encode_rejects_mismatched_rows() {
    let d = desc();
    assert_eq!(d.encode(&vec![Literal::Integer(1)]), None);
    assert_eq!(d.encode(&vec![Literal::String("1".to_string()), Literal::String("x".to_string())]), None);
    assert_eq!(d.num_attrs(), 2);
}

#[test]
fn create_tuple_data_from_texts() {
    let d = desc();
    let t = d.create_tuple_data(&vec!["7".to_string(), "ab".to_string()]).unwrap();
    assert_eq!(t, vec![7, 0, 0, 0, 2, 0, b'a', b'b']);
    assert_eq!(d.create_tuple_data(&vec!["q".to_string(), "ab".to_string()]), None);
}

#[test]
fn descriptor_page_round_trip() {
    let d = desc();
    let cols = d.to_data().unwrap();
    assert_eq!(cols[0], vec![1, 0, b'a', 2, 0]);
    assert_eq!(cols[1], vec![1, 0, b'b', 5, 0]);
    let back = TupleDesc::from_data(&cols).unwrap();
    assert_eq!(back.num_attrs(), 2);
    assert_eq!(back.columns[1].name, "b");
    assert_eq!(back.columns[1].kind, DataType::VarChar);
    assert!(matches!(TupleDesc::from_data(&vec![vec![1, 0, b'a', 9, 0]]), Err(ErrorKind::InvalidData)));
    assert!(matches!(TupleDesc::from_data(&vec![vec![5, 0, b'a', 2, 0]]), Err(ErrorKind::InvalidData)));
}
