use sueql::data_type::{DataType, Literal, SqlType};
use sueql::error::ErrorKind;

#[test]
fn from_nom_type_maps_sql_kinds() {
    assert_eq!(DataType::from_nom_type(SqlType::Char(1)), Some(DataType::Char));
    assert_eq!(DataType::from_nom_type(SqlType::Char(8)), Some(DataType::VarChar));
    assert_eq!(DataType::from_nom_type(SqlType::Int(32)), Some(DataType::I32));
    assert_eq!(DataType::from_nom_type(SqlType::Varchar(20)), Some(DataType::VarChar));
    assert_eq!(DataType::from_nom_type(SqlType::Other), None);
}

#[test]
fn match_literal_checks_shape() {
    assert!(DataType::Char.match_literal(&Literal::String("a".to_string())));
    assert!(!DataType::Char.match_literal(&Literal::String("ab".to_string())));
    assert!(DataType::I64.match_literal(&Literal::Integer(3)));
    assert!(!DataType::VarChar.match_literal(&Literal::Integer(3)));
    assert!(DataType::VarChar.match_literal(&Literal::String("".to_string())));
    assert!(!DataType::U32.match_literal(&Literal::Null));
}

#[test]
fn data_from_literal_bytes() {
    assert_eq!(DataType::I32.data_from_literal(&Literal::Integer(42)), Some(vec![42, 0, 0, 0]));
    assert_eq!(DataType::I32.data_from_literal(&Literal::Integer(-2)), Some(vec![254, 255, 255, 255]));
    assert_eq!(DataType::U64.data_from_literal(&Literal::Integer(258)), Some(vec![2, 1, 0, 0, 0, 0, 0, 0]));
    assert_eq!(DataType::U32.data_from_literal(&Literal::Integer(-1)), None);
    assert_eq!(DataType::I32.data_from_literal(&Literal::Integer(1 << 40)), None);
    assert_eq!(
        DataType::VarChar.data_from_literal(&Literal::String("hi".to_string())),
        Some(vec![2, 0, b'h', b'i'])
    );
    assert_eq!(DataType::Char.data_from_literal(&Literal::String("z".to_string())), Some(vec![b'z']));
    assert_eq!(DataType::Char.data_from_literal(&Literal::Integer(1)), None);
}

#[test]
fn data_size_of_kinds() {
    assert_eq!(DataType::Char.data_size(None), Some(1));
    assert_eq!(DataType::U32.data_size(None), Some(4));
    assert_eq!(DataType::I64.data_size(None), Some(8));
    assert_eq!(DataType::VarChar.data_size(None), None);
    assert_eq!(DataType::VarChar.data_size(Some(&[3, 0, 1, 2, 3])), Some(5));
    assert_eq!(DataType::VarChar.data_size(Some(&[3])), None);
}

#[test]
fn string_to_data_bytes_and_rejections() {
    assert_eq!(DataType::I32.string_to_data("42"), Some(vec![42, 0, 0, 0]));
    assert_eq!(DataType::I32.string_to_data("-1"), Some(vec![255, 255, 255, 255]));
    assert_eq!(DataType::U32.string_to_data("4294967295"), Some(vec![255, 255, 255, 255]));
    assert_eq!(DataType::U32.string_to_data("4294967296"), None);
    assert_eq!(DataType::U32.string_to_data("-1"), None);
    assert_eq!(DataType::I32.string_to_data("2147483648"), None);
    assert_eq!(DataType::I64.string_to_data("x1"), None);
    assert_eq!(DataType::U64.string_to_data("+7"), Some(vec![7, 0, 0, 0, 0, 0, 0, 0]));
    assert_eq!(DataType::Char.string_to_data("ab"), None);
    assert_eq!(DataType::Char.string_to_data("a"), Some(vec![97]));
    assert_eq!(DataType::VarChar.string_to_data("hi"), Some(vec![2, 0, 104, 105]));
}

#[test]
fn data_to_string_texts() {
    assert_eq!(DataType::I32.data_to_string(&[42, 0, 0, 0]), Some("42".to_string()));
    assert_eq!(DataType::I32.data_to_string(&[255, 255, 255, 255]), Some("-1".to_string()));
    assert_eq!(DataType::U32.data_to_string(&[255, 255, 255, 255]), Some("4294967295".to_string()));
    assert_eq!(
        DataType::I64.data_to_string(&[0, 0, 0, 0, 0, 0, 0, 128]),
        Some("-9223372036854775808".to_string())
    );
    assert_eq!(DataType::U64.data_to_string(&[1, 0, 0, 0, 0, 0, 0, 0]), Some("1".to_string()));
    assert_eq!(DataType::I32.data_to_string(&[1, 0, 0]), None);
    assert_eq!(DataType::I32.data_to_string(&[]), None);
    assert_eq!(DataType::VarChar.data_to_string(&[2, 0, 104, 105]), Some("hi".to_string()));
    assert_eq!(DataType::VarChar.data_to_string(&[3, 0, 104, 105]), None);
    assert_eq!(DataType::VarChar.data_to_string(&[1, 0, 0xff]), None);
    assert_eq!(DataType::Char.data_to_string(&[b'q']), Some("q".to_string()));
}

#[test]
fn text_round_trip_each_kind() {
    let cases: Vec<(DataType, Literal, &str)> = vec![
        (DataType::Char, Literal::String("x".to_string()), "x"),
        (DataType::U32, Literal::Integer(4000000000), "4000000000"),
        (DataType::I32, Literal::Integer(-17), "-17"),
        (DataType::U64, Literal::Integer(0), "0"),
        (DataType::I64, Literal::Integer(-9000000000), "-9000000000"),
        (DataType::VarChar, Literal::String("héllo".to_string()), "héllo"),
    ];
    for (t, lit, text) in cases {
        assert!(t.data_from_literal(&lit).is_some());
        let bytes = t.string_to_data(text).unwrap();
        assert_eq!(t.data_to_string(&bytes), Some(text.to_string()));
    }
}

#[test]
fn type_tag_round_trip() {
    for t in [DataType::Char, DataType::U32, DataType::I32, DataType::U64, DataType::I64, DataType::VarChar] {
        let mut d = t.to_data();
        d.push(9);
        let (back, rest) = DataType::from_data(d).unwrap();
        assert_eq!(back, t);
        assert_eq!(rest, vec![9]);
    }
    assert_eq!(DataType::VarChar.to_data(), vec![5, 0]);
    assert!(matches!(DataType::from_data(vec![6, 0]), Err(ErrorKind::InvalidData)));
    assert!(matches!(DataType::from_data(vec![1]), Err(ErrorKind::InvalidData)));
}
