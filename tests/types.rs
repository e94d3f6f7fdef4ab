use sueql::types::{Integer, Type};

#[test]
fn test_integer() {
    let buffer = [0, 0, 0, 1];
    let int = Integer::from_bytes(&buffer);
    assert_eq!(int.unwrap(), Integer::new(1));
}

#[test]
fn integer_bytes() {
    assert_eq!(Integer::from_bytes(&[255, 255, 255, 254]), Some(Integer::new(-2)));
    assert_eq!(Integer::from_bytes(&[1, 2, 3]), None);
    assert_eq!(Integer::new(258).to_bytes(), Some(vec![2, 1, 0, 0]));
    assert_eq!(Integer::new(-1).to_bytes(), Some(vec![255, 255, 255, 255]));
    assert_eq!(Integer::new(5).get_value(), 5);
    assert_eq!(Integer::get_size(), 4);
    assert!(Integer::new(1) < Integer::new(2));
}

#[test]
fn integer_two_complement_bytes() {
    assert_eq!(Integer::new(-2).bytes(), vec![254, 255, 255, 255]);
    assert_eq!(Integer::read(&[0, 0, 1, 0]), Some(Integer::new(256)));
}
