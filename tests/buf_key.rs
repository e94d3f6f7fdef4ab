use sueql::buf_key::BufKey;
use sueql::error::ErrorKind;

#[test]
fn key_file_names() {
    let k = BufKey::new(12, 3, false);
    assert_eq!(k.to_filename("data".to_string()), "data/12.dat");
    let t = BufKey::new(0, 1, true);
    assert_eq!(t.to_filename("./d".to_string()), "./d/temp/0.dat");
}

#[test]
fn key_byte_offset() {
    assert_eq!(BufKey::new(1, 0, false).byte_offset(), 0);
    assert_eq!(BufKey::new(1, 3, false).byte_offset(), 3 * 4096);
}

#[test]
fn key_stored_form() {
    let k = BufKey::new(0x01020304, 5, false);
    let d = k.to_data();
    assert_eq!(d, vec![4, 3, 2, 1, 5, 0, 0, 0, 0, 0, 0, 0, 0]);
    assert_eq!(BufKey::size(), 13);
    let mut more = d.clone();
    more.push(7);
    let (back, rest) = BufKey::from_data(more).unwrap();
    assert_eq!(back, k);
    assert_eq!(rest, vec![7]);
    let t = BufKey::new(0, 9, true);
    let (back, rest) = BufKey::from_data(t.to_data()).unwrap();
    assert_eq!(back, t);
    assert!(rest.is_empty());
    assert!(matches!(BufKey::from_data(vec![1, 2, 3]), Err(ErrorKind::InvalidData)));
    let mut bad = d.clone();
    bad[12] = 2;
    assert!(matches!(BufKey::from_data(bad), Err(ErrorKind::InvalidData)));
}
