use sueql::buf_key::{BufKey, PAGE_SIZE};
use sueql::buf_page::{BufPage, TuplePtr, HEADER_SIZE};
use sueql::error::ErrorKind;

fn key() -> BufKey {
    BufKey::new(9, 1, false)
}

#[test]
fn empty_page_layout() {
    let p = BufPage::new_empty(&key());
    assert_eq!(p.tuple_count(), 0);
    assert_eq!(p.upper_ptr(), PAGE_SIZE);
    assert_eq!(p.lower_ptr(), HEADER_SIZE);
    assert_eq!(p.available_data_space(), PAGE_SIZE - HEADER_SIZE - 4);
    assert_eq!(p.data().len(), PAGE_SIZE);
    assert_eq!(&p.data()[0..8], &[0, 16, 0, 0, 8, 0, 0, 0]);
    assert!(!p.is_dirty());
}

#[test]
fn append_and_read_back() {
    let mut p = BufPage::new_empty(&key());
    assert_eq!(p.write_tuple_data(&[1, 2, 3], None, Some(4)), Ok(0));
    assert_eq!(p.write_tuple_data(&[4, 5], None, Some(2)), Ok(1));
    assert_eq!(p.write_tuple_data(&[], None, None), Ok(2));
    assert_eq!(p.tuple_count(), 3);
    assert_eq!(p.upper_ptr(), PAGE_SIZE - 5);
    assert_eq!(p.lower_ptr(), HEADER_SIZE + 12);
    assert_eq!(p.last_lsn(), 4);
    assert!(p.is_dirty());
    assert_eq!(p.get_tuple_data(&TuplePtr::new(key(), 0)).unwrap(), &[1, 2, 3]);
    assert_eq!(p.get_tuple_data(&TuplePtr::new(key(), 1)).unwrap(), &[4, 5]);
    assert_eq!(p.get_tuple_data(&TuplePtr::new(key(), 2)).unwrap(), &[] as &[u8]);
    let mut it = p.iter();
    assert_eq!(it.next(), Some(&[1u8, 2, 3][..]));
    assert_eq!(it.next(), Some(&[4u8, 5][..]));
    assert_eq!(it.next(), Some(&[][..]));
    assert_eq!(it.next(), None);
    assert_eq!(p.iter().count(), 3);
    let mut it = p.iter();
    it.next();
    assert_eq!(it.count(), 2);
}

#[test]
fn bad_pointers_are_rejected() {
    let mut p = BufPage::new_empty(&key());
    p.write_tuple_data(&[1], None, None).unwrap();
    assert_eq!(p.get_tuple_data(&TuplePtr::new(key(), 1)), Err(ErrorKind::InvalidArgument));
    let other = BufKey::new(9, 2, false);
    assert_eq!(p.get_tuple_data(&TuplePtr::new(other, 0)), Err(ErrorKind::InvalidArgument));
    assert_eq!(
        p.write_tuple_data(&[1], Some(&TuplePtr::new(key(), 3)), None),
        Err(ErrorKind::InvalidArgument)
    );
}

#[test]
fn overwrite_in_place() {
    let mut p = BufPage::new_empty(&key());
    p.write_tuple_data(&[1, 1], None, None).unwrap();
    p.write_tuple_data(&[2, 2, 2], None, None).unwrap();
    let ptr = TuplePtr::new(key(), 0);
    assert_eq!(p.write_tuple_data(&[7, 8], Some(&ptr), Some(9)), Ok(0));
    assert_eq!(p.get_tuple_data(&ptr).unwrap(), &[7, 8]);
    assert_eq!(p.get_tuple_data(&TuplePtr::new(key(), 1)).unwrap(), &[2, 2, 2]);
    assert_eq!(p.last_lsn(), 9);
    assert_eq!(p.write_tuple_data(&[7, 8, 9], Some(&ptr), None), Err(ErrorKind::Unsupported));
    assert_eq!(p.get_tuple_data(&ptr).unwrap(), &[7, 8]);
}

#[test]
fn page_fills_up() {
    let mut p = BufPage::new_empty(&key());
    let t = vec![3u8; 1300];
    assert_eq!(p.write_tuple_data(&t, None, None), Ok(0));
    assert_eq!(p.write_tuple_data(&t, None, None), Ok(1));
    assert_eq!(p.write_tuple_data(&t, None, None), Ok(2));
    assert_eq!(p.available_data_space(), PAGE_SIZE - HEADER_SIZE - 3 * 1304 - 4);
    assert_eq!(p.write_tuple_data(&t, None, None), Err(ErrorKind::NoSpace));
    assert_eq!(p.tuple_count(), 3);
    let small = vec![1u8; PAGE_SIZE - HEADER_SIZE - 3 * 1304 - 4];
    assert_eq!(p.write_tuple_data(&small, None, None), Ok(3));
    assert_eq!(p.available_data_space(), 0);
    assert_eq!(p.write_tuple_data(&[], None, None), Err(ErrorKind::NoSpace));
}

#[test]
fn load_from_images() {
    let zero = vec![0u8; PAGE_SIZE];
    let p = BufPage::load_from(&zero, &key()).unwrap();
    assert_eq!(p.tuple_count(), 0);
    assert_eq!(p.upper_ptr(), PAGE_SIZE);

    let mut q = BufPage::new_empty(&key());
    q.write_tuple_data(b"abc", None, Some(1)).unwrap();
    q.write_tuple_data(b"de", None, Some(2)).unwrap();
    let image = q.data().clone();
    let r = BufPage::load_from(&image, &key()).unwrap();
    assert_eq!(r.tuple_count(), 2);
    assert_eq!(r.get_tuple_data(&TuplePtr::new(key(), 1)).unwrap(), b"de");
    assert_eq!(r.last_lsn(), 0);
    assert!(!r.is_dirty());

    let mut bad = vec![0u8; PAGE_SIZE];
    bad[0] = 4;
    bad[4] = 8;
    assert!(matches!(BufPage::load_from(&bad, &key()), Err(ErrorKind::InvalidData)));
    let mut bad_slot = image.clone();
    bad_slot[8] = 0;
    bad_slot[9] = 0;
    assert!(matches!(BufPage::load_from(&bad_slot, &key()), Err(ErrorKind::InvalidData)));
}
