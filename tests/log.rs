use sueql::buf_key::BufKey;
use sueql::error::ErrorKind;
use sueql::log::{LogEntry, LogMgr, OpType};

#[test]
fn lsns_rise_one_by_one() {
    let mut log = LogMgr::new(0);
    let k = BufKey::new(1, 1, false);
    let mut last = 0;
    for i in 0..5u64 {
        let e = log.make_entry(k, OpType::InsertTuple, vec![i as u8]);
        assert_eq!(e.lsn, i + 1);
        assert!(e.lsn > last);
        last = e.lsn;
    }
    assert_eq!(log.next_lsn(), 6);
    assert_eq!(log.flushed_lsn(), 0);
}

#[test]
fn entry_stored_form() {
    let e = LogEntry { lsn: 3, buf_key: BufKey::new(2, 1, true), op: OpType::OverwriteTuple, payload: vec![9, 8] };
    let d = e.to_data();
    assert_eq!(
        d,
        vec![3, 0, 0, 0, 0, 0, 0, 0, 2, 0, 0, 0, 1, 0, 0, 0, 0, 0, 0, 0, 1, 1, 2, 0, 0, 0, 9, 8]
    );
    let mut more = d.clone();
    more.push(77);
    let (back, n) = LogEntry::from_data(&more).unwrap();
    assert_eq!(n, d.len());
    assert_eq!(back.lsn, 3);
    assert_eq!(back.buf_key, BufKey::new(2, 1, true));
    assert_eq!(back.op, OpType::OverwriteTuple);
    assert_eq!(back.payload, vec![9, 8]);
    assert!(matches!(LogEntry::from_data(&d[..27]), Err(ErrorKind::InvalidData)));
    let mut bad_op = d.clone();
    bad_op[21] = 7;
    assert!(matches!(LogEntry::from_data(&bad_op), Err(ErrorKind::InvalidData)));
}

#[test]
fn flush_hands_out_the_tail() {
    let mut log = LogMgr::new(0);
    let k = BufKey::new(1, 1, false);
    let a = log.make_entry(k, OpType::InsertTuple, vec![1]);
    let b = log.make_entry(k, OpType::InsertTuple, vec![2, 3]);
    let expected: Vec<u8> = [a.to_data(), b.to_data()].concat();
    log.write_entries(vec![a, b]);
    assert!(matches!(log.flush_through(3), Err(ErrorKind::InvalidArgument)));
    let bytes = log.flush_through(2).unwrap();
    assert_eq!(bytes, expected);
    assert_eq!(log.flushed_lsn(), 2);
    assert_eq!(log.flush_through(1).unwrap(), Vec::<u8>::new());
}

#[test]
fn parse_all_splits_records() {
    let k = BufKey::new(1, 1, false);
    let a = LogEntry { lsn: 1, buf_key: k, op: OpType::InsertTuple, payload: vec![1, 2, 3] };
    let b = LogEntry { lsn: 2, buf_key: k, op: OpType::NewPage, payload: vec![] };
    let bytes: Vec<u8> = [a.to_data(), b.to_data()].concat();
    let es = LogEntry::parse_all(&bytes).unwrap();
    assert_eq!(es.len(), 2);
    assert_eq!(es[0].payload, vec![1, 2, 3]);
    assert_eq!(es[1].lsn, 2);
    assert_eq!(es[1].op, OpType::NewPage);
    assert!(matches!(LogEntry::parse_all(&bytes[..bytes.len() - 1]), Err(ErrorKind::InvalidData)));
}
