use sueql::buf_key::{BufKey, PAGE_SIZE};
use sueql::buf_mgr::BufMgr;
use sueql::buf_page::BufPage;
use sueql::data_type::{DataType, Literal};
use sueql::error::ErrorKind;
use sueql::log::{LogMgr, OpType};
use sueql::rel::Rel;
use sueql::tuple_desc::{Column, TupleDesc};

fn setup(id: u32) -> (Rel, BufMgr, LogMgr) {
    let desc = TupleDesc::new(&vec![
        Column { name: "a".to_string(), kind: DataType::I32 },
        Column { name: "b".to_string(), kind: DataType::VarChar },
    ]);
    let mut bm = BufMgr::new(None, "data".to_string());
    let mut log = LogMgr::new(0);
    bm.fault_in(BufPage::new_empty(&BufKey::new(id, 0, false)), &mut log).unwrap();
    bm.fault_in(BufPage::new_empty(&BufKey::new(id, 1, false)), &mut log).unwrap();
    let rel = Rel::from_parts(id, desc, 1);
    rel.write_new_rel(&mut bm).unwrap();
    (rel, bm, log)
}

#[test]
fn insert_then_scan() {
    let (rel, mut bm, mut log) = setup(3);
    let row = rel.tuple_desc().encode(&vec![Literal::Integer(42), Literal::String("hi".to_string())]).unwrap();
    let ptr = rel.write_new_tuple(&row, &mut bm, &mut log).unwrap();
    assert_eq!(ptr.buf_key(), BufKey::new(3, 1, false));
    assert_eq!(ptr.buf_offset(), 0);
    let other = rel.tuple_desc().encode(&vec![Literal::Integer(1), Literal::String("".to_string())]).unwrap();
    rel.write_new_tuple(&other, &mut bm, &mut log).unwrap();
    let all = rel.scan(&bm).unwrap();
    assert_eq!(all, vec![row.clone(), other]);
    assert_eq!(all.iter().filter(|t| **t == row).count(), 1);
    assert_eq!(rel.data_to_strings(&all[0], None), Some(vec!["42".to_string(), "hi".to_string()]));
    let page = bm.get_page(&BufKey::new(3, 1, false)).unwrap();
    assert_eq!(page.last_lsn(), 2);
    assert_eq!(log.next_lsn(), 3);
}

#[test]
fn insert_rejects_and_reports_full_page() {
    let (rel, mut bm, mut log) = setup(4);
    assert_eq!(rel.write_new_tuple(&[1, 2, 3], &mut bm, &mut log), Err(ErrorKind::InvalidData));
    let big = "x".repeat(1200);
    let row = rel.tuple_desc().encode(&vec![Literal::Integer(0), Literal::String(big)]).unwrap();
    for _ in 0..3 {
        rel.write_new_tuple(&row, &mut bm, &mut log).unwrap();
    }
    assert_eq!(rel.write_new_tuple(&row, &mut bm, &mut log), Err(ErrorKind::NoSpace));
    let lonely = Rel::from_parts(4, TupleDesc::new(&vec![Column { name: "a".to_string(), kind: DataType::I32 }]), 2);
    assert_eq!(lonely.write_new_tuple(&[0, 0, 0, 0], &mut bm, &mut log), Err(ErrorKind::NotFound));
    assert!(matches!(lonely.scan(&bm), Err(ErrorKind::NotFound)));
}

#[test]
fn load_reads_descriptor_page() {
    let (_rel, bm, _log) = setup(5);
    let loaded = Rel::load(5, &bm, 3 * PAGE_SIZE as u64).unwrap();
    assert_eq!(loaded.rel_id, 5);
    assert_eq!(loaded.num_data_pages(), 2);
    assert_eq!(loaded.tuple_desc().num_attrs(), 2);
    assert_eq!(loaded.tuple_desc().columns[0].name, "a");
    assert_eq!(loaded.tuple_desc().columns[1].kind, DataType::VarChar);
    assert!(matches!(Rel::load(6, &bm, 3 * PAGE_SIZE as u64), Err(ErrorKind::NotFound)));
    assert!(matches!(Rel::load(5, &bm, 10), Err(ErrorKind::InvalidData)));
}

#[test]
fn literal_rows_for_a_relation() {
    let (rel, _bm, _log) = setup(8);
    let rows = rel
        .data_from_literal(&vec![vec![Literal::Integer(1), Literal::String("a".to_string())]])
        .unwrap();
    assert_eq!(rows, vec![vec![1, 0, 0, 0, 1, 0, b'a']]);
    assert_eq!(rel.data_from_literal(&vec![vec![Literal::Integer(1)]]), None);
    let _ = OpType::NewPage;
}

#[test]
fn full_page_moves_to_a_new_page() {
    let (mut rel, mut bm, mut log) = setup(12);
    let big = "y".repeat(1200);
    let row = rel.tuple_desc().encode(&vec![Literal::Integer(7), Literal::String(big)]).unwrap();
    for _ in 0..3 {
        rel.write_new_tuple(&row, &mut bm, &mut log).unwrap();
    }
    assert_eq!(rel.write_new_tuple(&row, &mut bm, &mut log), Err(ErrorKind::NoSpace));
    let next = rel.next_page_key();
    assert_eq!(next, BufKey::new(12, 2, false));
    assert_eq!(rel.write_into_new_page(&row, &mut bm, &mut log), Err(ErrorKind::NotFound));
    assert_eq!(rel.num_data_pages(), 1);
    bm.fault_in(BufPage::new_empty(&next), &mut log).unwrap();
    let ptr = rel.write_into_new_page(&row, &mut bm, &mut log).unwrap();
    assert_eq!(ptr.buf_key(), next);
    assert_eq!(ptr.buf_offset(), 0);
    assert_eq!(rel.num_data_pages(), 2);
    assert_eq!(rel.scan(&bm).unwrap().len(), 4);
}

#[test]
fn insert_needs_a_data_page() {
    let (_rel, mut bm, mut log) = setup(13);
    let none = Rel::from_parts(13, TupleDesc::new(&vec![Column { name: "a".to_string(), kind: DataType::I32 }]), 0);
    assert_eq!(none.write_new_tuple(&[1, 0, 0, 0], &mut bm, &mut log), Err(ErrorKind::NotFound));
    assert_eq!(log.next_lsn(), 1);
}
