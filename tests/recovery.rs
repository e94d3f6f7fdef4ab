use sueql::buf_key::BufKey;
use sueql::buf_mgr::BufMgr;
use sueql::buf_page::BufPage;
use sueql::data_type::{DataType, Literal};
use sueql::error::ErrorKind;
use sueql::log::{LogEntry, LogMgr, OpType};
use sueql::rel::Rel;
use sueql::tuple_desc::{Column, TupleDesc};

fn desc() -> TupleDesc {
    TupleDesc::new(&vec![Column { name: "v".to_string(), kind: DataType::VarChar }])
}

#[test]
fn recovery_scenario() {
    let id = 11;
    let meta = BufKey::new(id, 0, false);
    let data = BufKey::new(id, 1, false);
    let mut bm = BufMgr::new(None, "data".to_string());
    let mut log = LogMgr::new(0);
    bm.fault_in(BufPage::new_empty(&meta), &mut log).unwrap();
    bm.fault_in(BufPage::new_empty(&data), &mut log).unwrap();
    let rel = Rel::new_meta_rel(id, desc(), &mut bm).unwrap();
    let meta_image = bm.store_buf(&meta, &mut log).unwrap().unwrap().page_data;
    let row = rel.tuple_desc().encode(&vec![Literal::String("R".to_string())]).unwrap();
    rel.write_new_tuple(&row, &mut bm, &mut log).unwrap();
    let wal = log.flush_through(log.next_lsn() - 1).unwrap();
    drop(bm);

    let entries = LogEntry::parse_all(&wal).unwrap();
    assert_eq!(entries.len(), 1);
    let mut bm = BufMgr::new(None, "data".to_string());
    let mut log = LogMgr::new(entries[entries.len() - 1].lsn);
    bm.fault_in(BufPage::load_from(&meta_image, &meta).unwrap(), &mut log).unwrap();
    let mut page = BufPage::load_from(&vec![0u8; 4096], &data).unwrap();
    for e in &entries {
        assert_eq!(e.replay_on(&mut page), Ok(true));
        assert_eq!(e.replay_on(&mut page), Ok(false));
    }
    bm.fault_in(page, &mut log).unwrap();
    let rel = Rel::load(id, &bm, 2 * 4096).unwrap();
    let all = rel.scan(&bm).unwrap();
    assert_eq!(all, vec![row]);
}

#[test]
fn replay_rejections() {
    let k = BufKey::new(1, 1, false);
    let mut page = BufPage::new_empty(&k);
    let other = LogEntry { lsn: 1, buf_key: BufKey::new(1, 2, false), op: OpType::InsertTuple, payload: vec![1] };
    assert_eq!(other.replay_on(&mut page), Err(ErrorKind::InvalidArgument));
    let ow = LogEntry { lsn: 1, buf_key: k, op: OpType::OverwriteTuple, payload: vec![1] };
    assert_eq!(ow.replay_on(&mut page), Err(ErrorKind::Unsupported));
    let np = LogEntry { lsn: 1, buf_key: k, op: OpType::NewPage, payload: vec![] };
    assert_eq!(np.replay_on(&mut page), Ok(false));
    assert!(matches!(LogEntry::parse_all(&[1, 2, 3]), Err(ErrorKind::InvalidData)));
    assert_eq!(LogEntry::parse_all(&[]).unwrap().len(), 0);
}

#[test]
fn user_relation_is_cataloged() {
    let catalog_desc = TupleDesc::new(&vec![
        Column { name: "name".to_string(), kind: DataType::VarChar },
        Column { name: "rel_id".to_string(), kind: DataType::VarChar },
    ]);
    let mut bm = BufMgr::new(None, "data".to_string());
    let mut log = LogMgr::new(0);
    for k in [BufKey::new(1, 0, false), BufKey::new(1, 1, false), BufKey::new(20, 0, false)] {
        bm.fault_in(BufPage::new_empty(&k), &mut log).unwrap();
    }
    let tables = Rel::new_meta_rel(1, catalog_desc, &mut bm).unwrap();
    let users = Rel::new("users".to_string(), desc(), 20, &tables, &mut bm, &mut log).unwrap();
    assert_eq!(users.rel_id, 20);
    let rows = tables.scan(&bm).unwrap();
    assert_eq!(rows.len(), 1);
    assert_eq!(tables.data_to_strings(&rows[0], None), Some(vec!["users".to_string(), "20".to_string()]));
    let mut more = Rel::from_parts(20, desc(), 1);
    more.add_data_page();
    assert_eq!(more.num_data_pages(), 2);
    assert!(matches!(Rel::new_meta_rel(30, desc(), &mut bm), Err(ErrorKind::NotFound)));
}

#[test]
fn id_allocator_hands_out_ids() {
    let id_rel_id = 2;
    let mut bm = BufMgr::new(None, "data".to_string());
    let mut log = LogMgr::new(0);
    let page = BufKey::new(id_rel_id, 1, false);
    bm.fault_in(BufPage::new_empty(&page), &mut log).unwrap();
    let alloc = Rel::from_parts(id_rel_id, TupleDesc::new(&vec![Column { name: "next".to_string(), kind: DataType::U32 }]), 1);
    assert_eq!(alloc.get_new_id(&mut bm, &mut log), Err(ErrorKind::InvalidData));
    bm.write_new_tuple(&page, &[10, 0, 0, 0], 0).unwrap();
    assert_eq!(alloc.get_new_id(&mut bm, &mut log), Ok(10));
    assert_eq!(alloc.get_new_id(&mut bm, &mut log), Ok(11));
    let rows = alloc.scan(&bm).unwrap();
    assert_eq!(rows, vec![vec![12, 0, 0, 0]]);
    assert_eq!(bm.get_page(&page).unwrap().last_lsn(), 2);
    let other = Rel::from_parts(99, desc(), 1);
    assert_eq!(other.get_new_id(&mut bm, &mut log), Err(ErrorKind::NotFound));
}

#[test]
fn pool_overwrite_rules() {
    let mut bm = BufMgr::new(None, "data".to_string());
    let mut log = LogMgr::new(0);
    let k = BufKey::new(3, 1, false);
    bm.fault_in(BufPage::new_empty(&k), &mut log).unwrap();
    bm.write_new_tuple(&k, &[1, 2], 1).unwrap();
    assert_eq!(bm.overwrite_tuple(&k, 0, &[3, 4], 5), Ok(()));
    assert_eq!(bm.overwrite_tuple(&k, 0, &[3], 6), Err(ErrorKind::Unsupported));
    assert_eq!(bm.overwrite_tuple(&k, 1, &[3, 4], 6), Err(ErrorKind::InvalidArgument));
    assert_eq!(bm.overwrite_tuple(&BufKey::new(3, 2, false), 0, &[3, 4], 6), Err(ErrorKind::NotFound));
    assert_eq!(bm.get_page(&k).unwrap().last_lsn(), 5);
    let mut it = bm.get_page(&k).unwrap().iter();
    assert_eq!(it.next(), Some(&[3u8, 4][..]));
}

#[test]
fn pool_replays_entries() {
    let mut bm = BufMgr::new(None, "data".to_string());
    let mut log = LogMgr::new(0);
    let k = BufKey::new(4, 1, false);
    let e = LogEntry { lsn: 3, buf_key: k, op: OpType::InsertTuple, payload: vec![9] };
    assert_eq!(bm.replay_entry(&e), Err(ErrorKind::NotFound));
    bm.fault_in(BufPage::new_empty(&k), &mut log).unwrap();
    assert_eq!(bm.replay_entry(&e), Ok(true));
    assert_eq!(bm.replay_entry(&e), Ok(false));
    assert_eq!(bm.get_page(&k).unwrap().last_lsn(), 3);
    assert_eq!(bm.get_page(&k).unwrap().tuple_count(), 1);
}

#[test]
fn constructors_state_their_pages() {
    let mut bm = BufMgr::new(None, "data".to_string());
    let mut log = LogMgr::new(0);
    bm.fault_in(BufPage::new_empty(&BufKey::new(1, 0, false)), &mut log).unwrap();
    let tables = Rel::new_meta_rel(1, desc(), &mut bm).unwrap();
    assert!(matches!(
        Rel::new("self".to_string(), desc(), 1, &tables, &mut bm, &mut log),
        Err(ErrorKind::InvalidArgument)
    ));
    assert_eq!(log.next_lsn(), 1);
    let first = bm.new_temp_id();
    bm.fault_in(BufPage::new_empty(&BufKey::new(first + 1, 0, false)), &mut log).unwrap();
    let t = Rel::new_temp_rel(desc(), &mut bm).unwrap();
    assert_eq!(t.rel_id, first + 1);
    assert!(matches!(Rel::new_temp_rel(desc(), &mut bm), Err(ErrorKind::NotFound)));
}
