use sueql::buf_key::BufKey;
use sueql::buf_mgr::BufMgr;
use sueql::buf_page::BufPage;
use sueql::error::ErrorKind;
use sueql::log::{LogMgr, OpType};

fn assert_send<T: Send>() {}
fn assert_sync<T: Sync>() {}

#[test]
fn test_bufmgr_send_sync() {
    assert_send::<BufMgr>();
    assert_sync::<BufMgr>();
}

fn get(bm: &mut BufMgr, log: &mut LogMgr, key: BufKey) {
    if !bm.get_cached(&key) {
        assert!(bm.fault_in(BufPage::new_empty(&key), log).unwrap().is_none());
        bm.unpin(&key).unwrap();
    }
}

#[test]
fn clock_sweep_scenario() {
    let mut bm = BufMgr::new(Some(3), "data".to_string());
    let mut log = LogMgr::new(0);
    let k = |o: u64| BufKey::new(4, o, false);
    for o in 1..4 {
        assert!(bm.fault_in(BufPage::new_empty(&k(o)), &mut log).unwrap().is_none());
        bm.unpin(&k(o)).unwrap();
    }
    assert!(bm.has_buf(&k(1)) && bm.has_buf(&k(2)) && bm.has_buf(&k(3)));

    get(&mut bm, &mut log, k(0));
    assert!(!bm.has_buf(&k(1)));
    assert!(bm.has_buf(&k(0)));

    get(&mut bm, &mut log, k(1));
    assert!(!bm.has_buf(&k(2)));

    assert!(bm.get_cached(&k(3)));
    get(&mut bm, &mut log, k(2));
    assert!(!bm.has_buf(&k(3)));
    assert!(bm.has_buf(&k(0)) && bm.has_buf(&k(1)) && bm.has_buf(&k(2)));
}

#[test]
fn pinned_pages_stay() {
    let mut bm = BufMgr::new(Some(2), "data".to_string());
    let mut log = LogMgr::new(0);
    let k = |o: u64| BufKey::new(5, o, false);
    bm.fault_in(BufPage::new_empty(&k(0)), &mut log).unwrap();
    bm.fault_in(BufPage::new_empty(&k(1)), &mut log).unwrap();
    assert!(matches!(bm.fault_in(BufPage::new_empty(&k(2)), &mut log), Err(ErrorKind::OutOfBuffers)));
    bm.unpin(&k(0)).unwrap();
    assert!(bm.fault_in(BufPage::new_empty(&k(2)), &mut log).unwrap().is_none());
    assert!(!bm.has_buf(&k(0)));
    assert!(bm.has_buf(&k(1)));
    assert_eq!(bm.unpin(&k(0)), Err(ErrorKind::NotFound));
    bm.unpin(&k(1)).unwrap();
    assert_eq!(bm.unpin(&k(1)), Err(ErrorKind::InvalidArgument));
    assert_eq!(bm.pin(&k(1)), Ok(()));
}

#[test]
fn dirty_page_goes_out_after_its_log() {
    let mut bm = BufMgr::new(None, "data".to_string());
    let mut log = LogMgr::new(0);
    let key = BufKey::new(6, 1, false);
    bm.fault_in(BufPage::new_empty(&key), &mut log).unwrap();
    let e = log.make_entry(key, OpType::InsertTuple, vec![1, 2]);
    let lsn = e.lsn;
    let logged = e.to_data();
    log.write_entries(vec![e]);
    assert_eq!(bm.write_new_tuple(&key, &[1, 2], lsn), Ok(0));
    assert_eq!(bm.get_page(&key).unwrap().last_lsn(), lsn);
    let wb = bm.store_buf(&key, &mut log).unwrap().unwrap();
    assert_eq!(wb.key, key);
    assert_eq!(wb.log_data, logged);
    assert!(log.flushed_lsn() >= lsn);
    assert_eq!(&wb.page_data[4094..], &[1, 2]);
    assert!(!bm.get_page(&key).unwrap().is_dirty());
    assert!(bm.store_buf(&key, &mut log).unwrap().is_none());
    assert!(matches!(bm.store_buf(&BufKey::new(6, 2, false), &mut log), Err(ErrorKind::NotFound)));
}

#[test]
fn dirty_victim_is_written_back() {
    let mut bm = BufMgr::new(Some(1), "data".to_string());
    let mut log = LogMgr::new(0);
    let a = BufKey::new(7, 1, false);
    let b = BufKey::new(7, 2, false);
    bm.fault_in(BufPage::new_empty(&a), &mut log).unwrap();
    let e = log.make_entry(a, OpType::InsertTuple, vec![5]);
    let lsn = e.lsn;
    log.write_entries(vec![e]);
    bm.write_new_tuple(&a, &[5], lsn).unwrap();
    bm.unpin(&a).unwrap();
    let wb = bm.fault_in(BufPage::new_empty(&b), &mut log).unwrap().unwrap();
    assert_eq!(wb.key, a);
    assert!(!wb.log_data.is_empty());
    assert_eq!(log.flushed_lsn(), lsn);
    assert_eq!(wb.page_data[4095], 5);
    assert!(!bm.has_buf(&a));
}

#[test]
fn unbounded_pool_never_evicts() {
    let mut bm = BufMgr::new(None, "data".to_string());
    let mut log = LogMgr::new(0);
    for o in 0..20 {
        bm.fault_in(BufPage::new_empty(&BufKey::new(8, o, false)), &mut log).unwrap();
    }
    for o in 0..20 {
        assert!(bm.has_buf(&BufKey::new(8, o, false)));
    }
    assert_eq!(bm.write_new_tuple(&BufKey::new(8, 99, false), &[1], 1), Err(ErrorKind::NotFound));
    assert_eq!(bm.key_to_filename(BufKey::new(8, 0, false)), "data/8.dat");
    let t = bm.new_temp_id();
    assert_ne!(bm.new_temp_id(), t);
}

#[test]
fn file_length_rules() {
    let k = BufKey::new(3, 2, false);
    assert_eq!(BufMgr::page_start(&k, 3 * 4096), Ok(2 * 4096));
    assert_eq!(BufMgr::page_start(&k, 3 * 4096 - 1), Err(ErrorKind::NotFound));
    assert_eq!(BufMgr::check_new_page(&k, 2 * 4096), Ok(2 * 4096));
    assert_eq!(BufMgr::check_new_page(&k, 3 * 4096), Err(ErrorKind::InvalidArgument));
    assert_eq!(BufMgr::check_new_page(&k, 2 * 4096 + 1), Err(ErrorKind::InvalidArgument));
    assert_eq!(BufMgr::check_new_page(&BufKey::new(3, 0, false), 0), Ok(0));
}

#[test]
fn pool_lists_its_keys() {
    let mut bm = BufMgr::new(Some(4), "data".to_string());
    let mut log = LogMgr::new(0);
    assert!(bm.keys().is_empty());
    let a = BufKey::new(2, 0, false);
    let b = BufKey::new(2, 5, false);
    bm.fault_in(BufPage::new_empty(&a), &mut log).unwrap();
    bm.fault_in(BufPage::new_empty(&b), &mut log).unwrap();
    let keys = bm.keys();
    assert_eq!(keys.len(), 2);
    assert!(keys.contains(&a) && keys.contains(&b));
    let t = bm.new_temp_id();
    assert_eq!(bm.new_temp_id(), t + 1);
}

#[test]
fn pin_counts_bound() {
    let mut bm = BufMgr::new(None, "data".to_string());
    let mut log = LogMgr::new(0);
    let k = BufKey::new(1, 0, false);
    bm.fault_in(BufPage::new_empty(&k), &mut log).unwrap();
    assert_eq!(bm.pin(&k), Ok(()));
    assert_eq!(bm.unpin(&k), Ok(()));
    assert_eq!(bm.unpin(&k), Ok(()));
    assert_eq!(bm.unpin(&k), Err(ErrorKind::InvalidArgument));
    assert_eq!(bm.pin(&BufKey::new(1, 1, false)), Err(ErrorKind::NotFound));
}
