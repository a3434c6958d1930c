use kvrs::{Storage, StorageError, VacantBlock};

fn bytes(n: usize, fill: u8) -> Vec<u8> {
    vec![fill; n]
}

#[test]
fn set_and_get() {
    let mut st = Storage::new_vectored().unwrap();
    st.set(b"alpha".to_vec(), &bytes(10, 0xaa)).unwrap();
    st.set(b"beta".to_vec(), &bytes(3, 0xbb)).unwrap();
    assert_eq!(st.get(&b"alpha".to_vec()).unwrap(), Some(bytes(10, 0xaa)));
    assert_eq!(st.get(&b"beta".to_vec()).unwrap(), Some(bytes(3, 0xbb)));
    assert_eq!(st.get(&b"gamma".to_vec()).unwrap(), None);
}

#[test]
fn set_existing_key_replaces_value() {
    let mut st = Storage::new_vectored().unwrap();
    st.set(b"k".to_vec(), &bytes(6, 1)).unwrap();
    st.set(b"k".to_vec(), &bytes(6, 2)).unwrap();
    assert_eq!(st.get(&b"k".to_vec()).unwrap(), Some(bytes(6, 2)));
}

#[test]
fn empty_value_round_trips() {
    let mut st = Storage::new_vectored().unwrap();
    st.set(b"empty".to_vec(), &Vec::new()).unwrap();
    assert_eq!(st.get(&b"empty".to_vec()).unwrap(), Some(Vec::new()));
    let reopened = Storage::from_vec(st.buffer().clone()).unwrap();
    assert_eq!(reopened.get(&b"empty".to_vec()).unwrap(), Some(Vec::new()));
}

#[test]
fn round_trip_reopen() {
    let mut st = Storage::new_vectored().unwrap();
    let pairs: Vec<(Vec<u8>, Vec<u8>)> = vec![
        (b"one".to_vec(), bytes(17, 0x11)),
        (b"two".to_vec(), bytes(1, 0x22)),
        (vec![0, 255, 7], bytes(64, 0x33)),
        (b"four".to_vec(), Vec::new()),
    ];
    for (k, v) in &pairs {
        st.set(k.clone(), v).unwrap();
    }
    let reopened = Storage::from_vec(st.buffer().clone()).unwrap();
    for (k, v) in &pairs {
        assert_eq!(reopened.get(k).unwrap(), Some(v.clone()));
    }
    assert_eq!(reopened.data_end(), st.data_end());
    assert_eq!(reopened.vacant_list(), st.vacant_list());
}

#[test]
fn reopen_keeps_vacant_blocks() {
    let mut st = Storage::new_vectored().unwrap();
    st.set(b"a".to_vec(), &bytes(30, 1)).unwrap();
    st.set(b"b".to_vec(), &bytes(30, 2)).unwrap();
    st.remove(&b"a".to_vec()).unwrap();
    assert_eq!(st.vacant_list().as_slice(), &[VacantBlock::new(25, 30)]);
    let reopened = Storage::from_vec(st.buffer().clone()).unwrap();
    assert_eq!(reopened.vacant_list().as_slice(), &[VacantBlock::new(25, 30)]);
    assert_eq!(reopened.get(&b"b".to_vec()).unwrap(), Some(bytes(30, 2)));
}

#[test]
fn remove_missing_key_changes_nothing() {
    let mut st = Storage::new_vectored().unwrap();
    st.set(b"keep".to_vec(), &bytes(8, 9)).unwrap();
    let before_buffer = st.buffer().clone();
    let before_vacant = st.vacant_list().clone();
    let before_end = st.data_end();

    assert_eq!(st.remove(&b"absent".to_vec()), Err(StorageError::KeyNotFound));

    assert_eq!(st.buffer(), &before_buffer);
    assert_eq!(st.vacant_list(), &before_vacant);
    assert_eq!(st.data_end(), before_end);
    assert_eq!(st.get(&b"keep".to_vec()).unwrap(), Some(bytes(8, 9)));
}

#[test]
fn update_missing_key_fails() {
    let mut st = Storage::new_vectored().unwrap();
    assert_eq!(
        st.update(b"absent".to_vec(), &bytes(4, 0)),
        Err(StorageError::KeyNotFound)
    );
}

#[test]
fn allocator_reuse_scenario() {
    let mut st = Storage::new_vectored().unwrap();
    st.set(b"a".to_vec(), &bytes(100, 0xaa)).unwrap();
    assert_eq!(st.data_end(), 125);
    st.remove(&b"a".to_vec()).unwrap();
    assert_eq!(st.vacant_list().as_slice(), &[VacantBlock::new(25, 100)]);

    st.set(b"b".to_vec(), &bytes(50, 0xbb)).unwrap();
    // "b" sits inside the freed block; a 50-byte residual block remains and
    // the data region did not grow.
    assert_eq!(st.data_end(), 125);
    assert_eq!(st.vacant_list().as_slice(), &[VacantBlock::new(75, 50)]);
    assert_eq!(st.get(&b"b".to_vec()).unwrap(), Some(bytes(50, 0xbb)));
}

#[test]
fn update_in_place_vs_move_scenario() {
    let mut st = Storage::new_vectored().unwrap();
    st.set(b"k".to_vec(), &bytes(10, 0x10)).unwrap();
    assert_eq!(st.data_end(), 35);

    st.update(b"k".to_vec(), &bytes(40, 0x40)).unwrap();
    // The old 10-byte block is vacant; the new 40 bytes did not fit in it,
    // so they were appended.
    assert_eq!(st.vacant_list().as_slice(), &[VacantBlock::new(25, 10)]);
    assert_eq!(st.data_end(), 75);
    assert_eq!(st.get(&b"k".to_vec()).unwrap(), Some(bytes(40, 0x40)));
}

#[test]
fn update_reuses_freed_space() {
    let mut st = Storage::new_vectored().unwrap();
    st.set(b"k".to_vec(), &bytes(40, 0x40)).unwrap();
    st.update(b"k".to_vec(), &bytes(10, 0x10)).unwrap();
    // The new value fits into the freed 40-byte block: placed at its start,
    // 30 bytes remain vacant, the region does not grow.
    assert_eq!(st.data_end(), 65);
    assert_eq!(st.vacant_list().as_slice(), &[VacantBlock::new(35, 30)]);
    assert_eq!(st.get(&b"k".to_vec()).unwrap(), Some(bytes(10, 0x10)));
}

#[test]
fn compaction_scenario() {
    let mut st = Storage::new_vectored().unwrap();
    st.set(b"a".to_vec(), &bytes(20, 0xa1)).unwrap();
    st.set(b"b".to_vec(), &bytes(30, 0xb2)).unwrap();
    st.set(b"c".to_vec(), &bytes(10, 0xc3)).unwrap();
    st.set(b"d".to_vec(), &bytes(5, 0xd4)).unwrap();
    st.remove(&b"a".to_vec()).unwrap();
    st.remove(&b"c".to_vec()).unwrap();
    assert_eq!(st.vacant_list().len(), 2);

    st.compact().unwrap();

    assert!(st.vacant_list().is_empty());
    assert_eq!(st.data_end(), 25 + 30 + 5);
    assert_eq!(st.get(&b"b".to_vec()).unwrap(), Some(bytes(30, 0xb2)));
    assert_eq!(st.get(&b"d".to_vec()).unwrap(), Some(bytes(5, 0xd4)));
    assert_eq!(st.get(&b"a".to_vec()).unwrap(), None);
    // The live values lie contiguously from the start of the data region,
    // in index order.
    assert_eq!(&st.buffer()[25..55], bytes(30, 0xb2).as_slice());
    assert_eq!(&st.buffer()[55..60], bytes(5, 0xd4).as_slice());

    let reopened = Storage::from_vec(st.buffer().clone()).unwrap();
    assert_eq!(reopened.get(&b"b".to_vec()).unwrap(), Some(bytes(30, 0xb2)));
    assert_eq!(reopened.get(&b"d".to_vec()).unwrap(), Some(bytes(5, 0xd4)));
}

#[test]
fn open_rejects_wrong_identifier() {
    let st = Storage::new_vectored().unwrap();
    let mut b = st.buffer().clone();
    b[0] = 0;
    assert!(matches!(
        Storage::from_vec(b),
        Err(StorageError::DataFormat(_))
    ));
}
