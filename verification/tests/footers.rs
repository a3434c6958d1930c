use indexmap::IndexMap;
use kvrs::{IoErrorKind, Storage, StorageError};
use rand::Rng;

type Index = IndexMap<Vec<u8>, (u64, u64)>;

#[test]
fn test_load_index() {
    // Just random bytes
    let tail_data: Vec<u8> = vec![
        73, 80, 42, 255, 0, 0, 123, 84, 19, 1, 2, 64, 90, 17, 48, 55, 33,
    ];

    let do_test = |index: Index| {
        let ser_ind = postcard::to_allocvec(&index).unwrap();

        let mut data: Vec<u8> = vec![0xc4, 0xb7, 0xd1, 0xb5, 0xc5, 0x97, 0xc5, 0xa1, 1];
        data.extend(&[0, 0, 0, 0, 0, 0, 0, 17]); // Index position
        data.extend((ser_ind.len() as u64).to_be_bytes());
        data.append(&mut ser_ind.clone());

        assert_eq!(Storage::load_index(&data), Ok(index.clone()),);

        data.extend(&tail_data);
        assert_eq!(Storage::load_index(&data), Ok(index),);
    };

    // Empty index
    do_test(Index::new());
    // Index length = 1
    do_test(Index::from([(vec![1, 2, 3], (123, 84))]));
    // Index length = 2
    do_test(Index::from([
        (vec![1, 2, 3], (123, 84)),
        (vec![10], (20, 50)),
    ]));

    // Random tests
    let mut rng = rand::thread_rng();
    for _ in 0..50 {
        let len = rng.gen_range(1..200usize);

        let mut ind = Index::with_capacity(len);
        for _ in 0..len {
            let key_len = rng.gen_range(1..300);
            let key = (0..key_len).map(|_| rng.gen::<u8>()).collect::<Vec<u8>>();
            let value_pos = rng.gen::<u64>();
            let value_len = rng.gen::<u64>();
            ind.insert(key, (value_pos, value_len));
        }

        do_test(ind);
    }
}

#[test]
fn test_initialize() {
    let st = Storage::new_vectored().unwrap();

    assert_eq!(
        st.buffer().as_slice(),
        &[
            196, 183, 209, 181, 197, 151, 197, 161, 1, 0, 0, 0, 0, 0, 0, 0, 25, 0, 0, 0, 0, 0, 0,
            0, 34, 0, 0, 0, 0, 0, 0, 0, 1, 0, 0, 0, 0, 0, 0, 0, 0, 1, 0
        ]
    );

    let left = Storage::from_vec(st.buffer().clone()).unwrap();

    assert_eq!(left, st);
}

#[test]
fn load_index_truncated_buffer() {
    // A valid prefix, but no room for the index footer offset.
    let data: Vec<u8> = vec![0xc4, 0xb7, 0xd1, 0xb5, 0xc5, 0x97, 0xc5, 0xa1, 1, 0, 0];
    assert_eq!(
        Storage::load_index(&data),
        Err(StorageError::IO(IoErrorKind::UnexpectedEof))
    );
}

#[test]
fn open_rejects_corrupt_index_payload() {
    let st = Storage::new_vectored().unwrap();
    let mut bytes = st.buffer().clone();
    // The index footer of a fresh store is the single byte at offset 33:
    // replace it with a length that runs past the end of the payload.
    bytes[33] = 0xff;
    assert_eq!(
        Storage::from_vec(bytes),
        Err(StorageError::FailedLoadIndex)
    );
}

#[test]
fn open_rejects_corrupt_vacant_payload() {
    let st = Storage::new_vectored().unwrap();
    let mut bytes = st.buffer().clone();
    // The vacant-list payload of a fresh store is the single byte at offset
    // 42: a dangling count byte makes it undecodable.
    bytes[42] = 0xff;
    assert_eq!(
        Storage::from_vec(bytes),
        Err(StorageError::FailedLoadFreeList)
    );
}

#[test]
fn open_rejects_truncated_buffer() {
    let st = Storage::new_vectored().unwrap();
    let mut bytes = st.buffer().clone();
    bytes.truncate(30);
    assert_eq!(
        Storage::from_vec(bytes),
        Err(StorageError::IO(IoErrorKind::UnexpectedEof))
    );
}
