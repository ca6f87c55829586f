use sha2::Digest;

use polka_storage::car::{read_block, write_block, Error, IndexEntry, V2Header, V2_HEADER_SIZE};
use polka_storage::cid::{Cid, Multihash, IDENTITY_CODE, RAW_CODE, SHA_256_CODE};
use polka_storage::stores::{Config, FileBlockstore, GetAction, DEFAULT_CHUNK_SIZE, DEFAULT_TREE_WIDTH};

fn raw_cid(data: &[u8]) -> Cid {
    Cid::new_v1(RAW_CODE, Multihash::wrap(SHA_256_CODE, sha2::Sha256::digest(data).to_vec()))
}

fn frame_len(cid: &Cid, data: &[u8]) -> u64 {
    let mut out = Vec::new();
    write_block(&mut out, cid, data) as u64
}

#[test]
fn store_without_roots_is_refused() {
    let res = FileBlockstore::new(vec![], 59);
    assert!(matches!(res, Err(Error::EmptyRootsError)));
}

#[test]
fn store_identity_cid_is_always_there() {
    let root = raw_cid(b"root");
    let store = FileBlockstore::new(vec![root], 59).unwrap();
    let payload = b"Hello World!";
    let identity = Cid::new_v1(RAW_CODE, Multihash::wrap(IDENTITY_CODE, payload.to_vec()));
    assert!(store.has(&identity));
    match store.get(&identity) {
        GetAction::Identity(data) => assert_eq!(data, payload.to_vec()),
        _ => panic!("identity data expected"),
    }
}

#[test]
fn store_put_identity_writes_nothing() {
    let root = raw_cid(b"root");
    let mut store = FileBlockstore::new(vec![root], 59).unwrap();
    let identity = Cid::new_v1(RAW_CODE, Multihash::wrap(IDENTITY_CODE, b"inline".to_vec()));
    assert!(store.put_keyed(&identity, b"inline").is_none());
    let (header, rest) = store.finalize(None);
    assert_eq!(header.data_size, 59);
    let (_, entries) = rest.unwrap();
    assert!(entries.is_empty());
}

#[test]
fn store_put_then_get_reads_at_offset() {
    let root = raw_cid(b"root");
    let mut store = FileBlockstore::new(vec![root], 59).unwrap();
    let a = b"first block";
    let b = b"second block";
    let ca = raw_cid(a);
    let cb = raw_cid(b);
    assert!(!store.has(&ca));
    assert!(matches!(store.get(&ca), GetAction::NotFound));

    let fa = store.put_keyed(&ca, a).unwrap();
    assert_eq!(fa.len() as u64, frame_len(&ca, a));
    let fb = store.put_keyed(&cb, b).unwrap();
    assert!(store.has(&ca));
    assert!(store.has(&cb));
    match store.get(&ca) {
        GetAction::ReadAt(off) => assert_eq!(off, V2_HEADER_SIZE + 59),
        _ => panic!("offset expected"),
    }
    match store.get(&cb) {
        GetAction::ReadAt(off) => assert_eq!(off, V2_HEADER_SIZE + 59 + fa.len() as u64),
        _ => panic!("offset expected"),
    }

    let (header, rest) = store.finalize(None);
    let size = 59 + fa.len() as u64 + fb.len() as u64;
    assert_eq!(header.data_offset, V2_HEADER_SIZE);
    assert_eq!(header.data_size, size);
    assert_eq!(header.index_offset, V2_HEADER_SIZE + size);
    assert!(!header.characteristics.fully_indexed);
    let (v1, entries) = rest.unwrap();
    assert!(v1.is_none());
    assert_eq!(entries.len(), 2);
    assert_eq!(entries[0].digest, ca.hash.digest);
    assert_eq!(entries[0].offset, 59);
    assert_eq!(entries[1].digest, cb.hash.digest);
    assert_eq!(entries[1].offset, 59 + fa.len() as u64);
}

#[test]
fn store_put_twice_keeps_place_and_takes_new_offset() {
    let root = raw_cid(b"root");
    let mut store = FileBlockstore::new(vec![root], 10).unwrap();
    let a = b"aaa";
    let b = b"bbb";
    let ca = raw_cid(a);
    let cb = raw_cid(b);
    let fa = store.put_keyed(&ca, a).unwrap();
    let fb = store.put_keyed(&cb, b).unwrap();
    store.put_keyed(&ca, a).unwrap();
    let (_, rest) = store.finalize(None);
    let (_, entries) = rest.unwrap();
    assert_eq!(entries.len(), 2);
    assert_eq!(entries[0].digest, ca.hash.digest);
    assert_eq!(entries[0].offset, 10 + fa.len() as u64 + fb.len() as u64);
    assert_eq!(entries[1].offset, 10 + fa.len() as u64);
}

#[test]
fn store_finalize_with_new_roots() {
    let root = raw_cid(b"root");
    let store = FileBlockstore::new(vec![root], 59).unwrap();
    let (_, rest) = store.finalize(Some(vec![raw_cid(b"x"), raw_cid(b"y")]));
    assert!(matches!(rest, Err(Error::WrongNumberOfRoots)));
    let replacement = raw_cid(b"other root");
    let (_, rest) = store.finalize(Some(vec![replacement.copy()]));
    let (v1, _) = rest.unwrap();
    let v1 = v1.unwrap();
    assert_eq!(v1.version, 1);
    assert!(v1.roots[0].same(&replacement));
}

#[test]
fn store_from_existing_needs_an_index() {
    let root = raw_cid(b"root");
    let header = V2Header::new(false, V2_HEADER_SIZE, 100, 0);
    let res = FileBlockstore::from_existing(header, vec![root.copy()], &vec![]);
    assert!(matches!(res, Err(Error::EmptyIndexError)));

    let block = b"Hello World!";
    let cid = raw_cid(block);
    let entries = vec![IndexEntry { digest: cid.hash.digest.clone(), offset: 59 }];
    let header = V2Header::new(false, V2_HEADER_SIZE, 100, V2_HEADER_SIZE + 100);
    let store = FileBlockstore::from_existing(header, vec![root], &entries).unwrap();
    assert!(store.has(&cid));
    match store.get(&cid) {
        GetAction::ReadAt(off) => assert_eq!(off, V2_HEADER_SIZE + 59),
        _ => panic!("offset expected"),
    }
    assert!(!store.has(&raw_cid(b"absent")));
}

#[test]
fn config_constructors() {
    assert_eq!(DEFAULT_CHUNK_SIZE, 256 * 1024);
    assert_eq!(DEFAULT_TREE_WIDTH, 174);
    let Config::Balanced { chunk_size, tree_width, raw } = Config::default();
    assert_eq!((chunk_size, tree_width, raw), (DEFAULT_CHUNK_SIZE, DEFAULT_TREE_WIDTH, false));
    let Config::Balanced { chunk_size, tree_width, raw } = Config::balanced_raw(1024, 2);
    assert_eq!((chunk_size, tree_width, raw), (1024, 2, true));
    let Config::Balanced { chunk_size, tree_width, raw } = Config::balanced_unixfs(64, 3);
    assert_eq!((chunk_size, tree_width, raw), (64, 3, false));
    let Config::Balanced { raw, .. } = Config::balanced(1, 1, true);
    assert!(raw);
}

#[test]
fn store_blocks_put_are_read_back_from_the_file() {
    let root = raw_cid(b"root");
    let header_len = 59u64;
    let mut store = FileBlockstore::new(vec![root], header_len).unwrap();
    // The CARv2 header and the CARv1 header, as far as offsets go.
    let mut file = vec![0u8; (V2_HEADER_SIZE + header_len) as usize];
    let blocks: Vec<&[u8]> = vec![b"one", b"two two", b"three three three"];
    for b in &blocks {
        let frame = store.put_keyed(&raw_cid(b), b).unwrap();
        file.extend_from_slice(&frame);
    }
    for b in &blocks {
        let cid = raw_cid(b);
        match store.get(&cid) {
            GetAction::ReadAt(off) => {
                let (read_cid, data, _) = read_block(&file, off as usize).unwrap();
                assert!(read_cid.same(&cid));
                assert_eq!(data, b.to_vec());
            },
            _ => panic!("offset expected"),
        }
    }
}

#[test]
fn store_get_block_reads_the_data_back() {
    let root = raw_cid(b"root");
    let mut store = FileBlockstore::new(vec![root], 59).unwrap();
    let mut file = vec![0u8; (V2_HEADER_SIZE + 59) as usize];
    let blocks: Vec<&[u8]> = vec![b"alpha", b"beta beta"];
    for b in &blocks {
        file.extend_from_slice(&store.put_keyed(&raw_cid(b), b).unwrap());
    }
    for b in &blocks {
        assert_eq!(store.get_block(&raw_cid(b), &file).unwrap(), Some(b.to_vec()));
    }
    assert_eq!(store.get_block(&raw_cid(b"absent"), &file).unwrap(), None);
    let identity = Cid::new_v1(RAW_CODE, Multihash::wrap(IDENTITY_CODE, b"Hello World!".to_vec()));
    assert_eq!(store.get_block(&identity, &file).unwrap(), Some(b"Hello World!".to_vec()));
    // A file cut short before the block's frame.
    assert!(matches!(store.get_block(&raw_cid(b"alpha"), &file[..60]), Err(Error::IoError)));
}
