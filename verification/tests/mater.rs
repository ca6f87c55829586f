use sha2::Digest;
use std::str::FromStr;

use polka_storage::car::{
    find_block, naive_build_index, pragma, read_block, read_block_metadata, read_header_frame, read_pragma,
    read_v2_header, stream_blocks_metadata, verify_cid, write_block, BlockMetadata, CarLayout, Characteristics,
    Error, Header, V2Header, V2_HEADER_SIZE,
};
use polka_storage::chunker::{byte_stream_chunker, Chunker};
use polka_storage::cid::{read_cid, read_multihash, Cid, CidExt, CidVersion, Multihash, IDENTITY_CODE, RAW_CODE, SHA_256_CODE, DAG_PB_CODE};
use polka_storage::unixfs::{encode_unixfs_file, sha256_cid_of, stream_balanced_tree, BalancedTree, LinkInfo, TreeNode};
use polka_storage::varint::{encode_varint, read_varint, required_space};
use polka_storage::walk::{TreeWalk, WalkStep};

fn sha256(data: &[u8]) -> Vec<u8> {
    sha2::Sha256::digest(data).to_vec()
}

fn raw_cid(data: &[u8]) -> Cid {
    Cid::new_v1(RAW_CODE, Multihash::wrap(SHA_256_CODE, sha256(data)))
}

/// The DAG-CBOR CARv1 header naming one 36-byte root, with its varint prefix.
fn v1_header_bytes(root: &Cid) -> Vec<u8> {
    let mut body = vec![0xa2, 0x65];
    body.extend_from_slice(b"roots");
    body.extend_from_slice(&[0x81, 0xd8, 0x2a, 0x58, 0x25, 0x00]);
    body.extend_from_slice(&root.to_bytes());
    body.push(0x67);
    body.extend_from_slice(b"version");
    body.push(0x01);
    let mut out = encode_varint(body.len() as u64);
    out.extend_from_slice(&body);
    out
}

/// A CARv2 file with one raw block of `data`, laid out as the importer does.
fn single_block_car(data: &[u8]) -> (Vec<u8>, Cid, V2Header) {
    let cid = raw_cid(data);
    let mut layout = CarLayout::new();
    let frame = layout.add_block(&cid, data).unwrap();
    let (v2, v1) = layout.finish().unwrap();
    let mut out = pragma();
    out.extend_from_slice(&v2.to_bytes());
    out.extend_from_slice(&v1_header_bytes(&v1.roots[0]));
    out.extend_from_slice(&frame);
    (out, cid, v2)
}

#[test]
fn varint_known_values() {
    assert_eq!(encode_varint(300), vec![0xac, 0x02]);
    assert_eq!(encode_varint(0), vec![0]);
    assert_eq!(required_space(300), 2);
    assert_eq!(required_space(u64::MAX), 10);
    assert_eq!(read_varint(&[0xac, 0x02, 0xff], 0), Some((300, 2)));
    assert_eq!(read_varint(&[0x80], 0), None);
    let max = encode_varint(u64::MAX);
    assert_eq!(read_varint(&max, 0), Some((u64::MAX, 10)));
}

#[test]
fn cid_v0_read_bytes_async() {
    let mh = ipld_core::cid::multihash::Multihash::<64>::wrap(0x12, &[0u8; 32]).unwrap();
    let built = ipld_core::cid::Cid::new_v0(mh).unwrap();
    let bytes = built.to_bytes();
    let (cid, read) = read_cid(&bytes, 0).unwrap();
    assert_eq!(cid.to_bytes(), bytes);
    assert_eq!(cid.version, CidVersion::V0);
    assert_eq!(read, 34);
}

#[test]
fn cid_v1_read_bytes_async() {
    let built = ipld_core::cid::Cid::from_str("bafkreiczsrdrvoybcevpzqmblh3my5fu6ui3tgag3jm3hsxvvhaxhswpyu").unwrap();
    let bytes = built.to_bytes();
    let (cid, read) = read_cid(&bytes, 0).unwrap();
    assert_eq!(cid.to_bytes(), bytes);
    assert_eq!(cid.codec, RAW_CODE);
    assert_eq!(read, 36);
}

#[test]
fn multihash_read_async() {
    let built = ipld_core::cid::multihash::Multihash::<64>::wrap(RAW_CODE, b"Hello World!").unwrap();
    let bytes = built.to_bytes();
    let (mh, read) = read_multihash(&bytes, 0, 64).unwrap();
    assert_eq!(mh.to_bytes(), bytes);
    assert_eq!(read, 14);
}

#[test]
fn multihash_read_async_digest_size_error() {
    let built = ipld_core::cid::multihash::Multihash::<64>::wrap(RAW_CODE, b"Hello World!").unwrap();
    assert!(read_multihash(&built.to_bytes(), 0, 5).is_err());
}

#[test]
fn identity_cid_data() {
    let id = Cid::new_v1(RAW_CODE, Multihash::wrap(IDENTITY_CODE, b"inline".to_vec()));
    assert_eq!(id.get_identity_data(), Some(&b"inline"[..]));
    assert_eq!(raw_cid(b"x").get_identity_data(), None);
}

#[test]
fn lorem_sized_layout_matches_carv2_header() {
    // A single raw block of 7564 bytes, as in the lorem fixture.
    let data = vec![b'l'; 7564];
    let (car, cid, v2) = single_block_car(&data);
    assert_eq!(v2.characteristics.bits(), 0);
    assert_eq!(v2.data_offset, 51);
    assert_eq!(v2.data_size, 7661);
    assert_eq!(v2.index_offset, 7712);
    assert_eq!(car.len(), 7712);
    assert!(read_pragma(&car, 0).is_ok());
    assert_eq!(read_v2_header(&car, 11).unwrap(), v2);
    assert!(matches!(read_header_frame(&car, 51), Ok((52, 58))));
    let blocks = stream_blocks_metadata(&car, 110, v2.data_offset + v2.data_size);
    assert!(blocks.1.is_none());
    assert_eq!(blocks.0.len(), 1);
    assert_eq!(blocks.0[0].data_size, 7564);
    assert_eq!(blocks.0[0].data_offset_source, 148);
    assert!(blocks.0[0].cid.same(&cid));
    let index = naive_build_index(&car, 110, v2.data_offset + v2.data_size).unwrap();
    assert_eq!(index.len(), 1);
    assert_eq!(index[0].block_offset, 110);
    assert!(find_block(&index, &cid).is_some());
    assert!(find_block(&index, &raw_cid(b"other")).is_none());
    let (read, read_data, n) = read_block(&car, 110).unwrap();
    assert!(read.same(&cid));
    assert_eq!(read_data, data);
    assert_eq!(n, 7602);
}

#[test]
fn verifying_the_root_cid() {
    let data = b"some file contents".to_vec();
    let (car, cid, _) = single_block_car(&data);
    assert!(verify_cid(&vec![cid.copy()], &car, 110, &cid).is_ok());
    let wrong = raw_cid(b"not it");
    assert!(matches!(verify_cid(&vec![cid.copy()], &car, 110, &wrong), Err(Error::InvalidCid)));
    assert!(matches!(verify_cid(&vec![wrong.copy()], &car, 110, &wrong), Err(Error::InvalidCid)));
}

#[test]
fn bad_pragma_and_v1_header_in_place_of_v2() {
    let mut bad = vec![0u8; 11];
    bad[0] = 1;
    assert!(matches!(read_pragma(&bad, 0), Err(Error::InvalidPragmaError(_))));
    let p = pragma();
    assert!(matches!(read_header_frame(&p, 0), Err(Error::VersionMismatchError { expected: 1, received: 2 })));
}

#[test]
fn v1_header_checks() {
    assert_eq!(Header::default().encoded_len(), 59);
    assert_eq!(Header::new(vec![raw_cid(b"a"), raw_cid(b"b")]).encoded_len(), 17 + 82 + 1);
    assert!(matches!(Header::from_decoded(2, vec![raw_cid(b"a")]), Err(Error::VersionMismatchError { expected: 1, received: 2 })));
    assert!(matches!(Header::from_decoded(1, vec![]), Err(Error::EmptyRootsError)));
    assert!(Header::from_decoded(1, vec![raw_cid(b"a")]).is_ok());
    assert!(matches!(CarLayout::new().finish(), Err(Error::EmptyRootsError)));
}

#[test]
fn header_v2_from_blocks() {
    let cid = raw_cid(b"x");
    let m = BlockMetadata { block_offset: 0, cid: cid.copy(), data_offset_source: 0, data_size: 7564 };
    assert_eq!(m.encoded_len(), 7602);
    let h = polka_storage::car::header_v2(&Header::default(), &vec![m]);
    assert_eq!(
        h,
        V2Header::new(false, V2_HEADER_SIZE, 7661, 7712)
    );
    assert_eq!(Characteristics::from_bits(1 << 127).map(|c| c.bits()), Some(1 << 127));
    assert!(Characteristics::from_bits(1).is_none());
}

#[test]
fn block_frames_roundtrip() {
    let cid = raw_cid(b"abc");
    let mut out = Vec::new();
    let n = write_block(&mut out, &cid, b"abc");
    assert_eq!(n, out.len());
    let (m, next) = read_block_metadata(&out, 0).unwrap();
    assert_eq!((m.block_offset, m.data_size, next), (0, 3, out.len() as u64));
    let (c, d, len) = read_block(&out, 0).unwrap();
    assert!(c.same(&cid));
    assert_eq!(d, b"abc".to_vec());
    assert_eq!(len, out.len());
    assert!(matches!(read_block(&out[..out.len() - 1], 0), Err(Error::IoError)));
}

#[test]
fn chunker_splits_into_fixed_chunks() {
    assert_eq!(
        byte_stream_chunker(b"abcdefg", 3),
        vec![b"abc".to_vec(), b"def".to_vec(), b"g".to_vec()]
    );
    assert_eq!(byte_stream_chunker(b"abcdef", 3), vec![b"abc".to_vec(), b"def".to_vec()]);
    assert!(byte_stream_chunker(b"", 3).is_empty());
    let mut c = Chunker::new(4);
    assert!(c.feed(b"ab").is_empty());
    assert_eq!(c.feed(b"cdefghij"), vec![b"abcd".to_vec(), b"efgh".to_vec()]);
    assert_eq!(c.finish(), Some(b"ij".to_vec()));
}

#[test]
fn unixfs_file_message_encoding() {
    assert_eq!(
        encode_unixfs_file(3, &vec![3], Some(b"abc")),
        vec![0x08, 0x02, 0x12, 0x03, b'a', b'b', b'c', 0x18, 0x03, 0x20, 0x03]
    );
    assert_eq!(encode_unixfs_file(300, &vec![1, 2], None), vec![0x08, 0x02, 0x18, 0xac, 0x02, 0x20, 0x01, 0x20, 0x02]);
}

#[test]
fn raw_single_chunk_root_is_the_leaf() {
    let blocks = stream_balanced_tree(&vec![b"test data".to_vec()], 174, true).unwrap();
    assert_eq!(blocks.len(), 1);
    let expected = ipld_core::cid::Cid::from_str("bafkreiern4acpjlva5gookrtc534gr4nmuj7pbvfsg6yslnbuv336izv7e").unwrap();
    assert_eq!(blocks[0].0.to_bytes(), expected.to_bytes());
    assert_eq!(blocks[0].1, b"test data".to_vec());
}

#[test]
fn raw_tree_of_three_chunks() {
    let chunks = vec![b"a".to_vec(), b"b".to_vec(), b"c".to_vec()];
    let blocks = stream_balanced_tree(&chunks, 2, true).unwrap();
    assert_eq!(blocks.len(), 6);
    assert!(blocks[0].0.same(&raw_cid(b"a")));
    assert!(blocks[1].0.same(&raw_cid(b"b")));
    assert_eq!(blocks[2].0.codec, DAG_PB_CODE);
    assert!(blocks[3].0.same(&raw_cid(b"c")));
    for (cid, bytes) in &blocks {
        assert_eq!(cid.hash.digest, sha256(bytes));
    }
    let root = &blocks[5];
    assert_eq!(root.0.codec, DAG_PB_CODE);
}

#[test]
fn duplicate_chunks_are_emitted_once() {
    let chunks = vec![b"same".to_vec(), b"same".to_vec()];
    let blocks = stream_balanced_tree(&chunks, 174, true).unwrap();
    assert_eq!(blocks.len(), 2);
    assert!(blocks[0].0.same(&raw_cid(b"same")));
    assert_eq!(blocks[1].0.codec, DAG_PB_CODE);
}

#[test]
fn unixfs_leaf_and_stem_sizes() {
    let ((cid, bytes), info) = TreeNode::encode_unixfs_leaf_node(b"hello");
    assert_eq!(cid.codec, DAG_PB_CODE);
    assert_eq!(cid.hash.digest, sha256(&bytes));
    assert_eq!(info, LinkInfo { raw_data_length: 5, encoded_data_length: bytes.len() as u64 });
    let ((stem, stem_bytes), stem_info) =
        TreeNode::encode_unixfs_stem_node(vec![(cid.copy(), info), (cid.copy(), info)]).unwrap();
    assert_eq!(stem.codec, DAG_PB_CODE);
    assert_eq!(stem_info.encoded_data_length, stem_bytes.len() as u64 + 2 * info.encoded_data_length);
    // The raw length of a UnixFS stem is that of its `File` message.
    assert_eq!(stem_info.raw_data_length, encode_unixfs_file(10, &vec![5, 5], None).len() as u64);
    let big = LinkInfo { raw_data_length: u64::MAX, encoded_data_length: 1 };
    assert!(TreeNode::encode_unixfs_stem_node(vec![(cid.copy(), big), (cid.copy(), big)]).is_none());
    let leaf = sha256_cid_of(RAW_CODE, b"hello");
    assert!(leaf.same(&raw_cid(b"hello")));
}

#[test]
fn balanced_tree_incremental_equals_whole() {
    let chunks: Vec<Vec<u8>> = (0u8..7).map(|i| vec![i; 3]).collect();
    let whole = stream_balanced_tree(&chunks, 3, false).unwrap();
    let mut tree = BalancedTree::new(3, false);
    let mut blocks = Vec::new();
    for c in &chunks {
        blocks.extend(tree.push(c).unwrap());
    }
    blocks.extend(tree.finish().unwrap());
    assert_eq!(whole.len(), blocks.len());
    for (a, b) in whole.iter().zip(blocks.iter()) {
        assert!(a.0.same(&b.0));
        assert_eq!(a.1, b.1);
    }
}

/// A CARv2 file holding `blocks` in order, the last one its root, and the
/// offset of the first block.
fn car_of_blocks(blocks: &[(Cid, Vec<u8>)]) -> (Vec<u8>, usize, V2Header) {
    let mut layout = CarLayout::new();
    let mut frames = Vec::new();
    for (cid, data) in blocks {
        frames.push(layout.add_block(cid, data).unwrap());
    }
    let (v2, v1) = layout.finish().unwrap();
    let mut out = pragma();
    out.extend_from_slice(&v2.to_bytes());
    out.extend_from_slice(&v1_header_bytes(&v1.roots[0]));
    let first = out.len();
    for f in frames {
        out.extend_from_slice(&f);
    }
    (out, first, v2)
}

fn walk_all(car: &[u8], first: usize, v2: &V2Header, root: &Cid) -> Result<Vec<u8>, Error> {
    let index = naive_build_index(car, first, v2.data_offset + v2.data_size).unwrap();
    let mut walk = TreeWalk::new(&index, root)?;
    let mut out = Vec::new();
    loop {
        match walk.step(&index, car)? {
            WalkStep::Data(d) => out.extend_from_slice(&d),
            WalkStep::Links => {},
            WalkStep::Done => return Ok(out),
        }
    }
}

#[test]
fn walk_gives_back_the_chunks_of_a_raw_tree() {
    let chunks = vec![b"alpha ".to_vec(), b"beta ".to_vec(), b"gamma".to_vec()];
    let blocks = stream_balanced_tree(&chunks, 2, true).unwrap();
    let (car, first, v2) = car_of_blocks(&blocks);
    let root = blocks[blocks.len() - 1].0.copy();
    assert_eq!(walk_all(&car, first, &v2, &root).unwrap(), b"alpha beta gamma".to_vec());
}

#[test]
fn walk_steps_one_block_at_a_time() {
    let chunks = vec![b"x".to_vec(), b"y".to_vec()];
    let blocks = stream_balanced_tree(&chunks, 2, true).unwrap();
    // The leaves, their stem, and the root above that stem.
    assert_eq!(blocks.len(), 4);
    let (car, first, v2) = car_of_blocks(&blocks);
    let index = naive_build_index(&car, first, v2.data_offset + v2.data_size).unwrap();
    let mut walk = TreeWalk::new(&index, &blocks[3].0).unwrap();
    assert!(matches!(walk.step(&index, &car), Ok(WalkStep::Links)));
    assert!(matches!(walk.step(&index, &car), Ok(WalkStep::Links)));
    assert!(matches!(walk.step(&index, &car), Ok(WalkStep::Data(d)) if d == b"x".to_vec()));
    assert!(matches!(walk.step(&index, &car), Ok(WalkStep::Data(d)) if d == b"y".to_vec()));
    assert!(matches!(walk.step(&index, &car), Ok(WalkStep::Done)));
    assert!(matches!(walk.step(&index, &car), Ok(WalkStep::Done)));
}

#[test]
fn walk_of_a_single_raw_block() {
    let (car, cid, v2) = single_block_car(b"test data");
    let first = car.len() - {
        let mut f = Vec::new();
        write_block(&mut f, &cid, b"test data")
    };
    assert_eq!(walk_all(&car, first, &v2, &cid).unwrap(), b"test data".to_vec());
}

#[test]
fn walk_errors() {
    let (car, cid, v2) = single_block_car(b"test data");
    let first = car.len() - {
        let mut f = Vec::new();
        write_block(&mut f, &cid, b"test data")
    };
    let index = naive_build_index(&car, first, v2.data_offset + v2.data_size).unwrap();
    let absent = raw_cid(b"absent");
    assert!(matches!(TreeWalk::new(&index, &absent), Err(Error::MissingCid(c)) if c.same(&absent)));

    // A stem whose child is not in the file.
    let blocks = stream_balanced_tree(&vec![b"p".to_vec(), b"q".to_vec()], 2, true).unwrap();
    let (car2, first2, v22) = car_of_blocks(&blocks[1..3]);
    let index2 = naive_build_index(&car2, first2, v22.data_offset + v22.data_size).unwrap();
    let mut walk = TreeWalk::new(&index2, &blocks[2].0).unwrap();
    assert!(matches!(walk.step(&index2, &car2), Err(Error::MissingCid(c)) if c.same(&blocks[0].0)));
    // The queue is left as it was: the same step fails again.
    assert!(matches!(walk.step(&index2, &car2), Err(Error::MissingCid(_))));

    // A block whose codec cannot be walked.
    let odd = Cid::new_v1(0x71, Multihash::wrap(SHA_256_CODE, sha256(b"cbor")));
    let (car3, first3, v23) = car_of_blocks(&[(odd.copy(), b"cbor".to_vec())]);
    let index3 = naive_build_index(&car3, first3, v23.data_offset + v23.data_size).unwrap();
    let mut walk = TreeWalk::new(&index3, &odd).unwrap();
    assert!(matches!(walk.step(&index3, &car3), Err(Error::UnknownCidCodec(0x71))));

    // A DAG-PB CID whose block is not a DAG-PB node.
    let bad = Cid::new_v1(DAG_PB_CODE, Multihash::wrap(SHA_256_CODE, sha256(b"\xff\xff")));
    let (car4, first4, v24) = car_of_blocks(&[(bad.copy(), b"\xff\xff".to_vec())]);
    let index4 = naive_build_index(&car4, first4, v24.data_offset + v24.data_size).unwrap();
    let mut walk = TreeWalk::new(&index4, &bad).unwrap();
    assert!(matches!(walk.step(&index4, &car4), Err(Error::DagPbError)));
}

#[test]
fn tree_blocks_are_hashed_distinct_and_cover_the_chunks() {
    let chunks = vec![b"a".to_vec(), b"b".to_vec(), b"a".to_vec(), b"b".to_vec(), b"c".to_vec()];
    let blocks = stream_balanced_tree(&chunks, 2, true).unwrap();
    for (i, (cid, bytes)) in blocks.iter().enumerate() {
        assert_eq!(cid.hash.digest, sha256(bytes));
        for other in &blocks[i + 1..] {
            assert!(!cid.same(&other.0));
        }
    }
    for c in &chunks {
        assert!(blocks.iter().any(|(cid, _)| cid.same(&raw_cid(c))));
    }
    // The two identical stems over "a" and "b" are emitted once.
    let stems = blocks.iter().filter(|(cid, _)| cid.codec == DAG_PB_CODE).count();
    assert_eq!(blocks.len(), 3 + stems);
}
