use sha2::Digest;

use polka_storage::car::{write_block, BlockMetadata, Error, V2_HEADER_SIZE};
use polka_storage::cid::{Cid, Multihash, RAW_CODE, SHA_256_CODE, SHA_512_CODE};
use polka_storage::unixfs::stream_balanced_tree;
use polka_storage::writer::{group_index, FileWriter};

fn raw_cid(data: &[u8]) -> Cid {
    Cid::new_v1(RAW_CODE, Multihash::wrap(SHA_256_CODE, sha2::Sha256::digest(data).to_vec()))
}

fn frame_len(cid: &Cid, data: &[u8]) -> u64 {
    let mut out = Vec::new();
    write_block(&mut out, cid, data) as u64
}

/// Length of the CARv1 header of one root, as the placeholder is.
const ONE_ROOT_HEADER: u64 = 59;

#[test]
fn writer_file_without_nodes_has_no_root() {
    let mut w = FileWriter::new();
    assert!(matches!(w.write_from(&vec![]), Err(Error::EmptyRootsError)));
}

#[test]
fn writer_frames_each_block_once_and_finishes() {
    let chunks = vec![b"one".to_vec(), b"two".to_vec(), b"one".to_vec()];
    let nodes = stream_balanced_tree(&chunks, 2, true).unwrap();
    let mut w = FileWriter::new();
    let frames = w.write_from(&nodes).unwrap();
    let expected: u64 = nodes.iter().map(|(c, d)| frame_len(c, d)).sum();
    assert_eq!(frames.iter().map(|f| f.len() as u64).sum::<u64>(), expected);
    assert_eq!(frames.len(), nodes.len());

    // The same tree again: every block is known, nothing new to write.
    let again = w.write_from(&nodes).unwrap();
    assert!(again.is_empty());

    assert!(w.can_finish(2));
    let (v2, v1, index) = w.finish();
    // Two roots make a header of 100 bytes in place of the 59-byte placeholder.
    assert_eq!(v1.version, 1);
    assert_eq!(v1.roots.len(), 2);
    assert!(v1.roots[0].same(&nodes[nodes.len() - 1].0));
    assert!(v1.roots[1].same(&nodes[nodes.len() - 1].0));
    assert_eq!(v2.data_offset, V2_HEADER_SIZE);
    assert_eq!(v2.data_size, 100 + expected);
    assert_eq!(v2.index_offset, V2_HEADER_SIZE + 100 + expected);

    // One hash function, one width, an entry per block in the order framed.
    assert_eq!(index.len(), 1);
    assert_eq!(index[0].code, SHA_256_CODE);
    assert_eq!(index[0].widths.len(), 1);
    assert_eq!(index[0].widths[0].width, 32);
    let entries = &index[0].widths[0].entries;
    assert_eq!(entries.len(), nodes.len());
    let mut offset = ONE_ROOT_HEADER;
    for ((cid, data), e) in nodes.iter().zip(entries.iter()) {
        assert_eq!(e.digest, cid.hash.digest);
        assert_eq!(e.offset, offset);
        offset += frame_len(cid, data);
    }
}

#[test]
fn writer_finish_with_roots_replaces_them() {
    let nodes = vec![(raw_cid(b"block"), b"block".to_vec())];
    let mut w = FileWriter::new();
    w.write_from(&nodes).unwrap();
    let other = raw_cid(b"other");
    let (v2, v1, _) = w.finish_with_roots(vec![other.copy()]);
    assert_eq!(v1.roots.len(), 1);
    assert!(v1.roots[0].same(&other));
    assert_eq!(v2.data_size, ONE_ROOT_HEADER + frame_len(&nodes[0].0, b"block"));
}

fn meta(cid: Cid, block_offset: u64) -> BlockMetadata {
    BlockMetadata { block_offset, cid, data_offset_source: 0, data_size: 0 }
}

#[test]
fn index_groups_by_code_then_width() {
    let a = Cid::new_v1(RAW_CODE, Multihash::wrap(SHA_512_CODE, vec![1u8; 64]));
    let b = raw_cid(b"b");
    let c = Cid::new_v1(RAW_CODE, Multihash::wrap(SHA_256_CODE, vec![2u8; 20]));
    let d = raw_cid(b"d");
    let blocks = vec![
        meta(a, V2_HEADER_SIZE + 10),
        meta(b.copy(), V2_HEADER_SIZE + 20),
        meta(c, V2_HEADER_SIZE + 30),
        meta(d.copy(), V2_HEADER_SIZE + 40),
    ];
    let index = group_index(&blocks);
    assert_eq!(index.iter().map(|g| g.code).collect::<Vec<_>>(), vec![SHA_256_CODE, SHA_512_CODE]);
    let sha256 = &index[0];
    assert_eq!(sha256.widths.iter().map(|w| w.width).collect::<Vec<_>>(), vec![20, 32]);
    assert_eq!(sha256.widths[0].entries.len(), 1);
    assert_eq!(sha256.widths[0].entries[0].offset, 30);
    let wide = &sha256.widths[1].entries;
    assert_eq!(wide.iter().map(|e| e.offset).collect::<Vec<_>>(), vec![20, 40]);
    assert_eq!(wide[0].digest, b.hash.digest);
    assert_eq!(wide[1].digest, d.hash.digest);
    assert_eq!(index[1].widths.len(), 1);
    assert_eq!(index[1].widths[0].width, 64);
    assert_eq!(index[1].widths[0].entries[0].offset, 10);
}

#[test]
fn writer_metadata_points_at_block_data() {
    let data = b"some block data".to_vec();
    let cid = raw_cid(&data);
    let mut w = FileWriter::new();
    let frames = w.write_from(&vec![(cid.copy(), data.clone())]).unwrap();
    let m = &w.blocks()[0];
    let start = V2_HEADER_SIZE + ONE_ROOT_HEADER;
    assert_eq!(m.block_offset, start);
    // The frame is a one-byte length prefix, the 36-byte CID, then the data.
    assert_eq!(m.data_offset_source, start + 1 + 36);
    assert_eq!(m.data_size, data.len() as u64);
    assert_eq!(frames[0].len() as u64, 1 + 36 + data.len() as u64);
}
