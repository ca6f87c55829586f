use sha2::Digest;
use polka_storage::commd::{ensure_piece_sizes, join_piece_infos, piece_hash, CommDError, PieceInfo, Stack};
use polka_storage::common::{MinerId, TrailingZeroInput};
use polka_storage::p2p::{answer_request, on_request_response_event, PeerIdRequest, PeerInfoResponse, RequestResponseEvent};

fn sha256(data: &[u8]) -> Vec<u8> {
    sha2::Sha256::digest(data).to_vec()
}

#[test]
fn miner_account_layout_and_roundtrip() {
    let account = MinerId(0x01020304).into_account();
    let mut expected = b"miner".to_vec();
    expected.extend_from_slice(&[4, 3, 2, 1]);
    expected.extend_from_slice(&[0u8; 23]);
    assert_eq!(account, expected);
    assert_eq!(MinerId::try_from_account(&account).map(|m| m.0), Some(0x01020304));
    let mut other = account.clone();
    other[0] = b'n';
    assert!(MinerId::try_from_account(&other).is_none());
    let mut tail = account.clone();
    tail[31] = 1;
    assert!(MinerId::try_from_account(&tail).is_none());
    assert_eq!(MinerId::default().0, 0);
}

#[test]
fn trailing_zero_input_pads_with_zeros() {
    let data = [1u8, 2, 3];
    let mut input = TrailingZeroInput::new(&data);
    assert_eq!(input.remaining_len(), None);
    let mut first = vec![9u8; 2];
    input.read(&mut first);
    assert_eq!(first, vec![1, 2]);
    let mut second = vec![9u8; 4];
    input.read(&mut second);
    assert_eq!(second, vec![3, 0, 0, 0]);
}

#[test]
fn piece_hash_is_sha256_of_both() {
    let a = [1u8; 32];
    let b = [2u8; 32];
    let mut both = a.to_vec();
    both.extend_from_slice(&b);
    assert_eq!(piece_hash(&a, &b), sha256(&both));
}

#[test]
fn joining_pieces() {
    let l = PieceInfo { commitment: vec![1u8; 32], size: 128 };
    let r = PieceInfo { commitment: vec![2u8; 32], size: 128 };
    let j = join_piece_infos(l, r).ok().unwrap();
    assert_eq!(j.size, 256);
    assert_eq!(j.commitment, piece_hash(&[1u8; 32], &[2u8; 32]));
    let l = PieceInfo { commitment: vec![1u8; 32], size: 128 };
    let r = PieceInfo { commitment: vec![2u8; 32], size: 256 };
    assert!(matches!(join_piece_infos(l, r), Err(CommDError::InvalidPieceSize)));
}

#[test]
fn stack_reduces_equal_sizes() {
    let mut s = Stack::new();
    s.shift_reduce(PieceInfo { commitment: vec![0u8; 32], size: 2 });
    s.shift_reduce(PieceInfo { commitment: vec![1u8; 32], size: 1 });
    assert_eq!(s.len(), 2);
    s.shift_reduce(PieceInfo { commitment: vec![2u8; 32], size: 1 });
    assert_eq!(s.len(), 1);
    assert_eq!(s.peek().size, 4);
    let inner = piece_hash(&[1u8; 32], &[2u8; 32]);
    assert_eq!(s.peek().commitment, piece_hash(&[0u8; 32], &inner));
}

#[test]
fn stack_reduction_keeps_total_size() {
    let mut s = Stack::new();
    let sizes = [8u64, 4, 2, 1, 1];
    for (i, size) in sizes.iter().enumerate() {
        s.shift_reduce(PieceInfo { commitment: vec![i as u8; 32], size: *size });
    }
    // 8 + 4 + 2 + 1 + 1 collapses to one piece of the same total size.
    assert_eq!(s.len(), 1);
    assert_eq!(s.peek().size, 16);
}

#[test]
fn piece_sizes_must_fit() {
    let pieces = vec![PieceInfo { commitment: vec![0u8; 32], size: 1024 }, PieceInfo { commitment: vec![0u8; 32], size: 1024 }];
    assert!(ensure_piece_sizes(2048, &pieces).is_ok());
    assert!(matches!(ensure_piece_sizes(2047, &pieces), Err(CommDError::PieceSizeTooLarge)));
}

#[test]
fn peer_lookup_answers() {
    let local = vec![1u8, 1];
    let ext = vec![vec![9u8]];
    match answer_request(PeerIdRequest(vec![5]), None, &local, &ext) {
        PeerInfoResponse::Found(i) => {
            assert_eq!(i.peer_id, local);
            assert_eq!(i.multiaddrs, ext);
        },
        PeerInfoResponse::NotFound(_) => panic!("expected the local peer"),
    }
    let bucket = vec![(vec![4u8], vec![vec![40u8]]), (vec![5u8], vec![vec![50u8], vec![51u8]])];
    match answer_request(PeerIdRequest(vec![5]), Some(&bucket), &local, &ext) {
        PeerInfoResponse::Found(i) => {
            assert_eq!(i.peer_id, vec![5u8]);
            assert_eq!(i.multiaddrs, vec![vec![50u8], vec![51u8]]);
        },
        PeerInfoResponse::NotFound(_) => panic!("expected the bucket entry"),
    }
    match answer_request(PeerIdRequest(vec![6]), Some(&bucket), &local, &ext) {
        PeerInfoResponse::NotFound(q) => assert_eq!(q.0, vec![6u8]),
        PeerInfoResponse::Found(_) => panic!("expected not found"),
    }
    assert!(on_request_response_event(RequestResponseEvent::ResponseSent, None, &local, &ext).is_none());
    assert!(on_request_response_event(RequestResponseEvent::Request(PeerIdRequest(vec![7])), None, &local, &ext).is_some());
}
