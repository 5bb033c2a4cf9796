use rusty_bit::peers::{
    generate_peer_id, FrameError, HandShake, PeerFrameCodec, PeerMsgTag, PeerMsgType, PeerPieceMsgType,
    PeerRequestMsgType, UnknownTag,
};

#[test]
fn tag_from_id() {
    assert_eq!(PeerMsgTag::try_from(0), Ok(PeerMsgTag::Choke));
    assert_eq!(PeerMsgTag::try_from(7), Ok(PeerMsgTag::Piece));
    assert_eq!(PeerMsgTag::try_from(8), Ok(PeerMsgTag::Cancel));
    assert_eq!(PeerMsgTag::try_from(9), Err(UnknownTag(9)));
    assert_eq!(PeerMsgTag::Have.id(), 4);
}

#[test]
fn message_length_counts_id() {
    let m = PeerMsgType::new(PeerMsgTag::Have, vec![0, 0, 0, 3]);
    assert_eq!(m.msg_length(), 5);
    assert_eq!(*m.tag(), PeerMsgTag::Have);
    assert_eq!(m.data(), &vec![0, 0, 0, 3]);
}

#[test]
fn frame_encode_then_decode() {
    let codec = PeerFrameCodec;
    let m = PeerMsgType::new(PeerMsgTag::Request, vec![1, 2, 3]);
    let bytes = codec.encode(&m);
    assert_eq!(bytes, vec![0, 0, 0, 4, 6, 1, 2, 3]);
    let (back, n) = codec.decode(&bytes).unwrap().unwrap();
    assert_eq!(n, 8);
    assert_eq!(*back.tag(), PeerMsgTag::Request);
    assert_eq!(back.data(), &vec![1, 2, 3]);
}

#[test]
fn frame_decode_waits_for_whole_frame() {
    let codec = PeerFrameCodec;
    assert!(codec.decode(&[0, 0]).unwrap().is_none());
    assert!(codec.decode(&[0, 0, 0, 5, 4, 0]).unwrap().is_none());
}

#[test]
fn frame_decode_skips_keep_alives() {
    let codec = PeerFrameCodec;
    let mut bytes = codec.keep_alive();
    assert_eq!(bytes, vec![0, 0, 0, 0]);
    bytes.extend_from_slice(&[0, 0, 0, 1, 1]);
    let (m, n) = codec.decode(&bytes).unwrap().unwrap();
    assert_eq!(*m.tag(), PeerMsgTag::Unchoke);
    assert!(m.data().is_empty());
    assert_eq!(n, 9);
    assert!(codec.decode(&[0, 0, 0, 0]).unwrap().is_none());
}

#[test]
fn frame_decode_errors() {
    let codec = PeerFrameCodec;
    assert_eq!(codec.decode(&[0, 0, 0x40, 10]).err(), Some(FrameError::TooLarge(16394)));
    assert_eq!(codec.decode(&[0, 0, 0, 1, 20]).err(), Some(FrameError::UnknownTag(20)));
    // the largest frame is accepted
    assert!(codec.decode(&[0, 0, 0x40, 9]).unwrap().is_none());
}

#[test]
fn request_payload_bytes() {
    let r = PeerRequestMsgType::new(1, 16384, 0x01020304);
    assert_eq!(r.to_bytes(), [0, 0, 0, 1, 0, 0, 0x40, 0, 1, 2, 3, 4]);
}

#[test]
fn piece_payload_parts() {
    let p = PeerPieceMsgType::from_bytes(&[0, 0, 0, 2, 0, 0, 0x40, 0, 9, 8]).unwrap();
    assert_eq!(p.index, 2);
    assert_eq!(p.begin, 16384);
    assert_eq!(p.block, vec![9, 8]);
    assert!(PeerPieceMsgType::from_bytes(&[0, 0, 0]).is_none());
}

#[test]
fn handshake_bytes_layout() {
    let h = HandShake::new([1u8; 20], [2u8; 20]);
    let b = h.to_bytes();
    assert_eq!(b.len(), 68);
    assert_eq!(b[0], 19);
    assert_eq!(&b[1..20], b"BitTorrent protocol");
    assert_eq!(&b[20..28], &[0u8; 8]);
    assert_eq!(&b[28..48], &[1u8; 20]);
    assert_eq!(&b[48..68], &[2u8; 20]);
    let back = HandShake::from_bytes(&b).unwrap();
    assert_eq!(back.info_hash, [1u8; 20]);
    assert_eq!(back.peer_id, [2u8; 20]);
    assert!(HandShake::from_bytes(&b[..67]).is_none());
    let mut wrong = b.clone();
    wrong[3] = b'x';
    assert!(HandShake::from_bytes(&wrong).is_none());
}

#[test]
fn peer_id_is_alphanumeric() {
    let id = generate_peer_id();
    assert!(id.iter().all(|c| c.is_ascii_alphanumeric()));
    assert_ne!(id, [0u8; 20]);
}
