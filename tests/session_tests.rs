use rusty_bit::peers::{HandShake, PeerMsgTag, PeerMsgType};
use rusty_bit::session::{download_outcome, idle_action, IdleAction, Outcome, PeerSession, SessionAction, SessionEvent, SessionState, WorkQueue};
use sha1::{Digest, Sha1};

fn sha(b: &[u8]) -> [u8; 20] {
    Sha1::digest(b).into()
}

const INFO_HASH: [u8; 20] = [7u8; 20];

fn content() -> Vec<Vec<u8>> {
    vec![b"abcd".to_vec(), b"efgh".to_vec(), b"ij".to_vec()]
}

fn session() -> PeerSession {
    let hashes = content().iter().map(|p| sha(p)).collect();
    PeerSession::new(INFO_HASH, [1u8; 20], hashes, vec![4, 4, 2])
}

fn msg(tag: PeerMsgTag, data: Vec<u8>) -> SessionEvent {
    SessionEvent::Message(PeerMsgType::new(tag, data))
}

fn block(index: u32, begin: u32, bytes: &[u8]) -> SessionEvent {
    let mut data = index.to_be_bytes().to_vec();
    data.extend_from_slice(&begin.to_be_bytes());
    data.extend_from_slice(bytes);
    msg(PeerMsgTag::Piece, data)
}

fn requests(actions: &[SessionAction]) -> Vec<(u32, u32, u32)> {
    actions
        .iter()
        .filter_map(|a| match a {
            SessionAction::Request(q) => Some((q.index, q.begin, q.length)),
            _ => None,
        })
        .collect()
}

fn persisted(actions: &[SessionAction]) -> Vec<(usize, Vec<u8>)> {
    actions
        .iter()
        .filter_map(|a| match a {
            SessionAction::Persist(i, d) => Some((*i, d.clone())),
            _ => None,
        })
        .collect()
}

fn closes(actions: &[SessionAction]) -> bool {
    actions.iter().any(|a| matches!(a, SessionAction::Close))
}

/// Brings a session to work: connected, handshaken, told all pieces are there, unchoked.
fn open(s: &mut PeerSession, q: &mut WorkQueue) -> Vec<SessionAction> {
    let a = s.step(q, SessionEvent::Connected);
    assert!(matches!(&a[..], [SessionAction::SendHandshake(b)] if b.len() == 68));
    let theirs = HandShake::new(INFO_HASH, [9u8; 20]).to_bytes();
    assert!(s.step(q, SessionEvent::Handshake(theirs)).is_empty());
    assert_eq!(s.state, SessionState::BitfieldWait);
    let a = s.step(q, msg(PeerMsgTag::Bitfield, vec![0b1110_0000]));
    assert!(matches!(&a[..], [SessionAction::Interested]));
    assert_eq!(s.state, SessionState::Ready);
    s.step(q, msg(PeerMsgTag::Unchoke, Vec::new()))
}

#[test]
fn handshake_for_other_torrent_closes() {
    let mut s = session();
    let mut q = WorkQueue::new(vec![0, 1, 2]);
    s.step(&mut q, SessionEvent::Connected);
    let mut other = HandShake::new(INFO_HASH, [9u8; 20]).to_bytes();
    other[40] ^= 1;
    let a = s.step(&mut q, SessionEvent::Handshake(other));
    assert!(matches!(&a[..], [SessionAction::Close]));
    assert_eq!(s.state, SessionState::Closed);
    let a = s.step(&mut q, msg(PeerMsgTag::Unchoke, Vec::new()));
    assert!(a.is_empty());
    assert_eq!(q.pieces, vec![0, 1, 2]);
}

#[test]
fn downloads_and_persists_verified_pieces() {
    let mut s = session();
    let mut q = WorkQueue::new(vec![0, 1, 2]);
    let a = open(&mut s, &mut q);
    assert_eq!(requests(&a), vec![(2, 0, 2)]);
    let a = s.step(&mut q, block(2, 0, b"ij"));
    assert_eq!(persisted(&a), vec![(2, b"ij".to_vec())]);
    assert_eq!(requests(&a), vec![(1, 0, 4)]);
    let a = s.step(&mut q, block(1, 0, b"efgh"));
    assert_eq!(persisted(&a), vec![(1, b"efgh".to_vec())]);
    let a = s.step(&mut q, block(0, 0, b"abcd"));
    assert_eq!(persisted(&a), vec![(0, b"abcd".to_vec())]);
    assert!(closes(&a));
    assert_eq!(s.state, SessionState::Closed);
    assert!(q.is_empty());
}

#[test]
fn corrupt_piece_is_requeued_and_fetched_again() {
    let mut q = WorkQueue::new(vec![1]);
    let mut bad = session();
    let a = open(&mut bad, &mut q);
    assert_eq!(requests(&a), vec![(1, 0, 4)]);
    let a = bad.step(&mut q, block(1, 0, b"efgX"));
    assert!(persisted(&a).is_empty());
    assert!(closes(&a));
    assert_eq!(bad.state, SessionState::Closed);
    assert_eq!(q.pieces, vec![1]);
    let mut good = session();
    let a = open(&mut good, &mut q);
    assert_eq!(requests(&a), vec![(1, 0, 4)]);
    let a = good.step(&mut q, block(1, 0, b"efgh"));
    assert_eq!(persisted(&a), vec![(1, b"efgh".to_vec())]);
}

#[test]
fn resume_requests_only_missing_pieces() {
    let mut q = WorkQueue::new(vec![1, 2]);
    let mut s = session();
    let mut asked = requests(&open(&mut s, &mut q));
    asked.extend(requests(&s.step(&mut q, block(2, 0, b"ij"))));
    asked.extend(requests(&s.step(&mut q, block(1, 0, b"efgh"))));
    assert_eq!(asked, vec![(2, 0, 2), (1, 0, 4)]);
    assert!(q.is_empty());
}

#[test]
fn nothing_missing_means_no_requests() {
    let mut q = WorkQueue::new(Vec::new());
    let mut s = session();
    let a = open(&mut s, &mut q);
    assert!(requests(&a).is_empty());
    assert!(closes(&a));
}

#[test]
fn peer_without_the_piece_is_closed() {
    let mut q = WorkQueue::new(vec![2]);
    let mut s = session();
    s.step(&mut q, SessionEvent::Connected);
    s.step(&mut q, SessionEvent::Handshake(HandShake::new(INFO_HASH, [9u8; 20]).to_bytes()));
    s.step(&mut q, msg(PeerMsgTag::Have, vec![0, 0, 0, 0]));
    let a = s.step(&mut q, msg(PeerMsgTag::Unchoke, Vec::new()));
    assert!(requests(&a).is_empty());
    assert!(closes(&a));
    assert_eq!(q.pieces, vec![2]);
}

#[test]
fn choke_gives_piece_back() {
    let mut q = WorkQueue::new(vec![0]);
    let mut s = session();
    open(&mut s, &mut q);
    assert!(q.is_empty());
    s.step(&mut q, msg(PeerMsgTag::Choke, Vec::new()));
    assert_eq!(s.state, SessionState::Ready);
    assert_eq!(q.pieces, vec![0]);
}

#[test]
fn timeout_closes_and_requeues() {
    let mut q = WorkQueue::new(vec![0]);
    let mut s = session();
    open(&mut s, &mut q);
    let a = s.step(&mut q, SessionEvent::Timeout);
    assert!(closes(&a));
    assert_eq!(q.pieces, vec![0]);
}

#[test]
fn unasked_block_closes() {
    let mut q = WorkQueue::new(vec![0]);
    let mut s = session();
    open(&mut s, &mut q);
    let a = s.step(&mut q, block(0, 0, b"abcdef"));
    assert!(closes(&a));
    assert!(persisted(&a).is_empty());
    assert_eq!(q.pieces, vec![0]);
}

#[test]
fn large_piece_is_pipelined() {
    let len = 16384 * 6 + 10;
    let data: Vec<u8> = (0..len).map(|i| (i % 251) as u8).collect();
    let mut s = PeerSession::new(INFO_HASH, [1u8; 20], vec![sha(&data)], vec![len]);
    let mut q = WorkQueue::new(vec![0]);
    let a = open(&mut s, &mut q);
    let first = requests(&a);
    assert_eq!(first.len(), 5);
    assert_eq!(first[1], (0, 16384, 16384));
    // blocks may come back out of order
    let mut persisted_bytes = Vec::new();
    let mut asked = first.clone();
    let order = [1usize, 0, 2, 3, 4, 6, 5];
    for &b in order.iter() {
        assert!(asked.iter().any(|r| r.1 as usize == b * 16384));
        let begin = b * 16384;
        let end = std::cmp::min(begin + 16384, len);
        let acts = s.step(&mut q, block(0, begin as u32, &data[begin..end]));
        asked.extend(requests(&acts));
        for (_, d) in persisted(&acts) {
            persisted_bytes = d;
        }
    }
    assert_eq!(persisted_bytes, data);
    assert_eq!(asked.len(), 7);
    assert_eq!(asked[6], (0, 16384 * 6, 10));
}

#[test]
fn outcome_of_download() {
    assert_eq!(download_outcome(0, 0, 3), Outcome::Complete);
    assert_eq!(download_outcome(2, 0, 0), Outcome::Incomplete);
    assert_eq!(download_outcome(2, 1, 0), Outcome::Continue);
    assert_eq!(download_outcome(2, 0, 4), Outcome::Continue);
}

#[test]
fn silence_decisions() {
    assert_eq!(idle_action(10, true, false), IdleAction::Wait);
    assert_eq!(idle_action(30, true, false), IdleAction::Timeout);
    assert_eq!(idle_action(30, false, false), IdleAction::Wait);
    assert_eq!(idle_action(120, false, false), IdleAction::KeepAlive);
    assert_eq!(idle_action(150, false, true), IdleAction::Wait);
    assert_eq!(idle_action(180, false, true), IdleAction::Timeout);
}

#[test]
fn awaiting_blocks_while_requests_are_out() {
    let mut q = WorkQueue::new(vec![0]);
    let mut s = session();
    assert!(!s.awaiting_blocks());
    open(&mut s, &mut q);
    assert!(s.awaiting_blocks());
    s.step(&mut q, block(0, 0, b"abcd"));
    assert!(!s.awaiting_blocks());
}
