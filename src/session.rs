//! The per-peer session: a state machine from events to actions, and the shared set of missing
//! pieces it draws work from.
use vstd::prelude::*;
use crate::digest::{sha1_of, calc_sha1_hash};
use crate::peers::{PeerMsgTag, PeerMsgType, PeerPieceMsgType, PeerRequestMsgType, HandShake, protocol_name, read_be_u32, be_value, handshake_bytes};
use crate::torrent::digest_eq;

verus! {

/// The largest block a request asks for.
pub const BLOCK_SIZE: usize = 16384;

/// The most requests a session keeps in flight.
pub const MAX_IN_FLIGHT: usize = 5;

/// The missing pieces that no session works on; sessions take from the end.
pub struct WorkQueue {
    pub pieces: Vec<usize>,
}

impl WorkQueue {
    pub fn new(pieces: Vec<usize>) -> (r: WorkQueue)
        ensures
            r.pieces@ == pieces@,
    {
        WorkQueue { pieces }
    }

    /// Gives a piece back.
    pub fn push(&mut self, index: usize)
        ensures
            final(self).pieces@ == old(self).pieces@.push(index),
    {
        self.pieces.push(index);
    }

    pub fn is_empty(&self) -> (r: bool)
        ensures
            r == (self.pieces@.len() == 0),
    {
        self.pieces.len() == 0
    }

    pub fn len(&self) -> (r: usize)
        ensures
            r == self.pieces@.len(),
    {
        self.pieces.len()
    }

    /// Takes out the last piece that `have` marks as held; `None`, and the set unchanged, where
    /// it holds none of them.
    pub fn take_available(&mut self, have: &Vec<bool>) -> (r: Option<usize>)
        ensures
            match r {
                Some(i) => exists|k: int| 0 <= k < old(self).pieces@.len() && old(self).pieces@[k] == i
                    && final(self).pieces@ == old(self).pieces@.remove(k)
                    && i < have@.len() && have@[i as int],
                None => final(self).pieces@ == old(self).pieces@
                    && forall|k: int| 0 <= k < old(self).pieces@.len() ==> !held(have@, #[trigger] old(self).pieces@[k]),
            },
    {
        let mut k = self.pieces.len();
        while k > 0
            invariant
                k <= self.pieces@.len(),
                self.pieces@ == old(self).pieces@,
                forall|j: int| k <= j < self.pieces@.len() ==> !held(have@, #[trigger] self.pieces@[j]),
            decreases k,
        {
            let i = self.pieces[k - 1];
            if i < have.len() && have[i] {
                let ghost before = self.pieces@;
                let got = self.pieces.remove(k - 1);
                assert(before[k - 1] == got);
                return Some(got);
            }
            k -= 1;
        }
        None
    }
}

/// Whether `have` marks piece `i` as held.
pub open spec fn held(have: Seq<bool>, i: usize) -> bool {
    i < have.len() && have[i as int]
}

/// The number of blocks of a piece of `len` bytes.
pub open spec fn block_count(len: nat) -> nat {
    len / (BLOCK_SIZE as nat) + if len % (BLOCK_SIZE as nat) != 0 { 1nat } else { 0nat }
}

/// The request for block `b` of piece `index`, `length` bytes long: at `b` blocks in, for a
/// whole block or what is left of the piece.
pub open spec fn block_request(index: usize, length: usize, b: int) -> PeerRequestMsgType {
    PeerRequestMsgType {
        index: index as u32,
        begin: (b * BLOCK_SIZE) as u32,
        length: (if length - b * BLOCK_SIZE < BLOCK_SIZE { length - b * BLOCK_SIZE } else { BLOCK_SIZE as int }) as u32,
    }
}

/// `acts` request the blocks of piece `index` one after another, from block `from` on.
pub open spec fn requests_run(acts: Seq<SessionAction>, index: usize, length: usize, from: int) -> bool {
    forall|j: int| 0 <= j < acts.len() ==> #[trigger] acts[j] == SessionAction::Request(block_request(index, length, from + j))
}

/// The length of the block that starts at `begin` in a piece of `length` bytes.
pub open spec fn block_len_at(length: int, begin: int) -> int {
    if length - begin < BLOCK_SIZE { length - begin } else { BLOCK_SIZE as int }
}

/// A block at `begin` of piece `index` is one the piece in hand asked for and still awaits, with
/// the length asked for.
pub open spec fn block_fits(p: PieceInProgress, index: int, begin: int, block: Seq<u8>) -> bool {
    &&& index == p.index
    &&& begin % (BLOCK_SIZE as int) == 0
    &&& begin / (BLOCK_SIZE as int) < p.got@.len()
    &&& begin / (BLOCK_SIZE as int) < p.next_block
    &&& !p.got@[begin / (BLOCK_SIZE as int)]
    &&& block.len() == block_len_at(p.length as int, begin)
}

/// `data` with `block` written at `begin`.
pub open spec fn written(data: Seq<u8>, begin: int, block: Seq<u8>) -> Seq<u8> {
    data.subrange(0, begin) + block + data.subrange(begin + block.len(), data.len() as int)
}

/// The requests among `acts` come last, and ask, in order, for the blocks of the piece in hand
/// just below the next one it will ask for; with no piece in hand, there are none.
pub open spec fn request_tail(acts: Seq<SessionAction>, cur: Option<PieceInProgress>) -> bool {
    match cur {
        None => no_requests(acts),
        Some(p) => exists|s: int|
            0 <= s <= acts.len() && no_requests(acts.take(s)) && acts.len() - s <= p.next_block
                && requests_run(acts.skip(s), p.index, p.length, p.next_block - (acts.len() - s)),
    }
}

proof fn lemma_request_tail(prefix: Seq<SessionAction>, run: Seq<SessionAction>, cur: Option<PieceInProgress>)
    requires
        no_requests(prefix),
        cur matches Some(p) ==> run.len() <= p.next_block && requests_run(run, p.index, p.length, p.next_block - run.len()),
        cur is None ==> run.len() == 0,
    ensures
        request_tail(prefix + run, cur),
{
    let acts = prefix + run;
    assert(acts.take(prefix.len() as int) =~= prefix);
    assert(acts.skip(prefix.len() as int) =~= run);
    if cur is None {
        assert(acts =~= prefix);
    }
}

proof fn lemma_no_requests_of(acts: Seq<SessionAction>)
    requires
        forall|k: int| 0 <= k < acts.len() ==> !(#[trigger] acts[k] is Request),
    ensures
        no_requests(acts),
{
}

/// Where a session stands.
#[derive(Debug, Clone, Copy, PartialEq, Eq, Structural)]
pub enum SessionState {
    Connecting,
    Handshaking,
    BitfieldWait,
    Ready,
    Working,
    Closed,
}

/// The piece a session downloads: its bytes so far, which blocks have come, which one to request
/// next, and how many requests are out.
pub struct PieceInProgress {
    pub index: usize,
    pub length: usize,
    pub data: Vec<u8>,
    pub got: Vec<bool>,
    pub next_block: usize,
    pub in_flight: usize,
}

/// What happens to a session.
pub enum SessionEvent {
    /// The connection is open.
    Connected,
    /// The peer's handshake, as received.
    Handshake(Vec<u8>),
    /// A message from the peer.
    Message(PeerMsgType),
    /// A request went unanswered, or the peer fell silent, too long.
    Timeout,
    /// The connection failed.
    Disconnected,
}

/// What a session asks to be done.
pub enum SessionAction {
    /// Send these handshake bytes.
    SendHandshake(Vec<u8>),
    /// Send `interested`.
    Interested,
    /// Send a `request` for a block.
    Request(PeerRequestMsgType),
    /// Write these verified bytes of a piece to the files.
    Persist(usize, Vec<u8>),
    /// Close the connection.
    Close,
}

/// The handshake bytes name the protocol and the torrent whose info-hash is `info_hash`.
pub open spec fn handshake_ok(b: Seq<u8>, info_hash: Seq<u8>) -> bool {
    &&& b.len() == 68
    &&& b[0] == 19
    &&& b.subrange(1, 20) == protocol_name()
    &&& b.subrange(28, 48) == info_hash
}

/// A session with a remote peer.
pub struct PeerSession {
    pub state: SessionState,
    pub info_hash: [u8; 20],
    pub peer_id: [u8; 20],
    /// The peer chokes us.
    pub choked: bool,
    /// We told the peer we are interested.
    pub interested: bool,
    /// The pieces the peer has.
    pub have: Vec<bool>,
    /// The digest of each piece.
    pub hashes: Vec<[u8; 20]>,
    /// The length of each piece.
    pub lengths: Vec<usize>,
    pub current: Option<PieceInProgress>,
}

impl PieceInProgress {
    pub open spec fn wf(&self) -> bool {
        &&& self.data@.len() == self.length
        &&& self.length > 0
        &&& self.got@.len() == block_count(self.length as nat)
        &&& self.next_block <= self.got@.len()
        &&& self.in_flight <= MAX_IN_FLIGHT
    }
}

impl PeerSession {
    /// One flag, one digest and one length per piece; lengths positive and, like the piece
    /// count, within what a request's 32-bit fields can carry.
    pub open spec fn wf(&self) -> bool {
        &&& self.have@.len() == self.hashes@.len()
        &&& self.lengths@.len() == self.hashes@.len()
        &&& self.hashes@.len() <= u32::MAX
        &&& forall|i: int| 0 <= i < self.lengths@.len() ==> 0 < #[trigger] self.lengths@[i] <= u32::MAX
        &&& self.state != SessionState::Working ==> self.current is None
        &&& self.state == SessionState::Working ==> !self.choked
        &&& match self.current {
            Some(p) => p.wf() && p.index < self.lengths@.len() && p.length == self.lengths@[p.index as int]
                && self.have@[p.index as int],
            None => true,
        }
    }

    /// A new session, before the connection opens: choked, not interested, knowing of no piece
    /// the peer has.
    pub fn new(info_hash: [u8; 20], peer_id: [u8; 20], hashes: Vec<[u8; 20]>, lengths: Vec<usize>) -> (r: PeerSession)
        requires
            lengths@.len() == hashes@.len(),
            hashes@.len() <= u32::MAX,
            forall|i: int| 0 <= i < lengths@.len() ==> 0 < #[trigger] lengths@[i] <= u32::MAX,
        ensures
            r.wf(),
            r.state == SessionState::Connecting,
            r.choked,
            !r.interested,
            r.hashes@ == hashes@,
            r.lengths@ == lengths@,
            r.info_hash == info_hash,
            r.peer_id == peer_id,
            r.current is None,
            forall|i: int| 0 <= i < r.have@.len() ==> !r.have@[i],
    {
        let mut have: Vec<bool> = Vec::new();
        let mut k: usize = 0;
        while k < hashes.len()
            invariant
                k <= hashes@.len(),
                have@.len() == k,
                forall|i: int| 0 <= i < k ==> !have@[i],
            decreases hashes@.len() - k,
        {
            have.push(false);
            k += 1;
        }
        PeerSession {
            state: SessionState::Connecting,
            info_hash,
            peer_id,
            choked: true,
            interested: false,
            have,
            hashes,
            lengths,
            current: None,
        }
    }
}

/// Every `Persist` carries the bytes of a piece whose digest is the one the torrent gives it.
pub open spec fn persists_verified(acts: Seq<SessionAction>, hashes: Seq<[u8; 20]>) -> bool {
    forall|k: int| 0 <= k < acts.len() ==> match #[trigger] acts[k] {
        SessionAction::Persist(i, d) => i < hashes.len() && sha1_of(d@) == hashes[i as int]@,
        _ => true,
    }
}

/// Every `Request` asks for a block of piece `index`.
pub open spec fn requests_for(acts: Seq<SessionAction>, index: usize) -> bool {
    forall|k: int| 0 <= k < acts.len() ==> match #[trigger] acts[k] {
        SessionAction::Request(q) => q.index as int == index as int,
        _ => true,
    }
}

/// No action is an `Interested`.
pub open spec fn no_interested(acts: Seq<SessionAction>) -> bool {
    forall|k: int| 0 <= k < acts.len() ==> !(#[trigger] acts[k] is Interested)
}

/// No action is a `Request`.
pub open spec fn no_requests(acts: Seq<SessionAction>) -> bool {
    forall|k: int| 0 <= k < acts.len() ==> !(#[trigger] acts[k] is Request)
}

proof fn lemma_push_other(acts: Seq<SessionAction>, a: SessionAction, hashes: Seq<[u8; 20]>, index: usize)
    requires
        !(a is Persist),
        !(a is Request),
        !(a is Interested),
    ensures
        persists_verified(acts, hashes) ==> persists_verified(acts.push(a), hashes),
        requests_for(acts, index) ==> requests_for(acts.push(a), index),
        no_interested(acts) ==> no_interested(acts.push(a)),
        no_requests(acts) ==> no_requests(acts.push(a)),
{
    assert forall|k: int| 0 <= k < acts.len() implies acts.push(a)[k] == acts[k] by {}
    assert(acts.push(a)[acts.len() as int] == a);
}

fn all_true(got: &Vec<bool>) -> (r: bool)
    ensures
        r == forall|j: int| 0 <= j < got@.len() ==> got@[j],
{
    let mut j: usize = 0;
    while j < got.len()
        invariant
            j <= got@.len(),
            forall|m: int| 0 <= m < j ==> got@[m],
        decreases got@.len() - j,
    {
        if !got[j] {
            return false;
        }
        j += 1;
    }
    true
}

impl PieceInProgress {
    /// A piece just taken up: no block in, none asked for.
    pub fn start(index: usize, length: usize) -> (r: PieceInProgress)
        requires
            0 < length,
        ensures
            r.wf(),
            r.index == index,
            r.length == length,
            r.next_block == 0,
            r.in_flight == 0,
            forall|b: int| 0 <= b < r.got@.len() ==> !r.got@[b],
    {
        let mut data: Vec<u8> = Vec::new();
        let mut k: usize = 0;
        while k < length
            invariant
                k <= length,
                data@.len() == k,
            decreases length - k,
        {
            data.push(0u8);
            k += 1;
        }
        let blocks = length / BLOCK_SIZE + if length % BLOCK_SIZE != 0 { 1 } else { 0 };
        let mut got: Vec<bool> = Vec::new();
        let mut b: usize = 0;
        while b < blocks
            invariant
                b <= blocks,
                got@.len() == b,
                forall|m: int| 0 <= m < b ==> !got@[m],
            decreases blocks - b,
        {
            got.push(false);
            b += 1;
        }
        PieceInProgress { index, length, data, got, next_block: 0, in_flight: 0 }
    }

    /// Asks for further blocks, in order, while fewer than the most requests are out.
    pub(crate) fn issue_requests(&mut self, actions: &mut Vec<SessionAction>, hashes: Ghost<Seq<[u8; 20]>>)
        requires
            old(self).wf(),
            old(self).length <= u32::MAX,
            old(self).index <= u32::MAX,
        ensures
            final(self).wf(),
            final(self).index == old(self).index,
            final(self).length == old(self).length,
            final(self).data@ == old(self).data@,
            final(self).got@ == old(self).got@,
            final(actions)@.len() >= old(actions)@.len(),
            final(actions)@.subrange(0, old(actions)@.len() as int) == old(actions)@,
            persists_verified(old(actions)@, hashes@) ==> persists_verified(final(actions)@, hashes@),
            requests_for(final(actions)@.subrange(old(actions)@.len() as int, final(actions)@.len() as int), old(self).index),
            no_interested(old(actions)@) ==> no_interested(final(actions)@),
            old(self).next_block <= final(self).next_block,
            final(actions)@.len() - old(actions)@.len() == final(self).next_block - old(self).next_block,
            requests_run(final(actions)@.subrange(old(actions)@.len() as int, final(actions)@.len() as int),
                old(self).index, old(self).length, old(self).next_block as int),
            final(self).in_flight == old(self).in_flight + (final(self).next_block - old(self).next_block),
            old(self).in_flight < MAX_IN_FLIGHT && old(self).next_block < old(self).got@.len()
                ==> final(self).next_block > old(self).next_block,
    {
        let ghost start = actions@;
        assert(actions@.subrange(start.len() as int, actions@.len() as int) =~= Seq::<SessionAction>::empty());
        let blocks = self.got.len();
        while self.in_flight < MAX_IN_FLIGHT && self.next_block < blocks
            invariant
                self.wf(),
                blocks == self.got@.len(),
                self.index == old(self).index,
                self.length == old(self).length,
                self.length <= u32::MAX,
                self.index <= u32::MAX,
                self.data@ == old(self).data@,
                self.got@ == old(self).got@,
                actions@.len() >= start.len(),
                actions@.subrange(0, start.len() as int) == start,
                persists_verified(start, hashes@) ==> persists_verified(actions@, hashes@),
                requests_for(actions@.subrange(start.len() as int, actions@.len() as int), old(self).index),
                no_interested(start) ==> no_interested(actions@),
                old(self).next_block <= self.next_block,
                actions@.len() - start.len() == self.next_block - old(self).next_block,
                requests_run(actions@.subrange(start.len() as int, actions@.len() as int),
                    old(self).index, old(self).length, old(self).next_block as int),
                self.in_flight == old(self).in_flight + (self.next_block - old(self).next_block),
            decreases blocks - self.next_block,
        {
            let b = self.next_block;
            proof {
                assert(b * BLOCK_SIZE < self.length) by (nonlinear_arith)
                    requires b < self.length / 16384 + if self.length % 16384 != 0 { 1int } else { 0int }, BLOCK_SIZE == 16384;
            }
            let begin = b * BLOCK_SIZE;
            let rest = self.length - begin;
            let len = if rest < BLOCK_SIZE { rest } else { BLOCK_SIZE };
            let q = PeerRequestMsgType::new(self.index as u32, begin as u32, len as u32);
            let ghost before = actions@;
            actions.push(SessionAction::Request(q));
            proof {
                assert forall|k: int| 0 <= k < before.len() implies actions@[k] == before[k] by {}
                assert(actions@.subrange(0, start.len() as int) =~= start) by {
                    assert forall|k: int| 0 <= k < start.len() implies actions@[k] == before[k] by {}
                }
                let suffix = actions@.subrange(start.len() as int, actions@.len() as int);
                let old_suffix = before.subrange(start.len() as int, before.len() as int);
                assert(q == block_request(old(self).index, old(self).length, b as int));
                assert forall|j: int| 0 <= j < suffix.len() implies #[trigger] suffix[j]
                    == SessionAction::Request(block_request(old(self).index, old(self).length, old(self).next_block + j)) by {
                    if j < old_suffix.len() {
                        assert(suffix[j] == old_suffix[j]);
                    }
                }
                assert forall|k: int| 0 <= k < suffix.len() implies match #[trigger] suffix[k] {
                    SessionAction::Request(q) => q.index as int == old(self).index as int,
                    _ => true,
                } by {
                    if k < old_suffix.len() {
                        assert(suffix[k] == old_suffix[k]);
                    }
                }
            }
            self.next_block = b + 1;
            self.in_flight = self.in_flight + 1;
        }
    }
}

impl PieceInProgress {
    /// Takes in a block that was asked for and has not come yet, with the length asked for;
    /// refuses any other, changing nothing.
    pub fn accept_block(&mut self, msg: &PeerPieceMsgType) -> (r: bool)
        requires
            old(self).wf(),
        ensures
            final(self).wf(),
            final(self).index == old(self).index,
            final(self).length == old(self).length,
            final(self).next_block == old(self).next_block,
            r == block_fits(*old(self), msg.index as int, msg.begin as int, msg.block@),
            r ==> final(self).data@ == written(old(self).data@, msg.begin as int, msg.block@),
            r ==> final(self).got@ == old(self).got@.update(msg.begin as int / (BLOCK_SIZE as int), true),
            r ==> final(self).in_flight == if old(self).in_flight > 0 { old(self).in_flight - 1 } else { 0 },
            !r ==> *final(self) == *old(self),
    {
        if msg.index as usize != self.index || (msg.begin as usize) % BLOCK_SIZE != 0 {
            return false;
        }
        let begin = msg.begin as usize;
        let b = begin / BLOCK_SIZE;
        if b >= self.got.len() || b >= self.next_block || self.got[b] {
            return false;
        }
        proof {
            assert(b * BLOCK_SIZE < self.length) by (nonlinear_arith)
                requires b < self.length / 16384 + if self.length % 16384 != 0 { 1int } else { 0int }, BLOCK_SIZE == 16384;
            assert(b * BLOCK_SIZE == begin) by (nonlinear_arith)
                requires b == begin / 16384, begin % 16384 == 0, BLOCK_SIZE == 16384;
        }
        let rest = self.length - begin;
        let len = if rest < BLOCK_SIZE { rest } else { BLOCK_SIZE };
        if msg.block.len() != len {
            return false;
        }
        let mut j: usize = 0;
        while j < len
            invariant
                j <= len,
                begin + len <= self.length,
                msg.block@.len() == len,
                self.data@.len() == self.length,
                self.length == old(self).length,
                self.index == old(self).index,
                self.got@ == old(self).got@,
                self.next_block == old(self).next_block,
                self.in_flight == old(self).in_flight,
                old(self).wf(),
                forall|m: int| 0 <= m < self.length ==> #[trigger] self.data@[m]
                    == if begin <= m < begin + j { msg.block@[m - begin] } else { old(self).data@[m] },
            decreases len - j,
        {
            self.data.set(begin + j, msg.block[j]);
            j += 1;
        }
        assert(self.data@ =~= written(old(self).data@, begin as int, msg.block@));
        self.got.set(b, true);
        if self.in_flight > 0 {
            self.in_flight = self.in_flight - 1;
        }
        true
    }
}

impl PeerSession {
    /// Whether bytes are a handshake for this session's torrent.
    pub fn check_handshake(&self, b: &[u8]) -> (r: bool)
        ensures
            r == handshake_ok(b@, self.info_hash@),
    {
        match HandShake::from_bytes(b) {
            None => false,
            Some(h) => digest_eq(&h.info_hash, &self.info_hash),
        }
    }

    /// Marks piece `index` as held by the peer; an index beyond the pieces changes nothing.
    pub fn set_have(&mut self, index: usize)
        requires
            old(self).wf(),
        ensures
            final(self).wf(),
            final(self).choked == old(self).choked,
            final(self).interested == old(self).interested,
            final(self).peer_id == old(self).peer_id,
            final(self).have@ == if index < old(self).have@.len() { old(self).have@.update(index as int, true) } else { old(self).have@ },
            final(self).state == old(self).state,
            final(self).hashes@ == old(self).hashes@,
            final(self).lengths@ == old(self).lengths@,
            final(self).info_hash == old(self).info_hash,
            final(self).current == old(self).current,
    {
        if index < self.have.len() {
            self.have.set(index, true);
        }
    }

    /// Takes the pieces the peer has from a bitfield: the high bit of the first byte is piece 0.
    pub fn set_bitfield(&mut self, bits: &Vec<u8>)
        requires
            old(self).wf(),
            old(self).current is None,
        ensures
            final(self).wf(),
            final(self).choked == old(self).choked,
            final(self).interested == old(self).interested,
            final(self).peer_id == old(self).peer_id,
            final(self).have@.len() == old(self).have@.len(),
            forall|i: int| 0 <= i < final(self).have@.len() ==> #[trigger] final(self).have@[i] == bit_set(bits@, i as nat),
            final(self).state == old(self).state,
            final(self).hashes@ == old(self).hashes@,
            final(self).lengths@ == old(self).lengths@,
            final(self).info_hash == old(self).info_hash,
            final(self).current == old(self).current,
    {
        let mut i: usize = 0;
        while i < self.have.len()
            invariant
                i <= self.have@.len(),
                self.have@.len() == old(self).have@.len(),
                forall|m: int| 0 <= m < i ==> #[trigger] self.have@[m] == bit_set(bits@, m as nat),
                self.state == old(self).state,
                self.hashes@ == old(self).hashes@,
                self.lengths@ == old(self).lengths@,
                self.info_hash == old(self).info_hash,
                self.current == old(self).current,
                self.choked == old(self).choked,
                self.interested == old(self).interested,
                self.peer_id == old(self).peer_id,
                old(self).wf(),
            decreases self.have@.len() - i,
        {
            let byte = i / 8;
            let v = if byte < bits.len() { (bits[byte] >> ((7 - i % 8) as u8)) & 1u8 == 1u8 } else { false };
            self.have.set(i, v);
            i += 1;
        }
    }

    /// Gives the piece in hand back to the missing set.
    fn drop_current(&mut self, queue: &mut WorkQueue)
        requires
            old(self).wf(),
        ensures
            final(self).wf(),
            final(self).choked == old(self).choked,
            final(self).interested == old(self).interested,
            final(self).peer_id == old(self).peer_id,
            final(self).current is None,
            final(self).state == old(self).state,
            final(self).have@ == old(self).have@,
            final(self).hashes@ == old(self).hashes@,
            final(self).lengths@ == old(self).lengths@,
            final(self).info_hash == old(self).info_hash,
            final(queue).pieces@ == match old(self).current {
                Some(p) => old(queue).pieces@.push(p.index),
                None => old(queue).pieces@,
            },
    {
        match self.current.take() {
            Some(p) => queue.push(p.index),
            None => {},
        }
    }
}

/// Whether a bitfield marks piece `i`: bit `7 - i % 8` of byte `i / 8`; bits beyond the field
/// are clear.
pub open spec fn bit_set(bits: Seq<u8>, i: nat) -> bool {
    if i / 8 < bits.len() {
        (bits[(i / 8) as int] >> ((7 - i % 8) as u8)) & 1u8 == 1u8
    } else {
        false
    }
}

impl PeerSession {
    /// Takes a piece the peer has from the missing set and asks for its first blocks; closes
    /// where the set holds none the peer has.
    fn start_next_piece(&mut self, queue: &mut WorkQueue, actions: &mut Vec<SessionAction>)
        requires
            old(self).wf(),
            old(self).current is None,
            old(self).state == SessionState::Working,
        ensures
            final(self).wf(),
            final(self).choked == old(self).choked,
            final(self).interested == old(self).interested,
            final(self).peer_id == old(self).peer_id,
            final(self).have@ == old(self).have@,
            final(self).hashes@ == old(self).hashes@,
            final(self).lengths@ == old(self).lengths@,
            final(self).info_hash == old(self).info_hash,
            match final(self).current {
                Some(p) => old(queue).pieces@.contains(p.index) && final(self).state == old(self).state
                    && requests_for(final(actions)@.subrange(old(actions)@.len() as int, final(actions)@.len() as int), p.index)
                    && final(actions)@ == old(actions)@ + final(actions)@.subrange(old(actions)@.len() as int, final(actions)@.len() as int)
                    && requests_run(final(actions)@.subrange(old(actions)@.len() as int, final(actions)@.len() as int), p.index, p.length, 0)
                    && final(actions)@.len() - old(actions)@.len() == p.next_block
                    && p.next_block >= 1
                    && held(final(self).have@, p.index),
                None => final(self).state == SessionState::Closed && final(queue).pieces@ == old(queue).pieces@
                    && no_requests(final(actions)@.subrange(old(actions)@.len() as int, final(actions)@.len() as int))
                    && final(actions)@ == old(actions)@.push(SessionAction::Close)
                    && forall|k: int| 0 <= k < old(queue).pieces@.len() ==> !held(old(self).have@, #[trigger] old(queue).pieces@[k]),
            },
            final(actions)@.len() >= old(actions)@.len(),
            final(actions)@.subrange(0, old(actions)@.len() as int) == old(actions)@,
            persists_verified(old(actions)@, old(self).hashes@) ==> persists_verified(final(actions)@, old(self).hashes@),
            no_interested(old(actions)@) ==> no_interested(final(actions)@),
            forall|i: usize| old(queue).pieces@.contains(i) ==> (final(queue).pieces@.contains(i)
                || (final(self).current matches Some(p) && p.index == i)),
    {
        let ghost start = actions@;
        match queue.take_available(&self.have) {
            None => {
                self.state = SessionState::Closed;
                actions.push(SessionAction::Close);
                proof {
                    lemma_push_other(start, SessionAction::Close, old(self).hashes@, 0);
                    assert(actions@.subrange(0, start.len() as int) =~= start);
                    assert(actions@.subrange(start.len() as int, actions@.len() as int) =~= seq![SessionAction::Close]);
                }
            },
            Some(i) => {
                proof {
                    let k = choose|k: int| 0 <= k < old(queue).pieces@.len() && old(queue).pieces@[k] == i
                        && queue.pieces@ == old(queue).pieces@.remove(k) && i < self.have@.len() && self.have@[i as int];
                    assert(old(queue).pieces@.contains(i));
                    assert forall|x: usize| old(queue).pieces@.contains(x) && x != i implies queue.pieces@.contains(x) by {
                        let j = choose|j: int| 0 <= j < old(queue).pieces@.len() && old(queue).pieces@[j] == x;
                        if j < k {
                            assert(queue.pieces@[j] == x);
                        } else {
                            assert(j != k);
                            assert(queue.pieces@[j - 1] == x);
                        }
                    }
                }
                let mut p = PieceInProgress::start(i, self.lengths[i]);
                assert(p.got@.len() >= 1);
                p.issue_requests(actions, Ghost(self.hashes@));
                self.current = Some(p);
                assert(actions@ =~= start + actions@.subrange(start.len() as int, actions@.len() as int));
            },
        }
    }
}


/// Piece `i` is in the missing set, in hand, or handed over to be written.
pub open spec fn accounted(i: usize, q: Seq<usize>, cur: Option<PieceInProgress>, acts: Seq<SessionAction>) -> bool {
    ||| q.contains(i)
    ||| (cur matches Some(p) && p.index == i)
    ||| exists|k: int| 0 <= k < acts.len() && (#[trigger] acts[k] matches SessionAction::Persist(j, _) && j == i)
}

impl PeerSession {
    /// Gives the piece in hand back and closes.
    fn close(&mut self, queue: &mut WorkQueue, actions: &mut Vec<SessionAction>)
        requires
            old(self).wf(),
        ensures
            final(self).wf(),
            final(self).state == SessionState::Closed,
            final(self).choked == old(self).choked,
            final(self).interested == old(self).interested,
            final(self).peer_id == old(self).peer_id,
            final(self).current is None,
            final(self).have@ == old(self).have@,
            final(self).hashes@ == old(self).hashes@,
            final(self).lengths@ == old(self).lengths@,
            final(self).info_hash == old(self).info_hash,
            final(actions)@ == old(actions)@.push(SessionAction::Close),
            final(queue).pieces@ == match old(self).current {
                Some(p) => old(queue).pieces@.push(p.index),
                None => old(queue).pieces@,
            },
            forall|i: usize| accounted(i, old(queue).pieces@, old(self).current, old(actions)@)
                ==> accounted(i, final(queue).pieces@, None, final(actions)@),
    {
        let ghost q0 = queue.pieces@;
        let ghost a0 = actions@;
        self.drop_current(queue);
        self.state = SessionState::Closed;
        actions.push(SessionAction::Close);
        proof {
            assert forall|i: usize| accounted(i, q0, old(self).current, a0) implies accounted(i, queue.pieces@, None, actions@) by {
                if q0.contains(i) {
                    let k = choose|k: int| 0 <= k < q0.len() && q0[k] == i;
                    assert(queue.pieces@[k] == i);
                } else if old(self).current matches Some(p) && p.index == i {
                    assert(queue.pieces@[q0.len() as int] == i);
                } else {
                    let k = choose|k: int| 0 <= k < a0.len() && (#[trigger] a0[k] matches SessionAction::Persist(j, _) && j == i);
                    assert(actions@[k] == a0[k]);
                }
            }
        }
    }
}

/// Every `Request` is for a block of the piece in hand.
pub open spec fn requests_in_hand(acts: Seq<SessionAction>, cur: Option<PieceInProgress>) -> bool {
    forall|k: int| 0 <= k < acts.len() ==> match #[trigger] acts[k] {
        SessionAction::Request(q) => cur matches Some(p) && q.index as int == p.index as int,
        _ => true,
    }
}

/// What a `piece` message with payload `pay` does to a working session whose piece in hand was
/// `p0`, with the missing set `q0`, leaving session `s1`, set `q1` and actions `r`: a block not
/// asked for closes the session and gives the piece back; the last block makes the piece whole,
/// and it is handed over to be written where its digest is the torrent's, else given back as the
/// session closes; any other block is kept.
pub open spec fn piece_outcome(
    p0: PieceInProgress,
    hashes: Seq<[u8; 20]>,
    q0: Seq<usize>,
    pay: Seq<u8>,
    s1: PeerSession,
    q1: Seq<usize>,
    r: Seq<SessionAction>,
) -> bool {
    let begin = be_value(pay, 4) as int;
    let block = pay.subrange(8, pay.len() as int);
    let fits = pay.len() >= 8 && block_fits(p0, be_value(pay, 0) as int, begin, block);
    let got = p0.got@.update(begin / (BLOCK_SIZE as int), true);
    let d = written(p0.data@, begin, block);
    let complete = forall|b: int| 0 <= b < got.len() ==> got[b];
    let requeued = s1.state == SessionState::Closed && q1 == q0.push(p0.index) && r == seq![SessionAction::Close];
    &&& !fits ==> requeued
    &&& (fits && complete && sha1_of(d) == hashes[p0.index as int]@) ==> (r.len() >= 1
        && (r[0] matches SessionAction::Persist(i, v) && i == p0.index && v@ == d))
    &&& (fits && complete && sha1_of(d) != hashes[p0.index as int]@) ==> requeued
    &&& (fits && !complete) ==> (s1.state == SessionState::Working && q1 == q0
        && (s1.current matches Some(p) && p.index == p0.index && p.data@ == d && p.got@ == got))
}

impl PeerSession {
    /// A `piece` message while working: takes the block in; once the piece is whole, checks its
    /// digest and hands it over to be written, or, where the digest differs, gives it back and
    /// closes; a block that was not asked for closes the session too.
    fn on_block(&mut self, queue: &mut WorkQueue, actions: &mut Vec<SessionAction>, payload: &Vec<u8>)
        requires
            old(self).wf(),
            old(self).state == SessionState::Working,
            old(self).current is Some,
            old(actions)@.len() == 0,
        ensures
            final(self).wf(),
            final(self).have@ == old(self).have@,
            final(self).hashes@ == old(self).hashes@,
            final(self).lengths@ == old(self).lengths@,
            final(self).info_hash == old(self).info_hash,
            final(self).peer_id == old(self).peer_id,
            final(self).choked == old(self).choked,
            final(self).interested == old(self).interested,
            final(self).state == old(self).state || final(self).state == SessionState::Closed,
            piece_outcome(old(self).current->Some_0, old(self).hashes@, old(queue).pieces@, payload@, *final(self),
                final(queue).pieces@, final(actions)@),
            persists_verified(final(actions)@, old(self).hashes@),
            no_interested(final(actions)@),
            request_tail(final(actions)@, final(self).current),
            requests_in_hand(final(actions)@, final(self).current),
            final(self).current matches Some(p) ==> ((old(self).current matches Some(p0) && p0.index == p.index)
                || old(queue).pieces@.contains(p.index)),
            forall|i: usize| accounted(i, old(queue).pieces@, old(self).current, old(actions)@)
                ==> accounted(i, final(queue).pieces@, final(self).current, final(actions)@),
    {
        let ghost q0 = queue.pieces@;
        let ghost a0 = actions@;
        let ghost c0 = self.current;
        let ghost p0 = self.current->Some_0;
        let ghost pay = payload@;
        let mut p = match self.current.take() {
            Some(p) => p,
            None => {
                return;
            },
        };
        assert(a0 =~= Seq::<SessionAction>::empty());
        match PeerPieceMsgType::from_bytes(payload.as_slice()) {
            None => {
                self.current = Some(p);
                self.close(queue, actions);
                proof {
                    assert(actions@ =~= seq![SessionAction::Close]);
                    lemma_no_requests_of(actions@);
                    assert(persists_verified(actions@, old(self).hashes@));
                    assert(no_interested(actions@));
                    assert(requests_in_hand(actions@, None));
                }
            },
            Some(pm) => {
                proof {
                    assert(pm.block@ == pay.subrange(8, pay.len() as int));
                }
                if !p.accept_block(&pm) {
                    self.current = Some(p);
                    self.close(queue, actions);
                    proof {
                        assert(actions@ =~= seq![SessionAction::Close]);
                        lemma_no_requests_of(actions@);
                        assert(persists_verified(actions@, old(self).hashes@));
                        assert(no_interested(actions@));
                        assert(requests_in_hand(actions@, None));
                    }
                } else if all_true(&p.got) {
                    let index = p.index;
                    let digest = calc_sha1_hash(p.data.as_slice());
                    if digest_eq(&digest, &self.hashes[index]) {
                        let ghost d = p.data;
                        actions.push(SessionAction::Persist(index, p.data));
                        let ghost a1 = actions@;
                        proof {
                            assert(a1 =~= seq![SessionAction::Persist(index, d)]);
                            lemma_no_requests_of(a1);
                        }
                        self.start_next_piece(queue, actions);
                        proof {
                            let run = actions@.subrange(1, actions@.len() as int);
                            assert(actions@ =~= a1 + run);
                            assert(actions@[0] == a1[0]);
                            if self.current is Some {
                                lemma_request_tail(a1, run, self.current);
                            } else {
                                assert(run =~= seq![SessionAction::Close]);
                                lemma_no_requests_of(actions@);
                            }
                            assert forall|k: int| 0 <= k < actions@.len() implies match #[trigger] actions@[k] {
                                SessionAction::Persist(i, d) => i < old(self).hashes@.len() && sha1_of(d@) == old(self).hashes@[i as int]@,
                                _ => true,
                            } by {
                                if k > 0 {
                                    assert(actions@[k] == run[k - 1]);
                                }
                            }
                            assert forall|k: int| 0 <= k < actions@.len() implies !(#[trigger] actions@[k] is Interested) by {
                                if k > 0 {
                                    assert(actions@[k] == run[k - 1]);
                                }
                            }
                            assert forall|k: int| 0 <= k < actions@.len() implies match #[trigger] actions@[k] {
                                SessionAction::Request(q) => self.current matches Some(p) && q.index as int == p.index as int,
                                _ => true,
                            } by {
                                if k > 0 {
                                    assert(actions@[k] == run[k - 1]);
                                }
                            }
                            assert forall|i: usize| accounted(i, q0, c0, a0) implies accounted(i, queue.pieces@, self.current, actions@) by {
                                if i == index {
                                    assert(actions@[0] matches SessionAction::Persist(j, _) && j == i);
                                } else if q0.contains(i) {
                                }
                            }
                        }
                    } else {
                        queue.push(index);
                        self.state = SessionState::Closed;
                        actions.push(SessionAction::Close);
                        proof {
                            assert(actions@ =~= seq![SessionAction::Close]);
                            lemma_no_requests_of(actions@);
                            assert(persists_verified(actions@, old(self).hashes@));
                            assert(no_interested(actions@));
                            assert(requests_in_hand(actions@, None));
                            assert forall|i: usize| accounted(i, q0, c0, a0) implies accounted(i, queue.pieces@, self.current, actions@) by {
                                if q0.contains(i) {
                                    let k = choose|k: int| 0 <= k < q0.len() && q0[k] == i;
                                    assert(queue.pieces@[k] == i);
                                } else {
                                    assert(queue.pieces@[q0.len() as int] == i);
                                }
                            }
                        }
                    }
                } else {
                    let ghost p1 = p;
                    p.issue_requests(actions, Ghost(self.hashes@));
                    self.current = Some(p);
                    proof {
                        assert(actions@.subrange(0, 0) =~= Seq::<SessionAction>::empty());
                        assert(actions@ =~= Seq::<SessionAction>::empty() + actions@.subrange(0, actions@.len() as int));
                        lemma_no_requests_of(Seq::<SessionAction>::empty());
                        lemma_request_tail(Seq::<SessionAction>::empty(), actions@.subrange(0, actions@.len() as int), self.current);
                        assert forall|k: int| 0 <= k < actions@.len() implies match #[trigger] actions@[k] {
                            SessionAction::Persist(i, d) => i < old(self).hashes@.len() && sha1_of(d@) == old(self).hashes@[i as int]@,
                            _ => true,
                        } by {
                            assert(actions@[k] == actions@.subrange(0, actions@.len() as int)[k]);
                        }
                        assert forall|k: int| 0 <= k < actions@.len() implies !(#[trigger] actions@[k] is Interested) by {
                            assert(actions@[k] == actions@.subrange(0, actions@.len() as int)[k]);
                        }
                        assert forall|k: int| 0 <= k < actions@.len() implies match #[trigger] actions@[k] {
                            SessionAction::Request(q) => self.current matches Some(p) && q.index as int == p.index as int,
                            _ => true,
                        } by {
                            assert(actions@[k] == actions@.subrange(0, actions@.len() as int)[k]);
                        }
                    }
                }
            },
        }
    }
}

/// The pieces a peer has by its first message: those its `bitfield` marks, the one its `have`
/// names, or none.
pub open spec fn first_have(tag: PeerMsgTag, data: Seq<u8>, n: nat) -> Seq<bool> {
    Seq::new(n, |i: int| match tag {
        PeerMsgTag::Bitfield => bit_set(data, i as nat),
        PeerMsgTag::Have => data.len() >= 4 && be_value(data, 0) == i,
        _ => false,
    })
}

impl PeerSession {
    /// Takes the first message after the handshake: a `bitfield` gives the pieces the peer has,
    /// a `have` gives one, any other none; then says `interested`, and starts work at once where
    /// that message unchoked us.
    fn on_first_message(&mut self, queue: &mut WorkQueue, actions: &mut Vec<SessionAction>, m: &PeerMsgType)
        requires
            old(self).wf(),
            old(self).current is None,
            old(actions)@.len() == 0,
        ensures
            final(self).wf(),
            final(self).hashes@ == old(self).hashes@,
            final(self).lengths@ == old(self).lengths@,
            final(self).info_hash == old(self).info_hash,
            final(self).state == SessionState::Ready || final(self).state == SessionState::Working || final(self).state == SessionState::Closed,
            persists_verified(final(actions)@, old(self).hashes@),
            requests_in_hand(final(actions)@, final(self).current),
            final(self).current matches Some(p) ==> old(queue).pieces@.contains(p.index),
            forall|i: usize| accounted(i, old(queue).pieces@, old(self).current, old(actions)@)
                ==> accounted(i, final(queue).pieces@, final(self).current, final(actions)@),
            final(self).peer_id == old(self).peer_id,
            final(self).interested,
            final(actions)@.len() >= 1,
            final(actions)@[0] is Interested,
            final(self).have@ == first_have(m.spec_tag(), m.payload(), old(self).have@.len()),
            request_tail(final(actions)@, final(self).current),
            final(self).state == SessionState::Ready ==> final(queue).pieces@ == old(queue).pieces@,
    {
        let ghost q0 = queue.pieces@;
        let ghost a0 = actions@;
        let tag = *m.tag();
        let data = m.data();
        // every bit starts clear
        let mut k: usize = 0;
        while k < self.have.len()
            invariant
                k <= self.have@.len(),
                self.have@.len() == old(self).have@.len(),
                self.state == old(self).state,
                self.hashes@ == old(self).hashes@,
                self.lengths@ == old(self).lengths@,
                self.info_hash == old(self).info_hash,
                self.current is None,
                self.choked == old(self).choked,
                self.interested == old(self).interested,
                self.peer_id == old(self).peer_id,
                old(self).wf(),
                forall|j: int| 0 <= j < k ==> !self.have@[j],
            decreases self.have@.len() - k,
        {
            self.have.set(k, false);
            k += 1;
        }
        match tag {
            PeerMsgTag::Bitfield => self.set_bitfield(data),
            PeerMsgTag::Have => {
                if data.len() >= 4 {
                    let index = read_be_u32(data.as_slice(), 0);
                    self.set_have(index as usize);
                }
            },
            PeerMsgTag::Unchoke => {
                self.choked = false;
            },
            _ => {},
        }
        assert(self.have@ =~= first_have(m.spec_tag(), m.payload(), old(self).have@.len()));
        actions.push(SessionAction::Interested);
        self.interested = true;
        self.state = SessionState::Ready;
        let ghost a1 = actions@;
        proof {
            assert(a1 =~= seq![SessionAction::Interested]);
            assert(persists_verified(a1, old(self).hashes@));
            assert(requests_in_hand(a1, None));
            lemma_no_requests_of(a1);
        }
        if !self.choked {
            self.state = SessionState::Working;
            self.start_next_piece(queue, actions);
            proof {
                assert(actions@[0] == a1[0]) by {
                    assert(actions@.subrange(0, 1)[0] == a1[0]);
                }
                let tail = actions@.subrange(1, actions@.len() as int);
                assert(actions@ =~= a1 + tail);
                if self.current is Some {
                    lemma_request_tail(a1, tail, self.current);
                } else {
                    assert(tail =~= seq![SessionAction::Close]);
                    lemma_no_requests_of(actions@);
                }
                assert forall|k: int| 0 <= k < actions@.len() implies match #[trigger] actions@[k] {
                    SessionAction::Request(q) => self.current matches Some(p) && q.index as int == p.index as int,
                    _ => true,
                } by {
                    if k > 0 {
                        assert(actions@[k] == tail[k - 1]);
                    }
                }
                assert forall|k: int| 0 <= k < actions@.len() implies match #[trigger] actions@[k] {
                    SessionAction::Persist(i, d) => i < old(self).hashes@.len() && sha1_of(d@) == old(self).hashes@[i as int]@,
                    _ => true,
                } by {
                    if k > 0 {
                        assert(actions@[k] == tail[k - 1]);
                    }
                }
            }
        }
    }

    /// Takes one event and says what to do: the session's whole behaviour.
    pub fn step(&mut self, queue: &mut WorkQueue, event: SessionEvent) -> (r: Vec<SessionAction>)
        requires
            old(self).wf(),
        ensures
            final(self).wf(),
            final(self).hashes@ == old(self).hashes@,
            final(self).lengths@ == old(self).lengths@,
            final(self).info_hash == old(self).info_hash,
            // a closed session stays closed and does nothing
            old(self).state == SessionState::Closed ==> r@.len() == 0 && final(self).state == SessionState::Closed
                && final(queue).pieces@ == old(queue).pieces@,
            // a handshake for another torrent closes the session, and nothing else is sent
            (old(self).state == SessionState::Handshaking && (event matches SessionEvent::Handshake(b)
                && !handshake_ok(b@, old(self).info_hash@))) ==> (final(self).state == SessionState::Closed
                && r@.len() == 1 && r@[0] is Close),
            // `interested` goes out once, on the first message after the handshake
            old(self).state != SessionState::BitfieldWait ==> no_interested(r@),
            // only bytes whose digest is the piece's own are handed over to be written
            persists_verified(r@, old(self).hashes@),
            // requests are for the piece in hand, which the peer has
            requests_in_hand(r@, final(self).current),
            // with no piece in hand and none missing, nothing is requested
            (old(self).current is None && old(queue).pieces@.len() == 0) ==> no_requests(r@),
            // no piece is lost: each is still missing, in hand, or handed over
            forall|i: usize| accounted(i, old(queue).pieces@, old(self).current, Seq::empty())
                ==> accounted(i, final(queue).pieces@, final(self).current, r@),
            // a session opens by sending its handshake
            (old(self).state == SessionState::Connecting && event is Connected) ==> (final(self).state == SessionState::Handshaking
                && r@.len() == 1 && (r@[0] matches SessionAction::SendHandshake(b) && b@ == handshake_bytes(old(self).info_hash@, old(self).peer_id@))
                && final(queue).pieces@ == old(queue).pieces@),
            // a handshake for this torrent leads to waiting for the first message
            (old(self).state == SessionState::Handshaking && (event matches SessionEvent::Handshake(b)
                && handshake_ok(b@, old(self).info_hash@))) ==> (final(self).state == SessionState::BitfieldWait
                && r@.len() == 0 && final(queue).pieces@ == old(queue).pieces@),
            // a rejected handshake leaves the missing set as it was
            (old(self).state == SessionState::Handshaking && (event matches SessionEvent::Handshake(b)
                && !handshake_ok(b@, old(self).info_hash@))) ==> final(queue).pieces@ == old(queue).pieces@,
            // the first message says which pieces the peer has, and `interested` goes out first
            (old(self).state == SessionState::BitfieldWait && event is Message) ==> (r@.len() >= 1 && r@[0] is Interested
                && final(self).interested
                && final(self).have@ == first_have(event->Message_0.spec_tag(), event->Message_0.payload(), old(self).have@.len())),
            // an unchoke takes up a piece the peer has, where the missing set holds one, and asks for it
            ((old(self).state == SessionState::Ready || old(self).state == SessionState::Working)
                && (event matches SessionEvent::Message(m) && m.spec_tag() == PeerMsgTag::Unchoke)
                && old(self).current is None
                && exists|k: int| 0 <= k < old(queue).pieces@.len() && held(old(self).have@, #[trigger] old(queue).pieces@[k]))
                ==> (final(self).current matches Some(p) && p.next_block >= 1 && r@.len() == p.next_block
                    && requests_run(r@, p.index, p.length, 0)),
            // requests come last, for consecutive blocks of the piece in hand, in ascending order,
            // and only while unchoked
            request_tail(r@, final(self).current),
            !no_requests(r@) ==> (final(self).state == SessionState::Working && !final(self).choked),
            final(self).choked ==> no_requests(r@),
            // a block while working: kept, or the piece is handed over whole, or given back
            (old(self).state == SessionState::Working && (event matches SessionEvent::Message(m) && m.spec_tag() == PeerMsgTag::Piece)
                && old(self).current is Some) ==> piece_outcome(old(self).current->Some_0, old(self).hashes@,
                old(queue).pieces@, event->Message_0.payload(), *final(self), final(queue).pieces@, r@),
            // the piece in hand is the one that was, or one that was missing
            final(self).current matches Some(p) ==> ((old(self).current matches Some(p0) && p0.index == p.index)
                || old(queue).pieces@.contains(p.index)),
            final(self).state == SessionState::Closed ==> final(self).current is None,
            (old(self).current is None && old(queue).pieces@.len() == 0) ==> final(self).current is None,
    {
        let mut actions: Vec<SessionAction> = Vec::new();
        let ghost q0 = queue.pieces@;
        let ghost c0 = self.current;
        let ghost e0 = Seq::<SessionAction>::empty();
        assert(actions@ == e0);
        match self.state {
            SessionState::Closed => {
                return actions;
            },
            SessionState::Connecting => {
                match event {
                    SessionEvent::Connected => {
                        let hs = HandShake::new(self.info_hash, self.peer_id);
                        actions.push(SessionAction::SendHandshake(hs.to_bytes()));
                        self.state = SessionState::Handshaking;
                    },
                    _ => self.close(queue, &mut actions),
                }
            },
            SessionState::Handshaking => {
                match event {
                    SessionEvent::Handshake(b) => {
                        if self.check_handshake(b.as_slice()) {
                            self.state = SessionState::BitfieldWait;
                        } else {
                            self.close(queue, &mut actions);
                        }
                    },
                    _ => self.close(queue, &mut actions),
                }
            },
            SessionState::BitfieldWait => {
                match event {
                    SessionEvent::Message(m) => {
                        if self.current.is_some() {
                            self.close(queue, &mut actions);
                        } else {
                            self.on_first_message(queue, &mut actions, &m);
                        }
                    },
                    _ => self.close(queue, &mut actions),
                }
            },
            SessionState::Ready | SessionState::Working => {
                match event {
                    SessionEvent::Message(m) => {
                        let tag = *m.tag();
                        match tag {
                            PeerMsgTag::Choke => {
                                self.drop_current(queue);
                                self.state = SessionState::Ready;
                                self.choked = true;
                                proof {
                                    assert forall|i: usize| accounted(i, q0, c0, e0) implies accounted(i, queue.pieces@, self.current, actions@) by {
                                        if q0.contains(i) {
                                            let k = choose|k: int| 0 <= k < q0.len() && q0[k] == i;
                                            assert(queue.pieces@[k] == i);
                                        } else {
                                            assert(queue.pieces@[q0.len() as int] == i);
                                        }
                                    }
                                }
                            },
                            PeerMsgTag::Unchoke => {
                                self.choked = false;
                                self.state = SessionState::Working;
                                let cur = self.current.take();
                                match cur {
                                    None => {
                                        self.start_next_piece(queue, &mut actions);
                                        assert(actions@.subrange(0, 0) =~= e0);
                                        assert(actions@.subrange(0, actions@.len() as int) =~= actions@);
                                        proof {
                                            assert(actions@ =~= e0 + actions@);
                                            lemma_no_requests_of(e0);
                                            if self.current is Some {
                                                lemma_request_tail(e0, actions@, self.current);
                                            } else {
                                                assert(actions@ =~= seq![SessionAction::Close]);
                                                lemma_no_requests_of(actions@);
                                            }
                                        }
                                    },
                                    Some(mut p) => {
                                        p.issue_requests(&mut actions, Ghost(self.hashes@));
                                        self.current = Some(p);
                                        assert(actions@.subrange(0, actions@.len() as int) =~= actions@);
                                        proof {
                                            assert(actions@ =~= e0 + actions@);
                                            lemma_no_requests_of(e0);
                                            lemma_request_tail(e0, actions@, self.current);
                                        }
                                    },
                                }
                            },
                            PeerMsgTag::Have => {
                                let data = m.data();
                                if data.len() >= 4 {
                                    let index = read_be_u32(data.as_slice(), 0);
                                    self.set_have(index as usize);
                                }
                            },
                            PeerMsgTag::Piece => {
                                if self.state == SessionState::Working && self.current.is_some() {
                                    self.on_block(queue, &mut actions, m.data());
                                    assert(actions@.subrange(0, actions@.len() as int) =~= actions@);
                                }
                            },
                            _ => {},
                        }
                    },
                    SessionEvent::Timeout | SessionEvent::Disconnected => self.close(queue, &mut actions),
                    _ => {},
                }
            },
        }
        proof {
            if actions@.len() == 0 {
                assert(actions@ =~= e0 + e0);
                lemma_no_requests_of(e0);
                lemma_request_tail(e0, e0, self.current);
            } else if actions@.len() == 1 && !(actions@[0] is Request) && self.current is None {
                lemma_no_requests_of(actions@);
            }
        }
        actions
    }
}

/// Where a download stands, from the coordinator's counts.
#[derive(Debug, Clone, Copy, PartialEq, Eq, Structural)]
pub enum Outcome {
    /// Work remains and someone may still do it.
    Continue,
    /// Every piece is written and every session has ended.
    Complete,
    /// Pieces are missing, and no session is open and no peer is left to try.
    Incomplete,
}

/// Decides whether a download is over: complete once nothing is missing and every session has
/// drained; incomplete once the peers are used up and every session has closed with pieces
/// still missing.
pub fn download_outcome(missing: usize, open_sessions: usize, peers_left: usize) -> (r: Outcome)
    ensures
        r == (if open_sessions > 0 {
            Outcome::Continue
        } else if missing == 0 {
            Outcome::Complete
        } else if peers_left == 0 {
            Outcome::Incomplete
        } else {
            Outcome::Continue
        }),
{
    if open_sessions > 0 {
        Outcome::Continue
    } else if missing == 0 {
        Outcome::Complete
    } else if peers_left == 0 {
        Outcome::Incomplete
    } else {
        Outcome::Continue
    }
}

/// Seconds a request may go unanswered.
pub const REQUEST_TIMEOUT_SECS: u64 = 30;

/// Seconds of silence after which a keep-alive goes out.
pub const KEEP_ALIVE_SECS: u64 = 120;

/// Seconds of silence after which the session gives up.
pub const IDLE_CLOSE_SECS: u64 = 180;

/// What a silent peer calls for.
#[derive(Debug, Clone, Copy, PartialEq, Eq, Structural)]
pub enum IdleAction {
    Wait,
    KeepAlive,
    Timeout,
}

/// Decides on silence: a request unanswered too long, or silence too long, times the session
/// out; a long silence first calls for one keep-alive.
pub fn idle_action(idle_secs: u64, awaiting_blocks: bool, keep_alive_sent: bool) -> (r: IdleAction)
    ensures
        r == (if idle_secs >= IDLE_CLOSE_SECS || (awaiting_blocks && idle_secs >= REQUEST_TIMEOUT_SECS) {
            IdleAction::Timeout
        } else if idle_secs >= KEEP_ALIVE_SECS && !keep_alive_sent {
            IdleAction::KeepAlive
        } else {
            IdleAction::Wait
        }),
{
    if idle_secs >= IDLE_CLOSE_SECS || (awaiting_blocks && idle_secs >= REQUEST_TIMEOUT_SECS) {
        IdleAction::Timeout
    } else if idle_secs >= KEEP_ALIVE_SECS && !keep_alive_sent {
        IdleAction::KeepAlive
    } else {
        IdleAction::Wait
    }
}

impl PeerSession {
    /// Whether requests of this session are out and unanswered.
    pub fn awaiting_blocks(&self) -> (r: bool)
        ensures
            r == (self.current matches Some(p) && p.in_flight > 0),
    {
        match &self.current {
            Some(p) => p.in_flight > 0,
            None => false,
        }
    }
}

} // verus!
