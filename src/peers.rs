//! The peer wire protocol: the handshake, the length-prefixed frames and their payloads.
use vstd::prelude::*;
use crate::bencode::copy_range;

verus! {

/// The kind of a peer message, named by the byte after the length prefix.
#[derive(Debug, Clone, Copy, PartialEq, Eq, Structural)]
pub enum PeerMsgTag {
    Choke,
    Unchoke,
    Interested,
    NotInterested,
    Have,
    Bitfield,
    Request,
    Piece,
    Cancel,
}

/// Why a byte is no message id.
#[derive(Debug, Clone, Copy, PartialEq, Eq, Structural)]
pub struct UnknownTag(pub u8);

/// The message id of a tag.
pub open spec fn tag_id(t: PeerMsgTag) -> u8 {
    match t {
        PeerMsgTag::Choke => 0,
        PeerMsgTag::Unchoke => 1,
        PeerMsgTag::Interested => 2,
        PeerMsgTag::NotInterested => 3,
        PeerMsgTag::Have => 4,
        PeerMsgTag::Bitfield => 5,
        PeerMsgTag::Request => 6,
        PeerMsgTag::Piece => 7,
        PeerMsgTag::Cancel => 8,
    }
}

/// The tag that a message id names, if any.
pub open spec fn tag_of(b: u8) -> Option<PeerMsgTag> {
    if b == 0 {
        Some(PeerMsgTag::Choke)
    } else if b == 1 {
        Some(PeerMsgTag::Unchoke)
    } else if b == 2 {
        Some(PeerMsgTag::Interested)
    } else if b == 3 {
        Some(PeerMsgTag::NotInterested)
    } else if b == 4 {
        Some(PeerMsgTag::Have)
    } else if b == 5 {
        Some(PeerMsgTag::Bitfield)
    } else if b == 6 {
        Some(PeerMsgTag::Request)
    } else if b == 7 {
        Some(PeerMsgTag::Piece)
    } else if b == 8 {
        Some(PeerMsgTag::Cancel)
    } else {
        None
    }
}

impl PeerMsgTag {
    /// The tag that a message id names; an error for any byte above 8.
    pub fn try_from(value: u8) -> (r: Result<PeerMsgTag, UnknownTag>)
        ensures
            match r {
                Ok(t) => tag_of(value) == Some(t) && tag_id(t) == value,
                Err(e) => tag_of(value) is None && e.0 == value,
            },
    {
        match value {
            0 => Ok(PeerMsgTag::Choke),
            1 => Ok(PeerMsgTag::Unchoke),
            2 => Ok(PeerMsgTag::Interested),
            3 => Ok(PeerMsgTag::NotInterested),
            4 => Ok(PeerMsgTag::Have),
            5 => Ok(PeerMsgTag::Bitfield),
            6 => Ok(PeerMsgTag::Request),
            7 => Ok(PeerMsgTag::Piece),
            8 => Ok(PeerMsgTag::Cancel),
            _ => Err(UnknownTag(value)),
        }
    }

    /// The message id of this tag.
    pub fn id(&self) -> (r: u8)
        ensures
            r == tag_id(*self),
            tag_of(r) == Some(*self),
    {
        match self {
            PeerMsgTag::Choke => 0,
            PeerMsgTag::Unchoke => 1,
            PeerMsgTag::Interested => 2,
            PeerMsgTag::NotInterested => 3,
            PeerMsgTag::Have => 4,
            PeerMsgTag::Bitfield => 5,
            PeerMsgTag::Request => 6,
            PeerMsgTag::Piece => 7,
            PeerMsgTag::Cancel => 8,
        }
    }
}

/// A peer message other than a keep-alive: its length prefix, its tag and its payload.
pub struct PeerMsgType {
    msg_length: u32,
    tag: PeerMsgTag,
    data: Vec<u8>,
}

impl PeerMsgType {
    /// The length prefix counts the id byte and the payload.
    pub closed spec fn wf(&self) -> bool {
        self.msg_length == self.data@.len() + 1
    }

    pub closed spec fn spec_tag(&self) -> PeerMsgTag {
        self.tag
    }

    pub closed spec fn payload(&self) -> Seq<u8> {
        self.data@
    }

    /// A message with the given tag and payload.
    pub fn new(tag: PeerMsgTag, data: Vec<u8>) -> (r: PeerMsgType)
        requires
            data@.len() < u32::MAX,
        ensures
            r.wf(),
            r.spec_tag() == tag,
            r.payload() == data@,
    {
        PeerMsgType { msg_length: (data.len() + 1) as u32, tag, data }
    }

    pub fn tag(&self) -> (r: &PeerMsgTag)
        ensures
            *r == self.spec_tag(),
    {
        &self.tag
    }

    pub fn data(&self) -> (r: &Vec<u8>)
        ensures
            r@ == self.payload(),
    {
        &self.data
    }

    pub fn msg_length(&self) -> (r: u32)
        ensures
            self.wf() ==> r == self.payload().len() + 1,
    {
        self.msg_length
    }
}

/// The four bytes of `n`, most significant first.
pub open spec fn be_bytes(n: u32) -> Seq<u8> {
    seq![(n / 0x1000000) as u8, ((n / 0x10000) % 0x100) as u8, ((n / 0x100) % 0x100) as u8, (n % 0x100) as u8]
}

/// The number that four bytes at `pos` give, most significant first.
pub open spec fn be_value(s: Seq<u8>, pos: int) -> nat {
    s[pos] as nat * 0x1000000 + s[pos + 1] as nat * 0x10000 + s[pos + 2] as nat * 0x100 + s[pos + 3] as nat
}

/// Appends the four bytes of `n`, most significant first.
pub fn push_be_u32(out: &mut Vec<u8>, n: u32)
    ensures
        final(out)@ == old(out)@ + be_bytes(n),
{
    out.push((n / 0x1000000) as u8);
    out.push(((n / 0x10000) % 0x100) as u8);
    out.push(((n / 0x100) % 0x100) as u8);
    out.push((n % 0x100) as u8);
    assert(final(out)@ =~= old(out)@ + be_bytes(n));
}

/// The number that four bytes at `pos` give, most significant first.
pub fn read_be_u32(s: &[u8], pos: usize) -> (r: u32)
    requires
        pos + 4 <= s@.len(),
    ensures
        r as nat == be_value(s@, pos as int),
{
    (s[pos] as u32) * 0x1000000 + (s[pos + 1] as u32) * 0x10000 + (s[pos + 2] as u32) * 0x100 + (s[pos + 3] as u32)
}

/// The largest length prefix a frame may carry: a 16 KiB block with the nine bytes of a `piece`
/// message's header.
pub const MAX_FRAME: u32 = 16393;

/// Why buffered bytes are no valid frame.
#[derive(Debug, Clone, Copy, PartialEq, Eq, Structural)]
pub enum FrameError {
    /// A length prefix beyond the largest frame.
    TooLarge(u32),
    /// A message id that names no message.
    UnknownTag(u8),
}

/// The bytes of a frame with the given tag and payload.
pub open spec fn frame_bytes(tag: PeerMsgTag, data: Seq<u8>) -> Seq<u8> {
    be_bytes((data.len() + 1) as u32) + seq![tag_id(tag)] + data
}

/// The first message in `s` from `pos`, keep-alives skipped: its tag, its payload and where it
/// ends; `None` until the whole frame is there.
pub open spec fn next_frame(s: Seq<u8>, pos: int) -> Result<Option<(PeerMsgTag, Seq<u8>, int)>, FrameError>
    decreases s.len() - pos,
{
    if pos < 0 || s.len() - pos < 4 {
        Ok(None)
    } else {
        let len = be_value(s, pos);
        if len > MAX_FRAME {
            Err(FrameError::TooLarge(len as u32))
        } else if s.len() - pos < 4 + len {
            Ok(None)
        } else if len == 0 {
            next_frame(s, pos + 4)
        } else {
            match tag_of(s[pos + 4]) {
                None => Err(FrameError::UnknownTag(s[pos + 4])),
                Some(t) => Ok(Some((t, s.subrange(pos + 5, pos + 4 + len), pos + 4 + len))),
            }
        }
    }
}

/// Frames peer messages: a four-byte big-endian length, then that many bytes.
pub struct PeerFrameCodec;

impl PeerFrameCodec {
    /// The first message in the buffered bytes, keep-alives skipped, with the number of bytes up
    /// to its end; `None` while the frame is incomplete.
    pub fn decode(&self, src: &[u8]) -> (r: Result<Option<(PeerMsgType, usize)>, FrameError>)
        ensures
            match r {
                Ok(Some((m, n))) => next_frame(src@, 0) == Ok::<Option<(PeerMsgTag, Seq<u8>, int)>, FrameError>(Some((m.spec_tag(), m.payload(), n as int)))
                    && m.wf() && n <= src@.len(),
                Ok(None) => next_frame(src@, 0) == Ok::<Option<(PeerMsgTag, Seq<u8>, int)>, FrameError>(None),
                Err(e) => next_frame(src@, 0) == Err::<Option<(PeerMsgTag, Seq<u8>, int)>, FrameError>(e),
            },
    {
        let n = src.len();
        let mut pos: usize = 0;
        loop
            invariant
                n == src@.len(),
                pos <= n,
                next_frame(src@, 0) == next_frame(src@, pos as int),
            decreases n - pos,
        {
            if n - pos < 4 {
                return Ok(None);
            }
            let len = read_be_u32(src, pos);
            if len > MAX_FRAME {
                return Err(FrameError::TooLarge(len));
            }
            let len = len as usize;
            if n - pos < 4 + len {
                return Ok(None);
            }
            if len == 0 {
                pos = pos + 4;
            } else {
                let id = src[pos + 4];
                return match PeerMsgTag::try_from(id) {
                    Err(_) => Err(FrameError::UnknownTag(id)),
                    Ok(tag) => {
                        let data = copy_range(src, pos + 5, pos + 4 + len);
                        Ok(Some((PeerMsgType::new(tag, data), pos + 4 + len)))
                    },
                };
            }
        }
    }

    /// The frame of a message.
    pub fn encode(&self, item: &PeerMsgType) -> (r: Vec<u8>)
        requires
            item.wf(),
        ensures
            r@ == frame_bytes(item.spec_tag(), item.payload()),
    {
        let mut out: Vec<u8> = Vec::new();
        push_be_u32(&mut out, item.msg_length);
        out.push(item.tag.id());
        let ghost head = out@;
        crate::bencode::push_all(&mut out, item.data.as_slice());
        assert(out@ =~= frame_bytes(item.spec_tag(), item.payload()));
        out
    }

    /// The frame of a keep-alive: a zero length prefix.
    pub fn keep_alive(&self) -> (r: Vec<u8>)
        ensures
            r@ == be_bytes(0),
    {
        let mut out: Vec<u8> = Vec::new();
        push_be_u32(&mut out, 0);
        out
    }
}

/// The payload of a `request` (and of a `cancel`): a block of a piece.
#[derive(Debug, Clone, Copy, PartialEq, Eq, Structural)]
pub struct PeerRequestMsgType {
    pub index: u32,
    pub begin: u32,
    pub length: u32,
}

impl PeerRequestMsgType {
    pub fn new(index: u32, begin: u32, length: u32) -> (r: PeerRequestMsgType)
        ensures
            r.index == index,
            r.begin == begin,
            r.length == length,
    {
        PeerRequestMsgType { index, begin, length }
    }

    /// The twelve payload bytes: index, begin and length, each big-endian.
    pub fn to_bytes(self) -> (r: [u8; 12])
        ensures
            r@ == be_bytes(self.index) + be_bytes(self.begin) + be_bytes(self.length),
    {
        let mut r = [0u8; 12];
        let mut v: Vec<u8> = Vec::new();
        push_be_u32(&mut v, self.index);
        push_be_u32(&mut v, self.begin);
        push_be_u32(&mut v, self.length);
        let mut j: usize = 0;
        while j < 12
            invariant
                v@.len() == 12,
                j <= 12,
                r@.len() == 12,
                forall|m: int| 0 <= m < j ==> r@[m] == v@[m],
            decreases 12 - j,
        {
            r[j] = v[j];
            j += 1;
        }
        assert(r@ =~= v@);
        r
    }
}

/// The payload of a `piece` message: a block of a piece and where it belongs.
pub struct PeerPieceMsgType {
    pub index: u32,
    pub begin: u32,
    pub block: Vec<u8>,
}

impl PeerPieceMsgType {
    /// Reads a `piece` payload: index and begin, big-endian, then the block; `None` where the
    /// payload is shorter than eight bytes.
    pub fn from_bytes(data: &[u8]) -> (r: Option<PeerPieceMsgType>)
        ensures
            match r {
                Some(p) => data@.len() >= 8 && p.index as nat == be_value(data@, 0) && p.begin as nat == be_value(data@, 4)
                    && p.block@ == data@.subrange(8, data@.len() as int),
                None => data@.len() < 8,
            },
    {
        if data.len() < 8 {
            return None;
        }
        let index = read_be_u32(data, 0);
        let begin = read_be_u32(data, 4);
        let block = copy_range(data, 8, data.len());
        Some(PeerPieceMsgType { index, begin, block })
    }
}

/// The protocol name that a handshake carries.
pub open spec fn protocol_name() -> Seq<u8> {
    seq![66u8, 105, 116, 84, 111, 114, 114, 101, 110, 116, 32, 112, 114, 111, 116, 111, 99, 111, 108]
}

/// The 68 bytes of a handshake: the name's length, the name, eight zero bytes, the info-hash and
/// the peer id.
pub open spec fn handshake_bytes(info_hash: Seq<u8>, peer_id: Seq<u8>) -> Seq<u8> {
    seq![19u8] + protocol_name() + seq![0u8, 0, 0, 0, 0, 0, 0, 0] + info_hash + peer_id
}

/// The handshake that opens a session.
pub struct HandShake {
    pub info_hash: [u8; 20],
    pub peer_id: [u8; 20],
}

impl HandShake {
    pub fn new(info_hash: [u8; 20], peer_id: [u8; 20]) -> (r: HandShake)
        ensures
            r.info_hash == info_hash,
            r.peer_id == peer_id,
    {
        HandShake { info_hash, peer_id }
    }

    /// The 68 bytes of this handshake.
    pub fn to_bytes(&self) -> (r: Vec<u8>)
        ensures
            r@ == handshake_bytes(self.info_hash@, self.peer_id@),
            r@.len() == 68,
    {
        let name = [66u8, 105, 116, 84, 111, 114, 114, 101, 110, 116, 32, 112, 114, 111, 116, 111, 99, 111, 108];
        let zeros = [0u8; 8];
        let mut out: Vec<u8> = Vec::new();
        out.push(19u8);
        crate::bencode::push_all(&mut out, &name);
        crate::bencode::push_all(&mut out, &zeros);
        crate::bencode::push_all(&mut out, &self.info_hash);
        crate::bencode::push_all(&mut out, &self.peer_id);
        assert(out@ =~= handshake_bytes(self.info_hash@, self.peer_id@));
        out
    }

    /// Reads a handshake: 68 bytes that open with the protocol's name, whatever the reserved
    /// bytes hold.
    pub fn from_bytes(b: &[u8]) -> (r: Option<HandShake>)
        ensures
            match r {
                Some(h) => b@.len() == 68 && b@[0] == 19 && b@.subrange(1, 20) == protocol_name()
                    && h.info_hash@ == b@.subrange(28, 48) && h.peer_id@ == b@.subrange(48, 68),
                None => !(b@.len() == 68 && b@[0] == 19 && b@.subrange(1, 20) == protocol_name()),
            },
    {
        let name = [66u8, 105, 116, 84, 111, 114, 114, 101, 110, 116, 32, 112, 114, 111, 116, 111, 99, 111, 108];
        if b.len() != 68 || b[0] != 19 {
            return None;
        }
        let mut j: usize = 0;
        while j < 19
            invariant
                b@.len() == 68,
                j <= 19,
                name@ == protocol_name(),
                forall|m: int| 0 <= m < j ==> b@[1 + m] == name@[m],
            decreases 19 - j,
        {
            if b[1 + j] != name[j] {
                assert(b@.subrange(1, 20)[j as int] != protocol_name()[j as int]);
                return None;
            }
            j += 1;
        }
        assert(b@.subrange(1, 20) =~= protocol_name());
        let mut info_hash = [0u8; 20];
        let mut peer_id = [0u8; 20];
        let mut k: usize = 0;
        while k < 20
            invariant
                b@.len() == 68,
                k <= 20,
                info_hash@.len() == 20,
                peer_id@.len() == 20,
                forall|m: int| 0 <= m < k ==> info_hash@[m] == b@[28 + m] && peer_id@[m] == b@[48 + m],
            decreases 20 - k,
        {
            info_hash[k] = b[28 + k];
            peer_id[k] = b[48 + k];
            k += 1;
        }
        assert(info_hash@ =~= b@.subrange(28, 48));
        assert(peer_id@ =~= b@.subrange(48, 68));
        Some(HandShake { info_hash, peer_id })
    }
}

/// An ASCII letter or digit.
pub open spec fn is_alnum(b: u8) -> bool {
    (48 <= b <= 57) || (65 <= b <= 90) || (97 <= b <= 122)
}

/// Relies on rand's `Alphanumeric` distribution (`DistString::sample_string` with
/// `thread_rng`, 20 long): twenty characters drawn from A-Z, a-z and 0-9, one byte each.
#[verifier::external_body]
fn random_alphanumeric() -> (r: Vec<u8>)
    ensures
        r@.len() == 20,
        forall|i: int| 0 <= i < 20 ==> is_alnum(#[trigger] r@[i]),
{
    let s = rand::distributions::DistString::sample_string(&rand::distributions::Alphanumeric, &mut rand::thread_rng(), 20);
    s.into_bytes()
}

/// A fresh peer id: twenty random ASCII letters and digits.
pub fn generate_peer_id() -> (r: [u8; 20])
    ensures
        forall|i: int| 0 <= i < 20 ==> is_alnum(#[trigger] r@[i]),
{
    let v = random_alphanumeric();
    let mut id = [0u8; 20];
    let mut k: usize = 0;
    while k < 20
        invariant
            k <= 20,
            v@.len() == 20,
            id@.len() == 20,
            forall|i: int| 0 <= i < 20 ==> is_alnum(#[trigger] v@[i]),
            forall|i: int| 0 <= i < k ==> id@[i] == v@[i],
        decreases 20 - k,
    {
        id[k] = v[k];
        k += 1;
    }
    assert forall|i: int| 0 <= i < 20 implies is_alnum(#[trigger] id@[i]) by {
        assert(id@[i] == v@[i]);
    }
    id
}

} // verus!
