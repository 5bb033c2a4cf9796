//! The tracker: the announce query, the reply and its peer list, and the retry delays.
use vstd::prelude::*;
use crate::torrent::count_of;
use crate::bencode::{Value, Term, DecodeError, enc_nat, push_decimal, push_all, lookup, entry_terms, terms, dict_get,
    decode, parse_value, copy_bytes, lemma_list_term, lemma_dict_term};

verus! {

/// What a request tells the tracker of the download.
#[derive(Debug, Clone, Copy, PartialEq, Eq, Structural)]
pub enum Event {
    STARTED,
    STOPPED,
    COMPLETED,
}

/// An announce to the tracker.
pub struct TrackerRequest {
    pub info_hash: [u8; 20],
    pub peer_id: [u8; 20],
    pub port: u16,
    pub uploaded: usize,
    pub downloaded: usize,
    pub left: usize,
    pub compact: u8,
    pub no_peer_id: usize,
    pub event: Event,
}

/// The port announced, the first of those kept for BitTorrent.
pub const DEFAULT_PORT: u16 = 6881;

/// Letters, digits and `-._~` stand for themselves in a query.
pub open spec fn unreserved(b: u8) -> bool {
    (48 <= b <= 57) || (65 <= b <= 90) || (97 <= b <= 122) || b == 45 || b == 46 || b == 95 || b == 126
}

/// An upper-case hexadecimal digit.
pub open spec fn hex_digit(n: u8) -> u8 {
    if n < 10 {
        (48 + n) as u8
    } else {
        (55 + n) as u8
    }
}

pub open spec fn pct_byte(b: u8) -> Seq<u8> {
    if unreserved(b) {
        seq![b]
    } else {
        seq![37u8, hex_digit(b / 16), hex_digit(b % 16)]
    }
}

/// Percent-encoding, byte by byte.
pub open spec fn pct(s: Seq<u8>) -> Seq<u8>
    decreases s.len(),
{
    if s.len() == 0 {
        Seq::empty()
    } else {
        pct(s.drop_last()) + pct_byte(s.last())
    }
}

pub open spec fn event_text(e: Event) -> Seq<u8> {
    match e {
        Event::STARTED => seq![115u8, 116, 97, 114, 116, 101, 100],
        Event::STOPPED => seq![115u8, 116, 111, 112, 112, 101, 100],
        Event::COMPLETED => seq![99u8, 111, 109, 112, 108, 101, 116, 101, 100],
    }
}

/// The query string of an announce.
pub open spec fn query_of(r: TrackerRequest) -> Seq<u8> {
    seq![105u8, 110, 102, 111, 95, 104, 97, 115, 104, 61] + pct(r.info_hash@)
        + seq![38u8, 112, 101, 101, 114, 95, 105, 100, 61] + pct(r.peer_id@)
        + seq![38u8, 112, 111, 114, 116, 61] + enc_nat(r.port as nat)
        + seq![38u8, 117, 112, 108, 111, 97, 100, 101, 100, 61] + enc_nat(r.uploaded as nat)
        + seq![38u8, 100, 111, 119, 110, 108, 111, 97, 100, 101, 100, 61] + enc_nat(r.downloaded as nat)
        + seq![38u8, 108, 101, 102, 116, 61] + enc_nat(r.left as nat)
        + seq![38u8, 99, 111, 109, 112, 97, 99, 116, 61] + enc_nat(r.compact as nat)
        + seq![38u8, 101, 118, 101, 110, 116, 61] + event_text(r.event)
}

fn hex_digit_exec(n: u8) -> (r: u8)
    requires
        n < 16,
    ensures
        r == hex_digit(n),
{
    if n < 10 {
        48 + n
    } else {
        55 + n
    }
}

fn push_pct(out: &mut Vec<u8>, s: &[u8])
    ensures
        final(out)@ == old(out)@ + pct(s@),
{
    let mut i: usize = 0;
    assert(s@.subrange(0, 0) =~= Seq::<u8>::empty());
    while i < s.len()
        invariant
            i <= s@.len(),
            out@ == old(out)@ + pct(s@.subrange(0, i as int)),
        decreases s@.len() - i,
    {
        let b = s[i];
        let ghost before = out@;
        if (48 <= b && b <= 57) || (65 <= b && b <= 90) || (97 <= b && b <= 122) || b == 45 || b == 46 || b == 95 || b == 126 {
            out.push(b);
        } else {
            out.push(37u8);
            out.push(hex_digit_exec(b / 16));
            out.push(hex_digit_exec(b % 16));
        }
        assert(before + pct_byte(b) =~= out@);
        assert(s@.subrange(0, i as int + 1).drop_last() =~= s@.subrange(0, i as int));
        i += 1;
    }
    assert(s@.subrange(0, i as int) =~= s@);
}

fn push_event(out: &mut Vec<u8>, e: Event)
    ensures
        final(out)@ == old(out)@ + event_text(e),
{
    match e {
        Event::STARTED => push_all(out, &[115u8, 116, 97, 114, 116, 101, 100]),
        Event::STOPPED => push_all(out, &[115u8, 116, 111, 112, 112, 101, 100]),
        Event::COMPLETED => push_all(out, &[99u8, 111, 109, 112, 108, 101, 116, 101, 100]),
    }
}

impl TrackerRequest {
    /// The first announce of a download: nothing up or down yet, `left` bytes to go, compact
    /// peer lists asked for.
    pub fn new(info_hash: [u8; 20], left: usize, peer_id: [u8; 20]) -> (r: TrackerRequest)
        ensures
            r.info_hash == info_hash,
            r.peer_id == peer_id,
            r.left == left,
            r.port == DEFAULT_PORT,
            r.uploaded == 0,
            r.downloaded == 0,
            r.compact == 1,
            r.no_peer_id == 0,
            r.event == Event::STARTED,
    {
        TrackerRequest {
            info_hash,
            peer_id,
            port: DEFAULT_PORT,
            uploaded: 0,
            downloaded: 0,
            left,
            compact: 1,
            no_peer_id: 0,
            event: Event::STARTED,
        }
    }

    /// The query string of this announce, in ASCII.
    pub fn query(&self) -> (r: Vec<u8>)
        ensures
            r@ == query_of(*self),
    {
        let mut out: Vec<u8> = Vec::new();
        push_all(&mut out, &[105u8, 110, 102, 111, 95, 104, 97, 115, 104, 61]);
        push_pct(&mut out, &self.info_hash);
        push_all(&mut out, &[38u8, 112, 101, 101, 114, 95, 105, 100, 61]);
        push_pct(&mut out, &self.peer_id);
        push_all(&mut out, &[38u8, 112, 111, 114, 116, 61]);
        push_decimal(&mut out, self.port as u64);
        push_all(&mut out, &[38u8, 117, 112, 108, 111, 97, 100, 101, 100, 61]);
        push_decimal(&mut out, self.uploaded as u64);
        push_all(&mut out, &[38u8, 100, 111, 119, 110, 108, 111, 97, 100, 101, 100, 61]);
        push_decimal(&mut out, self.downloaded as u64);
        push_all(&mut out, &[38u8, 108, 101, 102, 116, 61]);
        push_decimal(&mut out, self.left as u64);
        push_all(&mut out, &[38u8, 99, 111, 109, 112, 97, 99, 116, 61]);
        push_decimal(&mut out, self.compact as u64);
        push_all(&mut out, &[38u8, 101, 118, 101, 110, 116, 61]);
        push_event(&mut out, self.event);
        assert(out@ =~= query_of(*self));
        out
    }

    /// The announce URL with this query: after a `?`, or after a `&` where the URL has a query
    /// already.
    pub fn url(&self, announce: &[u8]) -> (r: Vec<u8>)
        ensures
            r@ == announce@ + seq![if announce@.contains(63u8) { 38u8 } else { 63u8 }] + query_of(*self),
    {
        let mut out: Vec<u8> = Vec::new();
        push_all(&mut out, announce);
        let mut has_query = false;
        let mut i: usize = 0;
        while i < announce.len()
            invariant
                i <= announce@.len(),
                has_query == announce@.subrange(0, i as int).contains(63u8),
            decreases announce@.len() - i,
        {
            if announce[i] == 63u8 {
                assert(announce@.subrange(0, i as int + 1)[i as int] == 63u8);
                has_query = true;
            }
            proof {
                if has_query && announce@[i as int] != 63u8 {
                    let k = choose|k: int| 0 <= k < i && announce@.subrange(0, i as int)[k] == 63u8;
                    assert(announce@.subrange(0, i as int + 1)[k] == 63u8);
                }
                if !has_query {
                    assert forall|k: int| 0 <= k < i + 1 implies #[trigger] announce@.subrange(0, i as int + 1)[k] != 63u8 by {
                        if k < i {
                            assert(announce@.subrange(0, i as int)[k] == announce@[k]);
                        }
                    }
                }
            }
            i += 1;
        }
        assert(announce@.subrange(0, i as int) =~= announce@);
        out.push(if has_query { 38u8 } else { 63u8 });
        let q = self.query();
        push_all(&mut out, q.as_slice());
        out
    }
}

/// A peer's address: its host as text (a dotted IPv4 address in the compact form) and its port.
pub struct PeerAddr {
    pub host: Vec<u8>,
    pub port: u16,
}

/// The tracker's reply.
pub enum TrackerResponse {
    Failure { reason: Vec<u8> },
    Success {
        interval: usize,
        peers: Vec<PeerAddr>,
        complete: Option<usize>,
        incomplete: Option<usize>,
        min_interval: Option<usize>,
        tracker_id: Option<Vec<u8>>,
    },
}

/// Why bytes are not a tracker reply.
#[derive(Debug, Clone, Copy, PartialEq, Eq, Structural)]
pub enum TrackerError {
    Decode(DecodeError),
    Schema,
}

/// What a tracker reply says.
pub enum Reply {
    Failure(Seq<u8>),
    Peers {
        interval: nat,
        peers: Seq<(Seq<u8>, nat)>,
        complete: Option<nat>,
        incomplete: Option<nat>,
        min_interval: Option<nat>,
        tracker_id: Option<Seq<u8>>,
    },
}

pub open spec fn key_failure() -> Seq<u8> { seq![102u8, 97, 105, 108, 117, 114, 101, 32, 114, 101, 97, 115, 111, 110] }
pub open spec fn key_interval() -> Seq<u8> { seq![105u8, 110, 116, 101, 114, 118, 97, 108] }
pub open spec fn key_peers() -> Seq<u8> { seq![112u8, 101, 101, 114, 115] }
pub open spec fn key_ip() -> Seq<u8> { seq![105u8, 112] }
pub open spec fn key_port() -> Seq<u8> { seq![112u8, 111, 114, 116] }
pub open spec fn key_complete() -> Seq<u8> { seq![99u8, 111, 109, 112, 108, 101, 116, 101] }
pub open spec fn key_incomplete() -> Seq<u8> { seq![105u8, 110, 99, 111, 109, 112, 108, 101, 116, 101] }
pub open spec fn key_min_interval() -> Seq<u8> { seq![109u8, 105, 110, 32, 105, 110, 116, 101, 114, 118, 97, 108] }
pub open spec fn key_tracker_id() -> Seq<u8> { seq![116u8, 114, 97, 99, 107, 101, 114, 32, 105, 100] }

/// The four bytes at `p` as a dotted IPv4 address.
pub open spec fn dotted(b: Seq<u8>, p: int) -> Seq<u8> {
    enc_nat(b[p] as nat) + seq![46u8] + enc_nat(b[p + 1] as nat) + seq![46u8] + enc_nat(b[p + 2] as nat) + seq![46u8]
        + enc_nat(b[p + 3] as nat)
}

/// The compact peer list: six bytes a peer, the address then the port, both big-endian.
pub open spec fn compact_peers(b: Seq<u8>) -> Seq<(Seq<u8>, nat)> {
    Seq::new(b.len() / 6, |k: int| (dotted(b, 6 * k), b[6 * k + 4] as nat * 256 + b[6 * k + 5] as nat))
}

/// A peer of the list form: a dictionary with an `ip` string and a `port` below 65536.
pub open spec fn peer_of(t: Term) -> Option<(Seq<u8>, nat)> {
    match t {
        Term::Dict(es) => match (lookup(es, key_ip()), count_of(lookup(es, key_port()))) {
            (Some(Term::Str(ip)), Some(port)) => if port <= u16::MAX { Some((ip, port)) } else { None },
            _ => None,
        },
        _ => None,
    }
}

pub open spec fn list_peers(ts: Seq<Term>) -> Option<Seq<(Seq<u8>, nat)>>
    decreases ts.len(),
{
    if ts.len() == 0 {
        Some(Seq::empty())
    } else {
        match (list_peers(ts.drop_last()), peer_of(ts.last())) {
            (Some(a), Some(x)) => Some(a.push(x)),
            _ => None,
        }
    }
}

pub open spec fn bytes_of(t: Option<Term>) -> Option<Seq<u8>> {
    match t {
        Some(Term::Str(b)) => Some(b),
        _ => None,
    }
}

/// The peers of a reply, in either form.
pub open spec fn peers_of(t: Option<Term>) -> Option<Seq<(Seq<u8>, nat)>> {
    match t {
        Some(Term::Str(b)) => if b.len() % 6 == 0 { Some(compact_peers(b)) } else { None },
        Some(Term::List(ts)) => list_peers(ts),
        _ => None,
    }
}

/// What a bencode value says as a tracker reply, where it is one: a failure where it has a
/// `failure reason`, else an interval and the peers.
pub open spec fn reply_of(t: Term) -> Option<Reply> {
    match t {
        Term::Dict(es) => match bytes_of(lookup(es, key_failure())) {
            Some(reason) => Some(Reply::Failure(reason)),
            None => match (count_of(lookup(es, key_interval())), peers_of(lookup(es, key_peers()))) {
                (Some(interval), Some(peers)) => Some(Reply::Peers {
                    interval,
                    peers,
                    complete: count_of(lookup(es, key_complete())),
                    incomplete: count_of(lookup(es, key_incomplete())),
                    min_interval: count_of(lookup(es, key_min_interval())),
                    tracker_id: bytes_of(lookup(es, key_tracker_id())),
                }),
                _ => None,
            },
        },
        _ => None,
    }
}

pub open spec fn opt_count(o: Option<usize>) -> Option<nat> {
    match o {
        Some(x) => Some(x as nat),
        None => None,
    }
}

pub open spec fn opt_bytes(o: Option<Vec<u8>>) -> Option<Seq<u8>> {
    match o {
        Some(x) => Some(x@),
        None => None,
    }
}

pub open spec fn peers_view(ps: Seq<PeerAddr>) -> Seq<(Seq<u8>, nat)> {
    Seq::new(ps.len(), |k: int| (ps[k].host@, ps[k].port as nat))
}

impl TrackerResponse {
    /// This response says what `r` says.
    pub open spec fn says(&self, r: Reply) -> bool {
        match (*self, r) {
            (TrackerResponse::Failure { reason }, Reply::Failure(why)) => reason@ == why,
            (TrackerResponse::Success { interval, peers, complete, incomplete, min_interval, tracker_id },
                Reply::Peers { interval: i2, peers: p2, complete: c2, incomplete: n2, min_interval: m2, tracker_id: t2 }) => {
                &&& interval == i2
                &&& peers_view(peers@) == p2
                &&& opt_count(complete) == c2
                &&& opt_count(incomplete) == n2
                &&& opt_count(min_interval) == m2
                &&& opt_bytes(tracker_id) == t2
            },
            _ => false,
        }
    }
}

/// Appends the decimal digits of a byte.
fn push_octet(out: &mut Vec<u8>, b: u8)
    ensures
        final(out)@ == old(out)@ + enc_nat(b as nat),
{
    push_decimal(out, b as u64);
}

/// The peer whose six compact bytes start at `p`.
fn compact_peer(b: &[u8], p: usize) -> (r: PeerAddr)
    requires
        p + 6 <= b@.len(),
    ensures
        r.host@ == dotted(b@, p as int),
        r.port as nat == b@[p + 4] as nat * 256 + b@[p + 5] as nat,
{
    let mut host: Vec<u8> = Vec::new();
    push_octet(&mut host, b[p]);
    host.push(46u8);
    push_octet(&mut host, b[p + 1]);
    host.push(46u8);
    push_octet(&mut host, b[p + 2]);
    host.push(46u8);
    push_octet(&mut host, b[p + 3]);
    assert(host@ =~= dotted(b@, p as int));
    PeerAddr { host, port: (b[p + 4] as u16) * 256 + (b[p + 5] as u16) }
}

fn compact_list(b: &[u8]) -> (r: Vec<PeerAddr>)
    requires
        b@.len() % 6 == 0,
    ensures
        peers_view(r@) == compact_peers(b@),
{
    let len = b.len();
    let n = len / 6;
    let mut out: Vec<PeerAddr> = Vec::new();
    let mut k: usize = 0;
    while k < n
        invariant
            len == b@.len(),
            n == b@.len() / 6,
            b@.len() % 6 == 0,
            k <= n,
            out@.len() == k,
            forall|j: int| 0 <= j < k ==> (#[trigger] out@[j]).host@ == dotted(b@, 6 * j)
                && out@[j].port as nat == b@[6 * j + 4] as nat * 256 + b@[6 * j + 5] as nat,
        decreases n - k,
    {
        assert(6 * k + 6 <= b@.len());
        out.push(compact_peer(b, 6 * k));
        k += 1;
    }
    assert(peers_view(out@) =~= compact_peers(b@));
    out
}

proof fn lemma_peers_prefix_none(ts: Seq<Term>, j: int)
    requires
        0 <= j <= ts.len(),
        list_peers(ts.take(j)) is None,
    ensures
        list_peers(ts) is None,
    decreases ts.len() - j,
{
    if j == ts.len() {
        assert(ts.take(j) =~= ts);
    } else {
        assert(ts.drop_last().take(j) =~= ts.take(j));
        lemma_peers_prefix_none(ts.drop_last(), j);
    }
}

fn peer_from(v: &Value) -> (r: Option<PeerAddr>)
    ensures
        match r {
            Some(p) => peer_of(v.term()) == Some((p.host@, p.port as nat)),
            None => peer_of(v.term()) is None,
        },
{
    match v {
        Value::Dict(es) => {
            proof {
                lemma_dict_term(*es);
            }
            let k_ip = [105u8, 112];
            let k_port = [112u8, 111, 114, 116];
            assert(k_ip@ == key_ip());
            assert(k_port@ == key_port());
            let ip = match dict_get(es, &k_ip) {
                Some(Value::Bytes(ip)) => ip,
                _ => {
                    return None;
                },
            };
            match dict_get(es, &k_port) {
                Some(Value::Int(port)) => {
                    if *port >= 0 && *port <= 65535 {
                        Some(PeerAddr { host: copy_bytes(ip.as_slice()), port: *port as u16 })
                    } else {
                        None
                    }
                },
                _ => None,
            }
        },
        _ => None,
    }
}

fn peer_list(items: &Vec<Value>) -> (r: Option<Vec<PeerAddr>>)
    ensures
        match r {
            Some(ps) => list_peers(terms(items@)) == Some(peers_view(ps@)),
            None => list_peers(terms(items@)) is None,
        },
{
    let ghost ts = terms(items@);
    let mut out: Vec<PeerAddr> = Vec::new();
    let mut k: usize = 0;
    assert(ts.take(0) =~= Seq::<Term>::empty());
    assert(peers_view(out@) =~= Seq::<(Seq<u8>, nat)>::empty());
    while k < items.len()
        invariant
            k <= items@.len(),
            ts == terms(items@),
            list_peers(ts.take(k as int)) == Some(peers_view(out@)),
        decreases items@.len() - k,
    {
        assert(ts.take(k as int + 1).drop_last() =~= ts.take(k as int));
        assert(ts.take(k as int + 1).last() == items@[k as int].term());
        match peer_from(&items[k]) {
            None => {
                proof {
                    lemma_peers_prefix_none(ts, k as int + 1);
                }
                return None;
            },
            Some(p) => {
                let ghost before = out@;
                let ghost pv = (p.host@, p.port as nat);
                out.push(p);
                assert(peers_view(out@) =~= peers_view(before).push(pv));
            },
        }
        k += 1;
    }
    assert(ts.take(k as int) =~= ts);
    Some(out)
}

fn get_count_opt(es: &Vec<(Vec<u8>, Value)>, key: &[u8]) -> (r: Option<usize>)
    ensures
        opt_count(r) == count_of(lookup(entry_terms(es@), key@)),
{
    match dict_get(es, key) {
        Some(Value::Int(i)) => if *i >= 0 && (*i as u64) <= (usize::MAX as u64) { Some(*i as usize) } else { None },
        _ => None,
    }
}

fn get_bytes_opt(es: &Vec<(Vec<u8>, Value)>, key: &[u8]) -> (r: Option<Vec<u8>>)
    ensures
        opt_bytes(r) == bytes_of(lookup(entry_terms(es@), key@)),
{
    match dict_get(es, key) {
        Some(Value::Bytes(b)) => Some(copy_bytes(b.as_slice())),
        _ => None,
    }
}

/// Reads a tracker's reply.
pub fn parse_response(s: &[u8]) -> (r: Result<TrackerResponse, TrackerError>)
    ensures
        match r {
            Ok(resp) => parse_value(s@, 0) matches Ok((t, _)) && reply_of(t) matches Some(rep) && resp.says(rep),
            Err(TrackerError::Decode(e)) => parse_value(s@, 0) == Err::<(Term, int), DecodeError>(e),
            Err(TrackerError::Schema) => parse_value(s@, 0) matches Ok((t, _)) && reply_of(t) is None,
        },
{
    let (v, _n) = match decode(s) {
        Err(e) => {
            return Err(TrackerError::Decode(e));
        },
        Ok(x) => x,
    };
    let es = match &v {
        Value::Dict(es) => es,
        _ => {
            return Err(TrackerError::Schema);
        },
    };
    proof {
        lemma_dict_term(*es);
    }
    let k_failure = [102u8, 97, 105, 108, 117, 114, 101, 32, 114, 101, 97, 115, 111, 110];
    let k_interval = [105u8, 110, 116, 101, 114, 118, 97, 108];
    let k_peers = [112u8, 101, 101, 114, 115];
    let k_complete = [99u8, 111, 109, 112, 108, 101, 116, 101];
    let k_incomplete = [105u8, 110, 99, 111, 109, 112, 108, 101, 116, 101];
    let k_min_interval = [109u8, 105, 110, 32, 105, 110, 116, 101, 114, 118, 97, 108];
    let k_tracker_id = [116u8, 114, 97, 99, 107, 101, 114, 32, 105, 100];
    assert(k_failure@ == key_failure());
    assert(k_interval@ == key_interval());
    assert(k_peers@ == key_peers());
    assert(k_complete@ == key_complete());
    assert(k_incomplete@ == key_incomplete());
    assert(k_min_interval@ == key_min_interval());
    assert(k_tracker_id@ == key_tracker_id());
    if let Some(reason) = get_bytes_opt(es, &k_failure) {
        return Ok(TrackerResponse::Failure { reason });
    }
    let interval = match get_count_opt(es, &k_interval) {
        Some(i) => i,
        None => {
            return Err(TrackerError::Schema);
        },
    };
    let peers = match dict_get(es, &k_peers) {
        Some(Value::Bytes(b)) => {
            if b.len() % 6 != 0 {
                return Err(TrackerError::Schema);
            }
            compact_list(b.as_slice())
        },
        Some(Value::List(items)) => {
            proof {
                lemma_list_term(*items);
            }
            match peer_list(items) {
                Some(ps) => ps,
                None => {
                    return Err(TrackerError::Schema);
                },
            }
        },
        _ => {
            return Err(TrackerError::Schema);
        },
    };
    let complete = get_count_opt(es, &k_complete);
    let incomplete = get_count_opt(es, &k_incomplete);
    let min_interval = get_count_opt(es, &k_min_interval);
    let tracker_id = get_bytes_opt(es, &k_tracker_id);
    Ok(TrackerResponse::Success { interval, peers, complete, incomplete, min_interval, tracker_id })
}

/// How long to wait before retrying after the `attempt`-th failed request (counting from 0):
/// 2 s, then twice as long each time, at most 60 s.
pub open spec fn backoff_secs(attempt: nat) -> nat
    decreases attempt,
{
    if attempt == 0 {
        2
    } else if backoff_secs((attempt - 1) as nat) >= 30 {
        60
    } else {
        2 * backoff_secs((attempt - 1) as nat)
    }
}

/// The delay before retrying a tracker request after the `attempt`-th transport failure.
pub fn retry_delay_secs(attempt: u32) -> (r: u64)
    ensures
        r as nat == backoff_secs(attempt as nat),
        r <= 60,
{
    let mut d: u64 = 2;
    let mut i: u32 = 0;
    while i < attempt
        invariant
            i <= attempt,
            d as nat == backoff_secs(i as nat),
            2 <= d <= 60,
        decreases attempt - i,
    {
        if d >= 30 {
            d = 60;
        } else {
            d = 2 * d;
        }
        i += 1;
    }
    d
}

} // verus!
