//! The metainfo file: its typed model, the pieces, and where each piece lies in the files.
use vstd::prelude::*;
use crate::digest::{sha1_of, calc_sha1_hash};
use vstd::utf8::{valid_utf8, decode_utf8, encode_utf8};
use crate::bencode::{Value, Term, DecodeError, lookup, entry_terms, terms, dict_get, decode, encode, parse_value, enc, copy_range, copy_bytes, lemma_list_term, lemma_dict_term, enc_entries, enc_str, lemma_round_trip, lemma_canon_wf, canon};

verus! {

/// The SHA-1 digests of the pieces, one per piece.
pub struct Hashes(pub Vec<[u8; 20]>);

/// One file of a multi-file torrent.
pub struct TorrentFile {
    pub length: usize,
    pub path: Vec<String>,
}

/// The file shape of a torrent.
pub enum FileType {
    SingleFile { length: usize },
    MultiFile { files: Vec<TorrentFile> },
}

/// A metainfo file: the `info` dictionary and the tracker's announce URL.
pub struct Torrent {
    pub info: Info,
    pub announce: String,
    /// The `info` dictionary in its bencoded form, as `from_bytes` and `new` set it.
    pub info_bytes: Vec<u8>,
}

/// The `info` dictionary of a metainfo file.
pub struct Info {
    pub name: String,
    pub piece_length: usize,
    pub pieces: Hashes,
    pub file_type: FileType,
}

/// A part of a piece that lies in one file: `length` bytes at `offset` of the file numbered `file`.
#[derive(Debug, Clone, Copy, PartialEq, Eq, Structural)]
pub struct PieceLocationMap {
    pub file: usize,
    pub offset: usize,
    pub length: usize,
}

/// Sum of the first `n` lengths.
pub open spec fn prefix_sum(lens: Seq<nat>, n: int) -> nat
    decreases n,
{
    if n <= 0 || n > lens.len() {
        0
    } else {
        prefix_sum(lens, n - 1) + lens[n - 1]
    }
}

/// The length of piece `i` of `count` pieces of `piece_length` bytes over `total` bytes.
pub open spec fn expected_piece_len(total: nat, piece_length: nat, count: nat, i: int) -> int {
    if i < count - 1 {
        piece_length as int
    } else {
        total - piece_length * (count - 1)
    }
}

/// `count` pieces of `piece_length` bytes cover `total` bytes, the last one possibly shorter.
pub open spec fn pieces_fit(total: nat, piece_length: nat, count: nat) -> bool {
    &&& piece_length > 0
    &&& if count == 0 {
        total == 0
    } else {
        piece_length * (count - 1) < total <= piece_length * count
    }
}

/// Sum of the segments' lengths.
pub open spec fn seg_sum(segs: Seq<PieceLocationMap>) -> nat
    decreases segs.len(),
{
    if segs.len() == 0 {
        0
    } else {
        seg_sum(segs.drop_last()) + (segs.last().length as nat)
    }
}

/// Where a segment starts in the content, all files laid end to end.
pub open spec fn seg_start(lens: Seq<nat>, s: PieceLocationMap) -> int {
    prefix_sum(lens, s.file as int) + s.offset
}

/// `segs` cut the content range `[a, a + len)` at the file boundaries, in order: each segment is
/// non-empty and within its file, each starts where the one before ended, and each but the last
/// runs to the end of its file.
pub open spec fn covers(lens: Seq<nat>, segs: Seq<PieceLocationMap>, a: int, len: int) -> bool {
    &&& len == 0 ==> segs.len() == 0
    &&& len > 0 ==> segs.len() > 0 && seg_start(lens, segs[0]) == a
    &&& seg_sum(segs) == len
    &&& forall|k: int| 0 <= k < segs.len() ==> {
        &&& (#[trigger] segs[k]).file < lens.len()
        &&& segs[k].length > 0
        &&& segs[k].offset + segs[k].length <= lens[segs[k].file as int]
    }
    &&& forall|k: int| 0 <= k < segs.len() - 1 ==> {
        &&& (#[trigger] segs[k]).offset + segs[k].length == lens[segs[k].file as int]
        &&& seg_start(lens, segs[k + 1]) == seg_start(lens, segs[k]) + segs[k].length
    }
}

impl FileType {
    /// The lengths of the files, in order.
    pub open spec fn lens(&self) -> Seq<nat> {
        match self {
            FileType::SingleFile { length } => seq![*length as nat],
            FileType::MultiFile { files } => Seq::new(files@.len(), |k: int| files@[k].length as nat),
        }
    }
}

impl Info {
    pub open spec fn total(&self) -> nat {
        prefix_sum(self.file_type.lens(), self.file_type.lens().len() as int)
    }

    pub open spec fn spec_piece_count(&self) -> nat {
        self.pieces.0@.len()
    }

    /// A positive piece length, with as many digests as the content has pieces.
    pub open spec fn wf(&self) -> bool {
        &&& self.total() <= usize::MAX
        &&& pieces_fit(self.total(), self.piece_length as nat, self.spec_piece_count())
    }
}

proof fn lemma_prefix_sum_mono(lens: Seq<nat>, j: int, n: int)
    requires
        0 <= j <= n <= lens.len(),
    ensures
        prefix_sum(lens, j) <= prefix_sum(lens, n),
    decreases n - j,
{
    if j < n {
        lemma_prefix_sum_mono(lens, j, n - 1);
    }
}

proof fn lemma_seg_sum_push(segs: Seq<PieceLocationMap>, x: PieceLocationMap)
    ensures
        seg_sum(segs.push(x)) == seg_sum(segs) + x.length,
{
    assert(segs.push(x).drop_last() =~= segs);
}

impl Info {
    /// The lengths of the files, in order.
    pub fn file_lengths(&self) -> (r: Vec<usize>)
        ensures
            r@.len() == self.file_type.lens().len(),
            forall|k: int| 0 <= k < r@.len() ==> r@[k] as nat == #[trigger] self.file_type.lens()[k],
    {
        match &self.file_type {
            FileType::SingleFile { length } => {
                let mut r: Vec<usize> = Vec::new();
                r.push(*length);
                r
            },
            FileType::MultiFile { files } => {
                let mut r: Vec<usize> = Vec::new();
                let mut k: usize = 0;
                while k < files.len()
                    invariant
                        k <= files@.len(),
                        r@.len() == k,
                        self.file_type == (FileType::MultiFile { files: *files }),
                        forall|j: int| 0 <= j < k ==> r@[j] as nat == #[trigger] self.file_type.lens()[j],
                    decreases files@.len() - k,
                {
                    r.push(files[k].length);
                    k += 1;
                }
                r
            },
        }
    }

    /// The number of content bytes, all files together; `None` where that does not fit in `usize`.
    pub fn total_length(&self) -> (r: Option<usize>)
        ensures
            match r {
                Some(t) => t as nat == self.total(),
                None => self.total() > usize::MAX,
            },
    {
        let lens = self.file_lengths();
        let ghost ls = self.file_type.lens();
        let mut t: usize = 0;
        let mut k: usize = 0;
        while k < lens.len()
            invariant
                k <= lens@.len(),
                ls == self.file_type.lens(),
                lens@.len() == ls.len(),
                forall|j: int| 0 <= j < lens@.len() ==> lens@[j] as nat == #[trigger] ls[j],
                t as nat == prefix_sum(ls, k as int),
            decreases lens@.len() - k,
        {
            if lens[k] > usize::MAX - t {
                proof {
                    assert(prefix_sum(ls, k as int + 1) == prefix_sum(ls, k as int) + ls[k as int]);
                    lemma_prefix_sum_mono(ls, k as int + 1, ls.len() as int);
                }
                return None;
            }
            t = t + lens[k];
            k += 1;
        }
        Some(t)
    }

    /// The number of pieces.
    pub fn piece_count(&self) -> (r: usize)
        ensures
            r == self.spec_piece_count(),
    {
        self.pieces.0.len()
    }

    /// The length of piece `index`: the piece length, but for the last piece, which holds what is left.
    pub fn piece_len(&self, total: usize, index: usize) -> (r: usize)
        requires
            self.wf(),
            total == self.total(),
            index < self.spec_piece_count(),
        ensures
            r == expected_piece_len(self.total(), self.piece_length as nat, self.spec_piece_count(), index as int),
    {
        let count = self.pieces.0.len();
        let pl = self.piece_length;
        proof {
            assert(pl * (count - 1) <= total) by (nonlinear_arith)
                requires pl * (count - 1) < total;
        }
        if index < count - 1 {
            pl
        } else {
            total - pl * (count - 1)
        }
    }
}

impl Torrent {
    /// For each piece, the parts of the files that hold it.
    pub fn genereate_piece_mapping(&self, total_pieces_to_download: usize, torrent_data_len: usize) -> (r: Vec<Vec<PieceLocationMap>>)
        requires
            self.info.wf(),
            total_pieces_to_download == self.info.spec_piece_count(),
            torrent_data_len == self.info.total(),
        ensures
            r@.len() == total_pieces_to_download,
            forall|i: int| 0 <= i < r@.len() ==> covers(
                self.info.file_type.lens(),
                #[trigger] r@[i]@,
                i * self.info.piece_length,
                expected_piece_len(self.info.total(), self.info.piece_length as nat, self.info.spec_piece_count(), i),
            ),
    {
        let lens = self.info.file_lengths();
        let ghost ls = self.info.file_type.lens();
        let ghost n = ls.len() as int;
        let count = total_pieces_to_download;
        let total = torrent_data_len;
        let pl = self.info.piece_length;
        let mut out: Vec<Vec<PieceLocationMap>> = Vec::new();
        let mut f: usize = 0;
        let mut fs: usize = 0;
        let mut i: usize = 0;
        while i < count
            invariant
                self.info.wf(),
                count == self.info.spec_piece_count(),
                total == self.info.total(),
                pl == self.info.piece_length,
                ls == self.info.file_type.lens(),
                n == ls.len(),
                total == prefix_sum(ls, n),
                lens@.len() == n,
                forall|j: int| 0 <= j < n ==> lens@[j] as nat == #[trigger] ls[j],
                i <= count,
                out@.len() == i,
                forall|j: int| 0 <= j < i ==> covers(ls, #[trigger] out@[j]@, j * pl, expected_piece_len(total as nat, pl as nat, count as nat, j)),
                f <= n,
                fs == prefix_sum(ls, f as int),
                i < count ==> fs <= i * pl,
            decreases count - i,
        {
            proof {
                assert(pl * (count - 1) < total);
                assert(i * pl <= pl * (count - 1)) by (nonlinear_arith)
                    requires i < count, pl > 0;
                if i < count - 1 {
                    assert(i * pl + pl <= pl * (count - 1)) by (nonlinear_arith)
                        requires i < count - 1, pl > 0;
                }
            }
            let a = i * pl;
            let plen = if i < count - 1 { pl } else { total - pl * (count - 1) };
            let b = a + plen;
            assert(b <= total);
            let mut pos = a;
            let mut segs: Vec<PieceLocationMap> = Vec::new();
            while pos < b
                invariant
                    total == prefix_sum(ls, n),
                    lens@.len() == n,
                    forall|j: int| 0 <= j < n ==> lens@[j] as nat == #[trigger] ls[j],
                    a <= pos <= b <= total,
                    b == a + plen,
                    f <= n,
                    fs == prefix_sum(ls, f as int),
                    fs <= pos,
                    seg_sum(segs@) == pos - a,
                    segs@.len() == 0 <==> pos == a,
                    segs@.len() > 0 ==> seg_start(ls, segs@[0]) == a,
                    segs@.len() > 0 ==> seg_start(ls, segs@.last()) + segs@.last().length == pos,
                    segs@.len() > 0 && pos < b ==> segs@.last().offset + segs@.last().length == ls[segs@.last().file as int],
                    forall|k: int| 0 <= k < segs@.len() ==> {
                        &&& (#[trigger] segs@[k]).file < n
                        &&& segs@[k].length > 0
                        &&& segs@[k].offset + segs@[k].length <= ls[segs@[k].file as int]
                    },
                    forall|k: int| 0 <= k < segs@.len() - 1 ==> {
                        &&& (#[trigger] segs@[k]).offset + segs@[k].length == ls[segs@[k].file as int]
                        &&& seg_start(ls, segs@[k + 1]) == seg_start(ls, segs@[k]) + segs@[k].length
                    },
                decreases b - pos,
            {
                proof {
                    if f == n {
                        assert(false);
                    }
                    lemma_prefix_sum_mono(ls, f as int + 1, n);
                }
                while fs + lens[f] <= pos
                    invariant
                        total == prefix_sum(ls, n),
                        lens@.len() == n,
                        forall|j: int| 0 <= j < n ==> lens@[j] as nat == #[trigger] ls[j],
                        pos < total,
                        f < n,
                        fs == prefix_sum(ls, f as int),
                        fs <= pos,
                        prefix_sum(ls, f as int + 1) <= total,
                    decreases n - f,
                {
                    fs = fs + lens[f];
                    f += 1;
                    proof {
                        if f == n {
                            assert(false);
                        }
                        lemma_prefix_sum_mono(ls, f as int + 1, n);
                    }
                }
                let file_end = fs + lens[f];
                let end = if b < file_end { b } else { file_end };
                let seg = PieceLocationMap { file: f, offset: pos - fs, length: end - pos };
                let ghost before = segs@;
                segs.push(seg);
                proof {
                    lemma_seg_sum_push(before, seg);
                    assert(seg_start(ls, seg) == pos);
                    assert forall|k: int| 0 <= k < segs@.len() - 1 implies {
                        &&& (#[trigger] segs@[k]).offset + segs@[k].length == ls[segs@[k].file as int]
                        &&& seg_start(ls, segs@[k + 1]) == seg_start(ls, segs@[k]) + segs@[k].length
                    } by {
                        assert(segs@[k] == before[k]);
                        if k < before.len() - 1 {
                            assert(segs@[k + 1] == before[k + 1]);
                        }
                    }
                }
                pos = end;
            }
            out.push(segs);
            proof {
                assert forall|j: int| 0 <= j < i + 1 implies covers(ls, #[trigger] out@[j]@, j * pl, expected_piece_len(total as nat, pl as nat, count as nat, j)) by {
                    if j == i {
                        assert(out@[j]@ == segs@);
                    }
                }
                if i + 1 < count {
                    assert((i + 1) * pl == i * pl + pl) by (nonlinear_arith);
                }
            }
            i += 1;
        }
        out
    }
}

/// Why bytes are not a metainfo file.
#[derive(Debug, Clone, Copy, PartialEq, Eq, Structural)]
pub enum MetainfoError {
    /// The bytes are not bencode.
    Decode(DecodeError),
    /// The bencode value lacks a key, or holds one of the wrong type or an inconsistent value.
    Schema,
}

pub open spec fn key_announce() -> Seq<u8> { seq![97u8, 110, 110, 111, 117, 110, 99, 101] }
pub open spec fn key_info() -> Seq<u8> { seq![105u8, 110, 102, 111] }
pub open spec fn key_name() -> Seq<u8> { seq![110u8, 97, 109, 101] }
pub open spec fn key_piece_length() -> Seq<u8> { seq![112u8, 105, 101, 99, 101, 32, 108, 101, 110, 103, 116, 104] }
pub open spec fn key_pieces() -> Seq<u8> { seq![112u8, 105, 101, 99, 101, 115] }
pub open spec fn key_length() -> Seq<u8> { seq![108u8, 101, 110, 103, 116, 104] }
pub open spec fn key_files() -> Seq<u8> { seq![102u8, 105, 108, 101, 115] }
pub open spec fn key_path() -> Seq<u8> { seq![112u8, 97, 116, 104] }

/// A non-negative integer that fits in `usize`.
pub open spec fn count_of(t: Option<Term>) -> Option<nat> {
    match t {
        Some(Term::Int(i)) => if 0 <= i <= usize::MAX { Some(i as nat) } else { None },
        _ => None,
    }
}

/// A byte string that is valid UTF-8, as text.
pub open spec fn text_of(t: Option<Term>) -> Option<Seq<char>> {
    match t {
        Some(Term::Str(b)) => if valid_utf8(b) { Some(decode_utf8(b)) } else { None },
        _ => None,
    }
}

/// Each item as text, where all are.
pub open spec fn texts_of(ts: Seq<Term>) -> Option<Seq<Seq<char>>>
    decreases ts.len(),
{
    if ts.len() == 0 {
        Some(Seq::empty())
    } else {
        match (texts_of(ts.drop_last()), text_of(Some(ts.last()))) {
            (Some(a), Some(x)) => Some(a.push(x)),
            _ => None,
        }
    }
}

/// A file of a multi-file torrent: its length and its path.
pub open spec fn file_of(t: Term) -> Option<(nat, Seq<Seq<char>>)> {
    match t {
        Term::Dict(es) => match (count_of(lookup(es, key_length())), lookup(es, key_path())) {
            (Some(n), Some(Term::List(ps))) => match texts_of(ps) {
                Some(p) => Some((n, p)),
                None => None,
            },
            _ => None,
        },
        _ => None,
    }
}

pub open spec fn files_of(ts: Seq<Term>) -> Option<Seq<(nat, Seq<Seq<char>>)>>
    decreases ts.len(),
{
    if ts.len() == 0 {
        Some(Seq::empty())
    } else {
        match (files_of(ts.drop_last()), file_of(ts.last())) {
            (Some(a), Some(x)) => Some(a.push(x)),
            _ => None,
        }
    }
}

/// The file shape that an `info` dictionary describes: the single-file form where `length` is a
/// count, else the multi-file form.
pub enum Shape {
    Single(nat),
    Multi(Seq<(nat, Seq<Seq<char>>)>),
}

pub open spec fn shape_of(ies: Seq<(Seq<u8>, Term)>) -> Option<Shape> {
    match count_of(lookup(ies, key_length())) {
        Some(n) => Some(Shape::Single(n)),
        None => match lookup(ies, key_files()) {
            Some(Term::List(fs)) => match files_of(fs) {
                Some(x) => Some(Shape::Multi(x)),
                None => None,
            },
            _ => None,
        },
    }
}

pub open spec fn shape_lens(sh: Shape) -> Seq<nat> {
    match sh {
        Shape::Single(n) => seq![n],
        Shape::Multi(fs) => Seq::new(fs.len(), |k: int| fs[k].0),
    }
}

/// What a metainfo file holds.
pub struct Meta {
    pub announce: Seq<char>,
    pub info: Term,
    pub name: Seq<char>,
    pub piece_length: nat,
    pub pieces: Seq<u8>,
    pub shape: Shape,
}

/// The metainfo that a bencode value describes, where it describes one: the keys present with
/// values of the right types, the digests a multiple of 20 bytes long, and as many digests as the
/// content has pieces.
pub open spec fn meta_of(t: Term) -> Option<Meta> {
    match t {
        Term::Dict(es) => match (text_of(lookup(es, key_announce())), lookup(es, key_info())) {
            (Some(announce), Some(Term::Dict(ies))) => {
                match (text_of(lookup(ies, key_name())), count_of(lookup(ies, key_piece_length())),
                    lookup(ies, key_pieces()), shape_of(ies)) {
                    (Some(name), Some(pl), Some(Term::Str(pieces)), Some(shape)) => {
                        let lens = shape_lens(shape);
                        let total = prefix_sum(lens, lens.len() as int);
                        if pieces.len() % 20 == 0 && total <= usize::MAX && pieces_fit(total, pl, pieces.len() / 20) {
                            Some(Meta { announce, info: Term::Dict(ies), name, piece_length: pl, pieces, shape })
                        } else {
                            None
                        }
                    },
                    _ => None,
                }
            },
            _ => None,
        },
        _ => None,
    }
}

pub open spec fn path_view(p: Seq<String>) -> Seq<Seq<char>> {
    Seq::new(p.len(), |k: int| p[k]@)
}

impl Torrent {
    /// This torrent holds what `m` says, and its `info_bytes` encode `m.info`.
    pub open spec fn describes(&self, m: Meta) -> bool {
        &&& self.announce@ == m.announce
        &&& self.info.name@ == m.name
        &&& self.info.piece_length == m.piece_length
        &&& self.info.pieces.0@.len() * 20 == m.pieces.len()
        &&& forall|k: int| 0 <= k < self.info.pieces.0@.len() ==> (#[trigger] self.info.pieces.0@[k])@ == m.pieces.subrange(20 * k, 20 * k + 20)
        &&& match (self.info.file_type, m.shape) {
            (FileType::SingleFile { length }, Shape::Single(n)) => length == n,
            (FileType::MultiFile { files }, Shape::Multi(fs)) => files@.len() == fs.len() && forall|k: int| 0 <= k < fs.len() ==> {
                &&& (#[trigger] files@[k]).length == fs[k].0
                &&& path_view(files@[k].path@) == fs[k].1
            },
            _ => false,
        }
        &&& self.info_bytes_view() == enc(m.info)
    }
}

/// Relies on `String::from_utf8`: the bytes as a string where they are valid UTF-8, else an error.
#[verifier::external_body]
fn utf8_string(b: Vec<u8>) -> (r: Option<String>)
    ensures
        r is Some <==> valid_utf8(b@),
        r is Some ==> r->Some_0@ == decode_utf8(b@),
{
    String::from_utf8(b).ok()
}

fn get_text(es: &Vec<(Vec<u8>, Value)>, key: &[u8]) -> (r: Option<String>)
    ensures
        match r {
            Some(x) => text_of(lookup(entry_terms(es@), key@)) == Some(x@),
            None => text_of(lookup(entry_terms(es@), key@)) is None,
        },
{
    match dict_get(es, key) {
        Some(Value::Bytes(b)) => utf8_string(copy_bytes(b.as_slice())),
        _ => None,
    }
}

fn text_of_value(v: &Value) -> (r: Option<String>)
    ensures
        match r {
            Some(x) => text_of(Some(v.term())) == Some(x@),
            None => text_of(Some(v.term())) is None,
        },
{
    match v {
        Value::Bytes(b) => utf8_string(copy_bytes(b.as_slice())),
        _ => None,
    }
}

fn get_count(es: &Vec<(Vec<u8>, Value)>, key: &[u8]) -> (r: Option<usize>)
    ensures
        match r {
            Some(x) => count_of(lookup(entry_terms(es@), key@)) == Some(x as nat),
            None => count_of(lookup(entry_terms(es@), key@)) is None,
        },
{
    match dict_get(es, key) {
        Some(Value::Int(i)) => if *i >= 0 && (*i as u64) <= (usize::MAX as u64) { Some(*i as usize) } else { None },
        _ => None,
    }
}

proof fn lemma_texts_prefix_none(ts: Seq<Term>, j: int)
    requires
        0 <= j <= ts.len(),
        texts_of(ts.take(j)) is None,
    ensures
        texts_of(ts) is None,
    decreases ts.len() - j,
{
    if j == ts.len() {
        assert(ts.take(j) =~= ts);
    } else {
        assert(ts.drop_last().take(j) =~= ts.take(j));
        lemma_texts_prefix_none(ts.drop_last(), j);
    }
}

proof fn lemma_files_prefix_none(ts: Seq<Term>, j: int)
    requires
        0 <= j <= ts.len(),
        files_of(ts.take(j)) is None,
    ensures
        files_of(ts) is None,
    decreases ts.len() - j,
{
    if j == ts.len() {
        assert(ts.take(j) =~= ts);
    } else {
        assert(ts.drop_last().take(j) =~= ts.take(j));
        lemma_files_prefix_none(ts.drop_last(), j);
    }
}

fn texts_from(items: &Vec<Value>) -> (r: Option<Vec<String>>)
    ensures
        match r {
            Some(p) => texts_of(terms(items@)) == Some(path_view(p@)),
            None => texts_of(terms(items@)) is None,
        },
{
    let ghost ts = terms(items@);
    let mut out: Vec<String> = Vec::new();
    let mut k: usize = 0;
    assert(path_view(out@) =~= Seq::<Seq<char>>::empty());
    assert(ts.take(0) =~= Seq::<Term>::empty());
    while k < items.len()
        invariant
            k <= items@.len(),
            ts == terms(items@),
            texts_of(ts.take(k as int)) == Some(path_view(out@)),
        decreases items@.len() - k,
    {
        assert(ts.take(k as int + 1).drop_last() =~= ts.take(k as int));
        assert(ts.take(k as int + 1).last() == items@[k as int].term());
        match text_of_value(&items[k]) {
            None => {
                proof {
                    lemma_texts_prefix_none(ts, k as int + 1);
                }
                return None;
            },
            Some(x) => {
                let ghost before = out@;
                out.push(x);
                assert(path_view(out@) =~= path_view(before).push(x@));
            },
        }
        k += 1;
    }
    assert(ts.take(k as int) =~= ts);
    Some(out)
}

fn file_from(v: &Value) -> (r: Option<TorrentFile>)
    ensures
        match r {
            Some(f) => file_of(v.term()) == Some((f.length as nat, path_view(f.path@))),
            None => file_of(v.term()) is None,
        },
{
    match v {
        Value::Dict(es) => {
            proof {
                lemma_dict_term(*es);
            }
            let k_length = [108u8, 101, 110, 103, 116, 104];
            let k_path = [112u8, 97, 116, 104];
            assert(k_length@ == key_length());
            assert(k_path@ == key_path());
            let n = match get_count(es, &k_length) {
                Some(n) => n,
                None => {
                    return None;
                },
            };
            match dict_get(es, &k_path) {
                Some(Value::List(ps)) => {
                    proof {
                        lemma_list_term(*ps);
                    }
                    match texts_from(ps) {
                        Some(path) => Some(TorrentFile { length: n, path }),
                        None => None,
                    }
                },
                _ => None,
            }
        },
        _ => None,
    }
}

fn files_from(items: &Vec<Value>) -> (r: Option<Vec<TorrentFile>>)
    ensures
        match r {
            Some(fs) => files_of(terms(items@)) matches Some(m) && m.len() == fs@.len() && forall|k: int| 0 <= k < m.len() ==> {
                &&& (#[trigger] fs@[k]).length == m[k].0
                &&& path_view(fs@[k].path@) == m[k].1
            },
            None => files_of(terms(items@)) is None,
        },
{
    let ghost ts = terms(items@);
    let mut out: Vec<TorrentFile> = Vec::new();
    let mut k: usize = 0;
    assert(ts.take(0) =~= Seq::<Term>::empty());
    while k < items.len()
        invariant
            k <= items@.len(),
            ts == terms(items@),
            files_of(ts.take(k as int)) matches Some(m) && m.len() == out@.len() && forall|j: int| 0 <= j < m.len() ==> {
                &&& (#[trigger] out@[j]).length == m[j].0
                &&& path_view(out@[j].path@) == m[j].1
            },
        decreases items@.len() - k,
    {
        assert(ts.take(k as int + 1).drop_last() =~= ts.take(k as int));
        assert(ts.take(k as int + 1).last() == items@[k as int].term());
        match file_from(&items[k]) {
            None => {
                proof {
                    lemma_files_prefix_none(ts, k as int + 1);
                }
                return None;
            },
            Some(f) => {
                out.push(f);
            },
        }
        k += 1;
    }
    assert(ts.take(k as int) =~= ts);
    Some(out)
}

fn shape_from(ies: &Vec<(Vec<u8>, Value)>) -> (r: Option<FileType>)
    ensures
        match r {
            Some(ft) => shape_of(entry_terms(ies@)) matches Some(sh) && match (ft, sh) {
                (FileType::SingleFile { length }, Shape::Single(n)) => length == n,
                (FileType::MultiFile { files }, Shape::Multi(fs)) => files@.len() == fs.len() && forall|k: int| 0 <= k < fs.len() ==> {
                    &&& (#[trigger] files@[k]).length == fs[k].0
                    &&& path_view(files@[k].path@) == fs[k].1
                },
                _ => false,
            },
            None => shape_of(entry_terms(ies@)) is None,
        },
{
    let k_length = [108u8, 101, 110, 103, 116, 104];
    let k_files = [102u8, 105, 108, 101, 115];
    assert(k_length@ == key_length());
    assert(k_files@ == key_files());
    match get_count(ies, &k_length) {
        Some(n) => Some(FileType::SingleFile { length: n }),
        None => match dict_get(ies, &k_files) {
            Some(Value::List(fs)) => {
                proof {
                    lemma_list_term(*fs);
                }
                match files_from(fs) {
                    Some(files) => Some(FileType::MultiFile { files }),
                    None => None,
                }
            },
            _ => None,
        },
    }
}

impl Hashes {
    /// Cuts a byte string into 20-byte digests; `None` where its length is not a multiple of 20.
    pub fn from_bytes(v: &[u8]) -> (r: Option<Hashes>)
        ensures
            match r {
                Some(h) => v@.len() % 20 == 0 && h.0@.len() * 20 == v@.len() && forall|k: int| 0 <= k < h.0@.len() ==> (#[trigger] h.0@[k])@ == v@.subrange(20 * k, 20 * k + 20),
                None => v@.len() % 20 != 0,
            },
    {
        if v.len() % 20 != 0 {
            return None;
        }
        let n = v.len();
        let count = n / 20;
        let mut out: Vec<[u8; 20]> = Vec::new();
        let mut k: usize = 0;
        while k < count
            invariant
                count * 20 == v@.len(),
                n == v@.len(),
                k <= count,
                out@.len() == k,
                forall|j: int| 0 <= j < k ==> (#[trigger] out@[j])@ == v@.subrange(20 * j, 20 * j + 20),
            decreases count - k,
        {
            let mut d = [0u8; 20];
            let mut j: usize = 0;
            while j < 20
                invariant
                    count * 20 == v@.len(),
                    n == v@.len(),
                    k < count,
                    j <= 20,
                    d@.len() == 20,
                    forall|m: int| 0 <= m < j ==> d@[m] == v@[20 * k + m],
                decreases 20 - j,
            {
                assert(20 * k + j < n) by (nonlinear_arith)
                    requires k < count, j < 20, count * 20 == n;
                d[j] = v[20 * k + j];
                j += 1;
            }
            assert(d@ =~= v@.subrange(20 * k as int, 20 * k as int + 20));
            out.push(d);
            k += 1;
        }
        Some(Hashes(out))
    }
}

impl Torrent {
    /// Reads a metainfo file: its bencoded bytes, then the keys the torrent needs.
    pub fn from_bytes(s: &[u8]) -> (r: Result<Torrent, MetainfoError>)
        ensures
            match r {
                Ok(t) => parse_value(s@, 0) matches Ok((term, _)) && meta_of(term) matches Some(m) && t.describes(m) && t.info.wf(),
                Err(MetainfoError::Decode(e)) => parse_value(s@, 0) == Err::<(Term, int), DecodeError>(e),
                Err(MetainfoError::Schema) => parse_value(s@, 0) matches Ok((term, _)) && meta_of(term) is None,
            },
    {
        let (v, _n) = match decode(s) {
            Err(e) => {
                return Err(MetainfoError::Decode(e));
            },
            Ok(x) => x,
        };
        let es = match &v {
            Value::Dict(es) => es,
            _ => {
                return Err(MetainfoError::Schema);
            },
        };
        proof {
            lemma_dict_term(*es);
        }
        let k_announce = [97u8, 110, 110, 111, 117, 110, 99, 101];
        let k_info = [105u8, 110, 102, 111];
        let k_name = [110u8, 97, 109, 101];
        let k_piece_length = [112u8, 105, 101, 99, 101, 32, 108, 101, 110, 103, 116, 104];
        let k_pieces = [112u8, 105, 101, 99, 101, 115];
        assert(k_announce@ == key_announce());
        assert(k_info@ == key_info());
        assert(k_name@ == key_name());
        assert(k_piece_length@ == key_piece_length());
        assert(k_pieces@ == key_pieces());
        let announce = match get_text(es, &k_announce) {
            Some(a) => a,
            None => {
                return Err(MetainfoError::Schema);
            },
        };
        let info_value = match dict_get(es, &k_info) {
            Some(iv) => iv,
            None => {
                return Err(MetainfoError::Schema);
            },
        };
        let ies = match info_value {
            Value::Dict(ies) => ies,
            _ => {
                return Err(MetainfoError::Schema);
            },
        };
        proof {
            lemma_dict_term(*ies);
        }
        let name = match get_text(ies, &k_name) {
            Some(x) => x,
            None => {
                return Err(MetainfoError::Schema);
            },
        };
        let piece_length = match get_count(ies, &k_piece_length) {
            Some(x) => x,
            None => {
                return Err(MetainfoError::Schema);
            },
        };
        let pieces_bytes = match dict_get(ies, &k_pieces) {
            Some(Value::Bytes(b)) => b,
            _ => {
                return Err(MetainfoError::Schema);
            },
        };
        let file_type = match shape_from(ies) {
            Some(x) => x,
            None => {
                return Err(MetainfoError::Schema);
            },
        };
        let pieces = match Hashes::from_bytes(pieces_bytes.as_slice()) {
            Some(h) => h,
            None => {
                return Err(MetainfoError::Schema);
            },
        };
        let info = Info { name, piece_length, pieces, file_type };
        let ghost shape = shape_of(entry_terms(ies@))->Some_0;
        proof {
            assert(info.file_type.lens() =~= shape_lens(shape));
        }
        let total = match info.total_length() {
            Some(t) => t,
            None => {
                return Err(MetainfoError::Schema);
            },
        };
        let count = info.pieces.0.len();
        proof {
            assert(pieces_bytes@.len() / 20 == count);
        }
        let fits = if piece_length == 0 {
            false
        } else if count == 0 {
            total == 0
        } else {
            let pl = piece_length as u128;
            let c = count as u128;
            assert(pl * c <= 0xffff_ffff_ffff_ffff_u128 * 0xffff_ffff_ffff_ffff_u128) by (nonlinear_arith)
                requires pl <= 0xffff_ffff_ffff_ffff_u128, c <= 0xffff_ffff_ffff_ffff_u128;
            assert(pl * (c - 1) <= pl * c) by (nonlinear_arith)
                requires c >= 1;
            pl * (c - 1) < total as u128 && total as u128 <= pl * c
        };
        if !fits {
            return Err(MetainfoError::Schema);
        }
        let info_bytes = encode(info_value);
        proof {
            lemma_round_trip(s@);
            let k = lemma_lookup_index(entry_terms(es@), key_info());
            lemma_canon_wf(info_value.term());
        }
        Ok(Torrent { info, announce, info_bytes })
    }
}

impl Torrent {
    /// The info-hash: the SHA-1 digest of the bencoded `info` dictionary.
    pub fn calc_hash(&self) -> (r: [u8; 20])
        ensures
            r@ == sha1_of(self.info_bytes_view()),
    {
        calc_sha1_hash(self.info_bytes.as_slice())
    }

    /// The pieces whose bytes do not have the digest that the torrent gives them, in increasing
    /// order, from the digest of each piece's bytes as they are.
    pub fn missing_from_digests(&self, digests: &Vec<[u8; 20]>) -> (r: Vec<usize>)
        requires
            digests@.len() == self.info.spec_piece_count(),
        ensures
            forall|k: int| 0 <= k < r@.len() ==> r@[k] < digests@.len(),
            forall|k: int, j: int| 0 <= k < j < r@.len() ==> r@[k] < r@[j],
            forall|i: int| 0 <= i < digests@.len() ==> (r@.contains(i as usize) <==> (#[trigger] digests@[i])@ != self.info.pieces.0@[i]@),
    {
        let mut out: Vec<usize> = Vec::new();
        let mut i: usize = 0;
        while i < digests.len()
            invariant
                i <= digests@.len(),
                digests@.len() == self.info.pieces.0@.len(),
                forall|k: int| 0 <= k < out@.len() ==> out@[k] < i,
                forall|k: int, j: int| 0 <= k < j < out@.len() ==> out@[k] < out@[j],
                forall|m: int| 0 <= m < i ==> (out@.contains(m as usize) <==> (#[trigger] digests@[m])@ != self.info.pieces.0@[m]@),
            decreases digests@.len() - i,
        {
            let ghost before = out@;
            if !digest_eq(&digests[i], &self.info.pieces.0[i]) {
                out.push(i);
                proof {
                    assert(out@[before.len() as int] == i);
                    assert forall|m: int| 0 <= m < i + 1 implies (out@.contains(m as usize) <==> (#[trigger] digests@[m])@ != self.info.pieces.0@[m]@) by {
                        if m < i {
                            if out@.contains(m as usize) {
                                let k = choose|k: int| 0 <= k < out@.len() && out@[k] == m as usize;
                                assert(k < before.len());
                                assert(before[k] == m as usize);
                            }
                            if before.contains(m as usize) {
                                let k = choose|k: int| 0 <= k < before.len() && before[k] == m as usize;
                                assert(out@[k] == m as usize);
                            }
                        }
                    }
                }
            } else {
                proof {
                    assert(!out@.contains(i));
                }
            }
            i += 1;
        }
        out
    }

    /// The pieces that are to be downloaded: those whose bytes, as found on disk, do not have the
    /// digest that the torrent gives them; in increasing order.
    pub fn pieces_to_be_downloaded(&self, piece_data: &Vec<Vec<u8>>) -> (r: Vec<usize>)
        requires
            piece_data@.len() == self.info.spec_piece_count(),
        ensures
            forall|k: int| 0 <= k < r@.len() ==> r@[k] < piece_data@.len(),
            forall|k: int, j: int| 0 <= k < j < r@.len() ==> r@[k] < r@[j],
            forall|i: int| 0 <= i < piece_data@.len() ==> (r@.contains(i as usize) <==> sha1_of(#[trigger] piece_data@[i]@) != self.info.pieces.0@[i]@),
            (forall|i: int| 0 <= i < piece_data@.len() ==> sha1_of(#[trigger] piece_data@[i]@) == self.info.pieces.0@[i]@) ==> r@.len() == 0,
    {
        let mut digests: Vec<[u8; 20]> = Vec::new();
        let mut i: usize = 0;
        while i < piece_data.len()
            invariant
                i <= piece_data@.len(),
                digests@.len() == i,
                forall|m: int| 0 <= m < i ==> (#[trigger] digests@[m])@ == sha1_of(piece_data@[m]@),
            decreases piece_data@.len() - i,
        {
            digests.push(calc_sha1_hash(piece_data[i].as_slice()));
            i += 1;
        }
        let r = self.missing_from_digests(&digests);
        proof {
            assert forall|i: int| 0 <= i < piece_data@.len() implies (r@.contains(i as usize) <==> sha1_of(#[trigger] piece_data@[i]@) != self.info.pieces.0@[i]@) by {
                assert(digests@[i]@ == sha1_of(piece_data@[i]@));
            }
            if r@.len() > 0 {
                let i = r@[0] as int;
                assert(r@.contains(i as usize));
                assert(sha1_of(piece_data@[i]@) != self.info.pieces.0@[i]@);
            }
        }
        r
    }
}

/// Whether two digests are equal.
pub fn digest_eq(a: &[u8; 20], b: &[u8; 20]) -> (r: bool)
    ensures
        r == (a@ == b@),
{
    let mut i: usize = 0;
    while i < 20
        invariant
            i <= 20,
            a@.len() == 20,
            b@.len() == 20,
            forall|j: int| 0 <= j < i ==> a@[j] == b@[j],
        decreases 20 - i,
    {
        if a[i] != b[i] {
            return false;
        }
        i += 1;
    }
    assert(a@ =~= b@);
    true
}

proof fn lemma_meta_info(term: Term)
    requires
        meta_of(term) is Some,
    ensures
        term is Dict,
        lookup(term->Dict_0, key_info()) == Some(meta_of(term)->Some_0.info),
{
}

proof fn lemma_lookup_index(es: Seq<(Seq<u8>, Term)>, key: Seq<u8>) -> (k: int)
    requires
        lookup(es, key) is Some,
    ensures
        0 <= k < es.len(),
        es[k].1 == lookup(es, key)->Some_0,
    decreases es.len(),
{
    if es[0].0 == key {
        0
    } else {
        let j = lemma_lookup_index(es.drop_first(), key);
        j + 1
    }
}

proof fn lemma_entry_inside(es: Seq<(Seq<u8>, Term)>, n: int, k: int) -> (off: int)
    requires
        0 <= k < n <= es.len(),
    ensures
        0 <= off,
        off + enc(es[k].1).len() <= enc_entries(es, n).len(),
        enc_entries(es, n).subrange(off, off + enc(es[k].1).len()) == enc(es[k].1),
    decreases n,
{
    let whole = enc_entries(es, n);
    if n == k + 1 {
        let off: int = (enc_entries(es, k).len() + enc_str(es[k].0).len()) as int;
        assert(whole == enc_entries(es, k) + enc_str(es[k].0) + enc(es[k].1));
        assert(whole.subrange(off, off + enc(es[k].1).len()) =~= enc(es[k].1));
        off
    } else {
        let off = lemma_entry_inside(es, n - 1, k);
        let prev = enc_entries(es, n - 1);
        assert(whole == prev + enc_str(es[n - 1].0) + enc(es[n - 1].1));
        assert(whole.subrange(off, off + enc(es[k].1).len()) =~= prev.subrange(off, off + enc(es[k].1).len()));
        off
    }
}

/// The bytes a torrent hashes for its info-hash are the very bytes of the `info` dictionary in
/// the metainfo file it was read from: hashing them, as often as one likes, gives the digest of
/// that part of the file.
#[verifier::rlimit(100)]
pub proof fn lemma_info_bytes_verbatim(s: Seq<u8>, t: Torrent) -> (r: (int, int))
    requires
        parse_value(s, 0) matches Ok((term, _)) && meta_of(term) matches Some(m) && t.describes(m),
    ensures
        0 <= r.0 <= r.1 <= s.len(),
        s.subrange(r.0, r.1) == t.info_bytes_view(),
        sha1_of(s.subrange(r.0, r.1)) == sha1_of(t.info_bytes_view()),
{
    let term = parse_value(s, 0)->Ok_0.0;
    let n = parse_value(s, 0)->Ok_0.1;
    lemma_round_trip(s);
    let es = term->Dict_0;
    lemma_meta_info(term);
    let k = lemma_lookup_index(es, key_info());
    let off = lemma_entry_inside(es, es.len() as int, k);
    let body = enc_entries(es, es.len() as int);
    let m = meta_of(term)->Some_0;
    assert(m.info == es[k].1);
    assert(t.info_bytes_view() == enc(es[k].1));
    let len = t.info_bytes_view().len() as int;
    let whole = enc(term);
    assert(whole == seq![100u8] + body + seq![101u8]);
    assert(s.subrange(0, n) == whole);
    assert(whole.len() == body.len() + 2);
    assert(n == whole.len());
    assert(off + len <= body.len());
    assert forall|j: int| 0 <= j < len implies #[trigger] s[1 + off + j] == body[off + j] by {
        assert(whole[1 + off + j] == body[off + j]);
        assert(s.subrange(0, n)[1 + off + j] == s[1 + off + j]);
    }
    assert forall|j: int| 0 <= j < len implies #[trigger] s.subrange(1 + off, 1 + off + len)[j] == body.subrange(off, off + len)[j] by {
        assert(s[1 + off + j] == body[off + j]);
    }
    assert(s.subrange(1 + off, 1 + off + len) =~= body.subrange(off, off + len));
    (1 + off, 1 + off + len)
}

/// The lengths of the first `n` pieces, added up.
pub open spec fn pieces_total(total: nat, piece_length: nat, count: nat, n: int) -> int
    decreases n,
{
    if n <= 0 {
        0
    } else {
        pieces_total(total, piece_length, count, n - 1) + expected_piece_len(total, piece_length, count, n - 1)
    }
}

proof fn lemma_full_pieces_total(total: nat, piece_length: nat, count: nat, n: int)
    requires
        0 <= n < count,
    ensures
        pieces_total(total, piece_length, count, n) == n * piece_length,
    decreases n,
{
    if n > 0 {
        lemma_full_pieces_total(total, piece_length, count, n - 1);
        assert((n - 1) * piece_length + piece_length == n * piece_length) by (nonlinear_arith);
    } else {
        assert(0 * piece_length == 0);
    }
}

/// The pieces, laid end to end, cover the content exactly: their lengths add up to its length.
pub proof fn lemma_pieces_cover_content(total: nat, piece_length: nat, count: nat)
    requires
        pieces_fit(total, piece_length, count),
    ensures
        pieces_total(total, piece_length, count, count as int) == total,
{
    if count > 0 {
        lemma_full_pieces_total(total, piece_length, count, count - 1);
        assert((count - 1) * piece_length == piece_length * (count - 1)) by (nonlinear_arith);
    }
}

/// A write of verified piece bytes: `bytes` at `offset` of the file numbered `file`.
pub struct FileWrite {
    pub file: usize,
    pub offset: usize,
    pub bytes: Vec<u8>,
}

/// Splits a piece's bytes across its segments, in order: each segment gets the next
/// `length` bytes.
pub fn split_piece(segs: &Vec<PieceLocationMap>, data: &[u8]) -> (r: Vec<FileWrite>)
    requires
        seg_sum(segs@) == data@.len(),
    ensures
        r@.len() == segs@.len(),
        forall|k: int| 0 <= k < r@.len() ==> {
            &&& (#[trigger] r@[k]).file == segs@[k].file
            &&& r@[k].offset == segs@[k].offset
            &&& r@[k].bytes@ == data@.subrange(seg_sum(segs@.take(k)) as int, seg_sum(segs@.take(k + 1)) as int)
        },
{
    let n = data.len();
    let mut out: Vec<FileWrite> = Vec::new();
    let mut at: usize = 0;
    let mut k: usize = 0;
    assert(segs@.take(0) =~= Seq::<PieceLocationMap>::empty());
    while k < segs.len()
        invariant
            n == data@.len(),
            k <= segs@.len(),
            seg_sum(segs@) == data@.len(),
            at as nat == seg_sum(segs@.take(k as int)),
            out@.len() == k,
            forall|j: int| 0 <= j < k ==> {
                &&& (#[trigger] out@[j]).file == segs@[j].file
                &&& out@[j].offset == segs@[j].offset
                &&& out@[j].bytes@ == data@.subrange(seg_sum(segs@.take(j)) as int, seg_sum(segs@.take(j + 1)) as int)
            },
        decreases segs@.len() - k,
    {
        assert(segs@.take(k as int + 1).drop_last() =~= segs@.take(k as int));
        proof {
            lemma_seg_sum_prefix(segs@, k as int + 1);
            assert(segs@.take(k as int + 1).last() == segs@[k as int]);
        }
        let seg = segs[k];
        let end = at + seg.length;
        out.push(FileWrite { file: seg.file, offset: seg.offset, bytes: copy_range(data, at, end) });
        at = end;
        k += 1;
    }
    out
}

proof fn lemma_seg_sum_prefix(segs: Seq<PieceLocationMap>, n: int)
    requires
        0 <= n <= segs.len(),
    ensures
        seg_sum(segs.take(n)) <= seg_sum(segs),
    decreases segs.len() - n,
{
    if n < segs.len() {
        lemma_seg_sum_prefix(segs, n + 1);
        assert(segs.take(n + 1).drop_last() =~= segs.take(n));
    } else {
        assert(segs.take(n) =~= segs);
    }
}

impl Info {
    /// The length of every piece, in order.
    pub fn piece_lengths(&self, total: usize) -> (r: Vec<usize>)
        requires
            self.wf(),
            total == self.total(),
        ensures
            r@.len() == self.spec_piece_count(),
            forall|i: int| 0 <= i < r@.len() ==> #[trigger] r@[i] as int == expected_piece_len(self.total(), self.piece_length as nat, self.spec_piece_count(), i),
            forall|i: int| 0 <= i < r@.len() ==> 0 < #[trigger] r@[i] <= self.piece_length,
    {
        let count = self.pieces.0.len();
        let mut out: Vec<usize> = Vec::new();
        let mut i: usize = 0;
        while i < count
            invariant
                self.wf(),
                total == self.total(),
                count == self.spec_piece_count(),
                i <= count,
                out@.len() == i,
                forall|j: int| 0 <= j < i ==> #[trigger] out@[j] as int == expected_piece_len(self.total(), self.piece_length as nat, self.spec_piece_count(), j),
                forall|j: int| 0 <= j < i ==> 0 < #[trigger] out@[j] <= self.piece_length,
            decreases count - i,
        {
            let l = self.piece_len(total, i);
            proof {
                let pl = self.piece_length as int;
                if i + 1 == count {
                    assert(pl * (count - 1) < total && total <= pl * count);
                    assert(pl * count == pl * (count - 1) + pl) by (nonlinear_arith);
                }
            }
            out.push(l);
            i += 1;
        }
        out
    }
}

/// Where a file of the torrent lies under the download directory `root`: the root, the torrent's
/// name, then, for a multi-file torrent, the file's own path.
pub open spec fn file_path_of(root: Seq<char>, info: Info, k: int) -> Seq<Seq<char>> {
    match info.file_type {
        FileType::SingleFile { .. } => seq![root, info.name@],
        FileType::MultiFile { files } => seq![root, info.name@] + path_view(files@[k].path@),
    }
}

impl Torrent {
    /// The path segments of each file on disk, in the torrent's order.
    pub fn file_paths(&self, root: &String) -> (r: Vec<Vec<String>>)
        ensures
            r@.len() == self.info.file_type.lens().len(),
            forall|k: int| 0 <= k < r@.len() ==> path_view(#[trigger] r@[k]@) == file_path_of(root@, self.info, k),
    {
        let mut out: Vec<Vec<String>> = Vec::new();
        match &self.info.file_type {
            FileType::SingleFile { .. } => {
                let mut p: Vec<String> = Vec::new();
                p.push(root.clone());
                p.push(self.info.name.clone());
                assert(path_view(p@) =~= file_path_of(root@, self.info, 0));
                out.push(p);
            },
            FileType::MultiFile { files } => {
                let mut k: usize = 0;
                while k < files.len()
                    invariant
                        k <= files@.len(),
                        self.info.file_type == (FileType::MultiFile { files: *files }),
                        out@.len() == k,
                        forall|j: int| 0 <= j < k ==> path_view(#[trigger] out@[j]@) == file_path_of(root@, self.info, j),
                    decreases files@.len() - k,
                {
                    let mut p: Vec<String> = Vec::new();
                    p.push(root.clone());
                    p.push(self.info.name.clone());
                    let parts = &files[k].path;
                    let mut j: usize = 0;
                    while j < parts.len()
                        invariant
                            j <= parts@.len(),
                            p@.len() == j + 2,
                            path_view(p@) == seq![root@, self.info.name@] + path_view(parts@.subrange(0, j as int)),
                        decreases parts@.len() - j,
                    {
                        let ghost before = p@;
                        p.push(parts[j].clone());
                        let ghost want = seq![root@, self.info.name@] + path_view(parts@.subrange(0, j as int + 1));
                        let ghost had = seq![root@, self.info.name@] + path_view(parts@.subrange(0, j as int));
                        assert forall|m: int| 0 <= m < p@.len() implies #[trigger] path_view(p@)[m] == want[m] by {
                            if m < j + 2 {
                                assert(p@[m] == before[m]);
                                assert(path_view(before)[m] == had[m]);
                                if m >= 2 {
                                    assert(parts@.subrange(0, j as int)[m - 2] == parts@[m - 2]);
                                    assert(parts@.subrange(0, j as int + 1)[m - 2] == parts@[m - 2]);
                                }
                            } else {
                                assert(parts@.subrange(0, j as int + 1)[j as int] == parts@[j as int]);
                            }
                        }
                        assert(path_view(p@) =~= want);
                        j += 1;
                    }
                    assert(parts@.subrange(0, j as int) =~= parts@);
                    out.push(p);
                    k += 1;
                }
            },
        }
        out
    }
}

impl Torrent {
    /// The bencoded `info` dictionary that the info-hash is taken of.
    pub open spec fn info_bytes_view(&self) -> Seq<u8> {
        self.info_bytes@
    }
}

/// The digests laid end to end.
pub open spec fn flat_hashes(hs: Seq<[u8; 20]>) -> Seq<u8>
    decreases hs.len(),
{
    if hs.len() == 0 {
        Seq::empty()
    } else {
        flat_hashes(hs.drop_last()) + hs.last()@
    }
}

/// A file's path as a bencoded list of strings.
pub open spec fn path_term(p: Seq<String>) -> Term {
    Term::List(Seq::new(p.len(), |k: int| Term::Str(encode_utf8(p[k]@))))
}

/// A file of a multi-file torrent as a bencoded dictionary.
pub open spec fn file_term(f: TorrentFile) -> Term {
    Term::Dict(seq![(key_length(), Term::Int(f.length as int)), (key_path(), path_term(f.path@))])
}

/// The `info` dictionary of an `Info`: its name, piece length, digests and file shape.
pub open spec fn info_term(info: Info) -> Term {
    let shape = match info.file_type {
        FileType::SingleFile { length } => (key_length(), Term::Int(length as int)),
        FileType::MultiFile { files } => (key_files(), Term::List(Seq::new(files@.len(), |k: int| file_term(files@[k])))),
    };
    Term::Dict(seq![
        shape,
        (key_name(), Term::Str(encode_utf8(info.name@))),
        (key_piece_length(), Term::Int(info.piece_length as int)),
        (key_pieces(), Term::Str(flat_hashes(info.pieces.0@))),
    ])
}

/// Every length fits a bencode integer of 64 bits.
pub open spec fn lengths_fit(info: Info) -> bool {
    &&& info.piece_length <= i64::MAX
    &&& forall|k: int| 0 <= k < info.file_type.lens().len() ==> #[trigger] info.file_type.lens()[k] <= i64::MAX
}

fn text_value(s: &String) -> (r: Value)
    ensures
        r.term() == Term::Str(encode_utf8(s@)),
{
    Value::Bytes(copy_bytes(s.as_str().as_bytes()))
}

fn count_value(n: usize) -> (r: Value)
    requires
        n <= i64::MAX,
    ensures
        r.term() == Term::Int(n as int),
{
    Value::Int(n as i64)
}

fn key_value(k: &[u8]) -> (r: Vec<u8>)
    ensures
        r@ == k@,
{
    copy_bytes(k)
}

fn path_value(p: &Vec<String>) -> (r: Value)
    ensures
        r.term() == path_term(p@),
{
    let mut items: Vec<Value> = Vec::new();
    let mut k: usize = 0;
    while k < p.len()
        invariant
            k <= p@.len(),
            items@.len() == k,
            forall|j: int| 0 <= j < k ==> (#[trigger] items@[j]).term() == Term::Str(encode_utf8(p@[j]@)),
        decreases p@.len() - k,
    {
        items.push(text_value(&p[k]));
        k += 1;
    }
    proof {
        lemma_list_term(items);
        assert(terms(items@) =~= path_term(p@)->List_0);
    }
    Value::List(items)
}

fn file_value(f: &TorrentFile) -> (r: Value)
    requires
        f.length <= i64::MAX,
    ensures
        r.term() == file_term(*f),
{
    let mut es: Vec<(Vec<u8>, Value)> = Vec::new();
    es.push((key_value(&[108u8, 101, 110, 103, 116, 104]), count_value(f.length)));
    es.push((key_value(&[112u8, 97, 116, 104]), path_value(&f.path)));
    proof {
        lemma_dict_term(es);
        assert(entry_terms(es@) =~= file_term(*f)->Dict_0);
    }
    Value::Dict(es)
}

impl Info {
    /// This `info` as a bencode value.
    pub fn to_value(&self) -> (r: Value)
        requires
            lengths_fit(*self),
        ensures
            r.term() == info_term(*self),
    {
        let ghost lens = self.file_type.lens();
        let shape = match &self.file_type {
            FileType::SingleFile { length } => {
                assert(lens[0] == *length as nat);
                (key_value(&[108u8, 101, 110, 103, 116, 104]), count_value(*length))
            },
            FileType::MultiFile { files } => {
                let mut items: Vec<Value> = Vec::new();
                let mut k: usize = 0;
                while k < files.len()
                    invariant
                        k <= files@.len(),
                        items@.len() == k,
                        lens == self.file_type.lens(),
                        self.file_type == (FileType::MultiFile { files: *files }),
                        lengths_fit(*self),
                        forall|j: int| 0 <= j < k ==> (#[trigger] items@[j]).term() == file_term(files@[j]),
                    decreases files@.len() - k,
                {
                    assert(lens[k as int] == files@[k as int].length as nat);
                    items.push(file_value(&files[k]));
                    k += 1;
                }
                proof {
                    lemma_list_term(items);
                    assert(terms(items@) =~= Seq::new(files@.len(), |j: int| file_term(files@[j])));
                }
                (key_value(&[102u8, 105, 108, 101, 115]), Value::List(items))
            },
        };
        let mut flat: Vec<u8> = Vec::new();
        let mut k: usize = 0;
        while k < self.pieces.0.len()
            invariant
                k <= self.pieces.0@.len(),
                flat@ == flat_hashes(self.pieces.0@.take(k as int)),
            decreases self.pieces.0@.len() - k,
        {
            crate::bencode::push_all(&mut flat, &self.pieces.0[k]);
            proof {
                assert(self.pieces.0@.take(k as int + 1).drop_last() =~= self.pieces.0@.take(k as int));
            }
            k += 1;
        }
        assert(self.pieces.0@.take(k as int) =~= self.pieces.0@);
        let mut es: Vec<(Vec<u8>, Value)> = Vec::new();
        es.push(shape);
        es.push((key_value(&[110u8, 97, 109, 101]), text_value(&self.name)));
        es.push((key_value(&[112u8, 105, 101, 99, 101, 32, 108, 101, 110, 103, 116, 104]), count_value(self.piece_length)));
        es.push((key_value(&[112u8, 105, 101, 99, 101, 115]), Value::Bytes(flat)));
        proof {
            lemma_dict_term(es);
            assert(entry_terms(es@) =~= info_term(*self)->Dict_0);
        }
        Value::Dict(es)
    }
}

impl Torrent {
    /// A torrent of the given `info` and announce URL; its info-hash is taken of the canonical
    /// encoding of `info`.
    pub fn new(info: Info, announce: String) -> (r: Torrent)
        requires
            lengths_fit(info),
        ensures
            r.info == info,
            r.announce == announce,
            r.info_bytes_view() == enc(canon(info_term(info))),
    {
        let v = info.to_value();
        let info_bytes = encode(&v);
        Torrent { info, announce, info_bytes }
    }
}

} // verus!
