//! The bencode format: byte strings, integers, lists and dictionaries.
use vstd::prelude::*;

verus! {

/// A decoded bencode value.
pub enum Value {
    Bytes(Vec<u8>),
    Int(i64),
    List(Vec<Value>),
    Dict(Vec<(Vec<u8>, Value)>),
}

/// The mathematical model of a bencode value.
pub enum Term {
    Str(Seq<u8>),
    Int(int),
    List(Seq<Term>),
    Dict(Seq<(Seq<u8>, Term)>),
}

/// Puts an entry before the first entry whose key is greater.
pub open spec fn ins_entry(es: Seq<(Seq<u8>, Term)>, e: (Seq<u8>, Term)) -> Seq<(Seq<u8>, Term)>
    decreases es.len(),
{
    if es.len() == 0 {
        seq![e]
    } else if lex_lt(e.0, es[0].0) {
        seq![e] + es
    } else {
        seq![es[0]] + ins_entry(es.drop_first(), e)
    }
}

/// The entries sorted by key, equal keys in their first order.
pub open spec fn sort_entries(es: Seq<(Seq<u8>, Term)>) -> Seq<(Seq<u8>, Term)>
    decreases es.len(),
{
    if es.len() == 0 {
        Seq::empty()
    } else {
        ins_entry(sort_entries(es.drop_last()), es.last())
    }
}

/// A value with the entries of every dictionary in it sorted by key.
pub open spec fn canon(t: Term) -> Term
    decreases t, 1int,
{
    match t {
        Term::Str(b) => Term::Str(b),
        Term::Int(i) => Term::Int(i),
        Term::List(items) => Term::List(canon_items(items)),
        Term::Dict(es) => Term::Dict(sort_entries(canon_entries(es))),
    }
}

/// The canonical form of each item.
pub open spec fn canon_items(items: Seq<Term>) -> Seq<Term>
    decreases items, 0int,
{
    Seq::new(items.len(), |k: int| if 0 <= k < items.len() { canon(items[k]) } else { Term::Int(0) })
}

/// Each entry with its value in canonical form.
pub open spec fn canon_entries(es: Seq<(Seq<u8>, Term)>) -> Seq<(Seq<u8>, Term)>
    decreases es, 0int,
{
    Seq::new(es.len(), |k: int| if 0 <= k < es.len() { (es[k].0, canon(es[k].1)) } else { (Seq::empty(), Term::Int(0)) })
}

/// Why a byte sequence is not a bencode value.
#[derive(Debug, Clone, Copy, PartialEq, Eq, Structural)]
pub enum DecodeError {
    TruncatedInput,
    BadDigit,
    BadKeyOrder,
    BadLength,
}

pub open spec fn is_digit(b: u8) -> bool {
    48 <= b <= 57
}

/// The first position at or after `pos` that does not hold a decimal digit.
pub open spec fn digit_end(s: Seq<u8>, pos: int) -> int
    decreases s.len() - pos,
{
    if pos < 0 || pos >= s.len() || !is_digit(s[pos]) {
        pos
    } else {
        digit_end(s, pos + 1)
    }
}

/// The number written in decimal by `s[a..b]`.
pub open spec fn digits_val(s: Seq<u8>, a: int, b: int) -> nat
    decreases b - a,
{
    if b <= a {
        0
    } else {
        digits_val(s, a, b - 1) * 10 + ((s[b - 1] - 48) as nat)
    }
}

pub open spec fn pow10(k: nat) -> nat
    decreases k,
{
    if k == 0 {
        1
    } else {
        10 * pow10((k - 1) as nat)
    }
}

/// The longest run of digits a number may have.
pub const MAX_DIGITS: usize = 19;

/// Strict lexicographic order on byte strings.
pub open spec fn lex_lt(a: Seq<u8>, b: Seq<u8>) -> bool
    decreases a.len(),
{
    if a.len() == 0 {
        b.len() > 0
    } else if b.len() == 0 {
        false
    } else if a[0] != b[0] {
        a[0] < b[0]
    } else {
        lex_lt(a.drop_first(), b.drop_first())
    }
}

/// Reads a string's length prefix `<digits>:` at `pos`: the length, and the position after the colon.
pub open spec fn parse_len(s: Seq<u8>, pos: int) -> Result<(nat, int), DecodeError> {
    let e = digit_end(s, pos);
    if e == pos {
        if pos >= s.len() {
            Err(DecodeError::TruncatedInput)
        } else {
            Err(DecodeError::BadDigit)
        }
    } else if e >= s.len() {
        Err(DecodeError::TruncatedInput)
    } else if s[e] != 58u8 {
        Err(DecodeError::BadDigit)
    } else if s[pos] == 48u8 && e > pos + 1 {
        Err(DecodeError::BadDigit)
    } else if e - pos > MAX_DIGITS {
        Err(DecodeError::BadLength)
    } else {
        Ok((digits_val(s, pos, e), e + 1))
    }
}

/// A byte string at `pos`.
pub open spec fn parse_str(s: Seq<u8>, pos: int) -> Result<(Seq<u8>, int), DecodeError> {
    match parse_len(s, pos) {
        Err(e) => Err(e),
        Ok((n, p)) => if n > s.len() - p {
            Err(DecodeError::TruncatedInput)
        } else {
            Ok((s.subrange(p, p + n), p + n))
        },
    }
}

pub open spec fn in_i64(v: int) -> bool {
    i64::MIN <= v <= i64::MAX
}

/// An integer `i<decimal>e` whose `i` stands at `pos`.
pub open spec fn parse_int(s: Seq<u8>, pos: int) -> Result<(Term, int), DecodeError> {
    let n = s.len();
    let p = pos + 1;
    let neg = p < n && s[p] == 45u8;
    let q = if neg { p + 1 } else { p };
    let e = digit_end(s, q);
    if e == q {
        if q >= s.len() {
            Err(DecodeError::TruncatedInput)
        } else {
            Err(DecodeError::BadDigit)
        }
    } else if e >= s.len() {
        Err(DecodeError::TruncatedInput)
    } else if s[e] != 101u8 {
        Err(DecodeError::BadDigit)
    } else if s[q] == 48u8 && (e > q + 1 || neg) {
        Err(DecodeError::BadDigit)
    } else if e - q > MAX_DIGITS {
        Err(DecodeError::BadDigit)
    } else {
        let v: int = if neg { -digits_val(s, q, e) } else { digits_val(s, q, e) as int };
        if in_i64(v) {
            Ok((Term::Int(v), e + 1))
        } else {
            Err(DecodeError::BadDigit)
        }
    }
}

/// The value that starts at `pos`, and the position after it.
pub open spec fn parse_value(s: Seq<u8>, pos: int) -> Result<(Term, int), DecodeError>
    decreases s.len() - pos, 0int,
{
    if pos < 0 || pos >= s.len() {
        Err(DecodeError::TruncatedInput)
    } else if s[pos] == 105u8 {
        parse_int(s, pos)
    } else if s[pos] == 108u8 {
        parse_list(s, pos + 1, Seq::empty())
    } else if s[pos] == 100u8 {
        parse_dict(s, pos + 1, Seq::empty())
    } else {
        match parse_str(s, pos) {
            Err(e) => Err(e),
            Ok((b, p)) => Ok((Term::Str(b), p)),
        }
    }
}

/// The rest of a list from `pos`, after the items `acc` already read.
pub open spec fn parse_list(s: Seq<u8>, pos: int, acc: Seq<Term>) -> Result<(Term, int), DecodeError>
    decreases s.len() - pos, 1int,
{
    if pos < 0 || pos >= s.len() {
        Err(DecodeError::TruncatedInput)
    } else if s[pos] == 101u8 {
        Ok((Term::List(acc), pos + 1))
    } else {
        match parse_value(s, pos) {
            Err(e) => Err(e),
            Ok((t, q)) => if q <= pos || q > s.len() {
                Err(DecodeError::TruncatedInput)
            } else {
                parse_list(s, q, acc.push(t))
            },
        }
    }
}

/// The rest of a dictionary from `pos`, after the entries `acc` already read.
pub open spec fn parse_dict(s: Seq<u8>, pos: int, acc: Seq<(Seq<u8>, Term)>) -> Result<(Term, int), DecodeError>
    decreases s.len() - pos, 1int,
{
    if pos < 0 || pos >= s.len() {
        Err(DecodeError::TruncatedInput)
    } else if s[pos] == 101u8 {
        Ok((Term::Dict(acc), pos + 1))
    } else {
        match parse_str(s, pos) {
            Err(e) => Err(e),
            Ok((k, kq)) => if acc.len() > 0 && !lex_lt(acc.last().0, k) {
                Err(DecodeError::BadKeyOrder)
            } else if kq <= pos {
                Err(DecodeError::TruncatedInput)
            } else {
                match parse_value(s, kq) {
                    Err(e) => Err(e),
                    Ok((v, q)) => if q <= kq || q > s.len() {
                        Err(DecodeError::TruncatedInput)
                    } else {
                        parse_dict(s, q, acc.push((k, v)))
                    },
                }
            },
        }
    }
}

/// The decimal digits of `n`, without leading zeros.
pub open spec fn enc_nat(n: nat) -> Seq<u8>
    decreases n,
{
    if n < 10 {
        seq![(48 + n) as u8]
    } else {
        enc_nat(n / 10).push((48 + n % 10) as u8)
    }
}

pub open spec fn enc_int(i: int) -> Seq<u8> {
    if i < 0 {
        seq![45u8] + enc_nat((-i) as nat)
    } else {
        enc_nat(i as nat)
    }
}

pub open spec fn enc_str(b: Seq<u8>) -> Seq<u8> {
    enc_nat(b.len()) + seq![58u8] + b
}

/// The canonical encoding of a value.
pub open spec fn enc(t: Term) -> Seq<u8>
    decreases t, 0int,
{
    match t {
        Term::Str(b) => enc_str(b),
        Term::Int(i) => seq![105u8] + enc_int(i) + seq![101u8],
        Term::List(items) => seq![108u8] + enc_items(items, items.len() as int) + seq![101u8],
        Term::Dict(es) => seq![100u8] + enc_entries(es, es.len() as int) + seq![101u8],
    }
}

/// The encodings of the first `n` items, one after another.
pub open spec fn enc_items(items: Seq<Term>, n: int) -> Seq<u8>
    decreases items, n,
{
    if n <= 0 || n > items.len() {
        Seq::empty()
    } else {
        enc_items(items, n - 1) + enc(items[n - 1])
    }
}

/// The encodings of the first `n` entries, each key followed by its value.
pub open spec fn enc_entries(es: Seq<(Seq<u8>, Term)>, n: int) -> Seq<u8>
    decreases es, n,
{
    if n <= 0 || n > es.len() {
        Seq::empty()
    } else {
        enc_entries(es, n - 1) + enc_str(es[n - 1].0) + enc(es[n - 1].1)
    }
}

/// Keys in strictly increasing order at every level, integers within `i64`.
pub open spec fn wf(t: Term) -> bool
    decreases t,
{
    match t {
        Term::Str(_) => true,
        Term::Int(i) => in_i64(i),
        Term::List(items) => forall|k: int| 0 <= k < items.len() ==> wf(#[trigger] items[k]),
        Term::Dict(es) => (forall|k: int| 0 <= k < es.len() ==> wf(#[trigger] es[k].1))
            && (forall|k: int| 0 < k < es.len() ==> lex_lt(es[k - 1].0, #[trigger] es[k].0)),
    }
}

impl Value {
    pub open spec fn term(self) -> Term
        decreases self,
    {
        match self {
            Value::Bytes(b) => Term::Str(b@),
            Value::Int(i) => Term::Int(i as int),
            Value::List(items) => Term::List(
                Seq::new(items.len() as nat, |k: int| if 0 <= k < items.len() { items[k].term() } else { Term::Int(0) }),
            ),
            Value::Dict(es) => Term::Dict(
                Seq::new(es.len() as nat, |k: int| if 0 <= k < es.len() { (es[k].0@, es[k].1.term()) } else { (Seq::empty(), Term::Int(0)) }),
            ),
        }
    }
}

/// The models of a run of values.
pub open spec fn terms(items: Seq<Value>) -> Seq<Term> {
    Seq::new(items.len(), |k: int| items[k].term())
}

/// The models of a run of dictionary entries.
pub open spec fn entry_terms(es: Seq<(Vec<u8>, Value)>) -> Seq<(Seq<u8>, Term)> {
    Seq::new(es.len(), |k: int| (es[k].0@, es[k].1.term()))
}

proof fn lemma_pow10_bound(k: nat)
    requires
        k <= 19,
    ensures
        pow10(k) <= 10000000000000000000,
        pow10(k) >= 1,
    decreases k,
{
    if k > 0 {
        lemma_pow10_bound((k - 1) as nat);
        if k == 19 {
            reveal_with_fuel(pow10, 20);
        } else {
            lemma_pow10_mono((k - 1) as nat);
        }
    }
}

proof fn lemma_pow10_mono(k: nat)
    requires
        k < 19,
    ensures
        10 * pow10(k) <= 10000000000000000000,
    decreases 19 - k,
{
    if k < 18 {
        lemma_pow10_mono(k + 1);
        assert(pow10(k + 1) == 10 * pow10(k));
    } else {
        reveal_with_fuel(pow10, 20);
    }
}

fn scan_digits(s: &[u8], pos: usize) -> (e: usize)
    requires
        pos <= s@.len(),
    ensures
        e as int == digit_end(s@, pos as int),
        pos <= e <= s@.len(),
        forall|k: int| pos <= k < e ==> is_digit(#[trigger] s@[k]),
{
    let mut e = pos;
    while e < s.len() && s[e] >= 48 && s[e] <= 57
        invariant
            pos <= e <= s@.len(),
            digit_end(s@, pos as int) == digit_end(s@, e as int),
            forall|k: int| pos <= k < e ==> is_digit(#[trigger] s@[k]),
        decreases s@.len() - e,
    {
        e += 1;
    }
    e
}

fn read_digits(s: &[u8], a: usize, b: usize) -> (v: u64)
    requires
        a <= b <= s@.len(),
        b - a <= MAX_DIGITS,
        forall|k: int| a <= k < b ==> is_digit(#[trigger] s@[k]),
    ensures
        v as nat == digits_val(s@, a as int, b as int),
{
    let mut v: u64 = 0;
    let mut i = a;
    while i < b
        invariant
            a <= i <= b,
            b <= s@.len(),
            b - a <= MAX_DIGITS,
            forall|k: int| a <= k < b ==> is_digit(#[trigger] s@[k]),
            v as nat == digits_val(s@, a as int, i as int),
            v < pow10((i - a) as nat),
        decreases b - i,
    {
        let d = (s[i] - 48) as u64;
        proof {
            let k = (i - a) as nat;
            lemma_pow10_mono(k);
            assert(pow10(k + 1) == 10 * pow10(k));
            assert(v * 10 + d < 10 * pow10(k)) by (nonlinear_arith)
                requires v < pow10(k), d <= 9;
        }
        v = v * 10 + d;
        i += 1;
    }
    v
}

fn decode_len(s: &[u8], pos: usize) -> (r: Result<(u64, usize), DecodeError>)
    requires
        pos <= s@.len(),
    ensures
        match r {
            Ok((n, p)) => parse_len(s@, pos as int) == Ok::<(nat, int), DecodeError>((n as nat, p as int))
                && pos < p <= s@.len(),
            Err(e) => parse_len(s@, pos as int) == Err::<(nat, int), DecodeError>(e),
        },
{
    let e = scan_digits(s, pos);
    if e == pos {
        if pos >= s.len() {
            Err(DecodeError::TruncatedInput)
        } else {
            Err(DecodeError::BadDigit)
        }
    } else if e >= s.len() {
        Err(DecodeError::TruncatedInput)
    } else if s[e] != 58u8 {
        Err(DecodeError::BadDigit)
    } else if s[pos] == 48u8 && e > pos + 1 {
        Err(DecodeError::BadDigit)
    } else if e - pos > MAX_DIGITS {
        Err(DecodeError::BadLength)
    } else {
        let v = read_digits(s, pos, e);
        Ok((v, e + 1))
    }
}

/// A copy of the bytes `s`.
pub fn copy_bytes(s: &[u8]) -> (r: Vec<u8>)
    ensures
        r@ == s@,
{
    let r = copy_range(s, 0, s.len());
    assert(r@ =~= s@);
    r
}

/// The bytes `s[a..b]` as a vector.
pub fn copy_range(s: &[u8], a: usize, b: usize) -> (r: Vec<u8>)
    requires
        a <= b <= s@.len(),
    ensures
        r@ == s@.subrange(a as int, b as int),
{
    let mut out: Vec<u8> = Vec::new();
    let mut i = a;
    while i < b
        invariant
            a <= i <= b <= s@.len(),
            out@ == s@.subrange(a as int, i as int),
        decreases b - i,
    {
        out.push(s[i]);
        i += 1;
        assert(out@ =~= s@.subrange(a as int, i as int));
    }
    out
}

fn decode_str(s: &[u8], pos: usize) -> (r: Result<(Vec<u8>, usize), DecodeError>)
    requires
        pos <= s@.len(),
    ensures
        match r {
            Ok((b, p)) => parse_str(s@, pos as int) == Ok::<(Seq<u8>, int), DecodeError>((b@, p as int))
                && pos < p <= s@.len(),
            Err(e) => parse_str(s@, pos as int) == Err::<(Seq<u8>, int), DecodeError>(e),
        },
{
    match decode_len(s, pos) {
        Err(e) => Err(e),
        Ok((n, p)) => {
            if n > (s.len() - p) as u64 {
                Err(DecodeError::TruncatedInput)
            } else {
                let end = p + n as usize;
                Ok((copy_range(s, p, end), end))
            }
        },
    }
}

fn decode_int(s: &[u8], pos: usize) -> (r: Result<(Value, usize), DecodeError>)
    requires
        pos < s@.len(),
    ensures
        match r {
            Ok((v, p)) => parse_int(s@, pos as int) == Ok::<(Term, int), DecodeError>((v.term(), p as int))
                && pos < p <= s@.len(),
            Err(e) => parse_int(s@, pos as int) == Err::<(Term, int), DecodeError>(e),
        },
{
    let n = s.len();
    let p = pos + 1;
    let neg = p < n && s[p] == 45u8;
    let q = if neg { p + 1 } else { p };
    let e = scan_digits(s, q);
    if e == q {
        if q >= s.len() {
            Err(DecodeError::TruncatedInput)
        } else {
            Err(DecodeError::BadDigit)
        }
    } else if e >= s.len() {
        Err(DecodeError::TruncatedInput)
    } else if s[e] != 101u8 {
        Err(DecodeError::BadDigit)
    } else if s[q] == 48u8 && (e > q + 1 || neg) {
        Err(DecodeError::BadDigit)
    } else if e - q > MAX_DIGITS {
        Err(DecodeError::BadDigit)
    } else {
        let m = read_digits(s, q, e) as i128;
        let v: i128 = if neg { -m } else { m };
        if v < i64::MIN as i128 || v > i64::MAX as i128 {
            Err(DecodeError::BadDigit)
        } else {
            Ok((Value::Int(v as i64), e + 1))
        }
    }
}

/// Whether `a` comes strictly before `b` in byte order.
pub fn bytes_lt(a: &[u8], b: &[u8]) -> (r: bool)
    ensures
        r == lex_lt(a@, b@),
{
    let mut i: usize = 0;
    assert(a@.subrange(0, a@.len() as int) =~= a@);
    assert(b@.subrange(0, b@.len() as int) =~= b@);
    while i < a.len() && i < b.len() && a[i] == b[i]
        invariant
            i <= a@.len(),
            i <= b@.len(),
            lex_lt(a@, b@) == lex_lt(a@.subrange(i as int, a@.len() as int), b@.subrange(i as int, b@.len() as int)),
        decreases a@.len() - i,
    {
        proof {
            let sa = a@.subrange(i as int, a@.len() as int);
            let sb = b@.subrange(i as int, b@.len() as int);
            assert(sa.drop_first() =~= a@.subrange(i + 1, a@.len() as int));
            assert(sb.drop_first() =~= b@.subrange(i + 1, b@.len() as int));
        }
        i += 1;
    }
    proof {
        let sa = a@.subrange(i as int, a@.len() as int);
        let sb = b@.subrange(i as int, b@.len() as int);
        if i < a.len() && i < b.len() {
            assert(sa[0] == a@[i as int]);
            assert(sb[0] == b@[i as int]);
        }
    }
    if i == a.len() {
        i < b.len()
    } else if i == b.len() {
        false
    } else {
        a[i] < b[i]
    }
}

fn decode_value(s: &[u8], pos: usize) -> (r: Result<(Value, usize), DecodeError>)
    requires
        pos <= s@.len(),
    ensures
        match r {
            Ok((v, q)) => parse_value(s@, pos as int) == Ok::<(Term, int), DecodeError>((v.term(), q as int))
                && pos < q <= s@.len(),
            Err(e) => parse_value(s@, pos as int) == Err::<(Term, int), DecodeError>(e),
        },
    decreases s@.len() - pos, 0int,
{
    if pos >= s.len() {
        Err(DecodeError::TruncatedInput)
    } else if s[pos] == 105u8 {
        decode_int(s, pos)
    } else if s[pos] == 108u8 {
        decode_list(s, pos + 1)
    } else if s[pos] == 100u8 {
        decode_dict(s, pos + 1)
    } else {
        match decode_str(s, pos) {
            Err(e) => Err(e),
            Ok((b, p)) => Ok((Value::Bytes(b), p)),
        }
    }
}

fn decode_list(s: &[u8], pos: usize) -> (r: Result<(Value, usize), DecodeError>)
    requires
        1 <= pos <= s@.len(),
    ensures
        match r {
            Ok((v, q)) => parse_list(s@, pos as int, Seq::empty()) == Ok::<(Term, int), DecodeError>((v.term(), q as int))
                && pos < q <= s@.len(),
            Err(e) => parse_list(s@, pos as int, Seq::empty()) == Err::<(Term, int), DecodeError>(e),
        },
    decreases s@.len() - pos, 1int,
{
    let mut items: Vec<Value> = Vec::new();
    let mut p = pos;
    assert(terms(items@) =~= Seq::<Term>::empty());
    loop
        invariant
            pos <= p <= s@.len(),
            parse_list(s@, pos as int, Seq::empty()) == parse_list(s@, p as int, terms(items@)),
        decreases s@.len() - p,
    {
        if p >= s.len() {
            return Err(DecodeError::TruncatedInput);
        }
        if s[p] == 101u8 {
            let ghost ts = terms(items@);
            let v = Value::List(items);
            assert(v.term() == Term::List(ts)) by {
                assert(v.term()->List_0 =~= ts);
            }
            return Ok((v, p + 1));
        }
        match decode_value(s, p) {
            Err(e) => {
                return Err(e);
            },
            Ok((v, q)) => {
                let ghost before = items@;
                items.push(v);
                assert(terms(items@) =~= terms(before).push(v.term()));
                p = q;
            },
        }
    }
}

fn decode_dict(s: &[u8], pos: usize) -> (r: Result<(Value, usize), DecodeError>)
    requires
        1 <= pos <= s@.len(),
    ensures
        match r {
            Ok((v, q)) => parse_dict(s@, pos as int, Seq::empty()) == Ok::<(Term, int), DecodeError>((v.term(), q as int))
                && pos < q <= s@.len(),
            Err(e) => parse_dict(s@, pos as int, Seq::empty()) == Err::<(Term, int), DecodeError>(e),
        },
    decreases s@.len() - pos, 1int,
{
    let mut es: Vec<(Vec<u8>, Value)> = Vec::new();
    let mut p = pos;
    assert(entry_terms(es@) =~= Seq::<(Seq<u8>, Term)>::empty());
    loop
        invariant
            pos <= p <= s@.len(),
            parse_dict(s@, pos as int, Seq::empty()) == parse_dict(s@, p as int, entry_terms(es@)),
        decreases s@.len() - p,
    {
        if p >= s.len() {
            return Err(DecodeError::TruncatedInput);
        }
        if s[p] == 101u8 {
            let ghost ts = entry_terms(es@);
            let v = Value::Dict(es);
            assert(v.term() == Term::Dict(ts)) by {
                assert(v.term()->Dict_0 =~= ts);
            }
            return Ok((v, p + 1));
        }
        let (k, kq) = match decode_str(s, p) {
            Err(e) => {
                return Err(e);
            },
            Ok(x) => x,
        };
        if es.len() > 0 && !bytes_lt(es[es.len() - 1].0.as_slice(), k.as_slice()) {
            return Err(DecodeError::BadKeyOrder);
        }
        if kq <= p {
            return Err(DecodeError::TruncatedInput);
        }
        match decode_value(s, kq) {
            Err(e) => {
                return Err(e);
            },
            Ok((v, q)) => {
                let ghost before = es@;
                es.push((k, v));
                assert(entry_terms(es@) =~= entry_terms(before).push((k@, v.term())));
                p = q;
            },
        }
    }
}

/// Decodes the bencode value at the start of `s`: the value, and the number of bytes it takes.
pub fn decode(s: &[u8]) -> (r: Result<(Value, usize), DecodeError>)
    ensures
        match r {
            Ok((v, n)) => parse_value(s@, 0) == Ok::<(Term, int), DecodeError>((v.term(), n as int)),
            Err(e) => parse_value(s@, 0) == Err::<(Term, int), DecodeError>(e),
        },
{
    decode_value(s, 0)
}

pub(crate) fn push_decimal(out: &mut Vec<u8>, n: u64)
    ensures
        final(out)@ == old(out)@ + enc_nat(n as nat),
    decreases n,
{
    if n >= 10 {
        push_decimal(out, n / 10);
    }
    out.push(48u8 + (n % 10) as u8);
    proof {
        if n < 10 {
            assert(old(out)@ + enc_nat(n as nat) =~= old(out)@.push((48 + n) as u8));
        } else {
            assert(old(out)@ + enc_nat(n as nat) =~= old(out)@ + enc_nat((n / 10) as nat) + seq![(48 + n % 10) as u8]);
        }
    }
}

pub(crate) fn push_all(out: &mut Vec<u8>, b: &[u8])
    ensures
        final(out)@ == old(out)@ + b@,
{
    let mut i: usize = 0;
    while i < b.len()
        invariant
            i <= b@.len(),
            out@ == old(out)@ + b@.subrange(0, i as int),
        decreases b@.len() - i,
    {
        out.push(b[i]);
        i += 1;
        assert(out@ =~= old(out)@ + b@.subrange(0, i as int));
    }
    assert(b@.subrange(0, i as int) =~= b@);
}

fn encode_str_into(out: &mut Vec<u8>, b: &[u8])
    ensures
        final(out)@ == old(out)@ + enc_str(b@),
{
    push_decimal(out, b.len() as u64);
    out.push(58u8);
    push_all(out, b);
    assert(final(out)@ =~= old(out)@ + enc_str(b@));
}

/// The entries of `es` in the order that `order` gives.
pub open spec fn pick(es: Seq<(Seq<u8>, Term)>, order: Seq<usize>) -> Seq<(Seq<u8>, Term)> {
    Seq::new(order.len(), |j: int| es[order[j] as int])
}

/// The positions of the entries in sorted key order.
fn sorted_order(es: &Vec<(Vec<u8>, Value)>, cs: Ghost<Seq<(Seq<u8>, Term)>>) -> (order: Vec<usize>)
    requires
        cs@.len() == es@.len(),
        forall|j: int| 0 <= j < es@.len() ==> (#[trigger] cs@[j]).0 == es@[j].0@,
    ensures
        order@.len() == es@.len(),
        forall|j: int| 0 <= j < order@.len() ==> order@[j] < es@.len(),
        pick(cs@, order@) == sort_entries(cs@),
{
    let n = es.len();
    let ghost e = cs@;
    let mut order: Vec<usize> = Vec::new();
    let mut i: usize = 0;
    assert(pick(e, order@) =~= sort_entries(e.take(0)));
    while i < n
        invariant
            n == es@.len(),
            e.len() == n,
            forall|j: int| 0 <= j < n ==> (#[trigger] e[j]).0 == es@[j].0@,
            i <= n,
            order@.len() == i,
            forall|j: int| 0 <= j < order@.len() ==> order@[j] < n,
            pick(e, order@) == sort_entries(e.take(i as int)),
        decreases n - i,
    {
        let ghost before = pick(e, order@);
        let mut p: usize = 0;
        while p < order.len() && !bytes_lt(es[i].0.as_slice(), es[order[p]].0.as_slice())
            invariant
                n == es@.len(),
                e.len() == n,
                forall|j: int| 0 <= j < n ==> (#[trigger] e[j]).0 == es@[j].0@,
                i < n,
                p <= order@.len(),
                forall|j: int| 0 <= j < order@.len() ==> order@[j] < n,
                before == pick(e, order@),
                forall|j: int| 0 <= j < p ==> !lex_lt(e[i as int].0, #[trigger] before[j].0),
            decreases order@.len() - p,
        {
            p += 1;
        }
        proof {
            lemma_ins_entry_at(before, e[i as int], p as int);
            assert(e.take(i as int + 1).drop_last() =~= e.take(i as int));
            assert(e.take(i as int + 1).last() == e[i as int]);
        }
        order.insert(p, i);
        assert(pick(e, order@) =~= before.insert(p as int, e[i as int]));
        i += 1;
    }
    assert(e.take(n as int) =~= e);
    order
}

fn encode_into(v: &Value, out: &mut Vec<u8>)
    ensures
        final(out)@ == old(out)@ + enc(canon(v.term())),
    decreases v,
{
    match v {
        Value::Bytes(b) => {
            encode_str_into(out, b.as_slice());
        },
        Value::Int(i) => {
            out.push(105u8);
            if *i < 0 {
                out.push(45u8);
                push_decimal(out, (-(*i as i128)) as u64);
            } else {
                push_decimal(out, *i as u64);
            }
            out.push(101u8);
            assert(final(out)@ =~= old(out)@ + enc(canon(v.term())));
        },
        Value::List(items) => {
            let ghost ts = canon(v.term())->List_0;
            assert(ts == canon_items(v.term()->List_0));
            assert(ts.len() == items@.len());
            out.push(108u8);
            let ghost start = out@;
            let mut k: usize = 0;
            while k < items.len()
                invariant
                    k <= items@.len(),
                    ts == canon(v.term())->List_0,
                    ts.len() == items@.len(),
                    *v == Value::List(*items),
                    forall|j: int| 0 <= j < items@.len() ==> ts[j] == canon((#[trigger] items@[j]).term()),
                    out@ == start + enc_items(ts, k as int),
                decreases items@.len() - k,
            {
                encode_into(&items[k], out);
                k += 1;
                assert(out@ =~= start + enc_items(ts, k as int));
            }
            out.push(101u8);
            assert(final(out)@ =~= old(out)@ + enc(canon(v.term())));
        },
        Value::Dict(es) => {
            let ghost cs = canon_entries(v.term()->Dict_0);
            assert(cs.len() == es@.len());
            assert forall|j: int| 0 <= j < es@.len() implies (#[trigger] cs[j]) == (es@[j].0@, canon(es@[j].1.term())) by {
                assert(v.term()->Dict_0[j] == (es@[j].0@, es@[j].1.term()));
            }
            let order = sorted_order(es, Ghost(cs));
            assert(decreases_to!(*v => *es));
            let ghost sorted = sort_entries(cs);
            assert(canon(v.term()) == Term::Dict(sorted));
            out.push(100u8);
            let ghost start = out@;
            let mut j: usize = 0;
            while j < order.len()
                invariant
                    j <= order@.len(),
                    order@.len() == es@.len(),
                    forall|m: int| 0 <= m < order@.len() ==> order@[m] < es@.len(),
                    *v == Value::Dict(*es),
                    decreases_to!(*v => *es),
                    cs.len() == es@.len(),
                    forall|m: int| 0 <= m < es@.len() ==> (#[trigger] cs[m]) == (es@[m].0@, canon(es@[m].1.term())),
                    sorted == pick(cs, order@),
                    out@ == start + enc_entries(sorted, j as int),
                decreases order@.len() - j,
            {
                let k = order[j];
                assert(sorted[j as int] == cs[k as int]);
                assert(k < es@.len());
                let ghost ek = es@[k as int];
                assert(decreases_to!(*es => es[k as int]));
                assert(decreases_to!(ek => ek.1));
                encode_str_into(out, es[k].0.as_slice());
                encode_into(&es[k].1, out);
                j += 1;
                assert(out@ =~= start + enc_entries(sorted, j as int));
            }
            out.push(101u8);
            assert(final(out)@ =~= old(out)@ + enc(canon(v.term())));
        },
    }
}

/// The canonical bencode encoding of `v`: the entries of each dictionary go out in
/// increasing key order, whatever order they are held in.
pub fn encode(v: &Value) -> (r: Vec<u8>)
    ensures
        r@ == enc(canon(v.term())),
{
    let mut out: Vec<u8> = Vec::new();
    encode_into(v, &mut out);
    assert(out@ =~= enc(canon(v.term())));
    out
}

proof fn lemma_digit_end(s: Seq<u8>, pos: int)
    requires
        0 <= pos <= s.len(),
    ensures
        pos <= digit_end(s, pos) <= s.len(),
        forall|k: int| pos <= k < digit_end(s, pos) ==> is_digit(#[trigger] s[k]),
    decreases s.len() - pos,
{
    if pos < s.len() && is_digit(s[pos]) {
        lemma_digit_end(s, pos + 1);
    }
}

proof fn lemma_digits_positive(s: Seq<u8>, a: int, b: int)
    requires
        0 <= a < b <= s.len(),
        forall|k: int| a <= k < b ==> is_digit(#[trigger] s[k]),
        s[a] != 48u8,
    ensures
        digits_val(s, a, b) >= 1,
    decreases b - a,
{
    if b > a + 1 {
        lemma_digits_positive(s, a, b - 1);
    }
}

proof fn lemma_enc_digits(s: Seq<u8>, a: int, b: int)
    requires
        0 <= a < b <= s.len(),
        forall|k: int| a <= k < b ==> is_digit(#[trigger] s[k]),
        s[a] != 48u8 || b == a + 1,
    ensures
        enc_nat(digits_val(s, a, b)) == s.subrange(a, b),
    decreases b - a,
{
    let v = digits_val(s, a, b);
    let d = (s[b - 1] - 48) as nat;
    assert(is_digit(s[b - 1]));
    if b == a + 1 {
        assert(digits_val(s, a, a) == 0);
        assert(enc_nat(v) =~= s.subrange(a, b));
    } else {
        let w = digits_val(s, a, b - 1);
        lemma_enc_digits(s, a, b - 1);
        lemma_digits_positive(s, a, b - 1);
        assert(v == w * 10 + d);
        assert(v / 10 == w && v % 10 == d && v >= 10) by (nonlinear_arith)
            requires v == w * 10 + d, d < 10, w >= 1;
        assert(enc_nat(v) == enc_nat(w).push((48 + d) as u8));
        assert(enc_nat(v) =~= s.subrange(a, b));
    }
}

proof fn lemma_str_sound(s: Seq<u8>, pos: int)
    requires
        0 <= pos <= s.len(),
        parse_str(s, pos) is Ok,
    ensures
        pos < parse_str(s, pos)->Ok_0.1 <= s.len(),
        enc_str(parse_str(s, pos)->Ok_0.0) == s.subrange(pos, parse_str(s, pos)->Ok_0.1),
{
    let e = digit_end(s, pos);
    lemma_digit_end(s, pos);
    let (b, p) = parse_str(s, pos)->Ok_0;
    lemma_enc_digits(s, pos, e);
    assert(b.len() == digits_val(s, pos, e));
    assert(enc_str(b) =~= s.subrange(pos, p));
}

proof fn lemma_int_sound(s: Seq<u8>, pos: int)
    requires
        0 <= pos < s.len(),
        s[pos] == 105u8,
        parse_int(s, pos) is Ok,
    ensures
        pos < parse_int(s, pos)->Ok_0.1 <= s.len(),
        wf(parse_int(s, pos)->Ok_0.0),
        enc(parse_int(s, pos)->Ok_0.0) == s.subrange(pos, parse_int(s, pos)->Ok_0.1),
{
    let p = pos + 1;
    let neg = p < s.len() && s[p] == 45u8;
    let q = if neg { p + 1 } else { p };
    let e = digit_end(s, q);
    lemma_digit_end(s, q);
    lemma_enc_digits(s, q, e);
    let (t, end) = parse_int(s, pos)->Ok_0;
    if neg {
        lemma_digits_positive(s, q, e);
        assert(enc(t) =~= s.subrange(pos, end));
    } else {
        assert(enc(t) =~= s.subrange(pos, end));
    }
}

proof fn lemma_value_sound(s: Seq<u8>, pos: int)
    requires
        0 <= pos <= s.len(),
        parse_value(s, pos) is Ok,
    ensures
        pos < parse_value(s, pos)->Ok_0.1 <= s.len(),
        wf(parse_value(s, pos)->Ok_0.0),
        enc(parse_value(s, pos)->Ok_0.0) == s.subrange(pos, parse_value(s, pos)->Ok_0.1),
    decreases s.len() - pos, 0int,
{
    let (t, q) = parse_value(s, pos)->Ok_0;
    if s[pos] == 105u8 {
        lemma_int_sound(s, pos);
    } else if s[pos] == 108u8 {
        lemma_list_sound(s, pos + 1, Seq::empty());
        let items = t->List_0;
        assert(enc_items(items, 0) == Seq::<u8>::empty());
        assert(enc(t) =~= s.subrange(pos, q));
    } else if s[pos] == 100u8 {
        lemma_dict_sound(s, pos + 1, Seq::empty());
        let es = t->Dict_0;
        assert(enc_entries(es, 0) == Seq::<u8>::empty());
        assert(enc(t) =~= s.subrange(pos, q));
    } else {
        lemma_str_sound(s, pos);
    }
}

#[verifier::rlimit(60)]
proof fn lemma_list_sound(s: Seq<u8>, pos: int, acc: Seq<Term>)
    requires
        0 <= pos <= s.len(),
        parse_list(s, pos, acc) is Ok,
        forall|k: int| 0 <= k < acc.len() ==> wf(#[trigger] acc[k]),
    ensures
        ({
            let (t, q) = parse_list(s, pos, acc)->Ok_0;
            &&& pos < q <= s.len()
            &&& s[q - 1] == 101u8
            &&& t is List
            &&& t->List_0.len() >= acc.len()
            &&& t->List_0.subrange(0, acc.len() as int) == acc
            &&& forall|k: int| 0 <= k < t->List_0.len() ==> wf(#[trigger] t->List_0[k])
            &&& enc_items(t->List_0, t->List_0.len() as int) == enc_items(t->List_0, acc.len() as int) + s.subrange(pos, q - 1)
        }),
    decreases s.len() - pos, 1int,
{
    let (t, q) = parse_list(s, pos, acc)->Ok_0;
    if s[pos] == 101u8 {
        assert(acc.subrange(0, acc.len() as int) =~= acc);
        assert(s.subrange(pos, q - 1) =~= Seq::<u8>::empty());
        assert(enc_items(acc, acc.len() as int) + s.subrange(pos, q - 1) =~= enc_items(acc, acc.len() as int));
    } else {
        lemma_value_sound(s, pos);
        let (t1, q1) = parse_value(s, pos)->Ok_0;
        let acc2 = acc.push(t1);
        assert forall|k: int| 0 <= k < acc2.len() implies wf(#[trigger] acc2[k]) by {
            if k < acc.len() {
                assert(acc2[k] == acc[k]);
            }
        }
        lemma_list_sound(s, q1, acc2);
        let items = t->List_0;
        let n = acc.len() as int;
        assert(items.subrange(0, n) =~= acc) by {
            assert forall|k: int| 0 <= k < n implies items.subrange(0, n)[k] == acc[k] by {
                assert(items.subrange(0, n + 1)[k] == acc2[k]);
            }
        }
        assert(items[n] == t1) by {
            assert(items.subrange(0, n + 1)[n] == acc2[n]);
        }
        assert(enc_items(items, n + 1) == enc_items(items, n) + enc(t1));
        lemma_subrange_split(s, pos, q1, q - 1);
        assert(enc_items(items, items.len() as int) =~= enc_items(items, n) + s.subrange(pos, q - 1));
    }
}

proof fn lemma_subrange_split(s: Seq<u8>, a: int, b: int, c: int)
    requires
        0 <= a <= b <= c <= s.len(),
    ensures
        s.subrange(a, c) == s.subrange(a, b) + s.subrange(b, c),
{
    assert(s.subrange(a, c) =~= s.subrange(a, b) + s.subrange(b, c));
}

proof fn lemma_entries_push_ok(acc: Seq<(Seq<u8>, Term)>, k1: Seq<u8>, v1: Term)
    requires
        wf(v1),
        acc.len() > 0 ==> lex_lt(acc.last().0, k1),
        forall|k: int| 0 <= k < acc.len() ==> wf(#[trigger] acc[k].1),
        forall|k: int| 0 < k < acc.len() ==> lex_lt(acc[k - 1].0, #[trigger] acc[k].0),
    ensures
        forall|k: int| 0 <= k < acc.push((k1, v1)).len() ==> wf(#[trigger] acc.push((k1, v1))[k].1),
        forall|k: int| 0 < k < acc.push((k1, v1)).len() ==> lex_lt(acc.push((k1, v1))[k - 1].0, #[trigger] acc.push((k1, v1))[k].0),
{
    let acc2 = acc.push((k1, v1));
    assert forall|k: int| 0 <= k < acc2.len() implies wf(#[trigger] acc2[k].1) by {
        if k < acc.len() {
            assert(acc2[k] == acc[k]);
        }
    }
    assert forall|k: int| 0 < k < acc2.len() implies lex_lt(acc2[k - 1].0, #[trigger] acc2[k].0) by {
        if k < acc.len() {
            assert(acc2[k] == acc[k]);
            assert(acc2[k - 1] == acc[k - 1]);
        } else {
            assert(acc2[k - 1] == acc.last());
        }
    }
}

#[verifier::rlimit(60)]
proof fn lemma_dict_sound(s: Seq<u8>, pos: int, acc: Seq<(Seq<u8>, Term)>)
    requires
        0 <= pos <= s.len(),
        parse_dict(s, pos, acc) is Ok,
        forall|k: int| 0 <= k < acc.len() ==> wf(#[trigger] acc[k].1),
        forall|k: int| 0 < k < acc.len() ==> lex_lt(acc[k - 1].0, #[trigger] acc[k].0),
    ensures
        ({
            let (t, q) = parse_dict(s, pos, acc)->Ok_0;
            &&& pos < q <= s.len()
            &&& s[q - 1] == 101u8
            &&& t is Dict
            &&& t->Dict_0.len() >= acc.len()
            &&& t->Dict_0.subrange(0, acc.len() as int) == acc
            &&& forall|k: int| 0 <= k < t->Dict_0.len() ==> wf(#[trigger] t->Dict_0[k].1)
            &&& forall|k: int| 0 < k < t->Dict_0.len() ==> lex_lt(t->Dict_0[k - 1].0, #[trigger] t->Dict_0[k].0)
            &&& enc_entries(t->Dict_0, t->Dict_0.len() as int) == enc_entries(t->Dict_0, acc.len() as int) + s.subrange(pos, q - 1)
        }),
    decreases s.len() - pos, 1int,
{
    let (t, q) = parse_dict(s, pos, acc)->Ok_0;
    if s[pos] == 101u8 {
        assert(acc.subrange(0, acc.len() as int) =~= acc);
        assert(s.subrange(pos, q - 1) =~= Seq::<u8>::empty());
        assert(enc_entries(acc, acc.len() as int) + s.subrange(pos, q - 1) =~= enc_entries(acc, acc.len() as int));
    } else {
        lemma_str_sound(s, pos);
        let (k1, kq) = parse_str(s, pos)->Ok_0;
        lemma_value_sound(s, kq);
        let (v1, q1) = parse_value(s, kq)->Ok_0;
        let acc2 = acc.push((k1, v1));
        lemma_entries_push_ok(acc, k1, v1);
        lemma_dict_sound(s, q1, acc2);
        let es = t->Dict_0;
        let n = acc.len() as int;
        assert(es.subrange(0, n) =~= acc) by {
            assert forall|k: int| 0 <= k < n implies es.subrange(0, n)[k] == acc[k] by {
                assert(es.subrange(0, n + 1)[k] == acc2[k]);
            }
        }
        assert(es[n] == (k1, v1)) by {
            assert(es.subrange(0, n + 1)[n] == acc2[n]);
        }
        assert(enc_entries(es, n + 1) == enc_entries(es, n) + enc_str(k1) + enc(v1));
        lemma_subrange_split(s, pos, kq, q1);
        lemma_subrange_split(s, pos, q1, q - 1);
        assert(enc_entries(es, es.len() as int) =~= enc_entries(es, n) + s.subrange(pos, q - 1));
    }
}

/// Whatever decodes is well formed, and encodes back to exactly the bytes it was decoded from.
pub proof fn lemma_round_trip(s: Seq<u8>)
    requires
        parse_value(s, 0) is Ok,
    ensures
        wf(parse_value(s, 0)->Ok_0.0),
        enc(parse_value(s, 0)->Ok_0.0) == s.subrange(0, parse_value(s, 0)->Ok_0.1),
        0 < parse_value(s, 0)->Ok_0.1 <= s.len(),
        canon(parse_value(s, 0)->Ok_0.0) == parse_value(s, 0)->Ok_0.0,
{
    lemma_value_sound(s, 0);
    lemma_canon_wf(parse_value(s, 0)->Ok_0.0);
}

/// Keys of consecutive entries strictly increase.
pub open spec fn keys_ordered(es: Seq<(Vec<u8>, Value)>) -> bool {
    forall|k: int| 0 < k < es.len() ==> lex_lt(es[k - 1].0@, #[trigger] es[k].0@)
}

proof fn lemma_lex_total(a: Seq<u8>, b: Seq<u8>)
    requires
        a != b,
    ensures
        lex_lt(a, b) || lex_lt(b, a),
    decreases a.len(),
{
    if a.len() > 0 && b.len() > 0 && a[0] == b[0] {
        if a.drop_first() == b.drop_first() {
            assert(a =~= seq![a[0]] + a.drop_first());
            assert(b =~= seq![b[0]] + b.drop_first());
        }
        lemma_lex_total(a.drop_first(), b.drop_first());
    } else if a.len() == 0 && b.len() == 0 {
        assert(a =~= b);
    }
}

proof fn lemma_lex_irreflexive(a: Seq<u8>)
    ensures
        !lex_lt(a, a),
    decreases a.len(),
{
    if a.len() > 0 {
        lemma_lex_irreflexive(a.drop_first());
    }
}

proof fn lemma_lex_trans(a: Seq<u8>, b: Seq<u8>, c: Seq<u8>)
    requires
        lex_lt(a, b),
        lex_lt(b, c),
    ensures
        lex_lt(a, c),
    decreases a.len(),
{
    if a.len() > 0 && a[0] == b[0] && b[0] == c[0] {
        lemma_lex_trans(a.drop_first(), b.drop_first(), c.drop_first());
    }
}

/// In ordered entries, a key below the one at `i` is below every later one.
proof fn lemma_below_rest(es: Seq<(Vec<u8>, Value)>, key: Seq<u8>, i: int, j: int)
    requires
        keys_ordered(es),
        0 <= i <= j < es.len(),
        lex_lt(key, es[i].0@),
    ensures
        lex_lt(key, es[j].0@),
    decreases j - i,
{
    if j > i {
        lemma_below_rest(es, key, i, j - 1);
        lemma_lex_trans(key, es[j - 1].0@, es[j].0@);
    }
}

/// Puts `key` in a dictionary's ordered entries at its place in byte order, replacing the value
/// of an equal key; the entries stay ordered, whatever order the keys come in.
pub fn dict_insert(entries: &mut Vec<(Vec<u8>, Value)>, key: Vec<u8>, value: Value)
    requires
        keys_ordered(old(entries)@),
    ensures
        keys_ordered(final(entries)@),
        exists|i: int|
            0 <= i <= old(entries)@.len() && {
                ||| (i < old(entries)@.len() && old(entries)@[i].0@ == key@
                    && final(entries)@ == old(entries)@.update(i, (key, value)))
                ||| ((forall|j: int| 0 <= j < old(entries)@.len() ==> (#[trigger] old(entries)@[j]).0@ != key@)
                    && final(entries)@ == old(entries)@.insert(i, (key, value)))
            },
{
    let mut i: usize = 0;
    while i < entries.len() && bytes_lt(entries[i].0.as_slice(), key.as_slice())
        invariant
            i <= entries@.len(),
            forall|j: int| 0 <= j < i ==> lex_lt((#[trigger] entries@[j]).0@, key@),
        decreases entries@.len() - i,
    {
        i += 1;
    }
    let ghost before = entries@;
    if i < entries.len() && !bytes_lt(key.as_slice(), entries[i].0.as_slice()) {
        proof {
            if entries@[i as int].0@ != key@ {
                lemma_lex_total(entries@[i as int].0@, key@);
            }
        }
        let ghost pair = (key, value);
        entries.set(i, (key, value));
        proof {
            assert(entries@ == before.update(i as int, pair));
            assert forall|k: int| 0 < k < entries@.len() implies lex_lt(entries@[k - 1].0@, #[trigger] entries@[k].0@) by {
                assert(before[k - 1].0@ == entries@[k - 1].0@);
                assert(before[k].0@ == entries@[k].0@);
            }
        }
    } else {
        let ghost pair = (key, value);
        proof {
            lemma_lex_irreflexive(key@);
            if i < before.len() {
                if before[i as int].0@ != key@ {
                    lemma_lex_total(before[i as int].0@, key@);
                }
            }
            assert forall|j: int| 0 <= j < before.len() implies (#[trigger] before[j]).0@ != key@ by {
                if j >= i {
                    lemma_below_rest(before, key@, i as int, j);
                    lemma_lex_irreflexive(before[j].0@);
                }
            }
        }
        entries.insert(i, (key, value));
        proof {
            let after = entries@;
            assert forall|k: int| 0 < k < after.len() implies lex_lt(after[k - 1].0@, #[trigger] after[k].0@) by {
                if k < i {
                    assert(after[k] == before[k] && after[k - 1] == before[k - 1]);
                } else if k == i {
                    assert(after[k - 1] == before[k - 1]);
                } else if k == i + 1 {
                    assert(after[k] == before[k - 1]);
                } else {
                    assert(after[k] == before[k - 1] && after[k - 1] == before[k - 2]);
                }
            }
        }
    }
}

/// The value under `key` among a dictionary's entries: that of the first entry with the key.
pub open spec fn lookup(es: Seq<(Seq<u8>, Term)>, key: Seq<u8>) -> Option<Term>
    decreases es.len(),
{
    if es.len() == 0 {
        None
    } else if es[0].0 == key {
        Some(es[0].1)
    } else {
        lookup(es.drop_first(), key)
    }
}

/// Whether two byte strings are equal.
pub fn bytes_eq(a: &[u8], b: &[u8]) -> (r: bool)
    ensures
        r == (a@ == b@),
{
    if a.len() != b.len() {
        return false;
    }
    let mut i: usize = 0;
    while i < a.len()
        invariant
            i <= a@.len(),
            a@.len() == b@.len(),
            forall|j: int| 0 <= j < i ==> a@[j] == b@[j],
        decreases a@.len() - i,
    {
        if a[i] != b[i] {
            return false;
        }
        i += 1;
    }
    assert(a@ =~= b@);
    true
}

/// The value under `key` among a dictionary's entries.
pub fn dict_get<'a>(es: &'a Vec<(Vec<u8>, Value)>, key: &[u8]) -> (r: Option<&'a Value>)
    ensures
        match r {
            Some(v) => lookup(entry_terms(es@), key@) == Some(v.term()),
            None => lookup(entry_terms(es@), key@) is None,
        },
{
    let ghost all = entry_terms(es@);
    let mut k: usize = 0;
    assert(all.skip(0) =~= all);
    while k < es.len()
        invariant
            k <= es@.len(),
            all == entry_terms(es@),
            lookup(all, key@) == lookup(all.skip(k as int), key@),
        decreases es@.len() - k,
    {
        if bytes_eq(es[k].0.as_slice(), key) {
            assert(all.skip(k as int)[0] == all[k as int]);
            return Some(&es[k].1);
        }
        assert(all.skip(k as int).drop_first() =~= all.skip(k as int + 1));
        k += 1;
    }
    assert(all.skip(k as int).len() == 0);
    None
}

/// The model of a list is the models of its items.
pub proof fn lemma_list_term(items: Vec<Value>)
    ensures
        Value::List(items).term() == Term::List(terms(items@)),
{
    assert(Value::List(items).term()->List_0 =~= terms(items@));
}

/// The model of a dictionary is the models of its entries.
pub proof fn lemma_dict_term(es: Vec<(Vec<u8>, Value)>)
    ensures
        Value::Dict(es).term() == Term::Dict(entry_terms(es@)),
{
    assert(Value::Dict(es).term()->Dict_0 =~= entry_terms(es@));
}

/// Entries kept in order, as `dict_insert` keeps them, give a dictionary whose keys strictly
/// increase, as its encoding then shows and as decoding demands.
pub proof fn lemma_ordered_entries(es: Seq<(Vec<u8>, Value)>)
    requires
        keys_ordered(es),
    ensures
        forall|k: int| 0 < k < entry_terms(es).len() ==> lex_lt(entry_terms(es)[k - 1].0, #[trigger] entry_terms(es)[k].0),
{
    assert forall|k: int| 0 < k < entry_terms(es).len() implies lex_lt(entry_terms(es)[k - 1].0, #[trigger] entry_terms(es)[k].0) by {
        assert(lex_lt(es[k - 1].0@, es[k].0@));
    }
}

/// Byte strings short enough for their length to have at most 19 digits.
pub open spec fn bounded(t: Term) -> bool
    decreases t,
{
    match t {
        Term::Str(b) => b.len() < 10000000000000000000,
        Term::Int(_) => true,
        Term::List(items) => forall|k: int| 0 <= k < items.len() ==> bounded(#[trigger] items[k]),
        Term::Dict(es) => forall|k: int| 0 <= k < es.len() ==> es[k].0.len() < 10000000000000000000 && bounded(#[trigger] es[k].1),
    }
}

proof fn lemma_digits_val_shift(s: Seq<u8>, a: int, b: int)
    requires
        0 <= a <= b <= s.len(),
    ensures
        digits_val(s, a, b) == digits_val(s.subrange(a, b), 0, b - a),
    decreases b - a,
{
    if b > a {
        lemma_digits_val_shift(s, a, b - 1);
        lemma_digits_val_ext(s.subrange(a, b - 1), s.subrange(a, b), 0, b - 1 - a);
    }
}

proof fn lemma_digits_val_ext(s1: Seq<u8>, s2: Seq<u8>, a: int, b: int)
    requires
        0 <= a <= b <= s1.len(),
        b <= s2.len(),
        forall|k: int| a <= k < b ==> s1[k] == s2[k],
    ensures
        digits_val(s1, a, b) == digits_val(s2, a, b),
    decreases b - a,
{
    if b > a {
        lemma_digits_val_ext(s1, s2, a, b - 1);
    }
}

/// The decimal digits of `n` are digits, without a leading zero, read back as `n`, and at
/// most `k` of them where `n < 10^k`.
proof fn lemma_enc_nat(n: nat, k: nat)
    requires
        n < pow10(k),
        k >= 1,
    ensures
        enc_nat(n).len() >= 1,
        enc_nat(n).len() <= k,
        forall|j: int| 0 <= j < enc_nat(n).len() ==> is_digit(#[trigger] enc_nat(n)[j]),
        enc_nat(n)[0] == 48u8 ==> n == 0 && enc_nat(n).len() == 1,
        digits_val(enc_nat(n), 0, enc_nat(n).len() as int) == n,
    decreases n,
{
    let e = enc_nat(n);
    if n < 10 {
        if k == 0 {
            assert(pow10(0) == 1);
        }
        assert(digits_val(e, 0, 0) == 0);
    } else {
        let m = n / 10;
        if k == 1 {
            assert(pow10(1) == 10 * pow10(0));
        }
        assert(pow10(k) == 10 * pow10((k - 1) as nat));
        assert(m < pow10((k - 1) as nat)) by (nonlinear_arith)
            requires m == n / 10, n < 10 * pow10((k - 1) as nat);
        lemma_enc_nat(m, (k - 1) as nat);
        let p = enc_nat(m);
        assert(e == p.push((48 + n % 10) as u8));
        assert(m >= 1);
        lemma_digits_val_ext(p, e, 0, p.len() as int);
        assert(n == m * 10 + n % 10);
        assert forall|j: int| 0 <= j < e.len() implies is_digit(#[trigger] e[j]) by {
            if j < p.len() {
                assert(e[j] == p[j]);
            }
        }
        assert(e[0] == p[0]);
    }
}

proof fn lemma_digit_end_at(s: Seq<u8>, pos: int, end: int)
    requires
        0 <= pos <= end < s.len(),
        forall|j: int| pos <= j < end ==> is_digit(#[trigger] s[j]),
        !is_digit(s[end]),
    ensures
        digit_end(s, pos) == end,
    decreases end - pos,
{
    if pos < end {
        lemma_digit_end_at(s, pos + 1, end);
    }
}

/// A decimal number followed by `stop`, a byte other than a digit, read at `pos`.
proof fn lemma_read_number(s: Seq<u8>, pos: int, n: nat, stop: u8)
    requires
        n < 10000000000000000000,
        0 <= pos,
        pos + enc_nat(n).len() < s.len(),
        s.subrange(pos, pos + enc_nat(n).len()) == enc_nat(n),
        s[pos + enc_nat(n).len()] == stop,
        !is_digit(stop),
    ensures
        digit_end(s, pos) == pos + enc_nat(n).len(),
        enc_nat(n).len() <= MAX_DIGITS,
        digits_val(s, pos, pos + enc_nat(n).len()) == n,
        s[pos] == 48u8 ==> n == 0 && enc_nat(n).len() == 1,
{
    let e = enc_nat(n);
    let end = pos + e.len();
    reveal_with_fuel(pow10, 20);
    lemma_enc_nat(n, 19);
    assert forall|j: int| pos <= j < end implies is_digit(#[trigger] s[j]) by {
        assert(s.subrange(pos, end)[j - pos] == s[j]);
    }
    lemma_digit_end_at(s, pos, end);
    lemma_digits_val_shift(s, pos, end);
    assert(s[pos] == s.subrange(pos, end)[0]);
}

/// `s` holds `x` from `pos` on.
pub open spec fn holds(s: Seq<u8>, pos: int, x: Seq<u8>) -> bool {
    0 <= pos && pos + x.len() <= s.len() && s.subrange(pos, pos + x.len()) == x
}

proof fn lemma_holds_split(s: Seq<u8>, pos: int, x: Seq<u8>, y: Seq<u8>)
    requires
        holds(s, pos, x + y),
    ensures
        holds(s, pos, x),
        holds(s, pos + x.len(), y),
{
    let whole = s.subrange(pos, pos + (x + y).len());
    assert forall|j: int| 0 <= j < x.len() implies #[trigger] s.subrange(pos, pos + x.len())[j] == x[j] by {
        assert(whole[j] == (x + y)[j]);
    }
    assert forall|j: int| 0 <= j < y.len() implies #[trigger] s.subrange(pos + x.len(), pos + x.len() + y.len())[j] == y[j] by {
        assert(whole[x.len() + j] == (x + y)[x.len() + j]);
    }
    assert(s.subrange(pos, pos + x.len()) =~= x);
    assert(s.subrange(pos + x.len(), pos + x.len() + y.len()) =~= y);
}

proof fn lemma_enc_items_prefix(items: Seq<Term>, n: int, m: int)
    requires
        0 <= n <= m <= items.len(),
    ensures
        enc_items(items, n).len() <= enc_items(items, m).len(),
        enc_items(items, m).subrange(0, enc_items(items, n).len() as int) == enc_items(items, n),
    decreases m - n,
{
    if n < m {
        lemma_enc_items_prefix(items, n, m - 1);
        let a = enc_items(items, m - 1);
        assert(enc_items(items, m) == a + enc(items[m - 1]));
        assert(enc_items(items, m).subrange(0, enc_items(items, n).len() as int) =~= a.subrange(0, enc_items(items, n).len() as int));
    } else {
        assert(enc_items(items, m).subrange(0, enc_items(items, n).len() as int) =~= enc_items(items, n));
    }
}

proof fn lemma_enc_entries_prefix(es: Seq<(Seq<u8>, Term)>, n: int, m: int)
    requires
        0 <= n <= m <= es.len(),
    ensures
        enc_entries(es, n).len() <= enc_entries(es, m).len(),
        enc_entries(es, m).subrange(0, enc_entries(es, n).len() as int) == enc_entries(es, n),
    decreases m - n,
{
    if n < m {
        lemma_enc_entries_prefix(es, n, m - 1);
        let a = enc_entries(es, m - 1);
        assert(enc_entries(es, m) == a + enc_str(es[m - 1].0) + enc(es[m - 1].1));
        assert(enc_entries(es, m).subrange(0, enc_entries(es, n).len() as int) =~= a.subrange(0, enc_entries(es, n).len() as int));
    } else {
        assert(enc_entries(es, m).subrange(0, enc_entries(es, n).len() as int) =~= enc_entries(es, n));
    }
}

/// An encoding never starts with the byte that ends a list or a dictionary.
proof fn lemma_enc_first(t: Term)
    ensures
        enc(t).len() >= 1,
        enc(t)[0] != 101u8,
{
    match t {
        Term::Str(b) => {
            lemma_pow10_exceeds(b.len());
            lemma_enc_nat(b.len(), b.len() + 1);
            assert(enc(t)[0] == enc_nat(b.len())[0]);
        },
        _ => {},
    }
}

proof fn lemma_pow10_exceeds(n: nat)
    ensures
        n < pow10(n + 1),
    decreases n,
{
    if n > 0 {
        lemma_pow10_exceeds((n - 1) as nat);
        assert(pow10(n + 1) == 10 * pow10(n));
    } else {
        assert(pow10(1) == 10 * pow10(0));
    }
}

proof fn lemma_str_complete(s: Seq<u8>, pos: int, b: Seq<u8>)
    requires
        b.len() < 10000000000000000000,
        holds(s, pos, enc_str(b)),
    ensures
        parse_str(s, pos) == Ok::<(Seq<u8>, int), DecodeError>((b, pos + enc_str(b).len())),
{
    let e = enc_nat(b.len());
    lemma_holds_split(s, pos, e + seq![58u8], b);
    lemma_holds_split(s, pos, e, seq![58u8]);
    assert(s[pos + e.len()] == s.subrange(pos + e.len(), pos + e.len() + 1)[0]);
    lemma_read_number(s, pos, b.len(), 58u8);
}

proof fn lemma_value_complete(s: Seq<u8>, pos: int, t: Term)
    requires
        wf(t),
        bounded(t),
        holds(s, pos, enc(t)),
    ensures
        parse_value(s, pos) == Ok::<(Term, int), DecodeError>((t, pos + enc(t).len())),
    decreases t, 0int,
{
    lemma_enc_first(t);
    assert(s[pos] == s.subrange(pos, pos + enc(t).len())[0]);
    match t {
        Term::Str(b) => {
            lemma_str_complete(s, pos, b);
            lemma_pow10_exceeds(b.len());
            lemma_enc_nat(b.len(), b.len() + 1);
            assert(enc(t)[0] == enc_nat(b.len())[0]);
        },
        Term::Int(i) => {
            let body = enc_int(i);
            let m: nat = if i < 0 { (-i) as nat } else { i as nat };
            let digits = enc_nat(m);
            reveal_with_fuel(pow10, 20);
            lemma_enc_nat(m, 19);
            lemma_holds_split(s, pos, seq![105u8] + body, seq![101u8]);
            lemma_holds_split(s, pos, seq![105u8], body);
            let q = if i < 0 { pos + 2 } else { pos + 1 };
            if i < 0 {
                assert(body == seq![45u8] + digits);
                lemma_holds_split(s, pos + 1, seq![45u8], digits);
                assert(s[pos + 1] == s.subrange(pos + 1, pos + 2)[0]);
            } else {
                assert(s[pos + 1] == s.subrange(pos + 1, pos + 1 + body.len())[0]);
                assert(is_digit(digits[0]));
            }
            assert(s[q + digits.len()] == s.subrange(pos + 1 + body.len(), pos + 2 + body.len())[0]);
            lemma_read_number(s, q, m, 101u8);
        },
        Term::List(items) => {
            let f = enc_items(items, items.len() as int);
            assert(enc(t) =~= seq![108u8] + (f + seq![101u8]));
            lemma_holds_split(s, pos, seq![108u8], f + seq![101u8]);
            assert(enc_items(items, 0) == Seq::<u8>::empty());
            assert(f.subrange(0, f.len() as int) =~= f);
            lemma_list_complete(s, pos + 1, items, 0);
            assert(items.take(0) =~= Seq::<Term>::empty());
        },
        Term::Dict(es) => {
            let f = enc_entries(es, es.len() as int);
            assert(enc(t) =~= seq![100u8] + (f + seq![101u8]));
            lemma_holds_split(s, pos, seq![100u8], f + seq![101u8]);
            assert(enc_entries(es, 0) == Seq::<u8>::empty());
            assert(f.subrange(0, f.len() as int) =~= f);
            lemma_dict_complete(s, pos + 1, es, 0);
            assert(es.take(0) =~= Seq::<(Seq<u8>, Term)>::empty());
        },
    }
}

#[verifier::rlimit(60)]
proof fn lemma_list_complete(s: Seq<u8>, pos: int, items: Seq<Term>, n: int)
    requires
        0 <= n <= items.len(),
        forall|k: int| 0 <= k < items.len() ==> wf(#[trigger] items[k]) && bounded(items[k]),
        holds(s, pos, enc_items(items, items.len() as int).subrange(enc_items(items, n).len() as int, enc_items(items, items.len() as int).len() as int) + seq![101u8]),
    ensures
        parse_list(s, pos, items.take(n)) == Ok::<(Term, int), DecodeError>((Term::List(items), pos
            + (enc_items(items, items.len() as int).len() - enc_items(items, n).len()) + 1)),
    decreases items, items.len() - n,
{
    let f = enc_items(items, items.len() as int);
    let a = enc_items(items, n);
    lemma_enc_items_prefix(items, n, items.len() as int);
    let rest = f.subrange(a.len() as int, f.len() as int);
    lemma_holds_split(s, pos, rest, seq![101u8]);
    if n == items.len() {
        assert(rest.len() == 0);
        assert(s[pos] == s.subrange(pos, pos + 1)[0]);
        assert(items.take(n) =~= items);
    } else {
        let x = items[n];
        let a1 = enc_items(items, n + 1);
        assert(a1 == a + enc(x));
        lemma_enc_items_prefix(items, n + 1, items.len() as int);
        assert(rest =~= enc(x) + f.subrange(a1.len() as int, f.len() as int)) by {
            assert(f.subrange(0, a1.len() as int) == a1);
            assert forall|j: int| 0 <= j < rest.len() implies rest[j] == (enc(x) + f.subrange(a1.len() as int, f.len() as int))[j] by {
                if j < enc(x).len() {
                    assert(f.subrange(0, a1.len() as int)[a.len() + j] == a1[a.len() + j]);
                }
            }
        }
        assert(rest + seq![101u8] =~= enc(x) + (f.subrange(a1.len() as int, f.len() as int) + seq![101u8]));
        lemma_holds_split(s, pos, enc(x), f.subrange(a1.len() as int, f.len() as int) + seq![101u8]);
        lemma_value_complete(s, pos, x);
        lemma_enc_first(x);
        assert(s[pos] == s.subrange(pos, pos + enc(x).len())[0]);
        assert(items.take(n).push(x) =~= items.take(n + 1));
        lemma_list_complete(s, pos + enc(x).len(), items, n + 1);
    }
}

/// The encoding of the entries from `n` on: entry `n`, then those after it.
proof fn lemma_entries_rest(es: Seq<(Seq<u8>, Term)>, n: int) -> (tail: Seq<u8>)
    requires
        0 <= n < es.len(),
    ensures
        ({
            let f = enc_entries(es, es.len() as int);
            let a = enc_entries(es, n);
            let a1 = enc_entries(es, n + 1);
            &&& tail == f.subrange(a1.len() as int, f.len() as int)
            &&& a.len() <= a1.len() <= f.len()
            &&& f.subrange(a.len() as int, f.len() as int) == enc_str(es[n].0) + enc(es[n].1) + tail
            &&& a1.len() == a.len() + enc_str(es[n].0).len() + enc(es[n].1).len()
        }),
{
    let f = enc_entries(es, es.len() as int);
    let a = enc_entries(es, n);
    let a1 = enc_entries(es, n + 1);
    let ks = enc_str(es[n].0);
    let ev = enc(es[n].1);
    assert(a1 == a + ks + ev);
    lemma_enc_entries_prefix(es, n + 1, es.len() as int);
    let tail = f.subrange(a1.len() as int, f.len() as int);
    let rest = f.subrange(a.len() as int, f.len() as int);
    assert forall|j: int| 0 <= j < rest.len() implies rest[j] == (ks + ev + tail)[j] by {
        if j < ks.len() + ev.len() {
            assert(f.subrange(0, a1.len() as int)[a.len() + j] == a1[a.len() + j]);
        }
    }
    assert(rest =~= ks + ev + tail);
    tail
}

#[verifier::rlimit(60)]
proof fn lemma_dict_complete(s: Seq<u8>, pos: int, es: Seq<(Seq<u8>, Term)>, n: int)
    requires
        0 <= n <= es.len(),
        forall|k: int| 0 <= k < es.len() ==> wf(#[trigger] es[k].1) && bounded(es[k].1) && es[k].0.len() < 10000000000000000000,
        forall|k: int| 0 < k < es.len() ==> lex_lt(es[k - 1].0, #[trigger] es[k].0),
        holds(s, pos, enc_entries(es, es.len() as int).subrange(enc_entries(es, n).len() as int, enc_entries(es, es.len() as int).len() as int) + seq![101u8]),
    ensures
        parse_dict(s, pos, es.take(n)) == Ok::<(Term, int), DecodeError>((Term::Dict(es), pos
            + (enc_entries(es, es.len() as int).len() - enc_entries(es, n).len()) + 1)),
    decreases es, es.len() - n,
{
    let f = enc_entries(es, es.len() as int);
    let a = enc_entries(es, n);
    lemma_enc_entries_prefix(es, n, es.len() as int);
    let rest = f.subrange(a.len() as int, f.len() as int);
    lemma_holds_split(s, pos, rest, seq![101u8]);
    if n == es.len() {
        assert(rest.len() == 0);
        assert(s[pos] == s.subrange(pos, pos + 1)[0]);
        assert(es.take(n) =~= es);
    } else {
        let (k, v) = es[n];
        let ks = enc_str(k);
        let tail = lemma_entries_rest(es, n);
        assert(rest + seq![101u8] =~= ks + (enc(v) + (tail + seq![101u8])));
        lemma_holds_split(s, pos, ks, enc(v) + (tail + seq![101u8]));
        lemma_holds_split(s, pos + ks.len(), enc(v), tail + seq![101u8]);
        lemma_str_complete(s, pos, k);
        lemma_value_complete(s, pos + ks.len(), v);
        lemma_pow10_exceeds(k.len());
        lemma_enc_nat(k.len(), k.len() + 1);
        assert(s[pos] == s.subrange(pos, pos + ks.len())[0]);
        assert(ks[0] == enc_nat(k.len())[0]);
        if n > 0 {
            assert(es.take(n).last() == es[n - 1]);
        }
        assert(es.take(n).push((k, v)) =~= es.take(n + 1));
        lemma_dict_complete(s, pos + ks.len() + enc(v).len(), es, n + 1);
    }
}

/// Decoding the encoding of a well-formed value, whatever follows it, gives the value back and
/// reads exactly its encoding.
pub proof fn lemma_decode_encoded(t: Term, rest: Seq<u8>)
    requires
        wf(t),
        bounded(t),
    ensures
        parse_value(enc(t) + rest, 0) == Ok::<(Term, int), DecodeError>((t, enc(t).len() as int)),
{
    let s = enc(t) + rest;
    assert(s.subrange(0, enc(t).len() as int) =~= enc(t));
    lemma_value_complete(s, 0, t);
}

proof fn lemma_lex_asym(a: Seq<u8>, b: Seq<u8>)
    requires
        lex_lt(a, b),
    ensures
        !lex_lt(b, a),
    decreases a.len(),
{
    if a.len() > 0 && b.len() > 0 && a[0] == b[0] {
        lemma_lex_asym(a.drop_first(), b.drop_first());
    }
}

/// Inserting before the first greater key is inserting at that position.
proof fn lemma_ins_entry_at(es: Seq<(Seq<u8>, Term)>, e: (Seq<u8>, Term), p: int)
    requires
        0 <= p <= es.len(),
        forall|j: int| 0 <= j < p ==> !lex_lt(e.0, #[trigger] es[j].0),
        p < es.len() ==> lex_lt(e.0, es[p].0),
    ensures
        ins_entry(es, e) == es.insert(p, e),
    decreases es.len(),
{
    if es.len() == 0 {
        assert(ins_entry(es, e) =~= es.insert(p, e));
    } else if p == 0 {
        assert(ins_entry(es, e) =~= es.insert(p, e));
    } else {
        assert(!lex_lt(e.0, es[0].0));
        let rest = es.drop_first();
        assert forall|j: int| 0 <= j < p - 1 implies !lex_lt(e.0, #[trigger] rest[j].0) by {
            assert(rest[j] == es[j + 1]);
        }
        lemma_ins_entry_at(rest, e, p - 1);
        assert(ins_entry(es, e) =~= es.insert(p, e));
    }
}

/// Entries already in strictly increasing key order stay as they are.
proof fn lemma_sort_sorted(es: Seq<(Seq<u8>, Term)>)
    requires
        forall|k: int| 0 < k < es.len() ==> lex_lt(es[k - 1].0, #[trigger] es[k].0),
    ensures
        sort_entries(es) == es,
    decreases es.len(),
{
    if es.len() > 0 {
        let init = es.drop_last();
        let e = es.last();
        assert forall|k: int| 0 < k < init.len() implies lex_lt(init[k - 1].0, #[trigger] init[k].0) by {
            assert(init[k] == es[k] && init[k - 1] == es[k - 1]);
        }
        lemma_sort_sorted(init);
        assert forall|j: int| 0 <= j < init.len() implies !lex_lt(e.0, #[trigger] init[j].0) by {
            lemma_entries_below_last(es, j);
            lemma_lex_asym(es[j].0, e.0);
        }
        lemma_ins_entry_at(init, e, init.len() as int);
        assert(init.insert(init.len() as int, e) =~= es);
    }
}

proof fn lemma_entries_below_last(es: Seq<(Seq<u8>, Term)>, j: int)
    requires
        forall|k: int| 0 < k < es.len() ==> lex_lt(es[k - 1].0, #[trigger] es[k].0),
        0 <= j < es.len() - 1,
    ensures
        lex_lt(es[j].0, es[es.len() - 1].0),
    decreases es.len() - j,
{
    if j < es.len() - 2 {
        lemma_entries_below_last(es, j + 1);
        lemma_lex_trans(es[j].0, es[j + 1].0, es[es.len() - 1].0);
    }
}

/// A well-formed value is its own canonical form.
pub proof fn lemma_canon_wf(t: Term)
    requires
        wf(t),
    ensures
        canon(t) == t,
    decreases t,
{
    match t {
        Term::Str(_) => {},
        Term::Int(_) => {},
        Term::List(items) => {
            assert forall|k: int| 0 <= k < items.len() implies canon(#[trigger] items[k]) == items[k] by {
                lemma_canon_wf(items[k]);
            }
            assert(canon_items(items) =~= items);
        },
        Term::Dict(es) => {
            let mapped = canon_entries(es);
            assert forall|k: int| 0 <= k < es.len() implies canon(#[trigger] es[k].1) == es[k].1 by {
                lemma_canon_wf(es[k].1);
            }
            assert(mapped =~= es);
            lemma_sort_sorted(es);
        },
    }
}

/// No two entries share a key.
pub open spec fn keys_distinct(es: Seq<(Seq<u8>, Term)>) -> bool {
    forall|i: int, j: int| 0 <= i < j < es.len() ==> es[i].0 != es[j].0
}

/// Keys of consecutive entries strictly increase.
pub open spec fn strictly_sorted(es: Seq<(Seq<u8>, Term)>) -> bool {
    forall|k: int| 0 < k < es.len() ==> lex_lt(es[k - 1].0, #[trigger] es[k].0)
}

/// The first position whose key is greater than `key`, or the length.
pub open spec fn first_greater(es: Seq<(Seq<u8>, Term)>, key: Seq<u8>, from: int) -> int
    decreases es.len() - from,
{
    if from < 0 || from >= es.len() {
        es.len() as int
    } else if lex_lt(key, es[from].0) {
        from
    } else {
        first_greater(es, key, from + 1)
    }
}

proof fn lemma_first_greater(es: Seq<(Seq<u8>, Term)>, key: Seq<u8>, from: int)
    requires
        0 <= from <= es.len(),
        forall|j: int| 0 <= j < from ==> !lex_lt(key, #[trigger] es[j].0),
    ensures
        from <= first_greater(es, key, from) <= es.len(),
        forall|j: int| 0 <= j < first_greater(es, key, from) ==> !lex_lt(key, #[trigger] es[j].0),
        first_greater(es, key, from) < es.len() ==> lex_lt(key, es[first_greater(es, key, from)].0),
    decreases es.len() - from,
{
    if from < es.len() && !lex_lt(key, es[from].0) {
        lemma_first_greater(es, key, from + 1);
    }
}

/// Sorting entries with distinct keys leaves them in strictly increasing key order, each one an
/// entry of the input.
proof fn lemma_sort_entries_sorted(es: Seq<(Seq<u8>, Term)>)
    requires
        keys_distinct(es),
    ensures
        strictly_sorted(sort_entries(es)),
        sort_entries(es).len() == es.len(),
        forall|x: int| 0 <= x < sort_entries(es).len() ==> exists|j: int| 0 <= j < es.len() && #[trigger] sort_entries(es)[x] == es[j],
    decreases es.len(),
{
    if es.len() > 0 {
        let init = es.drop_last();
        let e = es.last();
        assert(keys_distinct(init)) by {
            assert forall|i: int, j: int| 0 <= i < j < init.len() implies init[i].0 != init[j].0 by {
                assert(init[i] == es[i] && init[j] == es[j]);
            }
        }
        lemma_sort_entries_sorted(init);
        let xs = sort_entries(init);
        lemma_first_greater(xs, e.0, 0);
        let p = first_greater(xs, e.0, 0);
        lemma_ins_entry_at(xs, e, p);
        let ys = xs.insert(p, e);
        assert forall|x: int| 0 <= x < xs.len() implies xs[x].0 != e.0 by {
            let j = choose|j: int| 0 <= j < init.len() && xs[x] == init[j];
            assert(init[j] == es[j]);
        }
        assert forall|k: int| 0 < k < ys.len() implies lex_lt(ys[k - 1].0, #[trigger] ys[k].0) by {
            if k < p {
                assert(ys[k] == xs[k] && ys[k - 1] == xs[k - 1]);
            } else if k == p {
                assert(ys[k - 1] == xs[k - 1]);
                lemma_lex_total(xs[k - 1].0, e.0);
            } else if k == p + 1 {
                assert(ys[k] == xs[k - 1]);
            } else {
                assert(ys[k] == xs[k - 1] && ys[k - 1] == xs[k - 2]);
            }
        }
        assert forall|x: int| 0 <= x < ys.len() implies exists|j: int| 0 <= j < es.len() && #[trigger] ys[x] == es[j] by {
            if x == p {
                assert(ys[x] == es[es.len() - 1]);
            } else {
                let xi = if x < p { x } else { x - 1 };
                assert(ys[x] == xs[xi]);
                let j = choose|j: int| 0 <= j < init.len() && xs[xi] == init[j];
                assert(init[j] == es[j]);
            }
        }
    }
}

/// However a dictionary's entries were put in, its encoding gives their keys in strictly
/// increasing order, provided no two share a key.
pub proof fn lemma_encoded_keys_increase(es: Seq<(Seq<u8>, Term)>)
    requires
        keys_distinct(es),
    ensures
        canon(Term::Dict(es)) matches Term::Dict(sorted) && strictly_sorted(sorted),
{
    let cs = canon_entries(es);
    assert(keys_distinct(cs)) by {
        assert forall|i: int, j: int| 0 <= i < j < cs.len() implies cs[i].0 != cs[j].0 by {
            assert(cs[i].0 == es[i].0 && cs[j].0 == es[j].0);
        }
    }
    lemma_sort_entries_sorted(cs);
}

} // verus!
