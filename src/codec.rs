//! The token codec: an operation list as a short, URL-safe string.
//!
//! A token is the lowercase hexadecimal form of a byte string. The first byte
//! is the format version; each operation follows as a tag byte and its fields,
//! with integers in big-endian order:
//! resize `[0, width(4), height(4), kernel]`, watermark `[1, x(4), y(4)]`,
//! colour filter `[2, preset]`.
use vstd::prelude::*;
use crate::ops::{valid_op, valid_ops, FilterKind, ImageSpec, Operation, ResamplingFilter};

verus! {

/// Why a token was rejected.
#[derive(Clone, Copy, Debug, PartialEq, Eq, Structural)]
pub enum DecodeError {
    /// The token holds no characters.
    Empty,
    /// The token has an odd length or a character that is not a lowercase hex digit.
    InvalidEncoding,
    /// The first byte names a format version other than this one.
    UnsupportedVersion,
    /// An operation's fields run past the end of the token.
    Truncated,
    /// A tag byte names no known operation.
    UnsupportedOperation,
    /// A kernel or preset byte is out of range.
    InvalidFilter,
    /// A resize asks for a zero width or height.
    InvalidDimension,
}

pub const FORMAT_VERSION: u8 = 1;

pub const TAG_RESIZE: u8 = 0;

pub const TAG_WATERMARK: u8 = 1;

pub const TAG_COLOR_FILTER: u8 = 2;

pub open spec fn hex_char(n: u8) -> char {
    if n == 0 {
        '0'
    } else if n == 1 {
        '1'
    } else if n == 2 {
        '2'
    } else if n == 3 {
        '3'
    } else if n == 4 {
        '4'
    } else if n == 5 {
        '5'
    } else if n == 6 {
        '6'
    } else if n == 7 {
        '7'
    } else if n == 8 {
        '8'
    } else if n == 9 {
        '9'
    } else if n == 10 {
        'a'
    } else if n == 11 {
        'b'
    } else if n == 12 {
        'c'
    } else if n == 13 {
        'd'
    } else if n == 14 {
        'e'
    } else {
        'f'
    }
}

pub open spec fn hex_value(c: char) -> Option<u8> {
    if c == '0' {
        Some(0u8)
    } else if c == '1' {
        Some(1u8)
    } else if c == '2' {
        Some(2u8)
    } else if c == '3' {
        Some(3u8)
    } else if c == '4' {
        Some(4u8)
    } else if c == '5' {
        Some(5u8)
    } else if c == '6' {
        Some(6u8)
    } else if c == '7' {
        Some(7u8)
    } else if c == '8' {
        Some(8u8)
    } else if c == '9' {
        Some(9u8)
    } else if c == 'a' {
        Some(10u8)
    } else if c == 'b' {
        Some(11u8)
    } else if c == 'c' {
        Some(12u8)
    } else if c == 'd' {
        Some(13u8)
    } else if c == 'e' {
        Some(14u8)
    } else if c == 'f' {
        Some(15u8)
    } else {
        None
    }
}

/// Two lowercase hex digits per byte, high nibble first.
pub open spec fn hex_of(b: Seq<u8>) -> Seq<char> {
    Seq::new(
        2 * b.len(),
        |i: int|
            if i % 2 == 0 {
                hex_char((b[i / 2] / 16) as u8)
            } else {
                hex_char((b[i / 2] % 16) as u8)
            },
    )
}

pub open spec fn is_hex_token(t: Seq<char>) -> bool {
    t.len() % 2 == 0 && forall|i: int| 0 <= i < t.len() ==> (#[trigger] hex_value(t[i])).is_some()
}

pub open spec fn bytes_of_hex(t: Seq<char>) -> Seq<u8> {
    Seq::new(
        t.len() / 2,
        |i: int| (hex_value(t[2 * i]).unwrap() * 16 + hex_value(t[2 * i + 1]).unwrap()) as u8,
    )
}

pub open spec fn resampling_code(f: ResamplingFilter) -> u8 {
    match f {
        ResamplingFilter::Nearest => 0,
        ResamplingFilter::Triangle => 1,
        ResamplingFilter::CatmullRom => 2,
        ResamplingFilter::Gaussian => 3,
        ResamplingFilter::Lanczos3 => 4,
    }
}

pub open spec fn resampling_of_code(c: u8) -> Option<ResamplingFilter> {
    if c == 0 {
        Some(ResamplingFilter::Nearest)
    } else if c == 1 {
        Some(ResamplingFilter::Triangle)
    } else if c == 2 {
        Some(ResamplingFilter::CatmullRom)
    } else if c == 3 {
        Some(ResamplingFilter::Gaussian)
    } else if c == 4 {
        Some(ResamplingFilter::Lanczos3)
    } else {
        None
    }
}

pub open spec fn filter_kind_code(k: FilterKind) -> u8 {
    match k {
        FilterKind::Oceanic => 0,
        FilterKind::Islands => 1,
        FilterKind::Marine => 2,
        FilterKind::Seagreen => 3,
        FilterKind::Vintage => 4,
    }
}

pub open spec fn filter_kind_of_code(c: u8) -> Option<FilterKind> {
    if c == 0 {
        Some(FilterKind::Oceanic)
    } else if c == 1 {
        Some(FilterKind::Islands)
    } else if c == 2 {
        Some(FilterKind::Marine)
    } else if c == 3 {
        Some(FilterKind::Seagreen)
    } else if c == 4 {
        Some(FilterKind::Vintage)
    } else {
        None
    }
}

pub open spec fn be_bytes(v: u32) -> Seq<u8> {
    seq![(v >> 24u32) as u8, (v >> 16u32) as u8, (v >> 8u32) as u8, v as u8]
}

pub open spec fn be_value(a: u8, b: u8, c: u8, d: u8) -> u32 {
    ((a as u32) << 24u32) | ((b as u32) << 16u32) | ((c as u32) << 8u32) | (d as u32)
}

/// The big-endian `u32` that starts at index `i`.
pub open spec fn be_at(b: Seq<u8>, i: int) -> u32 {
    be_value(b[i], b[i + 1], b[i + 2], b[i + 3])
}

pub open spec fn op_bytes(op: Operation) -> Seq<u8> {
    match op {
        Operation::Resize { width, height, filter } => seq![TAG_RESIZE] + be_bytes(width)
            + be_bytes(height) + seq![resampling_code(filter)],
        Operation::Watermark { x, y } => seq![TAG_WATERMARK] + be_bytes(x) + be_bytes(y),
        Operation::ColorFilter { kind } => seq![TAG_COLOR_FILTER, filter_kind_code(kind)],
    }
}

pub open spec fn ops_bytes(ops: Seq<Operation>) -> Seq<u8>
    decreases ops.len(),
{
    if ops.len() == 0 {
        seq![]
    } else {
        ops_bytes(ops.drop_last()) + op_bytes(ops.last())
    }
}

/// The token that `encode` writes for a list of operations.
pub open spec fn encode_spec(ops: Seq<Operation>) -> Seq<char> {
    hex_of(seq![FORMAT_VERSION] + ops_bytes(ops))
}

pub open spec fn prepend(
    prefix: Seq<Operation>,
    r: Result<Seq<Operation>, DecodeError>,
) -> Result<Seq<Operation>, DecodeError> {
    match r {
        Ok(s) => Ok(prefix + s),
        Err(e) => Err(e),
    }
}

/// Reads operations from the front of `b` until it is used up.
pub open spec fn parse_ops(b: Seq<u8>) -> Result<Seq<Operation>, DecodeError>
    decreases b.len(),
{
    if b.len() == 0 {
        Ok(seq![])
    } else if b[0] == TAG_RESIZE {
        if b.len() < 10 {
            Err(DecodeError::Truncated)
        } else if resampling_of_code(b[9]).is_none() {
            Err(DecodeError::InvalidFilter)
        } else if be_at(b, 1) == 0 || be_at(b, 5) == 0 {
            Err(DecodeError::InvalidDimension)
        } else {
            prepend(
                seq![
                    Operation::Resize {
                        width: be_at(b, 1),
                        height: be_at(b, 5),
                        filter: resampling_of_code(b[9]).unwrap(),
                    },
                ],
                parse_ops(b.skip(10)),
            )
        }
    } else if b[0] == TAG_WATERMARK {
        if b.len() < 9 {
            Err(DecodeError::Truncated)
        } else {
            prepend(
                seq![Operation::Watermark { x: be_at(b, 1), y: be_at(b, 5) }],
                parse_ops(b.skip(9)),
            )
        }
    } else if b[0] == TAG_COLOR_FILTER {
        if b.len() < 2 {
            Err(DecodeError::Truncated)
        } else if filter_kind_of_code(b[1]).is_none() {
            Err(DecodeError::InvalidFilter)
        } else {
            prepend(
                seq![Operation::ColorFilter { kind: filter_kind_of_code(b[1]).unwrap() }],
                parse_ops(b.skip(2)),
            )
        }
    } else {
        Err(DecodeError::UnsupportedOperation)
    }
}

/// What `decode` returns for a token.
pub open spec fn decode_spec(t: Seq<char>) -> Result<Seq<Operation>, DecodeError> {
    if t.len() == 0 {
        Err(DecodeError::Empty)
    } else if !is_hex_token(t) {
        Err(DecodeError::InvalidEncoding)
    } else if bytes_of_hex(t)[0] != FORMAT_VERSION {
        Err(DecodeError::UnsupportedVersion)
    } else {
        parse_ops(bytes_of_hex(t).drop_first())
    }
}

proof fn lemma_prepend_twice(
    a: Seq<Operation>,
    b: Seq<Operation>,
    r: Result<Seq<Operation>, DecodeError>,
)
    ensures
        prepend(a, prepend(b, r)) == prepend(a + b, r),
{
    if let Ok(s) = r {
        assert(a + (b + s) =~= (a + b) + s);
    }
}

proof fn lemma_hex_digit(n: u8)
    requires
        n < 16,
    ensures
        hex_value(hex_char(n)) == Some(n),
{
}

proof fn lemma_unhex_of_hex(b: Seq<u8>)
    ensures
        is_hex_token(hex_of(b)),
        bytes_of_hex(hex_of(b)) == b,
{
    let t = hex_of(b);
    assert forall|i: int| 0 <= i < t.len() implies (#[trigger] hex_value(t[i])).is_some() by {
        lemma_hex_digit((b[i / 2] / 16) as u8);
        lemma_hex_digit((b[i / 2] % 16) as u8);
    }
    assert forall|i: int| 0 <= i < b.len() implies bytes_of_hex(t)[i] == b[i] by {
        assert((2 * i) / 2 == i && (2 * i) % 2 == 0);
        assert((2 * i + 1) / 2 == i && (2 * i + 1) % 2 == 1);
        lemma_hex_digit((b[i] / 16) as u8);
        lemma_hex_digit((b[i] % 16) as u8);
    }
    assert(bytes_of_hex(t) =~= b);
}

proof fn lemma_be_round_trip(v: u32)
    ensures
        be_at(be_bytes(v), 0) == v,
{
    assert(((((v >> 24u32) as u8) as u32) << 24u32) | ((((v >> 16u32) as u8) as u32) << 16u32) | (
    (((v >> 8u32) as u8) as u32) << 8u32) | ((v as u8) as u32) == v) by (bit_vector);
}

proof fn lemma_ops_bytes_front(ops: Seq<Operation>)
    requires
        ops.len() > 0,
    ensures
        ops_bytes(ops) == op_bytes(ops[0]) + ops_bytes(ops.drop_first()),
    decreases ops.len(),
{
    if ops.len() == 1 {
        assert(ops.drop_last() =~= Seq::<Operation>::empty());
        assert(ops.drop_first() =~= Seq::<Operation>::empty());
        assert(ops_bytes(ops) =~= op_bytes(ops[0]) + ops_bytes(ops.drop_first()));
    } else {
        lemma_ops_bytes_front(ops.drop_last());
        assert(ops.drop_last().drop_first() =~= ops.drop_first().drop_last());
        assert(ops.drop_first().last() == ops.last());
        assert(ops_bytes(ops) =~= op_bytes(ops[0]) + ops_bytes(ops.drop_first()));
    }
}

proof fn lemma_parse_op(op: Operation, rest: Seq<u8>)
    ensures
        valid_op(op) ==> parse_ops(op_bytes(op) + rest) == prepend(seq![op], parse_ops(rest)),
        !valid_op(op) ==> parse_ops(op_bytes(op) + rest) == Err::<Seq<Operation>, DecodeError>(
            DecodeError::InvalidDimension,
        ),
{
    let b = op_bytes(op) + rest;
    match op {
        Operation::Resize { width, height, filter } => {
            lemma_be_round_trip(width);
            lemma_be_round_trip(height);
            assert(be_at(b, 1) == be_at(be_bytes(width), 0));
            assert(be_at(b, 5) == be_at(be_bytes(height), 0));
            assert(b.skip(10) =~= rest);
        },
        Operation::Watermark { x, y } => {
            lemma_be_round_trip(x);
            lemma_be_round_trip(y);
            assert(be_at(b, 1) == be_at(be_bytes(x), 0));
            assert(be_at(b, 5) == be_at(be_bytes(y), 0));
            assert(b.skip(9) =~= rest);
        },
        Operation::ColorFilter { kind } => {
            assert(b.skip(2) =~= rest);
        },
    }
}

proof fn lemma_parse_ops_bytes(ops: Seq<Operation>)
    ensures
        valid_ops(ops) ==> parse_ops(ops_bytes(ops)) == Ok::<Seq<Operation>, DecodeError>(ops),
        !valid_ops(ops) ==> parse_ops(ops_bytes(ops)) is Err,
    decreases ops.len(),
{
    if ops.len() > 0 {
        let tail = ops.drop_first();
        lemma_ops_bytes_front(ops);
        lemma_parse_op(ops[0], ops_bytes(tail));
        lemma_parse_ops_bytes(tail);
        assert(seq![ops[0]] + tail =~= ops);
        if valid_ops(ops) {
            assert forall|i: int| 0 <= i < tail.len() implies valid_op(#[trigger] tail[i]) by {
                assert(tail[i] == ops[i + 1]);
            }
        } else if valid_op(ops[0]) {
            let j = choose|j: int| 0 <= j < ops.len() && !valid_op(#[trigger] ops[j]);
            assert(!valid_op(tail[j - 1]));
        }
    } else {
        assert(ops =~= Seq::<Operation>::empty());
    }
}

proof fn lemma_parse_truncated(ops: Seq<Operation>)
    requires
        ops.len() > 0,
    ensures
        parse_ops(ops_bytes(ops).drop_last()) is Err,
    decreases ops.len(),
{
    let tail = ops.drop_first();
    lemma_ops_bytes_front(ops);
    if tail.len() == 0 {
        assert(ops_bytes(tail) =~= Seq::<u8>::empty());
        assert(ops_bytes(ops).drop_last() =~= op_bytes(ops[0]).drop_last());
    } else {
        lemma_parse_truncated(tail);
        lemma_ops_bytes_front(tail);
        assert(ops_bytes(ops).drop_last() =~= op_bytes(ops[0]) + ops_bytes(tail).drop_last());
        lemma_parse_op(ops[0], ops_bytes(tail).drop_last());
    }
}

proof fn lemma_parse_valid(b: Seq<u8>)
    ensures
        parse_ops(b) matches Ok(ops) ==> valid_ops(ops),
    decreases b.len(),
{
    if b.len() >= 2 {
        if b[0] == TAG_RESIZE && b.len() >= 10 {
            lemma_parse_valid(b.skip(10));
        } else if b[0] == TAG_WATERMARK && b.len() >= 9 {
            lemma_parse_valid(b.skip(9));
        } else if b[0] == TAG_COLOR_FILTER {
            lemma_parse_valid(b.skip(2));
        }
        if let Ok(ops) = parse_ops(b) {
            assert forall|i: int| 0 <= i < ops.len() implies valid_op(#[trigger] ops[i]) by {
                if i > 0 {
                    assert(ops[i] == ops.drop_first()[i - 1]);
                }
            }
        }
    }
}

/// Encoding a list of valid operations and decoding the token gives the same
/// list back, in the same order.
pub proof fn lemma_encode_decode(ops: Seq<Operation>)
    requires
        valid_ops(ops),
    ensures
        decode_spec(encode_spec(ops)) == Ok::<Seq<Operation>, DecodeError>(ops),
{
    let b = seq![FORMAT_VERSION] + ops_bytes(ops);
    lemma_unhex_of_hex(b);
    assert(b.drop_first() =~= ops_bytes(ops));
    lemma_parse_ops_bytes(ops);
}

/// Every list that `decode` produces is valid, and re-encoding it gives a
/// token that decodes to the same list.
pub proof fn lemma_decode_encode_decode(t: Seq<char>)
    requires
        decode_spec(t) is Ok,
    ensures
        valid_ops(decode_spec(t)->Ok_0),
        decode_spec(encode_spec(decode_spec(t)->Ok_0)) == decode_spec(t),
{
    lemma_parse_valid(bytes_of_hex(t).drop_first());
    lemma_encode_decode(decode_spec(t)->Ok_0);
}

/// Decoding fails on the empty token, on a token that carries a zero-sized
/// resize, on a token cut short by its last byte, and on a token whose first
/// operation tag is out of range.
pub proof fn lemma_decode_rejects(ops: Seq<Operation>, tag: u8, rest: Seq<u8>)
    ensures
        decode_spec(Seq::<char>::empty()) is Err,
        !valid_ops(ops) ==> decode_spec(encode_spec(ops)) is Err,
        ops.len() > 0 ==> decode_spec(hex_of(seq![FORMAT_VERSION] + ops_bytes(ops).drop_last()))
            is Err,
        tag > TAG_COLOR_FILTER ==> decode_spec(hex_of(seq![FORMAT_VERSION, tag] + rest)) == Err::<
            Seq<Operation>,
            DecodeError,
        >(DecodeError::UnsupportedOperation),
{
    let b = seq![FORMAT_VERSION] + ops_bytes(ops);
    lemma_unhex_of_hex(b);
    assert(b.drop_first() =~= ops_bytes(ops));
    lemma_parse_ops_bytes(ops);
    if ops.len() > 0 {
        let c = seq![FORMAT_VERSION] + ops_bytes(ops).drop_last();
        lemma_unhex_of_hex(c);
        assert(c.drop_first() =~= ops_bytes(ops).drop_last());
        lemma_parse_truncated(ops);
    }
    let d = seq![FORMAT_VERSION, tag] + rest;
    lemma_unhex_of_hex(d);
    assert(d.drop_first()[0] == tag);
}

proof fn lemma_parse_after_valid(p: Seq<Operation>, rest: Seq<u8>)
    requires
        valid_ops(p),
    ensures
        parse_ops(ops_bytes(p) + rest) == prepend(p, parse_ops(rest)),
    decreases p.len(),
{
    if p.len() == 0 {
        assert(ops_bytes(p) + rest =~= rest);
        if let Ok(s) = parse_ops(rest) {
            assert(p + s =~= s);
        }
    } else {
        let tail = p.drop_first();
        lemma_ops_bytes_front(p);
        assert(ops_bytes(p) + rest =~= op_bytes(p[0]) + (ops_bytes(tail) + rest));
        assert(valid_op(p[0]));
        lemma_parse_op(p[0], ops_bytes(tail) + rest);
        assert forall|i: int| 0 <= i < tail.len() implies valid_op(#[trigger] tail[i]) by {
            assert(tail[i] == p[i + 1]);
        }
        lemma_parse_after_valid(tail, rest);
        lemma_prepend_twice(seq![p[0]], tail, parse_ops(rest));
        assert(seq![p[0]] + tail =~= p);
    }
}

proof fn lemma_token_after_valid(p: Seq<Operation>, x: Seq<u8>)
    requires
        valid_ops(p),
    ensures
        decode_spec(hex_of(seq![FORMAT_VERSION] + ops_bytes(p) + x)) == prepend(p, parse_ops(x)),
{
    let b = seq![FORMAT_VERSION] + ops_bytes(p) + x;
    lemma_unhex_of_hex(b);
    assert(b.drop_first() =~= ops_bytes(p) + x);
    lemma_parse_after_valid(p, x);
}

/// Decoding fails however many valid operations come first: on a token of
/// odd length, on a token cut inside an operation, on an operation tag out of
/// range, and on a kernel or preset byte out of range.
pub proof fn lemma_decode_rejects_anywhere(
    t: Seq<char>,
    p: Seq<Operation>,
    op: Operation,
    k: int,
    tag: u8,
    code: u8,
    w: u32,
    h: u32,
    rest: Seq<u8>,
)
    requires
        valid_ops(p),
    ensures
        t.len() % 2 == 1 ==> decode_spec(t) == Err::<Seq<Operation>, DecodeError>(
            DecodeError::InvalidEncoding,
        ),
        0 < k < op_bytes(op).len() ==> decode_spec(
            hex_of(seq![FORMAT_VERSION] + ops_bytes(p) + op_bytes(op).take(k)),
        ) == Err::<Seq<Operation>, DecodeError>(DecodeError::Truncated),
        tag > TAG_COLOR_FILTER ==> decode_spec(
            hex_of(seq![FORMAT_VERSION] + ops_bytes(p) + (seq![tag] + rest)),
        ) == Err::<Seq<Operation>, DecodeError>(DecodeError::UnsupportedOperation),
        code > 4 ==> decode_spec(
            hex_of(
                seq![FORMAT_VERSION] + ops_bytes(p) + (seq![TAG_RESIZE] + be_bytes(w) + be_bytes(h)
                    + seq![code] + rest),
            ),
        ) == Err::<Seq<Operation>, DecodeError>(DecodeError::InvalidFilter),
        code > 4 ==> decode_spec(
            hex_of(seq![FORMAT_VERSION] + ops_bytes(p) + (seq![TAG_COLOR_FILTER, code] + rest)),
        ) == Err::<Seq<Operation>, DecodeError>(DecodeError::InvalidFilter),
{
    if 0 < k < op_bytes(op).len() {
        lemma_cut_rejected(p, op, k);
    }
    if tag > TAG_COLOR_FILTER {
        lemma_bad_tag_rejected(p, tag, rest);
    }
    if code > 4 {
        lemma_bad_kernel_rejected(p, w, h, code, rest);
        lemma_bad_preset_rejected(p, code, rest);
    }
}

proof fn lemma_cut_rejected(p: Seq<Operation>, op: Operation, k: int)
    requires
        valid_ops(p),
        0 < k < op_bytes(op).len(),
    ensures
        decode_spec(hex_of(seq![FORMAT_VERSION] + ops_bytes(p) + op_bytes(op).take(k))) == Err::<
            Seq<Operation>,
            DecodeError,
        >(DecodeError::Truncated),
{
    let cut = op_bytes(op).take(k);
    lemma_parse_cut(op, k);
    lemma_token_after_valid(p, cut);
}

proof fn lemma_parse_cut(op: Operation, k: int)
    requires
        0 < k < op_bytes(op).len(),
    ensures
        parse_ops(op_bytes(op).take(k)) == Err::<Seq<Operation>, DecodeError>(DecodeError::Truncated),
{
    let cut = op_bytes(op).take(k);
    match op {
        Operation::Resize { .. } => {
            assert(op_bytes(op).len() == 10);
            assert(cut[0] == TAG_RESIZE);
        },
        Operation::Watermark { .. } => {
            assert(op_bytes(op).len() == 9);
            assert(cut[0] == TAG_WATERMARK);
        },
        Operation::ColorFilter { .. } => {
            assert(op_bytes(op).len() == 2);
            assert(cut[0] == TAG_COLOR_FILTER);
        },
    }
}

proof fn lemma_bad_tag_rejected(p: Seq<Operation>, tag: u8, rest: Seq<u8>)
    requires
        valid_ops(p),
        tag > TAG_COLOR_FILTER,
    ensures
        decode_spec(hex_of(seq![FORMAT_VERSION] + ops_bytes(p) + (seq![tag] + rest))) == Err::<
            Seq<Operation>,
            DecodeError,
        >(DecodeError::UnsupportedOperation),
{
    let x = seq![tag] + rest;
    lemma_token_after_valid(p, x);
    assert(x[0] == tag);
}

proof fn lemma_bad_kernel_rejected(p: Seq<Operation>, w: u32, h: u32, code: u8, rest: Seq<u8>)
    requires
        valid_ops(p),
        code > 4,
    ensures
        decode_spec(
            hex_of(
                seq![FORMAT_VERSION] + ops_bytes(p) + (seq![TAG_RESIZE] + be_bytes(w) + be_bytes(h)
                    + seq![code] + rest),
            ),
        ) == Err::<Seq<Operation>, DecodeError>(DecodeError::InvalidFilter),
{
    let x = seq![TAG_RESIZE] + be_bytes(w) + be_bytes(h) + seq![code] + rest;
    lemma_parse_bad_kernel(x, code);
    lemma_token_after_valid(p, x);
}

proof fn lemma_parse_bad_kernel(x: Seq<u8>, code: u8)
    requires
        code > 4,
        x.len() >= 10,
        x[0] == TAG_RESIZE,
        x[9] == code,
    ensures
        parse_ops(x) == Err::<Seq<Operation>, DecodeError>(DecodeError::InvalidFilter),
{
}

proof fn lemma_bad_preset_rejected(p: Seq<Operation>, code: u8, rest: Seq<u8>)
    requires
        valid_ops(p),
        code > 4,
    ensures
        decode_spec(hex_of(seq![FORMAT_VERSION] + ops_bytes(p) + (seq![TAG_COLOR_FILTER, code] + rest)))
            == Err::<Seq<Operation>, DecodeError>(DecodeError::InvalidFilter),
{
    let x = seq![TAG_COLOR_FILTER, code] + rest;
    lemma_token_after_valid(p, x);
    assert(x[0] == TAG_COLOR_FILTER && x[1] == code);
}

fn hex_digit_str(n: u8) -> (r: &'static str)
    requires
        n < 16,
    ensures
        r@ == seq![hex_char(n)],
{
    match n {
        0 => {
            proof {
                reveal_strlit("0");
            }
            "0"
        },
        1 => {
            proof {
                reveal_strlit("1");
            }
            "1"
        },
        2 => {
            proof {
                reveal_strlit("2");
            }
            "2"
        },
        3 => {
            proof {
                reveal_strlit("3");
            }
            "3"
        },
        4 => {
            proof {
                reveal_strlit("4");
            }
            "4"
        },
        5 => {
            proof {
                reveal_strlit("5");
            }
            "5"
        },
        6 => {
            proof {
                reveal_strlit("6");
            }
            "6"
        },
        7 => {
            proof {
                reveal_strlit("7");
            }
            "7"
        },
        8 => {
            proof {
                reveal_strlit("8");
            }
            "8"
        },
        9 => {
            proof {
                reveal_strlit("9");
            }
            "9"
        },
        10 => {
            proof {
                reveal_strlit("a");
            }
            "a"
        },
        11 => {
            proof {
                reveal_strlit("b");
            }
            "b"
        },
        12 => {
            proof {
                reveal_strlit("c");
            }
            "c"
        },
        13 => {
            proof {
                reveal_strlit("d");
            }
            "d"
        },
        14 => {
            proof {
                reveal_strlit("e");
            }
            "e"
        },
        _ => {
            proof {
                reveal_strlit("f");
            }
            "f"
        },
    }
}

fn hex_digit_value(c: char) -> (r: Option<u8>)
    ensures
        r == hex_value(c),
{
    if c == '0' {
        Some(0u8)
    } else if c == '1' {
        Some(1u8)
    } else if c == '2' {
        Some(2u8)
    } else if c == '3' {
        Some(3u8)
    } else if c == '4' {
        Some(4u8)
    } else if c == '5' {
        Some(5u8)
    } else if c == '6' {
        Some(6u8)
    } else if c == '7' {
        Some(7u8)
    } else if c == '8' {
        Some(8u8)
    } else if c == '9' {
        Some(9u8)
    } else if c == 'a' {
        Some(10u8)
    } else if c == 'b' {
        Some(11u8)
    } else if c == 'c' {
        Some(12u8)
    } else if c == 'd' {
        Some(13u8)
    } else if c == 'e' {
        Some(14u8)
    } else if c == 'f' {
        Some(15u8)
    } else {
        None
    }
}

fn push_u32(out: &mut Vec<u8>, v: u32)
    ensures
        final(out)@ == old(out)@ + be_bytes(v),
{
    out.push((v >> 24u32) as u8);
    out.push((v >> 16u32) as u8);
    out.push((v >> 8u32) as u8);
    out.push(v as u8);
    assert(final(out)@ =~= old(out)@ + be_bytes(v));
}

fn push_op(out: &mut Vec<u8>, op: Operation)
    ensures
        final(out)@ == old(out)@ + op_bytes(op),
{
    let ghost start = out@;
    match op {
        Operation::Resize { width, height, filter } => {
            out.push(TAG_RESIZE);
            push_u32(out, width);
            push_u32(out, height);
            let code: u8 = match filter {
                ResamplingFilter::Nearest => 0,
                ResamplingFilter::Triangle => 1,
                ResamplingFilter::CatmullRom => 2,
                ResamplingFilter::Gaussian => 3,
                ResamplingFilter::Lanczos3 => 4,
            };
            out.push(code);
        },
        Operation::Watermark { x, y } => {
            out.push(TAG_WATERMARK);
            push_u32(out, x);
            push_u32(out, y);
        },
        Operation::ColorFilter { kind } => {
            out.push(TAG_COLOR_FILTER);
            let code: u8 = match kind {
                FilterKind::Oceanic => 0,
                FilterKind::Islands => 1,
                FilterKind::Marine => 2,
                FilterKind::Seagreen => 3,
                FilterKind::Vintage => 4,
            };
            out.push(code);
        },
    }
    assert(out@ =~= start + op_bytes(op));
}

fn to_hex(b: &Vec<u8>) -> (r: String)
    ensures
        r@ == hex_of(b@),
{
    let mut s = String::new();
    let mut i: usize = 0;
    while i < b.len()
        invariant
            i <= b.len(),
            s@ == hex_of(b@.take(i as int)),
        decreases b.len() - i,
    {
        let byte = b[i];
        s.append(hex_digit_str(byte / 16));
        s.append(hex_digit_str(byte % 16));
        i = i + 1;
        assert(s@ =~= hex_of(b@.take(i as int)));
    }
    assert(b@.take(b.len() as int) =~= b@);
    s
}

fn read_u32(b: &Vec<u8>, i: usize) -> (r: u32)
    requires
        i + 4 <= b.len(),
    ensures
        r == be_at(b@, i as int),
{
    ((b[i] as u32) << 24u32) | ((b[i + 1] as u32) << 16u32) | ((b[i + 2] as u32) << 8u32) | (
    b[i + 3] as u32)
}

fn resampling_from_code(c: u8) -> (r: Option<ResamplingFilter>)
    ensures
        r == resampling_of_code(c),
{
    if c == 0 {
        Some(ResamplingFilter::Nearest)
    } else if c == 1 {
        Some(ResamplingFilter::Triangle)
    } else if c == 2 {
        Some(ResamplingFilter::CatmullRom)
    } else if c == 3 {
        Some(ResamplingFilter::Gaussian)
    } else if c == 4 {
        Some(ResamplingFilter::Lanczos3)
    } else {
        None
    }
}

fn filter_kind_from_code(c: u8) -> (r: Option<FilterKind>)
    ensures
        r == filter_kind_of_code(c),
{
    if c == 0 {
        Some(FilterKind::Oceanic)
    } else if c == 1 {
        Some(FilterKind::Islands)
    } else if c == 2 {
        Some(FilterKind::Marine)
    } else if c == 3 {
        Some(FilterKind::Seagreen)
    } else if c == 4 {
        Some(FilterKind::Vintage)
    } else {
        None
    }
}

/// Turns a token into its bytes, or fails if it is not lowercase hex of even length.
fn unhex(token: &str) -> (r: Result<Vec<u8>, DecodeError>)
    ensures
        match r {
            Ok(b) => is_hex_token(token@) && b@ == bytes_of_hex(token@),
            Err(e) => !is_hex_token(token@) && e == DecodeError::InvalidEncoding,
        },
{
    let n = token.unicode_len();
    if n % 2 != 0 {
        return Err(DecodeError::InvalidEncoding);
    }
    let mut out: Vec<u8> = Vec::new();
    let mut i: usize = 0;
    while i < n / 2
        invariant
            n == token@.len(),
            n % 2 == 0,
            i <= n / 2,
            forall|j: int| 0 <= j < 2 * i ==> (#[trigger] hex_value(token@[j])).is_some(),
            out@ == bytes_of_hex(token@).take(i as int),
        decreases n / 2 - i,
    {
        let hi = hex_digit_value(token.get_char(2 * i));
        let lo = hex_digit_value(token.get_char(2 * i + 1));
        match (hi, lo) {
            (Some(h), Some(l)) => {
                out.push(h * 16 + l);
                i = i + 1;
                assert(out@ =~= bytes_of_hex(token@).take(i as int));
            },
            _ => {
                return Err(DecodeError::InvalidEncoding);
            },
        }
    }
    assert(out@ =~= bytes_of_hex(token@));
    Ok(out)
}

impl ImageSpec {
    /// The token for this list of operations.
    pub fn encode(&self) -> (r: String)
        ensures
            r@ == encode_spec(self@),
    {
        let mut bytes: Vec<u8> = vec![FORMAT_VERSION];
        let mut i: usize = 0;
        while i < self.specs.len()
            invariant
                i <= self.specs.len(),
                bytes@ == seq![FORMAT_VERSION] + ops_bytes(self@.take(i as int)),
            decreases self.specs.len() - i,
        {
            let ghost before = bytes@;
            push_op(&mut bytes, self.specs[i]);
            i = i + 1;
            assert(self@.take(i as int).drop_last() =~= self@.take(i - 1));
            assert(bytes@ =~= seq![FORMAT_VERSION] + ops_bytes(self@.take(i as int)));
        }
        assert(self@.take(i as int) =~= self@);
        to_hex(&bytes)
    }

    /// Reads a list of operations back from a token.
    pub fn decode(token: &str) -> (r: Result<ImageSpec, DecodeError>)
        ensures
            match r {
                Ok(s) => decode_spec(token@) == Ok::<Seq<Operation>, DecodeError>(s@),
                Err(e) => decode_spec(token@) == Err::<Seq<Operation>, DecodeError>(e),
            },
    {
        if token.unicode_len() == 0 {
            return Err(DecodeError::Empty);
        }
        let b = match unhex(token) {
            Ok(b) => b,
            Err(e) => {
                return Err(e);
            },
        };
        if b[0] != FORMAT_VERSION {
            return Err(DecodeError::UnsupportedVersion);
        }
        let ghost body = b@.drop_first();
        assert(decode_spec(token@) == parse_ops(body));
        let mut ops: Vec<Operation> = Vec::new();
        let mut pos: usize = 1;
        while pos < b.len()
            invariant
                1 <= pos <= b.len(),
                body == b@.drop_first(),
                decode_spec(token@) == parse_ops(body),
                parse_ops(body) == prepend(ops@, parse_ops(b@.skip(pos as int))),
            decreases b.len() - pos,
        {
            let ghost rest = b@.skip(pos as int);
            let tag = b[pos];
            assert(rest.len() == b.len() - pos && rest[0] == tag);
            let ghost before = ops@;
            if tag == TAG_RESIZE {
                if b.len() - pos < 10 {
                    return Err(DecodeError::Truncated);
                }
                let filter = match resampling_from_code(b[pos + 9]) {
                    Some(f) => f,
                    None => {
                        return Err(DecodeError::InvalidFilter);
                    },
                };
                let width = read_u32(&b, pos + 1);
                let height = read_u32(&b, pos + 5);
                assert(width == be_at(rest, 1));
                assert(height == be_at(rest, 5));
                if width == 0 || height == 0 {
                    return Err(DecodeError::InvalidDimension);
                }
                ops.push(Operation::Resize { width, height, filter });
                assert(rest.skip(10) =~= b@.skip(pos + 10));
                proof {
                    lemma_prepend_twice(before, seq![Operation::Resize { width, height, filter }], parse_ops(rest.skip(10)));
                    assert(before + seq![Operation::Resize { width, height, filter }] =~= ops@);
                }
                pos = pos + 10;
            } else if tag == TAG_WATERMARK {
                if b.len() - pos < 9 {
                    return Err(DecodeError::Truncated);
                }
                let x = read_u32(&b, pos + 1);
                let y = read_u32(&b, pos + 5);
                assert(x == be_at(rest, 1));
                assert(y == be_at(rest, 5));
                ops.push(Operation::Watermark { x, y });
                assert(rest.skip(9) =~= b@.skip(pos + 9));
                proof {
                    lemma_prepend_twice(before, seq![Operation::Watermark { x, y }], parse_ops(rest.skip(9)));
                    assert(before + seq![Operation::Watermark { x, y }] =~= ops@);
                }
                pos = pos + 9;
            } else if tag == TAG_COLOR_FILTER {
                if b.len() - pos < 2 {
                    return Err(DecodeError::Truncated);
                }
                let kind = match filter_kind_from_code(b[pos + 1]) {
                    Some(k) => k,
                    None => {
                        return Err(DecodeError::InvalidFilter);
                    },
                };
                ops.push(Operation::ColorFilter { kind });
                assert(rest.skip(2) =~= b@.skip(pos + 2));
                proof {
                    lemma_prepend_twice(before, seq![Operation::ColorFilter { kind }], parse_ops(rest.skip(2)));
                    assert(before + seq![Operation::ColorFilter { kind }] =~= ops@);
                }
                pos = pos + 2;
            } else {
                return Err(DecodeError::UnsupportedOperation);
            }
        }
        assert(b@.skip(pos as int) =~= Seq::<u8>::empty());
        assert(ops@ + Seq::<Operation>::empty() =~= ops@);
        Ok(ImageSpec { specs: ops })
    }
}

} // verus!
