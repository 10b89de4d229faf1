//! The datagram format: classification, little-endian sample groups and
//! silence lengths.

use vstd::prelude::*;
use byteorder::ByteOrder;
use byteorder::LittleEndian;

verus! {

/// Discriminant of a SILENCE datagram.
pub const SILENCE: u8 = 0;

/// Discriminant of a CONFIG datagram.
pub const CONFIG: u8 = 2;

/// What a datagram carries, by its first byte.
#[derive(Clone, Copy, Debug, PartialEq, Eq, Structural)]
pub enum PacketKind {
    /// A zero-length datagram: the end of the session.
    Empty,
    Silence,
    Config,
    Data,
}

pub open spec fn kind_of(d: Seq<u8>) -> PacketKind {
    if d.len() == 0 {
        PacketKind::Empty
    } else if d[0] == SILENCE {
        PacketKind::Silence
    } else if d[0] == CONFIG {
        PacketKind::Config
    } else {
        PacketKind::Data
    }
}

/// Classifies a datagram by its discriminant byte.
pub fn classify(d: &[u8]) -> (r: PacketKind)
    ensures
        r == kind_of(d@),
{
    if d.len() == 0 {
        PacketKind::Empty
    } else if d[0] == SILENCE {
        PacketKind::Silence
    } else if d[0] == CONFIG {
        PacketKind::Config
    } else {
        PacketKind::Data
    }
}

/// `256` raised to the number of bytes `n`.
pub open spec fn byte_span(n: nat) -> nat
    decreases n,
{
    if n == 0 {
        1
    } else {
        256 * byte_span((n - 1) as nat)
    }
}

/// The unsigned little-endian value of a byte string.
pub open spec fn le_unsigned(s: Seq<u8>) -> nat
    decreases s.len(),
{
    if s.len() == 0 {
        0
    } else {
        s[0] as nat + 256 * le_unsigned(s.drop_first())
    }
}

/// The two's complement little-endian value of a byte string.
pub open spec fn le_signed(s: Seq<u8>) -> int {
    let u = le_unsigned(s);
    let span = byte_span(s.len());
    if 2 * u >= span {
        u - span
    } else {
        u as int
    }
}

/// The `i`-th group of `w` bytes after the discriminant byte.
pub open spec fn group(d: Seq<u8>, w: nat, i: int) -> Seq<u8> {
    d.subrange(1 + i * w, 1 + i * w + w)
}

/// A group of one to four bytes has a value in the range of `i32`.
pub proof fn lemma_le_signed_fits(g: Seq<u8>)
    requires
        1 <= g.len() <= 4,
    ensures
        i32::MIN <= le_signed(g) <= i32::MAX,
{
    lemma_le_unsigned_bound(g);
    reveal_with_fuel(byte_span, 5);
}

proof fn lemma_le_unsigned_bound(g: Seq<u8>)
    ensures
        le_unsigned(g) < byte_span(g.len()),
    decreases g.len(),
{
    if g.len() > 0 {
        lemma_le_unsigned_bound(g.drop_first());
    }
}

/// The samples that a DATA datagram carries: one for each whole group of
/// `w` bytes after the discriminant; trailing bytes that make no whole group
/// are dropped.
pub open spec fn data_samples(d: Seq<u8>, w: nat) -> Seq<i32>
    recommends
        d.len() >= 1,
        w >= 1,
{
    Seq::new(((d.len() - 1) / (w as int)) as nat, |i: int| le_signed(group(d, w, i)) as i32)
}

/// The number of zero samples that a SILENCE datagram with length field `len`
/// stands for: as many as a DATA datagram of `len` bytes would carry.
pub open spec fn silence_count(len: nat, w: nat) -> nat {
    if len == 0 {
        0
    } else {
        ((len - 1) as int / (w as int)) as nat
    }
}

/// Relies on byteorder's `LittleEndian::read_u16`: the first two bytes as a
/// little-endian `u16`. It panics on fewer than two bytes.
#[verifier::external_body]
fn read_u16_le(b: &[u8]) -> (r: u16)
    requires
        b@.len() >= 2,
    ensures
        r as nat == b@[0] as nat + 256 * (b@[1] as nat),
{
    LittleEndian::read_u16(b)
}

/// Relies on byteorder's `LittleEndian::read_int`: the first `w` bytes as a
/// sign-extended little-endian integer. It panics unless `1 <= w <= 8` and
/// `w <= b.len()`; with `w <= 4` the value fits in an `i32`.
#[verifier::external_body]
fn read_int_le(b: &[u8], w: usize) -> (r: i32)
    requires
        1 <= w <= 4,
        w <= b@.len(),
    ensures
        r as int == le_signed(b@.subrange(0, w as int)),
{
    LittleEndian::read_int(b, w) as i32
}

/// The length field of a SILENCE datagram (bytes 1 and 2, little-endian),
/// if the datagram holds it.
pub open spec fn silence_field(d: Seq<u8>) -> Option<nat> {
    if d.len() >= 3 {
        Some(d[1] as nat + 256 * (d[2] as nat))
    } else {
        None
    }
}

/// Reads the length field of a SILENCE datagram; `None` for a datagram too
/// short to hold it.
pub fn silence_length(d: &[u8]) -> (r: Option<u16>)
    ensures
        r matches Some(l) ==> silence_field(d@) == Some(l as nat),
        r is None <==> silence_field(d@) is None,
{
    if d.len() >= 3 {
        let field = &d[1..3];
        assert(field@ =~= d@.subrange(1, 3));
        Some(read_u16_le(field))
    } else {
        None
    }
}

/// The number of zero samples that a SILENCE datagram with length field `len`
/// stands for, at `w` bytes per sample.
pub fn silence_samples(len: u16, w: usize) -> (r: usize)
    requires
        w >= 1,
    ensures
        r == silence_count(len as nat, w as nat),
{
    if len == 0 {
        0
    } else {
        (len as usize - 1) / w
    }
}

/// Decodes the samples of a DATA datagram: each whole group of `w` bytes after
/// the discriminant, read as a little-endian signed integer.
pub fn decode_data(d: &[u8], w: usize) -> (r: Vec<i32>)
    requires
        d@.len() >= 1,
        1 <= w <= 4,
    ensures
        r@ == data_samples(d@, w as nat),
{
    let mut out: Vec<i32> = Vec::new();
    let mut pos: usize = 1;
    proof {
        assert(out@.len() * w == 0) by (nonlinear_arith)
            requires
                out@.len() == 0,
        ;
    }
    while d.len() - pos >= w
        invariant
            1 <= w <= 4,
            1 <= pos <= d@.len(),
            pos == 1 + out@.len() * w,
            forall|i: int|
                0 <= i < out@.len() ==> out@[i] as int == le_signed(group(d@, w as nat, i)),
        decreases d@.len() - pos,
    {
        let rest = &d[pos..pos + w];
        let v = read_int_le(rest, w);
        proof {
            assert(rest@.subrange(0, w as int) =~= group(d@, w as nat, out@.len() as int));
        }
        out.push(v);
        proof {
            assert(pos + w == 1 + out@.len() * w) by (nonlinear_arith)
                requires
                    pos == 1 + (out@.len() - 1) * w,
            ;
        }
        pos = pos + w;
    }
    proof {
        let n = out@.len() as int;
        let m = (d@.len() - 1) as int;
        assert(m / (w as int) == n) by (nonlinear_arith)
            requires
                m == n * w + (d@.len() - pos),
                0 <= d@.len() - pos < w,
                n >= 0,
        ;
        let spec_r = data_samples(d@, w as nat);
        assert(spec_r.len() == n);
        assert forall|i: int| 0 <= i < n implies out@[i] == spec_r[i] by {
            assert(out@[i] as int == le_signed(group(d@, w as nat, i)));
        }
        assert(out@ =~= spec_r);
    }
    out
}

/// The `w` little-endian bytes of the unsigned value `u`, low byte first;
/// higher bytes of `u` are dropped.
pub open spec fn le_bytes(u: nat, w: nat) -> Seq<u8>
    decreases w,
{
    if w == 0 {
        Seq::empty()
    } else {
        seq![(u % 256) as u8] + le_bytes(u / 256, (w - 1) as nat)
    }
}

/// The bytes of one sample at `w` bytes per sample: its two's complement
/// value taken modulo `256^w`.
pub open spec fn sample_bytes(v: i32, w: nat) -> Seq<u8> {
    le_bytes((v as int % (byte_span(w) as int)) as nat, w)
}

/// The bytes of a run of samples, one group of `w` bytes each, in order.
pub open spec fn encoded(x: Seq<i32>, w: nat) -> Seq<u8>
    decreases x.len(),
{
    if x.len() == 0 {
        Seq::empty()
    } else {
        encoded(x.drop_last(), w) + sample_bytes(x.last(), w)
    }
}

/// Relies on byteorder's `LittleEndian::write_int`: it writes the low `w`
/// bytes of the two's complement value, low byte first. With `1 <= w <= 8`
/// and a buffer of `w` bytes it does not panic.
#[verifier::external_body]
fn write_int_le(v: i32, w: usize) -> (r: Vec<u8>)
    requires
        1 <= w <= 4,
    ensures
        r@ == sample_bytes(v, w as nat),
{
    let mut b = vec![0u8; w];
    LittleEndian::write_int(&mut b, v as i64, w);
    b
}

/// Encodes samples as the raw little-endian PCM that a player reads, `w`
/// bytes per sample.
pub fn encode_samples(x: &[i32], w: usize) -> (r: Vec<u8>)
    requires
        1 <= w <= 4,
    ensures
        r@ == encoded(x@, w as nat),
{
    let mut out: Vec<u8> = Vec::new();
    let mut i: usize = 0;
    while i < x.len()
        invariant
            1 <= w <= 4,
            i <= x@.len(),
            out@ == encoded(x@.subrange(0, i as int), w as nat),
        decreases x@.len() - i,
    {
        let mut b = write_int_le(x[i], w);
        let ghost prev = out@;
        out.append(&mut b);
        assert(x@.subrange(0, i + 1).drop_last() =~= x@.subrange(0, i as int));
        assert(out@ =~= prev + sample_bytes(x@[i as int], w as nat));
        i = i + 1;
    }
    assert(x@.subrange(0, x@.len() as int) =~= x@);
    out
}

proof fn lemma_byte_span_positive(n: nat)
    ensures
        byte_span(n) > 0,
    decreases n,
{
    if n > 0 {
        lemma_byte_span_positive((n - 1) as nat);
    }
}

proof fn lemma_le_bytes_value(u: nat, w: nat)
    ensures
        le_bytes(u, w).len() == w,
        le_unsigned(le_bytes(u, w)) == u % byte_span(w),
    decreases w,
{
    if w == 0 {
        assert(u % 1 == 0);
    } else {
        let rest = le_bytes(u / 256, (w - 1) as nat);
        lemma_le_bytes_value(u / 256, (w - 1) as nat);
        let b = le_bytes(u, w);
        assert(b.drop_first() =~= rest);
        lemma_byte_span_positive((w - 1) as nat);
        vstd::arithmetic::div_mod::lemma_mod_breakdown(
            u as int,
            256,
            byte_span((w - 1) as nat) as int,
        );
    }
}

/// Decoding undoes encoding: a run of samples that each fit in `w` bytes,
/// encoded and sent after any discriminant other than SILENCE or CONFIG,
/// decodes to the same samples.
pub proof fn lemma_decode_encoded(x: Seq<i32>, w: nat, tag: u8)
    requires
        1 <= w <= 4,
        tag != SILENCE && tag != CONFIG,
        forall|i: int|
            0 <= i < x.len() ==> -(byte_span(w) as int) <= 2 * (#[trigger] x[i]) < byte_span(
                w,
            ),
    ensures
        kind_of(seq![tag] + encoded(x, w)) == PacketKind::Data,
        data_samples(seq![tag] + encoded(x, w), w) == x,
    decreases x.len(),
{
    let d = seq![tag] + encoded(x, w);
    lemma_encoded_len(x, w);
    assert(d[0] == tag);
    assert((d.len() - 1) as int / (w as int) == x.len()) by (nonlinear_arith)
        requires
            d.len() - 1 == x.len() * w,
            w >= 1,
    ;
    assert forall|i: int| 0 <= i < x.len() implies data_samples(d, w)[i] == x[i] by {
        lemma_encoded_group(x, w, i);
        assert(group(d, w, i) =~= encoded(x, w).subrange(i * w, i * w + w));
        lemma_sample_round_trip(x[i], w);
    }
    assert(data_samples(d, w) =~= x);
}

proof fn lemma_encoded_len(x: Seq<i32>, w: nat)
    ensures
        encoded(x, w).len() == x.len() * w,
    decreases x.len(),
{
    if x.len() > 0 {
        lemma_encoded_len(x.drop_last(), w);
        lemma_le_bytes_value((x.last() as int % (byte_span(w) as int)) as nat, w);
        assert((x.len() - 1) * w + w == x.len() * w) by (nonlinear_arith);
    }
}

proof fn lemma_encoded_group(x: Seq<i32>, w: nat, i: int)
    requires
        0 <= i < x.len(),
    ensures
        0 <= i * w,
        i * w + w <= x.len() * w,
        encoded(x, w).subrange(i * w, i * w + w) == sample_bytes(x[i], w),
    decreases x.len(),
{
    lemma_encoded_len(x, w);
    lemma_encoded_len(x.drop_last(), w);
    let n = x.len() - 1;
    assert(0 <= i * w) by (nonlinear_arith)
        requires
            0 <= i,
    ;
    assert(i * w + w <= x.len() * w) by (nonlinear_arith)
        requires
            i < x.len(),
    ;
    assert(n * w + w == x.len() * w) by (nonlinear_arith)
        requires
            n == x.len() - 1,
    ;
    lemma_le_bytes_value((x.last() as int % (byte_span(w) as int)) as nat, w);
    if i == n {
        assert(encoded(x, w).subrange(i * w, i * w + w) =~= sample_bytes(x[i], w));
    } else {
        lemma_encoded_group(x.drop_last(), w, i);
        assert(i * w + w <= n * w) by (nonlinear_arith)
            requires
                i < n,
        ;
        assert(encoded(x, w).subrange(i * w, i * w + w) =~= encoded(x.drop_last(), w).subrange(
            i * w,
            i * w + w,
        ));
    }
}

proof fn lemma_sample_round_trip(v: i32, w: nat)
    requires
        1 <= w <= 4,
        -(byte_span(w) as int) <= 2 * v < byte_span(w),
    ensures
        le_signed(sample_bytes(v, w)) == v,
{
    let span = byte_span(w) as int;
    let u = (v as int % span) as nat;
    lemma_le_bytes_value(u, w);
    assert(span > 0) by {
        reveal_with_fuel(byte_span, 5);
    }
    if v >= 0 {
        vstd::arithmetic::div_mod::lemma_small_mod(v as nat, span as nat);
    } else {
        vstd::arithmetic::div_mod::lemma_small_mod((v + span) as nat, span as nat);
        vstd::arithmetic::div_mod::lemma_mod_add_multiples_vanish(v as int, span);
    }
    assert(u % byte_span(w) == u) by {
        vstd::arithmetic::div_mod::lemma_small_mod(u, span as nat);
    }
}

} // verus!
