//! Session parameters and the text of a CONFIG datagram.

use vstd::prelude::*;
use vstd::utf8::valid_utf8;

verus! {

/// Bits per sample when the first datagram sets none.
pub const DEFAULT_BIT_DEPTH: usize = 32;

/// Sample rate in Hz when the first datagram sets none.
pub const DEFAULT_RATE: usize = 44100;

/// Target buffer size in frames when the first datagram sets none.
pub const DEFAULT_BUFFER: usize = 2048;

/// The parameters of one streaming session, fixed once it is established.
#[derive(Clone, Copy, Debug, PartialEq, Eq, Structural)]
pub struct Session {
    /// Bits per sample.
    pub bit_depth: usize,
    /// Sample rate in Hz.
    pub rate: usize,
    /// Target buffer size in frames.
    pub buffer: usize,
    /// Whether the listener rides out quiet read timeouts, polling at a
    /// shorter interval, until the silence window has passed.
    pub auto_fill: bool,
}

pub open spec fn default_session() -> Session {
    Session {
        bit_depth: DEFAULT_BIT_DEPTH,
        rate: DEFAULT_RATE,
        buffer: DEFAULT_BUFFER,
        auto_fill: true,
    }
}

impl Session {
    /// The session used when the first datagram configures nothing.
    pub fn defaults() -> (r: Session)
        ensures
            r == default_session(),
    {
        Session {
            bit_depth: DEFAULT_BIT_DEPTH,
            rate: DEFAULT_RATE,
            buffer: DEFAULT_BUFFER,
            auto_fill: true,
        }
    }
}

/// The ASCII bytes that `str::trim` removes: tab, line feed, vertical tab,
/// form feed, carriage return and space.
pub open spec fn is_blank(b: u8) -> bool {
    b == 32 || (9 <= b && b <= 13)
}

/// Whether `a b` is the UTF-8 form of a two-byte White_Space code point:
/// U+0085 or U+00A0.
pub open spec fn is_blank2(a: u8, b: u8) -> bool {
    a == 0xC2 && (b == 0x85 || b == 0xA0)
}

/// Whether `a b c` is the UTF-8 form of a three-byte White_Space code point:
/// U+1680, U+2000 to U+200A, U+2028, U+2029, U+202F, U+205F or U+3000.
pub open spec fn is_blank3(a: u8, b: u8, c: u8) -> bool {
    ||| (a == 0xE1 && b == 0x9A && c == 0x80)
    ||| (a == 0xE2 && b == 0x80 && ((0x80 <= c && c <= 0x8A) || c == 0xA8 || c == 0xA9 || c
        == 0xAF))
    ||| (a == 0xE2 && b == 0x81 && c == 0x9F)
    ||| (a == 0xE3 && b == 0x80 && c == 0x80)
}

/// The length of the White_Space code point that `s` starts with, or 0.
pub open spec fn lead_blank(s: Seq<u8>) -> nat {
    if s.len() >= 1 && is_blank(s[0]) {
        1
    } else if s.len() >= 2 && is_blank2(s[0], s[1]) {
        2
    } else if s.len() >= 3 && is_blank3(s[0], s[1], s[2]) {
        3
    } else {
        0
    }
}

/// The length of the White_Space code point that `s` ends with, or 0. In
/// UTF-8 text the bytes that end `s` this way are a whole code point, as
/// their first byte is a leading byte.
pub open spec fn trail_blank(s: Seq<u8>) -> nat {
    let n = s.len();
    if n >= 1 && is_blank(s[n - 1]) {
        1
    } else if n >= 2 && is_blank2(s[n - 2], s[n - 1]) {
        2
    } else if n >= 3 && is_blank3(s[n - 3], s[n - 2], s[n - 1]) {
        3
    } else {
        0
    }
}

/// `s` without the White_Space code points that start it.
pub open spec fn trim_start(s: Seq<u8>) -> Seq<u8>
    decreases s.len(),
{
    if lead_blank(s) > 0 {
        trim_start(s.subrange(lead_blank(s) as int, s.len() as int))
    } else {
        s
    }
}

/// `s` without the White_Space code points that end it.
pub open spec fn trim_end(s: Seq<u8>) -> Seq<u8>
    decreases s.len(),
{
    if trail_blank(s) > 0 {
        trim_end(s.subrange(0, s.len() - trail_blank(s)))
    } else {
        s
    }
}

/// The text without White_Space at either end, as `str::trim` leaves it.
pub open spec fn trim(s: Seq<u8>) -> Seq<u8> {
    trim_end(trim_start(s))
}

/// The fields of `s` between single spaces; two adjacent spaces enclose an
/// empty field.
pub open spec fn split_spaces(s: Seq<u8>) -> Seq<Seq<u8>>
    decreases s.len(),
{
    if s.len() == 0 {
        seq![Seq::empty()]
    } else {
        let init = split_spaces(s.drop_last());
        if s.last() == 32 {
            init.push(Seq::empty())
        } else {
            init.update(init.len() - 1, init.last().push(s.last()))
        }
    }
}

pub open spec fn is_digit(b: u8) -> bool {
    48 <= b && b <= 57
}

/// The value of a string of decimal digits.
pub open spec fn decimal(s: Seq<u8>) -> nat
    decreases s.len(),
{
    if s.len() == 0 {
        0
    } else {
        decimal(s.drop_last()) * 10 + (s.last() - 48) as nat
    }
}

/// A field without the one `+` sign that may lead it.
pub open spec fn unsigned_digits(f: Seq<u8>) -> Seq<u8> {
    if f.len() > 0 && f[0] == 43 {
        f.drop_first()
    } else {
        f
    }
}

/// The value of a field read as an unsigned decimal number: optionally a
/// `+`, then one or more digits, with a value that fits in a `usize`.
pub open spec fn parse_number(f: Seq<u8>) -> Option<nat> {
    let d = unsigned_digits(f);
    if d.len() > 0 && (forall|i: int| 0 <= i < d.len() ==> is_digit(#[trigger] d[i]))
        && decimal(d) <= usize::MAX {
        Some(decimal(d))
    } else {
        None
    }
}

pub open spec fn number_or(f: Seq<u8>, fallback: usize) -> usize {
    match parse_number(f) {
        Some(v) => v as usize,
        None => fallback,
    }
}

/// The word that turns auto-fill off.
pub open spec fn false_word() -> Seq<u8> {
    seq![102u8, 97u8, 108u8, 115u8, 101u8]
}

/// Whether every byte is ASCII.
pub open spec fn is_ascii(b: Seq<u8>) -> bool {
    forall|i: int| 0 <= i < b.len() ==> #[trigger] b[i] < 128
}

/// ASCII text is well-formed UTF-8.
pub proof fn lemma_ascii_is_utf8(b: Seq<u8>)
    ensures
        is_ascii(b) ==> valid_utf8(b),
{
    if is_ascii(b) {
        assert(b.subrange(0, 0) =~= Seq::<u8>::empty());
        assert(vstd::utf8::partial_valid_utf8(b, 0));
        assert forall|i: int| 0 <= 0 <= i < b.len() <= b.len() implies
            #[trigger] vstd::utf8::is_leading_byte_width_1(b[i]) by {
            assert(b[i] < 128);
        }
        vstd::utf8::partial_valid_utf8_extend_ascii_block(b, 0, b.len() as int);
        assert(b.subrange(0, b.len() as int) =~= b);
    }
}

/// The session that a CONFIG payload sets up: the one its text sets up when
/// it is UTF-8, else the defaults.
pub open spec fn config_of(payload: Seq<u8>) -> Session {
    if valid_utf8(payload) {
        text_config(payload)
    } else {
        default_session()
    }
}

/// The session that the text of a CONFIG datagram sets up: three or four
/// fields, bit depth, rate and buffer, each falling back to its default when
/// it is no number, and a fourth field `false` that turns auto-fill off. Any
/// other number of fields leaves every default in place.
pub open spec fn text_config(payload: Seq<u8>) -> Session {
    let f = split_spaces(trim(payload));
    if f.len() == 3 || f.len() == 4 {
        Session {
            bit_depth: number_or(f[0], DEFAULT_BIT_DEPTH),
            rate: number_or(f[1], DEFAULT_RATE),
            buffer: number_or(f[2], DEFAULT_BUFFER),
            auto_fill: !(f.len() == 4 && f[3] == false_word()),
        }
    } else {
        default_session()
    }
}

fn blank(b: u8) -> (r: bool)
    ensures
        r == is_blank(b),
{
    b == 32 || (9 <= b && b <= 13)
}

fn blank2(a: u8, b: u8) -> (r: bool)
    ensures
        r == is_blank2(a, b),
{
    a == 0xC2 && (b == 0x85 || b == 0xA0)
}

fn blank3(a: u8, b: u8, c: u8) -> (r: bool)
    ensures
        r == is_blank3(a, b, c),
{
    (a == 0xE1 && b == 0x9A && c == 0x80) || (a == 0xE2 && b == 0x80 && ((0x80 <= c && c
        <= 0x8A) || c == 0xA8 || c == 0xA9 || c == 0xAF)) || (a == 0xE2 && b == 0x81 && c
        == 0x9F) || (a == 0xE3 && b == 0x80 && c == 0x80)
}

fn lead_blank_len(s: &[u8], lo: usize, hi: usize) -> (r: usize)
    requires
        lo <= hi <= s@.len(),
    ensures
        r as nat == lead_blank(s@.subrange(lo as int, hi as int)),
{
    let n = hi - lo;
    if n >= 1 && blank(s[lo]) {
        1
    } else if n >= 2 && blank2(s[lo], s[lo + 1]) {
        2
    } else if n >= 3 && blank3(s[lo], s[lo + 1], s[lo + 2]) {
        3
    } else {
        0
    }
}

fn trail_blank_len(s: &[u8], lo: usize, hi: usize) -> (r: usize)
    requires
        lo <= hi <= s@.len(),
    ensures
        r as nat == trail_blank(s@.subrange(lo as int, hi as int)),
{
    let n = hi - lo;
    if n >= 1 && blank(s[hi - 1]) {
        1
    } else if n >= 2 && blank2(s[hi - 2], s[hi - 1]) {
        2
    } else if n >= 3 && blank3(s[hi - 3], s[hi - 2], s[hi - 1]) {
        3
    } else {
        0
    }
}

/// What each byte vector of `v` holds.
pub open spec fn views(v: Seq<Vec<u8>>) -> Seq<Seq<u8>> {
    Seq::new(v.len(), |i: int| v[i]@)
}

/// The bytes of `s` without White_Space at either end.
pub fn trim_bytes(s: &[u8]) -> (r: Vec<u8>)
    ensures
        r@ == trim(s@),
{
    let mut lo: usize = 0;
    assert(s@.subrange(0, s@.len() as int) =~= s@);
    loop
        invariant
            lo <= s@.len(),
            trim_start(s@) == trim_start(s@.subrange(lo as int, s@.len() as int)),
        ensures
            lo <= s@.len(),
            trim_start(s@) == trim_start(s@.subrange(lo as int, s@.len() as int)),
            lead_blank(s@.subrange(lo as int, s@.len() as int)) == 0,
        decreases s@.len() - lo,
    {
        let n = lead_blank_len(s, lo, s.len());
        if n == 0 {
            break;
        }
        assert(s@.subrange(lo as int, s@.len() as int).subrange(n as int, s@.len() - lo)
            =~= s@.subrange(lo + n, s@.len() as int));
        lo = lo + n;
    }
    assert(trim_start(s@.subrange(lo as int, s@.len() as int)) == s@.subrange(
        lo as int,
        s@.len() as int,
    ));
    let mut hi: usize = s.len();
    loop
        invariant
            lo <= hi <= s@.len(),
            trim(s@) == trim_end(s@.subrange(lo as int, hi as int)),
        ensures
            lo <= hi <= s@.len(),
            trim(s@) == trim_end(s@.subrange(lo as int, hi as int)),
            trail_blank(s@.subrange(lo as int, hi as int)) == 0,
        decreases hi,
    {
        let n = trail_blank_len(s, lo, hi);
        if n == 0 {
            break;
        }
        assert(s@.subrange(lo as int, hi as int).subrange(0, hi - lo - n) =~= s@.subrange(
            lo as int,
            hi - n,
        ));
        hi = hi - n;
    }
    assert(trim_end(s@.subrange(lo as int, hi as int)) == s@.subrange(lo as int, hi as int));
    let mut out: Vec<u8> = Vec::new();
    let mut i: usize = lo;
    while i < hi
        invariant
            lo <= i <= hi <= s@.len(),
            out@ =~= s@.subrange(lo as int, i as int),
        decreases hi - i,
    {
        out.push(s[i]);
        i = i + 1;
    }
    out
}

/// The fields of `s` between single spaces.
pub fn split_fields(s: &[u8]) -> (r: Vec<Vec<u8>>)
    ensures
        views(r@) == split_spaces(s@),
{
    let mut done: Vec<Vec<u8>> = Vec::new();
    let mut cur: Vec<u8> = Vec::new();
    let mut i: usize = 0;
    assert(s@.subrange(0, 0) =~= Seq::<u8>::empty());
    assert(views(done@).push(cur@) =~= split_spaces(s@.subrange(0, 0)));
    while i < s.len()
        invariant
            i <= s@.len(),
            views(done@).push(cur@) == split_spaces(s@.subrange(0, i as int)),
        decreases s@.len() - i,
    {
        let b = s[i];
        let ghost before = s@.subrange(0, i as int);
        let ghost after = s@.subrange(0, i + 1);
        assert(after.drop_last() =~= before);
        if b == 32 {
            let ghost old_done = views(done@);
            let finished = cur;
            let ghost fin = finished@;
            done.push(finished);
            cur = Vec::new();
            assert(views(done@) =~= old_done.push(fin));
            assert(views(done@).push(cur@) =~= split_spaces(after));
        } else {
            cur.push(b);
            assert(views(done@).push(cur@) =~= split_spaces(after));
        }
        i = i + 1;
    }
    assert(s@.subrange(0, s@.len() as int) =~= s@);
    let ghost old_done = views(done@);
    let ghost last = cur@;
    done.push(cur);
    assert(views(done@) =~= old_done.push(last));
    done
}

/// Appending digits never lowers the value of a digit string.
proof fn lemma_decimal_prefix(s: Seq<u8>, i: int)
    requires
        0 <= i <= s.len(),
        forall|k: int| 0 <= k < s.len() ==> is_digit(#[trigger] s[k]),
    ensures
        decimal(s.subrange(0, i)) <= decimal(s),
    decreases s.len(),
{
    if i < s.len() {
        let init = s.drop_last();
        assert(init.subrange(0, i) =~= s.subrange(0, i));
        lemma_decimal_prefix(init, i);
    } else {
        assert(s.subrange(0, i) =~= s);
    }
}

/// Reads a field as an unsigned decimal number, as `str::parse::<usize>`
/// does: an optional `+`, then one or more digits whose value fits.
pub fn parse_usize(f: &[u8]) -> (r: Option<usize>)
    ensures
        r matches Some(v) ==> parse_number(f@) == Some(v as nat),
        r is None <==> parse_number(f@) is None,
{
    let start: usize = if f.len() > 0 && f[0] == 43 {
        1
    } else {
        0
    };
    let ghost d = unsigned_digits(f@);
    assert(d =~= f@.subrange(start as int, f@.len() as int));
    if start == f.len() {
        return None;
    }
    let mut v: usize = 0;
    let mut i: usize = start;
    assert(d.subrange(0, 0) =~= Seq::<u8>::empty());
    while i < f.len()
        invariant
            start <= i <= f@.len(),
            d == unsigned_digits(f@),
            d =~= f@.subrange(start as int, f@.len() as int),
            v as nat == decimal(d.subrange(0, i - start)),
            forall|k: int| 0 <= k < i - start ==> is_digit(#[trigger] d[k]),
        decreases f@.len() - i,
    {
        let b = f[i];
        assert(d[i - start] == b);
        if !(48 <= b && b <= 57) {
            assert(!is_digit(d[i - start]));
            assert(!(forall|k: int| 0 <= k < d.len() ==> is_digit(#[trigger] d[k])));
            assert(unsigned_digits(f@) == d);
            assert(parse_number(f@) is None);
            return None;
        }
        let ghost next = d.subrange(0, i - start + 1);
        assert(next.drop_last() =~= d.subrange(0, i - start));
        assert(decimal(next) == v * 10 + (b - 48) as nat);
        let grown = v.checked_mul(10);
        match grown {
            None => {
                proof {
                    assert(v * 10 > usize::MAX);
                    if forall|k: int| 0 <= k < d.len() ==> is_digit(#[trigger] d[k]) {
                        lemma_decimal_prefix(d, i - start + 1);
                        assert(decimal(d) > usize::MAX);
                    }
                }
                return None;
            },
            Some(t) => {
                match t.checked_add((b - 48) as usize) {
                    None => {
                        proof {
                            if forall|k: int| 0 <= k < d.len() ==> is_digit(#[trigger] d[k]) {
                                lemma_decimal_prefix(d, i - start + 1);
                            }
                        }
                        return None;
                    },
                    Some(n) => {
                        v = n;
                    },
                }
            },
        }
        i = i + 1;
    }
    assert(d.subrange(0, i - start) =~= d);
    Some(v)
}

/// Reads the session that the text of a CONFIG datagram sets up, its bytes
/// taken as they are.
pub fn parse_text_config(payload: &[u8]) -> (r: Session)
    ensures
        r == text_config(payload@),
{
    let text = trim_bytes(payload);
    let fields = split_fields(text.as_slice());
    let ghost f = split_spaces(trim(payload@));
    assert(views(fields@) == f);
    let n = fields.len();
    if n == 3 || n == 4 {
        assert(fields[0]@ == f[0]);
        assert(fields[1]@ == f[1]);
        assert(fields[2]@ == f[2]);
        let bit_depth = match parse_usize(fields[0].as_slice()) {
            Some(v) => v,
            None => DEFAULT_BIT_DEPTH,
        };
        let rate = match parse_usize(fields[1].as_slice()) {
            Some(v) => v,
            None => DEFAULT_RATE,
        };
        let buffer = match parse_usize(fields[2].as_slice()) {
            Some(v) => v,
            None => DEFAULT_BUFFER,
        };
        let auto_fill = if n == 4 {
            assert(fields[3]@ == f[3]);
            !is_false_word(fields[3].as_slice())
        } else {
            true
        };
        Session { bit_depth, rate, buffer, auto_fill }
    } else {
        Session::defaults()
    }
}

/// Relies on `std::str::from_utf8`: it succeeds exactly on well-formed
/// UTF-8.
#[verifier::external_body]
fn is_utf8(b: &[u8]) -> (r: bool)
    ensures
        r == valid_utf8(b@),
{
    std::str::from_utf8(b).is_ok()
}

/// Reads the session that a CONFIG payload sets up: its text when it is
/// UTF-8, else the defaults.
pub fn parse_config(payload: &[u8]) -> (r: Session)
    ensures
        r == config_of(payload@),
        is_ascii(payload@) ==> r == text_config(payload@),
{
    proof {
        lemma_ascii_is_utf8(payload@);
    }
    if is_utf8(payload) {
        parse_text_config(payload)
    } else {
        Session::defaults()
    }
}

fn is_false_word(f: &[u8]) -> (r: bool)
    ensures
        r == (f@ == false_word()),
{
    let r = f.len() == 5 && f[0] == 102 && f[1] == 97 && f[2] == 108 && f[3] == 115 && f[4]
        == 101;
    assert(r ==> f@ =~= false_word());
    r
}

proof fn lemma_split_nonempty(s: Seq<u8>)
    ensures
        split_spaces(s).len() >= 1,
    decreases s.len(),
{
    if s.len() > 0 {
        lemma_split_nonempty(s.drop_last());
    }
}

proof fn lemma_split_no_space(s: Seq<u8>)
    requires
        forall|k: int| 0 <= k < s.len() ==> s[k] != 32,
    ensures
        split_spaces(s) == seq![s],
    decreases s.len(),
{
    if s.len() > 0 {
        lemma_split_no_space(s.drop_last());
        assert(s.drop_last().push(s.last()) =~= s);
        assert(split_spaces(s) =~= seq![s]);
    } else {
        assert(s =~= Seq::<u8>::empty());
    }
}

proof fn lemma_split_concat(s: Seq<u8>, t: Seq<u8>)
    ensures
        split_spaces(s + seq![32u8] + t) == split_spaces(s) + split_spaces(t),
    decreases t.len(),
{
    let u = s + seq![32u8] + t;
    if t.len() == 0 {
        assert(u.drop_last() =~= s);
        assert(split_spaces(t) =~= seq![Seq::<u8>::empty()]);
        assert(split_spaces(u) =~= split_spaces(s) + split_spaces(t));
    } else {
        assert(u.drop_last() =~= s + seq![32u8] + t.drop_last());
        lemma_split_concat(s, t.drop_last());
        lemma_split_nonempty(t.drop_last());
        lemma_split_nonempty(s);
        assert(split_spaces(u) =~= split_spaces(s) + split_spaces(t));
    }
}

/// A field that `parse_number` reads as it is: one or more digits, with a
/// value that fits in a `usize`.
pub open spec fn plain_number(f: Seq<u8>) -> bool {
    &&& f.len() > 0
    &&& forall|k: int| 0 <= k < f.len() ==> is_digit(#[trigger] f[k])
    &&& decimal(f) <= usize::MAX
}

/// The CONFIG text `D R B` of three plain numbers sets bit depth `D`, rate
/// `R` and buffer `B` exactly, with auto-fill left on. A payload that is no
/// UTF-8, or a text of another number of fields, leaves every default; a
/// field of three or four that is no number leaves its own default.
pub proof fn lemma_config_numbers(d: Seq<u8>, r: Seq<u8>, b: Seq<u8>, other: Seq<u8>)
    requires
        plain_number(d),
        plain_number(r),
        plain_number(b),
    ensures
        text_config(d + seq![32u8] + r + seq![32u8] + b) == (Session {
            bit_depth: decimal(d) as usize,
            rate: decimal(r) as usize,
            buffer: decimal(b) as usize,
            auto_fill: true,
        }),
        !valid_utf8(other) ==> config_of(other) == default_session(),
        ({
            let f = split_spaces(trim(other));
            f.len() != 3 && f.len() != 4 ==> text_config(other) == default_session()
        }),
        ({
            let f = split_spaces(trim(other));
            (f.len() == 3 || f.len() == 4) ==> {
                &&& parse_number(f[0]) is None ==> text_config(other).bit_depth == DEFAULT_BIT_DEPTH
                &&& parse_number(f[1]) is None ==> text_config(other).rate == DEFAULT_RATE
                &&& parse_number(f[2]) is None ==> text_config(other).buffer == DEFAULT_BUFFER
            }
        }),
{
    let p = d + seq![32u8] + r + seq![32u8] + b;
    assert(!is_blank(p[0]));
    assert(p.last() == b.last());
    assert(!is_blank(b.last()));
    assert(trim_start(p) == p);
    assert(trim(p) == p);
    assert forall|k: int| 0 <= k < d.len() implies d[k] != 32 by {
        assert(is_digit(d[k]));
    }
    assert forall|k: int| 0 <= k < r.len() implies r[k] != 32 by {
        assert(is_digit(r[k]));
    }
    assert forall|k: int| 0 <= k < b.len() implies b[k] != 32 by {
        assert(is_digit(b[k]));
    }
    lemma_split_no_space(d);
    lemma_split_no_space(r);
    lemma_split_no_space(b);
    lemma_split_concat(d + seq![32u8] + r, b);
    lemma_split_concat(d, r);
    let f = split_spaces(p);
    assert(f =~= seq![d, r, b]);
    assert(is_digit(d[0]));
    assert(is_digit(r[0]));
    assert(is_digit(b[0]));
    assert(unsigned_digits(d) == d);
    assert(unsigned_digits(r) == r);
    assert(unsigned_digits(b) == b);
}

} // verus!
