//! The network side of a session: negotiation from the first datagram, and
//! what each later datagram or read timeout asks of the stream queue.

use vstd::prelude::*;
use crate::session::{
    Session,
    config_of,
    decimal,
    is_digit,
    default_session,
    lemma_config_numbers,
    parse_config,
    plain_number,
    is_ascii,
    lemma_ascii_is_utf8,
    text_config,
};
use crate::wire::{
    PacketKind,
    kind_of,
    classify,
    data_samples,
    decode_data,
    silence_count,
    silence_field,
    silence_length,
    silence_samples,
    le_signed,
    group,
    lemma_le_signed_fits,
};

verus! {

/// How long a session may go without a datagram before it ends.
pub const SILENCE_WINDOW_MS: u64 = 1000;

/// The read timeout with auto-fill on: the listener polls at this interval
/// and counts quiet time up to the silence window, while playback fills the
/// gap with silence.
pub const FILL_POLL_MS: u64 = 250;

/// The session that the first datagram establishes: the one its CONFIG text
/// sets up, or the defaults for any other datagram.
pub open spec fn established(first: Seq<u8>) -> Session {
    if kind_of(first) == PacketKind::Config {
        config_of(first.drop_first())
    } else {
        default_session()
    }
}

/// Establishes the session from the first datagram.
pub fn establish(first: &[u8]) -> (r: Session)
    ensures
        r == established(first@),
        kind_of(first@) == PacketKind::Config && is_ascii(first@.drop_first()) ==> r
            == text_config(first@.drop_first()),
{
    proof {
        lemma_ascii_is_utf8(first@.drop_first());
    }
    match classify(first) {
        PacketKind::Config => {
            let payload = &first[1..first.len()];
            assert(payload@ =~= first@.drop_first());
            parse_config(payload)
        },
        _ => Session::defaults(),
    }
}

/// Bytes per sample of a session.
pub open spec fn sample_width(s: Session) -> nat {
    (s.bit_depth / 8) as nat
}

/// Whether samples of the session's width fit the `i32` sample type.
pub open spec fn supported(s: Session) -> bool {
    1 <= sample_width(s) <= 4
}

/// The read timeout, in milliseconds, of an active session.
pub open spec fn read_timeout(s: Session) -> nat {
    if s.auto_fill {
        FILL_POLL_MS as nat
    } else {
        SILENCE_WINDOW_MS as nat
    }
}

/// Whether a read timeout after `idle` quiet milliseconds ends the session:
/// without auto-fill the first one does; with it, the one that brings the
/// quiet time to the silence window.
pub open spec fn timeout_ends(s: Session, idle: nat) -> bool {
    !s.auto_fill || idle + read_timeout(s) >= SILENCE_WINDOW_MS
}

/// `n` zero samples.
pub open spec fn zeros(n: nat) -> Seq<i32> {
    Seq::new(n, |i: int| 0i32)
}

/// The samples that a datagram of an active session sends to the stream
/// queue, which holds `queued` samples; `None` when it sends nothing.
/// CONFIG datagrams are ignored; a SILENCE datagram stands for zeros unless
/// the queue already holds more than the target buffer; DATA is always
/// forwarded.
pub open spec fn forwarded(s: Session, d: Seq<u8>, queued: nat) -> Option<Seq<i32>> {
    match kind_of(d) {
        PacketKind::Data => Some(data_samples(d, sample_width(s))),
        PacketKind::Silence => {
            if queued > s.buffer {
                None
            } else {
                match silence_field(d) {
                    Some(len) => Some(zeros(silence_count(len, sample_width(s)))),
                    None => None,
                }
            }
        },
        _ => None,
    }
}

/// What the network side does after a datagram or a timeout.
#[derive(Debug)]
pub enum Step {
    /// Tear the session down.
    End,
    /// Wait for the next datagram.
    Skip,
    /// Send these samples to the stream queue, in order.
    Push(Vec<i32>),
}

pub struct ListenerView {
    pub session: Session,
    pub idle_ms: nat,
}

/// The state of an active session on the network side.
pub struct Listener {
    session: Session,
    width: usize,
    idle_ms: u64,
}

impl View for Listener {
    type V = ListenerView;

    closed spec fn view(&self) -> ListenerView {
        ListenerView { session: self.session, idle_ms: self.idle_ms as nat }
    }
}

impl Listener {
    pub closed spec fn wf(&self) -> bool {
        &&& supported(self.session)
        &&& self.width as nat == sample_width(self.session)
        &&& self.idle_ms < SILENCE_WINDOW_MS
    }

    /// Starts the network side of an established session; `None` when its
    /// bit depth gives no sample width from one to four bytes.
    pub fn start(session: Session) -> (r: Option<Listener>)
        ensures
            r is Some <==> supported(session),
            r matches Some(l) ==> l.wf() && l@.session == session && l@.idle_ms == 0,
    {
        let width = session.bit_depth / 8;
        if 1 <= width && width <= 4 {
            Some(Listener { session, width, idle_ms: 0 })
        } else {
            None
        }
    }

    /// The session's parameters.
    pub fn session(&self) -> (r: Session)
        ensures
            r == self@.session,
    {
        self.session
    }

    /// Bytes per sample.
    pub fn width(&self) -> (r: usize)
        requires
            self.wf(),
        ensures
            r as nat == sample_width(self@.session),
            1 <= r <= 4,
    {
        self.width
    }

    /// The read timeout, in milliseconds, to set on the socket.
    pub fn read_timeout_ms(&self) -> (r: u64)
        ensures
            r as nat == read_timeout(self@.session),
    {
        if self.session.auto_fill {
            FILL_POLL_MS
        } else {
            SILENCE_WINDOW_MS
        }
    }

    /// Decides what a datagram asks for, while the stream queue holds
    /// `queued` samples. A zero-length datagram ends the session; any
    /// datagram resets the quiet time.
    pub fn on_datagram(&mut self, d: &[u8], queued: usize) -> (r: Step)
        requires
            old(self).wf(),
        ensures
            final(self).wf(),
            final(self)@.session == old(self)@.session,
            final(self)@.idle_ms == 0,
            r is End <==> d@.len() == 0,
            r is Skip <==> d@.len() > 0 && forwarded(old(self)@.session, d@, queued as nat) is None,
            r matches Step::Push(v) ==> forwarded(old(self)@.session, d@, queued as nat) == Some(
                v@,
            ),
    {
        self.idle_ms = 0;
        match classify(d) {
            PacketKind::Empty => Step::End,
            PacketKind::Config => Step::Skip,
            PacketKind::Silence => {
                if queued > self.session.buffer {
                    return Step::Skip;
                }
                match silence_length(d) {
                    None => Step::Skip,
                    Some(len) => {
                        let n = silence_samples(len, self.width);
                        let mut v: Vec<i32> = Vec::new();
                        let mut i: usize = 0;
                        while i < n
                            invariant
                                i <= n,
                                v@ =~= zeros(i as nat),
                            decreases n - i,
                        {
                            v.push(0);
                            i = i + 1;
                        }
                        Step::Push(v)
                    },
                }
            },
            PacketKind::Data => Step::Push(decode_data(d, self.width)),
        }
    }

    /// Decides what a read timeout asks for: the end of the session, or
    /// another wait with the quiet time grown by one read timeout.
    pub fn on_timeout(&mut self) -> (r: Step)
        requires
            old(self).wf(),
        ensures
            final(self).wf(),
            final(self)@.session == old(self)@.session,
            r is End <==> timeout_ends(old(self)@.session, old(self)@.idle_ms),
            r is Skip <==> !timeout_ends(old(self)@.session, old(self)@.idle_ms),
            r is Skip ==> final(self)@.idle_ms == old(self)@.idle_ms + read_timeout(
                old(self)@.session,
            ),
    {
        if !self.session.auto_fill || self.idle_ms + FILL_POLL_MS >= SILENCE_WINDOW_MS {
            Step::End
        } else {
            self.idle_ms = self.idle_ms + FILL_POLL_MS;
            Step::Skip
        }
    }
}

/// A first datagram CONFIG `D R B` of three plain numbers establishes a
/// session with bit depth `D`, rate `R` and buffer `B` exactly.
pub proof fn lemma_config_establishes(d: Seq<u8>, r: Seq<u8>, b: Seq<u8>)
    requires
        plain_number(d),
        plain_number(r),
        plain_number(b),
    ensures
        established(seq![crate::wire::CONFIG] + d + seq![32u8] + r + seq![32u8] + b) == (Session {
            bit_depth: decimal(d) as usize,
            rate: decimal(r) as usize,
            buffer: decimal(b) as usize,
            auto_fill: true,
        }),
{
    let p = d + seq![32u8] + r + seq![32u8] + b;
    let first = seq![crate::wire::CONFIG] + d + seq![32u8] + r + seq![32u8] + b;
    assert(first.drop_first() =~= p);
    lemma_config_numbers(d, r, b, p);
    assert forall|i: int| 0 <= i < p.len() implies #[trigger] p[i] < 128 by {
        if i < d.len() {
            assert(is_digit(d[i]));
        } else if i == d.len() {
        } else if i < d.len() + 1 + r.len() {
            assert(is_digit(r[i - d.len() - 1]));
        } else if i == d.len() + 1 + r.len() {
        } else {
            assert(is_digit(b[i - d.len() - 2 - r.len()]));
        }
    }
    lemma_ascii_is_utf8(p);
}

/// A SILENCE datagram with length field `L >= 1`, on a queue that holds no
/// more than the target buffer, sends exactly `(L - 1) / w` samples, all zero.
pub proof fn lemma_silence_enqueues_zeros(s: Session, d: Seq<u8>, queued: nat)
    requires
        supported(s),
        kind_of(d) == PacketKind::Silence,
        silence_field(d) matches Some(len) && len >= 1,
        queued <= s.buffer,
    ensures
        forwarded(s, d, queued) matches Some(x) && x.len() == (silence_field(d)->0 - 1) as int
            / (sample_width(s) as int) && forall|i: int| 0 <= i < x.len() ==> x[i] == 0,
{
}

/// A DATA datagram of `S > 1` bytes sends exactly `(S - 1) / w` samples,
/// the `i`-th the little-endian value of the `i`-th group of `w` bytes after
/// the discriminant.
pub proof fn lemma_data_enqueues_groups(s: Session, d: Seq<u8>, queued: nat)
    requires
        supported(s),
        kind_of(d) == PacketKind::Data,
        d.len() > 1,
    ensures
        forwarded(s, d, queued) matches Some(x) && x.len() == (d.len() - 1) as int / (
        sample_width(s) as int) && forall|i: int|
            0 <= i < x.len() ==> x[i] as int == le_signed(group(d, sample_width(s), i)),
{
    let w = sample_width(s);
    let x = data_samples(d, w);
    assert forall|i: int| 0 <= i < x.len() implies x[i] as int == le_signed(group(d, w, i)) by {
        let g = group(d, w, i);
        assert(1 + i * w + w <= d.len()) by (nonlinear_arith)
            requires
                0 <= i < (d.len() - 1) as int / (w as int),
                1 <= w,
        ;
        assert(g.len() == w);
        lemma_le_signed_fits(g);
    }
}

/// The number of read timeouts in a row that end a quiet session.
pub open spec fn quiet_cycles(s: Session) -> nat {
    ((SILENCE_WINDOW_MS + read_timeout(s) - 1) as int / (read_timeout(s) as int)) as nat
}

/// From the last datagram on, the `j`-th read timeout in a row comes after
/// `j` read timeouts of quiet and finds `(j - 1)` of them counted. The session
/// ends at the first of them by which the quiet time reaches the silence
/// window, and at none before: so within one read timeout after the window.
pub proof fn lemma_quiet_teardown(s: Session)
    ensures
        quiet_cycles(s) >= 1,
        timeout_ends(s, ((quiet_cycles(s) - 1) * read_timeout(s)) as nat),
        forall|j: nat| j + 1 < quiet_cycles(s) ==> !#[trigger] timeout_ends(s, j * read_timeout(s)),
        (quiet_cycles(s) - 1) * read_timeout(s) < SILENCE_WINDOW_MS,
        SILENCE_WINDOW_MS <= quiet_cycles(s) * read_timeout(s),
{
    if s.auto_fill {
        assert(read_timeout(s) == 250);
        assert(1249int / 250int == 4);
        assert(quiet_cycles(s) == 4);
        assert forall|j: nat| j + 1 < quiet_cycles(s) implies !#[trigger] timeout_ends(s, j * read_timeout(s)) by {
            assert(j <= 2);
            assert(j * 250 <= 500) by (nonlinear_arith)
                requires
                    j <= 2,
            ;
        }
    } else {
        assert(read_timeout(s) == 1000);
        assert(1999int / 1000int == 1);
        assert(quiet_cycles(s) == 1);
    }
}

} // verus!
