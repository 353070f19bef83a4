//! Length-delimited framing of messages on the wire.
//!
//! A frame is a length delimiter, the body's length as an unsigned LEB128
//! varint (protobuf's encoding), followed by the body. Outgoing frames are
//! written with `prost`'s delimiter encoder. Incoming frames are read one byte
//! at a time by a [`ReaderBuffer`], whose delimiter decoder reads at most eight
//! bytes of delimiter (so lengths below 2^56).

use vstd::prelude::*;
use crate::buffer::{
    buffer_as_slice, buffer_clear, buffer_contents, buffer_extend, buffer_put_u8, buffer_split_to,
    buffer_with_capacity,
};

verus! {

/// `128` to the power `n`: the weight of the `n`-th seven-bit group of a varint.
pub open spec fn pow128(n: nat) -> nat
    decreases n,
{
    if n == 0 {
        1
    } else {
        128 * pow128((n - 1) as nat)
    }
}

/// The unsigned LEB128 varint of `v`: seven bits per byte, least significant
/// group first, the high bit set on every byte but the last.
pub open spec fn varint(v: nat) -> Seq<u8>
    decreases v,
{
    if v < 128 {
        seq![v as u8]
    } else {
        seq![(v % 128 + 128) as u8] + varint(v / 128)
    }
}

/// A frame as it goes on the wire: the delimiter, then the body.
pub open spec fn framed(body: Seq<u8>) -> Seq<u8> {
    varint(body.len()) + body
}

/// `prost::encode_length_delimiter` into an empty `Vec`: it appends the LEB128
/// varint of `length` (`encode_varint` of `length as u64`). A `Vec` always has
/// room for it (`remaining_mut` is `isize::MAX - len`), so the call's error
/// case does not arise and its `Result` is dropped.
#[verifier::external_body]
fn length_delimiter(length: usize) -> (out: Vec<u8>)
    ensures
        out@ == varint(length as nat),
{
    let mut out = Vec::new();
    let _ = prost::encode_length_delimiter(length, &mut out);
    out
}

/// Frames `body` for the wire: its length delimiter followed by the body, as
/// `prost`'s `encode_length_delimited` lays out an encoded message.
pub fn frame_delimited(body: &[u8]) -> (out: Vec<u8>)
    ensures
        out@ == framed(body@),
{
    let mut out = length_delimiter(body.len());
    let ghost head = out@;
    let mut i: usize = 0;
    while i < body.len()
        invariant
            head == varint(body@.len()),
            i <= body@.len(),
            out@ == head + body@.take(i as int),
        decreases body@.len() - i,
    {
        out.push(body[i]);
        assert(body@.take(i + 1) =~= body@.take(i as int).push(body@[i as int]));
        i = i + 1;
    }
    assert(body@.take(body@.len() as int) =~= body@);
    out
}

/// Where the reader of incoming frames stands.
#[derive(Clone, Copy, Debug, PartialEq, Eq, Structural)]
pub enum FramePhase {
    /// Reading the delimiter: `count` bytes of it read so far, summing to `value`.
    Length { value: u64, count: u8 },
    /// Reading the body of a frame of `length` bytes, `remaining` of them still to come.
    Body { length: usize, remaining: usize },
}

/// The phase in which a frame begins.
pub open spec fn fresh_phase() -> FramePhase {
    FramePhase::Length { value: 0, count: 0 }
}

/// What the reader's phase always satisfies.
pub open spec fn frame_wf(phase: FramePhase) -> bool {
    match phase {
        FramePhase::Length { value, count } => count < 8 && value < pow128(count as nat),
        FramePhase::Body { length, remaining } => 0 < remaining <= length,
    }
}

/// Whether the next byte can be taken in: when it is the last byte of a body,
/// the buffer then holds the whole frame (taking the frame off a shorter buffer
/// fails).
pub open spec fn next_byte_fits(phase: FramePhase, buffered: Seq<u8>) -> bool {
    match phase {
        FramePhase::Body { length, remaining } => remaining <= 1 ==> length <= buffered.len() + 1,
        FramePhase::Length { .. } => true,
    }
}

/// One byte read from the wire: the next phase, the next buffer contents and
/// the frame completed by that byte, if any.
///
/// A delimiter byte adds its low seven bits at the weight of its position; the
/// delimiter ends at the first byte without the high bit, or after eight bytes.
/// A delimiter of zero completes an empty frame at once. A body byte is
/// appended to the buffer; the last one completes the frame, which is the first
/// `length` bytes of the buffer, taken off it.
pub open spec fn frame_step(phase: FramePhase, buffered: Seq<u8>, byte: u8) -> (
    FramePhase,
    Seq<u8>,
    Option<Seq<u8>>,
) {
    match phase {
        FramePhase::Length { value, count } => {
            let v = value + (byte % 128) as nat * pow128(count as nat);
            if byte < 128 || count + 1 >= 8 {
                let length = (v as u64) as usize;
                if length == 0 {
                    (fresh_phase(), buffered, Some(Seq::<u8>::empty()))
                } else {
                    (FramePhase::Body { length, remaining: length }, buffered, None)
                }
            } else {
                (FramePhase::Length { value: v as u64, count: (count + 1) as u8 }, buffered, None)
            }
        },
        FramePhase::Body { length, remaining } => {
            let grown = buffered.push(byte);
            if remaining <= 1 {
                (fresh_phase(), grown.skip(length as int), Some(grown.take(length as int)))
            } else {
                (FramePhase::Body { length, remaining: (remaining - 1) as usize }, grown, None)
            }
        },
    }
}

/// Several bytes read from the wire, one after the other: the final phase and
/// buffer, and the frames completed on the way, in order.
pub open spec fn frame_run(phase: FramePhase, buffered: Seq<u8>, input: Seq<u8>) -> (
    FramePhase,
    Seq<u8>,
    Seq<Seq<u8>>,
)
    decreases input.len(),
{
    if input.len() == 0 {
        (phase, buffered, Seq::empty())
    } else {
        let (p1, b1, out) = frame_step(phase, buffered, input[0]);
        let (p2, b2, outs) = frame_run(p1, b1, input.drop_first());
        match out {
            Some(f) => (p2, b2, seq![f] + outs),
            None => (p2, b2, outs),
        }
    }
}

proof fn lemma_pow128_bounds(n: nat)
    requires
        n <= 8,
    ensures
        1 <= pow128(n) <= pow128(8),
        pow128(8) == 0x100_0000_0000_0000,
    decreases n,
{
    reveal_with_fuel(pow128, 9);
    if n > 0 {
        lemma_pow128_bounds((n - 1) as nat);
    }
}

/// The weight `128^count` of the next delimiter byte.
fn group_weight(count: u8) -> (w: u64)
    requires
        count < 8,
    ensures
        w == pow128(count as nat),
{
    let mut w: u64 = 1;
    let mut k: u8 = 0;
    while k < count
        invariant
            k <= count < 8,
            w == pow128(k as nat),
        decreases count - k,
    {
        proof {
            lemma_pow128_bounds((k + 1) as nat);
        }
        w = w * 128;
        k = k + 1;
    }
    w
}

/// A reader of incoming frames: the bytes received and not yet handed out, and
/// where the frame being read stands.
#[derive(Debug)]
pub struct ReaderBuffer {
    bytes: bytes::BytesMut,
    phase: FramePhase,
}

impl ReaderBuffer {
    /// The bytes held, front first.
    pub closed spec fn buffered(&self) -> Seq<u8> {
        buffer_contents(self.bytes)
    }

    /// Where the frame being read stands.
    pub closed spec fn phase(&self) -> FramePhase {
        self.phase
    }

    pub open spec fn wf(&self) -> bool {
        frame_wf(self.phase())
    }

    /// An empty reader, about to read a delimiter, with room for `cap` bytes.
    pub fn with_capacity(cap: usize) -> (r: Self)
        requires
            cap <= isize::MAX,
        ensures
            r.wf(),
            r.phase() == fresh_phase(),
            r.buffered() == Seq::<u8>::empty(),
    {
        ReaderBuffer { bytes: buffer_with_capacity(cap), phase: FramePhase::Length { value: 0, count: 0 } }
    }

    /// Takes in one chunk that a read of the stream produced; the stream has run
    /// out when the chunk is empty, and the result says so.
    pub fn fill_buffer(&mut self, chunk: &[u8]) -> (ran_out: bool)
        requires
            old(self).wf(),
            old(self).buffered().len() + chunk@.len() <= isize::MAX,
        ensures
            final(self).wf(),
            final(self).buffered() == old(self).buffered() + chunk@,
            final(self).phase() == old(self).phase(),
            ran_out == (chunk@.len() == 0),
    {
        buffer_extend(&mut self.bytes, chunk);
        chunk.len() == 0
    }

    /// Takes in one byte read from the wire, and hands out the frame body that
    /// it completes, if any; the delimiter is not part of what is handed out.
    pub fn read_delimited(&mut self, byte: u8) -> (frame: Option<Vec<u8>>)
        requires
            old(self).wf(),
            old(self).buffered().len() < isize::MAX,
            next_byte_fits(old(self).phase(), old(self).buffered()),
        ensures
            final(self).wf(),
            ({
                let (p, b, out) = frame_step(old(self).phase(), old(self).buffered(), byte);
                &&& final(self).phase() == p
                &&& final(self).buffered() == b
                &&& match frame {
                    Some(f) => out == Some(f@),
                    None => out is None,
                }
            }),
    {
        match self.phase {
            FramePhase::Length { value, count } => {
                let weight = group_weight(count);
                let digit: u64 = (byte % 128) as u64;
                proof {
                    lemma_pow128_bounds(count as nat);
                    lemma_pow128_bounds((count + 1) as nat);
                    assert(digit * weight <= 127 * pow128(count as nat)) by (nonlinear_arith)
                        requires
                            digit <= 127,
                            weight == pow128(count as nat),
                    ;
                    assert(pow128((count + 1) as nat) == 128 * pow128(count as nat));
                }
                let v = value + digit * weight;
                if byte < 128 || count + 1 >= 8 {
                    let length = v as usize;
                    if length == 0 {
                        self.phase = FramePhase::Length { value: 0, count: 0 };
                        proof {
                            reveal_with_fuel(pow128, 1);
                        }
                        Some(Vec::new())
                    } else {
                        self.phase = FramePhase::Body { length, remaining: length };
                        None
                    }
                } else {
                    self.phase = FramePhase::Length { value: v, count: count + 1 };
                    None
                }
            },
            FramePhase::Body { length, remaining } => {
                buffer_put_u8(&mut self.bytes, byte);
                if remaining <= 1 {
                    self.phase = FramePhase::Length { value: 0, count: 0 };
                    let frame = buffer_split_to(&mut self.bytes, length);
                    Some(frame)
                } else {
                    self.phase = FramePhase::Body { length, remaining: remaining - 1 };
                    None
                }
            },
        }
    }

    /// Drops the first `amount` bytes held, once the caller has used them.
    pub fn confirm_read(&mut self, amount: usize)
        requires
            old(self).wf(),
            amount <= old(self).buffered().len(),
        ensures
            final(self).wf(),
            final(self).buffered() == old(self).buffered().skip(amount as int),
            final(self).phase() == old(self).phase(),
    {
        let _ = buffer_split_to(&mut self.bytes, amount);
    }

    /// Empties the buffer; the frame being read stands where it stood.
    pub fn clear(&mut self)
        requires
            old(self).wf(),
        ensures
            final(self).wf(),
            final(self).buffered() == Seq::<u8>::empty(),
            final(self).phase() == old(self).phase(),
    {
        buffer_clear(&mut self.bytes);
    }

    /// Where the frame being read stands.
    pub fn frame_phase(&self) -> (res: FramePhase)
        ensures
            res == self.phase(),
    {
        self.phase
    }

    /// The bytes held, front first.
    pub fn read_buffer(&self) -> (s: &[u8])
        ensures
            s@ == self.buffered(),
    {
        buffer_as_slice(&self.bytes)
    }
}


/// Every frame of a sequence, one after the other, as they go on the wire.
pub open spec fn framed_all(bodies: Seq<Seq<u8>>) -> Seq<u8>
    decreases bodies.len(),
{
    if bodies.len() == 0 {
        Seq::empty()
    } else {
        framed(bodies[0]) + framed_all(bodies.drop_first())
    }
}

/// Whether the server's delimiter decoder reads back the length of `body`: its
/// varint takes at most eight bytes, and the length fits a `usize`.
pub open spec fn readable_length(body: Seq<u8>) -> bool {
    body.len() < pow128(8) && body.len() <= usize::MAX
}

/// Reading `x` and then `y` is reading `x + y`: the reader's state after `x`
/// is where `y` is read from, and the frames come out in order.
pub proof fn lemma_frame_run_append(phase: FramePhase, buffered: Seq<u8>, x: Seq<u8>, y: Seq<u8>)
    ensures
        ({
            let (p1, b1, o1) = frame_run(phase, buffered, x);
            let (p2, b2, o2) = frame_run(p1, b1, y);
            frame_run(phase, buffered, x + y) == (p2, b2, o1 + o2)
        }),
    decreases x.len(),
{
    if x.len() == 0 {
        assert(x + y =~= y);
        let (p2, b2, o2) = frame_run(phase, buffered, y);
        assert(Seq::<Seq<u8>>::empty() + o2 =~= o2);
    } else {
        let (p1, b1, out) = frame_step(phase, buffered, x[0]);
        assert((x + y)[0] == x[0]);
        assert((x + y).drop_first() =~= x.drop_first() + y);
        lemma_frame_run_append(p1, b1, x.drop_first(), y);
        let (q1, c1, o1) = frame_run(p1, b1, x.drop_first());
        let (q2, c2, o2) = frame_run(q1, c1, y);
        match out {
            Some(f) => {
                assert(seq![f] + (o1 + o2) =~= (seq![f] + o1) + o2);
            },
            None => {},
        }
    }
}

proof fn lemma_varint_len(v: nat)
    ensures
        varint(v).len() >= 1,
        v < pow128(varint(v).len()),
        v >= 128 ==> varint(v).len() >= 2,
    decreases v,
{
    reveal_with_fuel(pow128, 2);
    if v >= 128 {
        lemma_varint_len(v / 128);
        assert(varint(v).len() == 1 + varint(v / 128).len());
        assert(pow128(varint(v).len()) == 128 * pow128(varint(v / 128).len()));
        assert(v < 128 * pow128(varint(v / 128).len())) by (nonlinear_arith)
            requires
                v / 128 < pow128(varint(v / 128).len()),
                v >= 128,
        ;
    }
}

proof fn lemma_varint_short(v: nat, k: nat)
    requires
        k >= 1,
        v < pow128(k),
    ensures
        varint(v).len() <= k,
    decreases v,
{
    if v >= 128 {
        if k == 1 {
            assert(pow128(1) == 128) by {
                reveal_with_fuel(pow128, 2);
            }
        } else {
            assert(pow128(k) == 128 * pow128((k - 1) as nat));
            assert(v / 128 < pow128((k - 1) as nat)) by (nonlinear_arith)
                requires
                    v < 128 * pow128((k - 1) as nat),
            ;
            lemma_varint_short(v / 128, (k - 1) as nat);
        }
    }
}

proof fn lemma_pow128_step(n: nat)
    ensures
        pow128(n + 1) == 128 * pow128(n),
{
    assert(pow128(n + 1) == 128 * pow128(((n + 1) - 1) as nat));
}

/// Reading the delimiter `varint(v)` from a delimiter state that already
/// holds `value` at `count` bytes ends the delimiter with the length
/// `value + v * 128^count`.
proof fn lemma_read_varint(value: u64, count: u8, buffered: Seq<u8>, v: nat)
    requires
        value < pow128(count as nat),
        count + varint(v).len() <= 8,
    ensures
        ({
            let total = value + v * pow128(count as nat);
            let length = (total as u64) as usize;
            &&& total < pow128(8)
            &&& frame_run(FramePhase::Length { value, count }, buffered, varint(v)) == if length
                == 0 {
                (fresh_phase(), buffered, seq![Seq::<u8>::empty()])
            } else {
                (
                    FramePhase::Body { length, remaining: length },
                    buffered,
                    Seq::<Seq<u8>>::empty(),
                )
            }
        }),
    decreases v,
{
    let p = pow128(count as nat);
    lemma_varint_len(v);
    lemma_pow128_bounds(count as nat);
    let phase = FramePhase::Length { value, count };
    let bytes = varint(v);
    if v < 128 {
        let byte = v as u8;
        assert(bytes =~= seq![byte]);
        assert(byte % 128 == v);
        assert(bytes.drop_first() =~= Seq::<u8>::empty());
        let total = value + v * p;
        lemma_pow128_step(count as nat);
        lemma_pow128_bounds((count + 1) as nat);
        assert(total < 128 * p) by (nonlinear_arith)
            requires
                total == value + v * p,
                value < p,
                v < 128,
        ;
        let (p1, b1, out) = frame_step(phase, buffered, byte);
        assert(frame_run(p1, b1, bytes.drop_first()) == (p1, b1, Seq::<Seq<u8>>::empty()));
        if ((total as u64) as usize) == 0 {
            assert(p1 == fresh_phase() && b1 == buffered && out == Some(Seq::<u8>::empty()));
            assert(seq![Seq::<u8>::empty()] =~= seq![Seq::<u8>::empty()] + Seq::<Seq<u8>>::empty());
        } else {
            assert(out is None);
        }
    } else {
        let byte = (v % 128 + 128) as u8;
        assert(bytes[0] == byte);
        assert(bytes.drop_first() =~= varint(v / 128));
        assert(byte % 128 == v % 128);
        assert(byte >= 128);
        assert(count + 1 < 8);
        lemma_pow128_bounds((count + 1) as nat);
        lemma_pow128_step(count as nat);
        let v1 = value + (v % 128) * p;
        assert(v1 < pow128((count + 1) as nat)) by (nonlinear_arith)
            requires
                v1 == value + (v % 128) * p,
                value < p,
                v % 128 <= 127,
                pow128((count + 1) as nat) == 128 * p,
        ;
        assert(value + v * p == v1 + (v / 128) * pow128((count + 1) as nat)) by (nonlinear_arith)
            requires
                v1 == value + (v % 128) * p,
                pow128((count + 1) as nat) == 128 * p,
                v == 128 * (v / 128) + v % 128,
        ;
        assert(varint(v / 128).len() + 1 == varint(v).len());
        let next = FramePhase::Length { value: v1 as u64, count: (count + 1) as u8 };
        assert(frame_step(phase, buffered, byte) == (next, buffered, Option::<Seq<u8>>::None));
        lemma_read_varint(v1 as u64, (count + 1) as u8, buffered, v / 128);
    }
}

/// Reading `x`, the last `remaining` bytes of a body, completes the frame.
proof fn lemma_read_body(length: usize, remaining: usize, buffered: Seq<u8>, x: Seq<u8>)
    requires
        0 < remaining <= length,
        length <= buffered.len() + remaining,
        x.len() == remaining,
    ensures
        frame_run(FramePhase::Body { length, remaining }, buffered, x) == (
            fresh_phase(),
            (buffered + x).skip(length as int),
            seq![(buffered + x).take(length as int)],
        ),
    decreases remaining,
{
    let grown = buffered.push(x[0]);
    assert(grown + x.drop_first() =~= buffered + x);
    if remaining <= 1 {
        assert(x.drop_first() =~= Seq::<u8>::empty());
        assert(grown =~= buffered + x);
        assert(frame_run(fresh_phase(), grown.skip(length as int), x.drop_first()) == (
            fresh_phase(),
            grown.skip(length as int),
            Seq::<Seq<u8>>::empty(),
        ));
        assert(seq![(buffered + x).take(length as int)] =~= seq![(buffered + x).take(length as int)]
            + Seq::<Seq<u8>>::empty());
    } else {
        assert(frame_step(FramePhase::Body { length, remaining }, buffered, x[0]) == (
            FramePhase::Body { length, remaining: (remaining - 1) as usize },
            grown,
            Option::<Seq<u8>>::None,
        ));
        lemma_read_body(length, (remaining - 1) as usize, grown, x.drop_first());
    }
}

/// Reading one frame from the start of a frame, with nothing held, hands out
/// exactly its body and leaves nothing held.
pub proof fn lemma_frame_roundtrip(body: Seq<u8>)
    requires
        readable_length(body),
    ensures
        frame_run(fresh_phase(), Seq::empty(), framed(body)) == (
            fresh_phase(),
            Seq::<u8>::empty(),
            seq![body],
        ),
{
    let n = body.len();
    lemma_varint_short(n, 8);
    assert(pow128(0) == 1);
    assert(0 + n * pow128(0) == n);
    lemma_read_varint(0, 0, Seq::empty(), n);
    lemma_frame_run_append(fresh_phase(), Seq::empty(), varint(n), body);
    if n == 0 {
        assert(body =~= Seq::<u8>::empty());
        assert(seq![Seq::<u8>::empty()] + Seq::<Seq<u8>>::empty() =~= seq![body]);
    } else {
        lemma_read_body(n as usize, n as usize, Seq::empty(), body);
        assert(Seq::<u8>::empty() + body =~= body);
        assert(body.skip(n as int) =~= Seq::<u8>::empty());
        assert(body.take(n as int) =~= body);
        assert(Seq::<Seq<u8>>::empty() + seq![body] =~= seq![body]);
    }
}

/// The frame reader inverts the framing: reading the frames of any bodies,
/// one after the other, from the start of a frame with nothing held, hands out
/// exactly those bodies in order and leaves nothing held.
pub proof fn lemma_frames_roundtrip(bodies: Seq<Seq<u8>>)
    requires
        forall|i: int| 0 <= i < bodies.len() ==> readable_length(#[trigger] bodies[i]),
    ensures
        frame_run(fresh_phase(), Seq::empty(), framed_all(bodies)) == (
            fresh_phase(),
            Seq::<u8>::empty(),
            bodies,
        ),
    decreases bodies.len(),
{
    if bodies.len() == 0 {
        assert(bodies =~= Seq::<Seq<u8>>::empty());
    } else {
        assert(readable_length(bodies[0]));
        lemma_frame_roundtrip(bodies[0]);
        let rest = bodies.drop_first();
        assert forall|i: int| 0 <= i < rest.len() implies readable_length(#[trigger] rest[i]) by {
            assert(rest[i] == bodies[i + 1]);
        }
        lemma_frames_roundtrip(rest);
        lemma_frame_run_append(fresh_phase(), Seq::empty(), framed(bodies[0]), framed_all(rest));
        assert(seq![bodies[0]] + rest =~= bodies);
    }
}


/// How many bytes a delimiter at the front of `s` takes when at most `cap`
/// more may be read: up to the first byte without the high bit, or `cap`.
pub open spec fn delimiter_len(s: Seq<u8>, cap: nat) -> nat
    decreases cap,
{
    if cap <= 1 || s.len() == 0 || s[0] < 128 {
        1
    } else {
        1 + delimiter_len(s.drop_first(), (cap - 1) as nat)
    }
}

/// The number that little-endian seven-bit groups spell, ignoring each
/// byte's high bit.
pub open spec fn groups_value(t: Seq<u8>) -> nat
    decreases t.len(),
{
    if t.len() == 0 {
        0
    } else {
        (t[0] % 128) as nat + 128 * groups_value(t.drop_first())
    }
}

proof fn lemma_read_delimiter_from(value: u64, count: u8, buffered: Seq<u8>, s: Seq<u8>)
    requires
        count < 8,
        value < pow128(count as nat),
        delimiter_len(s, (8 - count) as nat) <= s.len(),
    ensures
        ({
            let k = delimiter_len(s, (8 - count) as nat);
            let total = value + groups_value(s.take(k as int)) * pow128(count as nat);
            let length = (total as u64) as usize;
            &&& total < pow128(8)
            &&& frame_run(FramePhase::Length { value, count }, buffered, s.take(k as int))
                == if length == 0 {
                (fresh_phase(), buffered, seq![Seq::<u8>::empty()])
            } else {
                (FramePhase::Body { length, remaining: length }, buffered, Seq::<Seq<u8>>::empty())
            }
        }),
    decreases 8 - count,
{
    let cap = (8 - count) as nat;
    let k = delimiter_len(s, cap);
    let t = s.take(k as int);
    let p = pow128(count as nat);
    let byte = s[0];
    lemma_pow128_bounds(count as nat);
    lemma_pow128_bounds((count + 1) as nat);
    lemma_pow128_step(count as nat);
    assert(t[0] == byte);
    let v1 = value + (byte % 128) as nat * p;
    assert(v1 < pow128((count + 1) as nat)) by (nonlinear_arith)
        requires
            v1 == value + (byte % 128) as nat * p,
            value < p,
            byte % 128 < 128,
            pow128((count + 1) as nat) == 128 * p,
    ;
    if cap <= 1 || byte < 128 {
        assert(k == 1);
        assert(t.drop_first() =~= Seq::<u8>::empty());
        assert(groups_value(t.drop_first()) == 0);
        assert(groups_value(t) == (byte % 128) as nat);
        let (p1, b1, out) = frame_step(FramePhase::Length { value, count }, buffered, byte);
        assert(frame_run(p1, b1, t.drop_first()) == (p1, b1, Seq::<Seq<u8>>::empty()));
        if (((v1 as u64) as usize) == 0) {
            assert(seq![Seq::<u8>::empty()] =~= seq![Seq::<u8>::empty()] + Seq::<Seq<u8>>::empty());
        }
    } else {
        let rest = s.drop_first();
        let k1 = delimiter_len(rest, (cap - 1) as nat);
        assert(k == 1 + k1);
        assert(t.drop_first() =~= rest.take(k1 as int));
        assert(8 - (count + 1) == cap - 1);
        lemma_read_delimiter_from(v1 as u64, (count + 1) as u8, buffered, rest);
        let g1 = groups_value(rest.take(k1 as int));
        assert(groups_value(t) == (byte % 128) as nat + 128 * g1);
        assert(value + groups_value(t) * p == v1 + g1 * pow128((count + 1) as nat))
            by (nonlinear_arith)
            requires
                groups_value(t) == (byte % 128) as nat + 128 * g1,
                v1 == value + (byte % 128) as nat * p,
                pow128((count + 1) as nat) == 128 * p,
        ;
        let next = FramePhase::Length { value: v1 as u64, count: (count + 1) as u8 };
        assert(frame_step(FramePhase::Length { value, count }, buffered, byte) == (
            next,
            buffered,
            Option::<Seq<u8>>::None,
        ));
    }
}

/// The delimiter decoder on any bytes, not only canonical varints: from the
/// start of a frame it reads up to the first byte without the high bit, but
/// never more than eight bytes, and takes the seven-bit groups of what it read
/// as the length, least significant first. A length of zero is an empty frame
/// at once; any other starts the body. Nothing is handed out before.
pub proof fn lemma_delimiter_decoding(buffered: Seq<u8>, s: Seq<u8>)
    requires
        delimiter_len(s, 8) <= s.len(),
    ensures
        ({
            let k = delimiter_len(s, 8);
            let length = (groups_value(s.take(k as int)) as u64) as usize;
            &&& 1 <= k <= 8
            &&& groups_value(s.take(k as int)) < pow128(8)
            &&& frame_run(fresh_phase(), buffered, s.take(k as int)) == if length == 0 {
                (fresh_phase(), buffered, seq![Seq::<u8>::empty()])
            } else {
                (FramePhase::Body { length, remaining: length }, buffered, Seq::<Seq<u8>>::empty())
            }
        }),
{
    reveal_with_fuel(pow128, 1);
    assert(pow128(0) == 1);
    lemma_read_delimiter_from(0, 0, buffered, s);
    lemma_delimiter_len_bounds(s, 8);
    let k = delimiter_len(s, 8);
    assert(0 + groups_value(s.take(k as int)) * pow128(0) == groups_value(s.take(k as int)));
}

proof fn lemma_delimiter_len_bounds(s: Seq<u8>, cap: nat)
    ensures
        1 <= delimiter_len(s, cap) <= if cap == 0 { 1 } else { cap },
    decreases cap,
{
    if !(cap <= 1 || s.len() == 0 || s[0] < 128) {
        lemma_delimiter_len_bounds(s.drop_first(), (cap - 1) as nat);
    }
}


/// A varint delimiter reads back as its number and ends exactly after its own
/// bytes: reading `varint(n)` from the start of a frame hands out nothing
/// before its last byte, the buffer is untouched, and the reader then waits
/// for a body of `n as usize` bytes (`n` itself wherever it fits a `usize`;
/// for zero, it has handed out an empty frame and waits for the next
/// delimiter); whatever follows the delimiter is read from that state.
pub proof fn lemma_varint_delimiter(n: nat, buffered: Seq<u8>, rest: Seq<u8>)
    requires
        n < pow128(8),
    ensures
        ({
            let length = (n as u64) as usize;
            frame_run(fresh_phase(), buffered, varint(n)) == if length == 0 {
                (fresh_phase(), buffered, seq![Seq::<u8>::empty()])
            } else {
                (FramePhase::Body { length, remaining: length }, buffered, Seq::<Seq<u8>>::empty())
            }
        }),
        ({
            let (p, b, out) = frame_run(fresh_phase(), buffered, varint(n));
            let (p2, b2, out2) = frame_run(p, b, rest);
            frame_run(fresh_phase(), buffered, varint(n) + rest) == (p2, b2, out + out2)
        }),
{
    lemma_varint_short(n, 8);
    assert(pow128(0) == 1);
    assert(0 + n * pow128(0) == n);
    lemma_read_varint(0, 0, buffered, n);
    lemma_frame_run_append(fresh_phase(), buffered, varint(n), rest);
}

} // verus!
