//! Cutting a byte stream into frames.

use super::error::SerialProtocolError;
use super::frame;
use super::frame::{
    encoded_frame_len, validate_payload_len, SerialFrame, WireFrame, SERIAL_HEADER_LEN,
    SERIAL_MAGIC, SERIAL_MAX_PAYLOAD_LEN,
};
use crate::bytes;
use crate::bytes::read_le;
use vstd::prelude::*;

verus! {

/// Whether a frame may start at byte `i` of `s`.
pub open spec fn magic_at(s: Seq<u8>, i: int) -> bool {
    0 <= i && i + 1 < s.len() && s[i] == 0x53 && s[i + 1] == 0x50
}

/// What is left of `s` when all bytes before the first magic are dropped. Without a magic
/// only a last byte stays that may turn out to be the first half of one. Fewer than two
/// bytes stay as they are.
pub open spec fn after_noise(s: Seq<u8>) -> Seq<u8>
    decreases s.len(),
{
    if s.len() < 2 || magic_at(s, 0) {
        s
    } else if s.len() == 2 {
        if s[1] == 0x53 {
            seq![0x53u8]
        } else {
            seq![]
        }
    } else {
        after_noise(s.skip(1))
    }
}

/// What a decoder makes of a buffer: the frames, what stopped it if it was a fault, and the
/// bytes that it keeps.
#[verifier::ext_equal]
pub struct Drained {
    pub frames: Seq<WireFrame>,
    pub fault: Option<SerialProtocolError>,
    pub rest: Seq<u8>,
}

/// The frame whose bytes are `s`.
pub open spec fn frame_of(s: Seq<u8>) -> WireFrame {
    choose|f: WireFrame| f.fits() && s == #[trigger] frame::frame_bytes(f)
}

/// All whole frames at the front of `s`, with the noise before each dropped, up to the first
/// fault. A buffer that announces too long a payload is kept; a frame with a fault is not.
pub open spec fn drained(s: Seq<u8>) -> Drained
    decreases s.len(),
{
    proof {
        lemma_after_noise_len(s);
    }
    let b = after_noise(s);
    let payload_len = frame::field(b, 8, 12);
    let len = frame::frame_len(payload_len) as int;
    if b.len() < 16 {
        Drained { frames: seq![], fault: None, rest: b }
    } else if payload_len > SERIAL_MAX_PAYLOAD_LEN {
        Drained {
            frames: seq![],
            fault: Some(
                SerialProtocolError::PayloadTooLarge {
                    actual: payload_len as usize,
                    max: SERIAL_MAX_PAYLOAD_LEN,
                },
            ),
            rest: b,
        }
    } else if b.len() < len {
        Drained { frames: seq![], fault: None, rest: b }
    } else if frame::first_fault(b.take(len)) is Some {
        Drained { frames: seq![], fault: frame::first_fault(b.take(len)), rest: b.skip(len) }
    } else {
        let next = drained(b.skip(len));
        Drained { frames: seq![frame_of(b.take(len))] + next.frames, ..next }
    }
}

/// What the frames of a sequence say.
pub open spec fn frame_views(frames: Seq<SerialFrame>) -> Seq<WireFrame> {
    frames.map_values(|f: SerialFrame| f@)
}

/// Collects bytes as they arrive and gives out whole frames.
#[derive(Debug)]
pub struct SerialStreamDecoder {
    buffer: Vec<u8>,
}

impl View for SerialStreamDecoder {
    type V = Seq<u8>;

    closed spec fn view(&self) -> Seq<u8> {
        self.buffer@
    }
}

impl SerialStreamDecoder {
    /// A decoder with nothing buffered.
    pub fn new() -> (decoder: Self)
        ensures
            decoder@ == Seq::<u8>::empty(),
    {
        SerialStreamDecoder { buffer: Vec::new() }
    }

    /// How many bytes are buffered.
    pub fn buffered_len(&self) -> (len: usize)
        ensures
            len == self@.len(),
    {
        self.buffer.len()
    }

    /// Takes in `bytes` and gives out all frames that are whole now. On a fault the frames
    /// before it are lost.
    pub fn push_bytes(&mut self, bytes: &[u8]) -> (result: Result<
        Vec<SerialFrame>,
        SerialProtocolError,
    >)
        ensures
            final(self)@ == drained(old(self)@ + bytes@).rest,
            match drained(old(self)@ + bytes@).fault {
                Some(e) => result == Err::<Vec<SerialFrame>, SerialProtocolError>(e),
                None => result matches Ok(frames) && frame_views(frames@) == drained(
                    old(self)@ + bytes@,
                ).frames,
            },
    {
        self.buffer.extend_from_slice(bytes);
        assert(self.buffer@ =~= old(self)@ + bytes@);
        let ghost whole = drained(self.buffer@);
        let mut frames: Vec<SerialFrame> = Vec::new();
        assert(frame_views(frames@) + whole.frames =~= whole.frames);
        loop
            invariant_except_break
                frame_views(frames@) + drained(self.buffer@).frames == whole.frames,
                drained(self.buffer@).fault == whole.fault,
                drained(self.buffer@).rest == whole.rest,
            invariant
                whole == drained(old(self)@ + bytes@),
            ensures
                frame_views(frames@) == whole.frames,
                whole.fault is None,
                self.buffer@ == whole.rest,
            decreases self.buffer@.len(),
        {
            let ghost before = self.buffer@;
            proof {
                lemma_after_noise_len(before);
            }
            self.discard_until_magic();
            if self.buffer.len() < SERIAL_HEADER_LEN {
                assert(frame_views(frames@) + seq![] =~= frame_views(frames@));
                break;
            }
            proof {
                bytes::lemma_byte_ranges();
            }
            let payload_len: u64 = read_le(self.buffer.as_slice(), 8, 4);
            let payload_len: usize = payload_len as usize;
            match validate_payload_len(payload_len) {
                Ok(_) => {},
                Err(e) => return Err(e),
            }
            let frame_len: usize = encoded_frame_len(payload_len);
            if self.buffer.len() < frame_len {
                assert(frame_views(frames@) + seq![] =~= frame_views(frames@));
                break;
            }
            let ghost kept = self.buffer@;
            let tail: Vec<u8> = self.buffer.split_off(frame_len);
            assert(self.buffer@ =~= kept.take(frame_len as int));
            assert(tail@ =~= kept.skip(frame_len as int));
            let decoded = SerialFrame::decode(self.buffer.as_slice());
            self.buffer = tail;
            match decoded {
                Ok(frame) => {
                    proof {
                        frame::law_frame_bytes_are_injective(
                            frame@,
                            frame_of(kept.take(frame_len as int)),
                        );
                        assert(frame_views(frames@.push(frame)) =~= frame_views(frames@).push(
                            frame@,
                        ));
                        assert(frame_views(frames@) + (seq![frame@] + drained(tail@).frames)
                            =~= frame_views(frames@).push(frame@) + drained(tail@).frames);
                    }
                    frames.push(frame);
                },
                Err(e) => return Err(e),
            }
        }
        Ok(frames)
    }

    /// How many bytes a frame under way needs and how many are there, if one is under way.
    pub fn pending_need(&mut self) -> (result: Result<
        Option<(usize, usize)>,
        SerialProtocolError,
    >)
        ensures
            final(self)@ == after_noise(old(self)@),
            ({
                let b = after_noise(old(self)@);
                let payload_len = frame::field(b, 8, 12);
                if b.len() == 0 {
                    result == Ok::<Option<(usize, usize)>, SerialProtocolError>(None)
                } else if b.len() < 16 {
                    result == Ok::<Option<(usize, usize)>, SerialProtocolError>(
                        Some((16, b.len() as usize)),
                    )
                } else if payload_len > SERIAL_MAX_PAYLOAD_LEN {
                    result == Err::<Option<(usize, usize)>, SerialProtocolError>(
                        SerialProtocolError::PayloadTooLarge {
                            actual: payload_len as usize,
                            max: SERIAL_MAX_PAYLOAD_LEN,
                        },
                    )
                } else if b.len() >= frame::frame_len(payload_len) {
                    result == Ok::<Option<(usize, usize)>, SerialProtocolError>(None)
                } else {
                    result == Ok::<Option<(usize, usize)>, SerialProtocolError>(
                        Some((frame::frame_len(payload_len) as usize, b.len() as usize)),
                    )
                }
            }),
    {
        self.discard_until_magic();
        if self.buffer.len() == 0 {
            return Ok(None);
        }
        if self.buffer.len() < SERIAL_HEADER_LEN {
            return Ok(Some((SERIAL_HEADER_LEN, self.buffer.len())));
        }
        proof {
            bytes::lemma_byte_ranges();
        }
        let payload_len: u64 = read_le(self.buffer.as_slice(), 8, 4);
        let payload_len: usize = payload_len as usize;
        match validate_payload_len(payload_len) {
            Ok(_) => {},
            Err(e) => return Err(e),
        }
        let needed: usize = encoded_frame_len(payload_len);
        if self.buffer.len() >= needed {
            Ok(None)
        } else {
            Ok(Some((needed, self.buffer.len())))
        }
    }

    /// Drops all buffered bytes.
    pub fn clear(&mut self)
        ensures
            final(self)@ == Seq::<u8>::empty(),
    {
        self.buffer.clear();
    }

    /// Drops the noise in front of the first magic.
    fn discard_until_magic(&mut self)
        ensures
            final(self)@ == after_noise(old(self)@),
    {
        let len: usize = self.buffer.len();
        if len < 2 {
            return;
        }
        let ghost all = self.buffer@;
        assert(all.skip(0) =~= all);
        let mut pos: usize = 0;
        while pos + 1 < len && !(self.buffer[pos] == SERIAL_MAGIC[0] && self.buffer[pos + 1]
            == SERIAL_MAGIC[1])
            invariant
                2 <= len == all.len(),
                self.buffer@ == all,
                pos <= len - 1,
                pos < len - 1 ==> after_noise(all) == after_noise(all.skip(pos as int)),
                pos == len - 1 ==> after_noise(all) == if all.last() == 0x53 {
                    seq![0x53u8]
                } else {
                    seq![]
                },
            decreases len - pos,
        {
            assert(all.skip(pos as int).skip(1) =~= all.skip(pos + 1));
            pos = pos + 1;
        }
        if pos + 1 < len {
            let tail: Vec<u8> = self.buffer.split_off(pos);
            assert(tail@ =~= all.skip(pos as int));
            self.buffer = tail;
        } else {
            let last: u8 = self.buffer[len - 1];
            self.buffer.clear();
            if last == SERIAL_MAGIC[0] {
                self.buffer.push(last);
            }
            assert(self.buffer@ =~= after_noise(all));
        }
    }
}

impl Default for SerialStreamDecoder {
    fn default() -> (decoder: Self)
        ensures
            decoder@ == Seq::<u8>::empty(),
    {
        Self::new()
    }
}

/// Dropping noise never adds bytes.
pub proof fn lemma_after_noise_len(s: Seq<u8>)
    ensures
        after_noise(s).len() <= s.len(),
    decreases s.len(),
{
    if s.len() > 2 && !magic_at(s, 0) {
        lemma_after_noise_len(s.skip(1));
    }
}

/// Whether no frame can start inside `s`.
pub open spec fn is_noise(s: Seq<u8>) -> bool {
    forall|i: int| !#[trigger] magic_at(s, i)
}

/// With a magic in the buffer, later bytes only extend what is left after the noise.
proof fn lemma_noise_before_magic(s: Seq<u8>, i: int, t: Seq<u8>)
    requires
        magic_at(s, i),
    ensures
        after_noise(s + t) == after_noise(s) + t,
        magic_at(after_noise(s), 0),
    decreases s.len(),
{
    if magic_at(s, 0) {
        assert(magic_at(s + t, 0));
    } else {
        assert((s + t).skip(1) =~= s.skip(1) + t);
        assert(magic_at(s.skip(1), i - 1));
        lemma_noise_before_magic(s.skip(1), i - 1, t);
    }
}

/// Without a magic at most one byte stays.
proof fn lemma_noise_alone(s: Seq<u8>)
    requires
        is_noise(s),
    ensures
        after_noise(s).len() <= 1,
        s.len() >= 2 && s.last() == 0x53 ==> after_noise(s) == seq![0x53u8],
        s.len() >= 2 && s.last() != 0x53 ==> after_noise(s) == Seq::<u8>::empty(),
    decreases s.len(),
{
    assert(!magic_at(s, 0));
    if s.len() > 2 {
        assert forall|i: int| !#[trigger] magic_at(s.skip(1), i) by {
            assert(!magic_at(s, i + 1));
        }
        lemma_noise_alone(s.skip(1));
    }
}

/// Noise in front of a magic goes, whatever it is.
proof fn lemma_noise_then_magic(s: Seq<u8>, t: Seq<u8>)
    requires
        is_noise(s),
        magic_at(t, 0),
    ensures
        after_noise(s + t) == t,
    decreases s.len(),
{
    if s.len() == 0 {
        assert(s + t =~= t);
    } else {
        assert(!magic_at(s, 0));
        assert(!magic_at(s + t, 0));
        assert((s + t).skip(1) =~= s.skip(1) + t);
        assert forall|i: int| !#[trigger] magic_at(s.skip(1), i) by {
            assert(!magic_at(s, i + 1));
        }
        lemma_noise_then_magic(s.skip(1), t);
    }
}

/// A buffer without a whole header gives nothing.
proof fn lemma_noise_gives_nothing(s: Seq<u8>)
    requires
        is_noise(s),
    ensures
        drained(s).frames == Seq::<WireFrame>::empty(),
        drained(s).fault is None,
        drained(s).rest == after_noise(s),
{
    lemma_noise_alone(s);
}

/// Whether a decoder that was fed at once and one that was fed in pieces keep the same, but for a
/// last byte that cannot open a frame: alone in the buffer it stays until the next one comes.
pub open spec fn keeps_alike(at_once: Seq<u8>, in_pieces: Seq<u8>) -> bool {
    ||| in_pieces == at_once
    ||| at_once.len() == 0 && in_pieces.len() == 1 && in_pieces[0] != 0x53
}

/// Noise and what is kept of it are the same to a decoder, whatever follows.
proof fn lemma_kept_noise(s: Seq<u8>, t: Seq<u8>)
    requires
        is_noise(s),
    ensures
        drained(s + t).frames == drained(after_noise(s) + t).frames,
        drained(s + t).fault == drained(after_noise(s) + t).fault,
        keeps_alike(drained(s + t).rest, drained(after_noise(s) + t).rest),
{
    lemma_noise_alone(s);
    let n = after_noise(s);
    if s.len() >= 2 {
        let d = s.len() - n.len();
        assert(n =~= s.skip(d));
        assert(n + t =~= (s + t).skip(d));
        if is_noise(s + t) {
            assert forall|i: int| !#[trigger] magic_at(n + t, i) by {
                if magic_at(n + t, i) {
                    assert(magic_at(s + t, i + d));
                }
            }
            lemma_noise_gives_nothing(s + t);
            lemma_noise_gives_nothing(n + t);
            lemma_noise_alone(s + t);
            lemma_noise_alone(n + t);
            if n.len() + t.len() == 0 {
                assert(s + t =~= s);
                assert(n + t =~= n);
            } else {
                assert((n + t).last() == (s + t).last());
                assert((n + t).len() == 1 ==> n + t =~= seq![(n + t).last()]);
            }
        } else {
            let i = choose|i: int| #[trigger] magic_at(s + t, i);
            let front = (s + t).take(d);
            assert(s + t =~= front + (n + t));
            assert forall|j: int| 0 <= j < d implies !#[trigger] magic_at(front + (n + t), j) by {
                assert(!magic_at(s, j));
            }
            assert(i >= d);
            assert(magic_at(n + t, i - d));
            lemma_drop_front(front, n + t, i - d);
        }
    }
}

/// Bytes in which no frame starts, in front of bytes with a magic, change nothing.
proof fn lemma_drop_front(front: Seq<u8>, s: Seq<u8>, i: int)
    requires
        magic_at(s, i),
        forall|j: int| 0 <= j < front.len() ==> !#[trigger] magic_at(front + s, j),
    ensures
        after_noise(front + s) == after_noise(s),
        drained(front + s) == drained(s),
    decreases front.len(),
{
    if front.len() == 0 {
        assert(front + s =~= s);
    } else {
        assert(!magic_at(front + s, 0));
        assert((front + s).skip(1) =~= front.skip(1) + s);
        assert forall|j: int| 0 <= j < front.skip(1).len() implies !#[trigger] magic_at(
            front.skip(1) + s,
            j,
        ) by {
            assert(!magic_at(front + s, j + 1));
        }
        lemma_drop_front(front.skip(1), s, i);
    }
}

/// Cutting the stream changes nothing: when the first piece went through without a fault,
/// its frames followed by those of the next piece are the frames of both pieces at once, the
/// same fault, if any, ends both, and the same bytes are kept, but for a last one that cannot
/// open a frame.
pub proof fn law_chunks_do_not_matter(s: Seq<u8>, t: Seq<u8>)
    requires
        drained(s).fault is None,
    ensures
        drained(s + t).frames == drained(s).frames + drained(drained(s).rest + t).frames,
        drained(s + t).fault == drained(drained(s).rest + t).fault,
        keeps_alike(drained(s + t).rest, drained(drained(s).rest + t).rest),
    decreases s.len(),
{
    lemma_after_noise_len(s);
    if is_noise(s) {
        lemma_noise_gives_nothing(s);
        lemma_kept_noise(s, t);
        assert(drained(s).frames + drained(drained(s).rest + t).frames =~= drained(
            drained(s).rest + t,
        ).frames);
    } else {
        let i = choose|i: int| #[trigger] magic_at(s, i);
        lemma_noise_before_magic(s, i, t);
        let b = after_noise(s);
        let payload_len = frame::field(b, 8, 12);
        let len = frame::frame_len(payload_len) as int;
        assert(magic_at(b + t, 0));
        assert(after_noise(b + t) == b + t);
        if b.len() < 16 || b.len() < len {
            assert(drained(s).frames + drained(b + t).frames =~= drained(b + t).frames);
        } else {
            assert((b + t).subrange(8, 12) =~= b.subrange(8, 12));
            assert((b + t).take(len) =~= b.take(len));
            assert((b + t).skip(len) =~= b.skip(len) + t);
            law_chunks_do_not_matter(b.skip(len), t);
            let f = frame_of(b.take(len));
            let next = drained(b.skip(len));
            assert(seq![f] + (next.frames + drained(next.rest + t).frames) =~= (seq![f]
                + next.frames) + drained(next.rest + t).frames);
        }
    }
}

/// The bytes of several frames, one after the other.
pub open spec fn wire(frames: Seq<WireFrame>) -> Seq<u8>
    decreases frames.len(),
{
    if frames.len() == 0 {
        seq![]
    } else {
        frame::frame_bytes(frames[0]) + wire(frames.skip(1))
    }
}

/// A decoder recovers: out of noise followed by the bytes of frames it gives exactly these
/// frames, in order, and keeps nothing.
pub proof fn law_frames_come_through(noise: Seq<u8>, frames: Seq<WireFrame>)
    requires
        is_noise(noise),
        frames.len() > 0,
        forall|i: int| 0 <= i < frames.len() ==> (#[trigger] frames[i]).fits(),
    ensures
        drained(noise + wire(frames)) == (Drained { frames, fault: None, rest: seq![] }),
    decreases frames.len(),
{
    let f = frames[0];
    let head = frame::frame_bytes(f);
    let tail = wire(frames.skip(1));
    let s = head + tail;
    frame::lemma_frame_fields(f);
    assert(magic_at(s, 0));
    lemma_noise_then_magic(noise, s);
    let len = frame::frame_len(f.payload.len()) as int;
    assert(s.subrange(8, 12) =~= head.subrange(8, 12));
    assert(s.take(len) =~= head);
    assert(s.skip(len) =~= tail);
    frame::law_encoded_frames_have_no_fault(f);
    frame::law_frame_bytes_are_injective(f, frame_of(head));
    if frames.len() > 1 {
        assert forall|i: int| 0 <= i < frames.skip(1).len() implies (#[trigger] frames.skip(
            1,
        )[i]).fits() by {
            assert(frames[i + 1].fits());
        }
        law_frames_come_through(seq![], frames.skip(1));
        assert(Seq::<u8>::empty() + tail =~= tail);
        assert(seq![f] + frames.skip(1) =~= frames);
    } else {
        assert(tail =~= seq![]);
        assert(drained(tail).frames =~= seq![]);
        assert(seq![f] + Seq::<WireFrame>::empty() =~= frames);
    }
}

/// The bytes of several pieces, one after the other.
pub open spec fn joined(pieces: Seq<Seq<u8>>) -> Seq<u8>
    decreases pieces.len(),
{
    if pieces.len() == 0 {
        seq![]
    } else {
        pieces[0] + joined(pieces.skip(1))
    }
}

/// What a new decoder keeps after it was fed some pieces, call by call.
pub open spec fn kept_after(pieces: Seq<Seq<u8>>) -> Seq<u8>
    decreases pieces.len(),
{
    if pieces.len() == 0 {
        seq![]
    } else {
        drained(kept_after(pieces.drop_last()) + pieces.last()).rest
    }
}

/// What a new decoder makes of piece `i`, after those before it.
pub open spec fn outcome_at(pieces: Seq<Seq<u8>>, i: int) -> Drained {
    drained(kept_after(pieces.take(i)) + pieces[i])
}

/// The frames that a new decoder gives out for some pieces, call by call.
pub open spec fn given_for(pieces: Seq<Seq<u8>>) -> Seq<WireFrame>
    decreases pieces.len(),
{
    if pieces.len() == 0 {
        seq![]
    } else {
        given_for(pieces.drop_last()) + drained(
            kept_after(pieces.drop_last()) + pieces.last(),
        ).frames
    }
}

/// Whether `s` is noise and the bytes of some frames; nothing where there are no frames.
#[verifier::opaque]
spec fn is_clean(s: Seq<u8>, frames: Seq<WireFrame>) -> bool {
    if frames.len() == 0 {
        s.len() == 0
    } else {
        exists|noise: Seq<u8>| #[trigger] is_noise(noise) && s == noise + wire(frames)
    }
}

/// Without bytes there is no magic.
proof fn lemma_nothing_is_noise()
    ensures
        is_noise(Seq::<u8>::empty()),
{
    assert forall|i: int| !#[trigger] magic_at(Seq::<u8>::empty(), i) by {}
}

/// As long as no more than one byte of the first frame has come nothing is given, and what is
/// kept is clean with what is still to come.
proof fn lemma_clean_noise(s: Seq<u8>, t: Seq<u8>, noise: Seq<u8>, frames: Seq<WireFrame>)
    requires
        is_noise(noise),
        frames.len() > 0,
        magic_at(wire(frames), 0),
        s + t == noise + wire(frames),
        s.len() <= noise.len() + 1,
    ensures
        drained(s).fault is None,
        drained(s).frames == Seq::<WireFrame>::empty(),
        is_clean(drained(s).rest + t, frames),
{
    let all = noise + wire(frames);
    assert(s =~= all.take(s.len() as int));
    assert(t =~= all.skip(s.len() as int));
    assert forall|i: int| !#[trigger] magic_at(s, i) by {
        if i + 1 < noise.len() {
            assert(!magic_at(noise, i));
        }
    }
    lemma_noise_gives_nothing(s);
    lemma_noise_alone(s);
    let d = s.len() - after_noise(s).len();
    assert(after_noise(s) =~= s.skip(d));
    let left = noise.skip(d);
    assert forall|i: int| !#[trigger] magic_at(left, i) by {
        assert(!magic_at(noise, i + d));
    }
    assert(is_noise(left));
    assert(drained(s).rest + t =~= left + wire(frames));
    reveal(is_clean);
}

/// What a decoder makes of noise and bytes that announce a payload of a length.
proof fn lemma_announced(noise: Seq<u8>, b: Seq<u8>, payload_len: nat)
    requires
        is_noise(noise),
        magic_at(b, 0),
        payload_len <= SERIAL_MAX_PAYLOAD_LEN,
        b.len() >= 16 ==> frame::field(b, 8, 12) == payload_len,
    ensures
        ({
            let len = frame::frame_len(payload_len) as int;
            drained(noise + b) == if b.len() < len {
                Drained { frames: seq![], fault: None, rest: b }
            } else if frame::first_fault(b.take(len)) is Some {
                Drained {
                    frames: seq![],
                    fault: frame::first_fault(b.take(len)),
                    rest: b.skip(len),
                }
            } else {
                Drained {
                    frames: seq![frame_of(b.take(len))] + drained(b.skip(len)).frames,
                    ..drained(b.skip(len))
                }
            }
        }),
{
    lemma_noise_then_magic(noise, b);
}

/// What a decoder makes of noise and the front of a stream that starts with a frame.
proof fn lemma_frame_in_front(
    noise: Seq<u8>,
    body: Seq<u8>,
    t: Seq<u8>,
    f: WireFrame,
    head: Seq<u8>,
    tail: Seq<u8>,
)
    requires
        is_noise(noise),
        f.fits(),
        head == frame::frame_bytes(f),
        body.len() >= 2,
        body + t == head + tail,
    ensures
        ({
            let len = frame::frame_len(f.payload.len()) as int;
            if body.len() < len {
                drained(noise + body) == (Drained { frames: seq![], fault: None, rest: body })
            } else {
                &&& body.skip(len) + t == tail
                &&& drained(noise + body) == (Drained {
                    frames: seq![f] + drained(body.skip(len)).frames,
                    ..drained(body.skip(len))
                })
            }
        }),
{
    let len = frame::frame_len(f.payload.len()) as int;
    assert(head.len() == len && head[0] == 0x53 && head[1] == 0x50 && frame::field(head, 8, 12)
        == f.payload.len()) by {
        frame::lemma_frame_fields(f);
    }
    assert(frame::first_fault(head) is None && frame_of(head) == f) by {
        frame::law_encoded_frames_have_no_fault(f);
        frame::law_frame_bytes_are_injective(f, frame_of(head));
    }
    lemma_same_front(body, t, head, tail);
    lemma_announced(noise, body, f.payload.len());
}

/// Two ways to cut the same bytes, of which the second starts with at least sixteen.
proof fn lemma_same_front(body: Seq<u8>, t: Seq<u8>, head: Seq<u8>, tail: Seq<u8>)
    requires
        body + t == head + tail,
        body.len() >= 2,
        head.len() >= 16,
    ensures
        body[0] == head[0],
        body[1] == head[1],
        body.len() >= 16 ==> frame::field(body, 8, 12) == frame::field(head, 8, 12),
        body.len() >= head.len() ==> {
            &&& body.take(head.len() as int) == head
            &&& body.skip(head.len() as int) + t == tail
        },
{
    let all = head + tail;
    assert(body =~= all.take(body.len() as int));
    assert(t =~= all.skip(body.len() as int));
    if body.len() >= 16 {
        assert(body.subrange(8, 12) =~= head.subrange(8, 12));
    }
    if body.len() >= head.len() {
        assert(body.take(head.len() as int) =~= head);
        assert(body.skip(head.len() as int) + t =~= tail);
    }
}

/// The front of a clean stream gives the first of its frames, and what it leaves is clean again
/// together with what is still to come. The whole stream gives all frames and leaves nothing.
proof fn lemma_clean_front(s: Seq<u8>, t: Seq<u8>, frames: Seq<WireFrame>) -> (n: nat)
    requires
        is_clean(s + t, frames),
        forall|i: int| 0 <= i < frames.len() ==> (#[trigger] frames[i]).fits(),
    ensures
        n <= frames.len(),
        drained(s).fault is None,
        drained(s).frames == frames.take(n as int),
        is_clean(drained(s).rest + t, frames.skip(n as int)),
        t.len() == 0 ==> n == frames.len(),
    decreases frames.len(),
{
    reveal(is_clean);
    assert(frames.take(0) =~= seq![]);
    assert(frames.skip(0) =~= frames);
    if frames.len() == 0 {
        assert(s.len() == 0);
        0
    } else {
        let noise = choose|noise: Seq<u8>| #[trigger]
            is_noise(noise) && s + t == noise + wire(frames);
        let f = frames[0];
        let others = frames.skip(1);
        let head = frame::frame_bytes(f);
        let tail = wire(others);
        let len = frame::frame_len(f.payload.len()) as int;
        assert(wire(frames) == head + tail);
        assert(magic_at(wire(frames), 0) && head.len() > 2) by {
            frame::lemma_frame_fields(f);
        }
        assert((s + t).len() == s.len() + t.len());
        if s.len() <= noise.len() + 1 {
            lemma_clean_noise(s, t, noise, frames);
            0
        } else {
            let body = s.skip(noise.len() as int);
            lemma_behind_noise(s, t, noise, wire(frames));
            lemma_frame_in_front(noise, body, t, f, head, tail);
            if body.len() < len {
                lemma_frames_are_clean(body + t, frames);
                assert(t.len() > 0) by {
                    frame::lemma_frame_fields(f);
                }
                0
            } else {
                let rest = body.skip(len);
                assert forall|i: int| 0 <= i < others.len() implies (
                #[trigger] others[i]).fits() by {
                    assert(frames[i + 1].fits());
                }
                lemma_frames_are_clean(rest + t, others);
                let m = lemma_clean_front(rest, t, others);
                assert(seq![f] + others.take(m as int) =~= frames.take(m as int + 1));
                assert(others.skip(m as int) =~= frames.skip(m as int + 1));
                m + 1
            }
        }
    }
}

/// The bytes of frames are clean.
proof fn lemma_frames_are_clean(s: Seq<u8>, frames: Seq<WireFrame>)
    requires
        s == wire(frames),
    ensures
        is_clean(s, frames),
{
    reveal(is_clean);
    lemma_nothing_is_noise();
    assert(s =~= Seq::<u8>::empty() + wire(frames));
}

/// Bytes that go beyond the noise start with it.
proof fn lemma_behind_noise(s: Seq<u8>, t: Seq<u8>, noise: Seq<u8>, w: Seq<u8>)
    requires
        s + t == noise + w,
        s.len() >= noise.len(),
    ensures
        s == noise + s.skip(noise.len() as int),
        s.skip(noise.len() as int) + t == w,
{
    let n = noise.len() as int;
    assert(s =~= (noise + w).take(s.len() as int));
    assert(t =~= (noise + w).skip(s.len() as int));
    assert(s =~= noise + s.skip(n));
    assert(s.skip(n) + t =~= w);
}

/// How far a decoder has come after the first `n` pieces of a clean stream.
proof fn lemma_come_so_far(
    noise: Seq<u8>,
    frames: Seq<WireFrame>,
    pieces: Seq<Seq<u8>>,
    n: nat,
) -> (done: nat)
    requires
        is_noise(noise),
        frames.len() > 0,
        forall|i: int| 0 <= i < frames.len() ==> (#[trigger] frames[i]).fits(),
        joined(pieces) == noise + wire(frames),
        n <= pieces.len(),
    ensures
        done <= frames.len(),
        forall|i: int| 0 <= i < n ==> (#[trigger] outcome_at(pieces, i)).fault is None,
        given_for(pieces.take(n as int)) == frames.take(done as int),
        is_clean(
            kept_after(pieces.take(n as int)) + joined(pieces.skip(n as int)),
            frames.skip(done as int),
        ),
        joined(pieces.skip(n as int)).len() == 0 ==> done == frames.len(),
    decreases n,
{
    assert(frames.take(0) =~= seq![]);
    assert(frames.skip(0) =~= frames);
    if n == 0 {
        assert(pieces.take(0) =~= seq![]);
        assert(pieces.skip(0) =~= pieces);
        assert(Seq::<u8>::empty() + joined(pieces) =~= joined(pieces));
        assert(joined(pieces).len() > 0) by {
            frame::lemma_frame_fields(frames[0]);
        }
        assert(is_clean(joined(pieces), frames)) by {
            reveal(is_clean);
        }
        0
    } else {
        let done = lemma_come_so_far(noise, frames, pieces, (n - 1) as nat);
        let piece = pieces[n - 1];
        let kept = kept_after(pieces.take(n - 1));
        let coming = joined(pieces.skip(n as int));
        let others = frames.skip(done as int);
        assert(kept + joined(pieces.skip(n - 1)) =~= (kept + piece) + coming) by {
            assert(pieces.skip(n - 1).skip(1) =~= pieces.skip(n as int));
        }
        assert forall|i: int| 0 <= i < others.len() implies (#[trigger] others[i]).fits() by {
            assert(frames[i + done].fits());
        }
        let more = lemma_clean_front(kept + piece, coming, others);
        assert(frames.take(done as int) + others.take(more as int) =~= frames.take(
            (done + more) as int,
        ));
        assert(others.skip(more as int) =~= frames.skip((done + more) as int));
        let now = pieces.take(n as int);
        assert(now.drop_last() =~= pieces.take(n - 1) && now.last() == piece);
        assert(kept_after(now) == drained(kept + piece).rest);
        assert(given_for(now) == frames.take(done as int) + drained(kept + piece).frames);
        done + more
    }
}

/// Out of noise followed by the bytes of frames a decoder gives exactly these frames, in order,
/// however the bytes are cut into pieces: no call meets a fault, and nothing is kept at the end.
pub proof fn law_frames_come_through_in_pieces(
    noise: Seq<u8>,
    frames: Seq<WireFrame>,
    pieces: Seq<Seq<u8>>,
)
    requires
        is_noise(noise),
        frames.len() > 0,
        forall|i: int| 0 <= i < frames.len() ==> (#[trigger] frames[i]).fits(),
        joined(pieces) == noise + wire(frames),
    ensures
        forall|i: int| 0 <= i < pieces.len() ==> (#[trigger] outcome_at(pieces, i)).fault is None,
        given_for(pieces) == frames,
        kept_after(pieces) == Seq::<u8>::empty(),
{
    let n = pieces.len();
    let done = lemma_come_so_far(noise, frames, pieces, n);
    assert(pieces.take(n as int) =~= pieces);
    assert(pieces.skip(n as int) =~= seq![]);
    assert(frames.take(done as int) =~= frames);
    reveal(is_clean);
}

/// A frame with one changed byte in its payload or its checksum is reported as such, and costs
/// nothing but itself: the bytes behind it are kept, and the frames that they hold come through
/// with the next call.
pub proof fn law_a_damaged_frame_costs_no_other(
    noise: Seq<u8>,
    f: WireFrame,
    i: int,
    b: u8,
    behind: Seq<WireFrame>,
)
    requires
        is_noise(noise),
        f.fits(),
        16 <= i < 20 + f.payload.len(),
        b != frame::frame_bytes(f)[i],
        behind.len() > 0,
        forall|j: int| 0 <= j < behind.len() ==> (#[trigger] behind[j]).fits(),
    ensures
        ({
            let bad = frame::frame_bytes(f).update(i, b);
            let first = drained(noise + bad + wire(behind));
            &&& first.fault matches Some(SerialProtocolError::ChecksumMismatch { .. })
            &&& first.rest == wire(behind)
            &&& drained(first.rest + Seq::<u8>::empty()) == (Drained {
                frames: behind,
                fault: None,
                rest: seq![],
            })
        }),
{
    let bad = frame::frame_bytes(f).update(i, b);
    let coming = wire(behind);
    let s = bad + coming;
    let len = frame::frame_len(f.payload.len()) as int;
    frame::lemma_frame_fields(f);
    frame::law_damaged_frames_fail_the_checksum(f, i, b);
    assert(magic_at(s, 0));
    lemma_noise_then_magic(noise, s);
    assert(noise + bad + coming =~= noise + s);
    assert(s.subrange(8, 12) =~= bad.subrange(8, 12));
    assert(s.take(len) =~= bad);
    assert(s.skip(len) =~= coming);
    let none = Seq::<u8>::empty();
    lemma_nothing_is_noise();
    law_frames_come_through(none, behind);
    assert(none + coming =~= coming);
    assert(coming + none =~= coming);
}

} // verus!
