//! WebSocket frames: the wire format, serialization of server frames and an
//! incremental reader for frames that arrive in arbitrary chunks.
use crate::bytes_be::{
    be_bytes, be_value, lemma_be_round_trip, pow256, read_be_u16,
    read_be_u64, write_be_u16, write_be_u64,
};
use vstd::prelude::*;

verus! {

#[derive(Clone, Copy, Debug, PartialEq, Eq, Structural)]
pub enum OpCode {
    Continuation,
    Text,
    Binary,
    Close,
    Ping,
    Pong,
}

/// The four-bit code of an opcode on the wire.
pub open spec fn opcode_bits(op: OpCode) -> u8 {
    match op {
        OpCode::Continuation => 0,
        OpCode::Text => 1,
        OpCode::Binary => 2,
        OpCode::Close => 8,
        OpCode::Ping => 9,
        OpCode::Pong => 10,
    }
}

/// The opcode with code `v`, if `v` is not reserved.
pub open spec fn opcode_of(v: u8) -> Option<OpCode> {
    if v == 0 {
        Some(OpCode::Continuation)
    } else if v == 1 {
        Some(OpCode::Text)
    } else if v == 2 {
        Some(OpCode::Binary)
    } else if v == 8 {
        Some(OpCode::Close)
    } else if v == 9 {
        Some(OpCode::Ping)
    } else if v == 10 {
        Some(OpCode::Pong)
    } else {
        None
    }
}

impl OpCode {
    pub open spec fn spec_is_control(self) -> bool {
        self == OpCode::Close || self == OpCode::Ping || self == OpCode::Pong
    }

    /// Close, Ping and Pong are control frames.
    #[verifier::when_used_as_spec(spec_is_control)]
    pub fn is_control(self) -> (r: bool)
        ensures
            r == self.spec_is_control(),
    {
        match self {
            OpCode::Close | OpCode::Ping | OpCode::Pong => true,
            _ => false,
        }
    }

    pub fn bits(self) -> (r: u8)
        ensures
            r == opcode_bits(self),
    {
        match self {
            OpCode::Continuation => 0,
            OpCode::Text => 1,
            OpCode::Binary => 2,
            OpCode::Close => 8,
            OpCode::Ping => 9,
            OpCode::Pong => 10,
        }
    }

    pub fn from_bits(v: u8) -> (r: Option<OpCode>)
        ensures
            r == opcode_of(v),
    {
        if v == 0 {
            Some(OpCode::Continuation)
        } else if v == 1 {
            Some(OpCode::Text)
        } else if v == 2 {
            Some(OpCode::Binary)
        } else if v == 8 {
            Some(OpCode::Close)
        } else if v == 9 {
            Some(OpCode::Ping)
        } else if v == 10 {
            Some(OpCode::Pong)
        } else {
            None
        }
    }
}

/// What a frame means, apart from its encoding.
pub struct FrameSpec {
    pub fin: bool,
    pub opcode: OpCode,
    pub payload: Seq<u8>,
}

/// One frame. Reserved bits are always clear: no extension is negotiated.
#[derive(Clone, Debug, PartialEq, Eq)]
pub struct Frame {
    pub fin: bool,
    pub opcode: OpCode,
    pub payload: Vec<u8>,
}

impl View for Frame {
    type V = FrameSpec;

    open spec fn view(&self) -> FrameSpec {
        FrameSpec { fin: self.fin, opcode: self.opcode, payload: self.payload@ }
    }
}

/// The largest payload of a control frame.
pub const MAX_CONTROL_PAYLOAD: usize = 125;

/// A frame that RFC 6455 allows: control frames are final and short, and the
/// length fits in 63 bits.
pub open spec fn valid_frame(f: FrameSpec) -> bool {
    &&& f.payload.len() < pow256(8) / 2
    &&& f.opcode.spec_is_control() ==> f.fin && f.payload.len() <= 125
}

pub open spec fn first_byte(fin: bool, op: OpCode) -> u8 {
    ((if fin { 128u8 } else { 0u8 }) + opcode_bits(op)) as u8
}

/// The length field: one byte (with the mask bit `mask`), then 0, 2 or 8
/// bytes of extended length.
pub open spec fn length_field(len: nat, mask: bool) -> Seq<u8> {
    let m: nat = if mask { 128 } else { 0 };
    if len <= 125 {
        seq![(m + len) as u8]
    } else if len <= 65535 {
        seq![(m + 126) as u8] + be_bytes(len, 2)
    } else {
        seq![(m + 127) as u8] + be_bytes(len, 8)
    }
}

/// `p` masked (or unmasked) with the four-byte key `key`.
pub open spec fn apply_mask(p: Seq<u8>, key: Seq<u8>) -> Seq<u8> {
    Seq::new(p.len(), |i: int| p[i] ^ key[i % 4])
}

/// A frame as a server sends it: no masking key.
pub open spec fn frame_bytes(f: FrameSpec) -> Seq<u8> {
    seq![first_byte(f.fin, f.opcode)] + length_field(f.payload.len(), false) + f.payload
}

/// A frame as a client sends it, masked with `key`.
pub open spec fn masked_frame_bytes(f: FrameSpec, key: Seq<u8>) -> Seq<u8> {
    seq![first_byte(f.fin, f.opcode)] + length_field(f.payload.len(), true) + key
        + apply_mask(f.payload, key)
}

impl Frame {
    /// Appends the frame's encoding, unmasked, to `out`.
    pub fn write_to(&self, out: &mut Vec<u8>)
        ensures
            final(out)@ == old(out)@ + frame_bytes(self@),
    {
        let b0: u8 = if self.fin { 128u8 + self.opcode.bits() } else { self.opcode.bits() };
        out.push(b0);
        let len = self.payload.len();
        if len <= 125 {
            out.push(len as u8);
        } else if len <= 65535 {
            out.push(126u8);
            let ext = write_be_u16(len as u16);
            append(out, &ext);
        } else {
            out.push(127u8);
            let ext = write_be_u64(len as u64);
            append(out, &ext);
        }
        append(out, &self.payload);
        assert(final(out)@ =~= old(out)@ + frame_bytes(self@));
    }

    /// The frame's encoding, unmasked.
    pub fn to_bytes(&self) -> (r: Vec<u8>)
        ensures
            r@ == frame_bytes(self@),
    {
        let mut out: Vec<u8> = Vec::new();
        self.write_to(&mut out);
        assert(out@ =~= frame_bytes(self@));
        out
    }
}

/// Why an inbound byte sequence is not a frame that may be accepted.
#[derive(Clone, Copy, Debug, PartialEq, Eq, Structural)]
pub enum ParseError {
    /// The opcode is one of the reserved codes.
    InvalidOpCode,
    /// A reserved bit is set although no extension was negotiated.
    ReservedBits,
    /// A client frame without a mask, or a server frame with one.
    MaskMismatch,
    /// A control frame that is not final.
    FragmentedControl,
    /// A control frame with more than 125 bytes of payload.
    OversizedControl,
    /// A 64-bit length with its top bit set.
    LengthOverflow,
}

/// What the start of a byte sequence holds.
pub enum Decoded {
    /// More bytes are needed before anything can be said.
    Incomplete,
    /// The bytes seen so far cannot start an acceptable frame.
    Failed(ParseError),
    /// A frame, encoded in the first `n` bytes.
    Done(FrameSpec, nat),
}

/// Checks of the first two bytes of a frame; `masked` says whether frames
/// must carry a mask (frames from clients) or must not (frames from servers).
pub open spec fn head_check(b0: u8, b1: u8, masked: bool) -> Option<ParseError> {
    if opcode_of(b0 % 16) is None {
        Some(ParseError::InvalidOpCode)
    } else if b0 % 128 >= 16 {
        Some(ParseError::ReservedBits)
    } else if (b1 >= 128) != masked {
        Some(ParseError::MaskMismatch)
    } else if opcode_of(b0 % 16).unwrap().spec_is_control() && b0 < 128 {
        Some(ParseError::FragmentedControl)
    } else if opcode_of(b0 % 16).unwrap().spec_is_control() && b1 % 128 > 125 {
        Some(ParseError::OversizedControl)
    } else {
        None
    }
}

/// How many bytes of extended length follow a seven-bit length of `short`.
pub open spec fn ext_size(short: u8) -> nat {
    if short == 126 {
        2
    } else if short == 127 {
        8
    } else {
        0
    }
}

/// The payload length that the header at the start of `s` announces.
pub open spec fn announced_len(s: Seq<u8>) -> nat {
    let short = s[1] % 128;
    if short <= 125 {
        short as nat
    } else {
        be_value(s.subrange(2, 2 + ext_size(short) as int))
    }
}

/// Length of the header at the start of `s`, masking key included.
pub open spec fn header_len(s: Seq<u8>, masked: bool) -> nat {
    2 + ext_size(s[1] % 128) + if masked {
        4nat
    } else {
        0nat
    }
}

/// The first frame at the start of `s`, as far as `s` decides it.
pub open spec fn decode(s: Seq<u8>, masked: bool) -> Decoded {
    if s.len() < 2 {
        Decoded::Incomplete
    } else {
        match head_check(s[0], s[1], masked) {
            Some(e) => Decoded::Failed(e),
            None => {
                let short = s[1] % 128;
                let key_at = 2 + ext_size(short);
                if s.len() < key_at {
                    Decoded::Incomplete
                } else if short == 127 && s[2] >= 128 {
                    Decoded::Failed(ParseError::LengthOverflow)
                } else {
                    let head = header_len(s, masked);
                    let n = head + announced_len(s);
                    if s.len() < n {
                        Decoded::Incomplete
                    } else {
                        let ghost body = s.subrange(head as int, n as int);
                        Decoded::Done(
                            FrameSpec {
                                fin: s[0] >= 128,
                                opcode: opcode_of(s[0] % 16).unwrap(),
                                payload: if masked {
                                    apply_mask(body, s.subrange(key_at as int, head as int))
                                } else {
                                    body
                                },
                            },
                            n,
                        )
                    }
                }
            }
        }
    }
}

/// How many bytes `s` must hold before `decode` can decide its next step.
pub open spec fn decision_point(s: Seq<u8>, masked: bool) -> nat {
    if s.len() < 2 || head_check(s[0], s[1], masked) is Some {
        2
    } else if s.len() < 2 + ext_size(s[1] % 128) || (s[1] % 128 == 127 && s[2] >= 128) {
        2 + ext_size(s[1] % 128)
    } else {
        header_len(s, masked) + announced_len(s)
    }
}

/// The result of offering bytes to a [`FrameReader`].
#[derive(Debug)]
pub enum ReadResult {
    /// All the bytes offered were taken; the frame is not complete yet.
    NeedMore,
    /// A complete frame; bytes after it were left in the input.
    Frame(Frame),
    /// The bytes cannot be a frame; the connection should be closed.
    Error(ParseError),
}

/// Assembles frames from bytes that arrive in arbitrary chunks. It holds the
/// bytes of at most one frame in progress.
pub struct FrameReader {
    masked: bool,
    pending: Vec<u8>,
}

pub struct FrameReaderView {
    pub masked: bool,
    pub pending: Seq<u8>,
}

impl View for FrameReader {
    type V = FrameReaderView;

    closed spec fn view(&self) -> FrameReaderView {
        FrameReaderView { masked: self.masked, pending: self.pending@ }
    }
}

impl FrameReader {
    /// A frame in progress is never yet decided.
    pub open spec fn wf(&self) -> bool {
        decode(self@.pending, self@.masked) is Incomplete
    }

    /// A reader for frames that a client sends: every frame must be masked.
    pub fn new() -> (r: FrameReader)
        ensures
            r.wf(),
            r@.masked,
            r@.pending == Seq::<u8>::empty(),
    {
        FrameReader { masked: true, pending: Vec::new() }
    }

    /// A reader for frames that a server sends: no frame may be masked.
    pub fn new_unmasked() -> (r: FrameReader)
        ensures
            r.wf(),
            !r@.masked,
            r@.pending == Seq::<u8>::empty(),
    {
        FrameReader { masked: false, pending: Vec::new() }
    }

    /// Takes bytes of `input` from `start` on until a frame is complete, an
    /// error shows, or the input is used up. Returns the result and the
    /// position of the first byte not taken.
    pub fn read(&mut self, input: &[u8], start: usize) -> (r: (ReadResult, usize))
        requires
            old(self).wf(),
            start <= input@.len(),
        ensures
            start <= r.1 <= input@.len(),
            final(self)@.masked == old(self)@.masked,
            ({
                let taken = old(self)@.pending + input@.subrange(start as int, r.1 as int);
                match r.0 {
                    ReadResult::NeedMore => {
                        &&& r.1 == input@.len()
                        &&& decode(taken, old(self)@.masked) is Incomplete
                        &&& final(self)@.pending == taken
                        &&& final(self).wf()
                    },
                    ReadResult::Frame(f) => {
                        &&& decode(taken, old(self)@.masked) == Decoded::Done(f@, taken.len())
                        &&& final(self)@.pending == Seq::<u8>::empty()
                        &&& final(self).wf()
                    },
                    ReadResult::Error(e) => decode(taken, old(self)@.masked) == Decoded::Failed(e),
                }
            }),
    {
        let masked = self.masked;
        let pos0 = start;
        let mut pos = start;
        loop
            invariant
                pos0 == start,
                pos0 <= pos <= input@.len(),
                self.masked == masked,
                masked == old(self)@.masked,
                self.pending@ == old(self)@.pending + input@.subrange(pos0 as int, pos as int),
                self.pending@.len() <= decision_point(self.pending@, masked),
            decreases input@.len() - pos,
        {
            let have = self.pending.len();
            let need: u128;
            if have < 2 {
                need = 2;
            } else {
                let b0 = self.pending[0];
                let b1 = self.pending[1];
                match check_head(b0, b1, masked) {
                    Some(e) => {
                        return (ReadResult::Error(e), pos);
                    },
                    None => {},
                }
                let short = b1 % 128;
                let ext: usize = if short == 126 {
                    2
                } else if short == 127 {
                    8
                } else {
                    0
                };
                if have < 2 + ext {
                    need = (2 + ext) as u128;
                } else if short == 127 && self.pending[2] >= 128 {
                    return (ReadResult::Error(ParseError::LengthOverflow), pos);
                } else {
                    let plen: u64 = if short <= 125 {
                        short as u64
                    } else if short == 126 {
                        read_be_u16(self.pending.as_slice(), 2) as u64
                    } else {
                        read_be_u64(self.pending.as_slice(), 2)
                    };
                    let key_at: usize = 2 + ext;
                    let head: usize = if masked {
                        key_at + 4
                    } else {
                        key_at
                    };
                    let total: u128 = head as u128 + plen as u128;
                    if (have as u128) < total {
                        need = total;
                    } else {
                        let frame = self.take_frame(key_at, head);
                        return (ReadResult::Frame(frame), pos);
                    }
                }
            }
            assert(need == decision_point(self.pending@, masked));
            if pos == input.len() {
                return (ReadResult::NeedMore, pos);
            }
            let ghost before = self.pending@;
            let room = need - have as u128;
            let avail = input.len() - pos;
            let take: usize = if room < avail as u128 {
                room as usize
            } else {
                avail
            };
            let end = pos + take;
            let mut i = pos;
            while i < end
                invariant
                    pos0 == start,
                    pos0 <= pos <= i <= end <= input@.len(),
                    self.masked == masked,
                    self.pending@ == old(self)@.pending + input@.subrange(pos0 as int, i as int),
                decreases end - i,
            {
                self.pending.push(input[i]);
                i = i + 1;
                assert(self.pending@ =~= old(self)@.pending + input@.subrange(pos0 as int, i as int));
            }
            pos = end;
            proof {
                assert(self.pending@.subrange(0, before.len() as int) =~= before);
                lemma_decision_point_extend(before, self.pending@, masked);
            }
        }
    }
}

impl FrameReader {
    /// Cuts the complete frame that the pending bytes hold.
    fn take_frame(&mut self, key_at: usize, head: usize) -> (r: Frame)
        requires
            old(self)@.pending.len() >= 2,
            head_check(old(self)@.pending[0], old(self)@.pending[1], old(self)@.masked) is None,
            !(old(self)@.pending[1] % 128 == 127 && old(self)@.pending[2] >= 128),
            key_at == 2 + ext_size(old(self)@.pending[1] % 128),
            head == header_len(old(self)@.pending, old(self)@.masked),
            head + announced_len(old(self)@.pending) == old(self)@.pending.len(),
        ensures
            decode(old(self)@.pending, old(self)@.masked) == Decoded::Done(
                r@,
                old(self)@.pending.len(),
            ),
            final(self)@.pending == Seq::<u8>::empty(),
            final(self)@.masked == old(self)@.masked,
    {
        let ghost s = self.pending@;
        let b0 = self.pending[0];
        let n = self.pending.len();
        let mut payload: Vec<u8> = Vec::new();
        let mut i = head;
        while i < n
            invariant
                head <= i <= n,
                n == s.len(),
                self.pending@ == s,
                key_at + 4 <= head || !self.masked,
                key_at <= head,
                payload@.len() == i - head,
                forall|j: int|
                    0 <= j < i - head ==> payload@[j] == if self.masked {
                        s[head + j] ^ s[key_at + j % 4]
                    } else {
                        s[head + j]
                    },
            decreases n - i,
        {
            let b = if self.masked {
                self.pending[i] ^ self.pending[key_at + (i - head) % 4]
            } else {
                self.pending[i]
            };
            payload.push(b);
            i = i + 1;
        }
        let ghost body = s.subrange(head as int, n as int);
        let ghost key = s.subrange(key_at as int, head as int);
        if self.masked {
            assert(payload@ =~= apply_mask(body, key));
        } else {
            assert(payload@ =~= body);
        }
        self.pending.clear();
        Frame { fin: b0 >= 128, opcode: OpCode::from_bits(b0 % 16).unwrap(), payload }
    }
}

/// Everything a byte sequence holds, read frame after frame: the frames,
/// the bytes after the last one, and the error that stopped the reading, if
/// any.
pub open spec fn frames_of(s: Seq<u8>, masked: bool) -> (Seq<FrameSpec>, Seq<u8>, Option<ParseError>)
    decreases s.len(),
{
    match decode(s, masked) {
        Decoded::Done(f, n) => {
            if 0 < n <= s.len() {
                let r = frames_of(s.skip(n as int), masked);
                (seq![f] + r.0, r.1, r.2)
            } else {
                (Seq::empty(), s, None)
            }
        },
        Decoded::Failed(e) => (Seq::empty(), s, Some(e)),
        Decoded::Incomplete => (Seq::empty(), s, None),
    }
}

pub open spec fn frame_views(v: Seq<Frame>) -> Seq<FrameSpec> {
    v.map_values(|f: Frame| f@)
}

impl FrameReader {
    /// Reads every frame that the pending bytes and `chunk` complete. Stops at
    /// the first error; otherwise the bytes of an unfinished frame stay
    /// pending.
    pub fn read_frames(&mut self, chunk: &[u8]) -> (r: (Vec<Frame>, Option<ParseError>))
        requires
            old(self).wf(),
        ensures
            final(self)@.masked == old(self)@.masked,
            ({
                let x = frames_of(old(self)@.pending + chunk@, old(self)@.masked);
                &&& frame_views(r.0@) == x.0
                &&& r.1 == x.2
                &&& r.1 is None ==> final(self).wf() && final(self)@.pending == x.1
            }),
    {
        let ghost masked = self@.masked;
        let ghost all = old(self)@.pending + chunk@;
        let mut frames: Vec<Frame> = Vec::new();
        let mut pos: usize = 0;
        assert(self@.pending + chunk@.subrange(0, 0) =~= self@.pending);
        assert(chunk@.subrange(0, chunk@.len() as int) =~= chunk@);
        loop
            invariant
                self.wf(),
                self@.masked == masked,
                masked == old(self)@.masked,
                all == old(self)@.pending + chunk@,
                pos <= chunk@.len(),
                ({
                    let y = frames_of(self@.pending + chunk@.subrange(pos as int, chunk@.len() as int), masked);
                    let x = frames_of(all, masked);
                    &&& x.0 == frame_views(frames@) + y.0
                    &&& x.1 == y.1
                    &&& x.2 == y.2
                }),
            decreases chunk@.len() - pos,
        {
            let ghost cur = self@.pending + chunk@.subrange(pos as int, chunk@.len() as int);
            let ghost before = self@.pending;
            let (res, next) = self.read(chunk, pos);
            let ghost taken = before + chunk@.subrange(pos as int, next as int);
            let ghost after = chunk@.subrange(next as int, chunk@.len() as int);
            assert(cur =~= taken + after);
            match res {
                ReadResult::NeedMore => {
                    assert(after =~= Seq::<u8>::empty());
                    assert(taken + after =~= taken);
                    assert(self@.pending + chunk@.subrange(next as int, chunk@.len() as int) =~= taken);
                    return (frames, None);
                },
                ReadResult::Error(e) => {
                    proof { lemma_decode_extend(taken, after, masked); }
                    return (frames, Some(e));
                },
                ReadResult::Frame(f) => {
                    proof { lemma_decode_extend(taken, after, masked); }
                    assert(cur.skip(taken.len() as int) =~= after);
                    assert(self@.pending + after =~= after);
                    let ghost old_frames = frames@;
                    frames.push(f);
                    assert(frame_views(frames@) =~= frame_views(old_frames) + seq![f@]);
                    assert(frame_views(frames@) + frames_of(after, masked).0 =~= frame_views(old_frames)
                        + frames_of(cur, masked).0);
                    pos = next;
                },
            }
        }
    }
}

/// Once the start of `s` decides a frame or an error, bytes after `s` change
/// nothing.
pub proof fn lemma_decode_extend(s: Seq<u8>, t: Seq<u8>, masked: bool)
    requires
        !(decode(s, masked) is Incomplete),
    ensures
        decode(s + t, masked) == decode(s, masked),
{
    let u = s + t;
    assert forall|i: int| 0 <= i < s.len() implies u[i] == s[i] by {}
    if s.len() >= 2 && head_check(s[0], s[1], masked) is None {
        let short = s[1] % 128;
        let key_at = 2 + ext_size(short);
        if s.len() >= key_at {
            assert(u.subrange(2, key_at as int) =~= s.subrange(2, key_at as int));
            if !(short == 127 && s[2] >= 128) {
                let head = header_len(s, masked);
                let n = head + announced_len(s);
                assert(announced_len(u) == announced_len(s));
                if s.len() >= n {
                    assert(u.subrange(head as int, n as int) =~= s.subrange(head as int, n as int));
                    assert(u.subrange(key_at as int, head as int) =~= s.subrange(key_at as int, head as int));
                }
            }
        }
    }
}

/// Bytes added up to the decision point leave the decision point ahead or at
/// the end.
proof fn lemma_decision_point_extend(s: Seq<u8>, t: Seq<u8>, masked: bool)
    requires
        s.len() <= t.len() <= decision_point(s, masked),
        t.subrange(0, s.len() as int) == s,
    ensures
        t.len() <= decision_point(t, masked),
{
    if s.len() >= 2 {
        assert(t[0] == s[0] && t[1] == s[1]) by {
            assert(t.subrange(0, s.len() as int)[0] == t[0]);
            assert(t.subrange(0, s.len() as int)[1] == t[1]);
        }
        let ext = ext_size(s[1] % 128);
        if head_check(s[0], s[1], masked) is None && s.len() >= 2 + ext && !(s[1] % 128 == 127
            && s[2] >= 128) {
            assert(t.subrange(2, 2 + ext as int) =~= s.subrange(2, 2 + ext as int)) by {
                assert forall|i: int| 2 <= i < 2 + ext implies t[i] == s[i] by {
                    assert(t.subrange(0, s.len() as int)[i] == t[i]);
                }
            }
            if ext == 8 {
                assert(t[2] == s[2]) by {
                    assert(t.subrange(0, s.len() as int)[2] == t[2]);
                }
            }
        }
    }
}

fn check_head(b0: u8, b1: u8, masked: bool) -> (r: Option<ParseError>)
    ensures
        r == head_check(b0, b1, masked),
{
    match OpCode::from_bits(b0 % 16) {
        None => Some(ParseError::InvalidOpCode),
        Some(op) => {
            if b0 % 128 >= 16 {
                Some(ParseError::ReservedBits)
            } else if (b1 >= 128) != masked {
                Some(ParseError::MaskMismatch)
            } else if op.is_control() && b0 < 128 {
                Some(ParseError::FragmentedControl)
            } else if op.is_control() && b1 % 128 > 125 {
                Some(ParseError::OversizedControl)
            } else {
                None
            }
        },
    }
}

/// Appends the bytes of `src` to `out`.
pub fn append(out: &mut Vec<u8>, src: &[u8])
    ensures
        final(out)@ == old(out)@ + src@,
{
    let mut i: usize = 0;
    while i < src.len()
        invariant
            i <= src@.len(),
            out@ == old(out)@ + src@.subrange(0, i as int),
        decreases src@.len() - i,
    {
        out.push(src[i]);
        i = i + 1;
        assert(out@ =~= old(out)@ + src@.subrange(0, i as int));
    }
    assert(src@.subrange(0, i as int) =~= src@);
}

} // verus!

verus! {

/// Reading `a` and then `b` yields what reading `a + b` at once yields: the
/// frames of `a`, then those that its leftover bytes and `b` complete. If
/// `a` holds an error, `b` changes neither its frames nor that error.
pub proof fn lemma_chunking_irrelevant(a: Seq<u8>, b: Seq<u8>, masked: bool)
    ensures
        ({
            let x = frames_of(a, masked);
            let y = frames_of(x.1 + b, masked);
            let z = frames_of(a + b, masked);
            &&& x.2 is None ==> z.0 == x.0 + y.0 && z.1 == y.1 && z.2 == y.2
            &&& x.2 is Some ==> z.0 == x.0 && z.2 == x.2
        }),
    decreases a.len(),
{
    match decode(a, masked) {
        Decoded::Done(f, n) => {
            lemma_decode_extend(a, b, masked);
            if 0 < n <= a.len() {
                assert((a + b).skip(n as int) =~= a.skip(n as int) + b);
                lemma_chunking_irrelevant(a.skip(n as int), b, masked);
                let x = frames_of(a, masked);
                let y = frames_of(x.1 + b, masked);
                let w = frames_of(a.skip(n as int), masked);
                assert(x.2 is None ==> seq![f] + (w.0 + y.0) =~= (seq![f] + w.0) + y.0);
            }
        },
        Decoded::Failed(e) => {
            lemma_decode_extend(a, b, masked);
        },
        Decoded::Incomplete => {
            assert(Seq::<FrameSpec>::empty() + frames_of(a + b, masked).0 =~= frames_of(a + b, masked).0);
        },
    }
}

/// `a ^ k ^ k == a`.
proof fn lemma_xor_twice(a: u8, k: u8)
    ensures
        (a ^ k) ^ k == a,
{
    assert((a ^ k) ^ k == a) by (bit_vector);
}

/// Masking twice with the same key gives the payload back.
pub proof fn lemma_mask_involution(p: Seq<u8>, key: Seq<u8>)
    requires
        key.len() == 4,
    ensures
        apply_mask(apply_mask(p, key), key) == p,
{
    assert forall|i: int| 0 <= i < p.len() implies apply_mask(apply_mask(p, key), key)[i] == p[i] by {
        lemma_xor_twice(p[i], key[i % 4]);
    }
    assert(apply_mask(apply_mask(p, key), key) =~= p);
}

pub proof fn lemma_pow256_values()
    ensures
        pow256(2) == 65536,
        pow256(7) == 0x100_0000_0000_0000,
        pow256(8) == 0x1_0000_0000_0000_0000,
{
    reveal_with_fuel(pow256, 9);
}

/// The first of `k` big-endian bytes of `n`.
proof fn lemma_be_first_byte(n: nat, k: nat)
    requires
        k >= 1,
    ensures
        be_bytes(n, k).len() == k,
        be_bytes(n, k)[0] == (n / pow256((k - 1) as nat)) % 256,
    decreases k,
{
    if k == 1 {
        assert(be_bytes(n / 256, 0) =~= Seq::<u8>::empty());
        assert(pow256(0) == 1);
    } else {
        lemma_be_first_byte(n / 256, (k - 1) as nat);
        let p = pow256((k - 2) as nat);
        assert(pow256((k - 1) as nat) == 256 * p);
        crate::bytes_be::lemma_pow256_positive((k - 2) as nat);
        assert(n / 256 / p == n / (256 * p)) by {
            vstd::arithmetic::div_mod::lemma_div_denominator(n as int, 256, p as int);
        }
    }
}

/// The encoding of a valid frame, masked with a four-byte key or unmasked.
pub open spec fn wire(f: FrameSpec, masked: bool, key: Seq<u8>) -> Seq<u8> {
    if masked {
        masked_frame_bytes(f, key)
    } else {
        frame_bytes(f)
    }
}

/// A valid frame's encoding, followed by any bytes, decodes to that frame.
pub proof fn lemma_decode_wire(f: FrameSpec, masked: bool, key: Seq<u8>, rest: Seq<u8>)
    requires
        valid_frame(f),
        masked ==> key.len() == 4,
    ensures
        decode(wire(f, masked, key) + rest, masked) == Decoded::Done(f, wire(f, masked, key).len()),
{
    let w = wire(f, masked, key);
    let s = w + rest;
    let len = f.payload.len();
    let lf = length_field(len, masked);
    let b0 = first_byte(f.fin, f.opcode);
    let keyb: Seq<u8> = if masked { key } else { Seq::empty() };
    let body = if masked { apply_mask(f.payload, key) } else { f.payload };
    assert(w =~= seq![b0] + lf + keyb + body);
    lemma_pow256_values();
    let ext: nat = if len <= 125 { 0 } else if len <= 65535 { 2 } else { 8 };
    if ext == 2 {
        lemma_be_round_trip(len, 2);
    } else if ext == 8 {
        lemma_be_round_trip(len, 8);
        lemma_be_first_byte(len, 8);
        assert(len / 0x100_0000_0000_0000 < 128) by (nonlinear_arith)
            requires
                len < 0x8000_0000_0000_0000,
        ;
    }
    assert(lf.len() == 1 + ext);
    assert(s[0] == b0);
    assert(s[1] == lf[0]);
    assert(s[1] % 128 == if ext == 0 { len } else if ext == 2 { 126 } else { 127 });
    assert(ext_size(s[1] % 128) == ext);
    assert(s.subrange(2, 2 + ext as int) =~= lf.subrange(1, 1 + ext as int));
    if ext > 0 {
        assert(lf.subrange(1, 1 + ext as int) =~= be_bytes(len, ext));
        assert(s[2] == lf[1]);
    }
    assert(announced_len(s) == len);
    let head = header_len(s, masked);
    assert(head == 1 + lf.len() + keyb.len());
    assert(s.subrange(head as int, (head + len) as int) =~= body);
    assert(s.subrange((2 + ext) as int, head as int) =~= keyb);
    if masked {
        lemma_mask_involution(f.payload, key);
    }
    assert(b0 % 16 == opcode_bits(f.opcode));
    assert(opcode_of(b0 % 16) == Some(f.opcode));
    assert((b0 >= 128) == f.fin);
}

/// The frames that a client sends one after another, each masked with its key.
pub open spec fn masked_stream(fs: Seq<FrameSpec>, keys: Seq<Seq<u8>>) -> Seq<u8>
    decreases fs.len(),
{
    if fs.len() == 0 || keys.len() == 0 {
        Seq::empty()
    } else {
        masked_frame_bytes(fs[0], keys[0]) + masked_stream(fs.drop_first(), keys.drop_first())
    }
}

/// A stream of valid masked frames reads back as exactly those frames, with
/// nothing left over and no error. Together with
/// [`lemma_chunking_irrelevant`] this holds however the stream is cut into
/// chunks.
pub proof fn lemma_stream_reads_back(fs: Seq<FrameSpec>, keys: Seq<Seq<u8>>)
    requires
        fs.len() == keys.len(),
        forall|i: int| 0 <= i < fs.len() ==> valid_frame(#[trigger] fs[i]),
        forall|i: int| 0 <= i < keys.len() ==> (#[trigger] keys[i]).len() == 4,
    ensures
        frames_of(masked_stream(fs, keys), true) == (fs, Seq::<u8>::empty(), None::<ParseError>),
    decreases fs.len(),
{
    let s = masked_stream(fs, keys);
    if fs.len() == 0 {
        assert(decode(s, true) is Incomplete);
        assert(fs =~= Seq::<FrameSpec>::empty());
    } else {
        let w = masked_frame_bytes(fs[0], keys[0]);
        let rest = masked_stream(fs.drop_first(), keys.drop_first());
        assert(valid_frame(fs[0]));
        assert(keys[0].len() == 4);
        lemma_decode_wire(fs[0], true, keys[0], rest);
        assert forall|i: int| 0 <= i < fs.drop_first().len() implies valid_frame(
            #[trigger] fs.drop_first()[i],
        ) by {
            assert(fs.drop_first()[i] == fs[i + 1]);
        }
        assert forall|i: int| 0 <= i < keys.drop_first().len() implies (
        #[trigger] keys.drop_first()[i]).len() == 4 by {
            assert(keys.drop_first()[i] == keys[i + 1]);
        }
        lemma_stream_reads_back(fs.drop_first(), keys.drop_first());
        assert(s.skip(w.len() as int) =~= rest);
        assert(seq![fs[0]] + fs.drop_first() =~= fs);
    }
}

/// Parsing the bytes of a valid server frame gives the frame back, and
/// serializing what was parsed gives the same bytes.
pub proof fn lemma_server_frame_round_trip(f: FrameSpec)
    requires
        valid_frame(f),
    ensures
        decode(frame_bytes(f), false) == Decoded::Done(f, frame_bytes(f).len()),
        match decode(frame_bytes(f), false) {
            Decoded::Done(g, n) => frame_bytes(g) == frame_bytes(f) && n == frame_bytes(f).len(),
            _ => false,
        },
{
    lemma_decode_wire(f, false, Seq::empty(), Seq::empty());
    assert(frame_bytes(f) + Seq::<u8>::empty() =~= frame_bytes(f));
}

} // verus!
