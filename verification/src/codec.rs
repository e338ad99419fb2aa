//! The incremental frame codec: a decoder from an arbitrarily-fragmented
//! byte stream to typed frames, and an encoder from frames back to wire
//! bytes, both specified against a functional model of the wire format.

use vstd::prelude::*;
use crate::frame::{
    Action, DecodeError, FrameView, TelnetFrame, TelnetOption, TelnetSubnegotiation,
    action_byte, option_byte, option_of_byte, spec_payload_decode, spec_payload_encode,
};

verus! {

/// The length of the leading run of content bytes: how many bytes stand
/// before the first sentinel.
pub open spec fn data_run_len(b: Seq<u8>) -> int
    decreases b.len(),
{
    if b.len() == 0 || b[0] == 255 {
        0
    } else {
        1 + data_run_len(b.skip(1))
    }
}

/// `data_run_len` names the longest sentinel-free prefix.
pub proof fn lemma_data_run_len(b: Seq<u8>)
    ensures
        0 <= data_run_len(b) <= b.len(),
        forall|i: int| 0 <= i < data_run_len(b) ==> b[i] != 255,
        data_run_len(b) < b.len() ==> b[data_run_len(b)] == 255,
    decreases b.len(),
{
    if b.len() == 0 || b[0] == 255 {
    } else {
        lemma_data_run_len(b.skip(1));
        assert forall|i: int| 0 <= i < data_run_len(b) implies b[i] != 255 by {
            if i >= 1 {
                assert(b.skip(1)[i - 1] == b[i]);
            }
        }
        if data_run_len(b) < b.len() {
            assert(b.skip(1)[data_run_len(b) - 1] == b[data_run_len(b)]);
        }
    }
}

/// Any index with a sentinel-free prefix before it and a sentinel (or the
/// buffer end) at it is the run length.
pub proof fn lemma_data_run_len_is(b: Seq<u8>, n: int)
    requires
        0 <= n <= b.len(),
        forall|i: int| 0 <= i < n ==> b[i] != 255,
        n < b.len() ==> b[n] == 255,
    ensures
        data_run_len(b) == n,
    decreases b.len(),
{
    if n == 0 {
    } else {
        assert(b[0] != 255);
        assert forall|i: int| 0 <= i < n - 1 implies b.skip(1)[i] != 255 by {
            assert(b.skip(1)[i] == b[i + 1]);
        }
        if n - 1 < b.skip(1).len() {
            assert(b.skip(1)[n - 1] == b[n]);
        }
        lemma_data_run_len_is(b.skip(1), n - 1);
    }
}

/// The position of the first subnegotiation terminator pair (sentinel,
/// 240) at or after index `i`.
pub open spec fn find_terminator_from(b: Seq<u8>, i: int) -> Option<int>
    decreases b.len() - i when 0 <= i
{
    if i < 0 || i + 1 >= b.len() {
        None
    } else if b[i] == 255 && b[i + 1] == 240 {
        Some(i)
    } else {
        find_terminator_from(b, i + 1)
    }
}

/// `find_terminator_from` names the first terminator pair, and reports
/// none exactly when no pair stands in range.
pub proof fn lemma_find_terminator_from(b: Seq<u8>, i: int)
    requires
        0 <= i,
    ensures
        match find_terminator_from(b, i) {
            Some(e) => i <= e && e + 1 < b.len() && b[e] == 255 && b[e + 1] == 240
                && forall|j: int| i <= j < e ==> !(#[trigger] b[j] == 255 && b[j + 1] == 240),
            None => forall|j: int| i <= j && j + 1 < b.len() ==> !(#[trigger] b[j] == 255 && b[j + 1] == 240),
        },
    decreases b.len() - i,
{
    if i + 1 >= b.len() {
    } else if b[i] == 255 && b[i + 1] == 240 {
    } else {
        lemma_find_terminator_from(b, i + 1);
    }
}

/// Any position that is a terminator pair with no pair before it is the
/// one `find_terminator_from` names.
pub proof fn lemma_find_terminator_from_is(b: Seq<u8>, i: int, e: int)
    requires
        0 <= i <= e,
        e + 1 < b.len(),
        b[e] == 255,
        b[e + 1] == 240,
        forall|j: int| i <= j < e ==> !(#[trigger] b[j] == 255 && b[j + 1] == 240),
    ensures
        find_terminator_from(b, i) == Some(e),
    decreases e - i,
{
    if i < e {
        lemma_find_terminator_from_is(b, i + 1, e);
    }
}

/// The outcome of one decoding step on a buffer: wait for more bytes,
/// one frame together with the bytes it consumed, or a recoverable
/// error together with the bytes of the malformed frame.
pub ghost enum DecodeStep {
    Incomplete,
    Frame(FrameView, int),
    Fail(DecodeError, int),
}

/// The action byte of a three-byte negotiation command. Meaningful for
/// bytes 251 through 254 only.
pub open spec fn command_action(b: u8) -> Action {
    if b == 251 {
        Action::Will
    } else if b == 252 {
        Action::Wont
    } else if b == 253 {
        Action::Do
    } else {
        Action::Dont
    }
}

/// What one decoding step does to a buffer: the functional model of the
/// decoder. Either nothing is consumed (`Incomplete`) or exactly the
/// reported count is.
///
/// Subnegotiation payloads are not escaped on the wire, so a payload
/// that itself contains the terminator pair is cut short at that pair:
/// a protocol-level limitation, deliberately kept.
pub open spec fn spec_decode(b: Seq<u8>) -> DecodeStep {
    if b.len() == 0 {
        DecodeStep::Incomplete
    } else if b[0] != 255 {
        DecodeStep::Frame(FrameView::Data(b.take(data_run_len(b))), data_run_len(b))
    } else if b.len() < 2 {
        DecodeStep::Incomplete
    } else if b[1] == 250 {
        match find_terminator_from(b, 2) {
            Some(e) => match spec_payload_decode(b.subrange(2, e)) {
                Ok(v) => DecodeStep::Frame(FrameView::Subnegotiation(v), e + 2),
                Err(er) => DecodeStep::Fail(er, e + 2),
            },
            None => DecodeStep::Incomplete,
        }
    } else if 251 <= b[1] && b[1] <= 254 {
        if b.len() < 3 {
            DecodeStep::Incomplete
        } else {
            DecodeStep::Frame(
                FrameView::Command { action: command_action(b[1]), option: option_of_byte(b[2]) },
                3,
            )
        }
    } else if b[1] == 255 {
        DecodeStep::Frame(FrameView::Data(seq![255u8]), 2)
    } else {
        DecodeStep::Frame(FrameView::Data(seq![b[0], b[1]]), 2)
    }
}

/// Content bytes as they stand on the wire: every sentinel doubled.
pub open spec fn spec_escape(d: Seq<u8>) -> Seq<u8>
    decreases d.len(),
{
    if d.len() == 0 {
        Seq::empty()
    } else if d[0] == 255 {
        seq![255u8, 255u8] + spec_escape(d.skip(1))
    } else {
        seq![d[0]] + spec_escape(d.skip(1))
    }
}

/// Escaping distributes over concatenation.
pub proof fn lemma_escape_concat(a: Seq<u8>, b: Seq<u8>)
    ensures
        spec_escape(a + b) == spec_escape(a) + spec_escape(b),
    decreases a.len(),
{
    if a.len() == 0 {
        assert(a + b =~= b);
        assert(spec_escape(a) + spec_escape(b) =~= spec_escape(b));
    } else {
        assert((a + b)[0] == a[0]);
        assert((a + b).skip(1) =~= a.skip(1) + b);
        lemma_escape_concat(a.skip(1), b);
        if a[0] == 255 {
            assert(seq![255u8, 255u8] + (spec_escape(a.skip(1)) + spec_escape(b)) =~= (
            seq![255u8, 255u8] + spec_escape(a.skip(1))) + spec_escape(b));
        } else {
            assert(seq![a[0]] + (spec_escape(a.skip(1)) + spec_escape(b)) =~= (seq![a[0]]
                + spec_escape(a.skip(1))) + spec_escape(b));
        }
    }
}

/// The escaped form of a single byte.
pub proof fn lemma_escape_single(x: u8)
    ensures
        spec_escape(seq![x]) == if x == 255 { seq![255u8, 255u8] } else { seq![x] },
{
    assert(seq![x].skip(1) =~= Seq::<u8>::empty());
    assert(spec_escape(Seq::<u8>::empty()) == Seq::<u8>::empty());
    if x == 255 {
        assert(spec_escape(seq![x]) =~= seq![255u8, 255u8]);
    } else {
        assert(spec_escape(seq![x]) =~= seq![x]);
    }
}

/// A sentinel-free sequence is its own escaped form.
pub proof fn lemma_escape_plain(d: Seq<u8>)
    requires
        forall|i: int| 0 <= i < d.len() ==> d[i] != 255,
    ensures
        spec_escape(d) == d,
    decreases d.len(),
{
    if d.len() == 0 {
        assert(spec_escape(d) =~= d);
    } else {
        assert forall|i: int| 0 <= i < d.skip(1).len() implies d.skip(1)[i] != 255 by {
            assert(d.skip(1)[i] == d[i + 1]);
        }
        lemma_escape_plain(d.skip(1));
        assert(seq![d[0]] + d.skip(1) =~= d);
    }
}

/// The wire bytes of a frame: the functional model of the encoder.
/// Content is escaped; commands and subnegotiations are framed by the
/// sentinel and their markers.
pub open spec fn spec_encode(f: FrameView) -> Seq<u8> {
    match f {
        FrameView::Data(d) => spec_escape(d),
        FrameView::Command { action, option } => seq![
            255u8,
            action_byte(action),
            option_byte(option),
        ],
        FrameView::Subnegotiation(v) => seq![255u8, 250u8] + spec_payload_encode(v) + seq![
            255u8,
            240u8,
        ],
    }
}

/// Remove the first `n` bytes of `src` and hand them back.
fn split_front(src: &mut Vec<u8>, n: usize) -> (front: Vec<u8>)
    requires
        n <= old(src).len(),
    ensures
        front@ == old(src)@.take(n as int),
        final(src)@ == old(src)@.skip(n as int),
{
    let mut tail = src.split_off(n);
    core::mem::swap(src, &mut tail);
    proof {
        assert(old(src)@.subrange(0, n as int) =~= old(src)@.take(n as int));
        assert(old(src)@.subrange(n as int, old(src)@.len() as int) =~= old(src)@.skip(n as int));
    }
    tail
}

/// The incremental frame codec. Stateless: all framing state lives in
/// the caller-owned accumulation buffer.
pub struct TelnetCodec {}

impl TelnetCodec {
    /// A fresh codec.
    pub fn new() -> (r: TelnetCodec) {
        TelnetCodec {}
    }

    /// One decoding step against the front of `src`. Returns `Ok(None)`
    /// and leaves the buffer untouched when no complete frame has
    /// arrived; otherwise consumes exactly the bytes of one frame and
    /// returns it, or consumes the bytes of one malformed subnegotiation
    /// and returns the error, so that the stream keeps its framing.
    pub fn decode(&mut self, src: &mut Vec<u8>) -> (r: Result<Option<TelnetFrame>, DecodeError>)
        ensures
            match spec_decode(old(src)@) {
                DecodeStep::Incomplete => r == Ok::<Option<TelnetFrame>, DecodeError>(None)
                    && final(src)@ == old(src)@,
                DecodeStep::Frame(g, n) => (r matches Ok(Some(f)) && f@ == g) && final(src)@
                    == old(src)@.skip(n),
                DecodeStep::Fail(e, n) => r == Err::<Option<TelnetFrame>, DecodeError>(e)
                    && final(src)@ == old(src)@.skip(n),
            },
    {
        if src.len() == 0 {
            return Ok(None);
        }
        let byte = src[0];
        if byte != 255 {
            let mut i: usize = 0;
            while i < src.len() && src[i] != 255
                invariant
                    i <= src@.len(),
                    src@ == old(src)@,
                    forall|j: int| 0 <= j < i ==> src@[j] != 255,
                decreases src@.len() - i,
            {
                i = i + 1;
            }
            proof {
                lemma_data_run_len_is(src@, i as int);
            }
            let data = split_front(src, i);
            return Ok(Some(TelnetFrame::Data(data)));
        }
        if src.len() < 2 {
            return Ok(None);
        }
        match Action::try_from(src[1]) {
            Ok(Action::SubnegotiationBegin) => {
                let mut i: usize = 2;
                while i < src.len() - 1 && !(src[i] == 255 && src[i + 1] == 240)
                    invariant
                        src@.len() >= 2,
                        2 <= i,
                        i <= src@.len(),
                        src@ == old(src)@,
                        forall|j: int| 2 <= j < i ==> !(#[trigger] src@[j] == 255 && src@[j + 1] == 240),
                    decreases src@.len() - i,
                {
                    i = i + 1;
                }
                if i >= src.len() - 1 {
                    proof {
                        lemma_find_terminator_from(src@, 2);
                        if let Some(e) = find_terminator_from(src@, 2) {
                            assert(!(src@[e] == 255 && src@[e + 1] == 240));
                        }
                    }
                    return Ok(None);
                }
                proof {
                    lemma_find_terminator_from_is(src@, 2, i as int);
                }
                let payload = vstd::slice::slice_to_vec(
                    vstd::slice::slice_subrange(src.as_slice(), 2, i),
                );
                let _consumed = split_front(src, i + 2);
                match TelnetSubnegotiation::from(payload) {
                    Ok(s) => Ok(Some(TelnetFrame::Subnegotiation(s))),
                    Err(e) => Err(e),
                }
            }
            Ok(action) => {
                if src.len() < 3 {
                    return Ok(None);
                }
                let option = TelnetOption::from(src[2]);
                let _consumed = split_front(src, 3);
                Ok(Some(TelnetFrame::Command { action, option }))
            }
            Err(_) => {
                if src[1] == 255 {
                    let _consumed = split_front(src, 2);
                    let data: Vec<u8> = vec![255u8];
                    proof {
                        assert(data@ =~= seq![255u8]);
                    }
                    Ok(Some(TelnetFrame::Data(data)))
                } else {
                    let data = split_front(src, 2);
                    proof {
                        assert(data@ =~= seq![old(src)@[0], old(src)@[1]]);
                    }
                    Ok(Some(TelnetFrame::Data(data)))
                }
            }
        }
    }

    /// Append the wire bytes of `item` to `dst`: content with every
    /// sentinel escaped, commands and subnegotiations with their framing.
    pub fn encode(&mut self, item: TelnetFrame, dst: &mut Vec<u8>)
        ensures
            final(dst)@ == old(dst)@ + spec_encode(item@),
    {
        match item {
            TelnetFrame::Data(data) => {
                let mut i: usize = 0;
                while i < data.len()
                    invariant
                        i <= data@.len(),
                        dst@ == old(dst)@ + spec_escape(data@.take(i as int)),
                    decreases data@.len() - i,
                {
                    let b = data[i];
                    if b == 255 {
                        dst.push(255);
                        dst.push(255);
                    } else {
                        dst.push(b);
                    }
                    proof {
                        assert(data@.take(i as int) + seq![data@[i as int]] =~= data@.take(
                            i as int + 1,
                        ));
                        lemma_escape_concat(data@.take(i as int), seq![data@[i as int]]);
                        lemma_escape_single(data@[i as int]);
                        assert(dst@ =~= old(dst)@ + spec_escape(data@.take(i as int + 1)));
                    }
                    i = i + 1;
                }
                proof {
                    assert(data@.take(data@.len() as int) =~= data@);
                }
            }
            TelnetFrame::Command { action, option } => {
                dst.push(255);
                dst.push(action.into());
                dst.push(option.into());
                proof {
                    assert(dst@ =~= old(dst)@ + seq![
                        255u8,
                        action_byte(action),
                        option_byte(option),
                    ]);
                }
            }
            TelnetFrame::Subnegotiation(subnegotiation) => {
                let ghost v = subnegotiation@;
                dst.push(255);
                dst.push(250);
                let mut body = subnegotiation.into();
                dst.append(&mut body);
                dst.push(255);
                dst.push(240);
                proof {
                    assert(dst@ =~= old(dst)@ + (seq![255u8, 250u8] + spec_payload_encode(v)
                        + seq![255u8, 240u8]));
                }
            }
        }
    }
}

} // verus!
