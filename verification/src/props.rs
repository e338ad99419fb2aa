//! The codec's laws: round-tripping, incremental decoding, exact
//! consumption, escape symmetry and the boundary behaviour of the
//! decoder, all stated over the functional wire model and proved.

use vstd::prelude::*;
use vstd::utf8::valid_utf8;
use crate::codec::{
    DecodeStep, data_run_len, find_terminator_from, lemma_data_run_len, lemma_data_run_len_is,
    lemma_escape_plain, lemma_escape_single, lemma_find_terminator_from,
    lemma_find_terminator_from_is, spec_decode, spec_encode,
};
use vstd::arithmetic::div_mod::lemma_fundamental_div_mod;
use crate::frame::{
    Action, DecodeError, FrameView, SubnegotiationView, option_byte, option_of_byte,
    spec_payload_decode, spec_payload_encode, combine16, hi8, lo8,
};

verus! {

/// Whether the terminator pair (sentinel, 240) stands anywhere in `p`.
pub open spec fn has_terminator(p: Seq<u8>) -> bool {
    exists|j: int| 0 <= j && j + 1 < p.len() && #[trigger] p[j] == 255 && p[j + 1] == 240
}

/// The decoder consumes nothing on `Incomplete`, and otherwise never
/// more than the bytes of the one frame it reports: the consumed prefix
/// alone already decodes to that very result.
pub proof fn lemma_no_overconsumption(b: Seq<u8>)
    ensures
        spec_decode(b) matches DecodeStep::Frame(g, n) ==> 0 < n <= b.len() && spec_decode(
            b.take(n),
        ) == DecodeStep::Frame(g, n),
        spec_decode(b) matches DecodeStep::Fail(e, n) ==> 0 < n <= b.len() && spec_decode(
            b.take(n),
        ) == DecodeStep::Fail(e, n),
{
    if b.len() == 0 {
    } else if b[0] != 255 {
        lemma_data_run_len(b);
        let n = data_run_len(b);
        lemma_data_run_len(b.skip(1));
        assert(n > 0);
        let t = b.take(n);
        assert forall|i: int| 0 <= i < n implies t[i] != 255 by {
            assert(t[i] == b[i]);
        }
        lemma_data_run_len_is(t, n);
        assert(t.take(n) =~= t);
    } else if b.len() < 2 {
    } else if b[1] == 250 {
        lemma_find_terminator_from(b, 2);
        if let Some(e) = find_terminator_from(b, 2) {
            let n = e + 2;
            let t = b.take(n);
            assert forall|j: int| 2 <= j < e implies !(#[trigger] t[j] == 255 && t[j + 1]
                == 240) by {
                assert(t[j] == b[j] && t[j + 1] == b[j + 1]);
            }
            lemma_find_terminator_from_is(t, 2, e);
            assert(t.subrange(2, e) =~= b.subrange(2, e));
        }
    } else if 251 <= b[1] && b[1] <= 254 {
        if b.len() >= 3 {
            let t = b.take(3);
            assert(t[0] == b[0] && t[1] == b[1] && t[2] == b[2]);
        }
    } else {
        let t = b.take(2);
        assert(t[0] == b[0] && t[1] == b[1]);
    }
}

/// Feeding more bytes after a decodable frame never changes that frame:
/// a control frame, a malformed control frame, and a content run already
/// ended by a sentinel all decode the same however the buffer grows.
pub proof fn lemma_decode_extension(b: Seq<u8>, ext: Seq<u8>)
    ensures
        spec_decode(b) matches DecodeStep::Frame(g, n) ==> ((b[0] == 255 || n < b.len())
            ==> spec_decode(b + ext) == DecodeStep::Frame(g, n)),
        spec_decode(b) matches DecodeStep::Fail(e, n) ==> spec_decode(b + ext)
            == DecodeStep::Fail(e, n),
{
    let w = b + ext;
    if b.len() == 0 {
    } else if b[0] != 255 {
        lemma_data_run_len(b);
        let n = data_run_len(b);
        if n < b.len() {
            assert(w[0] == b[0]);
            assert forall|i: int| 0 <= i < n implies w[i] != 255 by {
                assert(w[i] == b[i]);
            }
            assert(w[n] == b[n]);
            lemma_data_run_len_is(w, n);
            assert(w.take(n) =~= b.take(n));
        }
    } else if b.len() < 2 {
    } else {
        assert(w[0] == b[0] && w[1] == b[1]);
        if b[1] == 250 {
            lemma_find_terminator_from(b, 2);
            if let Some(e) = find_terminator_from(b, 2) {
                assert(w[e] == b[e] && w[e + 1] == b[e + 1]);
                assert forall|j: int| 2 <= j < e implies !(#[trigger] w[j] == 255 && w[j + 1]
                    == 240) by {
                    assert(w[j] == b[j] && w[j + 1] == b[j + 1]);
                }
                lemma_find_terminator_from_is(w, 2, e);
                assert(w.subrange(2, e) =~= b.subrange(2, e));
            }
        } else if 251 <= b[1] && b[1] <= 254 {
            if b.len() >= 3 {
                assert(w[2] == b[2]);
            }
        } else {
        }
    }
}

/// Escape symmetry: the two-byte escape form decodes to a single literal
/// sentinel byte, and a single literal sentinel byte encodes to the
/// two-byte escape form.
pub proof fn lemma_escape_symmetry()
    ensures
        spec_decode(seq![255u8, 255u8]) == DecodeStep::Frame(FrameView::Data(seq![255u8]), 2),
        spec_encode(FrameView::Data(seq![255u8])) == seq![255u8, 255u8],
{
    lemma_escape_single(255u8);
}

/// Boundary behaviour: an empty buffer, a lone sentinel and a sentinel
/// with only a negotiation verb all wait for more bytes.
pub proof fn lemma_boundary_cases()
    ensures
        spec_decode(Seq::<u8>::empty()) == DecodeStep::Incomplete,
        spec_decode(seq![255u8]) == DecodeStep::Incomplete,
        spec_decode(seq![255u8, 251u8]) == DecodeStep::Incomplete,
{
}

/// A subnegotiation whose terminator has not arrived waits for more
/// bytes, however long the buffer already is.
pub proof fn lemma_boundary_unterminated_subnegotiation(b: Seq<u8>)
    requires
        b.len() >= 2,
        b[0] == 255,
        b[1] == 250,
        !has_terminator(b),
    ensures
        spec_decode(b) == DecodeStep::Incomplete,
{
    lemma_find_terminator_from(b, 2);
    if let Some(e) = find_terminator_from(b, 2) {
        assert(has_terminator(b));
    }
}

/// Which subnegotiation values re-read as themselves: a payload headed
/// by a well-known option identifier must carry that option's structure,
/// a terminal-type report must be text, and no payload may contain the
/// terminator pair, which would end the block early.
pub open spec fn subneg_encodable(v: SubnegotiationView) -> bool {
    &&& match v {
        SubnegotiationView::WindowSize(_, _) => true,
        SubnegotiationView::TerminalTypeIs(tb) => valid_utf8(tb),
        SubnegotiationView::TerminalTypeSend => true,
        SubnegotiationView::Unknown(id, _) => id != 24 && id != 31,
    }
    &&& !has_terminator(spec_payload_encode(v))
}

/// Serializing a subnegotiation value and interpreting the payload
/// again yields the value back.
pub proof fn lemma_payload_round_trip(v: SubnegotiationView)
    requires
        subneg_encodable(v),
    ensures
        spec_payload_decode(spec_payload_encode(v)) == Ok::<SubnegotiationView, DecodeError>(v),
{
    let p = spec_payload_encode(v);
    match v {
        SubnegotiationView::WindowSize(w, h) => {
            assert(combine16(hi8(w), lo8(w)) == w) by {
                lemma_fundamental_div_mod(w as int, 256);
            }
            assert(combine16(hi8(h), lo8(h)) == h) by {
                lemma_fundamental_div_mod(h as int, 256);
            }
        }
        SubnegotiationView::TerminalTypeIs(tb) => {
            assert(p.skip(2) =~= tb);
        }
        SubnegotiationView::TerminalTypeSend => {
        }
        SubnegotiationView::Unknown(id, b) => {
            assert(p.skip(1) =~= b);
        }
    }
}

/// Which frames re-read as themselves in a single decoding step:
/// content that needs no re-segmentation (one literal sentinel, or a
/// non-empty sentinel-free run), a genuine negotiation command whose
/// option byte reads back as the same option, and an encodable
/// subnegotiation.
pub open spec fn frame_encodable(f: FrameView) -> bool {
    match f {
        FrameView::Data(d) => d == seq![255u8] || (d.len() > 0 && forall|i: int|
            0 <= i < d.len() ==> d[i] != 255),
        FrameView::Command { action, option } => action != Action::SubnegotiationBegin
            && option_of_byte(option_byte(option)) == option,
        FrameView::Subnegotiation(v) => subneg_encodable(v),
    }
}

/// Round trip: the wire bytes of any encodable frame decode, in one
/// step, back to exactly that frame, consuming every byte.
pub proof fn lemma_round_trip(f: FrameView)
    requires
        frame_encodable(f),
    ensures
        spec_decode(spec_encode(f)) == DecodeStep::Frame(f, spec_encode(f).len() as int),
{
    match f {
        FrameView::Data(d) => {
            if d == seq![255u8] {
                lemma_escape_single(255u8);
            } else {
                lemma_escape_plain(d);
                lemma_data_run_len_is(d, d.len() as int);
                assert(d.take(d.len() as int) =~= d);
            }
        }
        FrameView::Command { action, option } => {
        }
        FrameView::Subnegotiation(v) => {
            let p = spec_payload_encode(v);
            let w = spec_encode(f);
            let e = p.len() as int + 2;
            assert(w.len() == p.len() + 4);
            assert(w[0] == 255 && w[1] == 250);
            assert(w[e] == 255 && w[e + 1] == 240);
            assert forall|j: int| 2 <= j < e implies !(#[trigger] w[j] == 255 && w[j + 1]
                == 240) by {
                if j + 1 < e {
                    assert(w[j] == p[j - 2] && w[j + 1] == p[j - 1]);
                    if w[j] == 255 && w[j + 1] == 240 {
                        assert(p[j - 2] == 255 && p[j - 2 + 1] == 240);
                        assert(has_terminator(p));
                    }
                } else {
                    assert(w[j + 1] == 255);
                }
            }
            lemma_find_terminator_from_is(w, 2, e);
            assert(w.subrange(2, e) =~= p);
            lemma_payload_round_trip(v);
        }
    }
}

/// The outcomes of decoding a buffer to exhaustion: every frame and
/// every recoverable error, in order, up to the point where the decoder
/// first waits for more bytes.
pub open spec fn decode_events(b: Seq<u8>) -> Seq<Result<FrameView, DecodeError>>
    decreases b.len(),
{
    match spec_decode(b) {
        DecodeStep::Incomplete => seq![],
        DecodeStep::Frame(g, n) => if 0 < n <= b.len() {
            seq![Ok::<FrameView, DecodeError>(g)] + decode_events(b.skip(n))
        } else {
            seq![]
        },
        DecodeStep::Fail(e, n) => if 0 < n <= b.len() {
            seq![Err::<FrameView, DecodeError>(e)] + decode_events(b.skip(n))
        } else {
            seq![]
        },
    }
}

/// The bytes left after decoding a buffer to exhaustion: the incomplete
/// tail the decoder is still waiting on.
pub open spec fn decode_rest(b: Seq<u8>) -> Seq<u8>
    decreases b.len(),
{
    match spec_decode(b) {
        DecodeStep::Incomplete => b,
        DecodeStep::Frame(g, n) => if 0 < n <= b.len() {
            decode_rest(b.skip(n))
        } else {
            b
        },
        DecodeStep::Fail(e, n) => if 0 < n <= b.len() {
            decode_rest(b.skip(n))
        } else {
            b
        },
    }
}

/// Merge every run of adjacent content frames into one: the canonical
/// form of a decoded event sequence, under which content segmentation
/// does not matter.
pub open spec fn merge_data(evs: Seq<Result<FrameView, DecodeError>>) -> Seq<
    Result<FrameView, DecodeError>,
>
    decreases evs.len(),
{
    if evs.len() == 0 {
        seq![]
    } else {
        let rest = merge_data(evs.skip(1));
        match evs[0] {
            Ok(FrameView::Data(d)) => if rest.len() > 0 {
                match rest[0] {
                    Ok(FrameView::Data(d2)) => seq![Ok::<FrameView, DecodeError>(
                        FrameView::Data(d + d2),
                    )] + rest.skip(1),
                    _ => seq![Ok::<FrameView, DecodeError>(FrameView::Data(d))] + rest,
                }
            } else {
                seq![Ok::<FrameView, DecodeError>(FrameView::Data(d))] + rest
            },
            _ => seq![evs[0]] + rest,
        }
    }
}

/// Merging is a congruence in its tail: a shared first event preserves
/// merged equality.
proof fn lemma_merge_data_cong(
    ev: Result<FrameView, DecodeError>,
    s1: Seq<Result<FrameView, DecodeError>>,
    s2: Seq<Result<FrameView, DecodeError>>,
)
    requires
        merge_data(s1) == merge_data(s2),
    ensures
        merge_data(seq![ev] + s1) == merge_data(seq![ev] + s2),
{
    assert((seq![ev] + s1).skip(1) =~= s1);
    assert((seq![ev] + s2).skip(1) =~= s2);
    assert((seq![ev] + s1)[0] == ev);
    assert((seq![ev] + s2)[0] == ev);
}

/// Two adjacent content frames merge exactly as their concatenation
/// does.
proof fn lemma_merge_data_join(
    d1: Seq<u8>,
    d2: Seq<u8>,
    s: Seq<Result<FrameView, DecodeError>>,
)
    ensures
        merge_data(
            seq![
                Ok::<FrameView, DecodeError>(FrameView::Data(d1)),
                Ok::<FrameView, DecodeError>(FrameView::Data(d2)),
            ] + s,
        ) == merge_data(seq![Ok::<FrameView, DecodeError>(FrameView::Data(d1 + d2))] + s),
{
    let x1 = Ok::<FrameView, DecodeError>(FrameView::Data(d1));
    let x2 = Ok::<FrameView, DecodeError>(FrameView::Data(d2));
    let a = seq![x1, x2] + s;
    let inner = seq![x2] + s;
    assert(a.skip(1) =~= inner);
    assert(inner.skip(1) =~= s);
    assert(a[0] == x1 && inner[0] == x2);
    let m = merge_data(s);
    let c = seq![Ok::<FrameView, DecodeError>(FrameView::Data(d1 + d2))] + s;
    assert(c.skip(1) =~= s);
    assert(c[0] == Ok::<FrameView, DecodeError>(FrameView::Data(d1 + d2)));
    if m.len() > 0 && (m[0] matches Ok(FrameView::Data(d3))) {
        let d3 = m[0]->Ok_0->Data_0;
        let rest1 = seq![Ok::<FrameView, DecodeError>(FrameView::Data(d2 + d3))] + m.skip(1);
        assert(merge_data(inner) == rest1);
        assert(rest1[0] == Ok::<FrameView, DecodeError>(FrameView::Data(d2 + d3)));
        assert(rest1.skip(1) =~= m.skip(1));
        assert(d1 + (d2 + d3) =~= (d1 + d2) + d3);
        assert(merge_data(a) == seq![Ok::<FrameView, DecodeError>(FrameView::Data((d1 + d2) + d3))]
            + m.skip(1));
        assert(merge_data(c) == seq![Ok::<FrameView, DecodeError>(FrameView::Data((d1 + d2) + d3))]
            + m.skip(1));
    } else {
        let rest1 = seq![x2] + m;
        assert(merge_data(inner) == rest1);
        assert(rest1[0] == x2);
        assert(rest1.skip(1) =~= m);
        assert(merge_data(a) == seq![Ok::<FrameView, DecodeError>(FrameView::Data(d1 + d2))] + m);
        assert(merge_data(c) == seq![Ok::<FrameView, DecodeError>(FrameView::Data(d1 + d2))] + m);
    }
}

/// A sentinel-free prefix extends the content run of the rest of the
/// buffer.
proof fn lemma_data_run_split(b: Seq<u8>, k: int)
    requires
        0 <= k <= b.len(),
        forall|i: int| 0 <= i < k ==> b[i] != 255,
    ensures
        data_run_len(b) == k + data_run_len(b.skip(k)),
{
    lemma_data_run_len(b.skip(k));
    let r2 = data_run_len(b.skip(k));
    assert forall|i: int| 0 <= i < k + r2 implies b[i] != 255 by {
        if i >= k {
            assert(b.skip(k)[i - k] == b[i]);
        }
    }
    if k + r2 < b.len() {
        assert(b.skip(k)[r2] == b[k + r2]);
    }
    lemma_data_run_len_is(b, k + r2);
}

/// Incremental equivalence: splitting a byte stream at any point and
/// decoding the first part to exhaustion, then carrying its undecoded
/// tail over in front of the second part, yields the same frames and
/// errors as decoding the whole stream, up to re-segmentation of
/// adjacent content.
#[verifier::rlimit(100)]
#[verifier::spinoff_prover]
pub proof fn lemma_incremental_equivalence(b: Seq<u8>, k: int)
    requires
        0 <= k <= b.len(),
    ensures
        merge_data(
            decode_events(b.take(k)) + decode_events(decode_rest(b.take(k)) + b.skip(k)),
        ) == merge_data(decode_events(b)),
    decreases b.len(),
{
    let t = b.take(k);
    lemma_no_overconsumption(t);
    match spec_decode(t) {
        DecodeStep::Incomplete => {
            assert(decode_events(t) == Seq::<Result<FrameView, DecodeError>>::empty());
            assert(decode_rest(t) == t);
            assert(t + b.skip(k) =~= b);
            assert(decode_events(t) + decode_events(b) =~= decode_events(b));
        }
        DecodeStep::Frame(g, n) => {
            if t[0] != 255 && n == t.len() {
                lemma_data_run_len(t);
                assert(t.take(n) =~= t);
                assert(g == FrameView::Data(t));
                assert(t.skip(n) =~= Seq::<u8>::empty());
                assert(decode_events(t.skip(n)) == Seq::<Result<FrameView, DecodeError>>::empty());
                assert(decode_events(t) =~= seq![Ok::<FrameView, DecodeError>(g)]);
                assert(decode_rest(t.skip(n)) =~= Seq::<u8>::empty());
                assert(decode_rest(t) == decode_rest(t.skip(n)));
                assert(decode_rest(t) + b.skip(k) =~= b.skip(k));
                assert(k > 0);
                assert(b[0] == t[0]);
                assert forall|i: int| 0 <= i < k implies b[i] != 255 by {
                    assert(t[i] == b[i]);
                }
                lemma_data_run_split(b, k);
                let r2 = data_run_len(b.skip(k));
                let r = data_run_len(b);
                lemma_data_run_len(b.skip(k));
                lemma_data_run_len(b);
                if b.skip(k).len() == 0 || b.skip(k)[0] == 255 {
                    assert(r2 == 0);
                    assert(r == k);
                    assert(b.take(r) =~= t);
                    assert(b.skip(r) =~= b.skip(k));
                    assert(decode_events(b) == seq![Ok::<FrameView, DecodeError>(
                        FrameView::Data(b.take(r)),
                    )] + decode_events(b.skip(r)));
                    assert(decode_events(t) + decode_events(b.skip(k)) =~= seq![Ok::<
                        FrameView,
                        DecodeError,
                    >(g)] + decode_events(b.skip(k)));
                    lemma_merge_data_cong(
                        Ok::<FrameView, DecodeError>(g),
                        decode_events(b.skip(k)),
                        decode_events(b.skip(r)),
                    );
                } else {
                    assert(r2 > 0);
                    let d2 = b.skip(k).take(r2);
                    assert(spec_decode(b.skip(k)) == DecodeStep::Frame(FrameView::Data(d2), r2));
                    assert(decode_events(b.skip(k)) == seq![Ok::<FrameView, DecodeError>(
                        FrameView::Data(d2),
                    )] + decode_events(b.skip(k).skip(r2)));
                    let ee = decode_events(b.skip(k).skip(r2));
                    assert(r == k + r2);
                    assert(b.take(r) =~= t + d2);
                    assert(b.skip(r) =~= b.skip(k).skip(r2));
                    assert(decode_events(b) == seq![Ok::<FrameView, DecodeError>(
                        FrameView::Data(b.take(r)),
                    )] + decode_events(b.skip(r)));
                    assert(decode_events(t) + decode_events(b.skip(k)) =~= seq![
                        Ok::<FrameView, DecodeError>(FrameView::Data(t)),
                        Ok::<FrameView, DecodeError>(FrameView::Data(d2)),
                    ] + ee);
                    lemma_merge_data_join(t, d2, ee);
                    assert(decode_events(b) =~= seq![Ok::<FrameView, DecodeError>(
                        FrameView::Data(t + d2),
                    )] + ee);
                }
            } else {
                lemma_decode_extension(t, b.skip(k));
                assert(t + b.skip(k) =~= b);
                assert(spec_decode(b) == DecodeStep::Frame(g, n));
                assert(decode_events(t) == seq![Ok::<FrameView, DecodeError>(g)] + decode_events(
                    t.skip(n),
                ));
                assert(decode_rest(t) == decode_rest(t.skip(n)));
                assert(decode_events(b) == seq![Ok::<FrameView, DecodeError>(g)] + decode_events(
                    b.skip(n),
                ));
                lemma_incremental_equivalence(b.skip(n), k - n);
                assert(b.skip(n).take(k - n) =~= t.skip(n));
                assert(b.skip(n).skip(k - n) =~= b.skip(k));
                let e1 = decode_events(t.skip(n));
                let e2 = decode_events(decode_rest(t.skip(n)) + b.skip(k));
                assert((seq![Ok::<FrameView, DecodeError>(g)] + e1) + e2 =~= seq![Ok::<
                    FrameView,
                    DecodeError,
                >(g)] + (e1 + e2));
                lemma_merge_data_cong(
                    Ok::<FrameView, DecodeError>(g),
                    e1 + e2,
                    decode_events(b.skip(n)),
                );
            }
        }
        DecodeStep::Fail(er, n) => {
            lemma_decode_extension(t, b.skip(k));
            assert(t + b.skip(k) =~= b);
            assert(spec_decode(b) == DecodeStep::Fail(er, n));
            assert(decode_events(t) == seq![Err::<FrameView, DecodeError>(er)] + decode_events(
                t.skip(n),
            ));
            assert(decode_rest(t) == decode_rest(t.skip(n)));
            assert(decode_events(b) == seq![Err::<FrameView, DecodeError>(er)] + decode_events(
                b.skip(n),
            ));
            lemma_incremental_equivalence(b.skip(n), k - n);
            assert(b.skip(n).take(k - n) =~= t.skip(n));
            assert(b.skip(n).skip(k - n) =~= b.skip(k));
            let e1 = decode_events(t.skip(n));
            let e2 = decode_events(decode_rest(t.skip(n)) + b.skip(k));
            assert((seq![Err::<FrameView, DecodeError>(er)] + e1) + e2 =~= seq![Err::<
                FrameView,
                DecodeError,
            >(er)] + (e1 + e2));
            lemma_merge_data_cong(
                Err::<FrameView, DecodeError>(er),
                e1 + e2,
                decode_events(b.skip(n)),
            );
        }
    }
}

} // verus!
