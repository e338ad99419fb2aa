//! Protocol data types: negotiation actions, option identifiers,
//! subnegotiation payloads and the top-level frame union, together with
//! their byte-level payload encode/decode rules.

use vstd::prelude::*;
use vstd::utf8::{encode_utf8, valid_utf8};

verus! {

/// A negotiation verb following the sentinel byte on the wire.
#[derive(Debug, PartialEq, Eq, Structural, Clone, Copy)]
pub enum Action {
    SubnegotiationBegin,
    Will,
    Wont,
    Do,
    Dont,
}

/// A negotiable capability identifier. Total over bytes: unrecognized
/// identifiers are preserved in `Unknown`.
#[derive(Debug, PartialEq, Eq, Structural, Clone, Copy)]
pub enum TelnetOption {
    Echo,
    SuppressGoAhead,
    TerminalType,
    NegotiateAboutWindowSize,
    Unknown(u8),
}

/// The body of a terminal-type subnegotiation: either a report of the
/// terminal name or a request for one.
#[derive(Debug, PartialEq, Clone)]
pub enum TerminalTypeOption {
    Is(String),
    Send,
}

/// A typed subnegotiation block, keyed by the option identifier that
/// stands as the first payload byte on the wire.
#[derive(Debug, Clone, PartialEq)]
pub enum TelnetSubnegotiation {
    WindowSize(u16, u16),
    TerminalType(TerminalTypeOption),
    Unknown(u8, Vec<u8>),
}

/// One decoded protocol frame.
#[derive(Debug, Clone)]
pub enum TelnetFrame {
    Data(Vec<u8>),
    Command { action: Action, option: TelnetOption },
    Subnegotiation(TelnetSubnegotiation),
}

/// Why a structurally complete frame could not be interpreted.
#[derive(Debug, PartialEq, Eq, Structural, Clone, Copy)]
pub enum DecodeError {
    /// A subnegotiation block with no payload bytes at all.
    EmptyPayload,
    /// A payload too short for the structure its option identifier demands.
    TruncatedPayload,
    /// A terminal-type report whose body is not valid text.
    InvalidText,
}

/// Mathematical model of a subnegotiation value: text is modelled by its
/// wire bytes, so that the model determines the encoding exactly.
pub ghost enum SubnegotiationView {
    WindowSize(u16, u16),
    TerminalTypeIs(Seq<u8>),
    TerminalTypeSend,
    Unknown(u8, Seq<u8>),
}

/// Mathematical model of a frame.
pub ghost enum FrameView {
    Data(Seq<u8>),
    Command { action: Action, option: TelnetOption },
    Subnegotiation(SubnegotiationView),
}

impl View for TelnetSubnegotiation {
    type V = SubnegotiationView;

    open spec fn view(&self) -> SubnegotiationView {
        match self {
            TelnetSubnegotiation::WindowSize(w, h) => SubnegotiationView::WindowSize(*w, *h),
            TelnetSubnegotiation::TerminalType(TerminalTypeOption::Is(s)) =>
                SubnegotiationView::TerminalTypeIs(encode_utf8(s@)),
            TelnetSubnegotiation::TerminalType(TerminalTypeOption::Send) =>
                SubnegotiationView::TerminalTypeSend,
            TelnetSubnegotiation::Unknown(id, bytes) => SubnegotiationView::Unknown(*id, bytes@),
        }
    }
}

impl View for TelnetFrame {
    type V = FrameView;

    open spec fn view(&self) -> FrameView {
        match self {
            TelnetFrame::Data(d) => FrameView::Data(d@),
            TelnetFrame::Command { action, option } =>
                FrameView::Command { action: *action, option: *option },
            TelnetFrame::Subnegotiation(s) => FrameView::Subnegotiation(s@),
        }
    }
}

/// The wire byte of each action.
pub open spec fn action_byte(a: Action) -> u8 {
    match a {
        Action::SubnegotiationBegin => 250,
        Action::Will => 251,
        Action::Wont => 252,
        Action::Do => 253,
        Action::Dont => 254,
    }
}

/// The action a byte stands for, if any.
pub open spec fn action_of_byte(b: u8) -> Option<Action> {
    if b == 250 {
        Some(Action::SubnegotiationBegin)
    } else if b == 251 {
        Some(Action::Will)
    } else if b == 252 {
        Some(Action::Wont)
    } else if b == 253 {
        Some(Action::Do)
    } else if b == 254 {
        Some(Action::Dont)
    } else {
        None
    }
}

/// The wire byte of each option.
pub open spec fn option_byte(o: TelnetOption) -> u8 {
    match o {
        TelnetOption::Echo => 1,
        TelnetOption::SuppressGoAhead => 3,
        TelnetOption::TerminalType => 24,
        TelnetOption::NegotiateAboutWindowSize => 31,
        TelnetOption::Unknown(v) => v,
    }
}

/// The option a byte stands for; total, with a catch-all.
pub open spec fn option_of_byte(b: u8) -> TelnetOption {
    if b == 1 {
        TelnetOption::Echo
    } else if b == 3 {
        TelnetOption::SuppressGoAhead
    } else if b == 24 {
        TelnetOption::TerminalType
    } else if b == 31 {
        TelnetOption::NegotiateAboutWindowSize
    } else {
        TelnetOption::Unknown(b)
    }
}

/// A 16-bit value from its big-endian bytes.
pub open spec fn combine16(hi: u8, lo: u8) -> u16 {
    (hi * 256 + lo) as u16
}

/// The high byte of a 16-bit value, big-endian.
pub open spec fn hi8(w: u16) -> u8 {
    (w / 256) as u8
}

/// The low byte of a 16-bit value, big-endian.
pub open spec fn lo8(w: u16) -> u8 {
    (w % 256) as u8
}

/// What a subnegotiation payload (the bytes between the begin marker and
/// the terminator) means: the decode rules of the value model.
pub open spec fn spec_payload_decode(p: Seq<u8>) -> Result<SubnegotiationView, DecodeError> {
    if p.len() == 0 {
        Err(DecodeError::EmptyPayload)
    } else if p[0] == 24 {
        if p.len() < 2 {
            Err(DecodeError::TruncatedPayload)
        } else if p[1] == 0 {
            if valid_utf8(p.skip(2)) {
                Ok(SubnegotiationView::TerminalTypeIs(p.skip(2)))
            } else {
                Err(DecodeError::InvalidText)
            }
        } else if p[1] == 1 {
            Ok(SubnegotiationView::TerminalTypeSend)
        } else {
            Ok(SubnegotiationView::Unknown(24, p.skip(2)))
        }
    } else if p[0] == 31 {
        if p.len() < 5 {
            Err(DecodeError::TruncatedPayload)
        } else {
            Ok(SubnegotiationView::WindowSize(combine16(p[1], p[2]), combine16(p[3], p[4])))
        }
    } else {
        Ok(SubnegotiationView::Unknown(p[0], p.skip(1)))
    }
}

/// The payload bytes a subnegotiation value is serialized to: the option
/// identifier first, then the option-specific body. Every variant has a
/// defined serialization, symmetric with `spec_payload_decode`.
pub open spec fn spec_payload_encode(v: SubnegotiationView) -> Seq<u8> {
    match v {
        SubnegotiationView::WindowSize(w, h) => seq![31u8, hi8(w), lo8(w), hi8(h), lo8(h)],
        SubnegotiationView::TerminalTypeIs(tb) => seq![24u8, 0u8] + tb,
        SubnegotiationView::TerminalTypeSend => seq![24u8, 1u8],
        SubnegotiationView::Unknown(id, b) => seq![id] + b,
    }
}

impl Action {
    /// The action a byte stands for; bytes outside the reserved range are
    /// rejected, signalling pass-through handling to the decoder.
    pub fn try_from(value: u8) -> (r: Result<Action, ()>)
        ensures
            match action_of_byte(value) {
                Some(a) => r == Ok::<Action, ()>(a),
                None => r is Err,
            },
    {
        match value {
            250 => Ok(Action::SubnegotiationBegin),
            251 => Ok(Action::Will),
            252 => Ok(Action::Wont),
            253 => Ok(Action::Do),
            254 => Ok(Action::Dont),
            _ => Err(()),
        }
    }

    /// The wire byte of this action.
    pub fn into(self) -> (r: u8)
        ensures
            r == action_byte(self),
    {
        match self {
            Action::SubnegotiationBegin => 250,
            Action::Will => 251,
            Action::Wont => 252,
            Action::Do => 253,
            Action::Dont => 254,
        }
    }
}

impl TelnetOption {
    /// The option a byte stands for; total.
    pub fn from(value: u8) -> (r: TelnetOption)
        ensures
            r == option_of_byte(value),
    {
        match value {
            1 => TelnetOption::Echo,
            3 => TelnetOption::SuppressGoAhead,
            24 => TelnetOption::TerminalType,
            31 => TelnetOption::NegotiateAboutWindowSize,
            _ => TelnetOption::Unknown(value),
        }
    }

    /// The wire byte of this option.
    pub fn into(self) -> (r: u8)
        ensures
            r == option_byte(self),
    {
        match self {
            TelnetOption::Echo => 1,
            TelnetOption::SuppressGoAhead => 3,
            TelnetOption::TerminalType => 24,
            TelnetOption::NegotiateAboutWindowSize => 31,
            TelnetOption::Unknown(v) => v,
        }
    }
}

/// Every byte maps to exactly one option and back to itself: the mapping
/// is lossless.
pub proof fn lemma_option_byte_lossless(b: u8)
    ensures
        option_byte(option_of_byte(b)) == b,
{
}

/// A copy of the bytes of `v` from index `from` to the end.
fn vec_suffix(v: &Vec<u8>, from: usize) -> (r: Vec<u8>)
    requires
        from <= v.len(),
    ensures
        r@ == v@.skip(from as int),
{
    let mut r: Vec<u8> = Vec::new();
    let mut i: usize = from;
    while i < v.len()
        invariant
            from <= i <= v.len(),
            r@ == v@.subrange(from as int, i as int),
        decreases v.len() - i,
    {
        let b = v[i];
        r.push(b);
        proof {
            assert(v@.subrange(from as int, i as int).push(v@[i as int]) =~= v@.subrange(
                from as int,
                i as int + 1,
            ));
        }
        i = i + 1;
    }
    proof {
        assert(v@.subrange(from as int, v@.len() as int) =~= v@.skip(from as int));
    }
    r
}

/// Relies on `String::from_utf8`: it succeeds exactly on valid UTF-8 input
/// and the resulting string's bytes are the input bytes unchanged.
#[verifier::external_body]
fn string_from_utf8(v: Vec<u8>) -> (r: Option<String>)
    ensures
        r is Some <==> valid_utf8(v@),
        r matches Some(s) ==> encode_utf8(s@) == v@,
{
    String::from_utf8(v).ok()
}

impl TelnetSubnegotiation {
    /// Interpret a subnegotiation payload. Fails cleanly on an empty or
    /// too-short payload and on a terminal-type report that is not text.
    pub fn from(value: Vec<u8>) -> (r: Result<TelnetSubnegotiation, DecodeError>)
        ensures
            match spec_payload_decode(value@) {
                Ok(v) => r matches Ok(s) && s@ == v,
                Err(e) => r == Err::<TelnetSubnegotiation, DecodeError>(e),
            },
    {
        if value.len() == 0 {
            return Err(DecodeError::EmptyPayload);
        }
        match value[0] {
            24 => {
                if value.len() < 2 {
                    return Err(DecodeError::TruncatedPayload);
                }
                match value[1] {
                    0 => {
                        let rest = vec_suffix(&value, 2);
                        match string_from_utf8(rest) {
                            Some(s) => Ok(TelnetSubnegotiation::TerminalType(
                                TerminalTypeOption::Is(s),
                            )),
                            None => Err(DecodeError::InvalidText),
                        }
                    }
                    1 => Ok(TelnetSubnegotiation::TerminalType(TerminalTypeOption::Send)),
                    _ => Ok(TelnetSubnegotiation::Unknown(24, vec_suffix(&value, 2))),
                }
            }
            31 => {
                if value.len() < 5 {
                    return Err(DecodeError::TruncatedPayload);
                }
                let width: u16 = (value[1] as u16) * 256 + (value[2] as u16);
                let height: u16 = (value[3] as u16) * 256 + (value[4] as u16);
                Ok(TelnetSubnegotiation::WindowSize(width, height))
            }
            v => Ok(TelnetSubnegotiation::Unknown(v, vec_suffix(&value, 1))),
        }
    }

    /// Serialize this subnegotiation value to its payload bytes. Total:
    /// every variant re-emits symmetrically with `from`.
    pub fn into(self) -> (r: Vec<u8>)
        ensures
            r@ == spec_payload_encode(self@),
    {
        match self {
            TelnetSubnegotiation::TerminalType(TerminalTypeOption::Send) => {
                let r: Vec<u8> = vec![24u8, 1u8];
                proof {
                    assert(r@ =~= seq![24u8, 1u8]);
                }
                r
            }
            TelnetSubnegotiation::TerminalType(TerminalTypeOption::Is(value)) => {
                let ghost gv = value@;
                let mut data: Vec<u8> = vec![24u8, 0u8];
                let bytes = vstd::slice::slice_to_vec(value.as_str().as_bytes());
                let mut tail = bytes;
                data.append(&mut tail);
                proof {
                    assert(data@ =~= seq![24u8, 0u8] + encode_utf8(gv));
                }
                data
            }
            TelnetSubnegotiation::WindowSize(w, h) => {
                let r: Vec<u8> = vec![
                    31u8,
                    (w / 256) as u8,
                    (w % 256) as u8,
                    (h / 256) as u8,
                    (h % 256) as u8,
                ];
                proof {
                    assert(r@ =~= seq![31u8, hi8(w), lo8(w), hi8(h), lo8(h)]);
                }
                r
            }
            TelnetSubnegotiation::Unknown(id, bytes) => {
                let mut r: Vec<u8> = vec![id];
                let ghost gb = bytes@;
                let mut tail = bytes;
                r.append(&mut tail);
                proof {
                    assert(r@ =~= seq![id] + gb);
                }
                r
            }
        }
    }
}

} // verus!
