//! The wire envelope model: a JSON 3-element array `[opcode, channel,
//! payload]` where the payload object carries `data` (an arbitrary JSON
//! value, kept as its exact text), `eventType` and `uri`. Decoding and
//! encoding are defined as functions on character sequences and the
//! executable codec is proved against them.

use vstd::prelude::*;

use crate::json::is_ws;
use crate::json::skip_ws;
use crate::json::lemma_skip_ws;
use crate::json::lemma_skip_ws_none;
use crate::json::scan_value;
use crate::json::scan_value_exec;
use crate::json::lemma_scan_bounds;
use crate::json::lemma_scan_shift;
use crate::json::valid_json_value;
use crate::json::parse_uint;
use crate::json::parse_uint_exec;
use crate::json::parse_str_body;
use crate::json::parse_str_body_exec;
use crate::json::lemma_parse_str_bounds;
use crate::json::uint_chars;
use crate::json::push_uint;
use crate::json::esc;
use crate::json::push_escaped;
use crate::json::Mode;
use crate::json::Ctx;
use crate::json::skip_ws_exec;
use crate::json::lemma_parse_escaped;
use crate::json::lemma_parse_uint_at;
use crate::json::lemma_esc_plain;
use crate::json::plain_char;
use crate::json::lemma_uint_chars;
use crate::json::lemma_scan_digits;
use crate::json::is_digit;
use crate::json::scan_done;
use crate::json::scan_step;
use crate::json::copy_range;

verus! {

// ---------------------------------------------------------------------------
// Event types
// ---------------------------------------------------------------------------

/// The kind of change an event reports. Anything unrecognized on the wire
/// becomes `Unknown` rather than a decode failure.
#[derive(Debug, Clone, Copy, PartialEq, Eq, Structural)]
pub enum EventType {
    Unknown,
    Create,
    Delete,
    Update,
}

impl Default for EventType {
    fn default() -> (r: Self)
        ensures
            r == EventType::Unknown,
    {
        EventType::Unknown
    }
}

/// Event type named by a wire string; every unrecognized name is `Unknown`.
pub open spec fn et_of_name(n: Seq<char>) -> EventType {
    if n == seq!['C', 'r', 'e', 'a', 't', 'e'] {
        EventType::Create
    } else if n == seq!['D', 'e', 'l', 'e', 't', 'e'] {
        EventType::Delete
    } else if n == seq!['U', 'p', 'd', 'a', 't', 'e'] {
        EventType::Update
    } else {
        EventType::Unknown
    }
}

/// Wire name of an event type.
pub open spec fn et_name(e: EventType) -> Seq<char> {
    match e {
        EventType::Unknown => seq!['U', 'n', 'k', 'n', 'o', 'w', 'n'],
        EventType::Create => seq!['C', 'r', 'e', 'a', 't', 'e'],
        EventType::Delete => seq!['D', 'e', 'l', 'e', 't', 'e'],
        EventType::Update => seq!['U', 'p', 'd', 'a', 't', 'e'],
    }
}

/// Any event-type name other than `Create`, `Delete` and `Update` maps to
/// `Unknown`; no name makes the mapping fail.
pub proof fn lemma_unrecognized_event_type_is_unknown(n: Seq<char>)
    requires
        n != seq!['C', 'r', 'e', 'a', 't', 'e'],
        n != seq!['D', 'e', 'l', 'e', 't', 'e'],
        n != seq!['U', 'p', 'd', 'a', 't', 'e'],
    ensures
        et_of_name(n) == EventType::Unknown,
{
}

/// The wire name of each event type maps back to that event type, except
/// that `Unknown` is itself spelled by an unrecognized name.
pub proof fn lemma_event_type_name_round_trip(e: EventType)
    ensures
        et_of_name(et_name(e)) == e,
{
    assert(seq!['U', 'n', 'k', 'n', 'o', 'w', 'n'].len() == 7);
}

impl EventType {
    /// Executable counterpart of `et_of_name` for a name given as characters.
    pub fn from_chars(n: &Vec<char>) -> (e: EventType)
        ensures
            e == et_of_name(n@),
    {
        if n.len() == 6 {
            if n[0] == 'C' && n[1] == 'r' && n[2] == 'e' && n[3] == 'a' && n[4] == 't' && n[5]
                == 'e' {
                proof {
                    assert(n@ =~= seq!['C', 'r', 'e', 'a', 't', 'e']);
                }
                return EventType::Create;
            }
            if n[0] == 'D' && n[1] == 'e' && n[2] == 'l' && n[3] == 'e' && n[4] == 't' && n[5]
                == 'e' {
                proof {
                    assert(n@ =~= seq!['D', 'e', 'l', 'e', 't', 'e']);
                }
                return EventType::Delete;
            }
            if n[0] == 'U' && n[1] == 'p' && n[2] == 'd' && n[3] == 'a' && n[4] == 't' && n[5]
                == 'e' {
                proof {
                    assert(n@ =~= seq!['U', 'p', 'd', 'a', 't', 'e']);
                }
                return EventType::Update;
            }
            EventType::Unknown
        } else {
            EventType::Unknown
        }
    }

    /// Executable counterpart of `et_of_name` for a name given as a string.
    pub fn from_name(n: &str) -> (e: EventType)
        ensures
            e == et_of_name(n@),
    {
        let cs = str_to_chars(n);
        EventType::from_chars(&cs)
    }
}

// ---------------------------------------------------------------------------
// String conversions
// ---------------------------------------------------------------------------

/// Collects the characters of a string slice, one by one.
pub fn str_to_chars(s: &str) -> (r: Vec<char>)
    ensures
        r@ == s@,
{
    let n = s.unicode_len();
    let mut v: Vec<char> = Vec::new();
    let mut i: usize = 0;
    while i < n
        invariant
            i <= n,
            n == s@.len(),
            v@ == s@.take(i as int),
        decreases n - i,
    {
        let c = s.get_char(i);
        v.push(c);
        proof {
            assert(s@.take(i as int + 1) =~= s@.take(i as int).push(s@[i as int]));
        }
        i = i + 1;
    }
    proof {
        assert(s@.take(n as int) =~= s@);
    }
    v
}

/// Relies on `String`'s `FromIterator<char>`: collecting an iterator of
/// characters yields the string of exactly those characters in order.
#[verifier::external_body]
pub fn chars_to_string(v: &Vec<char>) -> (r: String)
    ensures
        r@ == v@,
{
    v.iter().collect()
}

// ---------------------------------------------------------------------------
// Envelope data
// ---------------------------------------------------------------------------

/// Decoded payload of one event. `data` holds the exact wire text of the
/// payload's `data` value, which is an arbitrary JSON value the envelope
/// layer does not interpret.
#[derive(Debug, Clone, PartialEq)]
pub struct Message {
    pub data: String,
    pub event_type: EventType,
    pub uri: String,
}

/// Mathematical image of a `Message`.
pub struct MessageV {
    pub data: Seq<char>,
    pub event_type: EventType,
    pub uri: Seq<char>,
}

impl View for Message {
    type V = MessageV;

    open spec fn view(&self) -> MessageV {
        MessageV { data: self.data@, event_type: self.event_type, uri: self.uri@ }
    }
}

/// A message is well formed when its `data` text is exactly one JSON value,
/// written without leading whitespace.
pub open spec fn message_wf(m: MessageV) -> bool {
    valid_json_value(m.data) && m.data.len() > 0 && !is_ws(m.data[0])
}

impl Default for Message {
    /// The default message carries the JSON `null` as its data value.
    fn default() -> (r: Self)
        ensures
            r@.data == seq!['n', 'u', 'l', 'l'],
            r@.event_type == EventType::Unknown,
            r@.uri == Seq::<char>::empty(),
    {
        let data = chars_to_string(&vec!['n', 'u', 'l', 'l']);
        Message { data, event_type: EventType::Unknown, uri: String::new() }
    }
}

/// One decoded inbound event: opcode, channel name, payload.
#[derive(Debug, Clone, PartialEq)]
pub struct Incoming(pub usize, pub String, pub Message);

/// Mathematical image of an `Incoming`.
pub struct IncomingV {
    pub opcode: nat,
    pub channel: Seq<char>,
    pub message: MessageV,
}

impl View for Incoming {
    type V = IncomingV;

    open spec fn view(&self) -> IncomingV {
        IncomingV { opcode: self.0 as nat, channel: self.1@, message: self.2@ }
    }
}

/// An envelope is well formed when its opcode fits the machine word and its
/// message is well formed.
pub open spec fn incoming_wf(v: IncomingV) -> bool {
    v.opcode <= usize::MAX && message_wf(v.message)
}

impl Incoming {
    /// Consumes the envelope and yields its payload.
    pub fn into_message(self) -> (m: Message)
        ensures
            m == self.2,
    {
        self.2
    }
}

// ---------------------------------------------------------------------------
// Payload object parsing (specification)
// ---------------------------------------------------------------------------

/// Fields collected while reading the payload object.
pub struct PayloadAcc {
    pub data: Option<Seq<char>>,
    pub et: Option<Seq<char>>,
    pub uri: Option<Seq<char>>,
}

/// The empty accumulator.
pub open spec fn empty_acc() -> PayloadAcc {
    PayloadAcc { data: None, et: None, uri: None }
}

/// Handles one member value starting at `pos` (non-whitespace) under key
/// `k`: records the `data` span, the raw `eventType` name or the `uri`
/// string, skips any other member, and rejects duplicates.
pub open spec fn member_value(s: Seq<char>, pos: int, k: Seq<char>, acc: PayloadAcc) -> Option<
    (PayloadAcc, int),
> {
    if k == seq!['d', 'a', 't', 'a'] {
        if acc.data is Some {
            None
        } else {
            match scan_value(s, pos) {
                Option::Some(e) => Some(
                    (
                        PayloadAcc {
                            data: Some(s.subrange(pos, e)),
                            et: acc.et,
                            uri: acc.uri,
                        },
                        e,
                    ),
                ),
                Option::None => None,
            }
        }
    } else if k == seq!['e', 'v', 'e', 'n', 't', 'T', 'y', 'p', 'e'] {
        if acc.et is Some {
            None
        } else if pos < s.len() && s[pos] == '"' {
            match parse_str_body(s, pos + 1) {
                Option::Some(r) => Some(
                    (PayloadAcc { data: acc.data, et: Some(r.0), uri: acc.uri }, r.1),
                ),
                Option::None => None,
            }
        } else {
            None
        }
    } else if k == seq!['u', 'r', 'i'] {
        if acc.uri is Some {
            None
        } else if pos < s.len() && s[pos] == '"' {
            match parse_str_body(s, pos + 1) {
                Option::Some(r) => Some(
                    (PayloadAcc { data: acc.data, et: acc.et, uri: Some(r.0) }, r.1),
                ),
                Option::None => None,
            }
        } else {
            None
        }
    } else {
        match scan_value(s, pos) {
            Option::Some(e) => Some((acc, e)),
            Option::None => None,
        }
    }
}

pub proof fn lemma_member_value_bounds(s: Seq<char>, pos: int, k: Seq<char>, acc: PayloadAcc)
    requires
        0 <= pos <= s.len(),
        member_value(s, pos, k, acc) is Some,
    ensures
        pos <= member_value(s, pos, k, acc).unwrap().1 <= s.len(),
{
    if k == seq!['d', 'a', 't', 'a'] || !(k == seq!['e', 'v', 'e', 'n', 't', 'T', 'y', 'p', 'e']
        || k == seq!['u', 'r', 'i']) {
        lemma_scan_bounds(s, pos, Mode::Val, Seq::empty());
    } else {
        if pos < s.len() && s[pos] == '"' && parse_str_body(s, pos + 1) is Some {
            lemma_parse_str_bounds(s, pos + 1);
        }
    }
}

/// Reads the members of the payload object, starting just after `{` or just
/// after a separating comma; `first` tells whether an immediate `}` may
/// close the object. Returns the accumulator and the position after `}`.
pub open spec fn parse_members(s: Seq<char>, pos: int, acc: PayloadAcc, first: bool) -> Option<
    (PayloadAcc, int),
>
    decreases s.len() - pos,
    when 0 <= pos <= s.len()
    via parse_members_dec
{
    let p = skip_ws(s, pos);
    if p >= s.len() {
        None
    } else if first && s[p] == '}' {
        Some((acc, p + 1))
    } else if s[p] == '"' {
        match parse_str_body(s, p + 1) {
            Option::Some(kq) => {
                let q1 = skip_ws(s, kq.1);
                if q1 < s.len() && s[q1] == ':' {
                    let q2 = skip_ws(s, q1 + 1);
                    match member_value(s, q2, kq.0, acc) {
                        Option::Some(ae) => {
                            let e1 = skip_ws(s, ae.1);
                            if e1 < s.len() {
                                if s[e1] == ',' {
                                    parse_members(s, e1 + 1, ae.0, false)
                                } else if s[e1] == '}' {
                                    Some((ae.0, e1 + 1))
                                } else {
                                    None
                                }
                            } else {
                                None
                            }
                        },
                        Option::None => None,
                    }
                } else {
                    None
                }
            },
            Option::None => None,
        }
    } else {
        None
    }
}

#[via_fn]
proof fn parse_members_dec(s: Seq<char>, pos: int, acc: PayloadAcc, first: bool) {
    lemma_skip_ws(s, pos);
    let p = skip_ws(s, pos);
    if p < s.len() && !(first && s[p] == '}') && s[p] == '"' && parse_str_body(s, p + 1) is Some {
        lemma_parse_str_bounds(s, p + 1);
        let kq = parse_str_body(s, p + 1).unwrap();
        lemma_skip_ws(s, kq.1);
        let q1 = skip_ws(s, kq.1);
        if q1 < s.len() && s[q1] == ':' {
            lemma_skip_ws(s, q1 + 1);
            let q2 = skip_ws(s, q1 + 1);
            if member_value(s, q2, kq.0, acc) is Some {
                lemma_member_value_bounds(s, q2, kq.0, acc);
                let ae = member_value(s, q2, kq.0, acc).unwrap();
                lemma_skip_ws(s, ae.1);
            }
        }
    }
}

pub proof fn lemma_parse_members_bounds(s: Seq<char>, pos: int, acc: PayloadAcc, first: bool)
    requires
        0 <= pos <= s.len(),
        parse_members(s, pos, acc, first) is Some,
    ensures
        pos < parse_members(s, pos, acc, first).unwrap().1 <= s.len(),
    decreases s.len() - pos,
{
    lemma_skip_ws(s, pos);
    let p = skip_ws(s, pos);
    if p < s.len() && !(first && s[p] == '}') && s[p] == '"' && parse_str_body(s, p + 1) is Some {
        lemma_parse_str_bounds(s, p + 1);
        let kq = parse_str_body(s, p + 1).unwrap();
        lemma_skip_ws(s, kq.1);
        let q1 = skip_ws(s, kq.1);
        if q1 < s.len() && s[q1] == ':' {
            lemma_skip_ws(s, q1 + 1);
            let q2 = skip_ws(s, q1 + 1);
            if member_value(s, q2, kq.0, acc) is Some {
                lemma_member_value_bounds(s, q2, kq.0, acc);
                let ae = member_value(s, q2, kq.0, acc).unwrap();
                lemma_skip_ws(s, ae.1);
                let e1 = skip_ws(s, ae.1);
                if e1 < s.len() && s[e1] == ',' {
                    lemma_parse_members_bounds(s, e1 + 1, ae.0, false);
                }
            }
        }
    }
}

// ---------------------------------------------------------------------------
// Envelope decoding (specification)
// ---------------------------------------------------------------------------

/// Finishing step of decoding, applied once the payload object has been
/// read: all three fields must have appeared, and only `]` and trailing
/// whitespace may follow.
pub open spec fn spec_decode_tail(
    s: Seq<char>,
    op: nat,
    ch: Seq<char>,
    acc: PayloadAcc,
    p8: int,
) -> Option<IncomingV> {
    match (acc.data, acc.et, acc.uri) {
        (Option::Some(d), Option::Some(et), Option::Some(u)) => {
            let p9 = skip_ws(s, p8);
            if p9 < s.len() && s[p9] == ']' && skip_ws(s, p9 + 1) == s.len() {
                Some(
                    IncomingV {
                        opcode: op,
                        channel: ch,
                        message: MessageV { data: d, event_type: et_of_name(et), uri: u },
                    },
                )
            } else {
                None
            }
        },
        _ => None,
    }
}

/// Decodes one wire frame: whitespace-tolerant JSON text holding exactly
/// `[opcode, "channel", { ...data/eventType/uri... }]`, with all three
/// payload fields present exactly once (other fields are ignored) and an
/// opcode that fits the machine word.
pub open spec fn spec_decode(s: Seq<char>) -> Option<IncomingV> {
    let p0 = skip_ws(s, 0);
    if 0 <= p0 < s.len() && s[p0] == '[' {
        let p1 = skip_ws(s, p0 + 1);
        match parse_uint(s, p1) {
            Option::Some(oe) => if oe.0 <= usize::MAX {
                let p3 = skip_ws(s, oe.1);
                if p3 < s.len() && s[p3] == ',' {
                    let p4 = skip_ws(s, p3 + 1);
                    if p4 < s.len() && s[p4] == '"' {
                        match parse_str_body(s, p4 + 1) {
                            Option::Some(cq) => {
                                let p6 = skip_ws(s, cq.1);
                                if p6 < s.len() && s[p6] == ',' {
                                    let p7 = skip_ws(s, p6 + 1);
                                    if p7 < s.len() && s[p7] == '{' {
                                        match parse_members(s, p7 + 1, empty_acc(), true) {
                                            Option::Some(ae) => spec_decode_tail(
                                                s,
                                                oe.0,
                                                cq.0,
                                                ae.0,
                                                ae.1,
                                            ),
                                            Option::None => None,
                                        }
                                    } else {
                                        None
                                    }
                                } else {
                                    None
                                }
                            },
                            Option::None => None,
                        }
                    } else {
                        None
                    }
                } else {
                    None
                }
            } else {
                None
            },
            Option::None => None,
        }
    } else {
        None
    }
}

// ---------------------------------------------------------------------------
// Envelope decoding (executable)
// ---------------------------------------------------------------------------

fn key_is_data(k: &Vec<char>) -> (r: bool)
    ensures
        r == (k@ == seq!['d', 'a', 't', 'a']),
{
    let r = k.len() == 4 && k[0] == 'd' && k[1] == 'a' && k[2] == 't' && k[3] == 'a';
    proof {
        if r {
            assert(k@ =~= seq!['d', 'a', 't', 'a']);
        }
    }
    r
}

fn key_is_event_type(k: &Vec<char>) -> (r: bool)
    ensures
        r == (k@ == seq!['e', 'v', 'e', 'n', 't', 'T', 'y', 'p', 'e']),
{
    let r = k.len() == 9 && k[0] == 'e' && k[1] == 'v' && k[2] == 'e' && k[3] == 'n' && k[4] == 't'
        && k[5] == 'T' && k[6] == 'y' && k[7] == 'p' && k[8] == 'e';
    proof {
        if r {
            assert(k@ =~= seq!['e', 'v', 'e', 'n', 't', 'T', 'y', 'p', 'e']);
        }
    }
    r
}

fn key_is_uri(k: &Vec<char>) -> (r: bool)
    ensures
        r == (k@ == seq!['u', 'r', 'i']),
{
    let r = k.len() == 3 && k[0] == 'u' && k[1] == 'r' && k[2] == 'i';
    proof {
        if r {
            assert(k@ =~= seq!['u', 'r', 'i']);
        }
    }
    r
}

/// Executable payload accumulator.
struct AccX {
    data: Option<Vec<char>>,
    et: Option<Vec<char>>,
    uri: Option<Vec<char>>,
}

/// Image of the executable accumulator.
spec fn accx_view(a: &AccX) -> PayloadAcc {
    PayloadAcc {
        data: match a.data {
            Option::Some(v) => Some(v@),
            Option::None => None,
        },
        et: match a.et {
            Option::Some(v) => Some(v@),
            Option::None => None,
        },
        uri: match a.uri {
            Option::Some(v) => Some(v@),
            Option::None => None,
        },
    }
}

/// Executable counterpart of `spec_decode_tail`.
fn decode_tail_exec(s: &Vec<char>, op: usize, ch: Vec<char>, acc: AccX, obj_end: usize) -> (r:
    Option<Incoming>)
    requires
        obj_end <= s@.len(),
        match acc.data {
            Option::Some(d) => valid_json_value(d@) && d@.len() > 0 && !is_ws(d@[0]),
            Option::None => true,
        },
    ensures
        match r {
            Option::Some(inc) => spec_decode_tail(
                s@,
                op as nat,
                ch@,
                accx_view(&acc),
                obj_end as int,
            ) == Some(inc@) && incoming_wf(inc@),
            Option::None => spec_decode_tail(
                s@,
                op as nat,
                ch@,
                accx_view(&acc),
                obj_end as int,
            ) is None,
        },
{
    let dv = match acc.data {
        Option::Some(v) => v,
        Option::None => {
            return None;
        },
    };
    let etv = match acc.et {
        Option::Some(v) => v,
        Option::None => {
            return None;
        },
    };
    let uv = match acc.uri {
        Option::Some(v) => v,
        Option::None => {
            return None;
        },
    };
    let p9 = skip_ws_exec(s, obj_end);
    if !(p9 < s.len() && s[p9] == ']') {
        return None;
    }
    let tail = skip_ws_exec(s, p9 + 1);
    if tail != s.len() {
        return None;
    }
    let event_type = EventType::from_chars(&etv);
    let data = chars_to_string(&dv);
    let uri = chars_to_string(&uv);
    let channel = chars_to_string(&ch);
    let inc = Incoming(op, channel, Message { data, event_type, uri });
    Some(inc)
}

/// The executable decoder over characters.
#[verifier::loop_isolation(false)]
pub fn decode_chars(s: &Vec<char>) -> (r: Option<Incoming>)
    ensures
        match r {
            Option::Some(inc) => spec_decode(s@) == Some(inc@) && incoming_wf(inc@),
            Option::None => spec_decode(s@) is None,
        },
{
    let p0 = skip_ws_exec(s, 0);
    if !(p0 < s.len() && s[p0] == '[') {
        return None;
    }
    let p1 = skip_ws_exec(s, p0 + 1);
    let (op, p2) = match parse_uint_exec(s, p1) {
        Option::Some(x) => x,
        Option::None => {
            return None;
        },
    };
    let p3 = skip_ws_exec(s, p2);
    if !(p3 < s.len() && s[p3] == ',') {
        return None;
    }
    let p4 = skip_ws_exec(s, p3 + 1);
    if !(p4 < s.len() && s[p4] == '"') {
        return None;
    }
    let (ch, p5) = match parse_str_body_exec(s, p4 + 1) {
        Option::Some(x) => x,
        Option::None => {
            return None;
        },
    };
    let p6 = skip_ws_exec(s, p5);
    if !(p6 < s.len() && s[p6] == ',') {
        return None;
    }
    let p7 = skip_ws_exec(s, p6 + 1);
    if !(p7 < s.len() && s[p7] == '{') {
        return None;
    }
    // read the payload object members
    let mut acc = AccX { data: None, et: None, uri: None };
    let mut pos: usize = p7 + 1;
    let mut first: bool = true;
    loop
        invariant
            p7 + 1 <= pos <= s@.len(),
            parse_members(s@, p7 + 1 as int, empty_acc(), true) == parse_members(
                s@,
                pos as int,
                accx_view(&acc),
                first,
            ),
            match acc.data {
                Option::Some(d) => valid_json_value(d@) && d@.len() > 0 && !is_ws(d@[0]),
                Option::None => true,
            },
        decreases s@.len() - pos,
    {
        let p = skip_ws_exec(s, pos);
        if p >= s.len() {
            return None;
        }
        if first && s[p] == '}' {
            proof {
                assert(parse_members(s@, pos as int, accx_view(&acc), first) == Some(
                    (accx_view(&acc), p + 1 as int),
                ));
            }
            return decode_tail_exec(s, op, ch, acc, p + 1);
        }
        if s[p] != '"' {
            return None;
        }
        let (k, q) = match parse_str_body_exec(s, p + 1) {
            Option::Some(x) => x,
            Option::None => {
                return None;
            },
        };
        let q1 = skip_ws_exec(s, q);
        if !(q1 < s.len() && s[q1] == ':') {
            return None;
        }
        let q2 = skip_ws_exec(s, q1 + 1);
        let ghost acc_before = accx_view(&acc);
        let vend: usize;
        if key_is_data(&k) {
            if acc.data.is_some() {
                return None;
            }
            let e = match scan_value_exec(s, q2) {
                Option::Some(e) => e,
                Option::None => {
                    return None;
                },
            };
            let dv = copy_range(s, q2, e);
            proof {
                assert(q2 < s@.len() && !is_ws(s@[q2 as int]));
                assert(!scan_done(s@, q2 as int, Mode::Val, Seq::<Ctx>::empty()));
                let next = scan_step(Mode::Val, Seq::<Ctx>::empty(), s@[q2 as int]).unwrap();
                lemma_scan_bounds(s@, q2 + 1 as int, next.0, next.1);
                assert(e > q2);
                lemma_scan_shift(
                    s@,
                    q2 as int,
                    Mode::Val,
                    Seq::<Ctx>::empty(),
                    dv@,
                    -(q2 as int),
                );
                assert(valid_json_value(dv@));
                assert(dv@[0] == s@[q2 as int]);
            }
            acc.data = Some(dv);
            vend = e;
        } else if key_is_event_type(&k) {
            if acc.et.is_some() {
                return None;
            }
            if !(q2 < s.len() && s[q2] == '"') {
                return None;
            }
            let (raw, e) = match parse_str_body_exec(s, q2 + 1) {
                Option::Some(x) => x,
                Option::None => {
                    return None;
                },
            };
            acc.et = Some(raw);
            vend = e;
        } else if key_is_uri(&k) {
            if acc.uri.is_some() {
                return None;
            }
            if !(q2 < s.len() && s[q2] == '"') {
                return None;
            }
            let (raw, e) = match parse_str_body_exec(s, q2 + 1) {
                Option::Some(x) => x,
                Option::None => {
                    return None;
                },
            };
            acc.uri = Some(raw);
            vend = e;
        } else {
            let e = match scan_value_exec(s, q2) {
                Option::Some(e) => e,
                Option::None => {
                    return None;
                },
            };
            vend = e;
        }
        assert(member_value(s@, q2 as int, k@, acc_before) == Some(
            (accx_view(&acc), vend as int),
        ));
        let e1 = skip_ws_exec(s, vend);
        if e1 < s.len() && s[e1] == ',' {
            proof {
                assert(parse_members(s@, pos as int, acc_before, first) == parse_members(
                    s@,
                    e1 + 1 as int,
                    accx_view(&acc),
                    false,
                ));
            }
            pos = e1 + 1;
            first = false;
        } else if e1 < s.len() && s[e1] == '}' {
            proof {
                assert(parse_members(s@, pos as int, acc_before, first) == Some(
                    (accx_view(&acc), e1 + 1 as int),
                ));
            }
            return decode_tail_exec(s, op, ch, acc, e1 + 1);
        } else {
            return None;
        }
    }
}

impl Incoming {
    /// Decodes one wire frame, or reports that it is not a well-formed
    /// envelope.
    pub fn decode(frame: &str) -> (r: Option<Incoming>)
        ensures
            match r {
                Option::Some(inc) => spec_decode(frame@) == Some(inc@) && incoming_wf(inc@),
                Option::None => spec_decode(frame@) is None,
            },
    {
        let s = str_to_chars(frame);
        decode_chars(&s)
    }
}

// ---------------------------------------------------------------------------
// Envelope encoding (specification)
// ---------------------------------------------------------------------------

/// Canonical text of an envelope: no insignificant whitespace, the payload
/// fields in the order `data`, `eventType`, `uri`, the `data` text embedded
/// verbatim.
pub open spec fn spec_encode(v: IncomingV) -> Seq<char> {
    seq!['['] + uint_chars(v.opcode) + seq![',', '"'] + esc(v.channel) + seq!['"', ',', '{', '"',
        'd', 'a', 't', 'a', '"', ':'] + v.message.data + seq![',', '"', 'e', 'v', 'e', 'n', 't',
        'T', 'y', 'p', 'e', '"', ':', '"'] + et_name(v.message.event_type) + seq!['"', ',', '"',
        'u', 'r', 'i', '"', ':', '"'] + esc(v.message.uri) + seq!['"', '}', ']']
}

/// Canonical text of a control frame `[opcode,"channel"]`.
pub open spec fn spec_control_frame(op: nat, channel: Seq<char>) -> Seq<char> {
    seq!['['] + uint_chars(op) + seq![',', '"'] + esc(channel) + seq!['"', ']']
}

// ---------------------------------------------------------------------------
// Envelope encoding (executable)
// ---------------------------------------------------------------------------

/// Appends all characters of `w` to `v`.
fn push_all(v: &mut Vec<char>, w: &Vec<char>)
    ensures
        final(v)@ == old(v)@ + w@,
{
    let mut i: usize = 0;
    proof {
        assert(old(v)@ + w@.take(0) =~= old(v)@);
    }
    while i < w.len()
        invariant
            i <= w@.len(),
            v@ == old(v)@ + w@.take(i as int),
        decreases w@.len() - i,
    {
        v.push(w[i]);
        proof {
            assert(w@.take(i as int + 1) =~= w@.take(i as int).push(w@[i as int]));
            assert(v@ =~= old(v)@ + w@.take(i as int + 1));
        }
        i = i + 1;
    }
    proof {
        assert(w@.take(w@.len() as int) =~= w@);
    }
}

impl Incoming {
    /// Canonical text of this envelope; the `data` text is embedded
    /// verbatim.
    pub fn encode(&self) -> (r: String)
        ensures
            r@ == spec_encode(self@),
    {
        let mut v: Vec<char> = Vec::new();
        let lit1 = vec!['['];
        proof {
            assert(lit1@ =~= seq!['[']);
        }
        push_all(&mut v, &lit1);
        proof {
            assert(v@ =~= seq!['[']);
        }
        push_uint(&mut v, self.0);
        let lit2 = vec![',', '"'];
        proof {
            assert(lit2@ =~= seq![',', '"']);
        }
        push_all(&mut v, &lit2);
        let chv = str_to_chars(self.1.as_str());
        push_escaped(&mut v, &chv);
        let lit3 = vec!['"', ',', '{', '"', 'd', 'a', 't', 'a', '"', ':'];
        proof {
            assert(lit3@ =~= seq!['"', ',', '{', '"', 'd', 'a', 't', 'a', '"', ':']);
        }
        push_all(&mut v, &lit3);
        let dv = str_to_chars(self.2.data.as_str());
        push_all(&mut v, &dv);
        let lit4 = vec![',', '"', 'e', 'v', 'e', 'n', 't', 'T', 'y', 'p', 'e', '"', ':', '"'];
        proof {
            assert(lit4@ =~= seq![',', '"', 'e', 'v', 'e', 'n', 't', 'T', 'y', 'p', 'e', '"',
                ':', '"']);
        }
        push_all(&mut v, &lit4);
        let etv: Vec<char> = match self.2.event_type {
            EventType::Unknown => vec!['U', 'n', 'k', 'n', 'o', 'w', 'n'],
            EventType::Create => vec!['C', 'r', 'e', 'a', 't', 'e'],
            EventType::Delete => vec!['D', 'e', 'l', 'e', 't', 'e'],
            EventType::Update => vec!['U', 'p', 'd', 'a', 't', 'e'],
        };
        proof {
            assert(etv@ =~= et_name(self.2.event_type));
        }
        push_all(&mut v, &etv);
        let lit5 = vec!['"', ',', '"', 'u', 'r', 'i', '"', ':', '"'];
        proof {
            assert(lit5@ =~= seq!['"', ',', '"', 'u', 'r', 'i', '"', ':', '"']);
        }
        push_all(&mut v, &lit5);
        let uv = str_to_chars(self.2.uri.as_str());
        push_escaped(&mut v, &uv);
        let lit6 = vec!['"', '}', ']'];
        proof {
            assert(lit6@ =~= seq!['"', '}', ']']);
        }
        push_all(&mut v, &lit6);
        assert(v@ == spec_encode(self@));
        chars_to_string(&v)
    }
}

// ---------------------------------------------------------------------------
// Control frames
// ---------------------------------------------------------------------------

/// Canonical text of the control frame `[op,"channel"]`.
pub fn control_frame(op: usize, channel: &str) -> (r: String)
    ensures
        r@ == spec_control_frame(op as nat, channel@),
{
    let mut v: Vec<char> = Vec::new();
    let lit1 = vec!['['];
    proof {
        assert(lit1@ =~= seq!['[']);
    }
    push_all(&mut v, &lit1);
    proof {
        assert(v@ =~= seq!['[']);
    }
    push_uint(&mut v, op);
    let lit2 = vec![',', '"'];
    proof {
        assert(lit2@ =~= seq![',', '"']);
    }
    push_all(&mut v, &lit2);
    let chv = str_to_chars(channel);
    push_escaped(&mut v, &chv);
    let lit3 = vec!['"', ']'];
    proof {
        assert(lit3@ =~= seq!['"', ']']);
    }
    push_all(&mut v, &lit3);
    assert(v@ == spec_control_frame(op as nat, channel@));
    chars_to_string(&v)
}

/// The opcode that subscribes to an event channel.
pub const OP_SUBSCRIBE: usize = 5;

/// The opcode that unsubscribes from an event channel.
pub const OP_UNSUBSCRIBE: usize = 6;

/// The subscribe control frame `[5,"channel"]`.
pub fn subscribe_frame(channel: &str) -> (r: String)
    ensures
        r@ == spec_control_frame(5, channel@),
{
    control_frame(OP_SUBSCRIBE, channel)
}

/// The unsubscribe control frame `[6,"channel"]`.
pub fn unsubscribe_frame(channel: &str) -> (r: String)
    ensures
        r@ == spec_control_frame(6, channel@),
{
    control_frame(OP_UNSUBSCRIBE, channel)
}

// ---------------------------------------------------------------------------
// Round trip: decoding a canonical encoding gives the envelope back
// ---------------------------------------------------------------------------

/// A string body of plain characters, closed by a quote, parses to itself.
proof fn lemma_plain_str_at(t: Seq<char>, pos: int, x: Seq<char>)
    requires
        0 <= pos,
        pos + x.len() + 1 <= t.len(),
        forall|i: int| 0 <= i < x.len() ==> plain_char(#[trigger] x[i]),
        t.subrange(pos, pos + x.len() as int) == x,
        t[pos + x.len()] == '"',
    ensures
        parse_str_body(t, pos) == Some((x, pos + x.len() + 1)),
{
    lemma_esc_plain(x);
    lemma_parse_escaped(t, pos, x);
}

/// The name of every event type is plain text.
proof fn lemma_et_name_plain(e: EventType)
    ensures
        forall|i: int| 0 <= i < et_name(e).len() ==> plain_char(#[trigger] et_name(e)[i]),
{
    let n = et_name(e);
    assert forall|i: int| 0 <= i < n.len() implies plain_char(n[i]) by {
        match e {
            EventType::Unknown => {
                assert(n =~= seq!['U', 'n', 'k', 'n', 'o', 'w', 'n']);
            },
            EventType::Create => {
                assert(n =~= seq!['C', 'r', 'e', 'a', 't', 'e']);
            },
            EventType::Delete => {
                assert(n =~= seq!['D', 'e', 'l', 'e', 't', 'e']);
            },
            EventType::Update => {
                assert(n =~= seq!['U', 'p', 'd', 'a', 't', 'e']);
            },
        }
    }
}

/// The canonical text of the three payload members, from the first key's
/// opening quote to the closing brace.
pub open spec fn members_text(d: Seq<char>, e: EventType, uri: Seq<char>) -> Seq<char> {
    seq!['"', 'd', 'a', 't', 'a', '"', ':'] + d + seq![',', '"', 'e', 'v', 'e', 'n', 't', 'T',
        'y', 'p', 'e', '"', ':', '"'] + et_name(e) + seq!['"', ',', '"', 'u', 'r', 'i', '"',
        ':', '"'] + esc(uri) + seq!['"', '}']
}

/// Reading the canonical members text collects exactly the three fields.
#[verifier::rlimit(100)]
#[verifier::spinoff_prover]
proof fn lemma_members_of_encode(t: Seq<char>, m0: int, d: Seq<char>, e: EventType, uri: Seq<
    char>)
    requires
        0 <= m0,
        m0 + members_text(d, e, uri).len() <= t.len(),
        t.subrange(m0, m0 + members_text(d, e, uri).len() as int) == members_text(d, e, uri),
        valid_json_value(d),
        d.len() > 0,
        !is_ws(d[0]),
    ensures
        parse_members(t, m0, empty_acc(), true) == Some(
            (
                PayloadAcc { data: Some(d), et: Some(et_name(e)), uri: Some(uri) },
                m0 + members_text(d, e, uri).len(),
            ),
        ),
{
    let mt = members_text(d, e, uri);
    let en = et_name(e);
    let eu = esc(uri);
    let dl = d.len() as int;
    let el = en.len() as int;
    let ul = eu.len() as int;
    assert forall|i: int| 0 <= i < mt.len() implies t[m0 + i] == #[trigger] mt[i] by {
        assert(t.subrange(m0, m0 + mt.len() as int)[i] == t[m0 + i]);
    }
    lemma_et_name_plain(e);
    // --- member one: "data": <d> ---
    assert(t[m0] == mt[0] && mt[0] == '"');
    lemma_skip_ws_none(t, m0);
    let k1 = seq!['d', 'a', 't', 'a'];
    assert forall|i: int| 0 <= i < 4 implies t.subrange(m0 + 1, m0 + 5)[i] == k1[i] by {
        assert(t.subrange(m0 + 1, m0 + 5)[i] == t[m0 + 1 + i]);
        assert(t[m0 + 1 + i] == mt[1 + i]);
    }
    assert(t.subrange(m0 + 1, m0 + 5) =~= k1);
    assert(t[m0 + 5] == mt[5] && mt[5] == '"');
    assert forall|i: int| 0 <= i < k1.len() implies plain_char(k1[i]) by {
        if i == 0 {
            assert(plain_char('d'));
        } else if i == 1 || i == 3 {
            assert(plain_char('a'));
        } else {
            assert(plain_char('t'));
        }
    }
    lemma_plain_str_at(t, m0 + 1, k1);
    assert(parse_str_body(t, m0 + 1) == Some((k1, m0 + 6)));
    assert(t[m0 + 6] == mt[6] && mt[6] == ':');
    lemma_skip_ws_none(t, m0 + 6);
    assert(t[m0 + 7] == mt[7] && mt[7] == d[0]);
    lemma_skip_ws_none(t, m0 + 7);
    // the data span scans to its end, with the comma after it as fence
    let dend = m0 + 7 + dl;
    assert(t[dend] == mt[7 + dl] && mt[7 + dl] == ',');
    assert forall|i: int| 0 <= i < dl implies t[m0 + 7 + i] == d[i] by {
        assert(t[m0 + 7 + i] == mt[7 + i]);
        assert(mt[7 + i] == d[i]);
    }
    lemma_scan_shift(d, 0, Mode::Val, Seq::empty(), t, m0 + 7);
    assert(scan_value(t, m0 + 7) == Some(dend));
    assert(t.subrange(m0 + 7, dend) =~= d);
    let acc1 = PayloadAcc { data: Some(d), et: None, uri: None };
    assert(member_value(t, m0 + 7, k1, empty_acc()) == Some((acc1, dend)));
    lemma_skip_ws_none(t, dend);
    assert(parse_members(t, m0, empty_acc(), true) == parse_members(t, dend + 1, acc1, false));
    // --- member two: "eventType": "<name>" ---
    assert(t[dend + 1] == mt[7 + dl + 1] && mt[7 + dl + 1] == '"');
    lemma_skip_ws_none(t, dend + 1);
    let k2 = seq!['e', 'v', 'e', 'n', 't', 'T', 'y', 'p', 'e'];
    assert forall|i: int| 0 <= i < 9 implies t.subrange(dend + 2, dend + 11)[i] == k2[i] by {
        assert(t.subrange(dend + 2, dend + 11)[i] == t[dend + 2 + i]);
        assert(t[dend + 2 + i] == mt[7 + dl + 2 + i]);
        assert(mt[7 + dl + 2 + i] == k2[i]);
    }
    assert(t.subrange(dend + 2, dend + 11) =~= k2);
    assert(t[dend + 11] == mt[7 + dl + 11] && mt[7 + dl + 11] == '"');
    assert forall|i: int| 0 <= i < k2.len() implies plain_char(k2[i]) by {
        if i == 0 || i == 2 || i == 8 {
            assert(plain_char('e'));
        } else if i == 1 {
            assert(plain_char('v'));
        } else if i == 3 {
            assert(plain_char('n'));
        } else if i == 4 {
            assert(plain_char('t'));
        } else if i == 5 {
            assert(plain_char('T'));
        } else if i == 6 {
            assert(plain_char('y'));
        } else {
            assert(plain_char('p'));
        }
    }
    lemma_plain_str_at(t, dend + 2, k2);
    assert(parse_str_body(t, dend + 2) == Some((k2, dend + 12)));
    assert(t[dend + 12] == mt[7 + dl + 12] && mt[7 + dl + 12] == ':');
    lemma_skip_ws_none(t, dend + 12);
    assert(t[dend + 13] == mt[7 + dl + 13] && mt[7 + dl + 13] == '"');
    lemma_skip_ws_none(t, dend + 13);
    let e8 = dend + 14;
    assert forall|i: int| 0 <= i < el implies t.subrange(e8, e8 + el)[i] == en[i] by {
        assert(t.subrange(e8, e8 + el)[i] == t[e8 + i]);
        assert(t[e8 + i] == mt[7 + dl + 14 + i]);
        assert(mt[7 + dl + 14 + i] == en[i]);
    }
    assert(t.subrange(e8, e8 + el) =~= en);
    assert(t[e8 + el] == mt[7 + dl + 14 + el] && mt[7 + dl + 14 + el] == '"');
    lemma_plain_str_at(t, e8, en);
    assert(parse_str_body(t, e8) == Some((en, e8 + el + 1)));
    let acc2 = PayloadAcc { data: Some(d), et: Some(en), uri: None };
    assert(member_value(t, dend + 13, k2, acc1) == Some((acc2, e8 + el + 1)));
    assert(t[e8 + el + 1] == mt[7 + dl + 14 + el + 1] && mt[7 + dl + 14 + el + 1] == ',');
    lemma_skip_ws_none(t, e8 + el + 1);
    assert(parse_members(t, dend + 1, acc1, false) == parse_members(
        t,
        e8 + el + 2,
        acc2,
        false,
    ));
    // --- member three: "uri": "<text>" ---
    let u0 = e8 + el + 2;
    assert(t[u0] == mt[7 + dl + 14 + el + 2] && mt[7 + dl + 14 + el + 2] == '"');
    lemma_skip_ws_none(t, u0);
    let k3 = seq!['u', 'r', 'i'];
    assert forall|i: int| 0 <= i < 3 implies t.subrange(u0 + 1, u0 + 4)[i] == k3[i] by {
        assert(t.subrange(u0 + 1, u0 + 4)[i] == t[u0 + 1 + i]);
        assert(t[u0 + 1 + i] == mt[7 + dl + 14 + el + 3 + i]);
        assert(mt[7 + dl + 14 + el + 3 + i] == k3[i]);
    }
    assert(t.subrange(u0 + 1, u0 + 4) =~= k3);
    assert(t[u0 + 4] == mt[7 + dl + 14 + el + 6] && mt[7 + dl + 14 + el + 6] == '"');
    assert forall|i: int| 0 <= i < k3.len() implies plain_char(k3[i]) by {
        if i == 0 {
            assert(plain_char('u'));
        } else if i == 1 {
            assert(plain_char('r'));
        } else {
            assert(plain_char('i'));
        }
    }
    lemma_plain_str_at(t, u0 + 1, k3);
    assert(parse_str_body(t, u0 + 1) == Some((k3, u0 + 5)));
    assert(t[u0 + 5] == mt[7 + dl + 14 + el + 7] && mt[7 + dl + 14 + el + 7] == ':');
    lemma_skip_ws_none(t, u0 + 5);
    assert(t[u0 + 6] == mt[7 + dl + 14 + el + 8] && mt[7 + dl + 14 + el + 8] == '"');
    lemma_skip_ws_none(t, u0 + 6);
    let v0 = u0 + 7;
    assert forall|i: int| 0 <= i < ul implies t.subrange(v0, v0 + ul)[i] == eu[i] by {
        assert(t.subrange(v0, v0 + ul)[i] == t[v0 + i]);
        assert(t[v0 + i] == mt[7 + dl + 14 + el + 9 + i]);
        assert(mt[7 + dl + 14 + el + 9 + i] == eu[i]);
    }
    assert(t.subrange(v0, v0 + ul) =~= eu);
    assert(t[v0 + ul] == mt[7 + dl + 14 + el + 9 + ul] && mt[7 + dl + 14 + el + 9 + ul] == '"');
    lemma_parse_escaped(t, v0, uri);
    assert(parse_str_body(t, v0) == Some((uri, v0 + ul + 1)));
    let acc3 = PayloadAcc { data: Some(d), et: Some(en), uri: Some(uri) };
    assert(member_value(t, u0 + 6, k3, acc2) == Some((acc3, v0 + ul + 1)));
    assert(t[v0 + ul + 1] == mt[7 + dl + 14 + el + 9 + ul + 1] && mt[7 + dl + 14 + el + 9 + ul
        + 1] == '}');
    lemma_skip_ws_none(t, v0 + ul + 1);
    assert(parse_members(t, e8 + el + 2, acc2, false) == Some((acc3, v0 + ul + 2)));
    assert(v0 + ul + 2 == m0 + mt.len());
}

/// Decoding is a left inverse of encoding: the canonical text of any
/// well-formed envelope decodes to exactly that envelope, opcode, channel,
/// data text, event type and uri alike.
#[verifier::rlimit(100)]
#[verifier::spinoff_prover]
pub proof fn lemma_encode_decode(v: IncomingV)
    requires
        incoming_wf(v),
    ensures
        spec_decode(spec_encode(v)) == Some(v),
{
    let t = spec_encode(v);
    let a = uint_chars(v.opcode);
    let ec = esc(v.channel);
    let d = v.message.data;
    let e = v.message.event_type;
    let mt = members_text(d, e, v.message.uri);
    let al = a.len() as int;
    let cl = ec.len() as int;
    let pre = seq!['['] + a + seq![',', '"'] + ec + seq!['"', ',', '{'];
    let t2 = pre + mt + seq![']'];
    assert(t =~= t2);
    let m0 = pre.len() as int;
    let p8 = m0 + mt.len() as int;
    // opening bracket and opcode
    assert(t[0] == '[');
    lemma_skip_ws_none(t, 0);
    lemma_uint_chars(v.opcode);
    assert forall|i: int| 0 <= i < al implies t.subrange(1, 1 + al)[i] == a[i] by {
        assert(t.subrange(1, 1 + al)[i] == t[1 + i]);
        assert(t2[1 + i] == a[i]);
    }
    assert(t.subrange(1, 1 + al) =~= a);
    assert(!is_ws(a[0]));
    lemma_skip_ws_none(t, 1);
    assert(t[1 + al] == ',');
    assert(!is_digit(','));
    lemma_parse_uint_at(t, 1, v.opcode);
    assert(parse_uint(t, 1) == Some((v.opcode, 1 + al)));
    lemma_skip_ws_none(t, 1 + al);
    // channel string
    assert(t[1 + al + 1] == '"');
    lemma_skip_ws_none(t, 1 + al + 1);
    let o3 = 1 + al + 2;
    assert forall|i: int| 0 <= i < cl implies t.subrange(o3, o3 + cl)[i] == ec[i] by {
        assert(t.subrange(o3, o3 + cl)[i] == t[o3 + i]);
        assert(t2[o3 + i] == ec[i]);
    }
    assert(t.subrange(o3, o3 + cl) =~= ec);
    assert(t[o3 + cl] == '"');
    lemma_parse_escaped(t, o3, v.channel);
    assert(parse_str_body(t, o3) == Some((v.channel, o3 + cl + 1)));
    // separator and payload object
    assert(t[o3 + cl + 1] == ',');
    lemma_skip_ws_none(t, o3 + cl + 1);
    assert(t[o3 + cl + 2] == '{');
    lemma_skip_ws_none(t, o3 + cl + 2);
    assert(m0 == o3 + cl + 3);
    assert forall|i: int| 0 <= i < mt.len() implies t.subrange(m0, p8)[i] == mt[i] by {
        assert(t.subrange(m0, p8)[i] == t[m0 + i]);
        assert(t2[m0 + i] == mt[i]);
    }
    assert(t.subrange(m0, p8) =~= mt);
    lemma_members_of_encode(t, m0, d, e, v.message.uri);
    assert(parse_members(t, m0, empty_acc(), true) == Some(
        (PayloadAcc { data: Some(d), et: Some(et_name(e)), uri: Some(v.message.uri) }, p8),
    ));
    // closing bracket and end of text
    assert(t[p8] == ']');
    lemma_skip_ws_none(t, p8);
    lemma_skip_ws_none(t, p8 + 1);
    assert(p8 + 1 == t.len());
    lemma_event_type_name_round_trip(e);
    assert(spec_decode(t) == Some(
        IncomingV {
            opcode: v.opcode,
            channel: v.channel,
            message: MessageV { data: d, event_type: e, uri: v.message.uri },
        },
    ));
    assert(IncomingV {
        opcode: v.opcode,
        channel: v.channel,
        message: MessageV { data: d, event_type: e, uri: v.message.uri },
    } == v);
}

/// Every data span a successful payload read collects is one JSON value
/// without leading whitespace.
proof fn lemma_parse_members_data_wf(s: Seq<char>, pos: int, acc: PayloadAcc, first: bool)
    requires
        0 <= pos <= s.len(),
        parse_members(s, pos, acc, first) is Some,
        match acc.data {
            Option::Some(d) => valid_json_value(d) && d.len() > 0 && !is_ws(d[0]),
            Option::None => true,
        },
    ensures
        match parse_members(s, pos, acc, first).unwrap().0.data {
            Option::Some(d) => valid_json_value(d) && d.len() > 0 && !is_ws(d[0]),
            Option::None => true,
        },
    decreases s.len() - pos,
{
    lemma_skip_ws(s, pos);
    let p = skip_ws(s, pos);
    if p < s.len() && !(first && s[p] == '}') && s[p] == '"' && parse_str_body(s, p + 1) is Some {
        lemma_parse_str_bounds(s, p + 1);
        let kq = parse_str_body(s, p + 1).unwrap();
        lemma_skip_ws(s, kq.1);
        let q1 = skip_ws(s, kq.1);
        if q1 < s.len() && s[q1] == ':' {
            lemma_skip_ws(s, q1 + 1);
            let q2 = skip_ws(s, q1 + 1);
            if member_value(s, q2, kq.0, acc) is Some {
                lemma_member_value_bounds(s, q2, kq.0, acc);
                let ae = member_value(s, q2, kq.0, acc).unwrap();
                assert(match ae.0.data {
                    Option::Some(d) => valid_json_value(d) && d.len() > 0 && !is_ws(d[0]),
                    Option::None => true,
                }) by {
                    if kq.0 == seq!['d', 'a', 't', 'a'] && acc.data is None {
                        let en = scan_value(s, q2).unwrap();
                        assert(q2 < s.len() && !is_ws(s[q2]));
                        assert(!scan_done(s, q2, Mode::Val, Seq::<Ctx>::empty()));
                        let next = scan_step(Mode::Val, Seq::<Ctx>::empty(), s[q2]).unwrap();
                        lemma_scan_bounds(s, q2 + 1, next.0, next.1);
                        assert(en > q2);
                        let dspan = s.subrange(q2, en);
                        assert forall|i: int| 0 <= i < en - q2 implies dspan[i] == s[q2 + i] by {}
                        lemma_scan_shift(s, q2, Mode::Val, Seq::<Ctx>::empty(), dspan, -q2);
                        assert(valid_json_value(dspan));
                        assert(dspan[0] == s[q2]);
                    }
                }
                lemma_skip_ws(s, ae.1);
                let e1 = skip_ws(s, ae.1);
                if e1 < s.len() && s[e1] == ',' {
                    lemma_parse_members_data_wf(s, e1 + 1, ae.0, false);
                }
            }
        }
    }
}

/// Whatever text decodes at all decodes to a well-formed envelope.
pub proof fn lemma_spec_decode_wf(s: Seq<char>)
    requires
        spec_decode(s) is Some,
    ensures
        incoming_wf(spec_decode(s).unwrap()),
{
    lemma_skip_ws(s, 0);
    let p0 = skip_ws(s, 0);
    let oe = parse_uint(s, skip_ws(s, p0 + 1)).unwrap();
    lemma_skip_ws(s, p0 + 1);
    lemma_scan_digits(s, skip_ws(s, p0 + 1));
    lemma_skip_ws(s, oe.1);
    let p3 = skip_ws(s, oe.1);
    lemma_skip_ws(s, p3 + 1);
    let p4 = skip_ws(s, p3 + 1);
    lemma_parse_str_bounds(s, p4 + 1);
    let cq = parse_str_body(s, p4 + 1).unwrap();
    lemma_skip_ws(s, cq.1);
    let p6 = skip_ws(s, cq.1);
    lemma_skip_ws(s, p6 + 1);
    let p7 = skip_ws(s, p6 + 1);
    lemma_parse_members_data_wf(s, p7 + 1, empty_acc(), true);
}

/// Decode, re-encode, decode is the identity: re-decoding the canonical
/// encoding of any decoded envelope yields the same envelope, on every
/// semantic field.
pub proof fn lemma_decode_encode_decode(s: Seq<char>)
    requires
        spec_decode(s) is Some,
    ensures
        spec_decode(spec_encode(spec_decode(s).unwrap())) == spec_decode(s),
{
    lemma_spec_decode_wf(s);
    lemma_encode_decode(spec_decode(s).unwrap());
}

} // verus!
