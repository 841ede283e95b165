//! A push-based event stream over raw byte chunks.
//!
//! [`ToolCallStream`] accepts opaque byte chunks that may split multi-byte
//! characters anywhere.  It decodes whole characters as soon as their bytes
//! are complete, holds a partial trailing unit back until more bytes arrive,
//! drives the streaming machine over the decoded characters, and hands out
//! one item per pull: tool starts, one item per parameter, tool ends, and
//! errors.  Prose text between tool elements is discarded here; consumers
//! that want the prose use [`crate::machine::XmlStreamParser`] directly.

use vstd::prelude::*;
use vstd::string::StringExecFns;
use vstd::utf8::{
    decode_first_scalar, is_continuation_byte, is_leading_byte_width_1, is_leading_byte_width_2,
    is_leading_byte_width_3, is_leading_byte_width_4, is_scalar, length_of_first_scalar,
    pop_first_scalar, valid_first_scalar,
};
use crate::events::{message_chars, views_of, ErrorKindM, EventM, ParseErrorKind,
    ToolCallEvent as MachineEvent};
use crate::machine::XmlStreamParser;
use crate::model::{default_options, finish_events, init_state, run, step, MState};

verus! {

/// A `u32` that is a Unicode scalar is `Some` character.  Relies on
/// `char::from_u32`, which returns `None` exactly for surrogates and values
/// above the highest code point.
pub assume_specification[ char::from_u32 ](v: u32) -> (r: Option<char>)
    ensures
        r is Some <==> is_scalar(v),
        r matches Some(c) ==> c as u32 == v,
;

/// How many bytes a leading byte announces; zero for a byte that cannot
/// start a character.
pub open spec fn scalar_shape_len(b: u8) -> int {
    if is_leading_byte_width_1(b) {
        1
    } else if is_leading_byte_width_2(b) {
        2
    } else if is_leading_byte_width_3(b) {
        3
    } else if is_leading_byte_width_4(b) {
        4
    } else {
        0
    }
}

/// The bytes are the beginning of one character's encoding whose remaining
/// bytes have not arrived yet.
pub open spec fn incomplete_prefix(bs: Seq<u8>) -> bool {
    &&& bs.len() > 0
    &&& scalar_shape_len(bs[0]) > bs.len()
    &&& forall|i: int| 1 <= i < bs.len() ==> is_continuation_byte(#[trigger] bs[i])
}

/// One unit the ingress buffer hands to the parser: a whole character, or
/// the mark of a byte sequence that can never become one.
pub ghost enum ScanItem {
    Ch(char),
    Bad,
}

/// Greedily decodes every unit that is already determined, leaving the
/// partial trailing bytes (if any) for the next chunk.  A byte run that can
/// never start a character yields one `Bad` mark and resynchronizes one byte
/// later.
pub open spec fn lex_bytes(bs: Seq<u8>) -> (Seq<ScanItem>, Seq<u8>)
    decreases bs.len(),
{
    if bs.len() == 0 {
        (Seq::empty(), Seq::empty())
    } else if valid_first_scalar(bs) && 1 <= length_of_first_scalar(bs) <= bs.len() {
        let rest = lex_bytes(pop_first_scalar(bs));
        (seq![ScanItem::Ch(decode_first_scalar(bs) as char)] + rest.0, rest.1)
    } else if incomplete_prefix(bs) {
        (Seq::empty(), bs)
    } else {
        let rest = lex_bytes(bs.drop_first());
        (seq![ScanItem::Bad] + rest.0, rest.1)
    }
}

/// Model of [`XmlError`].
pub ghost enum XmlErrorM {
    Xml(Seq<char>),
    Other(Seq<char>),
}

/// An error of the chunked stream: a structural parse error, or anything
/// else (an encoding failure).
#[derive(Debug, Clone, PartialEq, Eq)]
pub enum XmlError {
    Xml(String),
    Other(String),
}

impl View for XmlError {
    type V = XmlErrorM;

    open spec fn view(&self) -> XmlErrorM {
        match self {
            XmlError::Xml(s) => XmlErrorM::Xml(s@),
            XmlError::Other(s) => XmlErrorM::Other(s@),
        }
    }
}

impl XmlError {
    /// The error's message.
    pub fn message(&self) -> (r: String)
        ensures
            r@ == match self@ {
                XmlErrorM::Xml(s) => s,
                XmlErrorM::Other(s) => s,
            },
    {
        match self {
            XmlError::Xml(s) => s.clone(),
            XmlError::Other(s) => s.clone(),
        }
    }
}

/// One externally observable item of the byte-fed stream.
#[derive(Debug, Clone, PartialEq, Eq)]
pub enum ToolCallEvent {
    /// A tool call begins; carries the tool's name.
    ToolStart(String),
    /// One parameter of the open tool, in insertion order, at its close.
    Parameter { name: String, value: String },
    /// The tool call ended.
    ToolEnd,
    /// An error reported in band; the parser also reports errors through
    /// `Err` items, as [`ToolCallStream::next_event`] does.
    Error(String),
}

/// Model of one delivered item.
pub ghost enum StreamItemM {
    Start(Seq<char>),
    Param { name: Seq<char>, value: Seq<char> },
    End,
    Fail(XmlErrorM),
}

/// The model of one delivered `Result` item.
pub open spec fn item_m(r: Result<ToolCallEvent, XmlError>) -> StreamItemM {
    match r {
        Ok(ev) => match ev {
            ToolCallEvent::ToolStart(n) => StreamItemM::Start(n@),
            ToolCallEvent::Parameter { name, value } => StreamItemM::Param {
                name: name@,
                value: value@,
            },
            ToolCallEvent::ToolEnd => StreamItemM::End,
            ToolCallEvent::Error(s) => StreamItemM::Fail(XmlErrorM::Xml(s@)),
        },
        Err(e) => StreamItemM::Fail(e@),
    }
}

/// The models of a sequence of delivered items.
pub open spec fn items_m(rs: Seq<Result<ToolCallEvent, XmlError>>) -> Seq<StreamItemM> {
    rs.map_values(|r: Result<ToolCallEvent, XmlError>| item_m(r))
}

/// What one machine event looks like on this stream: prose is dropped, the
/// consolidated parameter mapping is handed out entry by entry, and parse
/// errors surface as failures.
pub open spec fn project_event(e: EventM) -> Seq<StreamItemM> {
    match e {
        EventM::Text(_) => Seq::empty(),
        EventM::ToolStart { id, name } => seq![StreamItemM::Start(name)],
        EventM::Parameter { id, arguments } => arguments.map_values(
            |p: (Seq<char>, Seq<char>)| StreamItemM::Param { name: p.0, value: p.1 },
        ),
        EventM::ToolEnd { id } => seq![StreamItemM::End],
        EventM::Error(k) => seq![StreamItemM::Fail(XmlErrorM::Xml(message_chars(k)))],
    }
}

/// [`project_event`] over a sequence of machine events.
pub open spec fn project_events(evs: Seq<EventM>) -> Seq<StreamItemM>
    decreases evs.len(),
{
    if evs.len() == 0 {
        Seq::empty()
    } else {
        project_event(evs[0]) + project_events(evs.drop_first())
    }
}

/// Projection distributes over concatenation.
pub proof fn lemma_project_append(a: Seq<EventM>, b: Seq<EventM>)
    ensures
        project_events(a + b) == project_events(a) + project_events(b),
    decreases a.len(),
{
    if a.len() == 0 {
        assert(a + b =~= b);
        assert(project_events(a) + project_events(b) =~= project_events(b));
    } else {
        assert((a + b)[0] == a[0]);
        assert((a + b).drop_first() =~= a.drop_first() + b);
        lemma_project_append(a.drop_first(), b);
        assert(project_events(a + b) =~= project_events(a) + project_events(b));
    }
}

/// The message of a unit that can never become a character.
pub open spec fn bad_unit_msg() -> Seq<char> {
    "invalid character encoding"@
}

/// The message of a partial trailing unit still open at end of input.
pub open spec fn bad_tail_msg() -> Seq<char> {
    "invalid character encoding at end of input"@
}

/// The machine state and the delivered items after a sequence of decoded
/// units: characters drive the machine, bad units surface as failures in
/// place.
pub open spec fn items_out(s: MState, units: Seq<ScanItem>) -> (MState, Seq<StreamItemM>)
    decreases units.len(),
{
    if units.len() == 0 {
        (s, Seq::empty())
    } else {
        let head: (MState, Seq<StreamItemM>) = match units[0] {
            ScanItem::Ch(c) => {
                let st = step(default_options(), s, c);
                (st.0, project_events(st.1))
            },
            ScanItem::Bad => (s, seq![StreamItemM::Fail(XmlErrorM::Other(bad_unit_msg()))]),
        };
        let rest = items_out(head.0, units.drop_first());
        (rest.0, head.1 + rest.1)
    }
}

/// [`items_out`] extended by one more unit.
pub proof fn lemma_items_out_snoc(s: MState, units: Seq<ScanItem>, u: ScanItem)
    ensures
        items_out(s, units.push(u)) == (
            items_out(items_out(s, units).0, seq![u]).0,
            items_out(s, units).1 + items_out(items_out(s, units).0, seq![u]).1,
        ),
    decreases units.len(),
{
    if units.len() == 0 {
        assert(units.push(u).drop_first() =~= Seq::<ScanItem>::empty());
        assert(units.push(u)[0] == u);
        assert(seq![u][0] == u);
        assert(seq![u].drop_first() =~= Seq::<ScanItem>::empty());
        assert(items_out(s, units.push(u)).1 =~= items_out(s, units).1 + items_out(
            items_out(s, units).0,
            seq![u],
        ).1);
    } else {
        assert(units.push(u)[0] == units[0]);
        assert(units.push(u).drop_first() =~= units.drop_first().push(u));
        lemma_items_out_snoc(items_out_head(s, units[0]).0, units.drop_first(), u);
        assert(items_out(s, units.push(u)).1 =~= items_out(s, units).1 + items_out(
            items_out(s, units).0,
            seq![u],
        ).1);
    }
}

/// The head case of [`items_out`], shared by the proofs.
pub open spec fn items_out_head(s: MState, u: ScanItem) -> (MState, Seq<StreamItemM>) {
    match u {
        ScanItem::Ch(c) => {
            let st = step(default_options(), s, c);
            (st.0, project_events(st.1))
        },
        ScanItem::Bad => (s, seq![StreamItemM::Fail(XmlErrorM::Other(bad_unit_msg()))]),
    }
}

/// Everything the stream delivers for a complete byte input: the items of
/// the decoded units, a failure if a partial unit is still open at end of
/// input, then the end-of-input synthesis of the machine.
pub open spec fn stream_items(bs: Seq<u8>) -> Seq<StreamItemM> {
    let lx = lex_bytes(bs);
    let r = items_out(init_state(), lx.0);
    r.1 + (if lx.1.len() > 0 {
        seq![StreamItemM::Fail(XmlErrorM::Other(bad_tail_msg()))]
    } else {
        Seq::empty()
    }) + project_events(finish_events(r.0))
}

/// The characters among the decoded units, in order.
pub open spec fn chars_of(units: Seq<ScanItem>) -> Seq<char>
    decreases units.len(),
{
    if units.len() == 0 {
        Seq::empty()
    } else {
        (match units[0] {
            ScanItem::Ch(c) => seq![c],
            ScanItem::Bad => Seq::<char>::empty(),
        }) + chars_of(units.drop_first())
    }
}

/// One more unit appends its character, if it has one.
proof fn lemma_chars_of_snoc(units: Seq<ScanItem>, u: ScanItem)
    ensures
        chars_of(units.push(u)) == chars_of(units) + (match u {
            ScanItem::Ch(c) => seq![c],
            ScanItem::Bad => Seq::<char>::empty(),
        }),
    decreases units.len(),
{
    let tail = match u {
        ScanItem::Ch(c) => seq![c],
        ScanItem::Bad => Seq::<char>::empty(),
    };
    if units.len() == 0 {
        assert(units.push(u).drop_first() =~= Seq::<ScanItem>::empty());
        assert(units.push(u)[0] == u);
        assert(chars_of(Seq::<ScanItem>::empty()) == Seq::<char>::empty());
        assert(tail + Seq::<char>::empty() =~= tail);
        assert(chars_of(units) + tail =~= tail);
    } else {
        assert(units.push(u)[0] == units[0]);
        assert(units.push(u).drop_first() =~= units.drop_first().push(u));
        lemma_chars_of_snoc(units.drop_first(), u);
        assert(chars_of(units.push(u)) =~= chars_of(units) + tail);
    }
}

/// The machine state after a unit sequence is the state after its characters
/// alone: bad units surface as failures but do not drive the machine.
proof fn lemma_items_out_state(s: MState, units: Seq<ScanItem>)
    ensures
        items_out(s, units).0 == run(default_options(), s, chars_of(units)).0,
    decreases units.len(),
{
    if units.len() > 0 {
        match units[0] {
            ScanItem::Ch(c) => {
                let s1 = step(default_options(), s, c).0;
                lemma_items_out_state(s1, units.drop_first());
                assert(chars_of(units)[0] == c);
                assert(chars_of(units).drop_first() =~= chars_of(units.drop_first()));
            },
            ScanItem::Bad => {
                lemma_items_out_state(s, units.drop_first());
                assert(chars_of(units) =~= chars_of(units.drop_first()));
            },
        }
    }
}

/// The first unit of `a` is the first unit of `a + b` whenever `a` already
/// determines it; decoding is invariant under feeding more bytes later.
proof fn lemma_lex_append(a: Seq<u8>, b: Seq<u8>)
    ensures
        lex_bytes(a + b).0 == lex_bytes(a).0 + lex_bytes(lex_bytes(a).1 + b).0,
        lex_bytes(a + b).1 == lex_bytes(lex_bytes(a).1 + b).1,
    decreases a.len(),
{
    if a.len() == 0 {
        assert(a + b =~= b);
        assert(lex_bytes(a).1 + b =~= b);
        assert(lex_bytes(a).0 + lex_bytes(b).0 =~= lex_bytes(b).0);
    } else {
        let ab = a + b;
        assert(ab[0] == a[0]);
        assert(forall|i: int| 0 <= i < a.len() ==> ab[i] == a[i]);
        if valid_first_scalar(a) && 1 <= length_of_first_scalar(a) <= a.len() {
            let w = length_of_first_scalar(a);
            assert(valid_first_scalar(ab) && length_of_first_scalar(ab) == w);
            assert(decode_first_scalar(ab) == decode_first_scalar(a));
            assert(pop_first_scalar(ab) =~= pop_first_scalar(a) + b);
            lemma_lex_append(pop_first_scalar(a), b);
            assert(lex_bytes(ab).0 =~= lex_bytes(a).0 + lex_bytes(lex_bytes(a).1 + b).0);
        } else if incomplete_prefix(a) {
            assert(lex_bytes(a).1 + b =~= a + b);
            assert(lex_bytes(a).0 + lex_bytes(a + b).0 =~= lex_bytes(a + b).0);
        } else {
            // The first byte can never start a character, in `a` and in
            // `a + b` alike.
            let w = scalar_shape_len(a[0]);
            if w == 0 {
                assert(!valid_first_scalar(ab));
                assert(!incomplete_prefix(ab));
            } else if a.len() >= w {
                assert(1 <= w <= 4);
                assert(valid_first_scalar(ab) ==> valid_first_scalar(a));
                assert(length_of_first_scalar(ab) == w);
                assert(!(valid_first_scalar(ab) && 1 <= length_of_first_scalar(ab) <= ab.len()));
                assert(!incomplete_prefix(ab));
            } else {
                // Too short to be whole, yet not a clean prefix: some byte
                // after the first is not a continuation byte.
                assert(exists|i: int|
                    1 <= i < a.len() && !is_continuation_byte(#[trigger] a[i]));
                let i = choose|i: int| 1 <= i < a.len() && !is_continuation_byte(#[trigger] a[i]);
                assert(!is_continuation_byte(ab[i]));
                assert(!valid_first_scalar(ab));
                assert(!incomplete_prefix(ab));
            }
            assert(ab.drop_first() =~= a.drop_first() + b);
            lemma_lex_append(a.drop_first(), b);
            assert(lex_bytes(ab).0 =~= lex_bytes(a).0 + lex_bytes(lex_bytes(a).1 + b).0);
        }
    }
}

/// What one decoding attempt found.
enum DecodeOutcome {
    /// A whole character.
    Got(char),
    /// The remaining bytes may still become a character.
    NeedMore,
    /// The remaining bytes can never become a character.
    Invalid,
}

/// Reads the bytes of one character starting at `pos`, if they are all
/// there and well formed.
fn decode_first(buffer: &Vec<u8>, pos: usize) -> (r: (DecodeOutcome, usize))
    requires
        pos <= buffer@.len(),
    ensures
        ({
            let rem = buffer@.skip(pos as int);
            match r.0 {
                DecodeOutcome::Got(c) => valid_first_scalar(rem) && 1 <= length_of_first_scalar(
                    rem,
                ) <= rem.len() && c == (decode_first_scalar(rem) as char) && r.1
                    == length_of_first_scalar(rem),
                DecodeOutcome::NeedMore => (rem.len() == 0 || incomplete_prefix(rem)) && r.1 == 0,
                DecodeOutcome::Invalid => rem.len() > 0 && !valid_first_scalar(rem)
                    && !incomplete_prefix(rem) && r.1 == 1,
            }
        }),
{
    let ghost rem = buffer@.skip(pos as int);
    let avail = buffer.len() - pos;
    if avail == 0 {
        return (DecodeOutcome::NeedMore, 0);
    }
    let b0 = buffer[pos];
    proof {
        assert(rem[0] == b0);
        assert(rem.len() == avail);
    }
    if b0 <= 0x7f {
        // One byte: the character is the byte.
        proof {
            assert(b0 & 0x7f == b0) by (bit_vector)
                requires
                    b0 <= 0x7f,
            ;
        }
        let c = match char::from_u32(b0 as u32) {
            Some(c) => c,
            None => vstd::pervasive::unreached(),
        };
        proof {
            assert(valid_first_scalar(rem));
            assert(decode_first_scalar(rem) == b0 as u32);
            vstd::utf8::char_u32_cast(c, b0 as u32);
            assert(length_of_first_scalar(rem) == 1);
        }
        return (DecodeOutcome::Got(c), 1);
    }
    let width: usize = if 0xc0 <= b0 && b0 <= 0xdf {
        2
    } else if 0xe0 <= b0 && b0 <= 0xef {
        3
    } else if 0xf0 <= b0 && b0 <= 0xf7 {
        4
    } else {
        proof {
            assert(scalar_shape_len(b0) == 0);
        }
        return (DecodeOutcome::Invalid, 1);
    };
    proof {
        assert(scalar_shape_len(b0) == width);
    }
    // Check the continuation bytes that have arrived.
    let present = if avail < width {
        avail
    } else {
        width
    };
    let mut i: usize = 1;
    while i < present
        invariant
            1 <= i <= present <= rem.len(),
            present <= width,
            2 <= width <= 4,
            rem == buffer@.skip(pos as int),
            pos <= buffer@.len(),
            pos + present <= buffer@.len() <= usize::MAX,
            rem.len() > 0 && rem[0] == b0,
            scalar_shape_len(b0) == width,
            present == if rem.len() < width {
                rem.len() as int
            } else {
                width as int
            },
            forall|j: int| 1 <= j < i ==> is_continuation_byte(#[trigger] rem[j]),
        decreases present - i,
    {
        let b = buffer[pos + i];
        proof {
            assert(rem[i as int] == b);
        }
        if !(0x80 <= b && b <= 0xbf) {
            proof {
                assert(!is_continuation_byte(rem[i as int]));
            }
            return (DecodeOutcome::Invalid, 1);
        }
        i = i + 1;
    }
    if avail < width {
        proof {
            assert(incomplete_prefix(rem));
        }
        return (DecodeOutcome::NeedMore, 0);
    }
    // All bytes are present and shaped right; compute the code point.
    let cp: u32 = if width == 2 {
        (((b0 & 0x1f) as u32) << 6u32) | ((buffer[pos + 1] & 0x3f) as u32)
    } else if width == 3 {
        (((b0 & 0x0f) as u32) << 12u32) | (((buffer[pos + 1] & 0x3f) as u32) << 6u32) | ((buffer[pos
            + 2] & 0x3f) as u32)
    } else {
        (((b0 & 0x07) as u32) << 18u32) | (((buffer[pos + 1] & 0x3f) as u32) << 12u32) | (((buffer[pos
            + 2] & 0x3f) as u32) << 6u32) | ((buffer[pos + 3] & 0x3f) as u32)
    };
    proof {
        assert(i == present && present == width);
        assert(forall|j: int| 1 <= j < width ==> is_continuation_byte(#[trigger] rem[j]));
        assert(rem[1] == buffer@[pos + 1]);
        if width >= 3 {
            assert(rem[2] == buffer@[pos + 2]);
        }
        if width >= 4 {
            assert(rem[3] == buffer@[pos + 3]);
        }
        assert(vstd::utf8::valid_leading_and_continuation_bytes_first_codepoint(rem));
        assert(vstd::utf8::length_of_first_codepoint(rem) == width);
        assert(cp == vstd::utf8::decode_first_codepoint(rem));
    }
    // Reject overlong encodings and surrogates.
    let ok = if width == 2 {
        0x80 <= cp
    } else if width == 3 {
        0x800 <= cp && !(0xd800 <= cp && cp <= 0xdfff)
    } else {
        0x10000 <= cp && cp <= 0x10ffff
    };
    if !ok {
        proof {
            assert(!valid_first_scalar(rem));
            assert(!incomplete_prefix(rem));
        }
        return (DecodeOutcome::Invalid, 1);
    }
    proof {
        let b1 = rem[1];
        if width == 2 {
            assert(cp <= 0x7ff) by (bit_vector)
                requires
                    cp == (((b0 & 0x1f) as u32) << 6u32) | ((b1 & 0x3f) as u32),
            ;
        } else if width == 3 {
            let b2 = rem[2];
            assert(cp <= 0xffff) by (bit_vector)
                requires
                    cp == (((b0 & 0x0f) as u32) << 12u32) | (((b1 & 0x3f) as u32) << 6u32) | ((b2
                        & 0x3f) as u32),
            ;
        }
        assert(vstd::utf8::not_overlong_encoding(cp, width as int));
        assert(vstd::utf8::not_surrogate(cp));
        assert(valid_first_scalar(rem));
        assert(length_of_first_scalar(rem) == width);
        assert(is_scalar(cp));
    }
    let c = match char::from_u32(cp) {
        Some(c) => c,
        None => vstd::pervasive::unreached(),
    };
    proof {
        vstd::utf8::char_u32_cast(c, cp);
    }
    (DecodeOutcome::Got(c), width)
}

/// Pushes the items one machine event turns into.
fn push_event_items(q: &mut Vec<Result<ToolCallEvent, XmlError>>, ev: MachineEvent)
    ensures
        final(q)@.map_values(|r: Result<ToolCallEvent, XmlError>| item_m(r)) == old(
            q,
        )@.map_values(|r: Result<ToolCallEvent, XmlError>| item_m(r)) + project_event(ev@),
{
    let ghost target = project_event(ev@);
    match ev {
        MachineEvent::Text(_) => {
            proof {
                assert(q@.map_values(|r: Result<ToolCallEvent, XmlError>| item_m(r)) + target
                    =~= q@.map_values(|r: Result<ToolCallEvent, XmlError>| item_m(r)));
            }
        },
        MachineEvent::ToolStart { id, name } => {
            q.push(Ok(ToolCallEvent::ToolStart(name)));
            proof {
                assert(q@.map_values(|r: Result<ToolCallEvent, XmlError>| item_m(r)) =~= old(
                    q,
                )@.map_values(|r: Result<ToolCallEvent, XmlError>| item_m(r)) + target);
            }
        },
        MachineEvent::Parameter { id, arguments } => {
            let n = arguments.len();
            let mut i: usize = 0;
            proof {
                assert(arguments@.take(0).map_values(
                    |p: (Seq<char>, Seq<char>)| StreamItemM::Param { name: p.0, value: p.1 },
                ) =~= Seq::<StreamItemM>::empty());
                assert(old(q)@.map_values(|r: Result<ToolCallEvent, XmlError>| item_m(r))
                    + Seq::<StreamItemM>::empty() =~= old(q)@.map_values(
                    |r: Result<ToolCallEvent, XmlError>| item_m(r),
                ));
            }
            while i < n
                invariant
                    0 <= i <= n == arguments@.len(),
                    q@.map_values(|r: Result<ToolCallEvent, XmlError>| item_m(r)) == old(
                        q,
                    )@.map_values(|r: Result<ToolCallEvent, XmlError>| item_m(r))
                        + arguments@.take(i as int).map_values(
                        |p: (Seq<char>, Seq<char>)| StreamItemM::Param { name: p.0, value: p.1 },
                    ),
                decreases n - i,
            {
                let ghost qm0 = q@.map_values(|r: Result<ToolCallEvent, XmlError>| item_m(r));
                let a = arguments.entry(i);
                let item = Ok(
                    ToolCallEvent::Parameter { name: a.name.clone(), value: a.value.clone() },
                );
                let ghost itv = item_m(item);
                q.push(item);
                proof {
                    assert(itv == (StreamItemM::Param {
                        name: arguments@[i as int].0,
                        value: arguments@[i as int].1,
                    }));
                    assert(q@.map_values(|r: Result<ToolCallEvent, XmlError>| item_m(r))
                        =~= qm0.push(itv));
                    assert(arguments@.take(i as int + 1) =~= arguments@.take(i as int).push(
                        arguments@[i as int],
                    ));
                    assert(arguments@.take(i as int + 1).map_values(
                        |p: (Seq<char>, Seq<char>)| StreamItemM::Param { name: p.0, value: p.1 },
                    ) =~= arguments@.take(i as int).map_values(
                        |p: (Seq<char>, Seq<char>)| StreamItemM::Param { name: p.0, value: p.1 },
                    ).push(itv));
                    assert(qm0.push(itv) =~= old(q)@.map_values(
                        |r: Result<ToolCallEvent, XmlError>| item_m(r),
                    ) + arguments@.take(i as int + 1).map_values(
                        |p: (Seq<char>, Seq<char>)| StreamItemM::Param { name: p.0, value: p.1 },
                    ));
                }
                i = i + 1;
            }
            proof {
                assert(arguments@.take(n as int) =~= arguments@);
            }
        },
        MachineEvent::ToolEnd { id } => {
            q.push(Ok(ToolCallEvent::ToolEnd));
            proof {
                assert(q@.map_values(|r: Result<ToolCallEvent, XmlError>| item_m(r)) =~= old(
                    q,
                )@.map_values(|r: Result<ToolCallEvent, XmlError>| item_m(r)) + target);
            }
        },
        MachineEvent::Error(k) => {
            let msg = k.message();
            q.push(Err(XmlError::Xml(msg)));
            proof {
                assert(q@.map_values(|r: Result<ToolCallEvent, XmlError>| item_m(r)) =~= old(
                    q,
                )@.map_values(|r: Result<ToolCallEvent, XmlError>| item_m(r)) + target);
            }
        },
    }
}

/// The push-based event stream over byte chunks.
pub struct ToolCallStream {
    /// Every byte pushed so far; never compacted.
    buffer: Vec<u8>,
    /// How many bytes have been decoded or skipped.
    position: usize,
    /// The streaming machine driven by the decoded characters.
    parser: XmlStreamParser,
    /// Items ready to be handed out.
    queue: Vec<Result<ToolCallEvent, XmlError>>,
    scanned: Ghost<Seq<ScanItem>>,
    delivered: Ghost<Seq<StreamItemM>>,
}

impl ToolCallStream {
    /// Every byte pushed so far.
    pub closed spec fn fed(&self) -> Seq<u8> {
        self.buffer@
    }

    /// The models of the items handed out so far.
    pub closed spec fn delivered(&self) -> Seq<StreamItemM> {
        self.delivered@
    }

    /// The bytes not yet decoded.
    pub closed spec fn rest(&self) -> Seq<u8> {
        self.buffer@.skip(self.position as int)
    }

    /// How many items wait in the ready queue.
    pub closed spec fn queued_n(&self) -> int {
        self.queue@.len() as int
    }

    spec fn queued(&self) -> Seq<StreamItemM> {
        self.queue@.map_values(|r: Result<ToolCallEvent, XmlError>| item_m(r))
    }

    /// The stream's invariant: the scanned units are exactly what greedy
    /// decoding of the fed bytes determines so far, the machine has consumed
    /// exactly their characters, and the items handed out plus the ready
    /// queue are exactly the items of the scanned units.
    pub closed spec fn inv(&self) -> bool {
        &&& self.parser.inv()
        &&& self.parser.opts() == default_options()
        &&& self.parser.buffered().len() == 0
        &&& self.parser.pending_evs().len() == 0
        &&& self.position <= self.buffer@.len()
        &&& lex_bytes(self.buffer@).0 == self.scanned@ + lex_bytes(self.rest()).0
        &&& lex_bytes(self.buffer@).1 == lex_bytes(self.rest()).1
        &&& chars_of(self.scanned@) == self.parser.consumed()
        &&& items_out(init_state(), self.scanned@).1 == self.delivered@ + self.queued()
        &&& self.parser.consumed().len() <= self.position
        &&& self.scanned@.len() <= self.position
    }

    /// A stream primed with an initial chunk.
    pub fn new(initial_data: &[u8]) -> (r: ToolCallStream)
        ensures
            r.inv(),
            r.fed() == initial_data@,
            r.delivered() == Seq::<StreamItemM>::empty(),
    {
        let mut r = ToolCallStream {
            buffer: Vec::new(),
            position: 0,
            parser: XmlStreamParser::new(),
            queue: Vec::new(),
            scanned: Ghost(Seq::empty()),
            delivered: Ghost(Seq::empty()),
        };
        proof {
            assert(r.buffer@ =~= Seq::<u8>::empty());
            assert(r.rest() =~= Seq::<u8>::empty());
            assert(lex_bytes(Seq::<u8>::empty()) == (
                Seq::<ScanItem>::empty(),
                Seq::<u8>::empty(),
            ));
            assert(r.scanned@ + lex_bytes(r.rest()).0 =~= lex_bytes(r.buffer@).0);
            assert(chars_of(r.scanned@) =~= Seq::<char>::empty());
            assert(items_out(init_state(), r.scanned@).1 =~= Seq::<StreamItemM>::empty());
            assert(r.queued() =~= Seq::<StreamItemM>::empty());
            assert(r.delivered@ + r.queued() =~= Seq::<StreamItemM>::empty());
        }
        r.push_data(initial_data);
        proof {
            assert(Seq::<u8>::empty() + initial_data@ =~= initial_data@);
        }
        r
    }

    /// Hands the stream one more chunk of bytes.  Chunks may split the bytes
    /// of one character anywhere; a split unit is held until it completes.
    pub fn push_data(&mut self, data: &[u8])
        requires
            old(self).inv(),
        ensures
            final(self).inv(),
            final(self).fed() == old(self).fed() + data@,
            final(self).delivered() == old(self).delivered(),
    {
        let ghost buf0 = self.buffer@;
        let ghost rest0 = self.rest();
        let mut v = vstd::slice::slice_to_vec(data);
        self.buffer.append(&mut v);
        proof {
            assert(self.buffer@ == buf0 + data@);
            assert(self.rest() =~= rest0 + data@);
            lemma_lex_append(buf0, data@);
            lemma_lex_append(rest0, data@);
            assert(lex_bytes(rest0).1 == lex_bytes(buf0).1);
            assert(lex_bytes(self.buffer@).0 =~= self.scanned@ + lex_bytes(self.rest()).0);
        }
    }

    /// Drains the machine's ready events into the queue.
    fn drain_parser(&mut self)
        requires
            old(self).parser.inv(),
        ensures
            final(self).parser.inv(),
            final(self).parser.opts() == old(self).parser.opts(),
            final(self).parser.buffered().len() == 0,
            final(self).parser.pending_evs().len() == 0,
            final(self).parser.consumed() + final(self).parser.buffered() == old(
                self,
            ).parser.consumed() + old(self).parser.buffered(),
            final(self).parser.emitted().len() >= old(self).parser.emitted().len(),
            final(self).parser.emitted().take(old(self).parser.emitted().len() as int) == old(
                self,
            ).parser.emitted(),
            final(self).queued() == old(self).queued() + project_events(
                final(self).parser.emitted().skip(old(self).parser.emitted().len() as int),
            ),
            final(self).buffer == old(self).buffer,
            final(self).position == old(self).position,
            final(self).scanned == old(self).scanned,
            final(self).delivered == old(self).delivered,
    {
        let ghost em0 = self.parser.emitted();
        let mut done = false;
        while !done
            invariant
                self.parser.inv(),
                self.parser.opts() == old(self).parser.opts(),
                self.parser.consumed() + self.parser.buffered() == old(self).parser.consumed()
                    + old(self).parser.buffered(),
                em0 == old(self).parser.emitted(),
                self.parser.emitted().len() >= em0.len(),
                self.parser.emitted().take(em0.len() as int) == em0,
                self.queued() == old(self).queued() + project_events(
                    self.parser.emitted().skip(em0.len() as int),
                ),
                done ==> self.parser.buffered().len() == 0 && self.parser.pending_evs().len()
                    == 0,
                self.buffer == old(self).buffer,
                self.position == old(self).position,
                self.scanned == old(self).scanned,
                self.delivered == old(self).delivered,
            decreases 2 * self.parser.buffered().len() + self.parser.pending_evs().len() + (
            if done {
                0int
            } else {
                1int
            }),
        {
            let ghost pdelta = self.parser.emitted().skip(em0.len() as int);
            let r = self.parser.next_event();
            match r {
                Some(ev) => {
                    let ghost delta0 = self.parser.emitted().skip(em0.len() as int);
                    proof {
                        assert(delta0 =~= pdelta.push(ev@));
                        lemma_project_snoc(pdelta, ev@);
                        assert(self.parser.emitted().take(em0.len() as int) =~= em0);
                    }
                    push_event_items(&mut self.queue, ev);
                    proof {
                        assert(self.queued() =~= old(self).queued() + project_events(delta0));
                    }
                },
                None => {
                    done = true;
                },
            }
        }
    }

    /// Pulls the next item.  `None` means that nothing more is determined by
    /// the bytes fed so far: push more data, or call
    /// [`ToolCallStream::finish`].
    pub fn next_event(&mut self) -> (r: Option<Result<ToolCallEvent, XmlError>>)
        requires
            old(self).inv(),
        ensures
            final(self).inv(),
            final(self).fed() == old(self).fed(),
            match r {
                Some(it) => {
                    &&& final(self).delivered() == old(self).delivered().push(item_m(it))
                    &&& (final(self).rest().len() < old(self).rest().len()
                        || (final(self).rest().len() == old(self).rest().len()
                        && final(self).queued_n() < old(self).queued_n()))
                },
                None => {
                    &&& final(self).delivered() == old(self).delivered()
                    &&& final(self).queued_n() == 0
                    &&& final(self).rest().len() <= old(self).rest().len()
                    &&& (final(self).rest().len() == 0 || incomplete_prefix(final(self).rest()))
                },
            },
    {
        loop
            invariant
                self.inv(),
                self.buffer@ == old(self).fed(),
                self.delivered@ == old(self).delivered(),
                self.rest().len() < old(self).rest().len() || (self.rest().len() == old(
                    self,
                ).rest().len() && self.queued_n() <= old(self).queued_n()),
            decreases self.buffer@.len() - self.position,
        {
            let blen = self.buffer.len();
            proof {
                assert(self.buffer@.len() == blen);
            }
            if self.queue.len() > 0 {
                let ghost q0 = self.queued();
                let ghost d0 = self.delivered@;
                let it = self.queue.remove(0);
                proof {
                    assert(self.queued() =~= q0.drop_first());
                    assert(q0[0] == item_m(it));
                    self.delivered@ = self.delivered@.push(item_m(it));
                    assert(self.delivered@ + self.queued() =~= d0 + q0);
                }
                return Some(it);
            }
            let (outcome, adv) = decode_first(&self.buffer, self.position);
            match outcome {
                DecodeOutcome::NeedMore => {
                    return None;
                },
                DecodeOutcome::Invalid => {
                    let ghost rest0 = self.rest();
                    let ghost sc0 = self.scanned@;
                    let ghost q0 = self.queued();
                    self.position = self.position + 1;
                    let bad = Err(XmlError::Other(String::from_str("invalid character encoding")));
                    let ghost badv = item_m(bad);
                    self.queue.push(bad);
                    proof {
                        self.scanned@ = self.scanned@.push(ScanItem::Bad);
                        assert(rest0.drop_first() =~= self.rest());
                        assert(lex_bytes(rest0).0 == seq![ScanItem::Bad] + lex_bytes(
                            self.rest(),
                        ).0);
                        assert(sc0 + (seq![ScanItem::Bad] + lex_bytes(self.rest()).0)
                            =~= self.scanned@ + lex_bytes(self.rest()).0);
                        lemma_chars_of_snoc(sc0, ScanItem::Bad);
                        assert(chars_of(self.scanned@) =~= chars_of(sc0));
                        lemma_items_out_snoc(init_state(), sc0, ScanItem::Bad);
                        let smid = items_out(init_state(), sc0).0;
                        assert(badv == StreamItemM::Fail(XmlErrorM::Other(bad_unit_msg())));
                        assert(items_out(smid, seq![ScanItem::Bad]).1 =~= seq![badv]) by {
                            assert(seq![ScanItem::Bad].drop_first() =~= Seq::<ScanItem>::empty());
                            assert(items_out(smid, Seq::<ScanItem>::empty()).1
                                == Seq::<StreamItemM>::empty());
                            assert(seq![badv] + Seq::<StreamItemM>::empty() =~= seq![badv]);
                        }
                        assert(self.queued() =~= q0.push(badv));
                        assert(items_out(init_state(), self.scanned@).1 =~= items_out(
                            init_state(),
                            sc0,
                        ).1 + seq![badv]);
                        assert(items_out(init_state(), self.scanned@).1 =~= self.delivered@
                            + self.queued());
                    }
                },
                DecodeOutcome::Got(c) => {
                    let ghost rest0 = self.rest();
                    let ghost sc0 = self.scanned@;
                    let ghost cons0 = self.parser.consumed();
                    self.position = self.position + adv;
                    proof {
                        assert(pop_first_scalar(rest0) =~= self.rest());
                        assert(lex_bytes(rest0).0 == seq![ScanItem::Ch(c)] + lex_bytes(
                            self.rest(),
                        ).0);
                        self.parser.lemma_parser_run();
                    }
                    self.parser.push_char(c);
                    self.drain_parser();
                    proof {
                        self.scanned@ = self.scanned@.push(ScanItem::Ch(c));
                        assert(sc0 + (seq![ScanItem::Ch(c)] + lex_bytes(self.rest()).0)
                            =~= self.scanned@ + lex_bytes(self.rest()).0);
                        lemma_chars_of_snoc(sc0, ScanItem::Ch(c));
                        assert(self.parser.consumed() =~= cons0 + seq![c]);
                        assert(chars_of(self.scanned@) =~= self.parser.consumed());
                        // The drained events are exactly one step of the machine.
                        self.parser.lemma_parser_run();
                        assert(cons0.push(c) =~= cons0 + seq![c]);
                        crate::model::lemma_run_snoc(default_options(), init_state(), cons0, c);
                        let m0 = run(default_options(), init_state(), cons0).0;
                        let delta = self.parser.emitted().skip(
                            run(default_options(), init_state(), cons0).1.len() as int,
                        );
                        assert(run(default_options(), init_state(), cons0).1 + step(
                            default_options(),
                            m0,
                            c,
                        ).1 =~= self.parser.emitted());
                        assert(delta =~= step(default_options(), m0, c).1);
                        lemma_items_out_snoc(init_state(), sc0, ScanItem::Ch(c));
                        lemma_items_out_state(init_state(), sc0);
                        assert(items_out(init_state(), sc0).0 == m0);
                        assert(items_out(m0, seq![ScanItem::Ch(c)]).1 =~= project_events(
                            step(default_options(), m0, c).1,
                        )) by {
                            assert(seq![ScanItem::Ch(c)].drop_first()
                                =~= Seq::<ScanItem>::empty());
                            assert(items_out(
                                step(default_options(), m0, c).0,
                                Seq::<ScanItem>::empty(),
                            ).1 == Seq::<StreamItemM>::empty());
                            assert(project_events(step(default_options(), m0, c).1)
                                + Seq::<StreamItemM>::empty() =~= project_events(
                                step(default_options(), m0, c).1,
                            ));
                        }
                        assert(items_out(init_state(), self.scanned@).1 =~= items_out(
                            init_state(),
                            sc0,
                        ).1 + project_events(step(default_options(), m0, c).1));
                        assert(items_out(init_state(), self.scanned@).1 =~= self.delivered@
                            + self.queued());
                    }
                },
            }
        }
    }

    /// Declares end of input and returns every remaining item: what the
    /// buffered bytes still determine, a failure if a partial character is
    /// still open, then the end-of-input synthesis of the machine.
    pub fn finish(self) -> (items: Vec<Result<ToolCallEvent, XmlError>>)
        requires
            self.inv(),
        ensures
            self.delivered() + items_m(items@) == stream_items(self.fed()),
    {
        let mut me = self;
        let ghost del0 = me.delivered@;
        let mut out: Vec<Result<ToolCallEvent, XmlError>> = Vec::new();
        let mut done = false;
        proof {
            assert(del0 + items_m(out@) =~= me.delivered@);
        }
        while !done
            invariant
                me.inv(),
                me.buffer@ == self.fed(),
                me.delivered@ == del0 + items_m(out@),
                del0 == self.delivered(),
                done ==> me.queued_n() == 0 && (me.rest().len() == 0 || incomplete_prefix(
                    me.rest(),
                )),
            decreases me.rest().len(), me.queued_n(), (if done {
                0int
            } else {
                1int
            }),
        {
            let r = me.next_event();
            match r {
                Some(it) => {
                    let ghost o0 = out@;
                    out.push(it);
                    proof {
                        assert(items_m(out@) =~= items_m(o0).push(item_m(it)));
                        assert(del0 + items_m(out@) =~= (del0 + items_m(o0)).push(item_m(it)));
                    }
                },
                None => {
                    done = true;
                },
            }
        }
        // A partial character still open at end of input is an error.
        let ghost lexed = lex_bytes(me.buffer@);
        proof {
            if me.rest().len() == 0 {
                assert(lex_bytes(me.rest()) == (Seq::<ScanItem>::empty(), Seq::<u8>::empty()));
            }
            assert(lexed.0 =~= me.scanned@);
            assert(lexed.1 == lex_bytes(me.rest()).1);
        }
        if me.position < me.buffer.len() {
            out.push(Err(XmlError::Other(String::from_str(
                "invalid character encoding at end of input",
            ))));
            proof {
                assert(incomplete_prefix(me.rest()));
                assert(lex_bytes(me.rest()).1 == me.rest());
            }
        } else {
            proof {
                assert(me.rest().len() == 0);
                assert(lex_bytes(me.rest()).1.len() == 0);
            }
        }
        // The machine's end-of-input synthesis.
        let ghost mid = items_m(out@);
        let ToolCallStream { parser, scanned, .. } = me;
        proof {
            parser.lemma_parser_run();
            lemma_items_out_state(init_state(), scanned@);
        }
        let ghost consumed0 = parser.consumed();
        let ghost emitted0 = parser.emitted();
        let mut evs = parser.finish();
        let ghost total = views_of(evs@);
        proof {
            // The machine's remaining events are exactly the end-of-input
            // synthesis for its final state.
            assert(consumed0 + Seq::<char>::empty() =~= consumed0);
            let full = crate::model::full_events(default_options(), consumed0);
            assert(emitted0 + total == full);
            assert(total =~= full.skip(emitted0.len() as int));
            assert(total =~= finish_events(run(default_options(), init_state(), consumed0).0));
            assert(items_m(out@) =~= mid + project_events(total.take(0))) by {
                assert(project_events(total.take(0)) =~= Seq::<StreamItemM>::empty());
                assert(mid + Seq::<StreamItemM>::empty() =~= mid);
            }
        }
        while evs.len() > 0
            invariant
                views_of(evs@) =~= total.skip(total.len() - evs@.len()),
                evs@.len() <= total.len(),
                items_m(out@) == mid + project_events(total.take(total.len() - evs@.len())),
            decreases evs@.len(),
        {
            let ghost k = total.len() - evs@.len();
            let ghost vs0 = views_of(evs@);
            let ev = evs.remove(0);
            proof {
                assert(vs0[0] == ev@);
                assert(ev@ == total[k]);
                assert(views_of(evs@) =~= vs0.drop_first());
                assert(views_of(evs@) =~= total.skip(k + 1));
            }
            push_event_items(&mut out, ev);
            proof {
                lemma_project_snoc(total.take(k), ev@);
                assert(total.take(k).push(ev@) =~= total.take(k + 1));
                assert(items_m(out@) =~= mid + project_events(total.take(k + 1)));
            }
        }
        proof {
            assert(total.take(total.len() - evs@.len()) =~= total);
            assert(items_m(out@) =~= mid + project_events(total));
        }
        out
    }
}

/// Projection extended by one more event.
proof fn lemma_project_snoc(evs: Seq<EventM>, e: EventM)
    ensures
        project_events(evs.push(e)) == project_events(evs) + project_event(e),
    decreases evs.len(),
{
    if evs.len() == 0 {
        assert(evs.push(e).drop_first() =~= Seq::<EventM>::empty());
        assert(evs.push(e)[0] == e);
        assert(project_events(Seq::<EventM>::empty()) == Seq::<StreamItemM>::empty());
        assert(project_event(e) + Seq::<StreamItemM>::empty() =~= project_event(e));
        assert(project_events(evs) + project_event(e) =~= project_event(e));
    } else {
        assert(evs.push(e)[0] == evs[0]);
        assert(evs.push(e).drop_first() =~= evs.drop_first().push(e));
        lemma_project_snoc(evs.drop_first(), e);
        assert(project_events(evs.push(e)) =~= project_events(evs) + project_event(e));
    }
}

} // verus!
