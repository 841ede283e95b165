//! The specification-level streaming machine.
//!
//! A four-state automaton consumes one character at a time and emits events.
//! [`step`] gives the successor state and the events of one character,
//! [`run`] folds it over a character sequence, and [`finish_events`] gives
//! the events synthesized at end of input.  [`full_events`] is the complete
//! event sequence of an input: every executable entry point of the crate is
//! specified against it.

use vstd::prelude::*;
use crate::args::{distinct_names, upsert};
use crate::events::{ErrorKindM, EventM};
use crate::text::{decode_entities, tool_id_chars, trim};

verus! {

/// The parser's mode.
#[derive(Debug, Clone, Copy, PartialEq, Eq, Structural)]
pub enum Mode {
    /// Outside any tool element: prose passes through.
    Normal,
    /// Between `<` and `>`: a tag name accumulates.
    InTag,
    /// Inside a tool element, between child elements.
    InToolTag,
    /// Inside a parameter element: the value accumulates.
    InParameterTag,
}

/// The configuration of one parser instance.
#[derive(Debug, Clone, PartialEq, Eq)]
pub struct ParserOptions {
    /// Cap on a tag name's length; a breach reports `InvalidStructure`.
    pub max_tool_name_length: usize,
    /// Cap on a parameter value's length; a breach reports `ValueTooLarge`.
    pub max_parameter_value_length: Option<usize>,
    /// Whether the five predefined entity references are decoded in values.
    pub entity_decoding: bool,
}

/// The default configuration: names capped at 256 characters, values
/// unbounded, entity decoding on.
pub open spec fn default_options() -> ParserOptions {
    ParserOptions {
        max_tool_name_length: 256,
        max_parameter_value_length: None,
        entity_decoding: true,
    }
}

impl Default for ParserOptions {
    fn default() -> (r: ParserOptions)
        ensures
            r == default_options(),
    {
        ParserOptions {
            max_tool_name_length: 256,
            max_parameter_value_length: None,
            entity_decoding: true,
        }
    }
}

/// The abstract state of the machine.
pub ghost struct MState {
    /// The current mode.
    pub mode: Mode,
    /// The tag-name accumulator, meaningful in `InTag`.
    pub tag: Seq<char>,
    /// The parameter-value accumulator.
    pub value: Seq<char>,
    /// The name of the open tool element, if one is open.
    pub tool: Option<Seq<char>>,
    /// The name of the open parameter element, if one is open.
    pub param: Option<Seq<char>>,
    /// The number of the open tool's identifier.
    pub tool_id: nat,
    /// The parameters collected so far for the open tool.
    pub params: Seq<(Seq<char>, Seq<char>)>,
    /// How many tool identifiers have been minted.
    pub counter: nat,
}

/// The state of a freshly created parser.
pub open spec fn init_state() -> MState {
    MState {
        mode: Mode::Normal,
        tag: Seq::empty(),
        value: Seq::empty(),
        tool: None,
        param: None,
        tool_id: 0,
        params: Seq::empty(),
        counter: 0,
    }
}

/// The identifier string of the open tool.
pub open spec fn cur_id(s: MState) -> Seq<char> {
    tool_id_chars(s.tool_id)
}

/// A parameter value as it is stored when its closing tag is seen: trimmed,
/// then entity-decoded if decoding is on.
pub open spec fn close_value(opts: ParserOptions, v: Seq<char>) -> Seq<char> {
    if opts.entity_decoding {
        decode_entities(trim(v))
    } else {
        trim(v)
    }
}

/// The state after the open tool is dropped and the machine returns to prose.
pub open spec fn drop_tool(s: MState) -> MState {
    MState {
        mode: Mode::Normal,
        tag: Seq::empty(),
        value: Seq::empty(),
        tool: None,
        param: None,
        params: Seq::empty(),
        ..s
    }
}

/// The events of closing the open tool: its parameter mapping, if any was
/// collected, then its end.
pub open spec fn close_events(s: MState) -> Seq<EventM> {
    if s.params.len() > 0 {
        seq![
            EventM::Parameter { id: cur_id(s), arguments: s.params },
            EventM::ToolEnd { id: cur_id(s) },
        ]
    } else {
        seq![EventM::ToolEnd { id: cur_id(s) }]
    }
}

/// The events of discarding the open tool after an error of kind `k`: the
/// error itself, then the end of the tool if one was open.
pub open spec fn error_events(s: MState, k: ErrorKindM) -> Seq<EventM> {
    if s.tool is Some {
        seq![EventM::Error(k), EventM::ToolEnd { id: cur_id(s) }]
    } else {
        seq![EventM::Error(k)]
    }
}

/// The name a closing tag was expected to carry: the open parameter's, or
/// else the open tool's.
pub open spec fn expected_close(s: MState) -> Seq<char>
    recommends
        s.tool is Some,
{
    if s.param is Some {
        s.param->0
    } else {
        s.tool->0
    }
}

/// What happens when `>` ends a tag whose accumulated name is `s.tag`.
pub open spec fn end_of_tag(opts: ParserOptions, s: MState) -> (MState, Seq<EventM>) {
    let t = s.tag;
    if t.len() > 0 && t[0] == '/' {
        let n = t.drop_first();
        if s.tool is None {
            // A stray closing tag outside any tool is discarded.
            (MState { mode: Mode::Normal, tag: Seq::empty(), ..s }, seq![])
        } else if n == s.tool->0 {
            (drop_tool(s), close_events(s))
        } else if s.param is Some && n == s.param->0 {
            (
                MState {
                    mode: Mode::InToolTag,
                    tag: Seq::empty(),
                    value: Seq::empty(),
                    param: None,
                    params: upsert(s.params, n, close_value(opts, s.value)),
                    ..s
                },
                seq![],
            )
        } else {
            (
                drop_tool(s),
                error_events(
                    s,
                    ErrorKindM::MismatchedEndTag { expected: expected_close(s), found: n },
                ),
            )
        }
    } else {
        if s.tool is None {
            let k = s.counter + 1;
            (
                MState {
                    mode: Mode::InToolTag,
                    tag: Seq::empty(),
                    value: Seq::empty(),
                    tool: Some(t),
                    param: None,
                    tool_id: k,
                    params: Seq::empty(),
                    counter: k,
                },
                seq![EventM::ToolStart { id: tool_id_chars(k), name: t }],
            )
        } else {
            (
                MState { mode: Mode::InParameterTag, tag: Seq::empty(), value: Seq::empty(), param: Some(t), ..s },
                seq![],
            )
        }
    }
}

/// Whether appending to the value accumulator would pass its cap.
pub open spec fn value_cap_hit(opts: ParserOptions, s: MState) -> bool {
    opts.max_parameter_value_length matches Some(m) && s.value.len() >= m
}

/// The successor state and emitted events for one character.
pub open spec fn step(opts: ParserOptions, s: MState, c: char) -> (MState, Seq<EventM>) {
    match s.mode {
        Mode::Normal => {
            if c == '<' {
                (MState { mode: Mode::InTag, tag: Seq::empty(), ..s }, seq![])
            } else {
                (s, seq![EventM::Text(seq![c])])
            }
        },
        Mode::InTag => {
            if c == '>' {
                end_of_tag(opts, s)
            } else if s.tag.len() >= opts.max_tool_name_length {
                (drop_tool(s), error_events(s, ErrorKindM::InvalidStructure))
            } else {
                (MState { tag: s.tag.push(c), ..s }, seq![])
            }
        },
        Mode::InToolTag => {
            if c == '<' {
                (MState { mode: Mode::InTag, tag: Seq::empty(), ..s }, seq![])
            } else {
                // Text directly inside the tool element is discarded.
                (s, seq![])
            }
        },
        Mode::InParameterTag => {
            if c == '<' {
                (MState { mode: Mode::InTag, tag: Seq::empty(), ..s }, seq![])
            } else if value_cap_hit(opts, s) {
                (drop_tool(s), error_events(s, ErrorKindM::ValueTooLarge))
            } else {
                (MState { value: s.value.push(c), ..s }, seq![])
            }
        },
    }
}

/// [`step`] folded over a character sequence.
pub open spec fn run(opts: ParserOptions, s: MState, cs: Seq<char>) -> (MState, Seq<EventM>)
    decreases cs.len(),
{
    if cs.len() == 0 {
        (s, seq![])
    } else {
        let head = step(opts, s, cs[0]);
        let rest = run(opts, head.0, cs.drop_first());
        (rest.0, head.1 + rest.1)
    }
}

/// The events synthesized when input ends in state `s`: if a tool is open,
/// its parameter mapping (if any), an error if input ended inside a value,
/// and the tool's end, so that every start is balanced by an end.
pub open spec fn finish_events(s: MState) -> Seq<EventM> {
    if s.tool is Some {
        let par = if s.params.len() > 0 {
            seq![EventM::Parameter { id: cur_id(s), arguments: s.params }]
        } else {
            Seq::empty()
        };
        let eof = if s.mode is InParameterTag {
            seq![EventM::Error(ErrorKindM::UnexpectedEof)]
        } else {
            Seq::empty()
        };
        par + eof + seq![EventM::ToolEnd { id: cur_id(s) }]
    } else {
        Seq::empty()
    }
}

/// The complete event sequence of an input, end-of-input synthesis included.
pub open spec fn full_events(opts: ParserOptions, cs: Seq<char>) -> Seq<EventM> {
    let r = run(opts, init_state(), cs);
    r.1 + finish_events(r.0)
}

/// The machine's structural invariant.
pub open spec fn wf_state(s: MState) -> bool {
    &&& (s.mode is Normal ==> s.tool is None)
    &&& (s.mode is InToolTag ==> s.tool is Some && s.param is None)
    &&& (s.mode is InParameterTag ==> s.tool is Some && s.param is Some)
    &&& (s.tool is None ==> s.param is None && s.params.len() == 0 && s.value.len() == 0)
    &&& (s.param is None ==> s.value.len() == 0)
    &&& (s.tool is Some ==> s.tool_id == s.counter && s.counter >= 1)
    &&& distinct_names(s.params)
}

/// One step preserves the invariant; the identifier counter grows by at most
/// one and only when a start event is emitted.
pub proof fn lemma_step_wf(opts: ParserOptions, s: MState, c: char)
    requires
        wf_state(s),
    ensures
        wf_state(step(opts, s, c).0),
        s.counter <= step(opts, s, c).0.counter <= s.counter + 1,
    decreases 0int,
{
    let (s2, evs) = step(opts, s, c);
    if s.mode is InTag && c == '>' {
        let t = s.tag;
        if t.len() > 0 && t[0] == '/' {
            let n = t.drop_first();
            if s.tool is Some && n != s.tool->0 && s.param is Some && n == s.param->0 {
                crate::args::lemma_upsert_distinct(s.params, n, close_value(opts, s.value));
            }
        }
    }
}

/// A run preserves the invariant, and the counter grows by at most the
/// number of characters consumed.
pub proof fn lemma_run_wf(opts: ParserOptions, s: MState, cs: Seq<char>)
    requires
        wf_state(s),
    ensures
        wf_state(run(opts, s, cs).0),
        s.counter <= run(opts, s, cs).0.counter <= s.counter + cs.len(),
    decreases cs.len(),
{
    if cs.len() > 0 {
        lemma_step_wf(opts, s, cs[0]);
        lemma_run_wf(opts, step(opts, s, cs[0]).0, cs.drop_first());
    }
}

/// Runs compose: consuming `a + b` is consuming `a`, then `b`, with the
/// event sequences concatenated.  Event streams are therefore invariant
/// under re-chunking of one input.
pub proof fn lemma_run_append(opts: ParserOptions, s: MState, a: Seq<char>, b: Seq<char>)
    ensures
        run(opts, s, a + b).0 == run(opts, run(opts, s, a).0, b).0,
        run(opts, s, a + b).1 == run(opts, s, a).1 + run(opts, run(opts, s, a).0, b).1,
    decreases a.len(),
{
    if a.len() == 0 {
        assert(a + b =~= b);
        assert(run(opts, s, a).1 + run(opts, run(opts, s, a).0, b).1 =~= run(opts, s, b).1);
    } else {
        let head = step(opts, s, (a + b)[0]);
        assert((a + b)[0] == a[0]);
        assert((a + b).drop_first() =~= a.drop_first() + b);
        lemma_run_append(opts, head.0, a.drop_first(), b);
        assert(run(opts, s, a + b).1 =~= run(opts, s, a).1 + run(
            opts,
            run(opts, s, a).0,
            b,
        ).1);
    }
}

/// Consuming one more character extends a run by one step.
pub proof fn lemma_run_snoc(opts: ParserOptions, s: MState, cs: Seq<char>, c: char)
    ensures
        run(opts, s, cs.push(c)).0 == step(opts, run(opts, s, cs).0, c).0,
        run(opts, s, cs.push(c)).1 == run(opts, s, cs).1 + step(opts, run(opts, s, cs).0, c).1,
{
    assert(cs.push(c) =~= cs + seq![c]);
    lemma_run_append(opts, s, cs, seq![c]);
    let m = run(opts, s, cs).0;
    assert(run(opts, m, seq![c]).1 =~= step(opts, m, c).1 + run(
        opts,
        step(opts, m, c).0,
        seq![c].drop_first(),
    ).1);
    assert(seq![c].drop_first() =~= Seq::<char>::empty());
    assert(step(opts, m, c).1 + Seq::<EventM>::empty() =~= step(opts, m, c).1);
}

} // verus!
