//! The batch extractor: drives the streaming machine over a complete input
//! and collapses the event stream into a single tool-call record, surfacing
//! the first structural error.

use vstd::prelude::*;
use crate::args::{distinct_names, ToolArguments};
use crate::events::{ErrorKindM, EventM, ParseErrorKind, ToolCallEvent, views_of};
use crate::laws::{lemma_parameter_names_distinct, param_names_distinct};
use crate::machine::parse_events;
use crate::model::{default_options, full_events, run, step, MState, Mode};
use crate::text::chars_vec;

verus! {

/// Whether a character counts as a letter or a number.  Only the trusted
/// wrapper below says anything about this predicate.
pub uninterp spec fn is_alnum(c: char) -> bool;

/// Relies on `char::is_alphanumeric`: the answer depends on the character
/// alone, and every ASCII letter and digit counts as alphanumeric.
#[verifier::external_body]
fn char_is_alphanumeric(c: char) -> (r: bool)
    ensures
        r == is_alnum(c),
        ('0' <= c <= '9' || 'a' <= c <= 'z' || 'A' <= c <= 'Z') ==> r,
{
    c.is_alphanumeric()
}

/// A parsed tool call: the tool's name and its ordered parameter mapping.
#[derive(Debug, Clone, PartialEq, Eq)]
pub struct ToolCall {
    pub tool_name: String,
    pub parameters: ToolArguments,
}

/// Why the batch extractor failed.
#[derive(Debug, Clone, PartialEq, Eq)]
pub enum ToolParseError {
    /// A closing tag matched neither the open parameter nor the open tool.
    MismatchedEndTag { expected: String, found: String },
    /// Input ended inside a parameter value.
    UnexpectedEof,
    /// A tag name grew past the configured cap.
    InvalidStructure,
    /// A parameter value grew past the configured cap.
    ValueTooLarge,
    /// The input holds no tool element.
    NoToolXmlFound,
}

/// The collapsing fold's accumulator.
pub ghost enum BatchAcc {
    /// Still looking for the first tool start.
    Scanning,
    /// Inside the first tool span.
    Open { name: Seq<char> },
    /// The consolidated parameter mapping of the first span has arrived.
    HaveParams { name: Seq<char>, args: Seq<(Seq<char>, Seq<char>)> },
    /// The outcome is settled; later events change nothing.
    Settled(BatchOutcome),
}

/// What the batch extractor distils from an event stream.
pub ghost enum BatchOutcome {
    /// The first tool span, complete.
    Record { name: Seq<char>, args: Seq<(Seq<char>, Seq<char>)> },
    /// The first error event.
    Fail(ErrorKindM),
    /// The stream ended without a tool start.
    NoTool,
}

/// One event's effect on the accumulator.
pub open spec fn acc_step(a: BatchAcc, e: EventM) -> BatchAcc {
    match a {
        BatchAcc::Scanning => match e {
            EventM::ToolStart { id, name } => BatchAcc::Open { name },
            EventM::Error(k) => BatchAcc::Settled(BatchOutcome::Fail(k)),
            _ => BatchAcc::Scanning,
        },
        BatchAcc::Open { name } => match e {
            EventM::Parameter { id, arguments } => BatchAcc::HaveParams { name, args: arguments },
            EventM::ToolEnd { id } => BatchAcc::Settled(
                BatchOutcome::Record { name, args: Seq::empty() },
            ),
            EventM::Error(k) => BatchAcc::Settled(BatchOutcome::Fail(k)),
            _ => BatchAcc::Open { name },
        },
        BatchAcc::HaveParams { name, args } => match e {
            EventM::ToolEnd { id } => BatchAcc::Settled(BatchOutcome::Record { name, args }),
            EventM::Error(k) => BatchAcc::Settled(BatchOutcome::Fail(k)),
            _ => BatchAcc::HaveParams { name, args },
        },
        BatchAcc::Settled(o) => BatchAcc::Settled(o),
    }
}

/// [`acc_step`] folded over an event sequence.
pub open spec fn acc_fold(a: BatchAcc, evs: Seq<EventM>) -> BatchAcc
    decreases evs.len(),
{
    if evs.len() == 0 {
        a
    } else {
        acc_fold(acc_step(a, evs[0]), evs.drop_first())
    }
}

/// The outcome once the stream has ended.
pub open spec fn acc_close(a: BatchAcc) -> BatchOutcome {
    match a {
        BatchAcc::Settled(o) => o,
        BatchAcc::Scanning => BatchOutcome::NoTool,
        BatchAcc::Open { name } => BatchOutcome::Record { name, args: Seq::empty() },
        BatchAcc::HaveParams { name, args } => BatchOutcome::Record { name, args },
    }
}

/// What the batch extractor distils from an input, before the check on the
/// tool name's first character.
pub open spec fn batch_outcome(cs: Seq<char>) -> BatchOutcome {
    acc_close(acc_fold(BatchAcc::Scanning, full_events(default_options(), cs)))
}

/// A settled accumulator absorbs everything after it.
proof fn lemma_fold_settled(o: BatchOutcome, evs: Seq<EventM>)
    ensures
        acc_fold(BatchAcc::Settled(o), evs) == BatchAcc::Settled(o),
    decreases evs.len(),
{
    if evs.len() > 0 {
        lemma_fold_settled(o, evs.drop_first());
    }
}

/// The executable mirror of [`BatchAcc`], without the settled case: the
/// extractor returns as soon as the outcome settles.
enum BatchPhase {
    Scanning,
    Open { name: String },
    HaveParams { name: String, arguments: ToolArguments },
}

impl BatchPhase {
    /// The accumulator this phase stands for.
    spec fn model(&self) -> BatchAcc {
        match self {
            BatchPhase::Scanning => BatchAcc::Scanning,
            BatchPhase::Open { name } => BatchAcc::Open { name: name@ },
            BatchPhase::HaveParams { name, arguments } => BatchAcc::HaveParams {
                name: name@,
                args: arguments@,
            },
        }
    }
}

/// Turns a complete first span into the batch result: the tool name must be
/// non-empty and begin with an alphanumeric character, else the input counts
/// as holding no tool.
fn settle_record(name: String, arguments: ToolArguments) -> (r: Result<ToolCall, ToolParseError>)
    requires
        arguments.wf(),
    ensures
        match r {
            Ok(tc) => tc.tool_name@ == name@ && tc.parameters@ == arguments@ && tc.parameters.wf()
                && name@.len() > 0 && is_alnum(name@[0]),
            Err(e) => e == ToolParseError::NoToolXmlFound && (name@.len() == 0 || !is_alnum(
                name@[0],
            )),
        },
{
    let nv = chars_vec(name.as_str());
    if nv.len() == 0 {
        return Err(ToolParseError::NoToolXmlFound);
    }
    if !char_is_alphanumeric(nv[0]) {
        return Err(ToolParseError::NoToolXmlFound);
    }
    Ok(ToolCall { tool_name: name, parameters: arguments })
}

/// Maps an in-band error event to the batch failure it surfaces.
fn settle_error(kind: ParseErrorKind) -> (r: Result<ToolCall, ToolParseError>)
    ensures
        match r {
            Ok(_) => false,
            Err(e) => match e {
                ToolParseError::MismatchedEndTag { expected, found } => kind@
                    == ErrorKindM::MismatchedEndTag { expected: expected@, found: found@ },
                ToolParseError::UnexpectedEof => kind@ is UnexpectedEof,
                ToolParseError::InvalidStructure => kind@ is InvalidStructure || kind@
                    is InvalidEncoding,
                ToolParseError::ValueTooLarge => kind@ is ValueTooLarge,
                ToolParseError::NoToolXmlFound => false,
            },
        },
{
    match kind {
        ParseErrorKind::MismatchedEndTag { expected, found } => Err(
            ToolParseError::MismatchedEndTag { expected, found },
        ),
        ParseErrorKind::UnexpectedEof => Err(ToolParseError::UnexpectedEof),
        ParseErrorKind::InvalidStructure => Err(ToolParseError::InvalidStructure),
        ParseErrorKind::ValueTooLarge => Err(ToolParseError::ValueTooLarge),
        ParseErrorKind::InvalidEncoding => Err(ToolParseError::InvalidStructure),
    }
}

/// Extracts the first tool call embedded in `text`.
///
/// The outcome is exactly what the collapsing fold distils from the
/// streaming machine's events: the first complete span as a record, or the
/// first in-band error as a failure, or `NoToolXmlFound` when no tool start
/// ever appears or the first tool's name does not begin with an
/// alphanumeric character.
pub fn parse_tool_call(text: &str) -> (r: Result<ToolCall, ToolParseError>)
    ensures
        match r {
            Ok(tc) => batch_outcome(text@) == (BatchOutcome::Record {
                name: tc.tool_name@,
                args: tc.parameters@,
            }) && tc.tool_name@.len() > 0 && is_alnum(tc.tool_name@[0]) && tc.parameters.wf(),
            Err(e) => match e {
                ToolParseError::NoToolXmlFound => batch_outcome(text@) is NoTool || (batch_outcome(
                    text@,
                ) matches BatchOutcome::Record { name, args } && (name.len() == 0 || !is_alnum(
                    name[0],
                ))),
                ToolParseError::MismatchedEndTag { expected, found } => batch_outcome(text@)
                    == BatchOutcome::Fail(
                    ErrorKindM::MismatchedEndTag { expected: expected@, found: found@ },
                ),
                ToolParseError::UnexpectedEof => batch_outcome(text@) == BatchOutcome::Fail(
                    ErrorKindM::UnexpectedEof,
                ),
                ToolParseError::InvalidStructure => batch_outcome(text@) == BatchOutcome::Fail(
                    ErrorKindM::InvalidStructure,
                ) || batch_outcome(text@) == BatchOutcome::Fail(ErrorKindM::InvalidEncoding),
                ToolParseError::ValueTooLarge => batch_outcome(text@) == BatchOutcome::Fail(
                    ErrorKindM::ValueTooLarge,
                ),
            },
        },
{
    let mut evs = parse_events(text);
    let ghost all = views_of(evs@);
    proof {
        lemma_parameter_names_distinct(default_options(), text@);
    }
    let mut phase = BatchPhase::Scanning;
    while !evs.is_empty()
        invariant
            views_of(evs@).len() == evs@.len(),
            all == full_events(default_options(), text@),
            acc_fold(BatchAcc::Scanning, all) == acc_fold(phase.model(), views_of(evs@)),
            param_names_distinct(views_of(evs@)),
            phase matches BatchPhase::HaveParams { name, arguments } ==> arguments.wf(),
        decreases evs@.len(),
    {
        let ghost vs = views_of(evs@);
        let e = evs.remove(0);
        proof {
            assert(vs[0] == e@);
            assert(vs.drop_first() =~= views_of(evs@));
            assert(acc_fold(phase.model(), vs) == acc_fold(
                acc_step(phase.model(), e@),
                views_of(evs@),
            ));
            assert forall|i: int|
                0 <= i < views_of(evs@).len() implies match #[trigger] views_of(evs@)[i] {
                EventM::Parameter { id, arguments } => distinct_names(arguments),
                _ => true,
            } by {
                assert(views_of(evs@)[i] == vs[i + 1]);
            }
        }
        let next: BatchPhase;
        match phase {
            BatchPhase::Scanning => match e {
                ToolCallEvent::ToolStart { id, name } => {
                    next = BatchPhase::Open { name };
                },
                ToolCallEvent::Error(kind) => {
                    proof {
                        lemma_fold_settled(BatchOutcome::Fail(kind@), views_of(evs@));
                    }
                    return settle_error(kind);
                },
                _ => {
                    next = BatchPhase::Scanning;
                },
            },
            BatchPhase::Open { name } => match e {
                ToolCallEvent::Parameter { id, arguments } => {
                    proof {
                        assert(vs[0] matches EventM::Parameter { id: _, arguments: a1 }
                            && distinct_names(a1));
                    }
                    next = BatchPhase::HaveParams { name, arguments };
                },
                ToolCallEvent::ToolEnd { id } => {
                    proof {
                        lemma_fold_settled(
                            BatchOutcome::Record { name: name@, args: Seq::empty() },
                            views_of(evs@),
                        );
                    }
                    return settle_record(name, ToolArguments::new());
                },
                ToolCallEvent::Error(kind) => {
                    proof {
                        lemma_fold_settled(BatchOutcome::Fail(kind@), views_of(evs@));
                    }
                    return settle_error(kind);
                },
                _ => {
                    next = BatchPhase::Open { name };
                },
            },
            BatchPhase::HaveParams { name, arguments } => match e {
                ToolCallEvent::ToolEnd { id } => {
                    proof {
                        lemma_fold_settled(
                            BatchOutcome::Record { name: name@, args: arguments@ },
                            views_of(evs@),
                        );
                    }
                    return settle_record(name, arguments);
                },
                ToolCallEvent::Error(kind) => {
                    proof {
                        lemma_fold_settled(BatchOutcome::Fail(kind@), views_of(evs@));
                    }
                    return settle_error(kind);
                },
                _ => {
                    next = BatchPhase::HaveParams { name, arguments };
                },
            },
        }
        phase = next;
    }
    proof {
        assert(views_of(evs@) =~= Seq::<EventM>::empty());
    }
    match phase {
        BatchPhase::Scanning => Err(ToolParseError::NoToolXmlFound),
        BatchPhase::Open { name } => settle_record(name, ToolArguments::new()),
        BatchPhase::HaveParams { name, arguments } => settle_record(name, arguments),
    }
}

/// The rendering of one parameter element.
pub open spec fn render_one(p: (Seq<char>, Seq<char>)) -> Seq<char> {
    seq!['<'] + p.0 + seq!['>'] + p.1 + seq!['<', '/'] + p.0 + seq!['>']
}

/// The rendering of a parameter list, in order.
pub open spec fn render_params(pairs: Seq<(Seq<char>, Seq<char>)>) -> Seq<char>
    decreases pairs.len(),
{
    if pairs.len() == 0 {
        Seq::empty()
    } else {
        render_one(pairs[0]) + render_params(pairs.drop_first())
    }
}

/// The rendering of a whole record: `<name>`, its parameters, `</name>`.
pub open spec fn render_record(name: Seq<char>, pairs: Seq<(Seq<char>, Seq<char>)>) -> Seq<char> {
    seq!['<'] + name + seq!['>'] + render_params(pairs) + seq!['<', '/'] + name + seq!['>']
}

/// A tag name that renders and re-parses cleanly: non-empty, short enough
/// for the default cap with a leading slash in front, free of the tag
/// delimiters, and not itself starting with a slash.
pub open spec fn name_ok(n: Seq<char>) -> bool {
    &&& n.len() >= 1
    &&& n.len() + 1 <= default_options().max_tool_name_length
    &&& n[0] != '/'
    &&& forall|i: int| 0 <= i < n.len() ==> n[i] != '<' && n[i] != '>'
}

/// A parameter value that renders and re-parses cleanly: free of `<`, `>`
/// and `&`, with no whitespace at either edge.
pub open spec fn value_ok(v: Seq<char>) -> bool {
    &&& forall|i: int| 0 <= i < v.len() ==> v[i] != '<' && v[i] != '>' && v[i] != '&'
    &&& v.len() > 0 ==> !crate::text::is_space(v[0]) && !crate::text::is_space(v.last())
}

/// A record whose rendering re-parses to itself: a well-formed tool name,
/// parameter names that are well-formed, mutually distinct and distinct from
/// the tool name, and clean values.
pub open spec fn record_ok(name: Seq<char>, pairs: Seq<(Seq<char>, Seq<char>)>) -> bool {
    &&& name_ok(name)
    &&& distinct_names(pairs)
    &&& forall|i: int|
        0 <= i < pairs.len() ==> name_ok(#[trigger] pairs[i].0) && pairs[i].0 != name && value_ok(
            pairs[i].1,
        )
}

/// Renders a record as the element the parser extracts it from.
pub fn render_tool_call(tc: &ToolCall) -> (r: String)
    ensures
        r@ == render_record(tc.tool_name@, tc.parameters@),
{
    let mut out = String::new();
    out.push('<');
    out.append(tc.tool_name.as_str());
    out.push('>');
    proof {
        assert(out@ =~= seq!['<'] + tc.tool_name@ + seq!['>']);
    }
    let ghost head = out@;
    let n = tc.parameters.len();
    let mut i: usize = 0;
    while i < n
        invariant
            0 <= i <= n == tc.parameters@.len(),
            out@ == head + render_params(tc.parameters@.take(i as int)),
        decreases n - i,
    {
        let a = tc.parameters.entry(i);
        let ghost before = out@;
        out.push('<');
        out.append(a.name.as_str());
        out.push('>');
        out.append(a.value.as_str());
        out.push('<');
        out.push('/');
        out.append(a.name.as_str());
        out.push('>');
        proof {
            assert(out@ =~= before + render_one(tc.parameters@[i as int]));
            lemma_render_params_snoc(tc.parameters@.take(i as int), tc.parameters@[i as int]);
            assert(tc.parameters@.take(i as int).push(tc.parameters@[i as int])
                =~= tc.parameters@.take(i as int + 1));
            assert(out@ =~= head + render_params(tc.parameters@.take(i as int + 1)));
        }
        i = i + 1;
    }
    proof {
        assert(tc.parameters@.take(n as int) =~= tc.parameters@);
    }
    out.push('<');
    out.push('/');
    out.append(tc.tool_name.as_str());
    out.push('>');
    proof {
        assert(out@ =~= render_record(tc.tool_name@, tc.parameters@));
    }
    out
}

/// A run over a single character is a single step.
proof fn lemma_run_one(opts: crate::model::ParserOptions, s: MState, c: char)
    ensures
        run(opts, s, seq![c]) == step(opts, s, c),
{
    assert(seq![c].drop_first() =~= Seq::<char>::empty());
    assert(step(opts, s, c).1 + run(opts, step(opts, s, c).0, Seq::<char>::empty()).1
        =~= step(opts, s, c).1);
}

/// Inside a tag, characters other than `>` only accumulate, within the cap.
proof fn lemma_run_tag_chars(s: MState, w: Seq<char>)
    requires
        s.mode is InTag,
        forall|i: int| 0 <= i < w.len() ==> w[i] != '>',
        s.tag.len() + w.len() <= default_options().max_tool_name_length,
    ensures
        run(default_options(), s, w).0 == (MState { tag: s.tag + w, ..s }),
        run(default_options(), s, w).1 == Seq::<EventM>::empty(),
    decreases w.len(),
{
    let def = default_options();
    if w.len() == 0 {
        assert(s.tag + w =~= s.tag);
    } else {
        let s1 = MState { tag: s.tag.push(w[0]), ..s };
        assert(step(def, s, w[0]) == (s1, Seq::<EventM>::empty()));
        lemma_run_tag_chars(s1, w.drop_first());
        assert(s1.tag + w.drop_first() =~= s.tag + w);
        assert(run(def, s, w).1 =~= Seq::<EventM>::empty());
    }
}

/// Inside a parameter value with no cap, characters other than `<` only
/// accumulate.
proof fn lemma_run_value_chars(s: MState, w: Seq<char>)
    requires
        s.mode is InParameterTag,
        forall|i: int| 0 <= i < w.len() ==> w[i] != '<',
    ensures
        run(default_options(), s, w).0 == (MState { value: s.value + w, ..s }),
        run(default_options(), s, w).1 == Seq::<EventM>::empty(),
    decreases w.len(),
{
    let def = default_options();
    if w.len() == 0 {
        assert(s.value + w =~= s.value);
    } else {
        let s1 = MState { value: s.value.push(w[0]), ..s };
        assert(step(def, s, w[0]) == (s1, Seq::<EventM>::empty()));
        lemma_run_value_chars(s1, w.drop_first());
        assert(s1.value + w.drop_first() =~= s.value + w);
        assert(run(def, s, w).1 =~= Seq::<EventM>::empty());
    }
}

/// The machine state between child elements of an open tool.
spec fn tool_state(name: Seq<char>, ps: Seq<(Seq<char>, Seq<char>)>, k: nat) -> MState {
    MState {
        mode: Mode::InToolTag,
        tag: Seq::empty(),
        value: Seq::empty(),
        tool: Some(name),
        param: None,
        tool_id: k,
        params: ps,
        counter: k,
    }
}

/// A run over two concatenated pieces, chained.
proof fn lemma_run_chain(
    s: MState,
    a: Seq<char>,
    b: Seq<char>,
    sa: MState,
    ea: Seq<EventM>,
    sb: MState,
    eb: Seq<EventM>,
)
    requires
        run(default_options(), s, a) == (sa, ea),
        run(default_options(), sa, b) == (sb, eb),
    ensures
        run(default_options(), s, a + b) == (sb, ea + eb),
{
    crate::model::lemma_run_append(default_options(), s, a, b);
}

/// Rendering one clean parameter inside an open tool appends exactly that
/// pair to the collected mapping and emits nothing.
proof fn lemma_render_param_run(
    name: Seq<char>,
    ps: Seq<(Seq<char>, Seq<char>)>,
    p: (Seq<char>, Seq<char>),
    k: nat,
)
    requires
        name_ok(p.0),
        p.0 != name,
        value_ok(p.1),
        !crate::args::has_name(ps, p.0),
    ensures
        run(default_options(), tool_state(name, ps, k), render_one(p)) == (
            tool_state(name, ps.push(p), k),
            Seq::<EventM>::empty(),
        ),
{
    let def = default_options();
    let s0 = tool_state(name, ps, k);
    let none_ev = Seq::<EventM>::empty();

    // `<` opens a tag.
    let s1 = MState { mode: Mode::InTag, tag: Seq::empty(), ..s0 };
    lemma_run_one(def, s0, '<');
    assert(step(def, s0, '<') == (s1, none_ev));

    // The parameter name accumulates.
    lemma_run_tag_chars(s1, p.0);
    let s2 = MState { tag: s1.tag + p.0, ..s1 };
    assert(s2.tag =~= p.0);

    // `>` opens the parameter element.
    let s3 = MState {
        mode: Mode::InParameterTag,
        tag: Seq::empty(),
        value: Seq::empty(),
        param: Some(p.0),
        ..s2
    };
    lemma_run_one(def, s2, '>');
    assert(s2.tag.len() > 0 && s2.tag[0] != '/');
    assert(step(def, s2, '>') == (s3, none_ev));

    // The value accumulates.
    lemma_run_value_chars(s3, p.1);
    let s4 = MState { value: s3.value + p.1, ..s3 };
    assert(s4.value =~= p.1);

    // `<` then `/name` accumulate the closing tag.
    let s5 = MState { mode: Mode::InTag, tag: Seq::empty(), ..s4 };
    lemma_run_one(def, s4, '<');
    assert(step(def, s4, '<') == (s5, none_ev));
    let closer = seq!['/'] + p.0;
    lemma_run_tag_chars(s5, closer);
    let s6 = MState { tag: s5.tag + closer, ..s5 };
    assert(s6.tag =~= closer);

    // `>` closes the parameter: the trimmed, decoded value is stored.
    lemma_run_one(def, s6, '>');
    assert(s6.tag.len() > 0 && s6.tag[0] == '/');
    assert(s6.tag.drop_first() =~= p.0);
    crate::text::lemma_trim_of_trimmed(p.1);
    crate::text::lemma_decode_entities_of_plain(p.1);
    assert(crate::model::close_value(def, p.1) == p.1);
    crate::args::lemma_upsert_fresh(ps, p.0, p.1);
    let s7 = MState {
        mode: Mode::InToolTag,
        tag: Seq::empty(),
        value: Seq::empty(),
        param: None,
        params: crate::args::upsert(ps, p.0, p.1),
        ..s6
    };
    assert(step(def, s6, '>') == (s7, none_ev));
    assert(s7 == tool_state(name, ps.push(p), k));

    // Chain the pieces together.
    lemma_run_chain(s0, seq!['<'], p.0, s1, none_ev, s2, none_ev);
    assert(none_ev + none_ev =~= none_ev);
    let c1 = seq!['<'] + p.0;
    lemma_run_chain(s0, c1, seq!['>'], s2, none_ev, s3, none_ev);
    let c2 = c1 + seq!['>'];
    lemma_run_chain(s0, c2, p.1, s3, none_ev, s4, none_ev);
    let c3 = c2 + p.1;
    lemma_run_chain(s0, c3, seq!['<'], s4, none_ev, s5, none_ev);
    let c4 = c3 + seq!['<'];
    lemma_run_chain(s0, c4, closer, s5, none_ev, s6, none_ev);
    let c5 = c4 + closer;
    lemma_run_chain(s0, c5, seq!['>'], s6, none_ev, s7, none_ev);
    assert(c5 + seq!['>'] =~= render_one(p));
}

/// Rendering a clean parameter list inside an open tool appends exactly
/// those pairs, in order, and emits nothing.
proof fn lemma_render_params_run(
    name: Seq<char>,
    ps: Seq<(Seq<char>, Seq<char>)>,
    pairs: Seq<(Seq<char>, Seq<char>)>,
    k: nat,
)
    requires
        distinct_names(pairs),
        forall|i: int|
            0 <= i < pairs.len() ==> name_ok(#[trigger] pairs[i].0) && pairs[i].0 != name
                && value_ok(pairs[i].1),
        forall|i: int| 0 <= i < pairs.len() ==> !crate::args::has_name(ps, #[trigger] pairs[i].0),
    ensures
        run(default_options(), tool_state(name, ps, k), render_params(pairs)) == (
            tool_state(name, ps + pairs, k),
            Seq::<EventM>::empty(),
        ),
    decreases pairs.len(),
{
    let def = default_options();
    let none_ev = Seq::<EventM>::empty();
    if pairs.len() == 0 {
        assert(ps + pairs =~= ps);
        assert(run(def, tool_state(name, ps, k), render_params(pairs)).1 =~= none_ev);
    } else {
        let p = pairs[0];
        let rest = pairs.drop_first();
        lemma_render_param_run(name, ps, p, k);
        let ps1 = ps.push(p);
        assert forall|i: int|
            0 <= i < rest.len() implies !crate::args::has_name(ps1, #[trigger] rest[i].0) by {
            assert(rest[i] == pairs[i + 1]);
            if crate::args::has_name(ps1, rest[i].0) {
                let w = choose|w: int| 0 <= w < ps1.len() && ps1[w].0 == rest[i].0;
                if w < ps.len() {
                    assert(ps[w].0 == rest[i].0);
                } else {
                    assert(ps1[w] == p);
                }
            }
        }
        assert(forall|i: int| 0 <= i < rest.len() ==> rest[i] == pairs[i + 1]);
        lemma_render_params_run(name, ps1, rest, k);
        lemma_run_chain(
            tool_state(name, ps, k),
            render_one(p),
            render_params(rest),
            tool_state(name, ps1, k),
            none_ev,
            tool_state(name, ps1 + rest, k),
            none_ev,
        );
        assert(render_one(p) + render_params(rest) =~= render_params(pairs));
        assert(ps1 + rest =~= ps + pairs);
        assert(none_ev + none_ev =~= none_ev);
    }
}

/// Round trip: a record whose names are well-formed and whose values hold no
/// `<`, `>` or `&` and no whitespace at either edge re-parses, from its own
/// rendering, to exactly itself.  Together with the batch extractor's
/// contract: when the tool name also begins with an alphanumeric character,
/// re-parsing the rendering returns the identical record.
pub proof fn lemma_round_trip(name: Seq<char>, pairs: Seq<(Seq<char>, Seq<char>)>)
    requires
        record_ok(name, pairs),
    ensures
        batch_outcome(render_record(name, pairs)) == (BatchOutcome::Record { name, args: pairs }),
{
    let def = default_options();
    let none_ev = Seq::<EventM>::empty();
    let s0 = crate::model::init_state();

    // `<name>` starts the tool.
    let s1 = MState { mode: Mode::InTag, tag: Seq::empty(), ..s0 };
    lemma_run_one(def, s0, '<');
    assert(step(def, s0, '<') == (s1, none_ev));
    lemma_run_tag_chars(s1, name);
    let s2 = MState { tag: s1.tag + name, ..s1 };
    assert(s2.tag =~= name);
    lemma_run_one(def, s2, '>');
    assert(s2.tag.len() > 0 && s2.tag[0] != '/');
    let start_ev = EventM::ToolStart { id: crate::text::tool_id_chars(1), name };
    let s3 = tool_state(name, Seq::empty(), 1);
    assert(step(def, s2, '>') == (s3, seq![start_ev]));

    // The parameters accumulate.
    assert forall|i: int|
        0 <= i < pairs.len() implies !crate::args::has_name(
        Seq::<(Seq<char>, Seq<char>)>::empty(),
        #[trigger] pairs[i].0,
    ) by {
        if crate::args::has_name(Seq::<(Seq<char>, Seq<char>)>::empty(), pairs[i].0) {
            let w = choose|w: int|
                0 <= w < Seq::<(Seq<char>, Seq<char>)>::empty().len()
                    && Seq::<(Seq<char>, Seq<char>)>::empty()[w].0 == pairs[i].0;
        }
    }
    lemma_render_params_run(name, Seq::empty(), pairs, 1);
    let s4 = tool_state(name, Seq::empty() + pairs, 1);
    assert(Seq::<(Seq<char>, Seq<char>)>::empty() + pairs =~= pairs);

    // `</name>` closes the tool.
    let s5 = MState { mode: Mode::InTag, tag: Seq::empty(), ..s4 };
    lemma_run_one(def, s4, '<');
    assert(step(def, s4, '<') == (s5, none_ev));
    let closer = seq!['/'] + name;
    lemma_run_tag_chars(s5, closer);
    let s6 = MState { tag: s5.tag + closer, ..s5 };
    assert(s6.tag =~= closer);
    lemma_run_one(def, s6, '>');
    assert(s6.tag.len() > 0 && s6.tag[0] == '/');
    assert(s6.tag.drop_first() =~= name);
    let s7 = crate::model::drop_tool(s6);
    let close_evs = crate::model::close_events(s6);
    assert(step(def, s6, '>') == (s7, close_evs));

    // Chain the pieces together.
    lemma_run_chain(s0, seq!['<'], name, s1, none_ev, s2, none_ev);
    assert(none_ev + none_ev =~= none_ev);
    let c1 = seq!['<'] + name;
    lemma_run_chain(s0, c1, seq!['>'], s2, none_ev, s3, seq![start_ev]);
    assert(none_ev + seq![start_ev] =~= seq![start_ev]);
    let c2 = c1 + seq!['>'];
    lemma_run_chain(s0, c2, render_params(pairs), s3, seq![start_ev], s4, none_ev);
    assert(seq![start_ev] + none_ev =~= seq![start_ev]);
    let c3 = c2 + render_params(pairs);
    lemma_run_chain(s0, c3, seq!['<'], s4, seq![start_ev], s5, none_ev);
    let c4 = c3 + seq!['<'];
    lemma_run_chain(s0, c4, closer, s5, seq![start_ev], s6, none_ev);
    let c5 = c4 + closer;
    lemma_run_chain(s0, c5, seq!['>'], s6, seq![start_ev], s7, close_evs);
    let cs = render_record(name, pairs);
    assert(c5 + seq!['>'] =~= cs);
    let evs = seq![start_ev] + close_evs;
    assert(run(def, s0, cs) == (s7, evs));

    // No tool is open at end of input, so nothing more is synthesized.
    assert(crate::model::finish_events(s7) =~= none_ev);
    assert(full_events(def, cs) =~= evs);

    // The collapsing fold distils exactly the record.
    let id = crate::model::cur_id(s6);
    if pairs.len() > 0 {
        let pe = EventM::Parameter { id, arguments: pairs };
        let te = EventM::ToolEnd { id };
        assert(close_evs =~= seq![pe, te]);
        assert(evs =~= seq![start_ev, pe, te]);
        assert(evs.drop_first() =~= seq![pe, te]);
        assert(evs.drop_first().drop_first() =~= seq![te]);
        assert(evs.drop_first().drop_first().drop_first() =~= Seq::<EventM>::empty());
        assert(evs[0] == start_ev && evs.drop_first()[0] == pe && evs.drop_first().drop_first()[0]
            == te);
        assert(acc_step(BatchAcc::Scanning, start_ev) == (BatchAcc::Open { name }));
        assert(acc_fold(BatchAcc::Scanning, evs) == acc_fold(
            BatchAcc::Open { name },
            evs.drop_first(),
        ));
        assert(acc_fold(BatchAcc::Open { name }, evs.drop_first()) == acc_fold(
            BatchAcc::HaveParams { name, args: pairs },
            evs.drop_first().drop_first(),
        ));
        assert(acc_fold(BatchAcc::HaveParams { name, args: pairs }, evs.drop_first().drop_first())
            == acc_fold(
            BatchAcc::Settled(BatchOutcome::Record { name, args: pairs }),
            evs.drop_first().drop_first().drop_first(),
        ));
        assert(acc_fold(BatchAcc::Scanning, evs) == BatchAcc::Settled(
            BatchOutcome::Record { name, args: pairs },
        ));
    } else {
        let te = EventM::ToolEnd { id };
        assert(close_evs =~= seq![te]);
        assert(evs =~= seq![start_ev, te]);
        assert(evs.drop_first() =~= seq![te]);
        assert(evs.drop_first().drop_first() =~= Seq::<EventM>::empty());
        assert(evs[0] == start_ev && evs.drop_first()[0] == te);
        assert(acc_fold(BatchAcc::Scanning, evs) == acc_fold(
            BatchAcc::Open { name },
            evs.drop_first(),
        ));
        assert(acc_fold(BatchAcc::Open { name }, evs.drop_first()) == acc_fold(
            BatchAcc::Settled(BatchOutcome::Record { name, args: Seq::empty() }),
            evs.drop_first().drop_first(),
        ));
        assert(acc_fold(BatchAcc::Scanning, evs) == BatchAcc::Settled(
            BatchOutcome::Record { name, args: Seq::empty() },
        ));
        assert(pairs =~= Seq::<(Seq<char>, Seq<char>)>::empty());
    }
}

/// Rendering one more parameter appends its element.
proof fn lemma_render_params_snoc(pairs: Seq<(Seq<char>, Seq<char>)>, p: (Seq<char>, Seq<char>))
    ensures
        render_params(pairs.push(p)) == render_params(pairs) + render_one(p),
    decreases pairs.len(),
{
    if pairs.len() == 0 {
        assert(pairs.push(p).drop_first() =~= Seq::<(Seq<char>, Seq<char>)>::empty());
        assert(pairs.push(p)[0] == p);
        assert(render_one(p) + render_params(Seq::<(Seq<char>, Seq<char>)>::empty())
            =~= render_params(pairs) + render_one(p));
    } else {
        assert(pairs.push(p)[0] == pairs[0]);
        assert(pairs.push(p).drop_first() =~= pairs.drop_first().push(p));
        lemma_render_params_snoc(pairs.drop_first(), p);
        assert(render_one(pairs[0]) + (render_params(pairs.drop_first()) + render_one(p))
            =~= render_params(pairs) + render_one(p));
    }
}

} // verus!
