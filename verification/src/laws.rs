//! The behavioural laws of the event stream, proved once and for all over
//! the specification machine.  Every executable entry point's contract ties
//! its output to [`full_events`], so these laws carry over to the code.

use vstd::prelude::*;
use crate::events::EventM;
use crate::model::{
    cur_id, finish_events, full_events, init_state, lemma_run_append, lemma_run_wf, lemma_step_wf,
    run, step, wf_state, MState, ParserOptions,
};

verus! {

/// How many tool-start events a sequence holds.
pub open spec fn n_starts(evs: Seq<EventM>) -> int
    decreases evs.len(),
{
    if evs.len() == 0 {
        0
    } else {
        (if evs[0] is ToolStart {
            1int
        } else {
            0int
        }) + n_starts(evs.drop_first())
    }
}

/// How many tool-end events a sequence holds.
pub open spec fn n_ends(evs: Seq<EventM>) -> int
    decreases evs.len(),
{
    if evs.len() == 0 {
        0
    } else {
        (if evs[0] is ToolEnd {
            1int
        } else {
            0int
        }) + n_ends(evs.drop_first())
    }
}

/// Counts of a single event.
proof fn lemma_counts_singleton(e: EventM)
    ensures
        n_starts(seq![e]) == if e is ToolStart {
            1int
        } else {
            0int
        },
        n_ends(seq![e]) == if e is ToolEnd {
            1int
        } else {
            0int
        },
{
    assert(seq![e].drop_first() =~= Seq::<EventM>::empty());
    assert(n_starts(Seq::<EventM>::empty()) == 0);
    assert(n_ends(Seq::<EventM>::empty()) == 0);
}

/// Counts distribute over concatenation.
proof fn lemma_counts_append(a: Seq<EventM>, b: Seq<EventM>)
    ensures
        n_starts(a + b) == n_starts(a) + n_starts(b),
        n_ends(a + b) == n_ends(a) + n_ends(b),
    decreases a.len(),
{
    if a.len() == 0 {
        assert(a + b =~= b);
    } else {
        assert((a + b)[0] == a[0]);
        assert((a + b).drop_first() =~= a.drop_first() + b);
        lemma_counts_append(a.drop_first(), b);
    }
}

/// One when a tool is open, zero otherwise.
pub open spec fn open_n(s: MState) -> int {
    if s.tool is Some {
        1
    } else {
        0
    }
}

/// One step's events change the start/end balance exactly by the change in
/// the number of open tools.
proof fn lemma_step_balance(opts: ParserOptions, s: MState, c: char)
    ensures
        n_starts(step(opts, s, c).1) - n_ends(step(opts, s, c).1) == open_n(step(opts, s, c).0)
            - open_n(s),
{
    let (s2, evs) = step(opts, s, c);
    if evs.len() == 0 {
        assert(n_starts(evs) == 0 && n_ends(evs) == 0);
    } else if evs.len() == 1 {
        assert(evs =~= seq![evs[0]]);
        lemma_counts_singleton(evs[0]);
    } else {
        assert(evs =~= seq![evs[0]] + seq![evs[1]]);
        lemma_counts_append(seq![evs[0]], seq![evs[1]]);
        lemma_counts_singleton(evs[0]);
        lemma_counts_singleton(evs[1]);
    }
}

/// A run's events change the start/end balance exactly by the change in the
/// number of open tools.
proof fn lemma_run_balance(opts: ParserOptions, s: MState, cs: Seq<char>)
    ensures
        n_starts(run(opts, s, cs).1) - n_ends(run(opts, s, cs).1) == open_n(run(opts, s, cs).0)
            - open_n(s),
    decreases cs.len(),
{
    if cs.len() > 0 {
        let head = step(opts, s, cs[0]);
        lemma_step_balance(opts, s, cs[0]);
        lemma_run_balance(opts, head.0, cs.drop_first());
        lemma_counts_append(head.1, run(opts, head.0, cs.drop_first()).1);
    }
}

/// The end-of-input synthesis closes exactly the open tool.
proof fn lemma_finish_balance(s: MState)
    ensures
        n_starts(finish_events(s)) == 0,
        n_ends(finish_events(s)) == open_n(s),
{
    let evs = finish_events(s);
    if evs.len() == 0 {
    } else if evs.len() == 1 {
        assert(evs =~= seq![evs[0]]);
        lemma_counts_singleton(evs[0]);
    } else if evs.len() == 2 {
        assert(evs =~= seq![evs[0]] + seq![evs[1]]);
        lemma_counts_append(seq![evs[0]], seq![evs[1]]);
        lemma_counts_singleton(evs[0]);
        lemma_counts_singleton(evs[1]);
    } else {
        assert(evs =~= seq![evs[0]] + (seq![evs[1]] + seq![evs[2]]));
        lemma_counts_append(seq![evs[0]], seq![evs[1]] + seq![evs[2]]);
        lemma_counts_append(seq![evs[1]], seq![evs[2]]);
        lemma_counts_singleton(evs[0]);
        lemma_counts_singleton(evs[1]);
        lemma_counts_singleton(evs[2]);
    }
}

/// For every input and configuration, the complete event stream holds
/// exactly as many tool-end events as tool-start events.
pub proof fn lemma_start_end_balance(opts: ParserOptions, cs: Seq<char>)
    ensures
        n_starts(full_events(opts, cs)) == n_ends(full_events(opts, cs)),
{
    let r = run(opts, init_state(), cs);
    lemma_run_balance(opts, init_state(), cs);
    lemma_finish_balance(r.0);
    lemma_counts_append(r.1, finish_events(r.0));
}

/// The neighbourhood every parameter event must have: immediately preceded
/// by the start of its tool, immediately followed by its tool's end or by an
/// error.
pub open spec fn param_ok_at(evs: Seq<EventM>, i: int) -> bool {
    match evs[i] {
        EventM::Parameter { id, arguments } => {
            &&& 0 < i
            &&& i + 1 < evs.len()
            &&& match evs[i - 1] {
                EventM::ToolStart { id: sid, name } => sid == id,
                _ => false,
            }
            &&& match evs[i + 1] {
                EventM::ToolEnd { id: eid } => eid == id,
                EventM::Error(_) => true,
                _ => false,
            }
        },
        _ => true,
    }
}

/// Every parameter event in the sequence has its required neighbourhood.
pub open spec fn params_adjacent(evs: Seq<EventM>) -> bool {
    forall|i: int| 0 <= i < evs.len() ==> #[trigger] param_ok_at(evs, i)
}

/// The invariant carried along a run: the events so far are adjacent, never
/// end in a parameter event, and while a tool is open the last event is its
/// start.
spec fn trace_ok(s: MState, evs: Seq<EventM>) -> bool {
    &&& params_adjacent(evs)
    &&& (evs.len() > 0 ==> !(evs.last() is Parameter))
    &&& (s.tool is Some ==> evs.len() > 0 && evs.last() == (EventM::ToolStart {
        id: cur_id(s),
        name: s.tool->0,
    }))
}

/// Appending a batch that contains a parameter event only in the shape
/// `[Parameter, ToolEnd]` or `[Parameter, Error, ToolEnd]` keeps adjacency.
proof fn lemma_step_trace(opts: ParserOptions, s: MState, c: char, evs: Seq<EventM>)
    requires
        wf_state(s),
        trace_ok(s, evs),
    ensures
        trace_ok(step(opts, s, c).0, evs + step(opts, s, c).1),
{
    let (s2, batch) = step(opts, s, c);
    let evs2 = evs + batch;
    assert forall|i: int| 0 <= i < evs2.len() implies #[trigger] param_ok_at(evs2, i) by {
        if i < evs.len() {
            assert(param_ok_at(evs, i));
            if evs[i] is Parameter {
                assert(evs2[i] == evs[i]);
                assert(evs2[i - 1] == evs[i - 1]);
                assert(evs2[i + 1] == evs[i + 1]);
            }
        } else {
            // Only a tool close emits a parameter event, and then the batch
            // is exactly [Parameter, ToolEnd] right after the tool's start.
            if evs2[i] is Parameter {
                assert(batch[i - evs.len()] is Parameter);
                assert(i == evs.len());
                assert(evs2[i - 1] == evs.last());
                assert(evs2[i + 1] == batch[1]);
            }
        }
    }
}

/// A run keeps the trace invariant.
proof fn lemma_run_trace(opts: ParserOptions, s: MState, cs: Seq<char>, evs: Seq<EventM>)
    requires
        wf_state(s),
        trace_ok(s, evs),
    ensures
        trace_ok(run(opts, s, cs).0, evs + run(opts, s, cs).1),
    decreases cs.len(),
{
    if cs.len() == 0 {
        assert(evs + run(opts, s, cs).1 =~= evs);
    } else {
        let head = step(opts, s, cs[0]);
        lemma_step_trace(opts, s, cs[0], evs);
        lemma_step_wf(opts, s, cs[0]);
        lemma_run_trace(opts, head.0, cs.drop_first(), evs + head.1);
        assert((evs + head.1) + run(opts, head.0, cs.drop_first()).1 =~= evs + run(
            opts,
            s,
            cs,
        ).1);
    }
}

/// The end-of-input synthesis keeps adjacency.
proof fn lemma_finish_trace(s: MState, evs: Seq<EventM>)
    requires
        trace_ok(s, evs),
    ensures
        params_adjacent(evs + finish_events(s)),
{
    let batch = finish_events(s);
    let evs2 = evs + batch;
    assert forall|i: int| 0 <= i < evs2.len() implies #[trigger] param_ok_at(evs2, i) by {
        if i < evs.len() {
            assert(param_ok_at(evs, i));
            if evs[i] is Parameter {
                assert(evs2[i] == evs[i]);
                assert(evs2[i - 1] == evs[i - 1]);
                assert(evs2[i + 1] == evs[i + 1]);
            }
        } else {
            if evs2[i] is Parameter {
                assert(batch[i - evs.len()] is Parameter);
                assert(i == evs.len());
                assert(evs2[i - 1] == evs.last());
                assert(evs2[i + 1] == batch[1]);
            }
        }
    }
}

/// For every input and configuration, every parameter event is immediately
/// preceded by the start event of its tool and immediately followed by its
/// tool's end event or by an error event.
pub proof fn lemma_parameter_adjacency(opts: ParserOptions, cs: Seq<char>)
    ensures
        params_adjacent(full_events(opts, cs)),
{
    let r = run(opts, init_state(), cs);
    assert(trace_ok(init_state(), Seq::<EventM>::empty()));
    lemma_run_trace(opts, init_state(), cs, Seq::<EventM>::empty());
    lemma_run_wf(opts, init_state(), cs);
    assert(Seq::<EventM>::empty() + r.1 =~= r.1);
    lemma_finish_trace(r.0, r.1);
}

/// Every parameter event in the sequence carries a mapping with pairwise
/// distinct names.
pub open spec fn param_names_distinct(evs: Seq<EventM>) -> bool {
    forall|i: int|
        0 <= i < evs.len() ==> match #[trigger] evs[i] {
            EventM::Parameter { id, arguments } => crate::args::distinct_names(arguments),
            _ => true,
        }
}

proof fn lemma_step_params_distinct(opts: ParserOptions, s: MState, c: char, evs: Seq<EventM>)
    requires
        wf_state(s),
        param_names_distinct(evs),
    ensures
        param_names_distinct(evs + step(opts, s, c).1),
{
    let batch = step(opts, s, c).1;
    let evs2 = evs + batch;
    assert forall|i: int|
        0 <= i < evs2.len() implies match #[trigger] evs2[i] {
        EventM::Parameter { id, arguments } => crate::args::distinct_names(arguments),
        _ => true,
    } by {
        if i < evs.len() {
            assert(evs2[i] == evs[i]);
        } else {
            assert(evs2[i] == batch[i - evs.len()]);
        }
    }
}

proof fn lemma_run_params_distinct(opts: ParserOptions, s: MState, cs: Seq<char>, evs: Seq<EventM>)
    requires
        wf_state(s),
        param_names_distinct(evs),
    ensures
        param_names_distinct(evs + run(opts, s, cs).1),
    decreases cs.len(),
{
    if cs.len() == 0 {
        assert(evs + run(opts, s, cs).1 =~= evs);
    } else {
        let head = step(opts, s, cs[0]);
        lemma_step_params_distinct(opts, s, cs[0], evs);
        lemma_step_wf(opts, s, cs[0]);
        lemma_run_params_distinct(opts, head.0, cs.drop_first(), evs + head.1);
        assert((evs + head.1) + run(opts, head.0, cs.drop_first()).1 =~= evs + run(
            opts,
            s,
            cs,
        ).1);
    }
}

/// For every input, the mapping of every parameter event has pairwise
/// distinct names.
pub proof fn lemma_parameter_names_distinct(opts: ParserOptions, cs: Seq<char>)
    ensures
        param_names_distinct(full_events(opts, cs)),
{
    let r = run(opts, init_state(), cs);
    lemma_run_params_distinct(opts, init_state(), cs, Seq::<EventM>::empty());
    lemma_run_wf(opts, init_state(), cs);
    assert(Seq::<EventM>::empty() + r.1 =~= r.1);
    let evs2 = r.1 + finish_events(r.0);
    assert forall|i: int|
        0 <= i < evs2.len() implies match #[trigger] evs2[i] {
        EventM::Parameter { id, arguments } => crate::args::distinct_names(arguments),
        _ => true,
    } by {
        if i < r.1.len() {
            assert(evs2[i] == r.1[i]);
            assert(param_names_distinct(r.1));
        } else {
            assert(evs2[i] == finish_events(r.0)[i - r.1.len()]);
        }
    }
}

/// The concatenation of a sequence of chunks.
pub open spec fn concat_chunks(chunks: Seq<Seq<char>>) -> Seq<char>
    decreases chunks.len(),
{
    if chunks.len() == 0 {
        Seq::empty()
    } else {
        chunks[0] + concat_chunks(chunks.drop_first())
    }
}

/// A run fed chunk by chunk.
pub open spec fn run_chunks(opts: ParserOptions, s: MState, chunks: Seq<Seq<char>>) -> (
    MState,
    Seq<EventM>,
)
    decreases chunks.len(),
{
    if chunks.len() == 0 {
        (s, Seq::empty())
    } else {
        let head = run(opts, s, chunks[0]);
        let rest = run_chunks(opts, head.0, chunks.drop_first());
        (rest.0, head.1 + rest.1)
    }
}

/// Chunk invariance: however one input is partitioned into chunks, feeding
/// the chunks one by one reaches the same state and emits the same events as
/// consuming the whole input at once.
pub proof fn lemma_chunk_invariance(opts: ParserOptions, s: MState, chunks: Seq<Seq<char>>)
    ensures
        run_chunks(opts, s, chunks) == run(opts, s, concat_chunks(chunks)),
    decreases chunks.len(),
{
    if chunks.len() == 0 {
    } else {
        let head = run(opts, s, chunks[0]);
        lemma_chunk_invariance(opts, head.0, chunks.drop_first());
        lemma_run_append(opts, s, chunks[0], concat_chunks(chunks.drop_first()));
    }
}

/// Prose passthrough: an input without `<` produces exactly one text event
/// per character, in order, and nothing else.
pub proof fn lemma_prose_passthrough(opts: ParserOptions, cs: Seq<char>)
    requires
        forall|i: int| 0 <= i < cs.len() ==> cs[i] != '<',
    ensures
        full_events(opts, cs) == cs.map_values(|c: char| EventM::Text(seq![c])),
{
    lemma_prose_run(opts, cs);
    let r = run(opts, init_state(), cs);
    assert(r.1 + finish_events(r.0) =~= r.1);
}

/// The run of a `<`-free input from the initial state: the state never
/// changes and each character becomes one text event.
proof fn lemma_prose_run(opts: ParserOptions, cs: Seq<char>)
    requires
        forall|i: int| 0 <= i < cs.len() ==> cs[i] != '<',
    ensures
        run(opts, init_state(), cs).0 == init_state(),
        run(opts, init_state(), cs).1 == cs.map_values(|c: char| EventM::Text(seq![c])),
    decreases cs.len(),
{
    if cs.len() == 0 {
        assert(cs.map_values(|c: char| EventM::Text(seq![c])) =~= Seq::<EventM>::empty());
    } else {
        assert(step(opts, init_state(), cs[0]).0 == init_state());
        assert(forall|i: int| 0 <= i < cs.drop_first().len() ==> cs.drop_first()[i] != '<');
        lemma_prose_run(opts, cs.drop_first());
        assert(run(opts, init_state(), cs).1 =~= cs.map_values(
            |c: char| EventM::Text(seq![c]),
        ));
    }
}

/// Replay: the event stream is a function of the input and the
/// configuration alone.  Two fresh parsers given the same input hand out
/// identical event sequences, identifiers restarting at one.
pub proof fn lemma_replay_identical(
    opts: ParserOptions,
    cs: Seq<char>,
    evs1: Seq<EventM>,
    evs2: Seq<EventM>,
)
    requires
        evs1 == full_events(opts, cs),
        evs2 == full_events(opts, cs),
    ensures
        evs1 == evs2,
{
}

/// Boundary: input ending exactly at the `>` of a parameter close leaves no
/// partial-tag state behind; a subsequent empty chunk changes nothing and
/// produces nothing.
pub proof fn lemma_empty_chunk(opts: ParserOptions, cs: Seq<char>)
    ensures
        run(opts, init_state(), cs + Seq::<char>::empty()) == run(opts, init_state(), cs),
        full_events(opts, cs + Seq::<char>::empty()) == full_events(opts, cs),
{
    assert(cs + Seq::<char>::empty() =~= cs);
}

} // verus!
