//! The executable streaming parser.
//!
//! [`XmlStreamParser`] consumes input characters fed in arbitrary chunks and
//! hands out one event per pull, with a one-slot look-ahead buffer so that a
//! consolidated parameter event can precede the tool-end event produced by
//! the same closing tag.  Its contract ties every emitted event to the
//! specification machine of [`crate::model`]: after any sequence of feeds and
//! pulls, the events handed out are exactly `run` applied to the characters
//! consumed so far, and [`XmlStreamParser::finish`] completes them to
//! [`full_events`].

use vstd::prelude::*;
use crate::args::{str_eq, ToolArguments};
use crate::events::{EventM, ParseErrorKind, ToolCallEvent, views_of};
use crate::model::{
    close_events, close_value, default_options, drop_tool, end_of_tag, error_events, expected_close,
    finish_events, full_events, init_state, lemma_run_snoc, lemma_run_wf, run, step, value_cap_hit,
    wf_state, MState, Mode, ParserOptions,
};
use crate::text::{chars_vec, decode_entities_string, string_of_range, tool_id_chars,
    tool_id_string, trim_string};

verus! {

/// The events of an optional event, as a sequence.
pub open spec fn opt_ev(r: Option<ToolCallEvent>) -> Seq<EventM> {
    match r {
        Some(e) => seq![e@],
        None => Seq::empty(),
    }
}

/// The single-pass streaming parser.
pub struct XmlStreamParser {
    options: ParserOptions,
    /// The current mode of the automaton.
    state: Mode,
    /// Accumulates a tag name between `<` and `>`.
    tag_buffer: String,
    tag_len: usize,
    /// Accumulates a parameter value.
    param_value_buffer: String,
    value_len: usize,
    /// The name of the open tool element.
    current_tool: Option<String>,
    /// The name of the open parameter element.
    current_param: Option<String>,
    /// The parameters collected for the open tool.
    current_params: ToolArguments,
    /// The number of the open tool's identifier.
    current_id: u64,
    /// How many identifiers have been minted.
    id_counter: u64,
    /// The one-slot look-ahead buffer of the emitter.
    pending: Option<ToolCallEvent>,
    /// Characters fed but not consumed yet.
    buf: Vec<char>,
    pos: usize,
    consumed: Ghost<Seq<char>>,
    emitted: Ghost<Seq<EventM>>,
}

impl XmlStreamParser {
    /// The abstract machine state held by the parser.
    pub closed spec fn m(&self) -> MState {
        MState {
            mode: self.state,
            tag: self.tag_buffer@,
            value: self.param_value_buffer@,
            tool: match self.current_tool {
                Some(t) => Some(t@),
                None => None,
            },
            param: match self.current_param {
                Some(p) => Some(p@),
                None => None,
            },
            tool_id: self.current_id as nat,
            params: self.current_params@,
            counter: self.id_counter as nat,
        }
    }

    /// The configuration the parser was created with.
    pub closed spec fn opts(&self) -> ParserOptions {
        self.options
    }

    /// The characters consumed so far.
    pub closed spec fn consumed(&self) -> Seq<char> {
        self.consumed@
    }

    /// The characters fed but not consumed yet.
    pub closed spec fn buffered(&self) -> Seq<char> {
        self.buf@.skip(self.pos as int)
    }

    /// The models of the events handed out so far.
    pub closed spec fn emitted(&self) -> Seq<EventM> {
        self.emitted@
    }

    /// The events sitting in the look-ahead slot.
    pub closed spec fn pending_evs(&self) -> Seq<EventM> {
        match self.pending {
            Some(e) => seq![e@],
            None => Seq::empty(),
        }
    }

    /// The executable buffers agree with their lengths and respect the caps.
    spec fn exec_wf(&self) -> bool {
        &&& self.tag_len == self.tag_buffer@.len()
        &&& self.tag_buffer@.len() <= self.options.max_tool_name_length
        &&& match self.options.max_parameter_value_length {
            Some(mx) => self.value_len == self.param_value_buffer@.len()
                && self.param_value_buffer@.len() <= mx,
            None => true,
        }
    }

    /// Everything the character-processing steps must leave untouched.
    spec fn frame(&self) -> (Seq<char>, int, Seq<char>, Seq<EventM>, ParserOptions) {
        (self.buf@, self.pos as int, self.consumed@, self.emitted@, self.options)
    }

    /// The parser's invariant: the machine fields and the events handed out
    /// are exactly what running the specification machine over the consumed
    /// characters yields, with at most one event still in the look-ahead slot.
    pub closed spec fn inv(&self) -> bool {
        &&& self.exec_wf()
        &&& self.pos <= self.buf@.len()
        &&& run(self.options, init_state(), self.consumed@).0 == self.m()
        &&& run(self.options, init_state(), self.consumed@).1 == self.emitted@
            + self.pending_evs()
        &&& self.consumed@.len() + self.buffered().len() <= u64::MAX
    }

    /// The events handed out so far, the look-ahead slot included, are
    /// exactly what the specification machine emits over the consumed
    /// characters.
    pub proof fn lemma_parser_run(&self)
        requires
            self.inv(),
        ensures
            run(self.opts(), init_state(), self.consumed()).1 == self.emitted()
                + self.pending_evs(),
            self.consumed().len() + self.buffered().len() <= u64::MAX,
    {
    }

    /// A parser with the default configuration.
    pub fn new() -> (r: XmlStreamParser)
        ensures
            r.inv(),
            r.opts() == default_options(),
            r.consumed() == Seq::<char>::empty(),
            r.buffered() == Seq::<char>::empty(),
            r.emitted() == Seq::<EventM>::empty(),
            r.pending_evs() == Seq::<EventM>::empty(),
    {
        Self::with_options(ParserOptions::default())
    }

    /// A parser with the given configuration.
    pub fn with_options(options: ParserOptions) -> (r: XmlStreamParser)
        ensures
            r.inv(),
            r.opts() == options,
            r.consumed() == Seq::<char>::empty(),
            r.buffered() == Seq::<char>::empty(),
            r.emitted() == Seq::<EventM>::empty(),
            r.pending_evs() == Seq::<EventM>::empty(),
    {
        let r = XmlStreamParser {
            options,
            state: Mode::Normal,
            tag_buffer: String::new(),
            tag_len: 0,
            param_value_buffer: String::new(),
            value_len: 0,
            current_tool: None,
            current_param: None,
            current_params: ToolArguments::new(),
            current_id: 0,
            id_counter: 0,
            pending: None,
            buf: Vec::new(),
            pos: 0,
            consumed: Ghost(Seq::empty()),
            emitted: Ghost(Seq::empty()),
        };
        proof {
            assert(r.m() == init_state());
            assert(r.buffered() =~= Seq::<char>::empty());
            assert(r.emitted@ + r.pending_evs() =~= Seq::<EventM>::empty());
        }
        r
    }

    /// Hands the parser one more chunk of input.  Any chunking is legal,
    /// including splits in the middle of a tag.
    pub fn feed(&mut self, chunk: &str)
        requires
            old(self).inv(),
            old(self).consumed().len() + old(self).buffered().len() + chunk@.len() <= u64::MAX,
        ensures
            final(self).inv(),
            final(self).opts() == old(self).opts(),
            final(self).consumed() == old(self).consumed(),
            final(self).emitted() == old(self).emitted(),
            final(self).buffered() == old(self).buffered() + chunk@,
    {
        let mut v = chars_vec(chunk);
        self.buf.append(&mut v);
        proof {
            assert(self.buffered() =~= old(self).buffered() + chunk@);
        }
    }

    /// Hands the parser one more character.
    pub fn push_char(&mut self, c: char)
        requires
            old(self).inv(),
            old(self).consumed().len() + old(self).buffered().len() + 1 <= u64::MAX,
        ensures
            final(self).inv(),
            final(self).opts() == old(self).opts(),
            final(self).consumed() == old(self).consumed(),
            final(self).emitted() == old(self).emitted(),
            final(self).buffered() == old(self).buffered().push(c),
    {
        self.buf.push(c);
        proof {
            assert(self.buffered() =~= old(self).buffered().push(c));
        }
    }

    /// Mints the next tool identifier.
    fn generate_id(&mut self) -> (r: String)
        requires
            old(self).id_counter < u64::MAX,
        ensures
            final(self).id_counter == old(self).id_counter + 1,
            r@ == tool_id_chars(final(self).id_counter as nat),
            final(self).options == old(self).options,
            final(self).state == old(self).state,
            final(self).tag_buffer == old(self).tag_buffer,
            final(self).tag_len == old(self).tag_len,
            final(self).param_value_buffer == old(self).param_value_buffer,
            final(self).value_len == old(self).value_len,
            final(self).current_tool == old(self).current_tool,
            final(self).current_param == old(self).current_param,
            final(self).current_params == old(self).current_params,
            final(self).current_id == old(self).current_id,
            final(self).pending == old(self).pending,
            final(self).buf == old(self).buf,
            final(self).pos == old(self).pos,
            final(self).consumed == old(self).consumed,
            final(self).emitted == old(self).emitted,
    {
        self.id_counter = self.id_counter + 1;
        tool_id_string(self.id_counter)
    }

    /// Discards the open tool after a structural error: the error event is
    /// returned at once, and the tool's end, if one was open, is deferred to
    /// the look-ahead slot.
    fn discard_with_error(&mut self, kind: ParseErrorKind) -> (r: Option<ToolCallEvent>)
        requires
            old(self).exec_wf(),
            old(self).pending is None,
        ensures
            final(self).exec_wf(),
            final(self).frame() == old(self).frame(),
            final(self).m() == drop_tool(old(self).m()),
            opt_ev(r) + final(self).pending_evs() == error_events(old(self).m(), kind@),
            r is Some,
    {
        if self.current_tool.is_some() {
            let id = tool_id_string(self.current_id);
            self.pending = Some(ToolCallEvent::ToolEnd { id });
        }
        self.state = Mode::Normal;
        self.current_tool = None;
        self.current_param = None;
        self.tag_buffer = String::new();
        self.tag_len = 0;
        self.param_value_buffer = String::new();
        self.value_len = 0;
        let mut fresh = ToolArguments::new();
        core::mem::swap(&mut fresh, &mut self.current_params);
        let r = Some(ToolCallEvent::Error(kind));
        proof {
            assert(opt_ev(r) + self.pending_evs() =~= error_events(old(self).m(), kind@));
        }
        r
    }

    /// Handles a closing tag named `n` (the accumulated tag without its
    /// leading slash).  The tag-name accumulator has already been cleared.
    fn process_closing_tag(&mut self, n: String) -> (r: Option<ToolCallEvent>)
        requires
            old(self).exec_wf(),
            old(self).pending is None,
            wf_state(old(self).m()),
            old(self).m().tag.len() > 0 && old(self).m().tag[0] == '/',
            n@ == old(self).m().tag.drop_first(),
        ensures
            final(self).exec_wf(),
            final(self).frame() == old(self).frame(),
            final(self).m() == end_of_tag(old(self).options, old(self).m()).0,
            opt_ev(r) + final(self).pending_evs() == end_of_tag(old(self).options, old(self).m()).1,
            r is None ==> final(self).pending_evs() == Seq::<EventM>::empty(),
    {
        let ghost s0 = old(self).m();
        self.tag_buffer = String::new();
        self.tag_len = 0;
        let tool_name: Option<String> = match &self.current_tool {
            Some(t) => Some(t.clone()),
            None => None,
        };
        match tool_name {
            None => {
                // A stray closing tag outside any tool is discarded.
                self.state = Mode::Normal;
                proof {
                    assert(opt_ev(None) + self.pending_evs() =~= end_of_tag(
                        old(self).options,
                        s0,
                    ).1);
                }
                None
            },
            Some(tool) => {
                if str_eq(n.as_str(), tool.as_str()) {
                    // The tool element closes.
                    let id = tool_id_string(self.current_id);
                    self.state = Mode::Normal;
                    self.current_tool = None;
                    self.current_param = None;
                    self.param_value_buffer = String::new();
                    self.value_len = 0;
                    let mut params = ToolArguments::new();
                    core::mem::swap(&mut params, &mut self.current_params);
                    if params.is_empty() {
                        let r = Some(ToolCallEvent::ToolEnd { id });
                        proof {
                            assert(opt_ev(r) + self.pending_evs() =~= close_events(s0));
                        }
                        r
                    } else {
                        self.pending = Some(ToolCallEvent::ToolEnd { id: id.clone() });
                        let r = Some(ToolCallEvent::Parameter { id, arguments: params });
                        proof {
                            assert(opt_ev(r) + self.pending_evs() =~= close_events(s0));
                        }
                        r
                    }
                } else {
                    let is_param_close = match &self.current_param {
                        Some(p) => str_eq(n.as_str(), p.as_str()),
                        None => false,
                    };
                    if is_param_close {
                        // The parameter element closes: fold the trimmed,
                        // decoded value into the mapping.
                        let mut raw = String::new();
                        core::mem::swap(&mut raw, &mut self.param_value_buffer);
                        self.value_len = 0;
                        let trimmed = trim_string(raw.as_str());
                        let val = if self.options.entity_decoding {
                            decode_entities_string(trimmed.as_str())
                        } else {
                            trimmed
                        };
                        self.current_params.insert(n, val);
                        self.current_param = None;
                        self.state = Mode::InToolTag;
                        proof {
                            assert(self.m() == end_of_tag(old(self).options, s0).0);
                            assert(opt_ev(None) + self.pending_evs() =~= end_of_tag(
                                old(self).options,
                                s0,
                            ).1);
                        }
                        None
                    } else {
                        // The closing name matches no open element.
                        let expected = match &self.current_param {
                            Some(p) => p.clone(),
                            None => tool.clone(),
                        };
                        let kind = ParseErrorKind::MismatchedEndTag { expected, found: n };
                        proof {
                            assert(kind@ == crate::events::ErrorKindM::MismatchedEndTag {
                                expected: expected_close(s0),
                                found: s0.tag.drop_first(),
                            });
                        }
                        self.discard_with_error(kind)
                    }
                }
            },
        }
    }

    /// Handles an opening tag named `t`.  The tag-name accumulator has
    /// already been cleared.
    fn process_opening_tag(&mut self, t: String) -> (r: Option<ToolCallEvent>)
        requires
            old(self).exec_wf(),
            old(self).pending is None,
            wf_state(old(self).m()),
            old(self).id_counter < u64::MAX,
            !(old(self).m().tag.len() > 0 && old(self).m().tag[0] == '/'),
            t@ == old(self).m().tag,
        ensures
            final(self).exec_wf(),
            final(self).frame() == old(self).frame(),
            final(self).m() == end_of_tag(old(self).options, old(self).m()).0,
            opt_ev(r) + final(self).pending_evs() == end_of_tag(old(self).options, old(self).m()).1,
            r is None ==> final(self).pending_evs() == Seq::<EventM>::empty(),
    {
        let ghost s0 = old(self).m();
        self.tag_buffer = String::new();
        self.tag_len = 0;
        if self.current_tool.is_none() {
            // A new tool call starts.
            let id = self.generate_id();
            self.current_id = self.id_counter;
            self.current_tool = Some(t.clone());
            self.current_param = None;
            self.param_value_buffer = String::new();
            self.value_len = 0;
            let mut fresh = ToolArguments::new();
            core::mem::swap(&mut fresh, &mut self.current_params);
            self.state = Mode::InToolTag;
            let r = Some(ToolCallEvent::ToolStart { id, name: t });
            proof {
                assert(opt_ev(r) + self.pending_evs() =~= end_of_tag(old(self).options, s0).1);
            }
            r
        } else {
            // A parameter element opens; its name is the tag just read.
            self.current_param = Some(t);
            self.param_value_buffer = String::new();
            self.value_len = 0;
            self.state = Mode::InParameterTag;
            proof {
                assert(opt_ev(None) + self.pending_evs() =~= end_of_tag(old(self).options, s0).1);
            }
            None
        }
    }

    /// Handles `>`: the accumulated tag name is interpreted.
    fn process_end_of_tag(&mut self) -> (r: Option<ToolCallEvent>)
        requires
            old(self).exec_wf(),
            old(self).pending is None,
            wf_state(old(self).m()),
            old(self).id_counter < u64::MAX,
        ensures
            final(self).exec_wf(),
            final(self).frame() == old(self).frame(),
            final(self).m() == end_of_tag(old(self).options, old(self).m()).0,
            opt_ev(r) + final(self).pending_evs() == end_of_tag(old(self).options, old(self).m()).1,
            r is None ==> final(self).pending_evs() == Seq::<EventM>::empty(),
    {
        let tv = chars_vec(self.tag_buffer.as_str());
        if tv.len() > 0 && tv[0] == '/' {
            let n = string_of_range(&tv, 1, tv.len());
            proof {
                assert(n@ =~= old(self).m().tag.drop_first());
            }
            self.process_closing_tag(n)
        } else {
            let t = string_of_range(&tv, 0, tv.len());
            proof {
                assert(t@ =~= old(self).m().tag);
            }
            self.process_opening_tag(t)
        }
    }

    /// Handles one character in `Normal` mode: prose passes through.
    fn process_normal_state(&mut self, c: char) -> (r: Option<ToolCallEvent>)
        requires
            old(self).exec_wf(),
            old(self).pending is None,
            old(self).m().mode is Normal,
        ensures
            final(self).exec_wf(),
            final(self).frame() == old(self).frame(),
            final(self).m() == step(old(self).options, old(self).m(), c).0,
            opt_ev(r) + final(self).pending_evs() == step(old(self).options, old(self).m(), c).1,
            r is None ==> final(self).pending_evs() == Seq::<EventM>::empty(),
    {
        if c == '<' {
            self.state = Mode::InTag;
            self.tag_buffer = String::new();
            self.tag_len = 0;
            proof {
                assert(opt_ev(None) + self.pending_evs() =~= step(
                    old(self).options,
                    old(self).m(),
                    c,
                ).1);
            }
            None
        } else {
            let mut text = String::new();
            text.push(c);
            let r = Some(ToolCallEvent::Text(text));
            proof {
                assert(text@ =~= seq![c]);
                assert(opt_ev(r) + self.pending_evs() =~= step(
                    old(self).options,
                    old(self).m(),
                    c,
                ).1);
            }
            r
        }
    }

    /// Handles one character in `InTag` mode: the tag name accumulates until
    /// `>`, within the configured cap.
    fn process_in_tag_state(&mut self, c: char) -> (r: Option<ToolCallEvent>)
        requires
            old(self).exec_wf(),
            old(self).pending is None,
            wf_state(old(self).m()),
            old(self).id_counter < u64::MAX,
            old(self).m().mode is InTag,
        ensures
            final(self).exec_wf(),
            final(self).frame() == old(self).frame(),
            final(self).m() == step(old(self).options, old(self).m(), c).0,
            opt_ev(r) + final(self).pending_evs() == step(old(self).options, old(self).m(), c).1,
            r is None ==> final(self).pending_evs() == Seq::<EventM>::empty(),
    {
        if c == '>' {
            self.process_end_of_tag()
        } else if self.tag_len >= self.options.max_tool_name_length {
            self.discard_with_error(ParseErrorKind::InvalidStructure)
        } else {
            self.tag_buffer.push(c);
            self.tag_len = self.tag_len + 1;
            proof {
                assert(opt_ev(None) + self.pending_evs() =~= step(
                    old(self).options,
                    old(self).m(),
                    c,
                ).1);
            }
            None
        }
    }

    /// Handles one character inside the tool element, between child
    /// elements: `<` opens a tag, everything else is discarded.
    fn process_in_tool_tag_state(&mut self, c: char) -> (r: Option<ToolCallEvent>)
        requires
            old(self).exec_wf(),
            old(self).pending is None,
            old(self).m().mode is InToolTag,
        ensures
            final(self).exec_wf(),
            final(self).frame() == old(self).frame(),
            final(self).m() == step(old(self).options, old(self).m(), c).0,
            opt_ev(r) + final(self).pending_evs() == step(old(self).options, old(self).m(), c).1,
            r is None ==> final(self).pending_evs() == Seq::<EventM>::empty(),
    {
        if c == '<' {
            self.state = Mode::InTag;
            self.tag_buffer = String::new();
            self.tag_len = 0;
        }
        proof {
            assert(opt_ev(None) + self.pending_evs() =~= step(
                old(self).options,
                old(self).m(),
                c,
            ).1);
        }
        None
    }

    /// Handles one character inside a parameter element: the value
    /// accumulates verbatim until `<`, within the configured cap.
    fn process_in_parameter_tag_state(&mut self, c: char) -> (r: Option<ToolCallEvent>)
        requires
            old(self).exec_wf(),
            old(self).pending is None,
            old(self).m().mode is InParameterTag,
        ensures
            final(self).exec_wf(),
            final(self).frame() == old(self).frame(),
            final(self).m() == step(old(self).options, old(self).m(), c).0,
            opt_ev(r) + final(self).pending_evs() == step(old(self).options, old(self).m(), c).1,
            r is None ==> final(self).pending_evs() == Seq::<EventM>::empty(),
    {
        if c == '<' {
            self.state = Mode::InTag;
            self.tag_buffer = String::new();
            self.tag_len = 0;
            proof {
                assert(opt_ev(None) + self.pending_evs() =~= step(
                    old(self).options,
                    old(self).m(),
                    c,
                ).1);
            }
            return None;
        }
        let hit = match self.options.max_parameter_value_length {
            Some(mx) => self.value_len >= mx,
            None => false,
        };
        proof {
            assert(hit == value_cap_hit(old(self).options, old(self).m()));
        }
        if hit {
            self.discard_with_error(ParseErrorKind::ValueTooLarge)
        } else {
            self.param_value_buffer.push(c);
            if self.options.max_parameter_value_length.is_some() {
                self.value_len = self.value_len + 1;
            }
            proof {
                assert(opt_ev(None) + self.pending_evs() =~= step(
                    old(self).options,
                    old(self).m(),
                    c,
                ).1);
            }
            None
        }
    }

    /// Processes one character, dispatching on the current mode.
    fn process_char(&mut self, c: char) -> (r: Option<ToolCallEvent>)
        requires
            old(self).exec_wf(),
            old(self).pending is None,
            wf_state(old(self).m()),
            old(self).id_counter < u64::MAX,
        ensures
            final(self).exec_wf(),
            final(self).frame() == old(self).frame(),
            final(self).m() == step(old(self).options, old(self).m(), c).0,
            opt_ev(r) + final(self).pending_evs() == step(old(self).options, old(self).m(), c).1,
            r is None ==> final(self).pending_evs() == Seq::<EventM>::empty(),
    {
        match self.state {
            Mode::Normal => self.process_normal_state(c),
            Mode::InTag => self.process_in_tag_state(c),
            Mode::InToolTag => self.process_in_tool_tag_state(c),
            Mode::InParameterTag => self.process_in_parameter_tag_state(c),
        }
    }

    /// Pulls the next event.  `None` means that every character fed so far
    /// has been consumed without completing another event: more input (or
    /// [`XmlStreamParser::finish`]) is needed.
    pub fn next_event(&mut self) -> (r: Option<ToolCallEvent>)
        requires
            old(self).inv(),
        ensures
            final(self).inv(),
            final(self).opts() == old(self).opts(),
            final(self).consumed() + final(self).buffered() == old(self).consumed() + old(
                self,
            ).buffered(),
            old(self).consumed().len() <= final(self).consumed().len(),
            match r {
                Some(e) => {
                    &&& final(self).emitted() == old(self).emitted().push(e@)
                    &&& 2 * final(self).buffered().len() + final(self).pending_evs().len() < 2
                        * old(self).buffered().len() + old(self).pending_evs().len()
                },
                None => {
                    &&& final(self).emitted() == old(self).emitted()
                    &&& final(self).buffered().len() == 0
                    &&& final(self).pending_evs().len() == 0
                },
            },
    {
        let pending = self.pending.take();
        if let Some(e) = pending {
            proof {
                self.emitted@ = self.emitted@.push(e@);
                assert(self.emitted@ + self.pending_evs() =~= old(self).emitted@ + old(
                    self,
                ).pending_evs());
            }
            return Some(e);
        }
        while self.pos < self.buf.len()
            invariant
                self.inv(),
                self.pending is None,
                self.options == old(self).options,
                self.emitted@ == old(self).emitted@,
                self.consumed@ + self.buffered() == old(self).consumed() + old(self).buffered(),
                old(self).consumed().len() <= self.consumed@.len(),
            decreases self.buf@.len() - self.pos,
        {
            let c = self.buf[self.pos];
            let ghost cons0 = self.consumed@;
            let ghost buff0 = self.buffered();
            self.pos = self.pos + 1;
            proof {
                assert(buff0 =~= seq![c] + self.buffered());
                assert(cons0.push(c) + self.buffered() =~= cons0 + buff0);
                lemma_run_wf(self.options, init_state(), cons0);
                self.consumed@ = self.consumed@.push(c);
                lemma_run_snoc(self.options, init_state(), cons0, c);
            }
            let r = self.process_char(c);
            proof {
                assert(run(self.options, init_state(), self.consumed@).1 =~= (old(
                    self,
                ).emitted@ + opt_ev(r)) + self.pending_evs());
            }
            if let Some(e) = r {
                proof {
                    self.emitted@ = self.emitted@.push(e@);
                    assert(self.emitted@ =~= old(self).emitted@ + opt_ev(r));
                    assert(self.emitted@ + self.pending_evs() =~= run(
                        self.options,
                        init_state(),
                        self.consumed@,
                    ).1);
                    assert(self.emitted@ =~= old(self).emitted@.push(e@));
                }
                return Some(e);
            }
            proof {
                assert(self.emitted@ + self.pending_evs() =~= run(
                    self.options,
                    init_state(),
                    self.consumed@,
                ).1);
            }
        }
        proof {
            assert(self.buffered().len() == 0);
        }
        None
    }

    /// Declares end of input and returns every remaining event: what the
    /// buffered characters still produce, then the end-of-input synthesis
    /// (the parameter mapping and tool end of an open tool, with an error if
    /// input ended inside a parameter value).
    pub fn finish(self) -> (evs: Vec<ToolCallEvent>)
        requires
            self.inv(),
        ensures
            self.emitted() + views_of(evs@) == full_events(
                self.opts(),
                self.consumed() + self.buffered(),
            ),
    {
        let ghost all = self.consumed@ + self.buffered();
        let ghost emitted0 = self.emitted@;
        let ghost opts0 = self.options;
        let mut me = self;
        let mut evs: Vec<ToolCallEvent> = Vec::new();
        let mut done = false;
        while !done
            invariant
                me.inv(),
                me.options == opts0,
                me.consumed@ + me.buffered() == all,
                me.emitted@ == emitted0 + views_of(evs@),
                done ==> me.buffered().len() == 0 && me.pending_evs().len() == 0,
            decreases 2 * me.buffered().len() + me.pending_evs().len() + (if done {
                0int
            } else {
                1int
            }),
        {
            let r = me.next_event();
            match r {
                Some(e) => {
                    let ghost evs0 = evs@;
                    evs.push(e);
                    proof {
                        assert(views_of(evs@) =~= views_of(evs0).push(e@));
                        assert(emitted0 + views_of(evs@) =~= (emitted0 + views_of(evs0)).push(
                            e@,
                        ));
                    }
                },
                None => {
                    done = true;
                },
            }
        }
        proof {
            assert(me.consumed@ =~= all);
            assert(me.emitted@ =~= run(opts0, init_state(), all).1);
            lemma_run_wf(opts0, init_state(), all);
        }
        // End-of-input synthesis for an open tool.
        let ghost mfin = me.m();
        let ghost evs_run = evs@;
        if me.current_tool.is_some() {
            let id = tool_id_string(me.current_id);
            let mut params = ToolArguments::new();
            core::mem::swap(&mut params, &mut me.current_params);
            let had_params = !params.is_empty();
            if had_params {
                evs.push(ToolCallEvent::Parameter { id: id.clone(), arguments: params });
            }
            let in_value = match me.state {
                Mode::InParameterTag => true,
                _ => false,
            };
            if in_value {
                evs.push(ToolCallEvent::Error(ParseErrorKind::UnexpectedEof));
            }
            evs.push(ToolCallEvent::ToolEnd { id });
        }
        proof {
            assert(views_of(evs@) =~= views_of(evs_run) + finish_events(mfin));
            assert(emitted0 + views_of(evs@) =~= (emitted0 + views_of(evs_run))
                + finish_events(mfin));
        }
        evs
    }
}

/// Runs the streaming machine over a complete input with the default
/// configuration and collects every event.
pub fn parse_events(input: &str) -> (evs: Vec<ToolCallEvent>)
    ensures
        views_of(evs@) == full_events(default_options(), input@),
{
    parse_events_with(ParserOptions::default(), input)
}

/// Runs the streaming machine over a complete input and collects every event.
pub fn parse_events_with(options: ParserOptions, input: &str) -> (evs: Vec<ToolCallEvent>)
    ensures
        views_of(evs@) == full_events(options, input@),
{
    let mut p = XmlStreamParser::with_options(options);
    let n: usize = vstd::string::StrSliceExecFns::unicode_len(input);
    proof {
        assert(input@.len() == n as nat);
        assert(input@.len() <= u64::MAX);
    }
    p.feed(input);
    let evs = p.finish();
    proof {
        assert(Seq::<char>::empty() + input@ =~= input@);
        assert(Seq::<EventM>::empty() + views_of(evs@) =~= views_of(evs@));
    }
    evs
}

} // verus!
