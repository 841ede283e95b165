//! Extraction of structured tool-invocation records from free-form assistant
//! text that embeds a single XML-like element: the element's tag name is the
//! tool name and its direct children are parameter elements whose text content
//! is the parameter value.
//!
//! The heart of the crate is a chunk-agnostic streaming state machine
//! ([`machine::XmlStreamParser`]) that interleaves prose passthrough with
//! tool-call extraction and emits events as soon as they are unambiguously
//! determined.  A batch extractor ([`batch::parse_tool_call`]) drives the same
//! machine over a complete input and collapses the event stream into a single
//! record.  [`stream::ToolCallStream`] feeds the machine from raw byte chunks,
//! decoding UTF-8 incrementally.
//!
//! Every emitted event sequence is pinned down by the specification-level
//! machine in [`model`], and the crate's behavioural laws (event balance,
//! chunk invariance, prose passthrough, round trips) are proved in [`laws`]
//! and [`batch`].

pub mod args;
pub mod batch;
pub mod events;
pub mod laws;
pub mod machine;
pub mod model;
pub mod stream;
pub mod text;
