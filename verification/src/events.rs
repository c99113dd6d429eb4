//! The canonical stream events and the per-request decoder state.

use crate::json::{Json, JsonValue};
use crate::smap::{StrMap, StrSet};
use vstd::prelude::*;

verus! {

/// One tool call under assembly: its outward id, its name, and its argument
/// text, grown by strict append until finalized.
#[derive(Debug)]
pub struct ToolCallAccum {
    pub tool_call_id: String,
    pub tool_name: String,
    pub arguments: String,
}

/// The mathematical shape of a tool call under assembly.
pub struct AccumModel {
    pub tool_call_id: Seq<char>,
    pub tool_name: Seq<char>,
    pub arguments: Seq<char>,
}

impl DeepView for ToolCallAccum {
    type V = AccumModel;

    open spec fn deep_view(&self) -> AccumModel {
        AccumModel {
            tool_call_id: self.tool_call_id@,
            tool_name: self.tool_name@,
            arguments: self.arguments@,
        }
    }
}

/// A canonical stream event: the one shape that crosses the engine's
/// boundary, whatever upstream wire protocol produced it.
#[derive(Debug)]
pub enum StreamEvent {
    TextStart,
    TextDelta { text: String },
    ReasoningStart { id: String },
    ReasoningDelta { id: String, text: String },
    ReasoningEnd { id: String },
    ToolCall { tool_call_id: String, tool_name: String, input: JsonValue },
    Usage {
        input_tokens: i64,
        output_tokens: i64,
        total_tokens: Option<i64>,
        cached_input_tokens: Option<i64>,
        cache_creation_input_tokens: Option<i64>,
    },
    Done { finish_reason: Option<String> },
    Error { message: String },
}

/// The mathematical shape of a canonical stream event.
pub enum EventModel {
    TextStart,
    TextDelta { text: Seq<char> },
    ReasoningStart { id: Seq<char> },
    ReasoningDelta { id: Seq<char>, text: Seq<char> },
    ReasoningEnd { id: Seq<char> },
    ToolCall { tool_call_id: Seq<char>, tool_name: Seq<char>, input: Json },
    Usage {
        input_tokens: int,
        output_tokens: int,
        total_tokens: Option<int>,
        cached_input_tokens: Option<int>,
        cache_creation_input_tokens: Option<int>,
    },
    Done { finish_reason: Option<Seq<char>> },
    Error { message: Seq<char> },
}

/// The view of an optional string.
pub open spec fn opt_view(o: Option<String>) -> Option<Seq<char>> {
    match o {
        Some(s) => Some(s@),
        None => None,
    }
}

/// The view of an optional 64-bit count.
pub open spec fn opt_int(o: Option<i64>) -> Option<int> {
    match o {
        Some(v) => Some(v as int),
        None => None,
    }
}

impl DeepView for StreamEvent {
    type V = EventModel;

    open spec fn deep_view(&self) -> EventModel {
        match self {
            StreamEvent::TextStart => EventModel::TextStart,
            StreamEvent::TextDelta { text } => EventModel::TextDelta { text: text@ },
            StreamEvent::ReasoningStart { id } => EventModel::ReasoningStart { id: id@ },
            StreamEvent::ReasoningDelta { id, text } => EventModel::ReasoningDelta {
                id: id@,
                text: text@,
            },
            StreamEvent::ReasoningEnd { id } => EventModel::ReasoningEnd { id: id@ },
            StreamEvent::ToolCall { tool_call_id, tool_name, input } => EventModel::ToolCall {
                tool_call_id: tool_call_id@,
                tool_name: tool_name@,
                input: input.model(),
            },
            StreamEvent::Usage {
                input_tokens,
                output_tokens,
                total_tokens,
                cached_input_tokens,
                cache_creation_input_tokens,
            } => EventModel::Usage {
                input_tokens: *input_tokens as int,
                output_tokens: *output_tokens as int,
                total_tokens: opt_int(*total_tokens),
                cached_input_tokens: opt_int(*cached_input_tokens),
                cache_creation_input_tokens: opt_int(*cache_creation_input_tokens),
            },
            StreamEvent::Done { finish_reason } => EventModel::Done {
                finish_reason: opt_view(*finish_reason),
            },
            StreamEvent::Error { message } => EventModel::Error { message: message@ },
        }
    }
}

/// The per-request accumulator that the protocol decoder owns: tool-call
/// buffers, the ordered id list, the dedup set, the pending event queue, and
/// the text and reasoning cursors.
pub struct ProtocolStreamState {
    pub tool_calls: StrMap<ToolCallAccum>,
    pub tool_call_order: Vec<String>,
    pub emitted_tool_calls: StrSet,
    pub pending_events: Vec<StreamEvent>,
    pub text_started: bool,
    pub current_thinking_id: Option<String>,
    pub finish_reason: Option<String>,
}

/// The mathematical shape of the decoder state.
pub struct StateModel {
    pub tool_calls: Map<Seq<char>, AccumModel>,
    pub tool_call_order: Seq<Seq<char>>,
    pub emitted: Set<Seq<char>>,
    pub pending: Seq<EventModel>,
    pub text_started: bool,
    pub thinking: Option<Seq<char>>,
    pub finish: Option<Seq<char>>,
}

impl ProtocolStreamState {
    /// The containers hold no key twice.
    pub open spec fn wf(self) -> bool {
        self.tool_calls.wf()
    }

    /// The state a value stands for.
    pub open spec fn model(self) -> StateModel {
        StateModel {
            tool_calls: self.tool_calls@,
            tool_call_order: self.tool_call_order.deep_view(),
            emitted: self.emitted_tool_calls@,
            pending: self.pending_events.deep_view(),
            text_started: self.text_started,
            thinking: opt_view(self.current_thinking_id),
            finish: opt_view(self.finish_reason),
        }
    }
}

/// The state every request starts from: empty buffers and unset cursors.
pub open spec fn init_state() -> StateModel {
    StateModel {
        tool_calls: Map::empty(),
        tool_call_order: Seq::empty(),
        emitted: Set::empty(),
        pending: Seq::empty(),
        text_started: false,
        thinking: None,
        finish: None,
    }
}

impl Default for ProtocolStreamState {
    /// A fresh state with nothing buffered.
    fn default() -> (r: Self)
        ensures
            r.wf(),
            r.model() == init_state(),
    {
        let r = ProtocolStreamState {
            tool_calls: StrMap::new(),
            tool_call_order: Vec::new(),
            emitted_tool_calls: StrSet::new(),
            pending_events: Vec::new(),
            text_started: false,
            current_thinking_id: None,
            finish_reason: None,
        };
        proof {
            assert(r.tool_call_order.deep_view() =~= Seq::<Seq<char>>::empty());
            assert(r.pending_events.deep_view() =~= Seq::<EventModel>::empty());
        }
        r
    }
}

} // verus!
