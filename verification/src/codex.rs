//! The OAuth/Codex protocol decoder: consumes one server-sent-event frame at
//! a time, mutates the per-request state, and queues canonical events.

use crate::events::{AccumModel, EventModel, ProtocolStreamState, StateModel, StreamEvent, ToolCallAccum};
use vstd::string::StringExecFns;
use crate::json::{json_of, parse_json, Json, JsonValue};
use crate::smap::StrMap;
use crate::strutil::{str_eq, trim_seq};
use vstd::prelude::*;

verus! {

/// The tool-call input that an argument text yields. Empty text yields the
/// empty object only under force; text that fails to parse as JSON is
/// string-wrapped only under force; otherwise there is no emission yet.
pub open spec fn tool_input_of(args: Seq<char>, force: bool) -> Option<Json> {
    if trim_seq(args).len() == 0 {
        if force {
            Some(Json::Obj { fields: Seq::empty() })
        } else {
            None
        }
    } else {
        match json_of(args) {
            Some(m) => Some(m),
            None => if force {
                Some(Json::Str { s: args })
            } else {
                None
            },
        }
    }
}

/// Turn accumulated argument text into a tool-call input, per
/// [`tool_input_of`].
pub fn build_openai_oauth_tool_input(arguments: &str, force: bool) -> (r: Option<JsonValue>)
    ensures
        (r is Some) == (tool_input_of(arguments@, force) is Some),
        match (r, tool_input_of(arguments@, force)) {
            (Some(v), Some(m)) => v.model() == m,
            _ => true,
        },
{
    let chars = crate::strutil::str_chars(arguments);
    let trimmed = crate::strutil::trim_chars(&chars);
    if trimmed.len() == 0 {
        if force {
            Some(JsonValue::Obj(Vec::new()))
        } else {
            None
        }
    } else {
        match parse_json(arguments) {
            Some(v) => Some(v),
            None => {
                if force {
                    let mut text = String::new();
                    text.append(arguments);
                    Some(JsonValue::Str(text))
                } else {
                    None
                }
            },
        }
    }
}

/// The ordering list grown with empty placeholders to length `n`.
pub open spec fn grown_order(order: Seq<Seq<char>>, n: int) -> Seq<Seq<char>> {
    order + Seq::new((n - order.len()) as nat, |j: int| Seq::<char>::empty())
}

/// Where an id lands in the ordering list: an explicit slot wins if that
/// slot is empty or already holds the id; without a slot the id is appended
/// unless already present.
pub open spec fn order_updated(order: Seq<Seq<char>>, id: Seq<char>, idx: Option<int>) -> Seq<
    Seq<char>,
> {
    match idx {
        Some(i) => {
            let g = if order.len() <= i {
                grown_order(order, i + 1)
            } else {
                order
            };
            if g[i].len() == 0 || g[i] == id {
                g.update(i, id)
            } else {
                g
            }
        },
        None => if order.contains(id) {
            order
        } else {
            order.push(id)
        },
    }
}

/// Apply [`order_updated`] to the ordering list.
pub fn update_order(order: &mut Vec<String>, id: &String, idx: Option<usize>)
    ensures
        final(order).deep_view() == order_updated(
            old(order).deep_view(),
            id@,
            match idx {
                Some(i) => Some(i as int),
                None => None,
            },
        ),
{
    let ghost old_dv = order.deep_view();
    match idx {
        Some(i) => {
            if order.len() <= i {
                while order.len() <= i
                    invariant
                        order.deep_view().len() >= old_dv.len(),
                        order.deep_view().len() <= i + 1,
                        order.deep_view() =~~= grown_order(old_dv, order.deep_view().len() as int),
                    decreases i + 1 - order.len(),
                {
                    let ghost dv = order.deep_view();
                    order.push(String::new());
                    proof {
                        assert(order.deep_view() =~~= dv + seq![Seq::<char>::empty()]);
                        assert(order.deep_view() =~~= grown_order(
                            old_dv,
                            order.deep_view().len() as int,
                        ));
                    }
                }
            }
            let ghost g = if old_dv.len() <= i {
                grown_order(old_dv, i + 1)
            } else {
                old_dv
            };
            proof {
                if old_dv.len() <= i {
                    assert(order.deep_view() =~~= g);
                } else {
                    assert(order.deep_view() =~~= old_dv);
                }
            }
            let slot_ok = order[i].as_str().is_empty() || str_eq(order[i].as_str(), id.as_str());
            if slot_ok {
                let ghost dv = order.deep_view();
                order.remove(i);
                order.insert(i, id.clone());
                proof {
                    assert(order.deep_view() =~~= dv.update(i as int, id@));
                }
            }
        },
        None => {
            let n = order.len();
            let mut j: usize = 0;
            let mut found = false;
            while j < n
                invariant
                    n == order@.len(),
                    j <= n,
                    order.deep_view() == old_dv,
                    found ==> old_dv.contains(id@),
                    !found ==> forall|t: int| 0 <= t < j ==> old_dv[t] != id@,
                decreases n - j,
            {
                if str_eq(order[j].as_str(), id.as_str()) {
                    proof {
                        assert(order@[j as int]@ == id@);
                        assert(order.deep_view()[j as int] == id@);
                    }
                    found = true;
                    j = n;
                } else {
                    j = j + 1;
                }
            }
            if !found {
                proof {
                    if old_dv.contains(id@) {
                        let t = choose|t: int| 0 <= t < old_dv.len() && old_dv[t] == id@;
                        assert(false);
                    }
                }
                let ghost dv = order.deep_view();
                order.push(id.clone());
                proof {
                    assert(order.deep_view() =~~= dv.push(id@));
                }
            }
        },
    }
}

/// What one pass over the ordering list emits: the queued tool-call events,
/// the grown dedup set, and the item ids emitted on this pass, in order.
pub struct SweepResult {
    pub events: Seq<EventModel>,
    pub emitted: Set<Seq<char>>,
    pub log: Seq<Seq<char>>,
}

/// Walk the ordering list, emitting every not-yet-emitted call whose name
/// is known and whose arguments yield an input under the given force mode.
/// Each emission enters the dedup set at once.
pub open spec fn sweep_from(
    tc: Map<Seq<char>, AccumModel>,
    order: Seq<Seq<char>>,
    emitted: Set<Seq<char>>,
    force: bool,
) -> SweepResult
    decreases order.len(),
{
    if order.len() == 0 {
        SweepResult { events: Seq::empty(), emitted, log: Seq::empty() }
    } else {
        let k = order[0];
        let step = if !emitted.contains(k) && tc.contains_key(k) && tc[k].tool_name.len() > 0 {
            match tool_input_of(tc[k].arguments, force) {
                Some(input) => SweepResult {
                    events: seq![
                        EventModel::ToolCall {
                            tool_call_id: tc[k].tool_call_id,
                            tool_name: tc[k].tool_name,
                            input,
                        },
                    ],
                    emitted: emitted.insert(k),
                    log: seq![k],
                },
                None => SweepResult { events: Seq::empty(), emitted, log: Seq::empty() },
            }
        } else {
            SweepResult { events: Seq::empty(), emitted, log: Seq::empty() }
        };
        let rest = sweep_from(tc, order.drop_first(), step.emitted, force);
        SweepResult {
            events: step.events + rest.events,
            emitted: rest.emitted,
            log: step.log + rest.log,
        }
    }
}

/// The state after a sweep: the dedup set grown, the emissions queued.
pub open spec fn state_after_sweep(st: StateModel, force: bool) -> StateModel {
    let sw = sweep_from(st.tool_calls, st.tool_call_order, st.emitted, force);
    StateModel { emitted: sw.emitted, pending: st.pending + sw.events, ..st }
}

/// Queue every ordered, not-yet-emitted tool call that is ready under the
/// given force mode, per [`sweep_from`].
pub fn emit_tool_calls(state: &mut ProtocolStreamState, force: bool)
    requires
        old(state).wf(),
    ensures
        final(state).wf(),
        final(state).model() == state_after_sweep(old(state).model(), force),
{
    let ghost tcm = state.tool_calls@;
    let ghost om = state.tool_call_order.deep_view();
    let ghost full = sweep_from(tcm, om, state.emitted_tool_calls@, force);
    let ghost old_pending = state.pending_events.deep_view();
    let mut i: usize = 0;
    let n = state.tool_call_order.len();
    let ghost mut done_events: Seq<EventModel> = Seq::empty();
    proof {
        assert(om.skip(0) =~= om);
    }
    while i < n
        invariant
            old(state).wf(),
            state.wf(),
            i <= n,
            n == state.tool_call_order@.len(),
            state.tool_calls@ == tcm,
            tcm == old(state).model().tool_calls,
            state.tool_call_order.deep_view() == om,
            om == old(state).model().tool_call_order,
            full == sweep_from(tcm, om, old(state).model().emitted, force),
            old_pending == old(state).model().pending,
            state.text_started == old(state).text_started,
            state.current_thinking_id == old(state).current_thinking_id,
            state.finish_reason == old(state).finish_reason,
            state.pending_events.deep_view() == old_pending + done_events,
            full.events == done_events + sweep_from(
                tcm,
                om.skip(i as int),
                state.emitted_tool_calls@,
                force,
            ).events,
            full.emitted == sweep_from(
                tcm,
                om.skip(i as int),
                state.emitted_tool_calls@,
                force,
            ).emitted,
        decreases n - i,
    {
        let ghost em_cur = state.emitted_tool_calls@;
        let ghost rest = om.skip(i as int);
        proof {
            assert(rest[0] == om[i as int]);
            assert(rest.drop_first() =~= om.skip(i + 1));
        }
        let key = state.tool_call_order[i].clone();
        proof {
            assert(key@ == om[i as int]);
        }
        let mut to_emit: Option<(String, String, JsonValue)> = None;
        if !state.emitted_tool_calls.contains(key.as_str()) {
            match state.tool_calls.get(key.as_str()) {
                Some(acc) => {
                    if !acc.tool_name.as_str().is_empty() {
                        match build_openai_oauth_tool_input(acc.arguments.as_str(), force) {
                            Some(input) => {
                                to_emit = Some(
                                    (acc.tool_call_id.clone(), acc.tool_name.clone(), input),
                                );
                            },
                            None => {},
                        }
                    }
                },
                None => {},
            }
        }
        match to_emit {
            Some(parts) => {
                let ghost pv = state.pending_events.deep_view();
                let ev = StreamEvent::ToolCall {
                    tool_call_id: parts.0,
                    tool_name: parts.1,
                    input: parts.2,
                };
                let ghost evm = ev.deep_view();
                state.pending_events.push(ev);
                state.emitted_tool_calls.insert(key);
                proof {
                    assert(state.pending_events.deep_view() =~~= pv + seq![evm]);
                    assert(evm == (EventModel::ToolCall {
                        tool_call_id: tcm[om[i as int]].tool_call_id,
                        tool_name: tcm[om[i as int]].tool_name,
                        input: tool_input_of(tcm[om[i as int]].arguments, force)->0,
                    }));
                    done_events = done_events + seq![evm];
                    assert(sweep_from(tcm, rest, em_cur, force).events == seq![evm] + sweep_from(
                        tcm,
                        om.skip(i + 1),
                        state.emitted_tool_calls@,
                        force,
                    ).events);
                    assert(full.events == done_events + sweep_from(
                        tcm,
                        om.skip(i + 1),
                        state.emitted_tool_calls@,
                        force,
                    ).events);
                }
            },
            None => {
                proof {
                    assert(sweep_from(tcm, rest, em_cur, force).events == sweep_from(
                        tcm,
                        om.skip(i + 1),
                        state.emitted_tool_calls@,
                        force,
                    ).events);
                    assert(full.events == done_events + sweep_from(
                        tcm,
                        om.skip(i + 1),
                        state.emitted_tool_calls@,
                        force,
                    ).events);
                }
            },
        }
        i = i + 1;
    }
    proof {
        assert(om.skip(n as int) =~= Seq::<Seq<char>>::empty());
        assert(sweep_from(tcm, om.skip(n as int), state.emitted_tool_calls@, force).events
            =~= Seq::<EventModel>::empty());
        assert(full.events =~= done_events);
        assert(full.emitted == state.emitted_tool_calls@);
        assert(state.pending_events.deep_view() =~= old_pending + full.events);
        assert(final(state).model() == state_after_sweep(old(state).model(), force));
    }
}

/// The tool-call map after an `output_item.added` frame: register or merge
/// the accumulator under the item id, the outward id defaulting to the item
/// id, name and id never overwritten by empty values.
pub open spec fn tool_calls_after_added(
    tc: Map<Seq<char>, AccumModel>,
    id: Seq<char>,
    call_id: Seq<char>,
    name: Seq<char>,
) -> Map<Seq<char>, AccumModel> {
    let base = if tc.contains_key(id) {
        tc[id]
    } else {
        AccumModel {
            tool_call_id: if call_id.len() == 0 {
                id
            } else {
                call_id
            },
            tool_name: name,
            arguments: Seq::empty(),
        }
    };
    let with_id = if call_id.len() > 0 {
        AccumModel { tool_call_id: call_id, ..base }
    } else {
        base
    };
    let with_name = if name.len() > 0 {
        AccumModel { tool_name: name, ..with_id }
    } else {
        with_id
    };
    tc.insert(id, with_name)
}

/// Apply [`tool_calls_after_added`] to the tool-call map.
pub fn merge_added(
    tool_calls: &mut StrMap<ToolCallAccum>,
    id: &String,
    call_id: &String,
    name: &String,
)
    requires
        old(tool_calls).wf(),
    ensures
        final(tool_calls).wf(),
        final(tool_calls)@ == tool_calls_after_added(old(tool_calls)@, id@, call_id@, name@),
        final(tool_calls).key_order() == if old(tool_calls)@.contains_key(id@) {
            old(tool_calls).key_order()
        } else {
            old(tool_calls).key_order().push(id@)
        },
{
    let accum = match tool_calls.get(id.as_str()) {
        Some(acc) => {
            let new_id = if call_id.as_str().is_empty() {
                acc.tool_call_id.clone()
            } else {
                call_id.clone()
            };
            let new_name = if name.as_str().is_empty() {
                acc.tool_name.clone()
            } else {
                name.clone()
            };
            ToolCallAccum { tool_call_id: new_id, tool_name: new_name, arguments: acc.arguments.clone() }
        },
        None => {
            let new_id = if call_id.as_str().is_empty() {
                id.clone()
            } else {
                call_id.clone()
            };
            ToolCallAccum { tool_call_id: new_id, tool_name: name.clone(), arguments: String::new() }
        },
    };
    tool_calls.insert(id.clone(), accum);
}

/// The string a payload field holds, the empty string when absent or not a
/// string.
pub open spec fn payload_str(m: Json, key: Seq<char>) -> Seq<char> {
    match crate::json::json_get(m, key) {
        Some(f) => match f {
            Json::Str { s } => s,
            _ => Seq::empty(),
        },
        _ => Seq::empty(),
    }
}

/// The explicit ordering slot a payload declares: its `index` field, where
/// that is an integer a machine word can index with.
pub open spec fn payload_index(m: Json) -> Option<int> {
    match crate::json::json_get(m, "index"@) {
        Some(f) => match f {
            Json::Int { i } => if 0 <= i <= usize::MAX as int {
                Some(i)
            } else {
                None
            },
            _ => None,
        },
        _ => None,
    }
}

/// Read a payload field as an owned string, the empty string when absent or
/// not a string.
fn get_string_field(payload: &JsonValue, key: &str) -> (r: String)
    ensures
        r@ == payload_str(payload.model(), key@),
{
    match payload.get(key) {
        Some(v) => match v.as_str() {
            Some(s) => s.to_owned(),
            None => String::new(),
        },
        None => String::new(),
    }
}

/// Read a payload's `index` field per [`payload_index`].
fn get_index_field(payload: &JsonValue) -> (r: Option<usize>)
    ensures
        match r {
            Some(i) => payload_index(payload.model()) == Some(i as int),
            None => payload_index(payload.model()) is None,
        },
{
    match payload.get("index") {
        Some(v) => match v.as_u64() {
            Some(u) => {
                if u <= usize::MAX as u64 {
                    Some(u as usize)
                } else {
                    None
                }
            },
            None => None,
        },
        None => None,
    }
}

/// The state after a `function_call_arguments.delta` frame: the delta text
/// appended to the item's accumulator, the ordering updated. A frame with
/// no item id changes nothing.
pub open spec fn state_after_fn_delta(st: StateModel, m: Json) -> StateModel {
    let id = payload_str(m, "item_id"@);
    if id.len() == 0 {
        st
    } else {
        let delta = payload_str(m, "delta"@);
        let base = if st.tool_calls.contains_key(id) {
            st.tool_calls[id]
        } else {
            AccumModel { tool_call_id: id, tool_name: Seq::empty(), arguments: Seq::empty() }
        };
        let acc = AccumModel { arguments: base.arguments + delta, ..base };
        StateModel {
            tool_calls: st.tool_calls.insert(id, acc),
            tool_call_order: order_updated(st.tool_call_order, id, payload_index(m)),
            ..st
        }
    }
}

/// Apply a `function_call_arguments.delta` frame, per
/// [`state_after_fn_delta`].
pub fn parse_openai_oauth_function_call_delta(
    payload: &JsonValue,
    state: &mut ProtocolStreamState,
)
    requires
        old(state).wf(),
    ensures
        final(state).wf(),
        final(state).model() == state_after_fn_delta(old(state).model(), payload.model()),
{
    let item_id = get_string_field(payload, "item_id");
    if item_id.as_str().is_empty() {
        return ;
    }
    let delta = get_string_field(payload, "delta");
    let accum = match state.tool_calls.get(item_id.as_str()) {
        Some(acc) => {
            let mut args = acc.arguments.clone();
            args.append(delta.as_str());
            ToolCallAccum {
                tool_call_id: acc.tool_call_id.clone(),
                tool_name: acc.tool_name.clone(),
                arguments: args,
            }
        },
        None => {
            let mut args = String::new();
            args.append(delta.as_str());
            ToolCallAccum {
                tool_call_id: item_id.clone(),
                tool_name: String::new(),
                arguments: args,
            }
        },
    };
    state.tool_calls.insert(item_id.clone(), accum);
    let idx = get_index_field(payload);
    update_order(&mut state.tool_call_order, &item_id, idx);
}

/// What a `function_call_arguments.done` frame yields besides the new
/// state: the finalized event, if any, and the item id it was for.
pub struct DoneResult {
    pub st: StateModel,
    pub out: Option<EventModel>,
    pub key: Option<Seq<char>>,
}

/// The state and emission after a `function_call_arguments.done` frame: an
/// already-emitted or id-less frame does nothing; otherwise name and
/// arguments are overwritten by non-empty values, and a call whose name is
/// known is ordered, marked emitted, and returned with forced input.
pub open spec fn state_after_fn_done(st: StateModel, m: Json) -> DoneResult {
    let id = payload_str(m, "item_id"@);
    if id.len() == 0 || st.emitted.contains(id) {
        DoneResult { st, out: None, key: None }
    } else {
        let name = payload_str(m, "name"@);
        let args = payload_str(m, "arguments"@);
        let base = if st.tool_calls.contains_key(id) {
            st.tool_calls[id]
        } else {
            AccumModel { tool_call_id: id, tool_name: name, arguments: Seq::empty() }
        };
        let with_name = if name.len() > 0 {
            AccumModel { tool_name: name, ..base }
        } else {
            base
        };
        let acc = if args.len() > 0 {
            AccumModel { arguments: args, ..with_name }
        } else {
            with_name
        };
        let st1 = StateModel { tool_calls: st.tool_calls.insert(id, acc), ..st };
        if trim_seq(acc.tool_name).len() == 0 {
            DoneResult { st: st1, out: None, key: None }
        } else {
            let st2 = StateModel {
                tool_call_order: order_updated(st1.tool_call_order, id, payload_index(m)),
                emitted: st1.emitted.insert(id),
                ..st1
            };
            let input = tool_input_of(acc.arguments, true);
            DoneResult {
                st: st2,
                out: Some(
                    EventModel::ToolCall {
                        tool_call_id: acc.tool_call_id,
                        tool_name: acc.tool_name,
                        input: match input {
                            Some(v) => v,
                            None => Json::Obj { fields: Seq::empty() },
                        },
                    },
                ),
                key: Some(id),
            }
        }
    }
}

/// Apply a `function_call_arguments.done` frame, per
/// [`state_after_fn_done`].
pub fn parse_openai_oauth_function_call_done(
    payload: &JsonValue,
    state: &mut ProtocolStreamState,
) -> (r: Option<StreamEvent>)
    requires
        old(state).wf(),
    ensures
        final(state).wf(),
        final(state).model() == state_after_fn_done(old(state).model(), payload.model()).st,
        match (r, state_after_fn_done(old(state).model(), payload.model()).out) {
            (Some(ev), Some(evm)) => ev.deep_view() == evm,
            (None, None) => true,
            _ => false,
        },
{
    let item_id = get_string_field(payload, "item_id");
    if item_id.as_str().is_empty() {
        return None;
    }
    if state.emitted_tool_calls.contains(item_id.as_str()) {
        return None;
    }
    let name = get_string_field(payload, "name");
    let args = get_string_field(payload, "arguments");
    let accum = match state.tool_calls.get(item_id.as_str()) {
        Some(acc) => {
            let new_name = if name.as_str().is_empty() {
                acc.tool_name.clone()
            } else {
                name.clone()
            };
            let new_args = if args.as_str().is_empty() {
                acc.arguments.clone()
            } else {
                args.clone()
            };
            ToolCallAccum {
                tool_call_id: acc.tool_call_id.clone(),
                tool_name: new_name,
                arguments: new_args,
            }
        },
        None => {
            let new_args = if args.as_str().is_empty() {
                String::new()
            } else {
                args.clone()
            };
            ToolCallAccum { tool_call_id: item_id.clone(), tool_name: name.clone(), arguments: new_args }
        },
    };
    let out_id = accum.tool_call_id.clone();
    let out_name = accum.tool_name.clone();
    let out_args = accum.arguments.clone();
    state.tool_calls.insert(item_id.clone(), accum);
    let name_chars = crate::strutil::str_chars(out_name.as_str());
    let name_trimmed = crate::strutil::trim_chars(&name_chars);
    if name_trimmed.len() == 0 {
        return None;
    }
    let idx = get_index_field(payload);
    update_order(&mut state.tool_call_order, &item_id, idx);
    state.emitted_tool_calls.insert(item_id);
    let input = match build_openai_oauth_tool_input(out_args.as_str(), true) {
        Some(v) => v,
        None => JsonValue::Obj(Vec::new()),
    };
    Some(StreamEvent::ToolCall { tool_call_id: out_id, tool_name: out_name, input })
}

/// The string a payload field holds, or a fallback when absent or not a
/// string.
pub open spec fn payload_str_or(m: Json, key: Seq<char>, dflt: Seq<char>) -> Seq<char> {
    match crate::json::json_get(m, key) {
        Some(f) => match f {
            Json::Str { s } => s,
            _ => dflt,
        },
        _ => dflt,
    }
}

/// Read a payload field as an owned string with a fallback, per
/// [`payload_str_or`].
fn get_string_field_or(payload: &JsonValue, key: &str, dflt: &str) -> (r: String)
    ensures
        r@ == payload_str_or(payload.model(), key@, dflt@),
{
    match payload.get(key) {
        Some(v) => match v.as_str() {
            Some(s) => s.to_owned(),
            None => dflt.to_owned(),
        },
        None => dflt.to_owned(),
    }
}

/// The state after an `output_item.added` frame: a function-call item with
/// an id is registered and ordered; anything else changes nothing.
pub open spec fn state_after_item_added(st: StateModel, m: Json) -> StateModel {
    match crate::json::json_get(m, "item"@) {
        Some(item) => {
            if payload_str(item, "type"@) == "function_call"@ {
                let id = payload_str(item, "id"@);
                if id.len() == 0 {
                    st
                } else {
                    let call_id = payload_str(item, "call_id"@);
                    let name = payload_str(item, "name"@);
                    StateModel {
                        tool_calls: tool_calls_after_added(st.tool_calls, id, call_id, name),
                        tool_call_order: order_updated(st.tool_call_order, id, payload_index(item)),
                        ..st
                    }
                }
            } else {
                st
            }
        },
        None => st,
    }
}

/// Apply an `output_item.added` frame, per [`state_after_item_added`].
fn handle_output_item_added(payload: &JsonValue, state: &mut ProtocolStreamState)
    requires
        old(state).wf(),
    ensures
        final(state).wf(),
        final(state).model() == state_after_item_added(old(state).model(), payload.model()),
{
    proof {
        reveal_strlit("function_call");
    }
    let item = match payload.get("item") {
        Some(v) => v,
        None => {
            return ;
        },
    };
    let is_function_call = match item.get("type") {
        Some(v) => match v.as_str() {
            Some(s) => {
                let e = str_eq(s, "function_call");
                proof {
                    assert(e == (payload_str(item.model(), "type"@) == "function_call"@));
                }
                e
            },
            None => {
                proof {
                    assert(payload_str(item.model(), "type"@) =~= Seq::<char>::empty());
                    assert("function_call"@.len() == 13);
                }
                false
            },
        },
        None => {
            proof {
                assert(payload_str(item.model(), "type"@) =~= Seq::<char>::empty());
                assert("function_call"@.len() == 13);
            }
            false
        },
    };
    if !is_function_call {
        proof {
            assert(payload_str(item.model(), "type"@) != "function_call"@);
        }
        return ;
    }
    let item_id = get_string_field(item, "id");
    if item_id.as_str().is_empty() {
        return ;
    }
    let call_id = get_string_field(item, "call_id");
    let name = get_string_field(item, "name");
    merge_added(&mut state.tool_calls, &item_id, &call_id, &name);
    let idx = get_index_field(item);
    update_order(&mut state.tool_call_order, &item_id, idx);
}

/// The events a trailing text value yields: a `TextStart` the first time,
/// then the delta itself.
pub open spec fn text_burst(started: bool, text: Seq<char>) -> Seq<EventModel> {
    if started {
        seq![EventModel::TextDelta { text }]
    } else {
        seq![EventModel::TextStart, EventModel::TextDelta { text }]
    }
}

/// The state after a `content_part.added` frame: a part with a `text`
/// string is streamed as text, whatever it holds.
pub open spec fn state_after_content_part(st: StateModel, m: Json) -> StateModel {
    match crate::json::json_get(m, "part"@) {
        Some(part) => match crate::json::json_get(part, "text"@) {
            Some(f) => match f {
                Json::Str { s } => StateModel {
                    pending: st.pending + text_burst(st.text_started, s),
                    text_started: true,
                    ..st
                },
                _ => st,
            },
            _ => st,
        },
        None => st,
    }
}

/// Apply a `content_part.added` frame, per [`state_after_content_part`].
fn handle_content_part_added(payload: &JsonValue, state: &mut ProtocolStreamState)
    requires
        old(state).wf(),
    ensures
        final(state).wf(),
        final(state).model() == state_after_content_part(old(state).model(), payload.model()),
{
    let part = match payload.get("part") {
        Some(v) => v,
        None => {
            return ;
        },
    };
    let text = match part.get("text") {
        Some(v) => match v.as_str() {
            Some(s) => s.to_owned(),
            None => {
                return ;
            },
        },
        None => {
            return ;
        },
    };
    push_text(state, text);
}

/// Queue a text delta, with a `TextStart` first if none was sent yet.
fn push_text(state: &mut ProtocolStreamState, text: String)
    requires
        old(state).wf(),
    ensures
        final(state).wf(),
        final(state).model() == (StateModel {
            pending: old(state).model().pending + text_burst(old(state).model().text_started, text@),
            text_started: true,
            ..old(state).model()
        }),
{
    let ghost pv = state.pending_events.deep_view();
    if !state.text_started {
        state.text_started = true;
        state.pending_events.push(StreamEvent::TextStart);
        proof {
            assert(state.pending_events.deep_view() =~~= pv + seq![EventModel::TextStart]);
        }
    }
    let ghost pv2 = state.pending_events.deep_view();
    let ghost tv = text@;
    state.pending_events.push(StreamEvent::TextDelta { text });
    proof {
        assert(state.pending_events.deep_view() =~~= pv2 + seq![
            EventModel::TextDelta { text: tv },
        ]);
        assert(final(state).model().pending =~= old(state).model().pending + text_burst(
            old(state).model().text_started,
            tv,
        ));
    }
}

/// The state after an `output_text.delta` frame: the first delta starts the
/// text stream; an empty delta starts it without contributing text.
pub open spec fn state_after_text_delta(st: StateModel, m: Json) -> StateModel {
    let st1 = StateModel {
        text_started: true,
        pending: if st.text_started {
            st.pending
        } else {
            st.pending + seq![EventModel::TextStart]
        },
        ..st
    };
    match crate::json::json_get(m, "delta"@) {
        Some(f) => match f {
            Json::Str { s } => if s.len() > 0 {
                StateModel { pending: st1.pending + seq![EventModel::TextDelta { text: s }], ..st1 }
            } else {
                st1
            },
            _ => st1,
        },
        _ => st1,
    }
}

/// Apply an `output_text.delta` frame, per [`state_after_text_delta`].
fn handle_output_text_delta(payload: &JsonValue, state: &mut ProtocolStreamState)
    requires
        old(state).wf(),
    ensures
        final(state).wf(),
        final(state).model() == state_after_text_delta(old(state).model(), payload.model()),
{
    let ghost pv = state.pending_events.deep_view();
    if !state.text_started {
        state.text_started = true;
        state.pending_events.push(StreamEvent::TextStart);
        proof {
            assert(state.pending_events.deep_view() =~~= pv + seq![EventModel::TextStart]);
        }
    }
    let delta = match payload.get("delta") {
        Some(v) => match v.as_str() {
            Some(s) => s.to_owned(),
            None => {
                return ;
            },
        },
        None => {
            return ;
        },
    };
    if !delta.as_str().is_empty() {
        let ghost pv2 = state.pending_events.deep_view();
        let ghost dv = delta@;
        state.pending_events.push(StreamEvent::TextDelta { text: delta });
        proof {
            assert(state.pending_events.deep_view() =~~= pv2 + seq![
                EventModel::TextDelta { text: dv },
            ]);
        }
    }
}

/// The state after a `reasoning_text.delta` frame: a new id opens a
/// reasoning run, a non-empty delta streams into the current run. The id
/// falls back to `default` when the frame names none.
pub open spec fn state_after_reasoning_delta(st: StateModel, m: Json) -> StateModel {
    let id = payload_str_or(m, "item_id"@, "default"@);
    let delta = payload_str(m, "delta"@);
    let st1 = if st.thinking == Some(id) {
        st
    } else {
        StateModel {
            thinking: Some(id),
            pending: st.pending + seq![EventModel::ReasoningStart { id }],
            ..st
        }
    };
    if delta.len() > 0 {
        StateModel {
            pending: st1.pending + seq![EventModel::ReasoningDelta { id, text: delta }],
            ..st1
        }
    } else {
        st1
    }
}

/// Apply a `reasoning_text.delta` frame, per
/// [`state_after_reasoning_delta`].
fn handle_reasoning_delta(payload: &JsonValue, state: &mut ProtocolStreamState)
    requires
        old(state).wf(),
    ensures
        final(state).wf(),
        final(state).model() == state_after_reasoning_delta(old(state).model(), payload.model()),
{
    let id = get_string_field_or(payload, "item_id", "default");
    let delta = get_string_field(payload, "delta");
    let same = match &state.current_thinking_id {
        Some(cur) => str_eq(cur.as_str(), id.as_str()),
        None => false,
    };
    if !same {
        state.current_thinking_id = Some(id.clone());
        let ghost pv = state.pending_events.deep_view();
        let ghost idv = id@;
        state.pending_events.push(StreamEvent::ReasoningStart { id: id.clone() });
        proof {
            assert(state.pending_events.deep_view() =~~= pv + seq![
                EventModel::ReasoningStart { id: idv },
            ]);
        }
    }
    if !delta.as_str().is_empty() {
        let ghost pv2 = state.pending_events.deep_view();
        let ghost idv = id@;
        let ghost dv = delta@;
        state.pending_events.push(StreamEvent::ReasoningDelta { id, text: delta });
        proof {
            assert(state.pending_events.deep_view() =~~= pv2 + seq![
                EventModel::ReasoningDelta { id: idv, text: dv },
            ]);
        }
    }
}

/// The state after a `reasoning_text.done` frame: the run's end is queued;
/// the cursor itself is left as it stands.
pub open spec fn state_after_reasoning_done(st: StateModel, m: Json) -> StateModel {
    let id = payload_str_or(m, "item_id"@, "default"@);
    StateModel { pending: st.pending + seq![EventModel::ReasoningEnd { id }], ..st }
}

/// Apply a `reasoning_text.done` frame, per [`state_after_reasoning_done`].
fn handle_reasoning_done(payload: &JsonValue, state: &mut ProtocolStreamState)
    requires
        old(state).wf(),
    ensures
        final(state).wf(),
        final(state).model() == state_after_reasoning_done(old(state).model(), payload.model()),
{
    let id = get_string_field_or(payload, "item_id", "default");
    let ghost pv = state.pending_events.deep_view();
    let ghost idv = id@;
    state.pending_events.push(StreamEvent::ReasoningEnd { id });
    proof {
        assert(state.pending_events.deep_view() =~~= pv + seq![
            EventModel::ReasoningEnd { id: idv },
        ]);
    }
}

/// The state after a `response.failed` frame: the upstream error message is
/// queued, a fixed text standing in when none is given.
pub open spec fn state_after_failed(st: StateModel, m: Json) -> StateModel {
    let message = match crate::json::json_get(m, "response"@) {
        Some(resp) => match crate::json::json_get(resp, "error"@) {
            Some(err) => payload_str_or(err, "message"@, "Response failed"@),
            None => "Response failed"@,
        },
        None => "Response failed"@,
    };
    StateModel { pending: st.pending + seq![EventModel::Error { message }], ..st }
}

/// Apply a `response.failed` frame, per [`state_after_failed`].
fn handle_failed(payload: &JsonValue, state: &mut ProtocolStreamState)
    requires
        old(state).wf(),
    ensures
        final(state).wf(),
        final(state).model() == state_after_failed(old(state).model(), payload.model()),
{
    let message = match payload.get("response") {
        Some(resp) => match resp.get("error") {
            Some(err) => get_string_field_or(err, "message", "Response failed"),
            None => "Response failed".to_owned(),
        },
        None => "Response failed".to_owned(),
    };
    let ghost pv = state.pending_events.deep_view();
    let ghost mv = message@;
    state.pending_events.push(StreamEvent::Error { message });
    proof {
        assert(state.pending_events.deep_view() =~~= pv + seq![EventModel::Error { message: mv }]);
    }
}

/// The integer a payload field holds, zero when absent, not an integer, or
/// too wide for a signed 64-bit word.
pub open spec fn payload_i64_or_zero(m: Json, key: Seq<char>) -> int {
    match crate::json::json_get(m, key) {
        Some(f) => match f {
            Json::Int { i } => if i <= i64::MAX as int {
                i
            } else {
                0
            },
            _ => 0,
        },
        _ => 0,
    }
}

/// The integer a payload field holds, where it fits a signed 64-bit word.
pub open spec fn payload_opt_i64(m: Json, key: Seq<char>) -> Option<int> {
    match crate::json::json_get(m, key) {
        Some(f) => match f {
            Json::Int { i } => if i <= i64::MAX as int {
                Some(i)
            } else {
                None
            },
            _ => None,
        },
        _ => None,
    }
}

/// Read a payload field as a count, zero standing in, per
/// [`payload_i64_or_zero`].
fn get_i64_field_or_zero(payload: &JsonValue, key: &str) -> (r: i64)
    ensures
        r as int == payload_i64_or_zero(payload.model(), key@),
{
    match payload.get(key) {
        Some(v) => match v.as_i64() {
            Some(i) => i,
            None => 0,
        },
        None => 0,
    }
}

/// Read a payload field as an optional count, per [`payload_opt_i64`].
fn get_opt_i64_field(payload: &JsonValue, key: &str) -> (r: Option<i64>)
    ensures
        crate::events::opt_int(r) == payload_opt_i64(payload.model(), key@),
{
    match payload.get(key) {
        Some(v) => v.as_i64(),
        None => None,
    }
}

/// The usage event an OpenAI-compatible chunk's `usage` object yields.
pub open spec fn chunk_usage_event(u: Json) -> EventModel {
    EventModel::Usage {
        input_tokens: payload_i64_or_zero(u, "prompt_tokens"@),
        output_tokens: payload_i64_or_zero(u, "completion_tokens"@),
        total_tokens: payload_opt_i64(u, "total_tokens"@),
        cached_input_tokens: None,
        cache_creation_input_tokens: None,
    }
}

/// The state after an OpenAI-compatible chat-completion chunk: usage is
/// queued when present, the first choice's finish reason is captured, and
/// its delta is streamed as text.
pub open spec fn state_after_chunk(st: StateModel, m: Json) -> StateModel {
    let st1 = match crate::json::json_get(m, "usage"@) {
        Some(u) => StateModel { pending: st.pending + seq![chunk_usage_event(u)], ..st },
        None => st,
    };
    match crate::json::json_get(m, "choices"@) {
        Some(cs) => match cs {
            Json::Arr { items } => if items.len() > 0 {
                let choice = items[0];
                let st2 = match crate::json::json_get(choice, "finish_reason"@) {
                    Some(f) => match f {
                        Json::Str { s } => StateModel { finish: Some(s), ..st1 },
                        _ => st1,
                    },
                    _ => st1,
                };
                match crate::json::json_get(choice, "delta"@) {
                    Some(delta) => {
                        let st3 = if st2.text_started {
                            st2
                        } else {
                            StateModel {
                                text_started: true,
                                pending: st2.pending + seq![EventModel::TextStart],
                                ..st2
                            }
                        };
                        match crate::json::json_get(delta, "content"@) {
                            Some(c) => match c {
                                Json::Str { s } => if s.len() > 0 {
                                    StateModel {
                                        pending: st3.pending + seq![
                                            EventModel::TextDelta { text: s },
                                        ],
                                        ..st3
                                    }
                                } else {
                                    st3
                                },
                                _ => st3,
                            },
                            _ => st3,
                        }
                    },
                    None => st2,
                }
            } else {
                st1
            },
            _ => st1,
        },
        _ => st1,
    }
}

/// Apply an OpenAI-compatible chat-completion chunk, per
/// [`state_after_chunk`].
fn handle_chunk(payload: &JsonValue, state: &mut ProtocolStreamState)
    requires
        old(state).wf(),
    ensures
        final(state).wf(),
        final(state).model() == state_after_chunk(old(state).model(), payload.model()),
{
    match payload.get("usage") {
        Some(u) => {
            let input_tokens = get_i64_field_or_zero(u, "prompt_tokens");
            let output_tokens = get_i64_field_or_zero(u, "completion_tokens");
            let total_tokens = get_opt_i64_field(u, "total_tokens");
            let ghost pv = state.pending_events.deep_view();
            let ev = StreamEvent::Usage {
                input_tokens,
                output_tokens,
                total_tokens,
                cached_input_tokens: None,
                cache_creation_input_tokens: None,
            };
            let ghost evm = ev.deep_view();
            state.pending_events.push(ev);
            proof {
                assert(state.pending_events.deep_view() =~~= pv + seq![evm]);
                assert(evm == chunk_usage_event(u.model()));
            }
        },
        None => {},
    }
    let choices = match payload.get("choices") {
        Some(cs) => match cs.as_array() {
            Some(items) => items,
            None => {
                return ;
            },
        },
        None => {
            return ;
        },
    };
    if choices.len() == 0 {
        return ;
    }
    let choice = &choices[0];
    proof {
        crate::json::lemma_model_items(choices@);
    }
    match choice.get("finish_reason") {
        Some(f) => match f.as_str() {
            Some(s) => {
                state.finish_reason = Some(s.to_owned());
            },
            None => {},
        },
        None => {},
    }
    let delta = match choice.get("delta") {
        Some(d) => d,
        None => {
            return ;
        },
    };
    if !state.text_started {
        state.text_started = true;
        let ghost pv = state.pending_events.deep_view();
        state.pending_events.push(StreamEvent::TextStart);
        proof {
            assert(state.pending_events.deep_view() =~~= pv + seq![EventModel::TextStart]);
        }
    }
    match delta.get("content") {
        Some(c) => match c.as_str() {
            Some(s) => {
                if !s.is_empty() {
                    let text = s.to_owned();
                    let ghost pv = state.pending_events.deep_view();
                    let ghost tv = text@;
                    state.pending_events.push(StreamEvent::TextDelta { text });
                    proof {
                        assert(state.pending_events.deep_view() =~~= pv + seq![
                            EventModel::TextDelta { text: tv },
                        ]);
                    }
                }
            },
            None => {},
        },
        None => {},
    }
}

/// The usage event a `response.completed` frame's `usage` object yields.
pub open spec fn completed_usage_event(u: Json) -> EventModel {
    EventModel::Usage {
        input_tokens: payload_i64_or_zero(u, "input_tokens"@),
        output_tokens: payload_i64_or_zero(u, "output_tokens"@),
        total_tokens: payload_opt_i64(u, "total_tokens"@),
        cached_input_tokens: None,
        cache_creation_input_tokens: None,
    }
}

/// The trailing text one output part yields: its `text` field streamed
/// whatever it holds, its `delta` field streamed when non-empty.
pub open spec fn part_text_events(part: Json, started: bool) -> (Seq<EventModel>, bool) {
    let first = match crate::json::json_get(part, "text"@) {
        Some(f) => match f {
            Json::Str { s } => (text_burst(started, s), true),
            _ => (Seq::<EventModel>::empty(), started),
        },
        _ => (Seq::<EventModel>::empty(), started),
    };
    let second = match crate::json::json_get(part, "delta"@) {
        Some(f) => match f {
            Json::Str { s } => if s.len() > 0 {
                (text_burst(first.1, s), true)
            } else {
                (Seq::<EventModel>::empty(), first.1)
            },
            _ => (Seq::<EventModel>::empty(), first.1),
        },
        _ => (Seq::<EventModel>::empty(), first.1),
    };
    (first.0 + second.0, second.1)
}

/// The trailing text a list of content parts yields, left to right.
pub open spec fn scan_parts(parts: Seq<Json>, started: bool) -> (Seq<EventModel>, bool)
    decreases parts.len(),
{
    if parts.len() == 0 {
        (Seq::<EventModel>::empty(), started)
    } else {
        let head = part_text_events(parts[0], started);
        let tail = scan_parts(parts.drop_first(), head.1);
        (head.0 + tail.0, tail.1)
    }
}

/// The trailing text one output item yields: its `content` parts scanned.
pub open spec fn item_text_events(item: Json, started: bool) -> (Seq<EventModel>, bool) {
    match crate::json::json_get(item, "content"@) {
        Some(c) => match c {
            Json::Arr { items } => scan_parts(items, started),
            _ => (Seq::<EventModel>::empty(), started),
        },
        _ => (Seq::<EventModel>::empty(), started),
    }
}

/// The trailing text a response's output list yields, left to right.
pub open spec fn scan_output(items: Seq<Json>, started: bool) -> (Seq<EventModel>, bool)
    decreases items.len(),
{
    if items.len() == 0 {
        (Seq::<EventModel>::empty(), started)
    } else {
        let head = item_text_events(items[0], started);
        let tail = scan_output(items.drop_first(), head.1);
        (head.0 + tail.0, tail.1)
    }
}

/// The state after a `response.completed` frame: usage is queued when
/// present, any trailing text not already streamed is streamed, and the
/// decoder's own `Done` is queued last.
pub open spec fn state_after_completed(st: StateModel, m: Json) -> StateModel {
    let st2 = match crate::json::json_get(m, "response"@) {
        Some(resp) => {
            let st1 = match crate::json::json_get(resp, "usage"@) {
                Some(u) => StateModel { pending: st.pending + seq![completed_usage_event(u)], ..st },
                None => st,
            };
            match crate::json::json_get(resp, "output"@) {
                Some(o) => match o {
                    Json::Arr { items } => {
                        let scanned = scan_output(items, st1.text_started);
                        StateModel {
                            pending: st1.pending + scanned.0,
                            text_started: scanned.1,
                            ..st1
                        }
                    },
                    _ => st1,
                },
                _ => st1,
            }
        },
        None => st,
    };
    StateModel {
        pending: st2.pending + seq![EventModel::Done { finish_reason: None }],
        ..st2
    }
}

/// Scan one output item's content parts, streaming their trailing text.
fn scan_item_parts(item: &JsonValue, state: &mut ProtocolStreamState)
    requires
        old(state).wf(),
    ensures
        final(state).wf(),
        final(state).model() == (StateModel {
            pending: old(state).model().pending + item_text_events(
                item.model(),
                old(state).model().text_started,
            ).0,
            text_started: item_text_events(item.model(), old(state).model().text_started).1,
            ..old(state).model()
        }),
{
    let parts = match item.get("content") {
        Some(c) => match c.as_array() {
            Some(parts) => parts,
            None => {
                proof {
                    assert(final(state).model() =~~= old(state).model());
                }
                return ;
            },
        },
        None => {
            return ;
        },
    };
    let ghost pm = crate::json::model_items(parts@);
    let ghost base_pending = state.pending_events.deep_view();
    let ghost started0 = state.text_started;
    let ghost full = scan_parts(pm, started0);
    proof {
        crate::json::lemma_model_items(parts@);
        assert(pm.skip(0) =~= pm);
    }
    let n = parts.len();
    let mut j: usize = 0;
    let ghost mut done_events: Seq<EventModel> = Seq::empty();
    while j < n
        invariant
            old(state).wf(),
            state.wf(),
            j <= n,
            n == parts@.len(),
            pm == crate::json::model_items(parts@),
            pm.len() == n,
            forall|t: int| 0 <= t < n ==> pm[t] == parts@[t].model(),
            full == scan_parts(pm, started0),
            base_pending == old(state).model().pending,
            started0 == old(state).model().text_started,
            state.tool_calls@ == old(state).model().tool_calls,
            state.tool_call_order.deep_view() == old(state).model().tool_call_order,
            state.emitted_tool_calls@ == old(state).model().emitted,
            crate::events::opt_view(state.current_thinking_id) == old(state).model().thinking,
            crate::events::opt_view(state.finish_reason) == old(state).model().finish,
            state.pending_events.deep_view() == base_pending + done_events,
            full.0 == done_events + scan_parts(pm.skip(j as int), state.text_started).0,
            full.1 == scan_parts(pm.skip(j as int), state.text_started).1,
        decreases n - j,
    {
        let ghost rest = pm.skip(j as int);
        let ghost started_cur = state.text_started;
        proof {
            assert(rest[0] == pm[j as int]);
            assert(rest.drop_first() =~= pm.skip(j + 1));
        }
        let part = &parts[j];
        let ghost head = part_text_events(part.model(), started_cur);
        match part.get("text") {
            Some(tv) => match tv.as_str() {
                Some(s) => {
                    push_text(state, s.to_owned());
                },
                None => {},
            },
            None => {},
        }
        match part.get("delta") {
            Some(dv) => match dv.as_str() {
                Some(s) => {
                    if !s.is_empty() {
                        push_text(state, s.to_owned());
                    }
                },
                None => {},
            },
            None => {},
        }
        proof {
            done_events = done_events + head.0;
            assert(state.pending_events.deep_view() =~= base_pending + done_events);
            assert(state.text_started == head.1);
            assert(scan_parts(rest, started_cur).0 == head.0 + scan_parts(
                pm.skip(j + 1),
                state.text_started,
            ).0);
            assert(full.0 == done_events + scan_parts(pm.skip(j + 1), state.text_started).0);
        }
        j = j + 1;
    }
    proof {
        assert(pm.skip(n as int) =~= Seq::<Json>::empty());
        assert(full.0 =~= done_events);
        assert(final(state).model().pending =~= old(state).model().pending + full.0);
    }
}

/// Apply a `response.completed` frame, per [`state_after_completed`].
fn handle_completed(payload: &JsonValue, state: &mut ProtocolStreamState)
    requires
        old(state).wf(),
    ensures
        final(state).wf(),
        final(state).model() == state_after_completed(old(state).model(), payload.model()),
{
    match payload.get("response") {
        Some(resp) => {
            match resp.get("usage") {
                Some(u) => {
                    let input_tokens = get_i64_field_or_zero(u, "input_tokens");
                    let output_tokens = get_i64_field_or_zero(u, "output_tokens");
                    let total_tokens = get_opt_i64_field(u, "total_tokens");
                    let ghost pv = state.pending_events.deep_view();
                    let ev = StreamEvent::Usage {
                        input_tokens,
                        output_tokens,
                        total_tokens,
                        cached_input_tokens: None,
                        cache_creation_input_tokens: None,
                    };
                    let ghost evm = ev.deep_view();
                    state.pending_events.push(ev);
                    proof {
                        assert(state.pending_events.deep_view() =~~= pv + seq![evm]);
                        assert(evm == completed_usage_event(u.model()));
                    }
                },
                None => {},
            }
            match resp.get("output") {
                Some(o) => match o.as_array() {
                    Some(items) => {
                        let ghost im = crate::json::model_items(items@);
                        let ghost base_pending = state.pending_events.deep_view();
                        let ghost started0 = state.text_started;
                        let ghost full = scan_output(im, started0);
                        proof {
                            crate::json::lemma_model_items(items@);
                            assert(im.skip(0) =~= im);
                        }
                        let n = items.len();
                        let mut i: usize = 0;
                        let ghost mut done_events: Seq<EventModel> = Seq::empty();
                        while i < n
                            invariant
                                old(state).wf(),
                                state.wf(),
                                i <= n,
                                n == items@.len(),
                                im == crate::json::model_items(items@),
                                im.len() == n,
                                forall|t: int| 0 <= t < n ==> im[t] == items@[t].model(),
                                full == scan_output(im, started0),
                                state.tool_calls@ == old(state).model().tool_calls,
                                state.tool_call_order.deep_view() == old(
                                    state,
                                ).model().tool_call_order,
                                state.emitted_tool_calls@ == old(state).model().emitted,
                                crate::events::opt_view(state.current_thinking_id) == old(
                                    state,
                                ).model().thinking,
                                crate::events::opt_view(state.finish_reason) == old(
                                    state,
                                ).model().finish,
                                state.pending_events.deep_view() == base_pending + done_events,
                                full.0 == done_events + scan_output(
                                    im.skip(i as int),
                                    state.text_started,
                                ).0,
                                full.1 == scan_output(im.skip(i as int), state.text_started).1,
                            decreases n - i,
                        {
                            let ghost rest = im.skip(i as int);
                            let ghost started_cur = state.text_started;
                            proof {
                                assert(rest[0] == im[i as int]);
                                assert(rest.drop_first() =~= im.skip(i + 1));
                            }
                            let item = &items[i];
                            let ghost head = item_text_events(item.model(), started_cur);
                            scan_item_parts(item, state);
                            proof {
                                done_events = done_events + head.0;
                                assert(state.pending_events.deep_view() =~= base_pending
                                    + done_events);
                                assert(state.text_started == head.1);
                                assert(scan_output(rest, started_cur).0 == head.0 + scan_output(
                                    im.skip(i + 1),
                                    state.text_started,
                                ).0);
                                assert(full.0 == done_events + scan_output(
                                    im.skip(i + 1),
                                    state.text_started,
                                ).0);
                            }
                            i = i + 1;
                        }
                        proof {
                            assert(im.skip(n as int) =~= Seq::<Json>::empty());
                            assert(full.0 =~= done_events);
                        }
                    },
                    None => {},
                },
                None => {},
            }
        },
        None => {},
    }
    let ghost pv = state.pending_events.deep_view();
    state.pending_events.push(StreamEvent::Done { finish_reason: None });
    proof {
        assert(state.pending_events.deep_view() =~~= pv + seq![
            EventModel::Done { finish_reason: None },
        ]);
    }
}

/// The queue popped from the front: one frame hands out at most one event
/// directly; the rest stay queued.
pub open spec fn popped(st: StateModel) -> (StateModel, Option<EventModel>) {
    if st.pending.len() > 0 {
        (StateModel { pending: st.pending.drop_first(), ..st }, Some(st.pending[0]))
    } else {
        (st, None)
    }
}

/// The dispatch key of a frame: the explicit event name if present, else
/// the payload's `type`, `event` or `kind` field, in that order.
pub open spec fn resolved_kind(ev: Option<Seq<char>>, m: Json) -> Option<Seq<char>> {
    match ev {
        Some(s) => Some(s),
        None => match crate::json::json_get(m, "type"@) {
            Some(f) => match f {
                Json::Str { s } => Some(s),
                _ => resolved_kind_fallback(m),
            },
            _ => resolved_kind_fallback(m),
        },
    }
}

/// The dispatch key drawn from the payload's `event` or `kind` field.
pub open spec fn resolved_kind_fallback(m: Json) -> Option<Seq<char>> {
    match crate::json::json_get(m, "event"@) {
        Some(f) => match f {
            Json::Str { s } => Some(s),
            _ => resolved_kind_kind(m),
        },
        _ => resolved_kind_kind(m),
    }
}

/// The dispatch key drawn from the payload's `kind` field.
pub open spec fn resolved_kind_kind(m: Json) -> Option<Seq<char>> {
    match crate::json::json_get(m, "kind"@) {
        Some(f) => match f {
            Json::Str { s } => Some(s),
            _ => None,
        },
        _ => None,
    }
}

/// Whether a payload is an OpenAI-compatible chat-completion chunk.
pub open spec fn is_chunk(m: Json) -> bool {
    match crate::json::json_get(m, "object"@) {
        Some(f) => match f {
            Json::Str { s } => s == "chat.completion.chunk"@,
            _ => false,
        },
        _ => false,
    }
}

/// The state after one dispatched frame, with the item ids emitted by it.
/// An unknown dispatch key changes nothing.
pub open spec fn dispatch(st: StateModel, kind: Seq<char>, m: Json) -> (StateModel, Seq<Seq<char>>) {
    if kind == "response.output_item.added"@ {
        (state_after_item_added(st, m), Seq::empty())
    } else if kind == "response.content_part.added"@ {
        (state_after_content_part(st, m), Seq::empty())
    } else if kind == "response.output_text.delta"@ {
        (state_after_text_delta(st, m), Seq::empty())
    } else if kind == "response.function_call_arguments.delta"@ {
        let st1 = state_after_fn_delta(st, m);
        let sw = sweep_from(st1.tool_calls, st1.tool_call_order, st1.emitted, false);
        (state_after_sweep(st1, false), sw.log)
    } else if kind == "response.function_call_arguments.done"@ {
        let d = state_after_fn_done(st, m);
        let st1 = match d.out {
            Some(ev) => StateModel { pending: d.st.pending + seq![ev], ..d.st },
            None => d.st,
        };
        let sw = sweep_from(st1.tool_calls, st1.tool_call_order, st1.emitted, true);
        let log0 = match d.key {
            Some(k) => seq![k],
            None => Seq::<Seq<char>>::empty(),
        };
        (state_after_sweep(st1, true), log0 + sw.log)
    } else if kind == "response.reasoning_text.delta"@ {
        (state_after_reasoning_delta(st, m), Seq::empty())
    } else if kind == "response.reasoning_text.done"@ {
        (state_after_reasoning_done(st, m), Seq::empty())
    } else if kind == "response.completed"@ {
        (state_after_completed(st, m), Seq::empty())
    } else if kind == "response.failed"@ {
        (state_after_failed(st, m), Seq::empty())
    } else {
        (st, Seq::<Seq<char>>::empty())
    }
}

/// What one frame does to the decoder: the new state, the event handed out,
/// and the item ids whose tool calls were emitted by this frame. `None`
/// stands for a payload that is not JSON, which aborts the request.
pub struct StepResult {
    pub st: StateModel,
    pub out: Option<EventModel>,
    pub log: Seq<Seq<char>>,
}

/// The whole decoder step for one frame: parse the payload, take the
/// chunk path or the dispatch path, and hand out the oldest queued event.
/// A frame that resolves to no dispatch key is ignored outright.
pub open spec fn oauth_step(st: StateModel, ev: Option<Seq<char>>, data: Seq<char>) -> Option<
    StepResult,
> {
    match json_of(data) {
        None => None,
        Some(m) => {
            if is_chunk(m) {
                let st1 = state_after_chunk(st, m);
                let p = popped(st1);
                Some(StepResult { st: p.0, out: p.1, log: Seq::empty() })
            } else {
                match resolved_kind(ev, m) {
                    None => Some(StepResult { st, out: None, log: Seq::empty() }),
                    Some(kind) => {
                        let d = dispatch(st, kind, m);
                        let p = popped(d.0);
                        Some(StepResult { st: p.0, out: p.1, log: d.1 })
                    },
                }
            }
        },
    }
}

/// Hand out the oldest queued event, per [`popped`].
fn pop_pending(state: &mut ProtocolStreamState) -> (r: Option<StreamEvent>)
    requires
        old(state).wf(),
    ensures
        final(state).wf(),
        final(state).model() == popped(old(state).model()).0,
        match (r, popped(old(state).model()).1) {
            (Some(ev), Some(evm)) => ev.deep_view() == evm,
            (None, None) => true,
            _ => false,
        },
{
    if state.pending_events.len() > 0 {
        let ghost pv = state.pending_events.deep_view();
        let ev = state.pending_events.remove(0);
        proof {
            assert(state.pending_events.deep_view() =~~= pv.drop_first());
        }
        Some(ev)
    } else {
        proof {
            assert(state.pending_events.deep_view() =~= Seq::<EventModel>::empty());
        }
        None
    }
}

/// The message for a frame that is not a JSON document.
pub open spec fn decode_error_message() -> Seq<char> {
    "invalid JSON in stream event"@
}

/// The view of the frame's optional event name.
pub open spec fn opt_str_view(o: Option<&str>) -> Option<Seq<char>> {
    match o {
        Some(s) => Some(s@),
        None => None,
    }
}

/// Decode one OAuth/Codex frame: mutate the state and hand out the oldest
/// queued canonical event, per [`oauth_step`]. The error case is exactly a
/// payload that is not JSON.
pub fn parse_openai_oauth_event(
    event_type: Option<&str>,
    data: &str,
    state: &mut ProtocolStreamState,
) -> (r: Result<Option<StreamEvent>, String>)
    requires
        old(state).wf(),
    ensures
        final(state).wf(),
        match (r, oauth_step(old(state).model(), opt_str_view(event_type), data@)) {
            (Err(e), None) => final(state).model() == old(state).model() && e@
                == decode_error_message(),
            (Ok(out), Some(sr)) => {
                &&& final(state).model() == sr.st
                &&& match (out, sr.out) {
                    (Some(ev), Some(evm)) => ev.deep_view() == evm,
                    (None, None) => true,
                    _ => false,
                }
            },
            _ => false,
        },
{
    let payload = match parse_json(data) {
        Some(v) => v,
        None => {
            return Err("invalid JSON in stream event".to_owned());
        },
    };
    let chunk = match payload.get("object") {
        Some(v) => match v.as_str() {
            Some(s) => str_eq(s, "chat.completion.chunk"),
            None => false,
        },
        None => false,
    };
    proof {
        reveal_strlit("chat.completion.chunk");
        assert(chunk == is_chunk(payload.model()));
    }
    if chunk {
        handle_chunk(&payload, state);
        return Ok(pop_pending(state));
    }
    let kind: Option<String> = match event_type {
        Some(s) => Some(s.to_owned()),
        None => {
            match read_kind_field(&payload, "type") {
                Some(s) => Some(s),
                None => match read_kind_field(&payload, "event") {
                    Some(s) => Some(s),
                    None => read_kind_field(&payload, "kind"),
                },
            }
        },
    };
    let kind = match kind {
        Some(k) => k,
        None => {
            proof {
                assert(resolved_kind(opt_str_view(event_type), payload.model()) is None);
            }
            return Ok(None);
        },
    };
    let ghost km = kind@;
    let ghost m = payload.model();
    let ghost st0 = old(state).model();
    if str_eq(kind.as_str(), "response.output_item.added") {
        handle_output_item_added(&payload, state);
    } else if str_eq(kind.as_str(), "response.content_part.added") {
        handle_content_part_added(&payload, state);
    } else if str_eq(kind.as_str(), "response.output_text.delta") {
        handle_output_text_delta(&payload, state);
    } else if str_eq(kind.as_str(), "response.function_call_arguments.delta") {
        parse_openai_oauth_function_call_delta(&payload, state);
        emit_tool_calls(state, false);
        proof {
            assert(state.model() == dispatch(st0, km, m).0);
        }
    } else if str_eq(kind.as_str(), "response.function_call_arguments.done") {
        let done_event = parse_openai_oauth_function_call_done(&payload, state);
        match done_event {
            Some(ev) => {
                let ghost pv = state.pending_events.deep_view();
                let ghost evm = ev.deep_view();
                state.pending_events.push(ev);
                proof {
                    assert(state.pending_events.deep_view() =~~= pv + seq![evm]);
                }
            },
            None => {},
        }
        emit_tool_calls(state, true);
        proof {
            assert(state.model() == dispatch(st0, km, m).0);
        }
    } else if str_eq(kind.as_str(), "response.reasoning_text.delta") {
        handle_reasoning_delta(&payload, state);
    } else if str_eq(kind.as_str(), "response.reasoning_text.done") {
        handle_reasoning_done(&payload, state);
    } else if str_eq(kind.as_str(), "response.completed") {
        handle_completed(&payload, state);
    } else if str_eq(kind.as_str(), "response.failed") {
        handle_failed(&payload, state);
    }
    proof {
        assert(state.model() == dispatch(st0, km, m).0);
    }
    Ok(pop_pending(state))
}

/// Read one candidate dispatch-key field.
fn read_kind_field(payload: &JsonValue, key: &str) -> (r: Option<String>)
    ensures
        match r {
            Some(s) => crate::json::json_get(payload.model(), key@) == Some(Json::Str { s: s@ }),
            None => match crate::json::json_get(payload.model(), key@) {
                Some(f) => !(f is Str),
                None => true,
            },
        },
{
    match payload.get(key) {
        Some(v) => match v.as_str() {
            Some(s) => Some(s.to_owned()),
            None => None,
        },
        None => None,
    }
}

/// What a sweep logs: ids not yet in the dedup set, each at most once, and
/// every one of them in the set afterwards; the set only ever grows.
pub proof fn lemma_sweep_log(
    tc: Map<Seq<char>, AccumModel>,
    order: Seq<Seq<char>>,
    emitted: Set<Seq<char>>,
    force: bool,
)
    ensures
        ({
            let sw = sweep_from(tc, order, emitted, force);
            &&& sw.log.no_duplicates()
            &&& forall|t: int|
                0 <= t < sw.log.len() ==> !emitted.contains(sw.log[t]) && sw.emitted.contains(
                    sw.log[t],
                )
            &&& forall|k: Seq<char>| emitted.contains(k) ==> sw.emitted.contains(k)
        }),
    decreases order.len(),
{
    if order.len() > 0 {
        let k = order[0];
        let sw = sweep_from(tc, order, emitted, force);
        let emits = !emitted.contains(k) && tc.contains_key(k) && tc[k].tool_name.len() > 0
            && tool_input_of(tc[k].arguments, force) is Some;
        let em1 = if emits {
            emitted.insert(k)
        } else {
            emitted
        };
        lemma_sweep_log(tc, order.drop_first(), em1, force);
        let rest = sweep_from(tc, order.drop_first(), em1, force);
        let off: int = if emits {
            1
        } else {
            0
        };
        assert(sw.emitted == rest.emitted);
        assert(sw.log =~= (if emits {
            seq![k]
        } else {
            Seq::<Seq<char>>::empty()
        }) + rest.log);
        assert forall|k2: Seq<char>| emitted.contains(k2) implies sw.emitted.contains(k2) by {
            assert(em1.contains(k2));
        }
        assert forall|t: int| 0 <= t < sw.log.len() implies !emitted.contains(sw.log[t])
            && sw.emitted.contains(sw.log[t]) by {
            if emits && t == 0 {
                assert(sw.log[t] == k);
                assert(em1.contains(k));
                assert(rest.emitted.contains(k));
            } else {
                assert(sw.log[t] == rest.log[t - off]);
                assert(!em1.contains(rest.log[t - off]));
                assert(rest.emitted.contains(rest.log[t - off]));
            }
        }
        assert forall|i: int, j: int|
            0 <= i < sw.log.len() && 0 <= j < sw.log.len() && i != j implies sw.log[i]
            != sw.log[j] by {
            if emits && i == 0 {
                assert(sw.log[j] == rest.log[j - 1]);
                assert(!em1.contains(rest.log[j - 1]));
                assert(em1.contains(k));
            } else if emits && j == 0 {
                assert(sw.log[i] == rest.log[i - 1]);
                assert(!em1.contains(rest.log[i - 1]));
                assert(em1.contains(k));
            } else {
                assert(sw.log[i] == rest.log[i - off]);
                assert(sw.log[j] == rest.log[j - off]);
                assert(rest.log[i - off] != rest.log[j - off]);
            }
        }
        assert(sw.log.no_duplicates());
    }
}

/// What one frame logs: tool calls not yet emitted before it, each at most
/// once, all marked emitted after it; the dedup set only ever grows.
pub proof fn lemma_step_log(st: StateModel, ev: Option<Seq<char>>, data: Seq<char>)
    ensures
        match oauth_step(st, ev, data) {
            Some(sr) => {
                &&& sr.log.no_duplicates()
                &&& forall|t: int|
                    0 <= t < sr.log.len() ==> !st.emitted.contains(sr.log[t])
                        && sr.st.emitted.contains(sr.log[t])
                &&& forall|k: Seq<char>| st.emitted.contains(k) ==> sr.st.emitted.contains(k)
            },
            None => true,
        },
{
    match json_of(data) {
        None => {},
        Some(m) => {
            if is_chunk(m) {
                let st1 = state_after_chunk(st, m);
                assert(st1.emitted == st.emitted);
                assert(popped(st1).0.emitted == st.emitted);
            } else {
                match resolved_kind(ev, m) {
                    None => {},
                    Some(kind) => {
                        reveal_strlit("response.output_item.added");
                        reveal_strlit("response.content_part.added");
                        reveal_strlit("response.output_text.delta");
                        reveal_strlit("response.function_call_arguments.delta");
                        reveal_strlit("response.function_call_arguments.done");
                        reveal_strlit("response.reasoning_text.delta");
                        reveal_strlit("response.reasoning_text.done");
                        reveal_strlit("response.completed");
                        reveal_strlit("response.failed");
                        if kind == "response.function_call_arguments.delta"@ {
                            let st1 = state_after_fn_delta(st, m);
                            assert(st1.emitted == st.emitted);
                            lemma_sweep_log(st1.tool_calls, st1.tool_call_order, st1.emitted, false);
                            assert forall|k2: Seq<char>|
                                st.emitted.contains(k2) implies state_after_sweep(
                                st1,
                                false,
                            ).emitted.contains(k2) by {
                                assert(st1.emitted.contains(k2));
                            }
                        } else if kind == "response.function_call_arguments.done"@ {
                            let d = state_after_fn_done(st, m);
                            let st1 = match d.out {
                                Some(e) => StateModel { pending: d.st.pending + seq![e], ..d.st },
                                None => d.st,
                            };
                            lemma_sweep_log(st1.tool_calls, st1.tool_call_order, st1.emitted, true);
                            let sw = sweep_from(
                                st1.tool_calls,
                                st1.tool_call_order,
                                st1.emitted,
                                true,
                            );
                            assert forall|k2: Seq<char>|
                                st.emitted.contains(k2) implies state_after_sweep(
                                st1,
                                true,
                            ).emitted.contains(k2) by {
                                assert(st1.emitted.contains(k2));
                            }
                            match d.key {
                                Some(key) => {
                                    assert(!st.emitted.contains(key));
                                    assert(st1.emitted.contains(key));
                                    assert forall|t: int|
                                        0 <= t < sw.log.len() implies sw.log[t] != key by {
                                        assert(!st1.emitted.contains(sw.log[t]));
                                    }
                                    let whole = seq![key] + sw.log;
                                    assert forall|i: int, j: int|
                                        0 <= i < whole.len() && 0 <= j < whole.len() && i
                                        != j implies whole[i] != whole[j] by {
                                        if i == 0 {
                                            assert(whole[j] == sw.log[j - 1]);
                                            assert(whole[i] == key);
                                        } else if j == 0 {
                                            assert(whole[i] == sw.log[i - 1]);
                                            assert(whole[j] == key);
                                        } else {
                                            assert(whole[i] == sw.log[i - 1]);
                                            assert(whole[j] == sw.log[j - 1]);
                                            assert(sw.log[i - 1] != sw.log[j - 1]);
                                        }
                                    }
                                    assert(whole.no_duplicates());
                                    assert forall|t: int|
                                        0 <= t < whole.len() implies !st.emitted.contains(
                                        whole[t],
                                    ) && state_after_sweep(st1, true).emitted.contains(
                                        whole[t],
                                    ) by {
                                        if t == 0 {
                                            assert(whole[t] == key);
                                            assert(sw.emitted.contains(key));
                                        } else {
                                            assert(whole[t] == sw.log[t - 1]);
                                            assert(!st1.emitted.contains(whole[t]));
                                        }
                                    }
                                },
                                None => {},
                            }
                        } else {
                            let d = dispatch(st, kind, m);
                            assert(d.0.emitted == st.emitted);
                            assert(popped(d.0).0.emitted == st.emitted);
                        }
                    },
                }
            }
        },
    }
}

/// The delta text a frame contributes to one item id: its `delta` field if
/// the frame names that id, nothing otherwise.
pub open spec fn delta_for(m: Json, k: Seq<char>) -> Seq<char> {
    if payload_str(m, "item_id"@) == k {
        payload_str(m, "delta"@)
    } else {
        Seq::empty()
    }
}

/// The state after a run of `function_call_arguments.delta` frames.
pub open spec fn deltas_applied(st: StateModel, ms: Seq<Json>) -> StateModel
    decreases ms.len(),
{
    if ms.len() == 0 {
        st
    } else {
        deltas_applied(state_after_fn_delta(st, ms[0]), ms.drop_first())
    }
}

/// The deltas a run of frames contributes to one item id, in arrival order.
pub open spec fn deltas_for(ms: Seq<Json>, k: Seq<char>) -> Seq<char>
    decreases ms.len(),
{
    if ms.len() == 0 {
        Seq::empty()
    } else {
        delta_for(ms[0], k) + deltas_for(ms.drop_first(), k)
    }
}

/// The argument text one item holds, empty before its first frame.
pub open spec fn args_of(st: StateModel, k: Seq<char>) -> Seq<char> {
    if st.tool_calls.contains_key(k) {
        st.tool_calls[k].arguments
    } else {
        Seq::empty()
    }
}

/// Arguments grow by strict append: after any run of
/// `function_call_arguments.delta` frames, an item's accumulated argument
/// text is what it held before followed by exactly its deltas, in arrival
/// order — never truncated, never reordered.
pub proof fn lemma_arguments_append_only(st: StateModel, ms: Seq<Json>, k: Seq<char>)
    requires
        k.len() > 0,
    ensures
        args_of(deltas_applied(st, ms), k) == args_of(st, k) + deltas_for(ms, k),
    decreases ms.len(),
{
    if ms.len() == 0 {
        assert(args_of(st, k) + Seq::<char>::empty() =~= args_of(st, k));
    } else {
        let st1 = state_after_fn_delta(st, ms[0]);
        lemma_arguments_append_only(st1, ms.drop_first(), k);
        let id = payload_str(ms[0], "item_id"@);
        if id.len() == 0 {
            assert(st1 == st);
            assert(delta_for(ms[0], k) =~= Seq::<char>::empty());
            assert(args_of(st, k) + deltas_for(ms, k) =~= args_of(st, k) + deltas_for(
                ms.drop_first(),
                k,
            ));
        } else if id == k {
            assert(args_of(st1, k) == args_of(st, k) + payload_str(ms[0], "delta"@));
            assert(args_of(st, k) + deltas_for(ms, k) =~= (args_of(st, k) + delta_for(ms[0], k))
                + deltas_for(ms.drop_first(), k));
        } else {
            assert(args_of(st1, k) == args_of(st, k));
            assert(delta_for(ms[0], k) =~= Seq::<char>::empty());
            assert(args_of(st, k) + deltas_for(ms, k) =~= args_of(st, k) + deltas_for(
                ms.drop_first(),
                k,
            ));
        }
    }
}

} // verus!
