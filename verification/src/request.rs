//! The OAuth/Codex request body: canonical messages translated into the
//! upstream's item list, and the fixed envelope around them.

use crate::json::{json_get, json_text_of, json_to_string, Json, JsonValue};
use crate::strutil::{contains_seq, split_sep, trim_seq};
use vstd::prelude::*;
use vstd::string::StringExecFns;

verus! {

/// One part of a message's content.
#[derive(Debug)]
pub enum ContentPart {
    Text { text: String },
    Image { image: String },
    Reasoning { text: String },
    ToolCall { tool_call_id: String, tool_name: String, input: JsonValue },
    ToolResult { tool_call_id: String, tool_name: String, output: JsonValue },
}

/// The mathematical shape of a content part.
pub enum ContentPartModel {
    Text { text: Seq<char> },
    Image { image: Seq<char> },
    Reasoning { text: Seq<char> },
    ToolCall { tool_call_id: Seq<char>, tool_name: Seq<char>, input: Json },
    ToolResult { tool_call_id: Seq<char>, tool_name: Seq<char>, output: Json },
}

impl DeepView for ContentPart {
    type V = ContentPartModel;

    open spec fn deep_view(&self) -> ContentPartModel {
        match self {
            ContentPart::Text { text } => ContentPartModel::Text { text: text@ },
            ContentPart::Image { image } => ContentPartModel::Image { image: image@ },
            ContentPart::Reasoning { text } => ContentPartModel::Reasoning { text: text@ },
            ContentPart::ToolCall { tool_call_id, tool_name, input } => ContentPartModel::ToolCall {
                tool_call_id: tool_call_id@,
                tool_name: tool_name@,
                input: input.model(),
            },
            ContentPart::ToolResult {
                tool_call_id,
                tool_name,
                output,
            } => ContentPartModel::ToolResult {
                tool_call_id: tool_call_id@,
                tool_name: tool_name@,
                output: output.model(),
            },
        }
    }
}

/// A message's content: plain text or ordered parts.
#[derive(Debug)]
pub enum MessageContent {
    Text(String),
    Parts(Vec<ContentPart>),
}

/// The mathematical shape of a message's content.
pub enum MessageContentModel {
    Text { text: Seq<char> },
    Parts { parts: Seq<ContentPartModel> },
}

impl DeepView for MessageContent {
    type V = MessageContentModel;

    open spec fn deep_view(&self) -> MessageContentModel {
        match self {
            MessageContent::Text(t) => MessageContentModel::Text { text: t@ },
            MessageContent::Parts(p) => MessageContentModel::Parts { parts: p.deep_view() },
        }
    }
}

/// One canonical message.
#[derive(Debug)]
pub enum Message {
    System { content: String },
    User { content: MessageContent },
    Assistant { content: MessageContent },
    Tool { content: Vec<ContentPart> },
}

/// The mathematical shape of a message.
pub enum MessageModel {
    System { content: Seq<char> },
    User { content: MessageContentModel },
    Assistant { content: MessageContentModel },
    Tool { content: Seq<ContentPartModel> },
}

impl DeepView for Message {
    type V = MessageModel;

    open spec fn deep_view(&self) -> MessageModel {
        match self {
            Message::System { content } => MessageModel::System { content: content@ },
            Message::User { content } => MessageModel::User { content: content.deep_view() },
            Message::Assistant { content } => MessageModel::Assistant {
                content: content.deep_view(),
            },
            Message::Tool { content } => MessageModel::Tool { content: content.deep_view() },
        }
    }
}

/// An `input_text` item.
pub open spec fn input_text_item(text: Seq<char>) -> Json {
    Json::Obj {
        fields: seq![
            ("type"@, Json::Str { s: "input_text"@ }),
            ("text"@, Json::Str { s: text }),
        ],
    }
}

/// An `input_image` item around an inline image.
pub open spec fn input_image_item(image: Seq<char>) -> Json {
    Json::Obj {
        fields: seq![
            ("type"@, Json::Str { s: "input_image"@ }),
            ("image_url"@, Json::Str { s: "data:image/png;base64,"@ + image }),
        ],
    }
}

/// A `message` item with a role and content parts.
pub open spec fn message_item(role: Seq<char>, content: Seq<Json>) -> Json {
    Json::Obj {
        fields: seq![
            ("type"@, Json::Str { s: "message"@ }),
            ("role"@, Json::Str { s: role }),
            ("content"@, Json::Arr { items: content }),
        ],
    }
}

/// A `function_call` item.
pub open spec fn function_call_item(call_id: Seq<char>, name: Seq<char>, arguments: Seq<char>)
    -> Json {
    Json::Obj {
        fields: seq![
            ("type"@, Json::Str { s: "function_call"@ }),
            ("call_id"@, Json::Str { s: call_id }),
            ("name"@, Json::Str { s: name }),
            ("arguments"@, Json::Str { s: arguments }),
        ],
    }
}

/// A `function_call_output` item.
pub open spec fn function_call_output_item(call_id: Seq<char>, output: Seq<char>) -> Json {
    Json::Obj {
        fields: seq![
            ("type"@, Json::Str { s: "function_call_output"@ }),
            ("call_id"@, Json::Str { s: call_id }),
            ("output"@, Json::Str { s: output }),
        ],
    }
}

/// The text a tool result is sent as: its `value` field when that is a
/// string, else the whole output rendered.
pub open spec fn tool_output_text(output: Json) -> Seq<char> {
    match json_get(output, "value"@) {
        Some(f) => match f {
            Json::Str { s } => s,
            _ => json_text_of(output),
        },
        None => json_text_of(output),
    }
}

/// The input items one user-facing content run yields: non-blank text and
/// reasoning as `input_text`, images as `input_image`, tool parts skipped.
pub open spec fn input_content_of(content: MessageContentModel) -> Seq<Json> {
    match content {
        MessageContentModel::Text { text } => if trim_seq(text).len() == 0 {
            Seq::empty()
        } else {
            seq![input_text_item(text)]
        },
        MessageContentModel::Parts { parts } => input_parts_of(parts),
    }
}

/// The input items of a list of parts, in order.
pub open spec fn input_parts_of(parts: Seq<ContentPartModel>) -> Seq<Json>
    decreases parts.len(),
{
    if parts.len() == 0 {
        Seq::empty()
    } else {
        let head: Seq<Json> = match parts[0] {
            ContentPartModel::Text { text } => if trim_seq(text).len() == 0 {
                Seq::empty()
            } else {
                seq![input_text_item(text)]
            },
            ContentPartModel::Reasoning { text } => if trim_seq(text).len() == 0 {
                Seq::empty()
            } else {
                seq![input_text_item(text)]
            },
            ContentPartModel::Image { image } => seq![input_image_item(image)],
            _ => Seq::empty(),
        };
        head + input_parts_of(parts.drop_first())
    }
}

/// The items an assistant message's parts yield: text, reasoning and
/// images buffer up and flush as one assistant message whenever a tool
/// call interrupts the run or the parts end; each named tool call becomes
/// a `function_call` item, its input rendered as the argument text.
pub open spec fn assistant_fold(parts: Seq<ContentPartModel>, pending: Seq<Json>) -> Seq<Json>
    decreases parts.len(),
{
    if parts.len() == 0 {
        if pending.len() > 0 {
            seq![message_item("assistant"@, pending)]
        } else {
            Seq::empty()
        }
    } else {
        match parts[0] {
            ContentPartModel::Text { text } => assistant_fold(
                parts.drop_first(),
                if trim_seq(text).len() == 0 {
                    pending
                } else {
                    pending.push(input_text_item(text))
                },
            ),
            ContentPartModel::Reasoning { text } => assistant_fold(
                parts.drop_first(),
                if trim_seq(text).len() == 0 {
                    pending
                } else {
                    pending.push(input_text_item(text))
                },
            ),
            ContentPartModel::Image { image } => assistant_fold(
                parts.drop_first(),
                pending.push(input_image_item(image)),
            ),
            ContentPartModel::ToolCall { tool_call_id, tool_name, input } => {
                let flushed: Seq<Json> = if pending.len() > 0 {
                    seq![message_item("assistant"@, pending)]
                } else {
                    Seq::empty()
                };
                let call: Seq<Json> = if trim_seq(tool_name).len() == 0 {
                    Seq::empty()
                } else {
                    seq![function_call_item(tool_call_id, tool_name, json_text_of(input))]
                };
                flushed + call + assistant_fold(parts.drop_first(), Seq::empty())
            },
            ContentPartModel::ToolResult { .. } => assistant_fold(parts.drop_first(), pending),
        }
    }
}

/// The items one assistant message yields.
pub open spec fn assistant_items_of(content: MessageContentModel) -> Seq<Json> {
    match content {
        MessageContentModel::Text { text } => if trim_seq(text).len() == 0 {
            Seq::empty()
        } else {
            seq![message_item("assistant"@, seq![input_text_item(text)])]
        },
        MessageContentModel::Parts { parts } => assistant_fold(parts, Seq::empty()),
    }
}

/// The items a tool message yields: one `function_call_output` per tool
/// result part.
pub open spec fn tool_items_of(parts: Seq<ContentPartModel>) -> Seq<Json>
    decreases parts.len(),
{
    if parts.len() == 0 {
        Seq::empty()
    } else {
        let head: Seq<Json> = match parts[0] {
            ContentPartModel::ToolResult { tool_call_id, output, .. } => seq![
                function_call_output_item(tool_call_id, tool_output_text(output)),
            ],
            _ => Seq::empty(),
        };
        head + tool_items_of(parts.drop_first())
    }
}

/// The items one message yields: a non-blank system message becomes a
/// developer message; user content becomes one message when non-empty.
pub open spec fn message_items_of(m: MessageModel) -> Seq<Json> {
    match m {
        MessageModel::System { content } => if trim_seq(content).len() == 0 {
            Seq::empty()
        } else {
            seq![message_item("developer"@, seq![input_text_item(content)])]
        },
        MessageModel::User { content } => {
            let parts = input_content_of(content);
            if parts.len() == 0 {
                Seq::empty()
            } else {
                seq![message_item("user"@, parts)]
            }
        },
        MessageModel::Assistant { content } => assistant_items_of(content),
        MessageModel::Tool { content } => tool_items_of(content),
    }
}

/// The whole input list of a request.
pub open spec fn input_items_of(messages: Seq<MessageModel>) -> Seq<Json>
    decreases messages.len(),
{
    if messages.len() == 0 {
        Seq::empty()
    } else {
        message_items_of(messages[0]) + input_items_of(messages.drop_first())
    }
}

/// An upper-case ASCII letter lowered; anything else kept.
pub open spec fn lower_char(c: char) -> char {
    if ('A' as u32) <= (c as u32) && (c as u32) <= ('Z' as u32) {
        (((c as u32) + 32) as u8) as char
    } else {
        c
    }
}

/// ASCII letters lowered across a sequence.
pub open spec fn lower_ascii(s: Seq<char>) -> Seq<char> {
    s.map_values(|c: char| lower_char(c))
}

/// The model name the upstream is asked for: the identifier's last
/// slash-separated segment, letters lowered; names naming the maximal
/// codex model keep it, anything else falls back to the stock codex model.
pub open spec fn normalized_model(name: Seq<char>) -> Seq<char> {
    let segs = split_sep(name, '/');
    let id = if segs.len() > 1 {
        segs.last()
    } else {
        name
    };
    let lower = lower_ascii(id);
    if contains_seq(lower, "gpt-5.1-codex-max"@) || contains_seq(lower, "gpt 5.1 codex max"@) {
        "gpt-5.1-codex-max"@
    } else {
        "gpt-5.2-codex"@
    }
}

/// Lower a name's ASCII letters.
fn ascii_lower(s: &Vec<char>) -> (r: Vec<char>)
    ensures
        r@ == lower_ascii(s@),
{
    let n = s.len();
    let mut out: Vec<char> = Vec::new();
    let mut i: usize = 0;
    while i < n
        invariant
            i <= n,
            n == s@.len(),
            out@ =~= lower_ascii(s@.take(i as int)),
        decreases n - i,
    {
        let c = s[i];
        let cu = c as u32;
        if ('A' as u32) <= cu && cu <= ('Z' as u32) {
            out.push(((cu + 32) as u8) as char);
        } else {
            out.push(c);
        }
        proof {
            assert(out@ =~= lower_ascii(s@.take(i + 1)));
        }
        i = i + 1;
    }
    proof {
        assert(s@.take(n as int) =~= s@);
    }
    out
}

/// Normalize a model identifier, per [`normalized_model`].
pub fn normalize_model(model_name: &str) -> (r: String)
    ensures
        r@ == normalized_model(model_name@),
{
    let chars = crate::strutil::str_chars(model_name);
    let segs = crate::strutil::split_sep_chars(&chars, '/');
    let id: &Vec<char> = if segs.len() > 1 {
        &segs[segs.len() - 1]
    } else {
        &chars
    };
    proof {
        let sv = split_sep(model_name@, '/');
        if segs@.len() > 1 {
            assert(segs.deep_view()[segs@.len() - 1] == sv.last());
            assert(id@ == sv.last());
        } else {
            assert(id@ == model_name@);
        }
    }
    let lower = ascii_lower(id);
    let max_name = crate::strutil::chars_contain(&lower, "gpt-5.1-codex-max")
        || crate::strutil::chars_contain(&lower, "gpt 5.1 codex max");
    if max_name {
        "gpt-5.1-codex-max".to_owned()
    } else {
        "gpt-5.2-codex".to_owned()
    }
}

/// Build the text a tool result is sent as, per [`tool_output_text`].
fn tool_output_to_string(output: &JsonValue) -> (r: String)
    ensures
        r@ == tool_output_text(output.model()),
{
    match output.get("value") {
        Some(v) => match v.as_str() {
            Some(s) => s.to_owned(),
            None => json_to_string(output),
        },
        None => json_to_string(output),
    }
}

/// One tool offered to the model.
#[derive(Debug)]
pub struct ToolDefinition {
    pub name: String,
    pub description: String,
    pub parameters: JsonValue,
}

/// The mathematical shape of a tool definition.
pub struct ToolDefinitionModel {
    pub name: Seq<char>,
    pub description: Seq<char>,
    pub parameters: Json,
}

impl DeepView for ToolDefinition {
    type V = ToolDefinitionModel;

    open spec fn deep_view(&self) -> ToolDefinitionModel {
        ToolDefinitionModel {
            name: self.name@,
            description: self.description@,
            parameters: self.parameters.model(),
        }
    }
}

/// A streamed completion request as the shell hands it in.
#[derive(Debug)]
pub struct StreamTextRequest {
    pub model: String,
    pub messages: Vec<Message>,
    pub tools: Option<Vec<ToolDefinition>>,
    pub temperature: Option<JsonValue>,
    pub top_p: Option<JsonValue>,
    pub top_k: Option<i64>,
    pub max_tokens: Option<i64>,
}

/// The flat tool item the upstream expects.
pub open spec fn tool_item(t: ToolDefinitionModel) -> Json {
    Json::Obj {
        fields: seq![
            ("type"@, Json::Str { s: "function"@ }),
            ("name"@, Json::Str { s: t.name }),
            ("description"@, Json::Str { s: t.description }),
            ("parameters"@, t.parameters),
        ],
    }
}

/// The mapped tool list.
pub open spec fn tool_items_list(ts: Seq<ToolDefinitionModel>) -> Seq<Json>
    decreases ts.len(),
{
    if ts.len() == 0 {
        Seq::empty()
    } else {
        seq![tool_item(ts[0])] + tool_items_list(ts.drop_first())
    }
}

/// The whole request body: the normalized model, the translated input
/// items, the fixed envelope, then the tools and sampling values that were
/// given.
pub open spec fn request_body_of(
    messages: Seq<MessageModel>,
    tools: Option<Seq<ToolDefinitionModel>>,
    temperature: Option<Json>,
    top_p: Option<Json>,
    model: Seq<char>,
    instructions: Seq<char>,
) -> Json {
    let base: Seq<(Seq<char>, Json)> = seq![
        ("model"@, Json::Str { s: normalized_model(model) }),
        ("input"@, Json::Arr { items: input_items_of(messages) }),
        ("store"@, Json::Bool { b: false }),
        ("stream"@, Json::Bool { b: true }),
        ("instructions"@, Json::Str { s: instructions }),
        (
            "text"@,
            Json::Obj { fields: seq![("verbosity"@, Json::Str { s: "medium"@ })] },
        ),
        (
            "include"@,
            Json::Arr { items: seq![Json::Str { s: "reasoning.encrypted_content"@ }] },
        ),
    ];
    let with_tools: Seq<(Seq<char>, Json)> = match tools {
        Some(ts) => base.push(("tools"@, Json::Arr { items: tool_items_list(ts) })),
        None => base,
    };
    let with_temp: Seq<(Seq<char>, Json)> = match temperature {
        Some(t) => with_tools.push(("temperature"@, t)),
        None => with_tools,
    };
    let with_top_p: Seq<(Seq<char>, Json)> = match top_p {
        Some(p) => with_temp.push(("top_p"@, p)),
        None => with_temp,
    };
    Json::Obj { fields: with_top_p }
}

/// Push one field and keep the model bookkeeping.
fn push_field(fields: &mut Vec<(String, JsonValue)>, key: &str, value: JsonValue)
    ensures
        crate::json::model_fields(final(fields)@) == crate::json::model_fields(old(fields)@).push(
            (key@, value.model()),
        ),
{
    let ghost old_fields = fields@;
    let ghost vm = value.model();
    fields.push((key.to_owned(), value));
    proof {
        crate::json::lemma_model_fields(old_fields);
        crate::json::lemma_model_fields(fields@);
        assert(crate::json::model_fields(fields@) =~= crate::json::model_fields(old_fields).push(
            (key@, vm),
        ));
    }
}

/// Build an `input_text` item.
fn make_input_text(text: String) -> (r: JsonValue)
    ensures
        r.model() == input_text_item(text@),
{
    let ghost tv = text@;
    let mut fields: Vec<(String, JsonValue)> = Vec::new();
    proof {
        assert(crate::json::model_fields(fields@) =~= Seq::<(Seq<char>, Json)>::empty());
    }
    push_field(&mut fields, "type", JsonValue::Str("input_text".to_owned()));
    push_field(&mut fields, "text", JsonValue::Str(text));
    let ghost fm = crate::json::model_fields(fields@);
    let r = JsonValue::Obj(fields);
    proof {
        assert(fm =~= input_text_item(tv)->Obj_fields);
    }
    r
}

/// Build an `input_image` item.
fn make_input_image(image: String) -> (r: JsonValue)
    ensures
        r.model() == input_image_item(image@),
{
    let ghost iv = image@;
    let mut url = "data:image/png;base64,".to_owned();
    url.append(image.as_str());
    let mut fields: Vec<(String, JsonValue)> = Vec::new();
    proof {
        assert(crate::json::model_fields(fields@) =~= Seq::<(Seq<char>, Json)>::empty());
    }
    push_field(&mut fields, "type", JsonValue::Str("input_image".to_owned()));
    push_field(&mut fields, "image_url", JsonValue::Str(url));
    let ghost fm = crate::json::model_fields(fields@);
    let r = JsonValue::Obj(fields);
    proof {
        assert(fm =~= input_image_item(iv)->Obj_fields);
    }
    r
}

/// Build a `message` item.
fn make_message_item(role: &str, content: Vec<JsonValue>) -> (r: JsonValue)
    ensures
        r.model() == message_item(role@, crate::json::model_items(content@)),
{
    let ghost cm = crate::json::model_items(content@);
    let mut fields: Vec<(String, JsonValue)> = Vec::new();
    proof {
        assert(crate::json::model_fields(fields@) =~= Seq::<(Seq<char>, Json)>::empty());
    }
    push_field(&mut fields, "type", JsonValue::Str("message".to_owned()));
    push_field(&mut fields, "role", JsonValue::Str(role.to_owned()));
    push_field(&mut fields, "content", JsonValue::Arr(content));
    let ghost fm = crate::json::model_fields(fields@);
    let r = JsonValue::Obj(fields);
    proof {
        assert(fm =~= message_item(role@, cm)->Obj_fields);
    }
    r
}

/// Build a `function_call` item.
fn make_function_call(call_id: String, name: String, arguments: String) -> (r: JsonValue)
    ensures
        r.model() == function_call_item(call_id@, name@, arguments@),
{
    let ghost idv = call_id@;
    let ghost nv = name@;
    let ghost av = arguments@;
    let mut fields: Vec<(String, JsonValue)> = Vec::new();
    proof {
        assert(crate::json::model_fields(fields@) =~= Seq::<(Seq<char>, Json)>::empty());
    }
    push_field(&mut fields, "type", JsonValue::Str("function_call".to_owned()));
    push_field(&mut fields, "call_id", JsonValue::Str(call_id));
    push_field(&mut fields, "name", JsonValue::Str(name));
    push_field(&mut fields, "arguments", JsonValue::Str(arguments));
    let ghost fm = crate::json::model_fields(fields@);
    let r = JsonValue::Obj(fields);
    proof {
        assert(fm =~= function_call_item(idv, nv, av)->Obj_fields);
    }
    r
}

/// Build a `function_call_output` item.
fn make_function_call_output(call_id: String, output: String) -> (r: JsonValue)
    ensures
        r.model() == function_call_output_item(call_id@, output@),
{
    let ghost idv = call_id@;
    let ghost ov = output@;
    let mut fields: Vec<(String, JsonValue)> = Vec::new();
    proof {
        assert(crate::json::model_fields(fields@) =~= Seq::<(Seq<char>, Json)>::empty());
    }
    push_field(&mut fields, "type", JsonValue::Str("function_call_output".to_owned()));
    push_field(&mut fields, "call_id", JsonValue::Str(call_id));
    push_field(&mut fields, "output", JsonValue::Str(output));
    let ghost fm = crate::json::model_fields(fields@);
    let r = JsonValue::Obj(fields);
    proof {
        assert(fm =~= function_call_output_item(idv, ov)->Obj_fields);
    }
    r
}

/// Empty a list, handing its items back in order.
fn drain_items(v: &mut Vec<JsonValue>) -> (r: Vec<JsonValue>)
    ensures
        r@ == old(v)@,
        final(v)@ == Seq::<JsonValue>::empty(),
{
    let mut out: Vec<JsonValue> = Vec::new();
    while v.len() > 0
        invariant
            out@ + v@ == old(v)@,
        decreases v@.len(),
    {
        let ev = v.remove(0);
        out.push(ev);
        proof {
            assert(out@ + v@ =~= old(v)@);
        }
    }
    proof {
        assert(v@ =~= Seq::<JsonValue>::empty());
        assert(out@ =~= old(v)@);
    }
    out
}

/// Whether a text is blank once trimmed.
fn is_blank(text: &str) -> (r: bool)
    ensures
        r == (trim_seq(text@).len() == 0),
{
    let chars = crate::strutil::str_chars(text);
    let trimmed = crate::strutil::trim_chars(&chars);
    trimmed.len() == 0
}

/// Push an item and keep the model bookkeeping.
fn push_item(items: &mut Vec<JsonValue>, item: JsonValue)
    ensures
        crate::json::model_items(final(items)@) == crate::json::model_items(old(items)@).push(
            item.model(),
        ),
{
    let ghost old_items = items@;
    let ghost im = item.model();
    items.push(item);
    proof {
        crate::json::lemma_model_items(old_items);
        crate::json::lemma_model_items(items@);
        assert(crate::json::model_items(items@) =~= crate::json::model_items(old_items).push(im));
    }
}

/// Move a batch of items to the back, keeping the model bookkeeping.
fn append_items(items: &mut Vec<JsonValue>, batch: Vec<JsonValue>)
    ensures
        crate::json::model_items(final(items)@) == crate::json::model_items(old(items)@)
            + crate::json::model_items(batch@),
{
    let ghost base = crate::json::model_items(items@);
    let ghost bm = crate::json::model_items(batch@);
    let mut batch = batch;
    let ghost mut taken: Seq<Json> = Seq::empty();
    proof {
        crate::json::lemma_model_items(batch@);
    }
    while batch.len() > 0
        invariant
            crate::json::model_items(items@) == base + taken,
            taken + crate::json::model_items(batch@) == bm,
        decreases batch@.len(),
    {
        let ghost bv = batch@;
        let ev = batch.remove(0);
        proof {
            crate::json::lemma_model_items(bv);
            crate::json::lemma_model_items(batch@);
            assert(crate::json::model_items(batch@) =~= crate::json::model_items(bv).drop_first());
            assert(ev.model() == crate::json::model_items(bv)[0]);
        }
        let ghost em = ev.model();
        push_item(items, ev);
        proof {
            taken = taken.push(em);
            assert(crate::json::model_items(items@) =~= base + taken);
            assert(taken + crate::json::model_items(batch@) =~= bm);
        }
    }
    proof {
        assert(crate::json::model_items(batch@) =~= Seq::<Json>::empty());
        assert(taken =~= bm);
        assert(base + taken =~= base + bm);
    }
}

/// The input items of one content run, per [`input_content_of`].
fn build_input_content(content: &MessageContent) -> (r: Vec<JsonValue>)
    ensures
        crate::json::model_items(r@) == input_content_of(content.deep_view()),
{
    let mut out: Vec<JsonValue> = Vec::new();
    proof {
        assert(crate::json::model_items(out@) =~= Seq::<Json>::empty());
    }
    match content {
        MessageContent::Text(text) => {
            if !is_blank(text.as_str()) {
                push_item(&mut out, make_input_text(text.clone()));
                proof {
                    assert(crate::json::model_items(out@) =~= input_content_of(
                        content.deep_view(),
                    ));
                }
            }
            out
        },
        MessageContent::Parts(parts) => {
            let ghost pm = parts.deep_view();
            let n = parts.len();
            let mut i: usize = 0;
            proof {
                assert(pm.skip(0) =~= pm);
            }
            while i < n
                invariant
                    i <= n,
                    n == parts@.len(),
                    pm == parts.deep_view(),
                    input_parts_of(pm) == crate::json::model_items(out@) + input_parts_of(
                        pm.skip(i as int),
                    ),
                decreases n - i,
            {
                let ghost rest = pm.skip(i as int);
                proof {
                    assert(rest[0] == pm[i as int]);
                    assert(rest.drop_first() =~= pm.skip(i + 1));
                    assert(pm[i as int] == parts@[i as int].deep_view());
                }
                let ghost before = crate::json::model_items(out@);
                match &parts[i] {
                    ContentPart::Text { text } => {
                        if !is_blank(text.as_str()) {
                            push_item(&mut out, make_input_text(text.clone()));
                        }
                    },
                    ContentPart::Reasoning { text } => {
                        if !is_blank(text.as_str()) {
                            push_item(&mut out, make_input_text(text.clone()));
                        }
                    },
                    ContentPart::Image { image } => {
                        push_item(&mut out, make_input_image(image.clone()));
                    },
                    ContentPart::ToolCall { .. } => {},
                    ContentPart::ToolResult { .. } => {},
                }
                proof {
                    assert(input_parts_of(pm) =~= crate::json::model_items(out@)
                        + input_parts_of(pm.skip(i + 1)));
                }
                i = i + 1;
            }
            proof {
                assert(pm.skip(n as int) =~= Seq::<ContentPartModel>::empty());
                assert(crate::json::model_items(out@) =~= input_parts_of(pm));
            }
            out
        },
    }
}

/// The items of one assistant message, per [`assistant_items_of`].
fn build_assistant_items(content: &MessageContent, input_items: &mut Vec<JsonValue>)
    ensures
        crate::json::model_items(final(input_items)@) == crate::json::model_items(
            old(input_items)@,
        ) + assistant_items_of(content.deep_view()),
{
    let ghost base = crate::json::model_items(input_items@);
    match content {
        MessageContent::Text(text) => {
            if !is_blank(text.as_str()) {
                let mut content_parts: Vec<JsonValue> = Vec::new();
                proof {
                    assert(crate::json::model_items(content_parts@) =~= Seq::<Json>::empty());
                }
                push_item(&mut content_parts, make_input_text(text.clone()));
                let ghost cpm = crate::json::model_items(content_parts@);
                push_item(input_items, make_message_item("assistant", content_parts));
                proof {
                    assert(cpm =~= seq![input_text_item(text@)]);
                    assert(crate::json::model_items(input_items@) =~= base + assistant_items_of(
                        content.deep_view(),
                    ));
                }
            } else {
                proof {
                    assert(crate::json::model_items(input_items@) =~= base + assistant_items_of(
                        content.deep_view(),
                    ));
                }
            }
        },
        MessageContent::Parts(parts) => {
            let ghost pm = parts.deep_view();
            let mut pending: Vec<JsonValue> = Vec::new();
            let n = parts.len();
            let mut i: usize = 0;
            proof {
                assert(pm.skip(0) =~= pm);
                assert(crate::json::model_items(pending@) =~= Seq::<Json>::empty());
            }
            while i < n
                invariant
                    i <= n,
                    n == parts@.len(),
                    pm == parts.deep_view(),
                    base + assistant_fold(pm, Seq::empty()) == crate::json::model_items(
                        input_items@,
                    ) + assistant_fold(
                        pm.skip(i as int),
                        crate::json::model_items(pending@),
                    ),
                decreases n - i,
            {
                let ghost rest = pm.skip(i as int);
                let ghost pend = crate::json::model_items(pending@);
                proof {
                    assert(rest[0] == pm[i as int]);
                    assert(rest.drop_first() =~= pm.skip(i + 1));
                    assert(pm[i as int] == parts@[i as int].deep_view());
                }
                match &parts[i] {
                    ContentPart::Text { text } => {
                        if !is_blank(text.as_str()) {
                            push_item(&mut pending, make_input_text(text.clone()));
                        }
                    },
                    ContentPart::Reasoning { text } => {
                        if !is_blank(text.as_str()) {
                            push_item(&mut pending, make_input_text(text.clone()));
                        }
                    },
                    ContentPart::Image { image } => {
                        push_item(&mut pending, make_input_image(image.clone()));
                    },
                    ContentPart::ToolCall { tool_call_id, tool_name, input } => {
                        if pending.len() > 0 {
                            let flushed = drain_items(&mut pending);
                            push_item(input_items, make_message_item("assistant", flushed));
                        }
                        proof {
                            assert(crate::json::model_items(pending@) =~= Seq::<Json>::empty());
                        }
                        if !is_blank(tool_name.as_str()) {
                            let arguments = json_to_string(input);
                            push_item(
                                input_items,
                                make_function_call(
                                    tool_call_id.clone(),
                                    tool_name.clone(),
                                    arguments,
                                ),
                            );
                        }
                    },
                    ContentPart::ToolResult { .. } => {},
                }
                proof {
                    assert(base + assistant_fold(pm, Seq::empty()) =~= crate::json::model_items(
                        input_items@,
                    ) + assistant_fold(pm.skip(i + 1), crate::json::model_items(pending@)));
                }
                i = i + 1;
            }
            if pending.len() > 0 {
                let flushed = drain_items(&mut pending);
                push_item(input_items, make_message_item("assistant", flushed));
            }
            proof {
                assert(pm.skip(n as int) =~= Seq::<ContentPartModel>::empty());
                assert(crate::json::model_items(input_items@) =~= base + assistant_fold(
                    pm,
                    Seq::empty(),
                ));
            }
        },
    }
}

/// The items of one tool message, per [`tool_items_of`].
fn build_tool_items(parts: &Vec<ContentPart>, input_items: &mut Vec<JsonValue>)
    ensures
        crate::json::model_items(final(input_items)@) == crate::json::model_items(
            old(input_items)@,
        ) + tool_items_of(parts.deep_view()),
{
    let ghost base = crate::json::model_items(input_items@);
    let ghost pm = parts.deep_view();
    let n = parts.len();
    let mut i: usize = 0;
    proof {
        assert(pm.skip(0) =~= pm);
    }
    while i < n
        invariant
            i <= n,
            n == parts@.len(),
            pm == parts.deep_view(),
            base + tool_items_of(pm) == crate::json::model_items(input_items@) + tool_items_of(
                pm.skip(i as int),
            ),
        decreases n - i,
    {
        let ghost rest = pm.skip(i as int);
        proof {
            assert(rest[0] == pm[i as int]);
            assert(rest.drop_first() =~= pm.skip(i + 1));
            assert(pm[i as int] == parts@[i as int].deep_view());
        }
        match &parts[i] {
            ContentPart::ToolResult { tool_call_id, output, .. } => {
                let text = tool_output_to_string(output);
                push_item(input_items, make_function_call_output(tool_call_id.clone(), text));
            },
            _ => {},
        }
        proof {
            assert(base + tool_items_of(pm) =~= crate::json::model_items(input_items@)
                + tool_items_of(pm.skip(i + 1)));
        }
        i = i + 1;
    }
    proof {
        assert(pm.skip(n as int) =~= Seq::<ContentPartModel>::empty());
        assert(crate::json::model_items(input_items@) =~= base + tool_items_of(pm));
    }
}

/// The whole input list, per [`input_items_of`].
fn build_input_items(messages: &Vec<Message>) -> (r: Vec<JsonValue>)
    ensures
        crate::json::model_items(r@) == input_items_of(messages.deep_view()),
{
    let ghost mm = messages.deep_view();
    let mut out: Vec<JsonValue> = Vec::new();
    let n = messages.len();
    let mut i: usize = 0;
    proof {
        assert(mm.skip(0) =~= mm);
        assert(crate::json::model_items(out@) =~= Seq::<Json>::empty());
    }
    while i < n
        invariant
            i <= n,
            n == messages@.len(),
            mm == messages.deep_view(),
            input_items_of(mm) == crate::json::model_items(out@) + input_items_of(
                mm.skip(i as int),
            ),
        decreases n - i,
    {
        let ghost rest = mm.skip(i as int);
        proof {
            assert(rest[0] == mm[i as int]);
            assert(rest.drop_first() =~= mm.skip(i + 1));
            assert(mm[i as int] == messages@[i as int].deep_view());
        }
        match &messages[i] {
            Message::System { content } => {
                if !is_blank(content.as_str()) {
                    let mut inner: Vec<JsonValue> = Vec::new();
                    proof {
                        assert(crate::json::model_items(inner@) =~= Seq::<Json>::empty());
                    }
                    push_item(&mut inner, make_input_text(content.clone()));
                    let ghost im = crate::json::model_items(inner@);
                    push_item(&mut out, make_message_item("developer", inner));
                    proof {
                        assert(im =~= seq![input_text_item(content@)]);
                    }
                }
            },
            Message::User { content } => {
                let content_parts = build_input_content(content);
                if content_parts.len() > 0 {
                    proof {
                        crate::json::lemma_model_items(content_parts@);
                    }
                    push_item(&mut out, make_message_item("user", content_parts));
                } else {
                    proof {
                        crate::json::lemma_model_items(content_parts@);
                        assert(input_content_of(content.deep_view()) =~= Seq::<Json>::empty());
                    }
                }
            },
            Message::Assistant { content } => {
                build_assistant_items(content, &mut out);
            },
            Message::Tool { content } => {
                build_tool_items(content, &mut out);
            },
        }
        proof {
            assert(input_items_of(mm) =~= crate::json::model_items(out@) + input_items_of(
                mm.skip(i + 1),
            ));
        }
        i = i + 1;
    }
    proof {
        assert(mm.skip(n as int) =~= Seq::<MessageModel>::empty());
        assert(crate::json::model_items(out@) =~= input_items_of(mm));
    }
    out
}

/// The view of optional sampling values.
pub open spec fn opt_model(o: Option<JsonValue>) -> Option<Json> {
    match o {
        Some(v) => Some(v.model()),
        None => None,
    }
}

/// The view of an optional tool list.
pub open spec fn opt_tools_model(o: Option<Vec<ToolDefinition>>) -> Option<
    Seq<ToolDefinitionModel>,
> {
    match o {
        Some(ts) => Some(ts.deep_view()),
        None => None,
    }
}

/// Build the whole OAuth/Codex request body, per [`request_body_of`]: the
/// canonical messages translated into input items around the fixed
/// envelope, with the tools and sampling values the request carries.
pub fn build_openai_oauth_request(request: &StreamTextRequest, model: &str, instructions: &str)
    -> (r: JsonValue)
    ensures
        r.model() == request_body_of(
            request.messages.deep_view(),
            opt_tools_model(request.tools),
            opt_model(request.temperature),
            opt_model(request.top_p),
            model@,
            instructions@,
        ),
{
    let input_items = build_input_items(&request.messages);
    proof {
        crate::json::lemma_model_items(input_items@);
    }
    let mut fields: Vec<(String, JsonValue)> = Vec::new();
    proof {
        assert(crate::json::model_fields(fields@) =~= Seq::<(Seq<char>, Json)>::empty());
    }
    push_field(&mut fields, "model", JsonValue::Str(normalize_model(model)));
    push_field(&mut fields, "input", JsonValue::Arr(input_items));
    push_field(&mut fields, "store", JsonValue::Bool(false));
    push_field(&mut fields, "stream", JsonValue::Bool(true));
    push_field(&mut fields, "instructions", JsonValue::Str(instructions.to_owned()));
    let mut verbosity: Vec<(String, JsonValue)> = Vec::new();
    proof {
        assert(crate::json::model_fields(verbosity@) =~= Seq::<(Seq<char>, Json)>::empty());
    }
    push_field(&mut verbosity, "verbosity", JsonValue::Str("medium".to_owned()));
    let ghost vm = crate::json::model_fields(verbosity@);
    push_field(&mut fields, "text", JsonValue::Obj(verbosity));
    let mut included: Vec<JsonValue> = Vec::new();
    proof {
        assert(crate::json::model_items(included@) =~= Seq::<Json>::empty());
    }
    push_item(&mut included, JsonValue::Str("reasoning.encrypted_content".to_owned()));
    push_field(&mut fields, "include", JsonValue::Arr(included));
    match &request.tools {
        Some(tools) => {
            let ghost tm = tools.deep_view();
            let mut mapped: Vec<JsonValue> = Vec::new();
            let tn = tools.len();
            let mut t: usize = 0;
            proof {
                assert(tm.skip(0) =~= tm);
                assert(crate::json::model_items(mapped@) =~= Seq::<Json>::empty());
            }
            while t < tn
                invariant
                    t <= tn,
                    tn == tools@.len(),
                    tm == tools.deep_view(),
                    tool_items_list(tm) == crate::json::model_items(mapped@) + tool_items_list(
                        tm.skip(t as int),
                    ),
                decreases tn - t,
            {
                let ghost rest = tm.skip(t as int);
                proof {
                    assert(rest[0] == tm[t as int]);
                    assert(rest.drop_first() =~= tm.skip(t + 1));
                    assert(tm[t as int] == tools@[t as int].deep_view());
                }
                let tool = &tools[t];
                let mut tf: Vec<(String, JsonValue)> = Vec::new();
                proof {
                    assert(crate::json::model_fields(tf@) =~= Seq::<(Seq<char>, Json)>::empty());
                }
                push_field(&mut tf, "type", JsonValue::Str("function".to_owned()));
                push_field(&mut tf, "name", JsonValue::Str(tool.name.clone()));
                push_field(&mut tf, "description", JsonValue::Str(tool.description.clone()));
                push_field(&mut tf, "parameters", crate::json::clone_json(&tool.parameters));
                let ghost tfm = crate::json::model_fields(tf@);
                push_item(&mut mapped, JsonValue::Obj(tf));
                proof {
                    assert(tfm =~= tool_item(tm[t as int])->Obj_fields);
                    assert(tool_items_list(tm) =~= crate::json::model_items(mapped@)
                        + tool_items_list(tm.skip(t + 1)));
                }
                t = t + 1;
            }
            proof {
                assert(tm.skip(tn as int) =~= Seq::<ToolDefinitionModel>::empty());
                assert(crate::json::model_items(mapped@) =~= tool_items_list(tm));
            }
            push_field(&mut fields, "tools", JsonValue::Arr(mapped));
        },
        None => {},
    }
    match &request.temperature {
        Some(tv) => {
            push_field(&mut fields, "temperature", crate::json::clone_json(tv));
        },
        None => {},
    }
    match &request.top_p {
        Some(pv) => {
            push_field(&mut fields, "top_p", crate::json::clone_json(pv));
        },
        None => {},
    }
    let ghost fm = crate::json::model_fields(fields@);
    let r = JsonValue::Obj(fields);
    proof {
        assert(fm =~= request_body_of(
            request.messages.deep_view(),
            opt_tools_model(request.tools),
            opt_model(request.temperature),
            opt_model(request.top_p),
            model@,
            instructions@,
        )->Obj_fields);
    }
    r
}

} // verus!
