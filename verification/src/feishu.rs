//! The IM gateway's message filters and payload shapes: which senders and
//! chats are served, and how attachments are named.

use crate::json::{json_get, parse_json, Json, JsonValue};
use crate::strutil::{contains_seq, str_eq};
use vstd::prelude::*;
use vstd::string::StringExecFns;

verus! {

/// The gateway's configuration.
#[derive(Debug)]
pub struct FeishuConfig {
    pub enabled: bool,
    pub app_id: String,
    pub app_secret: String,
    pub encrypt_key: String,
    pub verification_token: String,
    pub allowed_open_ids: Vec<String>,
}

/// An attachment stored for a received message.
#[derive(Debug)]
pub struct FeishuRemoteAttachment {
    pub id: String,
    pub attachment_type: String,
    pub file_path: String,
    pub filename: String,
    pub mime_type: String,
    pub size: u64,
    pub duration_seconds: Option<u32>,
    pub caption: Option<String>,
}

/// A message received from the gateway.
#[derive(Debug)]
pub struct FeishuInboundMessage {
    pub chat_id: String,
    pub message_id: String,
    pub text: String,
    pub open_id: String,
    pub date: i64,
    pub attachments: Option<Vec<FeishuRemoteAttachment>>,
}

/// A request to send a message.
#[derive(Debug)]
pub struct FeishuSendMessageRequest {
    pub open_id: String,
    pub text: String,
}

/// The id of a sent message.
#[derive(Debug)]
pub struct FeishuSendMessageResponse {
    pub message_id: String,
}

/// A request to edit a sent message.
#[derive(Debug)]
pub struct FeishuEditMessageRequest {
    pub message_id: String,
    pub text: String,
}

/// The gateway's current standing.
#[derive(Debug)]
pub struct FeishuGatewayStatus {
    pub running: bool,
    pub last_event_at_ms: Option<i64>,
    pub last_error: Option<String>,
    pub last_error_at_ms: Option<i64>,
    pub backoff_ms: u64,
}

/// Who sent a message.
#[derive(Debug, PartialEq, Eq, Structural)]
pub enum FeishuSenderKind {
    User,
    Other,
}

/// What kind of chat a message came from.
#[derive(Debug, PartialEq, Eq, Structural)]
pub enum FeishuChatKind {
    P2p,
    Other,
}

/// An empty allowlist admits everyone; otherwise only the listed ids pass.
pub open spec fn spec_open_id_allowed(allowed: Seq<Seq<char>>, open_id: Seq<char>) -> bool {
    allowed.len() == 0 || exists|i: int| 0 <= i < allowed.len() && allowed[i] == open_id
}

/// Whether an id passes the allowlist, per [`spec_open_id_allowed`].
pub fn is_open_id_allowed(allowed_open_ids: &[String], open_id: &str) -> (r: bool)
    ensures
        r == spec_open_id_allowed(allowed_open_ids@.map_values(|s: String| s@), open_id@),
{
    let ghost av = allowed_open_ids@.map_values(|s: String| s@);
    let n = allowed_open_ids.len();
    if n == 0 {
        return true;
    }
    let mut i: usize = 0;
    while i < n
        invariant
            i <= n,
            n == allowed_open_ids@.len(),
            n > 0,
            av == allowed_open_ids@.map_values(|s: String| s@),
            forall|j: int| 0 <= j < i ==> av[j] != open_id@,
        decreases n - i,
    {
        if str_eq(allowed_open_ids[i].as_str(), open_id) {
            proof {
                assert(av[i as int] == open_id@);
            }
            return true;
        }
        i = i + 1;
    }
    false
}

/// Only plain users are served.
pub fn sender_kind(sender_type: &str) -> (r: FeishuSenderKind)
    ensures
        r == (if sender_type@ == "user"@ {
            FeishuSenderKind::User
        } else {
            FeishuSenderKind::Other
        }),
{
    if str_eq(sender_type, "user") {
        FeishuSenderKind::User
    } else {
        FeishuSenderKind::Other
    }
}

/// Only direct chats are served.
pub fn chat_kind(chat_type: &str) -> (r: FeishuChatKind)
    ensures
        r == (if chat_type@ == "p2p"@ {
            FeishuChatKind::P2p
        } else {
            FeishuChatKind::Other
        }),
{
    if str_eq(chat_type, "p2p") {
        FeishuChatKind::P2p
    } else {
        FeishuChatKind::Other
    }
}

/// Slashes in a name replaced by underscores.
pub open spec fn slashes_replaced(s: Seq<char>) -> Seq<char> {
    s.map_values(
        |c: char|
            if c == '/' {
                '_'
            } else {
                c
            },
    )
}

/// The stored file name of an attachment: the original name with slashes
/// replaced, or the prefix and suffix joined; a name with no dot gets a
/// binary extension.
pub open spec fn spec_attachment_filename(
    prefix: Seq<char>,
    original_name: Option<Seq<char>>,
    suffix: Seq<char>,
) -> Seq<char> {
    let safe = match original_name {
        Some(name) => slashes_replaced(name),
        None => prefix + "-"@ + suffix,
    };
    if contains_seq(safe, "."@) {
        safe
    } else {
        safe + ".bin"@
    }
}

/// Build an attachment's stored file name, per
/// [`spec_attachment_filename`].
pub fn build_attachment_filename(prefix: &str, original_name: Option<&str>, suffix: &str) -> (r:
    String)
    ensures
        r@ == spec_attachment_filename(
            prefix@,
            match original_name {
                Some(n) => Some(n@),
                None => None,
            },
            suffix@,
        ),
{
    let safe: Vec<char> = match original_name {
        Some(name) => {
            let chars = crate::strutil::str_chars(name);
            let n = chars.len();
            let mut out: Vec<char> = Vec::new();
            let mut i: usize = 0;
            while i < n
                invariant
                    i <= n,
                    n == chars@.len(),
                    out@ =~= slashes_replaced(chars@.take(i as int)),
                decreases n - i,
            {
                let c = chars[i];
                if c == '/' {
                    out.push('_');
                } else {
                    out.push(c);
                }
                proof {
                    assert(out@ =~= slashes_replaced(chars@.take(i + 1)));
                }
                i = i + 1;
            }
            proof {
                assert(chars@.take(n as int) =~= chars@);
            }
            out
        },
        None => {
            let mut joined = String::new();
            joined.append(prefix);
            joined.append("-");
            joined.append(suffix);
            crate::strutil::str_chars(joined.as_str())
        },
    };
    let has_dot = crate::strutil::chars_contain(&safe, ".");
    if has_dot {
        crate::strutil::chars_to_string(&safe)
    } else {
        let mut with_ext = crate::strutil::chars_to_string(&safe);
        with_ext.append(".bin");
        with_ext
    }
}

/// The plain text a message payload carries: its `text` field when the
/// payload is JSON with one, else the raw payload.
pub open spec fn spec_text_content(content: Seq<char>) -> Seq<char> {
    match crate::json::json_of(content) {
        Some(m) => match json_get(m, "text"@) {
            Some(f) => match f {
                Json::Str { s } => s,
                _ => content,
            },
            None => content,
        },
        None => content,
    }
}

/// Extract a message's plain text, per [`spec_text_content`].
pub fn parse_text_content(content: &str) -> (r: String)
    ensures
        r@ == spec_text_content(content@),
{
    match parse_json(content) {
        Some(v) => match v.get("text") {
            Some(t) => match t.as_str() {
                Some(s) => s.to_owned(),
                None => content.to_owned(),
            },
            None => content.to_owned(),
        },
        None => content.to_owned(),
    }
}

} // verus!
