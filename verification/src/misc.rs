//! Peripheral data shapes and small services of the desktop shell: the IM
//! channel names, the OAuth exchange payloads, event throttling limits, and
//! the directory tree cache.

use crate::smap::StrMap;
use vstd::prelude::*;
use vstd::string::StringExecFns;

verus! {

/// The IM channels an adapter can serve.
#[derive(Debug, Clone, Copy, PartialEq, Eq, Structural)]
pub enum ChannelType {
    Telegram,
    Feishu,
    Slack,
    Discord,
    WhatsApp,
}

impl ChannelType {
    /// The channel's lower-case wire name.
    pub fn as_str(&self) -> (r: &'static str)
        ensures
            r@ == match self {
                ChannelType::Telegram => "telegram"@,
                ChannelType::Feishu => "feishu"@,
                ChannelType::Slack => "slack"@,
                ChannelType::Discord => "discord"@,
                ChannelType::WhatsApp => "whatsapp"@,
            },
    {
        match self {
            ChannelType::Telegram => "telegram",
            ChannelType::Feishu => "feishu",
            ChannelType::Slack => "slack",
            ChannelType::Discord => "discord",
            ChannelType::WhatsApp => "whatsapp",
        }
    }
}

/// A message received from an IM adapter.
#[derive(Debug)]
pub struct IncomingMessage {
    pub integration_id: String,
    pub channel_type: ChannelType,
    pub sender_id: String,
    pub sender_name: Option<String>,
    pub chat_id: String,
    pub message_id: String,
    pub content: String,
    pub timestamp: i64,
    pub reply_to: Option<String>,
}

/// A message handed to an IM adapter.
#[derive(Debug)]
pub struct OutgoingMessage {
    pub recipient: String,
    pub content: String,
    pub reply_to: Option<String>,
    pub edit_message_id: Option<String>,
}

/// The credentials resolved for one provider.
#[derive(Debug)]
pub enum ProviderCredentials {
    Missing,
    Token(String),
}

/// What starting the OpenAI OAuth exchange hands back.
#[derive(Debug)]
pub struct OpenAIOAuthStartResponse {
    pub url: String,
    pub verifier: String,
    pub state: String,
}

/// The completion request of the OpenAI OAuth exchange.
#[derive(Debug)]
pub struct OpenAIOAuthCompleteRequest {
    pub code: String,
    pub verifier: String,
    pub expected_state: Option<String>,
}

/// The tokens the OpenAI OAuth exchange yields.
#[derive(Debug)]
pub struct OpenAIOAuthCompleteResponse {
    pub access_token: String,
    pub refresh_token: String,
    pub expires_at: i64,
    pub account_id: Option<String>,
}

/// A request to refresh the OpenAI OAuth tokens.
#[derive(Debug)]
pub struct OpenAIOAuthRefreshRequest {
    pub refresh_token: String,
}

/// The refreshed OpenAI OAuth tokens.
#[derive(Debug)]
pub struct OpenAIOAuthRefreshResponse {
    pub access_token: String,
    pub refresh_token: String,
    pub expires_at: i64,
    pub account_id: Option<String>,
}

/// What starting the Anthropic OAuth exchange hands back.
#[derive(Debug)]
pub struct ClaudeOAuthStartResponse {
    pub url: String,
    pub verifier: String,
    pub state: String,
}

/// The completion request of the Anthropic OAuth exchange.
#[derive(Debug)]
pub struct ClaudeOAuthCompleteRequest {
    pub code: String,
    pub verifier: String,
    pub state: String,
}

/// The tokens the Anthropic OAuth exchange yields.
#[derive(Debug)]
pub struct ClaudeOAuthCompleteResponse {
    pub access_token: String,
    pub refresh_token: String,
    pub expires_at: i64,
}

/// A request to refresh the Anthropic OAuth tokens.
#[derive(Debug)]
pub struct ClaudeOAuthRefreshRequest {
    pub refresh_token: String,
}

/// The refreshed Anthropic OAuth tokens.
#[derive(Debug)]
pub struct ClaudeOAuthRefreshResponse {
    pub access_token: String,
    pub refresh_token: String,
    pub expires_at: i64,
}

/// One provider's OAuth standing.
#[derive(Debug)]
pub struct OAuthProviderStatus {
    pub expires_at: Option<i64>,
    pub account_id: Option<String>,
    pub is_connected: Option<bool>,
}

/// Every provider's OAuth standing.
#[derive(Debug)]
pub struct OAuthStatusResponse {
    pub openai: Option<OAuthProviderStatus>,
    pub anthropic: Option<OAuthProviderStatus>,
    pub github_copilot: Option<OAuthProviderStatus>,
    pub qwen: Option<OAuthProviderStatus>,
}

/// What an OAuth callback request carried.
#[derive(Debug)]
pub struct OAuthCallbackResult {
    pub success: bool,
    pub code: Option<String>,
    pub state: Option<String>,
    pub error: Option<String>,
}

/// Changes to apply to a stored agent, every field optional.
#[derive(Debug)]
pub struct AgentUpdates {
    pub name: Option<String>,
    pub model: Option<String>,
    pub system_prompt: Option<String>,
    pub tools: Option<Vec<String>>,
}

/// The streaming throttle's limits, intervals in milliseconds.
#[derive(Debug)]
pub struct ThrottleConfig {
    pub token_interval_ms: u64,
    pub status_interval_ms: u64,
    pub max_message_length: usize,
    pub debounce_duration_ms: u64,
}

impl Default for ThrottleConfig {
    /// The stock limits: twenty token events a second, one status a
    /// second, a hundred-thousand-character cap, a tenth of a second of
    /// debounce.
    fn default() -> (r: Self)
        ensures
            r.token_interval_ms == 50,
            r.status_interval_ms == 1000,
            r.max_message_length == 100000,
            r.debounce_duration_ms == 100,
    {
        ThrottleConfig {
            token_interval_ms: 50,
            status_interval_ms: 1000,
            max_message_length: 100000,
            debounce_duration_ms: 100,
        }
    }
}

/// One node of a directory tree.
#[derive(Debug)]
pub struct FileNode {
    pub name: String,
    pub path: String,
    pub is_directory: bool,
    pub children: Option<Vec<FileNode>>,
    pub is_lazy_loaded: Option<bool>,
    pub has_children: Option<bool>,
    pub modified_time: Option<u64>,
    pub size: Option<u64>,
    pub is_git_ignored: Option<bool>,
}

/// A cached tree node and when it was stored.
#[derive(Debug)]
pub struct CachedEntry {
    pub node: FileNode,
    pub cached_at: u64,
}

impl DeepView for CachedEntry {
    type V = int;

    open spec fn deep_view(&self) -> int {
        self.cached_at as int
    }
}

/// The directory tree cache: nodes keyed by normalized path, each entry
/// good for a fixed number of seconds.
#[derive(Debug)]
pub struct DirectoryTreeBuilder {
    cache: StrMap<CachedEntry>,
    cache_ttl: u64,
}

impl DirectoryTreeBuilder {
    /// The container holds no path twice.
    pub closed spec fn wf(self) -> bool {
        self.cache.wf()
    }

    /// When each cached path was stored.
    pub closed spec fn cache_times(self) -> Map<Seq<char>, int> {
        self.cache@
    }

    /// How long an entry stays fresh, in seconds.
    pub closed spec fn ttl(self) -> int {
        self.cache_ttl as int
    }

    /// An empty cache, entries good for thirty seconds.
    pub fn new() -> (r: Self)
        ensures
            r.wf(),
            r.cache_times() == Map::<Seq<char>, int>::empty(),
            r.ttl() == 30,
    {
        DirectoryTreeBuilder { cache: StrMap::new(), cache_ttl: 30 }
    }

    /// A cached node, where one is stored and still fresh.
    pub fn cached_node(&self, path_key: &str, now: u64) -> (r: Option<&FileNode>)
        requires
            self.wf(),
        ensures
            r is Some ==> self.cache_times().contains_key(path_key@) && now
                - self.cache_times()[path_key@] <= self.ttl(),
            r is None ==> !self.cache_times().contains_key(path_key@) || now
                - self.cache_times()[path_key@] > self.ttl(),
    {
        match self.cache.get(path_key) {
            Some(entry) => {
                if now >= entry.cached_at && now - entry.cached_at <= self.cache_ttl {
                    Some(&entry.node)
                } else if now < entry.cached_at {
                    Some(&entry.node)
                } else {
                    None
                }
            },
            None => None,
        }
    }

    /// Store a node under a path.
    pub fn store(&mut self, path_key: String, node: FileNode, now: u64)
        requires
            old(self).wf(),
        ensures
            final(self).wf(),
            final(self).cache_times() == old(self).cache_times().insert(path_key@, now as int),
            final(self).ttl() == old(self).ttl(),
    {
        self.cache.insert(path_key, CachedEntry { node, cached_at: now });
    }

    /// Drop everything cached.
    pub fn clear_cache(&mut self)
        ensures
            final(self).wf(),
            final(self).cache_times() == Map::<Seq<char>, int>::empty(),
            final(self).ttl() == old(self).ttl(),
    {
        self.cache = StrMap::new();
    }

    /// Drop one path and its lazily loaded children entry.
    pub fn invalidate_path(&mut self, path: &str)
        requires
            old(self).wf(),
        ensures
            final(self).wf(),
            final(self).cache_times() == old(self).cache_times().remove(path@).remove(
                path@ + "_children"@,
            ),
            final(self).ttl() == old(self).ttl(),
    {
        let _ = self.cache.remove(path);
        let mut children_key = path.to_owned();
        children_key.append("_children");
        let _ = self.cache.remove(children_key.as_str());
    }

    /// A path with backslashes turned to slashes, as cache keys are kept.
    pub fn normalize_path(path: &str) -> (r: String)
        ensures
            r@ == path@.map_values(
                |c: char|
                    if c == '\\' {
                        '/'
                    } else {
                        c
                    },
            ),
    {
        let chars = crate::strutil::str_chars(path);
        let n = chars.len();
        let mut out: Vec<char> = Vec::new();
        let mut i: usize = 0;
        while i < n
            invariant
                i <= n,
                n == chars@.len(),
                chars@ == path@,
                out@ =~= chars@.take(i as int).map_values(
                    |c: char|
                        if c == '\\' {
                            '/'
                        } else {
                            c
                        },
                ),
            decreases n - i,
        {
            let c = chars[i];
            if c == '\\' {
                out.push('/');
            } else {
                out.push(c);
            }
            proof {
                assert(out@ =~= chars@.take(i + 1).map_values(
                    |c: char|
                        if c == '\\' {
                            '/'
                        } else {
                            c
                        },
                ));
            }
            i = i + 1;
        }
        proof {
            assert(chars@.take(n as int) =~= chars@);
        }
        crate::strutil::chars_to_string(&out)
    }
}

} // verus!
