//! Provider and model configuration: which providers are usable with the
//! credentials at hand, which provider serves a model, and under what name.

use crate::smap::StrMap;
use crate::strutil::{str_eq, trim_seq};
use vstd::prelude::*;

verus! {

/// How a provider authenticates.
#[derive(Debug, Clone, Copy, PartialEq, Eq, Structural)]
pub enum AuthType {
    NoAuth,
    Bearer,
    ApiKeyHeader,
    TalkCodyJwt,
}

/// Which wire protocol a provider speaks.
#[derive(Debug, Clone, Copy, PartialEq, Eq, Structural)]
pub enum ProtocolType {
    OpenAiCompatible,
    Anthropic,
}

/// A built-in provider's configuration.
#[derive(Debug)]
pub struct ProviderConfig {
    pub id: String,
    pub name: String,
    pub protocol: ProtocolType,
    pub base_url: String,
    pub api_key_name: String,
    pub supports_oauth: bool,
    pub supports_coding_plan: bool,
    pub supports_international: bool,
    pub coding_plan_base_url: Option<String>,
    pub international_base_url: Option<String>,
    pub headers: Option<Vec<(String, String)>>,
    pub extra_body: Option<crate::json::JsonValue>,
    pub auth_type: AuthType,
}

/// What the availability rules read of a provider.
pub struct ProviderModel {
    pub id: Seq<char>,
    pub name: Seq<char>,
    pub auth_type: AuthType,
    pub supports_oauth: bool,
}

impl DeepView for ProviderConfig {
    type V = ProviderModel;

    open spec fn deep_view(&self) -> ProviderModel {
        ProviderModel {
            id: self.id@,
            name: self.name@,
            auth_type: self.auth_type,
            supports_oauth: self.supports_oauth,
        }
    }
}

/// The registry of built-in providers, in registration order.
pub struct ProviderRegistry {
    providers: Vec<ProviderConfig>,
}

/// The first provider with the given id, scanning in registration order.
pub open spec fn find_provider(rm: Seq<ProviderModel>, id: Seq<char>) -> Option<ProviderModel>
    decreases rm.len(),
{
    if rm.len() == 0 {
        None
    } else if rm[0].id == id {
        Some(rm[0])
    } else {
        find_provider(rm.drop_first(), id)
    }
}

proof fn lemma_find_provider_scan(rm: Seq<ProviderModel>, id: Seq<char>, i: int)
    requires
        0 <= i <= rm.len(),
        forall|j: int| 0 <= j < i ==> rm[j].id != id,
        i < rm.len() ==> rm[i].id == id,
    ensures
        find_provider(rm, id) == if i < rm.len() {
            Some(rm[i])
        } else {
            None::<ProviderModel>
        },
    decreases rm.len(),
{
    if rm.len() == 0 {
    } else if rm[0].id == id {
        assert(i == 0);
    } else {
        lemma_find_provider_scan(rm.drop_first(), id, i - 1);
    }
}

impl ProviderRegistry {
    /// The registered providers, in order.
    pub closed spec fn model(self) -> Seq<ProviderModel> {
        self.providers.deep_view()
    }

    /// Build a registry from a list of providers.
    pub fn new(providers: Vec<ProviderConfig>) -> (r: Self)
        ensures
            r.model() == providers.deep_view(),
    {
        ProviderRegistry { providers }
    }

    /// Borrow the registered providers, in order.
    pub fn providers(&self) -> (r: &Vec<ProviderConfig>)
        ensures
            r.deep_view() == self.model(),
    {
        &self.providers
    }

    /// The first registered provider with the given id.
    pub fn provider<'a>(&'a self, id: &str) -> (r: Option<&'a ProviderConfig>)
        ensures
            match r {
                Some(p) => find_provider(self.model(), id@) == Some(p.deep_view()),
                None => find_provider(self.model(), id@) is None,
            },
    {
        let n = self.providers.len();
        let mut i: usize = 0;
        while i < n
            invariant
                n == self.providers@.len(),
                i <= n,
                forall|j: int| 0 <= j < i ==> self.providers@[j].id@ != id@,
            decreases n - i,
        {
            if str_eq(self.providers[i].id.as_str(), id) {
                proof {
                    assert(self.model()[i as int].id == id@);
                    lemma_find_provider_scan(self.model(), id@, i as int);
                }
                return Some(&self.providers[i]);
            }
            i = i + 1;
        }
        proof {
            assert(forall|j: int| 0 <= j < self.model().len() ==> self.model()[j].id != id@);
            lemma_find_provider_scan(self.model(), id@, self.model().len() as int);
        }
        None
    }
}

/// A model's price list, each entry a decimal in text.
#[derive(Debug)]
pub struct ModelPricing {
    pub input: String,
    pub output: String,
    pub cached_input: Option<String>,
    pub cache_creation: Option<String>,
}

/// One model's configuration.
#[derive(Debug)]
pub struct ModelConfig {
    pub name: String,
    pub image_input: bool,
    pub image_output: bool,
    pub audio_input: bool,
    pub video_input: bool,
    pub interleaved: bool,
    pub providers: Vec<String>,
    pub provider_mappings: Option<StrMap<String>>,
    pub pricing: Option<ModelPricing>,
    pub context_length: Option<u64>,
}

/// What the resolution rules read of a model.
pub struct ModelConfigModel {
    pub name: Seq<char>,
    pub image_input: bool,
    pub image_output: bool,
    pub audio_input: bool,
    pub video_input: bool,
    pub providers: Seq<Seq<char>>,
    pub mappings: Option<Map<Seq<char>, Seq<char>>>,
    pub input_pricing: Option<Seq<char>>,
    pub context_length: Option<int>,
}

impl DeepView for ModelConfig {
    type V = ModelConfigModel;

    open spec fn deep_view(&self) -> ModelConfigModel {
        ModelConfigModel {
            name: self.name@,
            image_input: self.image_input,
            image_output: self.image_output,
            audio_input: self.audio_input,
            video_input: self.video_input,
            providers: self.providers.deep_view(),
            mappings: match self.provider_mappings {
                Some(m) => Some(m@),
                None => None,
            },
            input_pricing: match self.pricing {
                Some(p) => Some(p.input@),
                None => None,
            },
            context_length: match self.context_length {
                Some(c) => Some(c as int),
                None => None,
            },
        }
    }
}

/// The full model catalogue.
pub struct ModelsConfiguration {
    pub version: String,
    pub models: StrMap<ModelConfig>,
}

impl ModelsConfiguration {
    /// The catalogue and each model's mapping table hold no key twice.
    pub open spec fn wf(self) -> bool {
        &&& self.models.wf()
        &&& forall|i: int|
            0 <= i < self.models.values().len() ==> match #[trigger] self.models.values()[i].provider_mappings {
                Some(m) => m.wf(),
                None => true,
            }
    }
}

/// A user-configured provider.
#[derive(Debug)]
pub struct CustomProviderConfig {
    pub id: String,
    pub name: String,
    pub provider_type: ProtocolType,
    pub base_url: String,
    pub api_key: String,
    pub enabled: bool,
    pub description: Option<String>,
}

/// What the availability rules read of a custom provider.
pub struct CustomProviderModel {
    pub name: Seq<char>,
    pub api_key: Seq<char>,
    pub enabled: bool,
}

impl DeepView for CustomProviderConfig {
    type V = CustomProviderModel;

    open spec fn deep_view(&self) -> CustomProviderModel {
        CustomProviderModel { name: self.name@, api_key: self.api_key@, enabled: self.enabled }
    }
}

/// The user-configured providers.
pub struct CustomProvidersConfiguration {
    pub version: String,
    pub providers: StrMap<CustomProviderConfig>,
}

/// A model and provider pairing that the user can pick right now.
#[derive(Debug)]
pub struct AvailableModel {
    pub key: String,
    pub name: String,
    pub provider: String,
    pub provider_name: String,
    pub image_input: bool,
    pub image_output: bool,
    pub audio_input: bool,
    pub video_input: bool,
    pub input_pricing: Option<String>,
}

/// What ordering and identity read of an available model.
pub struct AvailableModelModel {
    pub key: Seq<char>,
    pub name: Seq<char>,
    pub provider: Seq<char>,
    pub provider_name: Seq<char>,
    pub image_input: bool,
    pub image_output: bool,
    pub audio_input: bool,
    pub video_input: bool,
    pub input_pricing: Option<Seq<char>>,
}

impl DeepView for AvailableModel {
    type V = AvailableModelModel;

    open spec fn deep_view(&self) -> AvailableModelModel {
        AvailableModelModel {
            key: self.key@,
            name: self.name@,
            provider: self.provider@,
            provider_name: self.provider_name@,
            image_input: self.image_input,
            image_output: self.image_output,
            audio_input: self.audio_input,
            video_input: self.video_input,
            input_pricing: match self.input_pricing {
                Some(p) => Some(p@),
                None => None,
            },
        }
    }
}

/// Whether a provider can be used right now: a custom provider needs its
/// enable flag and a non-blank key; a built-in provider with no
/// authentication is available, except the local daemons, which need their
/// explicit enable mark; the account-backed kind is always available; any
/// other needs a non-blank credential or, with OAuth support, a non-blank
/// token under its id.
pub open spec fn spec_provider_available(
    id: Seq<char>,
    api_keys: Map<Seq<char>, Seq<char>>,
    registry: Seq<ProviderModel>,
    custom: Map<Seq<char>, CustomProviderModel>,
) -> bool {
    if custom.contains_key(id) {
        custom[id].enabled && trim_seq(custom[id].api_key).len() > 0
    } else {
        match find_provider(registry, id) {
            Some(p) => {
                if p.auth_type == AuthType::NoAuth {
                    if id == "ollama"@ || id == "lmstudio"@ {
                        api_keys.contains_key(id) && api_keys[id] == "enabled"@
                    } else {
                        true
                    }
                } else if p.auth_type == AuthType::TalkCodyJwt {
                    true
                } else if api_keys.contains_key(id) && trim_seq(api_keys[id]).len() > 0 {
                    true
                } else {
                    false
                }
            },
            None => false,
        }
    }
}

/// The rules that decide which models can be served.
pub struct ModelRegistry;

impl ModelRegistry {
    /// Whether a provider can be used right now, per
    /// [`spec_provider_available`].
    pub fn provider_available(
        provider_id: &str,
        api_keys: &StrMap<String>,
        registry: &ProviderRegistry,
        custom_providers: &CustomProvidersConfiguration,
    ) -> (r: bool)
        requires
            api_keys.wf(),
            custom_providers.providers.wf(),
        ensures
            r == spec_provider_available(
                provider_id@,
                api_keys@,
                registry.model(),
                custom_providers.providers@,
            ),
    {
        proof {
            reveal_strlit("ollama");
            reveal_strlit("lmstudio");
            reveal_strlit("enabled");
        }
        match custom_providers.providers.get(provider_id) {
            Some(custom) => {
                let key_chars = crate::strutil::str_chars(custom.api_key.as_str());
                let trimmed = crate::strutil::trim_chars(&key_chars);
                return custom.enabled && trimmed.len() > 0;
            },
            None => {},
        }
        let provider = match registry.provider(provider_id) {
            Some(p) => p,
            None => {
                return false;
            },
        };
        match provider.auth_type {
            AuthType::NoAuth => {
                if str_eq(provider_id, "ollama") || str_eq(provider_id, "lmstudio") {
                    match api_keys.get(provider_id) {
                        Some(v) => str_eq(v.as_str(), "enabled"),
                        None => false,
                    }
                } else {
                    true
                }
            },
            AuthType::TalkCodyJwt => true,
            _ => {
                match api_keys.get(provider_id) {
                    Some(v) => {
                        let chars = crate::strutil::str_chars(v.as_str());
                        let trimmed = crate::strutil::trim_chars(&chars);
                        trimmed.len() > 0
                    },
                    None => false,
                }
            },
        }
    }

    /// The name a provider knows a model under: the model's mapping for
    /// that provider where one is declared, else the model key itself.
    pub fn resolve_provider_model_name(
        model_key: &str,
        provider_id: &str,
        config: &ModelsConfiguration,
    ) -> (r: String)
        requires
            config.wf(),
        ensures
            r@ == spec_resolved_model_name(model_key@, provider_id@, config.models@),
    {
        match config.models.get(model_key) {
            Some(cfg) => match &cfg.provider_mappings {
                Some(mapping) => {
                    proof {
                        assert(cfg.deep_view().mappings == Some(mapping@));
                        let i = choose|i: int|
                            0 <= i < config.models.values().len() && config.models.values()[i]
                                == *cfg;
                        assert(match config.models.values()[i].provider_mappings {
                            Some(m) => m.wf(),
                            None => true,
                        });
                    }
                    match mapping.get(provider_id) {
                        Some(mapped) => mapped.clone(),
                        None => model_key.to_owned(),
                    }
                },
                None => model_key.to_owned(),
            },
            None => model_key.to_owned(),
        }
    }
}

/// How many times a character occurs.
pub open spec fn char_count(s: Seq<char>, c: char) -> int
    decreases s.len(),
{
    if s.len() == 0 {
        0
    } else {
        (if s[0] == c {
            1int
        } else {
            0int
        }) + char_count(s.drop_first(), c)
    }
}

/// The first provider in the list that is available right now.
pub open spec fn first_available_in(
    list: Seq<Seq<char>>,
    api_keys: Map<Seq<char>, Seq<char>>,
    registry: Seq<ProviderModel>,
    custom: Map<Seq<char>, CustomProviderModel>,
) -> Option<Seq<char>>
    decreases list.len(),
{
    if list.len() == 0 {
        None
    } else if spec_provider_available(list[0], api_keys, registry, custom) {
        Some(list[0])
    } else {
        first_available_in(list.drop_first(), api_keys, registry, custom)
    }
}

proof fn lemma_first_available_scan(
    list: Seq<Seq<char>>,
    api_keys: Map<Seq<char>, Seq<char>>,
    registry: Seq<ProviderModel>,
    custom: Map<Seq<char>, CustomProviderModel>,
    i: int,
)
    requires
        0 <= i <= list.len(),
        forall|j: int|
            0 <= j < i ==> !spec_provider_available(list[j], api_keys, registry, custom),
        i < list.len() ==> spec_provider_available(list[i], api_keys, registry, custom),
    ensures
        first_available_in(list, api_keys, registry, custom) == if i < list.len() {
            Some(list[i])
        } else {
            None::<Seq<char>>
        },
    decreases list.len(),
{
    if list.len() == 0 {
    } else if spec_provider_available(list[0], api_keys, registry, custom) {
        assert(i == 0);
    } else {
        lemma_first_available_scan(list.drop_first(), api_keys, registry, custom, i - 1);
    }
}

/// The registered provider ids, in registration order.
pub open spec fn registry_ids(registry: Seq<ProviderModel>) -> Seq<Seq<char>> {
    Seq::new(registry.len(), |i: int| registry[i].id)
}

/// The first enabled custom provider's id, oldest first.
pub open spec fn first_enabled_custom(entries: Seq<(Seq<char>, CustomProviderModel)>) -> Option<
    Seq<char>,
>
    decreases entries.len(),
{
    if entries.len() == 0 {
        None
    } else if entries[0].1.enabled {
        Some(entries[0].0)
    } else {
        first_enabled_custom(entries.drop_first())
    }
}

proof fn lemma_first_enabled_scan(entries: Seq<(Seq<char>, CustomProviderModel)>, i: int)
    requires
        0 <= i <= entries.len(),
        forall|j: int| 0 <= j < i ==> !entries[j].1.enabled,
        i < entries.len() ==> entries[i].1.enabled,
    ensures
        first_enabled_custom(entries) == if i < entries.len() {
            Some(entries[i].0)
        } else {
            None::<Seq<char>>
        },
    decreases entries.len(),
{
    if entries.len() == 0 {
    } else if entries[0].1.enabled {
        assert(i == 0);
    } else {
        lemma_first_enabled_scan(entries.drop_first(), i - 1);
    }
}

/// Which model and provider serve a request, per
/// [`ModelRegistry::get_model_provider`]: an identifier with exactly one
/// separator names both halves outright; a known model key takes the first
/// available provider it declares, in declared order; anything else takes
/// the first available registered provider, then the oldest enabled custom
/// provider; `None` stands for the resolution error.
pub open spec fn spec_get_model_provider(
    mid: Seq<char>,
    api_keys: Map<Seq<char>, Seq<char>>,
    registry: Seq<ProviderModel>,
    custom: Map<Seq<char>, CustomProviderModel>,
    custom_entries: Seq<(Seq<char>, CustomProviderModel)>,
    models: Map<Seq<char>, ModelConfigModel>,
) -> Option<(Seq<char>, Seq<char>)> {
    if char_count(mid, '@') == 1 {
        let i = crate::strutil::first_index_of(mid, '@');
        Some((mid.take(i), mid.skip(i + 1)))
    } else if models.contains_key(mid) {
        match first_available_in(models[mid].providers, api_keys, registry, custom) {
            Some(p) => Some((mid, p)),
            None => None,
        }
    } else {
        match first_available_in(registry_ids(registry), api_keys, registry, custom) {
            Some(p) => Some((mid, p)),
            None => match first_enabled_custom(custom_entries) {
                Some(p) => Some((mid, p)),
                None => None,
            },
        }
    }
}

impl ModelRegistry {
    /// Resolve a model identifier to the model key and provider id that
    /// will serve it, per [`spec_get_model_provider`].
    pub fn get_model_provider(
        model_identifier: &str,
        api_keys: &StrMap<String>,
        registry: &ProviderRegistry,
        custom_providers: &CustomProvidersConfiguration,
        config: &ModelsConfiguration,
    ) -> (r: Result<(String, String), String>)
        requires
            api_keys.wf(),
            custom_providers.providers.wf(),
            config.wf(),
        ensures
            ({
                let sr = spec_get_model_provider(
                    model_identifier@,
                    api_keys@,
                    registry.model(),
                    custom_providers.providers@,
                    custom_providers.providers.entry_order(),
                    config.models@,
                );
                match r {
                    Ok(pair) => sr == Some((pair.0@, pair.1@)),
                    Err(e) => sr is None && e@ == "No available provider for model "@
                        + model_identifier@,
                }
            }),
    {
        let chars = crate::strutil::str_chars(model_identifier);
        let n = chars.len();
        let mut ats: usize = 0;
        let mut first_at: usize = 0;
        let mut i: usize = 0;
        while i < n
            invariant
                i <= n,
                n == chars@.len(),
                ats <= i,
                ats as int == char_count(chars@.take(i as int), '@'),
                ats == 0 ==> forall|j: int| 0 <= j < i ==> chars@[j] != '@',
                ats > 0 ==> first_at < i && chars@[first_at as int] == '@' && (forall|j: int|
                    0 <= j < first_at ==> chars@[j] != '@'),
            decreases n - i,
        {
            proof {
                lemma_char_count_take(chars@, '@', i as int);
            }
            if chars[i] == '@' {
                if ats == 0 {
                    first_at = i;
                }
                ats = ats + 1;
            }
            i = i + 1;
        }
        proof {
            assert(chars@.take(n as int) =~= chars@);
        }
        if ats == 1 {
            proof {
                crate::strutil::lemma_first_index_of_from_scan(chars@, '@', first_at as int);
            }
            let before = crate::strutil::copy_range(&chars, 0, first_at);
            let after = crate::strutil::copy_range(&chars, first_at + 1, n);
            proof {
                assert(before@ =~= chars@.take(first_at as int));
                assert(after@ =~= chars@.skip(first_at + 1));
            }
            return Ok(
                (
                    crate::strutil::chars_to_string(&before),
                    crate::strutil::chars_to_string(&after),
                ),
            );
        }
        let ghost midv = model_identifier@;
        match config.models.get(model_identifier) {
            Some(cfg) => {
                let pn = cfg.providers.len();
                let mut j: usize = 0;
                while j < pn
                    invariant
                        j <= pn,
                        pn == cfg.providers@.len(),
                        api_keys.wf(),
                        custom_providers.providers.wf(),
                        char_count(model_identifier@, '@') != 1,
                        config.models@.contains_key(model_identifier@),
                        config.models@[model_identifier@] == cfg.deep_view(),
                        forall|t: int|
                            0 <= t < j ==> !spec_provider_available(
                                cfg.deep_view().providers[t],
                                api_keys@,
                                registry.model(),
                                custom_providers.providers@,
                            ),
                    decreases pn - j,
                {
                    proof {
                        assert(cfg.deep_view().providers[j as int] == cfg.providers@[j as int]@);
                    }
                    if Self::provider_available(
                        cfg.providers[j].as_str(),
                        api_keys,
                        registry,
                        custom_providers,
                    ) {
                        proof {
                            lemma_first_available_scan(
                                cfg.deep_view().providers,
                                api_keys@,
                                registry.model(),
                                custom_providers.providers@,
                                j as int,
                            );
                        }
                        return Ok((model_identifier.to_owned(), cfg.providers[j].clone()));
                    }
                    j = j + 1;
                }
                proof {
                    lemma_first_available_scan(
                        cfg.deep_view().providers,
                        api_keys@,
                        registry.model(),
                        custom_providers.providers@,
                        pn as int,
                    );
                }
                let mut e = "No available provider for model ".to_owned();
                e.append(model_identifier);
                Err(e)
            },
            None => {
                let regs = registry.providers();
                let rn = regs.len();
                let mut j: usize = 0;
                while j < rn
                    invariant
                        j <= rn,
                        rn == regs@.len(),
                        regs.deep_view() == registry.model(),
                        api_keys.wf(),
                        custom_providers.providers.wf(),
                        char_count(model_identifier@, '@') != 1,
                        !config.models@.contains_key(model_identifier@),
                        forall|t: int|
                            0 <= t < j ==> !spec_provider_available(
                                registry_ids(registry.model())[t],
                                api_keys@,
                                registry.model(),
                                custom_providers.providers@,
                            ),
                    decreases rn - j,
                {
                    proof {
                        assert(registry_ids(registry.model())[j as int] == regs@[j as int].id@);
                    }
                    if Self::provider_available(
                        regs[j].id.as_str(),
                        api_keys,
                        registry,
                        custom_providers,
                    ) {
                        proof {
                            lemma_first_available_scan(
                                registry_ids(registry.model()),
                                api_keys@,
                                registry.model(),
                                custom_providers.providers@,
                                j as int,
                            );
                        }
                        return Ok((model_identifier.to_owned(), regs[j].id.clone()));
                    }
                    j = j + 1;
                }
                proof {
                    lemma_first_available_scan(
                        registry_ids(registry.model()),
                        api_keys@,
                        registry.model(),
                        custom_providers.providers@,
                        rn as int,
                    );
                }
                let custs = custom_providers.providers.entries_ref();
                let cn = custs.len();
                let mut j: usize = 0;
                while j < cn
                    invariant
                        j <= cn,
                        cn == custs@.len(),
                        char_count(model_identifier@, '@') != 1,
                        !config.models@.contains_key(model_identifier@),
                        first_available_in(
                            registry_ids(registry.model()),
                            api_keys@,
                            registry.model(),
                            custom_providers.providers@,
                        ) is None,
                        cn == custom_providers.providers.entry_order().len(),
                        forall|t: int|
                            0 <= t < cn ==> custom_providers.providers.entry_order()[t] == (
                                custs@[t].0@,
                                custs@[t].1.deep_view(),
                            ),
                        forall|t: int|
                            0 <= t < j ==> !custom_providers.providers.entry_order()[t].1.enabled,
                    decreases cn - j,
                {
                    if custs[j].1.enabled {
                        proof {
                            lemma_first_enabled_scan(
                                custom_providers.providers.entry_order(),
                                j as int,
                            );
                        }
                        return Ok((model_identifier.to_owned(), custs[j].0.clone()));
                    }
                    j = j + 1;
                }
                proof {
                    lemma_first_enabled_scan(
                        custom_providers.providers.entry_order(),
                        cn as int,
                    );
                }
                let mut e = "No available provider for model ".to_owned();
                e.append(model_identifier);
                Err(e)
            },
        }
    }
}

/// Counting over a prefix grows by one exactly at an occurrence.
pub proof fn lemma_char_count_take(s: Seq<char>, c: char, i: int)
    requires
        0 <= i < s.len(),
    ensures
        char_count(s.take(i + 1), c) == char_count(s.take(i), c) + (if s[i] == c {
            1int
        } else {
            0int
        }),
    decreases i,
{
    if i == 0 {
        assert(s.take(1) =~= seq![s[0]]);
        assert(s.take(0) =~= Seq::<char>::empty());
        assert(s.take(1).drop_first() =~= Seq::<char>::empty());
    } else {
        lemma_char_count_drop(s.take(i + 1), c);
        lemma_char_count_drop(s.take(i), c);
        assert(s.take(i + 1).drop_first() =~= s.drop_first().take(i));
        assert(s.take(i).drop_first() =~= s.drop_first().take(i - 1));
        lemma_char_count_take(s.drop_first(), c, i - 1);
        assert(s.take(i + 1)[0] == s[0]);
        assert(s.take(i)[0] == s[0]);
        assert(s.drop_first()[i - 1] == s[i]);
    }
}

proof fn lemma_char_count_drop(s: Seq<char>, c: char)
    requires
        s.len() > 0,
    ensures
        char_count(s, c) == (if s[0] == c {
            1int
        } else {
            0int
        }) + char_count(s.drop_first(), c),
{
}

/// A model and provider pairing counts in the first pass when the provider
/// is available and registered.
pub open spec fn pass1_available(
    pid: Seq<char>,
    api_keys: Map<Seq<char>, Seq<char>>,
    registry: Seq<ProviderModel>,
    custom: Map<Seq<char>, CustomProviderModel>,
) -> bool {
    spec_provider_available(pid, api_keys, registry, custom) && find_provider(registry, pid)
        is Some
}

/// A pairing counts in the second pass when its provider is a custom one,
/// enabled, with a non-blank key.
pub open spec fn pass2_available(
    pid: Seq<char>,
    custom: Map<Seq<char>, CustomProviderModel>,
) -> bool {
    custom.contains_key(pid) && custom[pid].enabled && trim_seq(custom[pid].api_key).len() > 0
}

/// A model and provider pairing the user can pick right now.
pub open spec fn pair_qualifies(
    key: Seq<char>,
    pid: Seq<char>,
    models: Map<Seq<char>, ModelConfigModel>,
    api_keys: Map<Seq<char>, Seq<char>>,
    registry: Seq<ProviderModel>,
    custom: Map<Seq<char>, CustomProviderModel>,
) -> bool {
    &&& models.contains_key(key)
    &&& models[key].providers.contains(pid)
    &&& (pass1_available(pid, api_keys, registry, custom) || pass2_available(pid, custom))
}

/// The entry a qualifying pairing yields: the model's display fields, and
/// the provider's display name from the registry where the first pass
/// applies, else from the custom configuration.
pub open spec fn expected_available(
    key: Seq<char>,
    pid: Seq<char>,
    models: Map<Seq<char>, ModelConfigModel>,
    api_keys: Map<Seq<char>, Seq<char>>,
    registry: Seq<ProviderModel>,
    custom: Map<Seq<char>, CustomProviderModel>,
) -> AvailableModelModel {
    AvailableModelModel {
        key,
        name: models[key].name,
        provider: pid,
        provider_name: if pass1_available(pid, api_keys, registry, custom) {
            match find_provider(registry, pid) {
                Some(p) => p.name,
                None => Seq::empty(),
            }
        } else {
            custom[pid].name
        },
        image_input: models[key].image_input,
        image_output: models[key].image_output,
        audio_input: models[key].audio_input,
        video_input: models[key].video_input,
        input_pricing: models[key].input_pricing,
    }
}

/// No two entries name the same model and provider pairing.
pub open spec fn distinct_pairs(rm: Seq<AvailableModelModel>) -> bool {
    forall|i: int, j: int|
        0 <= i < j < rm.len() ==> !(rm[i].key == rm[j].key && rm[i].provider == rm[j].provider)
}

/// Whether the list already holds an entry for the pairing.
fn contains_pair(acc: &Vec<AvailableModel>, key: &str, pid: &str) -> (r: bool)
    ensures
        r == exists|i: int|
            0 <= i < acc.deep_view().len() && acc.deep_view()[i].key == key@
                && acc.deep_view()[i].provider == pid@,
{
    let n = acc.len();
    let mut i: usize = 0;
    while i < n
        invariant
            i <= n,
            n == acc@.len(),
            forall|j: int|
                0 <= j < i ==> !(acc.deep_view()[j].key == key@ && acc.deep_view()[j].provider
                    == pid@),
        decreases n - i,
    {
        if str_eq(acc[i].key.as_str(), key) && str_eq(acc[i].provider.as_str(), pid) {
            proof {
                assert(acc.deep_view()[i as int].key == key@ && acc.deep_view()[i as int].provider
                    == pid@);
            }
            return true;
        }
        i = i + 1;
    }
    false
}

/// Sort available models by display name. The result holds exactly the
/// input's entries; distinct pairings stay distinct.
fn sort_available(input: Vec<AvailableModel>) -> (r: Vec<AvailableModel>)
    ensures
        forall|i: int, j: int|
            0 <= i <= j < r.deep_view().len() ==> crate::strutil::lex_le(
                r.deep_view()[i].name,
                r.deep_view()[j].name,
            ),
        forall|x: AvailableModelModel|
            #[trigger] r.deep_view().contains(x) == input.deep_view().contains(x),
        distinct_pairs(input.deep_view()) ==> distinct_pairs(r.deep_view()),
{
    broadcast use vstd::seq_lib::group_to_multiset_ensures;
    broadcast use vstd::multiset::group_multiset_axioms;

    let ghost inm = input.deep_view();
    let mut rem = input;
    let mut out: Vec<AvailableModel> = Vec::new();
    while rem.len() > 0
        invariant
            out.deep_view().to_multiset().add(rem.deep_view().to_multiset())
                == inm.to_multiset(),
            forall|i: int, j: int|
                0 <= i <= j < out.deep_view().len() ==> crate::strutil::lex_le(
                    out.deep_view()[i].name,
                    out.deep_view()[j].name,
                ),
            forall|i: int, j: int|
                0 <= i < out.deep_view().len() && 0 <= j < rem.deep_view().len()
                    ==> crate::strutil::lex_le(out.deep_view()[i].name, rem.deep_view()[j].name),
            distinct_pairs(inm) ==> distinct_pairs(out.deep_view() + rem.deep_view()),
            forall|x: AvailableModelModel|
                #[trigger] inm.contains(x) == (out.deep_view() + rem.deep_view()).contains(x),
        decreases rem@.len(),
    {
        let rn = rem.len();
        let mut mi: usize = 0;
        let mut t: usize = 1;
        proof {
            crate::strutil::lemma_lex_total(
                rem.deep_view()[0].name,
                rem.deep_view()[0].name,
            );
        }
        while t < rn
            invariant
                mi < rn,
                1 <= t <= rn,
                rn == rem@.len(),
                forall|u: int|
                    0 <= u < t ==> crate::strutil::lex_le(
                        rem.deep_view()[mi as int].name,
                        rem.deep_view()[u].name,
                    ),
            decreases rn - t,
        {
            let a = crate::strutil::str_chars(rem[t].name.as_str());
            let b = crate::strutil::str_chars(rem[mi].name.as_str());
            if !crate::strutil::chars_lex_le(&b, &a) {
                proof {
                    crate::strutil::lemma_lex_total(
                        rem.deep_view()[mi as int].name,
                        rem.deep_view()[t as int].name,
                    );
                    assert forall|u: int|
                        0 <= u < t implies crate::strutil::lex_le(
                        rem.deep_view()[t as int].name,
                        rem.deep_view()[u].name,
                    ) by {
                        crate::strutil::lemma_lex_trans(
                            rem.deep_view()[t as int].name,
                            rem.deep_view()[mi as int].name,
                            rem.deep_view()[u].name,
                        );
                    }
                }
                mi = t;
            }
            proof {
                crate::strutil::lemma_lex_total(
                    rem.deep_view()[mi as int].name,
                    rem.deep_view()[t as int].name,
                );
            }
            t = t + 1;
        }
        let ghost rdv = rem.deep_view();
        let ghost odv = out.deep_view();
        let x = rem.remove(mi);
        let ghost xm = x.deep_view();
        out.push(x);
        proof {
            broadcast use vstd::seq_lib::group_to_multiset_ensures;
            broadcast use vstd::multiset::group_multiset_axioms;

            assert(rem.deep_view() =~~= rdv.remove(mi as int));
            assert(out.deep_view() =~~= odv.push(xm));
            assert(rdv.len() == rn);
            assert(0 <= mi as int && (mi as int) < rdv.len());
            assert(xm == rdv[mi as int]);
            assert(rdv.contains(xm));
            vstd::seq_lib::to_multiset_remove::<AvailableModelModel>(rdv, mi as int);
            vstd::seq_lib::to_multiset_build::<AvailableModelModel>(odv, xm);
            assert(rdv.remove(mi as int).to_multiset() =~= rdv.to_multiset().remove(xm));
            assert(odv.push(xm).to_multiset() =~= odv.to_multiset().insert(xm));
            assert(odv.to_multiset().insert(xm).add(rdv.to_multiset().remove(xm))
                =~= odv.to_multiset().add(rdv.to_multiset()));
            assert forall|x2: AvailableModelModel| #[trigger]
                inm.contains(x2) == (out.deep_view() + rem.deep_view()).contains(x2) by {
                assert((odv + rdv).to_multiset() =~= (out.deep_view()
                    + rem.deep_view()).to_multiset()) by {
                    vstd::seq_lib::lemma_multiset_commutative(odv, rdv);
                    vstd::seq_lib::lemma_multiset_commutative(out.deep_view(), rem.deep_view());
                }
                assert((odv + rdv).contains(x2) == (odv + rdv).to_multiset().contains(x2));
                assert((out.deep_view() + rem.deep_view()).contains(x2) == (out.deep_view()
                    + rem.deep_view()).to_multiset().contains(x2));
            }
            assert(distinct_pairs(inm) ==> distinct_pairs(out.deep_view() + rem.deep_view()))
                by {
                if distinct_pairs(inm) {
                    assert(distinct_pairs(odv + rdv));
                    let merged = out.deep_view() + rem.deep_view();
                    assert forall|i: int, j: int|
                        0 <= i < j < merged.len() implies !(merged[i].key == merged[j].key
                        && merged[i].provider == merged[j].provider) by {
                        let oi = old_index_of(odv.len() as int, mi as int, i);
                        let oj = old_index_of(odv.len() as int, mi as int, j);
                        assert(merged[i] == (odv + rdv)[oi]);
                        assert(merged[j] == (odv + rdv)[oj]);
                        assert(oi != oj);
                        if oi < oj {
                            assert(!((odv + rdv)[oi].key == (odv + rdv)[oj].key && (odv
                                + rdv)[oi].provider == (odv + rdv)[oj].provider));
                        } else {
                            assert(!((odv + rdv)[oj].key == (odv + rdv)[oi].key && (odv
                                + rdv)[oj].provider == (odv + rdv)[oi].provider));
                        }
                    }
                }
            }
        }
    }
    proof {
        broadcast use vstd::seq_lib::group_to_multiset_ensures;
        broadcast use vstd::multiset::group_multiset_axioms;

        assert(rem.deep_view() =~~= Seq::<AvailableModelModel>::empty());
        assert(out.deep_view() + rem.deep_view() =~~= out.deep_view());
        assert forall|x: AvailableModelModel| #[trigger]
            out.deep_view().contains(x) == inm.contains(x) by {
            assert((out.deep_view() + rem.deep_view()).contains(x) == inm.contains(x));
        }
        if distinct_pairs(inm) {
            assert(distinct_pairs(out.deep_view() + rem.deep_view()));
            assert(distinct_pairs(out.deep_view()));
        }
    }
    out
}

/// Where a position of the merged list `out + [moved] ... rem` sat before
/// one element moved from `rem` position `mi` to the end of `out`.
pub open spec fn old_index_of(olen: int, mi: int, i: int) -> int {
    if i < olen {
        i
    } else if i == olen {
        olen + mi
    } else if i <= olen + mi {
        i - 1
    } else {
        i
    }
}

impl ModelRegistry {
    /// Every model and provider pairing the user can pick right now, each
    /// once, sorted by display name: a pairing counts when its provider is
    /// available and registered, or is an enabled custom provider with a
    /// non-blank key.
    pub fn compute_available_models_internal(
        config: &ModelsConfiguration,
        api_keys: &StrMap<String>,
        registry: &ProviderRegistry,
        custom_providers: &CustomProvidersConfiguration,
    ) -> (r: Vec<AvailableModel>)
        requires
            config.wf(),
            api_keys.wf(),
            custom_providers.providers.wf(),
        ensures
            ({
                let rm = r.deep_view();
                let models = config.models@;
                let api = api_keys@;
                let reg = registry.model();
                let cust = custom_providers.providers@;
                &&& forall|i: int|
                    0 <= i < rm.len() ==> pair_qualifies(
                        #[trigger] rm[i].key,
                        rm[i].provider,
                        models,
                        api,
                        reg,
                        cust,
                    ) && rm[i] == expected_available(rm[i].key, rm[i].provider, models, api, reg, cust)
                &&& forall|key: Seq<char>, pid: Seq<char>|
                    pair_qualifies(key, pid, models, api, reg, cust) ==> exists|i: int|
                        0 <= i < rm.len() && #[trigger] rm[i].key == key && rm[i].provider == pid
                &&& distinct_pairs(rm)
                &&& forall|i: int, j: int|
                    0 <= i <= j < rm.len() ==> crate::strutil::lex_le(rm[i].name, rm[j].name)
            }),
    {
        let ghost models = config.models@;
        let ghost api = api_keys@;
        let ghost reg = registry.model();
        let ghost cust = custom_providers.providers@;
        let mut acc: Vec<AvailableModel> = Vec::new();
        let entries = config.models.entries_ref();
        proof {
            crate::smap::lemma_entries_correspond(config.models);
        }
        let n = entries.len();
        let ghost ko = config.models.key_order();
        let ghost eo = config.models.entry_order();
        let mut mi: usize = 0;
        while mi < n
            invariant
                mi <= n,
                n == entries@.len(),
                config.wf(),
                api_keys.wf(),
                custom_providers.providers.wf(),
                models == config.models@,
                api == api_keys@,
                reg == registry.model(),
                cust == custom_providers.providers@,
                ko == config.models.key_order(),
                eo == config.models.entry_order(),
                ko.len() == n && eo.len() == n,
                forall|t: int|
                    0 <= t < n ==> #[trigger] eo[t] == (entries@[t].0@, entries@[t].1.deep_view()),
                forall|t: int| 0 <= t < n ==> #[trigger] ko[t] == entries@[t].0@,
                forall|t: int|
                    0 <= t < n ==> #[trigger] models.contains_key(ko[t]) && models[ko[t]] == eo[t].1,
                forall|k: Seq<char>|
                    #[trigger] models.contains_key(k) ==> exists|t: int|
                        0 <= t < n && ko[t] == k,
                forall|i: int|
                    0 <= i < acc.deep_view().len() ==> pair_qualifies(
                        #[trigger] acc.deep_view()[i].key,
                        acc.deep_view()[i].provider,
                        models,
                        api,
                        reg,
                        cust,
                    ) && acc.deep_view()[i] == expected_available(
                        acc.deep_view()[i].key,
                        acc.deep_view()[i].provider,
                        models,
                        api,
                        reg,
                        cust,
                    ),
                distinct_pairs(acc.deep_view()),
                forall|ki: int, t: int|
                    0 <= ki < mi && 0 <= t < eo[ki].1.providers.len() && pass1_available(
                        #[trigger] eo[ki].1.providers[t],
                        api,
                        reg,
                        cust,
                    ) ==> exists|i: int|
                        0 <= i < acc.deep_view().len() && #[trigger] acc.deep_view()[i].key
                            == ko[ki] && acc.deep_view()[i].provider == eo[ki].1.providers[t],
            decreases n - mi,
        {
            let mcfg = &entries[mi].1;
            let pn = mcfg.providers.len();
            let mut pj: usize = 0;
            while pj < pn
                invariant
                    pj <= pn,
                    mi < n,
                    pn == mcfg.providers@.len(),
                    n == entries@.len(),
                    mcfg.deep_view() == eo[mi as int].1,
                    config.wf(),
                    api_keys.wf(),
                    custom_providers.providers.wf(),
                    models == config.models@,
                    api == api_keys@,
                    reg == registry.model(),
                    cust == custom_providers.providers@,
                    ko == config.models.key_order(),
                    eo == config.models.entry_order(),
                    ko.len() == n && eo.len() == n,
                    forall|t: int|
                        0 <= t < n ==> #[trigger] eo[t] == (
                            entries@[t].0@,
                            entries@[t].1.deep_view(),
                        ),
                    forall|t: int| 0 <= t < n ==> #[trigger] ko[t] == entries@[t].0@,
                    forall|t: int|
                        0 <= t < n ==> #[trigger] models.contains_key(ko[t]) && models[ko[t]]
                            == eo[t].1,
                    forall|i: int|
                        0 <= i < acc.deep_view().len() ==> pair_qualifies(
                            #[trigger] acc.deep_view()[i].key,
                            acc.deep_view()[i].provider,
                            models,
                            api,
                            reg,
                            cust,
                        ) && acc.deep_view()[i] == expected_available(
                            acc.deep_view()[i].key,
                            acc.deep_view()[i].provider,
                            models,
                            api,
                            reg,
                            cust,
                        ),
                    distinct_pairs(acc.deep_view()),
                    forall|ki: int, t: int|
                        0 <= ki < mi && 0 <= t < eo[ki].1.providers.len() && pass1_available(
                            #[trigger] eo[ki].1.providers[t],
                            api,
                            reg,
                            cust,
                        ) ==> exists|i: int|
                            0 <= i < acc.deep_view().len() && #[trigger] acc.deep_view()[i].key
                                == ko[ki] && acc.deep_view()[i].provider == eo[ki].1.providers[t],
                    forall|t: int|
                        0 <= t < pj && pass1_available(
                            #[trigger] eo[mi as int].1.providers[t],
                            api,
                            reg,
                            cust,
                        ) ==> exists|i: int|
                            0 <= i < acc.deep_view().len() && #[trigger] acc.deep_view()[i].key
                                == ko[mi as int] && acc.deep_view()[i].provider
                                == eo[mi as int].1.providers[t],
                decreases pn - pj,
            {
                let pid = &mcfg.providers[pj];
                proof {
                    assert(eo[mi as int].1.providers[pj as int] == pid@);
                }
                let avail = Self::provider_available(
                    pid.as_str(),
                    api_keys,
                    registry,
                    custom_providers,
                );
                if avail {
                    match registry.provider(pid.as_str()) {
                        Some(p) => {
                            let mkey = &entries[mi].0;
                            proof {
                                assert(mkey@ == ko[mi as int]);
                            }
                            let dup = contains_pair(&acc, mkey.as_str(), pid.as_str());
                            if !dup {
                                let ghost adv = acc.deep_view();
                                let entry = AvailableModel {
                                    key: mkey.clone(),
                                    name: mcfg.name.clone(),
                                    provider: pid.clone(),
                                    provider_name: p.name.clone(),
                                    image_input: mcfg.image_input,
                                    image_output: mcfg.image_output,
                                    audio_input: mcfg.audio_input,
                                    video_input: mcfg.video_input,
                                    input_pricing: match &mcfg.pricing {
                                        Some(pr) => Some(pr.input.clone()),
                                        None => None,
                                    },
                                };
                                let ghost em = entry.deep_view();
                                acc.push(entry);
                                proof {
                                    assert(acc.deep_view() =~~= adv.push(em));
                                    assert(forall|i: int|
                                        0 <= i < adv.len() ==> acc.deep_view()[i] == adv[i]);
                                    assert(models.contains_key(ko[mi as int]));
                                    assert(models[ko[mi as int]] == eo[mi as int].1);
                                    assert(em == expected_available(
                                        mkey@,
                                        pid@,
                                        models,
                                        api,
                                        reg,
                                        cust,
                                    ));
                                    assert(eo[mi as int].1.providers.contains(pid@)) by {
                                        assert(eo[mi as int].1.providers[pj as int] == pid@);
                                    }
                                    assert(acc.deep_view()[adv.len() as int] == em);
                                    assert(acc.deep_view()[adv.len() as int].key
                                        == ko[mi as int]);
                                    assert(acc.deep_view()[adv.len() as int].provider == pid@);
                                }
                            }
                            proof {
                                assert(exists|i: int|
                                    0 <= i < acc.deep_view().len()
                                        && #[trigger] acc.deep_view()[i].key == ko[mi as int]
                                        && acc.deep_view()[i].provider == pid@);
                            }
                        },
                        None => {
                            proof {
                                assert(!pass1_available(pid@, api, reg, cust));
                            }
                        },
                    }
                } else {
                    proof {
                        assert(!pass1_available(pid@, api, reg, cust));
                    }
                }
                pj = pj + 1;
            }
            mi = mi + 1;
        }
        proof {
            assert forall|key: Seq<char>, pid: Seq<char>|
                #[trigger] pair_qualifies(key, pid, models, api, reg, cust) && pass1_available(
                pid,
                api,
                reg,
                cust,
            ) implies exists|i: int|
                0 <= i < acc.deep_view().len() && acc.deep_view()[i].key == key
                    && acc.deep_view()[i].provider == pid by {
                let ki = choose|t: int| 0 <= t < n && ko[t] == key;
                let t = choose|t: int|
                    0 <= t < models[key].providers.len() && models[key].providers[t] == pid;
                assert(eo[ki].1 == models[key]);
                assert(eo[ki].1.providers[t] == pid);
                assert(pass1_available(eo[ki].1.providers[t], api, reg, cust));
            }
        }
        let ghost after_pass1 = acc.deep_view();
        let mut mi: usize = 0;
        while mi < n
            invariant
                mi <= n,
                n == entries@.len(),
                config.wf(),
                api_keys.wf(),
                custom_providers.providers.wf(),
                models == config.models@,
                api == api_keys@,
                reg == registry.model(),
                cust == custom_providers.providers@,
                ko == config.models.key_order(),
                eo == config.models.entry_order(),
                ko.len() == n && eo.len() == n,
                forall|t: int|
                    0 <= t < n ==> #[trigger] eo[t] == (entries@[t].0@, entries@[t].1.deep_view()),
                forall|t: int| 0 <= t < n ==> #[trigger] ko[t] == entries@[t].0@,
                forall|t: int|
                    0 <= t < n ==> #[trigger] models.contains_key(ko[t]) && models[ko[t]]
                        == eo[t].1,
                forall|k: Seq<char>|
                    #[trigger] models.contains_key(k) ==> exists|t: int|
                        0 <= t < n && ko[t] == k,
                forall|i: int|
                    0 <= i < acc.deep_view().len() ==> pair_qualifies(
                        #[trigger] acc.deep_view()[i].key,
                        acc.deep_view()[i].provider,
                        models,
                        api,
                        reg,
                        cust,
                    ) && acc.deep_view()[i] == expected_available(
                        acc.deep_view()[i].key,
                        acc.deep_view()[i].provider,
                        models,
                        api,
                        reg,
                        cust,
                    ),
                distinct_pairs(acc.deep_view()),
                forall|key: Seq<char>, pid: Seq<char>|
                    #[trigger] pair_qualifies(key, pid, models, api, reg, cust)
                        && pass1_available(pid, api, reg, cust) ==> exists|i: int|
                        0 <= i < acc.deep_view().len() && acc.deep_view()[i].key == key
                            && acc.deep_view()[i].provider == pid,
                forall|ki: int, t: int|
                    0 <= ki < mi && 0 <= t < eo[ki].1.providers.len() && pass2_available(
                        #[trigger] eo[ki].1.providers[t],
                        cust,
                    ) ==> exists|i: int|
                        0 <= i < acc.deep_view().len() && #[trigger] acc.deep_view()[i].key
                            == ko[ki] && acc.deep_view()[i].provider == eo[ki].1.providers[t],
            decreases n - mi,
        {
            let mcfg = &entries[mi].1;
            let pn = mcfg.providers.len();
            let mut pj: usize = 0;
            while pj < pn
                invariant
                    pj <= pn,
                    mi < n,
                    pn == mcfg.providers@.len(),
                    n == entries@.len(),
                    mcfg.deep_view() == eo[mi as int].1,
                    config.wf(),
                    api_keys.wf(),
                    custom_providers.providers.wf(),
                    models == config.models@,
                    api == api_keys@,
                    reg == registry.model(),
                    cust == custom_providers.providers@,
                    ko == config.models.key_order(),
                    eo == config.models.entry_order(),
                    ko.len() == n && eo.len() == n,
                    forall|t: int|
                        0 <= t < n ==> #[trigger] eo[t] == (
                            entries@[t].0@,
                            entries@[t].1.deep_view(),
                        ),
                    forall|t: int| 0 <= t < n ==> #[trigger] ko[t] == entries@[t].0@,
                    forall|t: int|
                        0 <= t < n ==> #[trigger] models.contains_key(ko[t]) && models[ko[t]]
                            == eo[t].1,
                    forall|i: int|
                        0 <= i < acc.deep_view().len() ==> pair_qualifies(
                            #[trigger] acc.deep_view()[i].key,
                            acc.deep_view()[i].provider,
                            models,
                            api,
                            reg,
                            cust,
                        ) && acc.deep_view()[i] == expected_available(
                            acc.deep_view()[i].key,
                            acc.deep_view()[i].provider,
                            models,
                            api,
                            reg,
                            cust,
                        ),
                    distinct_pairs(acc.deep_view()),
                    forall|key: Seq<char>, pid: Seq<char>|
                        #[trigger] pair_qualifies(key, pid, models, api, reg, cust)
                            && pass1_available(pid, api, reg, cust) ==> exists|i: int|
                            0 <= i < acc.deep_view().len() && acc.deep_view()[i].key == key
                                && acc.deep_view()[i].provider == pid,
                    forall|ki: int, t: int|
                        0 <= ki < mi && 0 <= t < eo[ki].1.providers.len() && pass2_available(
                            #[trigger] eo[ki].1.providers[t],
                            cust,
                        ) ==> exists|i: int|
                            0 <= i < acc.deep_view().len() && #[trigger] acc.deep_view()[i].key
                                == ko[ki] && acc.deep_view()[i].provider == eo[ki].1.providers[t],
                    forall|t: int|
                        0 <= t < pj && pass2_available(
                            #[trigger] eo[mi as int].1.providers[t],
                            cust,
                        ) ==> exists|i: int|
                            0 <= i < acc.deep_view().len() && #[trigger] acc.deep_view()[i].key
                                == ko[mi as int] && acc.deep_view()[i].provider
                                == eo[mi as int].1.providers[t],
                decreases pn - pj,
            {
                let pid = &mcfg.providers[pj];
                proof {
                    assert(eo[mi as int].1.providers[pj as int] == pid@);
                }
                match custom_providers.providers.get(pid.as_str()) {
                    Some(custom) => {
                        let key_chars = crate::strutil::str_chars(custom.api_key.as_str());
                        let trimmed = crate::strutil::trim_chars(&key_chars);
                        if custom.enabled && trimmed.len() > 0 {
                            let mkey = &entries[mi].0;
                            proof {
                                assert(mkey@ == ko[mi as int]);
                            }
                            let dup = contains_pair(&acc, mkey.as_str(), pid.as_str());
                            if !dup {
                                let ghost adv = acc.deep_view();
                                let entry = AvailableModel {
                                    key: mkey.clone(),
                                    name: mcfg.name.clone(),
                                    provider: pid.clone(),
                                    provider_name: custom.name.clone(),
                                    image_input: mcfg.image_input,
                                    image_output: mcfg.image_output,
                                    audio_input: mcfg.audio_input,
                                    video_input: mcfg.video_input,
                                    input_pricing: match &mcfg.pricing {
                                        Some(pr) => Some(pr.input.clone()),
                                        None => None,
                                    },
                                };
                                let ghost em = entry.deep_view();
                                proof {
                                    assert(pass2_available(pid@, cust));
                                    assert(models.contains_key(ko[mi as int]));
                                    assert(models[ko[mi as int]] == eo[mi as int].1);
                                    assert(eo[mi as int].1.providers.contains(pid@)) by {
                                        assert(eo[mi as int].1.providers[pj as int] == pid@);
                                    }
                                    assert(pair_qualifies(mkey@, pid@, models, api, reg, cust));
                                    assert(!pass1_available(pid@, api, reg, cust)) by {
                                        if pass1_available(pid@, api, reg, cust) {
                                            assert(pair_qualifies(
                                                mkey@,
                                                pid@,
                                                models,
                                                api,
                                                reg,
                                                cust,
                                            ));
                                            assert(exists|i: int|
                                                0 <= i < acc.deep_view().len()
                                                    && acc.deep_view()[i].key == mkey@
                                                    && acc.deep_view()[i].provider == pid@);
                                        }
                                    }
                                    assert(em == expected_available(
                                        mkey@,
                                        pid@,
                                        models,
                                        api,
                                        reg,
                                        cust,
                                    ));
                                }
                                acc.push(entry);
                                proof {
                                    assert(acc.deep_view() =~~= adv.push(em));
                                    assert(forall|i: int|
                                        0 <= i < adv.len() ==> acc.deep_view()[i] == adv[i]);
                                    assert(acc.deep_view()[adv.len() as int] == em);
                                    assert(acc.deep_view()[adv.len() as int].key
                                        == ko[mi as int]);
                                    assert(acc.deep_view()[adv.len() as int].provider == pid@);
                                }
                            }
                            proof {
                                assert(exists|i: int|
                                    0 <= i < acc.deep_view().len()
                                        && #[trigger] acc.deep_view()[i].key == ko[mi as int]
                                        && acc.deep_view()[i].provider == pid@);
                            }
                        }
                    },
                    None => {},
                }
                pj = pj + 1;
            }
            mi = mi + 1;
        }
        proof {
            assert forall|key: Seq<char>, pid: Seq<char>|
                #[trigger] pair_qualifies(key, pid, models, api, reg, cust) implies exists|i: int|
                0 <= i < acc.deep_view().len() && acc.deep_view()[i].key == key
                    && acc.deep_view()[i].provider == pid by {
                if pass1_available(pid, api, reg, cust) {
                } else {
                    assert(pass2_available(pid, cust));
                    let ki = choose|t: int| 0 <= t < n && ko[t] == key;
                    let t = choose|t: int|
                        0 <= t < models[key].providers.len() && models[key].providers[t] == pid;
                    assert(eo[ki].1 == models[key]);
                    assert(eo[ki].1.providers[t] == pid);
                    assert(pass2_available(eo[ki].1.providers[t], cust));
                }
            }
        }
        let sorted = sort_available(acc);
        proof {
            assert forall|i: int|
                0 <= i < sorted.deep_view().len() implies pair_qualifies(
                #[trigger] sorted.deep_view()[i].key,
                sorted.deep_view()[i].provider,
                models,
                api,
                reg,
                cust,
            ) && sorted.deep_view()[i] == expected_available(
                sorted.deep_view()[i].key,
                sorted.deep_view()[i].provider,
                models,
                api,
                reg,
                cust,
            ) by {
                assert(sorted.deep_view().contains(sorted.deep_view()[i]));
                let j = choose|j: int|
                    0 <= j < acc.deep_view().len() && acc.deep_view()[j] == sorted.deep_view()[i];
            }
            assert forall|key: Seq<char>, pid: Seq<char>|
                pair_qualifies(key, pid, models, api, reg, cust) implies exists|i: int|
                0 <= i < sorted.deep_view().len() && #[trigger] sorted.deep_view()[i].key == key
                    && sorted.deep_view()[i].provider == pid by {
                let j = choose|j: int|
                    0 <= j < acc.deep_view().len() && acc.deep_view()[j].key == key
                        && acc.deep_view()[j].provider == pid;
                assert(acc.deep_view().contains(acc.deep_view()[j]));
                assert(sorted.deep_view().contains(acc.deep_view()[j]));
                let i = choose|i: int|
                    0 <= i < sorted.deep_view().len() && sorted.deep_view()[i]
                        == acc.deep_view()[j];
                assert(sorted.deep_view()[i].key == key && sorted.deep_view()[i].provider == pid);
            }
        }
        sorted
    }
}

/// The name a provider knows a model under, per
/// [`ModelRegistry::resolve_provider_model_name`].
pub open spec fn spec_resolved_model_name(
    key: Seq<char>,
    provider: Seq<char>,
    models: Map<Seq<char>, ModelConfigModel>,
) -> Seq<char> {
    if models.contains_key(key) {
        match models[key].mappings {
            Some(m) => if m.contains_key(provider) {
                m[provider]
            } else {
                key
            },
            None => key,
        }
    } else {
        key
    }
}

} // verus!
