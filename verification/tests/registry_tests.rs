use talkcody::registry::{
    AuthType, AvailableModel, CustomProviderConfig, CustomProvidersConfiguration, ModelConfig,
    ModelPricing, ModelRegistry, ModelsConfiguration, ProtocolType, ProviderConfig,
    ProviderRegistry,
};
use talkcody::resolver::{resolve_model_identifier, FallbackStrategy, ModelFallbackInfo};
use talkcody::smap::StrMap;

fn provider_config(id: &str, auth_type: AuthType) -> ProviderConfig {
    ProviderConfig {
        id: id.to_string(),
        name: id.to_string(),
        protocol: ProtocolType::OpenAiCompatible,
        base_url: "https://example.com".to_string(),
        api_key_name: "TEST_API_KEY".to_string(),
        supports_oauth: false,
        supports_coding_plan: false,
        supports_international: false,
        coding_plan_base_url: None,
        international_base_url: None,
        headers: None,
        extra_body: None,
        auth_type,
    }
}

fn model_config(name: &str, providers: Vec<&str>, context_length: Option<u64>) -> ModelConfig {
    ModelConfig {
        name: name.to_string(),
        image_input: false,
        image_output: false,
        audio_input: false,
        video_input: false,
        interleaved: false,
        providers: providers.into_iter().map(|p| p.to_string()).collect(),
        provider_mappings: None,
        pricing: Some(ModelPricing {
            input: "1".to_string(),
            output: "2".to_string(),
            cached_input: None,
            cache_creation: None,
        }),
        context_length,
    }
}

fn build_models_config() -> ModelsConfiguration {
    let mut mappings: StrMap<String> = StrMap::new();
    mappings.insert("ollama".to_string(), "llama3".to_string());
    let mut cfg = model_config("GPT-4o", vec!["openai", "ollama", "custom"], None);
    cfg.provider_mappings = Some(mappings);
    let mut models: StrMap<ModelConfig> = StrMap::new();
    models.insert("gpt-4o".to_string(), cfg);
    ModelsConfiguration { version: "1".to_string(), models }
}

fn no_custom() -> CustomProvidersConfiguration {
    CustomProvidersConfiguration { version: "1".to_string(), providers: StrMap::new() }
}

fn custom_provider(id: &str, api_key: &str, enabled: bool) -> CustomProviderConfig {
    CustomProviderConfig {
        id: id.to_string(),
        name: "Custom".to_string(),
        provider_type: ProtocolType::OpenAiCompatible,
        base_url: "https://custom".to_string(),
        api_key: api_key.to_string(),
        enabled,
        description: None,
    }
}

fn api_keys_of(pairs: Vec<(&str, &str)>) -> StrMap<String> {
    let mut m: StrMap<String> = StrMap::new();
    for (k, v) in pairs {
        m.insert(k.to_string(), v.to_string());
    }
    m
}

#[test]
fn resolve_provider_model_name_uses_mapping() {
    let config = build_models_config();
    let name = ModelRegistry::resolve_provider_model_name("gpt-4o", "ollama", &config);
    assert_eq!(name, "llama3");
}

#[test]
fn resolve_provider_model_name_falls_back_to_key() {
    let config = build_models_config();
    let name = ModelRegistry::resolve_provider_model_name("gpt-4o", "openai", &config);
    assert_eq!(name, "gpt-4o");
}

#[test]
fn get_model_provider_accepts_explicit_provider() {
    let registry = ProviderRegistry::new(vec![provider_config("openai", AuthType::Bearer)]);
    let api_keys = api_keys_of(vec![]);
    let custom_providers = no_custom();

    let config = build_models_config();
    let (model, provider) = ModelRegistry::get_model_provider(
        "gpt-4o@openai",
        &api_keys,
        &registry,
        &custom_providers,
        &config,
    )
    .expect("resolve provider");
    assert_eq!(model, "gpt-4o");
    assert_eq!(provider, "openai");
}

#[test]
fn compute_available_models_includes_enabled_custom_provider() {
    let config = build_models_config();
    let registry = ProviderRegistry::new(vec![provider_config("openai", AuthType::Bearer)]);
    let api_keys = api_keys_of(vec![("openai", "key")]);
    let mut providers: StrMap<CustomProviderConfig> = StrMap::new();
    providers.insert("custom".to_string(), custom_provider("custom", "custom-key", true));
    let custom_providers =
        CustomProvidersConfiguration { version: "1".to_string(), providers };

    let available = ModelRegistry::compute_available_models_internal(
        &config,
        &api_keys,
        &registry,
        &custom_providers,
    );
    assert!(available.iter().any(|model| model.provider == "openai"));
    assert!(available.iter().any(|model| model.provider == "custom"));
}

#[test]
fn compute_available_models_excludes_custom_provider_without_key() {
    let config = build_models_config();
    let registry = ProviderRegistry::new(vec![provider_config("openai", AuthType::Bearer)]);
    let api_keys = api_keys_of(vec![("openai", "key")]);
    let mut providers: StrMap<CustomProviderConfig> = StrMap::new();
    providers.insert("custom".to_string(), custom_provider("custom", "", true));
    let custom_providers =
        CustomProvidersConfiguration { version: "1".to_string(), providers };

    let available = ModelRegistry::compute_available_models_internal(
        &config,
        &api_keys,
        &registry,
        &custom_providers,
    );
    assert!(available.iter().all(|model| model.provider != "custom"));
}

#[test]
fn compute_available_models_includes_talkcody_without_token() {
    let mut config = build_models_config();
    let mut cfg = model_config("GPT-4o", vec!["openai", "ollama", "custom", "talkcody"], None);
    let mut mappings: StrMap<String> = StrMap::new();
    mappings.insert("ollama".to_string(), "llama3".to_string());
    cfg.provider_mappings = Some(mappings);
    config.models.insert("gpt-4o".to_string(), cfg);

    let registry = ProviderRegistry::new(vec![
        provider_config("openai", AuthType::Bearer),
        provider_config("talkcody", AuthType::TalkCodyJwt),
    ]);
    let api_keys = api_keys_of(vec![]);
    let custom_providers = no_custom();

    let available = ModelRegistry::compute_available_models_internal(
        &config,
        &api_keys,
        &registry,
        &custom_providers,
    );
    assert!(available.iter().any(|model| model.provider == "talkcody"));
}

#[test]
fn provider_available_requires_enable_flag_for_ollama() {
    let config = build_models_config();
    let registry = ProviderRegistry::new(vec![provider_config("ollama", AuthType::NoAuth)]);
    let api_keys = api_keys_of(vec![]);
    let custom_providers = no_custom();

    let available = ModelRegistry::compute_available_models_internal(
        &config,
        &api_keys,
        &registry,
        &custom_providers,
    );
    assert!(available.is_empty());

    let api_keys = api_keys_of(vec![("ollama", "enabled")]);
    let available = ModelRegistry::compute_available_models_internal(
        &config,
        &api_keys,
        &registry,
        &custom_providers,
    );
    assert!(!available.is_empty());
}

#[test]
fn get_model_provider_prefers_model_config_providers_over_registry_order() {
    let mut config = build_models_config();
    config
        .models
        .insert("gpt-4o".to_string(), model_config("GPT-4o", vec!["openai"], None));

    let registry = ProviderRegistry::new(vec![
        provider_config("deepseek", AuthType::Bearer),
        provider_config("openai", AuthType::Bearer),
    ]);
    let api_keys = api_keys_of(vec![("deepseek", "key"), ("openai", "key")]);
    let custom_providers = no_custom();

    let (model, provider) = ModelRegistry::get_model_provider(
        "gpt-4o",
        &api_keys,
        &registry,
        &custom_providers,
        &config,
    )
    .expect("resolve provider");

    assert_eq!(model, "gpt-4o");
    assert_eq!(provider, "openai");
}

#[test]
fn get_model_provider_reports_missing_provider() {
    let config = build_models_config();
    let registry = ProviderRegistry::new(vec![provider_config("openai", AuthType::Bearer)]);
    let api_keys = api_keys_of(vec![]);
    let custom_providers = no_custom();

    let err = ModelRegistry::get_model_provider(
        "gpt-4o",
        &api_keys,
        &registry,
        &custom_providers,
        &config,
    )
    .unwrap_err();
    assert_eq!(err, "No available provider for model gpt-4o");
}

fn two_model_catalogue(ctx_a: Option<u64>, ctx_b: Option<u64>, price_a: &str, price_b: &str)
    -> ModelsConfiguration {
    let mut ma = model_config("Alpha", vec!["openai"], ctx_a);
    ma.pricing = Some(ModelPricing {
        input: price_a.to_string(),
        output: "2".to_string(),
        cached_input: None,
        cache_creation: None,
    });
    let mut mb = model_config("Beta", vec!["openai"], ctx_b);
    mb.pricing = Some(ModelPricing {
        input: price_b.to_string(),
        output: "2".to_string(),
        cached_input: None,
        cache_creation: None,
    });
    let mut models: StrMap<ModelConfig> = StrMap::new();
    models.insert("alpha".to_string(), ma);
    models.insert("beta".to_string(), mb);
    ModelsConfiguration { version: "1".to_string(), models }
}

#[test]
fn compaction_prefers_larger_context() {
    let config = two_model_catalogue(Some(8192), Some(32000), "1", "9");
    let registry = ProviderRegistry::new(vec![provider_config("openai", AuthType::Bearer)]);
    let api_keys = api_keys_of(vec![("openai", "key")]);
    let custom_providers = no_custom();

    let resolved = ModelRegistry::resolve_compaction_fallback(
        &config,
        &api_keys,
        &registry,
        &custom_providers,
    )
    .expect("resolve");
    assert_eq!(resolved, "beta@openai");
}

#[test]
fn compaction_breaks_context_ties_by_cheaper_input() {
    let config = two_model_catalogue(Some(32000), Some(32000), "0.5", "0.0001");
    let registry = ProviderRegistry::new(vec![provider_config("openai", AuthType::Bearer)]);
    let api_keys = api_keys_of(vec![("openai", "key")]);
    let custom_providers = no_custom();

    let resolved = ModelRegistry::resolve_compaction_fallback(
        &config,
        &api_keys,
        &registry,
        &custom_providers,
    )
    .expect("resolve");
    assert_eq!(resolved, "beta@openai");
}

#[test]
fn resolves_preferred_model_when_available() {
    let config = build_models_config();
    let registry = ProviderRegistry::new(vec![provider_config("openai", AuthType::Bearer)]);
    let api_keys = api_keys_of(vec![("openai", "test-key")]);
    let custom_providers = no_custom();

    let resolved = resolve_model_identifier(
        Some("gpt-4o@openai".to_string()),
        FallbackStrategy::AnyAvailable,
        &config,
        &api_keys,
        &registry,
        &custom_providers,
    )
    .expect("resolve model");
    assert_eq!(resolved, "gpt-4o@openai");
}

#[test]
fn falls_back_to_any_available_when_preferred_missing() {
    let config = build_models_config();
    let registry = ProviderRegistry::new(vec![provider_config("openai", AuthType::Bearer)]);
    let api_keys = api_keys_of(vec![("openai", "test-key")]);
    let custom_providers = no_custom();

    let resolved = resolve_model_identifier(
        Some("missing-model".to_string()),
        FallbackStrategy::AnyAvailable,
        &config,
        &api_keys,
        &registry,
        &custom_providers,
    )
    .expect("resolve model");
    assert_eq!(resolved, "gpt-4o@openai");
}

#[test]
fn any_available_reports_empty_catalogue() {
    let config = build_models_config();
    let registry = ProviderRegistry::new(vec![provider_config("openai", AuthType::Bearer)]);
    let api_keys = api_keys_of(vec![]);
    let custom_providers = no_custom();

    let err = resolve_model_identifier(
        None,
        FallbackStrategy::AnyAvailable,
        &config,
        &api_keys,
        &registry,
        &custom_providers,
    )
    .unwrap_err();
    assert_eq!(err, "No available model for the requested operation");
}

#[test]
fn available_models_sort_by_display_name() {
    let config = two_model_catalogue(None, None, "1", "1");
    let registry = ProviderRegistry::new(vec![provider_config("openai", AuthType::Bearer)]);
    let api_keys = api_keys_of(vec![("openai", "key")]);
    let custom_providers = no_custom();

    let available: Vec<AvailableModel> = ModelRegistry::compute_available_models_internal(
        &config,
        &api_keys,
        &registry,
        &custom_providers,
    );
    assert_eq!(available.len(), 2);
    assert_eq!(available[0].name, "Alpha");
    assert_eq!(available[1].name, "Beta");
}

#[test]
fn parse_price_reads_plain_decimals() {
    assert_eq!(talkcody::resolver::parse_price("1"), Some(1000000000));
    assert_eq!(talkcody::resolver::parse_price("0.0001"), Some(100000));
    assert_eq!(talkcody::resolver::parse_price("2.5"), Some(2500000000));
    assert_eq!(talkcody::resolver::parse_price("not a number"), None);
    assert_eq!(talkcody::resolver::parse_price(""), None);
}

#[test]
fn fallback_info_carries_measure() {
    let info = ModelFallbackInfo {
        model_key: "alpha".to_string(),
        provider_id: "openai".to_string(),
        context_length: 8192,
        input_price: Some(1000000000),
    };
    assert_eq!(info.context_length, 8192);
}
