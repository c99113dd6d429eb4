//! Model selection: honour a preferred identifier when it resolves, else
//! fall back by strategy — any available model by name, or the largest
//! context window with the cheapest input price.

use crate::registry::{
    pair_qualifies, spec_get_model_provider, AvailableModel, CustomProvidersConfiguration,
    ModelConfigModel, ModelRegistry, ModelsConfiguration, ProviderModel, ProviderRegistry,
};
use crate::smap::StrMap;
use crate::strutil::{first_index_of, lex_le};
use vstd::prelude::*;
use vstd::string::StringExecFns;

verus! {

/// Which rule picks a model when no preferred one resolves.
#[derive(Debug, Clone, Copy)]
pub enum FallbackStrategy {
    AnyAvailable,
    Compaction,
}

/// A decimal digit.
pub open spec fn is_digit(c: char) -> bool {
    ('0' as u32) <= (c as u32) && (c as u32) <= ('9' as u32)
}

/// Every character is a decimal digit.
pub open spec fn all_digits(s: Seq<char>) -> bool {
    forall|i: int| 0 <= i < s.len() ==> is_digit(s[i])
}

/// The value of a run of decimal digits.
pub open spec fn digits_val(s: Seq<char>) -> int
    decreases s.len(),
{
    if s.len() == 0 {
        0
    } else {
        digits_val(s.drop_last()) * 10 + ((s.last() as u32) - ('0' as u32))
    }
}

/// One thousand millionths: the fixed point scale prices are held at.
pub open spec fn price_scale() -> int {
    1000000000
}

/// The scaled value of a price text: plain decimal digits with at most one
/// point, at most eighteen integer digits, fraction truncated past nine
/// digits. Anything else has no known price.
pub open spec fn price_scaled(s: Seq<char>) -> Option<int> {
    let i = first_index_of(s, '.');
    if i == s.len() {
        if 0 < s.len() <= 18 && all_digits(s) {
            Some(digits_val(s) * price_scale())
        } else {
            None
        }
    } else {
        let ip = s.take(i);
        let fp = s.skip(i + 1);
        if ip.len() + fp.len() > 0 && ip.len() <= 18 && all_digits(ip) && all_digits(fp)
            && first_index_of(fp, '.') == fp.len() {
            Some(digits_val(ip) * price_scale() + frac_scaled(fp))
        } else {
            None
        }
    }
}

/// The scaled value of the fraction digits: the first nine digits, padded
/// with zeros on the right.
pub open spec fn frac_scaled(fp: Seq<char>) -> int {
    if fp.len() >= 9 {
        digits_val(fp.take(9))
    } else {
        digits_val(fp) * pow10(9 - fp.len())
    }
}

/// A small power of ten.
pub open spec fn pow10(n: int) -> int
    decreases n,
{
    if n <= 0 {
        1
    } else {
        10 * pow10(n - 1)
    }
}

/// What the compaction rule reads of one candidate: its context length,
/// zero when undeclared, and its scaled input price, unknown counting as
/// dearest.
pub open spec fn fb_measure(models: Map<Seq<char>, ModelConfigModel>, key: Seq<char>) -> (
    int,
    Option<int>,
) {
    (
        match models[key].context_length {
            Some(c) => c,
            None => 0,
        },
        match models[key].input_pricing {
            Some(p) => price_scaled(p),
            None => None,
        },
    )
}

/// Unknown prices are dearest; known ones compare by value.
pub open spec fn price_le(x: Option<int>, y: Option<int>) -> bool {
    match (x, y) {
        (Some(a), Some(b)) => a <= b,
        (Some(a), None) => true,
        (None, Some(b)) => false,
        (None, None) => true,
    }
}

/// The compaction preference: more context first, then cheaper input.
pub open spec fn fb_le(a: (int, Option<int>), b: (int, Option<int>)) -> bool {
    a.0 > b.0 || (a.0 == b.0 && price_le(a.1, b.1))
}

/// A model key and provider id joined with the separator.
pub open spec fn joined_id(key: Seq<char>, pid: Seq<char>) -> Seq<char> {
    key + "@"@ + pid
}

/// Join a model key and provider id into one identifier.
fn join_id(key: &str, pid: &str) -> (r: String)
    ensures
        r@ == joined_id(key@, pid@),
{
    let mut s = String::new();
    s.append(key);
    s.append("@");
    s.append(pid);
    s
}

/// Parse a price text to its scaled value, per [`price_scaled`].
pub fn parse_price(s: &str) -> (r: Option<u128>)
    ensures
        match r {
            Some(v) => price_scaled(s@) == Some(v as int),
            None => price_scaled(s@) is None,
        },
{
    let chars = crate::strutil::str_chars(s);
    let n = chars.len();
    let dot = crate::strutil::find_char_from(&chars, 0, '.');
    proof {
        assert(chars@.skip(0) =~= chars@);
    }
    if dot == n {
        if n == 0 || n > 18 {
            return None;
        }
        match digits_value(&chars, 0, n) {
            Some(v) => {
                proof {
                    assert(chars@.subrange(0, n as int) =~= chars@);
                    lemma_digits_val_bound(chars@);
                    lemma_pow10_values();
                }
                Some(v * 1000000000u128)
            },
            None => None,
        }
    } else {
        let ip_len = dot;
        let fp_start = dot + 1;
        if ip_len > 18 {
            return None;
        }
        if ip_len == 0 && fp_start >= n {
            proof {
                assert(chars@.take(dot as int).len() + chars@.skip(dot + 1).len() == 0);
            }
            return None;
        }
        let second = crate::strutil::find_char_from(&chars, fp_start, '.');
        proof {
            assert(first_index_of(chars@.skip(fp_start as int), '.') == second - fp_start);
        }
        if second != n {
            return None;
        }
        let ip = match digits_value(&chars, 0, ip_len) {
            Some(v) => v,
            None => {
                proof {
                    assert(chars@.take(dot as int) =~= chars@.subrange(0, ip_len as int));
                }
                return None;
            },
        };
        let fp_end = if n - fp_start >= 9 {
            fp_start + 9
        } else {
            n
        };
        let fp = match digits_value(&chars, fp_start, fp_end) {
            Some(v) => v,
            None => {
                proof {
                    let full = chars@.skip(fp_start as int);
                    if n - fp_start >= 9 {
                        assert(full.take(9) =~= chars@.subrange(fp_start as int, fp_end as int));
                        assert(!all_digits(chars@.subrange(fp_start as int, fp_end as int))
                            ==> !all_digits(full)) by {
                            if !all_digits(chars@.subrange(fp_start as int, fp_end as int)) {
                                let i = choose|i: int|
                                    0 <= i < 9 && !is_digit(
                                        chars@.subrange(fp_start as int, fp_end as int)[i],
                                    );
                                assert(!is_digit(full[i]));
                            }
                        }
                    } else {
                        assert(full =~= chars@.subrange(fp_start as int, fp_end as int));
                    }
                }
                return None;
            },
        };
        if n - fp_start >= 9 {
            let mut rest = fp_end;
            while rest < n
                invariant
                    fp_end <= rest <= n,
                    n == chars@.len(),
                    chars@ == s@,
                    first_index_of(chars@, '.') == dot as int,
                    dot < n,
                    ip_len == dot,
                    fp_start == dot + 1,
                    fp_start <= fp_end <= n,
                    fp_end == fp_start + 9,
                    ip_len <= 18,
                    all_digits(chars@.subrange(0, ip_len as int)),
                    ip as int == digits_val(chars@.subrange(0, ip_len as int)),
                    all_digits(chars@.subrange(fp_start as int, fp_end as int)),
                    fp as int == digits_val(chars@.subrange(fp_start as int, fp_end as int)),
                    forall|i: int| fp_end <= i < rest ==> is_digit(chars@[i]),
                decreases n - rest,
            {
                let c = chars[rest];
                let cu: u32 = c as u32;
                let lo: u32 = '0' as u32;
                let hi: u32 = '9' as u32;
                if !(lo <= cu && cu <= hi) {
                    proof {
                        assert(!is_digit(chars@[rest as int]));
                        assert(!all_digits(chars@.skip(fp_start as int))) by {
                            assert(chars@.skip(fp_start as int)[rest - fp_start]
                                == chars@[rest as int]);
                        }
                    }
                    return None;
                }
                rest = rest + 1;
            }
            proof {
                let full = chars@.skip(fp_start as int);
                assert(all_digits(full)) by {
                    assert forall|i: int| 0 <= i < full.len() implies is_digit(full[i]) by {
                        assert(full[i] == chars@[fp_start + i]);
                        if i < 9 {
                            assert(chars@.subrange(fp_start as int, fp_end as int)[i] == full[i]);
                        }
                    }
                }
                assert(full.take(9) =~= chars@.subrange(fp_start as int, fp_end as int));
                assert(frac_scaled(full) == digits_val(
                    chars@.subrange(fp_start as int, fp_end as int),
                ));
                assert(chars@.take(dot as int) =~= chars@.subrange(0, ip_len as int));
                lemma_digits_val_bound(chars@.subrange(0, ip_len as int));
                lemma_digits_val_bound_n(chars@.subrange(fp_start as int, fp_end as int), 9);
                lemma_pow10_values();
            }
            Some(ip * 1000000000u128 + fp)
        } else {
            let mut scale: u128 = 1;
            let mut k: usize = 0;
            let ghost digits = (n - fp_start) as int;
            while k < 9 - (n - fp_start)
                invariant
                    digits == n - fp_start,
                    0 <= digits < 9,
                    k <= 9 - digits,
                    scale as int == pow10(k as int),
                    n == chars@.len(),
                    chars@ == s@,
                    first_index_of(chars@, '.') == dot as int,
                    dot < n,
                    ip_len == dot,
                    fp_start == dot + 1,
                    fp_end == n,
                    fp_start <= n,
                    ip_len <= 18,
                    ip_len + (n - fp_start) > 0,
                    all_digits(chars@.subrange(0, ip_len as int)),
                    ip as int == digits_val(chars@.subrange(0, ip_len as int)),
                    all_digits(chars@.subrange(fp_start as int, fp_end as int)),
                    fp as int == digits_val(chars@.subrange(fp_start as int, fp_end as int)),
                decreases 9 - digits - k,
            {
                proof {
                    lemma_pow10_bound(k as int);
                }
                scale = scale * 10;
                k = k + 1;
            }
            proof {
                let full = chars@.skip(fp_start as int);
                assert(full =~= chars@.subrange(fp_start as int, fp_end as int));
                assert(frac_scaled(full) == digits_val(full) * pow10(9 - full.len()));
                assert(chars@.take(dot as int) =~= chars@.subrange(0, ip_len as int));
                lemma_digits_val_bound(chars@.subrange(0, ip_len as int));
                lemma_digits_val_bound_n(chars@.subrange(fp_start as int, fp_end as int), 9);
                lemma_pow10_bound(9 - digits);
                lemma_pow10_values();
                assert((fp as int) * (scale as int) < 1000000000000000000int) by (nonlinear_arith)
                    requires
                        0 <= (fp as int),
                        (fp as int) < 1000000000int,
                        1 <= (scale as int),
                        (scale as int) <= 1000000000int,
                ;
            }
            Some(ip * 1000000000u128 + fp * scale)
        }
    }
}

/// The fallback candidate drawn from one available model.
#[derive(Debug)]
pub struct ModelFallbackInfo {
    pub model_key: String,
    pub provider_id: String,
    pub context_length: u64,
    pub input_price: Option<u128>,
}

/// The compaction measure of one available model, read from the catalogue.
fn measure_of(config: &ModelsConfiguration, am: &AvailableModel) -> (r: (u64, Option<u128>))
    requires
        config.wf(),
    ensures
        config.models@.contains_key(am.key@) && (match config.models@[am.key@].input_pricing {
            Some(p) => Some(p),
            None => None,
        }) == (match am.input_pricing {
            Some(p) => Some(p@),
            None => None,
        }) ==> (
            r.0 as int,
            match r.1 {
                Some(v) => Some(v as int),
                None => None,
            },
        ) == fb_measure(config.models@, am.key@),
{
    let ctx: u64 = match config.models.get(am.key.as_str()) {
        Some(cfg) => match cfg.context_length {
            Some(c) => c,
            None => 0,
        },
        None => 0,
    };
    let price: Option<u128> = match &am.input_pricing {
        Some(p) => parse_price(p.as_str()),
        None => None,
    };
    (ctx, price)
}

/// Whether one measure is preferred over another, per [`fb_le`].
fn measure_le(a: (u64, Option<u128>), b: (u64, Option<u128>)) -> (r: bool)
    ensures
        r == fb_le(
            (
                a.0 as int,
                match a.1 {
                    Some(v) => Some(v as int),
                    None => None,
                },
            ),
            (
                b.0 as int,
                match b.1 {
                    Some(v) => Some(v as int),
                    None => None,
                },
            ),
        ),
{
    if a.0 > b.0 {
        true
    } else if a.0 == b.0 {
        match (a.1, b.1) {
            (Some(x), Some(y)) => x <= y,
            (Some(_), None) => true,
            (None, Some(_)) => false,
            (None, None) => true,
        }
    } else {
        false
    }
}

impl ModelRegistry {
    /// The fallback for compaction work: among everything available, the
    /// largest context window, ties going to the cheapest input price.
    pub fn resolve_compaction_fallback(
        config: &ModelsConfiguration,
        api_keys: &StrMap<String>,
        registry: &ProviderRegistry,
        custom_providers: &CustomProvidersConfiguration,
    ) -> (r: Result<String, String>)
        requires
            config.wf(),
            api_keys.wf(),
            custom_providers.providers.wf(),
        ensures
            ({
                let models = config.models@;
                let api = api_keys@;
                let reg = registry.model();
                let cust = custom_providers.providers@;
                match r {
                    Ok(s) => exists|key: Seq<char>, pid: Seq<char>|
                        {
                            &&& #[trigger] pair_qualifies(key, pid, models, api, reg, cust)
                            &&& s@ == joined_id(key, pid)
                            &&& forall|k2: Seq<char>, p2: Seq<char>|
                                #[trigger] pair_qualifies(k2, p2, models, api, reg, cust)
                                    ==> fb_le(fb_measure(models, key), fb_measure(models, k2))
                        },
                    Err(e) => {
                        &&& forall|key: Seq<char>, pid: Seq<char>|
                            !(#[trigger] pair_qualifies(key, pid, models, api, reg, cust))
                        &&& e@ == "No available model for compaction"@
                    },
                }
            }),
    {
        let ghost models = config.models@;
        let ghost api = api_keys@;
        let ghost reg = registry.model();
        let ghost cust = custom_providers.providers@;
        let available = Self::compute_available_models_internal(
            config,
            api_keys,
            registry,
            custom_providers,
        );
        let n = available.len();
        if n == 0 {
            proof {
                assert forall|key: Seq<char>, pid: Seq<char>|
                    !(#[trigger] pair_qualifies(key, pid, models, api, reg, cust)) by {
                    if pair_qualifies(key, pid, models, api, reg, cust) {
                        let i = choose|i: int|
                            0 <= i < available.deep_view().len() && available.deep_view()[i].key
                                == key && available.deep_view()[i].provider == pid;
                    }
                }
            }
            return Err("No available model for compaction".to_owned());
        }
        let mut best: usize = 0;
        let mut best_measure = measure_of(config, &available[0]);
        proof {
            assert(available.deep_view()[0].key == available@[0].key@);
        }
        let mut i: usize = 1;
        while i < n
            invariant
                best < i <= n || (i <= n && best < n),
                best < n,
                1 <= i <= n,
                n == available@.len(),
                config.wf(),
                models == config.models@,
                forall|t: int|
                    0 <= t < n ==> pair_qualifies(
                        #[trigger] available.deep_view()[t].key,
                        available.deep_view()[t].provider,
                        models,
                        api,
                        reg,
                        cust,
                    ) && available.deep_view()[t] == crate::registry::expected_available(
                        available.deep_view()[t].key,
                        available.deep_view()[t].provider,
                        models,
                        api,
                        reg,
                        cust,
                    ),
                (
                    best_measure.0 as int,
                    match best_measure.1 {
                        Some(v) => Some(v as int),
                        None => None,
                    },
                ) == fb_measure(models, available.deep_view()[best as int].key),
                forall|t: int|
                    0 <= t < i ==> fb_le(
                        fb_measure(models, available.deep_view()[best as int].key),
                        fb_measure(models, #[trigger] available.deep_view()[t].key),
                    ),
            decreases n - i,
        {
            let cand = measure_of(config, &available[i]);
            proof {
                assert(available.deep_view()[i as int].key == available@[i as int].key@);
                assert(pair_qualifies(
                    available.deep_view()[i as int].key,
                    available.deep_view()[i as int].provider,
                    models,
                    api,
                    reg,
                    cust,
                ));
            }
            if !measure_le(best_measure, cand) {
                proof {
                    lemma_fb_total(
                        fb_measure(models, available.deep_view()[best as int].key),
                        fb_measure(models, available.deep_view()[i as int].key),
                    );
                    assert forall|t: int|
                        0 <= t < i + 1 implies fb_le(
                        fb_measure(models, available.deep_view()[i as int].key),
                        fb_measure(models, #[trigger] available.deep_view()[t].key),
                    ) by {
                        if t < i {
                            lemma_fb_trans(
                                fb_measure(models, available.deep_view()[i as int].key),
                                fb_measure(models, available.deep_view()[best as int].key),
                                fb_measure(models, available.deep_view()[t].key),
                            );
                        }
                    }
                }
                best = i;
                best_measure = cand;
            } else {
                proof {
                    lemma_fb_total(
                        fb_measure(models, available.deep_view()[best as int].key),
                        fb_measure(models, available.deep_view()[best as int].key),
                    );
                }
            }
            i = i + 1;
        }
        let chosen = &available[best];
        proof {
            assert(chosen.deep_view() == available.deep_view()[best as int]);
            assert forall|k2: Seq<char>, p2: Seq<char>|
                #[trigger] pair_qualifies(k2, p2, models, api, reg, cust) implies fb_le(
                fb_measure(models, available.deep_view()[best as int].key),
                fb_measure(models, k2),
            ) by {
                let t = choose|t: int|
                    0 <= t < available.deep_view().len() && available.deep_view()[t].key == k2
                        && available.deep_view()[t].provider == p2;
            }
        }
        Ok(join_id(chosen.key.as_str(), chosen.provider.as_str()))
    }

    /// The fallback for ordinary work: the first available model by display
    /// name.
    pub fn resolve_any_available(
        config: &ModelsConfiguration,
        api_keys: &StrMap<String>,
        registry: &ProviderRegistry,
        custom_providers: &CustomProvidersConfiguration,
    ) -> (r: Result<String, String>)
        requires
            config.wf(),
            api_keys.wf(),
            custom_providers.providers.wf(),
        ensures
            ({
                let models = config.models@;
                let api = api_keys@;
                let reg = registry.model();
                let cust = custom_providers.providers@;
                match r {
                    Ok(s) => exists|key: Seq<char>, pid: Seq<char>|
                        {
                            &&& #[trigger] pair_qualifies(key, pid, models, api, reg, cust)
                            &&& s@ == joined_id(key, pid)
                            &&& forall|k2: Seq<char>, p2: Seq<char>|
                                #[trigger] pair_qualifies(k2, p2, models, api, reg, cust)
                                    ==> lex_le(models[key].name, models[k2].name)
                        },
                    Err(e) => {
                        &&& forall|key: Seq<char>, pid: Seq<char>|
                            !(#[trigger] pair_qualifies(key, pid, models, api, reg, cust))
                        &&& e@ == "No available model for the requested operation"@
                    },
                }
            }),
    {
        let ghost models = config.models@;
        let ghost api = api_keys@;
        let ghost reg = registry.model();
        let ghost cust = custom_providers.providers@;
        let available = Self::compute_available_models_internal(
            config,
            api_keys,
            registry,
            custom_providers,
        );
        if available.len() == 0 {
            proof {
                assert forall|key: Seq<char>, pid: Seq<char>|
                    !(#[trigger] pair_qualifies(key, pid, models, api, reg, cust)) by {
                    if pair_qualifies(key, pid, models, api, reg, cust) {
                        let i = choose|i: int|
                            0 <= i < available.deep_view().len() && available.deep_view()[i].key
                                == key && available.deep_view()[i].provider == pid;
                    }
                }
            }
            return Err("No available model for the requested operation".to_owned());
        }
        let first = &available[0];
        proof {
            let rm = available.deep_view();
            assert(first.deep_view() == rm[0]);
            assert(rm[0] == crate::registry::expected_available(
                rm[0].key,
                rm[0].provider,
                models,
                api,
                reg,
                cust,
            ));
            assert forall|k2: Seq<char>, p2: Seq<char>|
                #[trigger] pair_qualifies(k2, p2, models, api, reg, cust) implies lex_le(
                models[rm[0].key].name,
                models[k2].name,
            ) by {
                let t = choose|t: int|
                    0 <= t < rm.len() && rm[t].key == k2 && rm[t].provider == p2;
                assert(lex_le(rm[0].name, rm[t].name));
                assert(rm[t].name == models[k2].name);
                assert(rm[0].name == models[rm[0].key].name);
            }
        }
        Ok(join_id(first.key.as_str(), first.provider.as_str()))
    }
}

/// Whether a preferred identifier resolves: a known model key resolves
/// through provider selection; a `key@provider` pair resolves when both
/// halves exist; anything else does not resolve and the caller falls back.
pub open spec fn spec_try_resolve(
    mid: Seq<char>,
    api_keys: Map<Seq<char>, Seq<char>>,
    registry: Seq<ProviderModel>,
    custom: Map<Seq<char>, crate::registry::CustomProviderModel>,
    custom_entries: Seq<(Seq<char>, crate::registry::CustomProviderModel)>,
    models: Map<Seq<char>, ModelConfigModel>,
) -> Option<Seq<char>> {
    if models.contains_key(mid) {
        match spec_get_model_provider(mid, api_keys, registry, custom, custom_entries, models) {
            Some(pair) => Some(joined_id(pair.0, pair.1)),
            None => None,
        }
    } else if crate::registry::char_count(mid, '@') == 1 {
        let i = first_index_of(mid, '@');
        let key = mid.take(i);
        let pid = mid.skip(i + 1);
        if models.contains_key(key) && crate::registry::find_provider(registry, pid) is Some {
            Some(joined_id(key, pid))
        } else {
            None
        }
    } else {
        None
    }
}

/// Try to resolve a preferred model identifier, per [`spec_try_resolve`].
pub fn try_resolve_model(
    model_identifier: &str,
    config: &ModelsConfiguration,
    api_keys: &StrMap<String>,
    registry: &ProviderRegistry,
    custom_providers: &CustomProvidersConfiguration,
) -> (r: Option<String>)
    requires
        config.wf(),
        api_keys.wf(),
        custom_providers.providers.wf(),
    ensures
        ({
            let sr = spec_try_resolve(
                model_identifier@,
                api_keys@,
                registry.model(),
                custom_providers.providers@,
                custom_providers.providers.entry_order(),
                config.models@,
            );
            match r {
                Some(s) => sr == Some(s@),
                None => sr is None,
            }
        }),
{
    if config.models.contains_key(model_identifier) {
        match ModelRegistry::get_model_provider(
            model_identifier,
            api_keys,
            registry,
            custom_providers,
            config,
        ) {
            Ok(pair) => {
                return Some(join_id(pair.0.as_str(), pair.1.as_str()));
            },
            Err(_) => {
                return None;
            },
        }
    }
    let chars = crate::strutil::str_chars(model_identifier);
    let n = chars.len();
    let mut ats: usize = 0;
    let mut first_at: usize = 0;
    let mut i: usize = 0;
    while i < n
        invariant
            i <= n,
            n == chars@.len(),
            ats <= i,
            ats as int == crate::registry::char_count(chars@.take(i as int), '@'),
            ats == 0 ==> forall|j: int| 0 <= j < i ==> chars@[j] != '@',
            ats > 0 ==> first_at < i && chars@[first_at as int] == '@' && (forall|j: int|
                0 <= j < first_at ==> chars@[j] != '@'),
        decreases n - i,
    {
        proof {
            crate::registry::lemma_char_count_take(chars@, '@', i as int);
        }
        if chars[i] == '@' {
            if ats == 0 {
                first_at = i;
            }
            ats = ats + 1;
        }
        i = i + 1;
    }
    proof {
        assert(chars@.take(n as int) =~= chars@);
    }
    if ats != 1 {
        return None;
    }
    proof {
        crate::strutil::lemma_first_index_of_from_scan(chars@, '@', first_at as int);
    }
    let before = crate::strutil::copy_range(&chars, 0, first_at);
    let after = crate::strutil::copy_range(&chars, first_at + 1, n);
    proof {
        assert(before@ =~= chars@.take(first_at as int));
        assert(after@ =~= chars@.skip(first_at + 1));
    }
    let key = crate::strutil::chars_to_string(&before);
    let pid = crate::strutil::chars_to_string(&after);
    if config.models.contains_key(key.as_str()) {
        match registry.provider(pid.as_str()) {
            Some(_) => Some(join_id(key.as_str(), pid.as_str())),
            None => None,
        }
    } else {
        None
    }
}

/// Resolve the model to use: the preferred identifier where it resolves,
/// else by the fallback strategy.
pub fn resolve_model_identifier(
    preferred: Option<String>,
    strategy: FallbackStrategy,
    config: &ModelsConfiguration,
    api_keys: &StrMap<String>,
    registry: &ProviderRegistry,
    custom_providers: &CustomProvidersConfiguration,
) -> (r: Result<String, String>)
    requires
        config.wf(),
        api_keys.wf(),
        custom_providers.providers.wf(),
    ensures
        ({
            let pre = match preferred {
                Some(m) => spec_try_resolve(
                    m@,
                    api_keys@,
                    registry.model(),
                    custom_providers.providers@,
                    custom_providers.providers.entry_order(),
                    config.models@,
                ),
                None => None,
            };
            match pre {
                Some(sv) => r is Ok && (r matches Ok(s) ==> s@ == sv),
                None => true,
            }
        }),
{
    match &preferred {
        Some(m) => {
            match try_resolve_model(m.as_str(), config, api_keys, registry, custom_providers) {
                Some(resolved) => {
                    return Ok(resolved);
                },
                None => {},
            }
        },
        None => {},
    }
    match strategy {
        FallbackStrategy::AnyAvailable => ModelRegistry::resolve_any_available(
            config,
            api_keys,
            registry,
            custom_providers,
        ),
        FallbackStrategy::Compaction => ModelRegistry::resolve_compaction_fallback(
            config,
            api_keys,
            registry,
            custom_providers,
        ),
    }
}

/// The compaction preference is total.
proof fn lemma_fb_total(a: (int, Option<int>), b: (int, Option<int>))
    ensures
        fb_le(a, b) || fb_le(b, a),
{
}

/// The compaction preference is transitive.
proof fn lemma_fb_trans(a: (int, Option<int>), b: (int, Option<int>), c: (int, Option<int>))
    requires
        fb_le(a, b),
        fb_le(b, c),
    ensures
        fb_le(a, c),
{
}

/// The value of eighteen or fewer digits fits well under the scale bound.
proof fn lemma_digits_val_bound(s: Seq<char>)
    requires
        all_digits(s),
        s.len() <= 18,
    ensures
        0 <= digits_val(s) < 1000000000000000000,
    decreases s.len(),
{
    lemma_digits_val_bound_n(s, 18);
    lemma_pow10_values();
}

proof fn lemma_digits_val_bound_n(s: Seq<char>, n: int)
    requires
        all_digits(s),
        s.len() <= n,
        0 <= n,
    ensures
        0 <= digits_val(s) < pow10(n),
    decreases s.len(),
{
    if s.len() == 0 {
        lemma_pow10_pos(n);
    } else {
        assert(all_digits(s.drop_last())) by {
            assert(forall|i: int| 0 <= i < s.len() - 1 ==> s.drop_last()[i] == s[i]);
        }
        lemma_digits_val_bound_n(s.drop_last(), n - 1);
        assert(pow10(n) == 10 * pow10(n - 1));
        assert(is_digit(s.last()));
    }
}

/// The concrete powers the bounds below need.
proof fn lemma_pow10_values()
    ensures
        pow10(9) == 1000000000,
        pow10(18) == 1000000000000000000,
{
    assert(pow10(0) == 1);
    assert(pow10(1) == 10);
    assert(pow10(2) == 100);
    assert(pow10(3) == 1000);
    assert(pow10(4) == 10000);
    assert(pow10(5) == 100000);
    assert(pow10(6) == 1000000);
    assert(pow10(7) == 10000000);
    assert(pow10(8) == 100000000);
    assert(pow10(9) == 1000000000);
    assert(pow10(10) == 10000000000);
    assert(pow10(11) == 100000000000);
    assert(pow10(12) == 1000000000000);
    assert(pow10(13) == 10000000000000);
    assert(pow10(14) == 100000000000000);
    assert(pow10(15) == 1000000000000000);
    assert(pow10(16) == 10000000000000000);
    assert(pow10(17) == 100000000000000000);
    assert(pow10(18) == 1000000000000000000);
}

proof fn lemma_pow10_pos(n: int)
    ensures
        pow10(n) >= 1,
    decreases n,
{
    if n > 0 {
        lemma_pow10_pos(n - 1);
    }
}

/// Ten to the ninth and below stays small.
proof fn lemma_pow10_bound(n: int)
    requires
        0 <= n <= 9,
    ensures
        1 <= pow10(n) <= 1000000000,
    decreases 9 - n,
{
    lemma_pow10_values();
    if n < 9 {
        lemma_pow10_bound(n + 1);
    }
}

/// The value of a window of digits, where every one is a digit.
fn digits_value(chars: &Vec<char>, from: usize, to: usize) -> (r: Option<u128>)
    requires
        from <= to <= chars@.len(),
        to - from <= 18,
    ensures
        match r {
            Some(v) => all_digits(chars@.subrange(from as int, to as int)) && v as int
                == digits_val(chars@.subrange(from as int, to as int)),
            None => !all_digits(chars@.subrange(from as int, to as int)),
        },
{
    let mut v: u128 = 0;
    let mut i: usize = from;
    while i < to
        invariant
            from <= i <= to <= chars@.len(),
            to - from <= 18,
            all_digits(chars@.subrange(from as int, i as int)),
            v as int == digits_val(chars@.subrange(from as int, i as int)),
            v < 1000000000000000000,
        decreases to - i,
    {
        let c = chars[i];
        let cu: u32 = c as u32;
        let lo: u32 = '0' as u32;
        let hi: u32 = '9' as u32;
        if !(lo <= cu && cu <= hi) {
            proof {
                assert(chars@.subrange(from as int, to as int)[i - from] == chars@[i as int]);
            }
            return None;
        }
        proof {
            let pre = chars@.subrange(from as int, i as int);
            let post = chars@.subrange(from as int, i + 1);
            assert(post.drop_last() =~= pre);
            assert(post.last() == chars@[i as int]);
            assert(all_digits(post)) by {
                assert(forall|j: int| 0 <= j < post.len() - 1 ==> post[j] == pre[j]);
            }
            lemma_digits_val_bound_n(post, 18);
            lemma_pow10_values();
        }
        v = v * 10 + ((cu - lo) as u128);
        i = i + 1;
    }
    proof {
        assert(chars@.subrange(from as int, i as int) =~= chars@.subrange(
            from as int,
            to as int,
        ));
    }
    Some(v)
}

} // verus!
