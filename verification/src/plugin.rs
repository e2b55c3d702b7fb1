//! What the editor integration writes for the active provider.
use vstd::prelude::*;
use crate::json::{field, field_of, get_field, text_chars, text_or_empty, JsonValue};
use crate::text::{append_chars, chars_of, decimal_chars, string_of};
use crate::vscode_settings::{
    base_url_name, claude_env_updated, config_status, lemma_updated_values, local_proxy_url,
    proxy_placeholder, token_name, ConfigStatusView,
};

verus! {

broadcast use vstd::string::group_string_axioms;

/// The provider's token: `env.ANTHROPIC_AUTH_TOKEN` of its settings, or empty.
pub open spec fn provider_token(settings_config: JsonValue) -> Seq<char> {
    text_or_empty(field_of(field(settings_config, "env"@), token_name()))
}

/// The provider's base URL: `env.ANTHROPIC_BASE_URL` of its settings, or empty.
pub open spec fn provider_base_url(settings_config: JsonValue) -> Seq<char> {
    text_or_empty(field_of(field(settings_config, "env"@), base_url_name()))
}

/// The token and base URL to write into the editor: the placeholder and the
/// local proxy while the proxy takes over the provider, else the provider's own.
pub open spec fn sync_credentials(
    proxy_takeover_active: bool,
    proxy_port: u16,
    settings_config: JsonValue,
) -> (Seq<char>, Seq<char>) {
    if proxy_takeover_active {
        (proxy_placeholder(), local_proxy_url(proxy_port))
    } else {
        (provider_token(settings_config), provider_base_url(settings_config))
    }
}

fn env_text(settings_config: &JsonValue, name: &str) -> (r: String)
    ensures
        r@ == text_or_empty(field_of(field(*settings_config, "env"@), name@)),
{
    let env_key = chars_of("env");
    let value = match get_field(settings_config, &env_key) {
        Some(env) => text_chars(get_field(env, &chars_of(name))),
        None => None,
    };
    match value {
        Some(v) => string_of(&v),
        None => String::new(),
    }
}

/// The provider's token and base URL, empty where its settings lack them.
pub fn provider_credentials(settings_config: &JsonValue) -> (r: (String, String))
    ensures
        r.0@ == provider_token(*settings_config),
        r.1@ == provider_base_url(*settings_config),
{
    (env_text(settings_config, "ANTHROPIC_AUTH_TOKEN"), env_text(settings_config, "ANTHROPIC_BASE_URL"))
}

/// The token and base URL to write into the editor for the active provider.
pub fn vscode_sync_credentials(
    proxy_takeover_active: bool,
    proxy_port: u16,
    settings_config: &JsonValue,
) -> (r: (String, String))
    ensures
        (r.0@, r.1@) == sync_credentials(proxy_takeover_active, proxy_port, *settings_config),
{
    if proxy_takeover_active {
        let mut url = chars_of("http://127.0.0.1:");
        append_chars(&mut url, &decimal_chars(proxy_port as u64));
        ("proxy-placeholder".to_string(), string_of(&url))
    } else {
        provider_credentials(settings_config)
    }
}

/// What syncing the editor writes: nothing while the integration is off or no
/// provider is active, else the token and base URL for the active provider.
pub fn vscode_sync_plan(
    integration_enabled: bool,
    proxy_takeover_active: bool,
    proxy_port: u16,
    provider_settings: &Option<JsonValue>,
) -> (r: Option<(String, String)>)
    ensures
        r is Some <==> integration_enabled && provider_settings is Some,
        r matches Some(c) ==> (c.0@, c.1@) == sync_credentials(proxy_takeover_active, proxy_port, provider_settings->0),
{
    if !integration_enabled {
        return None;
    }
    match provider_settings {
        Some(config) => Some(vscode_sync_credentials(proxy_takeover_active, proxy_port, config)),
        None => None,
    }
}

/// Once the editor is synced with the active provider, checking it finds it
/// in order: through the running local proxy when the proxy takes over, else
/// against the provider's own key and base URL (unless that points at the local
/// proxy while it is not running).
pub proof fn lemma_check_after_sync(
    before: JsonValue,
    after: JsonValue,
    proxy_takeover_active: bool,
    proxy_port: u16,
    settings_config: JsonValue,
    proxy_running: bool,
)
    requires
        claude_env_updated(
            before,
            after,
            sync_credentials(proxy_takeover_active, proxy_port, settings_config).0,
            sync_credentials(proxy_takeover_active, proxy_port, settings_config).1,
        ),
        proxy_takeover_active ==> proxy_running,
        !proxy_takeover_active ==> proxy_running || (provider_token(settings_config) != proxy_placeholder()
            && provider_base_url(settings_config) != local_proxy_url(proxy_port)),
    ensures
        config_status(
            true,
            Some(after),
            proxy_running,
            proxy_port,
            provider_token(settings_config),
            provider_base_url(settings_config),
        )
            == ConfigStatusView::Matched,
{
    let c = sync_credentials(proxy_takeover_active, proxy_port, settings_config);
    lemma_updated_values(before, after, c.0, c.1);
}

} // verus!
