//! The `claudeCode.environmentVariables` block of a VSCode-family editor's
//! settings.json: writing the active provider into it, removing it, and
//! checking it against the active provider.
use vstd::prelude::*;
use crate::json::{
    as_array, as_text, field, get_field, key_index, keys_distinct, lemma_key_index_at, lemma_key_index_facts,
    lemma_key_index_none, lemma_member_value_none, lemma_member_value_prefix_free, member_index, member_value,
    members_of, parse_json, parsed_json, text_chars, text_or_empty, JsonValue,
};
use crate::text::{
    append_chars, chars_eq, chars_of, decimal, decimal_chars, lemma_filter_all, string_of, trim, trimmed,
};
use crate::host::{copy_opt, home_dir, opt_view, path_view, string_views, HostEnv, Platform};

verus! {

broadcast use vstd::string::group_string_axioms;

/// The editors whose settings.json this library manages.
#[derive(Debug, Clone, Copy, PartialEq, Eq)]
pub enum IdeKind {
    Vscode,
    Cursor,
    Windsurf,
}

/// The editor settings of the application.
#[derive(Debug)]
pub struct IdeSettings {
    /// A settings.json chosen by the user; a blank one counts as unset.
    pub vscode_settings_path: Option<String>,
    /// `"vscode"`, `"cursor"` or `"windsurf"`; anything else means VSCode.
    pub ide_type: Option<String>,
    pub enable_claude_plugin_integration: bool,
}

/// The editor an `ide_type` names: `"cursor"`, `"windsurf"`, else VSCode.
pub open spec fn ide_of(ide_type: Seq<char>) -> IdeKind {
    if ide_type == "cursor"@ {
        IdeKind::Cursor
    } else if ide_type == "windsurf"@ {
        IdeKind::Windsurf
    } else {
        IdeKind::Vscode
    }
}

/// The editor's own directory name.
pub open spec fn app_dir_name(ide: IdeKind) -> Seq<char> {
    match ide {
        IdeKind::Vscode => "Code"@,
        IdeKind::Cursor => "Cursor"@,
        IdeKind::Windsurf => "Windsurf"@,
    }
}

/// The components of an editor's settings.json below `base`: the `APPDATA`
/// directory on Windows, the home directory elsewhere.
pub open spec fn settings_components(platform: Platform, ide: IdeKind, base: Seq<char>) -> Seq<Seq<char>> {
    match platform {
        Platform::Windows => seq![base, app_dir_name(ide), "User"@, "settings.json"@],
        Platform::MacOs => seq![base, "Library"@, "Application Support"@, app_dir_name(ide), "User"@, "settings.json"@],
        Platform::Other => seq![base, ".config"@, app_dir_name(ide), "User"@, "settings.json"@],
    }
}

/// The default settings.json of an editor, given the home and `APPDATA`
/// directories, when the one the platform uses is known.
pub open spec fn default_settings_path(
    platform: Platform,
    ide: IdeKind,
    home: Option<Seq<char>>,
    appdata: Option<Seq<char>>,
) -> Option<Seq<Seq<char>>> {
    let base = if platform == Platform::Windows { appdata } else { home };
    match base {
        Some(b) => Some(settings_components(platform, ide, b)),
        None => None,
    }
}

/// The settings.json in use: the user's own path when it is not blank, else
/// the default one of the chosen editor.
pub open spec fn effective_settings_path(
    custom: Option<Seq<char>>,
    ide_type: Option<Seq<char>>,
    platform: Platform,
    home: Option<Seq<char>>,
    appdata: Option<Seq<char>>,
) -> Option<Seq<Seq<char>>> {
    match custom {
        Some(c) if trim(c).len() > 0 => Some(seq![c]),
        _ => default_settings_path(
            platform,
            ide_of(match ide_type { Some(t) => t, None => "vscode"@ }),
            home,
            appdata,
        ),
    }
}

/// The editor named by `ide_type`.
pub fn ide_kind(ide_type: &str) -> (r: IdeKind)
    ensures
        r == ide_of(ide_type@),
{
    let t = chars_of(ide_type);
    if chars_eq(&t, &chars_of("cursor")) {
        IdeKind::Cursor
    } else if chars_eq(&t, &chars_of("windsurf")) {
        IdeKind::Windsurf
    } else {
        IdeKind::Vscode
    }
}

/// The default settings.json of `ide`, below the given home or `APPDATA` directory.
pub fn settings_path_under(
    platform: Platform,
    ide: IdeKind,
    home: Option<String>,
    appdata: Option<String>,
) -> (r: Option<Vec<String>>)
    ensures
        path_view(r) == default_settings_path(platform, ide, opt_view(home), opt_view(appdata)),
{
    let base = match platform {
        Platform::Windows => appdata,
        _ => home,
    };
    let base = match base {
        Some(b) => b,
        None => return None,
    };
    let app = match ide {
        IdeKind::Vscode => "Code".to_string(),
        IdeKind::Cursor => "Cursor".to_string(),
        IdeKind::Windsurf => "Windsurf".to_string(),
    };
    let mut v: Vec<String> = Vec::new();
    v.push(base);
    match platform {
        Platform::Windows => {},
        Platform::MacOs => {
            v.push("Library".to_string());
            v.push("Application Support".to_string());
        },
        Platform::Other => {
            v.push(".config".to_string());
        },
    }
    v.push(app);
    v.push("User".to_string());
    v.push("settings.json".to_string());
    assert(string_views(v@) =~= settings_components(platform, ide, v@[0]@));
    Some(v)
}

/// The default settings.json of `ide` on this machine.
fn default_path(host: &HostEnv, ide: IdeKind) -> (r: Option<Vec<String>>)
    ensures
        exists|home: Option<Seq<char>>|
            path_view(r) == #[trigger] default_settings_path(host.platform, ide, home, opt_view(host.appdata)),
{
    match host.platform {
        Platform::Windows => {
            let r = settings_path_under(host.platform, ide, None, copy_opt(&host.appdata));
            assert(path_view(r) == default_settings_path(host.platform, ide, None, opt_view(host.appdata)));
            r
        },
        _ => {
            let home = home_dir();
            let r = settings_path_under(host.platform, ide, copy_opt(&home), None);
            assert(path_view(r) == default_settings_path(host.platform, ide, opt_view(home), opt_view(host.appdata)));
            r
        },
    }
}

/// VSCode's default settings.json (`None` when the base directory is unknown).
pub fn get_default_vscode_settings_path(host: &HostEnv) -> (r: Option<Vec<String>>)
    ensures
        exists|home: Option<Seq<char>>|
            path_view(r) == #[trigger] default_settings_path(host.platform, IdeKind::Vscode, home, opt_view(host.appdata)),
{
    default_path(host, IdeKind::Vscode)
}

/// Cursor's default settings.json (`None` when the base directory is unknown).
pub fn get_default_cursor_settings_path(host: &HostEnv) -> (r: Option<Vec<String>>)
    ensures
        exists|home: Option<Seq<char>>|
            path_view(r) == #[trigger] default_settings_path(host.platform, IdeKind::Cursor, home, opt_view(host.appdata)),
{
    default_path(host, IdeKind::Cursor)
}

/// Windsurf's default settings.json (`None` when the base directory is unknown).
pub fn get_default_windsurf_settings_path(host: &HostEnv) -> (r: Option<Vec<String>>)
    ensures
        exists|home: Option<Seq<char>>|
            path_view(r) == #[trigger] default_settings_path(host.platform, IdeKind::Windsurf, home, opt_view(host.appdata)),
{
    default_path(host, IdeKind::Windsurf)
}

/// The default settings.json of the editor an `ide_type` names.
pub fn get_default_path_for_ide(ide_type: &str, host: &HostEnv) -> (r: Option<Vec<String>>)
    ensures
        exists|home: Option<Seq<char>>|
            path_view(r) == #[trigger] default_settings_path(host.platform, ide_of(ide_type@), home, opt_view(host.appdata)),
{
    match ide_kind(ide_type) {
        IdeKind::Cursor => get_default_cursor_settings_path(host),
        IdeKind::Windsurf => get_default_windsurf_settings_path(host),
        IdeKind::Vscode => get_default_vscode_settings_path(host),
    }
}

/// The settings.json to work on: the user's own path when it is not blank,
/// else the default one of the chosen editor (VSCode when none is chosen).
pub fn get_vscode_settings_path(settings: &IdeSettings, host: &HostEnv) -> (r: Option<Vec<String>>)
    ensures
        exists|home: Option<Seq<char>>|
            path_view(r) == #[trigger] effective_settings_path(
                opt_view(settings.vscode_settings_path),
                opt_view(settings.ide_type),
                host.platform,
                home,
                opt_view(host.appdata),
            ),
{
    if let Some(custom) = &settings.vscode_settings_path {
        if trimmed(&chars_of(custom.as_str())).len() > 0 {
            let mut v: Vec<String> = Vec::new();
            v.push(custom.clone());
            let r = Some(v);
            assert(string_views(v@) =~= seq![custom@]);
            assert(path_view(r) == effective_settings_path(
                opt_view(settings.vscode_settings_path), opt_view(settings.ide_type), host.platform, None, opt_view(host.appdata)));
            return r;
        }
    }
    let ghost ide = ide_of(match opt_view(settings.ide_type) { Some(t) => t, None => "vscode"@ });
    let r = match &settings.ide_type {
        Some(t) => get_default_path_for_ide(t.as_str(), host),
        None => get_default_path_for_ide("vscode", host),
    };
    proof {
        let home = choose|home: Option<Seq<char>>|
            path_view(r) == #[trigger] default_settings_path(host.platform, ide, home, opt_view(host.appdata));
        assert(path_view(r) == effective_settings_path(
            opt_view(settings.vscode_settings_path), opt_view(settings.ide_type), host.platform, home, opt_view(host.appdata)));
    }
    r
}

/// The settings key that holds the environment of the Anthropic extension of the editor.
pub open spec fn env_vars_key() -> Seq<char> {
    "claudeCode.environmentVariables"@
}

/// The variable that carries the API token.
pub open spec fn token_name() -> Seq<char> {
    "ANTHROPIC_AUTH_TOKEN"@
}

/// The variable that carries the API base URL.
pub open spec fn base_url_name() -> Seq<char> {
    "ANTHROPIC_BASE_URL"@
}

pub open spec fn name_key() -> Seq<char> {
    "name"@
}

pub open spec fn value_key() -> Seq<char> {
    "value"@
}

/// The token written while the local proxy stands in for the provider.
pub open spec fn proxy_placeholder() -> Seq<char> {
    "proxy-placeholder"@
}

/// The address of the local proxy on `port`: `http://127.0.0.1:{port}`.
pub open spec fn local_proxy_url(port: u16) -> Seq<char> {
    "http://127.0.0.1:"@ + decimal(port as nat)
}

/// The `name` of an environment entry, or the empty string.
pub open spec fn entry_name(e: JsonValue) -> Seq<char> {
    text_or_empty(field(e, name_key()))
}

/// Whether an environment entry is one of the two this library manages.
pub open spec fn is_claude_entry(e: JsonValue) -> bool {
    entry_name(e) == token_name() || entry_name(e) == base_url_name()
}

/// The environment entries of a settings document (none when absent or not an array).
pub open spec fn env_entries(settings: JsonValue) -> Seq<JsonValue> {
    match as_array(field(settings, env_vars_key())) {
        Some(a) => a,
        None => Seq::empty(),
    }
}

/// The entries of `settings` that this library leaves in place.
pub open spec fn kept_entries(settings: JsonValue) -> Seq<JsonValue> {
    env_entries(settings).filter(|e: JsonValue| !is_claude_entry(e))
}

/// `e` is exactly `{ "name": name, "value": value }`.
pub open spec fn is_env_entry(e: JsonValue, name: Seq<char>, value: Seq<char>) -> bool {
    match e {
        JsonValue::Object(m) => {
            &&& m@.len() == 2
            &&& m@[0].0@ == name_key()
            &&& as_text(Some(m@[0].1)) == Some(name)
            &&& m@[1].0@ == value_key()
            &&& as_text(Some(m@[1].1)) == Some(value)
        },
        _ => false,
    }
}

/// `after` is `before` with its Anthropic environment entries replaced by the
/// given token and base URL: every other member of the document and every
/// other environment entry stays as it was, in its order.
pub open spec fn claude_env_updated(
    before: JsonValue,
    after: JsonValue,
    token: Seq<char>,
    base_url: Seq<char>,
) -> bool {
    &&& before is Object
    &&& after is Object
    &&& members_replaced(members_of(before), members_of(after))
    &&& forall|k: Seq<char>| k != env_vars_key() ==> #[trigger] field(after, k) == field(before, k)
    &&& as_array(field(after, env_vars_key())) matches Some(vs) && {
        let kept = kept_entries(before);
        &&& vs.len() == kept.len() + 2
        &&& vs.take(kept.len() as int) == kept
        &&& is_env_entry(vs[kept.len() as int], token_name(), token)
        &&& is_env_entry(vs[kept.len() as int + 1], base_url_name(), base_url)
    }
}

/// The members of `after` are those of `before`, with the first member named
/// by the environment key replaced by a member of that name (appended when
/// there is none): every other member stays, in its place.
pub open spec fn members_replaced(before: Seq<(String, JsonValue)>, after: Seq<(String, JsonValue)>) -> bool {
    match key_index(before, env_vars_key()) {
        Some(i) => {
            &&& after.len() == before.len()
            &&& after[i].0@ == env_vars_key()
            &&& forall|j: int| 0 <= j < before.len() && j != i ==> #[trigger] after[j] == before[j]
        },
        None => {
            &&& after.len() == before.len() + 1
            &&& after[before.len() as int].0@ == env_vars_key()
            &&& forall|j: int| 0 <= j < before.len() ==> #[trigger] after[j] == before[j]
        },
    }
}

/// A member not named by the environment key.
pub open spec fn not_env_member() -> spec_fn((String, JsonValue)) -> bool {
    |p: (String, JsonValue)| p.0@ != env_vars_key()
}

/// `after` is `before` without the Anthropic environment block, all else unchanged.
pub open spec fn claude_env_cleared(before: JsonValue, after: JsonValue) -> bool {
    if before is Object {
        &&& after is Object
        &&& members_of(after) == members_of(before).filter(not_env_member())
        &&& forall|k: Seq<char>| k != env_vars_key() ==> #[trigger] field(after, k) == field(before, k)
        &&& field(after, env_vars_key()) is None
    } else {
        after == before
    }
}

proof fn lemma_member_value_update(m: Seq<(String, JsonValue)>, i: int, p: (String, JsonValue), k: Seq<char>)
    requires
        0 <= i < m.len(),
        m[i].0@ != k,
        p.0@ != k,
    ensures
        member_value(m.update(i, p), k) == member_value(m, k),
    decreases m.len(),
{
    let u = m.update(i, p);
    if i == 0 {
        assert(u.drop_first() =~= m.drop_first());
        assert(u[0] == p);
    } else if m[0].0@ != k {
        lemma_member_value_update(m.drop_first(), i - 1, p, k);
        assert(u.drop_first() =~= m.drop_first().update(i - 1, p));
        assert(u[0] == m[0]);
    } else {
        assert(u[0] == m[0]);
    }
}

proof fn lemma_member_value_push(m: Seq<(String, JsonValue)>, p: (String, JsonValue), k: Seq<char>)
    requires
        p.0@ != k,
    ensures
        member_value(m.push(p), k) == member_value(m, k),
    decreases m.len(),
{
    let u = m.push(p);
    if m.len() == 0 {
        assert(u.drop_first() =~= Seq::<(String, JsonValue)>::empty());
        assert(member_value(u.drop_first(), k) is None);
        assert(u[0] == p);
    } else if m[0].0@ != k {
        lemma_member_value_push(m.drop_first(), p, k);
        assert(u.drop_first() =~= m.drop_first().push(p));
        assert(u[0] == m[0]);
    } else {
        assert(u[0] == m[0]);
    }
}

proof fn lemma_member_value_remove(m: Seq<(String, JsonValue)>, i: int, k: Seq<char>)
    requires
        0 <= i < m.len(),
        m[i].0@ != k,
    ensures
        member_value(m.remove(i), k) == member_value(m, k),
    decreases m.len(),
{
    if i > 0 && m[0].0@ != k {
        lemma_member_value_remove(m.drop_first(), i - 1, k);
        assert(m.remove(i).drop_first() =~= m.drop_first().remove(i - 1));
    } else if i == 0 {
        assert(m.remove(0) =~= m.drop_first());
    }
}

/// The name of an environment entry, as characters.
fn entry_name_chars(e: &JsonValue) -> (r: Vec<char>)
    ensures
        r@ == entry_name(*e),
{
    let key = chars_of("name");
    match text_chars(get_field(e, &key)) {
        Some(c) => c,
        None => Vec::new(),
    }
}

/// Whether `e` is one of the two managed environment entries.
fn is_claude_entry_exec(e: &JsonValue) -> (r: bool)
    ensures
        r == is_claude_entry(*e),
{
    let name = entry_name_chars(e);
    let t = chars_of("ANTHROPIC_AUTH_TOKEN");
    let u = chars_of("ANTHROPIC_BASE_URL");
    chars_eq(&name, &t) || chars_eq(&name, &u)
}

/// `{ "name": name, "value": value }`.
fn env_entry(name: &str, value: &str) -> (r: JsonValue)
    ensures
        is_env_entry(r, name@, value@),
{
    let mut m: Vec<(String, JsonValue)> = Vec::new();
    m.push(("name".to_string(), JsonValue::Str(name.to_string())));
    m.push(("value".to_string(), JsonValue::Str(value.to_string())));
    JsonValue::Object(m)
}

/// The entries of `existing` that are not Anthropic entries, in order.
fn keep_other_entries(existing: Vec<JsonValue>) -> (r: Vec<JsonValue>)
    ensures
        r@ == existing@.filter(|e: JsonValue| !is_claude_entry(e)),
{
    let ghost all = existing@;
    let mut kept: Vec<JsonValue> = Vec::new();
    for x in it: existing
        invariant
            it.seq() == all,
            kept@ == all.take(it.index() as int).filter(|e: JsonValue| !is_claude_entry(e)),
    {
        assert(all.take(it.index() + 1) =~= all.take(it.index() as int).push(x));
        proof {
            all.take(it.index() as int).lemma_filter_push(x, |e: JsonValue| !is_claude_entry(e));
        }
        if !is_claude_entry_exec(&x) {
            kept.push(x);
        }
    }
    assert(all.take(all.len() as int) =~= all);
    kept
}

/// Removing an element the predicate rejects leaves the filtered sequence as it was.
proof fn lemma_filter_without<A>(s: Seq<A>, i: int, p: spec_fn(A) -> bool)
    requires
        0 <= i < s.len(),
        !p(s[i]),
    ensures
        s.remove(i).filter(p) == s.filter(p),
{
    broadcast use vstd::seq_lib::group_filter_ensures;
    let a = s.take(i);
    let b = s.skip(i + 1);
    assert(s =~= a + seq![s[i]] + b);
    assert(s.remove(i) =~= a + b);
    Seq::filter_distributes_over_add(a + seq![s[i]], b, p);
    Seq::filter_distributes_over_add(a, seq![s[i]], p);
    Seq::filter_distributes_over_add(a, b, p);
    Seq::<A>::empty().lemma_filter_push(s[i], p);
    assert(Seq::<A>::empty().push(s[i]) =~= seq![s[i]]);
    assert(Seq::<A>::empty().filter(p) =~= Seq::<A>::empty());
    assert(a.filter(p) + Seq::<A>::empty() =~= a.filter(p));
}

/// Writes the given token and base URL into the Anthropic environment block of
/// an editor settings document, keeping every other member and every other
/// environment entry. A document that is not an object is left alone (`None`).
pub fn with_claude_env_vars(settings: JsonValue, token: &str, base_url: &str) -> (r: Option<JsonValue>)
    ensures
        r is None <==> !(settings is Object),
        r matches Some(after) ==> claude_env_updated(settings, after, token@, base_url@),
        r matches Some(after) ==> (keys_distinct(settings) ==> keys_distinct(after)),
{
    let ghost before = settings;
    match settings {
        JsonValue::Object(mut members) => {
            let ghost m0 = members@;
            let key = chars_of("claudeCode.environmentVariables");
            let idx = member_index(&members, &key);
            let existing: Vec<JsonValue> = match idx {
                Some(i) => {
                    proof {
                        lemma_member_value_prefix_free(m0, key@, i as int);
                        assert(m0.skip(i as int)[0] == m0[i as int]);
                        lemma_key_index_at(m0, key@, i as int);
                    }
                    let pair = members.remove(i);
                    match pair.1 {
                        JsonValue::Array(a) => a,
                        _ => Vec::new(),
                    }
                },
                None => {
                    proof {
                        lemma_member_value_none(m0, key@);
                        lemma_key_index_none(m0, key@);
                    }
                    Vec::new()
                },
            };
            assert(existing@ == env_entries(before));
            let mut vars = keep_other_entries(existing);
            let ghost kept = vars@;
            vars.push(env_entry("ANTHROPIC_AUTH_TOKEN", token));
            vars.push(env_entry("ANTHROPIC_BASE_URL", base_url));
            assert(vars@.take(kept.len() as int) =~= kept);
            let new_key = string_of(&key);
            let ghost pair = (new_key, JsonValue::Array(vars));
            match idx {
                Some(i) => {
                    members.insert(i, (new_key, JsonValue::Array(vars)));
                    assert(members@ =~= m0.update(i as int, pair));
                    assert forall|k: Seq<char>| k != env_vars_key() implies
                        #[trigger] member_value(members@, k) == member_value(m0, k) by {
                        lemma_member_value_update(m0, i as int, pair, k);
                    }
                    assert(member_value(members@, key@) == Some(pair.1)) by {
                        lemma_member_value_prefix_free(m0, key@, i as int);
                        lemma_member_value_prefix_free(members@, key@, i as int);
                        assert(members@.skip(i as int)[0] == pair);
                    }
                },
                None => {
                    members.push((new_key, JsonValue::Array(vars)));
                    assert(members@ =~= m0.push(pair));
                    assert forall|k: Seq<char>| k != env_vars_key() implies
                        #[trigger] member_value(members@, k) == member_value(m0, k) by {
                        lemma_member_value_push(m0, pair, k);
                    }
                    assert(member_value(members@, key@) == Some(pair.1)) by {
                        lemma_member_value_prefix_free(members@, key@, m0.len() as int);
                        assert(members@.skip(m0.len() as int)[0] == pair);
                    }
                },
            }
            let after = JsonValue::Object(members);
            assert forall|k: Seq<char>| k != env_vars_key() implies #[trigger] field(after, k) == field(before, k) by {
                assert(member_value(members@, k) == member_value(m0, k));
            }
            assert(members_replaced(m0, members@));
            proof {
                if keys_distinct(before) {
                    assert forall|a: int, b: int| 0 <= a < b < members_of(after).len() implies
                        (#[trigger] members_of(after)[a]).0@ != (#[trigger] members_of(after)[b]).0@ by {
                        assert(members_of(before) == m0);
                        match idx {
                            Some(i) => {
                                if a != i && b != i {
                                    assert(members_of(before)[a].0@ != members_of(before)[b].0@);
                                } else if a == i {
                                    assert(members_of(before)[i as int].0@ != members_of(before)[b].0@);
                                } else {
                                    assert(members_of(before)[a].0@ != members_of(before)[i as int].0@);
                                }
                            },
                            None => {
                                if b < m0.len() {
                                    assert(members_of(before)[a].0@ != members_of(before)[b].0@);
                                }
                            },
                        }
                    }
                }
            }
            Some(after)
        },
        _ => None,
    }
}

/// Removes the Anthropic environment block from an editor settings document;
/// a document that is not an object is returned unchanged.
pub fn without_claude_env_vars(settings: JsonValue) -> (r: JsonValue)
    ensures
        claude_env_cleared(settings, r),
{
    let ghost before = settings;
    match settings {
        JsonValue::Object(mut members) => {
            let ghost m0 = members@;
            let key = chars_of("claudeCode.environmentVariables");
            let mut idx = member_index(&members, &key);
            while idx.is_some()
                invariant
                    key@ == env_vars_key(),
                    forall|k: Seq<char>| k != env_vars_key() ==>
                        #[trigger] member_value(members@, k) == member_value(m0, k),
                    members@.filter(not_env_member()) == m0.filter(not_env_member()),
                    idx matches Some(i) ==> i < members@.len() && members@[i as int].0@ == key@,
                    idx is None ==> forall|j: int| 0 <= j < members@.len() ==> members@[j].0@ != key@,
                decreases members@.len(),
            {
                let i = idx.unwrap();
                let ghost m1 = members@;
                let _ = members.remove(i);
                assert forall|k: Seq<char>| k != env_vars_key() implies
                    #[trigger] member_value(members@, k) == member_value(m0, k) by {
                    lemma_member_value_remove(m1, i as int, k);
                }
                proof { lemma_filter_without(m1, i as int, not_env_member()); }
                idx = member_index(&members, &key);
            }
            proof {
                lemma_member_value_none(members@, key@);
                assert forall|j: int| 0 <= j < members@.len() implies not_env_member()(#[trigger] members@[j]) by {}
                lemma_filter_all(members@, not_env_member());
            }
            JsonValue::Object(members)
        },
        other => other,
    }
}


/// The settings to write back after writing the token and base URL into a
/// settings document read from disk, or `None` when the file is to be left as
/// it is: it did not parse (`settings` is `None`) or is not a JSON object.
pub fn updated_settings(settings: Option<JsonValue>, token: &str, base_url: &str) -> (r: Option<JsonValue>)
    ensures
        r is Some <==> (settings matches Some(d) && d is Object),
        r matches Some(after) ==> claude_env_updated(settings->0, after, token@, base_url@),
        r matches Some(after) ==> (keys_distinct(settings->0) ==> keys_distinct(after)),
{
    match settings {
        Some(doc) => with_claude_env_vars(doc, token, base_url),
        None => None,
    }
}

/// The settings to write back after removing the Anthropic environment block
/// from a settings document read from disk, or `None` when the file did not
/// parse and is to be left as it is.
pub fn cleared_settings(settings: Option<JsonValue>) -> (r: Option<JsonValue>)
    ensures
        r is Some <==> settings is Some,
        r matches Some(after) ==> claude_env_cleared(settings->0, after),
{
    match settings {
        Some(doc) => Some(without_claude_env_vars(doc)),
        None => None,
    }
}

/// How an editor's settings.json relates to the active provider.
#[derive(Debug)]
pub enum VscodeConfigStatus {
    /// The settings match.
    Matched,
    /// settings.json is missing, unreadable, or has no Anthropic environment.
    NotFound,
    /// The settings point at the local proxy, which is not running.
    ProxyNotRunning { base_url: String },
    /// Direct mode: the settings hold another key or base URL than the active provider.
    Mismatch { current_base_url: String, vscode_base_url: String },
    /// The editor integration is switched off.
    IntegrationDisabled,
}

/// `VscodeConfigStatus` with its texts as character sequences.
pub enum ConfigStatusView {
    Matched,
    NotFound,
    ProxyNotRunning(Seq<char>),
    Mismatch(Seq<char>, Seq<char>),
    IntegrationDisabled,
}

impl View for VscodeConfigStatus {
    type V = ConfigStatusView;

    open spec fn view(&self) -> ConfigStatusView {
        match self {
            VscodeConfigStatus::Matched => ConfigStatusView::Matched,
            VscodeConfigStatus::NotFound => ConfigStatusView::NotFound,
            VscodeConfigStatus::ProxyNotRunning { base_url } => ConfigStatusView::ProxyNotRunning(base_url@),
            VscodeConfigStatus::Mismatch { current_base_url, vscode_base_url } =>
                ConfigStatusView::Mismatch(current_base_url@, vscode_base_url@),
            VscodeConfigStatus::IntegrationDisabled => ConfigStatusView::IntegrationDisabled,
        }
    }
}

/// The first environment entry whose `name` is the string `name`.
pub open spec fn find_entry(vars: Seq<JsonValue>, name: Seq<char>) -> Option<JsonValue>
    decreases vars.len(),
{
    if vars.len() == 0 {
        None
    } else if as_text(field(vars[0], name_key())) == Some(name) {
        Some(vars[0])
    } else {
        find_entry(vars.drop_first(), name)
    }
}

/// The string `value` of the first entry named `name`, or the empty string.
pub open spec fn entry_value(vars: Seq<JsonValue>, name: Seq<char>) -> Seq<char> {
    match find_entry(vars, name) {
        Some(e) => text_or_empty(field(e, value_key())),
        None => Seq::empty(),
    }
}

/// The status of an editor's settings (`None` when the file is missing,
/// unreadable or not JSON) against the active provider's key and base URL:
/// in direct mode, a key or a base URL that differs from the provider's
/// (where the provider has one) is a mismatch.
pub open spec fn config_status(
    integration_enabled: bool,
    settings: Option<JsonValue>,
    proxy_running: bool,
    proxy_port: u16,
    current_token: Seq<char>,
    current_base_url: Seq<char>,
) -> ConfigStatusView {
    if !integration_enabled {
        ConfigStatusView::IntegrationDisabled
    } else {
        match settings {
            None => ConfigStatusView::NotFound,
            Some(doc) => match as_array(field(doc, env_vars_key())) {
                None => ConfigStatusView::NotFound,
                Some(vars) => {
                    let token = entry_value(vars, token_name());
                    let url = entry_value(vars, base_url_name());
                    if token == proxy_placeholder() || url == local_proxy_url(proxy_port) {
                        if !proxy_running {
                            ConfigStatusView::ProxyNotRunning(url)
                        } else {
                            ConfigStatusView::Matched
                        }
                    } else if (current_base_url.len() > 0 && url != current_base_url)
                        || (current_token.len() > 0 && token != current_token) {
                        ConfigStatusView::Mismatch(current_base_url, url)
                    } else {
                        ConfigStatusView::Matched
                    }
                },
            },
        }
    }
}

proof fn lemma_find_entry_at(vars: Seq<JsonValue>, name: Seq<char>, i: int)
    requires
        0 <= i <= vars.len(),
        forall|k: int| 0 <= k < i ==> as_text(field(#[trigger] vars[k], name_key())) != Some(name),
    ensures
        find_entry(vars, name) == find_entry(vars.skip(i), name),
    decreases i,
{
    if i > 0 {
        lemma_find_entry_at(vars.drop_first(), name, i - 1);
        assert(vars.drop_first().skip(i - 1) =~= vars.skip(i));
        assert(as_text(field(vars[0], name_key())) != Some(name));
    } else {
        assert(vars.skip(0) =~= vars);
    }
}

/// The string `value` of the first entry named `name`.
fn entry_value_chars(vars: &Vec<JsonValue>, name: &Vec<char>) -> (r: Vec<char>)
    requires
        name@ == token_name() || name@ == base_url_name(),
    ensures
        r@ == entry_value(vars@, name@),
{
    let name_key_chars = chars_of("name");
    let value_key_chars = chars_of("value");
    for i in 0..vars.len()
        invariant
            name_key_chars@ == name_key(),
            value_key_chars@ == value_key(),
            forall|k: int| 0 <= k < i ==> as_text(field(#[trigger] vars@[k], name_key())) != Some(name@),
    {
        match text_chars(get_field(&vars[i], &name_key_chars)) {
            Some(n) => {
                if chars_eq(&n, name) {
                    proof {
                        lemma_find_entry_at(vars@, name@, i as int);
                        assert(vars@.skip(i as int)[0] == vars@[i as int]);
                    }
                    return match text_chars(get_field(&vars[i], &value_key_chars)) {
                        Some(v) => v,
                        None => Vec::new(),
                    };
                }
            },
            None => {},
        }
    }
    proof {
        lemma_find_entry_at(vars@, name@, vars@.len() as int);
        assert(vars@.skip(vars@.len() as int) =~= Seq::<JsonValue>::empty());
    }
    Vec::new()
}

/// Checks an editor's settings document (`None` when it is missing, unreadable
/// or not JSON) against the active provider and the local proxy.
pub fn check_vscode_config_status(
    integration_enabled: bool,
    settings: &Option<JsonValue>,
    proxy_running: bool,
    proxy_port: u16,
    current_token: &str,
    current_base_url: &str,
) -> (r: VscodeConfigStatus)
    ensures
        r@ == config_status(integration_enabled, *settings, proxy_running, proxy_port, current_token@, current_base_url@),
{
    if !integration_enabled {
        return VscodeConfigStatus::IntegrationDisabled;
    }
    let doc = match settings {
        Some(d) => d,
        None => return VscodeConfigStatus::NotFound,
    };
    let key = chars_of("claudeCode.environmentVariables");
    let vars = match get_field(doc, &key) {
        Some(JsonValue::Array(a)) => a,
        _ => return VscodeConfigStatus::NotFound,
    };
    let token = entry_value_chars(vars, &chars_of("ANTHROPIC_AUTH_TOKEN"));
    let url = entry_value_chars(vars, &chars_of("ANTHROPIC_BASE_URL"));
    let mut expected = chars_of("http://127.0.0.1:");
    append_chars(&mut expected, &decimal_chars(proxy_port as u64));
    if chars_eq(&token, &chars_of("proxy-placeholder")) || chars_eq(&url, &expected) {
        if !proxy_running {
            return VscodeConfigStatus::ProxyNotRunning { base_url: string_of(&url) };
        }
        return VscodeConfigStatus::Matched;
    }
    let current = chars_of(current_base_url);
    let current_key = chars_of(current_token);
    if (current.len() > 0 && !chars_eq(&url, &current))
        || (current_key.len() > 0 && !chars_eq(&token, &current_key)) {
        return VscodeConfigStatus::Mismatch {
            current_base_url: current_base_url.to_string(),
            vscode_base_url: string_of(&url),
        };
    }
    VscodeConfigStatus::Matched
}

/// The settings to write back after writing the token and base URL into the
/// text of a settings.json, or `None` when the file is to be left as it is:
/// it is not JSON, or not a JSON object. Each key occurs once in the result.
pub fn updated_settings_text(content: &str, token: &str, base_url: &str) -> (r: Option<JsonValue>)
    ensures
        r is Some <==> (parsed_json(content@) matches Some(d) && d is Object),
        r matches Some(a) ==> claude_env_updated(parsed_json(content@)->0, a, token@, base_url@),
        r matches Some(a) ==> keys_distinct(a),
{
    updated_settings(parse_json(content), token, base_url)
}

/// The settings to write back after removing the Anthropic environment block
/// from the text of a settings.json, or `None` when it is not JSON and the
/// file is to be left as it is.
pub fn cleared_settings_text(content: &str) -> (r: Option<JsonValue>)
    ensures
        r is Some <==> parsed_json(content@) is Some,
        r matches Some(a) ==> claude_env_cleared(parsed_json(content@)->0, a),
{
    cleared_settings(parse_json(content))
}

/// Checks the text of an editor's settings.json (`None` when the file is
/// missing or unreadable) against the active provider and the local proxy;
/// text that is not JSON counts as no settings.
pub fn check_settings_text(
    integration_enabled: bool,
    content: &Option<String>,
    proxy_running: bool,
    proxy_port: u16,
    current_token: &str,
    current_base_url: &str,
) -> (r: VscodeConfigStatus)
    ensures
        r@ == config_status(
            integration_enabled,
            match content {
                Some(c) => parsed_json(c@),
                None => None,
            },
            proxy_running,
            proxy_port,
            current_token@,
            current_base_url@,
        ),
{
    let doc = match content {
        Some(c) => parse_json(c.as_str()),
        None => None,
    };
    check_vscode_config_status(integration_enabled, &doc, proxy_running, proxy_port, current_token, current_base_url)
}

/// The settings written by an update read back the token and base URL that were written.
pub proof fn lemma_updated_values(before: JsonValue, after: JsonValue, token: Seq<char>, base_url: Seq<char>)
    requires
        claude_env_updated(before, after, token, base_url),
    ensures
        as_array(field(after, env_vars_key())) matches Some(vs) && entry_value(vs, token_name()) == token
            && entry_value(vs, base_url_name()) == base_url,
{
    reveal_strlit("name");
    reveal_strlit("value");
    reveal_strlit("ANTHROPIC_AUTH_TOKEN");
    reveal_strlit("ANTHROPIC_BASE_URL");
    let vs = as_array(field(after, env_vars_key())).unwrap();
    let kept = kept_entries(before);
    let n = kept.len() as int;
    broadcast use vstd::seq_lib::group_filter_ensures;
    assert forall|k: int| 0 <= k < n implies !is_claude_entry(#[trigger] vs[k]) by {
        assert(vs[k] == vs.take(n)[k]);
        assert(kept[k] == env_entries(before).filter(|e: JsonValue| !is_claude_entry(e))[k]);
    }
    assert forall|k: int| 0 <= k < n implies as_text(field(#[trigger] vs[k], name_key())) != Some(token_name()) by {
        assert(!is_claude_entry(vs[k]));
    }
    assert forall|k: int| 0 <= k < n + 1 implies as_text(field(#[trigger] vs[k], name_key())) != Some(base_url_name()) by {
        if k < n {
            assert(!is_claude_entry(vs[k]));
        } else {
            let e = vs[n];
            assert(token_name() != base_url_name()) by {
                assert(token_name()[10] != base_url_name()[10]);
            }
            assert(name_key() != value_key()) by {
                assert(name_key().len() != value_key().len());
            }
            match e {
                JsonValue::Object(m) => {
                    assert(member_value(m@, name_key()) == Some(m@[0].1));
                },
                _ => {},
            }
        }
    }
    lemma_find_entry_at(vs, token_name(), n);
    lemma_find_entry_at(vs, base_url_name(), n + 1);
    let te = vs[n];
    let ue = vs[n + 1];
    assert(vs.skip(n)[0] == te);
    assert(vs.skip(n + 1)[0] == ue);
    assert(name_key() != value_key()) by {
        assert(name_key().len() != value_key().len());
    }
    match te {
        JsonValue::Object(m) => {
            assert(member_value(m@, name_key()) == Some(m@[0].1));
            assert(member_value(m@.drop_first(), value_key()) == Some(m@[1].1));
            assert(member_value(m@, value_key()) == Some(m@[1].1));
        },
        _ => {},
    }
    match ue {
        JsonValue::Object(m) => {
            assert(member_value(m@, name_key()) == Some(m@[0].1));
            assert(member_value(m@.drop_first(), value_key()) == Some(m@[1].1));
            assert(member_value(m@, value_key()) == Some(m@[1].1));
        },
        _ => {},
    }
    assert(entry_value(vs, token_name()) == token);
    assert(entry_value(vs, base_url_name()) == base_url);
}

/// After the active provider's token and base URL are written into the
/// settings, checking the settings against that provider finds them in order,
/// unless they point at the local proxy while it is not running.
pub proof fn lemma_check_after_update(
    before: JsonValue,
    after: JsonValue,
    token: Seq<char>,
    base_url: Seq<char>,
    proxy_running: bool,
    proxy_port: u16,
)
    requires
        claude_env_updated(before, after, token, base_url),
        proxy_running || (token != proxy_placeholder() && base_url != local_proxy_url(proxy_port)),
    ensures
        config_status(true, Some(after), proxy_running, proxy_port, token, base_url) == ConfigStatusView::Matched,
{
    lemma_updated_values(before, after, token, base_url);
}

/// The entries an update leaves in place are those of the settings it was
/// applied to: the two entries it writes are the ones the next update replaces.
pub proof fn lemma_kept_after_update(before: JsonValue, after: JsonValue, token: Seq<char>, base_url: Seq<char>)
    requires
        claude_env_updated(before, after, token, base_url),
    ensures
        kept_entries(after) == kept_entries(before),
{
    reveal_strlit("name");
    reveal_strlit("ANTHROPIC_AUTH_TOKEN");
    reveal_strlit("ANTHROPIC_BASE_URL");
    let vs = env_entries(after);
    let kept = kept_entries(before);
    let n = kept.len() as int;
    let pred = |e: JsonValue| !is_claude_entry(e);
    broadcast use vstd::seq_lib::group_filter_ensures;
    assert forall|k: int| 0 <= k < n implies pred(#[trigger] kept[k]) by {
        assert(kept.contains(kept[k]));
    }
    lemma_filter_all(kept, pred);
    let te = vs[n];
    let ue = vs[n + 1];
    match te {
        JsonValue::Object(m) => {
            assert(member_value(m@, name_key()) == Some(m@[0].1));
        },
        _ => {},
    }
    match ue {
        JsonValue::Object(m) => {
            assert(member_value(m@, name_key()) == Some(m@[0].1));
        },
        _ => {},
    }
    assert(!pred(te));
    assert(!pred(ue));
    assert(vs =~= kept.push(te).push(ue));
    kept.push(te).lemma_filter_push(ue, pred);
    kept.lemma_filter_push(te, pred);
}

/// Writing the same token and base URL a second time changes nothing: the
/// result stands to the original settings exactly as the first result does,
/// every member but the environment block is as after the first write, and so
/// are the environment entries in front of the two that are written.
pub proof fn lemma_update_twice(
    before: JsonValue,
    once: JsonValue,
    twice: JsonValue,
    token: Seq<char>,
    base_url: Seq<char>,
)
    requires
        claude_env_updated(before, once, token, base_url),
        claude_env_updated(once, twice, token, base_url),
    ensures
        claude_env_updated(before, twice, token, base_url),
        forall|k: Seq<char>| k != env_vars_key() ==> #[trigger] field(twice, k) == field(once, k),
        env_entries(twice).len() == env_entries(once).len(),
        env_entries(twice).take(kept_entries(before).len() as int)
            == env_entries(once).take(kept_entries(before).len() as int),
{
    lemma_kept_after_update(before, once, token, base_url);
    assert forall|k: Seq<char>| k != env_vars_key() implies #[trigger] field(twice, k) == field(before, k) by {
        assert(field(twice, k) == field(once, k));
    }
    let m0 = members_of(before);
    let m1 = members_of(once);
    let m2 = members_of(twice);
    lemma_key_index_facts(m0, env_vars_key());
    match key_index(m0, env_vars_key()) {
        Some(i) => {
            assert forall|k: int| 0 <= k < i implies m1[k].0@ != env_vars_key() by {
                assert(m1[k] == m0[k]);
            }
            lemma_key_index_at(m1, env_vars_key(), i);
        },
        None => {
            let n = m0.len() as int;
            assert forall|k: int| 0 <= k < n implies m1[k].0@ != env_vars_key() by {
                assert(m1[k] == m0[k]);
            }
            lemma_key_index_at(m1, env_vars_key(), n);
            assert forall|j: int| 0 <= j < n implies #[trigger] m2[j] == m0[j] by {
                assert(m2[j] == m1[j]);
            }
        },
    }
}

/// Once the Anthropic environment block is removed, checking the settings finds
/// no Anthropic configuration.
pub proof fn lemma_check_after_clear(
    before: JsonValue,
    after: JsonValue,
    proxy_running: bool,
    proxy_port: u16,
    current_token: Seq<char>,
    current_base_url: Seq<char>,
)
    requires
        claude_env_cleared(before, after),
    ensures
        config_status(true, Some(after), proxy_running, proxy_port, current_token, current_base_url)
            == ConfigStatusView::NotFound,
{
}

} // verus!
