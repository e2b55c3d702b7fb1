//! The outbound proxy: the setting, connectivity results, local proxy
//! detection and the choice made when following the system's proxy.
use vstd::prelude::*;
use crate::host::{opt_view, string_views};
use crate::text::{append_chars, chars_of, decimal, decimal_chars, string_of, trim, trimmed};

verus! {

broadcast use vstd::string::group_string_axioms;

/// The result of a connectivity test through a proxy.
#[derive(Debug)]
pub struct ProxyTestResult {
    pub success: bool,
    pub latency_ms: u64,
    pub error: Option<String>,
}

/// Whether an outbound proxy is configured, and which.
#[derive(Debug)]
pub struct UpstreamProxyStatus {
    pub enabled: bool,
    pub proxy_url: Option<String>,
}

/// A proxy found listening on this machine.
#[derive(Debug)]
pub struct DetectedProxy {
    pub url: String,
    /// `http` or `socks5`.
    pub proxy_type: String,
    pub port: u16,
}

/// The proxy outbound requests actually take, and whether they get through.
#[derive(Debug)]
pub struct EffectiveProxyStatus {
    /// `explicit` (configured) or `system` (left to the system).
    pub source: String,
    pub explicit_proxy: Option<String>,
    pub reachable: bool,
    pub latency_ms: u64,
    pub error: Option<String>,
}

/// What following the system's proxy did.
#[derive(Debug)]
pub struct SyncProxyResult {
    /// `proxy` (a local proxy was applied) or `direct`.
    pub action: String,
    pub proxy_url: Option<String>,
    pub message: Option<String>,
}

// ---------------------------------------------------------------- the setting

/// The outbound proxy a URL entered by the user stands for: none (direct
/// connection) when it is blank, else the URL as entered.
pub open spec fn proxy_setting(url: Seq<char>) -> Option<Seq<char>> {
    if trim(url).len() == 0 { None } else { Some(url) }
}

/// The outbound proxy a URL entered by the user stands for.
pub fn proxy_url_setting(url: &str) -> (r: Option<String>)
    ensures
        opt_view(r) == proxy_setting(url@),
{
    if trimmed(&chars_of(url)).len() == 0 {
        None
    } else {
        Some(url.to_string())
    }
}

/// The status of the outbound proxy, given the proxy in use (if any).
pub fn get_upstream_proxy_status(current_proxy_url: Option<String>) -> (r: UpstreamProxyStatus)
    ensures
        r.enabled == current_proxy_url is Some,
        opt_view(r.proxy_url) == opt_view(current_proxy_url),
{
    UpstreamProxyStatus { enabled: current_proxy_url.is_some(), proxy_url: current_proxy_url }
}

// ---------------------------------------------------------------- connectivity

/// A proxy of reqwest's, as an HTTP client takes it.
#[verifier::external_type_specification]
#[verifier::external_body]
pub struct ExProxy(reqwest::Proxy);

/// The message with which reqwest rejects `url` as a proxy, if it does.
pub uninterp spec fn proxy_parse_error(url: Seq<char>) -> Option<Seq<char>>;

/// The proxy reqwest makes of `url` when it accepts it.
pub uninterp spec fn proxy_for(url: Seq<char>) -> reqwest::Proxy;

/// A proxy for all traffic through `url`.
/// Trusted: `reqwest::Proxy::all`, which parses the URL (and gives a SOCKS
/// URL without a port the port 1080) and fails with an error whose text is
/// returned. Parsing depends on the URL alone, so its result is named.
#[verifier::external_body]
fn parse_proxy(url: &str) -> (r: Result<reqwest::Proxy, String>)
    ensures
        r is Ok <==> proxy_parse_error(url@) is None,
        r matches Ok(p) ==> p == proxy_for(url@),
        r matches Err(e) ==> proxy_parse_error(url@) == Some(e@),
{
    match reqwest::Proxy::all(url) {
        Ok(p) => Ok(p),
        Err(e) => Err(e.to_string()),
    }
}

/// The error reported for a proxy URL that reqwest rejects.
pub fn invalid_proxy_error(parse_error: &str) -> (r: String)
    ensures
        r@ == "Invalid proxy URL: "@ + parse_error@,
{
    let mut v = chars_of("Invalid proxy URL: ");
    append_chars(&mut v, &chars_of(parse_error));
    string_of(&v)
}

/// The proxy to test: a blank URL cannot be tested, and a URL that reqwest
/// rejects is reported as invalid.
pub fn prepare_proxy_test(url: &str) -> (r: Result<reqwest::Proxy, String>)
    ensures
        trim(url@).len() == 0 ==> (r matches Err(e) && e@ == "Proxy URL is empty"@),
        trim(url@).len() > 0 ==> (r is Ok <==> proxy_parse_error(url@) is None),
        r matches Ok(p) ==> p == proxy_for(url@),
        trim(url@).len() > 0 ==> (r matches Err(e) ==> proxy_parse_error(url@) matches Some(m)
            && e@ == "Invalid proxy URL: "@ + m),
{
    if trimmed(&chars_of(url)).len() == 0 {
        return Err("Proxy URL is empty".to_string());
    }
    match parse_proxy(url) {
        Ok(p) => Ok(p),
        Err(e) => Err(invalid_proxy_error(e.as_str())),
    }
}

/// Whether any attempt got through.
pub open spec fn any_success(outcomes: Seq<Result<(), String>>) -> bool {
    exists|i: int| 0 <= i < outcomes.len() && #[trigger] outcomes[i] is Ok
}

/// The message of the last failed attempt.
pub open spec fn last_error(outcomes: Seq<Result<(), String>>) -> Option<Seq<char>>
    decreases outcomes.len(),
{
    if outcomes.len() == 0 {
        None
    } else {
        match outcomes.last() {
            Err(e) => Some(e@),
            Ok(_) => last_error(outcomes.drop_last()),
        }
    }
}

/// The endpoints a proxy test tries, in order.
pub open spec fn proxy_test_endpoints() -> Seq<Seq<char>> {
    seq!["https://httpbin.org/get"@, "https://www.google.com"@, "https://api.anthropic.com"@]
}

/// The endpoints the status check of the outbound connection tries, in order.
pub open spec fn status_check_endpoints() -> Seq<Seq<char>> {
    seq!["https://api.anthropic.com"@, "https://httpbin.org/get"@]
}

/// The endpoints a proxy test tries, in order.
pub fn proxy_test_targets() -> (r: Vec<String>)
    ensures
        string_views(r@) == proxy_test_endpoints(),
{
    let r = vec!["https://httpbin.org/get".to_string(), "https://www.google.com".to_string(),
        "https://api.anthropic.com".to_string()];
    assert(string_views(r@) =~= proxy_test_endpoints());
    r
}

/// The endpoints the status check of the outbound connection tries, in order.
pub fn status_check_targets() -> (r: Vec<String>)
    ensures
        string_views(r@) == status_check_endpoints(),
{
    let r = vec!["https://api.anthropic.com".to_string(), "https://httpbin.org/get".to_string()];
    assert(string_views(r@) =~= status_check_endpoints());
    r
}

/// Which endpoint to try next, given how the attempts so far went: none once
/// one got through or all `target_count` were tried, else the next in order.
pub fn next_probe(target_count: usize, outcomes: &Vec<Result<(), String>>) -> (r: Option<usize>)
    ensures
        r == (if any_success(outcomes@) || outcomes.len() >= target_count {
            None::<usize>
        } else {
            Some(outcomes.len())
        }),
{
    let (ok, _) = summarize(outcomes);
    if ok || outcomes.len() >= target_count {
        None
    } else {
        Some(outcomes.len())
    }
}

/// Whether any attempt got through, and the message of the last failure.
fn summarize(outcomes: &Vec<Result<(), String>>) -> (r: (bool, Option<String>))
    ensures
        r.0 == any_success(outcomes@),
        opt_view(r.1) == last_error(outcomes@),
{
    let mut ok = false;
    let mut last: Option<String> = None;
    for i in 0..outcomes.len()
        invariant
            ok == any_success(outcomes@.take(i as int)),
            opt_view(last) == last_error(outcomes@.take(i as int)),
    {
        let ghost t = outcomes@.take(i + 1);
        assert(t.drop_last() =~= outcomes@.take(i as int));
        assert(t.last() == outcomes@[i as int]);
        match &outcomes[i] {
            Ok(_) => {
                ok = true;
                assert(t[i as int] is Ok);
            },
            Err(e) => {
                last = Some(e.clone());
                if !ok {
                    assert forall|k: int| 0 <= k < t.len() implies !(#[trigger] t[k] is Ok) by {
                        if k < i {
                            assert(t[k] == outcomes@.take(i as int)[k]);
                        }
                    }
                }
            },
        }
        if ok {
            assert(any_success(t)) by {
                if !any_success(outcomes@.take(i as int)) {
                    assert(t[i as int] is Ok);
                } else {
                    let k = choose|k: int| 0 <= k < i && #[trigger] outcomes@.take(i as int)[k] is Ok;
                    assert(t[k] == outcomes@.take(i as int)[k]);
                }
            }
        }
    }
    assert(outcomes@.take(outcomes@.len() as int) =~= outcomes@);
    (ok, last)
}

/// The result of testing a proxy: it works when any test target was
/// reached; otherwise the error is the last failure's, or a note that every
/// target failed when none was tried.
pub fn proxy_test_result(outcomes: &Vec<Result<(), String>>, latency_ms: u64) -> (r: ProxyTestResult)
    ensures
        r.success == any_success(outcomes@),
        r.latency_ms == latency_ms,
        r.success ==> r.error is None,
        !r.success ==> opt_view(r.error) == Some(match last_error(outcomes@) {
            Some(e) => e,
            None => "All test targets failed"@,
        }),
{
    let (ok, last) = summarize(outcomes);
    if ok {
        ProxyTestResult { success: true, latency_ms, error: None }
    } else {
        let error = match last {
            Some(e) => e,
            None => "All test targets failed".to_string(),
        };
        ProxyTestResult { success: false, latency_ms, error: Some(error) }
    }
}

/// The proxy outbound requests take: `explicit` when one is configured,
/// else `system`; reachable when any test target was reached, else with the
/// last failure's message.
pub fn effective_proxy_status(
    explicit_proxy: Option<String>,
    outcomes: &Vec<Result<(), String>>,
    latency_ms: u64,
) -> (r: EffectiveProxyStatus)
    ensures
        r.source@ == (if explicit_proxy is Some { "explicit"@ } else { "system"@ }),
        opt_view(r.explicit_proxy) == opt_view(explicit_proxy),
        r.reachable == any_success(outcomes@),
        r.latency_ms == latency_ms,
        opt_view(r.error) == (if r.reachable { None } else { last_error(outcomes@) }),
{
    let (ok, last) = summarize(outcomes);
    let source = if explicit_proxy.is_some() { "explicit".to_string() } else { "system".to_string() };
    EffectiveProxyStatus {
        source,
        explicit_proxy,
        reachable: ok,
        latency_ms,
        error: if ok { None } else { last },
    }
}

// ---------------------------------------------------------------- local proxies

/// The protocol a local proxy speaks.
#[derive(Debug, Clone, Copy, PartialEq, Eq)]
pub enum ProxyKind {
    Http,
    Socks5,
}

/// A port where proxies commonly listen.
#[derive(Debug, Clone, Copy)]
pub struct ProxyPort {
    pub port: u16,
    /// The protocol it mainly speaks.
    pub kind: ProxyKind,
    /// It speaks both `http` and `socks5`.
    pub mixed: bool,
}

pub open spec fn kind_name(k: ProxyKind) -> Seq<char> {
    match k {
        ProxyKind::Http => "http"@,
        ProxyKind::Socks5 => "socks5"@,
    }
}

pub open spec fn other_kind(k: ProxyKind) -> ProxyKind {
    match k {
        ProxyKind::Http => ProxyKind::Socks5,
        ProxyKind::Socks5 => ProxyKind::Http,
    }
}

/// The ports probed for local proxies: Clash (mixed and SOCKS), generic
/// SOCKS5 and HTTP, Charles/Fiddler, Squid, V2Ray SOCKS and HTTP.
pub open spec fn proxy_port_table() -> Seq<(u16, ProxyKind, bool)> {
    seq![
        (7890u16, ProxyKind::Http, true),
        (7891u16, ProxyKind::Socks5, false),
        (1080u16, ProxyKind::Socks5, false),
        (8080u16, ProxyKind::Http, false),
        (8888u16, ProxyKind::Http, false),
        (3128u16, ProxyKind::Http, false),
        (10808u16, ProxyKind::Socks5, false),
        (10809u16, ProxyKind::Http, false),
    ]
}

/// A detected proxy as (url, protocol, port): `{protocol}://127.0.0.1:{port}`.
pub open spec fn detected(kind: ProxyKind, port: u16) -> (Seq<char>, Seq<char>, u16) {
    (kind_name(kind) + "://127.0.0.1:"@ + decimal(port as nat), kind_name(kind), port)
}

/// What an open port yields: its main protocol, and for a mixed port the other one too.
pub open spec fn port_entries(p: (u16, ProxyKind, bool)) -> Seq<(Seq<char>, Seq<char>, u16)> {
    if p.2 {
        seq![detected(p.1, p.0), detected(other_kind(p.1), p.0)]
    } else {
        seq![detected(p.1, p.0)]
    }
}

/// The proxies found, given which of the table's ports are open, in table order.
pub open spec fn detections(table: Seq<(u16, ProxyKind, bool)>, open: Seq<bool>) -> Seq<(Seq<char>, Seq<char>, u16)>
    decreases table.len(),
{
    if table.len() == 0 || open.len() == 0 {
        Seq::empty()
    } else {
        let rest = detections(table.drop_last(), open.drop_last());
        if open.last() { rest + port_entries(table.last()) } else { rest }
    }
}

pub open spec fn detected_views(v: Seq<DetectedProxy>) -> Seq<(Seq<char>, Seq<char>, u16)> {
    v.map_values(|d: DetectedProxy| (d.url@, d.proxy_type@, d.port))
}

pub open spec fn port_view(p: ProxyPort) -> (u16, ProxyKind, bool) {
    (p.port, p.kind, p.mixed)
}

/// The ports probed for local proxies.
pub fn proxy_ports() -> (r: Vec<ProxyPort>)
    ensures
        r@.map_values(|p: ProxyPort| port_view(p)) == proxy_port_table(),
{
    let mut r: Vec<ProxyPort> = Vec::new();
    r.push(ProxyPort { port: 7890, kind: ProxyKind::Http, mixed: true });
    r.push(ProxyPort { port: 7891, kind: ProxyKind::Socks5, mixed: false });
    r.push(ProxyPort { port: 1080, kind: ProxyKind::Socks5, mixed: false });
    r.push(ProxyPort { port: 8080, kind: ProxyKind::Http, mixed: false });
    r.push(ProxyPort { port: 8888, kind: ProxyKind::Http, mixed: false });
    r.push(ProxyPort { port: 3128, kind: ProxyKind::Http, mixed: false });
    r.push(ProxyPort { port: 10808, kind: ProxyKind::Socks5, mixed: false });
    r.push(ProxyPort { port: 10809, kind: ProxyKind::Http, mixed: false });
    assert(r@.map_values(|p: ProxyPort| port_view(p)) =~= proxy_port_table());
    r
}

fn detected_proxy(kind: ProxyKind, port: u16) -> (r: DetectedProxy)
    ensures
        (r.url@, r.proxy_type@, r.port) == detected(kind, port),
{
    let name = match kind {
        ProxyKind::Http => chars_of("http"),
        ProxyKind::Socks5 => chars_of("socks5"),
    };
    let mut url = name.clone();
    append_chars(&mut url, &chars_of("://127.0.0.1:"));
    append_chars(&mut url, &decimal_chars(port as u64));
    DetectedProxy { url: string_of(&url), proxy_type: string_of(&name), port }
}

/// The proxies to offer, given for each port of `proxy_ports()` whether
/// something listens on it: each open port with its main protocol, a mixed
/// port with both, in table order.
pub fn detected_proxies(open: &Vec<bool>) -> (r: Vec<DetectedProxy>)
    requires
        open@.len() == proxy_port_table().len(),
    ensures
        detected_views(r@) == detections(proxy_port_table(), open@),
{
    let ports = proxy_ports();
    let ghost table = proxy_port_table();
    let mut found: Vec<DetectedProxy> = Vec::new();
    assert(ports@.len() == 8) by {
        assert(ports@.map_values(|p: ProxyPort| port_view(p)).len() == 8);
    }
    for i in 0..ports.len()
        invariant
            ports@.map_values(|p: ProxyPort| port_view(p)) == table,
            table == proxy_port_table(),
            ports@.len() == 8,
            open@.len() == 8,
            detected_views(found@) == detections(table.take(i as int), open@.take(i as int)),
    {
        let p = ports[i];
        assert(port_view(p) == table[i as int]) by {
            assert(ports@.map_values(|p: ProxyPort| port_view(p))[i as int] == port_view(ports@[i as int]));
        }
        let ghost before = detected_views(found@);
        assert(table.take(i + 1).drop_last() =~= table.take(i as int));
        assert(open@.take(i + 1).drop_last() =~= open@.take(i as int));
        assert(table.take(i + 1).last() == table[i as int]);
        assert(open@.take(i + 1).last() == open@[i as int]);
        if open[i] {
            found.push(detected_proxy(p.kind, p.port));
            if p.mixed {
                let other = match p.kind {
                    ProxyKind::Http => ProxyKind::Socks5,
                    ProxyKind::Socks5 => ProxyKind::Http,
                };
                found.push(detected_proxy(other, p.port));
            }
            assert(detected_views(found@) =~= before + port_entries(table[i as int]));
        }
    }
    assert(table.take(8) =~= table);
    assert(open@.take(8) =~= open@);
    found
}

// ---------------------------------------------------------------- following the system's proxy

/// The next step in following the system's proxy.
#[derive(Debug)]
pub enum SyncStep {
    /// Test the detected proxy at this position.
    Test(usize),
    /// Apply the detected proxy at this position.
    UseProxy(usize),
    /// No local proxy was found: connect directly.
    DirectNoProxyFound,
    /// Local proxies were found but none got through: connect directly.
    DirectNoneReachable,
}

/// The step after testing the first `tested.len()` of `found` detected
/// proxies in order (`true` where the test got through): apply the first
/// that got through, else test the next, else connect directly.
pub fn next_sync_step(found: usize, tested: &Vec<bool>) -> (r: SyncStep)
    requires
        tested@.len() <= found,
    ensures
        found == 0 ==> r is DirectNoProxyFound,
        found > 0 ==> match r {
            SyncStep::UseProxy(i) => i < tested@.len() && tested@[i as int]
                && forall|k: int| 0 <= k < i ==> !#[trigger] tested@[k],
            SyncStep::Test(i) => i == tested@.len() && tested@.len() < found
                && forall|k: int| 0 <= k < tested@.len() ==> !#[trigger] tested@[k],
            SyncStep::DirectNoneReachable => tested@.len() == found
                && forall|k: int| 0 <= k < tested@.len() ==> !#[trigger] tested@[k],
            SyncStep::DirectNoProxyFound => false,
        },
{
    if found == 0 {
        return SyncStep::DirectNoProxyFound;
    }
    for i in 0..tested.len()
        invariant
            found > 0,
            forall|k: int| 0 <= k < i ==> !#[trigger] tested@[k],
    {
        if tested[i] {
            return SyncStep::UseProxy(i);
        }
    }
    if tested.len() < found {
        SyncStep::Test(tested.len())
    } else {
        SyncStep::DirectNoneReachable
    }
}

/// What following the system's proxy reports once it has decided: the
/// applied proxy, or a direct connection (noting when proxies were found
/// but none got through). `None` while a test is still due.
pub fn sync_proxy_result(step: &SyncStep, applied_url: Option<String>) -> (r: Option<SyncProxyResult>)
    ensures
        step is Test <==> r is None,
        step is UseProxy ==> (r matches Some(res) && res.action@ == "proxy"@
            && opt_view(res.proxy_url) == opt_view(applied_url) && res.message is None),
        step is DirectNoProxyFound ==> (r matches Some(res) && res.action@ == "direct"@
            && res.proxy_url is None && res.message is None),
        step is DirectNoneReachable ==> (r matches Some(res) && res.action@ == "direct"@
            && res.proxy_url is None
            && opt_view(res.message) == Some("Found local proxies but none reachable"@)),
{
    match step {
        SyncStep::Test(_) => None,
        SyncStep::UseProxy(_) => Some(SyncProxyResult {
            action: "proxy".to_string(),
            proxy_url: applied_url,
            message: None,
        }),
        SyncStep::DirectNoProxyFound => Some(SyncProxyResult {
            action: "direct".to_string(),
            proxy_url: None,
            message: None,
        }),
        SyncStep::DirectNoneReachable => Some(SyncProxyResult {
            action: "direct".to_string(),
            proxy_url: None,
            message: Some("Found local proxies but none reachable".to_string()),
        }),
    }
}

/// The ports probed for local proxies, each with the protocol it is offered
/// and tested with: 7890 http (also socks5), 7891 socks5, 1080 socks5,
/// 8080 http, 8888 http, 3128 http, 10808 socks5, 10809 http.
pub proof fn lemma_probed_ports()
    ensures
        proxy_port_table().len() == 8,
        forall|i: int| 0 <= i < 8 ==> (#[trigger] proxy_port_table()[i]).0 == seq![
            7890u16, 7891u16, 1080u16, 8080u16, 8888u16, 3128u16, 10808u16, 10809u16,
        ][i],
        forall|i: int| 0 <= i < 8 ==> kind_name((#[trigger] proxy_port_table()[i]).1) == seq![
            "http"@, "socks5"@, "socks5"@, "http"@, "http"@, "http"@, "socks5"@, "http"@,
        ][i],
        forall|i: int| 0 <= i < 8 ==> (#[trigger] proxy_port_table()[i]).2 == (i == 0),
{
    reveal_strlit("http");
    reveal_strlit("socks5");
    assert forall|i: int| 0 <= i < 8 implies kind_name((#[trigger] proxy_port_table()[i]).1) == seq![
        "http"@, "socks5"@, "socks5"@, "http"@, "http"@, "http"@, "socks5"@, "http"@,
    ][i] by {
        if i == 0 {} else if i == 1 {} else if i == 2 {} else if i == 3 {} else if i == 4 {}
        else if i == 5 {} else if i == 6 {} else {}
    }
}

/// A proxy found on a port is offered as `{protocol}://127.0.0.1:{port}`
/// with that port's protocol: only an open port yields proxies, a plain port
/// one, the mixed port one for each protocol.
pub proof fn lemma_single_open_port(i: int)
    requires
        0 <= i < 8,
    ensures
        detections(proxy_port_table(), Seq::new(8, |j: int| j == i)) == port_entries(proxy_port_table()[i]),
        port_entries(proxy_port_table()[i])[0] == detected(proxy_port_table()[i].1, proxy_port_table()[i].0),
        detected(proxy_port_table()[i].1, proxy_port_table()[i].0).0 == kind_name(proxy_port_table()[i].1)
            + "://127.0.0.1:"@ + decimal(proxy_port_table()[i].0 as nat),
        detections(proxy_port_table(), Seq::new(8, |j: int| false)) == Seq::<(Seq<char>, Seq<char>, u16)>::empty(),
{
    let t = proxy_port_table();
    let open = Seq::new(8, |j: int| j == i);
    let none = Seq::new(8, |j: int| false);
    lemma_detections_single(t, open, i);
    lemma_detections_none(t, none);
}

proof fn lemma_detections_none(t: Seq<(u16, ProxyKind, bool)>, open: Seq<bool>)
    requires
        t.len() == open.len(),
        forall|j: int| 0 <= j < open.len() ==> !open[j],
    ensures
        detections(t, open) == Seq::<(Seq<char>, Seq<char>, u16)>::empty(),
    decreases t.len(),
{
    if t.len() > 0 {
        lemma_detections_none(t.drop_last(), open.drop_last());
        assert(!open[open.len() - 1]);
    }
}

proof fn lemma_detections_single(t: Seq<(u16, ProxyKind, bool)>, open: Seq<bool>, i: int)
    requires
        t.len() == open.len(),
        0 <= i < t.len(),
        forall|j: int| 0 <= j < open.len() ==> open[j] == (j == i),
    ensures
        detections(t, open) == port_entries(t[i]),
    decreases t.len(),
{
    let n = t.len() as int;
    if i == n - 1 {
        lemma_detections_none(t.drop_last(), open.drop_last());
        assert(open.last());
        assert(Seq::<(Seq<char>, Seq<char>, u16)>::empty() + port_entries(t.last()) =~= port_entries(t[i]));
    } else {
        lemma_detections_single(t.drop_last(), open.drop_last(), i);
        assert(!open[n - 1]);
    }
}

} // verus!
