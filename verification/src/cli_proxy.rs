//! How the proxy for command-line tools follows the application's settings.
use vstd::prelude::*;
use crate::host::opt_view;
use crate::text::{chars_of};

verus! {

/// Where command-line tools take their proxy from.
#[derive(Debug, Clone, Copy, PartialEq, Eq)]
pub enum CliProxyMode {
    /// No proxy for command-line tools.
    Disabled,
    /// The application's own outbound proxy.
    SyncOutbound,
    /// A proxy of their own.
    Independent,
}

/// The command-line proxy settings.
#[derive(Debug)]
pub struct CliProxyConfig {
    pub mode: CliProxyMode,
    /// The proxy used in `Independent` mode.
    pub independent_url: Option<String>,
}

/// What applying the command-line proxy settings does.
#[derive(Debug)]
pub enum CliProxyAction {
    /// Set this proxy in the environment and the tools' configurations.
    UseProxy(String),
    /// Remove the proxy from them.
    ClearProxy,
}

pub enum CliProxyActionView {
    UseProxy(Seq<char>),
    ClearProxy,
}

impl View for CliProxyAction {
    type V = CliProxyActionView;

    open spec fn view(&self) -> CliProxyActionView {
        match self {
            CliProxyAction::UseProxy(u) => CliProxyActionView::UseProxy(u@),
            CliProxyAction::ClearProxy => CliProxyActionView::ClearProxy,
        }
    }
}

/// The proxy the mode selects, set when it is there and not empty.
pub open spec fn cli_proxy_plan(
    mode: CliProxyMode,
    independent_url: Option<Seq<char>>,
    outbound_url: Option<Seq<char>>,
) -> CliProxyActionView {
    let url = match mode {
        CliProxyMode::Disabled => None,
        CliProxyMode::SyncOutbound => outbound_url,
        CliProxyMode::Independent => independent_url,
    };
    match url {
        Some(u) => if u.len() > 0 { CliProxyActionView::UseProxy(u) } else { CliProxyActionView::ClearProxy },
        None => CliProxyActionView::ClearProxy,
    }
}

/// What applying `config` does, given the application's outbound proxy.
pub fn cli_proxy_action(config: &CliProxyConfig, outbound_url: &Option<String>) -> (r: CliProxyAction)
    ensures
        r@ == cli_proxy_plan(config.mode, opt_view(config.independent_url), opt_view(*outbound_url)),
{
    let url = match config.mode {
        CliProxyMode::Disabled => None,
        CliProxyMode::SyncOutbound => outbound_url.as_ref(),
        CliProxyMode::Independent => config.independent_url.as_ref(),
    };
    match url {
        Some(u) => {
            if chars_of(u.as_str()).len() > 0 {
                CliProxyAction::UseProxy(u.clone())
            } else {
                CliProxyAction::ClearProxy
            }
        },
        None => CliProxyAction::ClearProxy,
    }
}

/// Whether a change of the outbound proxy must be carried over to the
/// command-line tools.
pub fn follows_outbound_proxy(mode: CliProxyMode) -> (r: bool)
    ensures
        r == (mode == CliProxyMode::SyncOutbound),
{
    match mode {
        CliProxyMode::SyncOutbound => true,
        _ => false,
    }
}

/// In `SyncOutbound` mode the command-line proxy follows the application's
/// outbound proxy alone: with no outbound proxy (or an empty one) it is
/// cleared, with one it is used, and the independent URL plays no part.
pub proof fn lemma_sync_follows_outbound(
    independent_url: Option<Seq<char>>,
    other_independent_url: Option<Seq<char>>,
    outbound_url: Option<Seq<char>>,
)
    ensures
        outbound_url is None ==> cli_proxy_plan(CliProxyMode::SyncOutbound, independent_url, outbound_url)
            == CliProxyActionView::ClearProxy,
        outbound_url matches Some(u) ==> cli_proxy_plan(CliProxyMode::SyncOutbound, independent_url, outbound_url)
            == (if u.len() > 0 { CliProxyActionView::UseProxy(u) } else { CliProxyActionView::ClearProxy }),
        cli_proxy_plan(CliProxyMode::SyncOutbound, independent_url, outbound_url)
            == cli_proxy_plan(CliProxyMode::SyncOutbound, other_independent_url, outbound_url),
{
}

/// In `Independent` mode the command-line proxy is the independent URL,
/// whatever the outbound proxy; when disabled it is always cleared.
pub proof fn lemma_independent_and_disabled(
    independent_url: Option<Seq<char>>,
    outbound_url: Option<Seq<char>>,
    other_outbound_url: Option<Seq<char>>,
)
    ensures
        independent_url is None ==> cli_proxy_plan(CliProxyMode::Independent, independent_url, outbound_url)
            == CliProxyActionView::ClearProxy,
        independent_url matches Some(u) ==> cli_proxy_plan(CliProxyMode::Independent, independent_url, outbound_url)
            == (if u.len() > 0 { CliProxyActionView::UseProxy(u) } else { CliProxyActionView::ClearProxy }),
        cli_proxy_plan(CliProxyMode::Independent, independent_url, outbound_url)
            == cli_proxy_plan(CliProxyMode::Independent, independent_url, other_outbound_url),
        cli_proxy_plan(CliProxyMode::Disabled, independent_url, outbound_url) == CliProxyActionView::ClearProxy,
{
}

} // verus!
