//! Core logic of the cc-switch desktop helper: editor settings paths, the
//! `claudeCode.environmentVariables` block of an editor's settings.json,
//! proxy environment lines in shell start-up files, local proxy detection
//! and the decisions behind the proxy commands.
pub mod text;
pub mod host;
pub mod json;
pub mod vscode_settings;
pub mod env_manager;
pub mod cli_proxy;
pub mod global_proxy;
pub mod plugin;
