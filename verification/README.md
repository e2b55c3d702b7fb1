# cc_switch

The core of a desktop helper that points command-line tools and the
VSCode-family editors (VSCode, Cursor, Windsurf) at an Anthropic API provider
or a proxy. `src/` is verified with Verus; `app/` does the file, registry,
process and network work around it.

- `src/text.rs` – character models of `str::lines`, `trim`, `starts_with`,
  joining, and their executable forms.
- `src/json.rs` – a plain JSON model for settings documents.
- `src/host.rs` – platform, home directory.
- `src/vscode_settings.rs` – settings.json paths; writing, removing and
  checking the `claudeCode.environmentVariables` block of a settings.json
  text (a file that does not parse is left alone; keys stay distinct), with
  the laws that a check after a write (or a removal) gives the expected
  status and that a second identical write changes nothing.
- `src/env_manager.rs` – deleting/restoring variables, proxy exports in shell
  start-up files, pip's proxy setting, the proxy summary, the backup
  timestamp, with laws on re-reading what was written and on the summary
  after setting the proxy. Setting the proxy twice equals setting it once for
  a URL with no newline but perhaps a final one, and a file whose other lines
  end in at most five carriage returns; clearing after setting equals
  clearing alone for such a URL and a file whose other lines end in no
  carriage return. Restoring several variables into one file leaves each
  export line back in it.
- `src/global_proxy.rs`, `src/cli_proxy.rs`, `src/plugin.rs` – the decisions
  behind the proxy commands and the editor sync.
