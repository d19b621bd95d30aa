//! Which host files an install or uninstall touches, decided from what the
//! caller found on disk: the Codex config, instructions and hooks, the
//! OpenCode config and instructions, and the OpenCode plugin, with the
//! refusals that keep a foreign file from being overwritten.

use vstd::prelude::*;

use crate::chars::{is_prefix, starts_with, to_chars};
use crate::Error;

verus! {

broadcast use vstd::string::group_string_axioms;

/// What the caller found of the host files.
pub struct HostFiles {
    pub codex_config: bool,
    pub codex_agents: bool,
    pub codex_hooks: bool,
    pub opencode_jsonc: bool,
    pub opencode_json: bool,
    pub opencode_agents: bool,
    /// The plugin path is a symbolic link (or another link-like entry).
    pub plugin_link: bool,
    pub plugin_exists: bool,
    pub plugin_is_file: bool,
    /// The plugin's text when it is a file (empty otherwise).
    pub plugin_text: String,
}

/// One host file to rewrite or delete.
#[derive(PartialEq, Eq, Structural, Clone, Copy, Debug)]
pub enum HostEdit {
    /// Patch the Codex `config.toml`.
    CodexConfig,
    /// Patch the managed block of the Codex `AGENTS.md`.
    CodexAgents,
    /// Patch the Codex `hooks.json`.
    CodexHooks,
    /// Patch the OpenCode config: `opencode.jsonc` when `jsonc`, else
    /// `opencode.json`.
    OpenCodeConfig { jsonc: bool },
    /// Patch the managed block of the OpenCode `AGENTS.md`.
    OpenCodeAgents,
    /// Write the plugin.
    PluginWrite,
    /// Delete the plugin.
    PluginDelete,
}

/// The first lines by which a plugin file shows it belongs to Engramark.
pub open spec fn owned_plugin_seq(t: Seq<char>) -> bool {
    ||| is_prefix(t, "// engramark-managed-opencode-plugin-v1"@)
    ||| is_prefix(t, "// engramark-managed-opencode-plugin-v2"@)
    ||| is_prefix(t, "// engramark-managed-opencode-plugin-v3"@)
    ||| is_prefix(t, "// engramark-managed-opencode-plugin-v4"@)
    ||| is_prefix(t, "// Engramark OpenCode 适配器（legacy 安全版）。"@)
}

/// Whether a plugin text belongs to Engramark.
pub fn is_owned_opencode_plugin(text: &str) -> (r: bool)
    ensures
        r == owned_plugin_seq(text@),
{
    let t = to_chars(text);
    starts_with(&t, &to_chars("// engramark-managed-opencode-plugin-v1")) || starts_with(
        &t,
        &to_chars("// engramark-managed-opencode-plugin-v2"),
    ) || starts_with(&t, &to_chars("// engramark-managed-opencode-plugin-v3")) || starts_with(
        &t,
        &to_chars("// engramark-managed-opencode-plugin-v4"),
    ) || starts_with(&t, &to_chars("// Engramark OpenCode 适配器（legacy 安全版）。"))
}

/// The refusal when both OpenCode config files exist.
pub open spec fn both_configs_text() -> Seq<char> {
    "\u{2}OpenCode 同时存在 opencode.jsonc 和 opencode.json，无法确定生效配置"@
}

/// The refusal when the plugin path is a link.
pub open spec fn plugin_link_text() -> Seq<char> {
    "\u{2}OpenCode 同名插件是符号链接，拒绝覆盖"@
}

/// The refusal when the plugin path is not a regular file.
pub open spec fn plugin_not_file_text() -> Seq<char> {
    "\u{2}OpenCode 同名插件路径不是普通文件"@
}

/// The refusal when a foreign plugin has the same name.
pub open spec fn plugin_foreign_text() -> Seq<char> {
    "\u{2}OpenCode 已有同名插件但不属于 Engramark，拒绝覆盖"@
}

/// The Codex edits: each file is patched on install, and on removal only
/// when it exists.
pub open spec fn codex_plan(install: bool, f: HostFiles) -> Seq<HostEdit> {
    (if install || f.codex_config { seq![HostEdit::CodexConfig] } else { Seq::empty() }) + (if install
        || f.codex_agents { seq![HostEdit::CodexAgents] } else { Seq::empty() }) + (if install || f.codex_hooks {
        seq![HostEdit::CodexHooks]
    } else {
        Seq::empty()
    })
}

/// The plugin edit: refused on install when the path is a link, not a
/// regular file, or a foreign plugin; written on install; deleted on removal
/// only when it is Engramark's.
pub open spec fn plugin_plan(install: bool, f: HostFiles) -> Result<Seq<HostEdit>, Seq<char>> {
    let owned = f.plugin_text@.len() > 0 && owned_plugin_seq(f.plugin_text@);
    if f.plugin_link {
        if install { Err(plugin_link_text()) } else { Ok(Seq::empty()) }
    } else if f.plugin_exists && !f.plugin_is_file {
        if install { Err(plugin_not_file_text()) } else { Ok(Seq::empty()) }
    } else if install && f.plugin_exists && !owned {
        Err(plugin_foreign_text())
    } else if install {
        Ok(seq![HostEdit::PluginWrite])
    } else if owned {
        Ok(seq![HostEdit::PluginDelete])
    } else {
        Ok(Seq::empty())
    }
}

/// The OpenCode edits: refused when both config files exist; the existing
/// config (else `opencode.jsonc`), the instructions, then the plugin.
pub open spec fn opencode_plan(install: bool, f: HostFiles) -> Result<Seq<HostEdit>, Seq<char>> {
    if f.opencode_jsonc && f.opencode_json {
        Err(both_configs_text())
    } else {
        let jsonc = !f.opencode_json;
        let config_exists = f.opencode_jsonc || f.opencode_json;
        let head = (if install || config_exists {
            seq![HostEdit::OpenCodeConfig { jsonc }]
        } else {
            Seq::empty()
        }) + (if install || f.opencode_agents { seq![HostEdit::OpenCodeAgents] } else { Seq::empty() });
        match plugin_plan(install, f) {
            Ok(p) => Ok(head + p),
            Err(m) => Err(m),
        }
    }
}

/// The host edits of an install (or removal) for the chosen hosts.
pub open spec fn host_plan(install: bool, codex: bool, opencode: bool, f: HostFiles) -> Result<Seq<HostEdit>, Seq<char>> {
    let c = if codex { codex_plan(install, f) } else { Seq::empty() };
    if opencode {
        match opencode_plan(install, f) {
            Ok(o) => Ok(c + o),
            Err(m) => Err(m),
        }
    } else {
        Ok(c)
    }
}

/// The plugin edit, or the refusal.
fn plugin_edit(install: bool, files: &HostFiles) -> (r: Result<Option<HostEdit>, Error>)
    ensures
        match plugin_plan(install, *files) {
            Ok(p) => r matches Ok(o) && p == (match o {
                Some(e) => seq![e],
                None => Seq::empty(),
            }),
            Err(m) => r matches Err(Error::Core(x)) && x@ == m,
        },
{
    let owned = files.plugin_text.unicode_len() > 0 && is_owned_opencode_plugin(files.plugin_text.as_str());
    if files.plugin_link {
        if install {
            return Err(Error::Core(String::from_str("\u{2}OpenCode 同名插件是符号链接，拒绝覆盖")));
        }
        Ok(None)
    } else if files.plugin_exists && !files.plugin_is_file {
        if install {
            return Err(Error::Core(String::from_str("\u{2}OpenCode 同名插件路径不是普通文件")));
        }
        Ok(None)
    } else if install && files.plugin_exists && !owned {
        Err(Error::Core(String::from_str("\u{2}OpenCode 已有同名插件但不属于 Engramark，拒绝覆盖")))
    } else if install {
        Ok(Some(HostEdit::PluginWrite))
    } else if owned {
        Ok(Some(HostEdit::PluginDelete))
    } else {
        Ok(None)
    }
}

/// The Codex edits.
fn codex_edits(install: bool, files: &HostFiles) -> (r: Vec<HostEdit>)
    ensures
        r@ == codex_plan(install, *files),
{
    let mut edits: Vec<HostEdit> = Vec::new();
    if install || files.codex_config {
        edits.push(HostEdit::CodexConfig);
    }
    if install || files.codex_agents {
        edits.push(HostEdit::CodexAgents);
    }
    if install || files.codex_hooks {
        edits.push(HostEdit::CodexHooks);
    }
    assert(edits@ =~= codex_plan(install, *files));
    edits
}

/// The OpenCode edits, or the refusal.
fn opencode_edits(install: bool, files: &HostFiles) -> (r: Result<Vec<HostEdit>, Error>)
    ensures
        match opencode_plan(install, *files) {
            Ok(p) => r matches Ok(v) && v@ == p,
            Err(m) => r matches Err(Error::Core(x)) && x@ == m,
        },
{
    if files.opencode_jsonc && files.opencode_json {
        return Err(Error::Core(String::from_str("\u{2}OpenCode 同时存在 opencode.jsonc 和 opencode.json，无法确定生效配置")));
    }
    let mut edits: Vec<HostEdit> = Vec::new();
    if install || files.opencode_jsonc || files.opencode_json {
        edits.push(HostEdit::OpenCodeConfig { jsonc: !files.opencode_json });
    }
    if install || files.opencode_agents {
        edits.push(HostEdit::OpenCodeAgents);
    }
    let ghost head = edits@;
    match plugin_edit(install, files) {
        Err(e) => Err(e),
        Ok(o) => {
            if let Some(e) = o {
                edits.push(e);
            }
            assert(edits@ =~= head + plugin_plan(install, *files)->Ok_0);
            Ok(edits)
        },
    }
}

/// The host files an install (or removal) touches, in order, or the
/// refusal that stops it before any file is written.
pub fn plan_host_edits(install: bool, codex: bool, opencode: bool, files: &HostFiles) -> (r: Result<Vec<HostEdit>, Error>)
    ensures
        match host_plan(install, codex, opencode, *files) {
            Ok(p) => r matches Ok(v) && v@ == p,
            Err(m) => r matches Err(Error::Core(x)) && x@ == m,
        },
{
    let mut edits: Vec<HostEdit> = if codex {
        codex_edits(install, files)
    } else {
        Vec::new()
    };
    if !opencode {
        return Ok(edits);
    }
    match opencode_edits(install, files) {
        Err(e) => Err(e),
        Ok(mut more) => {
            let ghost c = edits@;
            let ghost o = more@;
            edits.append(&mut more);
            assert(edits@ =~= c + o);
            Ok(edits)
        },
    }
}

} // verus!
