//! Codex configuration: TOML checks and the managed project block.

use vstd::prelude::*;

use super::{
    cut_block, first_at, is_first, kept_text, lemma_occurs_split, lemma_trim_end_ws_of_trimmed, rust_space,
    lemma_trim_end_ws_shape, marker_error_text, markers_balanced, matched_never, matched_once, occurs_from,
    one_line, replace_block, replaced_block, trim_chars, trim_end_chars, trim_end_ws, trim_ws,
};
use crate::chars::{chars_eq, contains_chars, contains_seq, extend_str, from_chars, occurs_at, push_char, to_chars};
use crate::json::{escape_string, json_string_literal};
use crate::mem::parse::card_lines;
use crate::mem::{lemma_split_nonempty, replace_crlf, split_on_char, views};
use crate::Error;

verus! {

broadcast use vstd::string::group_string_axioms;

/// Begin marker of the managed project block.
pub const CODEX_PROJECT_BEGIN: &'static str = "# engramark-begin project-cwd";

/// End marker of the managed project block.
pub const CODEX_PROJECT_END: &'static str = "# engramark-end project-cwd";

/// What `toml::from_str::<toml::Table>` reports on a text: the display text
/// of its error, nothing when the text parses as a table.
pub uninterp spec fn toml_table_error(text: Seq<char>) -> Option<Seq<char>>;

/// Parses `text` with `toml::from_str::<toml::Table>`. Claimed: nothing
/// comes back exactly when the named result is nothing, and otherwise the
/// display text of the error, which is the named result.
#[verifier::external_body]
fn toml_table_check(text: &str) -> (r: Option<String>)
    ensures
        match r {
            Some(m) => toml_table_error(text@) == Some(m@),
            None => toml_table_error(text@) is None,
        },
{
    match toml::from_str::<toml::Table>(text) {
        Ok(_) => None,
        Err(err) => Some(err.to_string()),
    }
}

/// The error for a config that is not TOML.
pub open spec fn toml_error_text(m: Seq<char>) -> Seq<char> {
    "\u{2}Codex config.toml 不是有效 TOML："@ + m
}

/// The problem with a config text: none for a blank text or a TOML table,
/// else the parse error.
pub open spec fn toml_problem(t: Seq<char>) -> Option<Seq<char>> {
    if trim_ws(t).len() == 0 {
        None
    } else {
        match toml_table_error(t) {
            Some(m) => Some(toml_error_text(m)),
            None => None,
        }
    }
}

/// Checks that a config text is blank or a TOML table.
pub fn validate_toml(text: &str) -> (r: Result<(), Error>)
    ensures
        match toml_problem(text@) {
            Some(m) => r matches Err(Error::Core(x)) && x@ == m,
            None => r is Ok,
        },
{
    let t = trim_chars(&to_chars(text));
    if t.len() == 0 {
        return Ok(());
    }
    match toml_table_check(text) {
        None => Ok(()),
        Some(m) => {
            let mut msg: Vec<char> = Vec::new();
            extend_str(&mut msg, "\u{2}Codex config.toml 不是有效 TOML：");
            extend_str(&mut msg, m.as_str());
            Err(Error::Core(from_chars(&msg)))
        },
    }
}

/// The lines of a text, as `str::lines` gives them.
pub fn str_lines(v: &[char]) -> (r: Vec<String>)
    ensures
        views(r@) == card_lines(v@),
{
    let folded = replace_crlf(v);
    let mut lines = split_on_char(&folded, '\n');
    proof {
        lemma_split_nonempty(folded@, '\n');
    }
    let ghost all = views(lines@);
    assert(lines@[lines.len() - 1]@ == all.last());
    if lines[lines.len() - 1].as_str().unicode_len() == 0 {
        lines.pop();
        assert(views(lines@) =~= all.drop_last());
    }
    lines
}

/// Whether some line, trimmed, is `header`.
pub open spec fn has_header(lines: Seq<Seq<char>>, header: Seq<char>) -> bool {
    exists|i: int| 0 <= i < lines.len() && trim_ws(#[trigger] lines[i]) == header
}

/// Whether some line, trimmed, is `header`.
pub fn find_header(lines: &Vec<String>, header: &str) -> (r: bool)
    ensures
        r == has_header(views(lines@), header@),
{
    let h = to_chars(header);
    let mut i: usize = 0;
    while i < lines.len()
        invariant
            i <= lines.len(),
            h@ == header@,
            forall|k: int| 0 <= k < i ==> trim_ws(#[trigger] views(lines@)[k]) != header@,
        decreases lines.len() - i,
    {
        let t = trim_chars(&to_chars(lines[i].as_str()));
        if chars_eq(&t, &h) {
            assert(trim_ws(views(lines@)[i as int]) == header@);
            return true;
        }
        i = i + 1;
    }
    false
}

/// The refusal when the project config already defines the server.
pub open spec fn project_conflict_text() -> Seq<char> {
    "\u{2}项目配置已经定义 mcp_servers.engramark；为避免覆盖，请先手工处理该段"@
}

/// The managed project block's body.
pub open spec fn project_body(root: Seq<char>) -> Seq<char> {
    "[mcp_servers.engramark]\ncwd = "@ + json_string_literal(root)
}

/// What patching a project's Codex config gives: the text checked as TOML,
/// its managed block removed, then on install a block that sets the
/// server's working directory to `root` (refused when the text defines the
/// server outside a managed block), the result checked as TOML again.
pub open spec fn project_config_result(t: Seq<char>, root: Seq<char>, install: bool) -> Result<
    Seq<char>,
    Seq<char>,
> {
    let b = CODEX_PROJECT_BEGIN@;
    let e = CODEX_PROJECT_END@;
    let t1 = replaced_block(t, b, e, None);
    let had_managed = contains_seq(t, b) || contains_seq(t, e);
    if toml_problem(t) is Some {
        Err(toml_problem(t).unwrap())
    } else if !markers_balanced(t, b, e) {
        Err(marker_error_text(b))
    } else if !install {
        match toml_problem(t1) {
            Some(m) => Err(m),
            None => Ok(t1),
        }
    } else if has_header(card_lines(trim_end_ws(t1)), "[mcp_servers.engramark]"@) && !had_managed {
        Err(project_conflict_text())
    } else {
        let t2 = replaced_block(t1, b, e, Some(project_body(root)));
        match toml_problem(t2) {
            Some(m) => Err(m),
            None => Ok(t2),
        }
    }
}

proof fn lemma_project_markers()
    ensures
        CODEX_PROJECT_BEGIN@.len() > 0,
        CODEX_PROJECT_END@.len() > 0,
        one_line(CODEX_PROJECT_BEGIN@),
        one_line(CODEX_PROJECT_END@),
        !contains_seq(CODEX_PROJECT_BEGIN@, CODEX_PROJECT_END@),
        !contains_seq(CODEX_PROJECT_END@, CODEX_PROJECT_BEGIN@),
        !rust_space(CODEX_PROJECT_END@.last()),
{
    reveal_strlit("# engramark-begin project-cwd");
    reveal_strlit("# engramark-end project-cwd");
    let b = CODEX_PROJECT_BEGIN@;
    let e = CODEX_PROJECT_END@;
    assert forall|at: int| !occurs_at(b, e, at) by {
        if 0 <= at && at + e.len() <= b.len() {
            assert(b.subrange(at, at + e.len())[12 - at] == b[12]);
        }
    }
    assert forall|at: int| !occurs_at(e, b, at) by {
        if 0 <= at && at + b.len() <= e.len() {
        }
    }
}

/// A text whose markers were removed, then a new block added: removing
/// that block gives the text back.
proof fn lemma_project_block_cycle(t: Seq<char>, body: Seq<char>)
    requires
        markers_balanced(t, CODEX_PROJECT_BEGIN@, CODEX_PROJECT_END@),
        matched_once(t, CODEX_PROJECT_BEGIN@) && matched_once(t, CODEX_PROJECT_END@) ==> occurs_from(
            t,
            CODEX_PROJECT_END@,
            first_at(t, CODEX_PROJECT_BEGIN@, 0),
        ),
        !contains_seq(trim_end_ws(body), CODEX_PROJECT_BEGIN@),
        !contains_seq(trim_end_ws(body), CODEX_PROJECT_END@),
    ensures
        ({
            let b = CODEX_PROJECT_BEGIN@;
            let e = CODEX_PROJECT_END@;
            let t1 = replaced_block(t, b, e, None);
            let t2 = replaced_block(t1, b, e, Some(body));
            &&& markers_balanced(t2, b, e)
            &&& occurs_from(t2, e, first_at(t2, b, 0))
            &&& contains_seq(t2, b)
            &&& replaced_block(t2, b, e, None) == t1
            &&& replaced_block(t2, b, e, Some(body)) == t2
        }),
{
    let b = CODEX_PROJECT_BEGIN@;
    let e = CODEX_PROJECT_END@;
    lemma_project_markers();
    lemma_no_marker_left(t, b, e);
    let t1 = replaced_block(t, b, e, None);
    let k = kept_text(t, b, e);
    let tk = trim_end_ws(k);
    lemma_trim_end_ws_shape(k);
    assert(t1 == tk + seq!['\n']);
    assert(!matched_once(t1, b));
    assert(kept_text(t1, b, e) == trim_end_ws(t1));
    lemma_trim_end_ws_of_trimmed(tk, seq!['\n']);
    assert(trim_end_ws(t1) == tk);
    assert(tk == t1.take(tk.len() as int));
    assert forall|at: int| !occurs_at(tk, b, at) && !occurs_at(tk, e, at) by {
        if occurs_at(tk, b, at) {
            lemma_occurs_prefix(t1, tk.len() as int, b, at);
        }
        if occurs_at(tk, e, at) {
            lemma_occurs_prefix(t1, tk.len() as int, e, at);
        }
    }
    super::law_replace_block_idempotent(t1, b, e, body);
    let t2 = replaced_block(t1, b, e, Some(body));
    lemma_first_at(t2, b, 0);
    assert(contains_seq(t2, b));
    lemma_trim_end_ws_of_trimmed(tk, Seq::empty());
    assert(tk + Seq::<char>::empty() =~= tk);
    assert(replaced_block(t2, b, e, None) == trim_end_ws(tk) + seq!['\n']);
}

/// Enabling the project block on a config that holds it already changes
/// nothing, and disabling it after enabling gives the config with the block
/// removed (when that text passes the TOML check), as long as the block's
/// body does not hold a marker.
pub proof fn law_project_block_enable_disable(t: Seq<char>, root: Seq<char>)
    requires
        matched_once(t, CODEX_PROJECT_BEGIN@) && matched_once(t, CODEX_PROJECT_END@) ==> occurs_from(
            t,
            CODEX_PROJECT_END@,
            first_at(t, CODEX_PROJECT_BEGIN@, 0),
        ),
        project_config_result(t, root, true) is Ok,
        !contains_seq(trim_end_ws(project_body(root)), CODEX_PROJECT_BEGIN@),
        !contains_seq(trim_end_ws(project_body(root)), CODEX_PROJECT_END@),
    ensures
        ({
            let t2 = project_config_result(t, root, true)->Ok_0;
            let t1 = replaced_block(t, CODEX_PROJECT_BEGIN@, CODEX_PROJECT_END@, None);
            &&& project_config_result(t2, root, true) == Ok::<Seq<char>, Seq<char>>(t2)
            &&& toml_problem(t1) is None ==> project_config_result(t2, root, false) == Ok::<
                Seq<char>,
                Seq<char>,
            >(t1)
            &&& t2 == replaced_block(t1, CODEX_PROJECT_BEGIN@, CODEX_PROJECT_END@, Some(project_body(root)))
            &&& !contains_seq(t, CODEX_PROJECT_BEGIN@) && !contains_seq(t, CODEX_PROJECT_END@) ==> t1
                == trim_end_ws(t) + seq!['\n']
        }),
{
    lemma_project_block_cycle(t, project_body(root));
    let b = CODEX_PROJECT_BEGIN@;
    let e = CODEX_PROJECT_END@;
    if !contains_seq(t, b) && !contains_seq(t, e) {
        lemma_project_markers();
        assert(!occurs_from(t, b, 0)) by {
            if occurs_from(t, b, 0) {
                let k = choose|k: int| 0 <= k && occurs_at(t, b, k);
                assert(occurs_at(t, b, k));
            }
        }
        assert(!matched_once(t, b));
        lemma_trim_end_ws_shape(t);
        lemma_trim_end_ws_of_trimmed(trim_end_ws(t), Seq::empty());
        assert(trim_end_ws(t) + Seq::<char>::empty() =~= trim_end_ws(t));
    }
}

/// Patches a project's Codex config: removes the managed project block and,
/// on install, adds one that sets the server's working directory to
/// `project_root`. A text that is not TOML is refused first; for one that
/// is, the markers must stand in order when each occurs once.
pub fn patch_codex_project_config(text: &str, project_root: &str, install: bool) -> (r: Result<String, Error>)
    requires
        toml_problem(text@) is None && matched_once(text@, CODEX_PROJECT_BEGIN@) && matched_once(
            text@,
            CODEX_PROJECT_END@,
        ) ==> occurs_from(
            text@,
            CODEX_PROJECT_END@,
            first_at(text@, CODEX_PROJECT_BEGIN@, 0),
        ),
    ensures
        match project_config_result(text@, project_root@, install) {
            Ok(s) => r matches Ok(x) && x@ == s,
            Err(m) => r matches Err(Error::Core(x)) && x@ == m,
        },
{
    match validate_toml(text) {
        Err(e) => return Err(e),
        Ok(()) => {},
    }
    let tv = to_chars(text);
    let bv = to_chars(CODEX_PROJECT_BEGIN);
    let ev = to_chars(CODEX_PROJECT_END);
    let had_managed = contains_chars(&tv, &bv) || contains_chars(&tv, &ev);
    let t1 = match replace_block(text, CODEX_PROJECT_BEGIN, CODEX_PROJECT_END, None) {
        Err(e) => return Err(e),
        Ok(t1) => t1,
    };
    if !install {
        match validate_toml(t1.as_str()) {
            Err(e) => return Err(e),
            Ok(()) => {},
        }
        return Ok(t1);
    }
    let trimmed = trim_end_chars(&to_chars(t1.as_str()));
    let lines = str_lines(&trimmed);
    if find_header(&lines, "[mcp_servers.engramark]") && !had_managed {
        return Err(Error::core_error("\u{2}项目配置已经定义 mcp_servers.engramark；为避免覆盖，请先手工处理该段"));
    }
    let mut head: Vec<char> = Vec::new();
    extend_str(&mut head, "[mcp_servers.engramark]\ncwd = ");
    let mut body = from_chars(&head);
    escape_string(project_root, &mut body);
    proof {
        lemma_project_markers();
        lemma_no_marker_left(text@, CODEX_PROJECT_BEGIN@, CODEX_PROJECT_END@);
    }
    let t2 = match replace_block(t1.as_str(), CODEX_PROJECT_BEGIN, CODEX_PROJECT_END, Some(body.as_str())) {
        Err(e) => return Err(e),
        Ok(t2) => t2,
    };
    match validate_toml(t2.as_str()) {
        Err(e) => return Err(e),
        Ok(()) => {},
    }
    Ok(t2)
}

/// The first occurrence at or after `from` exists once some occurrence
/// does.
proof fn lemma_first_exists(s: Seq<char>, p: Seq<char>, from: int, k: int)
    requires
        from <= k,
        occurs_at(s, p, k),
    ensures
        exists|m: int| is_first(s, p, from, m),
    decreases k - from,
{
    if exists|j: int| from <= j < k && occurs_at(s, p, j) {
        let j = choose|j: int| from <= j < k && occurs_at(s, p, j);
        lemma_first_exists(s, p, from, j);
    } else {
        assert(is_first(s, p, from, k));
    }
}

/// `first_at` names the first occurrence.
pub proof fn lemma_first_at(s: Seq<char>, p: Seq<char>, from: int)
    requires
        occurs_from(s, p, from),
    ensures
        is_first(s, p, from, first_at(s, p, from)),
{
    let k = choose|k: int| from <= k && occurs_at(s, p, k);
    lemma_first_exists(s, p, from, k);
}

/// An occurrence in a prefix is an occurrence in the whole.
proof fn lemma_occurs_prefix(s: Seq<char>, n: int, p: Seq<char>, k: int)
    requires
        0 <= n <= s.len(),
        occurs_at(s.take(n), p, k),
    ensures
        occurs_at(s, p, k),
{
    assert(s.take(n).subrange(k, k + p.len()) =~= s.subrange(k, k + p.len()));
}

/// An occurrence in a suffix is an occurrence in the whole.
proof fn lemma_occurs_suffix(s: Seq<char>, n: int, p: Seq<char>, k: int)
    requires
        0 <= n <= s.len(),
        occurs_at(s.skip(n), p, k),
    ensures
        occurs_at(s, p, n + k),
{
    assert(s.skip(n).subrange(k, k + p.len()) =~= s.subrange(n + k, n + k + p.len()));
}

/// Once the block is replaced by nothing, neither marker is left.
pub proof fn lemma_no_marker_left(t: Seq<char>, b: Seq<char>, e: Seq<char>)
    requires
        b.len() > 0,
        e.len() > 0,
        one_line(b),
        one_line(e),
        !contains_seq(b, e),
        markers_balanced(t, b, e),
        matched_once(t, b) && matched_once(t, e) ==> occurs_from(t, e, first_at(t, b, 0)),
    ensures
        !occurs_from(replaced_block(t, b, e, None), b, 0),
        !occurs_from(replaced_block(t, b, e, None), e, 0),
{
    let x = if matched_once(t, b) {
        cut_block(t, b, e)
    } else {
        t
    };
    let kept = kept_text(t, b, e);
    assert(kept == trim_end_ws(x));
    lemma_trim_end_ws_shape(x);
    lemma_trim_end_ws_of_trimmed(kept, Seq::empty());
    assert(kept + Seq::<char>::empty() =~= kept);
    let r = replaced_block(t, b, e, None);
    assert(r == kept + seq!['\n']);
    assert(r =~= kept + seq!['\n'] + Seq::<char>::empty());
    let n = kept.len() as int;
    assert forall|p: Seq<char>, k: int| (p == b || p == e) && #[trigger] occurs_at(r, p, k) implies false by {
        lemma_occurs_split(kept, Seq::empty(), p, k);
        assert(occurs_at(kept, p, k));
        assert(kept == x.take(n));
        lemma_occurs_prefix(x, n, p, k);
        assert(occurs_at(x, p, k));
        if matched_once(t, b) {
            lemma_occurs_in_cut(t, b, e, p, k);
        } else {
            assert(occurs_from(t, p, 0));
        }
    }
}

/// No marker occurs in the text around a removed block.
proof fn lemma_occurs_in_cut(t: Seq<char>, b: Seq<char>, e: Seq<char>, p: Seq<char>, k: int)
    requires
        b.len() > 0,
        e.len() > 0,
        one_line(b),
        one_line(e),
        !contains_seq(b, e),
        matched_once(t, b),
        matched_once(t, e),
        occurs_from(t, e, first_at(t, b, 0)),
        p == b || p == e,
    ensures
        !occurs_at(cut_block(t, b, e), p, k),
{
    if occurs_at(cut_block(t, b, e), p, k) {
        let bpos = first_at(t, b, 0);
        lemma_first_at(t, b, 0);
        lemma_first_at(t, e, 0);
        lemma_first_at(t, e, bpos);
        let epos = first_at(t, e, 0);
        let ej = first_at(t, e, bpos);
        let end_at = ej + e.len();
        let start = if bpos > 0 && t[bpos - 1] == '\n' {
            bpos - 1
        } else {
            bpos
        };
        let finish = if end_at < t.len() && t[end_at] == '\n' {
            end_at + 1
        } else {
            end_at
        };
        let left = t.take(start);
        let right = t.skip(finish);
        assert(cut_block(t, b, e) == left + seq!['\n'] + right);
        lemma_occurs_split(left, right, p, k);
        if k + p.len() <= left.len() && occurs_at(left, p, k) {
            lemma_occurs_prefix(t, start, p, k);
            if p == b {
                assert(k < bpos);
            } else {
                assert(epos <= k);
                assert(occurs_at(t, e, ej));
                assert(occurs_from(t, e, epos + e.len()));
            }
        } else {
            let m = k - left.len() - 1;
            assert(occurs_at(right, p, m));
            lemma_occurs_suffix(t, finish, p, m);
            if p == e {
                assert(epos <= ej);
                assert(occurs_from(t, e, epos + e.len()));
            } else {
                if ej + e.len() < bpos + b.len() {
                    assert(b.subrange(ej - bpos, ej - bpos + e.len()) =~= t.subrange(ej, ej + e.len()));
                    assert(occurs_at(b, e, ej - bpos));
                }
                assert(occurs_from(t, b, bpos + b.len()));
            }
        }
    }
}

/// Patches the project config as `patch_codex_project_config` does, after
/// checking the one condition it needs: nothing (no patch) when the text is
/// TOML holding each project marker once but the end marker before the
/// begin marker.
pub fn patch_codex_project_config_checked(text: &str, project_root: &str, install: bool) -> (r: Option<Result<String, Error>>)
    ensures
        match r {
            None => toml_problem(text@) is None && matched_once(text@, CODEX_PROJECT_BEGIN@) && matched_once(
                text@,
                CODEX_PROJECT_END@,
            ) && !occurs_from(text@, CODEX_PROJECT_END@, first_at(text@, CODEX_PROJECT_BEGIN@, 0)),
            Some(x) => match project_config_result(text@, project_root@, install) {
                Ok(s) => x matches Ok(y) && y@ == s,
                Err(m) => x matches Err(Error::Core(y)) && y@ == m,
            },
        },
{
    let tv = to_chars(text);
    let bv = to_chars(CODEX_PROJECT_BEGIN);
    let ev = to_chars(CODEX_PROJECT_END);
    proof {
        reveal_strlit("# engramark-begin project-cwd");
        assert(bv@.len() > 0);
    }
    let (_, once_b) = super::match_count_class(&tv, &bv);
    let (_, once_e) = super::match_count_class(&tv, &ev);
    if once_b && once_e {
        match super::codex_config::find_first(&tv, &bv, 0) {
            Some(at) => {
                if super::codex_config::find_first(&tv, &ev, at).is_none() && validate_toml(text).is_ok() {
                    return None;
                }
            },
            None => {},
        }
    }
    Some(patch_codex_project_config(text, project_root, install))
}

} // verus!
