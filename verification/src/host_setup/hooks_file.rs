//! The Codex `hooks.json` edit's decisions: which hook handlers are
//! Engramark's (and so removed on install and uninstall alike), with the
//! refusals of handlers that are not objects or whose command is not a
//! string.

use vstd::prelude::*;

use crate::chars::{contains_chars, contains_seq, to_chars};
use crate::host_setup::codex_config::{lower_slashed, lowercase_of, slash_path};
use crate::json::{deref_opt, json_get, JsonValue};
use crate::Error;

verus! {

broadcast use vstd::string::group_string_axioms;

/// Whether a command names Engramark's Codex hook: lower-cased with forward
/// slashes, it mentions `engramark` and either the adapter's hook directory
/// or a `hook codex-` subcommand.
pub open spec fn engramark_command(command: Seq<char>) -> bool {
    let n = slash_path(lowercase_of(command));
    contains_seq(n, "engramark"@) && (contains_seq(n, "/adapters/codex/hooks/"@) || contains_seq(n, " hook codex-"@))
}

/// The refusal of a handler that is not an object.
pub open spec fn handler_not_object_text() -> Seq<char> {
    "\u{2}Codex hooks.json 的处理器必须是对象"@
}

/// The refusal of a handler whose command is not a string.
pub open spec fn command_not_string_text() -> Seq<char> {
    "\u{2}Codex hooks.json 的 command 必须是字符串"@
}

/// Whether a hook handler is Engramark's, or the refusal.
pub open spec fn engramark_handler(item: JsonValue) -> Result<bool, Seq<char>> {
    if !(item is Object) {
        Err(handler_not_object_text())
    } else {
        match json_get(item, "command"@) {
            None => Ok(false),
            Some(JsonValue::Str(c)) => Ok(engramark_command(c@)),
            Some(_) => Err(command_not_string_text()),
        }
    }
}

/// Whether a hook handler is Engramark's.
pub fn is_engramark_hook(item: &JsonValue) -> (r: Result<bool, Error>)
    ensures
        match engramark_handler(*item) {
            Ok(b) => r == Ok::<bool, Error>(b),
            Err(m) => r matches Err(Error::Core(x)) && x@ == m,
        },
{
    if !item.is_object() {
        return Err(Error::Core(String::from_str("\u{2}Codex hooks.json 的处理器必须是对象")));
    }
    match item.get("command") {
        None => Ok(false),
        Some(JsonValue::Str(c)) => {
            let n = lower_slashed(c.as_str());
            Ok(contains_chars(&n, &to_chars("engramark")) && (contains_chars(&n, &to_chars("/adapters/codex/hooks/"))
                || contains_chars(&n, &to_chars(" hook codex-"))))
        },
        Some(_) => Err(Error::Core(String::from_str("\u{2}Codex hooks.json 的 command 必须是字符串"))),
    }
}

/// The positions of the handlers among the first `n` that are not
/// Engramark's, or the first refusal.
pub open spec fn kept_upto(hs: Seq<JsonValue>, n: int) -> Result<Seq<int>, Seq<char>>
    decreases n,
{
    if n <= 0 {
        Ok(Seq::empty())
    } else {
        match kept_upto(hs, n - 1) {
            Err(m) => Err(m),
            Ok(k) => match engramark_handler(hs[n - 1]) {
                Err(m) => Err(m),
                Ok(true) => Ok(k),
                Ok(false) => Ok(k.push(n - 1)),
            },
        }
    }
}

/// A refusal among the first handlers stays the answer.
proof fn lemma_kept_err(hs: Seq<JsonValue>, i: int, n: int)
    requires
        1 <= i <= n,
        kept_upto(hs, i) is Err,
    ensures
        kept_upto(hs, n) == kept_upto(hs, i),
    decreases n - i,
{
    if i < n {
        lemma_kept_err(hs, i, n - 1);
    }
}

/// The positions of the handlers of a hook group that are not Engramark's
/// (the ones an install or uninstall keeps), or the refusal of the first
/// malformed handler.
pub fn kept_handlers(handlers: &Vec<JsonValue>) -> (r: Result<Vec<usize>, Error>)
    ensures
        match kept_upto(handlers@, handlers@.len() as int) {
            Ok(k) => r matches Ok(v) && v@.map_values(|i: usize| i as int) == k,
            Err(m) => r matches Err(Error::Core(x)) && x@ == m,
        },
{
    let mut kept: Vec<usize> = Vec::new();
    let mut i: usize = 0;
    while i < handlers.len()
        invariant
            i <= handlers.len(),
            kept_upto(handlers@, i as int) matches Ok(k) && kept@.map_values(|j: usize| j as int) == k,
        decreases handlers.len() - i,
    {
        match is_engramark_hook(&handlers[i]) {
            Err(e) => {
                proof {
                    lemma_kept_err(handlers@, i + 1, handlers@.len() as int);
                }
                return Err(e);
            },
            Ok(ours) => {
                if !ours {
                    let ghost prev = kept@;
                    kept.push(i);
                    assert(kept@.map_values(|j: usize| j as int) =~= prev.map_values(|j: usize| j as int).push(i as int));
                }
            },
        }
        i = i + 1;
    }
    Ok(kept)
}

/// The kept positions are in range and name handlers that are not
/// Engramark's.
proof fn lemma_kept_are_foreign(hs: Seq<JsonValue>, n: int)
    requires
        0 <= n <= hs.len(),
        kept_upto(hs, n) is Ok,
    ensures
        forall|i: int|
            0 <= i < kept_upto(hs, n)->Ok_0.len() ==> 0 <= #[trigger] kept_upto(hs, n)->Ok_0[i] < n && engramark_handler(
                hs[kept_upto(hs, n)->Ok_0[i]],
            ) == Ok::<bool, Seq<char>>(false),
    decreases n,
{
    if n > 0 {
        lemma_kept_are_foreign(hs, n - 1);
    }
}

/// Handlers that are all foreign are all kept, in order.
proof fn lemma_all_foreign_kept(hs: Seq<JsonValue>, m: int)
    requires
        0 <= m <= hs.len(),
        forall|i: int| 0 <= i < m ==> engramark_handler(#[trigger] hs[i]) == Ok::<bool, Seq<char>>(false),
    ensures
        kept_upto(hs, m) == Ok::<Seq<int>, Seq<char>>(Seq::new(m as nat, |i: int| i)),
    decreases m,
{
    if m > 0 {
        lemma_all_foreign_kept(hs, m - 1);
        assert(engramark_handler(hs[m - 1]) == Ok::<bool, Seq<char>>(false));
        assert(Seq::new((m - 1) as nat, |i: int| i).push(m - 1) =~= Seq::new(m as nat, |i: int| i));
        assert(kept_upto(hs, m) == Ok::<Seq<int>, Seq<char>>(Seq::new((m - 1) as nat, |i: int| i).push(m - 1)));
    } else {
        assert(Seq::new(0, |i: int| i) =~= Seq::<int>::empty());
    }
}

/// Engramark's handlers after position `m` change nothing.
proof fn lemma_ours_dropped(hs: Seq<JsonValue>, m: int, n: int)
    requires
        0 <= m <= n <= hs.len(),
        forall|i: int| m <= i < n ==> engramark_handler(#[trigger] hs[i]) == Ok::<bool, Seq<char>>(true),
    ensures
        kept_upto(hs, n) == kept_upto(hs, m),
    decreases n - m,
{
    if m < n {
        lemma_ours_dropped(hs, m, n - 1);
    }
}

/// Removing Engramark's handlers after an install that appended Engramark's
/// own handlers to the kept ones keeps exactly the handlers the install
/// kept: uninstalling after installing is uninstalling alone.
pub proof fn law_hooks_install_then_remove(hs: Seq<JsonValue>, ours: Seq<JsonValue>)
    requires
        kept_upto(hs, hs.len() as int) is Ok,
        forall|j: int| 0 <= j < ours.len() ==> engramark_handler(#[trigger] ours[j]) == Ok::<bool, Seq<char>>(true),
    ensures
        ({
            let k = kept_upto(hs, hs.len() as int)->Ok_0;
            let installed = k.map_values(|i: int| hs[i]) + ours;
            kept_upto(installed, installed.len() as int) == Ok::<Seq<int>, Seq<char>>(Seq::new(k.len(), |i: int| i))
                && Seq::new(k.len(), |i: int| i).map_values(|i: int| installed[i]) == k.map_values(|i: int| hs[i])
        }),
{
    let k = kept_upto(hs, hs.len() as int)->Ok_0;
    let kept = k.map_values(|i: int| hs[i]);
    let installed = kept + ours;
    lemma_kept_are_foreign(hs, hs.len() as int);
    assert forall|i: int| 0 <= i < k.len() implies engramark_handler(#[trigger] installed[i]) == Ok::<bool, Seq<char>>(false) by {
        assert(installed[i] == hs[k[i]]);
    }
    lemma_all_foreign_kept(installed, k.len() as int);
    assert forall|i: int| k.len() <= i < installed.len() implies engramark_handler(#[trigger] installed[i]) == Ok::<bool, Seq<char>>(true) by {
        assert(installed[i] == ours[i - k.len()]);
    }
    lemma_ours_dropped(installed, k.len() as int, installed.len() as int);
    assert(Seq::new(k.len(), |i: int| i).map_values(|i: int| installed[i]) =~= kept);
}

} // verus!
