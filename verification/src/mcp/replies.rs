//! The texts the MCP tools answer with, from the validated request and what
//! the store did for it: found rows, fetched cards, the written or changed
//! card.

use vstd::prelude::*;

use crate::chars::{extend_str, from_chars, int_text, push_int, to_chars};
use crate::display::{human_search_line, human_search_line_seq, MetaRow};
use crate::mcp::Validated;
use crate::textops::{humanize_memory_text, humanize_seq};

verus! {

broadcast use vstd::string::group_string_axioms;

/// What the store did for a tool call.
pub enum ToolOutcome {
    /// The search rows, best first, and the preview settings.
    Found { rows: Vec<MetaRow>, preview: bool, preview_bytes: usize },
    /// The fetched cards: id, text, and whether the text was cut short.
    Fetched { cards: Vec<(i64, String, bool)> },
    /// The card written: id, title, and whether an existing card was reused
    /// and left as it was.
    Written { id: i64, title: String, deduplicated: bool, unchanged: bool },
    /// The card published, rejected, archived, deleted or updated: id, title,
    /// and whether it was already in that state.
    Changed { id: i64, title: String, unchanged: bool },
    /// The feedback recorded.
    Recorded,
    /// The audit report, as text.
    Audited { text: String },
}

/// Whether an outcome is the kind a validated request gets.
pub open spec fn outcome_fits(name: Seq<char>, v: Validated, o: ToolOutcome) -> bool {
    match v {
        Validated::Search { .. } => o is Found,
        Validated::Get { .. } => o is Fetched,
        Validated::Write(_) => o is Written,
        Validated::Id { .. } => o is Changed && (name == "memory_publish"@ || name == "memory_reject"@ || name
            == "memory_archive"@),
        Validated::Delete { .. } => o is Changed,
        Validated::Feedback { .. } => o is Recorded,
        Validated::Update { .. } => o is Changed,
        Validated::Audit => o is Audited,
    }
}

/// The search result lines after the first `k` rows.
pub open spec fn found_lines(rows: Seq<MetaRow>, preview: bool, bytes: usize, k: int) -> Seq<char>
    decreases k,
{
    if k <= 0 {
        Seq::empty()
    } else {
        found_lines(rows, preview, bytes, k - 1) + "\n- "@ + human_search_line_seq(
            rows[k - 1],
            (k - 1) as usize,
            preview,
            bytes,
        )
    }
}

/// One fetched card.
pub open spec fn fetched_part(c: (i64, String, bool)) -> Seq<char> {
    "记忆 "@ + int_text(c.0 as int) + "："@ + humanize_seq(c.1@) + if c.2 {
        "\n（正文过长，已安全截断。）"@
    } else {
        Seq::empty()
    }
}

/// The first `k` fetched cards, separated by blank lines.
pub open spec fn fetched_parts(cards: Seq<(i64, String, bool)>, k: int) -> Seq<char>
    decreases k,
{
    if k <= 0 {
        Seq::empty()
    } else if k == 1 {
        fetched_part(cards[0])
    } else {
        fetched_parts(cards, k - 1) + "\n\n"@ + fetched_part(cards[k - 1])
    }
}

/// `<action>：记忆 <id>：<title>`.
pub open spec fn card_line(action: Seq<char>, id: i64, title: Seq<char>) -> Seq<char> {
    action + "：记忆 "@ + int_text(id as int) + "："@ + humanize_seq(title)
}

/// The answer of a tool: the text shown, or the text of a failure.
pub open spec fn tool_reply_seq(name: Seq<char>, v: Validated, o: ToolOutcome) -> Result<Seq<char>, Seq<char>> {
    match (v, o) {
        (Validated::Search { .. }, ToolOutcome::Found { rows, preview, preview_bytes }) => if rows@.len() == 0 {
            Ok("没有找到相关记忆。"@)
        } else {
            Ok(
                "找到 "@ + int_text(rows@.len() as int) + " 条相关记忆："@ + found_lines(
                    rows@,
                    preview,
                    preview_bytes,
                    rows@.len() as int,
                ),
            )
        },
        (Validated::Get { .. }, ToolOutcome::Fetched { cards }) => if cards@.len() == 0 {
            Err("这些编号对应的记忆不存在，请先搜索后重试"@)
        } else {
            Ok(fetched_parts(cards@, cards@.len() as int))
        },
        (Validated::Write(_), ToolOutcome::Written { id, title, deduplicated, unchanged }) => if deduplicated {
            if !unchanged {
                Ok(card_line("已复用现有内容并保存"@, id, title@))
            } else {
                Ok(card_line("相同内容已经存在，无需重复写入"@, id, title@))
            }
        } else if name == "memory_save"@ {
            Ok(card_line("已保存"@, id, title@))
        } else {
            Ok(card_line("已加入待审候选"@, id, title@))
        },
        (Validated::Id { id: vid }, ToolOutcome::Changed { id, title, unchanged }) => if name == "memory_publish"@ {
            Ok(card_line(if unchanged { "已经是正式记忆"@ } else { "已发布候选"@ }, id, title@))
        } else if name == "memory_reject"@ {
            Ok((if unchanged { "已经被丢弃"@ } else { "已丢弃候选"@ }) + "：记忆 "@ + int_text(vid as int))
        } else {
            Ok(card_line(if unchanged { "已经归档"@ } else { "已归档"@ }, id, title@))
        },
        (Validated::Delete { id: vid }, ToolOutcome::Changed { unchanged, .. }) => Ok(
            (if unchanged { "已经删除"@ } else { "已删除"@ }) + "：记忆 "@ + int_text(vid as int),
        ),
        (Validated::Feedback { id, outcome }, ToolOutcome::Recorded) => Ok(
            "已记录：记忆 "@ + int_text(id as int) + " 的内容"@ + (if outcome@ == "correct"@ {
                "正确"@
            } else {
                "不正确"@
            }) + "。"@,
        ),
        (Validated::Update { .. }, ToolOutcome::Changed { id, title, unchanged }) => Ok(
            card_line(if unchanged { "内容没有变化"@ } else { "已更新"@ }, id, title@),
        ),
        (Validated::Audit, ToolOutcome::Audited { text }) => Ok(text@),
        _ => Err(Seq::empty()),
    }
}

fn card_line_text(action: &str, id: i64, title: &str) -> (r: Vec<char>)
    ensures
        r@ == card_line(action@, id, title@),
{
    let mut v = to_chars(action);
    extend_str(&mut v, "：记忆 ");
    push_int(&mut v, id);
    extend_str(&mut v, "：");
    let t = humanize_memory_text(title);
    extend_str(&mut v, t.as_str());
    v
}

fn id_line_text(action: &str, id: i64) -> (r: Vec<char>)
    ensures
        r@ == action@ + "：记忆 "@ + int_text(id as int),
{
    let mut v = to_chars(action);
    extend_str(&mut v, "：记忆 ");
    push_int(&mut v, id);
    v
}

fn found_text(rows: &Vec<MetaRow>, preview: bool, bytes: usize) -> (r: Vec<char>)
    requires
        rows@.len() > 0,
    ensures
        r@ == "找到 "@ + int_text(rows@.len() as int) + " 条相关记忆："@ + found_lines(rows@, preview, bytes, rows@.len() as int),
{
    let mut v = to_chars("找到 ");
    crate::chars::push_decimal(&mut v, rows.len() as u64);
    extend_str(&mut v, " 条相关记忆：");
    let ghost head = v@;
    let mut k: usize = 0;
    while k < rows.len()
        invariant
            k <= rows.len(),
            v@ == head + found_lines(rows@, preview, bytes, k as int),
        decreases rows.len() - k,
    {
        extend_str(&mut v, "\n- ");
        let line = human_search_line(&rows[k], k, preview, bytes);
        extend_str(&mut v, line.as_str());
        assert(v@ =~= head + found_lines(rows@, preview, bytes, k + 1));
        k = k + 1;
    }
    v
}

fn fetched_text(cards: &Vec<(i64, String, bool)>) -> (r: Vec<char>)
    requires
        cards@.len() > 0,
    ensures
        r@ == fetched_parts(cards@, cards@.len() as int),
{
    let mut v: Vec<char> = Vec::new();
    let mut k: usize = 0;
    while k < cards.len()
        invariant
            k <= cards.len(),
            v@ == fetched_parts(cards@, k as int),
        decreases cards.len() - k,
    {
        let ghost before = v@;
        if k > 0 {
            extend_str(&mut v, "\n\n");
        }
        extend_str(&mut v, "记忆 ");
        push_int(&mut v, cards[k].0);
        extend_str(&mut v, "：");
        let t = humanize_memory_text(cards[k].1.as_str());
        extend_str(&mut v, t.as_str());
        if cards[k].2 {
            extend_str(&mut v, "\n（正文过长，已安全截断。）");
        }
        proof {
            if k > 0 {
                assert(v@ =~= before + "\n\n"@ + fetched_part(cards@[k as int]));
            } else {
                assert(v@ =~= fetched_part(cards@[0]));
            }
        }
        k = k + 1;
    }
    v
}

/// The answer of a tool call: the text shown for what the store did, or
/// the text of a failure (a fetch that found none of the cards).
pub fn tool_reply(name: &str, v: &Validated, outcome: &ToolOutcome) -> (r: Result<String, String>)
    requires
        outcome_fits(name@, *v, *outcome),
    ensures
        match tool_reply_seq(name@, *v, *outcome) {
            Ok(t) => r matches Ok(x) && x@ == t,
            Err(t) => r matches Err(x) && x@ == t,
        },
{
    match (v, outcome) {
        (Validated::Search { .. }, ToolOutcome::Found { rows, preview, preview_bytes }) => {
            if rows.len() == 0 {
                Ok(String::from_str("没有找到相关记忆。"))
            } else {
                Ok(from_chars(&found_text(rows, *preview, *preview_bytes)))
            }
        },
        (Validated::Get { .. }, ToolOutcome::Fetched { cards }) => {
            if cards.len() == 0 {
                Err(String::from_str("这些编号对应的记忆不存在，请先搜索后重试"))
            } else {
                Ok(from_chars(&fetched_text(cards)))
            }
        },
        (Validated::Write(_), ToolOutcome::Written { id, title, deduplicated, unchanged }) => {
            let action = if *deduplicated {
                if !*unchanged {
                    "已复用现有内容并保存"
                } else {
                    "相同内容已经存在，无需重复写入"
                }
            } else if crate::chars::str_eq(name, "memory_save") {
                "已保存"
            } else {
                "已加入待审候选"
            };
            Ok(from_chars(&card_line_text(action, *id, title.as_str())))
        },
        (Validated::Id { id: vid }, ToolOutcome::Changed { id, title, unchanged }) => {
            if crate::chars::str_eq(name, "memory_publish") {
                let action = if *unchanged { "已经是正式记忆" } else { "已发布候选" };
                Ok(from_chars(&card_line_text(action, *id, title.as_str())))
            } else if crate::chars::str_eq(name, "memory_reject") {
                let action = if *unchanged { "已经被丢弃" } else { "已丢弃候选" };
                Ok(from_chars(&id_line_text(action, *vid)))
            } else {
                let action = if *unchanged { "已经归档" } else { "已归档" };
                Ok(from_chars(&card_line_text(action, *id, title.as_str())))
            }
        },
        (Validated::Delete { id: vid }, ToolOutcome::Changed { unchanged, .. }) => {
            let action = if *unchanged { "已经删除" } else { "已删除" };
            Ok(from_chars(&id_line_text(action, *vid)))
        },
        (Validated::Feedback { id, outcome }, ToolOutcome::Recorded) => {
            let mut t = to_chars("已记录：记忆 ");
            push_int(&mut t, *id);
            extend_str(&mut t, " 的内容");
            extend_str(&mut t, if crate::chars::str_eq(outcome.as_str(), "correct") { "正确" } else { "不正确" });
            extend_str(&mut t, "。");
            Ok(from_chars(&t))
        },
        (Validated::Update { .. }, ToolOutcome::Changed { id, title, unchanged }) => {
            let action = if *unchanged { "内容没有变化" } else { "已更新" };
            Ok(from_chars(&card_line_text(action, *id, title.as_str())))
        },
        (Validated::Audit, ToolOutcome::Audited { text }) => Ok(String::from_str(text.as_str())),
        _ => Err(String::new()),
    }
}

} // verus!
