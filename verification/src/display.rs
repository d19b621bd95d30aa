//! The human-facing lines of search results, the index and radar hints.

use vstd::prelude::*;

use crate::chars::{extend_chars, extend_str, from_chars, int_text, push_int, str_byte_len, str_eq, to_chars, utf8_len};
use crate::textops::{fits_limits, human_display_title, human_display_title_seq, memory_excerpt, memory_excerpt_seq, sat_sub};
use crate::{HOOK_MAX_LINE_BYTES, HOOK_MAX_LINE_CODEPOINTS, MAX_ENTITY_CHARS, RADAR_GIST_MAX_CODEPOINTS, SEARCH_PREVIEW_MAX_BYTES};

verus! {

broadcast use vstd::string::group_string_axioms;

/// A card's metadata as the index holds it, for display: plain texts and
/// numbers.
pub struct MetaRow {
    pub id: i64,
    pub status: String,
    pub card_type: String,
    pub i: i64,
    pub t: i64,
    pub last_used: String,
    pub updated: String,
    pub source: String,
    pub lock: bool,
    pub scope: String,
    pub title: String,
    pub body: String,
    pub entities: String,
    pub valid_from: String,
    pub valid_to: String,
    pub supersedes: String,
    pub semantic_hash: String,
    pub source_hash: String,
    pub evidence: String,
    pub strong_anchor: bool,
    pub confidence: String,
}

/// The head of a result line: `可能相关：` for a medium-confidence hit, then
/// `记忆 <id>：` and the display title (160 scalars at most).
pub open spec fn index_header_seq(row: MetaRow) -> Seq<char> {
    let prefix = if row.confidence@ == "medium"@ {
        "可能相关："@
    } else {
        Seq::empty()
    };
    prefix + "记忆 "@ + int_text(row.id as int) + "："@ + human_display_title_seq(row.title@, 160)
}

/// An index line: the head, then on a second line a summary of the body
/// (160 scalars at most) when there is one.
pub open spec fn human_index_line_seq(row: MetaRow) -> Seq<char> {
    let summary = memory_excerpt_seq(row.body@, Some(160), None, false);
    if summary.len() > 0 {
        index_header_seq(row) + "\n  摘要："@ + summary
    } else {
        index_header_seq(row)
    }
}

/// A search result line: the first high-confidence hit with a body shows a
/// body preview of at most `max_bytes` bytes when previews are enabled;
/// other hits show the index line.
pub open spec fn human_search_line_seq(row: MetaRow, position: usize, enabled: bool, max_bytes: usize) -> Seq<char> {
    let preview = memory_excerpt_seq(row.body@, None, Some(max_bytes), false);
    if enabled && position == 0 && row.confidence@ == "high"@ && row.body@.len() > 0 && preview.len() > 0 {
        index_header_seq(row) + "\n  正文预览："@ + preview
    } else {
        human_index_line_seq(row)
    }
}

/// `value` clamped into `lo..=hi`.
pub open spec fn clamp(value: int, lo: int, hi: int) -> int {
    if value < lo {
        lo
    } else if value > hi {
        hi
    } else {
        value
    }
}

/// The smaller of two sizes.
pub open spec fn min_size(a: usize, b: usize) -> usize {
    if a <= b {
        a
    } else {
        b
    }
}

/// A radar hint line: `记忆提示：记忆 <id>：<title>` (nothing when that
/// alone exceeds the hook line limits), then the matched entity
/// `（与“…”相关）` when it still fits, then ` — ` and the gist of the body's
/// first paragraph within what is left (at most `gist_max` scalars, clamped
/// to `0..=120`).
pub open spec fn human_radar_line_seq(row: MetaRow, entity: Seq<char>, gist_max: i64) -> Seq<char> {
    let required = "记忆提示：记忆 "@ + int_text(row.id as int) + "："@ + human_display_title_seq(row.title@, 160);
    let limits_c = Some(HOOK_MAX_LINE_CODEPOINTS);
    let limits_b = Some(HOOK_MAX_LINE_BYTES);
    if !fits_limits(required, limits_c, limits_b) {
        Seq::empty()
    } else {
        let compact = if entity.len() == 0 {
            Seq::empty()
        } else {
            memory_excerpt_seq(entity, Some(MAX_ENTITY_CHARS), None, false)
        };
        let reason = if compact.len() == 0 {
            Seq::empty()
        } else {
            "（与“"@ + compact + "”相关）"@
        };
        let line = if reason.len() > 0 && fits_limits(required + reason, limits_c, limits_b) {
            required + reason
        } else {
            required
        };
        let gist_limit = clamp(gist_max as int, 0, RADAR_GIST_MAX_CODEPOINTS as int) as usize;
        if gist_limit > 0 {
            let lp = line + " — "@;
            let gist = memory_excerpt_seq(
                row.body@,
                Some(min_size(gist_limit, sat_sub(HOOK_MAX_LINE_CODEPOINTS, lp.len()))),
                Some(sat_sub(HOOK_MAX_LINE_BYTES, utf8_len(lp))),
                true,
            );
            if gist.len() > 0 {
                lp + gist
            } else {
                line
            }
        } else {
            line
        }
    }
}

fn index_header(row: &MetaRow) -> (r: Vec<char>)
    ensures
        r@ == index_header_seq(*row),
{
    let mut v: Vec<char> = Vec::new();
    if str_eq(row.confidence.as_str(), "medium") {
        extend_str(&mut v, "可能相关：");
    }
    proof {
        reveal_strlit("");
    }
    let ghost p = v@;
    extend_str(&mut v, "记忆 ");
    push_int(&mut v, row.id);
    extend_str(&mut v, "：");
    let title = human_display_title(row.title.as_str(), 160);
    extend_str(&mut v, title.as_str());
    assert(v@ =~= index_header_seq(*row));
    v
}

/// The index line of a row.
pub fn human_index_line(row: &MetaRow) -> (r: String)
    ensures
        r@ == human_index_line_seq(*row),
{
    let mut v = index_header(row);
    let summary = memory_excerpt(row.body.as_str(), Some(160), None, false);
    if summary.as_str().unicode_len() > 0 {
        let ghost h = v@;
        extend_str(&mut v, "\n  摘要：");
        extend_str(&mut v, summary.as_str());
        assert(v@ =~= h + "\n  摘要："@ + summary@);
    }
    from_chars(&v)
}

/// The search line of a row at `position` among the results, with body
/// previews `enabled` and limited to `max_bytes`.
pub fn human_search_line(row: &MetaRow, position: usize, enabled: bool, max_bytes: usize) -> (r: String)
    ensures
        r@ == human_search_line_seq(*row, position, enabled, max_bytes),
{
    if enabled && position == 0 && str_eq(row.confidence.as_str(), "high") && row.body.as_str().unicode_len() > 0 {
        let preview = memory_excerpt(row.body.as_str(), None, Some(max_bytes), false);
        if preview.as_str().unicode_len() > 0 {
            let mut v = index_header(row);
            let ghost h = v@;
            extend_str(&mut v, "\n  正文预览：");
            extend_str(&mut v, preview.as_str());
            assert(v@ =~= h + "\n  正文预览："@ + preview@);
            return from_chars(&v);
        }
    }
    human_index_line(row)
}

fn fits(v: &Vec<char>, max_c: usize, max_b: usize) -> (r: bool)
    ensures
        r == fits_limits(v@, Some(max_c), Some(max_b)),
{
    let s = from_chars(v);
    v.len() <= max_c && str_byte_len(s.as_str()) <= max_b
}

/// The radar hint line of a row matched through `entity`.
pub fn human_radar_line(row: &MetaRow, entity: &str, gist_max: i64) -> (r: String)
    ensures
        r@ == human_radar_line_seq(*row, entity@, gist_max),
{
    let mut required = to_chars("记忆提示：记忆 ");
    push_int(&mut required, row.id);
    extend_str(&mut required, "：");
    let title = human_display_title(row.title.as_str(), 160);
    extend_str(&mut required, title.as_str());
    assert(required@ =~= "记忆提示：记忆 "@ + int_text(row.id as int) + "："@ + human_display_title_seq(row.title@, 160));
    proof {
        reveal_strlit("");
    }
    if !fits(&required, HOOK_MAX_LINE_CODEPOINTS, HOOK_MAX_LINE_BYTES) {
        return String::new();
    }
    let compact = if entity.unicode_len() == 0 {
        Vec::new()
    } else {
        to_chars(memory_excerpt(entity, Some(MAX_ENTITY_CHARS), None, false).as_str())
    };
    let mut reason: Vec<char> = Vec::new();
    if compact.len() > 0 {
        extend_str(&mut reason, "（与“");
        extend_chars(&mut reason, &compact);
        extend_str(&mut reason, "”相关）");
    }
    let mut line = required.clone();
    if reason.len() > 0 {
        let mut trial = required.clone();
        extend_chars(&mut trial, &reason);
        if fits(&trial, HOOK_MAX_LINE_CODEPOINTS, HOOK_MAX_LINE_BYTES) {
            line = trial;
        }
    }
    let gist_limit: usize = if gist_max < 0 {
        0
    } else if gist_max > RADAR_GIST_MAX_CODEPOINTS as i64 {
        RADAR_GIST_MAX_CODEPOINTS
    } else {
        gist_max as usize
    };
    if gist_limit > 0 {
        let mut lp = line.clone();
        extend_str(&mut lp, " — ");
        let lps = from_chars(&lp);
        let lc = lp.len();
        let lb = str_byte_len(lps.as_str());
        let rc: usize = if lc <= HOOK_MAX_LINE_CODEPOINTS { HOOK_MAX_LINE_CODEPOINTS - lc } else { 0 };
        let rb: usize = if lb <= HOOK_MAX_LINE_BYTES { HOOK_MAX_LINE_BYTES - lb } else { 0 };
        let cap = if gist_limit <= rc { gist_limit } else { rc };
        let gist = memory_excerpt(row.body.as_str(), Some(cap), Some(rb), true);
        if gist.as_str().unicode_len() > 0 {
            extend_str(&mut lp, gist.as_str());
            return from_chars(&lp);
        }
    }
    from_chars(&line)
}

/// The preview settings of search lines from the configured values (the
/// integer already read from the config): previews on unless turned off,
/// and the byte limit defaulting to and clamped within 1..=800.
pub open spec fn preview_settings_seq(enabled: Option<bool>, max_bytes: Option<i64>) -> (bool, int) {
    let e = match enabled {
        Some(b) => b,
        None => true,
    };
    let m = match max_bytes {
        Some(n) => n as int,
        None => SEARCH_PREVIEW_MAX_BYTES as int,
    };
    (e, if m < 1 { 1 } else if m > SEARCH_PREVIEW_MAX_BYTES { SEARCH_PREVIEW_MAX_BYTES as int } else { m })
}

/// The preview settings of search lines, as `human_search_line` takes them.
pub fn preview_settings(enabled: Option<bool>, max_bytes: Option<i64>) -> (r: (bool, usize))
    ensures
        (r.0, r.1 as int) == preview_settings_seq(enabled, max_bytes),
{
    let e = match enabled {
        Some(b) => b,
        None => true,
    };
    let m: i64 = match max_bytes {
        Some(n) => n,
        None => SEARCH_PREVIEW_MAX_BYTES as i64,
    };
    let clamped: usize = if m < 1 {
        1
    } else if m > SEARCH_PREVIEW_MAX_BYTES as i64 {
        SEARCH_PREVIEW_MAX_BYTES
    } else {
        m as usize
    };
    (e, clamped)
}

} // verus!
