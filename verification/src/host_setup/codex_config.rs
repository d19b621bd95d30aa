//! Codex user configuration: the MCP server block and the memories switch.

use vstd::prelude::*;

use super::codex::{lemma_first_at, str_lines, toml_problem};
use super::{
    first_at, is_first, marker_error_text, markers_balanced, matched_once, occurs_from, replaced_block, trim_chars,
    trim_end_ws, trim_start_ws, trim_ws,
};
use crate::hash::join_newline;
use crate::json::{escape_string, json_string_literal};
use crate::Error;
use crate::chars::{extend_str, from_chars};
use crate::chars::{contains_chars, contains_char, contains_seq, extend_chars, find_from, is_prefix, occurs_at, slice_chars, starts_with, to_chars};
use crate::mem::parse::card_lines;
use crate::mem::views;
use crate::pyregex::{is_match, regex_is_match};

verus! {

broadcast use vstd::string::group_string_axioms;

/// Begin marker of the managed memories block.
pub const CODEX_MEMORY_BEGIN: &'static str = "# engramark-begin codex-memory";

/// End marker of the managed memories block.
pub const CODEX_MEMORY_END: &'static str = "# engramark-end codex-memory";

/// Begin marker of the managed MCP block.
pub const CODEX_MCP_BEGIN: &'static str = "# engramark-begin codex-mcp";

/// End marker of the managed MCP block.
pub const CODEX_MCP_END: &'static str = "# engramark-end codex-mcp";

/// The first occurrence is the one `first_at` names.
proof fn lemma_first_is(s: Seq<char>, p: Seq<char>, from: int, at: int)
    requires
        is_first(s, p, from, at),
    ensures
        occurs_from(s, p, from),
        first_at(s, p, from) == at,
{
    lemma_first_at(s, p, from);
    let c = first_at(s, p, from);
    if c < at {
        assert(!occurs_at(s, p, c));
    } else if c > at {
        assert(!occurs_at(s, p, at));
    }
}

/// The first position at or after `from` where `p` occurs.
pub(crate) fn find_first(s: &[char], p: &[char], from: usize) -> (r: Option<usize>)
    ensures
        match r {
            Some(at) => occurs_from(s@, p@, from as int) && at == first_at(s@, p@, from as int),
            None => !occurs_from(s@, p@, from as int),
        },
{
    let r = find_from(s, p, from);
    proof {
        match r {
            Some(at) => {
                lemma_first_is(s@, p@, from as int, at as int);
            },
            None => {},
        }
    }
    r
}

/// The setting a `# previous` line records: the rest of the line, trimmed,
/// when it is a `memories` assignment.
pub open spec fn previous_of_line(line: Seq<char>) -> Option<Seq<char>> {
    let head = "# previous "@;
    if is_prefix(line, head) {
        let rest = trim_ws(line.skip(head.len() as int));
        if is_prefix(rest, "memories"@) && rest.contains('=') {
            Some(rest)
        } else {
            None
        }
    } else {
        None
    }
}

/// The last setting recorded by the lines.
pub open spec fn previous_in_lines(lines: Seq<Seq<char>>) -> Option<Seq<char>>
    decreases lines.len(),
{
    if lines.len() == 0 {
        None
    } else {
        match previous_of_line(lines.last()) {
            Some(x) => Some(x),
            None => previous_in_lines(lines.drop_last()),
        }
    }
}

/// The memories setting recorded in the managed memories block: the last
/// `# previous memories…` line from the first begin marker to the first end
/// marker after it.
pub open spec fn memory_previous(t: Seq<char>) -> Option<Seq<char>> {
    let mb = CODEX_MEMORY_BEGIN@;
    let me = CODEX_MEMORY_END@;
    if !occurs_from(t, mb, 0) {
        None
    } else {
        let b = first_at(t, mb, 0);
        if !occurs_from(t, me, b) {
            None
        } else {
            previous_in_lines(card_lines(t.subrange(b, first_at(t, me, b) + me.len())))
        }
    }
}

/// The plain value of an optional text.
pub open spec fn opt_view(o: Option<String>) -> Option<Seq<char>> {
    match o {
        Some(x) => Some(x@),
        None => None,
    }
}

fn previous_of(line: &str) -> (r: Option<Vec<char>>)
    ensures
        match r {
            Some(x) => previous_of_line(line@) == Some(x@),
            None => previous_of_line(line@) is None,
        },
{
    let v = to_chars(line);
    let head = to_chars("# previous ");
    let mem = to_chars("memories");
    proof {
        reveal_strlit("# previous ");
        reveal_strlit("memories");
    }
    if !starts_with(&v, &head) {
        return None;
    }
    let after = slice_chars(&v, head.len(), v.len());
    assert(after@ =~= line@.skip(head@.len() as int));
    let rest = trim_chars(&after);
    if starts_with(&rest, &mem) && contains_char(&rest, '=') {
        Some(rest)
    } else {
        None
    }
}

/// The memories setting recorded in the managed memories block.
pub fn recorded_previous(t: &[char]) -> (r: Option<String>)
    ensures
        opt_view(r) == memory_previous(t@),
{
    let mb = to_chars(CODEX_MEMORY_BEGIN);
    let me = to_chars(CODEX_MEMORY_END);
    let b = match find_first(t, &mb, 0) {
        None => return None,
        Some(b) => b,
    };
    let e = match find_first(t, &me, b) {
        None => return None,
        Some(e) => e,
    };
    proof {
        lemma_first_at(t@, me@, b as int);
        assert(occurs_at(t@, me@, e as int));
        assert(e + me@.len() <= t@.len());
    }
    assert(me.len() == me@.len());
    assert(e + me.len() <= t.len());
    let block = slice_chars(t, b, e + me.len());
    let lines = str_lines(&block);
    let ghost ls = views(lines@);
    let mut found: Option<Vec<char>> = None;
    let mut i: usize = 0;
    while i < lines.len()
        invariant
            i <= lines.len(),
            ls == views(lines@),
            match found {
                Some(x) => previous_in_lines(ls.take(i as int)) == Some(x@),
                None => previous_in_lines(ls.take(i as int)) is None,
            },
        decreases lines.len() - i,
    {
        assert(ls.take(i + 1).drop_last() =~= ls.take(i as int));
        assert(ls.take(i + 1).last() == lines@[i as int]@);
        match previous_of(lines[i].as_str()) {
            Some(x) => {
                found = Some(x);
            },
            None => {},
        }
        i = i + 1;
    }
    assert(ls.take(lines.len() as int) =~= ls);
    match found {
        Some(x) => Some(from_chars(&x)),
        None => None,
    }
}

/// One pass over unmarked legacy blocks from `from`: a `# engramark-begin`
/// line, a body, then `# engramark-end`; a block whose body mentions
/// `memories` is cut out with the newlines around it (leaving one), and the
/// scan goes on from the cut; other blocks are stepped over.
pub open spec fn legacy_pass(t: Seq<char>, from: int) -> Seq<char>
    decreases t.len(), t.len() - from,
{
    let lb = "# engramark-begin"@;
    let le = "# engramark-end"@;
    if from < 0 || from > t.len() || !occurs_from(t, lb, from) {
        t
    } else {
        let b = first_at(t, lb, from);
        let line_end = if occurs_from(t, seq!['\n'], b) {
            first_at(t, seq!['\n'], b) + 1
        } else {
            t.len() as int
        };
        if !occurs_from(t, le, line_end) {
            t
        } else {
            let ea = first_at(t, le, line_end);
            let fin0 = ea + le.len();
            let finish = if fin0 < t.len() && t[fin0] == '\n' {
                fin0 + 1
            } else {
                fin0
            };
            proof {
                reveal_strlit("# engramark-begin");
                reveal_strlit("# engramark-end");
                lemma_first_at(t, lb, from);
                if occurs_from(t, seq!['\n'], b) {
                    lemma_first_at(t, seq!['\n'], b);
                }
                lemma_first_at(t, le, line_end);
            }
            if contains_seq(t.subrange(line_end, ea), "memories"@) {
                let start = if b > 0 && t[b - 1] == '\n' {
                    b - 1
                } else {
                    b
                };
                legacy_pass(t.take(start) + seq!['\n'] + t.skip(finish), start)
            } else {
                legacy_pass(t, finish)
            }
        }
    }
}

/// Removes the unmarked legacy blocks that set `memories`.
pub fn remove_legacy_marked_blocks(text: &[char]) -> (r: Vec<char>)
    ensures
        r@ == legacy_pass(text@, 0),
{
    let lb = to_chars("# engramark-begin");
    let le = to_chars("# engramark-end");
    let mem = to_chars("memories");
    let nl: Vec<char> = vec!['\n'];
    proof {
        reveal_strlit("# engramark-begin");
        reveal_strlit("# engramark-end");
        assert(nl@ =~= seq!['\n']);
    }
    let mut t = slice_chars(text, 0, text.len());
    assert(t@ =~= text@);
    let mut scan: usize = 0;
    loop
        invariant
            scan <= t.len(),
            legacy_pass(t@, scan as int) == legacy_pass(text@, 0),
            lb@ == "# engramark-begin"@,
            le@ == "# engramark-end"@,
            lb@.len() == 17,
            le@.len() == 15,
            mem@ == "memories"@,
            nl@ == seq!['\n'],
        decreases t.len(), t.len() - scan,
    {
        let b = match find_first(&t, &lb, scan) {
            None => return t,
            Some(b) => b,
        };
        proof {
            lemma_first_at(t@, lb@, scan as int);
            assert(occurs_at(t@, lb@, b as int));
        }
        let line_end = match find_first(&t, &nl, b) {
            Some(n) => {
                proof {
                    lemma_first_at(t@, nl@, b as int);
                    assert(occurs_at(t@, nl@, n as int));
                }
                n + 1
            },
            None => t.len(),
        };
        let ea = match find_first(&t, &le, line_end) {
            None => return t,
            Some(x) => x,
        };
        proof {
            lemma_first_at(t@, le@, line_end as int);
            assert(occurs_at(t@, le@, ea as int));
        }
        assert(ea + le.len() <= t.len());
        let fin0 = ea + le.len();
        let finish = if fin0 < t.len() && t[fin0] == '\n' {
            fin0 + 1
        } else {
            fin0
        };
        let body = slice_chars(&t, line_end, ea);
        if contains_chars(&body, &mem) {
            let start = if b > 0 && t[b - 1] == '\n' {
                b - 1
            } else {
                b
            };
            let mut joined = slice_chars(&t, 0, start);
            joined.push('\n');
            let tail = slice_chars(&t, finish, t.len());
            extend_chars(&mut joined, &tail);
            assert(joined@ =~= t@.take(start as int) + seq!['\n'] + t@.skip(finish as int));
            t = joined;
            scan = start;
        } else {
            scan = finish;
        }
    }
}

/// The first line at or after `i` that, trimmed, is `h`.
pub open spec fn header_from(ls: Seq<Seq<char>>, h: Seq<char>, i: int) -> Option<int>
    decreases ls.len() - i,
{
    if i < 0 || i >= ls.len() {
        None
    } else if trim_ws(ls[i]) == h {
        Some(i)
    } else {
        header_from(ls, h, i + 1)
    }
}

/// The first line at or after `j` that starts, past leading white space,
/// with `[`; the number of lines when there is none.
pub open spec fn next_bracket(ls: Seq<Seq<char>>, j: int) -> int
    decreases ls.len() - j,
{
    if j < 0 || j >= ls.len() {
        ls.len() as int
    } else if is_prefix(trim_start_ws(ls[j]), seq!['[']) {
        j
    } else {
        next_bracket(ls, j + 1)
    }
}

/// The section headed by `h`: its header line and the line that ends it.
pub open spec fn section_of(ls: Seq<Seq<char>>, h: Seq<char>) -> Option<(int, int)> {
    match header_from(ls, h, 0) {
        Some(s) => Some((s, next_bracket(ls, s + 1))),
        None => None,
    }
}

proof fn lemma_header_from(ls: Seq<Seq<char>>, h: Seq<char>, i: int)
    requires
        0 <= i,
    ensures
        header_from(ls, h, i) matches Some(k) ==> i <= k < ls.len() && trim_ws(ls[k]) == h,
    decreases ls.len() - i,
{
    if 0 <= i < ls.len() && trim_ws(ls[i]) != h {
        lemma_header_from(ls, h, i + 1);
    }
}

proof fn lemma_next_bracket(ls: Seq<Seq<char>>, j: int)
    requires
        0 <= j,
    ensures
        j <= next_bracket(ls, j) <= ls.len() || (j > ls.len() && next_bracket(ls, j) == ls.len()),
    decreases ls.len() - j,
{
    if 0 <= j < ls.len() && !is_prefix(trim_start_ws(ls[j]), seq!['[']) {
        lemma_next_bracket(ls, j + 1);
    }
}

fn trim_start_of(v: &[char]) -> (r: Vec<char>)
    ensures
        r@ == trim_start_ws(v@),
{
    let mut a: usize = 0;
    assert(v@.skip(0) =~= v@);
    while a < v.len() && super::is_rust_space(v[a])
        invariant
            a <= v.len(),
            trim_start_ws(v@.skip(a as int)) == trim_start_ws(v@),
        decreases v.len() - a,
    {
        assert(v@.skip(a as int).drop_first() =~= v@.skip(a + 1));
        a = a + 1;
    }
    let r = slice_chars(v, a, v.len());
    assert(r@ =~= v@.skip(a as int));
    r
}

/// The first line at or after `i` that, trimmed, is `h`.
fn find_header_from(ls: &Vec<String>, h: &[char], i: usize) -> (r: Option<usize>)
    ensures
        match header_from(views(ls@), h@, i as int) {
            Some(k) => r == Some(k as usize),
            None => r is None,
        },
{
    let ghost vs = views(ls@);
    let mut k = i;
    while k < ls.len()
        invariant
            i <= k,
            vs == views(ls@),
            header_from(vs, h@, k as int) == header_from(vs, h@, i as int),
        decreases ls.len() - k,
    {
        let t = trim_chars(&to_chars(ls[k].as_str()));
        assert(vs[k as int] == ls@[k as int]@);
        if crate::chars::chars_eq(&t, h) {
            return Some(k);
        }
        k = k + 1;
    }
    None
}

/// The first line at or after `j` that starts with `[` past white space.
fn find_next_bracket(ls: &Vec<String>, j: usize) -> (r: usize)
    ensures
        r == next_bracket(views(ls@), j as int),
{
    let ghost vs = views(ls@);
    let mut k = j;
    while k < ls.len()
        invariant
            j <= k,
            vs == views(ls@),
            next_bracket(vs, k as int) == next_bracket(vs, j as int),
        decreases ls.len() - k,
    {
        let t = trim_start_of(&to_chars(ls[k].as_str()));
        assert(vs[k as int] == ls@[k as int]@);
        if t.len() > 0 && t[0] == '[' {
            assert(t@.take(1) =~= seq!['[']);
            return k;
        }
        proof {
            if is_prefix(t@, seq!['[']) {
                assert(t@.take(1)[0] == t@[0]);
            }
        }
        k = k + 1;
    }
    proof {
        if j > ls.len() {
            assert(next_bracket(vs, j as int) == vs.len());
        }
    }
    ls.len()
}

/// The section headed by `h`.
fn find_section(ls: &Vec<String>, h: &str) -> (r: Option<(usize, usize)>)
    ensures
        match section_of(views(ls@), h@) {
            Some((s, e)) => r == Some((s as usize, e as usize)),
            None => r is None,
        },
        r matches Some((s, e)) ==> s < e <= ls.len(),
{
    let hv = to_chars(h);
    match find_header_from(ls, &hv, 0) {
        None => None,
        Some(s) => {
            proof {
                lemma_header_from(views(ls@), h@, 0);
            }
            assert(s < ls.len());
            let e = find_next_bracket(ls, s + 1);
            proof {
                lemma_next_bracket(views(ls@), s + 1);
            }
            Some((s, e))
        },
    }
}

/// One step of the scan over the server's nested tables: past a line that
/// heads a `[mcp_servers.engramark.…]` table, to the line that ends the
/// first section with that header.
pub open spec fn nested_step(ls: Seq<Seq<char>>, end: int) -> Option<int> {
    if 0 <= end < ls.len() && is_prefix(trim_ws(ls[end]), "[mcp_servers.engramark."@) {
        match section_of(ls, trim_ws(ls[end])) {
            Some((_, ne)) => Some(ne),
            None => Some(end + 1),
        }
    } else {
        None
    }
}

/// Where the scan over nested tables stops within `fuel` steps.
pub open spec fn nested_close(ls: Seq<Seq<char>>, end: int, fuel: nat) -> Option<int>
    decreases fuel,
{
    match nested_step(ls, end) {
        None => Some(end),
        Some(n) => if fuel == 0 {
            None
        } else {
            nested_close(ls, n, (fuel - 1) as nat)
        },
    }
}

/// Whether the scan over nested tables from `end` stops.
pub open spec fn nested_stops(ls: Seq<Seq<char>>, end: int) -> bool {
    exists|f: nat| #[trigger] nested_close(ls, end, f) is Some
}

/// Where the scan over nested tables from `end` stops.
pub open spec fn nested_end(ls: Seq<Seq<char>>, end: int) -> int {
    nested_close(ls, end, choose|f: nat| #[trigger] nested_close(ls, end, f) is Some).unwrap()
}

/// Runs the scan over the server's nested tables from `end`.
fn close_nested(ls: &Vec<String>, end: usize) -> (r: usize)
    requires
        end <= ls.len(),
        nested_stops(views(ls@), end as int),
    ensures
        r == nested_end(views(ls@), end as int),
        r <= ls.len(),
{
    let ghost vs = views(ls@);
    let ghost f0: nat = choose|f: nat| #[trigger] nested_close(vs, end as int, f) is Some;
    let ghost target = nested_end(vs, end as int);
    let ghost mut fuel = f0;
    let prefix = to_chars("[mcp_servers.engramark.");
    let mut e = end;
    while e < ls.len()
        invariant
            vs == views(ls@),
            prefix@ == "[mcp_servers.engramark."@,
            nested_close(vs, e as int, fuel) == Some(target),
            target == nested_end(vs, end as int),
            e <= ls.len(),
        decreases fuel,
    {
        let stripped = trim_chars(&to_chars(ls[e].as_str()));
        assert(vs[e as int] == ls@[e as int]@);
        if !starts_with(&stripped, &prefix) {
            return e;
        }
        let next = match find_header_from(ls, &stripped, 0) {
            Some(s) => {
                proof {
                    lemma_header_from(vs, stripped@, 0);
                    lemma_next_bracket(vs, s + 1);
                }
                find_next_bracket(ls, s + 1)
            },
            None => e + 1,
        };
        proof {
            assert(nested_step(vs, e as int) == Some(next as int));
            fuel = (fuel - 1) as nat;
        }
        e = next;
    }
    e
}

/// What `str::to_lowercase` gives for a text.
pub uninterp spec fn lowercase_of(s: Seq<char>) -> Seq<char>;

/// `str::to_lowercase`. Claimed of the result: it is the named result.
#[verifier::external_body]
fn to_lowercase(s: &str) -> (r: String)
    ensures
        r@ == lowercase_of(s@),
{
    s.to_lowercase()
}

/// The legacy install's interpreter path, as a regular expression.
pub const LEGACY_PYTHON_PATTERN: &'static str = "/engramark/(?:runtime/)?python(?:[\"']|$)";

/// Backslashes turned into slashes.
pub open spec fn slash_path(s: Seq<char>) -> Seq<char> {
    s.map_values(|c: char| if c == '\\' { '/' } else { c })
}

/// Whether a server section was written by an earlier Engramark install:
/// lower-cased, with forward slashes, it names the old server script, the
/// `bin/engramark` program or the old bundled interpreter.
pub open spec fn legacy_mcp(section: Seq<char>) -> bool {
    let n = slash_path(lowercase_of(section));
    contains_seq(n, "mcp_server.py"@) || contains_seq(n, "bin/engramark"@) || regex_is_match(
        LEGACY_PYTHON_PATTERN@,
        n,
    )
}

/// A text lower-cased, with backslashes turned into slashes.
pub(crate) fn lower_slashed(text: &str) -> (n: Vec<char>)
    ensures
        n@ == slash_path(lowercase_of(text@)),
{
    let lower = to_lowercase(text);
    let v = to_chars(lower.as_str());
    let mut n: Vec<char> = Vec::new();
    let mut i: usize = 0;
    while i < v.len()
        invariant
            i <= v.len(),
            n@ == slash_path(v@.take(i as int)),
        decreases v.len() - i,
    {
        n.push(if v[i] == '\\' { '/' } else { v[i] });
        assert(slash_path(v@.take(i + 1)) =~= slash_path(v@.take(i as int)).push(
            if v@[i as int] == '\\' { '/' } else { v@[i as int] },
        ));
        i = i + 1;
    }
    assert(v@.take(v.len() as int) =~= v@);
    n
}

/// Whether a server section was written by an earlier Engramark install.
pub fn is_legacy_engramark_mcp(section: &str) -> (r: bool)
    ensures
        r == legacy_mcp(section@),
{
    let n = lower_slashed(section);
    if contains_chars(&n, &to_chars("mcp_server.py")) || contains_chars(&n, &to_chars("bin/engramark")) {
        return true;
    }
    let ns = from_chars(&n);
    is_match(LEGACY_PYTHON_PATTERN, ns.as_str())
}

/// A `memories = …` assignment line.
pub open spec fn memories_line(line: Seq<char>) -> bool {
    let t = trim_start_ws(line);
    is_prefix(t, "memories"@) && is_prefix(trim_start_ws(t.skip(8)), seq!['='])
}

/// A line that is empty once trimmed.
pub open spec fn blank_line(line: Seq<char>) -> bool {
    trim_ws(line).len() == 0
}

/// The config text with both managed blocks and the legacy memories blocks
/// removed.
pub open spec fn codex_stripped(t: Seq<char>) -> Seq<char> {
    let t1 = replaced_block(t, CODEX_MCP_BEGIN@, CODEX_MCP_END@, None);
    legacy_pass(replaced_block(t1, CODEX_MEMORY_BEGIN@, CODEX_MEMORY_END@, None), 0)
}

/// The lines of the stripped config.
pub open spec fn codex_lines(t: Seq<char>) -> Seq<Seq<char>> {
    card_lines(trim_end_ws(codex_stripped(t)))
}

/// The server's section with its nested tables: header line and end.
pub open spec fn server_span(ls: Seq<Seq<char>>) -> Option<(int, int)> {
    match section_of(ls, "[mcp_servers.engramark]"@) {
        Some((s, e)) => Some((s, nested_end(ls, e))),
        None => None,
    }
}

/// The lines inside the server's section.
pub open spec fn server_body(ls: Seq<Seq<char>>) -> Seq<char> {
    let (s, e) = server_span(ls).unwrap();
    join_newline(ls.subrange(s + 1, e))
}

/// The lines without the server's section.
pub open spec fn without_server(ls: Seq<Seq<char>>) -> Seq<Seq<char>> {
    match server_span(ls) {
        Some((s, e)) => ls.take(s) + ls.skip(e),
        None => ls,
    }
}

/// The lines with a `[features]` header appended, after a blank line when
/// the last line is not blank.
pub open spec fn with_features_header(ls: Seq<Seq<char>>) -> Seq<Seq<char>> {
    let padded = if ls.len() > 0 && !blank_line(ls.last()) {
        ls.push(Seq::empty())
    } else {
        ls
    };
    padded.push("[features]"@)
}

/// The lines holding a `[features]` section, with its header and end.
pub open spec fn features_span(ls: Seq<Seq<char>>) -> (Seq<Seq<char>>, int, int) {
    match section_of(ls, "[features]"@) {
        Some((fs, fe)) => (ls, fs, fe),
        None => {
            let l = with_features_header(ls);
            (l, l.len() - 1, l.len() as int)
        },
    }
}

/// The last `memories` assignment among the lines.
pub open spec fn last_memories_line(ls: Seq<Seq<char>>) -> Option<Seq<char>>
    decreases ls.len(),
{
    if ls.len() == 0 {
        None
    } else if memories_line(ls.last()) {
        Some(ls.last())
    } else {
        last_memories_line(ls.drop_last())
    }
}

/// The lines that are not `memories` assignments.
pub open spec fn other_lines(ls: Seq<Seq<char>>) -> Seq<Seq<char>>
    decreases ls.len(),
{
    if ls.len() == 0 {
        Seq::empty()
    } else if memories_line(ls.last()) {
        other_lines(ls.drop_last())
    } else {
        other_lines(ls.drop_last()).push(ls.last())
    }
}

/// Blank lines dropped from the end, the first line kept.
pub open spec fn drop_blank_tail(ls: Seq<Seq<char>>) -> Seq<Seq<char>>
    decreases ls.len(),
{
    if ls.len() > 1 && blank_line(ls.last()) {
        drop_blank_tail(ls.drop_last())
    } else {
        ls
    }
}

/// The managed memories block: the earlier setting, if any, recorded in a
/// comment, then `memories = false`.
pub open spec fn memory_block_lines(previous: Option<Seq<char>>) -> Seq<Seq<char>> {
    let record = match previous {
        Some(p) => seq!["# previous "@ + trim_ws(p)],
        None => Seq::empty(),
    };
    seq![CODEX_MEMORY_BEGIN@] + record + seq!["memories = false"@, CODEX_MEMORY_END@]
}

/// The lines after install: in the `[features]` section (added when
/// missing) the `memories` assignments give way to the managed block, the
/// last of them recorded as the earlier setting (else the one recorded
/// before, else `legacy`).
pub open spec fn installed_lines(ls: Seq<Seq<char>>, recorded: Option<Seq<char>>, legacy: Option<Seq<char>>) -> Seq<
    Seq<char>,
> {
    let (l, fs, fe) = features_span(ls);
    let body = l.subrange(fs + 1, fe);
    let before = match recorded {
        Some(p) => Some(p),
        None => legacy,
    };
    let previous = match last_memories_line(body) {
        Some(x) => Some(x),
        None => before,
    };
    let kept = drop_blank_tail(seq![l[fs]] + other_lines(body));
    l.take(fs) + kept + memory_block_lines(previous) + l.skip(fe)
}

/// The server block: the program and the data home as JSON strings.
pub open spec fn server_block(binary: Seq<char>, data_home: Seq<char>) -> Seq<char> {
    "[mcp_servers.engramark]\ncommand = "@ + json_string_literal(binary)
        + "\nargs = [\"mcp\"]\n\n[mcp_servers.engramark.env]\nENGRAMARK_HOME = "@ + json_string_literal(
        data_home,
    )
}

/// Whether the `[features]` section of the lines sets `memories`.
pub open spec fn sets_memories(ls: Seq<Seq<char>>) -> bool {
    match section_of(ls, "[features]"@) {
        Some((s, e)) => exists|k: int| s + 1 <= k < e && memories_line(#[trigger] ls[k]),
        None => false,
    }
}

/// The lines after removal: the recorded earlier setting goes back into
/// `[features]` (added when missing) unless that section sets `memories`.
pub open spec fn restored_lines(ls: Seq<Seq<char>>, recorded: Option<Seq<char>>) -> Seq<Seq<char>> {
    match recorded {
        None => ls,
        Some(p) => if sets_memories(card_lines(join_newline(ls))) {
            ls
        } else {
            match section_of(ls, "[features]"@) {
                None => with_features_header(ls).push(p),
                Some((_, fe)) => ls.insert(fe, p),
            }
        },
    }
}

/// The text of a list of lines: joined, trailing white space trimmed, one
/// final newline.
pub open spec fn lines_text(ls: Seq<Seq<char>>) -> Seq<char> {
    trim_end_ws(join_newline(ls)) + seq!['\n']
}

/// The refusal when the config defines another server under Engramark's
/// name.
pub open spec fn server_conflict_text() -> Seq<char> {
    "\u{2}Codex 已有同名 MCP，但不是 Engramark，已停止避免覆盖"@
}

/// The markers of a managed block stand in order when each occurs once.
pub open spec fn markers_in_order(t: Seq<char>, b: Seq<char>, e: Seq<char>) -> bool {
    matched_once(t, b) && matched_once(t, e) ==> occurs_from(t, e, first_at(t, b, 0))
}

/// Whether patching `t` runs to an end: a text that is not TOML is refused
/// first; for one that is, the managed blocks' markers stand in order (in
/// the text, once its server block is gone, and in the text rebuilt on
/// install), and the scan over the server's nested tables stops past its
/// header.
pub open spec fn codex_patchable(t: Seq<char>, install: bool, legacy: Option<Seq<char>>) -> bool {
    toml_problem(t) is None ==> codex_runs(t, install, legacy)
}

/// The conditions under which patching a TOML text runs to an end.
pub open spec fn codex_runs(t: Seq<char>, install: bool, legacy: Option<Seq<char>>) -> bool {
    let t1 = replaced_block(t, CODEX_MCP_BEGIN@, CODEX_MCP_END@, None);
    let ls = codex_lines(t);
    &&& markers_in_order(t, CODEX_MCP_BEGIN@, CODEX_MCP_END@)
    &&& markers_in_order(t1, CODEX_MEMORY_BEGIN@, CODEX_MEMORY_END@)
    &&& (section_of(ls, "[mcp_servers.engramark]"@) matches Some((s, e)) ==> nested_stops(ls, e) && nested_end(ls, e)
        >= s + 1)
    &&& (install ==> markers_in_order(
        lines_text(installed_lines(without_server(ls), memory_previous(t), legacy)),
        CODEX_MCP_BEGIN@,
        CODEX_MCP_END@,
    ))
}

/// What patching the Codex config gives: the text checked as TOML, both
/// managed blocks and the legacy memories blocks removed, an earlier
/// Engramark server section removed (another server of that name is
/// refused); then on install the memories switch turned off in
/// `[features]` and the server block appended, or on removal the recorded
/// earlier setting restored; the result checked as TOML again.
pub open spec fn codex_config_result(
    t: Seq<char>,
    binary: Seq<char>,
    data_home: Seq<char>,
    install: bool,
    legacy: Option<Seq<char>>,
) -> Result<Seq<char>, Seq<char>> {
    let mcp_b = CODEX_MCP_BEGIN@;
    let mcp_e = CODEX_MCP_END@;
    let t1 = replaced_block(t, mcp_b, mcp_e, None);
    let ls = codex_lines(t);
    let ls2 = without_server(ls);
    let recorded = memory_previous(t);
    if toml_problem(t) is Some {
        Err(toml_problem(t).unwrap())
    } else if !markers_balanced(t, mcp_b, mcp_e) {
        Err(marker_error_text(mcp_b))
    } else if !markers_balanced(t1, CODEX_MEMORY_BEGIN@, CODEX_MEMORY_END@) {
        Err(marker_error_text(CODEX_MEMORY_BEGIN@))
    } else if server_span(ls) is Some && !legacy_mcp(server_body(ls)) {
        Err(server_conflict_text())
    } else if install {
        let t4 = lines_text(installed_lines(ls2, recorded, legacy));
        if !markers_balanced(t4, mcp_b, mcp_e) {
            Err(marker_error_text(mcp_b))
        } else {
            let r = replaced_block(t4, mcp_b, mcp_e, Some(server_block(binary, data_home)));
            match toml_problem(r) {
                Some(m) => Err(m),
                None => Ok(r),
            }
        }
    } else {
        let r = lines_text(restored_lines(ls2, recorded));
        match toml_problem(r) {
            Some(m) => Err(m),
            None => Ok(r),
        }
    }
}

/// Copies lines `a..b`.
fn copy_lines(ls: &Vec<String>, a: usize, b: usize) -> (r: Vec<String>)
    requires
        a <= b <= ls.len(),
    ensures
        views(r@) == views(ls@).subrange(a as int, b as int),
{
    let mut r: Vec<String> = Vec::new();
    let mut i = a;
    while i < b
        invariant
            a <= i <= b <= ls.len(),
            views(r@) == views(ls@).subrange(a as int, i as int),
        decreases b - i,
    {
        let c = ls[i].clone();
        assert(c == ls@[i as int]);
        let ghost before = r@;
        r.push(c);
        assert(r@ == before.push(c));
        assert(views(r@) =~= views(before).push(c@));
        assert(views(r@) =~= views(ls@).subrange(a as int, i + 1));
        i = i + 1;
    }
    r
}

/// Appends copies of `src` to `out`.
fn append_lines(out: &mut Vec<String>, src: &Vec<String>)
    ensures
        views(final(out)@) == views(old(out)@) + views(src@),
{
    let ghost start = views(out@);
    let mut i: usize = 0;
    while i < src.len()
        invariant
            i <= src.len(),
            views(out@) == start + views(src@).take(i as int),
        decreases src.len() - i,
    {
        let c = src[i].clone();
        assert(c == src@[i as int]);
        let ghost before = out@;
        out.push(c);
        assert(views(out@) =~= views(before).push(c@));
        assert(views(out@) =~= start + views(src@).take(i + 1));
        i = i + 1;
    }
    assert(views(src@).take(src.len() as int) =~= views(src@));
}

/// Whether a line assigns `memories`.
fn is_memories_line(line: &str) -> (r: bool)
    ensures
        r == memories_line(line@),
{
    let t = trim_start_of(&to_chars(line));
    let m = to_chars("memories");
    proof {
        reveal_strlit("memories");
    }
    if !starts_with(&t, &m) {
        return false;
    }
    let rest = trim_start_of(&slice_chars(&t, 8, t.len()));
    assert(t@.subrange(8, t@.len() as int) =~= t@.skip(8));
    let r = rest.len() > 0 && rest[0] == '=';
    proof {
        if r {
            assert(rest@.take(1) =~= seq!['=']);
        } else if is_prefix(rest@, seq!['=']) {
            assert(rest@.take(1)[0] == rest@[0]);
        }
    }
    r
}

/// Whether a line is blank once trimmed.
fn is_blank(line: &str) -> (r: bool)
    ensures
        r == blank_line(line@),
{
    trim_chars(&to_chars(line)).len() == 0
}

/// The text of a list of lines.
fn lines_text_of(ls: &Vec<String>) -> (r: String)
    ensures
        r@ == lines_text(views(ls@)),
{
    let joined = crate::hash::joined_lines(ls);
    let mut t = super::trim_end_chars(&to_chars(joined.as_str()));
    t.push('\n');
    from_chars(&t)
}

fn string_of(t: &str) -> (r: String)
    ensures
        r@ == t@,
{
    from_chars(&to_chars(t))
}

/// Appends a `[features]` header, after a blank line when the last line is
/// not blank.
fn push_features_header(ls: &mut Vec<String>)
    ensures
        views(final(ls)@) == with_features_header(views(old(ls)@)),
{
    let ghost before = views(ls@);
    if ls.len() > 0 && !is_blank(ls[ls.len() - 1].as_str()) {
        ls.push(String::new());
        assert(views(ls@) =~= before.push(Seq::empty()));
    }
    let ghost mid = views(ls@);
    ls.push(string_of("[features]"));
    assert(views(ls@) =~= mid.push("[features]"@));
}

proof fn lemma_section_bounds(ls: Seq<Seq<char>>, h: Seq<char>)
    ensures
        section_of(ls, h) matches Some((s, e)) ==> 0 <= s < e <= ls.len(),
{
    lemma_header_from(ls, h, 0);
    if let Some(s) = header_from(ls, h, 0) {
        lemma_next_bracket(ls, s + 1);
    }
}

/// The lines after install.
#[verifier::rlimit(50)]
#[verifier::spinoff_prover]
fn install_lines(ls: Vec<String>, recorded: Option<String>, legacy: Option<&str>) -> (r: Vec<String>)
    ensures
        views(r@) == installed_lines(views(ls@), opt_view(recorded), super::opt_text(legacy)),
{
    let ghost spec_ls = views(ls@);
    let mut l = ls;
    let (fs, fe) = match find_section(&l, "[features]") {
        Some((fs, fe)) => {
            proof {
                lemma_section_bounds(views(l@), "[features]"@);
            }
            (fs, fe)
        },
        None => {
            push_features_header(&mut l);
            assert(l@.len() == views(l@).len());
            (l.len() - 1, l.len())
        },
    };
    let ghost lv = views(l@);
    assert((lv, fs as int, fe as int) == features_span(spec_ls));
    let ghost body = lv.subrange(fs + 1, fe as int);
    let before: Option<String> = match recorded {
        Some(p) => Some(p),
        None => match legacy {
            Some(x) => Some(string_of(x)),
            None => None,
        },
    };
    let ghost before_v = opt_view(before);
    let mut previous = before;
    let mut kept: Vec<String> = Vec::new();
    kept.push(l[fs].clone());
    let ghost first = views(kept@);
    assert(first =~= seq![lv[fs as int]]);
    let mut i = fs + 1;
    while i < fe
        invariant
            fs < fe <= l.len(),
            fs + 1 <= i <= fe,
            lv == views(l@),
            body == lv.subrange(fs + 1, fe as int),
            views(kept@) == first + other_lines(body.take(i - fs - 1)),
            opt_view(previous) == match last_memories_line(body.take(i - fs - 1)) {
                Some(x) => Some(x),
                None => before_v,
            },
        decreases fe - i,
    {
        let ghost k = i - fs - 1;
        assert(body.take(k + 1).drop_last() =~= body.take(k));
        assert(body.take(k + 1).last() == lv[i as int]);
        assert(lv[i as int] == l@[i as int]@);
        if is_memories_line(l[i].as_str()) {
            previous = Some(l[i].clone());
        } else {
            let ghost kb = views(kept@);
            kept.push(l[i].clone());
            assert(views(kept@) =~= kb.push(lv[i as int]));
        }
        i = i + 1;
    }
    assert(body.take(fe - fs - 1) =~= body);
    let ghost joined = views(kept@);
    while kept.len() > 1 && is_blank(kept[kept.len() - 1].as_str())
        invariant
            kept.len() >= 1,
            drop_blank_tail(views(kept@)) == drop_blank_tail(joined),
        decreases kept.len(),
    {
        let ghost kb = views(kept@);
        assert(kb.last() == kept@[kept.len() - 1]@);
        kept.pop();
        assert(views(kept@) =~= kb.drop_last());
    }
    assert(drop_blank_tail(views(kept@)) == views(kept@));
    let ghost dropped = views(kept@);
    kept.push(string_of(CODEX_MEMORY_BEGIN));
    match &previous {
        Some(p) => {
            let mut line = to_chars("# previous ");
            let tp = trim_chars(&to_chars(p.as_str()));
            extend_chars(&mut line, &tp);
            kept.push(from_chars(&line));
        },
        None => {},
    }
    kept.push(string_of("memories = false"));
    kept.push(string_of(CODEX_MEMORY_END));
    assert(views(kept@) =~= dropped + memory_block_lines(opt_view(previous)));
    let mut out = copy_lines(&l, 0, fs);
    append_lines(&mut out, &kept);
    let tail = copy_lines(&l, fe, l.len());
    append_lines(&mut out, &tail);
    assert(lv.subrange(0, fs as int) =~= lv.take(fs as int));
    assert(lv.subrange(fe as int, lv.len() as int) =~= lv.skip(fe as int));
    out
}

/// Whether the `[features]` section sets `memories`.
fn features_set_memories(ls: &Vec<String>) -> (r: bool)
    ensures
        r == sets_memories(views(ls@)),
{
    let ghost lv = views(ls@);
    match find_section(ls, "[features]") {
        None => false,
        Some((s, e)) => {
            proof {
                lemma_section_bounds(lv, "[features]"@);
            }
            let mut k = s + 1;
            while k < e
                invariant
                    s < e <= ls.len(),
                    s + 1 <= k <= e,
                    lv == views(ls@),
                    section_of(lv, "[features]"@) == Some((s as int, e as int)),
                    forall|j: int| s + 1 <= j < k ==> !memories_line(#[trigger] lv[j]),
                decreases e - k,
            {
                assert(lv[k as int] == ls@[k as int]@);
                if is_memories_line(ls[k].as_str()) {
                    assert(memories_line(lv[k as int]));
                    return true;
                }
                k = k + 1;
            }
            false
        },
    }
}

/// The lines after removal.
fn restore_lines(ls: Vec<String>, recorded: Option<String>) -> (r: Vec<String>)
    ensures
        views(r@) == restored_lines(views(ls@), opt_view(recorded)),
{
    match recorded {
        None => ls,
        Some(p) => {
            let joined = crate::hash::joined_lines(&ls);
            let cur = str_lines(&to_chars(joined.as_str()));
            if features_set_memories(&cur) {
                return ls;
            }
            let mut l = ls;
            match find_section(&l, "[features]") {
                None => {
                    push_features_header(&mut l);
                    let ghost lb = views(l@);
                    l.push(p);
                    assert(views(l@) =~= lb.push(p@));
                    l
                },
                Some((_, fe)) => {
                    proof {
                        lemma_section_bounds(views(l@), "[features]"@);
                    }
                    let ghost lb = views(l@);
                    l.insert(fe, p);
                    assert(views(l@) =~= lb.insert(fe as int, p@));
                    l
                },
            }
        },
    }
}

/// The server block's text.
fn server_block_text(binary: &str, data_home: &str) -> (r: String)
    ensures
        r@ == server_block(binary@, data_home@),
{
    let mut s = string_of("[mcp_servers.engramark]\ncommand = ");
    escape_string(binary, &mut s);
    let mut v = to_chars(s.as_str());
    extend_str(&mut v, "\nargs = [\"mcp\"]\n\n[mcp_servers.engramark.env]\nENGRAMARK_HOME = ");
    let mut s2 = from_chars(&v);
    escape_string(data_home, &mut s2);
    s2
}

/// Patches the Codex config: checks it as TOML, removes the managed MCP
/// and memories blocks and the legacy memories blocks, and removes a
/// server section left by an earlier Engramark install (refusing another
/// server of that name). On install it turns the memories switch off in
/// `[features]`, recording the earlier setting (else `legacy_previous`),
/// and appends the managed server block that runs `binary` with
/// `ENGRAMARK_HOME` set to `data_home`; on removal it restores the
/// recorded setting. The result is checked as TOML again.
pub fn patch_codex_config(
    text: &str,
    binary: &str,
    data_home: &str,
    install: bool,
    legacy_previous: Option<&str>,
) -> (r: Result<String, Error>)
    requires
        codex_patchable(text@, install, super::opt_text(legacy_previous)),
    ensures
        match codex_config_result(text@, binary@, data_home@, install, super::opt_text(legacy_previous)) {
            Ok(s) => r matches Ok(x) && x@ == s,
            Err(m) => r matches Err(Error::Core(x)) && x@ == m,
        },
{
    match super::codex::validate_toml(text) {
        Err(e) => return Err(e),
        Ok(()) => {},
    }
    let tv = to_chars(text);
    let recorded = recorded_previous(&tv);
    let t1 = match super::replace_block(text, CODEX_MCP_BEGIN, CODEX_MCP_END, None) {
        Err(e) => return Err(e),
        Ok(x) => x,
    };
    let t2 = match super::replace_block(t1.as_str(), CODEX_MEMORY_BEGIN, CODEX_MEMORY_END, None) {
        Err(e) => return Err(e),
        Ok(x) => x,
    };
    let t3 = remove_legacy_marked_blocks(&to_chars(t2.as_str()));
    let ls = str_lines(&super::trim_end_chars(&t3));
    let ghost lv = views(ls@);
    assert(lv == codex_lines(text@));
    let ls2 = match find_section(&ls, "[mcp_servers.engramark]") {
        None => ls,
        Some((s, e0)) => {
            proof {
                lemma_section_bounds(lv, "[mcp_servers.engramark]"@);
            }
            assert(section_of(lv, "[mcp_servers.engramark]"@) == Some((s as int, e0 as int)));
            let e = close_nested(&ls, e0);
            assert(server_span(lv) == Some((s as int, e as int)));
            let inner = copy_lines(&ls, s + 1, e);
            let section = crate::hash::joined_lines(&inner);
            assert(section@ == server_body(lv));
            if !is_legacy_engramark_mcp(section.as_str()) {
                return Err(Error::core_error("\u{2}Codex 已有同名 MCP，但不是 Engramark，已停止避免覆盖"));
            }
            let mut out = copy_lines(&ls, 0, s);
            let tail = copy_lines(&ls, e, ls.len());
            append_lines(&mut out, &tail);
            assert(lv.subrange(0, s as int) =~= lv.take(s as int));
            assert(lv.subrange(e as int, lv.len() as int) =~= lv.skip(e as int));
            out
        },
    };
    assert(views(ls2@) == without_server(lv));
    if install {
        let l4 = install_lines(ls2, recorded, legacy_previous);
        let t4 = lines_text_of(&l4);
        let block = server_block_text(binary, data_home);
        let r = match super::replace_block(t4.as_str(), CODEX_MCP_BEGIN, CODEX_MCP_END, Some(block.as_str())) {
            Err(e) => return Err(e),
            Ok(x) => x,
        };
        match super::codex::validate_toml(r.as_str()) {
            Err(e) => return Err(e),
            Ok(()) => {},
        }
        Ok(r)
    } else {
        let l5 = restore_lines(ls2, recorded);
        let r = lines_text_of(&l5);
        match super::codex::validate_toml(r.as_str()) {
            Err(e) => return Err(e),
            Ok(()) => {},
        }
        Ok(r)
    }
}

} // verus!
