//! Tool argument validation for the memory tools: the accepted keys of
//! each tool, the required ones, and the value checks, with the message a
//! caller is given to correct a refused call.

use vstd::prelude::*;

pub mod replies;
pub mod session;

use crate::chars::{extend_str, from_chars, int_text, push_decimal, str_eq, to_chars};
use crate::hash::{join_newline, joined_lines};
use crate::host_setup::{opt_text, trim_chars, trim_ws};
use crate::json::{deref_opt, json_get, json_keys, json_str, JsonValue};
use crate::mem::{
    body_lines_seq, canonical_entities_seq, chars_lt, kept_entities, lemma_seq_lt_irreflexive, normalize_structured_content,
    seq_lt, structured_error, views,
};
use crate::normalize::py_strip_seq;
use crate::{Error, MAX_PUBLIC_ID, MAX_QUERY_CHARS, GET_MAX_IDS};

verus! {

broadcast use vstd::string::group_string_axioms;

/// The text of a refused tool call: the message behind a `\u{1}` mark.
pub open spec fn tool_input_text(m: Seq<char>) -> Seq<char> {
    "\u{1}"@ + m
}

/// The texts of a list of string slices.
pub open spec fn strs(v: Seq<&str>) -> Seq<Seq<char>> {
    v.map_values(|x: &str| x@)
}

/// `x` inserted after every text not greater.
pub open spec fn insert_text(sorted: Seq<Seq<char>>, x: Seq<char>) -> Seq<Seq<char>>
    decreases sorted.len(),
{
    if sorted.len() == 0 {
        seq![x]
    } else if seq_lt(x, sorted.last()) {
        insert_text(sorted.drop_last(), x).push(sorted.last())
    } else {
        sorted.push(x)
    }
}

/// Texts in byte order.
pub open spec fn sort_texts(items: Seq<Seq<char>>) -> Seq<Seq<char>>
    decreases items.len(),
{
    if items.len() == 0 {
        Seq::empty()
    } else {
        insert_text(sort_texts(items.drop_last()), items.last())
    }
}

/// Texts joined by `sep`.
pub open spec fn join_texts(items: Seq<Seq<char>>, sep: Seq<char>) -> Seq<char>
    decreases items.len(),
{
    if items.len() == 0 {
        Seq::empty()
    } else if items.len() == 1 {
        items[0]
    } else {
        join_texts(items.drop_last(), sep) + sep + items.last()
    }
}

/// The member `key` of the arguments (absent arguments are empty).
pub open spec fn arg(args: Option<JsonValue>, key: Seq<char>) -> Option<JsonValue> {
    match args {
        Some(a) => json_get(a, key),
        None => None,
    }
}

/// The keys of the arguments.
pub open spec fn arg_keys(args: Option<JsonValue>) -> Seq<Seq<char>> {
    match args {
        Some(a) => json_keys(a),
        None => Seq::empty(),
    }
}

/// The complaint about unsupported or missing keys, if any.
pub open spec fn key_problem(args: Option<JsonValue>, allowed: Seq<Seq<char>>, required: Seq<Seq<char>>) -> Option<Seq<char>> {
    let keys = arg_keys(args);
    let extra = sort_texts(keys.filter(|k: Seq<char>| !allowed.contains(k)));
    let missing = sort_texts(required.filter(|k: Seq<char>| !keys.contains(k)));
    if extra.len() > 0 {
        Some("不支持参数 "@ + join_texts(extra, ", "@) + "；请移除后重试"@)
    } else if missing.len() > 0 {
        Some("缺少必填参数 "@ + join_texts(missing, ", "@) + "；请补充后重试"@)
    } else {
        None
    }
}

/// A memory id: an integer from 1 to the largest public id.
pub open spec fn id_result(v: Option<JsonValue>, label: Seq<char>) -> Result<i64, Seq<char>> {
    let bad = label + " 必须是大于等于 1 的整数记忆编号"@;
    let over = label + " 超过安全上限 9007199254740991"@;
    match v {
        Some(JsonValue::Int(x)) => if x < 1 {
            Err(bad)
        } else if x > MAX_PUBLIC_ID {
            Err(over)
        } else {
            Ok(x)
        },
        Some(JsonValue::Float { whole_above_max_id }) => if whole_above_max_id {
            Err(over)
        } else {
            Err(bad)
        },
        _ => Err(bad),
    }
}

/// A required, non-empty text of at most `max` characters, trimmed.
pub open spec fn text_result(v: Option<JsonValue>, label: Seq<char>, max: usize) -> Result<Seq<char>, Seq<char>> {
    match json_str(v) {
        None => Err(label + " 必须是字符串"@),
        Some(t) => {
            let n = trim_ws(t);
            if n.len() == 0 {
                Err(label + " 不能为空"@)
            } else if n.len() > max {
                Err(label + " 最多 "@ + int_text(max as int) + " 个字符"@)
            } else {
                Ok(n)
            }
        },
    }
}

/// The strings of a list.
pub open spec fn strings_in(items: Seq<JsonValue>) -> Seq<Seq<char>>
    decreases items.len(),
{
    if items.len() == 0 {
        Seq::empty()
    } else {
        let prev = strings_in(items.drop_last());
        match items.last() {
            JsonValue::Str(s) => prev.push(s@),
            _ => prev,
        }
    }
}

/// The strings of an optional list value.
pub open spec fn json_strings(v: Option<JsonValue>) -> Seq<Seq<char>> {
    match v {
        Some(JsonValue::Array(items)) => strings_in(items@),
        _ => Seq::empty(),
    }
}

/// A text member or a default.
pub open spec fn text_or(v: Option<JsonValue>, d: Seq<char>) -> Seq<char> {
    match json_str(v) {
        Some(t) => t,
        None => d,
    }
}

/// Arguments of a save or proposal: title, body, entities, type, scope,
/// lock.
pub type WriteModel = (Seq<char>, Seq<char>, Seq<Seq<char>>, Seq<char>, Seq<char>, bool);

/// The keys a save or proposal accepts.
pub open spec fn write_keys(allow_lock: bool) -> Seq<Seq<char>> {
    if allow_lock {
        seq!["title"@, "body"@, "entities"@, "type"@, "scope"@, "lock"@]
    } else {
        seq!["title"@, "body"@, "entities"@, "type"@, "scope"@]
    }
}

/// The validated arguments of a save or proposal.
pub open spec fn write_result(args: Option<JsonValue>, allow_lock: bool) -> Result<WriteModel, Seq<char>> {
    match key_problem(args, write_keys(allow_lock), seq!["title"@, "scope"@]) {
        Some(m) => Err(m),
        None => {
            let title = text_or(arg(args, "title"@), Seq::empty());
            let body = text_or(arg(args, "body"@), Seq::empty());
            let entities = json_strings(arg(args, "entities"@));
            let ty = text_or(arg(args, "type"@), "fact"@);
            match structured_error(title, body, entities, ty) {
                Some(m) => Err(m),
                None => {
                    let scope = text_or(arg(args, "scope"@), Seq::empty());
                    if scope != "global"@ && scope != "project"@ {
                        Err("scope 只能是 global 或 project"@)
                    } else {
                        let lock: Result<bool, Seq<char>> = if allow_lock {
                            match arg(args, "lock"@) {
                                None => Ok(false),
                                Some(JsonValue::Bool(v)) => Ok(v),
                                _ => Err("lock 必须是布尔值"@),
                            }
                        } else {
                            Ok(false)
                        };
                        match lock {
                            Err(m) => Err(m),
                            Ok(l) => Ok(
                                (
                                    py_strip_seq(title),
                                    join_newline(body_lines_seq(body)),
                                    canonical_entities_seq(kept_entities(entities)),
                                    ty,
                                    scope,
                                    l,
                                ),
                            ),
                        }
                    }
                },
            }
        },
    }
}

/// The ids of a list, the first bad one refused.
pub open spec fn ids_of(items: Seq<JsonValue>) -> Result<Seq<i64>, Seq<char>>
    decreases items.len(),
{
    if items.len() == 0 {
        Ok(Seq::empty())
    } else {
        match ids_of(items.drop_last()) {
            Err(m) => Err(m),
            Ok(p) => match id_result(Some(items.last()), "ids 中的编号"@) {
                Err(m) => Err(m),
                Ok(x) => Ok(p.push(x)),
            },
        }
    }
}

/// The validated ids of a fetch: one to five distinct ids.
pub open spec fn get_result(args: Option<JsonValue>) -> Result<Seq<i64>, Seq<char>> {
    let count_msg = "ids 必须包含 1 至 5 个记忆编号"@;
    match key_problem(args, seq!["ids"@], seq!["ids"@]) {
        Some(m) => Err(m),
        None => match arg(args, "ids"@) {
            Some(JsonValue::Array(items)) => if items@.len() == 0 || items@.len() > GET_MAX_IDS {
                Err(count_msg)
            } else {
                match ids_of(items@) {
                    Err(m) => Err(m),
                    Ok(ids) => if ids.no_duplicates() {
                        Ok(ids)
                    } else {
                        Err("ids 不能包含重复编号"@)
                    },
                }
            },
            _ => Err(count_msg),
        },
    }
}

/// Validated tool arguments as plain values.
pub enum ValidatedModel {
    Search(Seq<char>),
    Get(Seq<i64>),
    Write(WriteModel),
    Id(i64),
    Delete(i64),
    Feedback(i64, Seq<char>),
    Update(i64, Option<Seq<char>>, Option<Seq<char>>, Option<Seq<Seq<char>>>, Option<Seq<char>>),
    Audit,
}

/// The validated arguments of an update.
pub open spec fn update_result(args: Option<JsonValue>) -> Result<ValidatedModel, Seq<char>> {
    match key_problem(args, seq!["id"@, "title"@, "body"@, "entities"@, "type"@], seq!["id"@]) {
        Some(m) => Err(m),
        None => if arg_keys(args).len() < 2 {
            Err("除 id 外至少提供 title、body、entities 或 type 中的一项"@)
        } else {
            match id_result(arg(args, "id"@), "id"@) {
                Err(m) => Err(m),
                Ok(id) => {
                    let title = text_or(arg(args, "title"@), "临时标题"@);
                    let body = text_or(arg(args, "body"@), Seq::empty());
                    let entities = json_strings(arg(args, "entities"@));
                    let ty = text_or(arg(args, "type"@), "fact"@);
                    match structured_error(title, body, entities, ty) {
                        Some(m) => Err(m),
                        None => Ok(
                            ValidatedModel::Update(
                                id,
                                if arg(args, "title"@) is Some {
                                    Some(py_strip_seq(title))
                                } else {
                                    None
                                },
                                if arg(args, "body"@) is Some {
                                    Some(join_newline(body_lines_seq(body)))
                                } else {
                                    None
                                },
                                if arg(args, "entities"@) is Some {
                                    Some(canonical_entities_seq(kept_entities(entities)))
                                } else {
                                    None
                                },
                                if arg(args, "type"@) is Some {
                                    Some(ty)
                                } else {
                                    None
                                },
                            ),
                        ),
                    }
                },
            }
        },
    }
}

/// The validated arguments of a call of tool `name`, or the message that
/// refuses it.
pub open spec fn tool_validation(name: Seq<char>, raw: Option<JsonValue>) -> Result<ValidatedModel, Seq<char>> {
    if raw matches Some(a) && !(a is Object) {
        Err("工具参数必须是对象，请按工具说明重新调用"@)
    } else if name == "memory_search"@ {
        match key_problem(raw, seq!["query"@], seq!["query"@]) {
            Some(m) => Err(m),
            None => match text_result(arg(raw, "query"@), "query"@, MAX_QUERY_CHARS) {
                Err(m) => Err(m),
                Ok(q) => Ok(ValidatedModel::Search(q)),
            },
        }
    } else if name == "memory_get"@ {
        match get_result(raw) {
            Err(m) => Err(m),
            Ok(ids) => Ok(ValidatedModel::Get(ids)),
        }
    } else if name == "memory_save"@ || name == "memory_propose"@ {
        match write_result(raw, name == "memory_save"@) {
            Err(m) => Err(m),
            Ok(w) => Ok(ValidatedModel::Write(w)),
        }
    } else if name == "memory_publish"@ || name == "memory_reject"@ || name == "memory_archive"@ {
        match key_problem(raw, seq!["id"@], seq!["id"@]) {
            Some(m) => Err(m),
            None => match id_result(arg(raw, "id"@), "id"@) {
                Err(m) => Err(m),
                Ok(id) => Ok(ValidatedModel::Id(id)),
            },
        }
    } else if name == "memory_delete"@ {
        match key_problem(raw, seq!["id"@, "confirm"@], seq!["id"@, "confirm"@]) {
            Some(m) => Err(m),
            None => if !(arg(raw, "confirm"@) == Some(JsonValue::Bool(true))) {
                Err("删除记忆需要用户明确确认；确认后请传入 confirm=true"@)
            } else {
                match id_result(arg(raw, "id"@), "id"@) {
                    Err(m) => Err(m),
                    Ok(id) => Ok(ValidatedModel::Delete(id)),
                }
            },
        }
    } else if name == "memory_feedback"@ {
        match key_problem(raw, seq!["id"@, "outcome"@], seq!["id"@, "outcome"@]) {
            Some(m) => Err(m),
            None => {
                let outcome = text_or(arg(raw, "outcome"@), Seq::empty());
                if outcome != "correct"@ && outcome != "incorrect"@ {
                    Err("outcome 只能是 correct 或 incorrect"@)
                } else {
                    match id_result(arg(raw, "id"@), "id"@) {
                        Err(m) => Err(m),
                        Ok(id) => Ok(ValidatedModel::Feedback(id, outcome)),
                    }
                }
            },
        }
    } else if name == "memory_update"@ {
        update_result(raw)
    } else if name == "memory_audit"@ {
        match key_problem(raw, Seq::empty(), Seq::empty()) {
            Some(m) => Err(m),
            None => Ok(ValidatedModel::Audit),
        }
    } else {
        Err("未知工具 "@ + name)
    }
}


/// Arguments of a save or proposal.
pub struct WriteArgs {
    pub title: String,
    pub body: String,
    pub entities: Vec<String>,
    pub card_type: String,
    pub scope: String,
    pub lock: bool,
}

/// Validated tool arguments.
pub enum Validated {
    Search { query: String },
    Get { ids: Vec<i64> },
    Write(WriteArgs),
    Id { id: i64 },
    Delete { id: i64 },
    Feedback { id: i64, outcome: String },
    Update {
        id: i64,
        title: Option<String>,
        body: Option<String>,
        entities: Option<Vec<String>>,
        card_type: Option<String>,
    },
    Audit,
}

pub open spec fn write_view(w: WriteArgs) -> WriteModel {
    (w.title@, w.body@, views(w.entities@), w.card_type@, w.scope@, w.lock)
}

pub open spec fn opt_string(o: Option<String>) -> Option<Seq<char>> {
    match o {
        Some(s) => Some(s@),
        None => None,
    }
}

pub open spec fn opt_strings(o: Option<Vec<String>>) -> Option<Seq<Seq<char>>> {
    match o {
        Some(v) => Some(views(v@)),
        None => None,
    }
}

/// The plain values of validated arguments.
pub open spec fn validated_view(v: Validated) -> ValidatedModel {
    match v {
        Validated::Search { query } => ValidatedModel::Search(query@),
        Validated::Get { ids } => ValidatedModel::Get(ids@),
        Validated::Write(w) => ValidatedModel::Write(write_view(w)),
        Validated::Id { id } => ValidatedModel::Id(id),
        Validated::Delete { id } => ValidatedModel::Delete(id),
        Validated::Feedback { id, outcome } => ValidatedModel::Feedback(id, outcome@),
        Validated::Update { id, title, body, entities, card_type } => ValidatedModel::Update(
            id,
            opt_string(title),
            opt_string(body),
            opt_strings(entities),
            opt_string(card_type),
        ),
        Validated::Audit => ValidatedModel::Audit,
    }
}

/// The error of a refused tool call.
fn tool_input(m: &[char]) -> (e: Error)
    ensures
        e matches Error::Core(x) && x@ == tool_input_text(m@),
{
    let mut v: Vec<char> = Vec::new();
    v.push('\u{1}');
    crate::chars::extend_chars(&mut v, m);
    proof {
        reveal_strlit("\u{1}");
    }
    assert(v@ =~= tool_input_text(m@));
    Error::Core(from_chars(&v))
}

/// Inserting at position `j` is inserting in byte order.
proof fn lemma_insert_text_at(sorted: Seq<Seq<char>>, x: Seq<char>, j: int)
    requires
        0 <= j <= sorted.len(),
        forall|k: int| j <= k < sorted.len() ==> seq_lt(x, #[trigger] sorted[k]),
        j > 0 ==> !seq_lt(x, sorted[j - 1]),
    ensures
        insert_text(sorted, x) == sorted.take(j).push(x) + sorted.skip(j),
    decreases sorted.len(),
{
    if sorted.len() == 0 {
        assert(sorted.take(j).push(x) + sorted.skip(j) =~= seq![x]);
    } else if j == sorted.len() {
        assert(sorted.take(j).push(x) + sorted.skip(j) =~= sorted.push(x));
    } else {
        lemma_insert_text_at(sorted.drop_last(), x, j);
        assert(sorted.drop_last().take(j) =~= sorted.take(j));
        assert((sorted.take(j).push(x) + sorted.drop_last().skip(j)).push(sorted.last()) =~= sorted.take(j).push(x)
            + sorted.skip(j));
    }
}

/// Texts in byte order.
fn sort_strings(items: Vec<String>) -> (r: Vec<String>)
    ensures
        views(r@) == sort_texts(views(items@)),
{
    let ghost iv = views(items@);
    let n = items.len();
    let mut rest = items;
    let mut sorted: Vec<String> = Vec::new();
    let mut i: usize = 0;
    while rest.len() > 0
        invariant
            i <= n,
            iv.len() == n,
            rest@.len() == n - i,
            views(rest@) == iv.skip(i as int),
            views(sorted@) == sort_texts(iv.take(i as int)),
        decreases rest.len(),
    {
        let ghost rv = rest@;
        let item = rest.remove(0);
        assert(views(rest@) =~= iv.skip(i + 1)) by {
            assert(rest@ =~= rv.skip(1));
            assert forall|k: int| 0 <= k < rest@.len() implies #[trigger] views(rest@)[k] == iv.skip(i + 1)[k] by {
                assert(views(rest@)[k] == views(rv)[k + 1]);
            }
        }
        assert(item@ == iv[i as int]) by {
            assert(views(rv)[0] == iv.skip(i as int)[0]);
        }
        let ghost before = views(sorted@);
        let key = to_chars(item.as_str());
        let mut j = sorted.len();
        while j > 0 && chars_lt(&key, &to_chars(sorted[j - 1].as_str()))
            invariant
                j <= sorted@.len(),
                key@ == item@,
                before == views(sorted@),
                forall|k: int| j <= k < before.len() ==> seq_lt(item@, #[trigger] before[k]),
            decreases j,
        {
            j = j - 1;
        }
        proof {
            lemma_insert_text_at(before, item@, j as int);
            assert(iv.take(i + 1).drop_last() =~= iv.take(i as int));
            assert(iv.take(i + 1).last() == iv[i as int]);
        }
        sorted.insert(j, item);
        assert(views(sorted@) =~= before.take(j as int).push(item@) + before.skip(j as int));
        i = i + 1;
    }
    assert(iv.take(n as int) =~= iv);
    sorted
}

/// Texts joined by `sep`.
fn join_strings(items: &Vec<String>, sep: &str) -> (r: Vec<char>)
    ensures
        r@ == join_texts(views(items@), sep@),
{
    let ghost iv = views(items@);
    let mut out: Vec<char> = Vec::new();
    let mut i: usize = 0;
    while i < items.len()
        invariant
            i <= items@.len(),
            iv == views(items@),
            out@ == join_texts(iv.take(i as int), sep@),
        decreases items.len() - i,
    {
        if i > 0 {
            extend_str(&mut out, sep);
        }
        extend_str(&mut out, items[i].as_str());
        assert(iv.take(i + 1).drop_last() =~= iv.take(i as int));
        assert(iv.take(i + 1).last() == items@[i as int]@);
        if i == 0 {
            assert(iv.take(1)[0] == items@[0]@);
        }
        assert(out@ =~= join_texts(iv.take(i + 1), sep@));
        i = i + 1;
    }
    assert(iv.take(items.len() as int) =~= iv);
    out
}

/// Whether `x` is one of the texts.
fn listed_str(list: &Vec<&str>, x: &str) -> (r: bool)
    ensures
        r == strs(list@).contains(x@),
{
    let mut i: usize = 0;
    while i < list.len()
        invariant
            i <= list@.len(),
            forall|k: int| 0 <= k < i ==> list@[k]@ != x@,
        decreases list.len() - i,
    {
        if str_eq(list[i], x) {
            assert(strs(list@)[i as int] == x@);
            return true;
        }
        i = i + 1;
    }
    proof {
        if strs(list@).contains(x@) {
            let k = choose|k: int| 0 <= k < strs(list@).len() && strs(list@)[k] == x@;
            assert(list@[k]@ == x@);
        }
    }
    false
}

/// Whether `x` is one of the strings.
fn listed_string(list: &Vec<String>, x: &str) -> (r: bool)
    ensures
        r == views(list@).contains(x@),
{
    let mut i: usize = 0;
    while i < list.len()
        invariant
            i <= list@.len(),
            forall|k: int| 0 <= k < i ==> list@[k]@ != x@,
        decreases list.len() - i,
    {
        if str_eq(list[i].as_str(), x) {
            assert(views(list@)[i as int] == x@);
            return true;
        }
        i = i + 1;
    }
    proof {
        if views(list@).contains(x@) {
            let k = choose|k: int| 0 <= k < views(list@).len() && views(list@)[k] == x@;
            assert(list@[k]@ == x@);
        }
    }
    false
}

/// The member `key` of the arguments.
fn arg_of<'a>(args: Option<&'a JsonValue>, key: &str) -> (r: Option<&'a JsonValue>)
    ensures
        deref_opt(r) == arg(deref_opt(args), key@),
{
    match args {
        Some(a) => a.get(key),
        None => None,
    }
}

/// The keys of the arguments.
fn keys_of_args(args: Option<&JsonValue>) -> (r: Vec<String>)
    ensures
        views(r@) == arg_keys(deref_opt(args)),
{
    match args {
        Some(a) => a.keys(),
        None => {
            let v: Vec<String> = Vec::new();
            assert(views(v@) =~= Seq::<Seq<char>>::empty());
            v
        },
    }
}

/// The text of a string member.
fn str_of<'a>(v: Option<&'a JsonValue>) -> (r: Option<&'a str>)
    ensures
        opt_text(r) == json_str(deref_opt(v)),
{
    match v {
        Some(JsonValue::Str(s)) => Some(s.as_str()),
        _ => None,
    }
}

/// The complaint about unsupported or missing keys, if any.
fn key_problem_of(args: Option<&JsonValue>, allowed: &Vec<&str>, required: &Vec<&str>) -> (r: Option<Vec<char>>)
    ensures
        match key_problem(deref_opt(args), strs(allowed@), strs(required@)) {
            Some(m) => r matches Some(x) && x@ == m,
            None => r is None,
        },
{
    let keys = keys_of_args(args);
    let ghost kv = views(keys@);
    let ghost al = strs(allowed@);
    let ghost rq = strs(required@);
    let mut extra: Vec<String> = Vec::new();
    let mut i: usize = 0;
    while i < keys.len()
        invariant
            i <= keys@.len(),
            kv == views(keys@),
            al == strs(allowed@),
            views(extra@) == kv.take(i as int).filter(|k: Seq<char>| !al.contains(k)),
        decreases keys.len() - i,
    {
        proof {
            reveal(Seq::filter);
            assert(kv.take(i + 1) =~= kv.take(i as int).push(kv[i as int]));
            assert(kv.take(i + 1).drop_last() =~= kv.take(i as int));
        }
        if !listed_str(allowed, keys[i].as_str()) {
            let ghost prev = extra@;
            extra.push(keys[i].clone());
            assert(views(extra@) =~= views(prev).push(kv[i as int]));
        }
        i = i + 1;
    }
    assert(kv.take(keys.len() as int) =~= kv);
    let extra = sort_strings(extra);
    if extra.len() > 0 {
        let mut m: Vec<char> = Vec::new();
        extend_str(&mut m, "不支持参数 ");
        let joined = join_strings(&extra, ", ");
        crate::chars::extend_chars(&mut m, &joined);
        extend_str(&mut m, "；请移除后重试");
        return Some(m);
    }
    let mut missing: Vec<String> = Vec::new();
    let mut i: usize = 0;
    while i < required.len()
        invariant
            i <= required@.len(),
            kv == views(keys@),
            rq == strs(required@),
            views(missing@) == rq.take(i as int).filter(|k: Seq<char>| !kv.contains(k)),
        decreases required.len() - i,
    {
        proof {
            reveal(Seq::filter);
            assert(rq.take(i + 1) =~= rq.take(i as int).push(rq[i as int]));
            assert(rq.take(i + 1).drop_last() =~= rq.take(i as int));
        }
        if !listed_string(&keys, required[i]) {
            let ghost prev = missing@;
            missing.push(String::from_str(required[i]));
            assert(views(missing@) =~= views(prev).push(rq[i as int]));
        }
        i = i + 1;
    }
    assert(rq.take(required.len() as int) =~= rq);
    let missing = sort_strings(missing);
    if missing.len() > 0 {
        let mut m: Vec<char> = Vec::new();
        extend_str(&mut m, "缺少必填参数 ");
        let joined = join_strings(&missing, ", ");
        crate::chars::extend_chars(&mut m, &joined);
        extend_str(&mut m, "；请补充后重试");
        return Some(m);
    }
    None
}

fn names(list: &[&'static str]) -> (r: Vec<&'static str>)
    ensures
        r@ == list@,
{
    let mut v: Vec<&'static str> = Vec::new();
    let mut i: usize = 0;
    while i < list.len()
        invariant
            i <= list@.len(),
            v@ == list@.take(i as int),
        decreases list.len() - i,
    {
        v.push(list[i]);
        assert(v@ =~= list@.take(i + 1));
        i = i + 1;
    }
    assert(list@.take(list.len() as int) =~= list@);
    v
}

/// A memory id: an integer from 1 to the largest public id.
fn positive_id(v: Option<&JsonValue>, label: &str) -> (r: Result<i64, Error>)
    ensures
        match id_result(deref_opt(v), label@) {
            Ok(x) => r == Ok::<i64, Error>(x),
            Err(m) => r matches Err(Error::Core(x)) && x@ == tool_input_text(m),
        },
{
    let mut bad: Vec<char> = Vec::new();
    extend_str(&mut bad, label);
    extend_str(&mut bad, " 必须是大于等于 1 的整数记忆编号");
    let mut over: Vec<char> = Vec::new();
    extend_str(&mut over, label);
    extend_str(&mut over, " 超过安全上限 9007199254740991");
    match v {
        Some(JsonValue::Int(x)) => {
            if *x < 1 {
                Err(tool_input(&bad))
            } else if *x > MAX_PUBLIC_ID {
                Err(tool_input(&over))
            } else {
                Ok(*x)
            }
        },
        Some(JsonValue::Float { whole_above_max_id }) => {
            if *whole_above_max_id {
                Err(tool_input(&over))
            } else {
                Err(tool_input(&bad))
            }
        },
        _ => Err(tool_input(&bad)),
    }
}

/// A required, non-empty text of at most `max` characters, trimmed.
fn required_string(v: Option<&JsonValue>, label: &str, max: usize) -> (r: Result<String, Error>)
    ensures
        match text_result(deref_opt(v), label@, max) {
            Ok(t) => r matches Ok(x) && x@ == t,
            Err(m) => r matches Err(Error::Core(x)) && x@ == tool_input_text(m),
        },
{
    let text = match str_of(v) {
        Some(t) => t,
        None => {
            let mut m: Vec<char> = Vec::new();
            extend_str(&mut m, label);
            extend_str(&mut m, " 必须是字符串");
            return Err(tool_input(&m));
        },
    };
    let n = trim_chars(&to_chars(text));
    if n.len() == 0 {
        let mut m: Vec<char> = Vec::new();
        extend_str(&mut m, label);
        extend_str(&mut m, " 不能为空");
        return Err(tool_input(&m));
    }
    if n.len() > max {
        let mut m: Vec<char> = Vec::new();
        extend_str(&mut m, label);
        extend_str(&mut m, " 最多 ");
        push_decimal(&mut m, max as u64);
        extend_str(&mut m, " 个字符");
        assert(int_text(max as int) == crate::chars::decimal(max as nat));
        return Err(tool_input(&m));
    }
    Ok(from_chars(&n))
}

/// The strings of an optional list value.
fn strings_of(v: Option<&JsonValue>) -> (r: Vec<String>)
    ensures
        views(r@) == json_strings(deref_opt(v)),
{
    let mut out: Vec<String> = Vec::new();
    match v {
        Some(JsonValue::Array(items)) => {
            let mut i: usize = 0;
            while i < items.len()
                invariant
                    i <= items@.len(),
                    views(out@) == strings_in(items@.take(i as int)),
                decreases items.len() - i,
            {
                assert(items@.take(i + 1).drop_last() =~= items@.take(i as int));
                assert(items@.take(i + 1).last() == items@[i as int]);
                match &items[i] {
                    JsonValue::Str(s) => {
                        let ghost prev = out@;
                        out.push(s.clone());
                        assert(views(out@) =~= views(prev).push(s@));
                    },
                    _ => {},
                }
                i = i + 1;
            }
            assert(items@.take(items.len() as int) =~= items@);
        },
        _ => {
            assert(views(out@) =~= Seq::<Seq<char>>::empty());
        },
    }
    out
}

/// The text of a string member, or a default.
fn str_or<'a>(v: Option<&'a JsonValue>, d: &'a str) -> (r: &'a str)
    ensures
        r@ == text_or(deref_opt(v), d@),
{
    match str_of(v) {
        Some(t) => t,
        None => d,
    }
}

/// Maps a content error onto a refused tool call.
fn content_error(e: Error) -> (r: Error)
    ensures
        e matches Error::Core(m) ==> r matches Error::Core(x) && x@ == tool_input_text(m@),
{
    match e {
        Error::Core(m) => tool_input(&to_chars(m.as_str())),
        other => other,
    }
}

/// The validated arguments of a save (`allow_lock`) or a proposal.
fn common_write_args(args: Option<&JsonValue>, allow_lock: bool) -> (r: Result<WriteArgs, Error>)
    ensures
        match write_result(deref_opt(args), allow_lock) {
            Ok(w) => r matches Ok(x) && write_view(x) == w,
            Err(m) => r matches Err(Error::Core(x)) && x@ == tool_input_text(m),
        },
{
    let allowed = if allow_lock {
        names(&["title", "body", "entities", "type", "scope", "lock"])
    } else {
        names(&["title", "body", "entities", "type", "scope"])
    };
    let required = names(&["title", "scope"]);
    assert(strs(allowed@) =~= write_keys(allow_lock));
    assert(strs(required@) =~= seq!["title"@, "scope"@]);
    if let Some(m) = key_problem_of(args, &allowed, &required) {
        return Err(tool_input(&m));
    }
    let title = str_or(arg_of(args, "title"), "");
    let body = str_or(arg_of(args, "body"), "");
    let entities = strings_of(arg_of(args, "entities"));
    let ty = str_or(arg_of(args, "type"), "fact");
    proof {
        reveal_strlit("");
        assert(""@ =~= Seq::<char>::empty());
    }
    let (t, lines, es, card_type) = match normalize_structured_content(title, body, &entities, ty) {
        Ok(v) => v,
        Err(e) => {
            return Err(content_error(e));
        },
    };
    let scope = str_or(arg_of(args, "scope"), "");
    assert(structured_error(title@, body@, views(entities@), ty@) is None);
    assert(key_problem(deref_opt(args), write_keys(allow_lock), seq!["title"@, "scope"@]) is None);
    if !str_eq(scope, "global") && !str_eq(scope, "project") {
        assert(write_result(deref_opt(args), allow_lock) == Err::<WriteModel, Seq<char>>("scope 只能是 global 或 project"@));
        return Err(tool_input(&to_chars("scope 只能是 global 或 project")));
    }
    let lock = if allow_lock {
        match arg_of(args, "lock") {
            None => false,
            Some(JsonValue::Bool(b)) => *b,
            _ => {
                return Err(tool_input(&to_chars("lock 必须是布尔值")));
            },
        }
    } else {
        false
    };
    Ok(WriteArgs { title: t, body: joined_lines(&lines), entities: es, card_type, scope: String::from_str(scope), lock })
}

/// The validated ids of a fetch.
fn get_ids(args: Option<&JsonValue>) -> (r: Result<Vec<i64>, Error>)
    ensures
        match get_result(deref_opt(args)) {
            Ok(ids) => r matches Ok(x) && x@ == ids,
            Err(m) => r matches Err(Error::Core(x)) && x@ == tool_input_text(m),
        },
{
    let listed = names(&["ids"]);
    assert(strs(listed@) =~= seq!["ids"@]);
    if let Some(m) = key_problem_of(args, &listed, &listed) {
        return Err(tool_input(&m));
    }
    let items = match arg_of(args, "ids") {
        Some(JsonValue::Array(items)) => items,
        _ => {
            return Err(tool_input(&to_chars("ids 必须包含 1 至 5 个记忆编号")));
        },
    };
    if items.len() == 0 || items.len() > GET_MAX_IDS {
        return Err(tool_input(&to_chars("ids 必须包含 1 至 5 个记忆编号")));
    }
    let mut ids: Vec<i64> = Vec::new();
    let mut i: usize = 0;
    while i < items.len()
        invariant
            i <= items@.len(),
            key_problem(deref_opt(args), seq!["ids"@], seq!["ids"@]) is None,
            arg(deref_opt(args), "ids"@) == Some(JsonValue::Array(*items)),
            !(items@.len() == 0 || items@.len() > GET_MAX_IDS),
            ids_of(items@.take(i as int)) == Ok::<Seq<i64>, Seq<char>>(ids@),
        decreases items.len() - i,
    {
        assert(items@.take(i + 1).drop_last() =~= items@.take(i as int));
        assert(items@.take(i + 1).last() == items@[i as int]);
        match positive_id(Some(&items[i]), "ids 中的编号") {
            Ok(x) => {
                ids.push(x);
            },
            Err(e) => {
                proof {
                    assert(ids_of(items@.take(i + 1)) is Err);
                    lemma_ids_of_err(items@, i + 1);
                    assert(get_result(deref_opt(args)) == ids_of(items@));
                }
                return Err(e);
            },
        }
        i = i + 1;
    }
    assert(items@.take(items.len() as int) =~= items@);
    let ghost all = ids@;
    assert(ids_of(items@) == Ok::<Seq<i64>, Seq<char>>(all));
    assert(get_result(deref_opt(args)) == (if all.no_duplicates() {
        Ok::<Seq<i64>, Seq<char>>(all)
    } else {
        Err("ids 不能包含重复编号"@)
    }));
    let mut a: usize = 0;
    while a < ids.len()
        invariant
            a <= ids@.len(),
            ids@ == all,
            get_result(deref_opt(args)) == (if all.no_duplicates() {
                Ok::<Seq<i64>, Seq<char>>(all)
            } else {
                Err("ids 不能包含重复编号"@)
            }),
            forall|x: int, y: int| 0 <= x < a && 0 <= y < ids@.len() && x != y ==> ids@[x] != ids@[y],
        decreases ids.len() - a,
    {
        let mut b: usize = 0;
        while b < ids.len()
            invariant
                a < ids@.len(),
                b <= ids@.len(),
                ids@ == all,
                get_result(deref_opt(args)) == (if all.no_duplicates() {
                Ok::<Seq<i64>, Seq<char>>(all)
            } else {
                Err("ids 不能包含重复编号"@)
            }),
                forall|x: int, y: int| 0 <= x < a && 0 <= y < ids@.len() && x != y ==> ids@[x] != ids@[y],
                forall|y: int| 0 <= y < b && y != a ==> ids@[a as int] != ids@[y],
            decreases ids.len() - b,
        {
            if b != a && ids[a] == ids[b] {
                proof {
                    if a < b {
                        assert(ids@[a as int] == ids@[b as int]);
                    } else {
                        assert(ids@[b as int] == ids@[a as int]);
                    }
                    assert(!ids@.no_duplicates());
                }
                return Err(tool_input(&to_chars("ids 不能包含重复编号")));
            }
            b = b + 1;
        }
        a = a + 1;
    }
    assert(ids@.no_duplicates());
    Ok(ids)
}

/// A failure among the first `m` items stays a failure.
proof fn lemma_ids_of_err(items: Seq<JsonValue>, m: int)
    requires
        0 <= m <= items.len(),
        ids_of(items.take(m)) is Err,
    ensures
        ids_of(items) == ids_of(items.take(m)),
    decreases items.len() - m,
{
    if m < items.len() {
        assert(items.take(m + 1).drop_last() =~= items.take(m));
        lemma_ids_of_err(items, m + 1);
    } else {
        assert(items.take(m) =~= items);
    }
}

/// The validated arguments of an update.
fn update_args(args: Option<&JsonValue>) -> (r: Result<Validated, Error>)
    ensures
        match update_result(deref_opt(args)) {
            Ok(v) => r matches Ok(x) && validated_view(x) == v,
            Err(m) => r matches Err(Error::Core(x)) && x@ == tool_input_text(m),
        },
{
    let allowed = names(&["id", "title", "body", "entities", "type"]);
    let required = names(&["id"]);
    assert(strs(allowed@) =~= seq!["id"@, "title"@, "body"@, "entities"@, "type"@]);
    assert(strs(required@) =~= seq!["id"@]);
    if let Some(m) = key_problem_of(args, &allowed, &required) {
        return Err(tool_input(&m));
    }
    if keys_of_args(args).len() < 2 {
        return Err(tool_input(&to_chars("除 id 外至少提供 title、body、entities 或 type 中的一项")));
    }
    let id = positive_id(arg_of(args, "id"), "id")?;
    let title = str_or(arg_of(args, "title"), "临时标题");
    let body = str_or(arg_of(args, "body"), "");
    let entities = strings_of(arg_of(args, "entities"));
    let ty = str_or(arg_of(args, "type"), "fact");
    proof {
        reveal_strlit("");
        assert(""@ =~= Seq::<char>::empty());
    }
    let (t, lines, es, card_type) = match normalize_structured_content(title, body, &entities, ty) {
        Ok(v) => v,
        Err(e) => {
            return Err(content_error(e));
        },
    };
    let title_out = if arg_of(args, "title").is_some() {
        Some(t)
    } else {
        None
    };
    let body_out = if arg_of(args, "body").is_some() {
        Some(joined_lines(&lines))
    } else {
        None
    };
    let entities_out = if arg_of(args, "entities").is_some() {
        Some(es)
    } else {
        None
    };
    let type_out = if arg_of(args, "type").is_some() {
        Some(card_type)
    } else {
        None
    };
    Ok(Validated::Update { id, title: title_out, body: body_out, entities: entities_out, card_type: type_out })
}

/// Validates the arguments of a call of tool `name`: an object (or none)
/// with only the keys the tool accepts and all it requires, each value of
/// the expected kind; a refused call names what to correct.
pub fn validate_tool_arguments(name: &str, raw_args: Option<&JsonValue>) -> (r: Result<Validated, Error>)
    ensures
        match tool_validation(name@, deref_opt(raw_args)) {
            Ok(v) => r matches Ok(x) && validated_view(x) == v,
            Err(m) => r matches Err(Error::Core(x)) && x@ == tool_input_text(m),
        },
{
    let args = match raw_args {
        Some(a) => {
            if !a.is_object() {
                return Err(tool_input(&to_chars("工具参数必须是对象，请按工具说明重新调用")));
            }
            Some(a)
        },
        None => None,
    };
    if str_eq(name, "memory_search") {
        let listed = names(&["query"]);
        assert(strs(listed@) =~= seq!["query"@]);
        if let Some(m) = key_problem_of(args, &listed, &listed) {
            return Err(tool_input(&m));
        }
        let query = required_string(arg_of(args, "query"), "query", MAX_QUERY_CHARS)?;
        return Ok(Validated::Search { query });
    }
    if str_eq(name, "memory_get") {
        let ids = get_ids(args)?;
        return Ok(Validated::Get { ids });
    }
    if str_eq(name, "memory_save") || str_eq(name, "memory_propose") {
        let w = common_write_args(args, str_eq(name, "memory_save"))?;
        return Ok(Validated::Write(w));
    }
    if str_eq(name, "memory_publish") || str_eq(name, "memory_reject") || str_eq(name, "memory_archive") {
        let listed = names(&["id"]);
        assert(strs(listed@) =~= seq!["id"@]);
        if let Some(m) = key_problem_of(args, &listed, &listed) {
            return Err(tool_input(&m));
        }
        let id = positive_id(arg_of(args, "id"), "id")?;
        return Ok(Validated::Id { id });
    }
    if str_eq(name, "memory_delete") {
        let listed = names(&["id", "confirm"]);
        assert(strs(listed@) =~= seq!["id"@, "confirm"@]);
        if let Some(m) = key_problem_of(args, &listed, &listed) {
            return Err(tool_input(&m));
        }
        let confirmed = match arg_of(args, "confirm") {
            Some(JsonValue::Bool(b)) => *b,
            _ => false,
        };
        if !confirmed {
            return Err(tool_input(&to_chars("删除记忆需要用户明确确认；确认后请传入 confirm=true")));
        }
        let id = positive_id(arg_of(args, "id"), "id")?;
        return Ok(Validated::Delete { id });
    }
    if str_eq(name, "memory_feedback") {
        let listed = names(&["id", "outcome"]);
        assert(strs(listed@) =~= seq!["id"@, "outcome"@]);
        if let Some(m) = key_problem_of(args, &listed, &listed) {
            return Err(tool_input(&m));
        }
        let outcome = str_or(arg_of(args, "outcome"), "");
        proof {
            reveal_strlit("");
            assert(""@ =~= Seq::<char>::empty());
        }
        if !str_eq(outcome, "correct") && !str_eq(outcome, "incorrect") {
            return Err(tool_input(&to_chars("outcome 只能是 correct 或 incorrect")));
        }
        let id = positive_id(arg_of(args, "id"), "id")?;
        return Ok(Validated::Feedback { id, outcome: String::from_str(outcome) });
    }
    if str_eq(name, "memory_update") {
        return update_args(args);
    }
    if str_eq(name, "memory_audit") {
        let listed: Vec<&str> = Vec::new();
        assert(strs(listed@) =~= Seq::<Seq<char>>::empty());
        if let Some(m) = key_problem_of(args, &listed, &listed) {
            return Err(tool_input(&m));
        }
        return Ok(Validated::Audit);
    }
    let mut m: Vec<char> = Vec::new();
    extend_str(&mut m, "未知工具 ");
    extend_str(&mut m, name);
    Err(tool_input(&m))
}

proof fn lemma_insert_text_len(sorted: Seq<Seq<char>>, x: Seq<char>)
    ensures
        insert_text(sorted, x).len() == sorted.len() + 1,
    decreases sorted.len(),
{
    if sorted.len() > 0 && seq_lt(x, sorted.last()) {
        lemma_insert_text_len(sorted.drop_last(), x);
    }
}

proof fn lemma_sort_texts_len(items: Seq<Seq<char>>)
    ensures
        sort_texts(items).len() == items.len(),
    decreases items.len(),
{
    if items.len() > 0 {
        lemma_sort_texts_len(items.drop_last());
        lemma_insert_text_len(sort_texts(items.drop_last()), items.last());
    }
}

/// Locking is available only for an active save: a proposal that passes a
/// `lock` key is refused.
pub proof fn law_lock_only_on_save(args: JsonValue)
    requires
        args is Object,
        crate::json::json_keys(args).contains("lock"@),
    ensures
        tool_validation("memory_propose"@, Some(args)) is Err,
{
    let keys = arg_keys(Some(args));
    let allowed = write_keys(false);
    reveal_strlit("lock");
    reveal_strlit("title");
    reveal_strlit("body");
    reveal_strlit("entities");
    reveal_strlit("type");
    reveal_strlit("scope");
    assert(!allowed.contains("lock"@)) by {
        if allowed.contains("lock"@) {
            let i = choose|i: int| 0 <= i < allowed.len() && allowed[i] == "lock"@;
            assert(allowed[i].len() != 4 || allowed[i][0] != 'l');
        }
    }
    let extra = keys.filter(|k: Seq<char>| !allowed.contains(k));
    let k = choose|k: int| 0 <= k < keys.len() && keys[k] == "lock"@;
    assert(extra.contains("lock"@)) by {
        keys.lemma_filter_contains(|k: Seq<char>| !allowed.contains(k), k);
    }
    lemma_sort_texts_len(extra);
    assert(sort_texts(extra).len() > 0);
    assert(key_problem(Some(args), allowed, seq!["title"@, "scope"@]) is Some);
    assert(write_result(Some(args), false) is Err);
    reveal_strlit("memory_propose");
    reveal_strlit("memory_search");
    reveal_strlit("memory_get");
    reveal_strlit("memory_save");
    assert("memory_propose"@ != "memory_search"@) by {
        assert("memory_propose"@[7] != "memory_search"@[7]);
    }
    assert("memory_propose"@ != "memory_get"@);
    assert("memory_propose"@ != "memory_save"@) by {
        assert("memory_propose"@[7] != "memory_save"@[7]);
    }
}
/// A public card id: at least 1 and at most `MAX_PUBLIC_ID`.
pub open spec fn public_id_check(value: i64) -> Result<i64, Seq<char>> {
    if value < 1 {
        Err("记忆编号必须大于等于 1"@)
    } else if value > MAX_PUBLIC_ID {
        Err("记忆编号超过安全上限 9007199254740991"@)
    } else {
        Ok(value)
    }
}

/// Checks a card id given on the command line.
pub fn public_id(value: i64) -> (r: Result<i64, Error>)
    ensures
        match public_id_check(value) {
            Ok(v) => r == Ok::<i64, Error>(v),
            Err(m) => r matches Err(Error::Core(x)) && x@ == m,
        },
{
    if value < 1 {
        return Err(Error::Core(String::from_str("记忆编号必须大于等于 1")));
    }
    if value > MAX_PUBLIC_ID {
        return Err(Error::Core(String::from_str("记忆编号超过安全上限 9007199254740991")));
    }
    Ok(value)
}

} // verus!
