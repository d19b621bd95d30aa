//! The catalog of MCP tools: names, descriptions and input schemas.

use vstd::prelude::*;

use crate::chars::{from_chars, to_chars};
use crate::json::{json_model, JsonModel, JsonValue};

verus! {

broadcast use vstd::string::group_string_axioms;

/// The plain values of object members.
pub open spec fn pair_models(p: Seq<(String, JsonValue)>) -> Seq<(Seq<char>, JsonModel)> {
    p.map_values(|x: (String, JsonValue)| (x.0@, json_model(x.1)))
}

/// The plain values of array items.
pub open spec fn item_models(p: Seq<JsonValue>) -> Seq<JsonModel> {
    p.map_values(|x: JsonValue| json_model(x))
}

fn string(s: &str) -> (r: JsonValue)
    ensures
        json_model(r) == JsonModel::Str(s@),
{
    JsonValue::Str(from_chars(&to_chars(s)))
}

proof fn lemma_object_model(pv: Seq<(String, JsonValue)>, r: JsonValue)
    requires
        r matches JsonValue::Object(q) && q@ == pv,
    ensures
        json_model(r) == JsonModel::Object(pair_models(pv)),
{
    if let JsonModel::Object(x) = json_model(r) {
        assert(x =~= pair_models(pv));
    }
}

proof fn lemma_array_model(pv: Seq<JsonValue>, r: JsonValue)
    requires
        r matches JsonValue::Array(q) && q@ == pv,
    ensures
        json_model(r) == JsonModel::Array(item_models(pv)),
{
    if let JsonModel::Array(x) = json_model(r) {
        assert(x =~= item_models(pv));
    }
}

fn object(p: Vec<(String, JsonValue)>) -> (r: JsonValue)
    ensures
        json_model(r) == JsonModel::Object(pair_models(p@)),
{
    let ghost pv = p@;
    let r = JsonValue::Object(p);
    proof {
        lemma_object_model(pv, r);
    }
    r
}

fn array(p: Vec<JsonValue>) -> (r: JsonValue)
    ensures
        json_model(r) == JsonModel::Array(item_models(p@)),
{
    let ghost pv = p@;
    let r = JsonValue::Array(p);
    proof {
        lemma_array_model(pv, r);
    }
    r
}

fn new_members() -> (p: Vec<(String, JsonValue)>)
    ensures
        pair_models(p@) == members(),
{
    let p: Vec<(String, JsonValue)> = Vec::new();
    assert(pair_models(p@) =~= members());
    p
}

fn put(p: &mut Vec<(String, JsonValue)>, k: &str, v: JsonValue)
    ensures
        pair_models(final(p)@) == pair_models(old(p)@).push((k@, json_model(v))),
{
    let ghost before = p@;
    let key = from_chars(&to_chars(k));
    p.push((key, v));
    assert(pair_models(p@) =~= pair_models(before).push((k@, json_model(v))));
}

fn push_item(p: &mut Vec<JsonValue>, v: JsonValue)
    ensures
        item_models(final(p)@) == item_models(old(p)@).push(json_model(v)),
{
    let ghost before = p@;
    p.push(v);
    assert(item_models(p@) =~= item_models(before).push(json_model(v)));
}

/// A member list.
pub open spec fn members() -> Seq<(Seq<char>, JsonModel)> {
    Seq::empty()
}

/// A string value.
pub open spec fn s(t: Seq<char>) -> JsonModel {
    JsonModel::Str(t)
}

/// A list of strings.
pub open spec fn strings(ts: Seq<Seq<char>>) -> JsonModel {
    JsonModel::Array(ts.map_values(|t: Seq<char>| JsonModel::Str(t)))
}

fn string_array(ts: &[&str]) -> (r: JsonValue)
    ensures
        json_model(r) == strings(ts@.map_values(|t: &str| t@)),
{
    let mut items: Vec<JsonValue> = Vec::new();
    let mut i: usize = 0;
    while i < ts.len()
        invariant
            i <= ts.len(),
            item_models(items@) == ts@.take(i as int).map_values(|t: &str| t@).map_values(
                |t: Seq<char>| JsonModel::Str(t),
            ),
        decreases ts.len() - i,
    {
        push_item(&mut items, string(ts[i]));
        assert(ts@.take(i + 1).map_values(|t: &str| t@).map_values(|t: Seq<char>| JsonModel::Str(t)) =~= ts@.take(
            i as int,
        ).map_values(|t: &str| t@).map_values(|t: Seq<char>| JsonModel::Str(t)).push(JsonModel::Str(ts@[i as int]@)));
        i = i + 1;
    }
    assert(ts@.take(ts.len() as int) =~= ts@);
    array(items)
}

/// The schema of a memory id.
pub open spec fn id_schema_m() -> JsonModel {
    JsonModel::Object(
        members().push(("type"@, s("integer"@))).push(("minimum"@, JsonModel::Int(1))).push(
            ("maximum"@, JsonModel::Int(crate::MAX_PUBLIC_ID as int)),
        ).push(("description"@, s("正整数记忆编号"@))),
    )
}

fn id_schema() -> (r: JsonValue)
    ensures
        json_model(r) == id_schema_m(),
{
    let mut p = new_members();
    put(&mut p, "type", string("integer"));
    put(&mut p, "minimum", JsonValue::Int(1));
    put(&mut p, "maximum", JsonValue::Int(crate::MAX_PUBLIC_ID));
    put(&mut p, "description", string("正整数记忆编号"));
    object(p)
}

/// The schema of a title.
pub open spec fn title_schema_m() -> JsonModel {
    JsonModel::Object(
        members().push(("type"@, s("string"@))).push(("minLength"@, JsonModel::Int(1))).push(
            ("maxLength"@, JsonModel::Int(crate::MAX_TITLE_CHARS as int)),
        ).push(("pattern"@, s("^[^\\r\\n\\u0000]+$"@))).push(
            ("description"@, s("单行、自足、无需上下文也能理解的标题"@)),
        ),
    )
}

fn title_schema() -> (r: JsonValue)
    ensures
        json_model(r) == title_schema_m(),
{
    let mut p = new_members();
    put(&mut p, "type", string("string"));
    put(&mut p, "minLength", JsonValue::Int(1));
    put(&mut p, "maxLength", JsonValue::Int(crate::MAX_TITLE_CHARS as i64));
    put(&mut p, "pattern", string("^[^\\r\\n\\u0000]+$"));
    put(&mut p, "description", string("单行、自足、无需上下文也能理解的标题"));
    object(p)
}

/// The schema of a body, with the given default and description (none for
/// the update tool, which has no default).
pub open spec fn body_schema_m(with_default: bool, description: Seq<char>) -> JsonModel {
    let head = members().push(("type"@, s("string"@))).push(
        ("maxLength"@, JsonModel::Int(crate::MAX_CARD_BYTES as int)),
    );
    let mid = if with_default {
        head.push(("default"@, s(""@)))
    } else {
        head
    };
    JsonModel::Object(mid.push(("description"@, s(description))))
}

fn body_schema(with_default: bool, description: &str) -> (r: JsonValue)
    ensures
        json_model(r) == body_schema_m(with_default, description@),
{
    let mut p = new_members();
    put(&mut p, "type", string("string"));
    put(&mut p, "maxLength", JsonValue::Int(crate::MAX_CARD_BYTES as i64));
    if with_default {
        put(&mut p, "default", string(""));
    }
    put(&mut p, "description", string(description));
    object(p)
}

/// The schema of an entity list.
pub open spec fn entities_schema_m(with_default: bool, description: Seq<char>) -> JsonModel {
    let item = JsonModel::Object(
        members().push(("type"@, s("string"@))).push(("minLength"@, JsonModel::Int(1))).push(
            ("maxLength"@, JsonModel::Int(crate::MAX_ENTITY_CHARS as int)),
        ).push(("pattern"@, s("^[^,\\r\\n\\u0000]+$"@))),
    );
    let head = members().push(("type"@, s("array"@))).push(("items"@, item)).push(
        ("maxItems"@, JsonModel::Int(crate::MAX_ENTITIES as int)),
    ).push(("uniqueItems"@, JsonModel::Bool(true)));
    let mid = if with_default {
        head.push(("default"@, JsonModel::Array(Seq::empty())))
    } else {
        head
    };
    JsonModel::Object(mid.push(("description"@, s(description))))
}

fn entities_schema(with_default: bool, description: &str) -> (r: JsonValue)
    ensures
        json_model(r) == entities_schema_m(with_default, description@),
{
    let mut ip = new_members();
    put(&mut ip, "type", string("string"));
    put(&mut ip, "minLength", JsonValue::Int(1));
    put(&mut ip, "maxLength", JsonValue::Int(crate::MAX_ENTITY_CHARS as i64));
    put(&mut ip, "pattern", string("^[^,\\r\\n\\u0000]+$"));
    let mut p = new_members();
    put(&mut p, "type", string("array"));
    put(&mut p, "items", object(ip));
    put(&mut p, "maxItems", JsonValue::Int(crate::MAX_ENTITIES as i64));
    put(&mut p, "uniqueItems", JsonValue::Bool(true));
    if with_default {
        put(&mut p, "default", array(Vec::new()));
        assert(item_models(Seq::<JsonValue>::empty()) =~= Seq::<JsonModel>::empty());
    }
    put(&mut p, "description", string(description));
    object(p)
}

/// The schema of a card type.
pub open spec fn type_schema_m(with_default: bool) -> JsonModel {
    let head = members().push(("type"@, s("string"@))).push(
        ("enum"@, strings(seq!["fact"@, "decision"@, "skill"@])),
    );
    let mid = if with_default {
        head.push(("default"@, s("fact"@)))
    } else {
        head
    };
    JsonModel::Object(mid.push(("description"@, s("记忆类型：事实、决策或可复用流程"@))))
}

fn type_schema(with_default: bool) -> (r: JsonValue)
    ensures
        json_model(r) == type_schema_m(with_default),
{
    let mut p = new_members();
    put(&mut p, "type", string("string"));
    let names: [&str; 3] = ["fact", "decision", "skill"];
    let e = string_array(&names);
    assert(names@.map_values(|t: &str| t@) =~= seq!["fact"@, "decision"@, "skill"@]);
    put(&mut p, "enum", e);
    if with_default {
        put(&mut p, "default", string("fact"));
    }
    put(&mut p, "description", string("记忆类型：事实、决策或可复用流程"));
    object(p)
}

/// The schema of a scope.
pub open spec fn scope_schema_m() -> JsonModel {
    JsonModel::Object(
        members().push(("type"@, s("string"@))).push(("enum"@, strings(seq!["global"@, "project"@]))).push(
            ("description"@, s("global 适用于所有项目；project 只适用于当前项目"@)),
        ),
    )
}

fn scope_schema() -> (r: JsonValue)
    ensures
        json_model(r) == scope_schema_m(),
{
    let mut p = new_members();
    put(&mut p, "type", string("string"));
    let names: [&str; 2] = ["global", "project"];
    let e = string_array(&names);
    assert(names@.map_values(|t: &str| t@) =~= seq!["global"@, "project"@]);
    put(&mut p, "enum", e);
    put(&mut p, "description", string("global 适用于所有项目；project 只适用于当前项目"));
    object(p)
}

/// The fields shared by saving and proposing.
pub open spec fn write_fields_m() -> Seq<(Seq<char>, JsonModel)> {
    members().push(("title"@, title_schema_m())).push(
        ("body"@, body_schema_m(true, "可选正文；使用自然语言，可包含段落"@)),
    ).push(("entities"@, entities_schema_m(true, "用于检索的实体名称；不要放句子、逗号或换行"@))).push(
        ("type"@, type_schema_m(true)),
    ).push(("scope"@, scope_schema_m()))
}

fn write_fields() -> (r: Vec<(String, JsonValue)>)
    ensures
        pair_models(r@) == write_fields_m(),
{
    let mut p = new_members();
    put(&mut p, "title", title_schema());
    put(&mut p, "body", body_schema(true, "可选正文；使用自然语言，可包含段落"));
    put(&mut p, "entities", entities_schema(true, "用于检索的实体名称；不要放句子、逗号或换行"));
    put(&mut p, "type", type_schema(true));
    put(&mut p, "scope", scope_schema());
    p
}

/// An object schema: its properties, no others, the required names (when
/// there are any) and extra members.
pub open spec fn object_schema_m(
    props: Seq<(Seq<char>, JsonModel)>,
    required: Seq<Seq<char>>,
    extra: Seq<(Seq<char>, JsonModel)>,
) -> JsonModel {
    let head = members().push(("type"@, s("object"@))).push(("properties"@, JsonModel::Object(props))).push(
        ("additionalProperties"@, JsonModel::Bool(false)),
    );
    let mid = if required.len() > 0 {
        head.push(("required"@, strings(required)))
    } else {
        head
    };
    JsonModel::Object(mid + extra)
}

fn object_schema(props: Vec<(String, JsonValue)>, required: &[&str], extra: Vec<(String, JsonValue)>) -> (r: JsonValue)
    ensures
        json_model(r) == object_schema_m(pair_models(props@), required@.map_values(|t: &str| t@), pair_models(extra@)),
{
    let mut p = new_members();
    put(&mut p, "type", string("object"));
    put(&mut p, "properties", object(props));
    put(&mut p, "additionalProperties", JsonValue::Bool(false));
    if required.len() > 0 {
        put(&mut p, "required", string_array(required));
    }
    let ghost mid = p@;
    let ghost ex = extra@;
    let mut extra = extra;
    p.append(&mut extra);
    assert(pair_models(p@) =~= pair_models(mid) + pair_models(ex));
    object(p)
}


/// A tool's annotations: its title and behaviour hints; no tool reaches
/// the open world.
pub open spec fn annotations_m(title: Seq<char>, read_only: bool, destructive: bool, idempotent: bool) -> JsonModel {
    JsonModel::Object(
        members().push(("title"@, s(title))).push(("readOnlyHint"@, JsonModel::Bool(read_only))).push(
            ("destructiveHint"@, JsonModel::Bool(destructive)),
        ).push(("idempotentHint"@, JsonModel::Bool(idempotent))).push(("openWorldHint"@, JsonModel::Bool(false))),
    )
}

fn annotations(title: &str, read_only: bool, destructive: bool, idempotent: bool) -> (r: JsonValue)
    ensures
        json_model(r) == annotations_m(title@, read_only, destructive, idempotent),
{
    let mut p = new_members();
    put(&mut p, "title", string(title));
    put(&mut p, "readOnlyHint", JsonValue::Bool(read_only));
    put(&mut p, "destructiveHint", JsonValue::Bool(destructive));
    put(&mut p, "idempotentHint", JsonValue::Bool(idempotent));
    put(&mut p, "openWorldHint", JsonValue::Bool(false));
    object(p)
}

/// A tool: name, title, description, input schema and annotations.
pub open spec fn tool_m(
    name: Seq<char>,
    title: Seq<char>,
    description: Seq<char>,
    schema: JsonModel,
    read_only: bool,
    destructive: bool,
    idempotent: bool,
) -> JsonModel {
    JsonModel::Object(
        members().push(("name"@, s(name))).push(("title"@, s(title))).push(("description"@, s(description))).push(
            ("inputSchema"@, schema),
        ).push(("annotations"@, annotations_m(title, read_only, destructive, idempotent))),
    )
}

fn tool(
    name: &str,
    title: &str,
    description: &str,
    schema: JsonValue,
    read_only: bool,
    destructive: bool,
    idempotent: bool,
) -> (r: JsonValue)
    ensures
        json_model(r) == tool_m(name@, title@, description@, json_model(schema), read_only, destructive, idempotent),
{
    let mut p = new_members();
    put(&mut p, "name", string(name));
    put(&mut p, "title", string(title));
    put(&mut p, "description", string(description));
    put(&mut p, "inputSchema", schema);
    put(&mut p, "annotations", annotations(title, read_only, destructive, idempotent));
    object(p)
}

/// The input schema of each tool.
pub open spec fn schema_m(kind: int) -> JsonModel {
    let id_only = members().push(("id"@, id_schema_m()));
    if kind == 0 {
        object_schema_m(
            members().push(
                (
                    "query"@,
                    JsonModel::Object(
                        members().push(("type"@, s("string"@))).push(("minLength"@, JsonModel::Int(1))).push(
                            ("maxLength"@, JsonModel::Int(crate::MAX_QUERY_CHARS as int)),
                        ).push(("description"@, s("要回忆的问题或关键词"@))),
                    ),
                ),
            ),
            seq!["query"@],
            members(),
        )
    } else if kind == 1 {
        object_schema_m(
            members().push(
                (
                    "ids"@,
                    JsonModel::Object(
                        members().push(("type"@, s("array"@))).push(("items"@, id_schema_m())).push(
                            ("minItems"@, JsonModel::Int(1)),
                        ).push(("maxItems"@, JsonModel::Int(crate::GET_MAX_IDS as int))).push(
                            ("uniqueItems"@, JsonModel::Bool(true)),
                        ).push(("description"@, s("要读取的记忆编号，保持需要的顺序"@))),
                    ),
                ),
            ),
            seq!["ids"@],
            members(),
        )
    } else if kind == 2 {
        object_schema_m(
            write_fields_m().push(
                (
                    "lock"@,
                    JsonModel::Object(
                        members().push(("type"@, s("boolean"@))).push(("default"@, JsonModel::Bool(false))).push(
                            ("description"@, s("用户要求牢牢记住且不得被自动削弱时设为 true"@)),
                        ),
                    ),
                ),
            ),
            seq!["title"@, "scope"@],
            members(),
        )
    } else if kind == 3 {
        object_schema_m(write_fields_m(), seq!["title"@, "scope"@], members())
    } else if kind == 4 {
        object_schema_m(id_only, seq!["id"@], members())
    } else if kind == 5 {
        object_schema_m(
            id_only.push(
                (
                    "outcome"@,
                    JsonModel::Object(
                        members().push(("type"@, s("string"@))).push(
                            ("enum"@, strings(seq!["correct"@, "incorrect"@])),
                        ).push(("description"@, s("记忆内容被证实正确或不正确"@))),
                    ),
                ),
            ),
            seq!["id"@, "outcome"@],
            members(),
        )
    } else if kind == 6 {
        object_schema_m(
            id_only.push(("title"@, title_schema_m())).push(
                ("body"@, body_schema_m(false, "新正文；空字符串表示清空正文"@)),
            ).push(("entities"@, entities_schema_m(false, "新实体列表；空数组表示清空实体"@))).push(
                ("type"@, type_schema_m(false)),
            ),
            seq!["id"@],
            members().push(("minProperties"@, JsonModel::Int(2))),
        )
    } else if kind == 7 {
        object_schema_m(
            id_only.push(
                (
                    "confirm"@,
                    JsonModel::Object(
                        members().push(("type"@, s("boolean"@))).push(("const"@, JsonModel::Bool(true))).push(
                            ("description"@, s("只有用户已明确确认删除时才能为 true"@)),
                        ),
                    ),
                ),
            ),
            seq!["id"@, "confirm"@],
            members(),
        )
    } else {
        object_schema_m(members(), Seq::empty(), members())
    }
}


fn query_field() -> (r: JsonValue)
    ensures
        json_model(r) == JsonModel::Object(
            members().push(("type"@, s("string"@))).push(("minLength"@, JsonModel::Int(1))).push(
                ("maxLength"@, JsonModel::Int(crate::MAX_QUERY_CHARS as int)),
            ).push(("description"@, s("要回忆的问题或关键词"@))),
        ),
{
    let mut p = new_members();
    put(&mut p, "type", string("string"));
    put(&mut p, "minLength", JsonValue::Int(1));
    put(&mut p, "maxLength", JsonValue::Int(crate::MAX_QUERY_CHARS as i64));
    put(&mut p, "description", string("要回忆的问题或关键词"));
    object(p)
}

fn schema(kind: usize) -> (r: JsonValue)
    requires
        kind <= 8,
    ensures
        json_model(r) == schema_m(kind as int),
{
    let mut props = new_members();
    if kind == 0 {
        put(&mut props, "query", query_field());
        let req: [&str; 1] = ["query"];
        assert(req@.map_values(|t: &str| t@) =~= seq!["query"@]);
        return object_schema(props, &req, new_members());
    }
    if kind == 1 {
        let mut f = new_members();
        put(&mut f, "type", string("array"));
        put(&mut f, "items", id_schema());
        put(&mut f, "minItems", JsonValue::Int(1));
        put(&mut f, "maxItems", JsonValue::Int(crate::GET_MAX_IDS as i64));
        put(&mut f, "uniqueItems", JsonValue::Bool(true));
        put(&mut f, "description", string("要读取的记忆编号，保持需要的顺序"));
        put(&mut props, "ids", object(f));
        let req: [&str; 1] = ["ids"];
        assert(req@.map_values(|t: &str| t@) =~= seq!["ids"@]);
        return object_schema(props, &req, new_members());
    }
    if kind == 2 || kind == 3 {
        let mut w = write_fields();
        if kind == 2 {
            let mut f = new_members();
            put(&mut f, "type", string("boolean"));
            put(&mut f, "default", JsonValue::Bool(false));
            put(&mut f, "description", string("用户要求牢牢记住且不得被自动削弱时设为 true"));
            put(&mut w, "lock", object(f));
        }
        let req: [&str; 2] = ["title", "scope"];
        assert(req@.map_values(|t: &str| t@) =~= seq!["title"@, "scope"@]);
        return object_schema(w, &req, new_members());
    }
    if kind == 8 {
        let req: [&str; 0] = [];
        assert(req@.map_values(|t: &str| t@) =~= Seq::<Seq<char>>::empty());
        return object_schema(props, &req, new_members());
    }
    put(&mut props, "id", id_schema());
    if kind == 4 {
        let req: [&str; 1] = ["id"];
        assert(req@.map_values(|t: &str| t@) =~= seq!["id"@]);
        return object_schema(props, &req, new_members());
    }
    if kind == 5 {
        let mut f = new_members();
        put(&mut f, "type", string("string"));
        let names: [&str; 2] = ["correct", "incorrect"];
        let e = string_array(&names);
        assert(names@.map_values(|t: &str| t@) =~= seq!["correct"@, "incorrect"@]);
        put(&mut f, "enum", e);
        put(&mut f, "description", string("记忆内容被证实正确或不正确"));
        put(&mut props, "outcome", object(f));
        let req: [&str; 2] = ["id", "outcome"];
        assert(req@.map_values(|t: &str| t@) =~= seq!["id"@, "outcome"@]);
        return object_schema(props, &req, new_members());
    }
    if kind == 6 {
        put(&mut props, "title", title_schema());
        put(&mut props, "body", body_schema(false, "新正文；空字符串表示清空正文"));
        put(&mut props, "entities", entities_schema(false, "新实体列表；空数组表示清空实体"));
        put(&mut props, "type", type_schema(false));
        let mut extra = new_members();
        put(&mut extra, "minProperties", JsonValue::Int(2));
        let req: [&str; 1] = ["id"];
        assert(req@.map_values(|t: &str| t@) =~= seq!["id"@]);
        return object_schema(props, &req, extra);
    }
    let mut f = new_members();
    put(&mut f, "type", string("boolean"));
    put(&mut f, "const", JsonValue::Bool(true));
    put(&mut f, "description", string("只有用户已明确确认删除时才能为 true"));
    put(&mut props, "confirm", object(f));
    let req: [&str; 2] = ["id", "confirm"];
    assert(req@.map_values(|t: &str| t@) =~= seq!["id"@, "confirm"@]);
    object_schema(props, &req, new_members())
}

/// The tools the server offers, in order, with their schemas and hints.
pub open spec fn tool_catalog() -> JsonModel {
    JsonModel::Array(
        Seq::<JsonModel>::empty()
        .push(tool_m("memory_search"@, "搜索记忆"@, "按自然语言问题搜索已发布记忆，最多返回 5 条简短结果；需要正文时再读取。"@, schema_m(0), true, false, true))
        .push(tool_m("memory_get"@, "读取记忆"@, "按搜索结果中的编号读取完整记忆；单次读取 1 至 5 条。读取会更新最近使用日期。"@, schema_m(1), false, false, false))
        .push(tool_m("memory_save"@, "保存记忆"@, "仅在用户以任何语言明确表达长期保存意图时保存正式记忆；不限定关键词，必须明确全局或当前项目范围。"@, schema_m(2), false, false, true))
        .push(tool_m("memory_propose"@, "提议记忆"@, "仅当用户明确要求先存为候选时写入；不得由 AI 主动创建。候选不会进入默认检索与雷达。"@, schema_m(3), false, false, true))
        .push(tool_m("memory_publish"@, "发布候选"@, "把一条候选记忆发布为正式记忆；重复发布不会产生额外变更。"@, schema_m(4), false, false, true))
        .push(tool_m("memory_reject"@, "丢弃候选"@, "丢弃候选记忆的正文并保留墓碑；重复丢弃不会产生额外变更。"@, schema_m(4), false, true, true))
        .push(tool_m("memory_feedback"@, "记录反馈"@, "只有在使用记忆后获得明确对错证据时记录结果；不要凭感觉调用。"@, schema_m(5), false, true, false))
        .push(tool_m("memory_update"@, "更新记忆"@, "按字段修改正式记忆；未提供的字段保持不变，空正文或空实体数组表示明确清空。"@, schema_m(6), false, true, true))
        .push(tool_m("memory_archive"@, "归档记忆"@, "归档正式记忆，使其退出默认检索与雷达但保留内容；重复归档不会产生额外变更。"@, schema_m(4), false, true, true))
        .push(tool_m("memory_delete"@, "删除记忆"@, "把记忆改成不含正文的墓碑；必须明确传入 confirm=true。"@, schema_m(7), false, true, true))
        .push(tool_m("memory_audit"@, "检查记忆"@, "检查待审候选、长期未使用记忆和可能冲突，返回可读摘要，不修改数据。"@, schema_m(8), true, false, true)),
    )
}

/// The catalog of tools.
pub fn tools() -> (r: JsonValue)
    ensures
        json_model(r) == tool_catalog(),
{
    let mut list: Vec<JsonValue> = Vec::new();
    assert(item_models(list@) =~= Seq::<JsonModel>::empty());
    push_item(&mut list, tool("memory_search", "搜索记忆", "按自然语言问题搜索已发布记忆，最多返回 5 条简短结果；需要正文时再读取。", schema(0), true, false, true));
    push_item(&mut list, tool("memory_get", "读取记忆", "按搜索结果中的编号读取完整记忆；单次读取 1 至 5 条。读取会更新最近使用日期。", schema(1), false, false, false));
    push_item(&mut list, tool("memory_save", "保存记忆", "仅在用户以任何语言明确表达长期保存意图时保存正式记忆；不限定关键词，必须明确全局或当前项目范围。", schema(2), false, false, true));
    push_item(&mut list, tool("memory_propose", "提议记忆", "仅当用户明确要求先存为候选时写入；不得由 AI 主动创建。候选不会进入默认检索与雷达。", schema(3), false, false, true));
    push_item(&mut list, tool("memory_publish", "发布候选", "把一条候选记忆发布为正式记忆；重复发布不会产生额外变更。", schema(4), false, false, true));
    push_item(&mut list, tool("memory_reject", "丢弃候选", "丢弃候选记忆的正文并保留墓碑；重复丢弃不会产生额外变更。", schema(4), false, true, true));
    push_item(&mut list, tool("memory_feedback", "记录反馈", "只有在使用记忆后获得明确对错证据时记录结果；不要凭感觉调用。", schema(5), false, true, false));
    push_item(&mut list, tool("memory_update", "更新记忆", "按字段修改正式记忆；未提供的字段保持不变，空正文或空实体数组表示明确清空。", schema(6), false, true, true));
    push_item(&mut list, tool("memory_archive", "归档记忆", "归档正式记忆，使其退出默认检索与雷达但保留内容；重复归档不会产生额外变更。", schema(4), false, true, true));
    push_item(&mut list, tool("memory_delete", "删除记忆", "把记忆改成不含正文的墓碑；必须明确传入 confirm=true。", schema(7), false, true, true));
    push_item(&mut list, tool("memory_audit", "检查记忆", "检查待审候选、长期未使用记忆和可能冲突，返回可读摘要，不修改数据。", schema(8), true, false, true));
    array(list)
}

} // verus!
