//! The MCP session: protocol negotiation, client roots and the routing of
//! requests.

use vstd::prelude::*;

use crate::chars::{from_chars, int_text, is_prefix, push_int, str_eq, to_chars};
use crate::textops::{digit_run, lemma_digit_run_at, lemma_digit_run_bound};
use crate::json::{deref_opt, json_get, json_str, JsonValue};
use crate::pyregex::{is_match, regex_is_match};
use crate::Error;

verus! {

broadcast use vstd::string::group_string_axioms;

/// The newest protocol version the server speaks.
pub const LATEST_PROTOCOL_VERSION: &'static str = "2025-11-25";

/// The older protocol version the server still speaks.
pub const PREVIOUS_PROTOCOL_VERSION: &'static str = "2025-06-18";

/// The version agreed for a requested one: the request when the server
/// speaks it, else the newest version.
pub open spec fn negotiated(requested: Option<Seq<char>>) -> Seq<char> {
    match requested {
        Some(v) => if v == LATEST_PROTOCOL_VERSION@ || v == PREVIOUS_PROTOCOL_VERSION@ {
            v
        } else {
            LATEST_PROTOCOL_VERSION@
        },
        None => LATEST_PROTOCOL_VERSION@,
    }
}

/// The state of one MCP session.
pub struct ServerState {
    pub protocol_version: String,
    pub initialized: bool,
    pub client_name: String,
    pub client_version: String,
    pub roots_supported: bool,
    pub root_uris: Vec<String>,
    pub roots_request_id: String,
    pub roots_request_number: i64,
}

/// The text of a string member of an object value.
pub open spec fn str_member(v: Option<JsonValue>, key: Seq<char>) -> Option<Seq<char>> {
    match v {
        Some(x) => json_str(json_get(x, key)),
        None => None,
    }
}

/// At most the first `n` scalars of a text, `"unknown"` for none.
pub open spec fn label_of(t: Option<Seq<char>>, n: nat) -> Seq<char> {
    let s = match t {
        Some(x) => x,
        None => "unknown"@,
    };
    if s.len() <= n {
        s
    } else {
        s.take(n as int)
    }
}

/// The client's description, when `clientInfo` is an object.
pub open spec fn client_info(params: JsonValue) -> Option<JsonValue> {
    match json_get(params, "clientInfo"@) {
        Some(JsonValue::Object(pairs)) => Some(JsonValue::Object(pairs)),
        _ => None,
    }
}

/// Whether the client announces roots: `capabilities.roots` is an object.
pub open spec fn announces_roots(params: JsonValue) -> bool {
    match json_get(params, "capabilities"@) {
        Some(caps) => json_get(caps, "roots"@) matches Some(JsonValue::Object(_)),
        None => false,
    }
}

fn take_chars(s: &str, n: usize) -> (r: String)
    ensures
        r@ == (if s@.len() <= n {
            s@
        } else {
            s@.take(n as int)
        }),
{
    let v = to_chars(s);
    if v.len() <= n {
        return from_chars(&v);
    }
    let mut out: Vec<char> = Vec::new();
    let mut i: usize = 0;
    while i < n
        invariant
            i <= n < v.len(),
            out@ == v@.take(i as int),
        decreases n - i,
    {
        out.push(v[i]);
        assert(v@.take(i + 1) =~= v@.take(i as int).push(v@[i as int]));
        i = i + 1;
    }
    from_chars(&out)
}

fn text_of(v: Option<&JsonValue>) -> (r: Option<&str>)
    ensures
        match r {
            Some(s) => json_str(deref_opt(v)) == Some(s@),
            None => json_str(deref_opt(v)) is None,
        },
{
    match v {
        Some(JsonValue::Str(s)) => Some(s.as_str()),
        _ => None,
    }
}

impl ServerState {
    /// A session before `initialize`.
    pub fn new() -> (s: Self)
        ensures
            s.protocol_version@ == LATEST_PROTOCOL_VERSION@,
            !s.initialized,
            s.client_name@ == "unknown"@,
            s.client_version@ == "unknown"@,
            !s.roots_supported,
            s.root_uris@.len() == 0,
            s.roots_request_id@.len() == 0,
            s.roots_request_number == 0,
    {
        ServerState {
            protocol_version: from_chars(&to_chars(LATEST_PROTOCOL_VERSION)),
            initialized: false,
            client_name: from_chars(&to_chars("unknown")),
            client_version: from_chars(&to_chars("unknown")),
            roots_supported: false,
            root_uris: Vec::new(),
            roots_request_id: String::new(),
            roots_request_number: 0,
        }
    }

    /// Starts the session on `initialize`: agrees the protocol version,
    /// records the client's name (80 scalars at most) and version (40),
    /// whether it announces roots, and forgets earlier roots.
    pub fn reset(&mut self, params: &JsonValue)
        ensures
            final(self).protocol_version@ == negotiated(json_str(json_get(*params, "protocolVersion"@))),
            final(self).initialized,
            final(self).client_name@ == label_of(str_member(client_info(*params), "name"@), 80),
            final(self).client_version@ == label_of(str_member(client_info(*params), "version"@), 40),
            final(self).roots_supported == announces_roots(*params),
            final(self).root_uris@.len() == 0,
            final(self).roots_request_id@.len() == 0,
            final(self).roots_request_number == old(self).roots_request_number,
    {
        let requested = text_of(params.get("protocolVersion"));
        self.protocol_version = match requested {
            Some(v) => if str_eq(v, LATEST_PROTOCOL_VERSION) || str_eq(v, PREVIOUS_PROTOCOL_VERSION) {
                from_chars(&to_chars(v))
            } else {
                from_chars(&to_chars(LATEST_PROTOCOL_VERSION))
            },
            None => from_chars(&to_chars(LATEST_PROTOCOL_VERSION)),
        };
        let client = match params.get("clientInfo") {
            Some(info) => if info.is_object() {
                Some(info)
            } else {
                None
            },
            None => None,
        };
        let (name, version) = match client {
            Some(info) => (text_of(info.get("name")), text_of(info.get("version"))),
            None => (None, None),
        };
        self.client_name = take_chars(
            match name {
                Some(x) => x,
                None => "unknown",
            },
            80,
        );
        self.client_version = take_chars(
            match version {
                Some(x) => x,
                None => "unknown",
            },
            40,
        );
        self.roots_supported = match params.get("capabilities") {
            Some(caps) => match caps.get("roots") {
                Some(roots) => roots.is_object(),
                None => false,
            },
            None => false,
        };
        self.root_uris = Vec::new();
        self.roots_request_id = String::new();
        self.initialized = true;
    }

    /// The id of a `roots/list` request to send, when the client announces
    /// roots and no such request is pending: `engramark-roots-<n>` with the
    /// next number, recorded as pending.
    pub fn request_roots(&mut self) -> (r: Option<String>)
        requires
            old(self).roots_request_number < i64::MAX,
        ensures
            !old(self).roots_supported || old(self).roots_request_id@.len() > 0 ==> r is None && *final(self)
                == *old(self),
            old(self).roots_supported && old(self).roots_request_id@.len() == 0 ==> {
                &&& final(self).roots_request_number == old(self).roots_request_number + 1
                &&& final(self).roots_request_id@ == "engramark-roots-"@ + int_text(
                    final(self).roots_request_number as int,
                )
                &&& r matches Some(id) && id@ == final(self).roots_request_id@
                &&& final(self).protocol_version == old(self).protocol_version
                &&& final(self).initialized == old(self).initialized
                &&& final(self).roots_supported == old(self).roots_supported
                &&& final(self).root_uris == old(self).root_uris
                &&& final(self).client_name == old(self).client_name
                &&& final(self).client_version == old(self).client_version
            },
    {
        if !self.roots_supported || self.roots_request_id.as_str().unicode_len() > 0 {
            return None;
        }
        self.roots_request_number = self.roots_request_number + 1;
        let mut v = to_chars("engramark-roots-");
        push_int(&mut v, self.roots_request_number);
        self.roots_request_id = from_chars(&v);
        Some(from_chars(&v))
    }
}

/// The URIs the client lists among its roots, in order; roots without a
/// string `uri` are skipped.
pub open spec fn uris_of(items: Seq<JsonValue>) -> Seq<Seq<char>>
    decreases items.len(),
{
    if items.len() == 0 {
        Seq::empty()
    } else {
        let rest = uris_of(items.drop_last());
        match json_str(json_get(items.last(), "uri"@)) {
            Some(u) => rest.push(u),
            None => rest,
        }
    }
}

/// The roots listed in a `roots/list` answer: `result.roots`, when that is
/// an array.
pub open spec fn listed_roots(message: JsonValue) -> Seq<Seq<char>> {
    match json_get(message, "result"@) {
        Some(res) => match json_get(res, "roots"@) {
            Some(JsonValue::Array(items)) => uris_of(items@),
            _ => Seq::empty(),
        },
        None => Seq::empty(),
    }
}

impl ServerState {
    /// Takes the answer to the pending `roots/list` request: when the
    /// message answers it, the listed root URIs replace the known ones and
    /// nothing is pending any more. Other messages are not taken.
    pub fn handle_roots_response(&mut self, message: &JsonValue) -> (r: bool)
        ensures
            r == (old(self).roots_request_id@.len() > 0 && json_str(json_get(*message, "id"@)) == Some(
                old(self).roots_request_id@,
            )),
            !r ==> *final(self) == *old(self),
            r ==> {
                &&& crate::mem::views(final(self).root_uris@) == listed_roots(*message)
                &&& final(self).roots_request_id@.len() == 0
                &&& final(self).protocol_version == old(self).protocol_version
                &&& final(self).initialized == old(self).initialized
                &&& final(self).roots_supported == old(self).roots_supported
                &&& final(self).roots_request_number == old(self).roots_request_number
                &&& final(self).client_name == old(self).client_name
                &&& final(self).client_version == old(self).client_version
            },
    {
        if self.roots_request_id.as_str().unicode_len() == 0 {
            return false;
        }
        match text_of(message.get("id")) {
            None => return false,
            Some(id) => if !str_eq(id, self.roots_request_id.as_str()) {
                return false;
            },
        }
        let mut uris: Vec<String> = Vec::new();
        let roots = match message.get("result") {
            Some(res) => match res.get("roots") {
                Some(JsonValue::Array(items)) => Some(items),
                _ => None,
            },
            None => None,
        };
        match roots {
            Some(items) => {
                let mut i: usize = 0;
                while i < items.len()
                    invariant
                        i <= items.len(),
                        crate::mem::views(uris@) == uris_of(items@.take(i as int)),
                    decreases items.len() - i,
                {
                    assert(items@.take(i + 1).drop_last() =~= items@.take(i as int));
                    assert(items@.take(i + 1).last() == items@[i as int]);
                    match text_of(items[i].get("uri")) {
                        Some(u) => {
                            let ghost before = crate::mem::views(uris@);
                            uris.push(from_chars(&to_chars(u)));
                            assert(crate::mem::views(uris@) =~= before.push(u@));
                        },
                        None => {},
                    }
                    i = i + 1;
                }
                assert(items@.take(items.len() as int) =~= items@);
            },
            None => {
                assert(crate::mem::views(uris@) =~= Seq::<Seq<char>>::empty());
            },
        }
        self.root_uris = uris;
        self.roots_request_id = String::new();
        true
    }
}

/// A character a request id string may hold: ASCII letters and digits and
/// `_ . : -`.
pub open spec fn id_char(c: char) -> bool {
    ('a' <= c && c <= 'z') || ('A' <= c && c <= 'Z') || ('0' <= c && c <= '9') || c == '_' || c == '.' || c
        == ':' || c == '-'
}

/// A request id as it may be logged: a number as it is, a string of at
/// most 64 id characters as it is, anything else null.
pub open spec fn sanitized_id(value: Option<JsonValue>) -> JsonValue {
    match value {
        Some(JsonValue::Int(v)) => JsonValue::Int(v),
        Some(JsonValue::Float { whole_above_max_id }) => JsonValue::Float { whole_above_max_id },
        Some(JsonValue::Str(t)) => if t@.len() <= 64 && forall|i: int| 0 <= i < t@.len() ==> id_char(#[trigger] t@[i]) {
            JsonValue::Str(t)
        } else {
            JsonValue::Null
        },
        _ => JsonValue::Null,
    }
}

/// A request id as it may be logged.
pub fn sanitize_request_id(value: Option<&JsonValue>) -> (r: JsonValue)
    ensures
        r == sanitized_id(deref_opt(value)),
{
    match value {
        Some(JsonValue::Int(v)) => JsonValue::Int(*v),
        Some(JsonValue::Float { whole_above_max_id }) => JsonValue::Float { whole_above_max_id: *whole_above_max_id },
        Some(JsonValue::Str(text)) => {
            let v = to_chars(text.as_str());
            if v.len() > 64 {
                return JsonValue::Null;
            }
            let mut i: usize = 0;
            while i < v.len()
                invariant
                    i <= v.len(),
                    v@ == text@,
                    v.len() <= 64,
                    deref_opt(value) == Some(JsonValue::Str(*text)),
                    forall|k: int| 0 <= k < i ==> id_char(#[trigger] v@[k]),
                decreases v.len() - i,
            {
                let c = v[i];
                if !(('a' <= c && c <= 'z') || ('A' <= c && c <= 'Z') || ('0' <= c && c <= '9') || c == '_' || c
                    == '.' || c == ':' || c == '-') {
                    assert(!id_char(text@[i as int]));
                    return JsonValue::Null;
                }
                i = i + 1;
            }
            JsonValue::Str(text.clone())
        },
        _ => JsonValue::Null,
    }
}

/// A JSON-RPC request: an object with `jsonrpc` `"2.0"` and a string
/// `method`.
pub open spec fn valid_request_spec(message: JsonValue) -> bool {
    &&& message is Object
    &&& json_str(json_get(message, "jsonrpc"@)) == Some("2.0"@)
    &&& json_str(json_get(message, "method"@)) is Some
}

/// Whether a message is a JSON-RPC request.
pub fn valid_request(message: &JsonValue) -> (r: bool)
    ensures
        r == valid_request_spec(*message),
{
    if !message.is_object() {
        return false;
    }
    let version_ok = match text_of(message.get("jsonrpc")) {
        Some(v) => str_eq(v, "2.0"),
        None => false,
    };
    version_ok && text_of(message.get("method")).is_some()
}

/// Whether a core error's message may be shown to the client as it is: it
/// matches one of the patterns of errors about the caller's input.
pub open spec fn public_core_message(message: Seq<char>) -> bool {
    ||| regex_is_match("^(?:标题|正文|实体|每个实体|单个实体|类型|适用范围|scope=project|记忆内容)"@, message)
    ||| regex_is_match("^查询超过 \\d+ 字符上限$"@, message)
    ||| regex_is_match("^查询超过时间预算"@, message)
    ||| regex_is_match("^单次最多取 "@, message)
    ||| regex_is_match("^当前范围内不存在记忆 \\d+$"@, message)
    ||| regex_is_match("^候选记忆 \\d+ 不存在$"@, message)
    ||| regex_is_match("^记忆 \\d+ (?:不存在|不是)"@, message)
    ||| regex_is_match("^卡片 @\\d+ 不存在$"@, message)
    ||| regex_is_match("^@\\d+ (?:不是|已被|已不再|今天已)"@, message)
    ||| regex_is_match("^删除已发布卡片必须显式确认$"@, message)
}

/// Whether a core error's message may be shown to the client as it is.
pub fn public_core_error(message: &str) -> (r: bool)
    ensures
        r == public_core_message(message@),
{
    is_match("^(?:标题|正文|实体|每个实体|单个实体|类型|适用范围|scope=project|记忆内容)", message) ||
        is_match("^查询超过 \\d+ 字符上限$", message) ||
        is_match("^查询超过时间预算", message) ||
        is_match("^单次最多取 ", message) ||
        is_match("^当前范围内不存在记忆 \\d+$", message) ||
        is_match("^候选记忆 \\d+ 不存在$", message) ||
        is_match("^记忆 \\d+ (?:不存在|不是)", message) ||
        is_match("^卡片 @\\d+ 不存在$", message) ||
        is_match("^@\\d+ (?:不是|已被|已不再|今天已)", message) ||
        is_match("^删除已发布卡片必须显式确认$", message)
}

/// The name of an error's kind, as the client sees it.
pub open spec fn error_kind(e: Error) -> Seq<char> {
    match e {
        Error::Core(_) => "CoreError"@,
        Error::CacheUnavailable(_) => "CacheUnavailable"@,
        Error::LockTimeout(_) => "LockTimeout"@,
        Error::HookProtocol(_) => "HookProtocolError"@,
        Error::HookCandidateOverflow => "HookCandidateOverflow"@,
        Error::HookDeadlineExceeded => "HookDeadlineExceeded"@,
        Error::HookUnavailable(_) => "HookUnavailable"@,
    }
}

/// The name of an error's kind.
pub fn error_type_name(err: &Error) -> (r: &'static str)
    ensures
        r@ == error_kind(*err),
{
    match err {
        Error::Core(_) => "CoreError",
        Error::CacheUnavailable(_) => "CacheUnavailable",
        Error::LockTimeout(_) => "LockTimeout",
        Error::HookProtocol(_) => "HookProtocolError",
        Error::HookCandidateOverflow => "HookCandidateOverflow",
        Error::HookDeadlineExceeded => "HookDeadlineExceeded",
        Error::HookUnavailable(_) => "HookUnavailable",
    }
}

/// What the server does with a request.
#[derive(Clone, Copy, Debug, PartialEq, Eq, Structural)]
pub enum RequestAction {
    /// Start the session and answer with the server's description.
    Initialize,
    /// Refuse `initialize` whose parameters are not an object (-32602).
    RejectInitialize,
    /// Refuse a request before `initialize` (-32002).
    RejectUninitialized,
    /// Ask the client for its roots.
    RefreshRoots,
    /// Do nothing.
    Ignore,
    /// Answer with an empty object.
    Pong,
    /// Answer with the tool list.
    ListTools,
    /// Run a tool.
    CallTool,
    /// Answer with no resources.
    ListResources,
    /// Answer with no resource templates.
    ListResourceTemplates,
    /// Answer with no prompts.
    ListPrompts,
    /// Refuse an unknown method (-32601).
    RejectMethod,
}

/// The routing of a request by method: `initialize` first (its parameters
/// must be an object); before it, requests with an id are refused and
/// notifications dropped; then the known methods; unknown methods refused
/// when they carry an id.
pub open spec fn route(method: Seq<char>, initialized: bool, params_object: bool, has_id: bool) -> RequestAction {
    if method == "initialize"@ {
        if params_object {
            RequestAction::Initialize
        } else {
            RequestAction::RejectInitialize
        }
    } else if !initialized {
        if has_id {
            RequestAction::RejectUninitialized
        } else {
            RequestAction::Ignore
        }
    } else if method == "notifications/initialized"@ || method == "notifications/roots/list_changed"@ {
        RequestAction::RefreshRoots
    } else if method == "notifications/cancelled"@ {
        RequestAction::Ignore
    } else if method == "ping"@ {
        RequestAction::Pong
    } else if method == "tools/list"@ {
        RequestAction::ListTools
    } else if method == "tools/call"@ {
        RequestAction::CallTool
    } else if method == "resources/list"@ {
        RequestAction::ListResources
    } else if method == "resources/templates/list"@ {
        RequestAction::ListResourceTemplates
    } else if method == "prompts/list"@ {
        RequestAction::ListPrompts
    } else if has_id {
        RequestAction::RejectMethod
    } else {
        RequestAction::Ignore
    }
}

/// Routes a request by its method.
pub fn route_request(method: &str, initialized: bool, params_object: bool, has_id: bool) -> (r: RequestAction)
    ensures
        r == route(method@, initialized, params_object, has_id),
{
    if str_eq(method, "initialize") {
        if params_object {
            RequestAction::Initialize
        } else {
            RequestAction::RejectInitialize
        }
    } else if !initialized {
        if has_id {
            RequestAction::RejectUninitialized
        } else {
            RequestAction::Ignore
        }
    } else if str_eq(method, "notifications/initialized") || str_eq(method, "notifications/roots/list_changed") {
        RequestAction::RefreshRoots
    } else if str_eq(method, "notifications/cancelled") {
        RequestAction::Ignore
    } else if str_eq(method, "ping") {
        RequestAction::Pong
    } else if str_eq(method, "tools/list") {
        RequestAction::ListTools
    } else if str_eq(method, "tools/call") {
        RequestAction::CallTool
    } else if str_eq(method, "resources/list") {
        RequestAction::ListResources
    } else if str_eq(method, "resources/templates/list") {
        RequestAction::ListResourceTemplates
    } else if str_eq(method, "prompts/list") {
        RequestAction::ListPrompts
    } else if has_id {
        RequestAction::RejectMethod
    } else {
        RequestAction::Ignore
    }
}

/// Once the session is initialized, each method the server knows is
/// routed to its own answer, whatever its parameters and whether it
/// carries an id, and a request is refused as an unknown method only when
/// it carries an id and its method is none of the known ones.
pub proof fn law_route_known_methods(method: Seq<char>, params_object: bool, has_id: bool)
    ensures
        method == "tools/list"@ ==> route(method, true, params_object, has_id) == RequestAction::ListTools,
        method == "tools/call"@ ==> route(method, true, params_object, has_id) == RequestAction::CallTool,
        method == "ping"@ ==> route(method, true, params_object, has_id) == RequestAction::Pong,
        method == "resources/list"@ ==> route(method, true, params_object, has_id) == RequestAction::ListResources,
        method == "resources/templates/list"@ ==> route(method, true, params_object, has_id)
            == RequestAction::ListResourceTemplates,
        method == "prompts/list"@ ==> route(method, true, params_object, has_id) == RequestAction::ListPrompts,
        method == "notifications/initialized"@ || method == "notifications/roots/list_changed"@ ==> route(
            method,
            true,
            params_object,
            has_id,
        ) == RequestAction::RefreshRoots,
        method == "notifications/cancelled"@ ==> route(method, true, params_object, has_id) == RequestAction::Ignore,
        route(method, true, params_object, has_id) == RequestAction::RejectMethod ==> has_id && method != "initialize"@
            && method != "tools/list"@ && method != "tools/call"@ && method != "ping"@ && method != "resources/list"@
            && method != "resources/templates/list"@ && method != "prompts/list"@ && method
            != "notifications/initialized"@ && method != "notifications/roots/list_changed"@ && method
            != "notifications/cancelled"@,
        has_id && method != "initialize"@ && method != "tools/list"@ && method != "tools/call"@ && method != "ping"@
            && method != "resources/list"@ && method != "resources/templates/list"@ && method != "prompts/list"@
            && method != "notifications/initialized"@ && method != "notifications/roots/list_changed"@ && method
            != "notifications/cancelled"@ ==> route(method, true, params_object, has_id) == RequestAction::RejectMethod,
{
    reveal_strlit("initialize");
    reveal_strlit("tools/list");
    reveal_strlit("tools/call");
    reveal_strlit("ping");
    reveal_strlit("resources/list");
    reveal_strlit("resources/templates/list");
    reveal_strlit("prompts/list");
    reveal_strlit("notifications/initialized");
    reveal_strlit("notifications/roots/list_changed");
    reveal_strlit("notifications/cancelled");
    assert("initialize"@.len() == 10);
    assert("tools/list"@.len() == 10);
    assert("tools/call"@.len() == 10);
    assert("ping"@.len() == 4);
    assert("resources/list"@.len() == 14);
    assert("resources/templates/list"@.len() == 24);
    assert("prompts/list"@.len() == 12);
    assert("notifications/initialized"@.len() == 25);
    assert("notifications/roots/list_changed"@.len() == 32);
    assert("notifications/cancelled"@.len() == 23);
    assert("tools/list"@[0] != "initialize"@[0]);
    assert("tools/call"@[0] != "initialize"@[0]);
    assert("tools/list"@[6] != "tools/call"@[6]);
}

/// Before initialization only `initialize` is served: any other request
/// with an id is refused as uninitialized, and a notification is dropped.
/// `initialize` starts the session exactly when its parameters are an
/// object.
pub proof fn law_route_before_initialize(method: Seq<char>, params_object: bool, has_id: bool)
    ensures
        method != "initialize"@ ==> route(method, false, params_object, has_id) == (if has_id {
            RequestAction::RejectUninitialized
        } else {
            RequestAction::Ignore
        }),
        forall|init: bool|
            (route("initialize"@, init, params_object, has_id) == RequestAction::Initialize) == params_object,
{
}

/// The JSON-RPC error a refusing action answers with: its code and message.
pub open spec fn action_error(a: RequestAction, method: Seq<char>) -> Option<(i64, Seq<char>)> {
    match a {
        RequestAction::RejectInitialize => Some((-32602i64, "initialize 参数必须是对象"@)),
        RequestAction::RejectUninitialized => Some((-32002i64, "服务尚未初始化"@)),
        RequestAction::RejectMethod => Some((-32601i64, "不支持的方法："@ + method)),
        _ => None,
    }
}

/// The JSON-RPC error a refusing action answers with.
pub fn request_error(a: RequestAction, method: &str) -> (r: Option<(i64, String)>)
    ensures
        match action_error(a, method@) {
            Some((code, m)) => r matches Some((c, x)) && c == code && x@ == m,
            None => r is None,
        },
{
    match a {
        RequestAction::RejectInitialize => Some((-32602, from_chars(&to_chars("initialize 参数必须是对象")))),
        RequestAction::RejectUninitialized => Some((-32002, from_chars(&to_chars("服务尚未初始化")))),
        RequestAction::RejectMethod => {
            let mut v = to_chars("不支持的方法：");
            crate::chars::extend_str(&mut v, method);
            Some((-32601, from_chars(&v)))
        },
        _ => None,
    }
}

/// Nothing but `initialize` is served before `initialize`: every other
/// request with an id is refused, and a notification is dropped.
pub proof fn law_initialize_first(method: Seq<char>, params_object: bool, has_id: bool)
    requires
        method != "initialize"@,
    ensures
        route(method, false, params_object, has_id) == (if has_id {
            RequestAction::RejectUninitialized
        } else {
            RequestAction::Ignore
        }),
{
}

/// The agreed protocol version is always one the server speaks, and a
/// version the server speaks is agreed as requested.
pub proof fn law_negotiated_version_is_supported(requested: Option<Seq<char>>)
    ensures
        negotiated(requested) == LATEST_PROTOCOL_VERSION@ || negotiated(requested) == PREVIOUS_PROTOCOL_VERSION@,
        forall|v: Seq<char>|
            requested == Some(v) && (v == LATEST_PROTOCOL_VERSION@ || v == PREVIOUS_PROTOCOL_VERSION@) ==> #[trigger] negotiated(
                Some(v),
            ) == v,
{
}

/// The tools the server offers.
pub open spec fn known_tool(name: Seq<char>) -> bool {
    ||| name == "memory_search"@
    ||| name == "memory_get"@
    ||| name == "memory_save"@
    ||| name == "memory_propose"@
    ||| name == "memory_publish"@
    ||| name == "memory_reject"@
    ||| name == "memory_feedback"@
    ||| name == "memory_update"@
    ||| name == "memory_archive"@
    ||| name == "memory_delete"@
    ||| name == "memory_audit"@
}

/// The tool a `tools/call` request names, or the JSON-RPC error for it:
/// the parameters must be an object with a string `name` that is a known
/// tool (-32602 otherwise).
pub open spec fn tool_call_target_spec(params: JsonValue) -> Result<Seq<char>, (i64, Seq<char>)> {
    match json_str(json_get(params, "name"@)) {
        Some(n) => if !(params is Object) {
            Err((-32602i64, "tools/call 参数无效"@))
        } else if known_tool(n) {
            Ok(n)
        } else {
            Err((-32602i64, "未知工具："@ + n))
        },
        None => Err((-32602i64, "tools/call 参数无效"@)),
    }
}

/// The tool a `tools/call` request names, or the JSON-RPC error for it.
pub fn tool_call_target(params: &JsonValue) -> (r: Result<String, (i64, String)>)
    ensures
        match tool_call_target_spec(*params) {
            Ok(n) => r matches Ok(x) && x@ == n,
            Err((code, m)) => r matches Err((c, x)) && c == code && x@ == m,
        },
{
    let name = match text_of(params.get("name")) {
        Some(n) => n,
        None => return Err((-32602, from_chars(&to_chars("tools/call 参数无效")))),
    };
    if !params.is_object() {
        return Err((-32602, from_chars(&to_chars("tools/call 参数无效"))));
    }
    if str_eq(name, "memory_search") || str_eq(name, "memory_get") || str_eq(name, "memory_save") || str_eq(name, "memory_propose") || str_eq(name, "memory_publish") || str_eq(name, "memory_reject") || str_eq(name, "memory_feedback") || str_eq(name, "memory_update") || str_eq(name, "memory_archive") || str_eq(name, "memory_delete") || str_eq(name, "memory_audit") {
        Ok(from_chars(&to_chars(name)))
    } else {
        let mut v = to_chars("未知工具：");
        crate::chars::extend_str(&mut v, name);
        Err((-32602, from_chars(&v)))
    }
}

/// `@<digits>` references turned into `记忆 <digits>`.
pub open spec fn at_refs(s: Seq<char>) -> Seq<char>
    decreases s.len(),
{
    if s.len() == 0 {
        Seq::empty()
    } else {
        let d = digit_run(s.drop_first()) as int;
        proof {
            lemma_digit_run_bound(s.drop_first());
        }
        if s[0] == '@' && d > 0 {
            "记忆 "@ + s.subrange(1, 1 + d) + at_refs(s.skip(1 + d))
        } else {
            seq![s[0]] + at_refs(s.drop_first())
        }
    }
}

/// `str::replace`: each occurrence of `from`, left to right and not
/// overlapping, replaced by `to`.
pub open spec fn replace_all(s: Seq<char>, from: Seq<char>, to: Seq<char>) -> Seq<char>
    decreases s.len(),
{
    if s.len() == 0 {
        Seq::empty()
    } else if from.len() > 0 && is_prefix(s, from) {
        to + replace_all(s.skip(from.len() as int), from, to)
    } else {
        seq![s[0]] + replace_all(s.drop_first(), from, to)
    }
}

/// An error message in the client's words: memory references spelled out
/// and the status words put in Chinese.
pub open spec fn human_error_seq(m: Seq<char>) -> Seq<char> {
    let a = replace_all(at_refs(m), "candidate"@, "候选"@);
    let b = replace_all(a, "published"@, "正式"@);
    let c = replace_all(b, "archived"@, "已归档"@);
    replace_all(c, "tombstone"@, "已删除"@)
}

fn refs_spelled(v: &[char]) -> (r: Vec<char>)
    ensures
        r@ == at_refs(v@),
{
    let mut out: Vec<char> = Vec::new();
    let mut pos: usize = 0;
    assert(v@.skip(0) =~= v@);
    while pos < v.len()
        invariant
            pos <= v.len(),
            out@ + at_refs(v@.skip(pos as int)) == at_refs(v@),
        decreases v.len() - pos,
    {
        let ghost rest = v@.skip(pos as int);
        let mut end = pos + 1;
        while end < v.len() && '0' <= v[end] && v[end] <= '9'
            invariant
                pos + 1 <= end <= v.len(),
                forall|i: int| pos + 1 <= i < end ==> '0' <= #[trigger] v@[i] && v@[i] <= '9',
            decreases v.len() - end,
        {
            end = end + 1;
        }
        proof {
            let tail = rest.drop_first();
            assert forall|i: int| 0 <= i < end - pos - 1 implies '0' <= #[trigger] tail[i] && tail[i] <= '9' by {
                assert(tail[i] == v@[pos + 1 + i]);
            }
            if end < v.len() {
                assert(tail[end - pos - 1] == v@[end as int]);
            }
            lemma_digit_run_at(tail, end - pos - 1);
        }
        if v[pos] == '@' && end > pos + 1 {
            let ghost before = out@;
            crate::chars::extend_str(&mut out, "记忆 ");
            let digits = crate::chars::slice_chars(v, pos + 1, end);
            crate::chars::extend_chars(&mut out, &digits);
            assert(rest.subrange(1, end - pos) =~= v@.subrange(pos + 1, end as int));
            assert(rest.skip(end - pos) =~= v@.skip(end as int));
            assert(out@ =~= before + ("记忆 "@ + rest.subrange(1, end - pos)));
            pos = end;
        } else {
            let ghost before = out@;
            out.push(v[pos]);
            assert(rest.drop_first() =~= v@.skip(pos + 1));
            assert(out@ =~= before + seq![rest[0]]);
            pos = pos + 1;
        }
    }
    assert(v@.skip(v.len() as int) =~= Seq::<char>::empty());
    assert(out@ + Seq::<char>::empty() =~= out@);
    out
}

fn replaced_all(v: &[char], from: &str, to: &str) -> (r: Vec<char>)
    ensures
        r@ == replace_all(v@, from@, to@),
{
    let f = to_chars(from);
    let t = to_chars(to);
    let mut out: Vec<char> = Vec::new();
    let mut pos: usize = 0;
    assert(v@.skip(0) =~= v@);
    while pos < v.len()
        invariant
            pos <= v.len(),
            f@ == from@,
            t@ == to@,
            out@ + replace_all(v@.skip(pos as int), from@, to@) == replace_all(v@, from@, to@),
        decreases v.len() - pos,
    {
        let ghost rest = v@.skip(pos as int);
        if f.len() > 0 && crate::chars::matches_at(v, &f, pos) {
            assert(rest.take(f@.len() as int) =~= v@.subrange(pos as int, pos + f@.len()));
            let ghost before = out@;
            crate::chars::extend_chars(&mut out, &t);
            assert(rest.skip(f@.len() as int) =~= v@.skip(pos + f@.len()));
            assert(out@ =~= before + t@);
            pos = pos + f.len();
        } else {
            proof {
                if f@.len() > 0 && is_prefix(rest, f@) {
                    assert(v@.subrange(pos as int, pos + f@.len()) =~= rest.take(f@.len() as int));
                }
            }
            let ghost before = out@;
            out.push(v[pos]);
            assert(rest.drop_first() =~= v@.skip(pos + 1));
            assert(out@ =~= before + seq![rest[0]]);
            pos = pos + 1;
        }
    }
    assert(v@.skip(v.len() as int) =~= Seq::<char>::empty());
    assert(out@ + Seq::<char>::empty() =~= out@);
    out
}

/// An error message in the client's words.
pub fn human_error(message: &str) -> (r: String)
    ensures
        r@ == human_error_seq(message@),
{
    let a = refs_spelled(&to_chars(message));
    let b = replaced_all(&a, "candidate", "候选");
    let c = replaced_all(&b, "published", "正式");
    let d = replaced_all(&c, "archived", "已归档");
    let e = replaced_all(&d, "tombstone", "已删除");
    from_chars(&e)
}

/// What the client is told of a failed tool call: the text of a tool error
/// result, or nothing when the failure is internal (answered by an error
/// with a correlation number).
pub open spec fn tool_error_shown(e: Error) -> Option<Seq<char>> {
    match e {
        Error::CacheUnavailable(_) => Some("记忆索引暂时不可用，原始记忆没有丢失。请稍后重试；若持续出现，请运行诊断。"@),
        Error::Core(m) => if m@.len() > 0 && m@[0] == '\u{1}' {
            Some(human_error_seq(m@.drop_first()))
        } else if public_core_message(m@) {
            Some(human_error_seq(m@))
        } else {
            None
        },
        _ => None,
    }
}

/// The kind a failed tool call is logged under.
pub open spec fn tool_error_kind(e: Error) -> Seq<char> {
    match e {
        Error::Core(m) => if m@.len() > 0 && m@[0] == '\u{1}' {
            "ToolInputError"@
        } else {
            "CoreError"@
        },
        _ => error_kind(e),
    }
}

/// What the client is told of a failed tool call, and the kind it is logged
/// under.
pub fn tool_error_outcome(err: &Error) -> (r: (Option<String>, &'static str))
    ensures
        match tool_error_shown(*err) {
            Some(t) => r.0 matches Some(x) && x@ == t,
            None => r.0 is None,
        },
        r.1@ == tool_error_kind(*err),
{
    match err {
        Error::CacheUnavailable(_) => (
            Some(from_chars(&to_chars("记忆索引暂时不可用，原始记忆没有丢失。请稍后重试；若持续出现，请运行诊断。"))),
            "CacheUnavailable",
        ),
        Error::Core(message) => {
            let v = to_chars(message.as_str());
            if v.len() > 0 && v[0] == '\u{1}' {
                let rest = crate::chars::slice_chars(&v, 1, v.len());
                assert(rest@ =~= message@.drop_first());
                let text = from_chars(&rest);
                (Some(human_error(text.as_str())), "ToolInputError")
            } else if public_core_error(message.as_str()) {
                (Some(human_error(message.as_str())), "CoreError")
            } else {
                (None, "CoreError")
            }
        },
        _ => (None, error_type_name(err)),
    }
}

/// A tool result that reports a failure to the client: one text item
/// `无法完成：<message>` and `isError`.
pub open spec fn is_error_result(v: JsonValue, message: Seq<char>) -> bool {
    v matches JsonValue::Object(pairs) && pairs@.len() == 2 && pairs@[0].0@ == "content"@ && pairs@[1].0@
        == "isError"@ && pairs@[1].1 == JsonValue::Bool(true) && (pairs@[0].1 matches JsonValue::Array(items)
        && items@.len() == 1 && (items@[0] matches JsonValue::Object(item) && item@.len() == 2 && item@[0].0@
        == "type"@ && item@[1].0@ == "text"@ && (item@[0].1 matches JsonValue::Str(t) && t@ == "text"@) && (
    item@[1].1 matches JsonValue::Str(x) && x@ == "无法完成："@ + message)))
}

/// A tool result that reports a failure to the client.
pub fn error_text(message: &str) -> (r: JsonValue)
    ensures
        is_error_result(r, message@),
{
    let mut shown = to_chars("无法完成：");
    crate::chars::extend_str(&mut shown, message);
    let item = JsonValue::Object(vec![
        (from_chars(&to_chars("type")), JsonValue::Str(from_chars(&to_chars("text")))),
        (from_chars(&to_chars("text")), JsonValue::Str(from_chars(&shown))),
    ]);
    JsonValue::Object(vec![
        (from_chars(&to_chars("content")), JsonValue::Array(vec![item])),
        (from_chars(&to_chars("isError")), JsonValue::Bool(true)),
    ])
}

} // verus!
