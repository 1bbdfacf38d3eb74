//! The protocol an agent speaks: JSON-RPC, one frame to a line.
//!
//! Deciding what a line asks for and writing the answer down happens here;
//! reading and writing the lines does not.

use crate::json::{
    bool_at, bool_in, json_string, length_at, length_in, number_at, number_in, parse_error,
    parse_failure, quote, string_at, string_in, value_at, value_in,
};
use crate::text::{
    blank, cat, decimal, is_blank, join, joined, opt_str_view, opt_view, same, signed, to_decimal,
    to_signed, views,
};
use crate::store::DataView;
use crate::time::Moment;
use crate::tools::{called, CalledView, ToolArgs, ToolArgsView, ToolErrorView};
use vstd::prelude::*;

verus! {

/// The protocol version that is spoken where the client names none. What the
/// client names is echoed: clients are more forgiving of agreement than of a
/// server insisting on its own revision.
pub const DEFAULT_PROTOCOL: &'static str = "2025-06-18";

// ---------------------------------------------------------------------------
// Requests
// ---------------------------------------------------------------------------

/// What matters of a request, as far as it is there and of the right kind.
#[derive(Debug)]
pub struct Request {
    /// As JSON. A notification has none.
    pub id: Option<String>,
    pub method: Option<String>,
    pub protocol: Option<String>,
    pub tool: Option<String>,
    pub args: ToolArgs,
}

#[verifier::ext_equal]
pub struct RequestView {
    pub id: Option<Seq<char>>,
    pub method: Option<Seq<char>>,
    pub protocol: Option<Seq<char>>,
    pub tool: Option<Seq<char>>,
    pub args: ToolArgsView,
}

impl View for Request {
    type V = RequestView;

    open spec fn view(&self) -> RequestView {
        RequestView {
            id: opt_view(self.id),
            method: opt_view(self.method),
            protocol: opt_view(self.protocol),
            tool: opt_view(self.tool),
            args: self.args@,
        }
    }
}

/// The place of one item of a list of ids.
pub open spec fn item_place(i: nat) -> Seq<char> {
    "/params/arguments/ids/"@ + decimal(i)
}

/// The ids in the first `n` items of the list; other items are passed over.
pub open spec fn ids_upto(line: Seq<char>, n: nat) -> Seq<u64>
    decreases n,
{
    if n == 0 {
        Seq::empty()
    } else {
        match number_in(line, item_place((n - 1) as nat)) {
            Some(v) => ids_upto(line, (n - 1) as nat).push(v),
            None => ids_upto(line, (n - 1) as nat),
        }
    }
}

pub open spec fn ids_in(line: Seq<char>) -> Option<Seq<u64>> {
    match length_in(line, "/params/arguments/ids"@) {
        Some(n) => Some(ids_upto(line, n as nat)),
        None => None,
    }
}

/// The arguments in a call.
pub open spec fn args_in(line: Seq<char>) -> ToolArgsView {
    ToolArgsView {
        all: bool_in(line, "/params/arguments/all"@),
        include_done: bool_in(line, "/params/arguments/include_done"@),
        title: string_in(line, "/params/arguments/title"@),
        note: string_in(line, "/params/arguments/note"@),
        file: string_in(line, "/params/arguments/file"@),
        parent: number_in(line, "/params/arguments/parent"@),
        repo: bool_in(line, "/params/arguments/repo"@),
        id: number_in(line, "/params/arguments/id"@),
        ids: ids_in(line),
        query: string_in(line, "/params/arguments/query"@),
    }
}

/// The request in a line of JSON.
pub open spec fn request_in(line: Seq<char>) -> RequestView {
    RequestView {
        id: value_in(line, "/id"@),
        method: string_in(line, "/method"@),
        protocol: string_in(line, "/params/protocolVersion"@),
        tool: string_in(line, "/params/name"@),
        args: args_in(line),
    }
}

fn read_ids(line: &str) -> (r: Option<Vec<u64>>)
    ensures
        match r {
            Some(v) => ids_in(line@) == Some(v@),
            None => ids_in(line@) is None,
        },
{
    let n: usize = match length_at(line, "/params/arguments/ids") {
        Some(n) => n,
        None => {
            return None;
        },
    };
    let mut out: Vec<u64> = Vec::new();
    let mut i: usize = 0;
    while i < n
        invariant
            i <= n,
            out@ == ids_upto(line@, i as nat),
        decreases n - i,
    {
        let d = to_decimal(i as u64);
        let place = cat("/params/arguments/ids/", d.as_str());
        assert(place@ == item_place(i as nat));
        if let Some(v) = number_at(line, place.as_str()) {
            out.push(v);
        }
        i += 1;
    }
    Some(out)
}

/// Reads the arguments of a call.
pub fn read_args(line: &str) -> (r: ToolArgs)
    ensures
        r@ == args_in(line@),
{
    ToolArgs {
        all: bool_at(line, "/params/arguments/all"),
        include_done: bool_at(line, "/params/arguments/include_done"),
        title: string_at(line, "/params/arguments/title"),
        note: string_at(line, "/params/arguments/note"),
        file: string_at(line, "/params/arguments/file"),
        parent: number_at(line, "/params/arguments/parent"),
        repo: bool_at(line, "/params/arguments/repo"),
        id: number_at(line, "/params/arguments/id"),
        ids: read_ids(line),
        query: string_at(line, "/params/arguments/query"),
    }
}

/// Reads a request.
pub fn read_request(line: &str) -> (r: Request)
    ensures
        r@ == request_in(line@),
{
    Request {
        id: value_at(line, "/id"),
        method: string_at(line, "/method"),
        protocol: string_at(line, "/params/protocolVersion"),
        tool: string_at(line, "/params/name"),
        args: read_args(line),
    }
}

// ---------------------------------------------------------------------------
// What to do about it
// ---------------------------------------------------------------------------

/// A fault of the transport, as opposed to a tool that failed.
#[derive(Debug)]
pub struct RpcError {
    pub code: i32,
    pub message: String,
}

#[verifier::ext_equal]
pub struct RpcErrorView {
    pub code: int,
    pub message: Seq<char>,
}

impl View for RpcError {
    type V = RpcErrorView;

    open spec fn view(&self) -> RpcErrorView {
        RpcErrorView { code: self.code as int, message: self.message@ }
    }
}

pub open spec fn unparsable(reason: Seq<char>) -> RpcErrorView {
    RpcErrorView { code: -32700, message: "parse error: "@ + reason }
}

pub open spec fn unknown_method(method: Seq<char>) -> RpcErrorView {
    RpcErrorView { code: -32601, message: "unknown method: "@ + method }
}

pub open spec fn invalid_params(message: Seq<char>) -> RpcErrorView {
    RpcErrorView { code: -32602, message }
}

impl RpcError {
    pub fn parse(reason: &str) -> (r: RpcError)
        ensures
            r@ == unparsable(reason@),
    {
        RpcError { code: -32700, message: cat("parse error: ", reason) }
    }

    pub fn method_not_found(method: &str) -> (r: RpcError)
        ensures
            r@ == unknown_method(method@),
    {
        RpcError { code: -32601, message: cat("unknown method: ", method) }
    }

    pub fn invalid(message: &str) -> (r: RpcError)
        ensures
            r@ == invalid_params(message@),
    {
        RpcError { code: -32602, message: message.to_owned() }
    }
}

/// What a line asks for.
#[derive(Debug)]
pub enum Step {
    /// Nothing that is answered.
    Ignore,
    Fail { id: String, error: RpcError },
    Initialize { id: String, protocol: String },
    Ping { id: String },
    Tools { id: String },
    Call { id: String, tool: String, args: ToolArgs },
}

#[verifier::ext_equal]
pub enum StepView {
    Ignore,
    Fail { id: Seq<char>, error: RpcErrorView },
    Initialize { id: Seq<char>, protocol: Seq<char> },
    Ping { id: Seq<char> },
    Tools { id: Seq<char> },
    Call { id: Seq<char>, tool: Seq<char>, args: ToolArgsView },
}

impl View for Step {
    type V = StepView;

    open spec fn view(&self) -> StepView {
        match self {
            Step::Ignore => StepView::Ignore,
            Step::Fail { id, error } => StepView::Fail { id: id@, error: error@ },
            Step::Initialize { id, protocol } => StepView::Initialize {
                id: id@,
                protocol: protocol@,
            },
            Step::Ping { id } => StepView::Ping { id: id@ },
            Step::Tools { id } => StepView::Tools { id: id@ },
            Step::Call { id, tool, args } => StepView::Call { id: id@, tool: tool@, args: args@ },
        }
    }
}

/// What a request asks for. Notifications have no id and are not answered at
/// all: replying to one is a protocol violation that some clients treat as
/// fatal.
pub open spec fn dispatched(q: RequestView) -> StepView {
    match q.id {
        None => StepView::Ignore,
        Some(id) => {
            let method = match q.method {
                Some(m) => m,
                None => ""@,
            };
            if method == "initialize"@ {
                StepView::Initialize {
                    id,
                    protocol: match q.protocol {
                        Some(p) => p,
                        None => DEFAULT_PROTOCOL@,
                    },
                }
            } else if method == "ping"@ {
                StepView::Ping { id }
            } else if method == "tools/list"@ {
                StepView::Tools { id }
            } else if method == "tools/call"@ {
                match q.tool {
                    Some(tool) => StepView::Call { id, tool, args: q.args },
                    None => StepView::Fail { id, error: invalid_params("missing tool name"@) },
                }
            } else {
                StepView::Fail { id, error: unknown_method(method) }
            }
        },
    }
}

/// Decides what a request asks for.
pub fn dispatch(q: Request) -> (r: Step)
    ensures
        r@ == dispatched(q@),
{
    let id = match q.id {
        Some(id) => id,
        None => {
            return Step::Ignore;
        },
    };
    let method = match q.method {
        Some(m) => m,
        None => "".to_owned(),
    };
    let m = method.as_str();
    if same(m, "initialize") {
        let protocol = match q.protocol {
            Some(p) => p,
            None => DEFAULT_PROTOCOL.to_owned(),
        };
        Step::Initialize { id, protocol }
    } else if same(m, "ping") {
        Step::Ping { id }
    } else if same(m, "tools/list") {
        Step::Tools { id }
    } else if same(m, "tools/call") {
        match q.tool {
            Some(tool) => Step::Call { id, tool, args: q.args },
            None => Step::Fail { id, error: RpcError::invalid("missing tool name") },
        }
    } else {
        Step::Fail { id, error: RpcError::method_not_found(m) }
    }
}

/// What a line asks for: nothing where it is blank, and an error where it is no
/// JSON.
pub open spec fn asked_in(line: Seq<char>) -> StepView {
    if is_blank(line) {
        StepView::Ignore
    } else {
        match parse_failure(line) {
            Some(reason) => StepView::Fail { id: "null"@, error: unparsable(reason) },
            None => dispatched(request_in(line)),
        }
    }
}

/// Decides what a line asks for.
pub fn serve(line: &str) -> (r: Step)
    ensures
        r@ == asked_in(line@),
{
    if blank(line) {
        return Step::Ignore;
    }
    match parse_error(line) {
        Some(reason) => Step::Fail {
            id: "null".to_owned(),
            error: RpcError::parse(reason.as_str()),
        },
        None => dispatch(read_request(line)),
    }
}

// ---------------------------------------------------------------------------
// Answers
// ---------------------------------------------------------------------------

/// The frame around a result. Both arguments are JSON.
pub open spec fn result_text(id: Seq<char>, result: Seq<char>) -> Seq<char> {
    "{\"id\":"@ + id + ",\"jsonrpc\":\"2.0\",\"result\":"@ + result + "}"@
}

/// The frame around a result. Both arguments are JSON.
pub fn result_frame(id: &str, result: &str) -> (r: String)
    ensures
        r@ == result_text(id@, result@),
{
    let mut out = cat("{\"id\":", id);
    out.append(",\"jsonrpc\":\"2.0\",\"result\":");
    out.append(result);
    out.append("}");
    out
}

/// The frame around a fault, with its message already in JSON.
pub open spec fn error_text(id: Seq<char>, code: int, message: Seq<char>) -> Seq<char> {
    "{\"error\":{\"code\":"@ + signed(code) + ",\"message\":"@ + message + "},\"id\":"@ + id
        + ",\"jsonrpc\":\"2.0\"}"@
}

/// The frame around a fault.
pub fn error_frame(id: &str, error: &RpcError) -> (r: String)
    ensures
        r@ == error_text(id@, error@.code, json_string(error@.message)),
{
    let code = to_signed(error.code);
    let message = quote(error.message.as_str());
    let mut out = cat("{\"error\":{\"code\":", code.as_str());
    out.append(",\"message\":");
    out.append(message.as_str());
    out.append("},\"id\":");
    out.append(id);
    out.append(",\"jsonrpc\":\"2.0\"}");
    out
}

/// What a client is told when it connects.
pub open spec fn welcome(protocol: Seq<char>, version: Seq<char>) -> Seq<char> {
    "{\"capabilities\":{\"tools\":{}},\"protocolVersion\":"@ + json_string(protocol)
        + ",\"serverInfo\":{\"name\":\"clt\",\"version\":"@ + json_string(version) + "}}"@
}

/// What a client is told when it connects.
pub fn initialize_result(protocol: &str, version: &str) -> (r: String)
    ensures
        r@ == welcome(protocol@, version@),
{
    let p = quote(protocol);
    let v = quote(version);
    let mut out = cat("{\"capabilities\":{\"tools\":{}},\"protocolVersion\":", p.as_str());
    out.append(",\"serverInfo\":{\"name\":\"clt\",\"version\":");
    out.append(v.as_str());
    out.append("}}");
    out
}

/// What a tool said, whether it failed or not. A failure is a result all the
/// same: that is what lets the model read the message and correct itself
/// instead of the client treating it as a transport fault.
pub open spec fn tool_result_text(text: Seq<char>, is_error: bool) -> Seq<char> {
    "{\"content\":[{\"text\":"@ + json_string(text) + ",\"type\":\"text\"}],\"isError\":"@ + (
    if is_error {
        "true"@
    } else {
        "false"@
    }) + "}"@
}

/// What a tool said, whether it failed or not.
pub fn tool_result(text: &str, is_error: bool) -> (r: String)
    ensures
        r@ == tool_result_text(text@, is_error),
{
    let t = quote(text);
    let mut out = cat("{\"content\":[{\"text\":", t.as_str());
    out.append(",\"type\":\"text\"}],\"isError\":");
    if is_error {
        out.append("true");
    } else {
        out.append("false");
    }
    out.append("}");
    out
}

// ---------------------------------------------------------------------------
// The advertised tools
// ---------------------------------------------------------------------------

/// What an argument may be.
#[derive(Debug, Clone, Copy, PartialEq, Eq, Structural)]
pub enum Kind {
    Flag,
    Text,
    Number,
    Numbers,
}

/// An argument of a tool.
#[derive(Debug)]
pub struct Property {
    pub name: &'static str,
    pub kind: Kind,
    pub description: Option<&'static str>,
}

#[verifier::ext_equal]
pub struct PropertyView {
    pub name: Seq<char>,
    pub kind: Kind,
    pub description: Option<Seq<char>>,
}

impl View for Property {
    type V = PropertyView;

    open spec fn view(&self) -> PropertyView {
        PropertyView {
            name: self.name@,
            kind: self.kind,
            description: opt_str_view(self.description),
        }
    }
}

/// A tool, as it is advertised.
#[derive(Debug)]
pub struct Tool {
    pub name: &'static str,
    pub description: &'static str,
    pub properties: Vec<Property>,
    pub required: Option<&'static str>,
}

#[verifier::ext_equal]
pub struct ToolView {
    pub name: Seq<char>,
    pub description: Seq<char>,
    pub properties: Seq<PropertyView>,
    pub required: Option<Seq<char>>,
}

pub open spec fn property_views(v: Seq<Property>) -> Seq<PropertyView> {
    Seq::new(v.len(), |i: int| v[i]@)
}

impl View for Tool {
    type V = ToolView;

    open spec fn view(&self) -> ToolView {
        ToolView {
            name: self.name@,
            description: self.description@,
            properties: property_views(self.properties@),
            required: opt_str_view(self.required),
        }
    }
}

pub open spec fn tool_views(v: Seq<Tool>) -> Seq<ToolView> {
    Seq::new(v.len(), |i: int| v[i]@)
}

pub open spec fn property(name: Seq<char>, kind: Kind, description: Seq<char>) -> PropertyView {
    PropertyView { name, kind, description: Some(description) }
}

pub open spec fn bare_property(name: Seq<char>, kind: Kind) -> PropertyView {
    PropertyView { name, kind, description: None }
}

fn told_property(name: &'static str, kind: Kind, description: &'static str) -> (r: Property)
    ensures
        r@ == property(name@, kind, description@),
{
    Property { name, kind, description: Some(description) }
}

fn plain_property(name: &'static str, kind: Kind) -> (r: Property)
    ensures
        r@ == bare_property(name@, kind),
{
    Property { name, kind, description: None }
}

pub open spec fn list_tool() -> ToolView {
    ToolView {
        name: "clt_list"@,
        description: "List tasks for the current git branch. Repo-wide tasks always appear. Returns JSON including each task's id, state, parent (for nesting) and source location."@,
        properties: seq![
            property("all"@, Kind::Flag, "Every branch, not just the current one"@),
            property("include_done"@, Kind::Flag, "Include completed tasks"@),
        ],
        required: None,
    }
}

fn list_definition() -> (r: Tool)
    ensures
        r@ == list_tool(),
{
    let mut properties: Vec<Property> = Vec::new();
    properties.push(told_property("all", Kind::Flag, "Every branch, not just the current one"));
    properties.push(told_property("include_done", Kind::Flag, "Include completed tasks"));
    assert(property_views(properties@) =~= list_tool().properties);
    Tool {
        name: "clt_list",
        description: "List tasks for the current git branch. Repo-wide tasks always appear. Returns JSON including each task's id, state, parent (for nesting) and source location.",
        properties,
        required: None,
    }
}

pub open spec fn add_tool() -> ToolView {
    ToolView {
        name: "clt_add"@,
        description: "File a task on the current branch. Use this when you find work you are not doing right now — a bug you noticed in passing, a follow-up, something the user should decide. Set `file` to the source location it concerns."@,
        properties: seq![
            property("file"@, Kind::Text, "Location as path or path:line"@),
            property("note"@, Kind::Text, "Detail, context, reproduction"@),
            property("parent"@, Kind::Number, "Id of a task to nest this under"@),
            property("repo"@, Kind::Flag, "Visible on every branch, not just this one"@),
            property("title"@, Kind::Text, "One line, specific"@),
        ],
        required: Some("title"@),
    }
}

fn add_definition() -> (r: Tool)
    ensures
        r@ == add_tool(),
{
    let mut properties: Vec<Property> = Vec::new();
    properties.push(told_property("file", Kind::Text, "Location as path or path:line"));
    properties.push(told_property("note", Kind::Text, "Detail, context, reproduction"));
    properties.push(told_property("parent", Kind::Number, "Id of a task to nest this under"));
    properties.push(
        told_property("repo", Kind::Flag, "Visible on every branch, not just this one"),
    );
    properties.push(told_property("title", Kind::Text, "One line, specific"));
    assert(property_views(properties@) =~= add_tool().properties);
    Tool {
        name: "clt_add",
        description: "File a task on the current branch. Use this when you find work you are not doing right now — a bug you noticed in passing, a follow-up, something the user should decide. Set `file` to the source location it concerns.",
        properties,
        required: Some("title"),
    }
}

pub open spec fn edit_tool() -> ToolView {
    ToolView {
        name: "clt_edit"@,
        description: "Change a task's title, note or source location. An empty note removes it."@,
        properties: seq![
            property("file"@, Kind::Text, "Location as path or path:line"@),
            bare_property("id"@, Kind::Number),
            property("note"@, Kind::Text, "Detail, context, reproduction"@),
            property("title"@, Kind::Text, "One line, specific"@),
        ],
        required: Some("id"@),
    }
}

fn edit_definition() -> (r: Tool)
    ensures
        r@ == edit_tool(),
{
    let mut properties: Vec<Property> = Vec::new();
    properties.push(told_property("file", Kind::Text, "Location as path or path:line"));
    properties.push(plain_property("id", Kind::Number));
    properties.push(told_property("note", Kind::Text, "Detail, context, reproduction"));
    properties.push(told_property("title", Kind::Text, "One line, specific"));
    assert(property_views(properties@) =~= edit_tool().properties);
    Tool {
        name: "clt_edit",
        description: "Change a task's title, note or source location. An empty note removes it.",
        properties,
        required: Some("id"),
    }
}

pub open spec fn close_tool() -> ToolView {
    ToolView {
        name: "clt_close"@,
        description: "Mark tasks done. Closing a task also closes everything nested under it."@,
        properties: seq![bare_property("ids"@, Kind::Numbers)],
        required: Some("ids"@),
    }
}

fn close_definition() -> (r: Tool)
    ensures
        r@ == close_tool(),
{
    let mut properties: Vec<Property> = Vec::new();
    properties.push(plain_property("ids", Kind::Numbers));
    assert(property_views(properties@) =~= close_tool().properties);
    Tool {
        name: "clt_close",
        description: "Mark tasks done. Closing a task also closes everything nested under it.",
        properties,
        required: Some("ids"),
    }
}

pub open spec fn start_tool() -> ToolView {
    ToolView {
        name: "clt_start"@,
        description: "Mark a task as in progress."@,
        properties: seq![bare_property("id"@, Kind::Number)],
        required: Some("id"@),
    }
}

fn start_definition() -> (r: Tool)
    ensures
        r@ == start_tool(),
{
    let mut properties: Vec<Property> = Vec::new();
    properties.push(plain_property("id", Kind::Number));
    assert(property_views(properties@) =~= start_tool().properties);
    Tool {
        name: "clt_start",
        description: "Mark a task as in progress.",
        properties,
        required: Some("id"),
    }
}

pub open spec fn reopen_tool() -> ToolView {
    ToolView {
        name: "clt_reopen"@,
        description: "Move tasks back to todo. What is nested under them stays as it is."@,
        properties: seq![bare_property("ids"@, Kind::Numbers)],
        required: Some("ids"@),
    }
}

fn reopen_definition() -> (r: Tool)
    ensures
        r@ == reopen_tool(),
{
    let mut properties: Vec<Property> = Vec::new();
    properties.push(plain_property("ids", Kind::Numbers));
    assert(property_views(properties@) =~= reopen_tool().properties);
    Tool {
        name: "clt_reopen",
        description: "Move tasks back to todo. What is nested under them stays as it is.",
        properties,
        required: Some("ids"),
    }
}

pub open spec fn search_tool() -> ToolView {
    ToolView {
        name: "clt_search"@,
        description: "Search every branch for tasks matching text in their title, note or file path."@,
        properties: seq![bare_property("query"@, Kind::Text)],
        required: Some("query"@),
    }
}

fn search_definition() -> (r: Tool)
    ensures
        r@ == search_tool(),
{
    let mut properties: Vec<Property> = Vec::new();
    properties.push(plain_property("query", Kind::Text));
    assert(property_views(properties@) =~= search_tool().properties);
    Tool {
        name: "clt_search",
        description: "Search every branch for tasks matching text in their title, note or file path.",
        properties,
        required: Some("query"),
    }
}

/// Every tool there is.
pub open spec fn all_tools() -> Seq<ToolView> {
    seq![
        list_tool(),
        add_tool(),
        edit_tool(),
        close_tool(),
        start_tool(),
        reopen_tool(),
        search_tool(),
    ]
}

/// Every tool there is.
pub fn tool_definitions() -> (r: Vec<Tool>)
    ensures
        tool_views(r@) == all_tools(),
{
    let mut tools: Vec<Tool> = Vec::new();
    tools.push(list_definition());
    tools.push(add_definition());
    tools.push(edit_definition());
    tools.push(close_definition());
    tools.push(start_definition());
    tools.push(reopen_definition());
    tools.push(search_definition());
    assert(tool_views(tools@) =~= all_tools());
    tools
}

/// The type of an argument, in JSON.
pub open spec fn kind_text(kind: Kind) -> Seq<char> {
    match kind {
        Kind::Flag => "\"type\":\"boolean\"}"@,
        Kind::Text => "\"type\":\"string\"}"@,
        Kind::Number => "\"type\":\"integer\"}"@,
        Kind::Numbers => "\"items\":{\"type\":\"integer\"},\"type\":\"array\"}"@,
    }
}

fn kind_json(kind: Kind) -> (r: &'static str)
    ensures
        r@ == kind_text(kind),
{
    match kind {
        Kind::Flag => "\"type\":\"boolean\"}",
        Kind::Text => "\"type\":\"string\"}",
        Kind::Number => "\"type\":\"integer\"}",
        Kind::Numbers => "\"items\":{\"type\":\"integer\"},\"type\":\"array\"}",
    }
}

pub open spec fn property_text(p: PropertyView) -> Seq<char> {
    json_string(p.name) + ":{"@ + (match p.description {
        Some(d) => "\"description\":"@ + json_string(d) + ","@,
        None => ""@,
    }) + kind_text(p.kind)
}

fn property_json(p: &Property) -> (r: String)
    ensures
        r@ == property_text(p@),
{
    let mut out = quote(p.name);
    out.append(":{");
    let middle = match p.description {
        Some(d) => {
            let q = quote(d);
            let mut m = cat("\"description\":", q.as_str());
            m.append(",");
            m
        },
        None => "".to_owned(),
    };
    out.append(middle.as_str());
    out.append(kind_json(p.kind));
    out
}

pub open spec fn property_texts(ps: Seq<PropertyView>) -> Seq<Seq<char>> {
    Seq::new(ps.len(), |i: int| property_text(ps[i]))
}

pub open spec fn tool_text(t: ToolView) -> Seq<char> {
    "{\"description\":"@ + json_string(t.description) + ",\"inputSchema\":{\"properties\":{"@
        + joined(property_texts(t.properties), ","@) + "}"@ + (match t.required {
        Some(r) => ",\"required\":["@ + json_string(r) + "]"@,
        None => ""@,
    }) + ",\"type\":\"object\"},\"name\":"@ + json_string(t.name) + "}"@
}

fn tool_json(t: &Tool) -> (r: String)
    ensures
        r@ == tool_text(t@),
{
    let ghost ps = t@.properties;
    let mut parts: Vec<String> = Vec::new();
    assert(views(parts@) =~= property_texts(ps).take(0));
    let mut i: usize = 0;
    while i < t.properties.len()
        invariant
            i <= t.properties@.len(),
            ps == property_views(t.properties@),
            views(parts@) == property_texts(ps).take(i as int),
        decreases t.properties@.len() - i,
    {
        let ghost so_far = parts@;
        let p = property_json(&t.properties[i]);
        parts.push(p);
        assert(views(parts@) =~= views(so_far).push(property_text(ps[i as int])));
        assert(views(parts@) =~= property_texts(ps).take(i + 1));
        i += 1;
    }
    assert(views(parts@) =~= property_texts(ps));
    let d = quote(t.description);
    let n = quote(t.name);
    let all = join(&parts, ",");
    let required = match t.required {
        Some(r) => {
            let q = quote(r);
            let mut s = cat(",\"required\":[", q.as_str());
            s.append("]");
            s
        },
        None => "".to_owned(),
    };
    let mut out = cat("{\"description\":", d.as_str());
    out.append(",\"inputSchema\":{\"properties\":{");
    out.append(all.as_str());
    out.append("}");
    out.append(required.as_str());
    out.append(",\"type\":\"object\"},\"name\":");
    out.append(n.as_str());
    out.append("}");
    out
}

pub open spec fn tool_texts(ts: Seq<ToolView>) -> Seq<Seq<char>> {
    Seq::new(ts.len(), |i: int| tool_text(ts[i]))
}

/// The list of tools, in JSON.
pub fn tools_result(tools: &Vec<Tool>) -> (r: String)
    ensures
        r@ == "{\"tools\":["@ + joined(tool_texts(tool_views(tools@)), ","@) + "]}"@,
{
    let ghost ts = tool_views(tools@);
    let mut parts: Vec<String> = Vec::new();
    assert(views(parts@) =~= tool_texts(ts).take(0));
    let mut i: usize = 0;
    while i < tools.len()
        invariant
            i <= tools@.len(),
            ts == tool_views(tools@),
            views(parts@) == tool_texts(ts).take(i as int),
        decreases tools@.len() - i,
    {
        let ghost so_far = parts@;
        let p = tool_json(&tools[i]);
        parts.push(p);
        assert(views(parts@) =~= views(so_far).push(tool_text(ts[i as int])));
        assert(views(parts@) =~= tool_texts(ts).take(i + 1));
        i += 1;
    }
    assert(views(parts@) =~= tool_texts(ts));
    let all = join(&parts, ",");
    let mut out = cat("{\"tools\":[", all.as_str());
    out.append("]}");
    out
}

// ---------------------------------------------------------------------------
// What holds of the protocol
// ---------------------------------------------------------------------------

/// A request without an id is not answered, whatever it asks for.
pub proof fn law_notifications_are_not_answered(q: RequestView)
    requires
        q.id is None,
    ensures
        dispatched(q) == StepView::Ignore,
{
}

/// A request with an id is answered, and the answer carries that id.
pub proof fn law_requests_are_answered_by_id(q: RequestView, id: Seq<char>)
    requires
        q.id == Some(id),
    ensures
        match dispatched(q) {
            StepView::Ignore => false,
            StepView::Fail { id: i, error: _ } => i == id,
            StepView::Initialize { id: i, protocol: _ } => i == id,
            StepView::Ping { id: i } => i == id,
            StepView::Tools { id: i } => i == id,
            StepView::Call { id: i, tool: _, args: _ } => i == id,
        },
{
}

/// Whatever is advertised is known, and nothing else is.
pub proof fn law_exactly_the_advertised_tools_are_known(
    d: DataView,
    here: Option<Seq<char>>,
    name: Seq<char>,
    a: ToolArgsView,
    who: Option<Seq<char>>,
    now: Moment,
)
    ensures
        (exists|i: int| 0 <= i < all_tools().len() && (#[trigger] all_tools()[i]).name == name)
            <==> called(d, here, name, a, who, now) != Err::<CalledView, ToolErrorView>(
            ToolErrorView::Unknown { name },
        ),
{
    let ts = all_tools();
    if exists|i: int| 0 <= i < ts.len() && (#[trigger] ts[i]).name == name {
        let i = choose|i: int| 0 <= i < ts.len() && (#[trigger] ts[i]).name == name;
        assert(ts[i].name == "clt_list"@ || ts[i].name == "clt_add"@ || ts[i].name == "clt_edit"@
            || ts[i].name == "clt_close"@ || ts[i].name == "clt_start"@ || ts[i].name
            == "clt_reopen"@ || ts[i].name == "clt_search"@);
    } else {
        assert(ts[0].name == "clt_list"@);
        assert(ts[1].name == "clt_add"@);
        assert(ts[2].name == "clt_edit"@);
        assert(ts[3].name == "clt_close"@);
        assert(ts[4].name == "clt_start"@);
        assert(ts[5].name == "clt_reopen"@);
        assert(ts[6].name == "clt_search"@);
    }
}

/// What each method asks for. A client is answered in the version of the
/// protocol that it names; a call needs the name of a tool, and is made with the
/// arguments that came along; and a method that nobody knows is refused.
pub proof fn law_what_a_method_asks_for(q: RequestView, id: Seq<char>, method: Seq<char>)
    requires
        q.id == Some(id),
        q.method == Some(method),
    ensures
        method == "initialize"@ ==> (dispatched(q) matches StepView::Initialize {
            id: i,
            protocol,
        } && i == id && (q.protocol is Some ==> protocol == q.protocol->0) && (q.protocol is None
            ==> protocol == "2025-06-18"@)),
        method == "ping"@ ==> dispatched(q) == (StepView::Ping { id }),
        method == "tools/list"@ ==> dispatched(q) == (StepView::Tools { id }),
        method == "tools/call"@ && q.tool is Some ==> dispatched(q) == (StepView::Call {
            id,
            tool: q.tool->0,
            args: q.args,
        }),
        method == "tools/call"@ && q.tool is None ==> (dispatched(q) matches StepView::Fail {
            id: i,
            error,
        } && i == id && error.code == -32602),
        method != "initialize"@ && method != "ping"@ && method != "tools/list"@ && method
            != "tools/call"@ ==> (dispatched(q) matches StepView::Fail { id: i, error } && i == id
            && error.code == -32601 && error.message == "unknown method: "@ + method),
{
    reveal_strlit("initialize");
    reveal_strlit("ping");
    reveal_strlit("tools/list");
    reveal_strlit("tools/call");
    assert("initialize"@[0] == 'i' && "ping"@[0] == 'p');
    assert("tools/list"@[6] == 'l' && "tools/call"@[6] == 'c' && "tools/list"@[0] == 't');
    assert("tools/call"@[0] == 't');
}

/// A line that is blank asks for nothing, and one that is no JSON is answered
/// with a fault that says why, under no id.
pub proof fn law_what_is_no_request(line: Seq<char>, reason: Seq<char>)
    ensures
        is_blank(line) ==> asked_in(line) == StepView::Ignore,
        !is_blank(line) && parse_failure(line) == Some(reason) ==> (asked_in(
            line,
        ) matches StepView::Fail { id, error } && id == "null"@ && error.code == -32700
            && error.message == "parse error: "@ + reason),
        !is_blank(line) && parse_failure(line) is None ==> asked_in(line) == dispatched(
            request_in(line),
        ),
{
}

/// The ids in a call are the whole numbers of its list, in their order; what is
/// none is passed over, and without a list there are none.
pub proof fn law_what_ids_a_call_names(line: Seq<char>, n: nat)
    ensures
        length_in(line, "/params/arguments/ids"@) is None ==> ids_in(line) is None,
        length_in(line, "/params/arguments/ids"@) == Some(n as usize) && n <= usize::MAX ==> ids_in(
            line,
        ) == Some(ids_upto(line, n)),
        ids_upto(line, 0).len() == 0,
        ids_upto(line, n + 1) == ids_upto(line, n) + (match number_in(
            line,
            "/params/arguments/ids/"@ + decimal(n),
        ) {
            Some(v) => seq![v],
            None => Seq::empty(),
        }),
{
    let more = match number_in(line, "/params/arguments/ids/"@ + decimal(n)) {
        Some(v) => seq![v],
        None => Seq::empty(),
    };
    assert(ids_upto(line, n + 1) =~= ids_upto(line, n) + more);
}

/// Each argument is read from its own place in a call.
pub proof fn law_where_the_arguments_are(line: Seq<char>)
    ensures
        request_in(line).id == value_in(line, "/id"@),
        request_in(line).method == string_in(line, "/method"@),
        request_in(line).protocol == string_in(line, "/params/protocolVersion"@),
        request_in(line).tool == string_in(line, "/params/name"@),
        ({
            let a = request_in(line).args;
            &&& a.all == bool_in(line, "/params/arguments/all"@)
            &&& a.include_done == bool_in(line, "/params/arguments/include_done"@)
            &&& a.title == string_in(line, "/params/arguments/title"@)
            &&& a.note == string_in(line, "/params/arguments/note"@)
            &&& a.file == string_in(line, "/params/arguments/file"@)
            &&& a.parent == number_in(line, "/params/arguments/parent"@)
            &&& a.repo == bool_in(line, "/params/arguments/repo"@)
            &&& a.id == number_in(line, "/params/arguments/id"@)
            &&& a.query == string_in(line, "/params/arguments/query"@)
        }),
{
}

/// Every tool that needs something says so, and tells of everything it takes.
pub proof fn law_tools_say_what_they_take(t: ToolView)
    requires
        all_tools().contains(t),
    ensures
        t.required matches Some(r) ==> exists|i: int|
            0 <= i < t.properties.len() && (#[trigger] t.properties[i]).name == r,
        t.name != "clt_list"@ ==> t.required is Some,
{
    let k = choose|k: int| 0 <= k < all_tools().len() && all_tools()[k] == t;
    let p = t.properties;
    if k == 1 {
        assert(p[4].name == "title"@);
    } else if k == 2 {
        assert(p[1].name == "id"@);
    } else if k > 2 {
        assert(p[0].name == t.required->0);
    }
}

} // verus!
