//! What an agent can ask for, and how it is answered.

use clt::git::Repo;
use clt::mcp::{
    dispatch, error_frame, initialize_result, read_request, result_frame, serve, tool_definitions,
    tool_result, tools_result, Request, RpcError, Step, DEFAULT_PROTOCOL,
};
use clt::store::{Access, Data, Scope, Store};
use clt::task::{State, Task};
use clt::time::Moment;
use clt::tools::{
    agent, call_tool, search_tasks, takes_id, tool_access, Called, Reply, ToolArgs, ToolError,
};

fn at(secs: i64) -> Moment {
    Moment::new(secs, 0).unwrap()
}

fn repo() -> Store {
    Store {
        scope: Scope::Repo(Repo {
            root: "/r".to_string(),
            git_common_dir: ".git".to_string(),
            branch: Some("main".to_string()),
        }),
        data: Data::default(),
        warnings: Vec::new(),
        migrated: false,
    }
}

/// The line of a call of a tool.
fn call(id: u64, tool: &str, arguments: &str) -> String {
    format!(
        "{{\"jsonrpc\":\"2.0\",\"id\":{id},\"method\":\"tools/call\",\
         \"params\":{{\"name\":\"{tool}\",\"arguments\":{arguments}}}}}"
    )
}

/// What a line does to a list.
fn answer(store: &mut Store, line: &str) -> Result<Called, ToolError> {
    match serve(line) {
        Step::Call { tool, args, .. } => {
            let who = agent(None);
            call_tool(store, Some(&who), at(5), &tool, &args)
        }
        other => panic!("{other:?}"),
    }
}

fn done(r: Result<Called, ToolError>) -> Called {
    match r {
        Ok(c) => c,
        Err(e) => panic!("tool reported an error: {}", e.message()),
    }
}

fn field<'a>(v: &'a serde_json::Value, path: &str) -> &'a serde_json::Value {
    v.pointer(path).unwrap_or_else(|| panic!("no {path} in {v}"))
}

#[test]
fn the_advertised_tools_cover_creating_and_correcting_a_task() {
    let frame = result_frame("1", &tools_result(&tool_definitions()));
    let v: serde_json::Value = serde_json::from_str(&frame).unwrap();
    let names: Vec<&str> = field(&v, "/result/tools")
        .as_array()
        .expect("a tool list")
        .iter()
        .filter_map(|t| t["name"].as_str())
        .collect();

    for expected in [
        "clt_list",
        "clt_add",
        "clt_close",
        "clt_start",
        "clt_reopen",
        "clt_edit",
        "clt_search",
    ] {
        assert!(names.contains(&expected), "missing {expected}; have {names:?}");
    }
    assert_eq!(names.len(), 7);
    let add = &v["result"]["tools"][1];
    assert_eq!(add["inputSchema"]["required"][0], "title");
    assert_eq!(add["inputSchema"]["properties"]["parent"]["type"], "integer");
    let close = &v["result"]["tools"][3];
    assert_eq!(close["inputSchema"]["properties"]["ids"]["items"]["type"], "integer");
}

#[test]
fn an_agent_can_file_correct_close_and_reopen_a_task() {
    // Before, an agent could create a task but never fix one: a mistake could
    // only be closed and re-filed, which loses its history.
    let mut store = repo();
    done(answer(&mut store, &call(1, "clt_add", "{\"title\": \"vaguely worded thing\"}")));
    done(answer(
        &mut store,
        &call(
            2,
            "clt_edit",
            "{\"id\": 1, \"title\": \"token refresh races on 401\", \
             \"note\": \"two requests refresh at once\", \"file\": \"src/auth.rs:88\"}",
        ),
    ));
    done(answer(&mut store, &call(3, "clt_close", "{\"ids\": [1]}")));
    assert_eq!(store.get(1).unwrap().state, State::Done);
    done(answer(&mut store, &call(4, "clt_reopen", "{\"ids\": [1]}")));

    let t = store.get(1).unwrap();
    assert_eq!(t.title, "token refresh races on 401");
    assert_eq!(t.state.as_str(), "todo", "reopened");
    assert_eq!(t.note.as_deref(), Some("two requests refresh at once"));
    assert_eq!(t.location.as_ref().unwrap().line, Some(88));
    assert_eq!(t.actor.as_deref(), Some("agent"), "MCP changes are attributed to the agent");
}

#[test]
fn closing_through_mcp_cascades_exactly_like_the_cli() {
    // The MCP server used to carry its own copy of the transition rules, and
    // copies drift.
    let mut store = repo();
    done(answer(&mut store, &call(1, "clt_add", "{\"title\": \"parent\"}")));
    done(answer(&mut store, &call(1, "clt_add", "{\"title\": \"child\", \"parent\": 1}")));

    let c = done(answer(&mut store, &call(1, "clt_close", "{\"ids\": [1]}")));
    assert_eq!(store.get(1).unwrap().state.as_str(), "done");
    assert_eq!(
        store.get(2).unwrap().state.as_str(),
        "done",
        "closing a parent over MCP must close its subtree, as it does on the CLI"
    );
    assert_eq!(c.event, Some("post-done"));
    assert_eq!(c.fire.len(), 1);
    assert_eq!(c.entries.len(), 2);
}

#[test]
fn tool_failures_come_back_as_results_not_transport_errors() {
    // A model has to be able to read the message and correct itself. A JSON-RPC
    // error would instead look like the connection is broken.
    let mut store = repo();
    for line in [
        call(1, "clt_edit", "{\"id\": 999, \"title\": \"nope\"}"),
        call(2, "clt_edit", "{\"id\": 1}"),
        call(3, "clt_add", "{\"title\": \"   \"}"),
        call(4, "clt_nonexistent", "{}"),
    ] {
        let message = match answer(&mut store, &line) {
            Ok(_) => panic!("{line}"),
            Err(e) => e.message(),
        };
        let frame = result_frame("1", &tool_result(&message, true));
        let v: serde_json::Value = serde_json::from_str(&frame).unwrap();
        assert!(
            v.get("error").is_none(),
            "a tool failure must not be a transport error: {frame}"
        );
        assert_eq!(v["result"]["isError"], true, "expected an in-band error: {frame}");
        assert!(
            !v["result"]["content"][0]["text"].as_str().unwrap_or_default().is_empty(),
            "an error must say something useful: {frame}"
        );
    }
}

#[test]
fn notifications_are_not_answered() {
    // Replying to a request with no id is a protocol violation some clients
    // treat as fatal, and `notifications/initialized` arrives in every session.
    let first = serve(
        "{\"jsonrpc\":\"2.0\",\"id\":0,\"method\":\"initialize\",\
         \"params\":{\"protocolVersion\":\"2025-06-18\"}}",
    );
    assert!(matches!(first, Step::Initialize { .. }));
    let notified = serve("{\"jsonrpc\": \"2.0\", \"method\": \"notifications/initialized\"}");
    assert!(matches!(notified, Step::Ignore));
    assert!(matches!(serve(&call(1, "clt_list", "{}")), Step::Call { .. }));
    assert!(matches!(serve("   "), Step::Ignore));
}

#[test]
fn what_is_no_json_is_a_parse_error() {
    match serve("{oops") {
        Step::Fail { id, error } => {
            assert_eq!((id.as_str(), error.code), ("null", -32700));
            assert!(error.message.starts_with("parse error: "), "{}", error.message);
            let v: serde_json::Value = serde_json::from_str(&error_frame(&id, &error)).unwrap();
            assert_eq!(v["error"]["code"], -32700);
            assert_eq!(v["id"], serde_json::Value::Null);
        }
        other => panic!("{other:?}"),
    }
}

#[test]
fn requests_are_told_apart_by_method() {
    let request = |method: &str| Request {
        id: Some("\"a\"".to_string()),
        method: Some(method.to_string()),
        protocol: None,
        tool: None,
        args: ToolArgs::none(),
    };
    match dispatch(request("initialize")) {
        Step::Initialize { id, protocol } => {
            assert_eq!((id.as_str(), protocol.as_str()), ("\"a\"", DEFAULT_PROTOCOL));
        }
        other => panic!("{other:?}"),
    }
    assert!(matches!(dispatch(request("ping")), Step::Ping { .. }));
    assert!(matches!(dispatch(request("tools/list")), Step::Tools { .. }));
    match dispatch(request("tools/call")) {
        Step::Fail { error, .. } => {
            assert_eq!((error.code, error.message.as_str()), (-32602, "missing tool name"));
        }
        other => panic!("{other:?}"),
    }
    match dispatch(request("resources/list")) {
        Step::Fail { error, .. } => {
            assert_eq!(
                (error.code, error.message.as_str()),
                (-32601, "unknown method: resources/list")
            );
        }
        other => panic!("{other:?}"),
    }
    assert_eq!(RpcError::invalid("x").code, -32602);
}

#[test]
fn a_request_is_read_where_its_values_are() {
    let line = "{\"id\":{\"n\":[1, 2]},\"method\":\"tools/call\",\"params\":{\"name\":\"t\",\
                \"protocolVersion\":\"v\",\"arguments\":{\"all\":true,\"include_done\":false,\
                \"title\":\"a \\\"b\\\"\",\"note\":7,\"parent\":-1,\"id\":4294967297,\
                \"ids\":[3,\"x\",5],\"query\":\"q\"}}}";
    let q = read_request(line);
    assert_eq!(q.id.as_deref(), Some("{\"n\":[1,2]}"));
    assert_eq!(q.method.as_deref(), Some("tools/call"));
    assert_eq!(q.protocol.as_deref(), Some("v"));
    assert_eq!(q.tool.as_deref(), Some("t"));
    assert_eq!((q.args.all, q.args.include_done, q.args.repo), (Some(true), Some(false), None));
    assert_eq!(q.args.title.as_deref(), Some("a \"b\""));
    assert_eq!(q.args.note, None, "a number is no note");
    assert_eq!(q.args.parent, None, "a negative number is no id");
    assert_eq!(q.args.id, Some(4294967297));
    assert_eq!(q.args.ids, Some(vec![3, 5]));
    assert_eq!(q.args.query.as_deref(), Some("q"));
    let none = read_request("{}");
    assert!(none.id.is_none() && none.args.ids.is_none());
}

#[test]
fn frames_are_json_whatever_they_carry() {
    let text = "line\n\"quoted\" \u{1}";
    let v: serde_json::Value =
        serde_json::from_str(&result_frame("7", &tool_result(text, false))).unwrap();
    assert_eq!(v["id"], 7);
    assert_eq!(v["jsonrpc"], "2.0");
    assert_eq!(v["result"]["isError"], false);
    assert_eq!(v["result"]["content"][0]["text"], text);
    assert_eq!(v["result"]["content"][0]["type"], "text");
    let v: serde_json::Value = serde_json::from_str(&initialize_result("p\"q", "0.1")).unwrap();
    assert_eq!(v["protocolVersion"], "p\"q");
    assert_eq!(v["serverInfo"]["name"], "clt");
    assert_eq!(v["serverInfo"]["version"], "0.1");
    assert!(!result_frame("7", "{}").contains('\n'));
}

#[test]
fn an_agent_lists_and_searches() {
    let mut store = repo();
    done(answer(&mut store, &call(1, "clt_add", "{\"title\": \"Parent\", \"repo\": true}")));
    done(answer(&mut store, &call(1, "clt_add", "{\"title\": \"child\", \"parent\": 1}")));
    done(answer(&mut store, &call(1, "clt_start", "{\"id\": 2}")));
    assert_eq!(store.get(2).unwrap().state, State::Doing);
    match done(answer(&mut store, &call(1, "clt_list", "{}"))).reply {
        Reply::List { branch, rows } => {
            assert_eq!(branch.as_deref(), Some("main"));
            let seen: Vec<(u32, usize)> = rows.iter().map(|l| (l.task.id, l.depth)).collect();
            assert_eq!(seen, vec![(1, 0), (2, 1)]);
        }
        _ => panic!("a listing was asked for"),
    }
    match done(answer(&mut store, &call(1, "clt_search", "{\"query\": \"PARENT\"}"))).reply {
        Reply::Many { tasks } => assert_eq!(tasks.len(), 1),
        _ => panic!("tasks were asked for"),
    }
    assert_eq!(search_tasks(&store, "main").len(), 0, "the branch is not searched");
    for (tool, message) in [
        ("clt_search", "query is required"),
        ("clt_close", "ids is required"),
        ("clt_reopen", "ids is required"),
        ("clt_start", "id is required"),
        ("clt_edit", "id is required"),
        ("clt_add", "title is required and must not be empty"),
        ("clt_nope", "unknown tool: clt_nope"),
    ] {
        match answer(&mut store, &call(1, tool, "{}")) {
            Ok(_) => panic!("{tool}"),
            Err(e) => assert_eq!(e.message(), message),
        }
    }
    match answer(&mut store, &call(1, "clt_close", "{\"ids\": [1, 9]}")) {
        Ok(_) => panic!("there is no #9"),
        Err(e) => assert_eq!(e.message(), "no task #9 (try `clt ls --all`)"),
    }
    assert_eq!(store.get(1).unwrap().state, State::Todo);
}

#[test]
fn a_blank_note_is_none_and_odd_ids_wrap() {
    let mut store = repo();
    done(answer(&mut store, &call(1, "clt_add", "{\"title\": \" a \", \"note\": \"  \"}")));
    assert_eq!(store.get(1).unwrap().note, None);
    assert_eq!(store.get(1).unwrap().title, "a");
    done(answer(&mut store, &call(1, "clt_start", "{\"id\": 4294967297}")));
    assert_eq!(store.get(1).unwrap().state, State::Doing);
}

#[test]
fn only_tools_that_write_take_the_lock() {
    for tool in ["clt_add", "clt_edit", "clt_close", "clt_reopen", "clt_start"] {
        assert_eq!(tool_access(tool), Access::Write);
    }
    for tool in ["clt_list", "clt_search", "clt_nope"] {
        assert_eq!(tool_access(tool), Access::Read);
    }
    assert_eq!(agent(None), "agent");
    assert_eq!(agent(Some("  ")), "agent");
    assert_eq!(agent(Some("robot")), "robot");
    let t = Task::new(1, "x", at(1));
    assert!(t.actor.is_none());
}

#[test]
fn strings_are_escaped_and_stay_on_one_line() {
    let text = "a\"b\\c/\u{8}\u{c}\n\r\t\u{0}\u{1f}\u{7f}é→";
    assert_eq!(
        tool_result(text, false),
        "{\"content\":[{\"text\":\"a\\\"b\\\\c/\\b\\f\\n\\r\\t\\u0000\\u001f\u{7f}é→\",\"type\":\"text\"}],\"isError\":false}"
    );
}

#[test]
fn only_a_task_that_will_be_filed_takes_an_id() {
    let store = Store {
        scope: Scope::Global,
        data: Data { next_id: u32::MAX, ..Data::default() },
        warnings: Vec::new(),
        migrated: false,
    };
    let titled = |t: &str| ToolArgs { title: Some(t.to_string()), ..ToolArgs::none() };
    assert!(takes_id(&store, "clt_add", &titled("x")));
    assert!(!takes_id(&store, "clt_add", &titled("  ")));
    assert!(!takes_id(&store, "clt_add", &ToolArgs::none()));
    assert!(!takes_id(&store, "clt_list", &titled("x")));
    let orphan = ToolArgs { parent: Some(4), ..titled("x") };
    assert!(!takes_id(&store, "clt_add", &orphan), "there is no such parent");
}
