use code_execution::client::{
    call_tool, finish_script, get_tools, start_call, CallAction, CodeExecutionClient, PendingCall,
    ScriptOutcome, ToolInput,
};
use code_execution::content::{call_tool_result, CallToolResult, Content};
use code_execution::read_module::handle_read_module;
use code_execution::tool_call::{
    arguments_text, handle_tool_call, read_request, tool_call_value, tool_reply, write_arguments,
    AwaitedReply, DispatchOutcome, HandlerAction,
};
use serde_json::Value;

fn arguments(name: &str, value: Value) -> serde_json::Map<String, Value> {
    let mut args = serde_json::Map::new();
    args.insert(name.to_string(), value);
    args
}

fn answer_text(result: &CallToolResult) -> &str {
    assert_eq!(result.content.len(), 1);
    match &result.content[0] {
        Content::Text { text } => text,
        Content::Other => panic!("Expected text content"),
    }
}

fn refusal(name: &str, args: Option<&serde_json::Map<String, Value>>) -> String {
    match call_tool(name, args) {
        CallAction::Respond { result } => {
            assert_eq!(result.is_error, Some(true));
            answer_text(&result).to_string()
        }
        _ => panic!("Expected an answer"),
    }
}

#[test]
fn test_read_module_not_found() {
    let client = CodeExecutionClient::new(()).unwrap();
    assert!(client.get_info().is_some());

    let mut args = serde_json::Map::new();
    args.insert("path".to_string(), Value::String("nonexistent".to_string()));

    let call = match call_tool("read_module", Some(&args)) {
        CallAction::ListTools { call } => call,
        _ => panic!("Expected a call that waits for tools"),
    };
    let path = match &call {
        PendingCall::ReadModule { path } => path.clone(),
        PendingCall::ExecuteCode { .. } => panic!("Expected a path"),
    };
    let result = handle_read_module(&path, &Vec::new());
    assert!(result.is_err());
    match call.with_tools(Vec::new()) {
        CallAction::Respond { result } => {
            assert_eq!(result.is_error, Some(true));
            assert_eq!(answer_text(&result), "Error: Module not found: nonexistent");
        }
        _ => panic!("Expected an answer"),
    }
}

#[test]
fn the_client_introduces_itself() {
    let client = CodeExecutionClient::new(7_u8).unwrap();
    assert_eq!(client.context, 7);
    let info = client.get_info().unwrap();
    assert_eq!(info.protocol_version, "2025-03-26");
    assert_eq!(info.server_info.name, "code_execution");
    assert_eq!(info.server_info.title.as_deref(), Some("Code Execution"));
    assert_eq!(info.server_info.version, "1.0.0");
    assert_eq!(info.capabilities.tools.as_ref().unwrap().list_changed, Some(false));
    assert!(!info.capabilities.resources && !info.capabilities.prompts);
    let instructions = info.instructions.as_deref().unwrap();
    assert!(instructions.starts_with("BATCH MULTIPLE TOOL CALLS INTO ONE execute_code CALL.\n\n"));
    assert!(instructions.contains("\nWorkflow:\n    1. Use read_module(\"server\")"));
    assert!(instructions.ends_with("use output from one tool as input to the next\n"));
}

#[test]
fn the_extension_has_two_tools() {
    let tools = get_tools();
    assert_eq!(tools.len(), 2);
    assert_eq!(tools[0].name, "execute_code");
    assert!(tools[0].input == ToolInput::Code);
    assert_eq!(tools[0].annotations.title.as_deref(), Some("Execute JavaScript"));
    assert_eq!(tools[0].annotations.destructive_hint, Some(true));
    assert!(tools[0].description.starts_with("Batch multiple MCP tool calls into ONE execution."));
    assert_eq!(tools[1].name, "read_module");
    assert!(tools[1].input == ToolInput::Path);
    assert_eq!(tools[1].annotations.title.as_deref(), Some("Read module"));
    assert_eq!(tools[1].annotations.read_only_hint, Some(true));
    assert!(tools[1].description.ends_with("others are required.\n"));
}

#[test]
fn the_tools_of_the_extension_are_known_and_no_others() {
    for tool in get_tools() {
        let name = match tool.input {
            ToolInput::Code => "code",
            ToolInput::Path => "path",
        };
        let args = arguments(name, Value::String("x".to_string()));
        assert!(matches!(call_tool(&tool.name, Some(&args)), CallAction::ListTools { .. }));
    }
    assert_eq!(refusal("shell", None), "Error: Unknown tool: shell");
}

#[test]
fn only_unlisted_tools_are_answered_as_unknown() {
    let names: Vec<String> = get_tools().into_iter().map(|tool| tool.name).collect();
    let text = || Some("/a/b/c".to_string());
    for name in ["execute_code", "read_module", "execute_code ", "Read_module", "shell", ""] {
        let mut answers = vec![];
        for (code, path) in [(None, None), (text(), None), (None, text()), (text(), text())] {
            let next = match start_call(name, code, path) {
                CallAction::ListTools { call } => call.with_tools(vec![]),
                other => other,
            };
            match next {
                CallAction::Respond { result } => answers.push(result),
                _ => {
                    for outcome in [
                        ScriptOutcome::TaskFailed { message: "Unknown tool: a".to_string() },
                        ScriptOutcome::Ran { result: Ok("Unknown tool: a".to_string()) },
                        ScriptOutcome::Ran { result: Err("Module error: a".to_string()) },
                    ] {
                        answers.push(finish_script(outcome));
                    }
                }
            }
        }
        let unknown = format!("Error: Unknown tool: {}", name);
        for answer in &answers {
            if names.iter().any(|listed| listed == name) {
                assert!(!answer_text(answer).starts_with("Error: Unknown tool: "));
            } else {
                assert_eq!(answer_text(answer), unknown);
            }
        }
    }
}

#[test]
fn a_call_without_its_parameter_is_refused() {
    assert_eq!(refusal("execute_code", None), "Error: Missing required parameter: code");
    let other = arguments("path", Value::String("x".to_string()));
    assert_eq!(refusal("execute_code", Some(&other)), "Error: Missing required parameter: code");
    let number = arguments("path", Value::from(1));
    assert_eq!(refusal("read_module", Some(&number)), "Error: Missing required parameter: path");
}

#[test]
fn each_tool_takes_its_own_parameter() {
    let code = || Some("c".to_string());
    let path = || Some("p".to_string());
    match start_call("execute_code", code(), path()) {
        CallAction::ListTools { call: PendingCall::ExecuteCode { code } } => assert_eq!(code, "c"),
        _ => panic!("Expected a script"),
    }
    match start_call("read_module", code(), path()) {
        CallAction::ListTools { call: PendingCall::ReadModule { path } } => assert_eq!(path, "p"),
        _ => panic!("Expected a path"),
    }
    for (name, code, path, message) in [
        ("execute_code", None, path(), "Error: Missing required parameter: code"),
        ("read_module", code(), None, "Error: Missing required parameter: path"),
        ("", code(), path(), "Error: Unknown tool: "),
    ] {
        match start_call(name, code, path) {
            CallAction::Respond { result } => assert_eq!(answer_text(&result), message),
            _ => panic!("Expected an answer"),
        }
    }
}

#[test]
fn a_script_waits_for_the_tools_and_then_runs() {
    let args = arguments("code", Value::String("f()".to_string()));
    let call = match call_tool("execute_code", Some(&args)) {
        CallAction::ListTools { call } => call,
        _ => panic!("Expected a call that waits for tools"),
    };
    match call.with_tools(Vec::new()) {
        CallAction::RunScript { code, tools } => {
            assert_eq!(code, "f()");
            assert!(tools.is_empty());
        }
        _ => panic!("Expected a run"),
    }
}

#[test]
fn what_came_of_a_run_is_answered() {
    let done = finish_script(ScriptOutcome::Ran { result: Ok("4".to_string()) });
    assert_eq!((done.is_error, answer_text(&done)), (Some(false), "Result: 4"));
    let failed = finish_script(ScriptOutcome::Ran { result: Err("Parse error: x".to_string()) });
    assert_eq!((failed.is_error, answer_text(&failed)), (Some(true), "Error: Parse error: x"));
    let lost = finish_script(ScriptOutcome::TaskFailed { message: "gone".to_string() });
    assert_eq!(answer_text(&lost), "Error: JS execution task failed: gone");
    assert_eq!(lost.is_error, Some(true));
    assert_eq!(call_tool_result(Ok(vec![])).is_error, Some(false));
}

#[test]
fn arguments_are_written_as_json() {
    assert_eq!(write_arguments(None), "{}");
    assert_eq!(write_arguments(Some(Value::String("a\"b\n".to_string()))), "\"a\\\"b\\n\"");
    let args = arguments("command", Value::String("ls".to_string()));
    assert_eq!(write_arguments(Some(Value::Object(args))), "{\"command\":\"ls\"}");
    assert_eq!(arguments_text(None), "{}");
    assert_eq!(arguments_text(Some("[]".to_string())), "[]");
}

#[test]
fn only_objects_arrive_as_arguments() {
    let request = read_request("s__t".to_string(), "{\"a\": [1, null]}");
    assert_eq!(request.name, "s__t");
    let expected = arguments("a", Value::Array(vec![Value::from(1), Value::Null]));
    assert_eq!(request.arguments, Some(expected));
    for text in ["[1]", "\"x\"", "null", "{", "{} x", ""] {
        assert!(read_request("n".to_string(), text).arguments.is_none(), "{}", text);
    }
}

#[test]
fn an_object_arrives_as_it_was_passed() {
    let mut nested = Value::Array(vec![Value::Null]);
    for _ in 0..125 {
        nested = Value::Array(vec![nested]);
    }
    let text = "\u{0}\u{1f}\"\\/\u{7f}\u{2028}\u{1f600}";
    let mut args = arguments("text", Value::String(text.to_string()));
    args.insert("least".to_string(), Value::from(i64::MIN));
    args.insert("most".to_string(), Value::from(u64::MAX));
    args.insert("".to_string(), Value::Bool(true));
    args.insert("nested".to_string(), nested.clone());
    let written = write_arguments(Some(Value::Object(args.clone())));
    match handle_tool_call(true, "s__t".to_string(), &written) {
        HandlerAction::Dispatch { request } => assert_eq!(request.arguments, Some(args.clone())),
        HandlerAction::Reply { .. } => panic!("Expected a dispatch"),
    }
    args.insert("nested".to_string(), Value::Array(vec![nested]));
    let deeper = write_arguments(Some(Value::Object(args)));
    assert!(read_request("s__t".to_string(), &deeper).arguments.is_none());
}

#[test]
fn a_call_without_a_host_is_answered_at_once() {
    match handle_tool_call(false, "s__t".to_string(), "{}") {
        HandlerAction::Reply { result } => {
            assert_eq!(result, Err("Extension manager not available".to_string()));
        }
        HandlerAction::Dispatch { .. } => panic!("Expected an answer"),
    }
}

#[test]
fn the_host_is_answered_for() {
    let text = |s: &str| Content::Text { text: s.to_string() };
    let content = vec![text("a"), Content::Other, text(""), text("b")];
    assert_eq!(tool_reply(DispatchOutcome::Completed { content }), Ok("a\n\nb".to_string()));
    let none = DispatchOutcome::Completed { content: vec![Content::Other] };
    assert_eq!(tool_reply(none), Ok("".to_string()));
    let failed = DispatchOutcome::Failed { message: "m".to_string() };
    assert_eq!(tool_reply(failed), Err("Tool error: m".to_string()));
    let refused = DispatchOutcome::Refused { message: "m".to_string() };
    assert_eq!(tool_reply(refused), Err("Dispatch error: m".to_string()));
}

#[test]
fn a_script_gets_the_answer_to_its_call() {
    assert_eq!(tool_call_value(AwaitedReply::Unsent), Err("Channel unavailable".to_string()));
    let dropped = AwaitedReply::Dropped { message: "closed".to_string() };
    assert_eq!(tool_call_value(dropped), Err("closed".to_string()));
    for result in [Ok("v".to_string()), Err("e".to_string())] {
        assert_eq!(tool_call_value(AwaitedReply::Answered { result: result.clone() }), result);
    }
}
