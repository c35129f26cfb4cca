use code_execution::client::{get_tool_infos, ToolListing};
use code_execution::modules::{create_modules, create_server_module, list_servers, list_tools_of};
use code_execution::read_module::{get_moim, handle_read_module};
use code_execution::content::Content;
use code_execution::tool_info::{McpTool, ToolInfo};
use serde_json::Value;

fn text(s: &str) -> Value {
    Value::String(s.to_string())
}

fn object(members: Vec<(&str, Value)>) -> serde_json::Map<String, Value> {
    let mut map = serde_json::Map::new();
    for (key, value) in members {
        map.insert(key.to_string(), value);
    }
    map
}

fn mcp_tool(name: &str, description: Option<&str>) -> McpTool {
    McpTool {
        name: name.to_string(),
        description: description.map(str::to_string),
        input_schema: serde_json::Map::new(),
        parameter_names: Vec::new(),
    }
}

fn info(server: &str, tool: &str, description: &str) -> ToolInfo {
    ToolInfo {
        server_name: server.to_string(),
        tool_name: tool.to_string(),
        full_name: format!("{}__{}", server, tool),
        description: description.to_string(),
        params: Vec::new(),
    }
}

fn only_text(content: Vec<Content>) -> String {
    assert_eq!(content.len(), 1);
    match content.into_iter().next() {
        Some(Content::Text { text }) => text,
        _ => panic!("Expected text content"),
    }
}

fn names(strings: &[&str]) -> Vec<String> {
    strings.iter().map(|s| s.to_string()).collect()
}

#[test]
fn the_full_name_is_split_at_its_first_separator() {
    let tool = ToolInfo::from_mcp_tool(&mcp_tool("developer__text__editor", None)).unwrap();
    assert_eq!(tool.server_name, "developer");
    assert_eq!(tool.tool_name, "text__editor");
    assert_eq!(tool.full_name, "developer__text__editor");
    assert_eq!(tool.description, "");
    assert!(tool.params.is_empty());
    assert!(ToolInfo::from_mcp_tool(&mcp_tool("developer_shell", None)).is_none());
    let odd = ToolInfo::from_mcp_tool(&mcp_tool("a___b", Some("d"))).unwrap();
    assert_eq!((odd.server_name.as_str(), odd.tool_name.as_str()), ("a", "_b"));
    assert_eq!(odd.description, "d");
}

#[test]
fn parameters_come_from_the_schema() {
    let properties = object(vec![
        ("command", Value::Object(object(vec![("type", text("string"))]))),
        ("timeout", Value::Object(object(vec![("type", text("integer"))]))),
        ("either", Value::Object(object(vec![("type", Value::Array(vec![text("string")]))]))),
        ("loose", Value::Bool(true)),
    ]);
    let required = Value::Array(vec![Value::Null, text("command"), text("unlisted")]);
    let tool = McpTool {
        name: "developer__shell".to_string(),
        description: Some("Run a command.\nWith care.".to_string()),
        input_schema: object(vec![
            ("properties", Value::Object(properties)),
            ("required", required),
        ]),
        parameter_names: names(&["command", "timeout", "either", "loose", "unlisted"]),
    };
    let info = ToolInfo::from_mcp_tool(&tool).unwrap();
    let expected: Vec<(String, String, bool)> = [
        ("command", "string", true),
        ("timeout", "integer", false),
        ("either", "any", false),
        ("loose", "any", false),
        ("unlisted", "any", true),
    ]
    .iter()
    .map(|(n, t, r)| (n.to_string(), t.to_string(), *r))
    .collect();
    assert_eq!(info.params, expected);
    assert_eq!(
        info.to_signature(),
        "shell({ command: string, timeout?: integer, either?: any, loose?: any, unlisted: any }): \
         string - Run a command."
    );
}

#[test]
fn schemas_of_another_shape_give_no_types() {
    for schema in [
        object(vec![("properties", text("x")), ("required", text("a"))]),
        object(vec![("properties", Value::Array(vec![])), ("required", Value::Null)]),
        object(vec![("properties", Value::Object(object(vec![("a", Value::Null)])))]),
    ] {
        let tool = McpTool {
            name: "s__t".to_string(),
            description: None,
            input_schema: schema,
            parameter_names: names(&["a"]),
        };
        let info = ToolInfo::from_mcp_tool(&tool).unwrap();
        assert_eq!(info.params, vec![("a".to_string(), "any".to_string(), false)]);
    }
}

#[test]
fn a_signature_without_parameters_or_description() {
    assert_eq!(info("s", "t", "").to_signature(), "t({  }): string - ");
    assert_eq!(info("s", "t", "\nsecond").to_signature(), "t({  }): string - ");
}

#[test]
fn only_tools_with_a_server_are_known() {
    let tools = vec![mcp_tool("b__y", None), mcp_tool("plain", None), mcp_tool("a__x", None)];
    let infos = get_tool_infos(ToolListing::Listed { tools });
    let full: Vec<&str> = infos.iter().map(|t| t.full_name.as_str()).collect();
    assert_eq!(full, vec!["b__y", "a__x"]);
    assert!(get_tool_infos(ToolListing::NoHost).is_empty());
    assert!(get_tool_infos(ToolListing::Failed).is_empty());
    assert!(get_tool_infos(ToolListing::Listed { tools: vec![] }).is_empty());
}

#[test]
fn modules_are_in_order_and_hold_each_tool_once() {
    let tools = vec![
        info("b", "y", ""),
        info("a", "x", ""),
        info("b", "x", ""),
        info("B", "z", ""),
        info("a", "w", ""),
    ];
    assert_eq!(list_servers(&tools), names(&["B", "a", "b"]));
    let modules = create_modules(&tools);
    let listed: Vec<(&str, Vec<(&str, &str)>)> = modules
        .iter()
        .map(|m| {
            let exports = m.exports.iter();
            let pairs = exports.map(|e| (e.tool_name.as_str(), e.full_name.as_str())).collect();
            (m.name.as_str(), pairs)
        })
        .collect();
    assert_eq!(
        listed,
        vec![
            ("B", vec![("z", "B__z")]),
            ("a", vec![("x", "a__x"), ("w", "a__w")]),
            ("b", vec![("y", "b__y"), ("x", "b__x")]),
        ]
    );
    assert_eq!(create_server_module(&tools, "c").exports.len(), 0);
    assert_eq!(list_tools_of(&tools, "a").len(), 2);
    assert!(create_modules(&vec![]).is_empty());
}

#[test]
fn no_server_is_called_like_the_script() {
    let tools = vec![mcp_tool("__main____x", None), mcp_tool("__main__", None)];
    let infos = get_tool_infos(ToolListing::Listed { tools });
    let servers = list_servers(&infos);
    assert_eq!(servers, names(&[""]));
}

#[test]
fn a_module_is_listed_with_its_signatures() {
    let tools = vec![
        info("developer", "shell", "Run.\nMore."),
        info("other", "x", ""),
        info("developer", "edit", "Edit."),
    ];
    let expected = "// import { shell, edit } from \"developer\";\n\nshell({  }): string - Run.\n\
                    edit({  }): string - Edit.";
    assert_eq!(only_text(handle_read_module("developer", &tools).ok().unwrap()), expected);
    assert_eq!(only_text(handle_read_module("//developer", &tools).ok().unwrap()), expected);
}

#[test]
fn one_tool_is_shown_with_its_description() {
    let tools = vec![info("developer", "shell", "Run.\nMore.")];
    assert_eq!(
        only_text(handle_read_module("/developer/shell", &tools).ok().unwrap()),
        "// import { shell } from \"developer\";\n\nshell({  }): string - Run.\n\nRun.\nMore."
    );
}

#[test]
fn of_two_tools_of_one_name_the_first_is_shown() {
    let tools = vec![info("s", "u", "no"), info("s", "t", "first"), info("s", "t", "second")];
    let shown = only_text(handle_read_module("s/t", &tools).ok().unwrap());
    assert!(shown.ends_with("\n\nfirst"));
}

#[test]
fn paths_that_lead_nowhere() {
    let tools = vec![info("s", "t", "")];
    let error = |path: &str| handle_read_module(path, &tools).err().unwrap();
    assert_eq!(error("x"), "Module not found: x");
    assert_eq!(error(""), "Module not found: ");
    assert_eq!(error("s/u"), "Tool not found: s/u");
    assert_eq!(error("s/"), "Tool not found: s/");
    assert_eq!(error("/s/t/v"), "Invalid path: /s/t/v. Use 'server' or 'server/tool'");
}

#[test]
fn a_path_is_found_for_each_listed_server_and_tool() {
    let tools = vec![info("b", "y", ""), info("a", "x", ""), info("b", "z", "")];
    for server in list_servers(&tools) {
        assert!(handle_read_module(&server, &tools).is_ok());
    }
    for tool in &tools {
        let path = format!("{}/{}", tool.server_name, tool.tool_name);
        assert!(handle_read_module(&path, &tools).is_ok());
    }
    assert!(handle_read_module("c", &tools).is_err());
    assert!(handle_read_module("a/y", &tools).is_err());
}

#[test]
fn the_message_lists_the_modules() {
    let tools = vec![info("b", "y", ""), info("a", "x", ""), info("b", "z", "")];
    assert_eq!(
        get_moim(&tools).unwrap(),
        "ALWAYS batch multiple tool operations into ONE execute_code call.\n\
         - WRONG: Separate execute_code calls for read file, then write file\n\
         - RIGHT: One execute_code with a script that reads AND writes\n\
         \n\
         Modules:\n  a: x\n  b: y, z\n\
         \n\
         Use read_module(\"server\") to see tool signatures before calling unfamiliar tools.\n"
    );
    assert!(get_moim(&vec![]).is_none());
}

#[test]
fn a_tool_is_made_of_its_parts() {
    let params = vec![("a".to_string(), "string".to_string(), true)];
    let made = ToolInfo::from_parts("s__t__u", Some("d".to_string()), params.clone()).unwrap();
    assert_eq!((made.server_name.as_str(), made.tool_name.as_str()), ("s", "t__u"));
    assert_eq!((made.full_name.as_str(), made.description.as_str()), ("s__t__u", "d"));
    assert_eq!(made.params, params);
    assert_eq!(ToolInfo::from_parts("__", None, Vec::new()).unwrap().description, "");
    assert!(ToolInfo::from_parts("s_t", None, Vec::new()).is_none());
}
