//! The extension as its host sees it.
use vstd::prelude::*;

use crate::content::{call_tool_result, text_content, CallToolResult, Content};
use crate::json::{as_str, object_get};
use crate::prompts::{EXECUTE_CODE_DESCRIPTION, INSTRUCTIONS, READ_MODULE_DESCRIPTION};
use crate::read_module::handle_read_module;
use crate::text::same_text;
use crate::tool_info::{McpTool, ToolInfo};
#[allow(unused_imports)]
use crate::content::{answer, one_text, outcome_view, CallToolResultView, ContentView};
#[allow(unused_imports)]
use crate::json::{json_members, member, JsonTree};
#[allow(unused_imports)]
use crate::modules::{law_server_names, modules_of, server_names};
#[allow(unused_imports)]
use crate::read_module::{as_content, module_text, path_parts, path_text, tool_text};
#[allow(unused_imports)]
use crate::script::{ActionView, ReplyView, RunView, SCRIPT_NAME};
#[allow(unused_imports)]
use crate::text::{occurs_at, option_text, result_text};
#[allow(unused_imports)]
use crate::tool_info::{info_of, law_full_name, tool_views, ToolInfoView, NAME_SEPARATOR};

verus! {

/// The name of the extension.
pub const EXTENSION_NAME: &'static str = "code_execution";

/// The name of the tool that runs scripts.
pub const EXECUTE_CODE: &'static str = "execute_code";

/// The name of the tool that reads modules.
pub const READ_MODULE: &'static str = "read_module";

/// The parameter of the tool that runs scripts.
pub const CODE_PARAMETER: &'static str = "code";

/// The parameter of the tool that reads modules.
pub const PATH_PARAMETER: &'static str = "path";

/// What the extension offers with regard to tools.
pub struct ToolsCapability {
    /// Whether it announces that its list of tools has changed.
    pub list_changed: Option<bool>,
}

/// What the extension offers.
pub struct ServerCapabilities {
    pub tools: Option<ToolsCapability>,
    pub resources: bool,
    pub prompts: bool,
    pub completions: bool,
    pub experimental: bool,
    pub logging: bool,
}

/// What the extension calls itself.
pub struct Implementation {
    pub name: String,
    pub title: Option<String>,
    pub version: String,
    /// Where its icons are.
    pub icons: Option<Vec<String>>,
    pub website_url: Option<String>,
}

/// What the extension says on start.
pub struct InitializeResult {
    pub protocol_version: String,
    pub capabilities: ServerCapabilities,
    pub server_info: Implementation,
    pub instructions: Option<String>,
}

impl InitializeResult {
    /// Whether this is what the extension says on start.
    pub open spec fn is_extension_info(self) -> bool {
        &&& self.protocol_version@ == "2025-03-26"@
        &&& self.capabilities.tools == Some(ToolsCapability { list_changed: Some(false) })
        &&& !self.capabilities.resources
        &&& !self.capabilities.prompts
        &&& !self.capabilities.completions
        &&& !self.capabilities.experimental
        &&& !self.capabilities.logging
        &&& self.server_info.name@ == EXTENSION_NAME@
        &&& self.server_info.title matches Some(title) && title@ == "Code Execution"@
        &&& self.server_info.version@ == "1.0.0"@
        &&& self.server_info.icons is None
        &&& self.server_info.website_url is None
        &&& self.instructions matches Some(text) && text@ == INSTRUCTIONS@
    }
}

/// The extension: what it says on start, and the context that its host runs it in.
pub struct CodeExecutionClient<C> {
    pub info: InitializeResult,
    pub context: C,
}

/// What a tool of the extension takes.
#[derive(Clone, Copy, PartialEq, Eq, Structural)]
pub enum ToolInput {
    /// A script, under `code`.
    Code,
    /// A module path, under `path`.
    Path,
}

/// Hints about a tool.
pub struct ToolAnnotations {
    pub title: Option<String>,
    pub read_only_hint: Option<bool>,
    pub destructive_hint: Option<bool>,
    pub idempotent_hint: Option<bool>,
    pub open_world_hint: Option<bool>,
}

/// A tool of the extension.
pub struct ToolDefinition {
    pub name: String,
    pub description: String,
    pub input: ToolInput,
    pub annotations: ToolAnnotations,
}

impl ToolDefinition {
    /// Whether this is the tool that runs scripts.
    pub open spec fn is_execute_code(self) -> bool {
        &&& self.name@ == EXECUTE_CODE@
        &&& self.description@ == EXECUTE_CODE_DESCRIPTION@
        &&& self.input == ToolInput::Code
        &&& self.annotations.title matches Some(title) && title@ == "Execute JavaScript"@
        &&& self.annotations.read_only_hint == Some(false)
        &&& self.annotations.destructive_hint == Some(true)
        &&& self.annotations.idempotent_hint == Some(false)
        &&& self.annotations.open_world_hint == Some(true)
    }

    /// Whether this is the tool that reads modules.
    pub open spec fn is_read_module(self) -> bool {
        &&& self.name@ == READ_MODULE@
        &&& self.description@ == READ_MODULE_DESCRIPTION@
        &&& self.input == ToolInput::Path
        &&& self.annotations.title matches Some(title) && title@ == "Read module"@
        &&& self.annotations.read_only_hint == Some(true)
        &&& self.annotations.destructive_hint == Some(false)
        &&& self.annotations.idempotent_hint == Some(true)
        &&& self.annotations.open_world_hint == Some(false)
    }
}

/// What the host answers to the question which tools it has besides those of the extension.
pub enum ToolListing {
    /// There is no host.
    NoHost,
    /// The host failed to list them.
    Failed,
    /// These are they.
    Listed { tools: Vec<McpTool> },
}

/// What scripts are to know of some tools: those whose full names lack the separator are left out.
pub open spec fn infos_of(tools: Seq<McpTool>) -> Seq<ToolInfoView>
    decreases tools.len(),
{
    if tools.len() == 0 {
        Seq::empty()
    } else {
        match info_of(tools.last()@) {
            Some(info) => infos_of(tools.drop_last()).push(info),
            None => infos_of(tools.drop_last()),
        }
    }
}

/// What scripts are to know of the tools that the host lists.
pub open spec fn listed_infos(listing: ToolListing) -> Seq<ToolInfoView> {
    match listing {
        ToolListing::Listed { tools } => infos_of(tools@),
        _ => Seq::empty(),
    }
}

/// The text that the arguments of a call hold under a name, if any.
pub open spec fn text_argument(
    arguments: Option<&serde_json::Map<String, serde_json::Value>>,
    name: Seq<char>,
) -> Option<Seq<char>> {
    match arguments {
        Some(object) => match member(json_members(*object), name) {
            Some(JsonTree::Text(text)) => Some(text),
            _ => None,
        },
        None => None,
    }
}

/// A parameter that a call cannot do without: its text, or the error where there is none.
pub open spec fn required(found: Option<Seq<char>>, name: Seq<char>) -> Result<
    Seq<char>,
    Seq<char>,
> {
    match found {
        Some(text) => Ok(text),
        None => Err("Missing required parameter: "@ + name),
    }
}

/// A call that waits for the list of tools.
pub enum PendingCall {
    /// A script is to be run.
    ExecuteCode { code: String },
    /// A module path is to be answered.
    ReadModule { path: String },
}

/// What a call that waits for the list of tools is about.
pub ghost enum PendingCallView {
    ExecuteCode { code: Seq<char> },
    ReadModule { path: Seq<char> },
}

impl View for PendingCall {
    type V = PendingCallView;

    open spec fn view(&self) -> PendingCallView {
        match *self {
            PendingCall::ExecuteCode { code } => PendingCallView::ExecuteCode { code: code@ },
            PendingCall::ReadModule { path } => PendingCallView::ReadModule { path: path@ },
        }
    }
}

/// What a call needs next.
pub enum CallAction {
    /// The list of tools, for this call.
    ListTools { call: PendingCall },
    /// A run of this script, with these tools.
    RunScript { code: String, tools: Vec<ToolInfo> },
    /// Nothing: this is its answer.
    Respond { result: CallToolResult },
}

/// What is to be done next for a call.
pub ghost enum CallActionView {
    ListTools { call: PendingCallView },
    RunScript { code: Seq<char>, tools: Seq<ToolInfoView> },
    Respond { result: CallToolResultView },
}

impl View for CallAction {
    type V = CallActionView;

    open spec fn view(&self) -> CallActionView {
        match *self {
            CallAction::ListTools { call } => CallActionView::ListTools { call: call@ },
            CallAction::RunScript { code, tools } => CallActionView::RunScript {
                code: code@,
                tools: tool_views(tools@),
            },
            CallAction::Respond { result } => CallActionView::Respond { result: result@ },
        }
    }
}

/// What a call needs first, given the name of the tool and the texts that its arguments hold under
/// the names of the parameters.
pub open spec fn first_action(
    name: Seq<char>,
    code: Option<Seq<char>>,
    path: Option<Seq<char>>,
) -> CallActionView {
    if name == EXECUTE_CODE@ {
        match required(code, CODE_PARAMETER@) {
            Ok(code) => CallActionView::ListTools { call: PendingCallView::ExecuteCode { code } },
            Err(message) => CallActionView::Respond { result: answer(Err(message)) },
        }
    } else if name == READ_MODULE@ {
        match required(path, PATH_PARAMETER@) {
            Ok(path) => CallActionView::ListTools { call: PendingCallView::ReadModule { path } },
            Err(message) => CallActionView::Respond { result: answer(Err(message)) },
        }
    } else {
        CallActionView::Respond { result: answer(Err("Unknown tool: "@ + name)) }
    }
}

impl PendingCallView {
    /// What the call needs once the tools are listed.
    pub open spec fn next_action(self, tools: Seq<ToolInfoView>) -> CallActionView {
        match self {
            PendingCallView::ExecuteCode { code } => CallActionView::RunScript { code, tools },
            PendingCallView::ReadModule { path } => CallActionView::Respond {
                result: answer(as_content(path_text(tools, path))),
            },
        }
    }
}

/// What came of a run of a script.
pub enum ScriptOutcome {
    /// The task that it ran in failed, with this message.
    TaskFailed { message: String },
    /// The run came to its end.
    Ran { result: Result<String, String> },
}

/// The content that a run of a script is answered with, or its error.
pub open spec fn script_content(outcome: ScriptOutcome) -> Result<Seq<ContentView>, Seq<char>> {
    match outcome {
        ScriptOutcome::TaskFailed { message } => Err("JS execution task failed: "@ + message@),
        ScriptOutcome::Ran { result: Ok(text) } => Ok(one_text("Result: "@ + text@)),
        ScriptOutcome::Ran { result: Err(message) } => Err(message@),
    }
}

/// The text that the arguments of a call hold under a name, if any.
fn find_text_argument(
    arguments: Option<&serde_json::Map<String, serde_json::Value>>,
    name: &str,
) -> (res: Option<String>)
    ensures
        option_text(res) == text_argument(arguments, name@),
{
    if let Some(object) = arguments {
        if let Some(value) = object_get(object, name) {
            if let Some(text) = as_str(value) {
                return Some(text.to_string());
            }
        }
    }
    None
}

/// A parameter that a call cannot do without: its text, or the error where there is none.
fn require(found: Option<String>, name: &str) -> (res: Result<String, String>)
    ensures
        result_text(res) == required(option_text(found), name@),
{
    match found {
        Some(text) => Ok(text),
        None => Err("Missing required parameter: ".to_string().concat(name)),
    }
}

/// The messages that calls are refused with.
proof fn lemma_refusals(name: Seq<char>)
    ensures
        "Error: "@ + ("Missing required parameter: "@ + "code"@)
            == "Error: Missing required parameter: code"@,
        "Error: "@ + ("Missing required parameter: "@ + "path"@)
            == "Error: Missing required parameter: path"@,
        "Error: "@ + ("Unknown tool: "@ + name) == "Error: Unknown tool: "@ + name,
{
    reveal_strlit("Error: ");
    reveal_strlit("code");
    reveal_strlit("path");
    reveal_strlit("Missing required parameter: ");
    reveal_strlit("Error: Missing required parameter: code");
    reveal_strlit("Error: Missing required parameter: path");
    reveal_strlit("Unknown tool: ");
    reveal_strlit("Error: Unknown tool: ");
}

/// The answer to a call that failed.
fn refuse(message: String) -> (res: CallAction)
    ensures
        res@ == (CallActionView::Respond { result: answer(Err(message@)) }),
        res matches CallAction::Respond { result } && result.is_error == Some(true)
            && result.content@.len() == 1 && (result.content@[0] matches Content::Text { text }
            && text@ == "Error: "@ + message@),
{
    CallAction::Respond { result: call_tool_result(Err(message)) }
}

/// What scripts are to know of the tools that the host lists: nothing, where there is no host or
/// it fails to list them.
pub fn get_tool_infos(listing: ToolListing) -> (res: Vec<ToolInfo>)
    ensures
        tool_views(res@) == listed_infos(listing),
        match listing {
            ToolListing::Listed { tools } => tool_views(res@) == infos_of(tools@),
            _ => res@.len() == 0,
        },
{
    let mut res: Vec<ToolInfo> = Vec::new();
    assert(tool_views(res@) == Seq::<ToolInfoView>::empty());
    if let ToolListing::Listed { tools } = listing {
        let mut i: usize = 0;
        assert(tools@.take(0) == Seq::<McpTool>::empty());
        while i < tools.len()
            invariant
                i <= tools.len(),
                tool_views(res@) == infos_of(tools@.take(i as int)),
            decreases tools.len() - i,
        {
            let ghost before = tool_views(res@);
            match ToolInfo::from_mcp_tool(&tools[i]) {
                Some(info) => {
                    res.push(info);
                    assert(tool_views(res@) == before.push(info@));
                },
                None => {},
            }
            assert(tools@.take(i + 1).drop_last() == tools@.take(i as int));
            i += 1;
        }
        assert(tools@.take(i as int) == tools@);
    }
    res
}

/// The tools of the extension: one runs scripts, and one reads modules.
pub fn get_tools() -> (res: Vec<ToolDefinition>)
    ensures
        res.len() == 2,
        res[0].is_execute_code(),
        res[1].is_read_module(),
        res[0].name@ == "execute_code"@,
        res[0].input == ToolInput::Code,
        res[0].annotations.title matches Some(title) && title@ == "Execute JavaScript"@,
        res[0].annotations.read_only_hint == Some(false),
        res[0].annotations.destructive_hint == Some(true),
        res[0].annotations.idempotent_hint == Some(false),
        res[0].annotations.open_world_hint == Some(true),
        res[1].name@ == "read_module"@,
        res[1].input == ToolInput::Path,
        res[1].annotations.title matches Some(title) && title@ == "Read module"@,
        res[1].annotations.read_only_hint == Some(true),
        res[1].annotations.destructive_hint == Some(false),
        res[1].annotations.idempotent_hint == Some(true),
        res[1].annotations.open_world_hint == Some(false),
{
    vec![
        ToolDefinition {
            name: EXECUTE_CODE.to_string(),
            description: EXECUTE_CODE_DESCRIPTION.to_string(),
            input: ToolInput::Code,
            annotations: ToolAnnotations {
                title: Some("Execute JavaScript".to_string()),
                read_only_hint: Some(false),
                destructive_hint: Some(true),
                idempotent_hint: Some(false),
                open_world_hint: Some(true),
            },
        },
        ToolDefinition {
            name: READ_MODULE.to_string(),
            description: READ_MODULE_DESCRIPTION.to_string(),
            input: ToolInput::Path,
            annotations: ToolAnnotations {
                title: Some("Read module".to_string()),
                read_only_hint: Some(true),
                destructive_hint: Some(false),
                idempotent_hint: Some(true),
                open_world_hint: Some(false),
            },
        },
    ]
}

/// Takes a call of a tool of the extension, with the texts that its arguments hold under the names
/// of the parameters, and says what it needs first.
pub fn start_call(name: &str, code: Option<String>, path: Option<String>) -> (res: CallAction)
    ensures
        res@ == first_action(name@, option_text(code), option_text(path)),
        name@ == "execute_code"@ ==> (match code {
            Some(text) => res matches CallAction::ListTools {
                call: PendingCall::ExecuteCode { code },
            } && code@ == text@,
            None => res matches CallAction::Respond { result } && result.is_error == Some(true)
                && result.content@.len() == 1 && (result.content@[0] matches Content::Text { text }
                && text@ == "Error: Missing required parameter: code"@),
        }),
        name@ == "read_module"@ ==> (match path {
            Some(text) => res matches CallAction::ListTools {
                call: PendingCall::ReadModule { path },
            } && path@ == text@,
            None => res matches CallAction::Respond { result } && result.is_error == Some(true)
                && result.content@.len() == 1 && (result.content@[0] matches Content::Text { text }
                && text@ == "Error: Missing required parameter: path"@),
        }),
        name@ != "execute_code"@ && name@ != "read_module"@ ==> (
        res matches CallAction::Respond { result } && result.is_error == Some(true)
            && result.content@.len() == 1 && (result.content@[0] matches Content::Text { text }
            && text@ == "Error: Unknown tool: "@ + name@)),
{
    proof {
        lemma_names_differ();
        lemma_refusals(name@);
    }
    if same_text(name, EXECUTE_CODE) {
        match require(code, CODE_PARAMETER) {
            Ok(code) => CallAction::ListTools { call: PendingCall::ExecuteCode { code } },
            Err(message) => refuse(message),
        }
    } else if same_text(name, READ_MODULE) {
        match require(path, PATH_PARAMETER) {
            Ok(path) => CallAction::ListTools { call: PendingCall::ReadModule { path } },
            Err(message) => refuse(message),
        }
    } else {
        refuse("Unknown tool: ".to_string().concat(name))
    }
}

/// Takes a call of a tool of the extension, and says what it needs first.
pub fn call_tool(
    name: &str,
    arguments: Option<&serde_json::Map<String, serde_json::Value>>,
) -> (res: CallAction)
    ensures
        res@ == first_action(
            name@,
            text_argument(arguments, CODE_PARAMETER@),
            text_argument(arguments, PATH_PARAMETER@),
        ),
        name@ == "execute_code"@ && text_argument(arguments, "code"@) is Some ==> (
        res matches CallAction::ListTools { call: PendingCall::ExecuteCode { code } }
            && text_argument(arguments, "code"@) == Some(code@)),
        name@ == "read_module"@ && text_argument(arguments, "path"@) is Some ==> (
        res matches CallAction::ListTools { call: PendingCall::ReadModule { path } }
            && text_argument(arguments, "path"@) == Some(path@)),
        name@ == "execute_code"@ && text_argument(arguments, "code"@) is None ==> (
        res matches CallAction::Respond { result } && result.is_error == Some(true)
            && result.content@.len() == 1 && (result.content@[0] matches Content::Text { text }
            && text@ == "Error: Missing required parameter: code"@)),
        name@ == "read_module"@ && text_argument(arguments, "path"@) is None ==> (
        res matches CallAction::Respond { result } && result.is_error == Some(true)
            && result.content@.len() == 1 && (result.content@[0] matches Content::Text { text }
            && text@ == "Error: Missing required parameter: path"@)),
        name@ != "execute_code"@ && name@ != "read_module"@ ==> (
        res matches CallAction::Respond { result } && result.is_error == Some(true)
            && result.content@.len() == 1 && (result.content@[0] matches Content::Text { text }
            && text@ == "Error: Unknown tool: "@ + name@)),
{
    proof {
        lemma_names_differ();
    }
    start_call(
        name,
        find_text_argument(arguments, CODE_PARAMETER),
        find_text_argument(arguments, PATH_PARAMETER),
    )
}

impl PendingCall {
    /// Takes the list of tools, and says what the call needs next.
    pub fn with_tools(self, tools: Vec<ToolInfo>) -> (res: CallAction)
        ensures
            res@ == self@.next_action(tool_views(tools@)),
            match self {
                PendingCall::ExecuteCode { code } => res == (CallAction::RunScript { code, tools }),
                PendingCall::ReadModule { path } => res matches CallAction::Respond { result }
                    && result.content@.len() == 1 && (result.content@[0] matches Content::Text {
                    text,
                } && match path_text(tool_views(tools@), path@) {
                    Ok(told) => result.is_error == Some(false) && text@ == told,
                    Err(message) => result.is_error == Some(true) && text@ == "Error: "@ + message,
                }),
            },
    {
        match self {
            PendingCall::ExecuteCode { code } => CallAction::RunScript { code, tools },
            PendingCall::ReadModule { path } => CallAction::Respond {
                result: call_tool_result(handle_read_module(path.as_str(), &tools)),
            },
        }
    }
}

/// The content that a run of a script is answered with, or its error.
fn handle_execute_code(outcome: ScriptOutcome) -> (res: Result<Vec<Content>, String>)
    ensures
        outcome_view(res) == script_content(outcome),
        match outcome {
            ScriptOutcome::TaskFailed { message } => res matches Err(text) && text@
                == "JS execution task failed: "@ + message@,
            ScriptOutcome::Ran { result: Ok(value) } => res matches Ok(content) && content@.len()
                == 1 && (content@[0] matches Content::Text { text } && text@ == "Result: "@
                + value@),
            ScriptOutcome::Ran { result: Err(message) } => res matches Err(text) && text@
                == message@,
        },
{
    match outcome {
        ScriptOutcome::TaskFailed { message } => Err(
            "JS execution task failed: ".to_string().concat(message.as_str()),
        ),
        ScriptOutcome::Ran { result } => match result {
            Ok(text) => Ok(text_content("Result: ".to_string().concat(text.as_str()))),
            Err(message) => Err(message),
        },
    }
}

/// The answer to a call that ran a script.
pub fn finish_script(outcome: ScriptOutcome) -> (res: CallToolResult)
    ensures
        res@ == answer(script_content(outcome)),
        res.content@.len() == 1,
        res.content@[0] is Text,
        match outcome {
            ScriptOutcome::TaskFailed { message } => res.is_error == Some(true)
                && res.content@[0]->text@ == "Error: "@ + ("JS execution task failed: "@
                + message@),
            ScriptOutcome::Ran { result: Ok(value) } => res.is_error == Some(false)
                && res.content@[0]->text@ == "Result: "@ + value@,
            ScriptOutcome::Ran { result: Err(message) } => res.is_error == Some(true)
                && res.content@[0]->text@ == "Error: "@ + message@,
        },
{
    call_tool_result(handle_execute_code(outcome))
}

impl<C> CodeExecutionClient<C> {
    /// The extension in the context that its host runs it in.
    pub fn new(context: C) -> (res: Result<Self, String>)
        ensures
            res matches Ok(client) && client.info.is_extension_info() && client.context == context,
            res matches Ok(client) && {
                &&& client.info.protocol_version@ == "2025-03-26"@
                &&& client.info.capabilities.tools == Some(
                    ToolsCapability { list_changed: Some(false) },
                )
                &&& !client.info.capabilities.resources && !client.info.capabilities.prompts
                &&& client.info.server_info.name@ == "code_execution"@
                &&& client.info.server_info.title matches Some(title) && title@
                    == "Code Execution"@
                &&& client.info.server_info.version@ == "1.0.0"@
                &&& client.info.instructions matches Some(text) && text@ == INSTRUCTIONS@
            },
    {
        let info = InitializeResult {
            protocol_version: "2025-03-26".to_string(),
            capabilities: ServerCapabilities {
                tools: Some(ToolsCapability { list_changed: Some(false) }),
                resources: false,
                prompts: false,
                completions: false,
                experimental: false,
                logging: false,
            },
            server_info: Implementation {
                name: EXTENSION_NAME.to_string(),
                title: Some("Code Execution".to_string()),
                version: "1.0.0".to_string(),
                icons: None,
                website_url: None,
            },
            instructions: Some(INSTRUCTIONS.to_string()),
        };
        Ok(CodeExecutionClient { info, context })
    }

    /// What the extension says on start.
    pub fn get_info(&self) -> (res: Option<&InitializeResult>)
        ensures
            res == Some(&self.info),
    {
        Some(&self.info)
    }
}

/// The two tools of the extension have different names.
proof fn lemma_names_differ()
    ensures
        EXECUTE_CODE@ != READ_MODULE@,
{
    reveal_strlit("execute_code");
    reveal_strlit("read_module");
    assert(EXECUTE_CODE@.len() != READ_MODULE@.len());
}

/// A tool of the extension that is given its parameter goes on to the list of tools, one that is
/// not is answered that the parameter is missing, and any other tool is answered that it is
/// unknown.
pub proof fn law_own_tools_are_known(
    name: Seq<char>,
    code: Option<Seq<char>>,
    path: Option<Seq<char>>,
)
    ensures
        name == EXECUTE_CODE@ && code is Some ==> first_action(name, code, path) == (
        CallActionView::ListTools { call: PendingCallView::ExecuteCode { code: code->0 } }),
        name == READ_MODULE@ && path is Some ==> first_action(name, code, path) == (
        CallActionView::ListTools { call: PendingCallView::ReadModule { path: path->0 } }),
        name == EXECUTE_CODE@ && code is None ==> first_action(name, code, path) == (
        CallActionView::Respond {
            result: answer(Err("Missing required parameter: "@ + CODE_PARAMETER@)),
        }),
        name == READ_MODULE@ && path is None ==> first_action(name, code, path) == (
        CallActionView::Respond {
            result: answer(Err("Missing required parameter: "@ + PATH_PARAMETER@)),
        }),
        name != EXECUTE_CODE@ && name != READ_MODULE@ ==> first_action(name, code, path) == (
        CallActionView::Respond { result: answer(Err("Unknown tool: "@ + name)) }),
{
    lemma_names_differ();
}

/// Only a call of the tool that runs scripts runs a script, and only once it has the tools.
pub proof fn law_only_scripts_are_run(
    name: Seq<char>,
    code: Option<Seq<char>>,
    path: Option<Seq<char>>,
    call: PendingCallView,
    tools: Seq<ToolInfoView>,
)
    ensures
        first_action(name, code, path) !is RunScript,
        first_action(name, code, path) == (CallActionView::ListTools { call })
            && call.next_action(tools) is RunScript ==> name == EXECUTE_CODE@ && code == Some(
            call->code,
        ) && call.next_action(tools) == (CallActionView::RunScript { code: call->code, tools }),
        call.next_action(tools) !is ListTools,
{
}

/// An answer is marked as an error where the call failed, and only there.
pub proof fn law_errors_are_marked(outcome: Result<Seq<ContentView>, Seq<char>>)
    ensures
        answer(outcome).is_error == Some(outcome is Err),
{
}

/// Whether a run of a script can have this outcome.
pub open spec fn can_come_of_a_run(outcome: ScriptOutcome) -> bool {
    match outcome {
        ScriptOutcome::TaskFailed { .. } => true,
        ScriptOutcome::Ran { result } => exists|run: RunView, reply: ReplyView|
            (#[trigger] run.next(reply)).1 == (ActionView::Finish { result: result_text(result) }),
    }
}

/// The answer that a call gets in the end, given the tools, and what comes of the script where it
/// runs one.
pub open spec fn final_answer(
    name: Seq<char>,
    code: Option<Seq<char>>,
    path: Option<Seq<char>>,
    tools: Seq<ToolInfoView>,
    outcome: ScriptOutcome,
) -> CallToolResultView {
    match first_action(name, code, path) {
        CallActionView::Respond { result } => result,
        CallActionView::ListTools { call } => match call.next_action(tools) {
            CallActionView::Respond { result } => result,
            _ => answer(script_content(outcome)),
        },
        CallActionView::RunScript { .. } => answer(script_content(outcome)),
    }
}

/// The answer to a call of a tool that is unknown.
pub open spec fn unknown_tool(name: Seq<char>) -> CallToolResultView {
    answer(Err("Unknown tool: "@ + name))
}

/// A message that starts otherwise does not say that a tool is unknown.
proof fn lemma_other_message(message: Seq<char>, name: Seq<char>)
    requires
        message.len() > 0,
        message[0] != 'U',
    ensures
        answer(Err(message)) != unknown_tool(name),
{
    reveal_strlit("Unknown tool: ");
    let other = "Unknown tool: "@ + name;
    if answer(Err(message)) == unknown_tool(name) {
        assert(one_text("Error: "@ + message)[0] == one_text("Error: "@ + other)[0]);
        let n = "Error: "@.len() as int;
        assert(("Error: "@ + message)[n] == message[0]);
        assert(("Error: "@ + other)[n] == other[0]);
    }
}

/// No run of a script is answered that a tool is unknown.
proof fn lemma_run_is_known(outcome: ScriptOutcome, name: Seq<char>)
    requires
        can_come_of_a_run(outcome),
    ensures
        answer(script_content(outcome)) != unknown_tool(name),
{
    reveal_strlit("JS execution task failed: ");
    reveal_strlit("Failed to create JS context: ");
    reveal_strlit("Failed to register __result__: ");
    reveal_strlit("Parse error: ");
    reveal_strlit("Job execution error: ");
    reveal_strlit("Module error: ");
    reveal_strlit("Failed to get result: ");
    reveal_strlit("Module evaluation did not complete");
    if let Err(message) = script_content(outcome) {
        if let ScriptOutcome::Ran { result } = outcome {
            let (run, reply) = choose|run: RunView, reply: ReplyView|
                (#[trigger] run.next(reply)).1 == (ActionView::Finish {
                    result: result_text(result),
                });
            assert(run.next(reply).1 == (ActionView::Finish { result: Err(message) }));
        }
        assert(message.len() > 0 && message[0] != 'U');
        lemma_other_message(message, name);
    }
}

/// No path is answered that a tool is unknown.
proof fn lemma_path_is_known(tools: Seq<ToolInfoView>, path: Seq<char>, name: Seq<char>)
    ensures
        answer(as_content(path_text(tools, path))) != unknown_tool(name),
{
    reveal_strlit("Module not found: ");
    reveal_strlit("Tool not found: ");
    reveal_strlit("Invalid path: ");
    if let Err(message) = path_text(tools, path) {
        let parts = path_parts(path);
        if parts.len() == 1 {
            assert(module_text(tools, parts[0]) == Err::<Seq<char>, _>(message));
        } else if parts.len() == 2 {
            assert(tool_text(tools, parts[0], parts[1]) == Err::<Seq<char>, _>(message));
        }
        assert(message.len() > 0 && message[0] != 'U');
        lemma_other_message(message, name);
    }
}

/// A call is answered that its tool is unknown where the tool is none of those that the extension
/// lists, and only there, whatever tools the host lists and whatever comes of a script.
pub proof fn law_only_unlisted_tools_are_unknown(
    listed: Seq<ToolDefinition>,
    name: Seq<char>,
    code: Option<Seq<char>>,
    path: Option<Seq<char>>,
    tools: Seq<ToolInfoView>,
    outcome: ScriptOutcome,
)
    requires
        listed.len() == 2,
        listed[0].is_execute_code(),
        listed[1].is_read_module(),
        can_come_of_a_run(outcome),
    ensures
        (forall|i: int| 0 <= i < listed.len() ==> (#[trigger] listed[i]).name@ != name)
            ==> final_answer(name, code, path, tools, outcome) == unknown_tool(name),
        (exists|i: int| 0 <= i < listed.len() && (#[trigger] listed[i]).name@ == name)
            ==> forall|other: Seq<char>|
            final_answer(name, code, path, tools, outcome) != #[trigger] unknown_tool(other),
{
    assert(listed[0].name@ == EXECUTE_CODE@ && listed[1].name@ == READ_MODULE@);
    if exists|i: int| 0 <= i < listed.len() && (#[trigger] listed[i]).name@ == name {
        reveal_strlit("Missing required parameter: ");
        assert forall|other: Seq<char>| final_answer(name, code, path, tools, outcome)
            != #[trigger] unknown_tool(other) by {
            lemma_run_is_known(outcome, other);
            if let Some(path) = path {
                lemma_path_is_known(tools, path, other);
            }
            lemma_other_message("Missing required parameter: "@ + CODE_PARAMETER@, other);
            lemma_other_message("Missing required parameter: "@ + PATH_PARAMETER@, other);
        }
    }
}

/// What is known of tools comes from the tools that the host lists.
pub proof fn law_each_known_tool_is_listed(tools: Seq<McpTool>, i: int)
    requires
        0 <= i < infos_of(tools).len(),
    ensures
        exists|k: int| 0 <= k < tools.len() && info_of(#[trigger] tools[k]@) == Some(
            infos_of(tools)[i],
        ),
    decreases tools.len(),
{
    let init = tools.drop_last();
    if i < infos_of(init).len() {
        law_each_known_tool_is_listed(init, i);
        let k = choose|k: int| 0 <= k < init.len() && info_of(#[trigger] init[k]@) == Some(
            infos_of(init)[i],
        );
        assert(tools[k] == init[k]);
    } else {
        assert(info_of(tools[tools.len() - 1]@) == Some(infos_of(tools)[i]));
    }
}

/// Each tool that the host lists is known, unless its full name lacks the separator.
pub proof fn law_each_listed_tool_is_known(tools: Seq<McpTool>, k: int)
    requires
        0 <= k < tools.len(),
        info_of(tools[k]@) is Some,
    ensures
        infos_of(tools).contains(info_of(tools[k]@)->0),
    decreases tools.len(),
{
    let init = tools.drop_last();
    let info = info_of(tools[k]@)->0;
    if k < init.len() {
        law_each_listed_tool_is_known(init, k);
        assert(init[k] == tools[k]);
        let i = choose|i: int| 0 <= i < infos_of(init).len() && infos_of(init)[i] == info;
        assert(infos_of(tools)[i] == info);
    } else {
        assert(infos_of(tools)[infos_of(tools).len() - 1] == info);
    }
}

/// No module of a tool that the host lists has the name that scripts are loaded under.
pub proof fn law_no_module_is_the_script(listing: ToolListing, j: int)
    requires
        0 <= j < modules_of(listed_infos(listing)).len(),
    ensures
        modules_of(listed_infos(listing))[j].name != SCRIPT_NAME@,
{
    reveal_strlit("__");
    reveal_strlit("__main__");
    let infos = listed_infos(listing);
    let name = modules_of(infos)[j].name;
    law_server_names(infos);
    assert(server_names(infos)[j] == name);
    assert(server_names(infos).contains(name));
    let i = choose|i: int| 0 <= i < infos.len() && (#[trigger] infos[i]).server_name == name;
    match listing {
        ToolListing::Listed { tools } => {
            law_each_known_tool_is_listed(tools@, i);
            let k = choose|k: int|
                0 <= k < tools@.len() && info_of(#[trigger] tools@[k]@) == Some(infos[i]);
            law_full_name(tools@[k]@);
        },
        _ => {},
    }
    assert(SCRIPT_NAME@.subrange(0, 2) == NAME_SEPARATOR@);
    assert(occurs_at(SCRIPT_NAME@, NAME_SEPARATOR@, 0));
}

/// What a script comes to is shown whole: the answer is no error and holds one text, the value of
/// the script behind `Result: `.
pub proof fn law_values_are_shown_whole(text: String)
    ensures
        ({
            let shown = answer(
                script_content(ScriptOutcome::Ran { result: Ok::<_, String>(text) }),
            );
            &&& shown.is_error == Some(false)
            &&& shown.content.len() == 1
            &&& shown.content[0] == (ContentView::Text { text: "Result: "@ + text@ })
        }),
{
}

/// What a script fails with is told whole: the answer is an error and holds one text, the message
/// behind `Error: `; that of a task that failed says so.
pub proof fn law_failures_are_told_whole(message: String)
    ensures
        ({
            let told = answer(
                script_content(ScriptOutcome::Ran { result: Err::<String, _>(message) }),
            );
            let failed = answer(script_content(ScriptOutcome::TaskFailed { message }));
            &&& told.is_error == Some(true)
            &&& told.content.len() == 1
            &&& told.content[0] == (ContentView::Text { text: "Error: "@ + message@ })
            &&& failed.is_error == Some(true)
            &&& failed.content.len() == 1
            &&& failed.content[0] == (ContentView::Text {
                text: "Error: JS execution task failed: "@ + message@,
            })
        }),
{
    reveal_strlit("Error: ");
    reveal_strlit("JS execution task failed: ");
    reveal_strlit("Error: JS execution task failed: ");
    assert("Error: "@ + ("JS execution task failed: "@ + message@)
        == "Error: JS execution task failed: "@ + message@);
}

/// An argument of a call is the text that the object of its arguments holds under that name, and
/// there is none where it holds anything else, or nothing.
pub proof fn law_arguments_are_looked_up(
    object: serde_json::Map<String, serde_json::Value>,
    name: Seq<char>,
    text: Seq<char>,
)
    ensures
        text_argument(None, name) is None,
        text_argument(Some(&object), name) == Some(text) <==> json_members(object).contains_key(
            name,
        ) && json_members(object)[name] == JsonTree::Text(text),
{
}

/// The tools that the host lists are taken one by one, in their order; those whose full names lack
/// two underscores in a row are left out.
pub proof fn law_listed_tools_are_taken_one_by_one(
    tools: Seq<McpTool>,
    more: Seq<McpTool>,
    tool: McpTool,
)
    ensures
        infos_of(Seq::empty()) == Seq::<ToolInfoView>::empty(),
        info_of(tool@) matches Some(info) ==> infos_of(seq![tool]) == seq![info],
        info_of(tool@) is None ==> infos_of(seq![tool]) == Seq::<ToolInfoView>::empty(),
        infos_of(tools + more) == infos_of(tools) + infos_of(more),
    decreases more.len(),
{
    let none = Seq::<McpTool>::empty();
    assert(seq![tool].drop_last() == none);
    assert(infos_of(none) == Seq::<ToolInfoView>::empty());
    if let Some(info) = info_of(tool@) {
        assert(infos_of(none).push(info) == seq![info]);
    }
    if more.len() == 0 {
        assert(tools + more == tools);
        assert(more == none);
        assert(infos_of(tools) + infos_of(none) == infos_of(tools));
    } else {
        let init = more.drop_last();
        law_listed_tools_are_taken_one_by_one(tools, init, tool);
        assert((tools + more).drop_last() == tools + init);
        assert((tools + more).last() == more.last());
        if let Some(info) = info_of(more.last()@) {
            assert(infos_of(tools) + infos_of(init).push(info) == (infos_of(tools) + infos_of(
                init,
            )).push(info));
        }
    }
}

} // verus!
