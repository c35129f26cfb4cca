//! The texts that tell a model how to use the extension.
use vstd::prelude::*;

verus! {

/// How to use the extension, as it says on start.
pub const INSTRUCTIONS: &'static str = r#"BATCH MULTIPLE TOOL CALLS INTO ONE execute_code CALL.

This extension exists to reduce round-trips. When a task requires multiple tool calls:
- WRONG: Multiple execute_code calls, each with one tool
- RIGHT: One execute_code call with a script that calls all needed tools

Workflow:
    1. Use read_module("server") to discover tools and signatures
    2. Write ONE script that imports and calls ALL tools needed for the task
    3. Chain results: use output from one tool as input to the next
"#;

/// What the tool that runs scripts is for.
pub const EXECUTE_CODE_DESCRIPTION: &'static str = r#"Batch multiple MCP tool calls into ONE execution. This is the primary purpose of this tool.

CRITICAL: Always combine related operations into a single execute_code call.
- WRONG: execute_code to read → execute_code to write (2 calls)
- RIGHT: execute_code that reads AND writes in one script (1 call)

EXAMPLE - Read file and write to another (ONE call):
```javascript
import { text_editor } from "developer";
const content = text_editor({ path: "/path/to/source.md", command: "view" });
text_editor({ path: "/path/to/dest.md", command: "write", file_text: content });
```

EXAMPLE - Multiple operations chained:
```javascript
import { shell, text_editor } from "developer";
const files = shell({ command: "ls -la" });
const readme = text_editor({ path: "./README.md", command: "view" });
const status = shell({ command: "git status" });
{ files, readme, status }
```

SYNTAX:
- Import: import { tool1, tool2 } from "serverName";
- Call: toolName({ param1: value, param2: value })
- All calls are synchronous, return strings
- Last expression is the result
- No comments in code

BEFORE CALLING: Use read_module("server") to check required parameters.
"#;

/// What the tool that reads modules is for.
pub const READ_MODULE_DESCRIPTION: &'static str = r#"Read tool definitions to understand how to call them correctly.

PATHS:
- "serverName" → lists all tools with signatures (shows required vs optional params)
- "serverName/toolName" → full details for one tool including description

USE THIS BEFORE execute_code when:
- You haven't used a tool before
- You're unsure of parameter names or which are required
- A previous call failed due to missing/wrong parameters

The signature format is: toolName({ param1: type, param2?: type }): string
Parameters with ? are optional; others are required.
"#;

/// What stands before the list of modules in the message that goes with each request.
pub const MOIM_HEAD: &'static str = r#"ALWAYS batch multiple tool operations into ONE execute_code call.
- WRONG: Separate execute_code calls for read file, then write file
- RIGHT: One execute_code with a script that reads AND writes

Modules:
"#;

/// What stands after the list of modules in the message that goes with each request.
pub const MOIM_TAIL: &'static str = r#"

Use read_module("server") to see tool signatures before calling unfamiliar tools.
"#;

} // verus!
