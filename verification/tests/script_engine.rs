use std::rc::Rc;

use boa_engine::builtins::promise::PromiseState;
use boa_engine::module::{MapModuleLoader, Module, SyntheticModuleInitializer};
use boa_engine::property::Attribute;
use boa_engine::{Context, JsString, JsValue, NativeFunction, Source};
use code_execution::client::{
    call_tool, finish_script, CallAction, CodeExecutionClient, ScriptOutcome,
};
use code_execution::content::Content;
use code_execution::modules::ServerModule;
use code_execution::script::{EngineReply, ScriptAction, ScriptRun};
use code_execution::tool_info::ToolInfo;
use serde_json::Value;

fn echo(full_name: &str) -> NativeFunction {
    NativeFunction::from_copy_closure_with_captures(
        |_this, args, full_name: &String, ctx| {
            let json = match args.first() {
                Some(value) => value.to_json(ctx)?,
                None => None,
            };
            let text = code_execution::tool_call::write_arguments(json);
            Ok(JsValue::from(JsString::from(format!("{}{}", full_name, text).as_str())))
        },
        full_name.to_string(),
    )
}

fn js_module(module: &ServerModule, context: &mut Context) -> Module {
    let names: Vec<JsString> =
        module.exports.iter().map(|e| JsString::from(e.tool_name.as_str())).collect();
    let exports: Vec<(String, String)> =
        module.exports.iter().map(|e| (e.tool_name.clone(), e.full_name.clone())).collect();
    Module::synthetic(
        &names,
        SyntheticModuleInitializer::from_copy_closure_with_captures(
            |module, exports: &Vec<(String, String)>, context| {
                for (tool_name, full_name) in exports {
                    let function = echo(full_name).to_js_function(context.realm());
                    module.set_export(&JsString::from(tool_name.as_str()), function.into())?;
                }
                Ok(())
            },
            exports,
        ),
        None,
        None,
        context,
    )
}

fn failed(error: boa_engine::JsError) -> EngineReply {
    EngineReply::Failed { message: error.to_string() }
}

fn run(code: &str, tools: &Vec<ToolInfo>) -> Result<String, String> {
    let loader = Rc::new(MapModuleLoader::new());
    let mut context = Context::builder().module_loader(loader.clone()).build().unwrap();
    let mut script: Option<Module> = None;
    let (mut state, mut action) = ScriptRun::start(code, tools);
    loop {
        let reply = match action {
            ScriptAction::CreateContext => EngineReply::Done,
            ScriptAction::RegisterGlobal { name } => {
                let key = JsString::from(name.as_str());
                let value = JsValue::undefined();
                match context.register_global_property(key, value, Attribute::WRITABLE) {
                    Ok(()) => EngineReply::Done,
                    Err(error) => failed(error),
                }
            }
            ScriptAction::AddModule { module } => {
                loader.insert(module.name.as_str(), js_module(&module, &mut context));
                EngineReply::Done
            }
            ScriptAction::AddScript { name, source } => {
                match Module::parse(Source::from_bytes(&source), None, &mut context) {
                    Ok(module) => {
                        loader.insert(name.as_str(), module.clone());
                        script = Some(module);
                        EngineReply::Done
                    }
                    Err(error) => failed(error),
                }
            }
            ScriptAction::Evaluate => {
                let promise = script.as_ref().unwrap().load_link_evaluate(&mut context);
                match context.run_jobs() {
                    Err(error) => failed(error),
                    Ok(()) => match promise.state() {
                        PromiseState::Fulfilled(_) => EngineReply::Fulfilled,
                        PromiseState::Rejected(error) => {
                            EngineReply::Rejected { reason: error.display().to_string() }
                        }
                        PromiseState::Pending => EngineReply::Pending,
                    },
                }
            }
            ScriptAction::ReadGlobal { name } => {
                let global = context.global_object();
                match global.get(JsString::from(name.as_str()), &mut context) {
                    Ok(value) => EngineReply::Value { text: value.display().to_string() },
                    Err(error) => failed(error),
                }
            }
            ScriptAction::Finish { result } => return result,
        };
        action = state.step(reply);
    }
}

fn tool(server: &str, name: &str) -> ToolInfo {
    ToolInfo {
        server_name: server.to_string(),
        tool_name: name.to_string(),
        full_name: format!("{}__{}", server, name),
        description: String::new(),
        params: Vec::new(),
    }
}

fn ended(action: ScriptAction) -> Result<String, String> {
    match action {
        ScriptAction::Finish { result } => result,
        _ => panic!("Expected the end of the run"),
    }
}

fn failure(message: &str) -> EngineReply {
    EngineReply::Failed { message: message.to_string() }
}

#[test]
fn test_execute_code_simple() {
    let client = CodeExecutionClient::new(()).unwrap();
    assert!(client.get_info().is_some());

    let mut args = serde_json::Map::new();
    args.insert("code".to_string(), Value::String("2 + 2".to_string()));

    let call = match call_tool("execute_code", Some(&args)) {
        CallAction::ListTools { call } => call,
        _ => panic!("Expected a call that waits for tools"),
    };
    let (code, tools) = match call.with_tools(Vec::new()) {
        CallAction::RunScript { code, tools } => (code, tools),
        _ => panic!("Expected a run"),
    };
    let result = finish_script(ScriptOutcome::Ran { result: run(&code, &tools) });

    assert!(!result.is_error.unwrap_or(false));
    if let Content::Text { text } = &result.content[0] {
        assert_eq!(text, "Result: 4");
    } else {
        panic!("Expected text content");
    }
}

#[test]
fn a_script_calls_tools_of_its_modules() {
    let tools = vec![tool("s", "one"), tool("t", "one"), tool("s", "two")];
    let code = "import { one, two } from \"s\";\nimport { one as other } from \"t\";\n\
                const all = one({ a: 1 }) + two() + other(\"x\");\nall.length";
    assert_eq!(run(code, &tools), Ok("30".to_string()));
    let direct = "import { two } from \"s\";\ntwo({ b: [true, null] })";
    assert_eq!(run(direct, &tools), Ok("\"s__two{\\\"b\\\":[true,null]}\"".to_string()));
}

#[test]
fn a_declaration_gives_its_variable() {
    assert_eq!(run("const x = 1 + 2;", &Vec::new()), Ok("3".to_string()));
    assert_eq!(run("__result__ = 5;", &Vec::new()), Ok("5".to_string()));
    assert_eq!(run("function f() {}", &Vec::new()), Ok("undefined".to_string()));
}

#[test]
fn a_script_that_fails_says_why() {
    let parse = run("const = ;", &Vec::new()).unwrap_err();
    assert!(parse.starts_with("Parse error: "), "{}", parse);
    let thrown = run("null.x", &Vec::new()).unwrap_err();
    assert!(thrown.starts_with("Module error: "), "{}", thrown);
    let missing = run("import { a } from \"s\";\na()", &Vec::new()).unwrap_err();
    assert!(missing.starts_with("Module error: "), "{}", missing);
    let waiting = run("await new Promise(() => {})", &Vec::new());
    assert_eq!(waiting, Err("Module evaluation did not complete".to_string()));
}

#[test]
fn a_run_asks_for_everything_in_order() {
    let tools = vec![tool("t", "y"), tool("s", "x")];
    let (mut run, first) = ScriptRun::start("f()", &tools);
    assert!(matches!(first, ScriptAction::CreateContext));
    match run.step(EngineReply::Done) {
        ScriptAction::RegisterGlobal { name } => assert_eq!(name, "__result__"),
        _ => panic!("Expected the result variable"),
    }
    for (server, export) in [("s", "x"), ("t", "y")] {
        match run.step(EngineReply::Done) {
            ScriptAction::AddModule { module } => {
                assert_eq!(module.name, server);
                assert_eq!(module.exports.len(), 1);
                assert_eq!(module.exports[0].tool_name, export);
                assert_eq!(module.exports[0].full_name, format!("{}__{}", server, export));
            }
            _ => panic!("Expected a module"),
        }
    }
    match run.step(EngineReply::Done) {
        ScriptAction::AddScript { name, source } => {
            assert_eq!(name, "__main__");
            assert_eq!(source, "\n__result__ = f();");
        }
        _ => panic!("Expected the script"),
    }
    assert!(matches!(run.step(EngineReply::Done), ScriptAction::Evaluate));
    match run.step(EngineReply::Fulfilled) {
        ScriptAction::ReadGlobal { name } => assert_eq!(name, "__result__"),
        _ => panic!("Expected the result variable"),
    }
    let value = EngineReply::Value { text: "v".to_string() };
    assert_eq!(ended(run.step(value)), Ok("v".to_string()));
    let incomplete = Err("Module evaluation did not complete".to_string());
    assert_eq!(ended(run.step(EngineReply::Done)), incomplete);
}

#[test]
fn each_failure_ends_the_run_with_its_message() {
    let prefixes = [
        "Failed to create JS context: ",
        "Failed to register __result__: ",
        "Parse error: ",
        "Job execution error: ",
    ];
    for (done, prefix) in prefixes.iter().enumerate() {
        let (mut run, _) = ScriptRun::start("f()", &Vec::new());
        for _ in 0..done {
            run.step(EngineReply::Done);
        }
        assert_eq!(ended(run.step(failure("m"))), Err(format!("{}m", prefix)));
    }
}

#[test]
fn each_way_that_an_evaluation_ends() {
    let evaluated = || {
        let (mut run, _) = ScriptRun::start("f()", &Vec::new());
        for _ in 0..3 {
            run.step(EngineReply::Done);
        }
        run
    };
    let rejected = EngineReply::Rejected { reason: "r".to_string() };
    assert_eq!(ended(evaluated().step(rejected)), Err("Module error: r".to_string()));
    let incomplete = Err("Module evaluation did not complete".to_string());
    assert_eq!(ended(evaluated().step(EngineReply::Pending)), incomplete);
    assert_eq!(ended(evaluated().step(EngineReply::Done)), incomplete);
    let mut run = evaluated();
    run.step(EngineReply::Fulfilled);
    assert_eq!(ended(run.step(failure("m"))), Err("Failed to get result: m".to_string()));
}

#[test]
fn a_run_ends_whatever_the_answers_are() {
    let answers: [fn() -> EngineReply; 6] = [
        || EngineReply::Done,
        || failure("m"),
        || EngineReply::Fulfilled,
        || EngineReply::Rejected { reason: "r".to_string() },
        || EngineReply::Pending,
        || EngineReply::Value { text: "v".to_string() },
    ];
    for first in answers {
        for second in answers {
            let (mut run, _) = ScriptRun::start("f()", &vec![tool("s", "x")]);
            let mut ended = false;
            for step in 0..6 {
                let answer = if step < 4 { first() } else { second() };
                ended = ended || matches!(run.step(answer), ScriptAction::Finish { .. });
            }
            assert!(ended);
        }
    }
}

#[test]
fn the_last_expression_is_the_result() {
    for (code, result) in [
        ("1; 2", "2"),
        ("(\n7\n)", "7"),
        ("const x = 1; x + 1", "2"),
        ("const xs = [\n  1,\n  2\n]\nxs\n  .map(x => x + 1)\n  .length", "2"),
        ("function f() {\n  return 5;\n}\nf()", "5"),
        ("let n = 0\nfor (const x of [1, 2]) {\n  n += x;\n}\nn", "3"),
        ("if (true) { var y = 6 }\ny", "6"),
        ("`a;\nb`.length // four", "4"),
        ("'(;'.split(/[;(]/).length", "3"),
        ("[\n  8\n][0]", "8"),
        ("await Promise.resolve(\n  9\n)", "9"),
        ("const { a,\n b } = { a: 1, b: 2 };\na + b;", "3"),
        ("const f = x => {\n  return x;\n};\nf(10)", "10"),
    ] {
        assert_eq!(run(code, &Vec::new()), Ok(result.to_string()), "{}", code);
    }
    for (code, result) in [
        ("// it's (a comment\nconst a = 1 // [\n/* ` */ a", "1"),
        ("class A {\n  #x = 1;\n  get x() { return this.#x; }\n}\nnew A().x", "1"),
        ("const o = { a: { b: 2 } }\no\n  ?.a\n  ?.b", "2"),
        ("const n = 3\nn > 2\n  ? 'big'.length\n  : 'small'.length", "3"),
        ("const f = (x) => ({ y: x })\nf(4).y", "4"),
        ("let r\ntry {\n  null.x\n} catch (e) {\n  r = 5\n} finally {}\nr", "5"),
        ("const x = 12, y = 2\nx / y / 1", "6"),
        ("const s = `${`${7}`}`\nNumber(s)", "7"),
        ("let i = 0\ndo { i++ } while (i < 8)\ni", "8"),
        ("let j = 0; while (j < 9) j++\nj", "9"),
        ("'a/b'.replace(/\\//g, '{').length", "3"),
        ("async function f() { return 10 }\nawait f()", "10"),
        ("const g = function () {\n  return 11\n}\ng()", "11"),
        ("[1, 2]\n  .map((x) => {\n    return x * 4;\n  })\n  .reduce((a, b) => a + b)", "12"),
        ("if (false) {\n  1\n} else if (true) {\n  2\n}\n13", "13"),
        ("switch (1) {\n  case 1: {\n    break\n  }\n}\n14;", "14"),
        ("outer: for (;;) {\n  break outer\n}\n15", "15"),
        ("function* g() { yield 16 }\n[...g()][0]", "16"),
        ("const re = /[/\"'`]/\nre.test('/') ? 17 : 0", "17"),
        ("\"\\\"; \".length + 15 // }", "18"),
        ("var a = 1\n;(() => 19)()", "19"),
        ("typeof\n20", "\"number\""),
        ("let k = 20\nk\n++k\nk", "21"),
        ("for (const x of [1]) for (const y of [2]) x + y\n22", "22"),
        ("const o = {\n  m() { return 23 },\n}\no.m()", "23"),
        ("(function () {\n  return 24;\n})();", "24"),
    ] {
        assert_eq!(run(code, &Vec::new()), Ok(result.to_string()), "{}", code);
    }
    let tools = vec![tool("s", "one")];
    let call = "import { one } from \"s\";\none({\n  a: 1\n}).length";
    assert_eq!(run(call, &tools), Ok("13".to_string()));
    let object = "const files = 1;\nconst readme = 2;\n{ files, readme }";
    let shown = run(object, &Vec::new()).unwrap();
    assert!(shown.contains("files: 1") && shown.contains("readme: 2"), "{}", shown);
}

#[test]
fn a_script_that_ends_without_a_value_has_no_result() {
    for code in [
        "for (const x of [1]) {\n  x;\n}",
        "function f() {\n  return 1;\n}",
        "if (true) {\n  1;\n}",
        "{\n  let a = 1;\n  a;\n}",
    ] {
        assert_eq!(run(code, &Vec::new()), Ok("undefined".to_string()), "{}", code);
    }
}
