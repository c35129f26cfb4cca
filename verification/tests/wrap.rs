use code_execution::statements::find_statements;
use code_execution::wrap::{wrap_for_result, RESULT_NAME};

#[test]
fn a_last_expression_becomes_the_result() {
    assert_eq!(wrap_for_result("2 + 2"), "\n__result__ = 2 + 2;");
    assert_eq!(wrap_for_result("  f();;  \n"), "\n__result__ = f();");
    assert_eq!(
        wrap_for_result("import { a } from \"s\";\nconst x = a({});\n{ x }"),
        "import { a } from \"s\";\nconst x = a({});\n__result__ = { x };"
    );
}

#[test]
fn a_last_declaration_is_kept_and_read() {
    assert_eq!(wrap_for_result("const x = 1;"), "\nconst x = 1;\n__result__ = x;");
    assert_eq!(wrap_for_result("a();\nlet y=2"), "a();\nlet y=2\n__result__ = y;");
    assert_eq!(wrap_for_result("var z"), "\nvar z\n__result__ = z;");
    assert_eq!(
        wrap_for_result("const { a } = f(b == c);"),
        "\nconst { a } = f(b == c);\n__result__ = { a };"
    );
}

#[test]
fn some_scripts_are_left_as_they_are() {
    for code in [
        "import { a } from \"s\";",
        "  export default 1;\n",
        "function f() { return 1; }",
        "class C {}",
        "x = 1;\n__result__ = x + 1;\n// done",
        "const my__result__ = 1;",
    ] {
        assert_eq!(wrap_for_result(code), code);
    }
}

#[test]
fn comments_and_blank_lines_at_the_end_do_not_count() {
    assert_eq!(wrap_for_result("f()\n\n// a comment\n   \n"), "\n__result__ = f();");
    assert_eq!(wrap_for_result("a();\r\nb();\r\n  // c"), "a();\n__result__ = b();");
}

#[test]
fn a_script_without_statements_is_wrapped_too() {
    assert_eq!(wrap_for_result(""), "\n__result__ = ;");
    assert_eq!(wrap_for_result(" \n "), "\n__result__ = ;");
    assert_eq!(wrap_for_result("// one\n// two"), "\n__result__ = // one;");
}

#[test]
fn wrapping_twice_changes_nothing() {
    for code in [
        "2 + 2",
        "const x = 1;",
        "import \"s\";",
        "",
        "// c",
        "a\n  b ;\n",
        "a\r\r\nb",
        "1; 2",
        "(\n7\n)",
        "let a\n!= b",
        "let a\n/= b",
        "f(\n",
        "x = `",
        "function()\n{\n}",
        "let x =",
        "if (a)\nb",
        "let a = (",
        "const a = \"b\\",
        "var a = `\n",
        "}\n;",
        "/* a\n b */",
        "/*\nconst x; y */",
        "/*\n  const x; y */ /* = 1",
        "let {\r\r\n  a\n} = b",
    ] {
        let once = wrap_for_result(code);
        assert_eq!(wrap_for_result(&once), once);
    }
}

#[test]
fn the_last_line_sets_the_result() {
    let wrapped = wrap_for_result("one();\n\n  two( 3 );\nlet four = 4 ;");
    let lines: Vec<&str> = wrapped.lines().collect();
    assert_eq!(lines, vec!["one();", "", "  two( 3 );", "let four = 4 ;", "__result__ = four;"]);
    assert!(lines[4].starts_with(RESULT_NAME));
}

/// What becomes of a script whose last line is its last statement.
fn by_lines(code: &str) -> String {
    let lines: Vec<&str> = code.trim().lines().collect();
    let holds_code = |l: &&str| !l.trim().is_empty() && !l.trim().starts_with("//");
    let index = lines.iter().rposition(holds_code).unwrap_or(0);
    let last = lines.get(index).map(|s| s.trim()).unwrap_or("");
    let kept = ["import ", "export ", "function ", "class "];
    if last.contains(RESULT_NAME) || kept.iter().any(|p| last.starts_with(p)) {
        return code.to_string();
    }
    let before = lines[..index].join("\n");
    for keyword in ["const ", "let ", "var "] {
        if let Some(rest) = last.strip_prefix(keyword) {
            let name = rest.split('=').next().unwrap_or("").trim();
            return format!("{}\n{}\n__result__ = {};", before, last, name);
        }
    }
    format!("{}\n__result__ = {};", before, last.trim_end_matches(';'))
}

#[test]
fn a_last_line_of_its_own_is_the_last_statement() {
    for code in [
        "if(1)\n2",
        "if(1)\nvar a",
        "if(1)2\n{}",
        "let x = 1\nif (x) x++\n{ x }",
        "for (const f of files)\n  shell({ command: f })",
        "if (a) b();",
        "if (a)\n  b()\nelse\n  c()",
        "if (a) b();\nelse c()",
        "for (;;) { a }",
        "while (a) b",
        "throw new Error('x')",
        "debugger;",
        "{ f(); g() }",
        "{}",
        "class{}",
        "class A {}",
        "function(){ return 1 }",
        "function f() { return 1 }",
        "function* f() {}",
        "async function f() {}",
        "import\"a\"\n[1]",
        "import \"a\"\n-1",
        "import { a } from 's'\n(a)",
        "export function f() {}\n(f())",
        "export default 1",
        "{*a(){}}",
        "{ get x() { return 1; } }",
        "{ async f() {} }",
        "{ async }",
        "{ delete() {} }",
        "const f = () => {}\n(f)()",
        "const f = () => {}\n-1",
        "[1].map(x => { if (x) /\"/.test(x) })\n5",
        "1.\n2",
        "a\n.5",
        "//c\n;",
        "/* c */ ;",
        "x\n[y]",
        "x\n`y`",
        "a\n/x/.test(b)",
        "}\n)",
        "do\nx()\nwhile (y)",
        "a:\nb",
        "a,\nb",
        "const a = 1,\nb = 2",
        "const\nx = 1",
        "return\nx",
        "a\n, b",
        "a()\n!b",
        "a\n++b",
        "i++\ni",
        "a\r\r\nb",
        "  a ;\n\n  let y=2 // z\n  // c\n",
        "f('\\\n;')\ng",
        "x.in\ny",
        "case 1\nx",
        "",
        " \n ",
        "// one\n// two",
        ";;",
        "__result__ = 1; f()",
        "const my__result__ = 1",
        "a\u{2028}b",
        "text.split(/ /)\nother.split(/[/\"]/)",
        "x = a / b\ny / c",
        "try { a } catch (e) { b }\nc",
        "class A {\n  m() {}\n}\nnew A()",
        "'it\\'s; (' + 1\nz",
        "a ? b : c",
        "x.if (a)\ny",
    ] {
        assert_eq!(wrap_for_result(code), by_lines(code), "{}", code);
    }
}

#[test]
fn lines_that_are_statements_are_wrapped_by_the_last() {
    let lines = [
        "1",
        "f()",
        "a.b(c)",
        "x = 1;",
        "const a = 1",
        "let { b } = c",
        "var d",
        "if (a) b()",
        "if (a) { b() }",
        "if (a)",
        "else b",
        "for (const x of y) f(x)",
        "for (;;)",
        "while (a) b",
        "do",
        "switch (a) { case 1: b }",
        "try { a } catch (e) { b }",
        "{ a, b }",
        "{}",
        "[1, 2]",
        "(1)",
        "`t${a}`",
        "'it\\'s'",
        "\"s\";",
        "/[/]/g.test(s)",
        "!a",
        "++a",
        "a++",
        "await f()",
        "async () => {}",
        "x => { y }",
        "() => ({})",
        "function f() { return 1 }",
        "async function g() {}",
        "class A {}",
        "throw e",
        "debugger",
        "return",
        "return /x/",
        "a ? b : c",
        "typeof a",
        "new A()",
        "// c",
        "",
        "  /* c */ d",
        "e /* f */",
        "g // h",
        "import { a } from \"s\";",
        "import('x')",
        "export default 1",
        "a: b",
        "1.",
        ".5",
        "1..toString()",
        "x = { a: 1 }",
        "x = function () {}",
        "a, b",
        "x.if",
        "x.return",
        "a / b / c",
        "(a) / 2",
        "}",
        "])",
        "@d",
        "lets",
        "classy",
        "__result__ = 1",
    ];
    for first in ["", "p()", "if (q)", "const x = 1;"] {
        for second in lines {
            for third in lines {
                let code = format!("{}\n{}\n{}", first, second, third);
                assert_eq!(wrap_for_result(&code), by_lines(&code));
            }
        }
    }
}

#[test]
fn a_statement_ends_at_a_semicolon() {
    assert_eq!(wrap_for_result("1; 2"), "1;\n__result__ = 2;");
    assert_eq!(wrap_for_result("const x = 1; x + 1"), "const x = 1;\n__result__ = x + 1;");
    assert_eq!(wrap_for_result("a();\nb(); c();;"), "a();\nb();\n__result__ = c();");
    assert_eq!(wrap_for_result(";f()"), ";\n__result__ = f();");
    assert_eq!(wrap_for_result("a\n;[1].map(f)"), "a\n;\n__result__ = [1].map(f);");
    assert_eq!(wrap_for_result("let a; let b = 2"), "let a;\nlet b = 2\n__result__ = b;");
    assert_eq!(wrap_for_result("import 's'; f()"), "import 's';\n__result__ = f();");
    assert_eq!(wrap_for_result("if (a) b; else c"), "\n__result__ = if (a) b; else c;");
}

#[test]
fn a_statement_takes_as_many_lines_as_it_needs() {
    for code in [
        "(\n7\n)",
        "f({\n  a: 1\n})",
        "[\n1,\n\n// two\n2\n]",
        "a +\n  b",
        "a\n  + b",
        "a\n  - b",
        "p\n  .then(f) // first\n  // second\n  .catch(g)",
        "x =>\n  x + 1",
        "`a\n${ { b: `;\n` }.b }\n// c`",
        "{\n  a,\n  b: 2\n}",
        "{\n  get a() { return 1; },\n  async b() {},\n  *c() {}\n}",
        "new\nDate()",
        "a /* b\n */ + c",
        "x\nin\ny",
        "a\n  ? { b }\n  : { c }",
        "f(';', \"(\",\n /[/)]\\/\"/, `)`)",
        "function(){\n  return 1;\n}",
        "class{\n  m() {}\n}",
        "x = function f()\n{\n  return 1\n}",
        "f(() => {\n  if (a) /[(]/.test(b)\n})",
        "import('s')\n  .then(f)",
        "a\n  === b",
        "a\n  && b",
    ] {
        assert_eq!(wrap_for_result(code), format!("\n__result__ = {};", code), "{}", code);
    }
    assert_eq!(
        wrap_for_result("const {\n  a,\n  b\n} = f(\n  1\n);"),
        "\nconst {\n  a,\n  b\n} = f(\n  1\n);\n__result__ = {\n  a,\n  b\n};"
    );
    assert_eq!(
        wrap_for_result("for (const x of y)\n  f({\n    x\n  })"),
        "for (const x of y)\n__result__ = f({\n    x\n  });"
    );
}

#[test]
fn a_statement_of_statements_over_several_lines_is_left_as_it_is() {
    for code in [
        "f();\nfor (const x of y) {\n  z(x);\n}",
        "if (a) {\n  b();\n} else {\n  c();\n}",
        "if(a){\n  b();\n}\nelse {\n  c();\n}",
        "function f() {\n  return 1;\n}",
        "class A\n{\n  m() {}\n}",
        "async function f() {\n}",
        "export default {\n  a: 1\n};",
        "import {\n  a\n} from \"s\";",
        "class C {\n};",
        "{\n  const a = 1;\n  f(a);\n}",
        "{\n  const a = 1\n  f(a)\n};",
        "if (a)\n{\n  b();\n}",
        "do {\n} while (a)",
        "switch (a)\n{\n  case 1: b\n}",
        "try {\n  a\n} catch (e) {\n  b\n}",
        "let x = 1; if (x) {\n  f()\n}",
        "f();\n__result__ = g({\n  a: 1\n})",
    ] {
        assert_eq!(wrap_for_result(code), code);
    }
}

#[test]
fn braces_on_one_line_are_an_object() {
    for code in ["{}", "{ a }", "{ files, readme, status }", "{ a: 1 }", "{ ...a }", "{ [a]: 1 }"] {
        assert_eq!(wrap_for_result(code), format!("\n__result__ = {};", code));
        let after = format!("const s = g({{}})\n{}", code);
        assert_eq!(wrap_for_result(&after), format!("const s = g({{}})\n__result__ = {};", code));
    }
}

#[test]
fn comments_round_the_last_statement() {
    assert_eq!(wrap_for_result("2 + 2 // sum"), "\n__result__ = 2 + 2 // sum;");
    assert_eq!(wrap_for_result("a; /* b */ c"), "a;\n__result__ = /* b */ c;");
    assert_eq!(wrap_for_result("a()\n/* b\n c */"), "\n__result__ = a();");
    assert_eq!(wrap_for_result("let x; // none"), "\nlet x; // none\n__result__ = x; // none;");
    assert_eq!(wrap_for_result("import(\"s\")"), "\n__result__ = import(\"s\");");
}

#[test]
fn padding_and_trailing_comments_do_not_count() {
    for code in [
        "1; 2", "(\n7\n)", "let a = 1", "a\nb // c", "\"x", "f(", "a\n{ b }", "a = !", "b /",
    ] {
        let wrapped = wrap_for_result(code);
        assert_eq!(wrap_for_result(&format!(" \n\t{}\r\n \n", code)), wrapped);
        assert_eq!(wrap_for_result(&format!("{} \n// it's (a comment", code)), wrapped);
        assert_eq!(wrap_for_result(&format!("{}\r\n\n \t// `a\n//b\n", code)), wrapped);
    }
}

#[test]
fn the_assignment_is_the_last_statement() {
    for code in [
        "1; 2",
        "(\n7\n)",
        "a\n\n { b }\n",
        "f(x) // y",
        "a;\n/* b */ `c;\n${ d }`;",
        "const x = 1",
        "a\nlet {\n  b\n} = c;",
    ] {
        let wrapped = wrap_for_result(code);
        let found = find_statements(&wrapped);
        assert!(wrapped[found.start.unwrap()..].starts_with("__result__ = "), "{}", wrapped);
        assert_eq!(found.end, wrapped.len());
    }
}

#[test]
fn the_last_statement_is_found() {
    let found = find_statements("a();\n  /* b */ const c = {\n} // d\n// e");
    assert_eq!((found.start, found.end, found.ended), (Some(5), 33, true));
    assert!(find_statements("// a\n/* b */ ;").start.is_none());
    assert!(find_statements("").start.is_none());
    assert!(!find_statements("a: 1,\nb() {\n c;\n}").ended);
}
