//! Telling a model which tools there are, and how to call them.
use vstd::prelude::*;

use crate::content::{text_content, Content};
use crate::modules::{list_servers, list_tools_of};
use crate::prompts::{MOIM_HEAD, MOIM_TAIL};
use crate::text::{join, same_text, split, trim_start_matches, CharClass};
use crate::tool_info::ToolInfo;
#[allow(unused_imports)]
use crate::content::{law_one_text, one_text, outcome_view, ContentView};
#[allow(unused_imports)]
use crate::modules::{law_server_names, law_tools_of, ref_views, server_names, tools_of};
#[allow(unused_imports)]
use crate::text::{
    drop_leading, joined, lacks, law_dropping_in_front, law_splitting, lemma_next_index_is,
    split_by, split_from, texts,
};
#[allow(unused_imports)]
use crate::tool_info::{tool_views, ToolInfoView};

verus! {

/// The names of some tools.
pub open spec fn tool_names(tools: Seq<ToolInfoView>) -> Seq<Seq<char>> {
    Seq::new(tools.len(), |i: int| tools[i].tool_name)
}

/// The signatures of some tools.
pub open spec fn signatures(tools: Seq<ToolInfoView>) -> Seq<Seq<char>> {
    Seq::new(tools.len(), |i: int| tools[i].signature())
}

/// The comment that shows how to import `names` from the module of a server.
pub open spec fn import_comment(names: Seq<char>, server: Seq<char>) -> Seq<char> {
    "// import { "@ + names + " } from \""@ + server + "\";\n\n"@
}

/// The first tool of this server and this name, if there is one.
pub open spec fn tool_named(
    tools: Seq<ToolInfoView>,
    server: Seq<char>,
    name: Seq<char>,
) -> Option<ToolInfoView>
    decreases tools.len(),
{
    if tools.len() == 0 {
        None
    } else if tools.first().server_name == server && tools.first().tool_name == name {
        Some(tools.first())
    } else {
        tool_named(tools.drop_first(), server, name)
    }
}

/// What is said of the module of a server: how to import its tools, and their signatures.
pub open spec fn module_text(tools: Seq<ToolInfoView>, server: Seq<char>) -> Result<
    Seq<char>,
    Seq<char>,
> {
    let own = tools_of(tools, server);
    if own.len() == 0 {
        Err("Module not found: "@ + server)
    } else {
        Ok(
            import_comment(joined(tool_names(own), ", "@), server) + joined(
                signatures(own),
                "\n"@,
            ),
        )
    }
}

/// What is said of one tool: how to import it, its signature and its description.
pub open spec fn tool_text(
    tools: Seq<ToolInfoView>,
    server: Seq<char>,
    name: Seq<char>,
) -> Result<Seq<char>, Seq<char>> {
    match tool_named(tools, server, name) {
        Some(tool) => Ok(
            import_comment(name, server) + tool.signature() + "\n\n"@ + tool.description,
        ),
        None => Err("Tool not found: "@ + server + "/"@ + name),
    }
}

/// The parts of a path: what stands between its slashes, but for those that it starts with.
pub open spec fn path_parts(path: Seq<char>) -> Seq<Seq<char>> {
    split_by(drop_leading(path, CharClass::Only('/')), '/')
}

/// What a path is answered: `server` asks for a module, and `server/tool` for one tool.
pub open spec fn path_text(tools: Seq<ToolInfoView>, path: Seq<char>) -> Result<
    Seq<char>,
    Seq<char>,
> {
    let parts = path_parts(path);
    if parts.len() == 1 {
        module_text(tools, parts[0])
    } else if parts.len() == 2 {
        tool_text(tools, parts[0], parts[1])
    } else {
        Err("Invalid path: "@ + path + ". Use 'server' or 'server/tool'"@)
    }
}

/// The content that answers a request, or its error.
pub open spec fn as_content(text: Result<Seq<char>, Seq<char>>) -> Result<
    Seq<ContentView>,
    Seq<char>,
> {
    match text {
        Ok(text) => Ok(one_text(text)),
        Err(message) => Err(message),
    }
}

/// What a list of modules says of one of them.
pub open spec fn server_line(tools: Seq<ToolInfoView>, server: Seq<char>) -> Seq<char> {
    "  "@ + server + ": "@ + joined(tool_names(tools_of(tools, server)), ", "@)
}

/// The list of all modules.
pub open spec fn server_lines(tools: Seq<ToolInfoView>) -> Seq<Seq<char>> {
    let names = server_names(tools);
    Seq::new(names.len(), |i: int| server_line(tools, names[i]))
}

/// The message that goes with each request, where there are tools: it lists the modules.
pub open spec fn moim(tools: Seq<ToolInfoView>) -> Option<Seq<char>> {
    if tools.len() == 0 {
        None
    } else {
        Some(MOIM_HEAD@ + joined(server_lines(tools), "\n"@) + MOIM_TAIL@)
    }
}

/// The comment that shows how to import `names` from the module of a server.
fn write_import(names: &str, server: &str) -> (res: String)
    ensures
        res@ == import_comment(names@, server@),
{
    "// import { ".to_string().concat(names).concat(" } from \"").concat(server).concat("\";\n\n")
}

/// The names of some tools, with commas between them.
fn join_names(tools: &Vec<&ToolInfo>) -> (res: String)
    ensures
        res@ == joined(tool_names(ref_views(tools@)), ", "@),
{
    let mut names: Vec<String> = Vec::new();
    let mut i: usize = 0;
    while i < tools.len()
        invariant
            i <= tools.len(),
            names.len() == i,
            forall|k: int| 0 <= k < i ==> (#[trigger] names@[k])@ == tools@[k]@.tool_name,
        decreases tools.len() - i,
    {
        names.push(tools[i].tool_name.clone());
        i += 1;
    }
    assert(texts(names@) == tool_names(ref_views(tools@)));
    join(&names, ", ")
}

/// The signatures of some tools, one on each line.
fn join_signatures(tools: &Vec<&ToolInfo>) -> (res: String)
    ensures
        res@ == joined(signatures(ref_views(tools@)), "\n"@),
{
    let mut lines: Vec<String> = Vec::new();
    let mut i: usize = 0;
    while i < tools.len()
        invariant
            i <= tools.len(),
            lines.len() == i,
            forall|k: int| 0 <= k < i ==> (#[trigger] lines@[k])@ == tools@[k]@.signature(),
        decreases tools.len() - i,
    {
        lines.push(tools[i].to_signature());
        i += 1;
    }
    assert(texts(lines@) == signatures(ref_views(tools@)));
    join(&lines, "\n")
}

/// What is said of the module of a server.
fn describe_module(tools: &Vec<ToolInfo>, server: &str) -> (res: Result<Vec<Content>, String>)
    ensures
        outcome_view(res) == as_content(module_text(tool_views(tools@), server@)),
{
    let own: Vec<&ToolInfo> = list_tools_of(tools, server);
    assert(ref_views(own@).len() == own@.len());
    if own.len() == 0 {
        return Err("Module not found: ".to_string().concat(server));
    }
    Ok(
        text_content(
            write_import(join_names(&own).as_str(), server).concat(join_signatures(&own).as_str()),
        ),
    )
}

/// What is said of one tool.
fn describe_tool(tools: &Vec<ToolInfo>, server: &str, name: &str) -> (res: Result<
    Vec<Content>,
    String,
>)
    ensures
        outcome_view(res) == as_content(tool_text(tool_views(tools@), server@, name@)),
{
    let ghost all = tool_views(tools@);
    let mut i: usize = 0;
    assert(all.skip(0) == all);
    while i < tools.len()
        invariant
            i <= tools.len(),
            all == tool_views(tools@),
            tool_named(all, server@, name@) == tool_named(all.skip(i as int), server@, name@),
        decreases tools.len() - i,
    {
        let tool: &ToolInfo = &tools[i];
        assert(all.skip(i as int).first() == tool@);
        if same_text(tool.server_name.as_str(), server) && same_text(
            tool.tool_name.as_str(),
            name,
        ) {
            return Ok(
                text_content(
                    write_import(name, server).concat(tool.to_signature().as_str()).concat(
                        "\n\n",
                    ).concat(tool.description.as_str()),
                ),
            );
        }
        assert(all.skip(i as int).drop_first() == all.skip(i + 1));
        i += 1;
    }
    Err("Tool not found: ".to_string().concat(server).concat("/").concat(name))
}

/// Answers a path: `server` asks for a module, and `server/tool` for one tool. Slashes that the
/// path starts with are left out of account.
pub fn handle_read_module(path: &str, tools: &Vec<ToolInfo>) -> (res: Result<Vec<Content>, String>)
    ensures
        outcome_view(res) == as_content(path_text(tool_views(tools@), path@)),
        match res {
            Ok(content) => content@.len() == 1 && (content@[0] matches Content::Text { text }
                && path_text(tool_views(tools@), path@) == Ok::<_, Seq<char>>(text@)),
            Err(message) => path_text(tool_views(tools@), path@) == Err::<Seq<char>, _>(message@),
        },
{
    let parts: Vec<String> = split(trim_start_matches(path, CharClass::Only('/')), '/');
    assert(texts(parts@) == path_parts(path@));
    assert(forall|i: int| 0 <= i < parts@.len() ==> texts(parts@)[i] == (#[trigger] parts@[i])@);
    let res: Result<Vec<Content>, String> = if parts.len() == 1 {
        describe_module(tools, parts[0].as_str())
    } else if parts.len() == 2 {
        describe_tool(tools, parts[0].as_str(), parts[1].as_str())
    } else {
        Err(
            "Invalid path: ".to_string().concat(path).concat(". Use 'server' or 'server/tool'"),
        )
    };
    proof {
        if res is Ok {
            law_one_text(res->Ok_0@, path_text(tool_views(tools@), path@)->Ok_0);
        }
    }
    res
}

/// The message that goes with each request, where there are tools: it lists the modules.
pub fn get_moim(tools: &Vec<ToolInfo>) -> (res: Option<String>)
    ensures
        match res {
            Some(text) => moim(tool_views(tools@)) == Some(text@),
            None => moim(tool_views(tools@)) is None,
        },
{
    if tools.len() == 0 {
        return None;
    }
    let ghost all = tool_views(tools@);
    let names: Vec<String> = list_servers(tools);
    let mut lines: Vec<String> = Vec::new();
    let mut i: usize = 0;
    while i < names.len()
        invariant
            i <= names.len(),
            all == tool_views(tools@),
            texts(names@) == server_names(all),
            lines.len() == i,
            forall|k: int|
                0 <= k < i ==> (#[trigger] lines@[k])@ == server_line(all, texts(names@)[k]),
        decreases names.len() - i,
    {
        let own: Vec<&ToolInfo> = list_tools_of(tools, names[i].as_str());
        lines.push(
            "  ".to_string().concat(names[i].as_str()).concat(": ").concat(
                join_names(&own).as_str(),
            ),
        );
        i += 1;
    }
    assert(texts(lines@) == server_lines(all));
    Some(MOIM_HEAD.to_string().concat(join(&lines, "\n").as_str()).concat(MOIM_TAIL))
}

/// Where there are tools there is a message, and each tool is named in the line of its server.
pub proof fn law_the_message_names_each_tool(tools: Seq<ToolInfoView>, i: int)
    requires
        0 <= i < tools.len(),
    ensures
        moim(tools) is Some,
        server_lines(tools).contains(server_line(tools, tools[i].server_name)),
        tool_names(tools_of(tools, tools[i].server_name)).contains(tools[i].tool_name),
{
    let server = tools[i].server_name;
    let names = server_names(tools);
    law_server_names(tools);
    assert(names.contains(server));
    let j = choose|j: int| 0 <= j < names.len() && names[j] == server;
    assert(server_lines(tools)[j] == server_line(tools, server));
    let own = tools_of(tools, server);
    law_tools_of(tools, server);
    assert(tools.contains(tools[i]));
    assert(own.contains(tools[i]));
    let k = choose|k: int| 0 <= k < own.len() && own[k] == tools[i];
    assert(tool_names(own)[k] == tools[i].tool_name);
}

/// A slash that a path starts with does not count.
pub proof fn law_leading_slash(path: Seq<char>)
    ensures
        path_parts(seq!['/'] + path) == path_parts(path),
{
    assert((seq!['/'] + path).drop_first() == path);
}

/// A path without slashes is answered with what is said of a module, and that is found for the
/// listed servers and for no others.
pub proof fn law_path_of_module(tools: Seq<ToolInfoView>, server: Seq<char>)
    requires
        lacks(server, '/'),
    ensures
        path_text(tools, server) == module_text(tools, server),
        path_text(tools, server) is Ok <==> server_names(tools).contains(server),
{
    lemma_next_index_is(server, '/', 0, server.len() as int);
    assert(server.skip(0) == server);
    assert(path_parts(server) == seq![server]);
    let own = tools_of(tools, server);
    law_tools_of(tools, server);
    law_server_names(tools);
    if own.len() > 0 {
        assert(own.contains(own[0]));
        let i = choose|i: int| 0 <= i < tools.len() && tools[i] == own[0];
        assert(tools[i].server_name == server);
    }
    if server_names(tools).contains(server) {
        let i = choose|i: int|
            0 <= i < tools.len() && (#[trigger] tools[i]).server_name == server;
        assert(tools.contains(tools[i]));
        assert(own.contains(tools[i]));
    }
}

/// A tool is found by its server and its name where there is one, and only there.
proof fn lemma_tool_named(tools: Seq<ToolInfoView>, server: Seq<char>, name: Seq<char>)
    ensures
        tool_named(tools, server, name) is Some <==> exists|i: int|
            0 <= i < tools.len() && (#[trigger] tools[i]).server_name == server
                && tools[i].tool_name == name,
    decreases tools.len(),
{
    if tools.len() > 0 {
        let rest = tools.drop_first();
        lemma_tool_named(rest, server, name);
        if tools[0].server_name == server && tools[0].tool_name == name {
            assert(tool_named(tools, server, name) is Some);
        } else {
            if tool_named(rest, server, name) is Some {
                let i = choose|i: int|
                    0 <= i < rest.len() && (#[trigger] rest[i]).server_name == server
                        && rest[i].tool_name == name;
                assert(tools[i + 1] == rest[i]);
            }
            if exists|i: int|
                0 <= i < tools.len() && (#[trigger] tools[i]).server_name == server
                    && tools[i].tool_name == name {
                let i = choose|i: int|
                    0 <= i < tools.len() && (#[trigger] tools[i]).server_name == server
                        && tools[i].tool_name == name;
                assert(rest[i - 1] == tools[i]);
            }
        }
    }
}

/// The path of a server and a tool, neither of which holds a slash, is answered with what is said
/// of that tool, and that is found for the tools that there are and for no others. A server
/// without a name has no such path.
pub proof fn law_path_of_tool(tools: Seq<ToolInfoView>, server: Seq<char>, name: Seq<char>)
    requires
        server.len() > 0,
        lacks(server, '/'),
        lacks(name, '/'),
    ensures
        path_text(tools, server + "/"@ + name) == tool_text(tools, server, name),
        path_text(tools, server + "/"@ + name) is Ok <==> exists|i: int|
            0 <= i < tools.len() && (#[trigger] tools[i]).server_name == server
                && tools[i].tool_name == name,
{
    reveal_strlit("/");
    let path = server + "/"@ + name;
    let n = server.len() as int;
    assert(path.first() == server[0]);
    lemma_next_index_is(path, '/', 0, n);
    lemma_next_index_is(path, '/', n + 1, path.len() as int);
    assert(path.subrange(0, n) == server);
    assert(path.skip(n + 1) == name);
    assert(split_from(path, '/', n + 1) == seq![name]);
    assert(path_parts(path) == seq![server] + seq![name]);
    lemma_tool_named(tools, server, name);
}

/// The parts of a path of one or two parts, or more, behind any number of slashes.
proof fn lemma_parts(slashes: Seq<char>, server: Seq<char>, name: Seq<char>, rest: Seq<char>)
    requires
        forall|i: int| 0 <= i < slashes.len() ==> #[trigger] slashes[i] == '/',
        forall|i: int| 0 <= i < server.len() ==> #[trigger] server[i] != '/',
        forall|i: int| 0 <= i < name.len() ==> #[trigger] name[i] != '/',
    ensures
        path_parts(slashes + server) == seq![server],
        server.len() > 0 ==> path_parts(slashes + server + "/"@ + name) == seq![server, name],
        server.len() > 0 ==> path_parts(slashes + server + "/"@ + name + "/"@ + rest).len() > 2,
{
    reveal_strlit("/");
    assert("/"@ == seq!['/']);
    law_dropping_in_front(slashes, server, '/');
    law_splitting(server, '/', name);
    law_splitting(name, '/', rest);
    if server.len() > 0 {
        let two = server + "/"@ + name;
        assert(slashes + server + "/"@ + name == slashes + two);
        assert(two[0] == server[0]);
        law_dropping_in_front(slashes, two, '/');
        assert(seq![server] + seq![name] == seq![server, name]);
        let inner = name + "/"@ + rest;
        let all = server + "/"@ + inner;
        assert(slashes + server + "/"@ + name + "/"@ + rest == slashes + all);
        assert(all[0] == server[0]);
        law_dropping_in_front(slashes, all, '/');
        law_splitting(server, '/', inner);
        lemma_some_piece(rest);
    }
}

/// Any text has a piece.
proof fn lemma_some_piece(s: Seq<char>)
    ensures
        split_by(s, '/').len() > 0,
{
}

/// A path without slashes, but for those that it starts with, is answered with how to import the
/// tools of that server and with their signatures, each on a line; where the server has no tools,
/// that there is no such module.
pub proof fn law_a_module_is_told(
    tools: Seq<ToolInfoView>,
    slashes: Seq<char>,
    server: Seq<char>,
)
    requires
        forall|i: int| 0 <= i < slashes.len() ==> #[trigger] slashes[i] == '/',
        forall|i: int| 0 <= i < server.len() ==> #[trigger] server[i] != '/',
    ensures
        ({
            let own = tools_of(tools, server);
            let told = path_text(tools, slashes + server);
            &&& own.len() == 0 ==> told == Err::<Seq<char>, _>("Module not found: "@ + server)
            &&& own.len() > 0 ==> told == Ok::<_, Seq<char>>(
                "// import { "@ + joined(Seq::new(own.len(), |k: int| own[k].tool_name), ", "@)
                    + " } from \""@ + server + "\";\n\n"@ + joined(
                    Seq::new(own.len(), |k: int| own[k].signature()),
                    "\n"@,
                ),
            )
        }),
{
    lemma_parts(slashes, server, Seq::empty(), Seq::empty());
    let own = tools_of(tools, server);
    assert(tool_names(own) == Seq::new(own.len(), |k: int| own[k].tool_name));
    assert(signatures(own) == Seq::new(own.len(), |k: int| own[k].signature()));
}

/// The first tool of this server and this name is found.
proof fn lemma_first_named(
    tools: Seq<ToolInfoView>,
    server: Seq<char>,
    name: Seq<char>,
    i: int,
)
    requires
        0 <= i < tools.len(),
        tools[i].server_name == server,
        tools[i].tool_name == name,
        forall|k: int|
            0 <= k < i ==> (#[trigger] tools[k]).server_name != server || tools[k].tool_name
                != name,
    ensures
        tool_named(tools, server, name) == Some(tools[i]),
    decreases tools.len(),
{
    if i > 0 {
        assert(tools[0].server_name != server || tools[0].tool_name != name);
        let rest = tools.drop_first();
        assert forall|k: int| 0 <= k < i - 1 implies (#[trigger] rest[k]).server_name != server
            || rest[k].tool_name != name by {
            assert(rest[k] == tools[k + 1]);
        }
        lemma_first_named(rest, server, name, i - 1);
    }
}

/// A path of a server and a name is answered with how to import the first tool that has both, with
/// that tool's signature and its whole description.
pub proof fn law_a_tool_is_told(
    tools: Seq<ToolInfoView>,
    slashes: Seq<char>,
    server: Seq<char>,
    name: Seq<char>,
    i: int,
)
    requires
        forall|k: int| 0 <= k < slashes.len() ==> #[trigger] slashes[k] == '/',
        forall|k: int| 0 <= k < server.len() ==> #[trigger] server[k] != '/',
        forall|k: int| 0 <= k < name.len() ==> #[trigger] name[k] != '/',
        server.len() > 0,
        0 <= i < tools.len(),
        tools[i].server_name == server,
        tools[i].tool_name == name,
        forall|k: int|
            0 <= k < i ==> (#[trigger] tools[k]).server_name != server || tools[k].tool_name
                != name,
    ensures
        path_text(tools, slashes + server + "/"@ + name) == Ok::<_, Seq<char>>(
            "// import { "@ + name + " } from \""@ + server + "\";\n\n"@ + tools[i].signature()
                + "\n\n"@ + tools[i].description,
        ),
{
    lemma_parts(slashes, server, name, Seq::empty());
    lemma_first_named(tools, server, name, i);
}

/// A path of a server and a name that no tool has both of is answered that there is no such tool,
/// and a path of more parts that it is none.
pub proof fn law_other_paths_are_refused(
    tools: Seq<ToolInfoView>,
    slashes: Seq<char>,
    server: Seq<char>,
    name: Seq<char>,
    rest: Seq<char>,
)
    requires
        forall|k: int| 0 <= k < slashes.len() ==> #[trigger] slashes[k] == '/',
        forall|k: int| 0 <= k < server.len() ==> #[trigger] server[k] != '/',
        forall|k: int| 0 <= k < name.len() ==> #[trigger] name[k] != '/',
        server.len() > 0,
    ensures
        (forall|k: int|
            0 <= k < tools.len() ==> (#[trigger] tools[k]).server_name != server
                || tools[k].tool_name != name) ==> path_text(
            tools,
            slashes + server + "/"@ + name,
        ) == Err::<Seq<char>, _>("Tool not found: "@ + server + "/"@ + name),
        path_text(tools, slashes + server + "/"@ + name + "/"@ + rest) == Err::<Seq<char>, _>(
            "Invalid path: "@ + (slashes + server + "/"@ + name + "/"@ + rest)
                + ". Use 'server' or 'server/tool'"@,
        ),
{
    lemma_parts(slashes, server, name, rest);
    lemma_tool_named(tools, server, name);
}

/// The message that goes with each request: none where there are no tools; else it has a line for
/// each server, in their order, with the names of its tools, in theirs.
pub proof fn law_the_message(tools: Seq<ToolInfoView>, lines: Seq<Seq<char>>)
    requires
        lines.len() == server_names(tools).len(),
        forall|j: int|
            #![trigger lines[j]]
            0 <= j < lines.len() ==> {
                let own = tools_of(tools, server_names(tools)[j]);
                lines[j] == "  "@ + server_names(tools)[j] + ": "@ + joined(
                    Seq::new(own.len(), |k: int| own[k].tool_name),
                    ", "@,
                )
            },
    ensures
        tools.len() == 0 ==> moim(tools) is None,
        tools.len() > 0 ==> moim(tools) == Some(MOIM_HEAD@ + joined(lines, "\n"@) + MOIM_TAIL@),
{
    let told = server_lines(tools);
    assert forall|j: int| 0 <= j < lines.len() implies lines[j] == #[trigger] told[j] by {
        let own = tools_of(tools, server_names(tools)[j]);
        assert(tool_names(own) == Seq::new(own.len(), |k: int| own[k].tool_name));
    }
    assert(told == lines);
}

} // verus!
