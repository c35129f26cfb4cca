//! The modules that scripts import tools from: one for each server.
use vstd::prelude::*;

use crate::text::{comes_before, same_text};
use crate::tool_info::ToolInfo;
#[allow(unused_imports)]
use crate::text::{
    lemma_precedes_irreflexive, lemma_precedes_total, lemma_precedes_transitive, precedes, texts,
};
#[allow(unused_imports)]
use crate::tool_info::{tool_views, ToolInfoView};

verus! {

/// A tool that a module exports: the name that scripts import it by, and the name by which the
/// host knows it.
pub struct ToolExport {
    pub tool_name: String,
    pub full_name: String,
}

/// A module that exports the tools of one server.
pub struct ServerModule {
    pub name: String,
    pub exports: Vec<ToolExport>,
}

/// What a module is.
pub ghost struct ServerModuleView {
    pub name: Seq<char>,
    /// The name of each export, and the full name of the tool behind it.
    pub exports: Seq<(Seq<char>, Seq<char>)>,
}

impl View for ServerModule {
    type V = ServerModuleView;

    open spec fn view(&self) -> ServerModuleView {
        ServerModuleView {
            name: self.name@,
            exports: Seq::new(
                self.exports@.len(),
                |i: int| (self.exports@[i].tool_name@, self.exports@[i].full_name@),
            ),
        }
    }
}

/// What each of some modules is.
pub open spec fn module_views(modules: Seq<ServerModule>) -> Seq<ServerModuleView> {
    Seq::new(modules.len(), |i: int| modules[i]@)
}

/// What is known of each of some tools.
pub open spec fn ref_views(tools: Seq<&ToolInfo>) -> Seq<ToolInfoView> {
    Seq::new(tools.len(), |i: int| tools[i]@)
}

/// Puts a name into its place among names in ascending order, unless it is there.
pub open spec fn insert_name(names: Seq<Seq<char>>, name: Seq<char>) -> Seq<Seq<char>>
    decreases names.len(),
{
    if names.len() == 0 {
        seq![name]
    } else if name == names.first() {
        names
    } else if precedes(name, names.first()) {
        seq![name] + names
    } else {
        seq![names.first()] + insert_name(names.drop_first(), name)
    }
}

/// The names of the servers of some tools, each once, in ascending order.
pub open spec fn server_names(tools: Seq<ToolInfoView>) -> Seq<Seq<char>>
    decreases tools.len(),
{
    if tools.len() == 0 {
        Seq::empty()
    } else {
        insert_name(server_names(tools.drop_last()), tools.last().server_name)
    }
}

/// The tools of one server, in their order.
pub open spec fn tools_of(tools: Seq<ToolInfoView>, server: Seq<char>) -> Seq<ToolInfoView> {
    tools.filter(|tool: ToolInfoView| tool.server_name == server)
}

/// The module that exports the tools of one server.
pub open spec fn module_of(tools: Seq<ToolInfoView>, server: Seq<char>) -> ServerModuleView {
    let own = tools_of(tools, server);
    ServerModuleView {
        name: server,
        exports: Seq::new(own.len(), |i: int| (own[i].tool_name, own[i].full_name)),
    }
}

/// The modules of all servers, in ascending order of their names.
pub open spec fn modules_of(tools: Seq<ToolInfoView>) -> Seq<ServerModuleView> {
    let names = server_names(tools);
    Seq::new(names.len(), |i: int| module_of(tools, names[i]))
}

/// Puts a name into its place among names in ascending order, unless it is there.
fn add_name(names: &mut Vec<String>, name: &str)
    ensures
        texts(final(names)@) == insert_name(texts(old(names)@), name@),
{
    let mut at: usize = 0;
    let ghost all = texts(names@);
    assert(all.take(0) + insert_name(all.skip(0), name@) == insert_name(all, name@)) by {
        assert(all.skip(0) == all);
    }
    while at < names.len()
        invariant
            at <= names.len(),
            all == texts(names@),
            all == texts(old(names)@),
            all.take(at as int) + insert_name(all.skip(at as int), name@) == insert_name(
                all,
                name@,
            ),
        ensures
            insert_name(all.skip(at as int), name@) == seq![name@] + all.skip(at as int),
        decreases names.len() - at,
    {
        let ghost rest = all.skip(at as int);
        assert(rest.first() == names@[at as int]@);
        if same_text(name, names[at].as_str()) {
            assert(all.take(at as int) + rest == all);
            return;
        }
        if comes_before(name, names[at].as_str()) {
            break;
        }
        assert(rest.drop_first() == all.skip(at + 1));
        assert(all.take(at as int) + (seq![rest.first()] + insert_name(all.skip(at + 1), name@))
            == all.take(at + 1) + insert_name(all.skip(at + 1), name@));
        at += 1;
    }
    names.insert(at, name.to_string());
    assert(texts(names@) == all.take(at as int) + (seq![name@] + all.skip(at as int)));
}

/// The names of the servers of some tools, each once, in ascending order.
pub fn list_servers(tools: &Vec<ToolInfo>) -> (res: Vec<String>)
    ensures
        texts(res@) == server_names(tool_views(tools@)),
{
    let mut res: Vec<String> = Vec::new();
    let mut i: usize = 0;
    let ghost all = tool_views(tools@);
    assert(texts(res@) == server_names(all.take(0)));
    while i < tools.len()
        invariant
            i <= tools.len(),
            all == tool_views(tools@),
            texts(res@) == server_names(all.take(i as int)),
        decreases tools.len() - i,
    {
        add_name(&mut res, tools[i].server_name.as_str());
        assert(all.take(i + 1).drop_last() == all.take(i as int));
        i += 1;
    }
    assert(all.take(i as int) == all);
    res
}

/// The tools of one server, in their order.
pub fn list_tools_of<'a>(tools: &'a Vec<ToolInfo>, server: &str) -> (res: Vec<&'a ToolInfo>)
    ensures
        ref_views(res@) == tools_of(tool_views(tools@), server@),
{
    let mut res: Vec<&'a ToolInfo> = Vec::new();
    let mut i: usize = 0;
    let ghost all = tool_views(tools@);
    proof {
        reveal(Seq::filter);
    }
    assert(ref_views(res@) == tools_of(all.take(0), server@));
    while i < tools.len()
        invariant
            i <= tools.len(),
            all == tool_views(tools@),
            ref_views(res@) == tools_of(all.take(i as int), server@),
        decreases tools.len() - i,
    {
        let ghost before = ref_views(res@);
        if same_text(tools[i].server_name.as_str(), server) {
            res.push(&tools[i]);
            assert(ref_views(res@) == before.push(all[i as int]));
        }
        proof {
            reveal(Seq::filter);
            assert(all.take(i + 1).drop_last() == all.take(i as int));
        }
        i += 1;
    }
    assert(all.take(i as int) == all);
    res
}

/// The module that exports the tools of one server.
pub fn create_server_module(tools: &Vec<ToolInfo>, server: &str) -> (res: ServerModule)
    ensures
        res@ == module_of(tool_views(tools@), server@),
{
    let own: Vec<&ToolInfo> = list_tools_of(tools, server);
    let ghost views = tools_of(tool_views(tools@), server@);
    let mut exports: Vec<ToolExport> = Vec::new();
    let mut i: usize = 0;
    while i < own.len()
        invariant
            i <= own.len(),
            ref_views(own@) == views,
            exports.len() == i,
            forall|k: int|
                0 <= k < i ==> (#[trigger] exports@[k]).tool_name@ == views[k].tool_name
                    && exports@[k].full_name@ == views[k].full_name,
        decreases own.len() - i,
    {
        assert(views[i as int] == own@[i as int]@);
        exports.push(
            ToolExport { tool_name: own[i].tool_name.clone(), full_name: own[i].full_name.clone() },
        );
        i += 1;
    }
    let res = ServerModule { name: server.to_string(), exports };
    assert(res@.exports == module_of(tool_views(tools@), server@).exports);
    res
}

/// The modules of all servers, in ascending order of their names.
pub fn create_modules(tools: &Vec<ToolInfo>) -> (res: Vec<ServerModule>)
    ensures
        module_views(res@) == modules_of(tool_views(tools@)),
{
    let names: Vec<String> = list_servers(tools);
    let mut res: Vec<ServerModule> = Vec::new();
    let mut i: usize = 0;
    while i < names.len()
        invariant
            i <= names.len(),
            texts(names@) == server_names(tool_views(tools@)),
            res.len() == i,
            forall|k: int|
                0 <= k < i ==> (#[trigger] res@[k])@ == module_of(
                    tool_views(tools@),
                    texts(names@)[k],
                ),
        decreases names.len() - i,
    {
        res.push(create_server_module(tools, names[i].as_str()));
        i += 1;
    }
    assert(module_views(res@) == modules_of(tool_views(tools@)));
    res
}

/// Whether each name comes before all that follow it.
pub open spec fn ascending(names: Seq<Seq<char>>) -> bool {
    forall|i: int, j: int| 0 <= i < j < names.len() ==> precedes(names[i], names[j])
}

/// Putting a name into its place keeps the order, and adds that name and no other.
proof fn lemma_insert_name(names: Seq<Seq<char>>, name: Seq<char>)
    requires
        ascending(names),
    ensures
        ascending(insert_name(names, name)),
        forall|n: Seq<char>|
            #[trigger] insert_name(names, name).contains(n) <==> n == name || names.contains(n),
    decreases names.len(),
{
    let res = insert_name(names, name);
    if names.len() == 0 {
        assert(res[0] == name);
    } else if name == names.first() {
        assert(names[0] == name);
    } else if precedes(name, names.first()) {
        assert forall|i: int, j: int| 0 <= i < j < res.len() implies precedes(res[i], res[j]) by {
            if i == 0 {
                if j > 1 {
                    lemma_precedes_transitive(name, names[0], names[j - 1]);
                }
            } else {
                assert(res[i] == names[i - 1] && res[j] == names[j - 1]);
            }
        }
        assert forall|n: Seq<char>| #[trigger] res.contains(n) <==> n == name || names.contains(n)
            by {
            assert(res[0] == name);
            if names.contains(n) {
                let k = choose|k: int| 0 <= k < names.len() && names[k] == n;
                assert(res[k + 1] == n);
            }
            if res.contains(n) {
                let k = choose|k: int| 0 <= k < res.len() && res[k] == n;
                if k > 0 {
                    assert(names[k - 1] == n);
                }
            }
        }
    } else {
        let rest = names.drop_first();
        let inner = insert_name(rest, name);
        assert(ascending(rest)) by {
            assert forall|i: int, j: int| 0 <= i < j < rest.len() implies precedes(
                rest[i],
                rest[j],
            ) by {
                assert(rest[i] == names[i + 1] && rest[j] == names[j + 1]);
            }
        }
        lemma_insert_name(rest, name);
        lemma_precedes_total(name, names.first());
        assert forall|i: int, j: int| 0 <= i < j < res.len() implies precedes(res[i], res[j]) by {
            assert(res[j] == inner[j - 1]);
            if i == 0 {
                assert(inner.contains(inner[j - 1]));
                if inner[j - 1] != name {
                    let k = choose|k: int| 0 <= k < rest.len() && rest[k] == inner[j - 1];
                    assert(names[k + 1] == inner[j - 1]);
                }
            } else {
                assert(res[i] == inner[i - 1]);
            }
        }
        assert forall|n: Seq<char>| #[trigger] res.contains(n) <==> n == name || names.contains(n)
            by {
            assert(res[0] == names[0]);
            if res.contains(n) {
                let k = choose|k: int| 0 <= k < res.len() && res[k] == n;
                if k > 0 {
                    assert(inner[k - 1] == n);
                    assert(inner.contains(n));
                    if rest.contains(n) {
                        let m = choose|m: int| 0 <= m < rest.len() && rest[m] == n;
                        assert(names[m + 1] == n);
                    }
                }
            }
            if n == name || names.contains(n) {
                if names.contains(n) {
                    let k = choose|k: int| 0 <= k < names.len() && names[k] == n;
                    if k > 0 {
                        assert(rest[k - 1] == n);
                    }
                }
                if n != names[0] {
                    assert(inner.contains(n));
                    let m = choose|m: int| 0 <= m < inner.len() && inner[m] == n;
                    assert(res[m + 1] == n);
                }
            }
        }
    }
}

/// The servers are listed in ascending order, so that none occurs twice, and a name is listed
/// where it is that of the server of a tool, and only there.
pub proof fn law_server_names(tools: Seq<ToolInfoView>)
    ensures
        ascending(server_names(tools)),
        forall|name: Seq<char>|
            #[trigger] server_names(tools).contains(name) <==> exists|i: int|
                0 <= i < tools.len() && (#[trigger] tools[i]).server_name == name,
    decreases tools.len(),
{
    if tools.len() > 0 {
        let init = tools.drop_last();
        law_server_names(init);
        lemma_insert_name(server_names(init), tools.last().server_name);
        assert forall|name: Seq<char>|
            #[trigger] server_names(tools).contains(name) <==> exists|i: int|
                0 <= i < tools.len() && (#[trigger] tools[i]).server_name == name by {
            if server_names(tools).contains(name) {
                if name == tools.last().server_name {
                    assert(tools[tools.len() - 1].server_name == name);
                } else {
                    assert(server_names(init).contains(name));
                    let i = choose|i: int|
                        0 <= i < init.len() && (#[trigger] init[i]).server_name == name;
                    assert(tools[i].server_name == name);
                }
            }
            if exists|i: int| 0 <= i < tools.len() && (#[trigger] tools[i]).server_name == name {
                let i = choose|i: int|
                    0 <= i < tools.len() && (#[trigger] tools[i]).server_name == name;
                if i < init.len() {
                    assert(init[i].server_name == name);
                    assert(server_names(init).contains(name));
                }
            }
        }
    }
}

/// The tools of a server are those tools that have its name.
pub proof fn law_tools_of(tools: Seq<ToolInfoView>, server: Seq<char>)
    ensures
        forall|tool: ToolInfoView|
            #[trigger] tools_of(tools, server).contains(tool) <==> tools.contains(tool)
                && tool.server_name == server,
    decreases tools.len(),
{
    reveal(Seq::filter);
    let own = tools_of(tools, server);
    if tools.len() > 0 {
        let init = tools.drop_last();
        let last = tools.last();
        let inner = tools_of(init, server);
        law_tools_of(init, server);
        assert forall|tool: ToolInfoView|
            #[trigger] own.contains(tool) <==> tools.contains(tool) && tool.server_name == server
            by {
            if own.contains(tool) {
                let k = choose|k: int| 0 <= k < own.len() && own[k] == tool;
                if k < inner.len() {
                    assert(inner[k] == tool);
                    assert(inner.contains(tool));
                    let m = choose|m: int| 0 <= m < init.len() && init[m] == tool;
                    assert(tools[m] == tool);
                } else {
                    assert(tools[tools.len() - 1] == tool);
                }
            }
            if tools.contains(tool) && tool.server_name == server {
                let m = choose|m: int| 0 <= m < tools.len() && tools[m] == tool;
                if m < init.len() {
                    assert(init[m] == tool);
                    assert(inner.contains(tool));
                    let k = choose|k: int| 0 <= k < inner.len() && inner[k] == tool;
                    assert(own[k] == tool);
                } else {
                    assert(own[own.len() - 1] == tool);
                }
            }
        }
    }
}

/// No two modules have the same name.
pub proof fn law_module_names_differ(tools: Seq<ToolInfoView>, i: int, j: int)
    requires
        0 <= i < j < modules_of(tools).len(),
    ensures
        modules_of(tools)[i].name != modules_of(tools)[j].name,
{
    law_server_names(tools);
    lemma_precedes_irreflexive(server_names(tools)[i]);
}

/// Each tool is exported, under its own name, by the module of its server.
pub proof fn law_each_tool_is_exported(tools: Seq<ToolInfoView>, i: int)
    requires
        0 <= i < tools.len(),
    ensures
        exists|j: int|
            0 <= j < modules_of(tools).len() && (#[trigger] modules_of(tools)[j]).name
                == tools[i].server_name && modules_of(tools)[j].exports.contains(
                (tools[i].tool_name, tools[i].full_name),
            ),
{
    let tool = tools[i];
    let names = server_names(tools);
    law_server_names(tools);
    assert(names.contains(tool.server_name));
    let j = choose|j: int| 0 <= j < names.len() && names[j] == tool.server_name;
    let own = tools_of(tools, tool.server_name);
    law_tools_of(tools, tool.server_name);
    assert(tools.contains(tool));
    assert(own.contains(tool));
    let k = choose|k: int| 0 <= k < own.len() && own[k] == tool;
    let module = modules_of(tools)[j];
    assert(module.exports[k] == (tool.tool_name, tool.full_name));
}

/// Each export of a module is a tool of its server.
pub proof fn law_each_export_is_a_tool(tools: Seq<ToolInfoView>, j: int, k: int)
    requires
        0 <= j < modules_of(tools).len(),
        0 <= k < modules_of(tools)[j].exports.len(),
    ensures
        exists|i: int|
            0 <= i < tools.len() && (#[trigger] tools[i]).server_name == modules_of(tools)[j].name
                && modules_of(tools)[j].exports[k] == (tools[i].tool_name, tools[i].full_name),
{
    let server = modules_of(tools)[j].name;
    let own = tools_of(tools, server);
    law_tools_of(tools, server);
    assert(own.contains(own[k]));
    let i = choose|i: int| 0 <= i < tools.len() && tools[i] == own[k];
    assert(tools[i].server_name == server);
}

/// The tools of a server are picked one by one, in their order: each tool that has its name, and no
/// other.
pub proof fn law_tools_are_picked_one_by_one(
    tools: Seq<ToolInfoView>,
    more: Seq<ToolInfoView>,
    tool: ToolInfoView,
    server: Seq<char>,
)
    ensures
        tools_of(Seq::empty(), server) == Seq::<ToolInfoView>::empty(),
        tool.server_name == server ==> tools_of(seq![tool], server) == seq![tool],
        tool.server_name != server ==> tools_of(seq![tool], server) == Seq::<ToolInfoView>::empty(),
        tools_of(tools + more, server) == tools_of(tools, server) + tools_of(more, server),
    decreases more.len(),
{
    reveal(Seq::filter);
    let none = Seq::<ToolInfoView>::empty();
    assert(seq![tool].drop_last() == none);
    assert(tools_of(none, server) == none);
    assert(tools_of(seq![tool], server) == if tool.server_name == server {
        none.push(tool)
    } else {
        none
    });
    if more.len() == 0 {
        assert(tools + more == tools);
        assert(more == none);
        assert(tools_of(tools, server) + none == tools_of(tools, server));
    } else {
        let init = more.drop_last();
        law_tools_are_picked_one_by_one(tools, init, tool, server);
        assert((tools + more).drop_last() == tools + init);
        assert((tools + more).last() == more.last());
        if more.last().server_name == server {
            assert(tools_of(tools, server) + tools_of(init, server).push(more.last()) == (tools_of(
                tools,
                server,
            ) + tools_of(init, server)).push(more.last()));
        }
    }
}

/// There is one module for each server, in their order, and it exports the tools of that server, in
/// theirs: each under its own name, for the tool that the host knows by its full name.
pub proof fn law_modules(tools: Seq<ToolInfoView>, j: int)
    requires
        0 <= j < server_names(tools).len(),
    ensures
        ({
            let module = modules_of(tools)[j];
            let own = tools_of(tools, server_names(tools)[j]);
            &&& modules_of(tools).len() == server_names(tools).len()
            &&& module.name == server_names(tools)[j]
            &&& module.exports.len() == own.len()
            &&& forall|k: int|
                0 <= k < own.len() ==> (#[trigger] module.exports[k]).0 == own[k].tool_name
                    && module.exports[k].1 == own[k].full_name
        }),
{
}

} // verus!
