//! Tools as the host describes them, and as scripts see them.
use vstd::prelude::*;

use crate::json::{as_array, as_object, as_str, object_get};
use crate::text::{find_first_line, join, same_text, split_once};
#[allow(unused_imports)]
use crate::json::{json_members, json_tree, member, JsonTree};
#[allow(unused_imports)]
use crate::text::{
    find_from, first_line, holds_text, joined, law_joining, law_splitting_at_the_first,
    lemma_find_from, occurs_at, option_text, split_at_first, texts,
};

verus! {

/// What stands between the name of a server and the name of its tool in a tool's full name.
pub const NAME_SEPARATOR: &'static str = "__";

/// A tool as the host describes it.
pub struct McpTool {
    /// The tool's full name: that of its server, the separator and its own.
    pub name: String,
    pub description: Option<String>,
    /// The JSON schema of the tool's input.
    pub input_schema: serde_json::Map<String, serde_json::Value>,
    /// The names of the tool's parameters, in the order in which they are listed.
    pub parameter_names: Vec<String>,
}

/// What a tool's description by its host says.
pub ghost struct McpToolView {
    pub name: Seq<char>,
    pub description: Option<Seq<char>>,
    pub input_schema: Map<Seq<char>, JsonTree>,
    pub parameter_names: Seq<Seq<char>>,
}

impl View for McpTool {
    type V = McpToolView;

    open spec fn view(&self) -> McpToolView {
        McpToolView {
            name: self.name@,
            description: option_text(self.description),
            input_schema: json_members(self.input_schema),
            parameter_names: texts(self.parameter_names@),
        }
    }
}

/// A tool as scripts see it: a function that a module exports.
pub struct ToolInfo {
    /// The module that exports the tool.
    pub server_name: String,
    /// The name that the module exports it under.
    pub tool_name: String,
    /// The name by which the host knows it.
    pub full_name: String,
    pub description: String,
    /// The name of each parameter, its type, and whether it is required.
    pub params: Vec<(String, String, bool)>,
}

/// What is known of a tool.
pub ghost struct ToolInfoView {
    pub server_name: Seq<char>,
    pub tool_name: Seq<char>,
    pub full_name: Seq<char>,
    pub description: Seq<char>,
    pub params: Seq<(Seq<char>, Seq<char>, bool)>,
}

impl View for ToolInfo {
    type V = ToolInfoView;

    open spec fn view(&self) -> ToolInfoView {
        ToolInfoView {
            server_name: self.server_name@,
            tool_name: self.tool_name@,
            full_name: self.full_name@,
            description: self.description@,
            params: param_views(self.params@),
        }
    }
}

/// What the entries of a parameter list say.
pub open spec fn param_views(params: Seq<(String, String, bool)>) -> Seq<
    (Seq<char>, Seq<char>, bool),
> {
    Seq::new(params.len(), |i: int| (params[i].0@, params[i].1@, params[i].2))
}

/// What is known of each of some tools.
pub open spec fn tool_views(tools: Seq<ToolInfo>) -> Seq<ToolInfoView> {
    Seq::new(tools.len(), |i: int| tools[i]@)
}

/// The schema of one parameter, where the input schema has one that is an object.
pub open spec fn property(schema: Map<Seq<char>, JsonTree>, name: Seq<char>) -> Option<
    Map<Seq<char>, JsonTree>,
> {
    match member(schema, "properties"@) {
        Some(JsonTree::Members(properties)) => match member(properties, name) {
            Some(JsonTree::Members(property)) => Some(property),
            _ => None,
        },
        _ => None,
    }
}

/// The type of a parameter: what its schema gives as a text under `type`, and else `any`.
pub open spec fn param_type(schema: Map<Seq<char>, JsonTree>, name: Seq<char>) -> Seq<char> {
    match property(schema, name) {
        Some(property) => match member(property, "type"@) {
            Some(JsonTree::Text(text)) => text,
            _ => "any"@,
        },
        None => "any"@,
    }
}

/// Whether the input schema lists a parameter as required.
pub open spec fn is_required(schema: Map<Seq<char>, JsonTree>, name: Seq<char>) -> bool {
    match member(schema, "required"@) {
        Some(JsonTree::Items(items)) => items.contains(JsonTree::Text(name)),
        _ => false,
    }
}

/// What scripts are to know of a tool of this name, description and parameters: nothing, where the
/// name lacks the separator.
pub open spec fn info_from(
    name: Seq<char>,
    description: Option<Seq<char>>,
    params: Seq<(Seq<char>, Seq<char>, bool)>,
) -> Option<ToolInfoView> {
    match split_at_first(name, NAME_SEPARATOR@) {
        Some((server_name, tool_name)) => Some(
            ToolInfoView {
                server_name,
                tool_name,
                full_name: name,
                description: match description {
                    Some(text) => text,
                    None => Seq::empty(),
                },
                params,
            },
        ),
        None => None,
    }
}

/// The parameters of a tool.
pub open spec fn params_of(tool: McpToolView) -> Seq<(Seq<char>, Seq<char>, bool)> {
    Seq::new(
        tool.parameter_names.len(),
        |i: int|
            (
                tool.parameter_names[i],
                param_type(tool.input_schema, tool.parameter_names[i]),
                is_required(tool.input_schema, tool.parameter_names[i]),
            ),
    )
}

/// What scripts are to know of a tool: nothing, where its full name lacks the separator.
pub open spec fn info_of(tool: McpToolView) -> Option<ToolInfoView> {
    info_from(tool.name, tool.description, params_of(tool))
}

/// A parameter in a signature: its name, `?` unless it is required, and its type.
pub open spec fn param_text(param: (Seq<char>, Seq<char>, bool)) -> Seq<char> {
    param.0 + (if param.2 {
        ""@
    } else {
        "?"@
    }) + ": "@ + param.1
}

impl ToolInfoView {
    /// The signature of the tool: its name, its parameters and the first line of its description.
    pub open spec fn signature(self) -> Seq<char> {
        self.tool_name + "({ "@ + joined(
            Seq::new(self.params.len(), |i: int| param_text(self.params[i])),
            ", "@,
        ) + " }): string - "@ + first_line(self.description)
    }
}

/// The schema of one parameter, where the input schema has one that is an object.
fn find_property<'a>(
    schema: &'a serde_json::Map<String, serde_json::Value>,
    name: &str,
) -> (res: Option<&'a serde_json::Map<String, serde_json::Value>>)
    ensures
        match res {
            Some(found) => property(json_members(*schema), name@) == Some(json_members(*found)),
            None => property(json_members(*schema), name@) is None,
        },
{
    match object_get(schema, "properties") {
        Some(value) => match as_object(value) {
            Some(properties) => match object_get(properties, name) {
                Some(found) => as_object(found),
                None => None,
            },
            None => None,
        },
        None => None,
    }
}

/// The type of a parameter: what its schema gives as a text under `type`, and else `any`.
fn find_param_type(schema: &serde_json::Map<String, serde_json::Value>, name: &str) -> (res: String)
    ensures
        res@ == param_type(json_members(*schema), name@),
{
    if let Some(found) = find_property(schema, name) {
        if let Some(value) = object_get(found, "type") {
            if let Some(text) = as_str(value) {
                return text.to_string();
            }
        }
    }
    "any".to_string()
}

/// Tells whether the input schema lists a parameter as required.
fn find_required(schema: &serde_json::Map<String, serde_json::Value>, name: &str) -> (res: bool)
    ensures
        res == is_required(json_members(*schema), name@),
{
    let items: &Vec<serde_json::Value> = match object_get(schema, "required") {
        Some(value) => match as_array(value) {
            Some(items) => items,
            None => {
                return false;
            },
        },
        None => {
            return false;
        },
    };
    let ghost trees = Seq::new(items@.len(), |i: int| json_tree(items@[i]));
    let mut i: usize = 0;
    while i < items.len()
        invariant
            i <= items.len(),
            trees == Seq::new(items@.len(), |k: int| json_tree(items@[k])),
            member(json_members(*schema), "required"@) == Some(JsonTree::Items(trees)),
            forall|k: int| 0 <= k < i ==> trees[k] != JsonTree::Text(name@),
        decreases items.len() - i,
    {
        if let Some(text) = as_str(&items[i]) {
            if same_text(text, name) {
                assert(trees[i as int] == JsonTree::Text(name@));
                return true;
            }
        }
        i += 1;
    }
    false
}

impl ToolInfo {
    /// What scripts are to know of a tool of this name, description and parameters: nothing, where
    /// the name lacks the separator.
    pub fn from_parts(
        name: &str,
        description: Option<String>,
        params: Vec<(String, String, bool)>,
    ) -> (res: Option<ToolInfo>)
        ensures
            ({
                let expected = info_from(name@, option_text(description), param_views(params@));
                match res {
                    Some(info) => expected == Some(info@),
                    None => expected is None,
                }
            }),
    {
        let (server_name, tool_name) = match split_once(name, NAME_SEPARATOR) {
            Some(names) => names,
            None => {
                return None;
            },
        };
        let description: String = match description {
            Some(text) => text,
            None => String::new(),
        };
        Some(ToolInfo { server_name, tool_name, full_name: name.to_string(), description, params })
    }

    /// What scripts are to know of a tool: nothing, where its full name lacks the separator.
    pub fn from_mcp_tool(tool: &McpTool) -> (res: Option<ToolInfo>)
        ensures
            match res {
                Some(info) => info_of(tool@) == Some(info@),
                None => info_of(tool@) is None,
            },
            res is Some <==> holds_text(tool.name@, "__"@),
            res matches Some(info) ==> {
                &&& info.full_name@ == tool.name@
                &&& info.full_name@ == info.server_name@ + "__"@ + info.tool_name@
                &&& info.params@.len() == tool.parameter_names@.len()
                &&& forall|i: int|
                    0 <= i < info.params@.len() ==> (#[trigger] info.params@[i]).0@
                        == tool.parameter_names@[i]@
            },
            res matches Some(info) ==> forall|i: int, k: int|
                #![trigger info.params@[i],
                    json_members(tool.input_schema)["required"@]->Items_0[k]]
                {
                    let schema = json_members(tool.input_schema);
                    let items = schema["required"@]->Items_0;
                    0 <= i < info.params@.len() && schema.contains_key("required"@)
                        && schema["required"@] is Items && 0 <= k < items.len() && items[k]
                        == JsonTree::Text(info.params@[i].0@) ==> info.params@[i].2
                },
    {
        let mut params: Vec<(String, String, bool)> = Vec::new();
        let mut i: usize = 0;
        while i < tool.parameter_names.len()
            invariant
                i <= tool.parameter_names.len(),
                params.len() == i,
                forall|k: int|
                    0 <= k < i ==> {
                        let name = tool@.parameter_names[k];
                        &&& (#[trigger] params@[k]).0@ == name
                        &&& params@[k].1@ == param_type(tool@.input_schema, name)
                        &&& params@[k].2 == is_required(tool@.input_schema, name)
                    },
            decreases tool.parameter_names.len() - i,
        {
            let name: &str = tool.parameter_names[i].as_str();
            params.push(
                (
                    name.to_string(),
                    find_param_type(&tool.input_schema, name),
                    find_required(&tool.input_schema, name),
                ),
            );
            i += 1;
        }
        assert(param_views(params@) == params_of(tool@));
        let description: Option<String> = match &tool.description {
            Some(text) => Some(text.clone()),
            None => None,
        };
        let res: Option<ToolInfo> = ToolInfo::from_parts(tool.name.as_str(), description, params);
        proof {
            law_what_is_known(tool@, Seq::empty(), Seq::empty());
            if res is Some {
                assert(res->0@.params == params_of(tool@));
                assert forall|i: int| 0 <= i < tool.parameter_names@.len() implies res->0@.params[i]
                    == (#[trigger] res->0.params@[i].0@, res->0.params@[i].1@, res->0.params@[i].2)
                    && res->0.params@[i].0@ == tool.parameter_names@[i]@ by {
                    law_parameters(tool@, i);
                }
                assert(res->0.params@.len() == params_of(tool@).len());
                assert forall|i: int, k: int|
                    #![trigger res->0.params@[i], json_members(
                        tool.input_schema,
                    )["required"@]->Items_0[k]]
                    {
                        let schema = json_members(tool.input_schema);
                        let items = schema["required"@]->Items_0;
                        0 <= i < res->0.params@.len() && schema.contains_key("required"@)
                            && schema["required"@] is Items && 0 <= k < items.len() && items[k]
                            == JsonTree::Text(res->0.params@[i].0@)
                    } implies res->0.params@[i].2 by {
                    law_parameters(tool@, i);
                    assert(res->0@.params[i].0 == res->0.params@[i].0@);
                }
            }
        }
        res
    }

    /// The signature of the tool: its name, its parameters and the first line of its description.
    pub fn to_signature(&self) -> (res: String)
        ensures
            res@ == self@.signature(),
    {
        let mut params: Vec<String> = Vec::new();
        let mut i: usize = 0;
        while i < self.params.len()
            invariant
                i <= self.params.len(),
                params.len() == i,
                forall|k: int|
                    0 <= k < i ==> (#[trigger] params@[k])@ == param_text(self@.params[k]),
            decreases self.params.len() - i,
        {
            let mark: &str = if self.params[i].2 {
                ""
            } else {
                "?"
            };
            let (name, ty, _) = &self.params[i];
            params.push(name.clone().concat(mark).concat(": ").concat(ty.as_str()));
            i += 1;
        }
        assert(texts(params@) == Seq::new(
            self@.params.len(),
            |k: int| param_text(self@.params[k]),
        ));
        let summary: String = find_first_line(self.description.as_str());
        self.tool_name.clone().concat("({ ").concat(join(&params, ", ").as_str()).concat(
            " }): string - ",
        ).concat(summary.as_str())
    }
}

/// A tool's full name is the name of its server, the separator and the name of the tool, and the
/// name of the server does not hold the separator.
pub proof fn law_full_name(tool: McpToolView)
    requires
        info_of(tool) is Some,
    ensures
        info_of(tool)->0.full_name == info_of(tool)->0.server_name + NAME_SEPARATOR@ + info_of(
            tool,
        )->0.tool_name,
        !holds_text(info_of(tool)->0.server_name, NAME_SEPARATOR@),
{
    let name = tool.name;
    let info = info_of(tool)->0;
    lemma_find_from(name, NAME_SEPARATOR@, 0);
    let at = find_from(name, NAME_SEPARATOR@, 0)->0;
    assert(name.subrange(at, at + NAME_SEPARATOR@.len()) == NAME_SEPARATOR@);
    assert(name == info.server_name + NAME_SEPARATOR@ + info.tool_name);
    assert forall|k: int| !occurs_at(info.server_name, NAME_SEPARATOR@, k) by {
        if occurs_at(info.server_name, NAME_SEPARATOR@, k) {
            reveal_strlit("__");
            assert(name.subrange(k, k + 2) == info.server_name.subrange(k, k + 2));
            assert(occurs_at(name, NAME_SEPARATOR@, k));
        }
    }
}

/// The names of a server and its tool are found again in the full name that is made of them,
/// unless the name of the server holds the separator or ends with an underscore.
pub proof fn law_names_are_found_again(server: Seq<char>, tool: Seq<char>)
    requires
        !holds_text(server, NAME_SEPARATOR@),
        server.len() > 0 ==> server.last() != '_',
    ensures
        split_at_first(server + NAME_SEPARATOR@ + tool, NAME_SEPARATOR@) == Some((server, tool)),
{
    reveal_strlit("__");
    let name = server + NAME_SEPARATOR@ + tool;
    let n = server.len() as int;
    assert(name.subrange(n, n + 2) == NAME_SEPARATOR@);
    assert(occurs_at(name, NAME_SEPARATOR@, n));
    assert forall|k: int| 0 <= k < n implies !occurs_at(name, NAME_SEPARATOR@, k) by {
        if occurs_at(name, NAME_SEPARATOR@, k) {
            assert(name.subrange(k, k + 2)[0] == '_' && name.subrange(k, k + 2)[1] == '_');
            if k + 1 < n {
                assert(server.subrange(k, k + 2) == NAME_SEPARATOR@);
                assert(occurs_at(server, NAME_SEPARATOR@, k));
            }
        }
    }
    lemma_find_from(name, NAME_SEPARATOR@, 0);
    assert(name.take(n) == server);
    assert(name.skip(n + 2) == tool);
}

/// Whether the input schema gives a parameter this type.
pub open spec fn gives_type(
    schema: Map<Seq<char>, JsonTree>,
    name: Seq<char>,
    ty: Seq<char>,
) -> bool {
    let properties = schema["properties"@]->Members_0;
    let property = properties[name]->Members_0;
    &&& schema.contains_key("properties"@)
    &&& schema["properties"@] is Members
    &&& properties.contains_key(name)
    &&& properties[name] is Members
    &&& property.contains_key("type"@)
    &&& property["type"@] == JsonTree::Text(ty)
}

/// Each parameter is told by its name, in the order in which the host names them; its type is what
/// the input schema gives, and `any` where it gives none; and it is required exactly where some
/// item of the array under `required` is its name.
pub proof fn law_parameters(tool: McpToolView, i: int)
    requires
        info_of(tool) is Some,
        0 <= i < tool.parameter_names.len(),
    ensures
        ({
            let schema = tool.input_schema;
            let name = tool.parameter_names[i];
            let params = info_of(tool)->0.params;
            &&& params.len() == tool.parameter_names.len()
            &&& params[i].0 == name
            &&& forall|ty: Seq<char>| #[trigger] gives_type(schema, name, ty) ==> params[i].1 == ty
            &&& (forall|ty: Seq<char>| !#[trigger] gives_type(schema, name, ty)) ==> params[i].1
                == "any"@
            &&& params[i].2 <==> schema.contains_key("required"@) && schema["required"@] is Items
                && exists|k: int|
                0 <= k < schema["required"@]->Items_0.len()
                    && #[trigger] schema["required"@]->Items_0[k] == JsonTree::Text(name)
        }),
{
    let schema = tool.input_schema;
    let name = tool.parameter_names[i];
    let params = info_of(tool)->0.params;
    assert(params[i] == (name, param_type(schema, name), is_required(schema, name)));
    if let Some(JsonTree::Members(properties)) = member(schema, "properties"@) {
        if let Some(JsonTree::Members(property)) = member(properties, name) {
            if let Some(JsonTree::Text(text)) = member(property, "type"@) {
                assert(gives_type(schema, name, text));
            }
        }
    }
    if let Some(JsonTree::Items(items)) = member(schema, "required"@) {
        assert(schema["required"@] == JsonTree::Items(items));
        if items.contains(JsonTree::Text(name)) {
            let k = choose|k: int| 0 <= k < items.len() && items[k] == JsonTree::Text(name);
            assert(items[k] == JsonTree::Text(name));
        }
    }
}

/// What is known of a tool: its full name is the host's, which is split at the first two
/// underscores, and its description is the host's, whole, or empty. Nothing is known of a tool
/// whose full name has no two underscores in a row.
pub proof fn law_what_is_known(
    tool: McpToolView,
    server: Seq<char>,
    own: Seq<char>,
)
    ensures
        tool.name == server + "__"@ + own && !holds_text((server + "__"@).drop_last(), "__"@) ==> {
            let info = info_of(tool)->0;
            &&& info_of(tool) is Some
            &&& info.server_name == server
            &&& info.tool_name == own
        },
        info_of(tool) is Some <==> holds_text(tool.name, "__"@),
        info_of(tool) matches Some(info) ==> {
            &&& info.full_name == tool.name
            &&& info.full_name == info.server_name + "__"@ + info.tool_name
            &&& tool.description matches Some(text) ==> info.description == text
            &&& tool.description is None ==> info.description == Seq::<char>::empty()
        },
{
    reveal_strlit("__");
    if tool.name == server + "__"@ + own && !holds_text((server + "__"@).drop_last(), "__"@) {
        law_splitting_at_the_first(server, "__"@, own);
    }
    lemma_find_from(tool.name, "__"@, 0);
    if info_of(tool) is Some {
        law_full_name(tool);
        assert(occurs_at(tool.name, "__"@, find_from(tool.name, "__"@, 0)->0));
    }
}

/// The signature of a tool: its name, its parameters and the first line of its description, where
/// each parameter adds its name, `?` unless it is required, and its type, after a comma unless it
/// is the first.
pub proof fn law_signature(info: ToolInfoView, param: (Seq<char>, Seq<char>, bool))
    ensures
        ({
            let longer = ToolInfoView { params: info.params.push(param), ..info };
            let tail = " }): string - "@ + first_line(info.description);
            let front = info.signature().take(info.signature().len() - tail.len());
            &&& info.params.len() == 0 ==> info.signature() == info.tool_name + "({ "@ + tail
            &&& info.signature() == front + tail
            &&& longer.signature() == front + (if info.params.len() == 0 {
                Seq::<char>::empty()
            } else {
                ", "@
            }) + param.0 + (if param.2 {
                Seq::<char>::empty()
            } else {
                "?"@
            }) + ": "@ + param.1 + tail
        }),
{
    reveal_strlit("");
    let longer = ToolInfoView { params: info.params.push(param), ..info };
    let tail = " }): string - "@ + first_line(info.description);
    let own = Seq::new(info.params.len(), |i: int| param_text(info.params[i]));
    let more = Seq::new(longer.params.len(), |i: int| param_text(longer.params[i]));
    let head = info.tool_name + "({ "@;
    assert(more == own + seq![param_text(param)]);
    assert(""@ == Seq::<char>::empty());
    assert(info.signature() == head + joined(own, ", "@) + tail);
    assert(longer.signature() == head + joined(more, ", "@) + tail);
    let front = info.signature().take(info.signature().len() - tail.len());
    assert(front == head + joined(own, ", "@));
    law_joining(own, seq![param_text(param)], ", "@);
    law_joining(seq![param_text(param)], own, ", "@);
    if info.params.len() == 0 {
        assert(own == Seq::<Seq<char>>::empty());
        assert(own + seq![param_text(param)] == seq![param_text(param)]);
        assert(info.signature() == info.tool_name + "({ "@ + tail);
    }
}

} // verus!
