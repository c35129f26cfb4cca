//! Calls of tools that scripts make: from the script to the host, and back.
use vstd::prelude::*;

use crate::content::Content;
use crate::json::{empty_object, parse_object, write_value};
use crate::text::join;
#[allow(unused_imports)]
use crate::content::{content_views, ContentView};
#[allow(unused_imports)]
use crate::json::{json_members, json_object, json_text, json_tree, reads_back, JsonTree};
#[allow(unused_imports)]
use crate::text::{joined, law_joining, option_text, result_text, texts};

verus! {

/// What a script passes to a tool: its first argument, and no members where it passes none.
pub open spec fn passed(json: Option<serde_json::Value>) -> JsonTree {
    match json {
        Some(value) => json_tree(value),
        None => JsonTree::Members(Map::empty()),
    }
}

/// The text that arguments are sent as, given their JSON text where they have one.
pub open spec fn sent_as(written: Option<Seq<char>>) -> Seq<char> {
    match written {
        Some(text) => text,
        None => "{}"@,
    }
}

/// The text that arguments are sent as, given their JSON text where they have one.
pub fn arguments_text(written: Option<String>) -> (res: String)
    ensures
        res@ == sent_as(option_text(written)),
        written matches Some(text) ==> res@ == text@,
        written is None ==> res@ == "{}"@,
{
    match written {
        Some(text) => text,
        None => "{}".to_string(),
    }
}

/// The text that the arguments of a call are sent as: the JSON text of the call's first argument,
/// or of an object without members where there is none.
///
/// The text of an object reads back as the object that the script passed, where that nests at most
/// 127 levels and its numbers are integers.
pub fn write_arguments(json: Option<serde_json::Value>) -> (res: String)
    ensures
        res@ == json_text(passed(json)),
        json is None ==> res@ == "{}"@,
        json matches Some(value) ==> res@ == json_text(json_tree(value)),
        json matches Some(value) ==> (json_tree(value) is Members && reads_back(
            json_tree(value),
            127,
        ) ==> json_object(res@) == Some(json_tree(value)->Members_0)),
        passed(json) is Members && reads_back(passed(json), 127) ==> json_object(res@) == Some(
            passed(json)->Members_0,
        ),
{
    let value: serde_json::Value = match json {
        Some(value) => value,
        None => empty_object(),
    };
    match write_value(&value) {
        Ok(text) => arguments_text(Some(text)),
        Err(_) => arguments_text(None),
    }
}

/// A call of a tool, as the host gets it.
pub struct CallToolRequest {
    /// The full name of the tool.
    pub name: String,
    pub arguments: Option<serde_json::Map<String, serde_json::Value>>,
}

/// What a call of a tool asks for.
pub ghost struct CallToolRequestView {
    pub name: Seq<char>,
    pub arguments: Option<Map<Seq<char>, JsonTree>>,
}

impl View for CallToolRequest {
    type V = CallToolRequestView;

    open spec fn view(&self) -> CallToolRequestView {
        CallToolRequestView {
            name: self.name@,
            arguments: match self.arguments {
                Some(object) => Some(json_members(object)),
                None => None,
            },
        }
    }
}

/// The call of a tool that the host gets, given the text of its arguments. It has arguments where
/// the text is that of an object.
pub fn read_request(name: String, arguments: &str) -> (res: CallToolRequest)
    ensures
        res@ == (CallToolRequestView { name: name@, arguments: json_object(arguments@) }),
        res.name == name,
        match res.arguments {
            Some(object) => json_object(arguments@) == Some(json_members(object)),
            None => json_object(arguments@) is None,
        },
{
    let arguments: Option<serde_json::Map<String, serde_json::Value>> = match parse_object(
        arguments,
    ) {
        Ok(object) => Some(object),
        Err(_) => None,
    };
    CallToolRequest { name, arguments }
}

/// What becomes of a call that a script made.
pub enum HandlerAction {
    /// It goes to the host.
    Dispatch { request: CallToolRequest },
    /// The script gets this answer.
    Reply { result: Result<String, String> },
}

/// What a call that a script made is to become.
pub ghost enum HandlerActionView {
    Dispatch { request: CallToolRequestView },
    Reply { result: Result<Seq<char>, Seq<char>> },
}

impl View for HandlerAction {
    type V = HandlerActionView;

    open spec fn view(&self) -> HandlerActionView {
        match *self {
            HandlerAction::Dispatch { request } => HandlerActionView::Dispatch {
                request: request@,
            },
            HandlerAction::Reply { result } => HandlerActionView::Reply {
                result: result_text(result),
            },
        }
    }
}

/// Takes a call that a script made: it goes to the host, where the host is there.
pub fn handle_tool_call(host_available: bool, name: String, arguments: &str) -> (res: HandlerAction)
    ensures
        res@ == if host_available {
            HandlerActionView::Dispatch {
                request: CallToolRequestView { name: name@, arguments: json_object(arguments@) },
            }
        } else {
            HandlerActionView::Reply { result: Err("Extension manager not available"@) }
        },
        match res {
            HandlerAction::Dispatch { request } => host_available && request.name == name && (
            match request.arguments {
                Some(object) => json_object(arguments@) == Some(json_members(object)),
                None => json_object(arguments@) is None,
            }),
            HandlerAction::Reply { result } => !host_available && (result matches Err(message)
                && message@ == "Extension manager not available"@),
        },
{
    if host_available {
        HandlerAction::Dispatch { request: read_request(name, arguments) }
    } else {
        HandlerAction::Reply { result: Err("Extension manager not available".to_string()) }
    }
}

/// What came of a call that went to the host.
pub enum DispatchOutcome {
    /// The host did not take it.
    Refused { message: String },
    /// The tool failed.
    Failed { message: String },
    /// The tool gave this content.
    Completed { content: Vec<Content> },
}

/// The texts among some content, in their order.
pub open spec fn text_parts(content: Seq<ContentView>) -> Seq<Seq<char>>
    decreases content.len(),
{
    if content.len() == 0 {
        Seq::empty()
    } else {
        match content.last() {
            ContentView::Text { text } => text_parts(content.drop_last()).push(text),
            ContentView::Other => text_parts(content.drop_last()),
        }
    }
}

/// What a script gets back from a call that went to the host.
pub open spec fn reply_to(outcome: DispatchOutcome) -> Result<Seq<char>, Seq<char>> {
    match outcome {
        DispatchOutcome::Refused { message } => Err("Dispatch error: "@ + message@),
        DispatchOutcome::Failed { message } => Err("Tool error: "@ + message@),
        DispatchOutcome::Completed { content } => Ok(
            joined(text_parts(content_views(content@)), "\n"@),
        ),
    }
}

/// The texts among some content, one on each line.
fn join_texts(content: &Vec<Content>) -> (res: String)
    ensures
        res@ == joined(text_parts(content_views(content@)), "\n"@),
{
    let ghost all = content_views(content@);
    let mut parts: Vec<String> = Vec::new();
    let mut i: usize = 0;
    assert(texts(parts@) == text_parts(all.take(0)));
    while i < content.len()
        invariant
            i <= content.len(),
            all == content_views(content@),
            texts(parts@) == text_parts(all.take(i as int)),
        decreases content.len() - i,
    {
        let ghost before = texts(parts@);
        match &content[i] {
            Content::Text { text } => {
                parts.push(text.clone());
                assert(texts(parts@) == before.push(text@));
            },
            Content::Other => {},
        }
        assert(all.take(i + 1).drop_last() == all.take(i as int));
        i += 1;
    }
    assert(all.take(i as int) == all);
    join(&parts, "\n")
}

/// What a script gets back from a call that went to the host: the texts that the tool gave, one
/// on each line, or why there are none.
pub fn tool_reply(outcome: DispatchOutcome) -> (res: Result<String, String>)
    ensures
        result_text(res) == reply_to(outcome),
        match outcome {
            DispatchOutcome::Refused { message } => res matches Err(text) && text@
                == "Dispatch error: "@ + message@,
            DispatchOutcome::Failed { message } => res matches Err(text) && text@
                == "Tool error: "@ + message@,
            DispatchOutcome::Completed { content } => res matches Ok(text) && reply_to(outcome)
                == Ok::<_, Seq<char>>(text@),
        },
{
    match outcome {
        DispatchOutcome::Refused { message } => Err(
            "Dispatch error: ".to_string().concat(message.as_str()),
        ),
        DispatchOutcome::Failed { message } => Err(
            "Tool error: ".to_string().concat(message.as_str()),
        ),
        DispatchOutcome::Completed { content } => Ok(join_texts(&content)),
    }
}

/// What came of the wait for the answer to a call.
pub enum AwaitedReply {
    /// The call could not be sent.
    Unsent,
    /// The call was dropped without an answer, with this message.
    Dropped { message: String },
    /// This is the answer.
    Answered { result: Result<String, String> },
}

/// The value of a call in its script, or the message of the exception that it throws.
pub open spec fn call_value(awaited: AwaitedReply) -> Result<Seq<char>, Seq<char>> {
    match awaited {
        AwaitedReply::Unsent => Err("Channel unavailable"@),
        AwaitedReply::Dropped { message } => Err(message@),
        AwaitedReply::Answered { result } => result_text(result),
    }
}

/// The value of a call in its script, or the message of the exception that it throws.
pub fn tool_call_value(awaited: AwaitedReply) -> (res: Result<String, String>)
    ensures
        result_text(res) == call_value(awaited),
        match awaited {
            AwaitedReply::Unsent => res matches Err(text) && text@ == "Channel unavailable"@,
            AwaitedReply::Dropped { message } => res == Err::<String, _>(message),
            AwaitedReply::Answered { result } => res == result,
        },
{
    match awaited {
        AwaitedReply::Unsent => Err("Channel unavailable".to_string()),
        AwaitedReply::Dropped { message } => Err(message),
        AwaitedReply::Answered { result } => result,
    }
}

/// The texts are taken one by one, in their order, each whole; other content adds nothing.
pub proof fn law_texts_are_taken_one_by_one(
    content: Seq<ContentView>,
    more: Seq<ContentView>,
    text: Seq<char>,
)
    ensures
        text_parts(Seq::empty()) == Seq::<Seq<char>>::empty(),
        text_parts(seq![ContentView::Text { text }]) == seq![text],
        text_parts(seq![ContentView::Other]) == Seq::<Seq<char>>::empty(),
        text_parts(content + more) == text_parts(content) + text_parts(more),
    decreases more.len(),
{
    let none = Seq::<ContentView>::empty();
    assert(seq![ContentView::Text { text }].drop_last() == none);
    assert(seq![ContentView::Other].drop_last() == none);
    assert(text_parts(none) == Seq::<Seq<char>>::empty());
    assert(text_parts(none).push(text) == seq![text]);
    if more.len() == 0 {
        assert(content + more == content);
        assert(more == none);
        assert(text_parts(content) + text_parts(none) == text_parts(content));
    } else {
        let init = more.drop_last();
        law_texts_are_taken_one_by_one(content, init, text);
        assert((content + more).drop_last() == content + init);
        assert((content + more).last() == more.last());
        if let ContentView::Text { text: last } = more.last() {
            assert(text_parts(content) + text_parts(init).push(last) == (text_parts(content)
                + text_parts(init)).push(last));
        }
    }
}

/// There are texts to take where some piece of content is one, and only there.
proof fn lemma_some_text(content: Seq<ContentView>)
    ensures
        text_parts(content).len() > 0 <==> exists|i: int|
            0 <= i < content.len() && #[trigger] content[i] is Text,
    decreases content.len(),
{
    if content.len() > 0 {
        let init = content.drop_last();
        lemma_some_text(init);
        let last = content.len() - 1;
        if content[last] is Text {
            assert(text_parts(content).len() > 0);
        } else {
            assert(text_parts(content) == text_parts(init));
            if text_parts(init).len() > 0 {
                let i = choose|i: int| 0 <= i < init.len() && #[trigger] init[i] is Text;
                assert(content[i] is Text);
            }
            if exists|i: int| 0 <= i < content.len() && #[trigger] content[i] is Text {
                let i = choose|i: int| 0 <= i < content.len() && #[trigger] content[i] is Text;
                assert(init[i] is Text);
            }
        }
    }
}

/// What a script gets of the content that a tool gave: of one text, that text, whole; of nothing
/// but other content, an empty text; and of content that is followed by more, what it gets of the
/// one, a line feed and what it gets of the other, where both hold texts, and else what it gets of
/// the one that holds some.
pub proof fn law_the_reply_holds_every_text(
    content: Vec<Content>,
    more: Vec<Content>,
    both: Vec<Content>,
)
    requires
        both@ == content@ + more@,
    ensures
        ({
            let first = reply_to(DispatchOutcome::Completed { content });
            let second = reply_to(DispatchOutcome::Completed { content: more });
            let whole = reply_to(DispatchOutcome::Completed { content: both });
            let some = exists|i: int| 0 <= i < content@.len() && #[trigger] content@[i] is Text;
            let others = exists|i: int| 0 <= i < more@.len() && #[trigger] more@[i] is Text;
            &&& content@.len() == 1 ==> (content@[0] matches Content::Text { text } ==> first
                == Ok::<_, Seq<char>>(text@))
            &&& !some ==> first == Ok::<_, Seq<char>>(Seq::<char>::empty())
            &&& first is Ok && second is Ok
            &&& some && others ==> whole == Ok::<_, Seq<char>>(
                first->Ok_0 + seq!['\n'] + second->Ok_0,
            )
            &&& !others ==> whole == first
            &&& !some ==> whole == second
        }),
{
    reveal_strlit("\n");
    let a = content_views(content@);
    let b = content_views(more@);
    let all = content_views(both@);
    assert("\n"@ == seq!['\n']);
    assert(all == a + b);
    law_texts_are_taken_one_by_one(a, b, Seq::empty());
    lemma_some_text(a);
    lemma_some_text(b);
    law_joining(text_parts(a), text_parts(b), "\n"@);
    assert((exists|i: int| 0 <= i < content@.len() && #[trigger] content@[i] is Text) ==> exists|
        i: int,
    |
        0 <= i < a.len() && #[trigger] a[i] is Text) by {
        if exists|i: int| 0 <= i < content@.len() && #[trigger] content@[i] is Text {
            let i = choose|i: int| 0 <= i < content@.len() && #[trigger] content@[i] is Text;
            assert(a[i] is Text);
        }
    }
    assert((exists|i: int| 0 <= i < a.len() && #[trigger] a[i] is Text) ==> exists|i: int|
        0 <= i < content@.len() && #[trigger] content@[i] is Text) by {
        if exists|i: int| 0 <= i < a.len() && #[trigger] a[i] is Text {
            let i = choose|i: int| 0 <= i < a.len() && #[trigger] a[i] is Text;
            assert(content@[i] is Text);
        }
    }
    assert((exists|i: int| 0 <= i < more@.len() && #[trigger] more@[i] is Text) ==> exists|i: int|
        0 <= i < b.len() && #[trigger] b[i] is Text) by {
        if exists|i: int| 0 <= i < more@.len() && #[trigger] more@[i] is Text {
            let i = choose|i: int| 0 <= i < more@.len() && #[trigger] more@[i] is Text;
            assert(b[i] is Text);
        }
    }
    assert((exists|i: int| 0 <= i < b.len() && #[trigger] b[i] is Text) ==> exists|i: int|
        0 <= i < more@.len() && #[trigger] more@[i] is Text) by {
        if exists|i: int| 0 <= i < b.len() && #[trigger] b[i] is Text {
            let i = choose|i: int| 0 <= i < b.len() && #[trigger] b[i] is Text;
            assert(more@[i] is Text);
        }
    }
    if text_parts(a).len() == 0 {
        assert(text_parts(a) == Seq::<Seq<char>>::empty());
        assert(text_parts(a) + text_parts(b) == text_parts(b));
    }
    if text_parts(b).len() == 0 {
        assert(text_parts(b) == Seq::<Seq<char>>::empty());
        assert(text_parts(a) + text_parts(b) == text_parts(a));
    }
    if content@.len() == 1 {
        if let Content::Text { text } = content@[0] {
            law_texts_are_taken_one_by_one(a, b, text@);
            assert(a == seq![ContentView::Text { text: text@ }]);
        }
    }
}

} // verus!
