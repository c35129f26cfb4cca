//! What calls of tools are answered with.
use vstd::prelude::*;

verus! {

/// A piece of content.
pub enum Content {
    /// A text.
    Text { text: String },
    /// Anything else: an image, a sound, a resource.
    Other,
}

/// What a piece of content holds.
pub ghost enum ContentView {
    Text { text: Seq<char> },
    Other,
}

impl View for Content {
    type V = ContentView;

    open spec fn view(&self) -> ContentView {
        match *self {
            Content::Text { text } => ContentView::Text { text: text@ },
            Content::Other => ContentView::Other,
        }
    }
}

/// What each of some pieces of content holds.
pub open spec fn content_views(content: Seq<Content>) -> Seq<ContentView> {
    Seq::new(content.len(), |i: int| content[i]@)
}

/// What content, or an error in place of it, holds.
pub open spec fn outcome_view(outcome: Result<Vec<Content>, String>) -> Result<
    Seq<ContentView>,
    Seq<char>,
> {
    match outcome {
        Ok(content) => Ok(content_views(content@)),
        Err(message) => Err(message@),
    }
}

/// The content that is one text.
pub open spec fn one_text(text: Seq<char>) -> Seq<ContentView> {
    seq![ContentView::Text { text }]
}

/// Content that is one text holds one piece, and that is the text.
pub proof fn law_one_text(content: Seq<Content>, text: Seq<char>)
    ensures
        content_views(content) == one_text(text) <==> content.len() == 1 && (
        content[0] matches Content::Text { text: held } && held@ == text),
{
    if content_views(content) == one_text(text) {
        assert(content_views(content)[0] == one_text(text)[0]);
        assert(content_views(content).len() == 1);
    }
    if content.len() == 1 && (content[0] matches Content::Text { text: held } && held@ == text) {
        assert(content_views(content) == one_text(text));
    }
}

/// The content that is one text.
pub fn text_content(text: String) -> (res: Vec<Content>)
    ensures
        content_views(res@) == one_text(text@),
        res@.len() == 1,
        res@[0] == (Content::Text { text }),
{
    let res = vec![Content::Text { text }];
    assert(content_views(res@) == one_text(text@));
    res
}

/// The answer to a call of a tool.
pub struct CallToolResult {
    pub content: Vec<Content>,
    /// Whether the call failed.
    pub is_error: Option<bool>,
}

/// What an answer to a call of a tool says.
pub ghost struct CallToolResultView {
    pub content: Seq<ContentView>,
    pub is_error: Option<bool>,
}

impl View for CallToolResult {
    type V = CallToolResultView;

    open spec fn view(&self) -> CallToolResultView {
        CallToolResultView { content: content_views(self.content@), is_error: self.is_error }
    }
}

/// The answer that a call gets: its content, or a text with its error, marked as such.
pub open spec fn answer(outcome: Result<Seq<ContentView>, Seq<char>>) -> CallToolResultView {
    match outcome {
        Ok(content) => CallToolResultView { content, is_error: Some(false) },
        Err(message) => CallToolResultView {
            content: one_text("Error: "@ + message),
            is_error: Some(true),
        },
    }
}

/// The answer that a call gets: its content, or a text with its error, marked as such.
pub fn call_tool_result(outcome: Result<Vec<Content>, String>) -> (res: CallToolResult)
    ensures
        res@ == answer(outcome_view(outcome)),
        match outcome {
            Ok(content) => res.content@ == content@ && res.is_error == Some(false),
            Err(message) => res.content@.len() == 1 && (res.content@[0] matches Content::Text {
                text,
            } && text@ == "Error: "@ + message@) && res.is_error == Some(true),
        },
{
    match outcome {
        Ok(content) => CallToolResult { content, is_error: Some(false) },
        Err(message) => CallToolResult {
            content: text_content("Error: ".to_string().concat(message.as_str())),
            is_error: Some(true),
        },
    }
}

} // verus!
