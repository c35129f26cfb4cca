//! Making the value of a script's last statement its result.
use vstd::prelude::*;

use crate::statements::{find_statements, word_char, Statements};
use crate::text::{
    contains, join, lines, split, starts_with, strip_prefix, trim, trim_end_matches, CharClass,
};
#[allow(unused_imports)]
use crate::statement_laws::law_a_statement_is_within_its_script;
#[allow(unused_imports)]
use crate::statements::{is_word_char, scan, statement_end, statement_start};
#[allow(unused_imports)]
use crate::text::{
    begins_with, drop_trailing, holds_text, joined, lacks, lines_of, occurs_at, split_by, texts,
    trimmed,
};

verus! {

/// The global variable that a script leaves its result in.
pub const RESULT_NAME: &'static str = "__result__";

/// The lines of a script, without the white space round it.
pub open spec fn script_lines(code: Seq<char>) -> Seq<Seq<char>> {
    lines_of(trimmed(code))
}

/// The text of a script: its lines, with a line feed between each two of them.
pub open spec fn script_text(code: Seq<char>) -> Seq<char> {
    joined(script_lines(code), "\n"@)
}

/// Whether a line holds more than white space and is no line comment.
pub open spec fn is_code_line(line: Seq<char>) -> bool {
    trimmed(line).len() > 0 && !begins_with(trimmed(line), "//"@)
}

/// The position of the last line that holds code, or 0 where there is none.
pub open spec fn last_line_index(lines: Seq<Seq<char>>) -> int
    decreases lines.len(),
{
    if lines.len() == 0 {
        0
    } else if is_code_line(lines.last()) {
        lines.len() - 1
    } else {
        last_line_index(lines.drop_last())
    }
}

/// The last line that holds code; the first line where there is none, and nothing where there are
/// no lines.
pub open spec fn last_line(lines: Seq<Seq<char>>) -> Seq<char> {
    if lines.len() == 0 {
        Seq::empty()
    } else {
        lines[last_line_index(lines)]
    }
}

/// Where the line starts that position `at` is on.
pub open spec fn line_start(text: Seq<char>, at: int) -> int
    decreases at,
{
    if at <= 0 {
        0
    } else if text[at - 1] == '\n' {
        at
    } else {
        line_start(text, at - 1)
    }
}

/// `s` without one line feed at its end.
pub open spec fn without_feed(s: Seq<char>) -> Seq<char> {
    if s.len() > 0 && s.last() == '\n' {
        s.drop_last()
    } else {
        s
    }
}

/// What stands before the last statement of a script; where it has none, before the last line that
/// holds code.
pub open spec fn preamble(code: Seq<char>) -> Seq<char> {
    match statement_start(script_text(code)) {
        Some(start) => without_feed(script_text(code).take(start)),
        None => joined(script_lines(code).take(last_line_index(script_lines(code))), "\n"@),
    }
}

/// The last statement of a script, with the comments on its first and its last line; where it has
/// none, the last line that holds code.
pub open spec fn last_statement(code: Seq<char>) -> Seq<char> {
    let text = script_text(code);
    match statement_start(text) {
        Some(start) => trimmed(text.subrange(start, statement_end(text))),
        None => trimmed(last_line(script_lines(code))),
    }
}

/// The lines that the last statement of a script stands on.
pub open spec fn last_lines(code: Seq<char>) -> Seq<char> {
    let text = script_text(code);
    match statement_start(text) {
        Some(start) => text.subrange(line_start(text, start), statement_end(text)),
        None => trimmed(last_line(script_lines(code))),
    }
}

/// Whether a text starts with a word.
pub open spec fn starts_with_word(s: Seq<char>, word: Seq<char>) -> bool {
    begins_with(s, word) && (s.len() == word.len() || !is_word_char(s[word.len() as int]))
}

/// Whether a statement is in braces and holds statements.
pub open spec fn is_block(s: Seq<char>) -> bool {
    s.len() >= 2 && s.first() == '{' && s.last() == '}' && scan(s.subrange(1, s.len() - 1)).ended
}

/// Whether a statement consists of other statements.
pub open spec fn is_compound(s: Seq<char>) -> bool {
    ||| starts_with_word(s, "if"@)
    ||| starts_with_word(s, "else"@)
    ||| starts_with_word(s, "for"@)
    ||| starts_with_word(s, "while"@)
    ||| starts_with_word(s, "do"@)
    ||| starts_with_word(s, "switch"@)
    ||| starts_with_word(s, "try"@)
    ||| starts_with_word(s, "catch"@)
    ||| starts_with_word(s, "finally"@)
    ||| starts_with_word(s, "with"@)
    ||| begins_with(s, "async function "@)
    ||| is_block(drop_trailing(s, CharClass::Only(';')))
}

/// Whether a script is run as it stands: it mentions the result variable on the lines of its last
/// statement, or that is an import, an export, a function or a class, or it takes several lines
/// and consists of other statements.
pub open spec fn runs_as_is(code: Seq<char>) -> bool {
    let last = last_statement(code);
    ||| holds_text(last_lines(code), RESULT_NAME@)
    ||| begins_with(last, "import "@)
    ||| begins_with(last, "export "@)
    ||| begins_with(last, "function "@)
    ||| begins_with(last, "class "@)
    ||| !lacks(last, '\n') && is_compound(last)
}

/// What stands before the first `=` of what follows a keyword.
pub open spec fn name_after(last: Seq<char>, keyword: Seq<char>) -> Seq<char> {
    trimmed(split_by(last.skip(keyword.len() as int), '=')[0])
}

/// What a statement declares, where it is a declaration of variables.
pub open spec fn declared(last: Seq<char>) -> Option<Seq<char>> {
    if begins_with(last, "const "@) {
        Some(name_after(last, "const "@))
    } else if begins_with(last, "let "@) {
        Some(name_after(last, "let "@))
    } else if begins_with(last, "var "@) {
        Some(name_after(last, "var "@))
    } else {
        None
    }
}

/// What leaves the value of a statement in the result variable, after what stands before it.
pub open spec fn with_result(before: Seq<char>, last: Seq<char>) -> Seq<char> {
    match declared(last) {
        Some(name) => before + "\n"@ + last + "\n__result__ = "@ + name + ";"@,
        None => before + "\n__result__ = "@ + drop_trailing(last, CharClass::Only(';')) + ";"@,
    }
}

/// The script that leaves in the result variable the value of the last statement of `code`.
pub open spec fn wrapped(code: Seq<char>) -> Seq<char> {
    if runs_as_is(code) {
        code
    } else {
        with_result(preamble(code), last_statement(code))
    }
}

/// The position of the last line that holds code, or 0 where there is none.
fn find_last_line(lines: &Vec<String>) -> (res: usize)
    ensures
        res == last_line_index(texts(lines@)),
        res < lines.len() || (res == 0 && lines.len() == 0),
{
    let mut end: usize = lines.len();
    assert(texts(lines@).take(end as int) == texts(lines@));
    while end > 0
        invariant
            end <= lines.len(),
            last_line_index(texts(lines@)) == last_line_index(texts(lines@).take(end as int)),
        decreases end,
    {
        let line = trim(lines[end - 1].as_str());
        if !line.is_empty() && !starts_with(line, "//") {
            return end - 1;
        }
        assert(texts(lines@).take(end as int).drop_last() == texts(lines@).take(end - 1));
        end -= 1;
    }
    0
}

/// Where the line starts that position `at` is on.
fn find_line_start(text: &str, at: usize) -> (res: usize)
    requires
        at <= text@.len(),
    ensures
        res == line_start(text@, at as int),
        res <= at,
{
    let mut i: usize = at;
    while i > 0 && text.get_char(i - 1) != '\n'
        invariant
            i <= at <= text@.len(),
            line_start(text@, at as int) == line_start(text@, i as int),
        decreases i,
    {
        i -= 1;
    }
    i
}

/// Tells whether a text starts with a word.
fn has_first_word(s: &str, word: &str) -> (res: bool)
    ensures
        res == starts_with_word(s@, word@),
{
    if !starts_with(s, word) {
        return false;
    }
    let length: usize = word.unicode_len();
    s.unicode_len() == length || !word_char(s.get_char(length))
}

/// Tells whether a statement is in braces and holds statements.
fn holds_statements(s: &str) -> (res: bool)
    ensures
        res == is_block(s@),
{
    let length: usize = s.unicode_len();
    if length < 2 || s.get_char(0) != '{' || s.get_char(length - 1) != '}' {
        return false;
    }
    find_statements(s.substring_char(1, length - 1)).ended
}

/// Tells whether a statement consists of other statements.
fn compound(s: &str) -> (res: bool)
    ensures
        res == is_compound(s@),
{
    has_first_word(s, "if") || has_first_word(s, "else") || has_first_word(s, "for")
        || has_first_word(s, "while") || has_first_word(s, "do") || has_first_word(s, "switch")
        || has_first_word(s, "try") || has_first_word(s, "catch") || has_first_word(s, "finally")
        || has_first_word(s, "with") || starts_with(s, "async function ") || holds_statements(
        trim_end_matches(s, CharClass::Only(';')),
    )
}

/// Tells whether a text has a line feed.
fn spans_lines(s: &str) -> (res: bool)
    ensures
        res == !lacks(s@, '\n'),
{
    proof {
        reveal_strlit("\n");
        assert("\n"@ == seq!['\n']);
        if exists|at: int| 0 <= at < s@.len() && s@[at] == '\n' {
            let at = choose|at: int| 0 <= at < s@.len() && s@[at] == '\n';
            assert(s@.subrange(at, at + 1) == "\n"@);
            assert(occurs_at(s@, "\n"@, at));
        }
        if holds_text(s@, "\n"@) {
            let at = choose|at: int| occurs_at(s@, "\n"@, at);
            assert(s@.subrange(at, at + 1)[0] == s@[at]);
        }
    }
    contains(s, "\n")
}

/// What stands before the first `=`.
fn name_in(rest: &str) -> (res: String)
    ensures
        res@ == trimmed(split_by(rest@, '=')[0]),
{
    let pieces: Vec<String> = split(rest, '=');
    assert(texts(pieces@).len() > 0);
    assert(texts(pieces@)[0] == pieces@[0]@);
    trim(pieces[0].as_str()).to_string()
}

/// What a statement declares, where it is a declaration of variables.
fn find_declared(last: &str) -> (res: Option<String>)
    ensures
        match res {
            Some(name) => declared(last@) == Some(name@),
            None => declared(last@) is None,
        },
{
    if let Some(rest) = strip_prefix(last, "const ") {
        return Some(name_in(rest.as_str()));
    }
    if let Some(rest) = strip_prefix(last, "let ") {
        return Some(name_in(rest.as_str()));
    }
    if let Some(rest) = strip_prefix(last, "var ") {
        return Some(name_in(rest.as_str()));
    }
    None
}

/// What stands before position `to`, without one line feed at its end.
fn text_before(text: &str, to: usize) -> (res: String)
    requires
        to <= text@.len(),
    ensures
        res@ == without_feed(text@.take(to as int)),
{
    let before = text.substring_char(0, to);
    assert(before@ == text@.take(to as int));
    if to > 0 && text.get_char(to - 1) == '\n' {
        let res = text.substring_char(0, to - 1).to_string();
        assert(res@ == before@.drop_last());
        res
    } else {
        before.to_string()
    }
}

/// Leaves the value of a statement in the result variable, after what stands before it.
fn set_result(before: String, last: &str) -> (res: String)
    ensures
        res@ == with_result(before@, last@),
{
    match find_declared(last) {
        Some(name) => before.concat("\n").concat(last).concat("\n__result__ = ").concat(
            name.as_str(),
        ).concat(";"),
        None => before.concat("\n__result__ = ").concat(
            trim_end_matches(last, CharClass::Only(';')),
        ).concat(";"),
    }
}

/// Tells whether a script is run as it stands, by the lines that its last statement stands on and
/// that statement.
fn keeps_script(on_lines: &str, last: &str) -> (res: bool)
    ensures
        res == ({
            ||| holds_text(on_lines@, RESULT_NAME@)
            ||| begins_with(last@, "import "@)
            ||| begins_with(last@, "export "@)
            ||| begins_with(last@, "function "@)
            ||| begins_with(last@, "class "@)
            ||| !lacks(last@, '\n') && is_compound(last@)
        }),
{
    contains(on_lines, RESULT_NAME) || starts_with(last, "import ") || starts_with(last, "export ")
        || starts_with(last, "function ") || starts_with(last, "class ") || (spans_lines(last)
        && compound(last))
}

/// The script that leaves in the result variable the value of the last statement of `code`.
///
/// A script is left as it is where it mentions the result variable on the lines of its last
/// statement, where that is an import, an export, a function or a class, and where it takes several
/// lines and consists of other statements. Of any other, what stands before the last statement is
/// kept, and what follows it, which holds comments only, is left out. The value of a declaration is
/// that of what it declares.
pub fn wrap_for_result(code: &str) -> (res: String)
    ensures
        res@ == wrapped(code@),
{
    let mut all: Vec<String> = lines(trim(code));
    let text: String = join(&all, "\n");
    let found: Statements = find_statements(text.as_str());
    match found.start {
        Some(start) => {
            proof {
                law_a_statement_is_within_its_script(text@);
            }
            let last: &str = trim(text.as_str().substring_char(start, found.end));
            let line: usize = find_line_start(text.as_str(), start);
            if keeps_script(text.as_str().substring_char(line, found.end), last) {
                return code.to_string();
            }
            set_result(text_before(text.as_str(), start), last)
        },
        None => {
            let index: usize = find_last_line(&all);
            let line: String = if index < all.len() {
                assert(texts(all@)[index as int] == all@[index as int]@);
                all[index].clone()
            } else {
                String::new()
            };
            let last: &str = trim(line.as_str());
            if keeps_script(last, last) {
                return code.to_string();
            }
            let ghost every = texts(all@);
            all.truncate(index);
            assert(texts(all@) == every.take(index as int));
            set_result(join(&all, "\n"), last)
        },
    }
}

} // verus!
