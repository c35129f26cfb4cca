//! What holds of every wrapped script.
use vstd::prelude::*;

#[allow(unused_imports)]
use crate::statement_laws::{
    are_statements, can_start, entries_text, gaps_text, is_calm, is_closed, is_cut, is_name_char,
    is_ordinary, is_statement, law_a_block_holds_statements,
    law_a_statement_is_within_its_script, law_a_statement_starts_where_one_can_start,
    law_a_statement_starts_with_its_first_piece, law_a_value_ends_with_no_semicolon,
    law_an_object_holds_no_statements, law_parts_start, law_the_last_statement_is_found,
    lemma_after_line, lemma_comment_after, lemma_expression_assigned, lemma_line_in_comment,
    lemma_name_assigned, lemma_name_is_read, lemma_next_line, lemma_no_statement, lemma_same_place,
    next_of, open_brackets, parts_end, parts_text, pieces_text, without_returns, Entry, Gap, Next,
    Part, Piece,
};
#[allow(unused_imports)]
use crate::statements::{fed, scan, statement_end, statement_start, unread, Last};
#[allow(unused_imports)]
use crate::text::{
    begins_with, drop_leading, drop_trailing, holds_text, is_white_space, joined, lacks,
    law_dropping_at_the_back, law_splitting, law_trimming, lemma_drop_leading,
    lemma_drop_trailing, lemma_joined_add, lemma_lines_add, lemma_lines_lack_feeds,
    lemma_lines_skip, lemma_next_index, lemma_next_index_is, lemma_trimmed_add, lines_from,
    lines_of, next_index, occurs_at, split_by, trimmed, without_return, CharClass,
};
#[allow(unused_imports)]
use crate::wrap::{
    declared, is_block, is_code_line, is_compound, last_line, last_line_index, last_lines,
    last_statement, line_start, preamble, runs_as_is, script_lines, script_text, starts_with_word,
    with_result, wrapped,
};

verus! {

/// Leaving out carriage returns leaves them out of each part.
proof fn lemma_without_returns_add(a: Seq<char>, b: Seq<char>)
    ensures
        without_returns(a + b) == without_returns(a) + without_returns(b),
    decreases b.len(),
{
    if b.len() == 0 {
        assert(a + b == a);
    } else {
        assert((a + b).drop_last() == a + b.drop_last());
        lemma_without_returns_add(a, b.drop_last());
    }
}

/// The lines of a text hold what it holds, but for carriage returns.
proof fn lemma_line_text(s: Seq<char>)
    requires
        s.len() > 0,
    ensures
        lines_of(s).len() > 0,
        s.last() != '\n' ==> without_returns(joined(lines_of(s), "\n"@)) == without_returns(s),
        s.last() == '\n' ==> without_returns(joined(lines_of(s), "\n"@) + seq!['\n'])
            == without_returns(s),
    decreases s.len(),
{
    reveal_strlit("\n");
    let end = next_index(s, '\n', 0);
    lemma_next_index(s, '\n', 0);
    if end >= s.len() {
        assert(s.skip(0) == s);
    } else {
        let whole = s.subrange(0, end);
        let line = without_return(whole);
        let rest = s.skip(end + 1);
        lemma_lines_skip(s, 0, end + 1);
        assert(lines_of(s) == seq![line] + lines_of(rest));
        assert(s == whole + "\n"@ + rest);
        lemma_without_returns_add(whole + "\n"@, rest);
        lemma_without_returns_add(whole, "\n"@);
        lemma_without_returns_add(line, "\n"@);
        assert(without_returns(whole) == without_returns(line));
        if rest.len() == 0 {
            assert(lines_of(rest) == Seq::<Seq<char>>::empty());
            assert(lines_of(s) == seq![line]);
            assert(line + seq!['\n'] == line + "\n"@);
            assert(s == whole + "\n"@);
        } else {
            lemma_line_text(rest);
            let tail = joined(lines_of(rest), "\n"@);
            lemma_joined_add(seq![line], lines_of(rest), "\n"@);
            assert(joined(seq![line], "\n"@) == line);
            lemma_without_returns_add(line + "\n"@, tail);
            lemma_without_returns_add(line + "\n"@, tail + seq!['\n']);
            assert(line + "\n"@ + tail + seq!['\n'] == line + "\n"@ + (tail + seq!['\n']));
        }
    }
}

/// Joined parts start with the first part.
proof fn lemma_joined_first(parts: Seq<Seq<char>>, separator: Seq<char>)
    requires
        parts.len() > 0,
    ensures
        joined(parts, separator).len() >= parts[0].len(),
        joined(parts, separator).take(parts[0].len() as int) == parts[0],
    decreases parts.len(),
{
    if parts.len() > 1 {
        lemma_joined_first(parts.drop_last(), separator);
        let shorter = joined(parts.drop_last(), separator);
        let longer = joined(parts, separator);
        assert(longer.take(parts[0].len() as int) == shorter.take(parts[0].len() as int));
    }
}

/// The lines of a text start as the text does, as far as its first line goes.
proof fn lemma_line_text_first(s: Seq<char>, count: int)
    requires
        0 < count <= s.len(),
        forall|i: int| 0 <= i < count ==> #[trigger] s[i] != '\n',
        s[count - 1] != '\r',
    ensures
        lines_of(s).len() > 0,
        lines_of(s)[0].len() >= count,
        lines_of(s)[0].take(count) == s.take(count),
        joined(lines_of(s), "\n"@).len() >= count,
        joined(lines_of(s), "\n"@).take(count) == s.take(count),
{
    let end = next_index(s, '\n', 0);
    lemma_next_index(s, '\n', 0);
    let line = lines_of(s)[0];
    if end < s.len() {
        assert(s[end] == '\n');
        assert(line == without_return(s.subrange(0, end)));
    } else {
        assert(s.skip(0) == s);
        assert(line == s);
    }
    assert(line.len() >= count);
    assert(line.take(count) == s.take(count));
    lemma_joined_first(lines_of(s), "\n"@);
    let text = joined(lines_of(s), "\n"@);
    assert(text.take(line.len() as int).take(count) == text.take(count));
}

/// A trimmed text starts with no white space.
proof fn lemma_trimmed_first(s: Seq<char>)
    requires
        trimmed(s).len() > 0,
    ensures
        !is_white_space(trimmed(s)[0]),
{
    let k = lemma_drop_leading(s, CharClass::WhiteSpace);
    let j = lemma_drop_trailing(s.skip(k), CharClass::WhiteSpace);
    assert(s.skip(k).take(j)[0] == s[k]);
}

/// The text of a script starts with no white space.
proof fn lemma_script_first(code: Seq<char>)
    requires
        script_text(code).len() > 0,
    ensures
        !is_white_space(script_text(code)[0]),
{
    let script = trimmed(code);
    if script.len() > 0 {
        lemma_trimmed_first(code);
        lemma_line_text_first(script, 1);
        assert(script_text(code).take(1)[0] == script.take(1)[0]);
    }
}

/// A text with a line feed behind it, where there is one.
pub open spec fn lead(before: Seq<char>) -> Seq<char> {
    if before.len() == 0 {
        Seq::empty()
    } else {
        before + seq!['\n']
    }
}

/// The text of a script that ends with an assignment to the result variable.
proof fn lemma_result_text(before: Seq<char>, value: Seq<char>) -> (parts: (Seq<char>, Seq<char>))
    requires
        before.len() > 0 ==> !is_white_space(before[0]),
        value.len() > 0,
        value.last() == ';',
    ensures
        script_text(before + "\n__result__ = "@ + value) == parts.0 + "__result__ = "@ + parts.1,
        without_returns(parts.0) == without_returns(lead(before)),
        without_returns(parts.1) == without_returns(value),
        parts.0.len() == 0 <==> before.len() == 0,
        parts.0.len() > 0 ==> parts.0.last() == '\n',
{
    reveal_strlit("\n__result__ = ");
    reveal_strlit("__result__ = ");
    reveal_strlit("\n");
    let head = "__result__ = "@;
    let tail = head + value;
    let code = before + "\n__result__ = "@ + value;
    let opening = before + seq!['\n'];
    assert(code == opening + tail);
    assert(tail.last() == ';');
    assert(tail.first() == '_');
    lemma_trimmed_add(opening, tail);
    let text = joined(lines_of(tail), "\n"@);
    lemma_line_text(tail);
    lemma_line_text_first(tail, 13);
    assert(tail.take(13) == head);
    let rest = text.skip(13);
    assert(text == head + rest);
    lemma_without_returns_add(head, rest);
    lemma_without_returns_add(head, value);
    assert(without_returns(rest) == without_returns(value)) by {
        let n = without_returns(head).len();
        assert(without_returns(text).skip(n as int) == without_returns(rest));
        assert(without_returns(tail).skip(n as int) == without_returns(value));
    }
    if before.len() == 0 {
        assert(opening.drop_first() == Seq::<char>::empty());
        assert(drop_leading(opening, CharClass::WhiteSpace) == drop_leading(
            Seq::<char>::empty(),
            CharClass::WhiteSpace,
        ));
        assert(trimmed(code) == tail);
        (Seq::empty(), rest)
    } else {
        assert(opening.first() == before[0]);
        assert(trimmed(code) == opening + tail);
        lemma_lines_add(before, tail);
        lemma_line_text(opening);
        let first = joined(lines_of(opening), "\n"@) + seq!['\n'];
        lemma_joined_add(lines_of(opening), lines_of(tail), "\n"@);
        assert(script_text(code) == first + text);
        (first, rest)
    }
}

/// White space, and then a semicolon, an equals sign or the end, is where a statement is cut.
proof fn lemma_cut(rest: Seq<char>, count: int, blanks: int)
    requires
        0 <= blanks <= rest.len(),
        forall|i: int| 0 <= i < blanks ==> is_white_space(#[trigger] rest[i]),
        blanks < rest.len() ==> blanks >= count || rest[blanks] == ';' || rest[blanks] == '=',
    ensures
        is_cut(rest, count),
    decreases blanks,
{
    if blanks > 0 {
        assert(is_white_space(rest[0]));
        let more = rest.drop_first();
        assert forall|i: int| 0 <= i < blanks - 1 implies is_white_space(#[trigger] more[i]) by {
            assert(more[i] == rest[i + 1]);
        }
        lemma_cut(more, count - 1, blanks - 1);
    }
}

/// A text between two places, and the white space round it.
proof fn lemma_trimmed_parts(text: Seq<char>, start: int, end: int) -> (k: int)
    requires
        0 <= start <= end <= text.len(),
    ensures
        0 <= k,
        start + k + trimmed(text.subrange(start, end)).len() <= end,
        trimmed(text.subrange(start, end)) == text.subrange(
            start + k,
            start + k + trimmed(text.subrange(start, end)).len(),
        ),
        forall|i: int| start <= i < start + k ==> is_white_space(#[trigger] text[i]),
        forall|i: int|
            start + k + trimmed(text.subrange(start, end)).len() <= i < end ==> is_white_space(
                #[trigger] text[i],
            ),
{
    let whole = text.subrange(start, end);
    let k = lemma_drop_leading(whole, CharClass::WhiteSpace);
    let open = whole.skip(k);
    let j = lemma_drop_trailing(open, CharClass::WhiteSpace);
    assert(trimmed(whole) == open.take(j));
    assert(open.take(j) == text.subrange(start + k, start + k + j));
    assert forall|i: int| start <= i < start + k implies is_white_space(#[trigger] text[i]) by {
        assert(text[i] == whole[i - start]);
    }
    assert forall|i: int| start + k + j <= i < end implies is_white_space(#[trigger] text[i]) by {
        assert(text[i] == open[i - start - k]);
    }
    k
}

/// An assignment of the last statement of a script, after a place where a statement can start, is
/// the last statement.
proof fn lemma_expression_result(text: Seq<char>, before: Seq<char>, value: Seq<char>)
    requires
        statement_start(text) matches Some(start) && without_returns(value) == without_returns(
            drop_trailing(
                trimmed(text.subrange(start, statement_end(text))),
                CharClass::Only(';'),
            ) + seq![';'],
        ),
        fed(unread(), before).boundary(),
        fed(unread(), before).next_start() == before.len(),
    ensures
        statement_start(before + "__result__ = "@ + value) == Some(before.len() as int),
        statement_end(before + "__result__ = "@ + value) >= before.len() + 10,
{
    let start = statement_start(text)->0;
    let end = statement_end(text);
    law_a_statement_is_within_its_script(text);
    let last = trimmed(text.subrange(start, end));
    let k = lemma_trimmed_parts(text, start, end);
    let i = lemma_drop_trailing(last, CharClass::Only(';'));
    let expression = last.take(i);
    let to = start + k + i;
    let rest = text.skip(to);
    let blanks = text.subrange(start, start + k);
    assert(text == text.take(start) + blanks + expression + rest);
    if i < last.len() {
        assert(last[i] == ';');
        assert(rest[0] == last[i]);
        lemma_cut(rest, end - to, 0);
    } else {
        assert forall|n: int| 0 <= n < end - to implies is_white_space(#[trigger] rest[n]) by {
            assert(rest[n] == text[to + n]);
        }
        lemma_cut(rest, end - to, end - to);
    }
    assert forall|n: int| 0 <= n < blanks.len() implies is_white_space(#[trigger] blanks[n]) by {
        assert(blanks[n] == text[start + n]);
    }
    lemma_expression_assigned(text, blanks, expression, rest, before, value);
}

/// What stands before the first `=` of what follows a keyword, in the last statement of a script.
#[verifier::spinoff_prover]
#[verifier::rlimit(40)]
proof fn lemma_name_result(
    text: Seq<char>,
    keyword: Seq<char>,
    before: Seq<char>,
    value: Seq<char>,
)
    requires
        keyword == "const"@ || keyword == "let"@ || keyword == "var"@,
        statement_start(text) matches Some(start) && {
            let last = trimmed(text.subrange(start, statement_end(text)));
            &&& begins_with(last, keyword + seq![' '])
            &&& without_returns(value) == without_returns(
                trimmed(split_by(last.skip(keyword.len() as int + 1), '=')[0]) + seq![';'],
            )
        },
        fed(unread(), before).boundary(),
        fed(unread(), before).next_start() == before.len(),
    ensures
        statement_start(before + "__result__ = "@ + value) == Some(before.len() as int),
        statement_end(before + "__result__ = "@ + value) >= before.len() + 10,
{
    let start = statement_start(text)->0;
    let end = statement_end(text);
    law_a_statement_is_within_its_script(text);
    let last = trimmed(text.subrange(start, end));
    let k = lemma_trimmed_parts(text, start, end);
    let head = keyword + seq![' '];
    let from = start + k + head.len();
    let all = last.skip(keyword.len() as int + 1);
    let e = next_index(all, '=', 0);
    lemma_next_index(all, '=', 0);
    let piece = split_by(all, '=')[0];
    assert(piece == text.subrange(from, from + e)) by {
        if e >= all.len() {
            assert(piece == all.skip(0));
        } else {
            assert(piece == all.subrange(0, e));
        }
    }
    let j = lemma_trimmed_parts(text, from, from + e);
    let name = trimmed(piece);
    let to = from + j + name.len();
    let rest = text.skip(to);
    let blanks = text.subrange(start, start + k);
    let gap = text.subrange(from, from + j);
    assert(last.take(head.len() as int) == head);
    assert(last.take(head.len() as int) == text.subrange(start + k, from));
    assert(text == text.take(start) + blanks + head + gap + name + rest);
    assert(text.take(start) + blanks + head == text.take(start) + blanks + keyword + seq![' ']);
    assert forall|n: int| 0 <= n < blanks.len() implies is_white_space(#[trigger] blanks[n]) by {
        assert(blanks[n] == text[start + n]);
    }
    assert forall|n: int| 0 <= n < gap.len() implies is_white_space(#[trigger] gap[n]) by {
        assert(gap[n] == text[from + n]);
    }
    let stop = if e >= all.len() {
        end
    } else {
        from + e
    };
    assert forall|n: int| 0 <= n < stop - to implies is_white_space(#[trigger] rest[n]) by {
        assert(rest[n] == text[to + n]);
    }
    if e < all.len() {
        assert(rest[stop - to] == all[e]);
    }
    lemma_cut(rest, end - to, stop - to);
    lemma_name_assigned(text, blanks, keyword, gap, name, rest, before, value);
}

/// What a wrapped script sets as the result: what the last statement declares, or its value.
pub open spec fn result_of(code: Seq<char>) -> Seq<char> {
    match declared(last_statement(code)) {
        Some(name) => name,
        None => drop_trailing(last_statement(code), CharClass::Only(';')),
    }
}

/// The assignment of a value to the result variable.
pub open spec fn assignment(value: Seq<char>) -> Seq<char> {
    "__result__ = "@ + value + ";"@
}

/// What a wrapped script holds before the assignment of the result.
pub open spec fn kept(code: Seq<char>) -> Seq<char> {
    match declared(last_statement(code)) {
        Some(_) => if preamble(code).len() == 0 {
            last_statement(code)
        } else {
            preamble(code) + "\n"@ + last_statement(code)
        },
        None => preamble(code),
    }
}

/// Whether a statement can start on the line after a text: it leaves no bracket, string, template
/// or comment open, and no operator waits for its operand.
pub open spec fn can_go_on_after(text: Seq<char>) -> bool {
    fed(unread(), text + seq!['\n']).boundary()
}

/// White space before a script does not count.
proof fn lemma_leading_feed(code: Seq<char>)
    ensures
        script_text("\n"@ + code) == script_text(code),
{
    reveal_strlit("\n");
    assert(("\n"@ + code).drop_first() == code);
    assert(("\n"@ + code).first() == '\n');
}

/// The text of a wrapped script.
proof fn lemma_wrapped_text(code: Seq<char>) -> (parts: (Seq<char>, Seq<char>))
    requires
        !runs_as_is(code),
        kept(code).len() > 0 ==> !is_white_space(kept(code)[0]),
    ensures
        script_text(wrapped(code)) == parts.0 + "__result__ = "@ + parts.1,
        without_returns(parts.0) == without_returns(lead(kept(code))),
        without_returns(parts.1) == without_returns(result_of(code) + seq![';']),
        parts.0.len() == 0 <==> kept(code).len() == 0,
        parts.0.len() > 0 ==> parts.0.last() == '\n',
{
    reveal_strlit(";");
    let value = result_of(code) + seq![';'];
    let parts = lemma_result_text(kept(code), value);
    let script = kept(code) + "\n__result__ = "@ + value;
    let before = preamble(code);
    let last = last_statement(code);
    match declared(last) {
        Some(name) => {
            if before.len() == 0 {
                lemma_leading_feed(script);
                assert(wrapped(code) == "\n"@ + script);
            } else {
                assert(wrapped(code) == script);
            }
        },
        None => {
            assert(wrapped(code) == script);
        },
    }
    parts
}

/// What a wrapped script keeps starts with no white space.
proof fn lemma_kept_first(code: Seq<char>)
    requires
        statement_start(script_text(code)) is Some,
    ensures
        kept(code).len() > 0 ==> !is_white_space(kept(code)[0]),
{
    let text = script_text(code);
    let start = statement_start(text)->0;
    law_a_statement_is_within_its_script(text);
    lemma_script_first(code);
    let before = preamble(code);
    if before.len() > 0 {
        assert(before[0] == text[0]);
        assert(kept(code)[0] == before[0]);
    } else if declared(last_statement(code)) is Some {
        let whole = text.subrange(start, statement_end(text));
        if last_statement(code).len() > 0 {
            lemma_trimmed_first(whole);
        }
    }
}

/// What stands before the last statement ends where a statement can start.
proof fn lemma_preamble_ends(code: Seq<char>)
    requires
        statement_start(script_text(code)) is Some,
    ensures
        can_go_on_after(preamble(code)) || preamble(code).len() == 0,
{
    let text = script_text(code);
    let start = statement_start(text)->0;
    law_a_statement_is_within_its_script(text);
    law_a_statement_starts_where_one_can_start(text);
    let whole = text.take(start);
    let before = preamble(code);
    if before.len() > 0 {
        if whole.last() == '\n' {
            assert(before + seq!['\n'] == whole);
        } else {
            lemma_next_line(whole);
        }
    }
}

/// The last statement of a wrapped script is the assignment of the result.
proof fn lemma_result_is_last(code: Seq<char>) -> (parts: (Seq<char>, Seq<char>))
    requires
        statement_start(script_text(code)) is Some,
        !runs_as_is(code),
        declared(last_statement(code)) is Some ==> can_go_on_after(kept(code)),
    ensures
        ({
            let text = script_text(wrapped(code));
            &&& text == parts.0 + "__result__ = "@ + parts.1
            &&& without_returns(parts.1) == without_returns(result_of(code) + seq![';'])
            &&& parts.0.len() > 0 ==> parts.0.last() == '\n'
            &&& statement_start(text) == Some(parts.0.len() as int)
            &&& statement_end(text) >= parts.0.len() + 10
        }),
{
    let text = script_text(code);
    let last = last_statement(code);
    lemma_kept_first(code);
    lemma_preamble_ends(code);
    let parts = lemma_wrapped_text(code);
    if parts.0.len() > 0 {
        lemma_same_place(kept(code) + seq!['\n'], parts.0);
        assert(parts.0.drop_last() + seq!['\n'] == parts.0);
        lemma_after_line(parts.0.drop_last());
    } else {
        assert(fed(unread(), parts.0) == unread());
    }
    reveal_strlit("const");
    reveal_strlit("let");
    reveal_strlit("var");
    reveal_strlit("const ");
    reveal_strlit("let ");
    reveal_strlit("var ");
    assert("const "@ == "const"@ + seq![' ']);
    assert("let "@ == "let"@ + seq![' ']);
    assert("var "@ == "var"@ + seq![' ']);
    if begins_with(last, "const "@) {
        lemma_name_result(text, "const"@, parts.0, parts.1);
    } else if begins_with(last, "let "@) {
        lemma_name_result(text, "let"@, parts.0, parts.1);
    } else if begins_with(last, "var "@) {
        lemma_name_result(text, "var"@, parts.0, parts.1);
    } else {
        lemma_expression_result(text, parts.0, parts.1);
    }
    parts
}

/// The last statement of a wrapped script sets the result variable: to the value of the last
/// statement of the script, or to what that declares, where it is a declaration that its own text
/// brings to an end. Carriage returns do not count.
pub proof fn law_wrapping_sets_the_result(code: Seq<char>)
    requires
        statement_start(script_text(code)) is Some,
        !runs_as_is(code),
        declared(last_statement(code)) is Some ==> can_go_on_after(kept(code)),
    ensures
        statement_start(script_text(wrapped(code))) matches Some(start) && without_returns(
            script_text(wrapped(code)).skip(start),
        ) == without_returns(assignment(result_of(code))),
{
    reveal_strlit(";");
    let parts = lemma_result_is_last(code);
    let text = script_text(wrapped(code));
    let start = parts.0.len() as int;
    assert(text.skip(start) == "__result__ = "@ + parts.1);
    lemma_without_returns_add("__result__ = "@, parts.1);
    lemma_without_returns_add("__result__ = "@, result_of(code) + seq![';']);
    assert(assignment(result_of(code)) == "__result__ = "@ + (result_of(code) + seq![';']));
}

/// The line that a place is on starts at the line feed before it.
proof fn lemma_line_start(text: Seq<char>, from: int, at: int)
    requires
        0 <= from <= at <= text.len(),
        from > 0 ==> text[from - 1] == '\n',
        forall|i: int| from <= i < at ==> #[trigger] text[i] != '\n',
    ensures
        line_start(text, at) == from,
    decreases at,
{
    if at > from {
        assert(text[at - 1] != '\n');
        lemma_line_start(text, from, at - 1);
    }
}

/// The line that a place is on starts before it.
proof fn lemma_line_start_before(text: Seq<char>, at: int)
    requires
        0 <= at,
    ensures
        0 <= line_start(text, at) <= at,
    decreases at,
{
    if at > 0 {
        lemma_line_start_before(text, at - 1);
    }
}

/// The lines of the last statement hold the name of the result variable, where it starts a line
/// among them.
proof fn lemma_mentions(before: Seq<char>, value: Seq<char>)
    requires
        before.len() > 0 ==> before.last() == '\n',
        statement_start(before + "__result__ = "@ + value) matches Some(start) && (start
            <= before.len() || lacks(value, '\n')),
        statement_end(before + "__result__ = "@ + value) >= before.len() + 10,
    ensures
        ({
            let text = before + "__result__ = "@ + value;
            holds_text(
                text.subrange(
                    line_start(text, statement_start(text)->0),
                    statement_end(text),
                ),
                "__result__"@,
            )
        }),
{
    reveal_strlit("__result__ = ");
    reveal_strlit("__result__");
    let text = before + "__result__ = "@ + value;
    let start = statement_start(text)->0;
    let at = before.len() as int;
    law_a_statement_is_within_its_script(text);
    lemma_line_start_before(text, start);
    if start > at {
        assert forall|i: int| at <= i < start implies #[trigger] text[i] != '\n' by {
            if i >= at + 13 {
                assert(text[i] == value[i - at - 13]);
            }
        }
        lemma_line_start(text, at, start);
    }
    let from = line_start(text, start);
    let shown = text.subrange(from, statement_end(text));
    assert(shown.subrange(at - from, at - from + 10) == "__result__"@);
    assert(occurs_at(shown, "__result__"@, at - from));
}

/// What follows the last line feed of joined lines is the last line.
proof fn lemma_last_of_joined(lines: Seq<Seq<char>>, before: Seq<char>, last: Seq<char>)
    requires
        lines.len() > 0,
        forall|i: int| 0 <= i < lines.len() ==> lacks(#[trigger] lines[i], '\n'),
        joined(lines, "\n"@) == before + last,
        before.len() > 0 ==> before.last() == '\n',
        lacks(last, '\n'),
    ensures
        lines.last() == last,
{
    reveal_strlit("\n");
    let text = joined(lines, "\n"@);
    let end = lines[lines.len() - 1];
    assert(lacks(end, '\n'));
    if lines.len() == 1 {
        if before.len() > 0 {
            assert(text[before.len() - 1] == '\n');
        }
        assert(before.len() == 0);
        assert(before + last == last);
    } else {
        let init = joined(lines.drop_last(), "\n"@);
        let n = init.len() as int;
        assert(text == init + "\n"@ + end);
        assert(text[n] == '\n');
        if n >= before.len() {
            assert(text[n] == last[n - before.len()]);
        }
        assert(before.len() > 0);
        if n + 1 < before.len() {
            assert(text[before.len() - 1] == '\n');
            assert(text[before.len() - 1] == end[before.len() - 1 - n - 1]);
        }
        assert(before.len() == n + 1);
        assert(text.skip(n + 1) == end);
        assert(text.skip(n + 1) == last);
    }
}

/// A text holds line feeds with or without its carriage returns.
proof fn lemma_returns_and_feeds(s: Seq<char>)
    ensures
        lacks(without_returns(s), '\n') == lacks(s, '\n'),
    decreases s.len(),
{
    if s.len() > 0 {
        let init = s.drop_last();
        lemma_returns_and_feeds(init);
        if lacks(s, '\n') {
            assert(lacks(init, '\n'));
            if s.last() != '\r' {
                let kept = without_returns(init);
                assert forall|i: int| 0 <= i < kept.push(s.last()).len() implies kept.push(
                    s.last(),
                )[i] != '\n' by {
                    if i < kept.len() {
                        assert(kept.push(s.last())[i] == kept[i]);
                    }
                }
            }
        } else if lacks(without_returns(s), '\n') {
            if s.last() != '\r' {
                let kept = without_returns(init);
                assert(without_returns(s)[kept.len() as int] == s.last());
                assert forall|i: int| 0 <= i < kept.len() implies kept[i] != '\n' by {
                    assert(kept[i] == without_returns(s)[i]);
                }
            }
            assert forall|i: int| 0 <= i < s.len() implies s[i] != '\n' by {
                if i < init.len() {
                    assert(s[i] == init[i]);
                }
            }
            assert(false);
        }
    }
}

/// A script whose last line sets the result variable is run as it stands, where that is the last
/// statement or none is found.
proof fn lemma_stands(code: Seq<char>, before: Seq<char>, value: Seq<char>)
    requires
        script_text(code) == before + "__result__ = "@ + value,
        before.len() > 0 ==> before.last() == '\n',
        lacks(value, '\n'),
        fed(unread(), before).mode !is Comment || fed(unread(), before).last == Last::Start,
    ensures
        runs_as_is(code),
{
    let text = script_text(code);
    if statement_start(text) is Some {
        lemma_name_is_read(before, value);
        lemma_mentions(before, value);
    } else {
        reveal_strlit("__result__ = ");
        reveal_strlit("__result__");
        reveal_strlit("//");
        let lines = script_lines(code);
        let last = "__result__ = "@ + value;
        assert(lines.len() > 0);
        lemma_lines_lack_feeds(trimmed(code), 0);
        assert(before + last == text);
        assert forall|i: int| 0 <= i < last.len() implies last[i] != '\n' by {
            if i >= 13 {
                assert(last[i] == value[i - 13]);
            }
        }
        lemma_last_of_joined(lines, before, last);
        let j = lemma_drop_trailing(last, CharClass::WhiteSpace);
        assert(last[0] == '_');
        assert(last[11] == '=');
        assert(trimmed(last) == last.take(j));
        assert(trimmed(last).subrange(0, 10) == "__result__"@);
        assert(trimmed(last)[0] == '_');
        assert(occurs_at(trimmed(last), "__result__"@, 0));
        if begins_with(trimmed(last), "//"@) {
            assert(trimmed(last).subrange(0, 2)[0] == trimmed(last)[0]);
        }
        assert(is_code_line(last));
        assert(last_line(lines) == last);
    }
}

/// The position of the last line that holds code is that of a line.
proof fn lemma_last_line_index(lines: Seq<Seq<char>>)
    ensures
        0 <= last_line_index(lines),
        lines.len() > 0 ==> last_line_index(lines) < lines.len(),
    decreases lines.len(),
{
    if lines.len() > 0 && !is_code_line(lines.last()) {
        lemma_last_line_index(lines.drop_last());
    }
}

/// Joined lines are those before one of them, that line, and what follows it.
proof fn lemma_joined_at(lines: Seq<Seq<char>>, at: int) -> (rest: Seq<char>)
    requires
        0 <= at < lines.len(),
    ensures
        joined(lines, "\n"@) == (if at == 0 {
            Seq::empty()
        } else {
            joined(lines.take(at), "\n"@) + seq!['\n']
        }) + lines[at] + rest,
{
    reveal_strlit("\n");
    let line = lines[at];
    let from = lines.skip(at);
    let after = lines.skip(at + 1);
    let rest = if after.len() == 0 {
        Seq::empty()
    } else {
        "\n"@ + joined(after, "\n"@)
    };
    assert(from == seq![line] + after);
    assert(joined(from, "\n"@) == line + rest) by {
        if after.len() > 0 {
            lemma_joined_add(seq![line], after, "\n"@);
            assert(joined(seq![line], "\n"@) == line);
        } else {
            assert(from == seq![line]);
        }
    }
    if at > 0 {
        lemma_joined_add(lines.take(at), from, "\n"@);
        assert(lines == lines.take(at) + from);
    } else {
        assert(from == lines);
    }
    rest
}

/// What a statement on one line sets as the result is on one line.
proof fn lemma_result_on_one_line(code: Seq<char>)
    requires
        lacks(last_statement(code), '\n'),
    ensures
        lacks(result_of(code), '\n'),
{
    let last = last_statement(code);
    reveal_strlit("const ");
    reveal_strlit("let ");
    reveal_strlit("var ");
    let i = lemma_drop_trailing(last, CharClass::Only(';'));
    if declared(last) is Some {
        let n: int = if begins_with(last, "const "@) {
            6
        } else {
            4
        };
        let all = last.skip(n);
        let e = next_index(all, '=', 0);
        lemma_next_index(all, '=', 0);
        let piece = split_by(all, '=')[0];
        assert(piece == all.subrange(0, e)) by {
            if e >= all.len() {
                assert(piece == all.skip(0));
            }
        }
        let k = lemma_drop_leading(piece, CharClass::WhiteSpace);
        let j = lemma_drop_trailing(piece.skip(k), CharClass::WhiteSpace);
        let name = trimmed(piece);
        assert(result_of(code) == name);
        assert forall|m: int| 0 <= m < name.len() implies name[m] != '\n' by {
            assert(name[m] == last[n + k + m]);
        }
    }
}

/// A wrapped script that had no statement is run as it stands.
#[verifier::spinoff_prover]
#[verifier::rlimit(60)]
proof fn lemma_unstated_stands(code: Seq<char>)
    requires
        statement_start(script_text(code)) is None,
        !runs_as_is(code),
    ensures
        runs_as_is(wrapped(code)),
{
    reveal_strlit("const ");
    reveal_strlit("let ");
    reveal_strlit("var ");
    reveal_strlit("\n");
    let text = script_text(code);
    let lines = script_lines(code);
    let at = last_line_index(lines);
    let line = last_line(lines);
    let last = trimmed(line);
    lemma_last_line_index(lines);
    let k = lemma_trimmed_parts(line, 0, line.len() as int);
    assert(line.subrange(0, line.len() as int) == line);
    if lines.len() > 0 {
        lemma_lines_lack_feeds(trimmed(code), 0);
        assert(lacks(lines[at], '\n'));
    }
    assert forall|i: int| 0 <= i < last.len() implies last[i] != '\n' by {
        assert(last[i] == line[k + i]);
    }
    lemma_result_on_one_line(code);
    let before = if at == 0 {
        Seq::empty()
    } else {
        joined(lines.take(at), "\n"@) + seq!['\n']
    };
    let blanks = line.take(k);
    let tail = line.skip(k + last.len());
    assert(line == blanks + last + tail);
    assert forall|i: int| 0 <= i < blanks.len() implies is_white_space(#[trigger] blanks[i])
        && blanks[i] != '\n' by {
        assert(blanks[i] == line[i]);
    }
    let rest = if lines.len() > 0 {
        lemma_joined_at(lines, at)
    } else {
        Seq::empty()
    };
    assert(text == before + blanks + last + (tail + rest));
    lemma_no_statement(before, blanks, last, tail + rest);
    if at == 0 {
        assert(lines.take(0) == Seq::<Seq<char>>::empty());
        if last.len() > 0 {
            lemma_trimmed_first(line);
        }
    } else {
        lemma_trimmed_first(code);
        lemma_line_text_first(trimmed(code), 1);
        lemma_joined_first(lines.take(at), "\n"@);
        assert(lines[0].take(1)[0] == trimmed(code).take(1)[0]);
        assert(preamble(code).take(lines[0].len() as int)[0] == lines[0][0]);
    }
    assert(declared(last) is Some ==> last.len() > 0);
    let parts = lemma_wrapped_text(code);
    lemma_same_place(lead(kept(code)), parts.0);
    if declared(last) is Some {
        assert(kept(code) == before + last);
        lemma_line_in_comment(kept(code));
    } else {
        assert(lead(kept(code)) == before);
    }
    let value = result_of(code) + seq![';'];
    assert(lacks(value, '\n'));
    lemma_returns_and_feeds(parts.1);
    lemma_returns_and_feeds(value);
    lemma_stands(wrapped(code), parts.0, parts.1);
}

/// Whether a comment is open on the line after a text.
pub open spec fn leaves_comment_open(text: Seq<char>) -> bool {
    fed(unread(), text + seq!['\n']).mode is Comment
}

/// Wrapping a wrapped script changes nothing. Not so, at times, where the last statement is a
/// declaration that its own text does not bring to an end: that one declares its names on one line
/// and leaves no comment open.
pub proof fn law_wrapping_twice_is_wrapping_once(code: Seq<char>)
    requires
        statement_start(script_text(code)) is Some && declared(last_statement(code)) is Some
            ==> can_go_on_after(kept(code)) || (lacks(result_of(code), '\n')
            && !leaves_comment_open(kept(code))),
    ensures
        wrapped(wrapped(code)) == wrapped(code),
{
    if runs_as_is(code) {
    } else if statement_start(script_text(code)) is None {
        lemma_unstated_stands(code);
    } else if declared(last_statement(code)) is Some && !can_go_on_after(kept(code)) {
        reveal_strlit("const ");
        reveal_strlit("let ");
        reveal_strlit("var ");
        lemma_kept_first(code);
        let parts = lemma_wrapped_text(code);
        lemma_same_place(lead(kept(code)), parts.0);
        let value = result_of(code) + seq![';'];
        assert(lacks(value, '\n'));
        lemma_returns_and_feeds(parts.1);
        lemma_returns_and_feeds(value);
        lemma_stands(wrapped(code), parts.0, parts.1);
    } else {
        let parts = lemma_result_is_last(code);
        lemma_mentions(parts.0, parts.1);
    }
}

/// Leading white space is dropped with what is in front of it.
proof fn lemma_drop_leading_add(blanks: Seq<char>, s: Seq<char>)
    requires
        forall|i: int| 0 <= i < blanks.len() ==> is_white_space(#[trigger] blanks[i]),
    ensures
        drop_leading(blanks + s, CharClass::WhiteSpace) == drop_leading(s, CharClass::WhiteSpace),
    decreases blanks.len(),
{
    if blanks.len() == 0 {
        assert(blanks + s == s);
    } else {
        let more = blanks.drop_first();
        assert(is_white_space(blanks[0]));
        assert((blanks + s).drop_first() == more + s);
        assert forall|i: int| 0 <= i < more.len() implies is_white_space(#[trigger] more[i]) by {
            assert(more[i] == blanks[i + 1]);
        }
        lemma_drop_leading_add(more, s);
    }
}

/// Trailing white space is dropped with what is behind it.
proof fn lemma_drop_trailing_add(s: Seq<char>, blanks: Seq<char>)
    requires
        forall|i: int| 0 <= i < blanks.len() ==> is_white_space(#[trigger] blanks[i]),
    ensures
        drop_trailing(s + blanks, CharClass::WhiteSpace) == drop_trailing(s, CharClass::WhiteSpace),
    decreases blanks.len(),
{
    if blanks.len() == 0 {
        assert(s + blanks == s);
    } else {
        let fewer = blanks.drop_last();
        assert(is_white_space(blanks[blanks.len() - 1]));
        assert((s + blanks).drop_last() == s + fewer);
        assert forall|i: int| 0 <= i < fewer.len() implies is_white_space(#[trigger] fewer[i]) by {
            assert(fewer[i] == blanks[i]);
        }
        lemma_drop_trailing_add(s, fewer);
    }
}

/// White space behind a text is trimmed with it.
proof fn lemma_trimmed_before(s: Seq<char>, blanks: Seq<char>)
    requires
        forall|i: int| 0 <= i < blanks.len() ==> is_white_space(#[trigger] blanks[i]),
    ensures
        trimmed(s + blanks) == trimmed(s),
{
    let k = lemma_drop_leading(s, CharClass::WhiteSpace);
    let open = s.skip(k);
    if k < s.len() {
        assert(s + blanks == s.take(k) + (open + blanks));
        lemma_drop_leading_add(s.take(k), open + blanks);
        assert((open + blanks).first() == s[k]);
        lemma_drop_trailing_add(open, blanks);
    } else {
        let none = Seq::<char>::empty();
        assert(open == none);
        assert(s + blanks + none == s + blanks);
        assert forall|i: int| 0 <= i < (s + blanks).len() implies is_white_space(
            #[trigger] (s + blanks)[i],
        ) by {
            if i >= s.len() {
                assert((s + blanks)[i] == blanks[i - s.len()]);
            }
        }
        lemma_drop_leading_add(s + blanks, none);
    }
}

/// White space round a script does not count: a script that is wrapped is wrapped alike with it.
pub proof fn law_padding_does_not_count(before: Seq<char>, code: Seq<char>, after: Seq<char>)
    requires
        forall|i: int| 0 <= i < before.len() ==> is_white_space(#[trigger] before[i]),
        forall|i: int| 0 <= i < after.len() ==> is_white_space(#[trigger] after[i]),
    ensures
        runs_as_is(before + code + after) == runs_as_is(code),
        !runs_as_is(code) ==> wrapped(before + code + after) == wrapped(code),
{
    assert(before + code + after == before + (code + after));
    lemma_drop_leading_add(before, code + after);
    lemma_trimmed_before(code, after);
    assert(trimmed(before + code + after) == trimmed(code));
}

/// What stands before the last statement of a script stands at the start of the wrapped script; so
/// does a last statement that is a declaration, on the next line.
pub proof fn law_wrapping_keeps_what_stands_before(code: Seq<char>)
    requires
        !runs_as_is(code),
    ensures
        begins_with(wrapped(code), preamble(code)),
        declared(last_statement(code)) is Some ==> begins_with(
            wrapped(code),
            preamble(code) + "\n"@ + last_statement(code),
        ),
{
    let script = wrapped(code);
    let before = preamble(code);
    let both = before + "\n"@ + last_statement(code);
    assert(script.subrange(0, before.len() as int) == before);
    if declared(last_statement(code)) is Some {
        assert(script.subrange(0, both.len() as int) == both);
    }
}

/// Where the last line of a text starts.
proof fn lemma_last_line_start(s: Seq<char>) -> (n: int)
    ensures
        0 <= n <= s.len(),
        n > 0 ==> s[n - 1] == '\n',
        forall|i: int| n <= i < s.len() ==> #[trigger] s[i] != '\n',
    decreases s.len(),
{
    if s.len() == 0 || s.last() == '\n' {
        s.len() as int
    } else {
        let n = lemma_last_line_start(s.drop_last());
        assert forall|i: int| n <= i < s.len() implies #[trigger] s[i] != '\n' by {
            if i < s.len() - 1 {
                assert(s.drop_last()[i] != '\n');
            }
        }
        n
    }
}

/// The lines of a text without a line feed in it: one, with or without a line feed behind it.
proof fn lemma_one_line(s: Seq<char>)
    requires
        forall|i: int| 0 <= i < s.len() ==> #[trigger] s[i] != '\n',
    ensures
        s.len() > 0 ==> lines_of(s) == seq![s],
        lines_of(s + seq!['\n']) == seq![without_return(s)],
{
    lemma_next_index_is(s, '\n', 0, s.len() as int);
    assert(s.skip(0) == s);
    let line = s + seq!['\n'];
    lemma_next_index_is(line, '\n', 0, s.len() as int);
    assert(line.subrange(0, s.len() as int) == s);
    assert(lines_of(line) == seq![without_return(s)] + lines_from(
        line,
        s.len() as int + 1,
    ));
}

/// The lines of a text with white space behind it: its own, with blanks behind the last of them,
/// and white lines.
proof fn lemma_lines_before_white(s: Seq<char>, white: Seq<char>) -> (parts: (
    Seq<Seq<char>>,
    Seq<char>,
    Seq<char>,
    Seq<Seq<char>>,
))
    requires
        s.len() > 0,
        !is_white_space(s.last()),
        forall|i: int| 0 <= i < white.len() ==> is_white_space(#[trigger] white[i]),
    ensures
        ({
            let (before, last, blanks, more) = parts;
            &&& lines_of(s) == before.push(last)
            &&& lines_of(s + white + seq!['\n']) == before.push(last + blanks) + more
            &&& last.len() > 0
            &&& last.last() == s.last()
            &&& forall|i: int|
                0 <= i < blanks.len() ==> is_white_space(#[trigger] blanks[i]) && blanks[i] != '\n'
            &&& forall|i: int, j: int|
                #![trigger more[i][j]]
                0 <= i < more.len() && 0 <= j < more[i].len() ==> is_white_space(more[i][j])
        }),
    decreases white.len(),
{
    let n = lemma_last_line_start(white);
    let end = white.skip(n);
    assert forall|i: int| 0 <= i < end.len() implies #[trigger] end[i] != '\n' && is_white_space(
        end[i],
    ) by {
        assert(end[i] == white[n + i]);
    }
    if n > 0 {
        let init = white.take(n - 1);
        assert forall|i: int| 0 <= i < init.len() implies is_white_space(#[trigger] init[i]) by {
            assert(init[i] == white[i]);
        }
        let (before, last, blanks, more) = lemma_lines_before_white(s, init);
        lemma_lines_add(s + init, end + seq!['\n']);
        lemma_one_line(end);
        assert(s + white + seq!['\n'] == s + init + seq!['\n'] + (end + seq!['\n']));
        let all = more.push(without_return(end));
        assert(before.push(last + blanks) + more + seq![without_return(end)] == before.push(
            last + blanks,
        ) + all);
        assert forall|i: int, j: int|
            #![trigger all[i][j]]
            0 <= i < all.len() && 0 <= j < all[i].len() implies is_white_space(all[i][j]) by {
            if i < more.len() {
                assert(all[i] == more[i]);
                assert(is_white_space(more[i][j]));
            } else {
                assert(all[i][j] == end[j]);
            }
        }
        (before, last, blanks, all)
    } else {
        assert(end == white);
        let m = lemma_last_line_start(s);
        let last = s.skip(m);
        assert forall|i: int| 0 <= i < last.len() implies #[trigger] last[i] != '\n' by {
            assert(last[i] == s[m + i]);
        }
        let line = last + white;
        assert forall|i: int| 0 <= i < line.len() implies #[trigger] line[i] != '\n' by {
            if i >= last.len() {
                assert(line[i] == white[i - last.len()]);
            }
        }
        lemma_one_line(last);
        lemma_one_line(line);
        let blanks = without_return(white);
        assert(without_return(line) == last + blanks);
        let more = Seq::<Seq<char>>::empty();
        let before = if m == 0 {
            Seq::<Seq<char>>::empty()
        } else {
            lines_of(s.take(m))
        };
        if m == 0 {
            assert(last == s);
        } else {
            let init = s.take(m - 1);
            assert(s.take(m) == init + seq!['\n']);
            lemma_lines_add(init, last);
            lemma_lines_add(init, line + seq!['\n']);
            assert(s == init + seq!['\n'] + last);
            assert(s + white + seq!['\n'] == init + seq!['\n'] + (line + seq!['\n']));
        }
        assert(lines_of(s) == before.push(last));
        assert(lines_of(s + white + seq!['\n']) == before.push(last + blanks) + more);
        (before, last, blanks, more)
    }
}

/// White lines joined are white.
proof fn lemma_joined_white(lines: Seq<Seq<char>>)
    requires
        forall|i: int, j: int|
            #![trigger lines[i][j]]
            0 <= i < lines.len() && 0 <= j < lines[i].len() ==> is_white_space(lines[i][j]),
    ensures
        forall|i: int|
            0 <= i < joined(lines, "\n"@).len() ==> is_white_space(
                #[trigger] joined(lines, "\n"@)[i],
            ),
    decreases lines.len(),
{
    reveal_strlit("\n");
    if lines.len() == 1 {
        assert forall|i: int| 0 <= i < joined(lines, "\n"@).len() implies is_white_space(
            #[trigger] joined(lines, "\n"@)[i],
        ) by {
            assert(joined(lines, "\n"@)[i] == lines[0][i]);
        }
    } else if lines.len() > 1 {
        let init = lines.drop_last();
        assert forall|i: int, j: int|
            #![trigger init[i][j]]
            0 <= i < init.len() && 0 <= j < init[i].len() implies is_white_space(init[i][j]) by {
            assert(is_white_space(lines[i][j]));
        }
        lemma_joined_white(init);
        let first = joined(init, "\n"@);
        let last = lines.len() - 1;
        assert forall|i: int| 0 <= i < joined(lines, "\n"@).len() implies is_white_space(
            #[trigger] joined(lines, "\n"@)[i],
        ) by {
            if i < first.len() {
                assert(joined(lines, "\n"@)[i] == first[i]);
            } else if i > first.len() {
                assert(joined(lines, "\n"@)[i] == lines[last][i - first.len() - 1]);
            }
        }
    }
}

/// Lines without code at the end do not count.
proof fn lemma_lines_without_code(lines: Seq<Seq<char>>, more: Seq<Seq<char>>)
    requires
        forall|i: int| 0 <= i < more.len() ==> !is_code_line(#[trigger] more[i]),
    ensures
        last_line_index(lines + more) == last_line_index(lines),
    decreases more.len(),
{
    if more.len() == 0 {
        assert(lines + more == lines);
    } else {
        let init = more.drop_last();
        assert(!is_code_line(more[more.len() - 1]));
        assert((lines + more).drop_last() == lines + init);
        assert forall|i: int| 0 <= i < init.len() implies !is_code_line(#[trigger] init[i]) by {
            assert(init[i] == more[i]);
        }
        lemma_lines_without_code(lines, init);
    }
}

/// White space behind a text does not tell whether it holds a text without white space.
proof fn lemma_holds_before_white(s: Seq<char>, white: Seq<char>)
    requires
        forall|i: int| 0 <= i < white.len() ==> is_white_space(#[trigger] white[i]),
    ensures
        holds_text(s + white, "__result__"@) == holds_text(s, "__result__"@),
{
    reveal_strlit("__result__");
    let all = s + white;
    let name = "__result__"@;
    if holds_text(s, name) {
        let at = choose|at: int| occurs_at(s, name, at);
        assert(all.subrange(at, at + name.len()) == s.subrange(at, at + name.len()));
        assert(occurs_at(all, name, at));
    }
    if holds_text(all, name) {
        let at = choose|at: int| occurs_at(all, name, at);
        if at + 10 > s.len() {
            let i: int = if at + 9 >= s.len() {
                at + 9
            } else {
                at
            };
            assert(all[i] == white[i - s.len()]);
            assert(all.subrange(at, at + 10)[i - at] == all[i]);
            assert(name[i - at] == '_');
            assert(false);
        }
        assert(all.subrange(at, at + name.len()) == s.subrange(at, at + name.len()));
        assert(occurs_at(s, name, at));
    }
}

/// Where a line starts depends on what stands before it.
proof fn lemma_line_start_same(a: Seq<char>, b: Seq<char>, at: int)
    requires
        0 <= at <= a.len(),
        at <= b.len(),
        a.take(at) == b.take(at),
    ensures
        line_start(a, at) == line_start(b, at),
    decreases at,
{
    if at > 0 {
        assert(a[at - 1] == a.take(at)[at - 1]);
        assert(b[at - 1] == b.take(at)[at - 1]);
        assert(a.take(at - 1) == a.take(at).take(at - 1));
        assert(b.take(at - 1) == b.take(at).take(at - 1));
        lemma_line_start_same(a, b, at - 1);
    }
}

/// A script with a comment behind it, trimmed: the script, white space, and the comment.
proof fn lemma_trimmed_with_comment(
    code: Seq<char>,
    gap: Seq<char>,
    comment: Seq<char>,
) -> (parts: (Seq<char>, Seq<char>))
    requires
        trimmed(code).len() > 0,
        forall|i: int| 0 <= i < gap.len() ==> is_white_space(#[trigger] gap[i]),
        lacks(comment, '\n'),
    ensures
        ({
            let (white, rest) = parts;
            &&& trimmed(code + gap + "//"@ + comment) == trimmed(code) + white + ("//"@ + rest)
            &&& forall|i: int| 0 <= i < white.len() ==> is_white_space(#[trigger] white[i])
            &&& !lacks(gap, '\n') ==> !lacks(white, '\n')
            &&& lacks(rest, '\n')
        }),
{
    reveal_strlit("//");
    let whole = code + gap + "//"@ + comment;
    let k = lemma_drop_leading(code, CharClass::WhiteSpace);
    let open = code.skip(k);
    let m = lemma_drop_trailing(open, CharClass::WhiteSpace);
    let script = open.take(m);
    let white = open.skip(m) + gap;
    let full = "//"@ + comment;
    let j = lemma_drop_trailing(full, CharClass::WhiteSpace);
    assert(full[0] == '/' && full[1] == '/');
    let rest = comment.take(j - 2);
    assert(full.take(j) == "//"@ + rest);
    let tail = full.skip(j);
    assert forall|i: int| 0 <= i < tail.len() implies is_white_space(#[trigger] tail[i]) by {
        assert(tail[i] == full[j + i]);
    }
    let shown = script + white + ("//"@ + rest);
    assert(whole == code.take(k) + (shown + tail));
    assert forall|i: int| 0 <= i < code.take(k).len() implies is_white_space(
        #[trigger] code.take(k)[i],
    ) by {
        assert(code.take(k)[i] == code[i]);
    }
    lemma_drop_leading_add(code.take(k), shown + tail);
    assert((shown + tail).first() == code[k]);
    lemma_drop_trailing_add(shown, tail);
    assert(shown.last() == full[j - 1]);
    assert forall|i: int| 0 <= i < white.len() implies is_white_space(#[trigger] white[i]) by {
        if i < open.len() - m {
            assert(white[i] == open[m + i]);
        } else {
            assert(white[i] == gap[i - (open.len() - m)]);
        }
    }
    if !lacks(gap, '\n') {
        let i = choose|i: int| 0 <= i < gap.len() && gap[i] == '\n';
        assert(white[open.len() - m + i] == '\n');
    }
    (white, rest)
}

/// A trimmed text ends with no white space.
proof fn lemma_trimmed_last(s: Seq<char>)
    requires
        trimmed(s).len() > 0,
    ensures
        !is_white_space(trimmed(s).last()),
{
    let k = lemma_drop_leading(s, CharClass::WhiteSpace);
    let j = lemma_drop_trailing(s.skip(k), CharClass::WhiteSpace);
    assert(s.skip(k).take(j).last() == s.skip(k)[j - 1]);
}

/// The lines of a script with a comment on a line behind it.
proof fn lemma_lines_with_comment(
    code: Seq<char>,
    gap: Seq<char>,
    comment: Seq<char>,
) -> (parts: (Seq<Seq<char>>, Seq<char>, Seq<char>, Seq<Seq<char>>, Seq<char>, Seq<char>))
    requires
        trimmed(code).len() > 0,
        forall|i: int| 0 <= i < gap.len() ==> is_white_space(#[trigger] gap[i]),
        !lacks(gap, '\n'),
        lacks(comment, '\n'),
    ensures
        ({
            let (before, last, blanks, more, indent, rest) = parts;
            &&& script_lines(code) == before.push(last)
            &&& script_lines(code + gap + "//"@ + comment) == before.push(last + blanks)
                + more.push(indent + ("//"@ + rest))
            &&& last.len() > 0
            &&& !is_white_space(last.last())
            &&& forall|i: int|
                0 <= i < blanks.len() ==> is_white_space(#[trigger] blanks[i]) && blanks[i] != '\n'
            &&& forall|i: int, j: int|
                #![trigger more[i][j]]
                0 <= i < more.len() && 0 <= j < more[i].len() ==> is_white_space(more[i][j])
            &&& forall|i: int| 0 <= i < indent.len() ==> is_white_space(#[trigger] indent[i])
            &&& lacks(rest, '\n')
        }),
{
    reveal_strlit("//");
    let script = trimmed(code);
    lemma_trimmed_last(code);
    let (white, rest) = lemma_trimmed_with_comment(code, gap, comment);
    let n = lemma_last_line_start(white);
    assert(n > 0) by {
        if n == 0 {
            assert(lacks(white, '\n'));
        }
    }
    let init = white.take(n - 1);
    let indent = white.skip(n);
    assert forall|i: int| 0 <= i < init.len() implies is_white_space(#[trigger] init[i]) by {
        assert(init[i] == white[i]);
    }
    assert forall|i: int| 0 <= i < indent.len() implies is_white_space(#[trigger] indent[i]) by {
        assert(indent[i] == white[n + i]);
    }
    let (before, last, blanks, more) = lemma_lines_before_white(script, init);
    let line = indent + ("//"@ + rest);
    assert forall|i: int| 0 <= i < line.len() implies #[trigger] line[i] != '\n' by {
        if i < indent.len() {
            assert(line[i] == white[n + i]);
        } else if i >= indent.len() + 2 {
            assert(line[i] == rest[i - indent.len() - 2]);
        }
    }
    lemma_one_line(line);
    lemma_lines_add(script + init, line);
    assert(script + white + ("//"@ + rest) == script + init + seq!['\n'] + line);
    assert(before.push(last + blanks) + more + seq![line] == before.push(last + blanks)
        + more.push(line));
    (before, last, blanks, more, indent, rest)
}

/// A line of white space, and one that starts with a comment, holds no code.
proof fn lemma_no_code_line(indent: Seq<char>, rest: Seq<char>)
    requires
        forall|i: int| 0 <= i < indent.len() ==> is_white_space(#[trigger] indent[i]),
    ensures
        !is_code_line(indent),
        !is_code_line(indent + ("//"@ + rest)),
{
    reveal_strlit("//");
    let none = Seq::<char>::empty();
    assert(indent + none == indent);
    lemma_drop_leading_add(indent, none);
    let comment = "//"@ + rest;
    lemma_drop_leading_add(indent, comment);
    let j = lemma_drop_trailing(comment, CharClass::WhiteSpace);
    assert(comment[0] == '/' && comment[1] == '/');
    assert(drop_leading(comment, CharClass::WhiteSpace) == comment);
    assert(comment.take(j).subrange(0, 2) == "//"@);
}

/// The text of a script with a comment on a line behind it.
proof fn lemma_text_with_comment(code: Seq<char>, gap: Seq<char>, comment: Seq<char>) -> (parts: (
    Seq<char>,
    Seq<char>,
    Seq<char>,
))
    requires
        trimmed(code).len() > 0,
        forall|i: int| 0 <= i < gap.len() ==> is_white_space(#[trigger] gap[i]),
        !lacks(gap, '\n'),
        lacks(comment, '\n'),
    ensures
        ({
            let (blanks, white, rest) = parts;
            let text = script_text(code);
            &&& script_text(code + gap + "//"@ + comment) == text + blanks + seq!['\n'] + white
                + "//"@ + rest
            &&& text.len() > 0
            &&& !is_white_space(text.last())
            &&& forall|i: int|
                0 <= i < blanks.len() ==> is_white_space(#[trigger] blanks[i]) && blanks[i] != '\n'
            &&& forall|i: int| 0 <= i < white.len() ==> is_white_space(#[trigger] white[i])
            &&& lacks(rest, '\n')
        }),
{
    reveal_strlit("\n");
    let (before, last, blanks, more, indent, rest) = lemma_lines_with_comment(code, gap, comment);
    let line = indent + ("//"@ + rest);
    let lines = script_lines(code);
    let first = before.push(last + blanks);
    let text = script_text(code);
    assert(lines.drop_last() == before);
    assert(first.drop_last() == before);
    assert(lines.last() == last && first.last() == last + blanks);
    assert(joined(first, "\n"@) == text + blanks) by {
        if before.len() > 0 {
            assert(joined(before, "\n"@) + "\n"@ + (last + blanks) == joined(before, "\n"@) + "\n"@
                + last + blanks);
        }
    }
    assert(text.len() > 0 && text.last() == last.last());
    let white = if more.len() == 0 {
        indent
    } else {
        joined(more, "\n"@) + "\n"@ + indent
    };
    lemma_joined_white(more);
    assert forall|i: int| 0 <= i < white.len() implies is_white_space(#[trigger] white[i]) by {
        let n = joined(more, "\n"@).len();
        if more.len() > 0 {
            if i < n {
                assert(white[i] == joined(more, "\n"@)[i]);
            } else if i > n {
                assert(white[i] == indent[i - n - 1]);
            }
        }
    }
    lemma_joined_add(first, more.push(line), "\n"@);
    assert(more.push(line).drop_last() == more);
    assert(joined(more.push(line), "\n"@) == white + "//"@ + rest);
    assert(text + blanks + "\n"@ + (white + "//"@ + rest) == text + blanks + seq!['\n'] + white
        + "//"@ + rest);
    (blanks, white, rest)
}

/// The last statement of a script with a comment on a line behind it.
proof fn lemma_statement_before_comment(code: Seq<char>, gap: Seq<char>, comment: Seq<char>)
    requires
        trimmed(code).len() > 0,
        is_closed(script_text(code)),
        forall|i: int| 0 <= i < gap.len() ==> is_white_space(#[trigger] gap[i]),
        !lacks(gap, '\n'),
        lacks(comment, '\n'),
    ensures
        ({
            let longer = code + gap + "//"@ + comment;
            let text = script_text(code);
            &&& statement_start(script_text(longer)) == statement_start(text)
            &&& statement_start(text) is Some ==> {
                &&& preamble(longer) == preamble(code)
                &&& last_statement(longer) == last_statement(code)
                &&& holds_text(last_lines(longer), "__result__"@) == holds_text(
                    last_lines(code),
                    "__result__"@,
                )
            }
        }),
{
    let longer = code + gap + "//"@ + comment;
    let text = script_text(code);
    let whole = script_text(longer);
    let (blanks, white, rest) = lemma_text_with_comment(code, gap, comment);
    lemma_comment_after(text, blanks, white, rest);
    law_a_statement_is_within_its_script(text);
    law_a_statement_is_within_its_script(whole);
    if let Some(start) = statement_start(text) {
        let end = statement_end(text);
        let past = whole.subrange(end, statement_end(whole));
        assert forall|i: int| 0 <= i < past.len() implies is_white_space(#[trigger] past[i]) by {
            assert(past[i] == blanks[i]);
        }
        assert(whole.take(text.len() as int) == text);
        assert(whole.take(start) == text.take(start));
        assert(whole.subrange(start, end) == text.subrange(start, end));
        assert(whole.subrange(start, statement_end(whole)) == text.subrange(start, end) + past);
        lemma_trimmed_before(text.subrange(start, end), past);
        lemma_line_start_same(text, whole, start);
        lemma_line_start_before(text, start);
        let from = line_start(text, start);
        assert(whole.subrange(from, statement_end(whole)) == text.subrange(from, end) + past);
        lemma_holds_before_white(text.subrange(from, end), past);
    }
}

/// The last line that holds code, of a script with a comment on a line behind it.
proof fn lemma_line_before_comment(code: Seq<char>, gap: Seq<char>, comment: Seq<char>)
    requires
        trimmed(code).len() > 0,
        forall|i: int| 0 <= i < gap.len() ==> is_white_space(#[trigger] gap[i]),
        !lacks(gap, '\n'),
        lacks(comment, '\n'),
    ensures
        ({
            let lines = script_lines(code);
            let all = script_lines(code + gap + "//"@ + comment);
            let at = last_line_index(lines);
            &&& last_line_index(all) == at
            &&& all.take(at) == lines.take(at)
            &&& trimmed(last_line(all)) == trimmed(last_line(lines))
        }),
{
    let (before, last, blanks, more, indent, rest) = lemma_lines_with_comment(code, gap, comment);
    let lines = script_lines(code);
    let all = script_lines(code + gap + "//"@ + comment);
    let first = before.push(last + blanks);
    let extra = more.push(indent + ("//"@ + rest));
    assert(lines.drop_last() == before);
    assert(first.drop_last() == before);
    assert(lines.last() == last && first.last() == last + blanks);
    assert forall|i: int| 0 <= i < extra.len() implies !is_code_line(#[trigger] extra[i]) by {
        if i < more.len() {
            assert forall|j: int| 0 <= j < more[i].len() implies is_white_space(
                #[trigger] more[i][j],
            ) by {}
            lemma_no_code_line(more[i], rest);
        } else {
            lemma_no_code_line(indent, rest);
        }
    }
    lemma_lines_without_code(first, extra);
    lemma_trimmed_before(last, blanks);
    lemma_last_line_index(before);
    let at = last_line_index(lines);
    assert(last_line_index(first) == at);
    assert(0 <= at <= before.len());
    assert(all.take(at) == lines.take(at));
    if at < before.len() {
        assert(all[at] == lines[at]);
    }
}

/// A comment on a line behind a script does not count: a script that is wrapped is wrapped alike
/// with it, where the end of a line ends what the script ends with as its own end does.
pub proof fn law_comments_behind_do_not_count(code: Seq<char>, gap: Seq<char>, comment: Seq<char>)
    requires
        trimmed(code).len() > 0,
        is_closed(script_text(code)),
        forall|i: int| 0 <= i < gap.len() ==> is_white_space(#[trigger] gap[i]),
        !lacks(gap, '\n'),
        lacks(comment, '\n'),
    ensures
        runs_as_is(code + gap + "//"@ + comment) == runs_as_is(code),
        !runs_as_is(code) ==> wrapped(code + gap + "//"@ + comment) == wrapped(code),
{
    lemma_statement_before_comment(code, gap, comment);
    lemma_line_before_comment(code, gap, comment);
}

/// White space in front of a text does not tell whether it holds a text without white space.
proof fn lemma_holds_after_white(white: Seq<char>, s: Seq<char>)
    requires
        forall|i: int| 0 <= i < white.len() ==> is_white_space(#[trigger] white[i]),
    ensures
        holds_text(white + s, "__result__"@) == holds_text(s, "__result__"@),
{
    reveal_strlit("__result__");
    let all = white + s;
    let name = "__result__"@;
    let n = white.len() as int;
    if holds_text(s, name) {
        let at = choose|at: int| occurs_at(s, name, at);
        assert(all.subrange(n + at, n + at + name.len()) == s.subrange(at, at + name.len()));
        assert(occurs_at(all, name, n + at));
    }
    if holds_text(all, name) {
        let at = choose|at: int| occurs_at(all, name, at);
        if at < n {
            assert(all[at] == white[at]);
            assert(all.subrange(at, at + 10)[0] == all[at]);
            assert(name[0] == '_');
            assert(false);
        }
        assert(all.subrange(at, at + name.len()) == s.subrange(at - n, at - n + name.len()));
        assert(occurs_at(s, name, at - n));
    }
}

/// Whether the last statement of a script is its last line that holds code.
pub open spec fn is_last_line_a_statement(code: Seq<char>) -> bool {
    let text = script_text(code);
    let lines = script_lines(code);
    statement_start(text) matches Some(start) && {
        &&& text.take(start) == lead(joined(lines.take(last_line_index(lines)), "\n"@))
        &&& trimmed(text.subrange(start, statement_end(text))) == trimmed(last_line(lines))
    }
}

/// Where the last statement of a script is its last line that holds code, that line alone tells how
/// the script is wrapped: it is run as it stands where the line mentions the result variable or
/// starts an import, an export, a function or a class, and else the line is set as the result.
pub proof fn law_a_last_line_is_wrapped_by_itself(code: Seq<char>)
    requires
        is_last_line_a_statement(code),
    ensures
        ({
            let lines = script_lines(code);
            let last = trimmed(last_line(lines));
            &&& runs_as_is(code) <==> {
                ||| holds_text(last, "__result__"@)
                ||| begins_with(last, "import "@)
                ||| begins_with(last, "export "@)
                ||| begins_with(last, "function "@)
                ||| begins_with(last, "class "@)
            }
            &&& !runs_as_is(code) ==> wrapped(code) == with_result(
                joined(lines.take(last_line_index(lines)), "\n"@),
                last,
            )
        }),
{
    let text = script_text(code);
    let lines = script_lines(code);
    let line = last_line(lines);
    let last = trimmed(line);
    let start = statement_start(text)->0;
    let end = statement_end(text);
    let before = joined(lines.take(last_line_index(lines)), "\n"@);
    law_a_statement_is_within_its_script(text);
    assert(lead(before).len() > 0 ==> lead(before).drop_last() == before);
    assert(preamble(code) == before);
    if start > 0 {
        assert(text[start - 1] == text.take(start).last());
    }
    lemma_line_start(text, start, start);
    let whole = text.subrange(start, end);
    let k = lemma_trimmed_parts(text, start, end);
    let n = (start + k + last.len()) as int;
    let front = text.subrange(start, start + k);
    let back = text.subrange(n, end);
    assert(whole == front + (last + back));
    assert forall|i: int| 0 <= i < front.len() implies is_white_space(#[trigger] front[i]) by {
        assert(front[i] == text[start + i]);
    }
    assert forall|i: int| 0 <= i < back.len() implies is_white_space(#[trigger] back[i]) by {
        assert(back[i] == text[n + i]);
    }
    lemma_holds_after_white(front, last + back);
    lemma_holds_before_white(last, back);
    lemma_last_line_index(lines);
    let j = lemma_trimmed_parts(line, 0, line.len() as int);
    assert(line.subrange(0, line.len() as int) == line);
    if lines.len() > 0 {
        lemma_lines_lack_feeds(trimmed(code), 0);
        assert(lacks(lines[last_line_index(lines)], '\n'));
    }
    assert forall|i: int| 0 <= i < last.len() implies last[i] != '\n' by {
        assert(last[i] == line[j + i]);
    }
}

/// The lines of a text without carriage returns, joined again, are the text.
proof fn lemma_lines_joined(s: Seq<char>)
    requires
        s.len() > 0,
        lacks(s, '\r'),
    ensures
        lines_of(s).len() > 0,
        s.last() != '\n' ==> joined(lines_of(s), "\n"@) == s,
        s.last() == '\n' ==> joined(lines_of(s), "\n"@) + seq!['\n'] == s,
    decreases s.len(),
{
    reveal_strlit("\n");
    let end = next_index(s, '\n', 0);
    lemma_next_index(s, '\n', 0);
    if end >= s.len() {
        assert(s.skip(0) == s);
    } else {
        let line = s.subrange(0, end);
        let rest = s.skip(end + 1);
        assert(without_return(line) == line) by {
            if line.len() > 0 {
                assert(line.last() == s[end - 1]);
            }
        }
        lemma_lines_skip(s, 0, end + 1);
        assert(lines_of(s) == seq![line] + lines_of(rest));
        assert(s == line + "\n"@ + rest);
        if rest.len() == 0 {
            assert(lines_of(rest) == Seq::<Seq<char>>::empty());
            assert(lines_of(s) == seq![line]);
        } else {
            assert(lacks(rest, '\r')) by {
                assert forall|i: int| 0 <= i < rest.len() implies rest[i] != '\r' by {
                    assert(rest[i] == s[end + 1 + i]);
                }
            }
            lemma_lines_joined(rest);
            lemma_joined_add(seq![line], lines_of(rest), "\n"@);
            assert(joined(seq![line], "\n"@) == line);
            assert(rest.last() == s.last());
        }
    }
}

/// The text of a script that has no white space round it and no carriage returns is the script.
proof fn lemma_script_text(code: Seq<char>)
    requires
        code.len() > 0,
        lacks(code, '\r'),
        !is_white_space(code[0]),
        !is_white_space(code[code.len() - 1]),
    ensures
        script_text(code) == code,
{
    let none = Seq::<char>::empty();
    law_trimming(none, code, none);
    assert(none + code + none == code);
    lemma_lines_joined(code);
}

/// A statement starts with its first word, and with no other.
#[verifier::spinoff_prover]
#[verifier::rlimit(60)]
proof fn lemma_statement_word(last: Seq<Piece>, semicolons: Seq<char>, word: Seq<char>)
    requires
        is_statement(last),
        last[0] is Word,
        forall|i: int| 0 <= i < semicolons.len() ==> #[trigger] semicolons[i] == ';',
        forall|i: int| 0 <= i < word.len() ==> is_name_char(#[trigger] word[i]),
        starts_with_word(pieces_text(last) + semicolons, word),
    ensures
        last[0] == Piece::Word(word),
{
    let own = last[0]->Word_0;
    let s = pieces_text(last) + semicolons;
    law_a_statement_starts_with_its_first_piece(last);
    let n = own.len() as int;
    let m = word.len() as int;
    let rest = s.skip(n);
    assert(s.take(n) == own) by {
        assert(pieces_text(last).take(n) == own);
    }
    assert(s.subrange(0, m) == word);
    if m < n {
        assert(s[m] == own[m]);
        assert(is_name_char(own[m]));
        assert(false);
    }
    if m > n {
        assert(s[n] == word[n]);
        assert(is_name_char(word[n]));
        if n < pieces_text(last).len() {
            assert(s[n] == pieces_text(last)[n]);
        } else {
            assert(s[n] == semicolons[n - pieces_text(last).len()]);
        }
        assert(false);
    }
    assert(own == word);
}

/// What stands before the last statement of a script, in the lines before it.
pub open spec fn kept_before(code: Seq<char>, start: int) -> Seq<char> {
    if start > 0 && code[start - 1] == '\n' {
        code.take(start - 1)
    } else {
        code.take(start)
    }
}

/// Whether a script is these statements and, behind them, a last one.
pub open spec fn consists_of(
    code: Seq<char>,
    parts: Seq<Part>,
    last: Seq<Piece>,
    semicolons: Seq<char>,
) -> bool {
    &&& code == parts_text(parts) + pieces_text(last) + semicolons
    &&& are_statements(parts)
    &&& can_start(parts, last)
    &&& next_of(last) == Next::Value || next_of(last) == Next::Closed
    &&& forall|i: int| 0 <= i < semicolons.len() ==> #[trigger] semicolons[i] == ';'
    &&& forall|i: int| 0 <= i < code.len() ==> #[trigger] code[i] != '\r'
    &&& forall|i: int|
        parts_end(parts) <= i < parts_text(parts).len() ==> is_white_space(#[trigger] code[i])
    &&& !is_white_space(pieces_text(last)[pieces_text(last).len() - 1])
}

/// A text holds what a part of it holds.
proof fn lemma_holds_within(s: Seq<char>, from: int, to: int, part: Seq<char>)
    requires
        0 <= from <= to <= s.len(),
        holds_text(s.subrange(from, to), part),
    ensures
        holds_text(s, part),
{
    let inner = s.subrange(from, to);
    let at = choose|at: int| occurs_at(inner, part, at);
    assert(s.subrange(from + at, from + at + part.len()) == inner.subrange(at, at + part.len()));
    assert(occurs_at(s, part, from + at));
}

/// The first and the last character of a script of statements are no white space.
#[verifier::spinoff_prover]
#[verifier::rlimit(60)]
proof fn lemma_script_ends(
    code: Seq<char>,
    parts: Seq<Part>,
    last: Seq<Piece>,
    semicolons: Seq<char>,
)
    requires
        consists_of(code, parts, last, semicolons),
    ensures
        0 <= parts_end(parts) <= parts_text(parts).len(),
        pieces_text(last).len() > 0,
        !is_white_space(pieces_text(last)[0]),
        !is_white_space(code[0]),
        !is_white_space(code[code.len() - 1]),
        script_text(code) == code,
{
    let body = pieces_text(last);
    law_a_statement_starts_with_its_first_piece(last);
    law_parts_start(parts, last);
    let first = last[0].text();
    assert(body.take(first.len() as int)[0] == first[0]);
    if parts.len() == 0 {
        assert(code[0] == body[0]);
    } else {
        assert(code[0] == parts_text(parts)[0]);
    }
    let end = (code.len() - 1) as int;
    if semicolons.len() > 0 {
        assert(code[end] == semicolons[semicolons.len() - 1]);
    } else {
        assert(code[end] == body[body.len() - 1]);
    }
    lemma_script_text(code);
}

/// What the last statement of a script is, and where it stands, given where it starts.
proof fn lemma_last_of(code: Seq<char>, start: int, n: int, body: Seq<char>, whole: Seq<char>)
    requires
        script_text(code) == code,
        statement_start(code) == Some(start),
        statement_end(code) == code.len(),
        0 <= start <= n <= code.len(),
        code.skip(n) == whole,
        whole.len() >= body.len() > 0,
        whole.take(body.len() as int) == body,
        !is_white_space(whole[0]),
        !is_white_space(whole[whole.len() - 1]),
        forall|i: int| start <= i < n ==> is_white_space(#[trigger] code[i]),
    ensures
        last_statement(code) == whole,
        preamble(code) == kept_before(code, start),
        holds_text(body, "__result__"@) ==> holds_text(last_lines(code), "__result__"@),
        holds_text(last_lines(code), "__result__"@) ==> holds_text(code, "__result__"@),
{
    let length = code.len() as int;
    let blanks = code.subrange(start, n);
    let none = Seq::<char>::empty();
    assert forall|i: int| 0 <= i < blanks.len() implies is_white_space(#[trigger] blanks[i]) by {
        assert(blanks[i] == code[start + i]);
    }
    law_trimming(blanks, whole, none);
    assert(code.subrange(start, length) == blanks + whole + none);
    assert(code.take(start).len() > 0 ==> code.take(start).last() == code[start - 1]);
    assert(start > 0 ==> code.take(start).drop_last() == code.take(start - 1));
    lemma_line_start_before(code, start);
    let from = line_start(code, start);
    let shown = code.subrange(from, length);
    assert(last_lines(code) == shown);
    if holds_text(body, "__result__"@) {
        assert(shown.subrange(n - from, n - from + body.len()) == body) by {
            assert(shown.subrange(n - from, n - from + body.len()) == code.skip(n).take(
                body.len() as int,
            ));
        }
        lemma_holds_within(shown, n - from, n - from + body.len(), "__result__"@);
    }
    if holds_text(shown, "__result__"@) {
        lemma_holds_within(code, from, length, "__result__"@);
    }
}

/// What a script of statements is: where its last statement starts, and what it is.
#[verifier::spinoff_prover]
#[verifier::rlimit(60)]
proof fn lemma_script_of_statements(
    code: Seq<char>,
    parts: Seq<Part>,
    last: Seq<Piece>,
    semicolons: Seq<char>,
)
    requires
        consists_of(code, parts, last, semicolons),
    ensures
        script_text(code) == code,
        0 <= parts_end(parts) <= parts_text(parts).len(),
        statement_start(code) == Some(parts_end(parts)),
        last_statement(code) == pieces_text(last) + semicolons,
        preamble(code) == kept_before(code, parts_end(parts)),
        holds_text(pieces_text(last), "__result__"@) ==> holds_text(
            last_lines(code),
            "__result__"@,
        ),
        holds_text(last_lines(code), "__result__"@) ==> holds_text(code, "__result__"@),
{
    let body = pieces_text(last);
    let n = parts_text(parts).len() as int;
    let whole = body + semicolons;
    law_the_last_statement_is_found(parts, last, semicolons);
    lemma_script_ends(code, parts, last, semicolons);
    assert(code.skip(n) == whole);
    assert(whole.take(body.len() as int) == body);
    assert(whole[0] == body[0]);
    assert(whole[whole.len() - 1] == code[code.len() - 1]);
    lemma_last_of(code, parts_end(parts), n, body, whole);
}

/// A text that ends with a blank starts a statement with semicolons behind it where it starts the
/// statement.
proof fn lemma_prefix(body: Seq<char>, semicolons: Seq<char>, prefix: Seq<char>)
    requires
        forall|i: int| 0 <= i < semicolons.len() ==> #[trigger] semicolons[i] == ';',
        prefix.len() > 0,
        prefix[prefix.len() - 1] == ' ',
    ensures
        begins_with(body + semicolons, prefix) == begins_with(body, prefix),
{
    let whole = body + semicolons;
    let n = prefix.len() as int;
    if begins_with(body, prefix) {
        assert(whole.subrange(0, n) == body.subrange(0, n));
    }
    if begins_with(whole, prefix) {
        assert(whole.subrange(0, n)[n - 1] == whole[n - 1]);
        if n > body.len() {
            assert(whole[n - 1] == semicolons[n - 1 - body.len()]);
        }
        assert(whole.subrange(0, n) == body.subrange(0, n));
    }
}

/// Which statements start as they start with semicolons behind them.
proof fn lemma_prefixes(body: Seq<char>, semicolons: Seq<char>)
    requires
        forall|i: int| 0 <= i < semicolons.len() ==> #[trigger] semicolons[i] == ';',
    ensures
        begins_with(body + semicolons, "import "@) == begins_with(body, "import "@),
        begins_with(body + semicolons, "export "@) == begins_with(body, "export "@),
        begins_with(body + semicolons, "function "@) == begins_with(body, "function "@),
        begins_with(body + semicolons, "class "@) == begins_with(body, "class "@),
        begins_with(body + semicolons, "const "@) == begins_with(body, "const "@),
        begins_with(body + semicolons, "let "@) == begins_with(body, "let "@),
        begins_with(body + semicolons, "var "@) == begins_with(body, "var "@),
        begins_with(body + semicolons, "async function "@) == begins_with(
            body,
            "async function "@,
        ),
{
    reveal_strlit("import ");
    reveal_strlit("export ");
    reveal_strlit("function ");
    reveal_strlit("class ");
    reveal_strlit("const ");
    reveal_strlit("let ");
    reveal_strlit("var ");
    reveal_strlit("async function ");
    lemma_prefix(body, semicolons, "import "@);
    lemma_prefix(body, semicolons, "export "@);
    lemma_prefix(body, semicolons, "function "@);
    lemma_prefix(body, semicolons, "class "@);
    lemma_prefix(body, semicolons, "const "@);
    lemma_prefix(body, semicolons, "let "@);
    lemma_prefix(body, semicolons, "var "@);
    lemma_prefix(body, semicolons, "async function "@);
}

/// Semicolons behind a statement add no line to it.
proof fn lemma_same_lines(body: Seq<char>, semicolons: Seq<char>)
    requires
        forall|i: int| 0 <= i < semicolons.len() ==> #[trigger] semicolons[i] == ';',
    ensures
        lacks(body + semicolons, '\n') == lacks(body, '\n'),
{
    let whole = body + semicolons;
    if lacks(body, '\n') {
        assert forall|i: int| 0 <= i < whole.len() implies whole[i] != '\n' by {
            if i >= body.len() {
                assert(whole[i] == semicolons[i - body.len()]);
            }
        }
    }
    if lacks(whole, '\n') {
        assert forall|i: int| 0 <= i < body.len() implies body[i] != '\n' by {
            assert(body[i] == whole[i]);
        }
    }
}

/// A statement that starts with a word that is not reserved consists of no other statements.
#[verifier::spinoff_prover]
#[verifier::rlimit(60)]
proof fn lemma_ordinary_is_not_compound(last: Seq<Piece>, semicolons: Seq<char>)
    requires
        is_statement(last),
        last[0] matches Piece::Word(word) && is_ordinary(word) && word != "async"@,
        forall|i: int| 0 <= i < semicolons.len() ==> #[trigger] semicolons[i] == ';',
    ensures
        !is_compound(pieces_text(last) + semicolons),
{
    let whole = pieces_text(last) + semicolons;
    let word = last[0]->Word_0;
    reveal_strlit("if");
    reveal_strlit("else");
    reveal_strlit("for");
    reveal_strlit("while");
    reveal_strlit("do");
    reveal_strlit("switch");
    reveal_strlit("try");
    reveal_strlit("catch");
    reveal_strlit("finally");
    reveal_strlit("with");
    reveal_strlit("async");
    reveal_strlit("async function ");
    if starts_with_word(whole, "if"@) {
        lemma_statement_word(last, semicolons, "if"@);
    }
    if starts_with_word(whole, "else"@) {
        lemma_statement_word(last, semicolons, "else"@);
    }
    if starts_with_word(whole, "for"@) {
        lemma_statement_word(last, semicolons, "for"@);
    }
    if starts_with_word(whole, "while"@) {
        lemma_statement_word(last, semicolons, "while"@);
    }
    if starts_with_word(whole, "do"@) {
        lemma_statement_word(last, semicolons, "do"@);
    }
    if starts_with_word(whole, "switch"@) {
        lemma_statement_word(last, semicolons, "switch"@);
    }
    if starts_with_word(whole, "try"@) {
        lemma_statement_word(last, semicolons, "try"@);
    }
    if starts_with_word(whole, "catch"@) {
        lemma_statement_word(last, semicolons, "catch"@);
    }
    if starts_with_word(whole, "finally"@) {
        lemma_statement_word(last, semicolons, "finally"@);
    }
    if starts_with_word(whole, "with"@) {
        lemma_statement_word(last, semicolons, "with"@);
    }
    if begins_with(whole, "async function "@) {
        assert(whole.subrange(0, 5) == "async"@) by {
            assert(whole.subrange(0, 15).subrange(0, 5) == whole.subrange(0, 5));
        }
        assert(whole[5] == whole.subrange(0, 15)[5]);
        lemma_statement_word(last, semicolons, "async"@);
    }
    law_a_statement_starts_with_its_first_piece(last);
    assert(pieces_text(last).take(word.len() as int)[0] == word[0]);
    assert(is_name_char(word[0]));
    assert(whole[0] == word[0]);
    let i = lemma_drop_trailing(whole, CharClass::Only(';'));
    let shorter = drop_trailing(whole, CharClass::Only(';'));
    if shorter.len() > 0 {
        assert(shorter[0] == whole[0]);
    }
}

/// The value of the last statement is the result: where a script consists of statements of which
/// the last is a value, whatever stands in the strings, templates, regular expressions, comments
/// and brackets of any of them, the wrapped script keeps all before the last statement as it
/// stands, and sets the result variable to the last statement, whole, without its semicolons.
#[verifier::spinoff_prover]
#[verifier::rlimit(60)]
pub proof fn law_the_last_statement_is_the_result(
    code: Seq<char>,
    parts: Seq<Part>,
    last: Seq<Piece>,
    semicolons: Seq<char>,
)
    requires
        consists_of(code, parts, last, semicolons),
        !holds_text(code, "__result__"@),
        !begins_with(pieces_text(last), "import "@),
        !begins_with(pieces_text(last), "export "@),
        !begins_with(pieces_text(last), "function "@),
        !begins_with(pieces_text(last), "class "@),
        !begins_with(pieces_text(last), "const "@),
        !begins_with(pieces_text(last), "let "@),
        !begins_with(pieces_text(last), "var "@),
        (forall|i: int|
            0 <= i < pieces_text(last).len() ==> #[trigger] pieces_text(last)[i] != '\n') || (
        last[0] matches Piece::Word(word) && is_ordinary(word) && word != "async"@),
    ensures
        wrapped(code) == kept_before(code, parts_end(parts)) + "\n__result__ = "@ + pieces_text(
            last,
        ) + ";"@,
{
    let body = pieces_text(last);
    lemma_script_of_statements(code, parts, last, semicolons);
    lemma_prefixes(body, semicolons);
    lemma_same_lines(body, semicolons);
    law_a_value_ends_with_no_semicolon(last);
    law_dropping_at_the_back(body, semicolons, ';');
    if !lacks(body, '\n') {
        lemma_ordinary_is_not_compound(last, semicolons);
    }
}

/// What a last declaration declares is the result: the wrapped script keeps the whole script as it
/// stands, and sets the result variable to what stands between the keyword and the first equals
/// sign.
#[verifier::spinoff_prover]
#[verifier::rlimit(60)]
pub proof fn law_what_is_declared_last_is_the_result(
    code: Seq<char>,
    parts: Seq<Part>,
    last: Seq<Piece>,
    semicolons: Seq<char>,
    keyword: Seq<char>,
    before: Seq<char>,
    name: Seq<char>,
    after: Seq<char>,
    rest: Seq<char>,
)
    requires
        consists_of(code, parts, last, semicolons),
        !holds_text(code, "__result__"@),
        keyword == "const "@ || keyword == "let "@ || keyword == "var "@,
        pieces_text(last) == keyword + before + name + after + rest,
        forall|i: int| 0 <= i < before.len() ==> is_white_space(#[trigger] before[i]),
        forall|i: int| 0 <= i < after.len() ==> is_white_space(#[trigger] after[i]),
        forall|i: int| 0 <= i < name.len() ==> #[trigger] name[i] != '=',
        name.len() > 0 ==> !is_white_space(name[0]) && !is_white_space(name[name.len() - 1]),
        rest.len() > 0 ==> rest[0] == '=',
        rest.len() == 0 ==> semicolons.len() == 0,
    ensures
        wrapped(code) == kept_before(code, parts_end(parts)) + "\n"@ + pieces_text(last)
            + semicolons + "\n__result__ = "@ + name + ";"@,
{
    let body = pieces_text(last);
    let whole = body + semicolons;
    lemma_script_of_statements(code, parts, last, semicolons);
    lemma_declared_result(
        code,
        kept_before(code, parts_end(parts)),
        body,
        semicolons,
        keyword,
        before,
        name,
        after,
        rest,
    );
}

/// What a script that ends with a declaration is wrapped to.
proof fn lemma_declared_result(
    code: Seq<char>,
    kept: Seq<char>,
    body: Seq<char>,
    semicolons: Seq<char>,
    keyword: Seq<char>,
    before: Seq<char>,
    name: Seq<char>,
    after: Seq<char>,
    rest: Seq<char>,
)
    requires
        last_statement(code) == body + semicolons,
        preamble(code) == kept,
        !holds_text(last_lines(code), "__result__"@),
        keyword == "const "@ || keyword == "let "@ || keyword == "var "@,
        body == keyword + before + name + after + rest,
        forall|i: int| 0 <= i < before.len() ==> is_white_space(#[trigger] before[i]),
        forall|i: int| 0 <= i < after.len() ==> is_white_space(#[trigger] after[i]),
        forall|i: int| 0 <= i < name.len() ==> #[trigger] name[i] != '=',
        name.len() > 0 ==> !is_white_space(name[0]) && !is_white_space(name[name.len() - 1]),
        rest.len() > 0 ==> rest[0] == '=',
        rest.len() == 0 ==> semicolons.len() == 0,
    ensures
        wrapped(code) == kept + "\n"@ + body + semicolons + "\n__result__ = "@ + name + ";"@,
{
    let whole = body + semicolons;
    assert(whole == keyword + before + name + after + (rest + semicolons));
    lemma_declared(whole, keyword, before, name, after, rest + semicolons);
    assert(kept + "\n"@ + whole == kept + "\n"@ + body + semicolons);
}

/// What a declaration declares.
proof fn lemma_declared(
    whole: Seq<char>,
    keyword: Seq<char>,
    before: Seq<char>,
    name: Seq<char>,
    after: Seq<char>,
    rest: Seq<char>,
)
    requires
        keyword == "const "@ || keyword == "let "@ || keyword == "var "@,
        whole == keyword + before + name + after + rest,
        forall|i: int| 0 <= i < before.len() ==> is_white_space(#[trigger] before[i]),
        forall|i: int| 0 <= i < after.len() ==> is_white_space(#[trigger] after[i]),
        forall|i: int| 0 <= i < name.len() ==> #[trigger] name[i] != '=',
        name.len() > 0 ==> !is_white_space(name[0]) && !is_white_space(name[name.len() - 1]),
        rest.len() > 0 ==> rest[0] == '=',
    ensures
        declared(whole) == Some(name),
        !begins_with(whole, "import "@),
        !begins_with(whole, "export "@),
        !begins_with(whole, "function "@),
        !begins_with(whole, "class "@),
        !is_compound(whole),
{
    reveal_strlit("const ");
    reveal_strlit("let ");
    reveal_strlit("var ");
    reveal_strlit("import ");
    reveal_strlit("export ");
    reveal_strlit("function ");
    reveal_strlit("class ");
    reveal_strlit("if");
    reveal_strlit("else");
    reveal_strlit("for");
    reveal_strlit("while");
    reveal_strlit("do");
    reveal_strlit("switch");
    reveal_strlit("try");
    reveal_strlit("catch");
    reveal_strlit("finally");
    reveal_strlit("with");
    reveal_strlit("async function ");
    let n = keyword.len() as int;
    assert(whole.subrange(0, n) == keyword);
    assert(begins_with(whole, keyword));
    assert(whole[0] == keyword[0] && whole[1] == keyword[1]);
    let piece = before + name + after;
    assert forall|i: int| 0 <= i < piece.len() implies #[trigger] piece[i] != '=' by {
        if i < before.len() {
            assert(piece[i] == before[i]);
        } else if i < before.len() + name.len() {
            assert(piece[i] == name[i - before.len()]);
        } else {
            assert(piece[i] == after[i - before.len() - name.len()]);
        }
    }
    assert(whole.skip(n) == piece + rest);
    law_trimming(before, name, after);
    if rest.len() > 0 {
        law_splitting(piece, '=', rest.drop_first());
        assert(piece + rest == piece + seq!['='] + rest.drop_first());
    } else {
        law_splitting(piece, '=', rest);
        assert(piece + rest == piece);
    }
    assert(split_by(whole.skip(n), '=')[0] == piece);
    lemma_starts(whole, keyword);
    let i = lemma_drop_trailing(whole, CharClass::Only(';'));
    let shorter = drop_trailing(whole, CharClass::Only(';'));
    if shorter.len() > 0 {
        assert(shorter[0] == whole[0]);
    }
}

/// A text starts with one character, and with the next.
proof fn lemma_starts(whole: Seq<char>, keyword: Seq<char>)
    requires
        whole.len() > 1,
        keyword.len() > 1,
        whole[0] == keyword[0],
        whole[1] == keyword[1],
    ensures
        forall|other: Seq<char>|
            #![trigger begins_with(whole, other)]
            other.len() > 1 && (other[0] != keyword[0] || other[1] != keyword[1]) ==> !begins_with(
                whole,
                other,
            ),
{
    assert forall|other: Seq<char>|
        #![trigger begins_with(whole, other)]
        other.len() > 1 && (other[0] != keyword[0] || other[1] != keyword[1]) implies !begins_with(
        whole,
        other,
    ) by {
        if begins_with(whole, other) {
            let head = whole.subrange(0, other.len() as int);
            assert(head[0] == whole[0] && head[1] == whole[1]);
        }
    }
}

/// A script is run as it stands where its last statement mentions the result variable, where that
/// is an import, an export, a function or a class, and where it takes several lines and starts with
/// a word that other statements follow.
#[verifier::spinoff_prover]
#[verifier::rlimit(60)]
pub proof fn law_some_scripts_run_as_they_stand(
    code: Seq<char>,
    parts: Seq<Part>,
    last: Seq<Piece>,
    semicolons: Seq<char>,
)
    requires
        consists_of(code, parts, last, semicolons),
        ({
            let body = pieces_text(last);
            ||| holds_text(body, "__result__"@)
            ||| begins_with(body, "import "@)
            ||| begins_with(body, "export "@)
            ||| begins_with(body, "function "@)
            ||| begins_with(body, "class "@)
            ||| {
                &&& exists|i: int| 0 <= i < body.len() && #[trigger] body[i] == '\n'
                &&& last[0] matches Piece::Word(word) && (word == "if"@ || word == "for"@ || word
                    == "while"@ || word == "do"@ || word == "switch"@ || word == "try"@ || word
                    == "catch"@ || word == "finally"@ || word == "with"@)
            }
        }),
    ensures
        wrapped(code) == code,
{
    let body = pieces_text(last);
    let whole = body + semicolons;
    lemma_script_of_statements(code, parts, last, semicolons);
    lemma_prefixes(body, semicolons);
    lemma_same_lines(body, semicolons);
    if last[0] is Word {
        lemma_first_word(last, semicolons);
    }
}

/// A statement starts with its first word.
proof fn lemma_first_word(last: Seq<Piece>, semicolons: Seq<char>)
    requires
        is_statement(last),
        last[0] is Word,
        forall|i: int| 0 <= i < semicolons.len() ==> #[trigger] semicolons[i] == ';',
    ensures
        starts_with_word(pieces_text(last) + semicolons, last[0]->Word_0),
{
    let body = pieces_text(last);
    let whole = body + semicolons;
    let word = last[0]->Word_0;
    let n = word.len() as int;
    law_a_statement_starts_with_its_first_piece(last);
    assert(body.take(n) == word);
    assert(whole.subrange(0, n) == body.take(n));
    if whole.len() > n {
        if body.len() > n {
            assert(whole[n] == body[n]);
        } else {
            assert(whole[n] == semicolons[0]);
        }
    }
}

/// A text in braces starts with no word.
proof fn lemma_braces(inner: Seq<char>, semicolons: Seq<char>)
    requires
        forall|i: int| 0 <= i < semicolons.len() ==> #[trigger] semicolons[i] == ';',
    ensures
        ({
            let body = seq!['{'] + inner + seq!['}'];
            let whole = body + semicolons;
            &&& drop_trailing(whole, CharClass::Only(';')) == body
            &&& is_block(body) == scan(inner).ended
            &&& is_compound(whole) == scan(inner).ended
            &&& !begins_with(whole, "import "@) && !begins_with(whole, "export "@)
            &&& !begins_with(whole, "function "@) && !begins_with(whole, "class "@)
            &&& !begins_with(whole, "const "@) && !begins_with(whole, "let "@)
            &&& !begins_with(whole, "var "@)
        }),
{
    reveal_strlit("const ");
    reveal_strlit("let ");
    reveal_strlit("var ");
    reveal_strlit("import ");
    reveal_strlit("export ");
    reveal_strlit("function ");
    reveal_strlit("class ");
    reveal_strlit("if");
    reveal_strlit("else");
    reveal_strlit("for");
    reveal_strlit("while");
    reveal_strlit("do");
    reveal_strlit("switch");
    reveal_strlit("try");
    reveal_strlit("catch");
    reveal_strlit("finally");
    reveal_strlit("with");
    reveal_strlit("async function ");
    let body = seq!['{'] + inner + seq!['}'];
    let whole = body + semicolons;
    assert(body[body.len() - 1] == '}');
    law_dropping_at_the_back(body, semicolons, ';');
    assert(body.subrange(1, body.len() - 1) == inner);
    assert(whole[0] == '{');
    assert forall|other: Seq<char>|
        #![trigger begins_with(whole, other)]
        other.len() > 0 && other[0] != '{' implies !begins_with(whole, other) by {
        if begins_with(whole, other) {
            assert(whole.subrange(0, other.len() as int)[0] == whole[0]);
        }
    }
}

/// An object over several lines that a script ends with is the result, whole, whatever stands in
/// its strings, templates and brackets; each of its lines but the last ends with a comma.
#[verifier::spinoff_prover]
#[verifier::rlimit(60)]
pub proof fn law_a_last_object_is_the_result(
    code: Seq<char>,
    parts: Seq<Part>,
    last: Seq<Piece>,
    semicolons: Seq<char>,
    before: Seq<Gap>,
    entries: Seq<Entry>,
    end: Seq<Piece>,
    after: Seq<Gap>,
)
    requires
        consists_of(code, parts, last, semicolons),
        !holds_text(code, "__result__"@),
        pieces_text(last) == seq!['{'] + (gaps_text(before) + entries_text(entries) + pieces_text(
            end,
        ) + gaps_text(after)) + seq!['}'],
        forall|i: int| 0 <= i < before.len() ==> (#[trigger] before[i]).is_sound(),
        forall|i: int| 0 <= i < entries.len() ==> (#[trigger] entries[i]).is_sound(),
        end.len() > 0 ==> is_statement(end) && open_brackets(end).len() == 0 && is_calm(end) && (
        next_of(end) == Next::Value || next_of(end) == Next::Closed),
        end.len() == 0 ==> after.len() == 0,
        forall|i: int| 0 <= i < after.len() ==> (#[trigger] after[i]).is_sound(),
    ensures
        wrapped(code) == kept_before(code, parts_end(parts)) + "\n__result__ = "@ + pieces_text(
            last,
        ) + ";"@,
{
    let inner = gaps_text(before) + entries_text(entries) + pieces_text(end) + gaps_text(after);
    lemma_script_of_statements(code, parts, last, semicolons);
    law_an_object_holds_no_statements(before, entries, end, after);
    lemma_braces(inner, semicolons);
}

/// A script that ends with a block over several lines, in which a semicolon ends a statement, is
/// run as it stands.
#[verifier::spinoff_prover]
#[verifier::rlimit(60)]
pub proof fn law_a_last_block_runs_as_it_stands(
    code: Seq<char>,
    parts: Seq<Part>,
    last: Seq<Piece>,
    semicolons: Seq<char>,
    before: Seq<Gap>,
    pieces: Seq<Piece>,
    rest: Seq<char>,
)
    requires
        consists_of(code, parts, last, semicolons),
        exists|i: int| 0 <= i < pieces_text(last).len() && #[trigger] pieces_text(last)[i] == '\n',
        pieces_text(last) == seq!['{'] + (gaps_text(before) + pieces_text(pieces) + seq![';']
            + rest) + seq!['}'],
        forall|i: int| 0 <= i < before.len() ==> (#[trigger] before[i]).is_sound(),
        is_statement(pieces),
        open_brackets(pieces).len() == 0,
    ensures
        wrapped(code) == code,
{
    let inner = gaps_text(before) + pieces_text(pieces) + seq![';'] + rest;
    lemma_script_of_statements(code, parts, last, semicolons);
    law_a_block_holds_statements(before, pieces, rest);
    lemma_braces(inner, semicolons);
    lemma_same_lines(pieces_text(last), semicolons);
}

/// In a script without a statement, the last line that holds more than white space and is no line
/// comment is taken for one.
pub proof fn law_a_script_without_statements(code: Seq<char>, i: int)
    requires
        statement_start(script_text(code)) is None,
        0 <= i < script_lines(code).len(),
        trimmed(script_lines(code)[i]).len() > 0,
        !begins_with(trimmed(script_lines(code)[i]), "//"@),
        forall|k: int|
            i < k < script_lines(code).len() ==> trimmed(#[trigger] script_lines(code)[k]).len()
                == 0 || begins_with(trimmed(script_lines(code)[k]), "//"@),
    ensures
        ({
            let line = trimmed(script_lines(code)[i]);
            &&& last_statement(code) == line
            &&& last_lines(code) == line
            &&& preamble(code) == joined(script_lines(code).take(i), "\n"@)
        }),
{
    let lines = script_lines(code);
    let first = lines.take(i + 1);
    let more = lines.skip(i + 1);
    assert(lines == first + more);
    assert forall|k: int| 0 <= k < more.len() implies !is_code_line(#[trigger] more[k]) by {
        assert(more[k] == lines[i + 1 + k]);
    }
    lemma_lines_without_code(first, more);
    assert(first.last() == lines[i]);
}

} // verus!
