//! What holds of the last statement of every script.
use vstd::prelude::*;

#[allow(unused_imports)]
use crate::statements::{
    extends_word, fed, is_blank, is_digit, is_word_char, scan, sign, statement_end, statement_start,
    unread, word_class, word_last, Bracket, Kind, Last, Mode, ScanView, Step, WordClass,
};
#[allow(unused_imports)]
use crate::text::is_white_space;

verus! {

/// What a token leaves alone, and where it puts the statement that it starts.
proof fn lemma_token(scan: ScanView, kind: Kind, to: int)
    requires
        scan.last == Last::Start ==> scan.stack.len() == 0,
    ensures
        ({
            let after = scan.token(kind, to);
            &&& after.mode == Mode::Code
            &&& after.word == scan.word
            &&& !after.newline
            &&& after.last == Last::Start <==> scan.last == Last::Start && !scan.begins(kind)
            &&& after.last == Last::Start ==> kind == Kind::Semicolon
            &&& after.last == Last::Start ==> after.stack == scan.stack
            &&& after.last == Last::Semicolon ==> kind == Kind::Semicolon && after.stack.len() == 0
            &&& after.at == scan.at
            &&& after.token_at == scan.token_at
            &&& after.break_end == scan.break_end
            &&& after.last_end == to
            &&& after.end == to
            &&& after.start == if scan.begins(kind) {
                scan.next_start()
            } else {
                scan.start
            }
        }),
{
    reveal(ScanView::token);
}

/// What the first character of a token amounts to.
proof fn lemma_code(scan: ScanView, c: char)
    ensures
        ({
            let here = ScanView { token_at: scan.at, ..scan };
            scan.code(c) == if c == '\n' {
                here.line_break(scan.at + 1)
            } else if is_blank(c) {
                here.blank(scan.at + 1)
            } else {
                match scan.entered(c) {
                    Some(mode) => ScanView {
                        mode,
                        word: if mode == Mode::Word {
                            seq![c]
                        } else {
                            scan.word
                        },
                        ..here
                    },
                    None => here.token(sign(c), scan.at + 1),
                }
            }
        }),
{
    reveal(ScanView::code);
}

/// What a step within a token or a comment can be, and what it leads to.
proof fn lemma_step(scan: ScanView, c: char)
    ensures
        scan.taken(c, scan.step(c)) == match scan.step(c) {
            Step::Stay(mode) => ScanView {
                mode,
                word: if scan.mode == Mode::Word {
                    scan.word.push(c)
                } else if scan.mode == Mode::Point {
                    seq![c]
                } else {
                    scan.word
                },
                ..scan
            },
            Step::Token(kind) => scan.token(kind, scan.at + 1),
            Step::After(kind) => scan.token(kind, scan.at).code(c),
            Step::Blank => scan.blank(scan.at + 1),
            Step::AfterBlank => scan.blank(scan.at).code(c),
            Step::Break => scan.line_break(scan.at + 1),
        },
        match scan.step(c) {
            Step::Stay(mode) => mode != Mode::Code && match mode {
                Mode::Twice(_) => false,
                Mode::Word => scan.mode == Mode::Word || scan.mode == Mode::Point,
                Mode::Quoted { quote, .. } => scan.mode matches Mode::Quoted { quote: q, .. } && q
                    == quote,
                _ => true,
            },
            Step::Token(kind) => kind != Kind::Semicolon && kind != Kind::Close,
            Step::After(kind) => kind != Kind::Semicolon && kind != Kind::Close,
            _ => true,
        },
{
    reveal(ScanView::step);
    reveal(ScanView::taken);
}

impl ScanView {
    /// Whether what is known of a script lies within its first `bound` characters, in its order.
    spec fn ordered(self, bound: int) -> bool {
        &&& 0 <= self.last_end <= self.end <= bound
        &&& 0 <= self.break_end <= bound
        &&& 0 <= self.start
        &&& self.last != Last::Start ==> self.start < self.last_end
        &&& self.last == Last::Start ==> self.start == 0 && self.stack.len() == 0
        &&& self.newline ==> self.last_end <= self.break_end
        &&& !self.newline ==> self.break_end <= self.last_end
        &&& self.mode != Mode::Code ==> self.end <= self.token_at < bound && self.break_end
            <= self.token_at
        &&& match self.mode {
            Mode::Twice(sign) => sign == '+' || sign == '-',
            Mode::Quoted { quote, .. } => quote == '"' || quote == '\'',
            _ => true,
        }
    }
}

/// A token keeps the order.
proof fn lemma_token_ordered(scan: ScanView, kind: Kind, to: int)
    requires
        scan.ordered(scan.at),
        scan.end <= scan.token_at < to,
        scan.break_end <= scan.token_at,
    ensures
        scan.token(kind, to).ordered(to),
{
    lemma_token(scan, kind, to);
}

/// The first character of a token keeps the order.
proof fn lemma_code_ordered(scan: ScanView, c: char)
    requires
        scan.mode == Mode::Code,
        scan.ordered(scan.at),
    ensures
        scan.code(c).ordered(scan.at + 1),
{
    lemma_code(scan, c);
    let here = ScanView { token_at: scan.at, ..scan };
    lemma_token_ordered(here, sign(c), scan.at + 1);
}

/// A character keeps the order.
proof fn lemma_feed_ordered(scan: ScanView, c: char)
    requires
        scan.ordered(scan.at),
    ensures
        scan.feed(c).ordered(scan.at + 1),
{
    if c == '\r' {
    } else if scan.mode == Mode::Code {
        lemma_code_ordered(scan, c);
    } else {
        lemma_step(scan, c);
        match scan.step(c) {
            Step::Token(kind) => {
                lemma_token_ordered(scan, kind, scan.at + 1);
            },
            Step::After(kind) => {
                lemma_token_ordered(scan, kind, scan.at);
                lemma_token(scan, kind, scan.at);
                lemma_code_ordered(scan.token(kind, scan.at), c);
            },
            Step::AfterBlank => {
                lemma_code_ordered(scan.blank(scan.at), c);
            },
            _ => {},
        }
    }
}

/// What is known of a script lies within it, in its order.
proof fn lemma_fed_ordered(text: Seq<char>)
    ensures
        fed(unread(), text).ordered(text.len() as int),
        fed(unread(), text).at == text.len(),
    decreases text.len(),
{
    if text.len() > 0 {
        lemma_fed_ordered(text.drop_last());
        lemma_feed_ordered(fed(unread(), text.drop_last()), text.last());
    }
}

/// The end of a script keeps the order.
proof fn lemma_flush_ordered(scan: ScanView)
    requires
        scan.ordered(scan.at),
    ensures
        scan.flush().ordered(scan.at),
{
    if let Some(kind) = scan.pending() {
        lemma_token_ordered(scan, kind, scan.at);
    }
}

/// The last statement of a script lies within it, and no token follows it.
pub proof fn law_a_statement_is_within_its_script(text: Seq<char>)
    ensures
        scan(text).last_end <= statement_end(text) <= text.len(),
        statement_start(text) matches Some(start) ==> 0 <= start < statement_end(text),
{
    lemma_fed_ordered(text);
    lemma_flush_ordered(fed(unread(), text));
}

impl ScanView {
    /// Whether a statement can start here.
    pub open spec fn boundary(self) -> bool {
        &&& self.mode == Mode::Code
        &&& self.stack.len() == 0
        &&& match self.last {
            Last::Start => true,
            Last::Semicolon => true,
            Last::Value => self.newline,
            Last::Brace => self.newline,
            Last::Head => self.newline,
            _ => false,
        }
    }

    /// Whether a statement can start though no line has ended.
    spec fn may_start(self) -> bool {
        self.last == Last::Start || self.last == Last::Semicolon
    }

    /// Whether what is known of `text` agrees with what was known at the places that it speaks of.
    spec fn settled(self, text: Seq<char>) -> bool {
        &&& self.ordered(text.len() as int)
        &&& self.newline ==> {
            let then = known(text, self.break_end);
            &&& then.mode == Mode::Code
            &&& then.newline
            &&& then.stack == self.stack
            &&& then.last == self.last
            &&& then.next_start() == self.break_end
        }
        &&& self.may_start() ==> {
            let then = known(text, self.last_end);
            &&& then.mode == Mode::Code
            &&& then.stack.len() == 0
            &&& then.last == self.last
            &&& then.next_start() == self.last_end
        }
        &&& known(text, self.start).boundary()
        &&& known(text, self.start).next_start() == self.start
    }
}

/// What was known once the first characters of a text had been read.
#[verifier::opaque]
spec fn known(text: Seq<char>, count: int) -> ScanView {
    fed(unread(), text.take(count))
}

/// What was known does not change with more text.
proof fn lemma_known(text: Seq<char>, c: char)
    ensures
        forall|k: int| 0 <= k <= text.len() ==> #[trigger] known(text.push(c), k) == known(text, k),
        known(text, text.len() as int) == fed(unread(), text),
{
    reveal(known);
    assert forall|k: int| 0 <= k <= text.len() implies #[trigger] known(text.push(c), k) == known(
        text,
        k,
    ) by {
        assert(text.push(c).take(k) == text.take(k));
    }
    assert(text.take(text.len() as int) == text);
}

/// A statement starts where one can start.
proof fn lemma_begin_settled(scan: ScanView, text: Seq<char>, kind: Kind, to: int)
    requires
        scan.settled(text),
    ensures
        known(text, scan.token(kind, to).start).boundary(),
        known(text, scan.token(kind, to).start).next_start() == scan.token(kind, to).start,
{
    lemma_token(scan, kind, to);
}

/// A token that is no sign of one character leaves what is known settled.
proof fn lemma_token_settled(scan: ScanView, text: Seq<char>, kind: Kind, to: int)
    requires
        scan.settled(text),
        scan.end <= scan.token_at < to <= text.len(),
        scan.break_end <= scan.token_at,
        kind != Kind::Semicolon,
        kind != Kind::Close,
    ensures
        scan.token(kind, to).settled(text),
{
    lemma_token(scan, kind, to);
    lemma_token_ordered(ScanView { at: text.len() as int, ..scan }, kind, to);
    lemma_begin_settled(scan, text, kind, to);
}

/// The first character of a token leaves what is known settled.
proof fn lemma_code_settled(scan: ScanView, text: Seq<char>, c: char)
    requires
        scan.mode == Mode::Code,
        scan.settled(text),
        scan.at == text.len(),
        fed(unread(), text.push(c)) == (ScanView { at: scan.at + 1, ..scan.code(c) }),
    ensures
        scan.code(c).settled(text.push(c)),
{
    let here = ScanView { token_at: scan.at, ..scan };
    let more = text.push(c);
    lemma_known(text, c);
    lemma_known(more, c);
    lemma_code(scan, c);
    lemma_code_ordered(scan, c);
    assert(here.settled(more));
    if c != '\n' && !is_blank(c) && scan.entered(c) is None {
        lemma_token(here, sign(c), scan.at + 1);
        lemma_begin_settled(here, more, sign(c), scan.at + 1);
    }
}

/// A character leaves what is known settled.
#[verifier::spinoff_prover]
#[verifier::rlimit(30)]
proof fn lemma_feed_settled(text: Seq<char>, c: char)
    requires
        fed(unread(), text).settled(text),
    ensures
        fed(unread(), text.push(c)).settled(text.push(c)),
{
    let scan = fed(unread(), text);
    let more = text.push(c);
    lemma_fed_ordered(text);
    assert(more.drop_last() == text);
    assert(fed(unread(), more) == scan.feed(c));
    lemma_known(text, c);
    lemma_known(more, c);
    lemma_feed_ordered(scan, c);
    assert(scan.settled(more));
    if c == '\r' {
    } else if scan.mode == Mode::Code {
        lemma_code_settled(scan, text, c);
    } else {
        lemma_step(scan, c);
        match scan.step(c) {
            Step::Token(kind) => {
                lemma_token_settled(scan, more, kind, scan.at + 1);
            },
            Step::After(kind) => {
                lemma_token(scan, kind, scan.at);
                lemma_token_settled(scan, text, kind, scan.at);
                lemma_code_settled(scan.token(kind, scan.at), text, c);
            },
            Step::AfterBlank => {
                lemma_code_settled(scan.blank(scan.at), text, c);
            },
            _ => {},
        }
    }
}

/// What is known of a script is settled.
proof fn lemma_fed_settled(text: Seq<char>)
    ensures
        fed(unread(), text).settled(text),
    decreases text.len(),
{
    if text.len() > 0 {
        lemma_fed_settled(text.drop_last());
        lemma_feed_settled(text.drop_last(), text.last());
        assert(text.drop_last().push(text.last()) == text);
    } else {
        reveal(known);
        assert(text.take(0) == Seq::<char>::empty());
    }
}

/// The last statement of a script starts outside brackets, strings, templates, patterns and
/// comments, at the start of the script or after what ends a statement.
pub proof fn law_a_statement_starts_where_one_can_start(text: Seq<char>)
    requires
        statement_start(text) is Some,
    ensures
        ({
            let start = statement_start(text)->0;
            let then = fed(unread(), text.take(start));
            then.boundary() && then.next_start() == start
        }),
{
    let read = fed(unread(), text);
    reveal(known);
    lemma_fed_settled(text);
    lemma_fed_ordered(text);
    if let Some(kind) = read.pending() {
        lemma_begin_settled(read, text, kind, read.at);
    }
}

/// Reading one text after another is reading both at once.
proof fn lemma_fed_add(from: ScanView, a: Seq<char>, b: Seq<char>)
    ensures
        fed(from, a + b) == fed(fed(from, a), b),
    decreases b.len(),
{
    if b.len() == 0 {
        assert(a + b == a);
    } else {
        lemma_fed_add(from, a, b.drop_last());
        assert((a + b).drop_last() == a + b.drop_last());
    }
}

/// Reading a text is reading its first character, and then the rest.
proof fn lemma_fed_front(from: ScanView, text: Seq<char>)
    requires
        text.len() > 0,
    ensures
        fed(from, text) == fed(from.feed(text.first()), text.drop_first()),
{
    let one = seq![text.first()];
    assert(text == one + text.drop_first());
    lemma_fed_add(from, one, text.drop_first());
    assert(one.drop_last() == Seq::<char>::empty());
    assert(fed(from, Seq::<char>::empty()) == from);
    assert(fed(from, one) == from.feed(text.first()));
}

impl ScanView {
    /// Whether what is known has grown by what follows, from `from` on.
    spec fn grown(self, from: ScanView) -> bool {
        &&& self.last_end >= from.last_end
        &&& self.break_end >= from.break_end
        &&& self.next_start() >= from.next_start()
        &&& self.start == from.start || self.start >= from.next_start()
        &&& from.last == Last::Start && self.last != Last::Start ==> self.start
            >= from.next_start()
        &&& self.end == from.end || self.end >= from.at
        &&& from.last != Last::Start ==> self.last != Last::Start
    }
}

/// A token makes what is known grow.
proof fn lemma_token_grows(scan: ScanView, kind: Kind, to: int)
    requires
        scan.ordered(scan.at),
        scan.end <= scan.token_at < to,
        scan.at <= to,
    ensures
        scan.token(kind, to).grown(scan),
{
    lemma_token(scan, kind, to);
}

/// The first character of a token makes what is known grow.
proof fn lemma_code_grows(scan: ScanView, c: char)
    requires
        scan.mode == Mode::Code,
        scan.ordered(scan.at),
    ensures
        scan.code(c).grown(scan),
{
    let here = ScanView { token_at: scan.at, ..scan };
    lemma_code(scan, c);
    lemma_token_grows(here, sign(c), scan.at + 1);
}

/// A character makes what is known grow.
proof fn lemma_feed_grows(scan: ScanView, c: char)
    requires
        scan.ordered(scan.at),
    ensures
        scan.feed(c).grown(scan),
        scan.feed(c).ordered(scan.at + 1),
{
    lemma_feed_ordered(scan, c);
    if c == '\r' {
    } else if scan.mode == Mode::Code {
        lemma_code_grows(scan, c);
    } else {
        lemma_step(scan, c);
        match scan.step(c) {
            Step::Token(kind) => {
                lemma_token_grows(scan, kind, scan.at + 1);
            },
            Step::After(kind) => {
                lemma_token(scan, kind, scan.at);
                lemma_token_grows(scan, kind, scan.at);
                lemma_token_ordered(scan, kind, scan.at);
                lemma_code_grows(scan.token(kind, scan.at), c);
            },
            Step::AfterBlank => {
                lemma_code_grows(scan.blank(scan.at), c);
            },
            _ => {},
        }
    }
}

/// A text makes what is known grow.
proof fn lemma_fed_grows(scan: ScanView, text: Seq<char>)
    requires
        scan.ordered(scan.at),
    ensures
        fed(scan, text).grown(scan),
        fed(scan, text).ordered(scan.at + text.len()),
        fed(scan, text).at == scan.at + text.len(),
    decreases text.len(),
{
    if text.len() > 0 {
        lemma_fed_grows(scan, text.drop_last());
        lemma_feed_grows(fed(scan, text.drop_last()), text.last());
    }
}

/// The end of the script makes what is known grow.
proof fn lemma_flush_grows(scan: ScanView)
    requires
        scan.ordered(scan.at),
    ensures
        scan.flush().grown(scan),
        scan.flush().ordered(scan.at),
{
    lemma_flush_ordered(scan);
    if let Some(kind) = scan.pending() {
        lemma_token_grows(scan, kind, scan.at);
    }
}

/// Growing twice is growing.
proof fn lemma_grown_twice(a: ScanView, b: ScanView, c: ScanView)
    requires
        a.at <= b.at,
        b.grown(a),
        c.grown(b),
    ensures
        c.grown(a),
{
}

impl ScanView {
    /// Whether the last statement is the one that starts at `start`.
    spec fn begun_at(self, start: int) -> bool {
        self.last != Last::Start && self.start == start
    }

    /// Whether the statement that starts at `start` is still to come.
    spec fn waiting(self, start: int) -> bool {
        self.next_start() == start && (self.last == Last::Start || self.start < start)
    }

    /// Whether the statement that starts at `start` is the last one, or still to come.
    spec fn on_track(self, start: int) -> bool {
        self.begun_at(start) || self.waiting(start)
    }

    /// Whether a statement can start here, and what follows an equals sign there.
    spec fn before(self, there: ScanView) -> bool {
        &&& self.stack.len() == 0
        &&& self.may_start() || (self.newline && (self.last == Last::Value || self.last
            == Last::Brace || self.last == Last::Head))
        &&& there.stack.len() == 0
        &&& there.last == Last::Operator
        &&& there.plain
        &&& !there.owes
        &&& !there.lone
    }

    /// Whether no token starts a statement there that does not start one here.
    spec fn covers(self, there: ScanView) -> bool {
        &&& self.stack == there.stack
        &&& self.owes == there.owes
        &&& !there.lone
        &&& self.plain ==> there.plain
        &&& self.last != Last::Start
        &&& (self.last == there.last && self.newline == there.newline) || (self.last == Last::Head
            && there.last == Last::Operator)
    }

    /// Whether the statement that starts at `start` is read there, in the statement that starts at
    /// `start_there`, as it is here.
    spec fn matched(self, there: ScanView, start: int, start_there: int) -> bool {
        &&& self.mode == there.mode
        &&& self.mode == Mode::Word ==> self.word == there.word
        &&& there.begun_at(start_there)
        &&& (self.before(there) && self.waiting(start)) || (self.covers(there) && self.begun_at(
            start,
        ))
    }
}

/// What comes of a script tells what it was on track to.
proof fn lemma_on_track(scan: ScanView, after: ScanView, start: int)
    requires
        scan.ordered(scan.at),
        scan.next_start() >= start,
        after.grown(scan),
        after.on_track(start),
    ensures
        scan.on_track(start),
{
}

/// The first token of a statement.
proof fn lemma_first_token(here: ScanView, there: ScanView, kind: Kind, to: int, to_there: int)
    requires
        here.before(there),
        here.begins(kind),
    ensures
        !there.begins(kind),
        here.token(kind, to).covers(there.token(kind, to_there)),
{
    reveal(ScanView::token);
    assert(here.stack == there.stack);
}

/// A further token of a statement.
proof fn lemma_covered_token(here: ScanView, there: ScanView, kind: Kind, to: int, to_there: int)
    requires
        here.covers(there),
        !here.begins(kind),
    ensures
        !there.begins(kind),
        here.token(kind, to).covers(there.token(kind, to_there)),
{
    reveal(ScanView::token);
}

/// A token keeps two readings matched, where it does not lead off the track.
proof fn lemma_matched_token(
    here: ScanView,
    there: ScanView,
    kind: Kind,
    to: int,
    to_there: int,
    start: int,
    start_there: int,
)
    requires
        here.ordered(here.at),
        there.ordered(there.at),
        here.token_at >= start,
        here.end <= here.token_at < to,
        here.at <= to,
        there.at <= to_there,
        here.matched(there, start, start_there),
        here.token(kind, to).on_track(start),
    ensures
        here.token(kind, to).matched(there.token(kind, to_there), start, start_there),
{
    lemma_token(here, kind, to);
    lemma_token(there, kind, to_there);
    if here.before(there) && here.waiting(start) {
        assert(here.begins(kind));
        lemma_first_token(here, there, kind, to, to_there);
    } else {
        assert(!here.begins(kind));
        lemma_covered_token(here, there, kind, to, to_there);
    }
}

/// The first character of a token keeps two readings matched, where it does not lead off the
/// track.
proof fn lemma_matched_code(
    here: ScanView,
    there: ScanView,
    c: char,
    start: int,
    start_there: int,
)
    requires
        here.mode == Mode::Code,
        here.ordered(here.at),
        there.ordered(there.at),
        here.at >= start,
        here.matched(there, start, start_there),
        here.code(c).on_track(start),
    ensures
        here.code(c).matched(there.code(c), start, start_there),
{
    lemma_code(here, c);
    lemma_code(there, c);
    let h = ScanView { token_at: here.at, ..here };
    let t = ScanView { token_at: there.at, ..there };
    assert(here.stack == there.stack);
    assert(here.entered(c) == there.entered(c));
    if c != '\n' && !is_blank(c) && here.entered(c) is None {
        lemma_matched_token(h, t, sign(c), here.at + 1, there.at + 1, start, start_there);
    }
}

/// A character keeps two readings matched, where it does not lead off the track.
proof fn lemma_matched_feed(
    here: ScanView,
    there: ScanView,
    c: char,
    start: int,
    start_there: int,
)
    requires
        here.ordered(here.at),
        there.ordered(there.at),
        here.at >= start,
        here.mode != Mode::Code ==> here.token_at >= start,
        here.matched(there, start, start_there),
        here.feed(c).on_track(start),
    ensures
        here.feed(c).matched(there.feed(c), start, start_there),
{
    if c == '\r' {
    } else if here.mode == Mode::Code {
        lemma_matched_code(here, there, c, start, start_there);
    } else {
        lemma_step(here, c);
        lemma_step(there, c);
        assert(here.operand() == there.operand());
        assert(here.step(c) == there.step(c)) by {
            reveal(ScanView::step);
        }
        match here.step(c) {
            Step::Token(kind) => {
                lemma_matched_token(
                    here,
                    there,
                    kind,
                    here.at + 1,
                    there.at + 1,
                    start,
                    start_there,
                );
            },
            Step::After(kind) => {
                let h = here.token(kind, here.at);
                let t = there.token(kind, there.at);
                lemma_token(here, kind, here.at);
                lemma_token(there, kind, there.at);
                lemma_token_ordered(here, kind, here.at);
                lemma_token_ordered(there, kind, there.at);
                lemma_token_grows(here, kind, here.at);
                lemma_code_grows(h, c);
                assert(h.next_start() >= start);
                lemma_on_track(h, h.code(c), start);
                lemma_matched_token(here, there, kind, here.at, there.at, start, start_there);
                lemma_matched_code(h, t, c, start, start_there);
            },
            Step::AfterBlank => {
                lemma_matched_code(
                    here.blank(here.at),
                    there.blank(there.at),
                    c,
                    start,
                    start_there,
                );
            },
            _ => {},
        }
    }
}

/// A text keeps two readings matched, where what follows it does not lead off the track.
proof fn lemma_matched_fed(
    here: ScanView,
    there: ScanView,
    text: Seq<char>,
    after: ScanView,
    start: int,
    start_there: int,
)
    requires
        here.ordered(here.at),
        there.ordered(there.at),
        here.at >= start,
        here.next_start() >= start,
        here.matched(there, start, start_there),
        after.grown(fed(here, text)),
        after.on_track(start),
    ensures
        fed(here, text).matched(fed(there, text), start, start_there),
    decreases text.len(),
{
    if text.len() > 0 {
        let init = text.drop_last();
        let c = text.last();
        let h = fed(here, init);
        let t = fed(there, init);
        lemma_fed_grows(here, text);
        lemma_on_track(fed(here, text), after, start);
        lemma_fed_grows(here, init);
        lemma_fed_grows(there, init);
        lemma_feed_grows(h, c);
        lemma_grown_twice(h, h.feed(c), after);
        lemma_on_track(h, h.feed(c), start);
        lemma_matched_fed(here, there, init, after, start, start_there);
        lemma_matched_feed(h, t, c, start, start_there);
    }
}

impl ScanView {
    /// Whether a character could make another token of the one that is being read.
    spec fn extended_by(self, c: char) -> bool {
        match self.mode {
            Mode::Word => extends_word(self.word, c),
            Mode::Point => is_digit(c),
            Mode::Slash => c == '/' || c == '*',
            _ => false,
        }
    }
}

/// The first character of a text that is no carriage return, if there is one.
spec fn first_of(text: Seq<char>) -> Option<char>
    decreases text.len(),
{
    if text.len() == 0 {
        None
    } else if text.first() == '\r' {
        first_of(text.drop_first())
    } else {
        Some(text.first())
    }
}

/// A token that starts a statement leads on to that statement.
proof fn lemma_pending(here: ScanView, text: Seq<char>)
    requires
        here.ordered(here.at),
        here.last != Last::Start,
        here.pending() matches Some(kind) && here.begins(kind),
        first_of(text) matches Some(c) ==> !here.extended_by(c),
    ensures
        fed(here, text).flush().start > here.start,
    decreases text.len(),
{
    if text.len() == 0 {
        lemma_token(here, here.pending()->0, here.at);
    } else {
        let c = text.first();
        let h = here.feed(c);
        let rest = text.drop_first();
        lemma_fed_front(here, text);
        lemma_step(here, c);
        lemma_feed_grows(here, c);
        lemma_fed_grows(h, rest);
        lemma_flush_grows(fed(h, rest));
        lemma_grown_twice(h, fed(h, rest), fed(h, rest).flush());
        if c == '\r' {
            lemma_pending(h, rest);
        } else {
            assert(match here.step(c) {
                Step::Stay(mode) => (mode is Quoted || mode is Template || mode is Pattern) && (
                h.pending() matches Some(kind) && here.begins(kind)),
                Step::Token(kind) => here.begins(kind),
                Step::After(kind) => here.begins(kind),
                _ => false,
            }) by {
                reveal(ScanView::step);
            }
            match here.step(c) {
                Step::Stay(mode) => {
                    lemma_pending(h, rest);
                },
                Step::Token(kind) => {
                    lemma_token(here, kind, here.at + 1);
                },
                Step::After(kind) => {
                    lemma_token(here, kind, here.at);
                    lemma_token_ordered(here, kind, here.at);
                    lemma_code_grows(here.token(kind, here.at), c);
                },
                _ => {},
            }
        }
    }
}

/// A semicolon at the end of a script starts no statement, unless the token before it does.
proof fn lemma_closing(there: ScanView)
    requires
        there.ordered(there.at),
        there.last != Last::Start,
        there.pending() matches Some(kind) ==> !there.begins(kind),
    ensures
        there.feed(';').flush().start == there.start,
        there.feed(';').flush().last != Last::Start,
{
    let c = ';';
    if there.mode == Mode::Code {
        lemma_code(there, c);
        lemma_token(ScanView { token_at: there.at, ..there }, Kind::Semicolon, there.at + 1);
    } else {
        lemma_step(there, c);
        assert(match there.step(c) {
            Step::Stay(mode) => there.feed(c).pending() matches Some(kind) ==> !there.begins(kind),
            Step::Token(kind) => !there.begins(kind),
            Step::After(kind) => !there.begins(kind),
            Step::Blank => false,
            Step::AfterBlank => false,
            Step::Break => false,
        }) by {
            reveal(ScanView::step);
        }
        match there.step(c) {
            Step::Stay(mode) => {
                let t = there.feed(c);
                if let Some(kind) = t.pending() {
                    lemma_token(t, kind, t.at);
                }
            },
            Step::Token(kind) => {
                lemma_token(there, kind, there.at + 1);
            },
            Step::After(kind) => {
                let t = there.token(kind, there.at);
                lemma_token(there, kind, there.at);
                lemma_token_ordered(there, kind, there.at);
                lemma_code(t, c);
                lemma_token(ScanView { token_at: t.at, ..t }, Kind::Semicolon, t.at + 1);
            },
            _ => {},
        }
    }
}

/// A part of the last statement of a script starts no statement after an equals sign, with a
/// semicolon after it, where it does not end within a token.
proof fn lemma_moved(
    here: ScanView,
    there: ScanView,
    part: Seq<char>,
    rest: Seq<char>,
    start: int,
    start_there: int,
)
    requires
        here.ordered(here.at),
        there.ordered(there.at),
        here.at >= start,
        here.next_start() >= start,
        here.matched(there, start, start_there),
        fed(fed(here, part), rest).flush().begun_at(start),
        first_of(rest) matches Some(c) ==> !fed(here, part).extended_by(c),
    ensures
        fed(there, part).feed(';').flush().begun_at(start_there),
{
    let read = fed(here, part);
    let after = fed(read, rest);
    let moved = fed(there, part);
    lemma_fed_grows(here, part);
    lemma_fed_grows(read, rest);
    lemma_flush_grows(after);
    lemma_grown_twice(read, after, after.flush());
    lemma_matched_fed(here, there, part, after.flush(), start, start_there);
    lemma_fed_grows(there, part);
    if let Some(kind) = moved.pending() {
        if moved.begins(kind) {
            assert(read.covers(moved));
            assert(read.pending() == moved.pending());
            assert(read.begins(kind));
            lemma_pending(read, rest);
            assert(false);
        }
    }
    lemma_closing(moved);
}

/// Whether what follows a token within `count` characters cannot go on with it: a semicolon, an
/// equals sign or white space, where carriage returns do not count.
pub open spec fn is_cut(rest: Seq<char>, count: int) -> bool
    decreases rest.len(),
{
    ||| rest.len() == 0
    ||| count <= 0
    ||| rest.first() == ';'
    ||| rest.first() == '='
    ||| is_white_space(rest.first()) && (rest.first() != '\r' || is_cut(
        rest.drop_first(),
        count - 1,
    ))
}

/// No token goes on where a statement is cut, or past its end.
proof fn lemma_ends(read: ScanView, rest: Seq<char>, end: int)
    requires
        read.ordered(read.at),
        fed(read, rest).flush().end == end,
        read.mode != Mode::Code ==> read.token_at < end,
        is_cut(rest, end - read.at),
    ensures
        first_of(rest) matches Some(c) ==> !read.extended_by(c),
    decreases rest.len(),
{
    if rest.len() > 0 {
        let c = rest.first();
        lemma_fed_front(read, rest);
        if read.at >= end {
            lemma_past_end(read, rest, end);
        } else if c == '\r' {
            lemma_ends(read.feed(c), rest.drop_first(), end);
        }
    }
}

/// Past the end of the last statement no token goes on.
proof fn lemma_past_end(read: ScanView, rest: Seq<char>, end: int)
    requires
        read.ordered(read.at),
        fed(read, rest).flush().end == end,
        read.at >= end,
        read.mode != Mode::Code ==> read.token_at < end,
    ensures
        first_of(rest) matches Some(c) ==> !read.extended_by(c),
    decreases rest.len(),
{
    if rest.len() > 0 {
        let c = rest.first();
        let next = read.feed(c);
        let more = rest.drop_first();
        lemma_fed_front(read, rest);
        lemma_feed_grows(read, c);
        lemma_fed_grows(next, more);
        lemma_flush_grows(fed(next, more));
        lemma_grown_twice(next, fed(next, more), fed(next, more).flush());
        if c == '\r' {
            lemma_past_end(next, more, end);
        } else if read.extended_by(c) {
            lemma_step(read, c);
            assert(read.step(c) is Stay) by {
                reveal(ScanView::step);
            }
            assert(next.end == read.end);
            assert(false);
        }
    }
}

/// White space before a statement changes nothing but where it has been read to.
proof fn lemma_blanks(here: ScanView, text: Seq<char>, after: ScanView, start: int)
    requires
        here.ordered(here.at),
        here.mode == Mode::Code,
        here.at >= start,
        here.waiting(start),
        forall|i: int| 0 <= i < text.len() ==> is_white_space(#[trigger] text[i]),
        after.grown(fed(here, text)),
        after.on_track(start),
    ensures
        ({
            let h = fed(here, text);
            &&& h.mode == Mode::Code
            &&& h.stack == here.stack
            &&& h.last == here.last
            &&& h.newline == here.newline
            &&& h.waiting(start)
        }),
    decreases text.len(),
{
    if text.len() > 0 {
        let init = text.drop_last();
        let c = text.last();
        let h = fed(here, init);
        assert forall|i: int| 0 <= i < init.len() implies is_white_space(#[trigger] init[i]) by {
            assert(init[i] == text[i]);
        }
        assert(is_white_space(text[text.len() - 1]));
        lemma_fed_grows(here, init);
        lemma_feed_grows(h, c);
        lemma_grown_twice(h, h.feed(c), after);
        lemma_fed_grows(here, text);
        lemma_on_track(h.feed(c), after, start);
        lemma_blanks(here, init, after, start);
        lemma_code(h, c);
    }
}

/// White space after a token changes nothing but the end of the line.
proof fn lemma_gap(here: ScanView, text: Seq<char>)
    requires
        here.ordered(here.at),
        here.mode == Mode::Code,
        forall|i: int| 0 <= i < text.len() ==> is_white_space(#[trigger] text[i]),
    ensures
        ({
            let h = fed(here, text);
            &&& h.mode == Mode::Code
            &&& h.stack == here.stack
            &&& h.last == here.last
            &&& h.plain == here.plain
            &&& h.owes == here.owes
            &&& h.start == here.start
            &&& h.ended == here.ended
        }),
    decreases text.len(),
{
    if text.len() > 0 {
        let init = text.drop_last();
        let c = text.last();
        assert forall|i: int| 0 <= i < init.len() implies is_white_space(#[trigger] init[i]) by {
            assert(init[i] == text[i]);
        }
        assert(is_white_space(text[text.len() - 1]));
        lemma_gap(here, init);
        lemma_code(fed(here, init), c);
    }
}

/// Reading a word.
proof fn lemma_word_fed(from: ScanView, word: Seq<char>)
    requires
        from.mode == Mode::Code,
        word.len() > 0,
        forall|i: int|
            0 <= i < word.len() ==> is_word_char(#[trigger] word[i]) && word[i] != '\n' && word[i]
                != '\r' && !is_blank(word[i]),
    ensures
        fed(from, word) == (ScanView {
            mode: Mode::Word,
            word,
            token_at: from.at,
            at: from.at + word.len(),
            ..from
        }),
    decreases word.len(),
{
    let init = word.drop_last();
    let c = word.last();
    assert(c == word[word.len() - 1]);
    if word.len() == 1 {
        assert(fed(from, init) == from);
        lemma_code(from, c);
        assert(word == seq![c]);
    } else {
        assert forall|i: int| 0 <= i < init.len() implies is_word_char(#[trigger] init[i])
            && init[i] != '\n' && init[i] != '\r' && !is_blank(init[i]) by {
            assert(init[i] == word[i]);
        }
        lemma_word_fed(from, init);
        let h = fed(from, init);
        lemma_step(h, c);
        assert(h.step(c) == Step::Stay(Mode::Word)) by {
            reveal(ScanView::step);
        }
        assert(init.push(c) == word);
    }
}

/// What the words are that start an assignment to the result variable or a declaration.
proof fn lemma_words()
    ensures
        word_class("__result__"@, false) == WordClass::Plain,
        word_class("const"@, false) == WordClass::Leading,
        word_class("let"@, false) == WordClass::Leading,
        word_class("var"@, false) == WordClass::Leading,
        forall|i: int|
            0 <= i < "__result__"@.len() ==> is_word_char(#[trigger] "__result__"@[i])
                && "__result__"@[i] != '\n' && "__result__"@[i] != '\r' && !is_blank(
                "__result__"@[i],
            ),
        forall|i: int|
            0 <= i < "const"@.len() ==> is_word_char(#[trigger] "const"@[i]) && "const"@[i] != '\n'
                && "const"@[i] != '\r' && !is_blank("const"@[i]),
        forall|i: int|
            0 <= i < "let"@.len() ==> is_word_char(#[trigger] "let"@[i]) && "let"@[i] != '\n'
                && "let"@[i] != '\r' && !is_blank("let"@[i]),
        forall|i: int|
            0 <= i < "var"@.len() ==> is_word_char(#[trigger] "var"@[i]) && "var"@[i] != '\n'
                && "var"@[i] != '\r' && !is_blank("var"@[i]),
        "__result__"@.len() == 10,
        "const"@.len() == 5,
        "let"@.len() == 3,
        "var"@.len() == 3,
{
    reveal_strlit("__result__");
    reveal_strlit("const");
    reveal_strlit("let");
    reveal_strlit("var");
    reveal_strlit("import");
    reveal_strlit("export");
    reveal_strlit("if");
    reveal_strlit("for");
    reveal_strlit("while");
    reveal_strlit("with");
    reveal_strlit("await");
    reveal_strlit("else");
    reveal_strlit("do");
    reveal_strlit("return");
    reveal_strlit("throw");
    reveal_strlit("yield");
    reveal_strlit("function");
    reveal_strlit("class");
    reveal_strlit("switch");
    reveal_strlit("try");
    reveal_strlit("catch");
    reveal_strlit("finally");
    reveal_strlit("in");
    reveal_strlit("instanceof");
    reveal_strlit("typeof");
    reveal_strlit("void");
    reveal_strlit("delete");
    reveal_strlit("new");
    reveal_strlit("case");
    assert("__result__"@[0] == '_');
    assert("instanceof"@[0] == 'i');
    assert("const"@[0] == 'c' && "const"@[1] == 'o');
    assert("while"@[0] == 'w' && "await"@[0] == 'a' && "throw"@[0] == 't' && "yield"@[0] == 'y');
    assert("class"@[1] == 'l' && "catch"@[1] == 'a');
    assert("let"@[0] == 'l' && "var"@[0] == 'v');
    assert("for"@[0] == 'f' && "try"@[0] == 't' && "new"@[0] == 'n');
}

/// A word that starts a statement, and a blank after it.
proof fn lemma_first_word(from: ScanView, word: Seq<char>, class: WordClass)
    requires
        from.ordered(from.at),
        from.boundary(),
        word.len() > 0,
        class == WordClass::Plain || class == WordClass::Leading,
        word_class(word, false) == class,
        forall|i: int|
            0 <= i < word.len() ==> is_word_char(#[trigger] word[i]) && word[i] != '\n' && word[i]
                != '\r' && !is_blank(word[i]),
    ensures
        ({
            let h = fed(from, word).feed(' ');
            &&& h.mode == Mode::Code
            &&& h.stack.len() == 0
            &&& h.last == if class == WordClass::Plain {
                Last::Value
            } else {
                Last::Head
            }
            &&& h.plain
            &&& !h.owes
            &&& !h.newline
            &&& h.last_end == from.at + word.len()
            &&& h.start == from.next_start()
            &&& h.at == from.at + word.len() + 1
            &&& h.ordered(h.at)
        }),
{
    let kind = Kind::Word(class);
    lemma_word_fed(from, word);
    let a = fed(from, word);
    lemma_fed_grows(from, word);
    lemma_feed_grows(a, ' ');
    lemma_step(a, ' ');
    assert(a.step(' ') == Step::After(kind)) by {
        reveal(ScanView::step);
    }
    let t = a.token(kind, a.at);
    assert(a.begins(kind));
    assert(t.stack.len() == 0 && t.plain && !t.owes && t.last == word_last(a.last, class)) by {
        reveal(ScanView::token);
    }
    lemma_token(a, kind, a.at);
    lemma_code(t, ' ');
}

/// The start of an assignment to the result variable, where a statement can start.
proof fn lemma_assigning(from: ScanView)
    requires
        from.ordered(from.at),
        from.boundary(),
        from.next_start() == from.at,
    ensures
        ({
            let there = fed(from, "__result__ = "@);
            &&& there.ordered(there.at)
            &&& there.mode == Mode::Code
            &&& there.stack.len() == 0
            &&& there.last == Last::Operator
            &&& there.plain
            &&& !there.owes
            &&& !there.lone
            &&& there.start == from.at
            &&& there.last_end >= from.at + 10
        }),
{
    lemma_words();
    let name = "__result__"@;
    let whole = "__result__ = "@;
    let b = fed(from, name).feed(' ');
    let c = b.feed('=');
    assert(fed(from, whole) == c.feed(' ')) by {
        reveal_strlit("__result__");
        reveal_strlit("__result__ = ");
        assert(whole.drop_last().drop_last().drop_last() == name);
        assert(fed(from, whole.drop_last().drop_last()) == b);
        assert(fed(from, whole.drop_last()) == c);
    }
    lemma_fed_grows(from, whole);
    lemma_first_word(from, name, WordClass::Plain);
    let e = ScanView { token_at: b.at, ..b };
    lemma_code(b, '=');
    lemma_token(e, Kind::Operator, b.at + 1);
    assert(!e.begins(Kind::Operator));
    let t = e.token(Kind::Operator, b.at + 1);
    assert(t.stack.len() == 0 && t.plain && !t.owes && !t.lone && t.last == Last::Operator) by {
        reveal(ScanView::token);
    }
    lemma_code(c, ' ');
}

/// `text` without its carriage returns.
pub open spec fn without_returns(text: Seq<char>) -> Seq<char>
    decreases text.len(),
{
    if text.len() == 0 {
        Seq::empty()
    } else if text.last() == '\r' {
        without_returns(text.drop_last())
    } else {
        without_returns(text.drop_last()).push(text.last())
    }
}

impl ScanView {
    /// Whether two readings differ in their positions only.
    spec fn kin(self, other: ScanView) -> bool {
        &&& self.mode == other.mode
        &&& self.mode == Mode::Word ==> self.word == other.word
        &&& self.stack == other.stack
        &&& self.last == other.last
        &&& self.plain == other.plain
        &&& self.owes == other.owes
        &&& self.lone == other.lone
        &&& self.newline == other.newline
    }
}

/// A token of two readings that differ in their positions only.
proof fn lemma_kin_token(a: ScanView, b: ScanView, kind: Kind, to: int, to_b: int)
    requires
        a.kin(b),
    ensures
        a.begins(kind) == b.begins(kind),
        a.token(kind, to).kin(b.token(kind, to_b)),
{
    reveal(ScanView::token);
}

/// A character of two readings that differ in their positions only.
proof fn lemma_kin_feed(a: ScanView, b: ScanView, c: char)
    requires
        a.kin(b),
        a.ordered(a.at),
        b.ordered(b.at),
    ensures
        a.feed(c).kin(b.feed(c)),
        a.last != Last::Start ==> (a.feed(c).start == a.start <==> b.feed(c).start == b.start),
{
    if c == '\r' {
    } else if a.mode == Mode::Code {
        lemma_kin_code(a, b, c);
    } else {
        lemma_step(a, c);
        lemma_step(b, c);
        assert(a.step(c) == b.step(c)) by {
            reveal(ScanView::step);
        }
        match a.step(c) {
            Step::Token(kind) => {
                lemma_token(a, kind, a.at + 1);
                lemma_token(b, kind, b.at + 1);
                lemma_kin_token(a, b, kind, a.at + 1, b.at + 1);
            },
            Step::After(kind) => {
                lemma_token(a, kind, a.at);
                lemma_token(b, kind, b.at);
                lemma_token_ordered(a, kind, a.at);
                lemma_token_ordered(b, kind, b.at);
                lemma_kin_token(a, b, kind, a.at, b.at);
                lemma_kin_code(a.token(kind, a.at), b.token(kind, b.at), c);
                lemma_code_grows(a.token(kind, a.at), c);
                lemma_code_grows(b.token(kind, b.at), c);
            },
            Step::AfterBlank => {
                lemma_kin_code(a.blank(a.at), b.blank(b.at), c);
            },
            _ => {},
        }
    }
}

/// The first character of a token of two readings that differ in their positions only.
proof fn lemma_kin_code(a: ScanView, b: ScanView, c: char)
    requires
        a.kin(b),
        a.mode == Mode::Code,
        a.ordered(a.at),
        b.ordered(b.at),
    ensures
        a.code(c).kin(b.code(c)),
        a.last != Last::Start ==> (a.code(c).start == a.start <==> b.code(c).start == b.start),
{
    lemma_code(a, c);
    lemma_code(b, c);
    let h = ScanView { token_at: a.at, ..a };
    let t = ScanView { token_at: b.at, ..b };
    if c != '\n' && !is_blank(c) && a.entered(c) is None {
        lemma_token(h, sign(c), a.at + 1);
        lemma_token(t, sign(c), b.at + 1);
        lemma_kin_token(h, t, sign(c), a.at + 1, b.at + 1);
    }
}

/// Carriage returns do not count.
proof fn lemma_without_returns(from: ScanView, text: Seq<char>)
    requires
        from.ordered(from.at),
    ensures
        fed(from, text).kin(fed(from, without_returns(text))),
        from.last != Last::Start ==> (fed(from, text).start == from.start <==> fed(
            from,
            without_returns(text),
        ).start == from.start),
    decreases text.len(),
{
    if text.len() > 0 {
        let init = text.drop_last();
        let c = text.last();
        let a = fed(from, init);
        let b = fed(from, without_returns(init));
        lemma_without_returns(from, init);
        lemma_fed_grows(from, init);
        lemma_fed_grows(from, without_returns(init));
        if c != '\r' {
            lemma_kin_feed(a, b, c);
            lemma_feed_grows(a, c);
            lemma_feed_grows(b, c);
            assert(without_returns(text).drop_last() == without_returns(init));
        }
    }
}

/// Carriage returns do not tell whether one more statement starts.
proof fn lemma_same_statement(from: ScanView, a: Seq<char>, b: Seq<char>)
    requires
        from.ordered(from.at),
        from.last != Last::Start,
        from.start < from.next_start(),
        without_returns(a) == without_returns(b),
        fed(from, a).flush().start == from.start,
    ensures
        fed(from, b).flush().begun_at(from.start),
{
    let one = fed(from, a);
    let other = fed(from, b);
    lemma_without_returns(from, a);
    lemma_without_returns(from, b);
    lemma_fed_grows(from, a);
    lemma_fed_grows(from, b);
    lemma_flush_grows(one);
    lemma_flush_grows(other);
    if let Some(kind) = one.pending() {
        lemma_token(one, kind, one.at);
        lemma_token(other, kind, other.at);
        lemma_kin_token(one, other, kind, one.at, other.at);
    }
}

/// Where a part of the last statement is set as the result, after a place at which a statement can
/// start, that assignment is the last statement.
proof fn lemma_assigned_from(
    text: Seq<char>,
    prefix: Seq<char>,
    part: Seq<char>,
    rest: Seq<char>,
    before: Seq<char>,
    value: Seq<char>,
)
    requires
        text == prefix + part + rest,
        statement_start(text) matches Some(start) && start <= prefix.len() && fed(
            unread(),
            prefix,
        ).next_start() >= start && fed(unread(), prefix).matched(
            fed(fed(unread(), before), "__result__ = "@),
            start,
            before.len() as int,
        ),
        prefix.len() + part.len() <= statement_end(text),
        is_cut(rest, statement_end(text) - prefix.len() - part.len()),
        fed(unread(), before).boundary(),
        fed(unread(), before).next_start() == before.len(),
        without_returns(value) == without_returns(part + seq![';']),
    ensures
        statement_start(before + "__result__ = "@ + value) == Some(before.len() as int),
        statement_end(before + "__result__ = "@ + value) >= before.len() + 10,
{
    let start = statement_start(text)->0;
    let here = fed(unread(), prefix);
    let read = fed(here, part);
    let from = fed(unread(), before);
    let there = fed(from, "__result__ = "@);
    let script = before + "__result__ = "@ + value;
    lemma_fed_ordered(prefix);
    lemma_fed_ordered(before);
    lemma_fed_grows(unread(), prefix);
    lemma_fed_grows(unread(), before);
    lemma_fed_grows(here, part);
    lemma_assigning(from);
    lemma_fed_add(unread(), prefix, part);
    lemma_fed_add(unread(), prefix + part, rest);
    lemma_ends(read, rest, statement_end(text));
    lemma_moved(here, there, part, rest, start, before.len() as int);
    let closed = part + seq![';'];
    assert(closed.drop_last() == part);
    assert(fed(there, closed) == fed(there, part).feed(';'));
    lemma_same_statement(there, closed, value);
    lemma_fed_add(unread(), before, "__result__ = "@);
    lemma_fed_add(unread(), before + "__result__ = "@, value);
    lemma_fed_grows(there, value);
    lemma_flush_grows(fed(there, value));
    law_a_statement_is_within_its_script(script);
}

/// What is read before the last statement, with the white space that it starts with.
proof fn lemma_until_statement(text: Seq<char>, blanks: Seq<char>, rest: Seq<char>)
    requires
        statement_start(text) matches Some(start) && text == text.take(start) + blanks + rest,
        forall|i: int| 0 <= i < blanks.len() ==> is_white_space(#[trigger] blanks[i]),
    ensures
        ({
            let start = statement_start(text)->0;
            let here = fed(unread(), text.take(start) + blanks);
            &&& here.ordered(here.at)
            &&& here.at == start + blanks.len()
            &&& here.boundary()
            &&& here.waiting(start)
        }),
{
    let start = statement_start(text)->0;
    let prefix = text.take(start);
    let begun = fed(unread(), prefix);
    law_a_statement_is_within_its_script(text);
    law_a_statement_starts_where_one_can_start(text);
    lemma_fed_ordered(prefix);
    lemma_fed_grows(unread(), prefix);
    lemma_fed_add(unread(), prefix, blanks);
    lemma_fed_add(unread(), prefix + blanks, rest);
    let here = fed(begun, blanks);
    let after = fed(here, rest);
    lemma_fed_grows(begun, blanks);
    lemma_fed_grows(here, rest);
    lemma_flush_grows(after);
    lemma_grown_twice(here, after, after.flush());
    lemma_grown_twice(begun, here, after.flush());
    lemma_on_track(begun, after.flush(), start);
    lemma_blanks(begun, blanks, after.flush(), start);
}

/// Where the last statement of a script is set as the result, after a place at which a statement
/// can start, that assignment is the last statement.
pub proof fn lemma_expression_assigned(
    text: Seq<char>,
    blanks: Seq<char>,
    expression: Seq<char>,
    rest: Seq<char>,
    before: Seq<char>,
    value: Seq<char>,
)
    requires
        statement_start(text) matches Some(start) && {
            let count = statement_end(text) - start - blanks.len() - expression.len();
            &&& text == text.take(start) + blanks + expression + rest
            &&& count >= 0
            &&& is_cut(rest, count)
        },
        forall|i: int| 0 <= i < blanks.len() ==> is_white_space(#[trigger] blanks[i]),
        fed(unread(), before).boundary(),
        fed(unread(), before).next_start() == before.len(),
        without_returns(value) == without_returns(expression + seq![';']),
    ensures
        statement_start(before + "__result__ = "@ + value) == Some(before.len() as int),
        statement_end(before + "__result__ = "@ + value) >= before.len() + 10,
{
    let start = statement_start(text)->0;
    let prefix = text.take(start) + blanks;
    law_a_statement_is_within_its_script(text);
    assert(text == text.take(start) + blanks + (expression + rest));
    lemma_until_statement(text, blanks, expression + rest);
    lemma_fed_ordered(before);
    lemma_fed_grows(unread(), before);
    lemma_assigning(fed(unread(), before));
    lemma_assigned_from(text, prefix, expression, rest, before, value);
}

/// Where what the last statement of a script declares is set as the result, after a place at which
/// a statement can start, that assignment is the last statement.
pub proof fn lemma_name_assigned(
    text: Seq<char>,
    blanks: Seq<char>,
    keyword: Seq<char>,
    gap: Seq<char>,
    name: Seq<char>,
    rest: Seq<char>,
    before: Seq<char>,
    value: Seq<char>,
)
    requires
        statement_start(text) matches Some(start) && {
            let count = statement_end(text) - start - blanks.len() - keyword.len() - 1 - gap.len()
                - name.len();
            &&& text == text.take(start) + blanks + keyword + seq![' '] + gap + name + rest
            &&& count >= 0
            &&& is_cut(rest, count)
        },
        keyword == "const"@ || keyword == "let"@ || keyword == "var"@,
        forall|i: int| 0 <= i < blanks.len() ==> is_white_space(#[trigger] blanks[i]),
        forall|i: int| 0 <= i < gap.len() ==> is_white_space(#[trigger] gap[i]),
        fed(unread(), before).boundary(),
        fed(unread(), before).next_start() == before.len(),
        without_returns(value) == without_returns(name + seq![';']),
    ensures
        statement_start(before + "__result__ = "@ + value) == Some(before.len() as int),
        statement_end(before + "__result__ = "@ + value) >= before.len() + 10,
{
    let start = statement_start(text)->0;
    let lead = text.take(start) + blanks;
    let head = keyword + seq![' '];
    let prefix = lead + head + gap;
    law_a_statement_is_within_its_script(text);
    assert(text == text.take(start) + blanks + (head + gap + name + rest));
    lemma_until_statement(text, blanks, head + gap + name + rest);
    lemma_words();
    let begun = fed(unread(), lead);
    lemma_first_word(begun, keyword, WordClass::Leading);
    assert(head.drop_last() == keyword);
    let read = fed(begun, head);
    assert(read == fed(begun, keyword).feed(' '));
    lemma_fed_add(unread(), lead, head);
    lemma_fed_add(unread(), lead + head, gap);
    lemma_gap(read, gap);
    lemma_fed_grows(read, gap);
    lemma_fed_ordered(before);
    lemma_fed_grows(unread(), before);
    lemma_assigning(fed(unread(), before));
    assert(prefix + name + rest == text);
    let there = fed(fed(unread(), before), "__result__ = "@);
    assert(fed(read, gap).stack == there.stack);
    lemma_assigned_from(text, prefix, name, rest, before, value);
}

/// A line that ends outside a token and a comment starts a place where a statement can start.
pub proof fn lemma_after_line(text: Seq<char>)
    requires
        fed(unread(), text + seq!['\n']).boundary(),
    ensures
        fed(unread(), text + seq!['\n']).next_start() == text.len() + 1,
{
    let read = fed(unread(), text);
    assert((text + seq!['\n']).drop_last() == text);
    lemma_fed_grows(unread(), text);
    if read.mode == Mode::Code {
        lemma_code(read, '\n');
    } else {
        lemma_step(read, '\n');
        assert(match read.step('\n') {
            Step::Stay(mode) => mode != Mode::Code,
            Step::Token(_) => false,
            Step::Blank => false,
            Step::Break => false,
            _ => true,
        }) by {
            reveal(ScanView::step);
        }
        match read.step('\n') {
            Step::After(kind) => {
                lemma_token(read, kind, read.at);
                lemma_code(read.token(kind, read.at), '\n');
            },
            Step::AfterBlank => {
                lemma_code(read.blank(read.at), '\n');
            },
            _ => {},
        }
    }
}

/// Where a statement can start, one can start on the next line.
pub proof fn lemma_next_line(text: Seq<char>)
    requires
        fed(unread(), text).boundary(),
    ensures
        fed(unread(), text + seq!['\n']).boundary(),
{
    assert((text + seq!['\n']).drop_last() == text);
    lemma_code(fed(unread(), text), '\n');
}

/// Carriage returns do not tell where a statement can start.
pub proof fn lemma_same_place(a: Seq<char>, b: Seq<char>)
    requires
        without_returns(a) == without_returns(b),
    ensures
        fed(unread(), a).boundary() == fed(unread(), b).boundary(),
        fed(unread(), a).mode == fed(unread(), b).mode,
        fed(unread(), a).last == fed(unread(), b).last,
{
    lemma_without_returns(unread(), a);
    lemma_without_returns(unread(), b);
}

/// Reading goes on alike in two readings that differ in their positions only.
proof fn lemma_kin_fed(a: ScanView, b: ScanView, text: Seq<char>)
    requires
        a.kin(b),
        a.ordered(a.at),
        b.ordered(b.at),
    ensures
        fed(a, text).kin(fed(b, text)),
    decreases text.len(),
{
    if text.len() > 0 {
        let init = text.drop_last();
        lemma_kin_fed(a, b, init);
        lemma_fed_grows(a, init);
        lemma_fed_grows(b, init);
        lemma_kin_feed(fed(a, init), fed(b, init), text.last());
    }
}

impl ScanView {
    /// Whether nothing is being read that a blank would change.
    spec fn at_rest(self) -> bool {
        match self.mode {
            Mode::Code => true,
            Mode::Comment { star, .. } => !star,
            Mode::Quoted { escaped, .. } => !escaped,
            Mode::Template { dollar, escaped, .. } => !dollar && !escaped,
            _ => false,
        }
    }
}

/// What can be read at the start of a line.
proof fn lemma_at_line_start(read: ScanView)
    requires
        read.ordered(read.at),
    ensures
        read.feed('\n').at_rest(),
        read.feed('\n').mode is Comment ==> read.mode is Comment && read.feed('\n').last
            == read.last,
{
    if read.mode == Mode::Code {
        lemma_code(read, '\n');
    } else {
        lemma_step(read, '\n');
        assert(match read.step('\n') {
            Step::Stay(mode) => match mode {
                Mode::Comment { star, .. } => !star && read.mode is Comment,
                Mode::Quoted { escaped, .. } => !escaped,
                Mode::Template { dollar, escaped, .. } => !dollar && !escaped,
                _ => false,
            },
            Step::After(_) => true,
            Step::AfterBlank => true,
            _ => false,
        }) by {
            reveal(ScanView::step);
        }
        match read.step('\n') {
            Step::After(kind) => {
                lemma_code(read.token(kind, read.at), '\n');
            },
            Step::AfterBlank => {
                lemma_code(read.blank(read.at), '\n');
            },
            _ => {},
        }
    }
}

/// The end of a line within a comment starts no statement.
pub proof fn lemma_line_in_comment(text: Seq<char>)
    ensures
        fed(unread(), text + seq!['\n']).mode is Comment ==> fed(unread(), text + seq!['\n']).last
            == fed(unread(), text).last,
{
    assert((text + seq!['\n']).drop_last() == text);
    lemma_fed_grows(unread(), text);
    lemma_at_line_start(fed(unread(), text));
}

/// Blanks at the start of a line change nothing but positions.
proof fn lemma_indent(read: ScanView, blanks: Seq<char>)
    requires
        read.ordered(read.at),
        read.at_rest(),
        forall|i: int|
            0 <= i < blanks.len() ==> is_white_space(#[trigger] blanks[i]) && blanks[i] != '\n',
    ensures
        fed(read, blanks).kin(read),
    decreases blanks.len(),
{
    if blanks.len() > 0 {
        let init = blanks.drop_last();
        let c = blanks.last();
        assert(is_white_space(blanks[blanks.len() - 1]) && blanks[blanks.len() - 1] != '\n');
        assert forall|i: int| 0 <= i < init.len() implies is_white_space(#[trigger] init[i])
            && init[i] != '\n' by {
            assert(init[i] == blanks[i]);
        }
        lemma_indent(read, init);
        lemma_fed_grows(read, init);
        let h = fed(read, init);
        if c == '\r' {
        } else if h.mode == Mode::Code {
            lemma_code(h, c);
        } else {
            lemma_step(h, c);
            assert(h.step(c) == Step::Stay(h.mode)) by {
                reveal(ScanView::step);
            }
        }
    }
}

/// A script without a statement starts none, up to any of its lines, nor does it where that line
/// is not indented.
pub proof fn lemma_no_statement(
    before: Seq<char>,
    blanks: Seq<char>,
    line: Seq<char>,
    rest: Seq<char>,
)
    requires
        before.len() > 0 ==> before.last() == '\n',
        forall|i: int|
            0 <= i < blanks.len() ==> is_white_space(#[trigger] blanks[i]) && blanks[i] != '\n',
        statement_start(before + blanks + line + rest) is None,
    ensures
        fed(unread(), before).last == Last::Start,
        fed(unread(), before + line).last == Last::Start,
{
    let text = before + blanks + line + rest;
    let a = fed(unread(), before);
    let b = fed(a, blanks);
    let c = fed(b, line);
    let d = fed(c, rest);
    lemma_fed_add(unread(), before, blanks);
    lemma_fed_add(unread(), before + blanks, line);
    lemma_fed_add(unread(), before + blanks + line, rest);
    lemma_fed_add(unread(), before, line);
    lemma_fed_grows(unread(), before);
    lemma_fed_grows(a, blanks);
    lemma_fed_grows(b, line);
    lemma_fed_grows(c, rest);
    lemma_flush_grows(d);
    if before.len() > 0 {
        lemma_fed_grows(unread(), before.drop_last());
        lemma_at_line_start(fed(unread(), before.drop_last()));
    }
    lemma_indent(a, blanks);
    lemma_kin_fed(b, a, line);
}

/// A string or a template that is being read ends with a token.
proof fn lemma_token_ends(read: ScanView, text: Seq<char>)
    requires
        read.ordered(read.at),
        read.mode is Quoted || read.mode is Template,
    ensures
        fed(read, text).flush().end >= read.at,
    decreases text.len(),
{
    if text.len() > 0 {
        let c = text.first();
        let next = read.feed(c);
        let more = text.drop_first();
        lemma_fed_front(read, text);
        lemma_feed_grows(read, c);
        lemma_fed_grows(next, more);
        lemma_flush_grows(fed(next, more));
        lemma_grown_twice(next, fed(next, more), fed(next, more).flush());
        if c == '\r' {
            lemma_token_ends(next, more);
        } else {
            lemma_step(read, c);
            assert(match read.step(c) {
                Step::Stay(mode) => mode is Quoted || mode is Template,
                Step::Token(_) => true,
                Step::After(_) => true,
                _ => false,
            }) by {
                reveal(ScanView::step);
            }
            match read.step(c) {
                Step::Stay(_) => {
                    lemma_token_ends(next, more);
                },
                Step::Token(kind) => {
                    lemma_token(read, kind, read.at + 1);
                },
                Step::After(kind) => {
                    let after = read.token(kind, read.at);
                    lemma_token(read, kind, read.at);
                    lemma_token_ordered(read, kind, read.at);
                    lemma_code_grows(after, c);
                },
                _ => {},
            }
        }
    } else {
        lemma_token(read, read.pending()->0, read.at);
    }
}

/// A first statement ends after the place up to which there was none.
proof fn lemma_first_statement_ends(read: ScanView, text: Seq<char>)
    requires
        read.ordered(read.at),
        read.last == Last::Start,
        fed(read, text).flush().last != Last::Start,
    ensures
        fed(read, text).flush().end >= read.at,
    decreases text.len(),
{
    if text.len() == 0 {
        if let Some(kind) = read.pending() {
            lemma_token(read, kind, read.at);
        }
    } else {
        let c = text.first();
        let next = read.feed(c);
        let more = text.drop_first();
        lemma_fed_front(read, text);
        lemma_feed_grows(read, c);
        lemma_fed_grows(next, more);
        lemma_flush_grows(fed(next, more));
        lemma_grown_twice(next, fed(next, more), fed(next, more).flush());
        if next.last == Last::Start {
            lemma_first_statement_ends(next, more);
        } else if read.mode == Mode::Code {
            lemma_code(read, c);
            lemma_token(ScanView { token_at: read.at, ..read }, sign(c), read.at + 1);
        } else {
            lemma_step(read, c);
            match read.step(c) {
                Step::Token(kind) => {
                    lemma_token(read, kind, read.at + 1);
                },
                Step::After(kind) => {
                    lemma_token(read, kind, read.at);
                    lemma_token_ordered(read, kind, read.at);
                    lemma_code_grows(read.token(kind, read.at), c);
                },
                Step::AfterBlank => {
                    let after = read.blank(read.at);
                    lemma_code(after, c);
                    lemma_token(ScanView { token_at: read.at, ..after }, sign(c), read.at + 1);
                },
                _ => {},
            }
        }
    }
}

/// Within a string, a template or a comment, the start of an assignment to the result variable
/// changes nothing but positions.
proof fn lemma_assignment_within(read: ScanView, text: Seq<char>)
    requires
        read.ordered(read.at),
        read.at_rest(),
        read.mode != Mode::Code,
        forall|i: int|
            0 <= i < text.len() ==> #[trigger] text[i] == '_' || text[i] == ' ' || text[i] == '='
                || is_word_char(text[i]) && text[i] != '$' && text[i] != '\\' && text[i] != '\n',
    ensures
        fed(read, text).kin(read),
    decreases text.len(),
{
    if text.len() > 0 {
        let init = text.drop_last();
        let c = text.last();
        assert(text[text.len() - 1] == c);
        assert forall|i: int| 0 <= i < init.len() implies #[trigger] init[i] == '_' || init[i]
            == ' ' || init[i] == '=' || is_word_char(init[i]) && init[i] != '$' && init[i] != '\\'
            && init[i] != '\n' by {
            assert(init[i] == text[i]);
        }
        lemma_assignment_within(read, init);
        lemma_fed_grows(read, init);
        let h = fed(read, init);
        lemma_step(h, c);
        assert(c != '\r' ==> h.step(c) == Step::Stay(h.mode)) by {
            reveal(ScanView::step);
        }
    }
}

/// Where an assignment to the result variable starts a line, the last statement goes beyond the
/// name of the variable, unless a comment holds it.
pub proof fn lemma_name_is_read(before: Seq<char>, value: Seq<char>)
    requires
        before.len() > 0 ==> before.last() == '\n',
        fed(unread(), before).mode !is Comment || fed(unread(), before).last == Last::Start,
        statement_start(before + "__result__ = "@ + value) is Some,
    ensures
        statement_end(before + "__result__ = "@ + value) >= before.len() + 10,
{
    let from = fed(unread(), before);
    let head = "__result__ = "@;
    let there = fed(from, head);
    let after = fed(there, value);
    lemma_fed_add(unread(), before, head);
    lemma_fed_add(unread(), before + head, value);
    lemma_fed_grows(unread(), before);
    lemma_fed_grows(from, head);
    lemma_fed_grows(there, value);
    lemma_flush_grows(after);
    lemma_grown_twice(there, after, after.flush());
    assert(from.at_rest()) by {
        if before.len() > 0 {
            lemma_fed_grows(unread(), before.drop_last());
            lemma_at_line_start(fed(unread(), before.drop_last()));
        }
    }
    lemma_words();
    if from.mode == Mode::Code {
        let name = "__result__"@;
        lemma_word_fed(from, name);
        let a = fed(from, name);
        let b = a.feed(' ');
        lemma_fed_grows(from, name);
        lemma_feed_grows(a, ' ');
        lemma_step(a, ' ');
        assert(a.step(' ') is After) by {
            reveal(ScanView::step);
        }
        let kind = a.step(' ')->After_0;
        lemma_token(a, kind, a.at);
        lemma_token_ordered(a, kind, a.at);
        lemma_code_grows(a.token(kind, a.at), ' ');
        assert(b.end >= a.at);
        assert(there == b.feed('=').feed(' ')) by {
            reveal_strlit("__result__");
            reveal_strlit("__result__ = ");
            assert(head.drop_last().drop_last().drop_last() == name);
            assert(fed(from, head.drop_last().drop_last()) == b);
            assert(fed(from, head.drop_last()) == b.feed('='));
        }
        lemma_feed_grows(b, '=');
        lemma_feed_grows(b.feed('='), ' ');
    } else {
        reveal_strlit("__result__ = ");
        lemma_assignment_within(from, head);
        if from.mode is Comment {
            lemma_first_statement_ends(there, value);
        } else {
            lemma_token_ends(there, value);
        }
    }
}

/// Whether the end of a line ends what is being read as the end of the script does: that is no
/// comment, no template, no string that a backslash stands at the end of, and no `!` that would
/// start a statement.
pub open spec fn is_closed(text: Seq<char>) -> bool {
    fed(unread(), text).closes()
}

impl ScanView {
    /// Whether the end of a line ends what is being read as the end of the script does.
    pub open spec fn closes(self) -> bool {
        match self.mode {
            Mode::Bang => self.begins(Kind::Prefix) == self.begins(Kind::Operator),
            Mode::Comment { .. } => false,
            Mode::Quoted { escaped, .. } => !escaped,
            Mode::Template { .. } => false,
            _ => true,
        }
    }

    /// Whether the script, should it end here, ends as one that is known, but for blanks.
    spec fn ends_as(self, known: ScanView) -> bool {
        let end = self.flush();
        &&& self.closes()
        &&& end.last == known.last
        &&& end.start == known.start
        &&& end.newline == known.newline
        &&& known.end <= end.end <= self.at
        &&& known.newline ==> end.end == known.end
    }
}

/// A `!` that starts no statement, or would start one as an operator, is as an operator.
proof fn lemma_bang(read: ScanView)
    requires
        read.begins(Kind::Prefix) == read.begins(Kind::Operator),
    ensures
        read.token(Kind::Prefix, read.at) == read.token(Kind::Operator, read.at),
{
    reveal(ScanView::token);
}

/// A blank does not change how the script ends.
#[verifier::spinoff_prover]
#[verifier::rlimit(60)]
proof fn lemma_blank_ends(read: ScanView, c: char, known: ScanView)
    requires
        read.ordered(read.at),
        read.ends_as(known),
        is_white_space(c),
        c != '\n',
    ensures
        read.feed(c).ends_as(known),
{
    let next = read.feed(c);
    lemma_feed_grows(read, c);
    if let Some(kind) = read.pending() {
        lemma_token(read, kind, read.at);
        lemma_token(next, kind, next.at);
    }
    if c == '\r' {
        if let Some(kind) = read.pending() {
            assert(read.begins(kind) == next.begins(kind));
            lemma_kin_token(read, next, kind, read.at, next.at);
        }
    } else if read.mode == Mode::Code {
        lemma_code(read, c);
    } else {
        lemma_step(read, c);
        assert(match read.step(c) {
            Step::Stay(mode) => mode == Mode::Line && read.mode == Mode::Line
                || next.pending() is Some && next.pending() == read.pending() && next.closes()
                && mode != Mode::Word,
            Step::After(kind) => read.pending() == Some(kind) || (read.mode == Mode::Bang && kind
                == Kind::Prefix),
            _ => false,
        }) by {
            reveal(ScanView::step);
        }
        match read.step(c) {
            Step::Stay(_) => {
                if let Some(kind) = read.pending() {
                    assert(read.begins(kind) == next.begins(kind));
                    reveal(ScanView::token);
                }
            },
            Step::After(kind) => {
                if read.mode == Mode::Bang {
                    lemma_bang(read);
                }
                lemma_code(read.token(kind, read.at), c);
            },
            _ => {},
        }
    }
}

/// Blanks do not change how the script ends.
proof fn lemma_blanks_end(read: ScanView, blanks: Seq<char>, known: ScanView)
    requires
        read.ordered(read.at),
        read.ends_as(known),
        forall|i: int|
            0 <= i < blanks.len() ==> is_white_space(#[trigger] blanks[i]) && blanks[i] != '\n',
    ensures
        fed(read, blanks).ends_as(known),
    decreases blanks.len(),
{
    if blanks.len() > 0 {
        let init = blanks.drop_last();
        let c = blanks.last();
        assert(is_white_space(blanks[blanks.len() - 1]) && blanks[blanks.len() - 1] != '\n');
        assert forall|i: int| 0 <= i < init.len() implies is_white_space(#[trigger] init[i])
            && init[i] != '\n' by {
            assert(init[i] == blanks[i]);
        }
        lemma_blanks_end(read, init, known);
        lemma_fed_grows(read, init);
        lemma_blank_ends(fed(read, init), c, known);
    }
}

/// The end of a line ends what is being read.
proof fn lemma_line_ends(read: ScanView, known: ScanView)
    requires
        read.ordered(read.at),
        read.ends_as(known),
    ensures
        ({
            let next = read.feed('\n');
            &&& next.mode == Mode::Code
            &&& next.newline
            &&& next.last == known.last
            &&& next.start == known.start
            &&& known.end <= next.end <= read.at
            &&& known.newline ==> next.end == known.end
        }),
{
    let c = '\n';
    if read.mode == Mode::Code {
        lemma_code(read, c);
    } else {
        lemma_step(read, c);
        assert(match read.step(c) {
            Step::After(kind) => read.pending() == Some(kind) || (read.mode == Mode::Bang && kind
                == Kind::Prefix),
            Step::AfterBlank => read.mode == Mode::Line,
            _ => false,
        }) by {
            reveal(ScanView::step);
        }
        match read.step(c) {
            Step::After(kind) => {
                if read.mode == Mode::Bang {
                    lemma_bang(read);
                }
                lemma_code(read.token(kind, read.at), c);
            },
            Step::AfterBlank => {
                lemma_code(read.blank(read.at), c);
            },
            _ => {},
        }
    }
}

/// White space after the end of a line leaves the last statement as it is.
proof fn lemma_white_lines(read: ScanView, blanks: Seq<char>)
    requires
        read.mode == Mode::Code,
        read.newline,
        forall|i: int| 0 <= i < blanks.len() ==> is_white_space(#[trigger] blanks[i]),
    ensures
        ({
            let next = fed(read, blanks);
            &&& next.mode == Mode::Code
            &&& next.newline
            &&& next.last == read.last
            &&& next.start == read.start
            &&& next.end == read.end
        }),
    decreases blanks.len(),
{
    if blanks.len() > 0 {
        let init = blanks.drop_last();
        assert(is_white_space(blanks[blanks.len() - 1]));
        assert forall|i: int| 0 <= i < init.len() implies is_white_space(#[trigger] init[i]) by {
            assert(init[i] == blanks[i]);
        }
        lemma_white_lines(read, init);
        lemma_code(fed(read, init), blanks.last());
    }
}

/// A line comment goes on to the end of its line.
proof fn lemma_line_comment(read: ScanView, comment: Seq<char>)
    requires
        read.mode == Mode::Line,
        forall|i: int| 0 <= i < comment.len() ==> #[trigger] comment[i] != '\n',
    ensures
        fed(read, comment) == (ScanView { at: read.at + comment.len(), ..read }),
    decreases comment.len(),
{
    if comment.len() > 0 {
        let init = comment.drop_last();
        let c = comment.last();
        assert(comment[comment.len() - 1] != '\n');
        assert forall|i: int| 0 <= i < init.len() implies #[trigger] init[i] != '\n' by {
            assert(init[i] == comment[i]);
        }
        lemma_line_comment(read, init);
        lemma_step(fed(read, init), c);
        assert(fed(read, init).step(c) == Step::Stay(Mode::Line) || c == '\r') by {
            reveal(ScanView::step);
        }
    }
}

/// What a script ends with, where no line has ended, goes up to its end.
proof fn lemma_ends_here(read: ScanView, c: char)
    requires
        read.ordered(read.at),
        c != '\r',
        read.feed(c).mode == Mode::Code,
        !read.feed(c).newline,
    ensures
        read.feed(c).end == read.at + 1,
{
    if read.mode == Mode::Code {
        lemma_code(read, c);
        lemma_token(ScanView { token_at: read.at, ..read }, sign(c), read.at + 1);
    } else {
        lemma_step(read, c);
        assert(read.step(c) matches Step::Stay(mode) ==> mode != Mode::Code) by {
            reveal(ScanView::step);
        }
        match read.step(c) {
            Step::Token(kind) => {
                lemma_token(read, kind, read.at + 1);
            },
            Step::After(kind) => {
                let after = read.token(kind, read.at);
                lemma_token(read, kind, read.at);
                lemma_token_ordered(read, kind, read.at);
                lemma_code(after, c);
                lemma_token(ScanView { token_at: read.at, ..after }, sign(c), read.at + 1);
            },
            Step::AfterBlank => {
                let after = read.blank(read.at);
                lemma_code(after, c);
                lemma_token(ScanView { token_at: read.at, ..after }, sign(c), read.at + 1);
            },
            _ => {},
        }
    }
}

/// A comment on a line of its own, after a script, leaves its last statement as it is, but for
/// blanks at the end of its line.
#[verifier::spinoff_prover]
#[verifier::rlimit(60)]
pub proof fn lemma_comment_after(
    text: Seq<char>,
    blanks: Seq<char>,
    lines: Seq<char>,
    comment: Seq<char>,
)
    requires
        text.len() > 0,
        text.last() != '\r',
        is_closed(text),
        forall|i: int|
            0 <= i < blanks.len() ==> is_white_space(#[trigger] blanks[i]) && blanks[i] != '\n',
        forall|i: int| 0 <= i < lines.len() ==> is_white_space(#[trigger] lines[i]),
        forall|i: int| 0 <= i < comment.len() ==> #[trigger] comment[i] != '\n',
    ensures
        ({
            let all = text + blanks + seq!['\n'] + lines + "//"@ + comment;
            &&& statement_start(all) == statement_start(text)
            &&& statement_end(text) <= statement_end(all) <= text.len() + blanks.len()
            &&& statement_end(text) < statement_end(all) ==> statement_end(text) == text.len()
        }),
{
    reveal_strlit("//");
    let all = text + blanks + seq!['\n'] + lines + "//"@ + comment;
    let a = fed(unread(), text);
    let known = a.flush();
    let b = fed(a, blanks);
    let c = b.feed('\n');
    let d = fed(c, lines);
    let e = d.feed('/').feed('/');
    lemma_fed_grows(unread(), text);
    lemma_flush_grows(a);
    lemma_blanks_end(a, blanks, known);
    lemma_fed_grows(a, blanks);
    lemma_line_ends(b, known);
    lemma_white_lines(c, lines);
    lemma_code(d, '/');
    lemma_step(d.feed('/'), '/');
    assert(d.feed('/').step('/') == Step::Stay(Mode::Line)) by {
        reveal(ScanView::step);
    }
    lemma_line_comment(e, comment);
    lemma_fed_add(unread(), text, blanks);
    let broken = text + blanks + seq!['\n'];
    assert(broken.drop_last() == text + blanks);
    assert(fed(unread(), broken) == c);
    lemma_fed_add(unread(), broken, lines);
    let slashes = broken + lines + "//"@;
    assert(slashes.drop_last().drop_last() == broken + lines);
    assert(fed(unread(), slashes.drop_last()) == d.feed('/'));
    assert(fed(unread(), slashes) == e);
    lemma_fed_add(unread(), slashes, comment);
    assert(scan(all) == fed(e, comment).flush());
    if !known.newline {
        if a.mode == Mode::Code {
            let init = text.drop_last();
            lemma_fed_grows(unread(), init);
            lemma_ends_here(fed(unread(), init), text.last());
        } else if let Some(kind) = a.pending() {
            lemma_token(a, kind, a.at);
        }
    }
}

/// A piece of the text of a script.
pub ghost enum Piece {
    /// A space or a tab.
    Blank(char),
    /// A name, a number or a reserved word.
    Word(Seq<char>),
    /// A string between two quotes.
    Quoted { quote: char, text: Seq<char> },
    /// A template, or the part of one from a hole on, or up to one.
    Template { resumes: bool, text: Seq<char>, opens: bool },
    /// A regular expression, between its slashes.
    Pattern(Seq<char>),
    /// A comment between marks.
    Comment(Seq<char>),
    /// A sign of one character.
    Sign(char),
    /// The sign of a division, and the space behind it.
    Division,
    /// The end of a line, white space, and the sign that goes on with the line before.
    Continued { white: Seq<char>, sign: char },
    /// The end of a line, white space, and the word that goes on with the line before.
    Joined { white: Seq<char>, word: Seq<char> },
    /// The sign that stands before a word, and the word.
    Prefixed { signs: Seq<char>, word: Seq<char> },
    /// The sign of a step up or down, behind a value.
    Step(char),
    /// An opening bracket.
    Open(char),
    /// A closing bracket.
    Close(char),
    /// The end of a line.
    Feed,
}

/// Whether `c` is a letter, a digit, an underscore or a dollar sign.
pub open spec fn is_name_char(c: char) -> bool {
    'a' <= c <= 'z' || 'A' <= c <= 'Z' || '0' <= c <= '9' || c == '_' || c == '$'
}

/// Whether a text can stand between two quotes: it holds neither the quote nor a line feed, but
/// after a backslash.
pub open spec fn fits_quotes(text: Seq<char>, quote: char) -> bool
    decreases text.len(),
{
    if text.len() == 0 {
        true
    } else if text[0] == '\\' {
        text.len() > 1 && text[1] != '\r' && fits_quotes(text.skip(2), quote)
    } else {
        text[0] != quote && text[0] != '\n' && text[0] != '\r' && fits_quotes(
            text.drop_first(),
            quote,
        )
    }
}

/// Whether a text can stand in a template: it holds neither a backquote nor the start of a hole,
/// but after a backslash; `dollar` tells whether a dollar sign stands before it.
pub open spec fn fits_template(text: Seq<char>, dollar: bool) -> bool
    decreases text.len(),
{
    if text.len() == 0 {
        true
    } else if text[0] == '\\' {
        text.len() > 1 && text[1] != '\r' && fits_template(text.skip(2), false)
    } else {
        text[0] != '`' && !(dollar && text[0] == '{') && text[0] != '\r' && fits_template(
            text.drop_first(),
            text[0] == '$',
        )
    }
}

/// Whether a text can stand in a regular expression: it holds neither a slash, but in a class, nor
/// ends within one, but after a backslash, and no line feed; `class` tells whether it starts in
/// one.
pub open spec fn fits_pattern(text: Seq<char>, class: bool) -> bool
    decreases text.len(),
{
    if text.len() == 0 {
        !class
    } else if text[0] == '\\' {
        text.len() > 1 && text[1] != '\r' && text[1] != '\n' && fits_pattern(text.skip(2), class)
    } else {
        (class || text[0] != '/') && text[0] != '\n' && text[0] != '\r' && fits_pattern(
            text.drop_first(),
            text[0] == '[' || (class && text[0] != ']'),
        )
    }
}

/// Whether a text can stand in a comment between marks: it does not hold the end mark.
pub open spec fn fits_comment(text: Seq<char>) -> bool {
    &&& forall|i: int, j: int|
        #![trigger text[i], text[j]]
        0 <= i < j < text.len() && j == i + 1 ==> !(text[i] == '*' && text[j] == '/')
    &&& forall|i: int| 0 <= i < text.len() ==> #[trigger] text[i] != '\r'
}

impl Piece {
    /// The text of the piece.
    pub open spec fn text(self) -> Seq<char> {
        match self {
            Piece::Blank(c) => seq![c],
            Piece::Word(word) => word,
            Piece::Quoted { quote, text } => seq![quote] + text + seq![quote],
            Piece::Template { resumes, text, opens } => seq![
                if resumes {
                    '}'
                } else {
                    '`'
                },
            ] + text + (if opens {
                seq!['$', '{']
            } else {
                seq!['`']
            }),
            Piece::Pattern(text) => seq!['/'] + text + seq!['/'],
            Piece::Comment(text) => seq!['/', '*'] + text + seq!['*', '/'],
            Piece::Sign(c) => seq![c],
            Piece::Division => seq!['/', ' '],
            Piece::Continued { white, sign } => seq!['\n'] + white + seq![sign],
            Piece::Joined { white, word } => seq!['\n'] + white + word,
            Piece::Prefixed { signs, word } => signs + word,
            Piece::Step(c) => seq![c, c],
            Piece::Open(c) => seq![c],
            Piece::Close(c) => seq![c],
            Piece::Feed => seq!['\n'],
        }
    }

    /// Whether the piece is what it says.
    pub open spec fn is_sound(self) -> bool {
        match self {
            Piece::Blank(c) => c == ' ' || c == '\t',
            Piece::Word(word) => word.len() > 0 && forall|i: int|
                0 <= i < word.len() ==> is_name_char(#[trigger] word[i]),
            Piece::Quoted { quote, text } => (quote == '"' || quote == '\'') && fits_quotes(
                text,
                quote,
            ),
            Piece::Template { text, .. } => fits_template(text, false),
            Piece::Pattern(text) => text.len() > 0 && text[0] != '*' && fits_pattern(text, false),
            Piece::Comment(text) => fits_comment(text),
            Piece::Sign(c) => {
                ||| c == '=' || c == '<' || c == '>' || c == '&' || c == '|' || c == '*'
                ||| c == '%' || c == '^' || c == '?' || c == ':' || c == ',' || c == '~'
                ||| c == '.' || c == '+' || c == '-' || c == '!' || c == ';'
            },
            Piece::Division => true,
            Piece::Continued { white, sign } => {
                &&& forall|i: int|
                    0 <= i < white.len() ==> #[trigger] white[i] == ' ' || white[i] == '\t'
                        || white[i] == '\n'
                &&& {
                    ||| sign == '=' || sign == '<' || sign == '>' || sign == '&' || sign == '|'
                    ||| sign == '*' || sign == '%' || sign == '^' || sign == '?' || sign == ':'
                    ||| sign == '.' || sign == '+' || sign == '-'
                }
            },
            Piece::Joined { white, word } => {
                &&& forall|i: int|
                    0 <= i < white.len() ==> #[trigger] white[i] == ' ' || white[i] == '\t'
                        || white[i] == '\n'
                &&& word == "in"@ || word == "instanceof"@
            },
            Piece::Prefixed { signs, word } => {
                &&& {
                    ||| signs == seq!['!'] || signs == seq!['~']
                    ||| signs == seq!['+', '+'] || signs == seq!['-', '-']
                }
                &&& word.len() > 0
                &&& forall|i: int| 0 <= i < word.len() ==> is_name_char(#[trigger] word[i])
                &&& is_ordinary(word)
            },
            Piece::Step(c) => c == '+' || c == '-',
            Piece::Open(c) => c == '(' || c == '[' || c == '{',
            Piece::Close(c) => c == ')' || c == ']' || c == '}',
            Piece::Feed => true,
        }
    }
}

/// The text of some pieces, one after another.
pub open spec fn pieces_text(pieces: Seq<Piece>) -> Seq<char>
    decreases pieces.len(),
{
    if pieces.len() == 0 {
        Seq::empty()
    } else {
        pieces_text(pieces.drop_last()) + pieces.last().text()
    }
}

/// The brackets that some pieces leave open: whether each is a hole of a template.
pub open spec fn open_brackets(pieces: Seq<Piece>) -> Seq<bool>
    decreases pieces.len(),
{
    if pieces.len() == 0 {
        Seq::empty()
    } else {
        let before = open_brackets(pieces.drop_last());
        match pieces.last() {
            Piece::Open(_) => before.push(false),
            Piece::Close(_) => before.drop_last(),
            Piece::Template { resumes, opens, .. } => {
                let outer = if resumes {
                    before.drop_last()
                } else {
                    before
                };
                if opens {
                    outer.push(true)
                } else {
                    outer
                }
            },
            _ => before,
        }
    }
}

/// What comes next after some pieces.
pub ghost enum Next {
    /// An operand.
    Operand,
    /// An operand, be it on the next line.
    Sign,
    /// Anything but an operand: a value stands there.
    Value,
    /// Anything but an operand, or a statement: a bracket was closed.
    Closed,
    /// It is open.
    Unknown,
}

/// What comes next after some pieces.
pub open spec fn next_of(pieces: Seq<Piece>) -> Next
    decreases pieces.len(),
{
    if pieces.len() == 0 {
        Next::Unknown
    } else {
        let before = next_of(pieces.drop_last());
        match pieces.last() {
            Piece::Blank(_) => before,
            Piece::Comment(text) => if before == Next::Operand || before == Next::Sign || (forall|
                i: int,
            |
                0 <= i < text.len() ==> #[trigger] text[i] != '\n') {
                before
            } else {
                Next::Unknown
            },
            Piece::Feed => if before == Next::Operand || before == Next::Sign {
                before
            } else {
                Next::Unknown
            },
            Piece::Word(word) => if is_ordinary(word) {
                Next::Value
            } else {
                Next::Unknown
            },
            Piece::Quoted { .. } => Next::Value,
            Piece::Pattern(_) => Next::Value,
            Piece::Template { opens, .. } => if opens {
                Next::Sign
            } else {
                Next::Value
            },
            Piece::Sign(c) => if c == ',' || c == ':' {
                Next::Operand
            } else {
                Next::Sign
            },
            Piece::Continued { sign, .. } => if sign == ':' {
                Next::Operand
            } else {
                Next::Sign
            },
            Piece::Joined { .. } => Next::Sign,
            Piece::Prefixed { .. } => Next::Value,
            Piece::Step(_) => Next::Value,
            Piece::Division => Next::Sign,
            Piece::Open(_) => Next::Sign,
            Piece::Close(_) => Next::Closed,
        }
    }
}

/// Whether a piece can follow others in one statement: closing brackets close what is open,
/// semicolons stand within brackets, and so do line ends, but after a sign, or before a sign or a
/// word that goes on with a statement of ordinary words; a regular expression stands where an
/// operand does; and no two pieces run into one.
pub open spec fn can_follow(before: Seq<Piece>, piece: Piece) -> bool {
    let open = open_brackets(before);
    &&& match piece {
        Piece::Close(_) => open.len() > 0 && !open.last(),
        Piece::Template { resumes, .. } => resumes ==> open.len() > 0 && open.last(),
        Piece::Pattern(_) => before.len() == 0 || next_of(before) == Next::Operand || next_of(
            before,
        ) == Next::Sign,
        Piece::Comment(text) => open.len() > 0 || next_of(before) == Next::Sign || forall|i: int|
            0 <= i < text.len() ==> #[trigger] text[i] != '\n',
        Piece::Sign(c) => c == ';' ==> open.len() > 0,
        Piece::Feed => open.len() > 0 || next_of(before) == Next::Sign,
        Piece::Division => next_of(before) == Next::Value,
        Piece::Continued { sign, .. } => is_calm(before) && (next_of(before) == Next::Value || (
        next_of(before) == Next::Closed && sign != '+' && sign != '-')),
        Piece::Joined { .. } => is_calm(before) && (next_of(before) == Next::Value || next_of(
            before,
        ) == Next::Closed),
        Piece::Prefixed { .. } => before.len() == 0,
        Piece::Step(_) => next_of(before) == Next::Value || next_of(before) == Next::Closed,
        _ => true,
    }
    &&& before.len() > 0 ==> match (before.last(), piece) {
        (Piece::Word(_), Piece::Word(_)) => false,
        (Piece::Word(word), Piece::Sign(c)) => c == '.' ==> !('0' <= word[0] <= '9'),
        (Piece::Joined { .. }, Piece::Word(_)) => false,
        (Piece::Prefixed { .. }, Piece::Word(_)) => false,
        (Piece::Prefixed { word, .. }, Piece::Sign(c)) => c == '.' ==> !('0' <= word[0] <= '9'),
        (Piece::Sign(c), Piece::Word(word)) => c == '.' ==> !('0' <= word[0] <= '9'),
        (Piece::Continued { sign, .. }, Piece::Word(word)) => sign == '.' ==> !('0' <= word[0]
            <= '9'),
        (Piece::Continued { sign, .. }, Piece::Sign(d)) => sign != d || (sign != '+' && sign
            != '-'),
        (Piece::Sign(c), Piece::Sign(d)) => c != d || (c != '+' && c != '-'),
        _ => true,
    }
}

/// Whether some pieces can be one statement, whatever stands in its strings, templates, regular
/// expressions and comments: each is what it says and can follow those before it, and the first
/// starts the statement.
pub open spec fn is_statement(pieces: Seq<Piece>) -> bool {
    &&& pieces.len() > 0
    &&& match pieces[0] {
        Piece::Word(word) => word != "else"@,
        Piece::Quoted { .. } => true,
        Piece::Template { resumes, .. } => !resumes,
        Piece::Pattern(_) => true,
        Piece::Prefixed { .. } => true,
        Piece::Open(_) => true,
        _ => false,
    }
    &&& forall|i: int|
        0 <= i < pieces.len() ==> (#[trigger] pieces[i]).is_sound() && can_follow(
            pieces.take(i),
            pieces[i],
        )
}

/// Whether a word means nothing to the statement that it stands in.
pub open spec fn is_ordinary(word: Seq<char>) -> bool {
    &&& word != "import"@ && word != "export"@ && word != "if"@ && word != "for"@
    &&& word != "while"@ && word != "with"@ && word != "await"@ && word != "else"@
    &&& word != "do"@ && word != "return"@ && word != "throw"@ && word != "yield"@
    &&& word != "const"@ && word != "let"@ && word != "var"@ && word != "function"@
    &&& word != "class"@ && word != "switch"@ && word != "try"@ && word != "catch"@
    &&& word != "finally"@ && word != "in"@ && word != "instanceof"@ && word != "typeof"@
    &&& word != "void"@ && word != "delete"@ && word != "new"@ && word != "case"@
}

/// Whether no word among some pieces means anything to their statement.
pub open spec fn is_calm(pieces: Seq<Piece>) -> bool {
    forall|i: int|
        0 <= i < pieces.len() ==> (#[trigger] pieces[i] matches Piece::Word(word) ==> is_ordinary(
            word,
        ))
}

impl ScanView {
    /// Whether a statement that starts at `start` is being read, with these brackets open.
    spec fn is_placed(
        self,
        open: Seq<bool>,
        start: int,
        ended: bool,
        calm: bool,
        next: Next,
    ) -> bool {
        &&& self.stack.len() == open.len()
        &&& forall|i: int|
            0 <= i < open.len() ==> (#[trigger] self.stack[i] == Bracket::Hole <==> open[i])
        &&& self.start == start
        &&& self.ended == ended
        &&& self.last != Last::Start
        &&& open.len() == 0 ==> self.last != Last::Semicolon && (self.newline ==> self.last
            == Last::Operator || self.last == Last::Dot)
        &&& calm ==> self.plain && !self.owes && self.last != Last::Control && (forall|i: int|
            0 <= i < open.len() ==> #[trigger] self.stack[i] != Bracket::Control)
        &&& calm && next == Next::Closed ==> self.last != Last::Head
        &&& match next {
            Next::Operand => self.operand(),
            Next::Sign => self.last == Last::Operator || self.last == Last::Dot,
            Next::Value => self.last == Last::Value && !self.newline,
            Next::Closed => !self.newline && (self.last == Last::Value || self.last == Last::Brace
                || self.last == Last::Head),
            Next::Unknown => true,
        }
    }

    /// Whether the statement before has ended, so that one starts with this token.
    spec fn is_ready(self, kind: Kind, start: int, ended: bool) -> bool {
        &&& self.begin(kind).ended == ended
        &&& self.stack.len() == 0
        &&& self.begins(kind)
        &&& self.next_start() == start
    }

    /// Whether a statement that starts at `start` is being read, be it within a token.
    spec fn is_within(
        self,
        open: Seq<bool>,
        start: int,
        ended: bool,
        calm: bool,
        next: Next,
    ) -> bool {
        &&& self.ordered(self.at)
        &&& match self.mode {
            Mode::Code => self.is_placed(open, start, ended, calm, next),
            Mode::Word => forall|called: bool|
                (#[trigger] self.token(
                    Kind::Word(word_class(self.word, called)),
                    self.at,
                )).is_placed(open, start, ended, calm, next),
            Mode::Point => self.token(Kind::Dot, self.at).is_placed(open, start, ended, calm, next),
            Mode::Twice(_) => self.token(Kind::Sign, self.at).is_placed(
                open,
                start,
                ended,
                calm,
                next,
            ),
            Mode::Bang => {
                &&& self.token(Kind::Prefix, self.at).is_placed(open, start, ended, calm, next)
                &&& self.token(Kind::Operator, self.at).is_placed(open, start, ended, calm, next)
            },
            _ => false,
        }
    }
}

/// Whether a token opens and closes nothing, and ends no statement.
spec fn is_simple(kind: Kind) -> bool {
    match kind {
        Kind::Semicolon => false,
        Kind::OpenRound => false,
        Kind::OpenSquare => false,
        Kind::OpenBrace => false,
        Kind::Close => false,
        Kind::Template { .. } => false,
        _ => true,
    }
}

/// What comes next after a token that opens and closes nothing.
spec fn next_after(kind: Kind) -> Next {
    match kind {
        Kind::Comma => Next::Operand,
        Kind::Colon => Next::Operand,
        Kind::Dot => Next::Sign,
        Kind::Sign => Next::Sign,
        Kind::Prefix => Next::Sign,
        Kind::Operator => Next::Sign,
        Kind::Text => Next::Value,
        Kind::Step => Next::Value,
        Kind::Word(class) => if class == WordClass::Plain {
            Next::Value
        } else {
            Next::Unknown
        },
        _ => Next::Unknown,
    }
}

/// A token that opens and closes nothing goes on with its statement, or starts it.
proof fn lemma_simple_token(
    read: ScanView,
    kind: Kind,
    to: int,
    open: Seq<bool>,
    start: int,
    ended: bool,
    calm: bool,
    before: Next,
)
    requires
        read.is_placed(open, start, ended, calm, before) || (open.len() == 0 && read.is_ready(
            kind,
            start,
            ended,
        )),
        is_simple(kind),
        calm ==> (kind matches Kind::Word(class) ==> class == WordClass::Plain),
    ensures
        read.token(kind, to).is_placed(open, start, ended, calm, next_after(kind)),
{
    reveal(ScanView::token);
}

/// A semicolon within brackets goes on with its statement.
proof fn lemma_inner_semicolon(
    read: ScanView,
    to: int,
    open: Seq<bool>,
    start: int,
    ended: bool,
    calm: bool,
    before: Next,
)
    requires
        read.is_placed(open, start, ended, calm, before),
        open.len() > 0,
    ensures
        read.token(Kind::Semicolon, to).is_placed(open, start, ended, calm, Next::Sign),
{
    reveal(ScanView::token);
}

/// An opening bracket goes on with its statement, or starts it.
proof fn lemma_open_token(
    read: ScanView,
    kind: Kind,
    to: int,
    open: Seq<bool>,
    start: int,
    ended: bool,
    calm: bool,
    before: Next,
)
    requires
        read.is_placed(open, start, ended, calm, before) || (open.len() == 0 && read.is_ready(
            kind,
            start,
            ended,
        )),
        kind == Kind::OpenRound || kind == Kind::OpenSquare || kind == Kind::OpenBrace,
    ensures
        read.token(kind, to).is_placed(open.push(false), start, ended, calm, Next::Sign),
{
    reveal(ScanView::token);
    let after = read.token(kind, to);
    assert forall|i: int| 0 <= i < open.push(false).len() implies (#[trigger] after.stack[i]
        == Bracket::Hole <==> open.push(false)[i]) by {
        if i < open.len() {
            assert(after.stack[i] == read.stack[i]);
        }
    }
}

/// A closing bracket goes on with its statement.
proof fn lemma_close_token(
    read: ScanView,
    to: int,
    open: Seq<bool>,
    start: int,
    ended: bool,
    calm: bool,
    before: Next,
)
    requires
        read.is_placed(open, start, ended, calm, before),
        open.len() > 0,
    ensures
        read.token(Kind::Close, to).is_placed(open.drop_last(), start, ended, calm, Next::Closed),
{
    reveal(ScanView::token);
    let after = read.token(Kind::Close, to);
    assert forall|i: int| 0 <= i < open.drop_last().len() implies (#[trigger] after.stack[i]
        == Bracket::Hole <==> open.drop_last()[i]) by {
        assert(after.stack[i] == read.stack[i]);
    }
}

/// A part of a template goes on with its statement, or starts it.
proof fn lemma_template_token(
    read: ScanView,
    resumes: bool,
    opens: bool,
    to: int,
    open: Seq<bool>,
    start: int,
    ended: bool,
    calm: bool,
    before: Next,
)
    requires
        read.is_placed(open, start, ended, calm, before) || (open.len() == 0 && read.is_ready(
            (Kind::Template { resumes, opens }),
            start,
            ended,
        )),
        resumes ==> open.len() > 0,
    ensures
        ({
            let outer = if resumes {
                open.drop_last()
            } else {
                open
            };
            read.token(Kind::Template { resumes, opens }, to).is_placed(
                if opens {
                    outer.push(true)
                } else {
                    outer
                },
                start,
                ended,
                calm,
                if opens {
                    Next::Sign
                } else {
                    Next::Value
                },
            )
        }),
{
    reveal(ScanView::token);
    let after = read.token(Kind::Template { resumes, opens }, to);
    let outer = if resumes {
        open.drop_last()
    } else {
        open
    };
    let all = if opens {
        outer.push(true)
    } else {
        outer
    };
    assert forall|i: int| 0 <= i < all.len() implies (#[trigger] after.stack[i] == Bracket::Hole
        <==> all[i]) by {
        if i < outer.len() {
            assert(after.stack[i] == read.stack[i]);
        }
    }
}

/// A string goes on up to its quote, whatever stands in it.
proof fn lemma_quoted_fed(read: ScanView, quote: char, text: Seq<char>)
    requires
        read.mode == (Mode::Quoted { quote, escaped: false }),
        quote == '"' || quote == '\'',
        fits_quotes(text, quote),
    ensures
        fed(read, text) == (ScanView { at: read.at + text.len(), ..read }),
    decreases text.len(),
{
    if text.len() > 0 {
        let c = text[0];
        let next = read.feed(c);
        lemma_fed_front(read, text);
        lemma_step(read, c);
        if c == '\\' {
            let d = text[1];
            let more = text.drop_first();
            assert(read.step(c) == Step::Stay(Mode::Quoted { quote, escaped: true })) by {
                reveal(ScanView::step);
            }
            lemma_fed_front(next, more);
            lemma_step(next, d);
            assert(next.step(d) == Step::Stay(Mode::Quoted { quote, escaped: false })) by {
                reveal(ScanView::step);
            }
            assert(more.drop_first() == text.skip(2));
            lemma_quoted_fed(next.feed(d), quote, text.skip(2));
        } else {
            assert(read.step(c) == Step::Stay(Mode::Quoted { quote, escaped: false })) by {
                reveal(ScanView::step);
            }
            lemma_quoted_fed(next, quote, text.drop_first());
        }
    }
}

/// A string is one token, which ends at the quote that started it, whatever stands in it.
pub proof fn law_a_string_is_one_token(read: ScanView, quote: char, text: Seq<char>)
    requires
        read.mode == Mode::Code,
        quote == '"' || quote == '\'',
        fits_quotes(text, quote),
    ensures
        ({
            let after = fed(read, seq![quote] + text + seq![quote]);
            let before = ScanView { token_at: read.at, at: read.at + text.len() + 2, ..read };
            after == before.token(Kind::Text, read.at + text.len() + 2)
        }),
        fed(read, seq![quote] + text + seq![quote]).stack == read.stack,
        fed(read, seq![quote] + text + seq![quote]).mode == Mode::Code,
{
    let one = seq![quote];
    lemma_code(read, quote);
    lemma_fed_front(read, one);
    assert(one.drop_first() == Seq::<char>::empty());
    let opened = read.feed(quote);
    assert(fed(read, one) == opened);
    lemma_fed_add(read, one, text);
    lemma_fed_add(read, one + text, one);
    lemma_quoted_fed(opened, quote, text);
    let within = fed(opened, text);
    lemma_fed_front(within, one);
    lemma_step(within, quote);
    assert(within.step(quote) == Step::Token(Kind::Text)) by {
        reveal(ScanView::step);
    }
    reveal(ScanView::token);
}

/// A template goes on up to its backquote or its next hole, whatever stands in it.
proof fn lemma_template_fed(read: ScanView, resumes: bool, dollar: bool, text: Seq<char>) -> (
    after: bool)
    requires
        read.mode == (Mode::Template { resumes, dollar, escaped: false }),
        fits_template(text, dollar),
    ensures
        fed(read, text) == (ScanView {
            mode: Mode::Template { resumes, dollar: after, escaped: false },
            at: read.at + text.len(),
            ..read
        }),
    decreases text.len(),
{
    if text.len() == 0 {
        dollar
    } else {
        let c = text[0];
        let next = read.feed(c);
        lemma_fed_front(read, text);
        lemma_step(read, c);
        if c == '\\' {
            let d = text[1];
            let more = text.drop_first();
            assert(read.step(c) == Step::Stay(
                Mode::Template { resumes, dollar: false, escaped: true },
            )) by {
                reveal(ScanView::step);
            }
            lemma_fed_front(next, more);
            lemma_step(next, d);
            assert(next.step(d) == Step::Stay(
                Mode::Template { resumes, dollar: false, escaped: false },
            )) by {
                reveal(ScanView::step);
            }
            assert(more.drop_first() == text.skip(2));
            lemma_template_fed(next.feed(d), resumes, false, text.skip(2))
        } else {
            assert(read.step(c) == Step::Stay(
                Mode::Template { resumes, dollar: c == '$', escaped: false },
            )) by {
                reveal(ScanView::step);
            }
            lemma_template_fed(next, resumes, c == '$', text.drop_first())
        }
    }
}

/// A template, or a part of one between holes, is one token, whatever stands in it.
#[verifier::spinoff_prover]
#[verifier::rlimit(60)]
pub proof fn law_a_template_is_one_token(
    read: ScanView,
    resumes: bool,
    text: Seq<char>,
    opens: bool,
)
    requires
        read.mode == Mode::Code,
        resumes ==> read.stack.len() > 0 && read.stack.last() == Bracket::Hole,
        fits_template(text, false),
    ensures
        ({
            let piece = Piece::Template { resumes, text, opens };
            let to = (read.at + piece.text().len()) as int;
            let before = ScanView { token_at: read.at, at: to, ..read };
            fed(read, piece.text()) == before.token(Kind::Template { resumes, opens }, to)
        }),
{
    let first = if resumes {
        '}'
    } else {
        '`'
    };
    let one = seq![first];
    lemma_code(read, first);
    lemma_fed_front(read, one);
    assert(one.drop_first() == Seq::<char>::empty());
    let opened = read.feed(first);
    assert(fed(read, one) == opened);
    lemma_fed_add(read, one, text);
    let dollar = lemma_template_fed(opened, resumes, false, text);
    let within = fed(opened, text);
    reveal(ScanView::token);
    if opens {
        let tail = seq!['$', '{'];
        lemma_fed_add(read, one + text, tail);
        lemma_step(within, '$');
        assert(within.step('$') == Step::Stay(
            Mode::Template { resumes, dollar: true, escaped: false },
        )) by {
            reveal(ScanView::step);
        }
        let marked = within.feed('$');
        lemma_step(marked, '{');
        assert(marked.step('{') == Step::Token(Kind::Template { resumes, opens: true })) by {
            reveal(ScanView::step);
        }
        assert(tail.drop_last() == seq!['$']);
        assert(seq!['$'].drop_last() == Seq::<char>::empty());
        assert(fed(within, Seq::<char>::empty()) == within);
        assert(fed(within, seq!['$']) == marked);
        assert(fed(within, tail) == marked.feed('{'));
    } else {
        let tail = seq!['`'];
        lemma_fed_add(read, one + text, tail);
        lemma_fed_front(within, tail);
        assert(tail.drop_first() == Seq::<char>::empty());
        lemma_step(within, '`');
        assert(within.step('`') == Step::Token(Kind::Template { resumes, opens: false })) by {
            reveal(ScanView::step);
        }
        assert(fed(within, tail) == within.feed('`'));
    }
}

/// A regular expression goes on up to its slash, whatever stands in it.
proof fn lemma_pattern_fed(read: ScanView, class: bool, text: Seq<char>)
    requires
        read.mode == (Mode::Pattern { class, escaped: false }),
        fits_pattern(text, class),
    ensures
        fed(read, text) == (ScanView {
            mode: Mode::Pattern { class: false, escaped: false },
            at: read.at + text.len(),
            ..read
        }),
    decreases text.len(),
{
    if text.len() > 0 {
        let c = text[0];
        let next = read.feed(c);
        lemma_fed_front(read, text);
        lemma_step(read, c);
        if c == '\\' {
            let d = text[1];
            let more = text.drop_first();
            assert(read.step(c) == Step::Stay(Mode::Pattern { class, escaped: true })) by {
                reveal(ScanView::step);
            }
            lemma_fed_front(next, more);
            lemma_step(next, d);
            assert(next.step(d) == Step::Stay(Mode::Pattern { class, escaped: false })) by {
                reveal(ScanView::step);
            }
            assert(more.drop_first() == text.skip(2));
            lemma_pattern_fed(next.feed(d), class, text.skip(2));
        } else {
            let inner = c == '[' || (class && c != ']');
            assert(read.step(c) == Step::Stay(Mode::Pattern { class: inner, escaped: false })) by {
                reveal(ScanView::step);
            }
            lemma_pattern_fed(next, inner, text.drop_first());
        }
    }
}

/// A regular expression, where an operand stands, is one token, whatever stands in it.
pub proof fn law_a_pattern_is_one_token(read: ScanView, text: Seq<char>)
    requires
        read.mode == Mode::Code,
        read.operand(),
        Piece::Pattern(text).is_sound(),
    ensures
        ({
            let to = (read.at + text.len() + 2) as int;
            let before = ScanView { token_at: read.at, at: to, ..read };
            fed(read, Piece::Pattern(text).text()) == before.token(Kind::Text, to)
        }),
{
    let one = seq!['/'];
    lemma_code(read, '/');
    lemma_fed_front(read, one);
    assert(one.drop_first() == Seq::<char>::empty());
    let slash = read.feed('/');
    assert(fed(read, one) == slash);
    lemma_fed_add(read, one, text);
    lemma_fed_add(read, one + text, one);
    let c = text[0];
    let begun = ScanView { mode: Mode::Pattern { class: false, escaped: false }, ..slash };
    lemma_fed_front(slash, text);
    lemma_fed_front(begun, text);
    lemma_step(slash, c);
    lemma_step(begun, c);
    assert(slash.step(c) == begun.step(c) && begun.step(c) is Stay) by {
        reveal(ScanView::step);
    }
    assert(slash.feed(c) == begun.feed(c));
    lemma_pattern_fed(begun, false, text);
    let within = fed(slash, text);
    lemma_fed_front(within, one);
    lemma_step(within, '/');
    assert(within.step('/') == Step::Token(Kind::Text)) by {
        reveal(ScanView::step);
    }
    reveal(ScanView::token);
}

/// A comment goes on up to its end mark, whatever stands in it.
proof fn lemma_comment_fed(read: ScanView, star: bool, broken: bool, text: Seq<char>) -> (after: (
    bool,
    bool,
))
    requires
        read.mode == (Mode::Comment { star, broken }),
        Piece::Comment(text).is_sound(),
        star && text.len() > 0 ==> text[0] != '/',
    ensures
        fed(read, text) == (ScanView {
            mode: Mode::Comment { star: after.0, broken: after.1 },
            at: read.at + text.len(),
            ..read
        }),
        after.1 <==> broken || exists|i: int| 0 <= i < text.len() && #[trigger] text[i] == '\n',
    decreases text.len(),
{
    if text.len() == 0 {
        (star, broken)
    } else {
        let c = text[0];
        let next = read.feed(c);
        let more = text.drop_first();
        lemma_fed_front(read, text);
        lemma_step(read, c);
        assert(read.step(c) == Step::Stay(
            Mode::Comment { star: c == '*', broken: broken || c == '\n' },
        )) by {
            reveal(ScanView::step);
        }
        assert(fits_comment(more)) by {
            assert forall|i: int, j: int|
                #![trigger more[i], more[j]]
                0 <= i < j < more.len() && j == i + 1 implies !(more[i] == '*' && more[j] == '/')
                by {
                assert(more[i] == text[i + 1] && more[j] == text[j + 1]);
            }
            assert forall|i: int| 0 <= i < more.len() implies #[trigger] more[i] != '\r' by {
                assert(more[i] == text[i + 1]);
            }
        }
        assert(more.len() > 0 ==> more[0] == text[1]);
        let after = lemma_comment_fed(next, c == '*', broken || c == '\n', more);
        if after.1 && !broken {
            if c == '\n' {
                assert(text[0] == '\n');
            } else {
                let i = choose|i: int| 0 <= i < more.len() && #[trigger] more[i] == '\n';
                assert(text[i + 1] == '\n');
            }
        }
        if exists|i: int| 0 <= i < text.len() && #[trigger] text[i] == '\n' {
            let i = choose|i: int| 0 <= i < text.len() && #[trigger] text[i] == '\n';
            if i > 0 {
                assert(more[i - 1] == '\n');
            }
        }
        after
    }
}

/// A comment between marks changes nothing but where the last statement ends, and whether a line
/// has ended, whatever stands in it.
pub proof fn law_a_comment_is_no_token(read: ScanView, text: Seq<char>)
    requires
        read.mode == Mode::Code,
        Piece::Comment(text).is_sound(),
    ensures
        ({
            let after = fed(read, Piece::Comment(text).text());
            &&& after.mode == Mode::Code
            &&& after.stack == read.stack
            &&& after.last == read.last
            &&& after.start == read.start
            &&& after.plain == read.plain
            &&& after.owes == read.owes
            &&& after.ended == read.ended
            &&& after.last_end == read.last_end
            &&& after.at == read.at + text.len() + 4
            &&& read.newline ==> after.newline
            &&& (forall|i: int| 0 <= i < text.len() ==> #[trigger] text[i] != '\n')
                ==> after.newline == read.newline && after.break_end == read.break_end
            &&& (exists|i: int| 0 <= i < text.len() && #[trigger] text[i] == '\n')
                ==> after.newline && after.break_end == after.at
        }),
{
    let head = seq!['/', '*'];
    let tail = seq!['*', '/'];
    let none = Seq::<char>::empty();
    lemma_code(read, '/');
    let slash = read.feed('/');
    lemma_step(slash, '*');
    assert(slash.step('*') == Step::Stay(Mode::Comment { star: false, broken: false })) by {
        reveal(ScanView::step);
    }
    let begun = slash.feed('*');
    assert(head.drop_last() == seq!['/']);
    assert(seq!['/'].drop_last() == none);
    assert(fed(read, none) == read);
    assert(fed(read, seq!['/']) == slash);
    assert(fed(read, head) == begun);
    lemma_fed_add(read, head, text);
    lemma_fed_add(read, head + text, tail);
    let (star, broken) = lemma_comment_fed(begun, false, false, text);
    let within = fed(begun, text);
    lemma_step(within, '*');
    assert(within.step('*') == Step::Stay(Mode::Comment { star: true, broken })) by {
        reveal(ScanView::step);
    }
    let marked = within.feed('*');
    lemma_step(marked, '/');
    assert(marked.step('/') == if broken {
        Step::Break
    } else {
        Step::Blank
    }) by {
        reveal(ScanView::step);
    }
    assert(tail.drop_last() == seq!['*']);
    assert(seq!['*'].drop_last() == none);
    assert(fed(within, none) == within);
    assert(fed(within, seq!['*']) == marked);
    assert(fed(within, tail) == marked.feed('/'));
}

impl ScanView {
    /// Whether a statement can start here with a piece, at `start`.
    spec fn is_starting(self, piece: Piece, start: int) -> bool {
        &&& self.mode == Mode::Code
        &&& self.stack.len() == 0
        &&& self.next_start() == start
        &&& {
            ||| self.last == Last::Start
            ||| self.last == Last::Semicolon
            ||| self.last == Last::Head && self.newline
            ||| {
                &&& self.newline
                &&& self.last == Last::Value || self.last == Last::Brace
                &&& piece == Piece::Open('{') ==> !self.owes
                &&& piece matches Piece::Word(word) ==> word != "in"@ && word != "instanceof"@
            }
        }
    }

    /// Whether a statement has ended once another one starts here.
    spec fn has_ended_one(self) -> bool {
        self.ended || self.last == Last::Value || self.last == Last::Brace
    }

    /// Whether what is being read is the end of this piece.
    spec fn is_at(self, piece: Piece) -> bool {
        match self.mode {
            Mode::Word => match piece {
                Piece::Word(word) => word == self.word,
                Piece::Joined { word, .. } => word == self.word,
                Piece::Prefixed { word, .. } => word == self.word,
                _ => false,
            },
            Mode::Point => piece == Piece::Sign('.') || (piece matches Piece::Continued {
                sign,
                ..
            } && sign == '.'),
            Mode::Twice(c) => piece == Piece::Sign(c) || (piece matches Piece::Continued {
                sign,
                ..
            } && sign == c),
            Mode::Bang => piece == Piece::Sign('!'),
            _ => true,
        }
    }
}

/// What ordinary words mean.
proof fn lemma_ordinary(word: Seq<char>, called: bool)
    ensures
        is_ordinary(word) ==> word_class(word, called) == WordClass::Plain,
        word_class(word, called) == WordClass::Else ==> word == "else"@,
        word_class(word, called) == WordClass::Joint ==> word == "in"@ || word == "instanceof"@,
{
}

/// Reading a word, in its statement.
proof fn lemma_word_piece(
    read: ScanView,
    word: Seq<char>,
    open: Seq<bool>,
    start: int,
    ended: bool,
    calm: bool,
    before: Next,
    first: bool,
)
    requires
        read.ordered(read.at),
        read.mode == Mode::Code,
        Piece::Word(word).is_sound(),
        calm ==> is_ordinary(word),
        !first ==> read.is_placed(open, start, ended, calm, before),
        first ==> open.len() == 0 && word != "else"@ && read.is_starting(Piece::Word(word), start)
            && ended == read.has_ended_one(),
    ensures
        fed(read, word).is_within(
            open,
            start,
            ended,
            calm,
            if is_ordinary(word) {
                Next::Value
            } else {
                Next::Unknown
            },
        ),
        fed(read, word).is_at(Piece::Word(word)),
{
    let next = if is_ordinary(word) {
        Next::Value
    } else {
        Next::Unknown
    };
    assert forall|i: int| 0 <= i < word.len() implies is_word_char(#[trigger] word[i]) && word[i]
        != '\n' && word[i] != '\r' && !is_blank(word[i]) by {
        assert(is_name_char(word[i]));
    }
    lemma_word_fed(read, word);
    lemma_fed_grows(read, word);
    let after = fed(read, word);
    assert forall|called: bool|
        (#[trigger] after.token(Kind::Word(word_class(after.word, called)), after.at)).is_placed(
            open,
            start,
            ended,
            calm,
            next,
        ) by {
        let kind = Kind::Word(word_class(word, called));
        lemma_ordinary(word, called);
        if first {
            assert(after.is_ready(kind, start, ended));
        } else {
            assert(after.is_placed(open, start, ended, calm, before));
        }
        lemma_simple_token(after, kind, after.at, open, start, ended, calm, before);
    }
}

/// Reading a sign, in its statement.
proof fn lemma_sign_piece(
    read: ScanView,
    c: char,
    open: Seq<bool>,
    start: int,
    ended: bool,
    calm: bool,
    before: Next,
)
    requires
        read.ordered(read.at),
        read.mode == Mode::Code,
        Piece::Sign(c).is_sound(),
        c == ';' ==> open.len() > 0,
        read.is_placed(open, start, ended, calm, before),
    ensures
        read.feed(c).is_within(
            open,
            start,
            ended,
            calm,
            if c == ',' || c == ':' {
                Next::Operand
            } else {
                Next::Sign
            },
        ),
        read.feed(c).is_at(Piece::Sign(c)),
{
    lemma_code(read, c);
    lemma_feed_grows(read, c);
    let after = read.feed(c);
    let here = ScanView { token_at: read.at, ..read };
    if c == '.' {
        lemma_simple_token(after, Kind::Dot, after.at, open, start, ended, calm, before);
    } else if c == '+' || c == '-' {
        lemma_simple_token(after, Kind::Sign, after.at, open, start, ended, calm, before);
    } else if c == '!' {
        lemma_simple_token(after, Kind::Prefix, after.at, open, start, ended, calm, before);
        lemma_simple_token(after, Kind::Operator, after.at, open, start, ended, calm, before);
    } else if c == ';' {
        lemma_inner_semicolon(here, read.at + 1, open, start, ended, calm, before);
        lemma_token(here, Kind::Semicolon, read.at + 1);
    } else {
        lemma_simple_token(here, sign(c), read.at + 1, open, start, ended, calm, before);
        lemma_token(here, sign(c), read.at + 1);
    }
}

/// Reading the sign of a division, in its statement.
proof fn lemma_division_piece(read: ScanView, open: Seq<bool>, start: int, ended: bool, calm: bool)
    requires
        read.ordered(read.at),
        read.mode == Mode::Code,
        read.is_placed(open, start, ended, calm, Next::Value),
    ensures
        fed(read, seq!['/', ' ']).is_within(open, start, ended, calm, Next::Sign),
        fed(read, seq!['/', ' ']).mode == Mode::Code,
{
    let text = seq!['/', ' '];
    let slash = read.feed('/');
    lemma_fed_grows(read, text);
    lemma_feed_grows(read, '/');
    lemma_code(read, '/');
    lemma_step(slash, ' ');
    assert(slash.step(' ') == Step::After(Kind::Operator)) by {
        reveal(ScanView::step);
    }
    let after = slash.token(Kind::Operator, slash.at);
    lemma_simple_token(slash, Kind::Operator, slash.at, open, start, ended, calm, Next::Value);
    lemma_token(slash, Kind::Operator, slash.at);
    lemma_code(after, ' ');
    assert(text.drop_last() == seq!['/']);
    assert(seq!['/'].drop_last() == Seq::<char>::empty());
    assert(fed(read, Seq::<char>::empty()) == read);
    assert(fed(read, seq!['/']) == slash);
    assert(fed(read, text) == slash.feed(' '));
}

/// Reading a sign that goes on with the line before, in a statement of ordinary words.
proof fn lemma_continued_piece(
    read: ScanView,
    white: Seq<char>,
    c: char,
    open: Seq<bool>,
    start: int,
    ended: bool,
    before: Next,
)
    requires
        read.ordered(read.at),
        read.mode == Mode::Code,
        (Piece::Continued { white, sign: c }).is_sound(),
        before == Next::Value || (before == Next::Closed && c != '+' && c != '-'),
        read.is_placed(open, start, ended, true, before),
    ensures
        ({
            let piece = (Piece::Continued { white, sign: c });
            let after = fed(read, piece.text());
            &&& after.is_within(
                open,
                start,
                ended,
                true,
                if c == ':' {
                    Next::Operand
                } else {
                    Next::Sign
                },
            )
            &&& after.is_at(piece)
        }),
{
    let gap = seq!['\n'] + white;
    let text = gap + seq![c];
    lemma_fed_grows(read, text);
    lemma_fed_grows(read, gap);
    assert(text.drop_last() == gap);
    let one = seq!['\n'];
    lemma_fed_add(read, one, white);
    assert(one.drop_last() == Seq::<char>::empty());
    assert(fed(read, Seq::<char>::empty()) == read);
    let broken = read.feed('\n');
    assert(fed(read, one) == broken);
    lemma_code(read, '\n');
    lemma_feed_grows(read, '\n');
    assert forall|i: int| 0 <= i < white.len() implies is_white_space(#[trigger] white[i]) by {
        assert(white[i] == ' ' || white[i] == '\t' || white[i] == '\n');
    }
    lemma_gap(broken, white);
    lemma_white_lines(broken, white);
    let there = fed(broken, white);
    lemma_code(there, c);
    let here = ScanView { token_at: there.at, ..there };
    let after = there.feed(c);
    assert(fed(read, text) == after);
    if c == '.' {
        assert(!after.begins(Kind::Dot));
        assert(after.token(Kind::Dot, after.at).is_placed(open, start, ended, true, Next::Sign))
            by {
            reveal(ScanView::token);
        }
    } else if c == '+' || c == '-' {
        assert(!after.begins(Kind::Sign));
        assert(after.token(Kind::Sign, after.at).is_placed(open, start, ended, true, Next::Sign))
            by {
            reveal(ScanView::token);
        }
    } else {
        assert(!here.begins(sign(c)));
        assert(here.token(sign(c), there.at + 1).is_placed(
            open,
            start,
            ended,
            true,
            if c == ':' {
                Next::Operand
            } else {
                Next::Sign
            },
        )) by {
            reveal(ScanView::token);
        }
        lemma_token(here, sign(c), there.at + 1);
    }
}

/// Reading a word that goes on with the line before, in a statement of ordinary words.
proof fn lemma_joined_piece(
    read: ScanView,
    white: Seq<char>,
    word: Seq<char>,
    open: Seq<bool>,
    start: int,
    ended: bool,
    before: Next,
)
    requires
        read.ordered(read.at),
        read.mode == Mode::Code,
        (Piece::Joined { white, word }).is_sound(),
        before == Next::Value || before == Next::Closed,
        read.is_placed(open, start, ended, true, before),
    ensures
        ({
            let piece = (Piece::Joined { white, word });
            let after = fed(read, piece.text());
            &&& after.is_within(open, start, ended, true, Next::Sign)
            &&& after.is_at(piece)
        }),
{
    let gap = seq!['\n'] + white;
    let text = gap + word;
    lemma_joint_words(word);
    lemma_fed_grows(read, text);
    lemma_fed_grows(read, gap);
    lemma_fed_add(read, gap, word);
    let one = seq!['\n'];
    lemma_fed_add(read, one, white);
    assert(one.drop_last() == Seq::<char>::empty());
    assert(fed(read, Seq::<char>::empty()) == read);
    let broken = read.feed('\n');
    assert(fed(read, one) == broken);
    lemma_code(read, '\n');
    lemma_feed_grows(read, '\n');
    assert forall|i: int| 0 <= i < white.len() implies is_white_space(#[trigger] white[i]) by {
        assert(white[i] == ' ' || white[i] == '\t' || white[i] == '\n');
    }
    lemma_gap(broken, white);
    lemma_white_lines(broken, white);
    let there = fed(broken, white);
    lemma_word_fed(there, word);
    let after = fed(there, word);
    assert(fed(read, text) == after);
    let kind = Kind::Word(WordClass::Joint);
    assert(!after.begins(kind));
    assert(after.token(kind, after.at).is_placed(open, start, ended, true, Next::Sign)) by {
        reveal(ScanView::token);
    }
}

/// Reading the sign before a word, and the word, at the start of a statement.
proof fn lemma_prefixed_piece(
    read: ScanView,
    signs: Seq<char>,
    word: Seq<char>,
    start: int,
    ended: bool,
    calm: bool,
)
    requires
        read.ordered(read.at),
        read.mode == Mode::Code,
        (Piece::Prefixed { signs, word }).is_sound(),
        read.is_starting(Piece::Prefixed { signs, word }, start),
        ended == read.has_ended_one(),
    ensures
        ({
            let piece = (Piece::Prefixed { signs, word });
            let after = fed(read, piece.text());
            &&& after.is_within(Seq::empty(), start, ended, calm, Next::Value)
            &&& after.is_at(piece)
        }),
{
    let open = Seq::<bool>::empty();
    let c = signs[0];
    let d = word[0];
    assert(is_name_char(d));
    lemma_fed_add(read, signs, word);
    lemma_fed_grows(read, signs);
    lemma_fed_grows(read, signs + word);
    lemma_fed_front(read, signs);
    lemma_code(read, c);
    lemma_feed_grows(read, c);
    let one = read.feed(c);
    assert(fed(one, Seq::<char>::empty()) == one);
    assert(Piece::Word(word).is_sound());
    if c == '!' {
        assert(signs.drop_first() == Seq::<char>::empty());
        lemma_step(one, d);
        assert(one.step(d) == Step::After(Kind::Prefix)) by {
            reveal(ScanView::step);
        }
        assert(one.is_ready(Kind::Prefix, start, ended));
        lemma_simple_token(one, Kind::Prefix, one.at, open, start, ended, calm, Next::Unknown);
        lemma_token(one, Kind::Prefix, one.at);
        lemma_token_ordered(one, Kind::Prefix, one.at);
        let settled = one.token(Kind::Prefix, one.at);
        lemma_fed_front(one, word);
        lemma_fed_front(settled, word);
        assert(one.feed(d) == settled.feed(d));
        lemma_word_piece(settled, word, open, start, ended, calm, Next::Sign, false);
    } else if c == '~' {
        assert(signs.drop_first() == Seq::<char>::empty());
        let here = ScanView { token_at: read.at, ..read };
        assert(here.is_ready(Kind::Prefix, start, ended));
        lemma_simple_token(
            here,
            Kind::Prefix,
            read.at + 1,
            open,
            start,
            ended,
            calm,
            Next::Unknown,
        );
        lemma_token(here, Kind::Prefix, read.at + 1);
        lemma_word_piece(one, word, open, start, ended, calm, Next::Sign, false);
    } else {
        assert(signs.drop_first() == seq![c]);
        lemma_step_read(read, c);
        assert(one.is_ready(Kind::Step, start, ended));
        lemma_simple_token(one, Kind::Step, one.at + 1, open, start, ended, calm, Next::Unknown);
        lemma_token(one, Kind::Step, one.at + 1);
        lemma_fed_front(one, seq![c]);
        assert(seq![c].drop_first() == Seq::<char>::empty());
        let two = one.feed(c);
        assert(fed(two, Seq::<char>::empty()) == two);
        lemma_word_piece(two, word, open, start, ended, calm, Next::Value, false);
    }
}

/// Two signs of a kind are one token.
proof fn lemma_step_read(read: ScanView, c: char)
    requires
        read.mode == Mode::Code,
        c == '+' || c == '-',
    ensures
        read.feed(c).feed(c) == (ScanView {
            at: read.at + 2,
            ..read.feed(c).token(Kind::Step, read.at + 2)
        }),
        read.feed(c) == (ScanView {
            mode: Mode::Twice(c),
            token_at: read.at,
            at: read.at + 1,
            ..read
        }),
{
    lemma_code(read, c);
    let one = read.feed(c);
    lemma_step(one, c);
    assert(one.step(c) == Step::Token(Kind::Step)) by {
        reveal(ScanView::step);
    }
    assert(one.taken(c, one.step(c)) == one.token(Kind::Step, one.at + 1)) by {
        reveal(ScanView::taken);
    }
}

/// Reading a step, behind a value.
proof fn lemma_step_piece(
    read: ScanView,
    c: char,
    open: Seq<bool>,
    start: int,
    ended: bool,
    calm: bool,
    before: Next,
)
    requires
        read.ordered(read.at),
        read.mode == Mode::Code,
        c == '+' || c == '-',
        read.is_placed(open, start, ended, calm, before),
    ensures
        fed(read, seq![c, c]).is_within(open, start, ended, calm, Next::Value),
        fed(read, seq![c, c]).is_at(Piece::Step(c)),
{
    let text = seq![c, c];
    lemma_fed_grows(read, text);
    lemma_step_read(read, c);
    let one = read.feed(c);
    assert(text.drop_last().drop_last() == Seq::<char>::empty());
    assert(fed(read, text.drop_last().drop_last()) == read);
    assert(fed(read, text.drop_last()) == one);
    assert(fed(read, text) == one.feed(c));
    lemma_simple_token(one, Kind::Step, read.at + 2, open, start, ended, calm, before);
    lemma_token(one, Kind::Step, read.at + 2);
}

/// What the words are that go on with a line.
proof fn lemma_joint_words(word: Seq<char>)
    requires
        word == "in"@ || word == "instanceof"@,
    ensures
        forall|called: bool| #[trigger] word_class(word, called) == WordClass::Joint,
        word.len() > 0,
        forall|i: int|
            0 <= i < word.len() ==> is_name_char(#[trigger] word[i]) && is_word_char(word[i])
                && word[i] != '\n' && word[i] != '\r' && !is_blank(word[i]),
        !is_digit(word[0]),
{
    reveal_strlit("in");
    reveal_strlit("instanceof");
    reveal_strlit("import");
    reveal_strlit("export");
    reveal_strlit("if");
    reveal_strlit("for");
    reveal_strlit("while");
    reveal_strlit("with");
    reveal_strlit("await");
    reveal_strlit("else");
    reveal_strlit("do");
    reveal_strlit("return");
    reveal_strlit("throw");
    reveal_strlit("yield");
    reveal_strlit("const");
    reveal_strlit("let");
    reveal_strlit("var");
    reveal_strlit("function");
    reveal_strlit("class");
    reveal_strlit("switch");
    reveal_strlit("try");
    reveal_strlit("catch");
    reveal_strlit("finally");
    let first = word[0];
    let second = word[1];
    assert(first == 'i' && second == 'n');
}

/// Reading a bracket, in its statement.
proof fn lemma_bracket_piece(
    read: ScanView,
    piece: Piece,
    open: Seq<bool>,
    start: int,
    ended: bool,
    calm: bool,
    before: Next,
    first: bool,
)
    requires
        read.ordered(read.at),
        read.mode == Mode::Code,
        piece.is_sound(),
        piece is Open || (piece is Close && !first && open.len() > 0 && !open.last()),
        !first ==> read.is_placed(open, start, ended, calm, before),
        first ==> open.len() == 0 && read.is_starting(piece, start) && ended
            == read.has_ended_one(),
    ensures
        piece is Open ==> read.feed(piece.text()[0]).is_within(
            open.push(false),
            start,
            ended,
            calm,
            Next::Sign,
        ),
        piece is Close ==> read.feed(piece.text()[0]).is_within(
            open.drop_last(),
            start,
            ended,
            calm,
            Next::Closed,
        ),
        read.feed(piece.text()[0]).is_at(piece),
{
    let c = piece.text()[0];
    let here = ScanView { token_at: read.at, ..read };
    lemma_code(read, c);
    lemma_feed_grows(read, c);
    if piece is Open {
        if first {
            assert(here.is_ready(sign(c), start, ended));
        }
        lemma_open_token(here, sign(c), read.at + 1, open, start, ended, calm, before);
        lemma_token(here, sign(c), read.at + 1);
    } else {
        assert(read.stack[open.len() - 1] != Bracket::Hole);
        assert(!read.hole());
        lemma_close_token(here, read.at + 1, open, start, ended, calm, before);
        lemma_token(here, Kind::Close, read.at + 1);
    }
}

/// Reading a piece goes on with its statement, or starts it.
#[verifier::spinoff_prover]
#[verifier::rlimit(60)]
proof fn lemma_piece(
    read: ScanView,
    before: Seq<Piece>,
    piece: Piece,
    start: int,
    ended: bool,
)
    requires
        read.ordered(read.at),
        read.mode == Mode::Code,
        piece.is_sound(),
        can_follow(before, piece),
        before.len() > 0 ==> read.is_placed(
            open_brackets(before),
            start,
            ended,
            is_calm(before),
            next_of(before),
        ),
        before.len() == 0 ==> read.is_starting(piece, start) && is_statement(seq![piece]) && ended
            == read.has_ended_one(),
    ensures
        fed(read, piece.text()).is_within(
            open_brackets(before.push(piece)),
            start,
            ended,
            is_calm(before.push(piece)),
            next_of(before.push(piece)),
        ),
        fed(read, piece.text()).is_at(piece),
{
    let open = open_brackets(before);
    let next = next_of(before);
    let first = before.len() == 0;
    let text = piece.text();
    let after = fed(read, text);
    let calm = is_calm(before.push(piece));
    assert(before.push(piece).drop_last() == before);
    assert(calm ==> is_calm(before)) by {
        if calm {
            assert forall|i: int| 0 <= i < before.len() implies (
            #[trigger] before[i] matches Piece::Word(word) ==> is_ordinary(word)) by {
                assert(before.push(piece)[i] == before[i]);
            }
        }
    }
    assert(calm ==> (piece matches Piece::Word(word) ==> is_ordinary(word))) by {
        assert(before.push(piece)[before.len() as int] == piece);
    }
    if first {
        assert(open == Seq::<bool>::empty());
        assert(seq![piece][0] == piece);
    } else {
        assert(read.is_placed(open, start, ended, calm, next));
    }
    lemma_fed_grows(read, text);
    match piece {
        Piece::Word(word) => {
            lemma_word_piece(read, word, open, start, ended, calm, next, first);
        },
        Piece::Quoted { quote, text: held } => {
            law_a_string_is_one_token(read, quote, held);
            let to = (read.at + held.len() + 2) as int;
            let here = ScanView { token_at: read.at, at: to, ..read };
            if first {
                assert(here.is_ready(Kind::Text, start, ended));
            } else {
                assert(here.is_placed(open, start, ended, calm, next));
            }
            lemma_simple_token(here, Kind::Text, to, open, start, ended, calm, next);
        },
        Piece::Template { resumes, text: held, opens } => {
            if resumes {
                assert(read.stack[open.len() - 1] == Bracket::Hole);
            }
            law_a_template_is_one_token(read, resumes, held, opens);
            let to = (read.at + text.len()) as int;
            let here = ScanView { token_at: read.at, at: to, ..read };
            if first {
                assert(here.is_ready(Kind::Template { resumes, opens }, start, ended));
            } else {
                assert(here.is_placed(open, start, ended, calm, next));
            }
            lemma_template_token(here, resumes, opens, to, open, start, ended, calm, next);
            lemma_token(here, Kind::Template { resumes, opens }, to);
        },
        Piece::Pattern(held) => {
            law_a_pattern_is_one_token(read, held);
            let to = (read.at + held.len() + 2) as int;
            let here = ScanView { token_at: read.at, at: to, ..read };
            if first {
                assert(here.is_ready(Kind::Text, start, ended));
            } else {
                assert(here.is_placed(open, start, ended, calm, next));
            }
            lemma_simple_token(here, Kind::Text, to, open, start, ended, calm, next);
            lemma_token(here, Kind::Text, to);
        },
        Piece::Comment(held) => {
            law_a_comment_is_no_token(read, held);
        },
        Piece::Division => {
            lemma_division_piece(read, open, start, ended, calm);
        },
        Piece::Continued { white, sign: c } => {
            assert(is_calm(before.push(piece))) by {
                assert forall|i: int| 0 <= i < before.push(piece).len() implies (
                #[trigger] before.push(piece)[i] matches Piece::Word(word) ==> is_ordinary(
                    word,
                )) by {
                    if i < before.len() {
                        assert(before.push(piece)[i] == before[i]);
                    }
                }
            }
            lemma_continued_piece(read, white, c, open, start, ended, next);
        },
        Piece::Joined { white, word } => {
            assert(is_calm(before.push(piece))) by {
                assert forall|i: int| 0 <= i < before.push(piece).len() implies (
                #[trigger] before.push(piece)[i] matches Piece::Word(word) ==> is_ordinary(
                    word,
                )) by {
                    if i < before.len() {
                        assert(before.push(piece)[i] == before[i]);
                    }
                }
            }
            lemma_joined_piece(read, white, word, open, start, ended, next);
        },
        Piece::Prefixed { signs, word } => {
            lemma_prefixed_piece(read, signs, word, start, ended, calm);
        },
        Piece::Step(c) => {
            lemma_step_piece(read, c, open, start, ended, calm, next);
        },
        _ => {
            let c = text[0];
            assert(text == seq![c]);
            lemma_fed_front(read, text);
            assert(text.drop_first() == Seq::<char>::empty());
            assert(after == read.feed(c));
            match piece {
                Piece::Sign(_) => {
                    lemma_sign_piece(read, c, open, start, ended, calm, next);
                },
                Piece::Blank(_) => {
                    lemma_code(read, c);
                },
                Piece::Feed => {
                    lemma_code(read, c);
                },
                _ => {
                    lemma_bracket_piece(read, piece, open, start, ended, calm, next, first);
                },
            }
        },
    }
}

/// What is being read ends where the next piece starts.
proof fn lemma_resolved(
    read: ScanView,
    c: char,
    open: Seq<bool>,
    start: int,
    ended: bool,
    calm: bool,
    next: Next,
) -> (settled: ScanView)
    requires
        read.is_within(open, start, ended, calm, next),
        c != '\r',
        read.mode == Mode::Word ==> !extends_word(read.word, c),
        read.mode == Mode::Point ==> !is_digit(c),
        read.mode matches Mode::Twice(d) ==> c != d,
    ensures
        settled.mode == Mode::Code,
        settled.is_placed(open, start, ended, calm, next),
        settled.ordered(settled.at),
        settled.at == read.at,
        read.feed(c) == settled.feed(c),
{
    if read.mode == Mode::Code {
        read
    } else {
        lemma_step(read, c);
        assert(read.step(c) is After && match read.mode {
            Mode::Word => read.step(c)->After_0 == Kind::Word(
                word_class(read.word, c == '(' || c == '.'),
            ),
            Mode::Point => read.step(c)->After_0 == Kind::Dot,
            Mode::Twice(_) => read.step(c)->After_0 == Kind::Sign,
            _ => read.step(c)->After_0 == Kind::Prefix || read.step(c)->After_0 == Kind::Operator,
        }) by {
            reveal(ScanView::step);
        }
        let kind = read.step(c)->After_0;
        lemma_token(read, kind, read.at);
        lemma_token_ordered(read, kind, read.at);
        read.token(kind, read.at)
    }
}

/// The first character of a piece does not go on with the piece before it.
proof fn lemma_apart(read: ScanView, before: Seq<Piece>, piece: Piece)
    requires
        before.len() > 0,
        before.last().is_sound(),
        read.ordered(read.at),
        read.is_at(before.last()),
        piece.is_sound(),
        can_follow(before, piece),
    ensures
        piece.text().len() > 0,
        piece.text()[0] != '\r',
        read.mode == Mode::Word ==> !extends_word(read.word, piece.text()[0]),
        read.mode == Mode::Point ==> !is_digit(piece.text()[0]),
        read.mode matches Mode::Twice(d) ==> piece.text()[0] != d,
{
    let c = piece.text()[0];
    if let Piece::Word(word) = piece {
        assert(is_name_char(word[0]));
    }
    if let Piece::Word(word) = before.last() {
        assert(is_name_char(word[0]));
    }
    if let Piece::Joined { word, .. } = before.last() {
        lemma_joint_words(word);
    }
    if let Piece::Prefixed { word, .. } = before.last() {
        assert(is_name_char(word[0]));
    }
}

/// Reading the pieces of a statement starts it, and no other.
proof fn lemma_pieces(read: ScanView, pieces: Seq<Piece>, start: int)
    requires
        read.ordered(read.at),
        is_statement(pieces),
        read.is_starting(pieces[0], start),
    ensures
        fed(read, pieces_text(pieces)).is_within(
            open_brackets(pieces),
            start,
            read.has_ended_one(),
            is_calm(pieces),
            next_of(pieces),
        ),
        fed(read, pieces_text(pieces)).is_at(pieces.last()),
    decreases pieces.len(),
{
    let before = pieces.drop_last();
    let piece = pieces.last();
    let n = pieces.len() - 1;
    assert(pieces[n] == piece);
    assert(pieces.take(n) == before);
    assert(before.push(piece) == pieces);
    lemma_fed_add(read, pieces_text(before), piece.text());
    if n == 0 {
        assert(pieces_text(before) == Seq::<char>::empty());
        assert(fed(read, pieces_text(before)) == read);
        assert(seq![piece] == pieces);
        lemma_piece(read, before, piece, start, read.has_ended_one());
    } else {
        assert forall|i: int| 0 <= i < before.len() implies (#[trigger] before[i]).is_sound()
            && can_follow(before.take(i), before[i]) by {
            assert(pieces[i] == before[i]);
            assert(pieces.take(i) == before.take(i));
        }
        assert(before[0] == pieces[0]);
        lemma_pieces(read, before, start);
        let h = fed(read, pieces_text(before));
        assert(before[n - 1].is_sound());
        lemma_apart(h, before, piece);
        let c = piece.text()[0];
        let settled = lemma_resolved(
            h,
            c,
            open_brackets(before),
            start,
            read.has_ended_one(),
            is_calm(before),
            next_of(before),
        );
        lemma_piece(settled, before, piece, start, read.has_ended_one());
        lemma_fed_front(h, piece.text());
        lemma_fed_front(settled, piece.text());
    }
}

/// What stands between two statements.
pub ghost enum Gap {
    /// A space or a tab.
    Blank(char),
    /// The end of a line.
    Feed,
    /// A comment up to the end of its line, and that end.
    Line(Seq<char>),
    /// A comment between marks.
    Comment(Seq<char>),
}

impl Gap {
    /// The text of the gap.
    pub open spec fn text(self) -> Seq<char> {
        match self {
            Gap::Blank(c) => seq![c],
            Gap::Feed => seq!['\n'],
            Gap::Line(text) => seq!['/', '/'] + text + seq!['\n'],
            Gap::Comment(text) => Piece::Comment(text).text(),
        }
    }

    /// Whether the gap is what it says.
    pub open spec fn is_sound(self) -> bool {
        match self {
            Gap::Blank(c) => c == ' ' || c == '\t',
            Gap::Feed => true,
            Gap::Line(text) => forall|i: int|
                0 <= i < text.len() ==> #[trigger] text[i] != '\n' && text[i] != '\r',
            Gap::Comment(text) => fits_comment(text),
        }
    }

    /// Whether the gap ends a line.
    pub open spec fn ends_line(self) -> bool {
        match self {
            Gap::Blank(_) => false,
            Gap::Feed => true,
            Gap::Line(_) => true,
            Gap::Comment(text) => exists|i: int| 0 <= i < text.len() && #[trigger] text[i] == '\n',
        }
    }
}

/// The text of some gaps, one after another.
pub open spec fn gaps_text(gaps: Seq<Gap>) -> Seq<char>
    decreases gaps.len(),
{
    if gaps.len() == 0 {
        Seq::empty()
    } else {
        gaps_text(gaps.drop_last()) + gaps.last().text()
    }
}

/// How far the lines go that end in some gaps; 0 where none ends.
pub open spec fn lines_end(gaps: Seq<Gap>) -> int
    decreases gaps.len(),
{
    if gaps.len() == 0 {
        0
    } else if gaps.last().ends_line() {
        gaps_text(gaps).len() as int
    } else {
        lines_end(gaps.drop_last())
    }
}

/// Reading what stands between two statements leaves the one before as it is, and tells where the
/// last line has ended.
proof fn lemma_gap_piece(read: ScanView, gap: Gap)
    requires
        read.ordered(read.at),
        read.mode == Mode::Code,
        gap.is_sound(),
    ensures
        ({
            let after = fed(read, gap.text());
            &&& after.mode == Mode::Code
            &&& after.stack == read.stack
            &&& after.last == read.last
            &&& after.start == read.start
            &&& after.plain == read.plain
            &&& after.owes == read.owes
            &&& after.ended == read.ended
            &&& after.last_end == read.last_end
            &&& after.at == read.at + gap.text().len()
            &&& gap.ends_line() ==> after.newline && after.break_end == after.at
            &&& !gap.ends_line() ==> after.newline == read.newline && after.break_end
                == read.break_end
        }),
{
    let text = gap.text();
    match gap {
        Gap::Comment(held) => {
            law_a_comment_is_no_token(read, held);
        },
        Gap::Line(held) => {
            let marks = seq!['/', '/'];
            let feed = seq!['\n'];
            let none = Seq::<char>::empty();
            lemma_code(read, '/');
            let slash = read.feed('/');
            lemma_step(slash, '/');
            assert(slash.step('/') == Step::Stay(Mode::Line)) by {
                reveal(ScanView::step);
            }
            let line = slash.feed('/');
            assert(marks.drop_last() == seq!['/']);
            assert(seq!['/'].drop_last() == none);
            assert(fed(read, none) == read);
            assert(fed(read, seq!['/']) == slash);
            assert(fed(read, marks) == line);
            lemma_fed_add(read, marks, held);
            lemma_fed_add(read, marks + held, feed);
            assert forall|i: int| 0 <= i < held.len() implies #[trigger] held[i] != '\n' by {}
            lemma_line_comment(line, held);
            let end = fed(line, held);
            lemma_step(end, '\n');
            assert(end.step('\n') == Step::AfterBlank) by {
                reveal(ScanView::step);
            }
            lemma_code(end.blank(end.at), '\n');
            assert(feed.drop_last() == none);
            assert(fed(end, none) == end);
            assert(fed(end, feed) == end.feed('\n'));
        },
        _ => {
            let c = text[0];
            lemma_fed_front(read, text);
            assert(text.drop_first() == Seq::<char>::empty());
            assert(fed(read, text) == read.feed(c));
            lemma_code(read, c);
        },
    }
}

/// Reading all that stands between two statements.
proof fn lemma_gaps(read: ScanView, gaps: Seq<Gap>)
    requires
        read.ordered(read.at),
        read.mode == Mode::Code,
        forall|i: int| 0 <= i < gaps.len() ==> (#[trigger] gaps[i]).is_sound(),
    ensures
        ({
            let after = fed(read, gaps_text(gaps));
            &&& after.mode == Mode::Code
            &&& after.stack == read.stack
            &&& after.last == read.last
            &&& after.start == read.start
            &&& after.plain == read.plain
            &&& after.owes == read.owes
            &&& after.ended == read.ended
            &&& after.last_end == read.last_end
            &&& after.at == read.at + gaps_text(gaps).len()
            &&& lines_end(gaps) >= 0
            &&& lines_end(gaps) > 0 ==> after.newline && after.break_end == read.at + lines_end(
                gaps,
            )
            &&& lines_end(gaps) == 0 ==> after.newline == read.newline && after.break_end
                == read.break_end
        }),
    decreases gaps.len(),
{
    if gaps.len() > 0 {
        let init = gaps.drop_last();
        let gap = gaps.last();
        assert(gaps[gaps.len() - 1] == gap);
        assert forall|i: int| 0 <= i < init.len() implies (#[trigger] init[i]).is_sound() by {
            assert(init[i] == gaps[i]);
        }
        lemma_gaps(read, init);
        lemma_fed_add(read, gaps_text(init), gap.text());
        lemma_fed_grows(read, gaps_text(init));
        lemma_gap_piece(fed(read, gaps_text(init)), gap);
    }
}

/// A statement of a script, and what stands behind it.
pub ghost struct Part {
    pub pieces: Seq<Piece>,
    /// Whether a semicolon ends the statement.
    pub semicolon: bool,
    pub gaps: Seq<Gap>,
}

impl Part {
    /// The text of the statement and of what stands behind it.
    pub open spec fn text(self) -> Seq<char> {
        pieces_text(self.pieces) + (if self.semicolon {
            seq![';']
        } else {
            Seq::empty()
        }) + gaps_text(self.gaps)
    }

    /// Whether it shows that the statement has ended: a semicolon ends it, or its line ends, and it
    /// ends with a value or a closing bracket.
    pub open spec fn has_ended(self) -> bool {
        &&& forall|k: int| 0 <= k < self.gaps.len() ==> (#[trigger] self.gaps[k]).is_sound()
        &&& self.semicolon || {
            &&& next_of(self.pieces) == Next::Value || next_of(self.pieces) == Next::Closed
            &&& lines_end(self.gaps) > 0
        }
    }
}

/// The text of some statements, one after another.
pub open spec fn parts_text(parts: Seq<Part>) -> Seq<char>
    decreases parts.len(),
{
    if parts.len() == 0 {
        Seq::empty()
    } else {
        parts_text(parts.drop_last()) + parts.last().text()
    }
}

/// Where a statement starts that stands behind some others: after their last line, or after the
/// semicolon of the last of them, where that is on the same line.
pub open spec fn parts_end(parts: Seq<Part>) -> int {
    if parts.len() == 0 {
        0
    } else {
        parts_text(parts).len() - gaps_text(parts.last().gaps).len() + lines_end(parts.last().gaps)
    }
}

/// Whether a statement can start with a piece behind some others, of which it shows that they have
/// ended: with a semicolon, or with the line, where it starts with no word that goes on with one,
/// and with no brace that one of theirs might wait for.
pub open spec fn can_start(parts: Seq<Part>, pieces: Seq<Piece>) -> bool {
    &&& is_statement(pieces)
    &&& open_brackets(pieces).len() == 0
    &&& parts.len() > 0 && !parts.last().semicolon ==> match pieces[0] {
        Piece::Word(word) => word != "in"@ && word != "instanceof"@,
        Piece::Open(c) => c == '{' ==> is_calm(parts.last().pieces),
        _ => true,
    }
}

/// Whether some statements stand one behind another.
pub open spec fn are_statements(parts: Seq<Part>) -> bool {
    forall|i: int|
        0 <= i < parts.len() ==> (#[trigger] parts[i]).has_ended() && can_start(
            parts.take(i),
            parts[i].pieces,
        )
}

/// The first character between two statements.
proof fn lemma_gaps_first(gaps: Seq<Gap>)
    requires
        gaps.len() > 0,
        forall|i: int| 0 <= i < gaps.len() ==> (#[trigger] gaps[i]).is_sound(),
    ensures
        gaps_text(gaps).len() > 0,
        ({
            let c = gaps_text(gaps)[0];
            c == ' ' || c == '\t' || c == '\n' || c == '/'
        }),
    decreases gaps.len(),
{
    let init = gaps.drop_last();
    assert(gaps[gaps.len() - 1].is_sound());
    if init.len() > 0 {
        assert forall|i: int| 0 <= i < init.len() implies (#[trigger] init[i]).is_sound() by {
            assert(init[i] == gaps[i]);
        }
        lemma_gaps_first(init);
    } else {
        assert(gaps_text(init) == Seq::<char>::empty());
        assert(gaps_text(gaps)[0] == gaps[0].text()[0]);
    }
}

/// Reading the semicolon at the end of a statement ends it.
proof fn lemma_ended(read: ScanView, start: int, ended: bool, calm: bool, next: Next)
    requires
        read.is_within(Seq::empty(), start, ended, calm, next),
    ensures
        ({
            let after = read.feed(';');
            &&& after.ordered(after.at)
            &&& after.mode == Mode::Code
            &&& after.stack.len() == 0
            &&& after.last == Last::Semicolon
            &&& after.ended
            &&& after.start == start
            &&& !after.newline
            &&& after.last_end == read.at + 1
            &&& after.end == read.at + 1
            &&& after.at == read.at + 1
        }),
{
    let settled = lemma_resolved(read, ';', Seq::empty(), start, ended, calm, next);
    lemma_feed_grows(read, ';');
    lemma_code(settled, ';');
    let here = ScanView { token_at: settled.at, ..settled };
    lemma_token(here, Kind::Semicolon, settled.at + 1);
    assert(here.token(Kind::Semicolon, settled.at + 1).last == Last::Semicolon && here.token(
        Kind::Semicolon,
        settled.at + 1,
    ).ended && here.token(Kind::Semicolon, settled.at + 1).stack == here.stack) by {
        reveal(ScanView::token);
    }
}

/// Behind a statement another one starts, after its last line or its semicolon.
#[verifier::spinoff_prover]
#[verifier::rlimit(60)]
proof fn lemma_part(from: ScanView, part: Part, start: int, piece: Piece)
    requires
        from.ordered(from.at),
        is_statement(part.pieces),
        open_brackets(part.pieces).len() == 0,
        from.is_starting(part.pieces[0], start),
        part.has_ended(),
        part.semicolon || match piece {
            Piece::Word(word) => word != "in"@ && word != "instanceof"@,
            Piece::Open(c) => c == '{' ==> is_calm(part.pieces),
            _ => true,
        },
    ensures
        fed(from, part.text()).is_starting(
            piece,
            from.at + part.text().len() - gaps_text(part.gaps).len() + lines_end(part.gaps),
        ),
{
    let text = pieces_text(part.pieces);
    let gap = gaps_text(part.gaps);
    let calm = is_calm(part.pieces);
    let next = next_of(part.pieces);
    let ended = from.has_ended_one();
    lemma_pieces(from, part.pieces, start);
    lemma_fed_grows(from, text);
    let h = fed(from, text);
    assert(open_brackets(part.pieces) == Seq::<bool>::empty());
    if part.semicolon {
        lemma_ended(h, start, ended, calm, next);
        let closed = text + seq![';'];
        assert(closed.drop_last() == text);
        assert(fed(from, closed) == h.feed(';'));
        lemma_gaps(h.feed(';'), part.gaps);
        lemma_fed_add(from, closed, gap);
    } else {
        assert(part.gaps.len() > 0);
        lemma_gaps_first(part.gaps);
        let settled = lemma_resolved(h, gap[0], Seq::empty(), start, ended, calm, next);
        lemma_fed_front(h, gap);
        lemma_fed_front(settled, gap);
        lemma_gaps(settled, part.gaps);
        assert(text + Seq::<char>::empty() == text);
        lemma_fed_add(from, text, gap);
    }
}

/// Behind some statements another one starts, after their last line or semicolon.
proof fn lemma_parts(parts: Seq<Part>, pieces: Seq<Piece>)
    requires
        are_statements(parts),
        can_start(parts, pieces),
    ensures
        fed(unread(), parts_text(parts)).ordered(parts_text(parts).len() as int),
        fed(unread(), parts_text(parts)).at == parts_text(parts).len(),
        fed(unread(), parts_text(parts)).is_starting(pieces[0], parts_end(parts)),
    decreases parts.len(),
{
    lemma_fed_grows(unread(), parts_text(parts));
    if parts.len() > 0 {
        let init = parts.drop_last();
        let n = parts.len() - 1;
        let part = parts[n];
        assert(parts.take(n) == init);
        assert forall|i: int| 0 <= i < init.len() implies (#[trigger] init[i]).has_ended()
            && can_start(init.take(i), init[i].pieces) by {
            assert(init[i] == parts[i]);
            assert(init.take(i) == parts.take(i));
        }
        lemma_parts(init, part.pieces);
        lemma_part(fed(unread(), parts_text(init)), part, parts_end(init), pieces[0]);
        lemma_fed_add(unread(), parts_text(init), part.text());
    } else {
        assert(fed(unread(), parts_text(parts)) == unread());
    }
}

/// Semicolons at the end of the last statement.
proof fn lemma_semicolons(read: ScanView, semicolons: Seq<char>)
    requires
        read.ordered(read.at),
        read.mode == Mode::Code,
        read.stack.len() == 0,
        read.last == Last::Semicolon,
        !read.newline,
        read.end == read.at,
        forall|i: int| 0 <= i < semicolons.len() ==> #[trigger] semicolons[i] == ';',
    ensures
        ({
            let after = fed(read, semicolons);
            &&& after.mode == Mode::Code
            &&& after.stack.len() == 0
            &&& after.last == Last::Semicolon
            &&& after.start == read.start
            &&& !after.newline
            &&& after.end == after.at
            &&& after.at == read.at + semicolons.len()
        }),
    decreases semicolons.len(),
{
    if semicolons.len() > 0 {
        let init = semicolons.drop_last();
        assert(semicolons[semicolons.len() - 1] == ';');
        assert forall|i: int| 0 <= i < init.len() implies #[trigger] init[i] == ';' by {
            assert(init[i] == semicolons[i]);
        }
        lemma_semicolons(read, init);
        let h = fed(read, init);
        lemma_code(h, ';');
        let here = ScanView { token_at: h.at, ..h };
        lemma_token(here, Kind::Semicolon, h.at + 1);
        assert(here.token(Kind::Semicolon, h.at + 1).last == Last::Semicolon && here.token(
            Kind::Semicolon,
            h.at + 1,
        ).stack == here.stack) by {
            reveal(ScanView::token);
        }
    }
}

/// No piece ends with a carriage return.
#[verifier::spinoff_prover]
#[verifier::rlimit(60)]
proof fn lemma_pieces_last(pieces: Seq<Piece>)
    requires
        is_statement(pieces),
    ensures
        pieces_text(pieces).len() > 0,
        pieces_text(pieces).last() != '\r',
{
    let n = pieces.len() - 1;
    let piece = pieces[n];
    assert(piece.is_sound());
    match piece {
        Piece::Word(word) => assert(is_name_char(word[word.len() - 1])),
        Piece::Prefixed { word, .. } => assert(is_name_char(word[word.len() - 1])),
        Piece::Joined { word, .. } => {
            lemma_joint_words(word);
            assert(is_name_char(word[word.len() - 1]));
        },
        _ => {},
    }
    assert(piece.text().len() > 0 && piece.text().last() != '\r');
    assert(pieces_text(pieces) == pieces_text(pieces.drop_last()) + piece.text());
}

/// What stands at the end of a script, where a statement can start, is its last statement.
#[verifier::spinoff_prover]
#[verifier::rlimit(60)]
proof fn lemma_last_pieces(before: Seq<char>, last: Seq<Piece>, start: int)
    requires
        fed(unread(), before).is_starting(last[0], start),
        is_statement(last),
        open_brackets(last).len() == 0,
        next_of(last) == Next::Value || next_of(last) == Next::Closed,
    ensures
        statement_start(before + pieces_text(last)) == Some(start),
        statement_end(before + pieces_text(last)) == before.len() + pieces_text(last).len(),
{
    let text = before + pieces_text(last);
    let ended = fed(unread(), before).has_ended_one();
    lemma_fed_grows(unread(), before);
    lemma_fed_add(unread(), before, pieces_text(last));
    lemma_pieces(fed(unread(), before), last, start);
    let h = fed(unread(), text);
    lemma_fed_grows(unread(), text);
    assert(open_brackets(last) == Seq::<bool>::empty());
    lemma_pieces_last(last);
    assert(text.last() == pieces_text(last).last());
    if h.mode == Mode::Code {
        let init = text.drop_last();
        lemma_fed_grows(unread(), init);
        lemma_ends_here(fed(unread(), init), text.last());
    } else {
        lemma_token(h, h.pending()->0, h.at);
        assert(h.flush().is_placed(Seq::empty(), start, ended, is_calm(last), next_of(last)));
    }
}

/// Reading a label, at the start of a statement.
#[verifier::spinoff_prover]
#[verifier::rlimit(60)]
proof fn lemma_label(read: ScanView, label: Seq<char>, start: int)
    requires
        read.ordered(read.at),
        Piece::Word(label).is_sound(),
        is_ordinary(label),
        read.is_starting(Piece::Word(label), start),
    ensures
        ({
            let after = fed(read, label + seq![':']);
            &&& after.mode == Mode::Code
            &&& after.stack.len() == 0
            &&& after.last == Last::Head
            &&& !after.owes
            &&& after.at == read.at + label.len() + 1
        }),
{
    let text = label + seq![':'];
    assert(text.drop_last() == label);
    assert forall|i: int| 0 <= i < label.len() implies is_word_char(#[trigger] label[i]) && label[i]
        != '\n' && label[i] != '\r' && !is_blank(label[i]) by {
        assert(is_name_char(label[i]));
    }
    lemma_word_fed(read, label);
    let word = fed(read, label);
    lemma_ordinary(label, false);
    lemma_step(word, ':');
    let kind = Kind::Word(WordClass::Plain);
    assert(word.step(':') == Step::After(kind)) by {
        reveal(ScanView::step);
    }
    assert(word.begins(kind));
    let settled = word.token(kind, word.at);
    assert(settled.mode == Mode::Code && settled.stack.len() == 0 && settled.last == Last::Value
        && settled.lone && !settled.owes && !settled.newline) by {
        reveal(ScanView::token);
    }
    assert(word.feed(':') == settled.feed(':')) by {
        lemma_token(word, kind, word.at);
    }
    lemma_code(settled, ':');
    let here = ScanView { token_at: settled.at, ..settled };
    lemma_token(here, Kind::Colon, settled.at + 1);
    lemma_token(word, kind, word.at);
    assert(here.token(Kind::Colon, settled.at + 1).last == Last::Head && here.token(
        Kind::Colon,
        settled.at + 1,
    ).stack == here.stack && !here.token(Kind::Colon, settled.at + 1).owes) by {
        reveal(ScanView::token);
    }
}

/// A statement starts behind a label on a line of its own, and the label is no part of it.
#[verifier::spinoff_prover]
#[verifier::rlimit(60)]
pub proof fn law_a_label_is_no_part_of_its_statement(
    parts: Seq<Part>,
    label: Seq<char>,
    gaps: Seq<Gap>,
    last: Seq<Piece>,
)
    requires
        are_statements(parts),
        Piece::Word(label).is_sound(),
        is_ordinary(label),
        forall|i: int| 0 <= i < gaps.len() ==> (#[trigger] gaps[i]).is_sound(),
        lines_end(gaps) > 0,
        is_statement(last),
        open_brackets(last).len() == 0,
        next_of(last) == Next::Value || next_of(last) == Next::Closed,
    ensures
        ({
            let before = parts_text(parts) + (label + seq![':']);
            let text = before + gaps_text(gaps) + pieces_text(last);
            &&& statement_start(text) == Some(before.len() + lines_end(gaps))
            &&& statement_end(text) == text.len()
        }),
{
    let text = label + seq![':'];
    let before = parts_text(parts) + text;
    let word = seq![Piece::Word(label)];
    assert(word[0].is_sound() && can_follow(word.take(0), word[0]));
    assert(word.drop_last() == Seq::<Piece>::empty());
    assert(word.last() == word[0]);
    assert(open_brackets(word.drop_last()) == Seq::<bool>::empty());
    assert(open_brackets(word) == Seq::<bool>::empty());
    assert(is_statement(word));
    lemma_parts(parts, word);
    let read = fed(unread(), parts_text(parts));
    lemma_label(read, label, parts_end(parts));
    lemma_fed_add(unread(), parts_text(parts), text);
    lemma_fed_grows(unread(), before);
    lemma_gaps(fed(unread(), before), gaps);
    lemma_fed_add(unread(), before, gaps_text(gaps));
    lemma_last_pieces(before + gaps_text(gaps), last, before.len() + lines_end(gaps));
}

/// Reading `else` and a word behind a semicolon goes on with the statement.
#[verifier::spinoff_prover]
#[verifier::rlimit(60)]
proof fn lemma_else(read: ScanView, word: Seq<char>)
    requires
        read.ordered(read.at),
        read.mode == Mode::Code,
        read.stack.len() == 0,
        read.last == Last::Semicolon,
        !read.newline,
        Piece::Word(word).is_sound(),
        is_ordinary(word),
    ensures
        ({
            let after = fed(read, "else"@ + seq![' '] + word).flush();
            &&& after.last == Last::Value
            &&& after.start == read.start
            &&& after.end == read.at + 5 + word.len()
        }),
{
    reveal_strlit("else");
    reveal_strlit("import");
    reveal_strlit("export");
    reveal_strlit("if");
    reveal_strlit("for");
    reveal_strlit("while");
    reveal_strlit("with");
    reveal_strlit("await");
    let other = "else"@;
    assert("with"@[0] == 'w');
    assert(other[0] == 'e');
    lemma_word_fed(read, other);
    let a = fed(read, other);
    let kind = Kind::Word(WordClass::Else);
    lemma_step(a, ' ');
    assert(a.step(' ') == Step::After(kind)) by {
        reveal(ScanView::step);
    }
    let settled = a.token(kind, a.at);
    lemma_token(a, kind, a.at);
    assert(settled.last == Last::Head && settled.stack.len() == 0 && !settled.newline) by {
        reveal(ScanView::token);
    }
    lemma_code(settled, ' ');
    let blank = other + seq![' '];
    assert(blank.drop_last() == other);
    let b = fed(read, blank);
    assert(b == a.feed(' '));
    assert(b.mode == Mode::Code && b.last == Last::Head && b.stack.len() == 0 && !b.newline
        && b.start == read.start && b.at == read.at + 5);
    assert forall|i: int| 0 <= i < word.len() implies is_word_char(#[trigger] word[i]) && word[i]
        != '\n' && word[i] != '\r' && !is_blank(word[i]) by {
        assert(is_name_char(word[i]));
    }
    lemma_fed_add(read, blank, word);
    lemma_word_fed(b, word);
    let c = fed(b, word);
    lemma_ordinary(word, false);
    let plain = Kind::Word(WordClass::Plain);
    lemma_token(c, plain, c.at);
    assert(c.flush() == c.token(plain, c.at));
    assert(c.token(plain, c.at).last == Last::Value) by {
        reveal(ScanView::token);
    }
}

/// An `else` behind a semicolon on the same line goes on with the statement before it.
#[verifier::spinoff_prover]
#[verifier::rlimit(60)]
pub proof fn law_else_goes_on_with_its_statement(
    parts: Seq<Part>,
    pieces: Seq<Piece>,
    gaps: Seq<Gap>,
    word: Seq<char>,
)
    requires
        are_statements(parts),
        can_start(parts, pieces),
        forall|i: int| 0 <= i < gaps.len() ==> (#[trigger] gaps[i]).is_sound(),
        lines_end(gaps) == 0,
        Piece::Word(word).is_sound(),
        is_ordinary(word),
    ensures
        ({
            let before = parts_text(parts) + pieces_text(pieces) + seq![';'] + gaps_text(gaps);
            let text = before + ("else"@ + seq![' '] + word);
            &&& statement_start(text) == Some(parts_end(parts))
            &&& statement_end(text) == text.len()
        }),
{
    reveal_strlit("else");
    let start = parts_end(parts);
    let first = parts_text(parts) + pieces_text(pieces);
    let closed = first + seq![';'];
    let before = closed + gaps_text(gaps);
    lemma_parts(parts, pieces);
    lemma_fed_add(unread(), parts_text(parts), pieces_text(pieces));
    let read = fed(unread(), parts_text(parts));
    lemma_pieces(read, pieces, start);
    assert(open_brackets(pieces) == Seq::<bool>::empty());
    lemma_ended(
        fed(unread(), first),
        start,
        read.has_ended_one(),
        is_calm(pieces),
        next_of(pieces),
    );
    assert(closed.drop_last() == first);
    lemma_fed_grows(unread(), first);
    lemma_gaps(fed(unread(), closed), gaps);
    lemma_fed_add(unread(), closed, gaps_text(gaps));
    lemma_fed_grows(unread(), before);
    lemma_else(fed(unread(), before), word);
    lemma_fed_add(unread(), before, "else"@ + seq![' '] + word);
}

/// The last statement of a script is the last of those that it consists of, from its line on, or
/// from behind the semicolon before it on, whatever stands in the strings, templates, regular
/// expressions and comments of any of them, and whatever semicolons and lines stand in brackets.
#[verifier::spinoff_prover]
#[verifier::rlimit(60)]
pub proof fn law_the_last_statement_is_found(
    parts: Seq<Part>,
    last: Seq<Piece>,
    semicolons: Seq<char>,
)
    requires
        are_statements(parts),
        can_start(parts, last),
        next_of(last) == Next::Value || next_of(last) == Next::Closed,
        forall|i: int| 0 <= i < semicolons.len() ==> #[trigger] semicolons[i] == ';',
    ensures
        ({
            let text = parts_text(parts) + pieces_text(last) + semicolons;
            &&& statement_start(text) == Some(parts_end(parts))
            &&& statement_end(text) == text.len()
        }),
{
    let text = parts_text(parts) + pieces_text(last);
    let start = parts_end(parts);
    lemma_parts(parts, last);
    lemma_fed_add(unread(), parts_text(parts), pieces_text(last));
    let ended = fed(unread(), parts_text(parts)).has_ended_one();
    lemma_pieces(fed(unread(), parts_text(parts)), last, start);
    let h = fed(unread(), text);
    lemma_fed_grows(unread(), text);
    assert(open_brackets(last) == Seq::<bool>::empty());
    lemma_fed_add(unread(), text, semicolons);
    if semicolons.len() == 0 {
        assert(text + semicolons == text);
        lemma_last_pieces(parts_text(parts), last, start);
    } else {
        lemma_ended(h, start, ended, is_calm(last), next_of(last));
        let more = semicolons.drop_first();
        assert(semicolons[0] == ';');
        assert forall|i: int| 0 <= i < more.len() implies #[trigger] more[i] == ';' by {
            assert(more[i] == semicolons[i + 1]);
        }
        lemma_fed_front(h, semicolons);
        lemma_semicolons(h.feed(';'), more);
    }
}

/// A statement starts with its first piece, and its first word is not longer than that.
pub proof fn law_a_statement_starts_with_its_first_piece(pieces: Seq<Piece>)
    requires
        is_statement(pieces),
    ensures
        ({
            let text = pieces_text(pieces);
            let first = pieces[0].text();
            &&& first.len() > 0
            &&& !is_white_space(first[0])
            &&& text.len() >= first.len()
            &&& text.take(first.len() as int) == first
            &&& pieces[0] is Word && text.len() > first.len() ==> !is_name_char(
                text[first.len() as int],
            ) && !is_word_char(text[first.len() as int])
        }),
    decreases pieces.len(),
{
    let first = pieces[0].text();
    assert(pieces[0].is_sound());
    if let Piece::Word(word) = pieces[0] {
        assert(is_name_char(word[0]));
    }
    let before = pieces.drop_last();
    let n = pieces.len() - 1;
    let piece = pieces[n];
    if n == 0 {
        assert(pieces_text(before) == Seq::<char>::empty());
        assert(pieces_text(pieces) == first);
        assert(first.take(first.len() as int) == first);
    } else {
        assert forall|i: int| 0 <= i < before.len() implies (#[trigger] before[i]).is_sound()
            && can_follow(before.take(i), before[i]) by {
            assert(pieces[i] == before[i]);
            assert(pieces.take(i) == before.take(i));
        }
        assert(before[0] == pieces[0]);
        law_a_statement_starts_with_its_first_piece(before);
        let text = pieces_text(before);
        assert((text + piece.text()).take(first.len() as int) == text.take(first.len() as int));
        if pieces[0] is Word && text.len() == first.len() {
            assert(text == first) by {
                assert(text.take(first.len() as int) == text);
            }
            assert(pieces.take(n) == before);
            assert(piece.is_sound() && can_follow(before, piece));
            lemma_word_alone(before);
        }
    }
}

/// Only the first piece of a statement stands where nothing but it does.
#[verifier::spinoff_prover]
#[verifier::rlimit(60)]
proof fn lemma_word_alone(pieces: Seq<Piece>)
    requires
        is_statement(pieces),
        pieces_text(pieces) == pieces[0].text(),
    ensures
        pieces.len() == 1,
    decreases pieces.len(),
{
    if pieces.len() > 1 {
        let n = pieces.len() - 1;
        let before = pieces.drop_last();
        assert forall|i: int| 0 <= i < before.len() implies (#[trigger] before[i]).is_sound()
            && can_follow(before.take(i), before[i]) by {
            assert(pieces[i] == before[i]);
            assert(pieces.take(i) == before.take(i));
        }
        assert(before[0] == pieces[0]);
        law_a_statement_starts_with_its_first_piece(before);
        assert(pieces[n].is_sound());
        assert(pieces[n].text().len() > 0);
        assert(pieces_text(pieces).len() > pieces_text(before).len());
    }
}

/// The first of some statements stands at their start.
pub proof fn law_parts_start(parts: Seq<Part>, last: Seq<Piece>)
    requires
        are_statements(parts),
        can_start(parts, last),
    ensures
        0 <= parts_end(parts) <= parts_text(parts).len(),
        parts.len() > 0 ==> parts_text(parts).len() > 0 && !is_white_space(parts_text(parts)[0]),
    decreases parts.len(),
{
    lemma_parts(parts, last);
    if parts.len() > 0 {
        let init = parts.drop_last();
        let n = parts.len() - 1;
        assert(parts.take(n) == init);
        assert(parts[n].has_ended() && can_start(init, parts[n].pieces));
        law_a_statement_starts_with_its_first_piece(parts[n].pieces);
        let own = parts[n].text();
        assert(own[0] == pieces_text(parts[n].pieces)[0]);
        assert(pieces_text(parts[n].pieces)[0] == parts[n].pieces[0].text()[0]) by {
            let first = parts[n].pieces[0].text();
            assert(pieces_text(parts[n].pieces).take(first.len() as int)[0] == first[0]);
        }
        if n > 0 {
            assert forall|i: int| 0 <= i < init.len() implies (#[trigger] init[i]).has_ended()
                && can_start(init.take(i), init[i].pieces) by {
                assert(init[i] == parts[i]);
                assert(init.take(i) == parts.take(i));
            }
            law_parts_start(init, parts[n].pieces);
        } else {
            assert(parts_text(init) == Seq::<char>::empty());
        }
    }
}

/// The last character of a piece that is no semicolon is none.
proof fn lemma_piece_last(piece: Piece)
    requires
        piece.is_sound(),
        piece != Piece::Sign(';'),
    ensures
        piece.text().len() > 0,
        piece.text()[piece.text().len() - 1] != ';',
{
    match piece {
        Piece::Word(word) => assert(is_name_char(word[word.len() - 1])),
        Piece::Prefixed { word, .. } => assert(is_name_char(word[word.len() - 1])),
        Piece::Joined { word, .. } => {
            lemma_joint_words(word);
            assert(is_name_char(word[word.len() - 1]));
        },
        _ => {},
    }
}

/// The last character of a statement that ends with a value is no semicolon.
pub proof fn law_a_value_ends_with_no_semicolon(pieces: Seq<Piece>)
    requires
        is_statement(pieces),
        next_of(pieces) == Next::Value || next_of(pieces) == Next::Closed,
    ensures
        pieces_text(pieces).len() > 0,
        pieces_text(pieces)[pieces_text(pieces).len() - 1] != ';',
{
    let n = pieces.len() - 1;
    let piece = pieces[n];
    assert(piece.is_sound());
    lemma_piece_last(piece);
    assert(pieces_text(pieces) == pieces_text(pieces.drop_last()) + piece.text());
}

/// A line of an object: what is on it, up to its last comma, and what stands behind that.
pub ghost struct Entry {
    pub pieces: Seq<Piece>,
    pub gaps: Seq<Gap>,
}

impl Entry {
    /// The text of the line.
    pub open spec fn text(self) -> Seq<char> {
        pieces_text(self.pieces) + gaps_text(self.gaps)
    }

    /// Whether the line is one: it ends with a comma, and leaves no bracket open.
    pub open spec fn is_sound(self) -> bool {
        &&& is_statement(self.pieces)
        &&& self.pieces.last() == Piece::Sign(',')
        &&& open_brackets(self.pieces).len() == 0
        &&& is_calm(self.pieces)
        &&& forall|k: int| 0 <= k < self.gaps.len() ==> (#[trigger] self.gaps[k]).is_sound()
        &&& lines_end(self.gaps) > 0
    }
}

/// The text of some lines of an object.
pub open spec fn entries_text(entries: Seq<Entry>) -> Seq<char>
    decreases entries.len(),
{
    if entries.len() == 0 {
        Seq::empty()
    } else {
        entries_text(entries.drop_last()) + entries.last().text()
    }
}

/// A line of an object that ends with a comma ends no statement.
#[verifier::spinoff_prover]
#[verifier::rlimit(60)]
proof fn lemma_entry(from: ScanView, entry: Entry, start: int) -> (next: int)
    requires
        from.ordered(from.at),
        entry.is_sound(),
        from.is_starting(entry.pieces[0], start),
        !from.has_ended_one(),
    ensures
        ({
            let after = fed(from, entry.text());
            &&& !after.has_ended_one()
            &&& after.mode == Mode::Code
            &&& after.stack.len() == 0
            &&& after.last == Last::Head
            &&& after.newline
            &&& !after.owes
            &&& after.next_start() == next
        }),
{
    let pieces = entry.pieces;
    let n = pieces.len() - 1;
    let init = pieces.drop_last();
    assert(pieces[n] == Piece::Sign(','));
    assert(pieces.take(n) == init);
    assert forall|i: int| 0 <= i < init.len() implies (#[trigger] init[i]).is_sound()
        && can_follow(init.take(i), init[i]) by {
        assert(pieces[i] == init[i]);
        assert(pieces.take(i) == init.take(i));
    }
    assert(init[0] == pieces[0]);
    lemma_pieces(from, init, start);
    let h = fed(from, pieces_text(init));
    lemma_fed_grows(from, pieces_text(init));
    let open = open_brackets(init);
    assert(open == open_brackets(pieces));
    assert(open == Seq::<bool>::empty());
    assert(is_calm(init)) by {
        assert forall|i: int| 0 <= i < init.len() implies (
        #[trigger] init[i] matches Piece::Word(word) ==> is_ordinary(word)) by {
            assert(pieces[i] == init[i]);
        }
    }
    assert(init[n - 1].is_sound());
    assert(can_follow(init, pieces[n]));
    lemma_apart(h, init, pieces[n]);
    let settled = lemma_resolved(h, ',', open, start, false, true, next_of(init));
    lemma_code(settled, ',');
    lemma_feed_grows(settled, ',');
    let here = ScanView { token_at: settled.at, ..settled };
    let closed = settled.feed(',');
    assert(closed.last == Last::Head && closed.stack.len() == 0 && !closed.ended && !closed.owes
        && closed.mode == Mode::Code && !closed.newline) by {
        reveal(ScanView::token);
    }
    assert(pieces_text(pieces) == pieces_text(init) + seq![',']);
    assert((pieces_text(init) + seq![',']).drop_last() == pieces_text(init));
    assert(fed(from, pieces_text(pieces)) == h.feed(','));
    lemma_fed_add(from, pieces_text(pieces), gaps_text(entry.gaps));
    lemma_gaps(closed, entry.gaps);
    fed(from, entry.text()).next_start()
}

/// Lines of an object that end with commas end no statement.
proof fn lemma_entries(from: ScanView, entries: Seq<Entry>, start: int) -> (next: int)
    requires
        from.ordered(from.at),
        from.mode == Mode::Code,
        from.stack.len() == 0,
        from.last == Last::Start,
        from.next_start() == start,
        !from.ended,
        !from.owes,
        forall|i: int|
            0 <= i < entries.len() ==> (#[trigger] entries[i]).is_sound(),
    ensures
        ({
            let after = fed(from, entries_text(entries));
            &&& after.ordered(after.at)
            &&& !after.has_ended_one()
            &&& after.mode == Mode::Code
            &&& after.stack.len() == 0
            &&& after.last == Last::Start || (after.last == Last::Head && after.newline)
            &&& !after.owes
            &&& after.next_start() == next
        }),
    decreases entries.len(),
{
    lemma_fed_grows(from, entries_text(entries));
    if entries.len() == 0 {
        start
    } else {
        let init = entries.drop_last();
        let n = entries.len() - 1;
        let entry = entries[n];
        assert forall|i: int| 0 <= i < init.len() implies (#[trigger] init[i]).is_sound() by {
            assert(init[i] == entries[i]);
        }
        let at = lemma_entries(from, init, start);
        lemma_fed_add(from, entries_text(init), entry.text());
        let read = fed(from, entries_text(init));
        assert(entry.is_sound());
        if let Piece::Word(word) = entry.pieces[0] {
            assert(is_ordinary(word));
        }
        lemma_entry(read, entry, at)
    }
}

/// What is in the braces of an object over several lines, each of which but the last ends with a
/// comma, are no statements, whatever stands in its strings, templates and brackets.
#[verifier::spinoff_prover]
#[verifier::rlimit(60)]
pub proof fn law_an_object_holds_no_statements(
    before: Seq<Gap>,
    entries: Seq<Entry>,
    last: Seq<Piece>,
    after: Seq<Gap>,
)
    requires
        forall|i: int| 0 <= i < before.len() ==> (#[trigger] before[i]).is_sound(),
        forall|i: int| 0 <= i < entries.len() ==> (#[trigger] entries[i]).is_sound(),
        last.len() > 0 ==> is_statement(last) && open_brackets(last).len() == 0 && is_calm(last)
            && (next_of(last) == Next::Value || next_of(last) == Next::Closed),
        last.len() == 0 ==> after.len() == 0,
        forall|i: int| 0 <= i < after.len() ==> (#[trigger] after[i]).is_sound(),
    ensures
        !scan(
            gaps_text(before) + entries_text(entries) + pieces_text(last) + gaps_text(after),
        ).ended,
{
    let lead = gaps_text(before);
    let body = entries_text(entries);
    lemma_gaps(unread(), before);
    lemma_fed_grows(unread(), lead);
    let from = fed(unread(), lead);
    let start = lemma_entries(from, entries, from.next_start());
    lemma_fed_add(unread(), lead, body);
    let read = fed(unread(), lead + body);
    lemma_fed_add(unread(), lead + body, pieces_text(last));
    lemma_fed_add(unread(), lead + body + pieces_text(last), gaps_text(after));
    if last.len() > 0 {
        if let Piece::Word(word) = last[0] {
            assert(is_ordinary(word));
        }
        lemma_pieces(read, last, start);
        let h = fed(read, pieces_text(last));
        assert(open_brackets(last) == Seq::<bool>::empty());
        if after.len() > 0 {
            lemma_gaps_first(after);
            let gap = gaps_text(after);
            let settled = lemma_resolved(
                h,
                gap[0],
                Seq::empty(),
                start,
                false,
                is_calm(last),
                next_of(last),
            );
            lemma_fed_front(h, gap);
            lemma_fed_front(settled, gap);
            lemma_gaps(settled, after);
        } else if h.mode != Mode::Code {
            assert(h.flush().is_placed(Seq::empty(), start, false, is_calm(last), next_of(last)));
        }
    }
}

/// A token does not undo that a statement has ended.
proof fn lemma_token_ended(read: ScanView, kind: Kind, to: int)
    requires
        read.ended,
    ensures
        read.token(kind, to).ended,
{
    reveal(ScanView::token);
}

/// Nor does the first character of one.
proof fn lemma_code_ended(read: ScanView, c: char)
    requires
        read.ended,
    ensures
        read.code(c).ended,
{
    lemma_code(read, c);
    lemma_token_ended(ScanView { token_at: read.at, ..read }, sign(c), read.at + 1);
}

/// Nor does anything that follows.
proof fn lemma_ended_stays(read: ScanView, text: Seq<char>)
    requires
        read.ended,
    ensures
        fed(read, text).ended,
        fed(read, text).flush().ended,
    decreases text.len(),
{
    if text.len() > 0 {
        let c = text.last();
        lemma_ended_stays(read, text.drop_last());
        let h = fed(read, text.drop_last());
        if c == '\r' {
        } else if h.mode == Mode::Code {
            lemma_code_ended(h, c);
        } else {
            lemma_step(h, c);
            match h.step(c) {
                Step::Token(kind) => {
                    lemma_token_ended(h, kind, h.at + 1);
                },
                Step::After(kind) => {
                    lemma_token_ended(h, kind, h.at);
                    lemma_code_ended(h.token(kind, h.at), c);
                },
                Step::AfterBlank => {
                    lemma_code_ended(h.blank(h.at), c);
                },
                _ => {},
            }
        }
    }
    let h = fed(read, text);
    if let Some(kind) = h.pending() {
        lemma_token_ended(h, kind, h.at);
    }
}

/// A semicolon behind a statement ends it.
proof fn lemma_semicolon_ends(from: ScanView, pieces: Seq<Piece>)
    requires
        from.ordered(from.at),
        is_statement(pieces),
        open_brackets(pieces).len() == 0,
        from.is_starting(pieces[0], from.next_start()),
    ensures
        fed(from, pieces_text(pieces) + seq![';']).ended,
{
    let start = from.next_start();
    let text = pieces_text(pieces);
    lemma_pieces(from, pieces, start);
    assert(open_brackets(pieces) == Seq::<bool>::empty());
    let h = fed(from, text);
    lemma_ended(h, start, from.has_ended_one(), is_calm(pieces), next_of(pieces));
    assert((text + seq![';']).drop_last() == text);
    assert(fed(from, text + seq![';']) == h.feed(';'));
}

/// What is in braces are statements where a semicolon ends the first of them, whatever follows it.
pub proof fn law_a_block_holds_statements(before: Seq<Gap>, pieces: Seq<Piece>, rest: Seq<char>)
    requires
        forall|i: int| 0 <= i < before.len() ==> (#[trigger] before[i]).is_sound(),
        is_statement(pieces),
        open_brackets(pieces).len() == 0,
    ensures
        scan(gaps_text(before) + pieces_text(pieces) + seq![';'] + rest).ended,
{
    let lead = gaps_text(before);
    let first = pieces_text(pieces) + seq![';'];
    lemma_gaps(unread(), before);
    lemma_fed_grows(unread(), lead);
    let from = fed(unread(), lead);
    lemma_semicolon_ends(from, pieces);
    lemma_fed_add(unread(), lead, first);
    lemma_fed_add(unread(), lead + first, rest);
    lemma_ended_stays(fed(from, first), rest);
    assert(lead + pieces_text(pieces) + seq![';'] + rest == lead + first + rest);
}

} // verus!
