//! Finding the last statement of a script.
//!
//! A script is read character by character. A statement ends at a semicolon, or at the end of a
//! line that the next line does not go on with, outside brackets, strings, templates, patterns and
//! comments. A line goes on with the one before it where it starts with what cannot start a
//! statement, or where the one before it ends with what cannot end one.
use vstd::prelude::*;

use crate::text::{code_point, same_chars, to_chars, CharClass};
#[allow(unused_imports)]
use crate::text::is_white_space;

verus! {

/// What a word means to the statement that it stands in.
#[derive(Clone, Copy, PartialEq, Eq, Structural)]
pub enum WordClass {
    /// A name, a number, or a word that can end a statement as a name does.
    Plain,
    /// A word that starts an import or an export.
    Bare,
    /// A word that is followed by a condition in brackets, and that by a statement.
    Control,
    /// `await`.
    Await,
    /// `else`.
    Else,
    /// A word that what follows it on its line belongs to, but not the next line.
    Leading,
    /// A word that owes a block.
    Owing,
    /// A word between two operands.
    Joint,
    /// A word before an operand.
    Operand,
}

/// An open bracket.
#[derive(Clone, Copy, PartialEq, Eq, Structural)]
pub enum Bracket {
    /// A round or a square one.
    Plain,
    /// A round one that holds the condition of a statement.
    Control,
    Brace,
    /// A hole of a template.
    Hole,
}

/// What a token is to the statement that it stands in.
#[derive(Clone, Copy, PartialEq, Eq, Structural)]
pub enum Kind {
    Semicolon,
    Comma,
    Colon,
    Dot,
    OpenRound,
    OpenSquare,
    OpenBrace,
    /// A closing bracket.
    Close,
    /// A string or a pattern.
    Text,
    /// A part of a template: whether it goes on after a hole, and whether it stops at one.
    Template { resumes: bool, opens: bool },
    /// `++` or `--`.
    Step,
    /// A plus or a minus.
    Sign,
    /// A sign that can only stand before an operand.
    Prefix,
    /// Any other sign: none of them can start a statement.
    Operator,
    Word(WordClass),
}

/// What the last token was.
#[derive(Clone, Copy, PartialEq, Eq, Structural)]
pub enum Last {
    /// There was none that starts a statement.
    Start,
    /// It can end a statement.
    Value,
    /// A closing brace.
    Brace,
    /// It is followed by an operand, be it on the next line.
    Operator,
    /// A dot, which is followed by a name.
    Dot,
    /// A word that is followed by a condition in brackets.
    Control,
    /// What follows it on its line belongs to it, but not the next line.
    Head,
    Semicolon,
}

/// What is being read.
#[derive(Clone, Copy, PartialEq, Eq, Structural)]
pub enum Mode {
    /// A token comes next.
    Code,
    Word,
    /// A dot, which may start a number.
    Point,
    /// A slash, of which it is open what it starts.
    Slash,
    /// A plus or a minus, which may come twice.
    Twice(char),
    /// An exclamation mark, which may start a comparison.
    Bang,
    /// A comment up to the end of its line.
    Line,
    /// A comment between marks: whether a star was last, and whether it spans lines.
    Comment { star: bool, broken: bool },
    Quoted { quote: char, escaped: bool },
    Template { resumes: bool, dollar: bool, escaped: bool },
    /// A regular expression: whether it is within a class of characters.
    Pattern { class: bool, escaped: bool },
}

/// Whether `c` is blank, and does not end a line.
pub open spec fn is_blank(c: char) -> bool {
    (is_white_space(c) || c == '\u{feff}') && c != '\n'
}

/// Whether `c` is a digit.
pub open spec fn is_digit(c: char) -> bool {
    '0' <= c <= '9'
}

/// Whether `c` can be a part of a name or a number.
pub open spec fn is_word_char(c: char) -> bool {
    ||| 'a' <= c <= 'z'
    ||| 'A' <= c <= 'Z'
    ||| is_digit(c)
    ||| c == '_' || c == '$' || c == '#' || c == '@' || c == '\\'
    ||| c as int >= 0x80 && !is_blank(c)
}

/// Whether `c` goes on with a word: a dot does so with a number.
pub open spec fn extends_word(word: Seq<char>, c: char) -> bool {
    is_word_char(c) || (c == '.' && word.len() > 0 && is_digit(word[0]))
}

/// What a word means, where `called` tells whether a bracket or a dot follows it at once.
pub open spec fn word_class(word: Seq<char>, called: bool) -> WordClass {
    if word == "import"@ {
        if called {
            WordClass::Plain
        } else {
            WordClass::Bare
        }
    } else if word == "export"@ {
        WordClass::Bare
    } else if word == "if"@ || word == "for"@ || word == "while"@ || word == "with"@ {
        WordClass::Control
    } else if word == "await"@ {
        WordClass::Await
    } else if word == "else"@ {
        WordClass::Else
    } else if word == "do"@ || word == "return"@ || word == "throw"@ || word == "yield"@ || word
        == "const"@ || word == "let"@ || word == "var"@ {
        WordClass::Leading
    } else if word == "function"@ || word == "class"@ || word == "switch"@ || word == "try"@ || word
        == "catch"@ || word == "finally"@ {
        WordClass::Owing
    } else if word == "in"@ || word == "instanceof"@ {
        WordClass::Joint
    } else if word == "typeof"@ || word == "void"@ || word == "delete"@ || word == "new"@ || word
        == "case"@ {
        WordClass::Operand
    } else {
        WordClass::Plain
    }
}

/// What a sign of one character is.
pub open spec fn sign(c: char) -> Kind {
    if c == ';' {
        Kind::Semicolon
    } else if c == ',' {
        Kind::Comma
    } else if c == ':' {
        Kind::Colon
    } else if c == '(' {
        Kind::OpenRound
    } else if c == '[' {
        Kind::OpenSquare
    } else if c == '{' {
        Kind::OpenBrace
    } else if c == ')' || c == ']' || c == '}' {
        Kind::Close
    } else if c == '~' {
        Kind::Prefix
    } else {
        Kind::Operator
    }
}

/// Whether a statement that starts with this token can go on with a line that starts with an
/// operator: it is no import or export, and none that consists of other statements.
pub open spec fn starts_plain(kind: Kind) -> bool {
    match kind {
        Kind::Word(WordClass::Bare) => false,
        Kind::Word(WordClass::Control) => false,
        Kind::Word(WordClass::Else) => false,
        Kind::Word(WordClass::Owing) => false,
        _ => true,
    }
}

/// What a word is as the last token.
pub open spec fn word_last(last: Last, class: WordClass) -> Last {
    if last == Last::Dot {
        Last::Value
    } else {
        match class {
            WordClass::Plain => Last::Value,
            WordClass::Bare => Last::Value,
            WordClass::Owing => Last::Value,
            WordClass::Control => Last::Control,
            WordClass::Await => if last == Last::Control {
                Last::Control
            } else {
                Last::Operator
            },
            WordClass::Else => Last::Head,
            WordClass::Leading => Last::Head,
            WordClass::Joint => Last::Operator,
            WordClass::Operand => Last::Operator,
        }
    }
}

/// What a closing bracket is as the last token.
pub open spec fn closing_last(bracket: Bracket) -> Last {
    match bracket {
        Bracket::Control => Last::Head,
        Bracket::Brace => Last::Brace,
        _ => Last::Value,
    }
}

/// How far a script has been read, and what is known of its last statement.
#[verifier::ext_equal]
pub ghost struct ScanView {
    /// What is being read.
    pub mode: Mode,
    /// The word that is being read, or that was read last.
    pub word: Seq<char>,
    /// The open brackets.
    pub stack: Seq<Bracket>,
    /// What the last token was.
    pub last: Last,
    /// Whether the last statement can go on with a line that starts with an operator.
    pub plain: bool,
    /// Whether a block is owed.
    pub owes: bool,
    /// Whether the last statement is one word so far.
    pub lone: bool,
    /// Whether a line has ended since the last token.
    pub newline: bool,
    /// Whether a statement has ended, at a semicolon or the end of a line.
    pub ended: bool,
    /// How many characters have been read.
    pub at: int,
    /// Where the token starts that is being read.
    pub token_at: int,
    /// Where the last line ended.
    pub break_end: int,
    /// Where the last token ended.
    pub last_end: int,
    /// Where the last statement ends, with the comments that follow it on its line.
    pub end: int,
    /// Where the last statement starts, with the comments that precede it on its line.
    pub start: int,
}

impl ScanView {
    /// Whether a slash starts a pattern here: an operand comes next, or a line does.
    pub open spec fn operand(self) -> bool {
        match self.last {
            Last::Value => self.newline,
            Last::Brace => self.newline,
            Last::Control => false,
            _ => true,
        }
    }

    /// Whether the innermost open bracket is a hole of a template.
    pub open spec fn hole(self) -> bool {
        self.stack.len() > 0 && self.stack.last() == Bracket::Hole
    }

    /// Whether a token at the start of a line goes on with the statement before it.
    pub open spec fn joins(self, kind: Kind) -> bool {
        match kind {
            Kind::Operator => self.plain,
            Kind::Colon => self.plain,
            Kind::Dot => self.plain,
            Kind::Word(WordClass::Joint) => self.plain,
            Kind::Sign => self.plain && self.last == Last::Value,
            Kind::OpenBrace => self.owes,
            _ => false,
        }
    }

    /// Whether a token starts a statement.
    pub open spec fn begins(self, kind: Kind) -> bool {
        &&& self.stack.len() == 0
        &&& kind != Kind::Semicolon
        &&& match self.last {
            Last::Start => true,
            Last::Semicolon => self.newline || (kind != Kind::Word(WordClass::Else) && kind
                != Kind::Close),
            Last::Head => self.newline,
            Last::Value => self.newline && !self.joins(kind),
            Last::Brace => self.newline && !self.joins(kind),
            _ => false,
        }
    }

    /// Where a statement starts that starts with the next token.
    pub open spec fn next_start(self) -> int {
        if self.newline {
            self.break_end
        } else {
            self.last_end
        }
    }

    /// The statement that a token starts, if it starts one.
    pub open spec fn begin(self, kind: Kind) -> ScanView {
        if self.begins(kind) {
            ScanView {
                start: self.next_start(),
                plain: starts_plain(kind),
                owes: false,
                lone: kind is Word,
                ended: self.ended || ((self.last == Last::Value || self.last == Last::Brace)
                    && kind != Kind::Comma),
                ..self
            }
        } else {
            ScanView { lone: self.lone && kind == Kind::Colon, ..self }
        }
    }

    /// An opening bracket.
    pub open spec fn open(self, bracket: Bracket) -> ScanView {
        ScanView {
            stack: self.stack.push(bracket),
            last: Last::Operator,
            owes: self.owes && !(self.stack.len() == 0 && bracket == Bracket::Brace),
            ..self
        }
    }

    /// A closing bracket.
    pub open spec fn close(self) -> ScanView {
        if self.stack.len() == 0 {
            ScanView { last: Last::Value, ..self }
        } else {
            ScanView {
                stack: self.stack.drop_last(),
                last: closing_last(self.stack.last()),
                ..self
            }
        }
    }

    /// A part of a template.
    pub open spec fn template(self, resumes: bool, opens: bool) -> ScanView {
        let stack = if resumes && self.stack.len() > 0 {
            self.stack.drop_last()
        } else {
            self.stack
        };
        if opens {
            ScanView { stack: stack.push(Bracket::Hole), last: Last::Operator, ..self }
        } else {
            ScanView { stack, last: Last::Value, ..self }
        }
    }

    /// A token in its statement.
    pub open spec fn put(self, kind: Kind) -> ScanView {
        match kind {
            Kind::OpenRound => self.open(
                if self.last == Last::Control {
                    Bracket::Control
                } else {
                    Bracket::Plain
                },
            ),
            Kind::OpenSquare => self.open(Bracket::Plain),
            Kind::OpenBrace => self.open(Bracket::Brace),
            Kind::Close => self.close(),
            Kind::Template { resumes, opens } => self.template(resumes, opens),
            Kind::Semicolon => if self.stack.len() == 0 {
                ScanView {
                    last: if self.last == Last::Start {
                        Last::Start
                    } else {
                        Last::Semicolon
                    },
                    ended: true,
                    ..self
                }
            } else {
                ScanView { last: Last::Operator, ..self }
            },
            Kind::Comma => ScanView {
                last: if self.stack.len() == 0 {
                    Last::Head
                } else {
                    Last::Operator
                },
                ..self
            },
            Kind::Colon => ScanView {
                last: if self.lone {
                    Last::Head
                } else {
                    Last::Operator
                },
                lone: false,
                ..self
            },
            Kind::Dot => ScanView { last: Last::Dot, ..self },
            Kind::Text => ScanView { last: Last::Value, ..self },
            Kind::Step => ScanView { last: Last::Value, ..self },
            Kind::Word(class) => ScanView {
                last: word_last(self.last, class),
                owes: self.owes || (class == WordClass::Owing && self.stack.len() == 0 && self.last
                    != Last::Dot),
                ..self
            },
            _ => ScanView { last: Last::Operator, ..self },
        }
    }

    /// A token that ends at `to`.
    #[verifier::opaque]
    pub open spec fn token(self, kind: Kind, to: int) -> ScanView {
        let after = self.begin(kind).put(kind);
        ScanView { mode: Mode::Code, newline: false, last_end: to, end: to, ..after }
    }

    /// Blank space or a comment that ends at `to`.
    pub open spec fn blank(self, to: int) -> ScanView {
        ScanView {
            mode: Mode::Code,
            end: if self.newline {
                self.end
            } else {
                to
            },
            ..self
        }
    }

    /// The end of a line, or a comment that spans lines, that ends at `to`.
    pub open spec fn line_break(self, to: int) -> ScanView {
        ScanView { mode: Mode::Code, newline: true, break_end: to, ..self }
    }

    /// What is being read after the first character of a token of more characters.
    pub open spec fn entered(self, c: char) -> Option<Mode> {
        if is_word_char(c) {
            Some(Mode::Word)
        } else if c == '.' {
            Some(Mode::Point)
        } else if c == '/' {
            Some(Mode::Slash)
        } else if c == '+' || c == '-' {
            Some(Mode::Twice(c))
        } else if c == '!' {
            Some(Mode::Bang)
        } else if c == '"' || c == '\'' {
            Some(Mode::Quoted { quote: c, escaped: false })
        } else if c == '`' || (c == '}' && self.hole()) {
            Some(Mode::Template { resumes: c == '}', dollar: false, escaped: false })
        } else {
            None
        }
    }

    /// The first character of a token, or a character outside tokens.
    #[verifier::opaque]
    pub open spec fn code(self, c: char) -> ScanView {
        let here = ScanView { token_at: self.at, ..self };
        if c == '\n' {
            here.line_break(self.at + 1)
        } else if is_blank(c) {
            here.blank(self.at + 1)
        } else {
            match self.entered(c) {
                Some(mode) => ScanView {
                    mode,
                    word: if mode == Mode::Word {
                        seq![c]
                    } else {
                        self.word
                    },
                    ..here
                },
                None => here.token(sign(c), self.at + 1),
            }
        }
    }

    /// What a character of a pattern amounts to.
    pub open spec fn pattern_step(self, c: char, class: bool, escaped: bool) -> Step {
        if c == '\n' {
            Step::After(Kind::Operator)
        } else if escaped {
            Step::Stay(Mode::Pattern { class, escaped: false })
        } else if c == '/' && !class {
            Step::Token(Kind::Text)
        } else {
            Step::Stay(
                Mode::Pattern { class: c == '[' || (class && c != ']'), escaped: c == '\\' },
            )
        }
    }

    /// What one more character amounts to, within a token or a comment.
    #[verifier::opaque]
    pub open spec fn step(self, c: char) -> Step {
        match self.mode {
            Mode::Code => Step::Blank,
            Mode::Word => if extends_word(self.word, c) {
                Step::Stay(Mode::Word)
            } else {
                Step::After(Kind::Word(word_class(self.word, c == '(' || c == '.')))
            },
            Mode::Point => if is_digit(c) {
                Step::Stay(Mode::Word)
            } else {
                Step::After(Kind::Dot)
            },
            Mode::Slash => if c == '/' {
                Step::Stay(Mode::Line)
            } else if c == '*' {
                Step::Stay(Mode::Comment { star: false, broken: false })
            } else if self.operand() {
                self.pattern_step(c, false, false)
            } else {
                Step::After(Kind::Operator)
            },
            Mode::Twice(d) => if c == d {
                Step::Token(Kind::Step)
            } else {
                Step::After(Kind::Sign)
            },
            Mode::Bang => if c == '=' || c == ';' {
                Step::After(Kind::Operator)
            } else {
                Step::After(Kind::Prefix)
            },
            Mode::Line => if c == '\n' {
                Step::AfterBlank
            } else {
                Step::Stay(Mode::Line)
            },
            Mode::Comment { star, broken } => if star && c == '/' {
                if broken {
                    Step::Break
                } else {
                    Step::Blank
                }
            } else {
                Step::Stay(Mode::Comment { star: c == '*', broken: broken || c == '\n' })
            },
            Mode::Quoted { quote, escaped } => if escaped {
                Step::Stay(Mode::Quoted { quote, escaped: false })
            } else if c == quote {
                Step::Token(Kind::Text)
            } else if c == '\n' {
                Step::After(Kind::Text)
            } else {
                Step::Stay(Mode::Quoted { quote, escaped: c == '\\' })
            },
            Mode::Template { resumes, dollar, escaped } => if escaped {
                Step::Stay(Mode::Template { resumes, dollar: false, escaped: false })
            } else if c == '`' {
                Step::Token(Kind::Template { resumes, opens: false })
            } else if dollar && c == '{' {
                Step::Token(Kind::Template { resumes, opens: true })
            } else {
                Step::Stay(Mode::Template { resumes, dollar: c == '$', escaped: c == '\\' })
            },
            Mode::Pattern { class, escaped } => self.pattern_step(c, class, escaped),
        }
    }

    /// What is known after a step.
    #[verifier::opaque]
    pub open spec fn taken(self, c: char, step: Step) -> ScanView {
        match step {
            Step::Stay(mode) => ScanView {
                mode,
                word: if self.mode == Mode::Word {
                    self.word.push(c)
                } else if self.mode == Mode::Point {
                    seq![c]
                } else {
                    self.word
                },
                ..self
            },
            Step::Token(kind) => self.token(kind, self.at + 1),
            Step::After(kind) => self.token(kind, self.at).code(c),
            Step::Blank => self.blank(self.at + 1),
            Step::AfterBlank => self.blank(self.at).code(c),
            Step::Break => self.line_break(self.at + 1),
        }
    }

    /// One more character. Carriage returns do not count.
    pub open spec fn feed(self, c: char) -> ScanView {
        let after = if c == '\r' {
            self
        } else if self.mode == Mode::Code {
            self.code(c)
        } else {
            self.taken(c, self.step(c))
        };
        ScanView { at: self.at + 1, ..after }
    }

    /// What token is being read, should the script end here.
    pub open spec fn pending(self) -> Option<Kind> {
        match self.mode {
            Mode::Code => None,
            Mode::Word => Some(Kind::Word(word_class(self.word, false))),
            Mode::Point => Some(Kind::Dot),
            Mode::Slash => Some(Kind::Operator),
            Mode::Twice(_) => Some(Kind::Sign),
            Mode::Bang => Some(Kind::Operator),
            Mode::Line => None,
            Mode::Comment { .. } => None,
            Mode::Quoted { .. } => Some(Kind::Text),
            Mode::Template { resumes, .. } => Some(Kind::Template { resumes, opens: false }),
            Mode::Pattern { .. } => Some(Kind::Operator),
        }
    }

    /// The end of the script.
    pub open spec fn flush(self) -> ScanView {
        match self.pending() {
            Some(kind) => self.token(kind, self.at),
            None => if self.mode == Mode::Code {
                self
            } else {
                self.blank(self.at)
            },
        }
    }
}

/// What one more character amounts to, within a token or a comment.
pub ghost enum Step {
    /// It goes on with what is being read.
    Stay(Mode),
    /// It ends a token.
    Token(Kind),
    /// It comes after a token.
    After(Kind),
    /// It ends a comment.
    Blank,
    /// It comes after a comment.
    AfterBlank,
    /// It ends a comment that spans lines.
    Break,
}

/// Nothing has been read.
pub open spec fn unread() -> ScanView {
    ScanView {
        mode: Mode::Code,
        word: Seq::empty(),
        stack: Seq::empty(),
        last: Last::Start,
        plain: true,
        owes: false,
        lone: false,
        newline: false,
        ended: false,
        at: 0,
        token_at: 0,
        break_end: 0,
        last_end: 0,
        end: 0,
        start: 0,
    }
}

/// What is known once `text` has been read from `from` on.
pub open spec fn fed(from: ScanView, text: Seq<char>) -> ScanView
    decreases text.len(),
{
    if text.len() == 0 {
        from
    } else {
        fed(from, text.drop_last()).feed(text.last())
    }
}

/// What is known of a script.
pub open spec fn scan(text: Seq<char>) -> ScanView {
    fed(unread(), text).flush()
}

/// What is known of the statements of a script.
pub struct Statements {
    /// Where the last statement starts, with the comments that precede it on its line; nothing
    /// where there is none.
    pub start: Option<usize>,
    /// Where the last statement ends, with the comments that follow it on its line.
    pub end: usize,
    /// Whether a statement has ended.
    pub ended: bool,
}

/// Where the last statement of a script starts, if there is one.
pub open spec fn statement_start(text: Seq<char>) -> Option<int> {
    if scan(text).last == Last::Start {
        None
    } else {
        Some(scan(text).start)
    }
}

/// Where the last statement of a script ends.
pub open spec fn statement_end(text: Seq<char>) -> int {
    scan(text).end
}

/// Tells whether `c` is blank, and does not end a line.
fn blank_char(c: char) -> (res: bool)
    ensures
        res == is_blank(c),
{
    (CharClass::WhiteSpace.contains(c) || c == '\u{feff}') && c != '\n'
}

/// Tells whether `c` is a digit.
fn digit_char(c: char) -> (res: bool)
    ensures
        res == is_digit(c),
{
    let n: u32 = code_point(c);
    0x30 <= n && n <= 0x39
}

/// Tells whether `c` can be a part of a name or a number.
pub fn word_char(c: char) -> (res: bool)
    ensures
        res == is_word_char(c),
{
    let n: u32 = code_point(c);
    (0x61 <= n && n <= 0x7a) || (0x41 <= n && n <= 0x5a) || digit_char(c) || c == '_' || c == '$'
        || c == '#' || c == '@' || c == '\\' || (n >= 0x80 && !blank_char(c))
}

/// Tells whether a word is this one.
fn is_word(word: &Vec<char>, text: &str) -> (res: bool)
    ensures
        res == (word@ == text@),
{
    same_chars(word, &to_chars(text))
}

/// What a word means.
fn classify(word: &Vec<char>, called: bool) -> (res: WordClass)
    ensures
        res == word_class(word@, called),
{
    if is_word(word, "import") {
        if called {
            WordClass::Plain
        } else {
            WordClass::Bare
        }
    } else if is_word(word, "export") {
        WordClass::Bare
    } else if is_word(word, "if") || is_word(word, "for") || is_word(word, "while") || is_word(
        word,
        "with",
    ) {
        WordClass::Control
    } else if is_word(word, "await") {
        WordClass::Await
    } else if is_word(word, "else") {
        WordClass::Else
    } else if is_word(word, "do") || is_word(word, "return") || is_word(word, "throw") || is_word(
        word,
        "yield",
    ) || is_word(word, "const") || is_word(word, "let") || is_word(word, "var") {
        WordClass::Leading
    } else if is_word(word, "function") || is_word(word, "class") || is_word(word, "switch")
        || is_word(word, "try") || is_word(word, "catch") || is_word(word, "finally") {
        WordClass::Owing
    } else if is_word(word, "in") || is_word(word, "instanceof") {
        WordClass::Joint
    } else if is_word(word, "typeof") || is_word(word, "void") || is_word(word, "delete")
        || is_word(word, "new") || is_word(word, "case") {
        WordClass::Operand
    } else {
        WordClass::Plain
    }
}

/// What a sign of one character is.
fn classify_sign(c: char) -> (res: Kind)
    ensures
        res == sign(c),
{
    match c {
        ';' => Kind::Semicolon,
        ',' => Kind::Comma,
        ':' => Kind::Colon,
        '(' => Kind::OpenRound,
        '[' => Kind::OpenSquare,
        '{' => Kind::OpenBrace,
        ')' => Kind::Close,
        ']' => Kind::Close,
        '}' => Kind::Close,
        '~' => Kind::Prefix,
        _ => Kind::Operator,
    }
}

/// What a word is as the last token.
fn after_word(last: Last, class: WordClass) -> (res: Last)
    ensures
        res == word_last(last, class),
{
    if last == Last::Dot {
        return Last::Value;
    }
    match class {
        WordClass::Plain => Last::Value,
        WordClass::Bare => Last::Value,
        WordClass::Owing => Last::Value,
        WordClass::Control => Last::Control,
        WordClass::Await => if last == Last::Control {
            Last::Control
        } else {
            Last::Operator
        },
        WordClass::Else => Last::Head,
        WordClass::Leading => Last::Head,
        WordClass::Joint => Last::Operator,
        WordClass::Operand => Last::Operator,
    }
}

/// A reader of scripts.
struct Scanner {
    mode: Mode,
    word: Vec<char>,
    stack: Vec<Bracket>,
    last: Last,
    plain: bool,
    owes: bool,
    lone: bool,
    newline: bool,
    ended: bool,
    at: usize,
    token_at: usize,
    break_end: usize,
    last_end: usize,
    end: usize,
    start: usize,
}

impl View for Scanner {
    type V = ScanView;

    closed spec fn view(&self) -> ScanView {
        ScanView {
            mode: self.mode,
            word: self.word@,
            stack: self.stack@,
            last: self.last,
            plain: self.plain,
            owes: self.owes,
            lone: self.lone,
            newline: self.newline,
            ended: self.ended,
            at: self.at as int,
            token_at: self.token_at as int,
            break_end: self.break_end as int,
            last_end: self.last_end as int,
            end: self.end as int,
            start: self.start as int,
        }
    }
}

impl Scanner {
    /// A reader that has read nothing.
    fn new() -> (res: Scanner)
        ensures
            res@ == unread(),
    {
        Scanner {
            mode: Mode::Code,
            word: Vec::new(),
            stack: Vec::new(),
            last: Last::Start,
            plain: true,
            owes: false,
            lone: false,
            newline: false,
            ended: false,
            at: 0,
            token_at: 0,
            break_end: 0,
            last_end: 0,
            end: 0,
            start: 0,
        }
    }

    /// Tells whether a slash starts a pattern here.
    fn expects_operand(&self) -> (res: bool)
        ensures
            res == self@.operand(),
    {
        match self.last {
            Last::Value => self.newline,
            Last::Brace => self.newline,
            Last::Control => false,
            _ => true,
        }
    }

    /// Tells whether the innermost open bracket is a hole of a template.
    fn in_hole(&self) -> (res: bool)
        ensures
            res == self@.hole(),
    {
        self.stack.len() > 0 && self.stack[self.stack.len() - 1] == Bracket::Hole
    }

    /// Tells whether a token at the start of a line goes on with the statement before it.
    fn is_joined_by(&self, kind: Kind) -> (res: bool)
        ensures
            res == self@.joins(kind),
    {
        match kind {
            Kind::Operator => self.plain,
            Kind::Colon => self.plain,
            Kind::Dot => self.plain,
            Kind::Word(WordClass::Joint) => self.plain,
            Kind::Sign => self.plain && self.last == Last::Value,
            Kind::OpenBrace => self.owes,
            _ => false,
        }
    }

    /// Tells whether a token starts a statement.
    fn is_ended_by(&self, kind: Kind) -> (res: bool)
        ensures
            res == self@.begins(kind),
    {
        if self.stack.len() > 0 || kind == Kind::Semicolon {
            return false;
        }
        match self.last {
            Last::Start => true,
            Last::Semicolon => self.newline || (kind != Kind::Word(WordClass::Else) && kind
                != Kind::Close),
            Last::Head => self.newline,
            Last::Value => self.newline && !self.is_joined_by(kind),
            Last::Brace => self.newline && !self.is_joined_by(kind),
            _ => false,
        }
    }

    /// Starts a statement, where a token starts one.
    fn start_statement(&mut self, kind: Kind)
        ensures
            final(self)@ == old(self)@.begin(kind),
    {
        if self.is_ended_by(kind) {
            self.start = if self.newline {
                self.break_end
            } else {
                self.last_end
            };
            self.plain = match kind {
                Kind::Word(WordClass::Bare) => false,
                Kind::Word(WordClass::Control) => false,
                Kind::Word(WordClass::Else) => false,
                Kind::Word(WordClass::Owing) => false,
                _ => true,
            };
            self.owes = false;
            self.lone = match kind {
                Kind::Word(_) => true,
                _ => false,
            };
            self.ended = self.ended || ((self.last == Last::Value || self.last == Last::Brace)
                && kind != Kind::Comma);
        } else {
            self.lone = self.lone && kind == Kind::Colon;
        }
    }

    /// Takes an opening bracket.
    fn take_open(&mut self, bracket: Bracket)
        ensures
            final(self)@ == old(self)@.open(bracket),
    {
        if self.stack.len() == 0 && bracket == Bracket::Brace {
            self.owes = false;
        }
        self.stack.push(bracket);
        self.last = Last::Operator;
    }

    /// Takes a closing bracket.
    fn take_close(&mut self)
        ensures
            final(self)@ == old(self)@.close(),
    {
        match self.stack.pop() {
            Some(bracket) => {
                self.last = match bracket {
                    Bracket::Control => Last::Head,
                    Bracket::Brace => Last::Brace,
                    _ => Last::Value,
                };
            },
            None => {
                self.last = Last::Value;
            },
        }
    }

    /// Takes a part of a template.
    fn take_template(&mut self, resumes: bool, opens: bool)
        ensures
            final(self)@ == old(self)@.template(resumes, opens),
    {
        if resumes {
            self.stack.pop();
        }
        if opens {
            self.stack.push(Bracket::Hole);
            self.last = Last::Operator;
        } else {
            self.last = Last::Value;
        }
    }

    /// Takes a word.
    fn take_word(&mut self, class: WordClass)
        ensures
            final(self)@ == old(self)@.put(Kind::Word(class)),
    {
        if class == WordClass::Owing && self.stack.len() == 0 && self.last != Last::Dot {
            self.owes = true;
        }
        self.last = after_word(self.last, class);
    }

    /// Takes a token that ends at `to`.
    fn take(&mut self, kind: Kind, to: usize)
        ensures
            final(self)@ == old(self)@.token(kind, to as int),
            final(self)@.at == old(self)@.at,
    {
        proof {
            reveal(ScanView::token);
        }
        self.start_statement(kind);
        match kind {
            Kind::OpenRound => {
                let bracket: Bracket = if self.last == Last::Control {
                    Bracket::Control
                } else {
                    Bracket::Plain
                };
                self.take_open(bracket);
            },
            Kind::OpenSquare => self.take_open(Bracket::Plain),
            Kind::OpenBrace => self.take_open(Bracket::Brace),
            Kind::Close => self.take_close(),
            Kind::Template { resumes, opens } => self.take_template(resumes, opens),
            Kind::Semicolon => {
                if self.stack.len() > 0 {
                    self.last = Last::Operator;
                } else {
                    if self.last != Last::Start {
                        self.last = Last::Semicolon;
                    }
                    self.ended = true;
                }
            },
            Kind::Comma => {
                self.last = if self.stack.len() == 0 {
                    Last::Head
                } else {
                    Last::Operator
                };
            },
            Kind::Colon => {
                self.last = if self.lone {
                    Last::Head
                } else {
                    Last::Operator
                };
                self.lone = false;
            },
            Kind::Dot => {
                self.last = Last::Dot;
            },
            Kind::Text => {
                self.last = Last::Value;
            },
            Kind::Step => {
                self.last = Last::Value;
            },
            Kind::Word(class) => self.take_word(class),
            _ => {
                self.last = Last::Operator;
            },
        }
        self.mode = Mode::Code;
        self.newline = false;
        self.last_end = to;
        self.end = to;
    }

    /// Takes blank space or a comment that ends at `to`.
    fn take_blank(&mut self, to: usize)
        ensures
            final(self)@ == old(self)@.blank(to as int),
    {
        self.mode = Mode::Code;
        if !self.newline {
            self.end = to;
        }
    }

    /// Takes the end of a line, or a comment that spans lines, that ends at `to`.
    fn take_break(&mut self, to: usize)
        ensures
            final(self)@ == old(self)@.line_break(to as int),
    {
        self.mode = Mode::Code;
        self.newline = true;
        self.break_end = to;
    }

    /// Takes the first character of a token, or a character outside tokens.
    fn take_code(&mut self, c: char)
        requires
            old(self)@.at < usize::MAX,
        ensures
            final(self)@ == old(self)@.code(c),
    {
        proof {
            reveal(ScanView::code);
        }
        let to: usize = self.at + 1;
        self.token_at = self.at;
        if c == '\n' {
            self.take_break(to);
        } else if blank_char(c) {
            self.take_blank(to);
        } else if word_char(c) {
            self.mode = Mode::Word;
            self.word = vec![c];
            assert(self.word@ == seq![c]);
        } else if c == '.' {
            self.mode = Mode::Point;
        } else if c == '/' {
            self.mode = Mode::Slash;
        } else if c == '+' || c == '-' {
            self.mode = Mode::Twice(c);
        } else if c == '!' {
            self.mode = Mode::Bang;
        } else if c == '"' || c == '\'' {
            self.mode = Mode::Quoted { quote: c, escaped: false };
        } else if c == '`' || (c == '}' && self.in_hole()) {
            self.mode = Mode::Template { resumes: c == '}', dollar: false, escaped: false };
        } else {
            self.take(classify_sign(c), to);
        }
    }

    /// Takes a token that has come to its end, and the character after it.
    fn take_both(&mut self, kind: Kind, c: char)
        requires
            old(self)@.at < usize::MAX,
        ensures
            final(self)@ == old(self)@.token(kind, old(self)@.at).code(c),
    {
        self.take(kind, self.at);
        self.take_code(c);
    }

    /// Takes a character of a pattern.
    fn take_pattern(&mut self, c: char, class: bool, escaped: bool)
        requires
            old(self)@.at < usize::MAX,
            old(self)@.mode != Mode::Word,
            old(self)@.mode != Mode::Point,
        ensures
            final(self)@ == old(self)@.taken(c, old(self)@.pattern_step(c, class, escaped)),
    {
        proof {
            reveal(ScanView::taken);
        }
        if c == '\n' {
            self.take_both(Kind::Operator, c);
        } else if escaped {
            self.mode = Mode::Pattern { class, escaped: false };
        } else if c == '/' && !class {
            self.take(Kind::Text, self.at + 1);
        } else {
            self.mode = Mode::Pattern {
                class: c == '[' || (class && c != ']'),
                escaped: c == '\\',
            };
        }
    }

    /// Takes one more character of a word.
    fn take_word_char(&mut self, c: char)
        requires
            old(self)@.at < usize::MAX,
            old(self)@.mode == Mode::Word,
        ensures
            final(self)@ == old(self)@.taken(c, old(self)@.step(c)),
    {
        proof {
            reveal(ScanView::step);
            reveal(ScanView::taken);
        }
        if word_char(c) || (c == '.' && self.word.len() > 0 && digit_char(self.word[0])) {
            self.word.push(c);
        } else {
            let class: WordClass = classify(&self.word, c == '(' || c == '.');
            self.take_both(Kind::Word(class), c);
        }
    }

    /// Takes one more character of a sign.
    fn take_sign(&mut self, c: char)
        requires
            old(self)@.at < usize::MAX,
            match old(self)@.mode {
                Mode::Point => true,
                Mode::Slash => true,
                Mode::Twice(_) => true,
                Mode::Bang => true,
                _ => false,
            },
        ensures
            final(self)@ == old(self)@.taken(c, old(self)@.step(c)),
    {
        proof {
            reveal(ScanView::step);
            reveal(ScanView::taken);
        }
        match self.mode {
            Mode::Point => {
                if digit_char(c) {
                    self.mode = Mode::Word;
                    self.word = vec![c];
                    assert(self.word@ == seq![c]);
                } else {
                    self.take_both(Kind::Dot, c);
                }
            },
            Mode::Slash => {
                if c == '/' {
                    self.mode = Mode::Line;
                } else if c == '*' {
                    self.mode = Mode::Comment { star: false, broken: false };
                } else if self.expects_operand() {
                    self.take_pattern(c, false, false);
                } else {
                    self.take_both(Kind::Operator, c);
                }
            },
            Mode::Twice(d) => {
                if c == d {
                    self.take(Kind::Step, self.at + 1);
                } else {
                    self.take_both(Kind::Sign, c);
                }
            },
            _ => {
                if c == '=' || c == ';' {
                    self.take_both(Kind::Operator, c);
                } else {
                    self.take_both(Kind::Prefix, c);
                }
            },
        }
    }

    /// Takes one more character of a comment.
    fn take_comment(&mut self, c: char, star: bool, broken: bool)
        requires
            old(self)@.at < usize::MAX,
            old(self)@.mode == (Mode::Comment { star, broken }),
        ensures
            final(self)@ == old(self)@.taken(c, old(self)@.step(c)),
    {
        proof {
            reveal(ScanView::step);
            reveal(ScanView::taken);
        }
        if star && c == '/' {
            if broken {
                self.take_break(self.at + 1);
            } else {
                self.take_blank(self.at + 1);
            }
        } else {
            self.mode = Mode::Comment { star: c == '*', broken: broken || c == '\n' };
        }
    }

    /// Takes one more character of a string.
    fn take_quoted(&mut self, c: char, quote: char, escaped: bool)
        requires
            old(self)@.at < usize::MAX,
            old(self)@.mode == (Mode::Quoted { quote, escaped }),
        ensures
            final(self)@ == old(self)@.taken(c, old(self)@.step(c)),
    {
        proof {
            reveal(ScanView::step);
            reveal(ScanView::taken);
        }
        if escaped {
            self.mode = Mode::Quoted { quote, escaped: false };
        } else if c == quote {
            self.take(Kind::Text, self.at + 1);
        } else if c == '\n' {
            self.take_both(Kind::Text, c);
        } else {
            self.mode = Mode::Quoted { quote, escaped: c == '\\' };
        }
    }

    /// Takes one more character of a template.
    fn take_template_char(&mut self, c: char, resumes: bool, dollar: bool, escaped: bool)
        requires
            old(self)@.at < usize::MAX,
            old(self)@.mode == (Mode::Template { resumes, dollar, escaped }),
        ensures
            final(self)@ == old(self)@.taken(c, old(self)@.step(c)),
    {
        proof {
            reveal(ScanView::step);
            reveal(ScanView::taken);
        }
        if escaped {
            self.mode = Mode::Template { resumes, dollar: false, escaped: false };
        } else if c == '`' {
            self.take(Kind::Template { resumes, opens: false }, self.at + 1);
        } else if dollar && c == '{' {
            self.take(Kind::Template { resumes, opens: true }, self.at + 1);
        } else {
            self.mode = Mode::Template { resumes, dollar: c == '$', escaped: c == '\\' };
        }
    }

    /// Takes one more character of a comment up to the end of its line.
    fn take_line(&mut self, c: char)
        requires
            old(self)@.at < usize::MAX,
            old(self)@.mode == Mode::Line,
        ensures
            final(self)@ == old(self)@.taken(c, old(self)@.step(c)),
    {
        proof {
            reveal(ScanView::step);
            reveal(ScanView::taken);
        }
        if c == '\n' {
            self.take_blank(self.at);
            self.take_code(c);
        }
    }

    /// Reads one more character.
    fn read(&mut self, c: char)
        requires
            old(self)@.at < usize::MAX,
        ensures
            final(self)@ == old(self)@.feed(c),
    {
        let next: usize = self.at + 1;
        if c != '\r' {
            match self.mode {
                Mode::Code => self.take_code(c),
                Mode::Word => self.take_word_char(c),
                Mode::Line => self.take_line(c),
                Mode::Comment { star, broken } => self.take_comment(c, star, broken),
                Mode::Quoted { quote, escaped } => self.take_quoted(c, quote, escaped),
                Mode::Template { resumes, dollar, escaped } => self.take_template_char(
                    c,
                    resumes,
                    dollar,
                    escaped,
                ),
                Mode::Pattern { class, escaped } => {
                    proof {
                        reveal(ScanView::step);
                    }
                    self.take_pattern(c, class, escaped)
                },
                _ => self.take_sign(c),
            }
        }
        self.at = next;
    }

    /// Takes the end of the script.
    fn finish(&mut self)
        ensures
            final(self)@ == old(self)@.flush(),
    {
        match self.mode {
            Mode::Code => {},
            Mode::Word => {
                let class: WordClass = classify(&self.word, false);
                self.take(Kind::Word(class), self.at);
            },
            Mode::Point => self.take(Kind::Dot, self.at),
            Mode::Slash => self.take(Kind::Operator, self.at),
            Mode::Twice(_) => self.take(Kind::Sign, self.at),
            Mode::Bang => self.take(Kind::Operator, self.at),
            Mode::Line => self.take_blank(self.at),
            Mode::Comment { .. } => self.take_blank(self.at),
            Mode::Quoted { .. } => self.take(Kind::Text, self.at),
            Mode::Template { resumes, .. } => self.take(
                Kind::Template { resumes, opens: false },
                self.at,
            ),
            Mode::Pattern { .. } => self.take(Kind::Operator, self.at),
        }
    }
}

/// The number of characters that have been read is counted.
proof fn lemma_count(from: ScanView, text: Seq<char>)
    ensures
        fed(from, text).at == from.at + text.len(),
    decreases text.len(),
{
    if text.len() > 0 {
        lemma_count(from, text.drop_last());
    }
}

/// Finds the last statement of a script.
pub fn find_statements(text: &str) -> (res: Statements)
    ensures
        match res.start {
            Some(start) => statement_start(text@) == Some(start as int),
            None => statement_start(text@) is None,
        },
        res.end == statement_end(text@),
        res.ended == scan(text@).ended,
{
    let chars: Vec<char> = to_chars(text);
    let mut scanner = Scanner::new();
    let mut i: usize = 0;
    assert(chars@.take(0) == Seq::<char>::empty());
    while i < chars.len()
        invariant
            i <= chars.len(),
            scanner@ == fed(unread(), chars@.take(i as int)),
        decreases chars.len() - i,
    {
        proof {
            lemma_count(unread(), chars@.take(i as int));
            assert(chars@.take(i + 1).drop_last() == chars@.take(i as int));
        }
        scanner.read(chars[i]);
        i += 1;
    }
    assert(chars@.take(i as int) == chars@);
    scanner.finish();
    let start: Option<usize> = if scanner.last == Last::Start {
        None
    } else {
        Some(scanner.start)
    };
    Statements { start, end: scanner.end, ended: scanner.ended }
}

} // verus!
