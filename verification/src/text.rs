//! Text as a sequence of characters: trimming, lines, splitting, searching, joining, ordering.
use vstd::prelude::*;

verus! {

/// Whether `c` has the Unicode property `White_Space`.
pub open spec fn is_white_space(c: char) -> bool {
    ||| 0x9 <= c as int <= 0xd
    ||| c as int == 0x20
    ||| c as int == 0x85
    ||| c as int == 0xa0
    ||| c as int == 0x1680
    ||| 0x2000 <= c as int <= 0x200a
    ||| 0x2028 <= c as int <= 0x2029
    ||| c as int == 0x202f
    ||| c as int == 0x205f
    ||| c as int == 0x3000
}

/// A set of characters to trim.
#[derive(Clone, Copy)]
pub enum CharClass {
    /// The characters with the Unicode property `White_Space`.
    WhiteSpace,
    /// One character.
    Only(char),
}

impl CharClass {
    /// Whether the class holds `c`.
    pub open spec fn holds(self, c: char) -> bool {
        match self {
            CharClass::WhiteSpace => is_white_space(c),
            CharClass::Only(d) => c == d,
        }
    }

    /// Tells whether the class holds `c`.
    pub fn contains(&self, c: char) -> (res: bool)
        ensures
            res == self.holds(c),
    {
        match self {
            CharClass::Only(d) => c == *d,
            CharClass::WhiteSpace => {
                let n: u32 = c as u32;
                (0x9 <= n && n <= 0xd) || n == 0x20 || n == 0x85 || n == 0xa0 || n == 0x1680
                    || (0x2000 <= n && n <= 0x200a) || n == 0x2028 || n == 0x2029 || n == 0x202f
                    || n == 0x205f || n == 0x3000
            },
        }
    }
}

/// `s` without its longest prefix of characters of the class.
pub open spec fn drop_leading(s: Seq<char>, class: CharClass) -> Seq<char>
    decreases s.len(),
{
    if s.len() > 0 && class.holds(s.first()) {
        drop_leading(s.drop_first(), class)
    } else {
        s
    }
}

/// `s` without its longest suffix of characters of the class.
pub open spec fn drop_trailing(s: Seq<char>, class: CharClass) -> Seq<char>
    decreases s.len(),
{
    if s.len() > 0 && class.holds(s.last()) {
        drop_trailing(s.drop_last(), class)
    } else {
        s
    }
}

/// `s` without the white space at its two ends.
pub open spec fn trimmed(s: Seq<char>) -> Seq<char> {
    drop_trailing(drop_leading(s, CharClass::WhiteSpace), CharClass::WhiteSpace)
}

/// The characters of `s`, one by one.
pub fn to_chars(s: &str) -> (res: Vec<char>)
    ensures
        res@ == s@,
{
    let mut res: Vec<char> = Vec::new();
    for c in it: s.chars()
        invariant
            res@ == it.seq().take(it.index() as int),
            it.seq() == s@,
    {
        res.push(c);
    }
    assert(s@.take(s@.len() as int) == s@);
    res
}

/// `s` without its leading characters of the class.
pub fn trim_start_matches<'a>(s: &'a str, class: CharClass) -> (res: &'a str)
    ensures
        res@ == drop_leading(s@, class),
{
    let chars: Vec<char> = to_chars(s);
    let mut from: usize = 0;
    assert(chars@.skip(0) == s@);
    while from < chars.len() && class.contains(chars[from])
        invariant
            from <= chars.len(),
            chars@ == s@,
            drop_leading(s@, class) == drop_leading(chars@.skip(from as int), class),
        decreases chars.len() - from,
    {
        assert(chars@.skip(from as int).drop_first() == chars@.skip(from + 1));
        from += 1;
    }
    let res = s.substring_char(from, chars.len());
    assert(res@ == chars@.skip(from as int));
    res
}

/// `s` without its trailing characters of the class.
pub fn trim_end_matches<'a>(s: &'a str, class: CharClass) -> (res: &'a str)
    ensures
        res@ == drop_trailing(s@, class),
{
    let chars: Vec<char> = to_chars(s);
    let mut to: usize = chars.len();
    assert(chars@.take(to as int) == s@);
    while to > 0 && class.contains(chars[to - 1])
        invariant
            to <= chars.len(),
            chars@ == s@,
            drop_trailing(s@, class) == drop_trailing(chars@.take(to as int), class),
        decreases to,
    {
        assert(chars@.take(to as int).drop_last() == chars@.take(to - 1));
        to -= 1;
    }
    let res = s.substring_char(0, to);
    assert(res@ == chars@.take(to as int));
    res
}

/// `s` without the white space at its two ends.
pub fn trim<'a>(s: &'a str) -> (res: &'a str)
    ensures
        res@ == trimmed(s@),
{
    trim_end_matches(trim_start_matches(s, CharClass::WhiteSpace), CharClass::WhiteSpace)
}

/// The first position from `from` on at which `s` holds `c`, and the length of `s` where it holds
/// none from there on.
pub open spec fn next_index(s: Seq<char>, c: char, from: int) -> int
    decreases s.len() - from,
{
    if from >= s.len() || s[from] == c {
        from
    } else {
        next_index(s, c, from + 1)
    }
}

/// The pieces of `s` from position `from` on, between the occurrences of `c`.
pub open spec fn split_from(s: Seq<char>, c: char, from: int) -> Seq<Seq<char>>
    decreases s.len() - from,
    when 0 <= from <= s.len()
    via split_from_decreases
{
    let end = next_index(s, c, from);
    if end >= s.len() {
        seq![s.skip(from)]
    } else {
        seq![s.subrange(from, end)] + split_from(s, c, end + 1)
    }
}

#[via_fn]
proof fn split_from_decreases(s: Seq<char>, c: char, from: int) {
    lemma_next_index(s, c, from);
}

/// The pieces of `s` between the occurrences of `c`: always one more than there are occurrences.
pub open spec fn split_by(s: Seq<char>, c: char) -> Seq<Seq<char>> {
    split_from(s, c, 0)
}

/// `s` without one carriage return at its end.
pub open spec fn without_return(s: Seq<char>) -> Seq<char> {
    if s.len() > 0 && s.last() == '\r' {
        s.drop_last()
    } else {
        s
    }
}

/// The lines of `s` from position `from` on. A line ends with a line feed, or with a carriage
/// return and a line feed, and does not hold its end; the last line need not end so.
pub open spec fn lines_from(s: Seq<char>, from: int) -> Seq<Seq<char>>
    decreases s.len() - from,
    when 0 <= from <= s.len()
    via lines_from_decreases
{
    let end = next_index(s, '\n', from);
    if from == s.len() {
        Seq::empty()
    } else if end >= s.len() {
        seq![s.skip(from)]
    } else {
        seq![without_return(s.subrange(from, end))] + lines_from(s, end + 1)
    }
}

#[via_fn]
proof fn lines_from_decreases(s: Seq<char>, from: int) {
    lemma_next_index(s, '\n', from);
}

/// The lines of `s`.
pub open spec fn lines_of(s: Seq<char>) -> Seq<Seq<char>> {
    lines_from(s, 0)
}

/// `next_index` stays within `s`, and every character before the position it gives differs from
/// `c`.
pub proof fn lemma_next_index(s: Seq<char>, c: char, from: int)
    requires
        0 <= from <= s.len(),
    ensures
        from <= next_index(s, c, from) <= s.len(),
        forall|k: int| from <= k < next_index(s, c, from) ==> s[k] != c,
        next_index(s, c, from) < s.len() ==> s[next_index(s, c, from)] == c,
    decreases s.len() - from,
{
    if from < s.len() && s[from] != c {
        lemma_next_index(s, c, from + 1);
    }
}

/// The texts that the strings of `v` hold.
pub open spec fn texts(v: Seq<String>) -> Seq<Seq<char>> {
    Seq::new(v.len(), |i: int| v[i]@)
}

/// The text that an optional string holds, if any.
pub open spec fn option_text(text: Option<String>) -> Option<Seq<char>> {
    match text {
        Some(text) => Some(text@),
        None => None,
    }
}

/// The text that a result holds, be it a value or an error.
pub open spec fn result_text(result: Result<String, String>) -> Result<Seq<char>, Seq<char>> {
    match result {
        Ok(text) => Ok(text@),
        Err(text) => Err(text@),
    }
}

/// The first position from `from` on at which `chars` holds `c`, or its length.
fn index_from(chars: &Vec<char>, c: char, from: usize) -> (res: usize)
    requires
        from <= chars.len(),
    ensures
        res == next_index(chars@, c, from as int),
        from <= res <= chars.len(),
{
    let mut at: usize = from;
    while at < chars.len() && chars[at] != c
        invariant
            from <= at <= chars.len(),
            next_index(chars@, c, from as int) == next_index(chars@, c, at as int),
        decreases chars.len() - at,
    {
        at += 1;
    }
    at
}

/// The pieces of `s` between the occurrences of `c`.
pub fn split(s: &str, c: char) -> (res: Vec<String>)
    ensures
        texts(res@) == split_by(s@, c),
{
    let chars: Vec<char> = to_chars(s);
    let mut res: Vec<String> = Vec::new();
    let mut from: usize = 0;
    let mut end: usize = index_from(&chars, c, from);
    assert(texts(res@) + split_from(s@, c, 0) == split_from(s@, c, 0));
    while end < chars.len()
        invariant
            from <= end <= chars.len(),
            chars@ == s@,
            end == next_index(s@, c, from as int),
            texts(res@) + split_from(s@, c, from as int) == split_by(s@, c),
        decreases chars.len() - from,
    {
        let ghost before = texts(res@);
        res.push(s.substring_char(from, end).to_string());
        assert(texts(res@) == before.push(s@.subrange(from as int, end as int)));
        assert(before + split_from(s@, c, from as int) == texts(res@) + split_from(s@, c, end + 1));
        from = end + 1;
        end = index_from(&chars, c, from);
    }
    let ghost before = texts(res@);
    res.push(s.substring_char(from, chars.len()).to_string());
    assert(texts(res@) == before.push(s@.skip(from as int)));
    assert(texts(res@) == before + split_from(s@, c, from as int));
    res
}

/// The lines of `s`.
pub fn lines(s: &str) -> (res: Vec<String>)
    ensures
        texts(res@) == lines_of(s@),
{
    let chars: Vec<char> = to_chars(s);
    let mut res: Vec<String> = Vec::new();
    let mut from: usize = 0;
    assert(texts(res@) + lines_from(s@, 0) == lines_from(s@, 0));
    while from < chars.len()
        invariant
            from <= chars.len(),
            chars@ == s@,
            texts(res@) + lines_from(s@, from as int) == lines_of(s@),
        decreases chars.len() - from,
    {
        let end: usize = index_from(&chars, '\n', from);
        let ghost before = texts(res@);
        if end < chars.len() {
            let stop: usize = if end > from && chars[end - 1] == '\r' {
                end - 1
            } else {
                end
            };
            res.push(s.substring_char(from, stop).to_string());
            assert(s@.subrange(from as int, stop as int) == without_return(
                s@.subrange(from as int, end as int),
            ));
            assert(texts(res@) == before.push(s@.subrange(from as int, stop as int)));
            assert(before + lines_from(s@, from as int) == texts(res@) + lines_from(s@, end + 1));
            from = end + 1;
        } else {
            res.push(s.substring_char(from, chars.len()).to_string());
            assert(texts(res@) == before.push(s@.skip(from as int)));
            from = chars.len();
            assert(lines_from(s@, from as int) == Seq::<Seq<char>>::empty());
            assert(texts(res@) + lines_from(s@, from as int) == texts(res@));
        }
    }
    assert(texts(res@) + lines_from(s@, from as int) == texts(res@));
    res
}

/// The first line of a text; empty for an empty text.
pub open spec fn first_line(s: Seq<char>) -> Seq<char> {
    if lines_of(s).len() > 0 {
        lines_of(s)[0]
    } else {
        Seq::empty()
    }
}

/// The first line of a text; empty for an empty text.
pub fn find_first_line(s: &str) -> (res: String)
    ensures
        res@ == first_line(s@),
{
    let all: Vec<String> = lines(s);
    if all.len() > 0 {
        assert(texts(all@)[0] == all@[0]@);
        all[0].clone()
    } else {
        String::new()
    }
}

/// Whether `s` holds `part` at position `at`.
pub open spec fn occurs_at(s: Seq<char>, part: Seq<char>, at: int) -> bool {
    0 <= at <= s.len() - part.len() && s.subrange(at, at + part.len()) == part
}

/// Whether `s` starts with `part`.
pub open spec fn begins_with(s: Seq<char>, part: Seq<char>) -> bool {
    occurs_at(s, part, 0)
}

/// Whether `s` holds `part` anywhere.
pub open spec fn holds_text(s: Seq<char>, part: Seq<char>) -> bool {
    exists|at: int| occurs_at(s, part, at)
}

/// The first position from `from` on at which `s` holds `part`, if there is one.
pub open spec fn find_from(s: Seq<char>, part: Seq<char>, from: int) -> Option<int>
    decreases s.len() - from + 1,
{
    if from > s.len() - part.len() {
        None
    } else if occurs_at(s, part, from) {
        Some(from)
    } else {
        find_from(s, part, from + 1)
    }
}

/// What `s` holds before and after the first occurrence of `part`, if there is one.
pub open spec fn split_at_first(s: Seq<char>, part: Seq<char>) -> Option<(Seq<char>, Seq<char>)> {
    match find_from(s, part, 0) {
        Some(at) => Some((s.take(at), s.skip(at + part.len()))),
        None => None,
    }
}

/// `find_from` gives the first occurrence, and none only where there is none.
pub proof fn lemma_find_from(s: Seq<char>, part: Seq<char>, from: int)
    requires
        0 <= from,
    ensures
        match find_from(s, part, from) {
            Some(at) => from <= at && occurs_at(s, part, at) && forall|k: int|
                from <= k < at ==> !occurs_at(s, part, k),
            None => forall|k: int| from <= k ==> !occurs_at(s, part, k),
        },
    decreases s.len() - from + 1,
{
    if from <= s.len() - part.len() && !occurs_at(s, part, from) {
        lemma_find_from(s, part, from + 1);
    }
}

/// Tells whether `chars` holds `part` at position `at`.
fn matches_at(chars: &Vec<char>, part: &Vec<char>, at: usize) -> (res: bool)
    requires
        at <= chars.len(),
    ensures
        res == occurs_at(chars@, part@, at as int),
{
    if part.len() > chars.len() - at {
        return false;
    }
    let mut i: usize = 0;
    while i < part.len()
        invariant
            at + part.len() <= chars.len(),
            i <= part.len(),
            forall|k: int| 0 <= k < i ==> chars@[at + k] == part@[k],
        decreases part.len() - i,
    {
        if chars[at + i] != part[i] {
            assert(chars@.subrange(at as int, at + part.len())[i as int] != part@[i as int]);
            return false;
        }
        i += 1;
    }
    assert(chars@.subrange(at as int, at + part.len()) == part@);
    true
}

/// The first position at which `s` holds `part`, if there is one.
fn find(s: &str, part: &str) -> (res: Option<usize>)
    ensures
        match find_from(s@, part@, 0) {
            Some(at) => res is Some && res->0 == at && at <= s@.len() - part@.len(),
            None => res is None,
        },
{
    let chars: Vec<char> = to_chars(s);
    let wanted: Vec<char> = to_chars(part);
    if wanted.len() > chars.len() {
        return None;
    }
    let last: usize = chars.len() - wanted.len();
    let mut at: usize = 0;
    while at <= last
        invariant
            chars@ == s@,
            wanted@ == part@,
            wanted.len() <= chars.len(),
            last == chars.len() - wanted.len(),
            at <= last + 1,
            find_from(s@, part@, 0) == find_from(s@, part@, at as int),
        decreases last + 1 - at,
    {
        if matches_at(&chars, &wanted, at) {
            return Some(at);
        }
        if at == last {
            assert(find_from(s@, part@, at + 1) is None);
            return None;
        }
        at += 1;
    }
    None
}

/// Tells whether `s` starts with `part`.
pub fn starts_with(s: &str, part: &str) -> (res: bool)
    ensures
        res == begins_with(s@, part@),
{
    matches_at(&to_chars(s), &to_chars(part), 0)
}

/// Tells whether `s` holds `part` anywhere.
pub fn contains(s: &str, part: &str) -> (res: bool)
    ensures
        res == holds_text(s@, part@),
{
    proof {
        lemma_find_from(s@, part@, 0);
    }
    find(s, part).is_some()
}

/// What `s` holds after `part`, where it starts with it.
pub fn strip_prefix(s: &str, part: &str) -> (res: Option<String>)
    ensures
        match res {
            Some(rest) => begins_with(s@, part@) && rest@ == s@.skip(part@.len() as int),
            None => !begins_with(s@, part@),
        },
{
    if starts_with(s, part) {
        Some(s.substring_char(part.unicode_len(), s.unicode_len()).to_string())
    } else {
        None
    }
}

/// What `s` holds before and after the first occurrence of `part`, if there is one.
pub fn split_once(s: &str, part: &str) -> (res: Option<(String, String)>)
    ensures
        match res {
            Some((a, b)) => split_at_first(s@, part@) == Some((a@, b@)),
            None => split_at_first(s@, part@) is None,
        },
{
    match find(s, part) {
        Some(at) => {
            let length: usize = s.unicode_len();
            let before = s.substring_char(0, at).to_string();
            let after = s.substring_char(at + part.unicode_len(), length).to_string();
            proof {
                lemma_find_from(s@, part@, 0);
                assert(before@ == s@.take(at as int));
                assert(after@ == s@.skip(at + part@.len()));
            }
            Some((before, after))
        },
        None => None,
    }
}

/// Tells whether two sequences of characters are the same.
pub fn same_chars(x: &Vec<char>, y: &Vec<char>) -> (res: bool)
    ensures
        res == (x@ == y@),
{
    if x.len() != y.len() {
        return false;
    }
    let res = matches_at(x, y, 0);
    assert(x@.subrange(0, y@.len() as int) == x@);
    res
}

/// Tells whether two texts are the same.
pub fn same_text(a: &str, b: &str) -> (res: bool)
    ensures
        res == (a@ == b@),
{
    same_chars(&to_chars(a), &to_chars(b))
}

/// The texts of `parts`, one after another, with `separator` between each two of them.
pub open spec fn joined(parts: Seq<Seq<char>>, separator: Seq<char>) -> Seq<char>
    decreases parts.len(),
{
    if parts.len() == 0 {
        Seq::empty()
    } else if parts.len() == 1 {
        parts[0]
    } else {
        joined(parts.drop_last(), separator) + separator + parts.last()
    }
}

/// Joins `parts` with `separator`.
pub fn join(parts: &Vec<String>, separator: &str) -> (res: String)
    ensures
        res@ == joined(texts(parts@), separator@),
{
    let mut res: String = String::new();
    let mut i: usize = 0;
    while i < parts.len()
        invariant
            i <= parts.len(),
            res@ == joined(texts(parts@).take(i as int), separator@),
        decreases parts.len() - i,
    {
        if i > 0 {
            res.append(separator);
        }
        res.append(parts[i].as_str());
        proof {
            let next = texts(parts@).take(i + 1);
            assert(next.drop_last() == texts(parts@).take(i as int));
            if i == 0 {
                assert(res@ == next[0]);
            }
        }
        i += 1;
    }
    assert(texts(parts@).take(i as int) == texts(parts@));
    res
}

/// Whether `a` comes before `b` in the order of their characters' code points.
pub open spec fn precedes(a: Seq<char>, b: Seq<char>) -> bool
    decreases a.len(),
{
    if b.len() == 0 {
        false
    } else if a.len() == 0 {
        true
    } else if a.first() == b.first() {
        precedes(a.drop_first(), b.drop_first())
    } else {
        (a.first() as int) < (b.first() as int)
    }
}

/// The code point of a character.
pub fn code_point(c: char) -> (res: u32)
    ensures
        res as int == c as int,
{
    c as u32
}

/// Tells whether `a` comes before `b` in the order of their characters' code points.
pub fn comes_before(a: &str, b: &str) -> (res: bool)
    ensures
        res == precedes(a@, b@),
{
    let x: Vec<char> = to_chars(a);
    let y: Vec<char> = to_chars(b);
    let mut i: usize = 0;
    assert(x@.skip(0) == a@ && y@.skip(0) == b@);
    while i < x.len() && i < y.len()
        invariant
            i <= x.len(),
            i <= y.len(),
            precedes(a@, b@) == precedes(x@.skip(i as int), y@.skip(i as int)),
        decreases x.len() - i,
    {
        let c: char = x[i];
        let d: char = y[i];
        if c != d {
            return code_point(c) < code_point(d);
        }
        assert(x@.skip(i as int).drop_first() == x@.skip(i + 1));
        assert(y@.skip(i as int).drop_first() == y@.skip(i + 1));
        i += 1;
    }
    i < y.len()
}

/// Whether `s` holds no `c`.
pub open spec fn lacks(s: Seq<char>, c: char) -> bool {
    forall|i: int| 0 <= i < s.len() ==> s[i] != c
}

/// The first position from `from` on at which `s` holds `c` is what `next_index` gives.
pub proof fn lemma_next_index_is(s: Seq<char>, c: char, from: int, at: int)
    requires
        0 <= from <= at <= s.len(),
        at < s.len() ==> s[at] == c,
        forall|k: int| from <= k < at ==> s[k] != c,
    ensures
        next_index(s, c, from) == at,
{
    lemma_next_index(s, c, from);
}

/// Dropping leading characters leaves a suffix that starts with no character of the class.
pub proof fn lemma_drop_leading(s: Seq<char>, class: CharClass) -> (k: int)
    ensures
        0 <= k <= s.len(),
        drop_leading(s, class) == s.skip(k),
        k < s.len() ==> !class.holds(s[k]),
        forall|i: int| 0 <= i < k ==> class.holds(#[trigger] s[i]),
    decreases s.len(),
{
    if s.len() > 0 && class.holds(s.first()) {
        let j = lemma_drop_leading(s.drop_first(), class);
        assert(s.drop_first().skip(j) == s.skip(j + 1));
        assert forall|i: int| 0 <= i < j + 1 implies class.holds(#[trigger] s[i]) by {
            if i > 0 {
                assert(s[i] == s.drop_first()[i - 1]);
            }
        }
        j + 1
    } else {
        assert(s.skip(0) == s);
        0
    }
}

/// Dropping trailing characters leaves a prefix that ends with no character of the class.
pub proof fn lemma_drop_trailing(s: Seq<char>, class: CharClass) -> (k: int)
    ensures
        0 <= k <= s.len(),
        drop_trailing(s, class) == s.take(k),
        k > 0 ==> !class.holds(s[k - 1]),
        forall|i: int| k <= i < s.len() ==> class.holds(#[trigger] s[i]),
    decreases s.len(),
{
    if s.len() > 0 && class.holds(s.last()) {
        let j = lemma_drop_trailing(s.drop_last(), class);
        assert(s.drop_last().take(j) == s.take(j));
        assert forall|i: int| j <= i < s.len() implies class.holds(#[trigger] s[i]) by {
            if i < s.len() - 1 {
                assert(s[i] == s.drop_last()[i]);
            }
        }
        j
    } else {
        assert(s.take(s.len() as int) == s);
        s.len() as int
    }
}

/// No text comes before itself.
pub proof fn lemma_precedes_irreflexive(a: Seq<char>)
    ensures
        !precedes(a, a),
    decreases a.len(),
{
    if a.len() > 0 {
        lemma_precedes_irreflexive(a.drop_first());
    }
}

/// Of two texts, one comes before the other, or they are the same.
pub proof fn lemma_precedes_total(a: Seq<char>, b: Seq<char>)
    ensures
        a == b || precedes(a, b) || precedes(b, a),
    decreases a.len(),
{
    if a.len() == 0 && b.len() == 0 {
        assert(a == b);
    } else if a.len() > 0 && b.len() > 0 && a.first() == b.first() {
        lemma_precedes_total(a.drop_first(), b.drop_first());
        if a.drop_first() == b.drop_first() {
            assert(a == seq![a.first()] + a.drop_first());
            assert(b == seq![b.first()] + b.drop_first());
        }
    }
}

/// What comes before a text comes before all that come after that text.
pub proof fn lemma_precedes_transitive(a: Seq<char>, b: Seq<char>, c: Seq<char>)
    requires
        precedes(a, b),
        precedes(b, c),
    ensures
        precedes(a, c),
    decreases a.len(),
{
    if a.len() > 0 && a.first() == b.first() && b.first() == c.first() {
        lemma_precedes_transitive(a.drop_first(), b.drop_first(), c.drop_first());
    }
}

/// Trimming stops at a last part that starts and ends with no white space.
pub proof fn lemma_trimmed_add(a: Seq<char>, b: Seq<char>)
    requires
        b.len() > 0,
        !is_white_space(b.first()),
        !is_white_space(b.last()),
    ensures
        trimmed(a + b) == drop_leading(a, CharClass::WhiteSpace) + b,
    decreases a.len(),
{
    if a.len() > 0 && is_white_space(a.first()) {
        assert((a + b).drop_first() == a.drop_first() + b);
        lemma_trimmed_add(a.drop_first(), b);
    } else {
        if a.len() > 0 {
            assert((a + b).first() == a.first());
        } else {
            assert((a + b).first() == b.first());
        }
        assert((a + b).last() == b.last());
    }
}

/// Positions of a character in what follows a part of a text are those in the text, less that part.
proof fn lemma_next_index_skip(s: Seq<char>, c: char, from: int, k: int)
    requires
        0 <= from,
        0 <= k,
        from + k <= s.len(),
    ensures
        next_index(s.skip(k), c, from) + k == next_index(s, c, from + k),
{
    lemma_next_index(s, c, from + k);
    lemma_next_index_is(s.skip(k), c, from, next_index(s, c, from + k) - k);
}

/// The lines of a text from a position on are the lines of what follows that position.
pub proof fn lemma_lines_skip(s: Seq<char>, from: int, k: int)
    requires
        0 <= from,
        0 <= k,
        from + k <= s.len(),
    ensures
        lines_from(s.skip(k), from) == lines_from(s, from + k),
    decreases s.len() - k - from,
{
    let end = next_index(s.skip(k), '\n', from);
    lemma_next_index_skip(s, '\n', from, k);
    lemma_next_index(s.skip(k), '\n', from);
    if from + k < s.len() {
        if end >= s.skip(k).len() {
            assert(s.skip(k).skip(from) == s.skip(from + k));
        } else {
            assert(s.skip(k).subrange(from, end) == s.subrange(from + k, end + k));
            lemma_lines_skip(s, end + 1, k);
        }
    }
}

/// The lines of a text that holds a line feed: those of what it ends, and those of what follows.
pub proof fn lemma_lines_add(a: Seq<char>, b: Seq<char>)
    ensures
        lines_of(a + seq!['\n'] + b) == lines_of(a + seq!['\n']) + lines_of(b),
    decreases a.len(),
{
    let s = a + seq!['\n'] + b;
    let t = a + seq!['\n'];
    let end = next_index(a, '\n', 0);
    lemma_next_index(a, '\n', 0);
    lemma_next_index_is(s, '\n', 0, end);
    lemma_next_index_is(t, '\n', 0, end);
    lemma_lines_skip(s, 0, end + 1);
    lemma_lines_skip(t, 0, end + 1);
    assert(s.subrange(0, end) == t.subrange(0, end));
    let line = without_return(s.subrange(0, end));
    assert(lines_of(s) == seq![line] + lines_of(s.skip(end + 1)));
    assert(lines_of(t) == seq![line] + lines_of(t.skip(end + 1)));
    if end == a.len() {
        assert(s.skip(end + 1) == b);
        assert(t.skip(end + 1) == Seq::<char>::empty());
        assert(lines_of(t) == seq![line]);
    } else {
        let rest = a.skip(end + 1);
        assert(s.skip(end + 1) == rest + seq!['\n'] + b);
        assert(t.skip(end + 1) == rest + seq!['\n']);
        lemma_lines_add(rest, b);
        assert(seq![line] + (lines_of(rest + seq!['\n']) + lines_of(b)) == (seq![line] + lines_of(
            rest + seq!['\n'],
        )) + lines_of(b));
    }
}

/// No line holds a line feed.
pub proof fn lemma_lines_lack_feeds(s: Seq<char>, from: int)
    requires
        0 <= from <= s.len(),
    ensures
        forall|i: int|
            0 <= i < lines_from(s, from).len() ==> lacks(#[trigger] lines_from(s, from)[i], '\n'),
    decreases s.len() - from,
{
    let end = next_index(s, '\n', from);
    lemma_next_index(s, '\n', from);
    if from < s.len() && end < s.len() {
        lemma_lines_lack_feeds(s, end + 1);
        let line = without_return(s.subrange(from, end));
        let rest = lines_from(s, end + 1);
        assert forall|i: int| 0 <= i < lines_from(s, from).len() implies lacks(
            #[trigger] lines_from(s, from)[i],
            '\n',
        ) by {
            if i == 0 {
                assert(lines_from(s, from)[0] == line);
            } else {
                assert(lines_from(s, from)[i] == rest[i - 1]);
            }
        }
    }
}

/// Joining two lists of parts is joining each, with the separator between them.
pub proof fn lemma_joined_add(a: Seq<Seq<char>>, b: Seq<Seq<char>>, separator: Seq<char>)
    requires
        a.len() > 0,
        b.len() > 0,
    ensures
        joined(a + b, separator) == joined(a, separator) + separator + joined(b, separator),
    decreases b.len(),
{
    assert((a + b).drop_last() == a + b.drop_last());
    assert((a + b).last() == b.last());
    if b.len() == 1 {
        assert(a + b.drop_last() == a);
    } else {
        lemma_joined_add(a, b.drop_last(), separator);
    }
}

/// The characters that count as white space.
pub proof fn law_white_space(c: char)
    ensures
        is_white_space(c) <==> {
            ||| c == ' ' || c == '\t' || c == '\n' || c == '\u{b}' || c == '\u{c}' || c == '\r'
            ||| c == '\u{85}' || c == '\u{a0}' || c == '\u{1680}'
            ||| '\u{2000}' <= c <= '\u{200a}'
            ||| c == '\u{2028}' || c == '\u{2029}' || c == '\u{202f}' || c == '\u{205f}'
            ||| c == '\u{3000}'
        },
{
}

/// Trimming takes off the white space at the two ends, all of it, and nothing else.
pub proof fn law_trimming(before: Seq<char>, s: Seq<char>, after: Seq<char>)
    requires
        forall|i: int| 0 <= i < before.len() ==> is_white_space(#[trigger] before[i]),
        forall|i: int| 0 <= i < after.len() ==> is_white_space(#[trigger] after[i]),
        s.len() > 0 ==> !is_white_space(s[0]) && !is_white_space(s[s.len() - 1]),
    ensures
        trimmed(before + s + after) == s,
{
    let white = CharClass::WhiteSpace;
    if s.len() > 0 {
        assert(before + s + after == before + (s + after));
        lemma_drop_front(before, s + after, white);
        lemma_drop_back(s, after, white);
    } else {
        assert(before + s + after == before + after);
        let all = before + after;
        assert forall|i: int| 0 <= i < all.len() implies white.holds(#[trigger] all[i]) by {
            if i >= before.len() {
                assert(all[i] == after[i - before.len()]);
            }
        }
        assert(all == all + s);
        lemma_drop_front(all, s, white);
    }
}

/// Characters of a class in front are dropped, up to the first that is not of the class.
proof fn lemma_drop_front(front: Seq<char>, s: Seq<char>, class: CharClass)
    requires
        forall|i: int| 0 <= i < front.len() ==> class.holds(#[trigger] front[i]),
        s.len() > 0 ==> !class.holds(s[0]),
    ensures
        drop_leading(front + s, class) == s,
    decreases front.len(),
{
    if front.len() == 0 {
        assert(front + s == s);
    } else {
        let more = front.drop_first();
        assert(class.holds(front[0]));
        assert((front + s).drop_first() == more + s);
        assert forall|i: int| 0 <= i < more.len() implies class.holds(#[trigger] more[i]) by {
            assert(more[i] == front[i + 1]);
        }
        lemma_drop_front(more, s, class);
    }
}

/// Characters of a class at the back are dropped, down to the last that is not of the class.
proof fn lemma_drop_back(s: Seq<char>, back: Seq<char>, class: CharClass)
    requires
        forall|i: int| 0 <= i < back.len() ==> class.holds(#[trigger] back[i]),
        s.len() > 0 ==> !class.holds(s[s.len() - 1]),
    ensures
        drop_trailing(s + back, class) == s,
    decreases back.len(),
{
    if back.len() == 0 {
        assert(s + back == s);
    } else {
        let fewer = back.drop_last();
        assert(class.holds(back[back.len() - 1]));
        assert((s + back).drop_last() == s + fewer);
        assert forall|i: int| 0 <= i < fewer.len() implies class.holds(#[trigger] fewer[i]) by {
            assert(fewer[i] == back[i]);
        }
        lemma_drop_back(s, fewer, class);
    }
}

/// Of one character, all that stand in front are dropped, and no other.
pub proof fn law_dropping_in_front(front: Seq<char>, s: Seq<char>, c: char)
    requires
        forall|i: int| 0 <= i < front.len() ==> #[trigger] front[i] == c,
        s.len() > 0 ==> s[0] != c,
    ensures
        drop_leading(front + s, CharClass::Only(c)) == s,
{
    lemma_drop_front(front, s, CharClass::Only(c));
}

/// Of one character, all that stand at the back are dropped, and no other.
pub proof fn law_dropping_at_the_back(s: Seq<char>, back: Seq<char>, c: char)
    requires
        forall|i: int| 0 <= i < back.len() ==> #[trigger] back[i] == c,
        s.len() > 0 ==> s[s.len() - 1] != c,
    ensures
        drop_trailing(s + back, CharClass::Only(c)) == s,
{
    lemma_drop_back(s, back, CharClass::Only(c));
}

/// A text without `c` is one piece, and each `c` starts a piece.
pub proof fn law_splitting(piece: Seq<char>, c: char, rest: Seq<char>)
    requires
        forall|i: int| 0 <= i < piece.len() ==> #[trigger] piece[i] != c,
    ensures
        split_by(piece, c) == seq![piece],
        split_by(piece + seq![c] + rest, c) == seq![piece] + split_by(rest, c),
{
    let n = piece.len() as int;
    let s = piece + seq![c] + rest;
    lemma_next_index_is(piece, c, 0, n);
    assert(piece.skip(0) == piece);
    assert forall|k: int| 0 <= k < n implies s[k] != c by {
        assert(s[k] == piece[k]);
    }
    lemma_next_index_is(s, c, 0, n);
    assert(s.subrange(0, n) == piece);
    assert(s.skip(n + 1) == rest);
    lemma_split_skip(s, c, 0, n + 1);
}

/// The pieces of a text from a position on are the pieces of what follows that position.
proof fn lemma_split_skip(s: Seq<char>, c: char, from: int, k: int)
    requires
        0 <= from,
        0 <= k,
        from + k <= s.len(),
    ensures
        split_from(s.skip(k), c, from) == split_from(s, c, from + k),
    decreases s.len() - k - from,
{
    let end = next_index(s.skip(k), c, from);
    lemma_next_index_skip(s, c, from, k);
    lemma_next_index(s.skip(k), c, from);
    if end >= s.skip(k).len() {
        assert(s.skip(k).skip(from) == s.skip(from + k));
    } else {
        assert(s.skip(k).subrange(from, end) == s.subrange(from + k, end + k));
        lemma_split_skip(s, c, end + 1, k);
    }
}

/// A text without line feeds is one line, unless it is empty, and each line feed ends a line, with
/// the carriage return before it, if there is one.
pub proof fn law_lines(line: Seq<char>, rest: Seq<char>)
    requires
        forall|i: int| 0 <= i < line.len() ==> #[trigger] line[i] != '\n',
    ensures
        lines_of(Seq::empty()) == Seq::<Seq<char>>::empty(),
        line.len() > 0 ==> lines_of(line) == seq![line],
        line.len() == 0 || line[line.len() - 1] != '\r' ==> lines_of(line + seq!['\n'] + rest)
            == seq![line] + lines_of(rest),
        lines_of(line + seq!['\r', '\n'] + rest) == seq![line] + lines_of(rest),
{
    lemma_one_line(line, rest);
    let more = line.push('\r');
    assert forall|i: int| 0 <= i < more.len() implies #[trigger] more[i] != '\n' by {
        if i < line.len() {
            assert(more[i] == line[i]);
        }
    }
    lemma_one_line(more, rest);
    assert(more.drop_last() == line);
    assert(more + seq!['\n'] + rest == line + seq!['\r', '\n'] + rest);
}

/// The first line of a text, and the others.
proof fn lemma_one_line(line: Seq<char>, rest: Seq<char>)
    requires
        forall|i: int| 0 <= i < line.len() ==> #[trigger] line[i] != '\n',
    ensures
        line.len() > 0 ==> lines_of(line) == seq![line],
        lines_of(line + seq!['\n'] + rest) == seq![without_return(line)] + lines_of(rest),
{
    let n = line.len() as int;
    let s = line + seq!['\n'] + rest;
    lemma_next_index_is(line, '\n', 0, n);
    assert(line.skip(0) == line);
    assert forall|k: int| 0 <= k < n implies s[k] != '\n' by {
        assert(s[k] == line[k]);
    }
    lemma_next_index_is(s, '\n', 0, n);
    assert(s.subrange(0, n) == line);
    assert(s.skip(n + 1) == rest);
    lemma_lines_skip(s, 0, n + 1);
}

/// The first line of a text is what stands before its first line feed, without the carriage return
/// before that; all of it, where it has none.
pub proof fn law_first_line(line: Seq<char>, rest: Seq<char>)
    requires
        forall|i: int| 0 <= i < line.len() ==> #[trigger] line[i] != '\n',
    ensures
        first_line(line) == line,
        line.len() == 0 || line[line.len() - 1] != '\r' ==> first_line(line + seq!['\n'] + rest)
            == line,
        first_line(line + seq!['\r', '\n'] + rest) == line,
{
    law_lines(line, rest);
    if line.len() == 0 {
        assert(line == Seq::<char>::empty());
    }
}

/// Joining puts the separator between each two parts, and nowhere else.
pub proof fn law_joining(parts: Seq<Seq<char>>, more: Seq<Seq<char>>, separator: Seq<char>)
    ensures
        joined(Seq::empty(), separator) == Seq::<char>::empty(),
        parts.len() == 1 ==> joined(parts, separator) == parts[0],
        parts.len() > 0 && more.len() > 0 ==> joined(parts + more, separator) == joined(
            parts,
            separator,
        ) + separator + joined(more, separator),
{
    if parts.len() > 0 && more.len() > 0 {
        lemma_joined_add(parts, more, separator);
    }
}

/// A text holds another where it is that text with something before and something after it.
pub proof fn law_holding(s: Seq<char>, part: Seq<char>)
    ensures
        holds_text(s, part) <==> exists|before: Seq<char>, after: Seq<char>|
            s == #[trigger] (before + part + after),
        begins_with(s, part) <==> exists|after: Seq<char>| s == #[trigger] (part + after),
{
    if holds_text(s, part) {
        let at = choose|at: int| occurs_at(s, part, at);
        let (before, after) = (s.take(at), s.skip(at + part.len()));
        assert(s == before + s.subrange(at, at + part.len()) + after);
        assert(s == (before + part) + after);
    }
    if exists|before: Seq<char>, after: Seq<char>| s == #[trigger] (before + part + after) {
        let (before, after) = choose|before: Seq<char>, after: Seq<char>|
            s == #[trigger] (before + part + after);
        let at = before.len() as int;
        assert(s.subrange(at, at + part.len()) == part);
        assert(occurs_at(s, part, at));
    }
    if begins_with(s, part) {
        let after = s.skip(part.len() as int);
        assert(s == s.subrange(0, part.len() as int) + after);
        assert(s == part + after);
    }
    if exists|after: Seq<char>| s == #[trigger] (part + after) {
        let after = choose|after: Seq<char>| s == #[trigger] (part + after);
        assert(s.subrange(0, part.len() as int) == part);
    }
}

/// A text is split at the first place where it holds the separator, and nowhere where it does not
/// hold it.
pub proof fn law_splitting_at_the_first(before: Seq<char>, part: Seq<char>, after: Seq<char>)
    requires
        part.len() > 0,
        !holds_text((before + part).drop_last(), part),
    ensures
        split_at_first(before + part + after, part) == Some((before, after)),
        split_at_first(before, part) is None,
{
    let s = before + part + after;
    let n = before.len() as int;
    let early = (before + part).drop_last();
    lemma_find_from(s, part, 0);
    assert(s.subrange(n, n + part.len()) == part);
    assert(occurs_at(s, part, n));
    assert forall|k: int| 0 <= k < n implies !occurs_at(s, part, k) by {
        if occurs_at(s, part, k) {
            assert(early.subrange(k, k + part.len()) == s.subrange(k, k + part.len()));
            assert(occurs_at(early, part, k));
        }
    }
    assert(find_from(s, part, 0) == Some(n));
    assert(s.take(n) == before);
    assert(s.skip(n + part.len()) == after);
    lemma_find_from(before, part, 0);
    if let Some(at) = find_from(before, part, 0) {
        assert(early.subrange(at, at + part.len()) == before.subrange(at, at + part.len()));
        assert(occurs_at(early, part, at));
    }
}

/// A text comes before another where, after what the two start with alike, it ends first, or has
/// the character of the lower code point.
pub proof fn law_order(start: Seq<char>, c: char, d: char, a: Seq<char>, b: Seq<char>)
    requires
        c < d,
    ensures
        precedes(start + seq![c] + a, start + seq![d] + b),
        !precedes(start + seq![d] + b, start + seq![c] + a),
        precedes(start, start + seq![c] + a),
        !precedes(start + seq![c] + a, start),
        !precedes(start, start),
    decreases start.len(),
{
    let x = start + seq![c] + a;
    let y = start + seq![d] + b;
    if start.len() > 0 {
        let rest = start.drop_first();
        law_order(rest, c, d, a, b);
        assert(x.drop_first() == rest + seq![c] + a);
        assert(y.drop_first() == rest + seq![d] + b);
        assert(x.first() == start[0] && y.first() == start[0]);
    } else {
        assert(x.first() == c && y.first() == d);
    }
}

} // verus!
