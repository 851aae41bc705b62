//! Path expressions: the character classes of the syntax, the parser that
//! splits an expression into segments, and the readers of segment contents
//! (key patterns, array indices, child filters).

use vstd::prelude::*;

verus! {

/// The segment that opens a deep search: it matches every key and every index,
/// and lets the segment after it match at any depth below.
pub const SPLAT: &'static str = "**";

/// The indices of a sequence that an array segment selects.
#[derive(Debug, PartialEq)]
pub enum ArrayIndices {
    Star,
    Indices(Vec<usize>),
}

/// A malformed path expression or path segment, with a message for people.
#[derive(Debug, Clone, PartialEq)]
pub struct ParseError(String);

impl View for ParseError {
    type V = Seq<char>;

    closed spec fn view(&self) -> Seq<char> {
        self.0@
    }
}

impl ParseError {
    /// An error with the message `s`.
    pub fn new(s: &str) -> (e: ParseError)
        ensures
            e@ == s@,
    {
        ParseError(s.to_owned())
    }

    /// The message that this error carries.
    pub fn message(&self) -> (m: String)
        ensures
            m@ == self@,
    {
        self.0.clone()
    }
}

/// The class of one character of a path expression.
#[derive(PartialEq, Eq, Debug, Clone, Copy, Structural)]
pub enum PathElem {
    Char,
    Dot,
    Quote,
    ArrayOpen,
    ArrayClose,
    ParenOpen,
    ParenClose,
    /// The end of the text: no special character is left.
    EOW,
}

/// The class of character `c`.
pub open spec fn class_of(c: char) -> PathElem {
    if c == '.' {
        PathElem::Dot
    } else if c == '"' {
        PathElem::Quote
    } else if c == '[' {
        PathElem::ArrayOpen
    } else if c == ']' {
        PathElem::ArrayClose
    } else if c == '(' {
        PathElem::ParenOpen
    } else if c == ')' {
        PathElem::ParenClose
    } else {
        PathElem::Char
    }
}

/// Index of the first character at or after `from` whose class is `pe`, if any.
pub open spec fn find_class(s: Seq<char>, from: int, pe: PathElem) -> Option<int>
    decreases s.len() - from,
{
    if from < 0 || from >= s.len() {
        None
    } else if class_of(s[from]) == pe {
        Some(from)
    } else {
        find_class(s, from + 1, pe)
    }
}

/// Index of the first character at or after `from` that is not plain, if any.
pub open spec fn find_special(s: Seq<char>, from: int) -> Option<int>
    decreases s.len() - from,
{
    if from < 0 || from >= s.len() {
        None
    } else if class_of(s[from]) != PathElem::Char {
        Some(from)
    } else {
        find_special(s, from + 1)
    }
}

/// The class of the character `c`.
pub fn char_is(c: char) -> (r: PathElem)
    ensures
        r == class_of(c),
{
    match c {
        '.' => PathElem::Dot,
        '"' => PathElem::Quote,
        '[' => PathElem::ArrayOpen,
        ']' => PathElem::ArrayClose,
        '(' => PathElem::ParenOpen,
        ')' => PathElem::ParenClose,
        _ => PathElem::Char,
    }
}

/// The class and index of the first non-plain character of `s`, or `EOW` and
/// the length of `s` when every character is plain.
pub fn next_special_char_is(s: &str) -> (r: (PathElem, usize))
    ensures
        r == next_special_spec(s@),
{
    let chars = chars_of(s);
    let mut idx: usize = 0;
    while idx < chars.len()
        invariant
            chars@ == s@,
            idx <= chars@.len(),
            find_special(s@, 0) == find_special(s@, idx as int),
        decreases chars.len() - idx,
    {
        let pe = char_is(chars[idx]);
        if pe != PathElem::Char {
            return (pe, idx);
        }
        idx += 1;
    }
    (PathElem::EOW, chars.len())
}

/// What `next_special_char_is` returns for the characters `s`.
pub open spec fn next_special_spec(s: Seq<char>) -> (PathElem, usize) {
    match find_special(s, 0) {
        Some(i) => (class_of(s[i]), i as usize),
        None => (PathElem::EOW, s.len() as usize),
    }
}

/// Whether `s` holds a character of class `pe`, and the index of the first
/// one; `(false, 0)` when there is none, except that `EOW` is found at the end.
pub fn next_specific_special_char(s: &str, pe: PathElem) -> (r: (bool, usize))
    ensures
        r == next_specific_spec(s@, pe),
{
    let chars = chars_of(s);
    let mut idx: usize = 0;
    while idx < chars.len()
        invariant
            chars@ == s@,
            idx <= chars@.len(),
            find_class(s@, 0, pe) == find_class(s@, idx as int, pe),
        decreases chars.len() - idx,
    {
        if char_is(chars[idx]) == pe {
            return (true, idx);
        }
        idx += 1;
    }
    match pe {
        PathElem::EOW => (true, chars.len()),
        _ => (false, 0),
    }
}

/// What `next_specific_special_char` returns for the characters `s`.
pub open spec fn next_specific_spec(s: Seq<char>, pe: PathElem) -> (bool, usize) {
    match find_class(s, 0, pe) {
        Some(i) => (true, i as usize),
        None => if pe == PathElem::EOW {
            (true, s.len() as usize)
        } else {
            (false, 0usize)
        },
    }
}

pub open spec fn msg_no_quote() -> Seq<char> {
    "invalid path, no closing quote"@
}

pub open spec fn msg_no_array_close() -> Seq<char> {
    "invalid path, no closing array character"@
}

pub open spec fn msg_no_paren_close() -> Seq<char> {
    "invalid path, no closing paren character"@
}

pub open spec fn msg_array_close_first() -> Seq<char> {
    "invalid path, closing array character before opening"@
}

pub open spec fn msg_paren_close_first() -> Seq<char> {
    "invalid path, closing paren character before opening"@
}

/// `pre` followed by the segments of `r`, or the error of `r`.
pub open spec fn prepend(pre: Seq<Seq<char>>, r: Result<Seq<Seq<char>>, Seq<char>>) -> Result<
    Seq<Seq<char>>,
    Seq<char>,
> {
    match r {
        Ok(segs) => Ok(pre + segs),
        Err(m) => Err(m),
    }
}

/// The run `p[i..j]` as a segment of its own, or nothing when it is empty.
pub open spec fn run_before(p: Seq<char>, i: int, j: int) -> Seq<Seq<char>> {
    if j == i {
        seq![]
    } else {
        seq![p.subrange(i, j)]
    }
}

/// The segments of the path expression `p` from index `i` on, or the message
/// of the first fault found there.
///
/// A run of plain characters ends at a dot, which is dropped (so empty runs
/// vanish); a quoted run is taken verbatim without its quotes, and what stood
/// before its opening quote is dropped; a bracketed or parenthesised run is
/// taken with its delimiters, after the plain run before it; the text after
/// the last special character is the last segment.
pub open spec fn parse_from(p: Seq<char>, i: int) -> Result<Seq<Seq<char>>, Seq<char>>
    decreases p.len() - i,
    via parse_from_decreases
{
    if i < 0 || i >= p.len() {
        Ok(seq![])
    } else {
        match find_special(p, i) {
            None => Ok(seq![p.subrange(i, p.len() as int)]),
            Some(j) => {
                let c = class_of(p[j]);
                if c == PathElem::Dot {
                    if j == i {
                        parse_from(p, i + 1)
                    } else {
                        prepend(seq![p.subrange(i, j)], parse_from(p, j + 1))
                    }
                } else if c == PathElem::Quote {
                    match find_class(p, j + 1, PathElem::Quote) {
                        Some(e) => prepend(seq![p.subrange(j + 1, e)], parse_from(p, e + 1)),
                        None => Err(msg_no_quote()),
                    }
                } else if c == PathElem::ArrayOpen {
                    match find_class(p, j, PathElem::ArrayClose) {
                        Some(e) => prepend(
                            run_before(p, i, j) + seq![p.subrange(j, e + 1)],
                            parse_from(p, e + 1),
                        ),
                        None => Err(msg_no_array_close()),
                    }
                } else if c == PathElem::ParenOpen {
                    match find_class(p, j, PathElem::ParenClose) {
                        Some(e) => prepend(
                            run_before(p, i, j) + seq![p.subrange(j, e + 1)],
                            parse_from(p, e + 1),
                        ),
                        None => Err(msg_no_paren_close()),
                    }
                } else if c == PathElem::ArrayClose {
                    Err(msg_array_close_first())
                } else {
                    Err(msg_paren_close_first())
                }
            },
        }
    }
}

#[via_fn]
proof fn parse_from_decreases(p: Seq<char>, i: int) {
    if 0 <= i < p.len() {
        lemma_find_special_bounds(p, i);
        if let Some(j) = find_special(p, i) {
            lemma_find_class_bounds(p, j + 1, PathElem::Quote);
            lemma_find_class_bounds(p, j, PathElem::ArrayClose);
            lemma_find_class_bounds(p, j, PathElem::ParenClose);
        }
    }
}

/// The segments of the path expression `p`, or the message of its first fault.
pub open spec fn parse_path_spec(p: Seq<char>) -> Result<Seq<Seq<char>>, Seq<char>> {
    parse_from(p, 0)
}

proof fn lemma_find_special_bounds(s: Seq<char>, from: int)
    ensures
        find_special(s, from) matches Some(j) ==> from <= j < s.len() && class_of(s[j])
            != PathElem::Char,
    decreases s.len() - from,
{
    if 0 <= from < s.len() && class_of(s[from]) == PathElem::Char {
        lemma_find_special_bounds(s, from + 1);
    }
}

proof fn lemma_find_class_bounds(s: Seq<char>, from: int, pe: PathElem)
    ensures
        find_class(s, from, pe) matches Some(j) ==> from <= j < s.len() && class_of(s[j]) == pe,
    decreases s.len() - from,
{
    if 0 <= from < s.len() && class_of(s[from]) != pe {
        lemma_find_class_bounds(s, from + 1, pe);
    }
}

/// Searching the tail of `s` from `i` finds what searching `s` from `i` finds,
/// shifted by `i`.
proof fn lemma_find_special_shift(s: Seq<char>, i: int, k: int)
    requires
        0 <= i <= s.len(),
        0 <= k,
    ensures
        find_special(s.subrange(i, s.len() as int), k) == (match find_special(s, i + k) {
            Some(j) => Some(j - i),
            None => None::<int>,
        }),
    decreases s.len() - i - k,
{
    if i + k < s.len() {
        lemma_find_special_shift(s, i, k + 1);
    }
}

proof fn lemma_find_class_shift(s: Seq<char>, i: int, k: int, pe: PathElem)
    requires
        0 <= i <= s.len(),
        0 <= k,
    ensures
        find_class(s.subrange(i, s.len() as int), k, pe) == (match find_class(s, i + k, pe) {
            Some(j) => Some(j - i),
            None => None::<int>,
        }),
    decreases s.len() - i - k,
{
    if i + k < s.len() {
        lemma_find_class_shift(s, i, k + 1, pe);
    }
}

proof fn lemma_prepend_assoc(a: Seq<Seq<char>>, b: Seq<Seq<char>>, r: Result<Seq<Seq<char>>, Seq<char>>)
    ensures
        prepend(a, prepend(b, r)) == prepend(a + b, r),
{
    if let Ok(segs) = r {
        assert(a + (b + segs) =~= (a + b) + segs);
    }
}

/// Parses a path expression into its segments: literal keys (quotes taken
/// off), bracketed array segments and parenthesised child filters, the last
/// two with their delimiters.
pub fn parse_path(path: &str) -> (r: Result<Vec<String>, ParseError>)
    ensures
        match parse_path_spec(path@) {
            Ok(segs) => r is Ok && r->Ok_0.deep_view() == segs,
            Err(m) => r is Err && r->Err_0@ == m,
        },
{
    let n = path.unicode_len();
    let mut parsed: Vec<String> = Vec::new();
    let mut current_idx: usize = 0;
    while current_idx < n
        invariant
            n == path@.len(),
            current_idx <= n,
            prepend(parsed.deep_view(), parse_from(path@, current_idx as int)) == parse_path_spec(
                path@,
            ),
        decreases n - current_idx,
    {
        let ghost p = path@;
        let ghost i = current_idx as int;
        let rest = path.substring_char(current_idx, n);
        proof {
            lemma_find_special_shift(p, i, 0);
            lemma_find_special_bounds(p, i);
        }
        match next_special_char_is(rest) {
            (PathElem::Dot, relative_dot_idx) => {
                let dot_idx = current_idx + relative_dot_idx;
                if dot_idx == current_idx {
                    current_idx += 1;
                } else {
                    let seg = path.substring_char(current_idx, dot_idx).to_owned();
                    push_segment(&mut parsed, seg, Ghost(parse_from(p, dot_idx + 1)));
                    current_idx = dot_idx + 1;
                }
            },
            (PathElem::Quote, relative_start_quote_idx) => {
                let start_quoted_word_idx = current_idx + 1 + relative_start_quote_idx;
                let quoted = path.substring_char(start_quoted_word_idx, n);
                proof {
                    lemma_find_class_shift(p, start_quoted_word_idx as int, 0, PathElem::Quote);
                    lemma_find_class_bounds(p, start_quoted_word_idx as int, PathElem::Quote);
                }
                let (found, relative_end_quote_idx) = next_specific_special_char(
                    quoted,
                    PathElem::Quote,
                );
                if found {
                    let end_quote_idx = start_quoted_word_idx + relative_end_quote_idx;
                    let seg = path.substring_char(start_quoted_word_idx, end_quote_idx).to_owned();
                    push_segment(&mut parsed, seg, Ghost(parse_from(p, end_quote_idx + 1)));
                    current_idx = end_quote_idx + 1;
                } else {
                    return Err(ParseError::new("invalid path, no closing quote"));
                }
            },
            (PathElem::ArrayOpen, relative_array_open_idx) => {
                let array_open_idx = current_idx + relative_array_open_idx;
                proof {
                    lemma_find_class_shift(p, array_open_idx as int, 0, PathElem::ArrayClose);
                    lemma_find_class_bounds(p, array_open_idx as int, PathElem::ArrayClose);
                }
                let (found, relative_array_close_idx) = next_specific_special_char(
                    path.substring_char(array_open_idx, n),
                    PathElem::ArrayClose,
                );
                if found {
                    let array_close_idx = array_open_idx + relative_array_close_idx;
                    let ghost after = parse_from(p, array_close_idx + 1);
                    let ghost enclosed = seq![p.subrange(array_open_idx as int, array_close_idx + 1)];
                    if array_open_idx != current_idx {
                        let seg = path.substring_char(current_idx, array_open_idx).to_owned();
                        proof {
                            lemma_prepend_assoc(seq![seg@], enclosed, after);
                        }
                        push_segment(&mut parsed, seg, Ghost(prepend(enclosed, after)));
                    } else {
                        assert(run_before(p, i, array_open_idx as int) + enclosed =~= enclosed);
                    }
                    let seg = path.substring_char(array_open_idx, array_close_idx + 1).to_owned();
                    push_segment(&mut parsed, seg, Ghost(after));
                    current_idx = array_close_idx + 1;
                } else {
                    return Err(ParseError::new("invalid path, no closing array character"));
                }
            },
            (PathElem::ParenOpen, relative_paren_open_idx) => {
                let paren_open_idx = current_idx + relative_paren_open_idx;
                proof {
                    lemma_find_class_shift(p, paren_open_idx as int, 0, PathElem::ParenClose);
                    lemma_find_class_bounds(p, paren_open_idx as int, PathElem::ParenClose);
                }
                let (found, relative_paren_close_idx) = next_specific_special_char(
                    path.substring_char(paren_open_idx, n),
                    PathElem::ParenClose,
                );
                if found {
                    let paren_close_idx = paren_open_idx + relative_paren_close_idx;
                    let ghost after = parse_from(p, paren_close_idx + 1);
                    let ghost enclosed = seq![p.subrange(paren_open_idx as int, paren_close_idx + 1)];
                    if paren_open_idx != current_idx {
                        let seg = path.substring_char(current_idx, paren_open_idx).to_owned();
                        proof {
                            lemma_prepend_assoc(seq![seg@], enclosed, after);
                        }
                        push_segment(&mut parsed, seg, Ghost(prepend(enclosed, after)));
                    } else {
                        assert(run_before(p, i, paren_open_idx as int) + enclosed =~= enclosed);
                    }
                    let seg = path.substring_char(paren_open_idx, paren_close_idx + 1).to_owned();
                    push_segment(&mut parsed, seg, Ghost(after));
                    current_idx = paren_close_idx + 1;
                } else {
                    return Err(ParseError::new("invalid path, no closing paren character"));
                }
            },
            (PathElem::ArrayClose, _) => {
                return Err(ParseError::new("invalid path, closing array character before opening"));
            },
            (PathElem::ParenClose, _) => {
                return Err(ParseError::new("invalid path, closing paren character before opening"));
            },
            _ => {
                // end of word: the rest is the last segment
                let seg = path.substring_char(current_idx, n).to_owned();
                push_segment(&mut parsed, seg, Ghost(Ok(seq![])));
                current_idx = n;
            },
        }
    }
    Ok(parsed)
}

/// Appends `seg` to `parsed`, keeping what the segments found so far and the
/// `rest` still to come make together.
fn push_segment(
    parsed: &mut Vec<String>,
    seg: String,
    Ghost(rest): Ghost<Result<Seq<Seq<char>>, Seq<char>>>,
)
    ensures
        final(parsed).deep_view() == old(parsed).deep_view().push(seg@),
        prepend(final(parsed).deep_view(), rest) == prepend(
            old(parsed).deep_view(),
            prepend(seq![seg@], rest),
        ),
{
    let ghost before = parsed.deep_view();
    parsed.push(seg);
    assert(parsed.deep_view() =~= before.push(seg@));
    proof {
        lemma_prepend_assoc(before, seq![seg@], rest);
        assert(before + seq![seg@] =~= before.push(seg@));
    }
}

/// `p` without the run of `*` at its end.
pub open spec fn trim_stars(p: Seq<char>) -> Seq<char>
    decreases p.len(),
{
    if p.len() > 0 && p.last() == '*' {
        trim_stars(p.drop_last())
    } else {
        p
    }
}

/// Whether `v` matches `pattern`: it equals it, the pattern is the splat, or
/// the pattern ends in `*` and `v` starts with what comes before the stars.
pub open spec fn matches_spec(v: Seq<char>, pattern: Seq<char>) -> bool {
    ||| v == pattern
    ||| pattern == SPLAT@
    ||| pattern.len() > 0 && pattern.last() == '*' && trim_stars(pattern).is_prefix_of(v)
}

/// Whether `a` and `b` hold the same characters.
pub(crate) fn same_text(a: &str, b: &str) -> (r: bool)
    ensures
        r == (a@ == b@),
{
    a.to_owned() == b.to_owned()
}

/// Whether the key or value `v` matches `pattern`: see `matches_spec`.
pub fn matches_pattern(v: &str, pattern: &str) -> (r: bool)
    ensures
        r == matches_spec(v@, pattern@),
{
    if same_text(v, pattern) || same_text(pattern, SPLAT) {
        return true;
    }
    let p = chars_of(pattern);
    if p.len() == 0 || p[p.len() - 1] != '*' {
        return false;
    }
    let mut end: usize = p.len();
    assert(p@.subrange(0, end as int) =~= p@);
    while end > 0 && p[end - 1] == '*'
        invariant
            p@ == pattern@,
            v@ != pattern@,
            pattern@ != SPLAT@,
            end <= p@.len(),
            trim_stars(p@) == trim_stars(p@.subrange(0, end as int)),
        decreases end,
    {
        assert(p@.subrange(0, end as int).drop_last() =~= p@.subrange(0, end - 1));
        end -= 1;
    }
    let ghost stem = p@.subrange(0, end as int);
    assert(trim_stars(stem) == stem);
    let c = chars_of(v);
    if c.len() < end {
        return false;
    }
    let mut i: usize = 0;
    while i < end
        invariant
            p@ == pattern@,
            v@ != pattern@,
            pattern@ != SPLAT@,
            c@ == v@,
            end <= p@.len(),
            end <= c@.len(),
            stem == p@.subrange(0, end as int),
            trim_stars(pattern@) == stem,
            i <= end,
            forall|k: int| 0 <= k < i ==> c@[k] == p@[k],
        decreases end - i,
    {
        if c[i] != p[i] {
            assert(stem[i as int] != c@.subrange(0, end as int)[i as int]);
            return false;
        }
        i += 1;
    }
    assert(stem =~= c@.subrange(0, end as int));
    true
}

/// Index of the first `==` that starts at or after `from`, if any.
pub open spec fn find_double_eq(s: Seq<char>, from: int) -> Option<int>
    decreases s.len() - from,
{
    if from < 0 || from + 1 >= s.len() {
        None
    } else if s[from] == '=' && s[from + 1] == '=' {
        Some(from)
    } else {
        find_double_eq(s, from + 1)
    }
}

/// The two sides of the only `==` in `s`, or `None` where `s` holds none, or
/// more than one (counted left to right without overlap).
pub open spec fn split_filter_spec(s: Seq<char>) -> Option<(Seq<char>, Seq<char>)> {
    match find_double_eq(s, 0) {
        Some(i) => if find_double_eq(s, i + 2) is None {
            Some((s.subrange(0, i), s.subrange(i + 2, s.len() as int)))
        } else {
            None
        },
        None => None,
    }
}

pub open spec fn msg_bad_filter(s: Seq<char>) -> Seq<char> {
    "invalid child filter: `"@ + s + "`"@
}

proof fn lemma_find_double_eq_bounds(s: Seq<char>, from: int)
    ensures
        find_double_eq(s, from) matches Some(j) ==> 0 <= from <= j && j + 1 < s.len(),
    decreases s.len() - from,
{
    if 0 <= from && from + 1 < s.len() && !(s[from] == '=' && s[from + 1] == '=') {
        lemma_find_double_eq_bounds(s, from + 1);
    }
}

fn next_double_eq(c: &Vec<char>, from: usize) -> (r: Option<usize>)
    ensures
        r == (match find_double_eq(c@, from as int) {
            Some(j) => Some(j as usize),
            None => None::<usize>,
        }),
{
    proof {
        lemma_find_double_eq_bounds(c@, from as int);
    }
    let mut i: usize = from;
    while c.len() > 1 && i < c.len() - 1
        invariant
            from <= i,
            find_double_eq(c@, from as int) == find_double_eq(c@, i as int),
        decreases c.len() - i,
    {
        if c[i] == '=' && c[i + 1] == '=' {
            return Some(i);
        }
        i += 1;
    }
    None
}

/// Splits a child filter `path==pattern` at its only `==`.
pub fn split_child_filter(filter: &str) -> (r: Result<[&str; 2], ParseError>)
    ensures
        match split_filter_spec(filter@) {
            Some((key, value)) => r matches Ok(parts) && parts[0]@ == key && parts[1]@ == value,
            None => r matches Err(e) && e@ == msg_bad_filter(filter@),
        },
{
    let c = chars_of(filter);
    proof {
        lemma_find_double_eq_bounds(c@, 0);
    }
    match next_double_eq(&c, 0) {
        Some(i) => {
            if next_double_eq(&c, i + 2).is_none() {
                return Ok([filter.substring_char(0, i), filter.substring_char(i + 2, c.len())]);
            }
        },
        None => {},
    }
    let mut m = String::from_str("invalid child filter: `");
    m.append(filter);
    m.append("`");
    Err(ParseError(m))
}

/// `s` without a leading `+`.
pub open spec fn digits_part(s: Seq<char>) -> Seq<char> {
    if s.len() > 0 && s[0] == '+' {
        s.drop_first()
    } else {
        s
    }
}

pub open spec fn is_digit(c: char) -> bool {
    '0' <= c <= '9'
}

/// The number that the decimal digits `d` stand for.
pub open spec fn digits_value(d: Seq<char>) -> nat
    decreases d.len(),
{
    if d.len() == 0 {
        0
    } else {
        digits_value(d.drop_last()) * 10 + (d.last() as nat - '0' as nat) as nat
    }
}

/// The number that `s` writes as an optional `+` and one or more decimal
/// digits, or `None` where `s` has another form.
pub open spec fn index_value(s: Seq<char>) -> Option<nat> {
    let d = digits_part(s);
    if d.len() > 0 && forall|k: int| 0 <= k < d.len() ==> is_digit(#[trigger] d[k]) {
        Some(digits_value(d))
    } else {
        None
    }
}

/// The index that the array segment content `s` names, where it is one that
/// fits in `usize`.
pub open spec fn index_spec(s: Seq<char>) -> Option<usize> {
    match index_value(s) {
        Some(v) => if v <= usize::MAX {
            Some(v as usize)
        } else {
            None
        },
        None => None,
    }
}

pub open spec fn msg_bad_index(s: Seq<char>) -> Seq<char> {
    "unable to parse array index `"@ + s + "`"@
}

proof fn lemma_digits_value_grows(d: Seq<char>, j: int, k: int)
    requires
        0 <= j <= k <= d.len(),
        forall|i: int| 0 <= i < d.len() ==> is_digit(#[trigger] d[i]),
    ensures
        digits_value(d.subrange(0, j)) <= digits_value(d.subrange(0, k)),
    decreases k - j,
{
    if j < k {
        lemma_digits_value_grows(d, j, k - 1);
        assert(d.subrange(0, k).drop_last() =~= d.subrange(0, k - 1));
    }
}

/// The index that `s` writes in decimal, after an optional `+`, where it
/// fits in `usize`.
pub fn parse_index(s: &str) -> (r: Option<usize>)
    ensures
        r == index_spec(s@),
{
    let c = chars_of(s);
    let start: usize = if c.len() > 0 && c[0] == '+' {
        1
    } else {
        0
    };
    let ghost d = c@.subrange(start as int, c@.len() as int);
    assert(d =~= digits_part(c@));
    let mut value: usize = 0;
    let mut i: usize = start;
    let mut ok = start < c.len();
    while ok && i < c.len()
        invariant
            c@ == s@,
            start <= i <= c@.len(),
            d == c@.subrange(start as int, c@.len() as int),
            d == digits_part(s@),
            ok ==> start < c@.len(),
            ok ==> value == digits_value(d.subrange(0, i - start)),
            ok ==> forall|k: int| 0 <= k < i - start ==> is_digit(#[trigger] d[k]),
            !ok ==> index_spec(s@) is None,
            !ok && start == c@.len() ==> index_value(s@) is None,
        decreases c.len() - i,
    {
        let ch = c[i];
        if !('0' <= ch && ch <= '9') {
            assert(!is_digit(d[i - start]));
            ok = false;
        } else {
            let digit = (ch as u32 - '0' as u32) as usize;
            assert(d.subrange(0, i + 1 - start).drop_last() =~= d.subrange(0, i - start));
            match value.checked_mul(10) {
                Some(tens) => match tens.checked_add(digit) {
                    Some(next) => {
                        value = next;
                    },
                    None => {
                        ok = false;
                    },
                },
                None => {
                    ok = false;
                },
            }
            if !ok {
                proof {
                    if index_value(s@) is Some {
                        assert(forall|k: int| 0 <= k < d.len() ==> is_digit(#[trigger] d[k]));
                        lemma_digits_value_grows(d, i + 1 - start, d.len() as int);
                        assert(d.subrange(0, d.len() as int) =~= d);
                    }
                }
            }
        }
        i += 1;
    }
    if ok {
        assert(d.subrange(0, i - start) =~= d);
        Some(value)
    } else {
        None
    }
}

/// Reads an array segment's content: `*` for every index, or one index.
pub fn parse_array_indexing_operation(path_elem: &str) -> (r: Result<ArrayIndices, ParseError>)
    ensures
        path_elem@ == "*"@ ==> r == Ok::<ArrayIndices, ParseError>(ArrayIndices::Star),
        path_elem@ != "*"@ ==> match index_spec(path_elem@) {
            Some(v) => r matches Ok(ArrayIndices::Indices(ix)) && ix@ == seq![v],
            None => r matches Err(e) && e@ == msg_bad_index(path_elem@),
        },
{
    if same_text(path_elem, "*") {
        return Ok(ArrayIndices::Star);
    }
    match parse_index(path_elem) {
        Some(value) => {
            let mut v: Vec<usize> = Vec::new();
            v.push(value);
            Ok(ArrayIndices::Indices(v))
        },
        None => {
            let mut m = String::from_str("unable to parse array index `");
            m.append(path_elem);
            m.append("`");
            Err(ParseError(m))
        },
    }
}

/// Whether `s` is a child filter segment: wrapped in parentheses.
pub open spec fn is_child_filter_spec(s: Seq<char>) -> bool {
    s.len() > 0 && s[0] == '(' && s.last() == ')'
}

/// Whether `s` is an array segment: wrapped in square brackets.
pub open spec fn is_bracketed_spec(s: Seq<char>) -> bool {
    s.len() > 0 && s[0] == '[' && s.last() == ']'
}

/// Whether `path_elem` is wrapped in parentheses.
pub fn is_child_filter(path_elem: &str) -> (r: bool)
    ensures
        r == is_child_filter_spec(path_elem@),
{
    let n = path_elem.unicode_len();
    n > 0 && path_elem.get_char(0) == '(' && path_elem.get_char(n - 1) == ')'
}

/// Whether `path_elem` is wrapped in square brackets.
pub fn is_bracketed(path_elem: &str) -> (r: bool)
    ensures
        r == is_bracketed_spec(path_elem@),
{
    let n = path_elem.unicode_len();
    n > 0 && path_elem.get_char(0) == '[' && path_elem.get_char(n - 1) == ']'
}

/// The characters of `s`, in order.
fn chars_of(s: &str) -> (r: Vec<char>)
    ensures
        r@ == s@,
{
    let mut r: Vec<char> = Vec::new();
    for c in it: s.chars()
        invariant
            r@ == it.seq().subrange(0, it.index() as int),
    {
        r.push(c);
    }
    r
}

} // verus!
