//! The token vocabulary, syntax errors, and the pattern compiler.
use vstd::prelude::*;
use vstd::string::StrSliceExecFns;

verus! {

broadcast use vstd::std_specs::vec::group_vec_axioms, vstd::seq::group_seq_axioms;

/// One member of a character class.
#[derive(Clone, Copy, PartialEq, Eq, Debug, Hash)]
pub enum CharSpecifier {
    Char(char),
    /// An inclusive range.
    Range(char, char),
}

/// The kind of an extended glob group.
#[derive(Clone, Copy, PartialEq, Eq, Debug, Hash)]
pub enum GroupKind {
    /// `?(..)`
    ZeroOrOne,
    /// `*(..)`
    ZeroOrMore,
    /// `+(..)`
    OneOrMore,
    /// `@(..)`
    ExactlyOne,
    /// `!(..)`
    NoneOf,
}

/// One unit of a compiled pattern.
#[derive(PartialEq, Eq, Debug, Hash)]
pub enum Token {
    /// A character that must appear as is.
    Literal(char),
    /// `?`
    AnyChar,
    /// `*`
    AnySequence,
    /// `**`
    AnyRecursive,
    /// `[..]`, negated for `[!..]`.
    Class(Vec<CharSpecifier>, bool),
    /// An extended glob group with its compiled alternatives.
    Group(GroupKind, Vec<Vec<Token>>),
}

/// A syntax error, with the character offset where it was found.
#[derive(Clone, Copy, PartialEq, Eq, Structural, PartialOrd, Ord, Hash, Debug)]
pub enum Error {
    /// A malformed pattern; the compiler reports the more precise kinds below.
    IllegalPattern(usize),
    /// A group with nothing inside; the compiler reports `?()` and the like
    /// as an empty alternative, `IllegalOr`.
    EmptyPattern(usize),
    /// A group without its closing `)`.
    UnclosedPattern(usize),
    /// `]`, `(`, `)` or `|` where it cannot stand.
    IllegalChar(usize),
    /// An empty alternative in a group.
    IllegalOr(usize),
    /// A malformed class; the compiler reports the more precise kinds below.
    IllegalRange(usize),
    /// A class without its closing `]`.
    UnclosedRange(usize),
    /// A class with no member.
    EmptyRange(usize),
    /// Three or more `*` in a row.
    IllegalWildcard(usize),
    /// `**` next to something other than `/` or an end of the pattern; the
    /// offset is that of its first `*`.
    IllegalRecursion(usize),
    /// A `\` that ends the pattern.
    IllegalEscape(usize),
}

impl Error {
    /// The character offset where the error was found.
    pub open spec fn spec_offset(self) -> usize {
        match self {
            Error::IllegalPattern(i) => i,
            Error::EmptyPattern(i) => i,
            Error::UnclosedPattern(i) => i,
            Error::IllegalChar(i) => i,
            Error::IllegalOr(i) => i,
            Error::IllegalRange(i) => i,
            Error::UnclosedRange(i) => i,
            Error::EmptyRange(i) => i,
            Error::IllegalWildcard(i) => i,
            Error::IllegalRecursion(i) => i,
            Error::IllegalEscape(i) => i,
        }
    }

    /// A short description of the kind of error.
    pub open spec fn spec_desc(self) -> Seq<char> {
        match self {
            Error::IllegalPattern(_) => "illegal pattern"@,
            Error::EmptyPattern(_) => "empty pattern"@,
            Error::UnclosedPattern(_) => "unclosed pattern"@,
            Error::IllegalChar(_) => "illegal character"@,
            Error::IllegalOr(_) => "illegal or"@,
            Error::IllegalRange(_) => "illegal range"@,
            Error::UnclosedRange(_) => "unclosed range"@,
            Error::EmptyRange(_) => "empty range"@,
            Error::IllegalWildcard(_) => "illegal wildcard"@,
            Error::IllegalRecursion(_) => "illegal recursion"@,
            Error::IllegalEscape(_) => "illegal escape"@,
        }
    }

    /// The character offset where the error was found.
    pub fn offset(&self) -> (r: usize)
        ensures
            r == self.spec_offset(),
    {
        match self {
            Error::IllegalPattern(i) => *i,
            Error::EmptyPattern(i) => *i,
            Error::UnclosedPattern(i) => *i,
            Error::IllegalChar(i) => *i,
            Error::IllegalOr(i) => *i,
            Error::IllegalRange(i) => *i,
            Error::UnclosedRange(i) => *i,
            Error::EmptyRange(i) => *i,
            Error::IllegalWildcard(i) => *i,
            Error::IllegalRecursion(i) => *i,
            Error::IllegalEscape(i) => *i,
        }
    }

    /// A short description of the kind of error.
    pub fn desc(&self) -> (r: &'static str)
        ensures
            r@ == self.spec_desc(),
    {
        match self {
            Error::IllegalPattern(_) => "illegal pattern",
            Error::EmptyPattern(_) => "empty pattern",
            Error::UnclosedPattern(_) => "unclosed pattern",
            Error::IllegalChar(_) => "illegal character",
            Error::IllegalOr(_) => "illegal or",
            Error::IllegalRange(_) => "illegal range",
            Error::UnclosedRange(_) => "unclosed range",
            Error::EmptyRange(_) => "empty range",
            Error::IllegalWildcard(_) => "illegal wildcard",
            Error::IllegalRecursion(_) => "illegal recursion",
            Error::IllegalEscape(_) => "illegal escape",
        }
    }
}

/// The mathematical form of a [`Token`]: vectors become sequences.
pub ghost enum SpecToken {
    Literal(char),
    AnyChar,
    AnySequence,
    AnyRecursive,
    Class(Seq<CharSpecifier>, bool),
    Group(GroupKind, Seq<Seq<SpecToken>>),
}

pub open spec fn token_view(t: Token) -> SpecToken
    decreases t,
{
    match t {
        Token::Literal(c) => SpecToken::Literal(c),
        Token::AnyChar => SpecToken::AnyChar,
        Token::AnySequence => SpecToken::AnySequence,
        Token::AnyRecursive => SpecToken::AnyRecursive,
        Token::Class(specs, negated) => SpecToken::Class(specs@, negated),
        Token::Group(kind, alts) => SpecToken::Group(kind, alts_view(alts@)),
    }
}

pub open spec fn tokens_view(v: Seq<Token>) -> Seq<SpecToken>
    decreases v,
{
    if v.len() == 0 {
        Seq::empty()
    } else {
        seq![token_view(v[0])] + tokens_view(v.drop_first())
    }
}

pub open spec fn alts_view(a: Seq<Vec<Token>>) -> Seq<Seq<SpecToken>>
    decreases a,
{
    if a.len() == 0 {
        Seq::empty()
    } else {
        seq![tokens_view(a[0]@)] + alts_view(a.drop_first())
    }
}

/// One token as the compiler first finds it: a group keeps the positions of
/// its alternatives, which are compiled afterwards.
pub ghost enum Lexeme {
    Simple(SpecToken),
    /// The kind and the `[from, to)` range of each alternative.
    Group(GroupKind, Seq<(int, int)>),
}

/// The character at `i`, as a value that is known to be a valid `char`.
pub open spec fn char_at(s: Seq<char>, i: int) -> char {
    s[i]
}

/// The kind of group that a character opens when `(` follows it.
pub open spec fn group_kind(c: char) -> Option<GroupKind> {
    if c == '?' {
        Some(GroupKind::ZeroOrOne)
    } else if c == '*' {
        Some(GroupKind::ZeroOrMore)
    } else if c == '+' {
        Some(GroupKind::OneOrMore)
    } else if c == '@' {
        Some(GroupKind::ExactlyOne)
    } else if c == '!' {
        Some(GroupKind::NoneOf)
    } else {
        None
    }
}

/// `*` or `**` at `i`; `**` must stand between `/`s or ends of the pattern,
/// and a neighbour that breaks this is reported at the first `*` of `**`.
pub open spec fn wildcard_at(s: Seq<char>, i: int) -> Result<(Lexeme, int), Error> {
    if i + 1 < s.len() && s[i + 1] == '*' {
        if i > 0 && s[i - 1] != '/' {
            Err(Error::IllegalRecursion(i as usize))
        } else if i + 2 < s.len() && s[i + 2] == '*' {
            Err(Error::IllegalWildcard((i + 2) as usize))
        } else if i + 2 < s.len() && s[i + 2] != '/' {
            Err(Error::IllegalRecursion(i as usize))
        } else {
            Ok((Lexeme::Simple(SpecToken::AnyRecursive), i + 2))
        }
    } else {
        Ok((Lexeme::Simple(SpecToken::AnySequence), i + 1))
    }
}

/// `\c` at `i`: the literal `c`.
pub open spec fn escape_at(s: Seq<char>, i: int) -> Result<(Lexeme, int), Error> {
    if i + 1 >= s.len() {
        Err(Error::IllegalEscape(i as usize))
    } else {
        Ok((Lexeme::Simple(SpecToken::Literal(char_at(s, i + 1))), i + 2))
    }
}

/// The position of the `]` that closes a class, scanning from `j`.
pub open spec fn class_end(s: Seq<char>, j: int, escaped: bool) -> Result<int, Error>
    decreases s.len() - j,
{
    if j < 0 || j >= s.len() {
        Err(Error::UnclosedRange((s.len() - 1) as usize))
    } else if escaped {
        class_end(s, j + 1, false)
    } else if s[j] == '\\' {
        class_end(s, j + 1, true)
    } else if s[j] == ']' {
        Ok(j)
    } else if s[j] == '[' || s[j] == '(' || s[j] == ')' || s[j] == '|' {
        Err(Error::IllegalChar(j as usize))
    } else {
        class_end(s, j + 1, false)
    }
}

/// The members of a class: `a-b` is a range, any other character itself.
pub open spec fn char_specifiers(cs: Seq<char>) -> Seq<CharSpecifier>
    decreases cs.len(),
{
    if cs.len() == 0 {
        Seq::empty()
    } else if cs.len() >= 3 && cs[1] == '-' {
        seq![CharSpecifier::Range(char_at(cs, 0), char_at(cs, 2))] + char_specifiers(cs.skip(3))
    } else {
        seq![CharSpecifier::Char(char_at(cs, 0))] + char_specifiers(cs.skip(1))
    }
}

/// `[...]` or `[!...]` at `i`.
pub open spec fn class_at(s: Seq<char>, i: int) -> Result<(Lexeme, int), Error> {
    let first = i + 1;
    if first >= s.len() || s[first] == ']' {
        Err(Error::EmptyRange(i as usize))
    } else {
        let negated = s[first] == '!';
        let body = if negated { first + 1 } else { first };
        match class_end(s, body, false) {
            Err(e) => Err(e),
            Ok(end) => {
                if end == body {
                    Err(Error::EmptyRange(i as usize))
                } else {
                    Ok(
                        (
                            Lexeme::Simple(
                                SpecToken::Class(char_specifiers(s.subrange(body, end)), negated),
                            ),
                            end + 1,
                        ),
                    )
                }
            },
        }
    }
}

/// The position of the `)` that closes a group, scanning from `j` with the
/// `(` and `[` still open in `stack`.
pub open spec fn group_end(s: Seq<char>, j: int, stack: Seq<char>, escaped: bool) -> Result<
    int,
    Error,
>
    decreases s.len() - j,
{
    if j < 0 || j >= s.len() {
        Err(Error::UnclosedPattern((s.len() - 1) as usize))
    } else if escaped {
        group_end(s, j + 1, stack, false)
    } else if s[j] == '\\' {
        group_end(s, j + 1, stack, true)
    } else if s[j] == ']' {
        if stack.len() > 0 && stack.last() == '[' {
            group_end(s, j + 1, stack.drop_last(), false)
        } else {
            Err(Error::IllegalChar(j as usize))
        }
    } else if s[j] == ')' {
        if stack.len() == 0 {
            Ok(j)
        } else if stack.last() == '(' {
            group_end(s, j + 1, stack.drop_last(), false)
        } else {
            Err(Error::IllegalChar(j as usize))
        }
    } else if s[j] == '(' || s[j] == '[' {
        group_end(s, j + 1, stack.push(char_at(s, j)), false)
    } else {
        group_end(s, j + 1, stack, false)
    }
}

/// The ranges of the alternatives in `s[j..close]`, split at each `|` that
/// is neither escaped nor nested; `acc` holds those already found and `last`
/// is where the current one began.
pub open spec fn split_alternatives(
    s: Seq<char>,
    j: int,
    close: int,
    depth: nat,
    escaped: bool,
    last: int,
    acc: Seq<(int, int)>,
) -> Result<Seq<(int, int)>, Error>
    decreases close - j,
{
    if j >= close {
        if last >= close {
            Err(Error::IllegalOr(last as usize))
        } else {
            Ok(acc.push((last, close)))
        }
    } else if escaped {
        split_alternatives(s, j + 1, close, depth, false, last, acc)
    } else if s[j] == '\\' {
        split_alternatives(s, j + 1, close, depth, true, last, acc)
    } else if s[j] == '(' || s[j] == '[' {
        split_alternatives(s, j + 1, close, depth + 1, false, last, acc)
    } else if s[j] == ')' || s[j] == ']' {
        split_alternatives(s, j + 1, close, if depth > 0 { (depth - 1) as nat } else { 0 }, false, last, acc)
    } else if s[j] == '|' && depth == 0 {
        if j == last {
            Err(Error::IllegalOr(last as usize))
        } else {
            split_alternatives(s, j + 1, close, depth, false, j + 1, acc.push((last, j)))
        }
    } else {
        split_alternatives(s, j + 1, close, depth, false, last, acc)
    }
}

/// A group whose opener is at `i` and whose body starts at `i + 2`; an empty
/// body is one empty alternative.
pub open spec fn group_at(s: Seq<char>, i: int, kind: GroupKind) -> Result<(Lexeme, int), Error> {
    let start = i + 2;
    match group_end(s, start, Seq::empty(), false) {
        Err(e) => Err(e),
        Ok(close) => match split_alternatives(s, start, close, 0, false, start, Seq::empty()) {
            Err(e) => Err(e),
            Ok(ranges) => Ok((Lexeme::Group(kind, ranges), close + 1)),
        },
    }
}

/// The token that starts at `i`, with the position after it.
pub open spec fn lex_at(s: Seq<char>, i: int) -> Result<(Lexeme, int), Error> {
    if i + 1 < s.len() && group_kind(s[i]) is Some && s[i + 1] == '(' {
        group_at(s, i, group_kind(s[i])->Some_0)
    } else if s[i] == '?' {
        Ok((Lexeme::Simple(SpecToken::AnyChar), i + 1))
    } else if s[i] == '*' {
        wildcard_at(s, i)
    } else if s[i] == '\\' {
        escape_at(s, i)
    } else if s[i] == '[' {
        class_at(s, i)
    } else if s[i] == ']' || s[i] == '(' || s[i] == ')' || s[i] == '|' {
        Err(Error::IllegalChar(i as usize))
    } else {
        Ok((Lexeme::Simple(SpecToken::Literal(char_at(s, i))), i + 1))
    }
}

pub proof fn lemma_class_end(s: Seq<char>, j: int, escaped: bool)
    requires
        0 <= j,
    ensures
        class_end(s, j, escaped) is Ok ==> j <= class_end(s, j, escaped)->Ok_0 < s.len(),
        class_end(s, j, escaped) is Ok ==> s[class_end(s, j, escaped)->Ok_0] == ']',
    decreases s.len() - j,
{
    if j < s.len() {
        lemma_class_end(s, j + 1, false);
        lemma_class_end(s, j + 1, true);
    }
}

pub proof fn lemma_group_end(s: Seq<char>, j: int, stack: Seq<char>, escaped: bool)
    requires
        0 <= j,
    ensures
        group_end(s, j, stack, escaped) is Ok ==> j <= group_end(s, j, stack, escaped)->Ok_0
            < s.len(),
        group_end(s, j, stack, escaped) is Ok ==> s[group_end(s, j, stack, escaped)->Ok_0] == ')',
    decreases s.len() - j,
{
    if j < s.len() {
        lemma_group_end(s, j + 1, stack, false);
        lemma_group_end(s, j + 1, stack, true);
        if stack.len() > 0 {
            lemma_group_end(s, j + 1, stack.drop_last(), false);
        }
        lemma_group_end(s, j + 1, stack.push(char_at(s, j)), false);
    }
}

/// Every range in `ranges` is non-empty and lies in `[lo, hi]`.
pub open spec fn ranges_within(ranges: Seq<(int, int)>, lo: int, hi: int) -> bool {
    forall|k: int|
        0 <= k < ranges.len() ==> lo <= (#[trigger] ranges[k]).0 < ranges[k].1 <= hi
}

pub proof fn lemma_split_alternatives(
    s: Seq<char>,
    j: int,
    close: int,
    depth: nat,
    escaped: bool,
    last: int,
    acc: Seq<(int, int)>,
    lo: int,
)
    requires
        lo <= last <= j,
        ranges_within(acc, lo, close),
    ensures
        split_alternatives(s, j, close, depth, escaped, last, acc) is Ok ==> ranges_within(
            split_alternatives(s, j, close, depth, escaped, last, acc)->Ok_0,
            lo,
            close,
        ) && split_alternatives(s, j, close, depth, escaped, last, acc)->Ok_0.len() > 0,
    decreases close - j,
{
    if j < close {
        lemma_split_alternatives(s, j + 1, close, depth, escaped, last, acc, lo);
        lemma_split_alternatives(s, j + 1, close, depth, true, last, acc, lo);
        lemma_split_alternatives(s, j + 1, close, depth, false, last, acc, lo);
        lemma_split_alternatives(s, j + 1, close, depth + 1, false, last, acc, lo);
        lemma_split_alternatives(s, j + 1, close, (depth - 1) as nat, false, last, acc, lo);
        lemma_split_alternatives(s, j + 1, close, 0, false, last, acc, lo);
        if last < j {
            let acc2 = acc.push((last, j));
            assert(ranges_within(acc2, lo, close));
            lemma_split_alternatives(s, j + 1, close, depth, false, j + 1, acc2, lo);
        }
    } else {
        if last < close {
            assert(ranges_within(acc.push((last, close)), lo, close));
        }
    }
}

/// A token found at `i` ends after `i`, and the alternatives of a group lie
/// inside its parentheses.
pub proof fn lemma_lex_at(s: Seq<char>, i: int)
    requires
        0 <= i < s.len(),
    ensures
        lex_at(s, i) is Ok ==> i < lex_at(s, i)->Ok_0.1 <= s.len(),
        lex_at(s, i) is Ok && lex_at(s, i)->Ok_0.0 is Group ==> ranges_within(
            lex_at(s, i)->Ok_0.0->Group_1,
            i + 2,
            lex_at(s, i)->Ok_0.1 - 1,
        ) && lex_at(s, i)->Ok_0.0->Group_1.len() > 0,
        lex_at(s, i) is Ok && s[lex_at(s, i)->Ok_0.1 - 1] == '/' ==> lex_at(s, i)->Ok_0.0
            == Lexeme::Simple(SpecToken::Literal('/')),
        lex_at(s, i) == Ok::<(Lexeme, int), Error>(
            (Lexeme::Simple(SpecToken::AnyRecursive), i + 2),
        ) ==> (i == 0 || s[i - 1] == '/') && (i + 2 < s.len() ==> s[i + 2] == '/'),
        s[i] == '/' ==> lex_at(s, i) == Ok::<(Lexeme, int), Error>(
            (Lexeme::Simple(SpecToken::Literal('/')), i + 1),
        ),
{
    lemma_group_end(s, i + 2, Seq::empty(), false);
    lemma_class_end(s, i + 1, false);
    lemma_class_end(s, i + 2, false);
    if let Ok(close) = group_end(s, i + 2, Seq::empty(), false) {
        lemma_split_alternatives(s, i + 2, close, 0, false, i + 2, Seq::empty(), i + 2);
    }
}

/// The compiled tokens of `s[i..]`, or the first syntax error in it.
pub open spec fn parse_from(s: Seq<char>, i: int) -> Result<Seq<SpecToken>, Error>
    decreases s.len() - i, 1int, 0int,
{
    if i < 0 || i >= s.len() {
        Ok(Seq::empty())
    } else {
        proof {
            lemma_lex_at(s, i);
        }
        match lex_at(s, i) {
            Err(e) => Err(e),
            Ok((lexeme, next)) => {
                let token = match lexeme {
                    Lexeme::Simple(t) => Ok(t),
                    Lexeme::Group(kind, _) => match parse_alternatives(s, i, 0) {
                        Err(e) => Err(e),
                        Ok(alts) => Ok(SpecToken::Group(kind, alts)),
                    },
                };
                match token {
                    Err(e) => Err(e),
                    Ok(t) => match parse_from(s, next) {
                        Err(e) => Err(e),
                        Ok(rest) => Ok(seq![t] + rest),
                    },
                }
            },
        }
    }
}

/// The compiled alternatives `k..` of the group that starts at `i`, or the
/// first syntax error among them.
pub open spec fn parse_alternatives(s: Seq<char>, i: int, k: int) -> Result<
    Seq<Seq<SpecToken>>,
    Error,
>
    decreases s.len() - i, 0int, group_ranges(s, i).len() - k,
{
    let ranges = group_ranges(s, i);
    if i < 0 || i >= s.len() || k < 0 || k >= ranges.len() {
        Ok(Seq::empty())
    } else {
        proof {
            lemma_lex_at(s, i);
        }
        match parse_from(s.subrange(ranges[k].0, ranges[k].1), 0) {
            Err(e) => Err(e),
            Ok(alt) => match parse_alternatives(s, i, k + 1) {
                Err(e) => Err(e),
                Ok(rest) => Ok(seq![alt] + rest),
            },
        }
    }
}

/// The ranges of the alternatives of the group that starts at `i`.
pub open spec fn group_ranges(s: Seq<char>, i: int) -> Seq<(int, int)> {
    match lex_at(s, i) {
        Ok((Lexeme::Group(_, ranges), _)) => ranges,
        _ => Seq::empty(),
    }
}

/// The compiled form of a whole pattern, or its first syntax error.
pub open spec fn parse_pattern(s: Seq<char>) -> Result<Seq<SpecToken>, Error> {
    parse_from(s, 0)
}

/// The view of a literal token; stated for a `char` that may come out of a sequence.
pub proof fn lemma_literal_view(c: char)
    ensures
        token_view(Token::Literal(c)) == SpecToken::Literal(c),
{
}

pub proof fn lemma_tokens_view(v: Seq<Token>)
    ensures
        tokens_view(v).len() == v.len(),
        forall|i: int| 0 <= i < v.len() ==> #[trigger] tokens_view(v)[i] == token_view(v[i]),
    decreases v.len(),
{
    if v.len() > 0 {
        lemma_tokens_view(v.drop_first());
        assert forall|i: int| 0 <= i < v.len() implies #[trigger] tokens_view(v)[i] == token_view(
            v[i],
        ) by {
            if i > 0 {
                assert(v.drop_first()[i - 1] == v[i]);
            }
        }
    }
}

pub proof fn lemma_alts_view(a: Seq<Vec<Token>>)
    ensures
        alts_view(a).len() == a.len(),
        forall|i: int| 0 <= i < a.len() ==> #[trigger] alts_view(a)[i] == tokens_view(a[i]@),
    decreases a.len(),
{
    if a.len() > 0 {
        lemma_alts_view(a.drop_first());
        assert forall|i: int| 0 <= i < a.len() implies #[trigger] alts_view(a)[i] == tokens_view(
            a[i]@,
        ) by {
            if i > 0 {
                assert(a.drop_first()[i - 1] == a[i]);
            }
        }
    }
}

/// Two token vectors with the same views element by element have the same view.
pub proof fn lemma_tokens_view_eq(v: Seq<Token>, w: Seq<Token>)
    requires
        v.len() == w.len(),
        forall|i: int| 0 <= i < v.len() ==> token_view(#[trigger] v[i]) == token_view(w[i]),
    ensures
        tokens_view(v) == tokens_view(w),
{
    lemma_tokens_view(v);
    lemma_tokens_view(w);
    assert(tokens_view(v) =~= tokens_view(w));
}

pub proof fn lemma_tokens_view_concat(v: Seq<Token>, w: Seq<Token>)
    ensures
        tokens_view(v + w) == tokens_view(v) + tokens_view(w),
{
    lemma_tokens_view(v);
    lemma_tokens_view(w);
    lemma_tokens_view(v + w);
    assert(tokens_view(v + w) =~= tokens_view(v) + tokens_view(w));
}

impl Token {
    /// A deep copy of the token.
    pub fn duplicate(&self) -> (r: Token)
        ensures
            token_view(r) == token_view(*self),
        decreases self,
    {
        match self {
            Token::Literal(c) => Token::Literal(*c),
            Token::AnyChar => Token::AnyChar,
            Token::AnySequence => Token::AnySequence,
            Token::AnyRecursive => Token::AnyRecursive,
            Token::Class(specs, negated) => {
                let mut copy: Vec<CharSpecifier> = Vec::new();
                let mut k: usize = 0;
                while k < specs.len()
                    invariant
                        k <= specs.len(),
                        copy@ == specs@.take(k as int),
                    decreases specs.len() - k,
                {
                    copy.push(specs[k]);
                    k += 1;
                    assert(copy@ =~= specs@.take(k as int));
                }
                assert(specs@.take(k as int) =~= specs@);
                Token::Class(copy, *negated)
            },
            Token::Group(kind, alts) => Token::Group(*kind, copy_alts(alts)),
        }
    }
}

impl Clone for Token {
    fn clone(&self) -> (r: Self)
        ensures
            token_view(r) == token_view(*self),
    {
        self.duplicate()
    }
}

/// A deep copy of the alternatives of a group.
fn copy_alts(a: &Vec<Vec<Token>>) -> (r: Vec<Vec<Token>>)
    ensures
        alts_view(r@) == alts_view(a@),
    decreases a,
{
    let mut copy: Vec<Vec<Token>> = Vec::new();
    let mut k: usize = 0;
    while k < a.len()
        invariant
            k <= a.len(),
            copy@.len() == k,
            forall|j: int| 0 <= j < k ==> tokens_view(#[trigger] copy@[j]@) == tokens_view(a@[j]@),
        decreases a.len() - k,
    {
        let alt = copy_tokens(&a[k]);
        copy.push(alt);
        k += 1;
    }
    proof {
        lemma_alts_view(copy@);
        lemma_alts_view(a@);
        assert(alts_view(copy@) =~= alts_view(a@));
    }
    copy
}

/// A deep copy of a token vector.
pub fn copy_tokens(v: &Vec<Token>) -> (r: Vec<Token>)
    ensures
        tokens_view(r@) == tokens_view(v@),
    decreases v,
{
    let mut copy: Vec<Token> = Vec::new();
    let mut k: usize = 0;
    while k < v.len()
        invariant
            k <= v.len(),
            copy@.len() == k,
            forall|j: int| 0 <= j < k ==> token_view(#[trigger] copy@[j]) == token_view(v@[j]),
        decreases v.len() - k,
    {
        let t = v[k].duplicate();
        copy.push(t);
        k += 1;
    }
    proof {
        lemma_tokens_view_eq(copy@, v@);
    }
    copy
}

/// A compiled token is well formed: a class has a member, and a group has
/// at least one alternative, each non-empty and well formed (see
/// [`tokens_well_formed`]).
pub open spec fn token_well_formed(t: SpecToken) -> bool
    decreases t,
{
    match t {
        SpecToken::Class(specs, _) => specs.len() > 0,
        SpecToken::Group(_, alts) => alts.len() > 0 && alts_well_formed(alts),
        _ => true,
    }
}

/// A `/` literal, the only token that may stand next to a `**`.
pub open spec fn is_slash(t: SpecToken) -> bool {
    t == SpecToken::Literal('/')
}

/// Every token of a sequence is well formed, and a `**` has a `/` or an end
/// of the sequence on each side.
pub open spec fn tokens_well_formed(ts: Seq<SpecToken>) -> bool
    decreases ts,
{
    ts.len() == 0 || {
        &&& token_well_formed(ts[0])
        &&& tokens_well_formed(ts.drop_first())
        &&& ts[0] is AnyRecursive && ts.len() > 1 ==> is_slash(ts[1])
        &&& ts.len() > 1 && ts[1] is AnyRecursive ==> is_slash(ts[0])
    }
}

pub open spec fn alts_well_formed(a: Seq<Seq<SpecToken>>) -> bool
    decreases a,
{
    a.len() == 0 || (a[0].len() > 0 && tokens_well_formed(a[0]) && alts_well_formed(
        a.drop_first(),
    ))
}

proof fn lemma_char_specifiers_nonempty(cs: Seq<char>)
    requires
        cs.len() > 0,
    ensures
        char_specifiers(cs).len() > 0,
{
}

/// What `parse_from` compiles is well formed, and not empty when there is
/// text left.
pub proof fn lemma_parse_from_well_formed(s: Seq<char>, i: int)
    ensures
        parse_from(s, i) is Ok ==> tokens_well_formed(parse_from(s, i)->Ok_0),
        parse_from(s, i) is Ok && 0 <= i < s.len() ==> parse_from(s, i)->Ok_0.len() > 0,
        parse_from(s, i) is Ok && 0 <= i && parse_from(s, i)->Ok_0.len() > 0
            && parse_from(s, i)->Ok_0[0] is AnyRecursive ==> i == 0 || s[i - 1] == '/',
        parse_from(s, i) is Ok && 0 <= i < s.len() && s[i] == '/' ==> parse_from(s, i)->Ok_0[0]
            == SpecToken::Literal('/'),
    decreases s.len() - i, 1int, 0int,
{
    if 0 <= i < s.len() {
        lemma_lex_at(s, i);
        if let Ok((lexeme, next)) = lex_at(s, i) {
            let token = match lexeme {
                Lexeme::Simple(t) => Ok(t),
                Lexeme::Group(kind, _) => match parse_alternatives(s, i, 0) {
                    Err(e) => Err(e),
                    Ok(alts) => Ok(SpecToken::Group(kind, alts)),
                },
            };
            if let Lexeme::Group(_, ranges) = lexeme {
                lemma_parse_alternatives_well_formed(s, i, 0);
            }
            if s[i] == '[' && !opens_group(s, i) && lexeme is Simple {
                let first = i + 1;
                let body = if s[first] == '!' { first + 1 } else { first };
                lemma_class_end(s, body, false);
                if let Ok(end) = class_end(s, body, false) {
                    lemma_char_specifiers_nonempty(s.subrange(body, end));
                }
            }
            lemma_parse_from_well_formed(s, next);
            if let Ok(t) = token {
                if let Ok(rest) = parse_from(s, next) {
                    let all = seq![t] + rest;
                    assert(all[0] == t);
                    assert(all.drop_first() =~= rest);
                    assert(token_well_formed(t));
                    if rest.len() > 0 {
                        assert(all[1] == rest[0]);
                        if t is AnyRecursive {
                            assert(lexeme == Lexeme::Simple(SpecToken::AnyRecursive));
                            assert(next < s.len());
                        }
                    }
                }
            }
        }
    }
}

/// The alternatives `k..` that `parse_alternatives` compiles are non-empty
/// and well formed, one for each range.
pub proof fn lemma_parse_alternatives_well_formed(s: Seq<char>, i: int, k: int)
    ensures
        parse_alternatives(s, i, k) is Ok ==> alts_well_formed(parse_alternatives(s, i, k)->Ok_0),
        parse_alternatives(s, i, k) is Ok && 0 <= i < s.len() && 0 <= k <= group_ranges(
            s,
            i,
        ).len() ==> parse_alternatives(s, i, k)->Ok_0.len() == group_ranges(s, i).len() - k,
    decreases s.len() - i, 0int, group_ranges(s, i).len() - k,
{
    let ranges = group_ranges(s, i);
    if 0 <= i < s.len() && 0 <= k < ranges.len() {
        lemma_lex_at(s, i);
        let part = s.subrange(ranges[k].0, ranges[k].1);
        lemma_parse_from_well_formed(part, 0);
        lemma_parse_alternatives_well_formed(s, i, k + 1);
        if let Ok(alt) = parse_from(part, 0) {
            if let Ok(rest) = parse_alternatives(s, i, k + 1) {
                let all = seq![alt] + rest;
                assert(all[0] == alt);
                assert(all.drop_first() =~= rest);
            }
        }
    }
}

/// Every pattern that compiles gives well-formed tokens.
pub proof fn lemma_compiled_well_formed(text: Seq<char>)
    ensures
        parse_pattern(text) is Ok ==> tokens_well_formed(parse_pattern(text)->Ok_0),
{
    lemma_parse_from_well_formed(text, 0);
}

/// Whether a group opens at `i`: one of `?*+@!` followed by `(`.
pub open spec fn opens_group(s: Seq<char>, i: int) -> bool {
    i + 1 < s.len() && group_kind(s[i]) is Some && s[i + 1] == '('
}

/// The compiled token at `i`, with the position after it.
pub open spec fn token_result(s: Seq<char>, i: int) -> Result<(SpecToken, int), Error> {
    match lex_at(s, i) {
        Err(e) => Err(e),
        Ok((Lexeme::Simple(t), next)) => Ok((t, next)),
        Ok((Lexeme::Group(kind, _), next)) => match parse_alternatives(s, i, 0) {
            Err(e) => Err(e),
            Ok(alts) => Ok((SpecToken::Group(kind, alts), next)),
        },
    }
}

/// Puts `done` in front of what `r` compiled.
pub open spec fn prepend<T>(done: Seq<T>, r: Result<Seq<T>, Error>) -> Result<Seq<T>, Error> {
    match r {
        Ok(rest) => Ok(done + rest),
        Err(e) => Err(e),
    }
}

pub open spec fn tokens_result(r: Result<Vec<Token>, Error>) -> Result<Seq<SpecToken>, Error> {
    match r {
        Ok(v) => Ok(tokens_view(v@)),
        Err(e) => Err(e),
    }
}

/// What a step of the compiler returned: the token and where it ended, or an error.
pub open spec fn step_agrees(s: Seq<char>, i: int, r: Result<Token, Error>, next: int) -> bool {
    match r {
        Ok(t) => token_result(s, i) == Ok::<(SpecToken, int), Error>((token_view(t), next)),
        Err(e) => token_result(s, i) is Err && token_result(s, i)->Err_0 == e,
    }
}

pub proof fn lemma_parse_from_step(s: Seq<char>, i: int)
    requires
        0 <= i < s.len(),
    ensures
        token_result(s, i) is Ok ==> i < token_result(s, i)->Ok_0.1 <= s.len(),
        parse_from(s, i) == match token_result(s, i) {
            Err(e) => Err(e),
            Ok((t, next)) => prepend(seq![t], parse_from(s, next)),
        },
{
    lemma_lex_at(s, i);
}

pub proof fn lemma_ranges_view(ranges: Seq<(usize, usize)>)
    ensures
        ranges_view(ranges).len() == ranges.len(),
        forall|k: int|
            0 <= k < ranges.len() ==> #[trigger] ranges_view(ranges)[k] == (
                ranges[k].0 as int,
                ranges[k].1 as int,
            ),
{
}

pub open spec fn ranges_view(ranges: Seq<(usize, usize)>) -> Seq<(int, int)> {
    ranges.map_values(|p: (usize, usize)| (p.0 as int, p.1 as int))
}

/// The kind of group that `c` opens when `(` follows it.
fn group_kind_of(c: char) -> (r: Option<GroupKind>)
    ensures
        r == group_kind(c),
{
    if c == '?' {
        Some(GroupKind::ZeroOrOne)
    } else if c == '*' {
        Some(GroupKind::ZeroOrMore)
    } else if c == '+' {
        Some(GroupKind::OneOrMore)
    } else if c == '@' {
        Some(GroupKind::ExactlyOne)
    } else if c == '!' {
        Some(GroupKind::NoneOf)
    } else {
        None
    }
}

/// The characters of `input`, in order.
pub fn chars_of(input: &str) -> (r: Vec<char>)
    ensures
        r@ == input@,
{
    let n = input.unicode_len();
    let mut chars: Vec<char> = Vec::new();
    let mut k: usize = 0;
    while k < n
        invariant
            n == input@.len(),
            k <= n,
            chars@ == input@.take(k as int),
        decreases n - k,
    {
        chars.push(input.get_char(k));
        k += 1;
        assert(chars@ =~= input@.take(k as int));
    }
    assert(input@.take(n as int) =~= input@);
    chars
}

/// Compiles a pattern into its tokens.
pub fn parse(input: &str) -> (r: Result<Vec<Token>, Error>)
    ensures
        tokens_result(r) == parse_pattern(input@),
{
    let mut parser = Parser::new(input);
    parser.parse()
}

struct Parser {
    chars: Vec<char>,
    i: usize,
}

impl Parser {
    fn new(input: &str) -> (r: Self)
        ensures
            r.chars@ == input@,
            r.i == 0,
    {
        Parser { chars: chars_of(input), i: 0 }
    }

    #[verifier::loop_isolation(false)]
    fn parse(&mut self) -> (r: Result<Vec<Token>, Error>)
        requires
            old(self).i <= old(self).chars.len(),
        ensures
            tokens_result(r) == parse_from(old(self).chars@, old(self).i as int),
            final(self).chars == old(self).chars,
            r is Ok ==> final(self).i == final(self).chars.len(),
        decreases old(self).chars.len() - old(self).i, 2int,
    {
        let ghost s = self.chars@;
        let ghost i0 = self.i as int;
        let mut tokens: Vec<Token> = Vec::new();
        while self.i < self.chars.len()
            invariant
                self.chars == old(self).chars,
                self.chars@ == s,
                i0 <= self.i <= s.len(),
                parse_from(s, i0) == prepend(tokens_view(tokens@), parse_from(s, self.i as int)),
            decreases self.chars.len() - self.i,
        {
            let ghost i = self.i as int;
            proof {
                lemma_parse_from_step(s, i);
            }
            let opener = if self.i + 1 < self.chars.len() && self.chars[self.i + 1] == '(' {
                group_kind_of(self.chars[self.i])
            } else {
                None
            };
            let step = match opener {
                Some(kind) => match self.parse_patterns() {
                    Ok(alts) => Ok(Token::Group(kind, alts)),
                    Err(e) => Err(e),
                },
                None => match self.chars[self.i] {
                    '?' => {
                        self.i += 1;
                        Ok(Token::AnyChar)
                    },
                    '*' => self.parse_wildcards(),
                    '\\' => self.parse_escape(),
                    '[' => self.parse_range(),
                    ']' | '(' | ')' | '|' => Err(Error::IllegalChar(self.i)),
                    c => {
                        proof {
                            lemma_literal_view(c);
                        }
                        self.i += 1;
                        Ok(Token::Literal(c))
                    },
                },
            };
            assert(step_agrees(s, i, step, self.i as int));
            match step {
                Ok(t) => {
                    let ghost before = tokens@;
                    let ghost gt = t;
                    tokens.push(t);
                    proof {
                        lemma_tokens_view_concat(before, seq![gt]);
                        lemma_tokens_view(seq![gt]);
                        assert(tokens@.len() == before.len() + 1);
                        assert(tokens@[before.len() as int] == gt);
                        assert(tokens@ =~= before + seq![gt]);
                        assert(tokens_view(seq![gt]) =~= seq![token_view(gt)]);
                        let rest = parse_from(s, self.i as int);
                        if rest is Ok {
                            assert(tokens_view(before) + seq![token_view(gt)] + rest->Ok_0
                                =~= tokens_view(before) + (seq![token_view(gt)] + rest->Ok_0));
                        }
                    }
                },
                Err(e) => {
                    return Err(e);
                },
            }
        }
        Ok(tokens)
    }

    /// The position of the `]` that closes the class whose members start at `body`.
    #[verifier::loop_isolation(false)]
    fn class_close(&self, body: usize) -> (r: Result<usize, Error>)
        requires
            0 < body <= self.chars.len(),
        ensures
            match r {
                Ok(j) => class_end(self.chars@, body as int, false) == Ok::<int, Error>(j as int),
                Err(e) => class_end(self.chars@, body as int, false) == Err::<int, Error>(e),
            },
    {
        let ghost s = self.chars@;
        let mut escaped = false;
        let mut j: usize = body;
        while j < self.chars.len()
            invariant
                body <= j <= s.len(),
                class_end(s, body as int, false) == class_end(s, j as int, escaped),
            decreases self.chars.len() - j,
        {
            let c = self.chars[j];
            if escaped {
                escaped = false;
            } else if c == '\\' {
                escaped = true;
            } else if c == ']' {
                return Ok(j);
            } else if c == '[' || c == '(' || c == ')' || c == '|' {
                return Err(Error::IllegalChar(j));
            }
            j += 1;
        }
        Err(Error::UnclosedRange(self.chars.len() - 1))
    }

    /// The position of the `)` that closes the group whose body starts at `start`.
    #[verifier::loop_isolation(false)]
    fn group_close(&self, start: usize) -> (r: Result<usize, Error>)
        requires
            0 < start <= self.chars.len(),
        ensures
            match r {
                Ok(j) => group_end(self.chars@, start as int, Seq::empty(), false) == Ok::<
                    int,
                    Error,
                >(j as int),
                Err(e) => group_end(self.chars@, start as int, Seq::empty(), false) == Err::<
                    int,
                    Error,
                >(e),
            },
    {
        let ghost s = self.chars@;
        let mut stack: Vec<char> = Vec::new();
        let mut escaped = false;
        let mut j: usize = start;
        while j < self.chars.len()
            invariant
                start <= j <= s.len(),
                group_end(s, start as int, Seq::empty(), false) == group_end(
                    s,
                    j as int,
                    stack@,
                    escaped,
                ),
            decreases self.chars.len() - j,
        {
            let c = self.chars[j];
            if escaped {
                escaped = false;
            } else if c == '\\' {
                escaped = true;
            } else if c == ']' {
                if stack.len() > 0 && stack[stack.len() - 1] == '[' {
                    stack.pop();
                } else {
                    return Err(Error::IllegalChar(j));
                }
            } else if c == ')' {
                if stack.len() == 0 {
                    return Ok(j);
                } else if stack[stack.len() - 1] == '(' {
                    stack.pop();
                } else {
                    return Err(Error::IllegalChar(j));
                }
            } else if c == '(' || c == '[' {
                stack.push(c);
            }
            j += 1;
        }
        Err(Error::UnclosedPattern(self.chars.len() - 1))
    }

    fn parse_wildcards(&mut self) -> (r: Result<Token, Error>)
        requires
            old(self).i < old(self).chars.len(),
            old(self).chars@[old(self).i as int] == '*',
        ensures
            final(self).chars == old(self).chars,
            old(self).i <= final(self).i <= old(self).chars.len(),
            r is Err ==> final(self).i == old(self).i,
            match r {
                Ok(t) => wildcard_at(old(self).chars@, old(self).i as int) == Ok::<
                    (Lexeme, int),
                    Error,
                >((Lexeme::Simple(token_view(t)), final(self).i as int)),
                Err(e) => wildcard_at(old(self).chars@, old(self).i as int) == Err::<
                    (Lexeme, int),
                    Error,
                >(e),
            },
    {
        let start = self.i;
        let next = self.i + 1;
        if next < self.chars.len() && self.chars[next] == '*' {
            if start > 0 && self.chars[start - 1] != '/' {
                return Err(Error::IllegalRecursion(start));
            }
            if next + 1 < self.chars.len() {
                let c = self.chars[next + 1];
                if c == '*' {
                    return Err(Error::IllegalWildcard(next + 1));
                } else if c != '/' {
                    return Err(Error::IllegalRecursion(start));
                }
            }
            self.i = next + 1;
            Ok(Token::AnyRecursive)
        } else {
            self.i = next;
            Ok(Token::AnySequence)
        }
    }

    fn parse_escape(&mut self) -> (r: Result<Token, Error>)
        requires
            old(self).i < old(self).chars.len(),
            old(self).chars@[old(self).i as int] == '\\',
            !opens_group(old(self).chars@, old(self).i as int),
        ensures
            final(self).chars == old(self).chars,
            old(self).i <= final(self).i <= old(self).chars.len(),
            r is Err ==> final(self).i == old(self).i,
            step_agrees(old(self).chars@, old(self).i as int, r, final(self).i as int),
    {
        if self.i + 1 >= self.chars.len() {
            return Err(Error::IllegalEscape(self.i));
        }
        let ghost s = self.chars@;
        let ghost i = self.i as int;
        self.i += 2;
        let t = Token::Literal(self.chars[self.i - 1]);
        proof {
            lemma_literal_view(s[i + 1]);
        }
        Ok(t)
    }

    #[verifier::loop_isolation(false)]
    fn parse_range(&mut self) -> (r: Result<Token, Error>)
        requires
            old(self).i < old(self).chars.len(),
            old(self).chars@[old(self).i as int] == '[',
            !opens_group(old(self).chars@, old(self).i as int),
        ensures
            final(self).chars == old(self).chars,
            old(self).i <= final(self).i <= old(self).chars.len(),
            r is Err ==> final(self).i == old(self).i,
            step_agrees(old(self).chars@, old(self).i as int, r, final(self).i as int),
    {
        let ghost s = self.chars@;
        let start = self.i;
        let first = self.i + 1;
        if first >= self.chars.len() || self.chars[first] == ']' {
            return Err(Error::EmptyRange(start));
        }
        let negated = self.chars[first] == '!';
        let body = if negated {
            first + 1
        } else {
            first
        };
        let j = match self.class_close(body) {
            Ok(j) => j,
            Err(e) => {
                return Err(e);
            },
        };
        proof {
            lemma_class_end(s, body as int, false);
        }
        if j == body {
            return Err(Error::EmptyRange(start));
        }
        self.i = j + 1;
        let specifiers = parse_char_specifiers(&self.chars, body, j);
        Ok(Token::Class(specifiers, negated))
    }

    #[verifier::loop_isolation(false)]
    fn parse_patterns(&mut self) -> (r: Result<Vec<Vec<Token>>, Error>)
        requires
            old(self).i <= old(self).chars.len(),
            opens_group(old(self).chars@, old(self).i as int),
        ensures
            final(self).chars == old(self).chars,
            old(self).i <= final(self).i <= old(self).chars.len(),
            r is Err ==> final(self).i == old(self).i,
            step_agrees(
                old(self).chars@,
                old(self).i as int,
                match r {
                    Ok(alts) => Ok(
                        Token::Group(group_kind(old(self).chars@[old(self).i as int])->Some_0, alts),
                    ),
                    Err(e) => Err(e),
                },
                final(self).i as int,
            ),
        decreases old(self).chars.len() - old(self).i, 1int,
    {
        let ghost s = self.chars@;
        let ghost i = self.i as int;
        let start = self.i + 2;
        let close = match self.group_close(start) {
            Ok(j) => j,
            Err(e) => {
                return Err(e);
            },
        };
        proof {
            lemma_group_end(s, start as int, Seq::empty(), false);
        }
        // split the body at each top-level `|`
        let mut ranges: Vec<(usize, usize)> = Vec::new();
        let mut depth: usize = 0;
        let mut last: usize = start;
        let mut escaped = false;
        let mut j: usize = start;
        assert(ranges_view(ranges@) =~= Seq::empty());
        while j < close
            invariant
                self.i == old(self).i,
                self.chars == old(self).chars,
                self.chars@ == s,
                i == self.i,
                i + 2 == start,
                start <= last <= j <= close < s.len(),
                depth <= j - start,
                split_alternatives(s, start as int, close as int, 0, false, start as int, Seq::empty())
                    == split_alternatives(
                    s,
                    j as int,
                    close as int,
                    depth as nat,
                    escaped,
                    last as int,
                    ranges_view(ranges@),
                ),
            decreases close - j,
        {
            let c = self.chars[j];
            if escaped {
                escaped = false;
            } else if c == '\\' {
                escaped = true;
            } else if c == '(' || c == '[' {
                depth += 1;
            } else if c == ')' || c == ']' {
                if depth > 0 {
                    depth -= 1;
                }
            } else if c == '|' && depth == 0 {
                if j == last {
                    return Err(Error::IllegalOr(last));
                }
                let ghost before = ranges@;
                ranges.push((last, j));
                assert(ranges_view(ranges@) =~= ranges_view(before).push((last as int, j as int)));
                last = j + 1;
            }
            j += 1;
        }
        if last >= close {
            return Err(Error::IllegalOr(last));
        }
        let ghost before = ranges@;
        ranges.push((last, close));
        assert(ranges_view(ranges@) =~= ranges_view(before).push((last as int, close as int)));
        proof {
            lemma_lex_at(s, i);
            lemma_ranges_view(ranges@);
            assert(group_ranges(s, i) == ranges_view(ranges@));
        }
        // compile each alternative
        let mut alts: Vec<Vec<Token>> = Vec::new();
        let mut k: usize = 0;
        while k < ranges.len()
            invariant
                self.i == old(self).i,
                self.chars == old(self).chars,
                self.chars@ == s,
                0 <= i,
                i + 2 == start,
                close < s.len(),
                k <= ranges.len(),
                group_ranges(s, i) == ranges_view(ranges@),
                ranges_within(ranges_view(ranges@), i + 2, close as int),
                ranges_view(ranges@).len() == ranges.len(),
                forall|m: int|
                    0 <= m < ranges.len() ==> #[trigger] ranges_view(ranges@)[m] == (
                        ranges@[m].0 as int,
                        ranges@[m].1 as int,
                    ),
                parse_alternatives(s, i, 0) == prepend(
                    alts_view(alts@),
                    parse_alternatives(s, i, k as int),
                ),
            decreases ranges.len() - k,
        {
            let (a, b) = ranges[k];
            assert(ranges_view(ranges@)[k as int] == (a as int, b as int));
            assert(i + 2 <= a <= b <= close);
            let mut part: Vec<char> = Vec::new();
            let mut m: usize = a;
            while m < b
                invariant
                    self.chars@ == s,
                    a <= m <= b < s.len(),
                    part@ == s.subrange(a as int, m as int),
                decreases b - m,
            {
                part.push(self.chars[m]);
                m += 1;
                assert(part@ =~= s.subrange(a as int, m as int));
            }
            let mut sub = Parser { chars: part, i: 0 };
            match sub.parse() {
                Err(e) => {
                    return Err(e);
                },
                Ok(alt) => {
                    let ghost before = alts@;
                    alts.push(alt);
                    proof {
                        lemma_alts_view(before);
                        lemma_alts_view(alts@);
                        assert(alts_view(alts@) =~= alts_view(before) + seq![tokens_view(alt@)]);
                        let tail = parse_alternatives(s, i, k + 1);
                        if tail is Ok {
                            assert(alts_view(before) + seq![tokens_view(alt@)] + tail->Ok_0
                                =~= alts_view(before) + (seq![tokens_view(alt@)] + tail->Ok_0));
                        }
                    }
                },
            }
            k += 1;
        }
        self.i = close + 1;
        Ok(alts)
    }
}

/// The class members written in `chars[from..to]`.
#[verifier::loop_isolation(false)]
#[verifier::rlimit(30)]
fn parse_char_specifiers(chars: &Vec<char>, from: usize, to: usize) -> (r: Vec<CharSpecifier>)
    requires
        from <= to <= chars.len(),
    ensures
        r@ == char_specifiers(chars@.subrange(from as int, to as int)),
{
    let ghost cs = chars@.subrange(from as int, to as int);
    let mut specs: Vec<CharSpecifier> = Vec::new();
    let mut i: usize = from;
    assert(cs.skip(0) =~= cs);
    while i < to
        invariant
            from <= i <= to <= chars.len(),
            cs == chars@.subrange(from as int, to as int),
            char_specifiers(cs) == specs@ + char_specifiers(cs.skip(i - from)),
        decreases to - i,
    {
        let ghost before = specs@;
        let ghost k = i - from;
        let ghost rest = cs.skip(k);
        assert(rest.len() == to - i);
        assert(rest[0] == chars@[i as int]);
        if to - i >= 3 && chars[i + 1] == '-' {
            assert(rest[1] == chars@[i + 1]);
            assert(rest[2] == chars@[i + 2]);
            assert(rest.skip(3) =~= cs.skip(k + 3));
            specs.push(CharSpecifier::Range(chars[i], chars[i + 2]));
            assert(before + (seq![CharSpecifier::Range(chars@[i as int], chars@[i + 2])]
                + char_specifiers(cs.skip(k + 3))) =~= specs@ + char_specifiers(cs.skip(k + 3)));
            i += 3;
        } else {
            assert(rest.len() >= 3 ==> rest[1] == chars@[i + 1]);
            assert(rest.skip(1) =~= cs.skip(k + 1));
            assert(char_specifiers(rest) == seq![CharSpecifier::Char(rest[0])]
                + char_specifiers(rest.skip(1)));
            specs.push(CharSpecifier::Char(chars[i]));
            assert(before + (seq![CharSpecifier::Char(chars@[i as int])] + char_specifiers(
                cs.skip(k + 1),
            )) =~= specs@ + char_specifiers(cs.skip(k + 1)));
            i += 1;
        }
    }
    assert(specs@ =~= specs@ + char_specifiers(cs.skip(to - from)));
    specs
}

} // verus!
