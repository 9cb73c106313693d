//! Matching of strings against extended glob patterns.
//!
//! A pattern is compiled once into a sequence of tokens, then matched against
//! any number of inputs. Matching is anchored: the whole input must match.
//!
//! ```text
//! ?           any one character
//! *           any sequence of characters
//! **          any sequence of characters, including none at all and the
//!             separator after it; it must stand between `/`s or ends
//! [abc]       one of the characters given; [a-z] is an inclusive range
//! [!abc]      one character that is not among those given
//! ?(p|q|...)  zero or one of the alternatives
//! *(p|q|...)  zero or more of the alternatives
//! +(p|q|...)  one or more of the alternatives
//! @(p|q|...)  exactly one of the alternatives
//! !(p|q|...)  none of the alternatives
//! \c          the character c itself
//! ```
use vstd::prelude::*;
use vstd::string::StringExecFns;

pub mod matcher;
pub mod syntax;

use crate::matcher::{is_match, scan, status, Matcher, Status};
use crate::syntax::{
    chars_of, lemma_compiled_well_formed, parse, parse_pattern, tokens_well_formed,
    Error as SyntaxError, SpecToken,
};

verus! {

/// A compiled glob pattern.
#[derive(Clone, PartialEq, Eq, Debug, Hash)]
pub struct Pattern {
    matcher: Matcher,
}

/// A pattern that failed to compile: the syntax error and the pattern text.
#[derive(Clone, PartialEq, Eq, Debug, Hash)]
pub struct Error {
    pub inner: SyntaxError,
    pub input: String,
}

/// The rule drawn above and below an error message.
pub open spec fn rule() -> Seq<char> {
    "-------------------------------------"@
}

/// `n` dashes.
pub open spec fn dashes(n: nat) -> Seq<char> {
    Seq::new(n, |_k: int| '-')
}

/// An error message: a heading, the description, the pattern text, and a
/// caret under the offending character.
pub open spec fn message_text(desc: Seq<char>, input: Seq<char>, offset: nat) -> Seq<char> {
    "Glob syntax error\n"@ + rule() + "\n"@ + desc + "\n"@ + input + "\n"@ + dashes(offset) + "^"@
        + "\n"@ + rule()
}

impl Error {
    /// A message for a reader: the description of the error, the pattern,
    /// and a caret under the character where the error was found.
    pub fn message(&self) -> (r: String)
        ensures
            r@ == message_text(self.inner.spec_desc(), self.input@, self.inner.spec_offset() as nat),
    {
        let mut out = "Glob syntax error\n".to_owned();
        out.append("-------------------------------------");
        out.append("\n");
        out.append(self.inner.desc());
        out.append("\n");
        out.append(self.input.as_str());
        out.append("\n");
        let n = self.inner.offset();
        let ghost head = out@;
        let mut k: usize = 0;
        while k < n
            invariant
                k <= n,
                out@ == head + dashes(k as nat),
            decreases n - k,
        {
            out.append("-");
            proof {
                reveal_strlit("-");
            }
            assert(head + dashes(k as nat) + "-"@ =~= head + dashes((k + 1) as nat));
            k += 1;
        }
        out.append("^");
        out.append("\n");
        out.append("-------------------------------------");
        out
    }
}

impl Pattern {
    /// The compiled tokens.
    pub closed spec fn tokens(&self) -> Seq<SpecToken> {
        self.matcher.tokens()
    }

    /// Compiles `pattern`; fails with the first syntax error in it.
    pub fn new(pattern: &str) -> (r: Result<Self, Error>)
        ensures
            match r {
                Ok(p) => parse_pattern(pattern@) == Ok::<Seq<SpecToken>, SyntaxError>(p.tokens())
                    && tokens_well_formed(p.tokens()),
                Err(e) => parse_pattern(pattern@) == Err::<Seq<SpecToken>, SyntaxError>(e.inner)
                    && e.input@ == pattern@,
            },
    {
        proof {
            lemma_compiled_well_formed(pattern@);
        }
        match parse(pattern) {
            Ok(tokens) => Ok(Pattern { matcher: Matcher::new(tokens) }),
            Err(e) => Err(Error { inner: e, input: pattern.to_owned() }),
        }
    }

    /// Whether the whole of `input` matches the pattern. The result depends
    /// on the compiled tokens and the input alone, and nothing is changed.
    pub fn matches(&self, input: &str) -> (r: bool)
        ensures
            r == is_match(self.tokens(), input@),
    {
        let chars = chars_of(input);
        self.matcher.matches(&chars)
    }
}

impl std::str::FromStr for Pattern {
    type Err = Error;

    fn from_str(s: &str) -> (r: Result<Self, Self::Err>)
        ensures
            match r {
                Ok(p) => parse_pattern(s@) == Ok::<Seq<SpecToken>, SyntaxError>(p.tokens())
                    && tokens_well_formed(p.tokens()),
                Err(e) => parse_pattern(s@) == Err::<Seq<SpecToken>, SyntaxError>(e.inner)
                    && e.input@ == s@,
            },
    {
        Pattern::new(s)
    }
}

/// Compiling the same text twice gives equal token sequences, and the two
/// compiled patterns match exactly the same inputs.
pub proof fn lemma_compile_deterministic(text: Seq<char>, p: Pattern, q: Pattern, input: Seq<char>)
    requires
        parse_pattern(text) == Ok::<Seq<SpecToken>, SyntaxError>(p.tokens()),
        parse_pattern(text) == Ok::<Seq<SpecToken>, SyntaxError>(q.tokens()),
    ensures
        p.tokens() == q.tokens(),
        is_match(p.tokens(), input) == is_match(q.tokens(), input),
{
}

/// With nothing left to match, skipping `k` or more characters succeeds
/// exactly when some skip reaches the end of the input.
proof fn lemma_scan_to_end(s: Seq<char>, k: int)
    requires
        1 <= k <= s.len(),
    ensures
        scan(Seq::empty(), s, k) == Status::Matched,
    decreases s.len() - k,
{
    let rest = s.skip(k);
    assert(rest.len() == s.len() - k);
    if k < s.len() {
        assert(status(Seq::empty(), rest) == Status::Retryable);
        lemma_scan_to_end(s, k + 1);
    } else {
        assert(status(Seq::empty(), rest) == Status::Matched);
    }
}

/// A lone `*` or `**` token matches every input, the empty one included.
proof fn lemma_lone_wildcard_matches(t: SpecToken, input: Seq<char>)
    requires
        t is AnySequence || t is AnyRecursive,
    ensures
        is_match(seq![t], input),
{
    let toks = seq![t];
    assert(toks[0] == t);
    assert(toks.drop_first() =~= Seq::<SpecToken>::empty());
    if input.len() > 0 {
        assert(status(Seq::empty(), input) == Status::Retryable);
        lemma_scan_to_end(input, 1);
    } else {
        assert(status(Seq::empty(), input) == Status::Matched);
    }
}

/// `*` compiles to a single wildcard, which matches every input, the empty
/// one included.
pub proof fn lemma_star_matches_everything(input: Seq<char>)
    ensures
        parse_pattern(seq!['*']) == Ok::<Seq<SpecToken>, SyntaxError>(seq![SpecToken::AnySequence]),
        is_match(seq![SpecToken::AnySequence], input),
{
    assert(crate::syntax::parse_from(seq!['*'], 1) == Ok::<Seq<SpecToken>, SyntaxError>(
        Seq::empty(),
    ));
    assert(seq![SpecToken::AnySequence] + Seq::<SpecToken>::empty() =~= seq![SpecToken::AnySequence]);
    lemma_lone_wildcard_matches(SpecToken::AnySequence, input);
}

/// `**` compiles to a single recursive wildcard, which matches every input,
/// the empty one and those with path separators included.
pub proof fn lemma_double_star_matches_everything(input: Seq<char>)
    ensures
        parse_pattern(seq!['*', '*']) == Ok::<Seq<SpecToken>, SyntaxError>(
            seq![SpecToken::AnyRecursive],
        ),
        is_match(seq![SpecToken::AnyRecursive], input),
{
    assert(crate::syntax::parse_from(seq!['*', '*'], 2) == Ok::<Seq<SpecToken>, SyntaxError>(
        Seq::empty(),
    ));
    assert(seq![SpecToken::AnyRecursive] + Seq::<SpecToken>::empty() =~= seq![SpecToken::AnyRecursive]);
    lemma_lone_wildcard_matches(SpecToken::AnyRecursive, input);
}

} // verus!
