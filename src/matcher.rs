//! The backtracking matcher.
use vstd::prelude::*;

use crate::syntax::{
    alts_view, copy_tokens, lemma_alts_view, lemma_tokens_view, lemma_tokens_view_concat,
    token_view, tokens_view, CharSpecifier, GroupKind, SpecToken, Token,
};

verus! {

broadcast use vstd::std_specs::vec::group_vec_axioms, vstd::seq::group_seq_axioms;

/// The outcome of matching a token sequence against the rest of an input.
#[derive(Clone, Copy, PartialEq, Eq, Structural, Debug)]
pub enum Status {
    /// The tokens match the whole rest of the input.
    Matched,
    /// This expansion failed; an enclosing wildcard or group may try another.
    Retryable,
    /// A token needed a character and the input had none left.
    Exhausted,
}

/// The number of tokens, counting each group once plus its alternatives.
pub open spec fn token_size(t: SpecToken) -> nat
    decreases t,
{
    match t {
        SpecToken::Group(_, alts) => 1 + alts_size(alts),
        _ => 1,
    }
}

pub open spec fn seq_size(s: Seq<SpecToken>) -> nat
    decreases s,
{
    if s.len() == 0 {
        0
    } else {
        token_size(s[0]) + seq_size(s.drop_first())
    }
}

pub open spec fn alts_size(a: Seq<Seq<SpecToken>>) -> nat
    decreases a,
{
    if a.len() == 0 {
        0
    } else {
        seq_size(a[0]) + alts_size(a.drop_first())
    }
}

pub proof fn lemma_size_concat(a: Seq<SpecToken>, b: Seq<SpecToken>)
    ensures
        seq_size(a + b) == seq_size(a) + seq_size(b),
    decreases a.len(),
{
    if a.len() == 0 {
        assert(a + b =~= b);
    } else {
        assert((a + b).drop_first() =~= a.drop_first() + b);
        lemma_size_concat(a.drop_first(), b);
    }
}

pub proof fn lemma_size_first(toks: Seq<SpecToken>)
    requires
        toks.len() > 0,
    ensures
        seq_size(toks) == token_size(toks[0]) + seq_size(toks.drop_first()),
        token_size(toks[0]) >= 1,
        toks[0] is Group ==> token_size(toks[0]) == 1 + alts_size(toks[0]->Group_1),
{
}

pub proof fn lemma_alt_size(a: Seq<Seq<SpecToken>>, i: int)
    requires
        0 <= i < a.len(),
    ensures
        seq_size(a[i]) <= alts_size(a),
    decreases a.len(),
{
    if i > 0 {
        lemma_alt_size(a.drop_first(), i - 1);
    }
}

/// The path separator that `**` may absorb.
pub open spec fn is_separator(c: char) -> bool {
    c == '/'
}

pub open spec fn specifier_matches(sp: CharSpecifier, c: char) -> bool {
    match sp {
        CharSpecifier::Char(x) => x == c,
        CharSpecifier::Range(lo, hi) => (lo as u32) <= (c as u32) && (c as u32) <= (hi as u32),
    }
}

/// Whether `c` matches some specifier of a class.
pub open spec fn in_class(specs: Seq<CharSpecifier>, c: char) -> bool {
    exists|k: int| 0 <= k < specs.len() && specifier_matches(#[trigger] specs[k], c)
}

/// The result of matching `toks` against the input `s`, anchored at both ends.
pub open spec fn status(toks: Seq<SpecToken>, s: Seq<char>) -> Status
    decreases seq_size(toks), 0int,
{
    if toks.len() == 0 {
        if s.len() == 0 {
            Status::Matched
        } else {
            Status::Retryable
        }
    } else {
        let rest = toks.drop_first();
        proof {
            lemma_size_first(toks);
        }
        match toks[0] {
            SpecToken::Literal(c) => {
                if s.len() == 0 {
                    Status::Exhausted
                } else if s[0] == c {
                    status(rest, s.drop_first())
                } else {
                    Status::Retryable
                }
            },
            SpecToken::AnyChar => {
                if s.len() == 0 {
                    Status::Exhausted
                } else {
                    status(rest, s.drop_first())
                }
            },
            SpecToken::Class(specs, negated) => {
                if s.len() == 0 {
                    Status::Exhausted
                } else if in_class(specs, s[0]) != negated {
                    status(rest, s.drop_first())
                } else {
                    Status::Retryable
                }
            },
            SpecToken::AnySequence => {
                let zero = status(rest, s);
                if zero != Status::Retryable {
                    zero
                } else {
                    scan(rest, s, 1)
                }
            },
            SpecToken::AnyRecursive => {
                let zero = status(rest, s);
                if zero != Status::Retryable {
                    zero
                } else if rest.len() > 0 && rest[0] is Literal && is_separator(rest[0]->Literal_0) {
                    let skipped = status(rest.drop_first(), s);
                    if skipped != Status::Retryable {
                        skipped
                    } else {
                        scan(rest, s, 1)
                    }
                } else {
                    scan(rest, s, 1)
                }
            },
            SpecToken::Group(kind, alts) => {
                let n = count_matches(alts, rest, s, 0);
                match kind {
                    GroupKind::ZeroOrOne => {
                        if n == 1 {
                            Status::Matched
                        } else if n > 1 {
                            Status::Retryable
                        } else {
                            status(rest, s)
                        }
                    },
                    GroupKind::ZeroOrMore => {
                        if n > 0 {
                            Status::Matched
                        } else {
                            status(rest, s)
                        }
                    },
                    GroupKind::OneOrMore => {
                        if n > 0 {
                            Status::Matched
                        } else {
                            Status::Retryable
                        }
                    },
                    GroupKind::ExactlyOne => {
                        if n == 1 {
                            Status::Matched
                        } else {
                            Status::Retryable
                        }
                    },
                    GroupKind::NoneOf => {
                        if n > 0 {
                            Status::Retryable
                        } else if s.len() == 0 {
                            status(rest, s)
                        } else {
                            scan(rest, s, 1)
                        }
                    },
                }
            },
        }
    }
}

/// Tries `rest` after skipping `k`, `k + 1`, ... characters of `s`, and
/// gives the first outcome that is not `Retryable`.
pub open spec fn scan(rest: Seq<SpecToken>, s: Seq<char>, k: int) -> Status
    decreases seq_size(rest), s.len() + 1 - k,
{
    if k < 0 || k > s.len() {
        Status::Retryable
    } else {
        let r = status(rest, s.skip(k));
        if r != Status::Retryable {
            r
        } else {
            scan(rest, s, k + 1)
        }
    }
}

/// How many of `alts[k..]`, each followed by `rest`, match `s`.
pub open spec fn count_matches(alts: Seq<Seq<SpecToken>>, rest: Seq<SpecToken>, s: Seq<char>, k: int) -> nat
    decreases alts_size(alts) + seq_size(rest), alts.len() - k,
{
    if k < 0 || k >= alts.len() {
        0
    } else {
        proof {
            lemma_size_concat(alts[k], rest);
            lemma_alt_size(alts, k);
        }
        (if status(alts[k] + rest, s) == Status::Matched { 1nat } else { 0nat })
            + count_matches(alts, rest, s, k + 1)
    }
}

/// Whether the whole of `s` matches `toks`.
pub open spec fn is_match(toks: Seq<SpecToken>, s: Seq<char>) -> bool {
    status(toks, s) == Status::Matched
}

/// A compiled pattern, ready to be matched against inputs.
#[derive(Clone, PartialEq, Eq, Debug, Hash)]
pub struct Matcher {
    tokens: Vec<Token>,
}

impl Matcher {
    /// The tokens this matcher runs, as mathematical values.
    pub closed spec fn tokens(&self) -> Seq<SpecToken> {
        tokens_view(self.tokens@)
    }

    pub fn new(tokens: Vec<Token>) -> (r: Self)
        ensures
            r.tokens() == tokens_view(tokens@),
    {
        Matcher { tokens }
    }

    /// Whether the whole input matches.
    pub fn matches(&self, input: &Vec<char>) -> (r: bool)
        ensures
            r == is_match(self.tokens(), input@),
    {
        let st = match_index(&self.tokens, 0, input, 0);
        proof {
            assert(tokens_view(self.tokens@).skip(0) =~= tokens_view(self.tokens@));
            assert(input@.skip(0) =~= input@);
        }
        st == Status::Matched
    }
}

/// `Matched` when `c` matches one of `specifiers`, else `Retryable`.
pub fn match_specifiers(specifiers: &Vec<CharSpecifier>, c: char) -> (r: Status)
    ensures
        r == if in_class(specifiers@, c) {
            Status::Matched
        } else {
            Status::Retryable
        },
{
    let mut k: usize = 0;
    while k < specifiers.len()
        invariant
            k <= specifiers.len(),
            forall|j: int| 0 <= j < k ==> !specifier_matches(#[trigger] specifiers@[j], c),
        decreases specifiers.len() - k,
    {
        match specifiers[k] {
            CharSpecifier::Char(x) => {
                if x == c {
                    return Status::Matched;
                }
            },
            CharSpecifier::Range(lo, hi) => {
                if (lo as u32) <= (c as u32) && (c as u32) <= (hi as u32) {
                    return Status::Matched;
                }
            },
        }
        k += 1;
    }
    Status::Retryable
}

/// Copies `src[from..]` to the end of `dst`.
fn append_copies(dst: &mut Vec<Token>, src: &Vec<Token>, from: usize)
    requires
        from <= src.len(),
    ensures
        tokens_view(final(dst)@) == tokens_view(old(dst)@) + tokens_view(src@).skip(from as int),
{
    let ghost start = dst@;
    let mut k: usize = from;
    while k < src.len()
        invariant
            from <= k <= src.len(),
            tokens_view(dst@) == tokens_view(start) + tokens_view(src@).skip(from as int).take(
                k - from,
            ),
        decreases src.len() - k,
    {
        let t = src[k].duplicate();
        let ghost before = dst@;
        dst.push(t);
        proof {
            lemma_tokens_view(src@);
            lemma_tokens_view_concat(before, seq![t]);
            assert(tokens_view(seq![t]) =~= seq![token_view(src@[k as int])]) by {
                lemma_tokens_view(seq![t]);
            }
            assert(dst@ =~= before + seq![t]);
            assert(tokens_view(src@).skip(from as int).take(k + 1 - from) =~= tokens_view(
                src@,
            ).skip(from as int).take(k - from) + seq![token_view(src@[k as int])]);
        }
        k += 1;
    }
    proof {
        lemma_tokens_view(src@);
        assert(tokens_view(src@).skip(from as int).take(k - from) =~= tokens_view(src@).skip(
            from as int,
        ));
    }
}

/// Matches `tokens[i..]` against `input[pos..]`.
pub fn match_index(tokens: &Vec<Token>, i: usize, input: &Vec<char>, pos: usize) -> (r: Status)
    requires
        i <= tokens.len(),
        pos <= input.len(),
    ensures
        r == status(tokens_view(tokens@).skip(i as int), input@.skip(pos as int)),
    decreases seq_size(tokens_view(tokens@).skip(i as int)), 0int,
{
    let ghost tv = tokens_view(tokens@);
    let ghost toks = tv.skip(i as int);
    let ghost s = input@.skip(pos as int);
    proof {
        lemma_tokens_view(tokens@);
    }
    if i == tokens.len() {
        assert(toks.len() == 0);
        return if pos == input.len() {
            Status::Matched
        } else {
            Status::Retryable
        };
    }
    proof {
        lemma_size_first(toks);
        assert(toks.drop_first() =~= tv.skip(i + 1));
        assert(toks[0] == token_view(tokens@[i as int]));
    }
    match &tokens[i] {
        Token::Literal(c) => {
            if pos == input.len() {
                Status::Exhausted
            } else if input[pos] == *c {
                assert(s.drop_first() =~= input@.skip(pos + 1));
                match_index(tokens, i + 1, input, pos + 1)
            } else {
                Status::Retryable
            }
        },
        Token::AnyChar => {
            if pos == input.len() {
                Status::Exhausted
            } else {
                assert(s.drop_first() =~= input@.skip(pos + 1));
                match_index(tokens, i + 1, input, pos + 1)
            }
        },
        Token::Class(specifiers, negated) => {
            if pos == input.len() {
                Status::Exhausted
            } else if (match_specifiers(specifiers, input[pos]) == Status::Matched) != *negated {
                assert(s.drop_first() =~= input@.skip(pos + 1));
                match_index(tokens, i + 1, input, pos + 1)
            } else {
                Status::Retryable
            }
        },
        Token::AnySequence => {
            let zero = match_index(tokens, i + 1, input, pos);
            if zero != Status::Retryable {
                return zero;
            }
            scan_rest(tokens, i + 1, input, pos)
        },
        Token::AnyRecursive => {
            let zero = match_index(tokens, i + 1, input, pos);
            if zero != Status::Retryable {
                return zero;
            }
            if i + 1 < tokens.len() {
                if let Token::Literal(c) = &tokens[i + 1] {
                    if *c == '/' {
                        proof {
                            lemma_size_first(tv.skip(i + 1));
                            assert(tv.skip(i + 1).drop_first() =~= tv.skip(i + 2));
                        }
                        let skipped = match_index(tokens, i + 2, input, pos);
                        if skipped != Status::Retryable {
                            return skipped;
                        }
                    }
                }
            }
            scan_rest(tokens, i + 1, input, pos)
        },
        Token::Group(kind, alts) => {
            let limit: usize = match kind {
                GroupKind::ZeroOrOne | GroupKind::ExactlyOne => 2,
                _ => 1,
            };
            let n = count_alternatives(alts, tokens, i + 1, input, pos, limit);
            match kind {
                GroupKind::ZeroOrOne => {
                    if n == 1 {
                        Status::Matched
                    } else if n > 1 {
                        Status::Retryable
                    } else {
                        match_index(tokens, i + 1, input, pos)
                    }
                },
                GroupKind::ZeroOrMore => {
                    if n > 0 {
                        Status::Matched
                    } else {
                        match_index(tokens, i + 1, input, pos)
                    }
                },
                GroupKind::OneOrMore => {
                    if n > 0 {
                        Status::Matched
                    } else {
                        Status::Retryable
                    }
                },
                GroupKind::ExactlyOne => {
                    if n == 1 {
                        Status::Matched
                    } else {
                        Status::Retryable
                    }
                },
                GroupKind::NoneOf => {
                    if n > 0 {
                        Status::Retryable
                    } else if pos == input.len() {
                        match_index(tokens, i + 1, input, pos)
                    } else {
                        scan_rest(tokens, i + 1, input, pos)
                    }
                },
            }
        },
    }
}

/// Tries `tokens[j..]` against `input[k..]` for `k = pos + 1, pos + 2, ...`,
/// stopping at the first outcome that is not `Retryable`.
fn scan_rest(tokens: &Vec<Token>, j: usize, input: &Vec<char>, pos: usize) -> (r: Status)
    requires
        j <= tokens.len(),
        pos <= input.len(),
    ensures
        r == scan(tokens_view(tokens@).skip(j as int), input@.skip(pos as int), 1),
    decreases seq_size(tokens_view(tokens@).skip(j as int)), 1int,
{
    let ghost rest = tokens_view(tokens@).skip(j as int);
    let ghost s = input@.skip(pos as int);
    let mut k: usize = pos;
    while k < input.len()
        invariant
            pos <= k <= input.len(),
            j <= tokens.len(),
            rest == tokens_view(tokens@).skip(j as int),
            s == input@.skip(pos as int),
            scan(rest, s, 1) == scan(rest, s, k - pos + 1),
        decreases input.len() - k,
    {
        k = k + 1;
        let r = match_index(tokens, j, input, k);
        assert(s.skip(k - pos) =~= input@.skip(k as int));
        if r != Status::Retryable {
            return r;
        }
    }
    Status::Retryable
}

/// Counts the alternatives that, followed by `tokens[next..]`, match
/// `input[pos..]`, stopping once the count reaches `limit`.
fn count_alternatives(
    alts: &Vec<Vec<Token>>,
    tokens: &Vec<Token>,
    next: usize,
    input: &Vec<char>,
    pos: usize,
    limit: usize,
) -> (n: usize)
    requires
        next <= tokens.len(),
        pos <= input.len(),
        limit > 0,
    ensures
        n == if count_matches(
            alts_view(alts@),
            tokens_view(tokens@).skip(next as int),
            input@.skip(pos as int),
            0,
        ) < limit {
            count_matches(
                alts_view(alts@),
                tokens_view(tokens@).skip(next as int),
                input@.skip(pos as int),
                0,
            ) as int
        } else {
            limit as int
        },
    decreases
            alts_size(alts_view(alts@)) + seq_size(
                tokens_view(tokens@).skip(next as int),
            ),
            1int,
{
    let ghost av = alts_view(alts@);
    let ghost rest = tokens_view(tokens@).skip(next as int);
    let ghost s = input@.skip(pos as int);
    proof {
        lemma_alts_view(alts@);
    }
    let mut n: usize = 0;
    let mut k: usize = 0;
    while k < alts.len()
        invariant
            k <= alts.len(),
            n < limit,
            next <= tokens.len(),
            pos <= input.len(),
            av == alts_view(alts@),
            av.len() == alts.len(),
            forall|j: int| 0 <= j < alts.len() ==> #[trigger] av[j] == tokens_view(alts@[j]@),
            rest == tokens_view(tokens@).skip(next as int),
            s == input@.skip(pos as int),
            n + count_matches(av, rest, s, k as int) == count_matches(av, rest, s, 0),
        decreases alts.len() - k,
    {
        let mut t = copy_tokens(&alts[k]);
        append_copies(&mut t, tokens, next);
        proof {
            lemma_size_concat(av[k as int], rest);
            lemma_alt_size(av, k as int);
            assert(tokens_view(t@).skip(0) =~= av[k as int] + rest);
        }
        let r = match_index(&t, 0, input, pos);
        if r == Status::Matched {
            n = n + 1;
            if n == limit {
                return n;
            }
        }
        k += 1;
    }
    n
}

} // verus!
