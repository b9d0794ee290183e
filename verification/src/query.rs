//! The supported subset of Scryfall's search syntax: a lexer, a term reader
//! and a recursive-descent parser.
//!
//! Anything unsupported is an error naming the offending term, never a query
//! that quietly matches nothing: a silent no-match yields a confidently wrong
//! probability, which is the failure this project exists to prevent.

use vstd::prelude::*;
use crate::colors::{Cmp, Colors, IsProperty, letters_mask};
use crate::legality::format_from;
use crate::text::{
    ascii_lower, chars_of, eq_ignore_case, eq_ignore_ascii_case, is_alpha, is_ws, is_whitespace,
    lower, lowered, seq_eq, string_of,
};

verus! {

/// One token of a query, as the lexer hands it on.
#[derive(Debug, Clone)]
pub enum Token {
    LParen,
    RParen,
    Or,
    Minus,
    Term(Vec<char>),
}

/// A token as the contracts see it.
pub enum Lexeme {
    LParen,
    RParen,
    Or,
    Minus,
    Term(Seq<char>),
}

impl View for Token {
    type V = Lexeme;

    open spec fn view(&self) -> Lexeme {
        match self {
            Token::LParen => Lexeme::LParen,
            Token::RParen => Lexeme::RParen,
            Token::Or => Lexeme::Or,
            Token::Minus => Lexeme::Minus,
            Token::Term(t) => Lexeme::Term(t@),
        }
    }
}

pub open spec fn lexemes_of(tokens: Seq<Token>) -> Seq<Lexeme> {
    tokens.map_values(|t: Token| t@)
}

/// Where the lexer stands: between tokens, inside a term, or inside a quoted
/// part of a term.
#[derive(Clone, Copy, PartialEq, Eq, Structural)]
pub enum LexMode {
    Between,
    Word,
    Quote,
}

/// What a finished term becomes: `or` (in any case, unquoted) is the
/// operator, `and` (likewise) is dropped since juxtaposition already means
/// AND, and anything else is a term.
pub open spec fn finish(text: Seq<char>, quoted: bool) -> Seq<Lexeme> {
    if !quoted && eq_ignore_case(text, seq!['o', 'r']) {
        seq![Lexeme::Or]
    } else if !quoted && eq_ignore_case(text, seq!['a', 'n', 'd']) {
        Seq::empty()
    } else {
        seq![Lexeme::Term(text)]
    }
}

/// What a character does between tokens: whitespace separates, parentheses
/// are tokens of their own.
pub open spec fn between(c: char) -> Seq<Lexeme> {
    if c == '(' {
        seq![Lexeme::LParen]
    } else if c == ')' {
        seq![Lexeme::RParen]
    } else {
        Seq::empty()
    }
}

/// The tokens of `s` from position `i` on, given the mode, the term read so
/// far and whether any of it was quoted, appended to `out`.
///
/// A term runs until whitespace or a parenthesis; a `"` opens a quoted part
/// that runs to the next `"` (or the end) and may hold anything. A `-`
/// between tokens is a token of its own.
pub open spec fn lex_from(
    s: Seq<char>,
    i: int,
    mode: LexMode,
    text: Seq<char>,
    quoted: bool,
    out: Seq<Lexeme>,
) -> Seq<Lexeme>
    decreases s.len() - i,
{
    if i >= s.len() {
        if mode == LexMode::Between {
            out
        } else {
            out + finish(text, quoted)
        }
    } else {
        let c = s[i];
        match mode {
            LexMode::Between => if is_ws(c) || c == '(' || c == ')' {
                lex_from(s, i + 1, LexMode::Between, text, quoted, out + between(c))
            } else if c == '-' {
                lex_from(s, i + 1, LexMode::Between, text, quoted, out.push(Lexeme::Minus))
            } else if c == '"' {
                lex_from(s, i + 1, LexMode::Quote, Seq::empty(), true, out)
            } else {
                lex_from(s, i + 1, LexMode::Word, seq![c], false, out)
            },
            LexMode::Word => if c == '"' {
                lex_from(s, i + 1, LexMode::Quote, text, true, out)
            } else if is_ws(c) || c == '(' || c == ')' {
                lex_from(
                    s,
                    i + 1,
                    LexMode::Between,
                    text,
                    quoted,
                    out + finish(text, quoted) + between(c),
                )
            } else {
                lex_from(s, i + 1, LexMode::Word, text.push(c), quoted, out)
            },
            LexMode::Quote => if c == '"' {
                lex_from(s, i + 1, LexMode::Word, text, quoted, out)
            } else {
                lex_from(s, i + 1, LexMode::Quote, text.push(c), quoted, out)
            },
        }
    }
}

/// The tokens of a whole query.
pub open spec fn lexemes(s: Seq<char>) -> Seq<Lexeme> {
    lex_from(s, 0, LexMode::Between, Seq::empty(), false, Seq::empty())
}

proof fn lemma_lex_accumulates(
    s: Seq<char>,
    i: int,
    mode: LexMode,
    text: Seq<char>,
    quoted: bool,
    out: Seq<Lexeme>,
    more: Seq<Lexeme>,
)
    ensures
        lex_from(s, i, mode, text, quoted, out + more) == out + lex_from(
            s,
            i,
            mode,
            text,
            quoted,
            more,
        ),
    decreases s.len() - i,
{
    if i >= s.len() {
        if mode != LexMode::Between {
            assert(out + more + finish(text, quoted) =~= out + (more + finish(text, quoted)));
        }
    } else {
        let c = s[i];
        match mode {
            LexMode::Between => if is_ws(c) || c == '(' || c == ')' {
                assert(out + more + between(c) =~= out + (more + between(c)));
                lemma_lex_accumulates(s, i + 1, LexMode::Between, text, quoted, out, more + between(c));
            } else if c == '-' {
                assert((out + more).push(Lexeme::Minus) =~= out + more.push(Lexeme::Minus));
                lemma_lex_accumulates(
                    s,
                    i + 1,
                    LexMode::Between,
                    text,
                    quoted,
                    out,
                    more.push(Lexeme::Minus),
                );
            } else if c == '"' {
                lemma_lex_accumulates(s, i + 1, LexMode::Quote, Seq::empty(), true, out, more);
            } else {
                lemma_lex_accumulates(s, i + 1, LexMode::Word, seq![c], false, out, more);
            },
            LexMode::Word => if c == '"' {
                lemma_lex_accumulates(s, i + 1, LexMode::Quote, text, true, out, more);
            } else if is_ws(c) || c == '(' || c == ')' {
                let add = finish(text, quoted) + between(c);
                assert(out + more + finish(text, quoted) + between(c) =~= out + (more + add));
                assert(more + finish(text, quoted) + between(c) =~= more + add);
                lemma_lex_accumulates(s, i + 1, LexMode::Between, text, quoted, out, more + add);
            } else {
                lemma_lex_accumulates(s, i + 1, LexMode::Word, text.push(c), quoted, out, more);
            },
            LexMode::Quote => if c == '"' {
                lemma_lex_accumulates(s, i + 1, LexMode::Word, text, quoted, out, more);
            } else {
                lemma_lex_accumulates(s, i + 1, LexMode::Quote, text.push(c), quoted, out, more);
            },
        }
    }
}

/// Appends what a finished term becomes.
fn push_finished(out: &mut Vec<Token>, text: Vec<char>, quoted: bool)
    ensures
        lexemes_of(final(out)@) == lexemes_of(old(out)@) + finish(text@, quoted),
{
    let ghost before = out@;
    if !quoted && eq_ignore_ascii_case(text.as_slice(), &['o', 'r']) {
        out.push(Token::Or);
        proof {
            assert(lexemes_of(out@) =~= lexemes_of(before) + seq![Lexeme::Or]);
        }
    } else if !quoted && eq_ignore_ascii_case(text.as_slice(), &['a', 'n', 'd']) {
        proof {
            assert(lexemes_of(out@) =~= lexemes_of(before) + Seq::<Lexeme>::empty());
        }
    } else {
        let ghost t = text@;
        out.push(Token::Term(text));
        proof {
            assert(lexemes_of(out@) =~= lexemes_of(before) + seq![Lexeme::Term(t)]);
        }
    }
}

/// Appends what a separator between tokens becomes.
fn push_between(out: &mut Vec<Token>, c: char)
    ensures
        lexemes_of(final(out)@) == lexemes_of(old(out)@) + between(c),
{
    let ghost before = out@;
    if c == '(' {
        out.push(Token::LParen);
        proof {
            assert(lexemes_of(out@) =~= lexemes_of(before) + seq![Lexeme::LParen]);
        }
    } else if c == ')' {
        out.push(Token::RParen);
        proof {
            assert(lexemes_of(out@) =~= lexemes_of(before) + seq![Lexeme::RParen]);
        }
    } else {
        proof {
            assert(lexemes_of(out@) =~= lexemes_of(before) + Seq::<Lexeme>::empty());
        }
    }
}

/// Splits a query into tokens.
pub fn lex(s: &[char]) -> (r: Vec<Token>)
    ensures
        lexemes_of(r@) == lexemes(s@),
{
    let mut out: Vec<Token> = Vec::new();
    let mut mode = LexMode::Between;
    let mut text: Vec<char> = Vec::new();
    let mut quoted = false;
    let mut i: usize = 0;
    proof {
        assert(lexemes_of(out@) =~= Seq::<Lexeme>::empty());
    }
    while i < s.len()
        invariant
            i <= s@.len(),
            lex_from(s@, i as int, mode, text@, quoted, lexemes_of(out@)) == lexemes(s@),
        decreases s@.len() - i,
    {
        let c = s[i];
        let ghost o = lexemes_of(out@);
        match mode {
            LexMode::Between => {
                if is_whitespace(c) || c == '(' || c == ')' {
                    push_between(&mut out, c);
                } else if c == '-' {
                    out.push(Token::Minus);
                    proof {
                        assert(lexemes_of(out@) =~= o.push(Lexeme::Minus));
                    }
                } else if c == '"' {
                    mode = LexMode::Quote;
                    text = Vec::new();
                    quoted = true;
                } else {
                    mode = LexMode::Word;
                    text = Vec::new();
                    text.push(c);
                    quoted = false;
                    proof {
                        assert(text@ =~= seq![c]);
                    }
                }
            },
            LexMode::Word => {
                if c == '"' {
                    mode = LexMode::Quote;
                    quoted = true;
                } else if is_whitespace(c) || c == '(' || c == ')' {
                    let ghost t = text@;
                    let mut taken: Vec<char> = Vec::new();
                    std::mem::swap(&mut taken, &mut text);
                    push_finished(&mut out, taken, quoted);
                    push_between(&mut out, c);
                    mode = LexMode::Between;
                    proof {
                        lemma_lex_ignores_text(s@, i + 1, t, text@, quoted, lexemes_of(out@));
                    }
                } else {
                    text.push(c);
                }
            },
            LexMode::Quote => {
                if c == '"' {
                    mode = LexMode::Word;
                } else {
                    text.push(c);
                }
            },
        }
        i += 1;
    }
    if mode != LexMode::Between {
        push_finished(&mut out, text, quoted);
    }
    out
}

/// Between tokens, the leftover text of the last term plays no part.
proof fn lemma_lex_ignores_text(
    s: Seq<char>,
    i: int,
    a: Seq<char>,
    b: Seq<char>,
    quoted: bool,
    out: Seq<Lexeme>,
)
    ensures
        lex_from(s, i, LexMode::Between, a, quoted, out) == lex_from(
            s,
            i,
            LexMode::Between,
            b,
            quoted,
            out,
        ),
    decreases s.len() - i,
{
    if i < s.len() {
        let c = s[i];
        if is_ws(c) || c == '(' || c == ')' {
            lemma_lex_ignores_text(s, i + 1, a, b, quoted, out + between(c));
        } else if c == '-' {
            lemma_lex_ignores_text(s, i + 1, a, b, quoted, out.push(Lexeme::Minus));
        }
    }
}


/// Whether `l` spells `w`.
fn word_is(l: &[char], w: &str) -> (r: bool)
    ensures
        r == (l@ == w@),
{
    let c = chars_of(w);
    seq_eq(l, c.as_slice())
}

/// A rarity, in the order Scryfall lists them.
#[derive(Debug, Clone, Copy, PartialEq, Eq, Structural)]
pub enum Rarity {
    Common,
    Uncommon,
    Rare,
    Special,
    Mythic,
    Bonus,
}

/// The rarity a word names, by its full name or its first letter, in any
/// case.
pub open spec fn rarity_named(w: Seq<char>) -> Option<Rarity> {
    let l = lower(w);
    if l =~= "c"@ || l =~= "common"@ {
        Some(Rarity::Common)
    } else if l =~= "u"@ || l =~= "uncommon"@ {
        Some(Rarity::Uncommon)
    } else if l =~= "r"@ || l =~= "rare"@ {
        Some(Rarity::Rare)
    } else if l =~= "s"@ || l =~= "special"@ {
        Some(Rarity::Special)
    } else if l =~= "m"@ || l =~= "mythic"@ {
        Some(Rarity::Mythic)
    } else if l =~= "b"@ || l =~= "bonus"@ {
        Some(Rarity::Bonus)
    } else {
        None
    }
}

/// A parsed query.
#[derive(Debug, PartialEq)]
pub enum Query {
    /// `t:land`: substring of the type line, ignoring case.
    Type(String),
    /// `o:"Add {W}"`: substring of the oracle text, ignoring case.
    Oracle(String),
    /// `name:"Rogue's Passage"`, or a bare word.
    Name(String),
    /// `kw:flying`: a keyword the card has, whole, ignoring case.
    Keyword(String),
    /// `cat:"Exile Outlet"`: one of the categories the decklist gave it.
    Category(String),
    /// `otag:surveil-land`: a Scryfall oracle tag, checked against the index.
    Tag(String),
    /// `mv<=2`, `cmc=3`: the number as written, which reads as a number.
    ManaValue(Cmp, String),
    /// `id<=W`; `id:` is a synonym for `id<=`, as on Scryfall.
    Identity(Cmp, Colors),
    /// `f:commander`: legal in a format, named in lower case.
    Format(String),
    /// `r>=rare`.
    Rarity(Cmp, Rarity),
    /// `is:permanent`.
    Is(IsProperty),
    Not(Box<Query>),
    And(Vec<Query>),
    Or(Vec<Query>),
}

/// A query as the contracts see it.
pub enum QueryView {
    Type(Seq<char>),
    Oracle(Seq<char>),
    Name(Seq<char>),
    Keyword(Seq<char>),
    Category(Seq<char>),
    Tag(Seq<char>),
    ManaValue(Cmp, Seq<char>),
    Identity(Cmp, Colors),
    Format(Seq<char>),
    Rarity(Cmp, Rarity),
    Is(IsProperty),
    Not(Box<QueryView>),
    And(Seq<QueryView>),
    Or(Seq<QueryView>),
}

pub open spec fn query_view(q: Query) -> QueryView
    decreases q, 0nat,
{
    match q {
        Query::Type(s) => QueryView::Type(s@),
        Query::Oracle(s) => QueryView::Oracle(s@),
        Query::Name(s) => QueryView::Name(s@),
        Query::Keyword(s) => QueryView::Keyword(s@),
        Query::Category(s) => QueryView::Category(s@),
        Query::Tag(s) => QueryView::Tag(s@),
        Query::ManaValue(c, s) => QueryView::ManaValue(c, s@),
        Query::Identity(c, k) => QueryView::Identity(c, k),
        Query::Format(s) => QueryView::Format(s@),
        Query::Rarity(c, r) => QueryView::Rarity(c, r),
        Query::Is(p) => QueryView::Is(p),
        Query::Not(b) => QueryView::Not(Box::new(query_view(*b))),
        Query::And(v) => QueryView::And(views_of(v@, v@.len())),
        Query::Or(v) => QueryView::Or(views_of(v@, v@.len())),
    }
}

/// The views of the first `n` queries.
pub open spec fn views_of(s: Seq<Query>, n: nat) -> Seq<QueryView>
    decreases s, n,
{
    if n == 0 || n > s.len() {
        Seq::empty()
    } else {
        views_of(s, (n - 1) as nat).push(query_view(s[n - 1]))
    }
}

proof fn lemma_views_len(s: Seq<Query>, n: nat)
    requires
        n <= s.len(),
    ensures
        views_of(s, n).len() == n,
    decreases n,
{
    if n > 0 {
        lemma_views_len(s, (n - 1) as nat);
    }
}

/// The view of each of the first `n` queries stands at its own position.
pub(crate) proof fn lemma_views_index(s: Seq<Query>, n: nat)
    requires
        n <= s.len(),
    ensures
        views_of(s, n).len() == n,
        forall|k: int| 0 <= k < n ==> #[trigger] views_of(s, n)[k] == query_view(s[k]),
    decreases n,
{
    if n > 0 {
        lemma_views_index(s, (n - 1) as nat);
    }
}

proof fn lemma_views_prefix(s: Seq<Query>, q: Query, n: nat)
    requires
        n <= s.len(),
    ensures
        views_of(s.push(q), n) == views_of(s, n),
    decreases n,
{
    if n > 0 {
        lemma_views_prefix(s, q, (n - 1) as nat);
        assert(s.push(q)[n - 1] == s[n - 1]);
    }
}

proof fn lemma_views_push(s: Seq<Query>, q: Query)
    ensures
        views_of(s.push(q), (s.len() + 1) as nat) == views_of(s, s.len()).push(query_view(q)),
{
    lemma_views_prefix(s, q, s.len());
    assert(s.push(q)[s.len() as int] == q);
}

impl View for Query {
    type V = QueryView;

    open spec fn view(&self) -> QueryView {
        query_view(*self)
    }
}

/// Why a query was refused. Every variant but the structural ones names the
/// term it is about.
#[derive(Debug, Clone, PartialEq, Eq)]
pub enum ParseError {
    Empty,
    UnknownKey { key: String, term: String },
    UnknownIsProperty { value: String },
    NoComparison { key: String, term: String },
    BadNumber { term: String, value: String },
    BadColors { term: String, value: String },
    BadFormat { value: String },
    BadRarity { value: String },
    MissingValue { term: String },
    UnbalancedParen,
    Unexpected(String),
}

/// A refusal as the contracts see it.
pub enum ParseErrorView {
    Empty,
    UnknownKey { key: Seq<char>, term: Seq<char> },
    UnknownIsProperty { value: Seq<char> },
    NoComparison { key: Seq<char>, term: Seq<char> },
    BadNumber { term: Seq<char>, value: Seq<char> },
    BadColors { term: Seq<char>, value: Seq<char> },
    BadFormat { value: Seq<char> },
    BadRarity { value: Seq<char> },
    MissingValue { term: Seq<char> },
    UnbalancedParen,
    Unexpected(Seq<char>),
}

impl View for ParseError {
    type V = ParseErrorView;

    open spec fn view(&self) -> ParseErrorView {
        match self {
            ParseError::Empty => ParseErrorView::Empty,
            ParseError::UnknownKey { key, term } => ParseErrorView::UnknownKey {
                key: key@,
                term: term@,
            },
            ParseError::UnknownIsProperty { value } => ParseErrorView::UnknownIsProperty {
                value: value@,
            },
            ParseError::NoComparison { key, term } => ParseErrorView::NoComparison {
                key: key@,
                term: term@,
            },
            ParseError::BadNumber { term, value } => ParseErrorView::BadNumber {
                term: term@,
                value: value@,
            },
            ParseError::BadColors { term, value } => ParseErrorView::BadColors {
                term: term@,
                value: value@,
            },
            ParseError::BadFormat { value } => ParseErrorView::BadFormat { value: value@ },
            ParseError::BadRarity { value } => ParseErrorView::BadRarity { value: value@ },
            ParseError::MissingValue { term } => ParseErrorView::MissingValue { term: term@ },
            ParseError::UnbalancedParen => ParseErrorView::UnbalancedParen,
            ParseError::Unexpected(s) => ParseErrorView::Unexpected(s@),
        }
    }
}

/// Whether `c` separates a key from its value.
pub open spec fn is_operator(c: char) -> bool {
    c == ':' || c == '=' || c == '<' || c == '>' || c == '!'
}

/// The position of the first operator character in `term`, if any.
pub open spec fn first_operator(term: Seq<char>) -> Option<int> {
    if exists|i: int| 0 <= i < term.len() && is_operator(term[i]) {
        Some(
            choose|i: int|
                0 <= i < term.len() && is_operator(term[i]) && forall|j: int|
                    0 <= j < i ==> !is_operator(#[trigger] term[j]),
        )
    } else {
        None
    }
}

/// `key<op>value`, split: the length of the key, the comparison and where
/// the value starts; `None` when there is no operator, or the key before it
/// is empty or not all ASCII letters, or the operator is a lone `!`. A `:`
/// reads as `=` here.
pub open spec fn split_spec(term: Seq<char>) -> Option<(int, Cmp, int)> {
    match first_operator(term) {
        None => None,
        Some(pos) => if pos == 0 || exists|k: int| 0 <= k < pos && !is_alpha(#[trigger] term[k]) {
            None
        } else {
            let next = if pos + 1 < term.len() {
                Some(term[pos + 1])
            } else {
                None
            };
            let c = term[pos];
            if c == '<' && next == Some('=') {
                Some((pos, Cmp::Le, pos + 2))
            } else if c == '>' && next == Some('=') {
                Some((pos, Cmp::Ge, pos + 2))
            } else if c == '!' && next == Some('=') {
                Some((pos, Cmp::Ne, pos + 2))
            } else if c == '<' {
                Some((pos, Cmp::Lt, pos + 1))
            } else if c == '>' {
                Some((pos, Cmp::Gt, pos + 1))
            } else if c == '=' || c == ':' {
                Some((pos, Cmp::Eq, pos + 1))
            } else {
                None
            }
        },
    }
}

/// Splits `key<op>value` as [`split_spec`] says.
pub fn split_term(term: &[char]) -> (r: Option<(usize, Cmp, usize)>)
    ensures
        match r {
            Some((k, c, v)) => split_spec(term@) == Some((k as int, c, v as int)),
            None => split_spec(term@) is None,
        },
{
    let mut pos: usize = 0;
    while pos < term.len() && !(term[pos] == ':' || term[pos] == '=' || term[pos] == '<' || term[pos]
        == '>' || term[pos] == '!')
        invariant
            pos <= term@.len(),
            forall|j: int| 0 <= j < pos ==> !is_operator(#[trigger] term@[j]),
        decreases term@.len() - pos,
    {
        pos += 1;
    }
    if pos == term.len() {
        proof {
            assert(!exists|i: int| 0 <= i < term@.len() && is_operator(term@[i]));
        }
        return None;
    }
    proof {
        assert(is_operator(term@[pos as int]));
        let chosen = first_operator(term@);
        assert(chosen is Some);
        let p = chosen->0;
        if p < pos {
            assert(!is_operator(term@[p]));
        }
        if p > pos {
            assert(!is_operator(term@[pos as int]));
        }
        assert(p == pos);
    }
    if pos == 0 {
        return None;
    }
    let ghost p = first_operator(term@)->0;
    assert(p == pos);
    let mut k: usize = 0;
    while k < pos
        invariant
            0 < pos < term@.len(),
            k <= pos,
            first_operator(term@) == Some(pos as int),
            forall|j: int| 0 <= j < k ==> is_alpha(#[trigger] term@[j]),
        decreases pos - k,
    {
        let c = term[k];
        if !(('a' <= c && c <= 'z') || ('A' <= c && c <= 'Z')) {
            proof {
                assert(!is_alpha(term@[k as int]));
            }
            return None;
        }
        k += 1;
    }
    let c = term[pos];
    let next_eq = pos + 1 < term.len() && term[pos + 1] == '=';
    if c == '<' && next_eq {
        Some((pos, Cmp::Le, pos + 2))
    } else if c == '>' && next_eq {
        Some((pos, Cmp::Ge, pos + 2))
    } else if c == '!' && next_eq {
        Some((pos, Cmp::Ne, pos + 2))
    } else if c == '<' {
        Some((pos, Cmp::Lt, pos + 1))
    } else if c == '>' {
        Some((pos, Cmp::Gt, pos + 1))
    } else if c == '=' || c == ':' {
        Some((pos, Cmp::Eq, pos + 1))
    } else {
        None
    }
}


/// Whether every character is an ASCII digit.
pub open spec fn digits(s: Seq<char>) -> bool {
    forall|k: int| 0 <= k < s.len() ==> crate::text::is_digit(#[trigger] s[k])
}

/// `Digit+ | Digit+ '.' Digit* | Digit* '.' Digit+`.
pub open spec fn mantissa(s: Seq<char>) -> bool {
    ||| s.len() > 0 && digits(s)
    ||| exists|d: int|
        0 <= d < s.len() && s[d] == '.' && digits(s.subrange(0, d)) && digits(
            s.subrange(d + 1, s.len() as int),
        ) && s.len() > 1
}

/// `'e' Sign? Digit+`, on lower-cased text.
pub open spec fn exponent(s: Seq<char>) -> bool {
    &&& s.len() >= 2
    &&& s[0] == 'e'
    &&& {
        let rest = if s[1] == '+' || s[1] == '-' {
            s.subrange(2, s.len() as int)
        } else {
            s.subrange(1, s.len() as int)
        };
        rest.len() > 0 && digits(rest)
    }
}

/// `Number ::= Mantissa Exp?`, on lower-cased text.
pub open spec fn number(s: Seq<char>) -> bool {
    ||| mantissa(s)
    ||| exists|e: int|
        0 <= e < s.len() && s[e] == 'e' && mantissa(s.subrange(0, e)) && exponent(
            s.subrange(e, s.len() as int),
        )
}

/// What `str::parse::<f64>` accepts, as its documentation gives it: text
/// that, once lower-cased, is a sign or none, then `inf`, `infinity`, `nan`
/// or a decimal number with an optional exponent.
pub open spec fn reads_as_number(s: Seq<char>) -> bool {
    let l = lower(s);
    let body = if l.len() > 0 && (l[0] == '+' || l[0] == '-') {
        l.subrange(1, l.len() as int)
    } else {
        l
    };
    ||| body =~= "inf"@
    ||| body =~= "infinity"@
    ||| body =~= "nan"@
    ||| number(body)
}

fn all_digits_in(s: &[char], from: usize, to: usize) -> (r: bool)
    requires
        from <= to <= s@.len(),
    ensures
        r == digits(s@.subrange(from as int, to as int)),
{
    let mut i = from;
    while i < to
        invariant
            from <= i <= to <= s@.len(),
            digits(s@.subrange(from as int, i as int)),
        decreases to - i,
    {
        if !('0' <= s[i] && s[i] <= '9') {
            proof {
                assert(s@.subrange(from as int, to as int)[i - from] == s@[i as int]);
            }
            return false;
        }
        i += 1;
        proof {
            assert forall|k: int| 0 <= k < i - from implies crate::text::is_digit(
                #[trigger] s@.subrange(from as int, i as int)[k],
            ) by {
                if k < i - 1 - from {
                    assert(s@.subrange(from as int, i as int)[k] == s@.subrange(
                        from as int,
                        i - 1,
                    )[k]);
                }
            }
        }
    }
    true
}

fn is_mantissa(s: &[char], from: usize, to: usize) -> (r: bool)
    requires
        from <= to <= s@.len(),
    ensures
        r == mantissa(s@.subrange(from as int, to as int)),
{
    let ghost m = s@.subrange(from as int, to as int);
    let mut d = from;
    while d < to && s[d] != '.'
        invariant
            from <= d <= to <= s@.len(),
            forall|k: int| from <= k < d ==> s@[k] != '.',
        decreases to - d,
    {
        d += 1;
    }
    if d == to {
        let r = to > from && all_digits_in(s, from, to);
        proof {
            if exists|x: int| 0 <= x < m.len() && m[x] == '.' {
                let x = choose|x: int| 0 <= x < m.len() && m[x] == '.';
                assert(s@[from + x] == m[x]);
            }
        }
        return r;
    }
    let left = all_digits_in(s, from, d);
    let right = all_digits_in(s, d + 1, to);
    proof {
        let dd = d - from;
        assert(m.subrange(0, dd) =~= s@.subrange(from as int, d as int));
        assert(m.subrange(dd + 1, m.len() as int) =~= s@.subrange(d + 1, to as int));
        assert(m[dd] == '.');
        if m.len() > 0 && digits(m) {
            assert(crate::text::is_digit(m[dd]));
        }
        if exists|x: int|
            0 <= x < m.len() && m[x] == '.' && digits(m.subrange(0, x)) && digits(
                m.subrange(x + 1, m.len() as int),
            ) && m.len() > 1 {
            let x = choose|x: int|
                0 <= x < m.len() && m[x] == '.' && digits(m.subrange(0, x)) && digits(
                    m.subrange(x + 1, m.len() as int),
                ) && m.len() > 1;
            if x < dd {
                assert(m.subrange(0, dd)[x] == m[x]);
                assert(crate::text::is_digit(m.subrange(x + 1, m.len() as int)[dd - x - 1]));
            } else if x > dd {
                assert(s@[from + x] == m[x]);
                assert(m.subrange(0, x)[dd] == m[dd]);
            }
        }
    }
    left && right && to - from > 1
}

fn is_exponent(s: &[char], from: usize, to: usize) -> (r: bool)
    requires
        from <= to <= s@.len(),
    ensures
        r == exponent(s@.subrange(from as int, to as int)),
{
    let ghost x = s@.subrange(from as int, to as int);
    if to - from < 2 || s[from] != 'e' {
        return false;
    }
    let start = if s[from + 1] == '+' || s[from + 1] == '-' {
        from + 2
    } else {
        from + 1
    };
    let r = start < to && all_digits_in(s, start, to);
    proof {
        assert(x.subrange(start - from, x.len() as int) =~= s@.subrange(start as int, to as int));
    }
    r
}

fn is_number_body(s: &[char], from: usize) -> (r: bool)
    requires
        from <= s@.len(),
    ensures
        r == number(s@.subrange(from as int, s@.len() as int)),
{
    let ghost b = s@.subrange(from as int, s@.len() as int);
    let mut e = from;
    while e < s.len() && s[e] != 'e'
        invariant
            from <= e <= s@.len(),
            forall|k: int| from <= k < e ==> s@[k] != 'e',
        decreases s@.len() - e,
    {
        e += 1;
    }
    let whole = is_mantissa(s, from, s.len());
    if e == s.len() {
        proof {
            if exists|x: int|
                0 <= x < b.len() && b[x] == 'e' && mantissa(b.subrange(0, x)) && exponent(
                    b.subrange(x, b.len() as int),
                ) {
                let x = choose|x: int|
                    0 <= x < b.len() && b[x] == 'e' && mantissa(b.subrange(0, x)) && exponent(
                        b.subrange(x, b.len() as int),
                    );
                assert(s@[from + x] == b[x]);
            }
        }
        return whole;
    }
    let head = is_mantissa(s, from, e);
    let tail = is_exponent(s, e, s.len());
    proof {
        let ee = e - from;
        assert(b.subrange(0, ee) =~= s@.subrange(from as int, e as int));
        assert(b.subrange(ee, b.len() as int) =~= s@.subrange(e as int, s@.len() as int));
        assert(b[ee] == 'e');
        if exists|x: int|
            0 <= x < b.len() && b[x] == 'e' && mantissa(b.subrange(0, x)) && exponent(
                b.subrange(x, b.len() as int),
            ) {
            let x = choose|x: int|
                0 <= x < b.len() && b[x] == 'e' && mantissa(b.subrange(0, x)) && exponent(
                    b.subrange(x, b.len() as int),
                );
            if x > ee {
                lemma_mantissa_has_no_e(b.subrange(0, x), ee);
            } else if x < ee {
                assert(s@[from + x] == b[x]);
            }
        }
        if mantissa(b) {
            lemma_mantissa_has_no_e(b, ee);
        }
    }
    whole || (head && tail)
}

proof fn lemma_mantissa_has_no_e(m: Seq<char>, i: int)
    requires
        mantissa(m),
        0 <= i < m.len(),
    ensures
        m[i] != 'e',
{
    if m.len() > 0 && digits(m) {
        assert(crate::text::is_digit(m[i]));
    } else {
        let d = choose|d: int|
            0 <= d < m.len() && m[d] == '.' && digits(m.subrange(0, d)) && digits(
                m.subrange(d + 1, m.len() as int),
            ) && m.len() > 1;
        if i < d {
            assert(crate::text::is_digit(m.subrange(0, d)[i]));
        } else if i > d {
            assert(crate::text::is_digit(m.subrange(d + 1, m.len() as int)[i - d - 1]));
        }
    }
}

/// Whether `str::parse::<f64>` would accept `s`, as [`reads_as_number`]
/// states its documented grammar.
pub fn is_number(s: &[char]) -> (r: bool)
    ensures
        r == reads_as_number(s@),
{
    let l = lowered(s);
    let from: usize = if l.len() > 0 && (l[0] == '+' || l[0] == '-') {
        1
    } else {
        0
    };
    let ghost body = l@.subrange(from as int, l@.len() as int);
    proof {
        assert(l@.subrange(0, l@.len() as int) =~= l@);
    }
    let b = slice_of(l.as_slice(), from, l.len());
    let w = b.as_slice();
    if word_is(w, "inf") || word_is(w, "infinity") || word_is(w, "nan") {
        return true;
    }
    is_number_body(l.as_slice(), from)
}

/// What a single term means: a bare word is a name; otherwise the key,
/// read ignoring case, decides, and the value must be non-empty.
pub open spec fn term_spec(term: Seq<char>) -> Result<QueryView, ParseErrorView> {
    match split_spec(term) {
        None => Ok(QueryView::Name(term)),
        Some((k, op, v)) => {
            let key = term.subrange(0, k);
            let value = term.subrange(v, term.len() as int);
            let lk = lower(key);
            if value.len() == 0 {
                Err(ParseErrorView::MissingValue { term })
            } else if lk =~= "t"@ || lk =~= "type"@ {
                Ok(QueryView::Type(value))
            } else if lk =~= "o"@ || lk =~= "oracle"@ {
                Ok(QueryView::Oracle(value))
            } else if lk =~= "name"@ {
                Ok(QueryView::Name(value))
            } else if lk =~= "kw"@ || lk =~= "keyword"@ {
                if op != Cmp::Eq {
                    Err(ParseErrorView::NoComparison { key: lk, term })
                } else {
                    Ok(QueryView::Keyword(value))
                }
            } else if lk =~= "cat"@ || lk =~= "category"@ {
                Ok(QueryView::Category(value))
            } else if lk =~= "otag"@ || lk =~= "oracletag"@ {
                Ok(QueryView::Tag(value))
            } else if lk =~= "mv"@ || lk =~= "cmc"@ {
                if reads_as_number(value) {
                    Ok(QueryView::ManaValue(op, value))
                } else {
                    Err(ParseErrorView::BadNumber { term, value })
                }
            } else if lk =~= "id"@ || lk =~= "identity"@ {
                match letters_mask(value) {
                    None => Err(ParseErrorView::BadColors { term, value }),
                    Some(m) => Ok(
                        QueryView::Identity(
                            if term[k] == ':' {
                                Cmp::Le
                            } else {
                                op
                            },
                            Colors(m),
                        ),
                    ),
                }
            } else if lk =~= "f"@ || lk =~= "format"@ {
                if format_from(lower(value), 0) is Some {
                    Ok(QueryView::Format(lower(value)))
                } else {
                    Err(ParseErrorView::BadFormat { value })
                }
            } else if lk =~= "r"@ || lk =~= "rarity"@ {
                match rarity_named(value) {
                    Some(r) => Ok(QueryView::Rarity(op, r)),
                    None => Err(ParseErrorView::BadRarity { value }),
                }
            } else if lk =~= "is"@ {
                let lv = lower(value);
                if lv =~= "permanent"@ {
                    Ok(QueryView::Is(IsProperty::Permanent))
                } else if lv =~= "spell"@ {
                    Ok(QueryView::Is(IsProperty::Spell))
                } else if lv =~= "historic"@ {
                    Ok(QueryView::Is(IsProperty::Historic))
                } else if lv =~= "vanilla"@ {
                    Ok(QueryView::Is(IsProperty::Vanilla))
                } else {
                    Err(ParseErrorView::UnknownIsProperty { value: lv })
                }
            } else {
                Err(ParseErrorView::UnknownKey { key: lk, term })
            }
        },
    }
}

/// The characters of `s` from `from` to `to`.
pub fn slice_of(s: &[char], from: usize, to: usize) -> (r: Vec<char>)
    requires
        from <= to <= s@.len(),
    ensures
        r@ == s@.subrange(from as int, to as int),
{
    let mut out: Vec<char> = Vec::new();
    let mut i = from;
    while i < to
        invariant
            from <= i <= to <= s@.len(),
            out@ == s@.subrange(from as int, i as int),
        decreases to - i,
    {
        out.push(s[i]);
        i += 1;
        proof {
            assert(out@ =~= s@.subrange(from as int, i as int));
        }
    }
    out
}

/// The rarity a word names, as [`rarity_named`] says.
pub fn rarity_of(w: &[char]) -> (r: Option<Rarity>)
    ensures
        r == rarity_named(w@),
{
    let l = lowered(w);
    let l = l.as_slice();
    if word_is(l, "c") || word_is(l, "common") {
        Some(Rarity::Common)
    } else if word_is(l, "u") || word_is(l, "uncommon") {
        Some(Rarity::Uncommon)
    } else if word_is(l, "r") || word_is(l, "rare") {
        Some(Rarity::Rare)
    } else if word_is(l, "s") || word_is(l, "special") {
        Some(Rarity::Special)
    } else if word_is(l, "m") || word_is(l, "mythic") {
        Some(Rarity::Mythic)
    } else if word_is(l, "b") || word_is(l, "bonus") {
        Some(Rarity::Bonus)
    } else {
        None
    }
}

/// Whether `f` names a format, as [`format_from`] reads it.
fn is_format(f: &[char]) -> (r: bool)
    ensures
        r == format_from(f@, 0) is Some,
{
    let name = string_of(f);
    let silent = crate::legality::Legalities::from_stored(String::new());
    silent.get(name.as_str()).is_some()
}

/// Reads one term, as [`term_spec`] says.
pub fn parse_term(term: &[char]) -> (r: Result<Query, ParseError>)
    ensures
        match r {
            Ok(q) => term_spec(term@) == Ok::<QueryView, ParseErrorView>(q@),
            Err(e) => term_spec(term@) == Err::<QueryView, ParseErrorView>(e@),
        },
{
    let whole = string_of(term);
    let (k, op, v) = match split_term(term) {
        None => {
            return Ok(Query::Name(whole));
        },
        Some(split) => split,
    };
    proof {
        assert(0 < k < v <= term@.len()) by {
            let p = first_operator(term@)->0;
        }
    }
    if v == term.len() {
        proof {
            assert(term@.subrange(v as int, term@.len() as int).len() == 0);
        }
        return Err(ParseError::MissingValue { term: whole });
    }
    let key = slice_of(term, 0, k);
    let value_chars = slice_of(term, v, term.len());
    let value = string_of(value_chars.as_slice());
    let lk = lowered(key.as_slice());
    let l = lk.as_slice();
    if word_is(l, "t") || word_is(l, "type") {
        Ok(Query::Type(value))
    } else if word_is(l, "o") || word_is(l, "oracle") {
        Ok(Query::Oracle(value))
    } else if word_is(l, "name") {
        Ok(Query::Name(value))
    } else if word_is(l, "kw") || word_is(l, "keyword") {
        if op != Cmp::Eq {
            Err(ParseError::NoComparison { key: string_of(l), term: whole })
        } else {
            Ok(Query::Keyword(value))
        }
    } else if word_is(l, "cat") || word_is(l, "category") {
        Ok(Query::Category(value))
    } else if word_is(l, "otag") || word_is(l, "oracletag") {
        Ok(Query::Tag(value))
    } else if word_is(l, "mv") || word_is(l, "cmc") {
        if is_number(value_chars.as_slice()) {
            Ok(Query::ManaValue(op, value))
        } else {
            Err(ParseError::BadNumber { term: whole, value })
        }
    } else if word_is(l, "id") || word_is(l, "identity") {
        match Colors::from_letter_chars(value_chars.as_slice()) {
            None => Err(ParseError::BadColors { term: whole, value }),
            Some(colors) => {
                let c = if term[k] == ':' {
                    Cmp::Le
                } else {
                    op
                };
                Ok(Query::Identity(c, colors))
            },
        }
    } else if word_is(l, "f") || word_is(l, "format") {
        let lv = lowered(value_chars.as_slice());
        if is_format(lv.as_slice()) {
            Ok(Query::Format(string_of(lv.as_slice())))
        } else {
            Err(ParseError::BadFormat { value })
        }
    } else if word_is(l, "r") || word_is(l, "rarity") {
        match rarity_of(value_chars.as_slice()) {
            Some(r) => Ok(Query::Rarity(op, r)),
            None => Err(ParseError::BadRarity { value }),
        }
    } else if word_is(l, "is") {
        let lv = lowered(value_chars.as_slice());
        let w = lv.as_slice();
        if word_is(w, "permanent") {
            Ok(Query::Is(IsProperty::Permanent))
        } else if word_is(w, "spell") {
            Ok(Query::Is(IsProperty::Spell))
        } else if word_is(w, "historic") {
            Ok(Query::Is(IsProperty::Historic))
        } else if word_is(w, "vanilla") {
            Ok(Query::Is(IsProperty::Vanilla))
        } else {
            Err(ParseError::UnknownIsProperty { value: string_of(w) })
        }
    } else {
        Err(ParseError::UnknownKey { key: string_of(l), term: whole })
    }
}


/// One operand: `-` negates what follows, `(` opens a group that must
/// close, and a term is read by [`term_spec`]. Gives the query and where
/// reading stopped.
pub open spec fn unary_spec(t: Seq<Lexeme>, p: int) -> Result<(QueryView, int), ParseErrorView>
    decreases t.len() - p, 0int,
{
    if p < 0 || p >= t.len() {
        Err(ParseErrorView::Empty)
    } else {
        match t[p] {
            Lexeme::Minus => match unary_spec(t, p + 1) {
                Ok((q, n)) => Ok((QueryView::Not(Box::new(q)), n)),
                Err(e) => Err(e),
            },
            Lexeme::LParen => match or_spec(t, p + 1) {
                Ok((q, n)) => if 0 <= n < t.len() && t[n] is RParen {
                    Ok((q, n + 1))
                } else {
                    Err(ParseErrorView::UnbalancedParen)
                },
                Err(e) => Err(e),
            },
            Lexeme::Term(s) => match term_spec(s) {
                Ok(q) => Ok((q, p + 1)),
                Err(e) => Err(e),
            },
            Lexeme::RParen => Err(ParseErrorView::UnbalancedParen),
            Lexeme::Or => Err(ParseErrorView::Unexpected("or"@)),
        }
    }
}

/// Operands side by side, which means all of them.
pub open spec fn and_spec(t: Seq<Lexeme>, p: int) -> Result<(QueryView, int), ParseErrorView>
    decreases t.len() - p, 1int,
{
    match unary_spec(t, p) {
        Err(e) => Err(e),
        Ok((q, n)) => if p < n <= t.len() {
            and_rest(t, n, seq![q])
        } else {
            Ok((q, n))
        },
    }
}

/// Whether a token can start another operand.
pub open spec fn starts_operand(l: Lexeme) -> bool {
    l is Term || l is Minus || l is LParen
}

/// One query standing for several: itself if there is one, else the
/// conjunction.
pub open spec fn all_of(parts: Seq<QueryView>) -> QueryView {
    if parts.len() == 1 {
        parts[0]
    } else {
        QueryView::And(parts)
    }
}

/// One query standing for several: itself if there is one, else the
/// disjunction.
pub open spec fn any_of(parts: Seq<QueryView>) -> QueryView {
    if parts.len() == 1 {
        parts[0]
    } else {
        QueryView::Or(parts)
    }
}

/// The operands after the first of a conjunction, read while one can start.
pub open spec fn and_rest(t: Seq<Lexeme>, pos: int, parts: Seq<QueryView>) -> Result<
    (QueryView, int),
    ParseErrorView,
>
    decreases t.len() - pos, 2int,
{
    if 0 <= pos < t.len() && starts_operand(t[pos]) {
        match unary_spec(t, pos) {
            Err(e) => Err(e),
            Ok((q, n)) => if pos < n <= t.len() {
                and_rest(t, n, parts.push(q))
            } else {
                Ok((q, n))
            },
        }
    } else {
        Ok((all_of(parts), pos))
    }
}

/// Conjunctions separated by `or`, which means any of them.
pub open spec fn or_spec(t: Seq<Lexeme>, p: int) -> Result<(QueryView, int), ParseErrorView>
    decreases t.len() - p, 3int,
{
    match and_spec(t, p) {
        Err(e) => Err(e),
        Ok((q, n)) => if p < n <= t.len() {
            or_rest(t, n, seq![q])
        } else {
            Ok((q, n))
        },
    }
}

/// The conjunctions after the first of a disjunction, one after each `or`.
pub open spec fn or_rest(t: Seq<Lexeme>, pos: int, parts: Seq<QueryView>) -> Result<
    (QueryView, int),
    ParseErrorView,
>
    decreases t.len() - pos, 4int,
{
    if 0 <= pos < t.len() && t[pos] is Or {
        match and_spec(t, pos + 1) {
            Err(e) => Err(e),
            Ok((q, n)) => if pos < n <= t.len() {
                or_rest(t, n, parts.push(q))
            } else {
                Ok((q, n))
            },
        }
    } else {
        Ok((any_of(parts), pos))
    }
}

/// A whole query: there must be at least one token, and nothing may be left
/// over once the query is read; what can be left over is only ever a
/// closing parenthesis with no opening one.
pub open spec fn parse_spec(s: Seq<char>) -> Result<QueryView, ParseErrorView> {
    let t = lexemes(s);
    if t.len() == 0 {
        Err(ParseErrorView::Empty)
    } else {
        match or_spec(t, 0) {
            Err(e) => Err(e),
            Ok((q, n)) => if n >= t.len() {
                Ok(q)
            } else {
                Err(ParseErrorView::UnbalancedParen)
            },
        }
    }
}

pub open spec fn step_view(r: Result<(Query, usize), ParseError>) -> Result<
    (QueryView, int),
    ParseErrorView,
> {
    match r {
        Ok((q, n)) => Ok((q@, n as int)),
        Err(e) => Err(e@),
    }
}

pub open spec fn progressed(r: Result<(Query, usize), ParseError>, p: int, len: int) -> bool {
    r matches Ok((_, n)) ==> p < n <= len
}

fn unary(tokens: &Vec<Token>, p: usize) -> (r: Result<(Query, usize), ParseError>)
    requires
        p <= tokens@.len(),
    ensures
        step_view(r) == unary_spec(lexemes_of(tokens@), p as int),
        progressed(r, p as int, tokens@.len() as int),
    decreases tokens@.len() - p, 0int,
{
    let ghost t = lexemes_of(tokens@);
    if p >= tokens.len() {
        return Err(ParseError::Empty);
    }
    proof {
        assert(t[p as int] == tokens@[p as int]@);
    }
    match &tokens[p] {
        Token::Minus => match unary(tokens, p + 1) {
            Ok((q, n)) => Ok((Query::Not(Box::new(q)), n)),
            Err(e) => Err(e),
        },
        Token::LParen => match or_expr(tokens, p + 1) {
            Ok((q, n)) => {
                if n < tokens.len() && matches!(tokens[n], Token::RParen) {
                    proof {
                        assert(t[n as int] == tokens@[n as int]@);
                    }
                    Ok((q, n + 1))
                } else {
                    proof {
                        if n < tokens@.len() {
                            assert(t[n as int] == tokens@[n as int]@);
                        }
                    }
                    Err(ParseError::UnbalancedParen)
                }
            },
            Err(e) => Err(e),
        },
        Token::Term(s) => match parse_term(s.as_slice()) {
            Ok(q) => Ok((q, p + 1)),
            Err(e) => Err(e),
        },
        Token::RParen => Err(ParseError::UnbalancedParen),
        Token::Or => {
            let w = string_of(&['o', 'r']);
            proof {
                assert(w@ =~= "or"@) by {
                    reveal_strlit("or");
                }
            }
            Err(ParseError::Unexpected(w))
        },
    }
}

fn and_expr(tokens: &Vec<Token>, p: usize) -> (r: Result<(Query, usize), ParseError>)
    requires
        p <= tokens@.len(),
    ensures
        step_view(r) == and_spec(lexemes_of(tokens@), p as int),
        progressed(r, p as int, tokens@.len() as int),
    decreases tokens@.len() - p, 1int,
{
    match unary(tokens, p) {
        Err(e) => Err(e),
        Ok((q, n)) => {
            let ghost qv = q@;
            let mut parts: Vec<Query> = Vec::new();
            parts.push(q);
            proof {
                lemma_views_push(Seq::empty(), parts@[0]);
                assert(Seq::<Query>::empty().push(parts@[0]) =~= parts@);
                assert(views_of(Seq::<Query>::empty(), 0) =~= Seq::<QueryView>::empty());
                assert(views_of(parts@, 1) =~= seq![qv]);
            }
            and_more(tokens, n, parts)
        },
    }
}

fn and_more(tokens: &Vec<Token>, pos: usize, parts: Vec<Query>) -> (r: Result<
    (Query, usize),
    ParseError,
>)
    requires
        0 < pos <= tokens@.len(),
        parts@.len() >= 1,
    ensures
        step_view(r) == and_rest(lexemes_of(tokens@), pos as int, views_of(parts@, parts@.len())),
        progressed(r, pos as int - 1, tokens@.len() as int),
    decreases tokens@.len() - pos, 2int,
{
    let ghost t = lexemes_of(tokens@);
    let more = pos < tokens.len() && match &tokens[pos] {
        Token::Term(_) | Token::Minus | Token::LParen => true,
        _ => false,
    };
    proof {
        if pos < tokens@.len() {
            assert(t[pos as int] == tokens@[pos as int]@);
        }
    }
    if more {
        match unary(tokens, pos) {
            Err(e) => Err(e),
            Ok((q, n)) => {
                let mut parts = parts;
                let ghost before = parts@;
                parts.push(q);
                proof {
                    lemma_views_push(before, parts@[before.len() as int]);
                    assert(before.push(parts@[before.len() as int]) =~= parts@);
                }
                and_more(tokens, n, parts)
            },
        }
    } else {
        Ok((gather(parts, false), pos))
    }
}

/// Several queries as one: the only one if there is one, else their
/// conjunction or (if `any`) their disjunction.
fn gather(parts: Vec<Query>, any: bool) -> (q: Query)
    requires
        parts@.len() >= 1,
    ensures
        q@ == if any {
            any_of(views_of(parts@, parts@.len()))
        } else {
            all_of(views_of(parts@, parts@.len()))
        },
{
    if parts.len() == 1 {
        let ghost whole = parts@;
        let mut parts = parts;
        let only = parts.pop();
        match only {
            Some(q) => {
                proof {
                    assert(whole =~= parts@.push(q));
                    assert(whole[0] == q);
                    assert(views_of(whole, 1) == views_of(whole, 0).push(query_view(whole[0])));
                    assert(views_of(whole, 1)[0] == query_view(whole[0]));
                }
                q
            },
            None => {
                proof {
                    assert(false);
                }
                Query::And(Vec::new())
            },
        }
    } else if any {
        proof {
            lemma_views_len(parts@, parts@.len());
        }
        Query::Or(parts)
    } else {
        proof {
            lemma_views_len(parts@, parts@.len());
        }
        Query::And(parts)
    }
}

fn or_expr(tokens: &Vec<Token>, p: usize) -> (r: Result<(Query, usize), ParseError>)
    requires
        p <= tokens@.len(),
    ensures
        step_view(r) == or_spec(lexemes_of(tokens@), p as int),
        progressed(r, p as int, tokens@.len() as int),
    decreases tokens@.len() - p, 3int,
{
    match and_expr(tokens, p) {
        Err(e) => Err(e),
        Ok((q, n)) => {
            let ghost qv = q@;
            let mut parts: Vec<Query> = Vec::new();
            parts.push(q);
            proof {
                lemma_views_push(Seq::empty(), parts@[0]);
                assert(Seq::<Query>::empty().push(parts@[0]) =~= parts@);
                assert(views_of(Seq::<Query>::empty(), 0) =~= Seq::<QueryView>::empty());
                assert(views_of(parts@, 1) =~= seq![qv]);
            }
            or_more(tokens, n, parts)
        },
    }
}

fn or_more(tokens: &Vec<Token>, pos: usize, parts: Vec<Query>) -> (r: Result<
    (Query, usize),
    ParseError,
>)
    requires
        0 < pos <= tokens@.len(),
        parts@.len() >= 1,
    ensures
        step_view(r) == or_rest(lexemes_of(tokens@), pos as int, views_of(parts@, parts@.len())),
        progressed(r, pos as int - 1, tokens@.len() as int),
    decreases tokens@.len() - pos, 4int,
{
    let ghost t = lexemes_of(tokens@);
    let more = pos < tokens.len() && match &tokens[pos] {
        Token::Or => true,
        _ => false,
    };
    proof {
        if pos < tokens@.len() {
            assert(t[pos as int] == tokens@[pos as int]@);
        }
    }
    if more {
        match and_expr(tokens, pos + 1) {
            Err(e) => Err(e),
            Ok((q, n)) => {
                let mut parts = parts;
                let ghost before = parts@;
                parts.push(q);
                proof {
                    lemma_views_push(before, parts@[before.len() as int]);
                    assert(before.push(parts@[before.len() as int]) =~= parts@);
                }
                or_more(tokens, n, parts)
            },
        }
    } else {
        Ok((gather(parts, true), pos))
    }
}

/// Parses a query in the supported Scryfall syntax, as [`parse_spec`]
/// says.
pub fn parse(input: &str) -> (r: Result<Query, ParseError>)
    ensures
        match r {
            Ok(q) => parse_spec(input@) == Ok::<QueryView, ParseErrorView>(q@),
            Err(e) => parse_spec(input@) == Err::<QueryView, ParseErrorView>(e@),
        },
{
    let chars = chars_of(input);
    let tokens = lex(chars.as_slice());
    if tokens.len() == 0 {
        return Err(ParseError::Empty);
    }
    match or_expr(&tokens, 0) {
        Err(e) => Err(e),
        Ok((q, n)) => {
            if n >= tokens.len() {
                Ok(q)
            } else {
                Err(ParseError::UnbalancedParen)
            }
        },
    }
}


/// What `{:?}` prints for a string: the text in double quotes, with quotes,
/// backslashes and unprintable characters escaped. Rust's escaping rules
/// are not restated here.
pub uninterp spec fn debug_text(s: Seq<char>) -> Seq<char>;

/// `<str as Debug>::fmt`, through `format!`.
#[verifier::external_body]
pub(crate) fn debug_quoted(s: &str) -> (r: String)
    ensures
        r@ == debug_text(s@),
{
    format!("{s:?}")
}

fn append(out: &mut Vec<char>, s: &str)
    ensures
        final(out)@ == old(out)@ + s@,
{
    let c = chars_of(s);
    let mut i: usize = 0;
    let ghost start = out@;
    while i < c.len()
        invariant
            i <= c@.len(),
            c@ == s@,
            out@ == start + c@.subrange(0, i as int),
        decreases c@.len() - i,
    {
        out.push(c[i]);
        i += 1;
        proof {
            assert(out@ =~= start + c@.subrange(0, i as int));
        }
    }
    proof {
        assert(c@.subrange(0, c@.len() as int) =~= c@);
    }
}

/// The text a refusal reads as. Each names what it refused; where the
/// accepted values are a closed set, the message lists them.
pub open spec fn message_spec(e: ParseErrorView) -> Seq<char> {
    match e {
        ParseErrorView::Empty => "empty query"@,
        ParseErrorView::UnknownKey { key, term } => "unknown search key "@ + debug_text(key)
            + " in term "@ + debug_text(term)
            + " (supported: t, o, name, kw, cat, otag, mv, cmc, id, f, r, is)"@,
        ParseErrorView::UnknownIsProperty { value } => "unknown is: property "@ + debug_text(value)
            + " (supported: permanent, spell, historic, vanilla)"@,
        ParseErrorView::NoComparison { key, term } => debug_text(term) + ": "@ + key
            + ": asks whether a card has a value, not how it compares. Write "@ + key
            + ":value, or -"@ + key + ":value for the cards without it"@,
        ParseErrorView::BadNumber { term, value } => debug_text(term) + ": "@ + debug_text(value)
            + " is not a number"@,
        ParseErrorView::BadColors { term, value } => debug_text(term) + ": "@ + debug_text(value)
            + " is not a colour identity (use letters from wubrg, or c)"@,
        ParseErrorView::BadFormat { value } => debug_text(value) + " is not a format (formats: standard, future, historic, timeless, gladiator, pioneer, modern, legacy, pauper, vintage, penny, commander, oathbreaker, standardbrawl, brawl, competitivebrawl, alchemy, paupercommander, duel, oldschool, premodern, predh, tlr)"@,
        ParseErrorView::BadRarity { value } => debug_text(value)
            + " is not a rarity (rarities: common, uncommon, rare, special, mythic, bonus)"@,
        ParseErrorView::MissingValue { term } => debug_text(term)
            + ": missing a value after the operator"@,
        ParseErrorView::UnbalancedParen => "unbalanced parenthesis"@,
        ParseErrorView::Unexpected(t) => "unexpected "@ + debug_text(t),
    }
}

impl ParseError {
    /// The text this refusal reads as, as [`message_spec`] gives it.
    pub fn message(&self) -> (r: String)
        ensures
            r@ == message_spec(self@),
    {
        let mut out: Vec<char> = Vec::new();
        match self {
            ParseError::Empty => append(&mut out, "empty query"),
            ParseError::UnknownKey { key, term } => {
                append(&mut out, "unknown search key ");
                append(&mut out, debug_quoted(key.as_str()).as_str());
                append(&mut out, " in term ");
                append(&mut out, debug_quoted(term.as_str()).as_str());
                append(&mut out, " (supported: t, o, name, kw, cat, otag, mv, cmc, id, f, r, is)");
            },
            ParseError::UnknownIsProperty { value } => {
                append(&mut out, "unknown is: property ");
                append(&mut out, debug_quoted(value.as_str()).as_str());
                append(&mut out, " (supported: permanent, spell, historic, vanilla)");
            },
            ParseError::NoComparison { key, term } => {
                append(&mut out, debug_quoted(term.as_str()).as_str());
                append(&mut out, ": ");
                append(&mut out, key.as_str());
                append(&mut out, ": asks whether a card has a value, not how it compares. Write ");
                append(&mut out, key.as_str());
                append(&mut out, ":value, or -");
                append(&mut out, key.as_str());
                append(&mut out, ":value for the cards without it");
            },
            ParseError::BadNumber { term, value } => {
                append(&mut out, debug_quoted(term.as_str()).as_str());
                append(&mut out, ": ");
                append(&mut out, debug_quoted(value.as_str()).as_str());
                append(&mut out, " is not a number");
            },
            ParseError::BadColors { term, value } => {
                append(&mut out, debug_quoted(term.as_str()).as_str());
                append(&mut out, ": ");
                append(&mut out, debug_quoted(value.as_str()).as_str());
                append(&mut out, " is not a colour identity (use letters from wubrg, or c)");
            },
            ParseError::BadFormat { value } => {
                append(&mut out, debug_quoted(value.as_str()).as_str());
                append(&mut out, " is not a format (formats: standard, future, historic, timeless, gladiator, pioneer, modern, legacy, pauper, vintage, penny, commander, oathbreaker, standardbrawl, brawl, competitivebrawl, alchemy, paupercommander, duel, oldschool, premodern, predh, tlr)");
            },
            ParseError::BadRarity { value } => {
                append(&mut out, debug_quoted(value.as_str()).as_str());
                append(
                    &mut out,
                    " is not a rarity (rarities: common, uncommon, rare, special, mythic, bonus)",
                );
            },
            ParseError::MissingValue { term } => {
                append(&mut out, debug_quoted(term.as_str()).as_str());
                append(&mut out, ": missing a value after the operator");
            },
            ParseError::UnbalancedParen => append(&mut out, "unbalanced parenthesis"),
            ParseError::Unexpected(t) => {
                append(&mut out, "unexpected ");
                append(&mut out, debug_quoted(t.as_str()).as_str());
            },
        }
        string_of(out.as_slice())
    }
}

} // verus!
