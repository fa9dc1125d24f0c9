//! Source code as a list of tokens, and templates of it.
//!
//! A template is text in which the tokens stand apart, and in which a token that is a lone `$`
//! is a hole. Filling a template puts the tokens of its arguments, in order, into its holes.
use crate::text::{decimal, same_text};
use vstd::prelude::*;

verus! {

/// A token of the generated code.
pub enum Token {
    /// An identifier, a lifetime, a delimiter, an operator, or a longer run of source text.
    Text(String),
    /// A string literal, by the text that it stands for.
    Str(String),
    /// A character literal, by the character that it stands for.
    Char(char),
    /// An integer literal without a suffix.
    Int(usize),
}

/// What a [`Token`] is.
pub enum TokenSpec {
    Text(Seq<char>),
    Str(Seq<char>),
    Char(char),
    Int(nat),
}

impl View for Token {
    type V = TokenSpec;

    open spec fn view(&self) -> TokenSpec {
        match self {
            Token::Text(s) => TokenSpec::Text(s@),
            Token::Str(s) => TokenSpec::Str(s@),
            Token::Char(c) => TokenSpec::Char(*c),
            Token::Int(n) => TokenSpec::Int(*n as nat),
        }
    }
}

impl Clone for Token {
    fn clone(&self) -> (r: Self)
        ensures
            r@ == self@,
    {
        match self {
            Token::Text(s) => Token::Text(s.clone()),
            Token::Str(s) => Token::Str(s.clone()),
            Token::Char(c) => Token::Char(*c),
            Token::Int(n) => Token::Int(*n),
        }
    }
}

impl Token {
    /// The token as source text.
    pub fn text(&self) -> (r: String)
        ensures
            r@ == token_text(self@),
    {
        match self {
            Token::Text(s) => s.clone(),
            Token::Str(s) => print_string(s.as_str()),
            Token::Char(c) => print_char(*c),
            Token::Int(n) => print_usize(*n),
        }
    }
}

/// Source code.
pub struct Src {
    tokens: Vec<Token>,
}

/// What a [`Src`] is: its tokens in order.
pub type SrcSpec = Seq<TokenSpec>;

impl View for Src {
    type V = SrcSpec;

    closed spec fn view(&self) -> SrcSpec {
        self.tokens@.map_values(|t: Token| t@)
    }
}

impl Clone for Src {
    fn clone(&self) -> (r: Self)
        ensures
            r@ == self@,
    {
        let mut tokens: Vec<Token> = Vec::new();
        let mut i: usize = 0;
        while i < self.tokens.len()
            invariant
                i <= self.tokens.len(),
                tokens.len() == i,
                forall|j: int| 0 <= j < i ==> #[trigger] tokens@[j]@ == self.tokens@[j]@,
            decreases self.tokens.len() - i,
        {
            tokens.push(self.tokens[i].clone());
            i += 1;
        }
        let r = Src { tokens };
        assert(r@ =~= self@);
        r
    }
}

/// The source code that is a single run of text.
pub open spec fn word(text: Seq<char>) -> SrcSpec {
    seq![TokenSpec::Text(text)]
}

/// The source code that is a single string literal.
pub open spec fn string(text: Seq<char>) -> SrcSpec {
    seq![TokenSpec::Str(text)]
}

/// The source code that is a single integer literal.
pub open spec fn number(n: nat) -> SrcSpec {
    seq![TokenSpec::Int(n)]
}

impl Src {
    /// No source code at all.
    pub fn new() -> (r: Src)
        ensures
            r@ == Seq::<TokenSpec>::empty(),
    {
        let r = Src { tokens: Vec::new() };
        assert(r@ =~= Seq::empty());
        r
    }

    /// A single token.
    pub fn from_token(token: Token) -> (r: Src)
        ensures
            r@ == seq![token@],
    {
        let mut r = Src::new();
        r.push(token);
        assert(r@ =~= seq![token@]);
        r
    }

    /// An identifier.
    pub fn ident(name: &str) -> (r: Src)
        ensures
            r@ == word(name@),
    {
        Src::from_token(Token::Text(name.to_owned()))
    }

    /// A string literal that stands for `text`.
    pub fn string(text: &str) -> (r: Src)
        ensures
            r@ == string(text@),
    {
        Src::from_token(Token::Str(text.to_owned()))
    }

    /// An integer literal.
    pub fn number(n: usize) -> (r: Src)
        ensures
            r@ == number(n as nat),
    {
        Src::from_token(Token::Int(n))
    }

    /// How many tokens there are.
    pub fn len(&self) -> (r: usize)
        ensures
            r == self@.len(),
    {
        self.tokens.len()
    }

    /// The token at position `i`.
    pub fn token(&self, i: usize) -> (r: &Token)
        requires
            i < self@.len(),
        ensures
            r@ == self@[i as int],
    {
        &self.tokens[i]
    }

    /// Adds a token at the end.
    pub fn push(&mut self, token: Token)
        ensures
            final(self)@ == old(self)@.push(token@),
    {
        self.tokens.push(token);
        assert(self@ =~= old(self)@.push(token@));
    }

    /// Adds the tokens of `other` at the end.
    pub fn append(&mut self, other: Src)
        ensures
            final(self)@ == old(self)@ + other@,
    {
        let mut other = other;
        let ghost before = other@;
        self.tokens.append(&mut other.tokens);
        assert(self@ =~= old(self)@ + before);
    }

    /// The tokens of `self`, and after them those of `other`.
    pub fn plus(self, other: Src) -> (r: Src)
        ensures
            r@ == self@ + other@,
    {
        let mut r = self;
        r.append(other);
        r
    }

    /// The source text, with a space between any two tokens.
    pub fn to_ugly_string(&self) -> (r: String)
        ensures
            r@ == ugly(self@),
    {
        let mut r = String::new();
        let mut i: usize = 0;
        assert(self@.take(0) =~= Seq::empty());
        while i < self.tokens.len()
            invariant
                i <= self.tokens.len(),
                r@ == ugly(self@.take(i as int)),
            decreases self.tokens.len() - i,
        {
            assert(self@.take(i + 1).drop_last() =~= self@.take(i as int));
            if i > 0 {
                r.push(' ');
            }
            let text = self.tokens[i].text();
            r.append(text.as_str());
            i += 1;
            assert(r@ =~= ugly(self@.take(i as int)));
        }
        assert(self@.take(self@.len() as int) =~= self@);
        r
    }

    /// The source text, in which a literal stands right beside its neighbours.
    pub fn to_pretty_string(&self) -> (r: String)
        ensures
            r@ == pretty(self@),
    {
        let mut r = String::new();
        let mut i: usize = 0;
        assert(self@.take(0) =~= Seq::empty());
        while i < self.tokens.len()
            invariant
                i <= self.tokens.len(),
                r@ == pretty(self@.take(i as int)),
            decreases self.tokens.len() - i,
        {
            assert(self@.take(i + 1).drop_last() =~= self@.take(i as int));
            if i > 0 {
                match (&self.tokens[i - 1], &self.tokens[i]) {
                    (Token::Text(_), Token::Text(_)) => {
                        r.push(' ');
                    },
                    _ => {},
                }
            }
            let text = self.tokens[i].text();
            r.append(text.as_str());
            i += 1;
            assert(r@ =~= pretty(self@.take(i as int)));
        }
        assert(self@.take(self@.len() as int) =~= self@);
        r
    }
}

/// The source text of a token.
pub open spec fn token_text(t: TokenSpec) -> Seq<char> {
    match t {
        TokenSpec::Text(s) => s,
        TokenSpec::Str(s) => string_literal(s),
        TokenSpec::Char(c) => char_literal(c),
        TokenSpec::Int(n) => decimal(n),
    }
}

/// The text of the tokens, with a space between any two of them.
pub open spec fn ugly(s: SrcSpec) -> Seq<char>
    decreases s.len(),
{
    if s.len() == 0 {
        Seq::empty()
    } else if s.len() == 1 {
        token_text(s[0])
    } else {
        ugly(s.drop_last()).push(' ') + token_text(s.last())
    }
}

/// The text of the tokens, with a space between any two that are no literals.
pub open spec fn pretty(s: SrcSpec) -> Seq<char>
    decreases s.len(),
{
    if s.len() == 0 {
        Seq::empty()
    } else if s.len() == 1 {
        token_text(s[0])
    } else if s[s.len() - 2] is Text && s.last() is Text {
        pretty(s.drop_last()).push(' ') + token_text(s.last())
    } else {
        pretty(s.drop_last()) + token_text(s.last())
    }
}

/// How `proc_macro2::Literal::string` prints the literal that stands for `text`.
pub uninterp spec fn string_literal(text: Seq<char>) -> Seq<char>;

/// `proc_macro2::Literal::string`, printed. The quotes and escapes that it puts are not spelled
/// out here: all that is claimed is that they depend on nothing but the text. That holds without
/// the feature `proc-macro`, with which `proc_macro2` may ask a compiler instead.
#[verifier::external_body]
fn print_string(text: &str) -> (r: String)
    ensures
        r@ == string_literal(text@),
{
    proc_macro2::Literal::string(text).to_string()
}

/// How `proc_macro2::Literal::character` prints the literal that stands for `c`.
pub uninterp spec fn char_literal(c: char) -> Seq<char>;

/// `proc_macro2::Literal::character`, printed. The quotes and escapes that it puts are not spelled
/// out here: all that is claimed is that they depend on nothing but the character. That holds
/// without the feature `proc-macro`.
#[verifier::external_body]
fn print_char(c: char) -> (r: String)
    ensures
        r@ == char_literal(c),
{
    proc_macro2::Literal::character(c).to_string()
}

/// `proc_macro2::Literal::usize_unsuffixed`, printed: the decimal numeral of `n`.
#[verifier::external_body]
fn print_usize(n: usize) -> (r: String)
    ensures
        r@ == decimal(n as nat),
{
    proc_macro2::Literal::usize_unsuffixed(n).to_string()
}

/// Whether `proc_macro2` can split some text into tokens.
pub uninterp spec fn lexes(text: Seq<char>) -> bool;

/// `proc_macro2::TokenStream::from_str`: whether the text is a list of tokens, in which each
/// delimiter that is opened is closed. Which texts are is not spelled out here: all that is claimed
/// is that it depends on nothing but the text. That holds without the feature `proc-macro`.
#[verifier::external_body]
fn can_lex(text: &str) -> (r: bool)
    ensures
        r == lexes(text@),
{
    text.parse::<proc_macro2::TokenStream>().is_ok()
}

impl Src {
    /// Source code that is given as text, where it can be split into tokens.
    pub fn parse(text: &str) -> (r: Option<Src>)
        ensures
            r is Some <==> lexes(text@),
            r matches Some(src) ==> src@ == word(text@),
    {
        if can_lex(text) {
            Some(Src::ident(text))
        } else {
            None
        }
    }
}

/// Whether a character keeps the tokens of a template apart.
pub open spec fn is_blank(c: char) -> bool {
    c == ' ' || c == '\n'
}

/// The words of `text` that a blank has ended, and the word that none has ended yet.
pub open spec fn split(text: Seq<char>) -> (Seq<Seq<char>>, Seq<char>)
    decreases text.len(),
{
    if text.len() == 0 {
        (Seq::empty(), Seq::empty())
    } else {
        let (done, open) = split(text.drop_last());
        if !is_blank(text.last()) {
            (done, open.push(text.last()))
        } else if open.len() == 0 {
            (done, open)
        } else {
            (done.push(open), Seq::empty())
        }
    }
}

/// The words of `text`: its longest runs without a blank.
pub open spec fn words(text: Seq<char>) -> Seq<Seq<char>> {
    let (done, open) = split(text);
    if open.len() == 0 {
        done
    } else {
        done.push(open)
    }
}

/// How many of the first `n` words are holes.
pub open spec fn holes(ws: Seq<Seq<char>>, n: nat) -> nat
    decreases n,
{
    if n == 0 {
        0
    } else {
        holes(ws, (n - 1) as nat) + if ws[n - 1] == seq!['$'] {
            1nat
        } else {
            0nat
        }
    }
}

/// The first `n` words as tokens, with each hole filled by the argument whose turn it is.
pub open spec fn filled(ws: Seq<Seq<char>>, args: Seq<SrcSpec>, n: nat) -> SrcSpec
    decreases n,
{
    if n == 0 {
        Seq::empty()
    } else {
        let before = filled(ws, args, (n - 1) as nat);
        if ws[n - 1] != seq!['$'] {
            before.push(TokenSpec::Text(ws[n - 1]))
        } else if holes(ws, (n - 1) as nat) < args.len() {
            before + args[holes(ws, (n - 1) as nat) as int]
        } else {
            before
        }
    }
}

/// The template with its holes filled.
pub open spec fn fill(template: Seq<char>, args: Seq<SrcSpec>) -> SrcSpec {
    filled(words(template), args, words(template).len())
}

pub open spec fn texts(v: Seq<String>) -> Seq<Seq<char>> {
    v.map_values(|s: String| s@)
}

pub open spec fn srcs(v: Seq<Src>) -> Seq<SrcSpec> {
    v.map_values(|s: Src| s@)
}

/// Splits a template into its words.
fn template_words(text: &str) -> (r: Vec<String>)
    ensures
        texts(r@) == words(text@),
{
    let mut done: Vec<String> = Vec::new();
    let mut open = String::new();
    let mut open_is_empty: bool = true;
    assert(text@.take(0) =~= Seq::<char>::empty());
    assert(texts(done@) =~= Seq::empty());
    for c in it: text.chars()
        invariant
            it.seq() == text@,
            (texts(done@), open@) == split(text@.take(it.index())),
            open_is_empty == (open@.len() == 0),
    {
        assert(text@.take(it.index() + 1).drop_last() =~= text@.take(it.index()));
        let ghost before = done@;
        if c != ' ' && c != '\n' {
            open.push(c);
            open_is_empty = false;
        } else if !open_is_empty {
            done.push(open);
            assert(texts(done@) =~= texts(before).push(open@));
            open = String::new();
            open_is_empty = true;
        }
    }
    assert(text@.take(text@.len() as int) =~= text@);
    if !open_is_empty {
        let ghost before = done@;
        done.push(open);
        assert(texts(done@) =~= texts(before).push(open@));
    }
    done
}

/// Fills the holes of a template.
pub fn quote(template: &str, args: Vec<Src>) -> (r: Src)
    ensures
        r@ == fill(template@, srcs(args@)),
{
    let ws = template_words(template);
    let mut r = Src::new();
    let mut hole: usize = 0;
    let mut i: usize = 0;
    while i < ws.len()
        invariant
            i <= ws.len(),
            texts(ws@) == words(template@),
            hole <= i,
            hole == holes(texts(ws@), i as nat),
            r@ == filled(texts(ws@), srcs(args@), i as nat),
        decreases ws.len() - i,
    {
        let is_hole = same_text(ws[i].as_str(), "$");
        proof {
            reveal_strlit("$");
            assert("$"@ =~= seq!['$']);
            assert(texts(ws@)[i as int] == ws@[i as int]@);
        }
        if !is_hole {
            r.push(Token::Text(ws[i].clone()));
        } else {
            if hole < args.len() {
                r.append(args[hole].clone());
            }
            hole += 1;
        }
        i += 1;
    }
    r
}

/// A template without holes.
pub fn quote0(template: &str) -> (r: Src)
    ensures
        r@ == fill(template@, Seq::empty()),
{
    let args: Vec<Src> = Vec::new();
    assert(srcs(args@) =~= Seq::empty());
    quote(template, args)
}

/// A template with one hole.
pub fn quote1(template: &str, a: Src) -> (r: Src)
    ensures
        r@ == fill(template@, seq![a@]),
{
    let args: Vec<Src> = vec![a];
    assert(srcs(args@) =~= seq![a@]);
    quote(template, args)
}

/// A template with two holes.
pub fn quote2(template: &str, a: Src, b: Src) -> (r: Src)
    ensures
        r@ == fill(template@, seq![a@, b@]),
{
    let args: Vec<Src> = vec![a, b];
    assert(srcs(args@) =~= seq![a@, b@]);
    quote(template, args)
}

/// A template with three holes.
pub fn quote3(template: &str, a: Src, b: Src, c: Src) -> (r: Src)
    ensures
        r@ == fill(template@, seq![a@, b@, c@]),
{
    let args: Vec<Src> = vec![a, b, c];
    assert(srcs(args@) =~= seq![a@, b@, c@]);
    quote(template, args)
}

/// A template with four holes.
pub fn quote4(template: &str, a: Src, b: Src, c: Src, d: Src) -> (r: Src)
    ensures
        r@ == fill(template@, seq![a@, b@, c@, d@]),
{
    let args: Vec<Src> = vec![a, b, c, d];
    assert(srcs(args@) =~= seq![a@, b@, c@, d@]);
    quote(template, args)
}

/// A template with five holes.
pub fn quote5(template: &str, a: Src, b: Src, c: Src, d: Src, e: Src) -> (r: Src)
    ensures
        r@ == fill(template@, seq![a@, b@, c@, d@, e@]),
{
    let args: Vec<Src> = vec![a, b, c, d, e];
    assert(srcs(args@) =~= seq![a@, b@, c@, d@, e@]);
    quote(template, args)
}

/// The parts `f(0)`, ..., `f(n - 1)`, one after the other.
pub open spec fn repeated(n: nat, f: spec_fn(int) -> SrcSpec) -> SrcSpec
    decreases n,
{
    if n == 0 {
        Seq::empty()
    } else {
        repeated((n - 1) as nat, f) + f(n - 1)
    }
}

/// The parts `f(0)`, ..., `f(n - 1)`, with a comma between any two.
pub open spec fn listed(n: nat, f: spec_fn(int) -> SrcSpec) -> SrcSpec
    decreases n,
{
    if n == 0 {
        Seq::empty()
    } else if n == 1 {
        f(0)
    } else {
        listed((n - 1) as nat, f) + word(","@) + f(n - 1)
    }
}

impl Src {
    /// Adds a part of a list, after a comma unless it is the first.
    pub fn list(&mut self, part: Src, first: bool)
        ensures
            first ==> final(self)@ == old(self)@ + part@,
            !first ==> final(self)@ == old(self)@ + word(","@) + part@,
    {
        if !first {
            self.append(Src::ident(","));
        }
        self.append(part);
    }
}

} // verus!
