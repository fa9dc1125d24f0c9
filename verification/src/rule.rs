//! Grammar rules, and the numbers that tell one rule from another.
use crate::pattern::{
    code_point_injective, code_points, code_points_injective, code_points_of, PatKey, RustInputPat,
};
use crate::text::{decimal, decimal_injective, decimal_string};
use crate::tokens::{Src, SrcSpec, Token, TokenSpec};
use std::rc::Rc;
use vstd::prelude::*;

verus! {

/// How a separator stands between the elements of a repetition.
#[derive(Clone, Copy, PartialEq, Eq, Structural)]
pub enum SepKind {
    /// Between any two elements.
    Simple,
    /// Between any two elements, and perhaps once more at the end.
    Trailing,
}

/// A rule of a grammar.
pub enum Rule<Pat> {
    /// Nothing.
    Empty,
    /// Input that matches a pattern.
    Eat(Pat),
    /// What the rule of that name matches.
    Call(String),
    /// One rule, then another.
    Concat(Rc<Rule<Pat>>, Rc<Rule<Pat>>),
    /// One of several rules.
    Or(Vec<Rc<Rule<Pat>>>),
    /// A rule, or nothing.
    Opt(Rc<Rule<Pat>>),
    /// A rule any number of times, with a separator or without.
    RepeatMany(Rc<Rule<Pat>>, Option<(Rc<Rule<Pat>>, SepKind)>),
    /// A rule at least once, with a separator or without.
    RepeatMore(Rc<Rule<Pat>>, Option<(Rc<Rule<Pat>>, SepKind)>),
}

/// What a pattern is to a rule: its identity, and the expression that matches it.
pub struct PatSpec {
    pub key: Seq<usize>,
    pub matcher: SrcSpec,
}

/// What a [`Rule`] is.
pub enum RuleSpec {
    Empty,
    Eat(PatSpec),
    Call(Seq<char>),
    Concat(Box<RuleSpec>, Box<RuleSpec>),
    Or(Seq<RuleSpec>),
    Opt(Box<RuleSpec>),
    RepeatMany(Box<RuleSpec>, Option<(Box<RuleSpec>, SepKind)>),
    RepeatMore(Box<RuleSpec>, Option<(Box<RuleSpec>, SepKind)>),
}

/// `left`, then `right`.
pub open spec fn concat(left: RuleSpec, right: RuleSpec) -> RuleSpec {
    RuleSpec::Concat(Box::new(left), Box::new(right))
}

/// `rule`, or nothing.
pub open spec fn optional(rule: RuleSpec) -> RuleSpec {
    RuleSpec::Opt(Box::new(rule))
}

/// `elem` any number of times.
pub open spec fn many(elem: RuleSpec) -> RuleSpec {
    RuleSpec::RepeatMany(Box::new(elem), None)
}

/// `elem` at least once.
pub open spec fn more(elem: RuleSpec) -> RuleSpec {
    RuleSpec::RepeatMore(Box::new(elem), None)
}

/// `elem` any number of times, with `sep` as separator.
pub open spec fn many_sep(elem: RuleSpec, sep: RuleSpec, kind: SepKind) -> RuleSpec {
    RuleSpec::RepeatMany(Box::new(elem), Some((Box::new(sep), kind)))
}

/// `elem` at least once, with `sep` as separator.
pub open spec fn more_sep(elem: RuleSpec, sep: RuleSpec, kind: SepKind) -> RuleSpec {
    RuleSpec::RepeatMore(Box::new(elem), Some((Box::new(sep), kind)))
}

/// What some rules are.
pub open spec fn models<Pat: RustInputPat + PatKey>(rules: Seq<Rc<Rule<Pat>>>) -> Seq<RuleSpec> {
    Seq::new(rules.len(), |i: int| rules[i].model())
}

impl<Pat: RustInputPat + PatKey> Rule<Pat> {
    /// What the rule is.
    pub open spec fn model(&self) -> RuleSpec
        decreases self,
    {
        match self {
            Rule::Empty => RuleSpec::Empty,
            Rule::Eat(pat) => RuleSpec::Eat(
                PatSpec { key: pat.key_spec(), matcher: pat.matcher_spec() },
            ),
            Rule::Call(name) => RuleSpec::Call(name@),
            Rule::Concat(left, right) => concat(left.model(), right.model()),
            Rule::Or(cases) => RuleSpec::Or(
                Seq::new(
                    cases@.len(),
                    |i: int|
                        if 0 <= i < cases@.len() {
                            cases@[i].model()
                        } else {
                            RuleSpec::Empty
                        },
                ),
            ),
            Rule::Opt(rule) => optional(rule.model()),
            Rule::RepeatMany(elem, None) => many(elem.model()),
            Rule::RepeatMany(elem, Some((sep, kind))) => many_sep(elem.model(), sep.model(), *kind),
            Rule::RepeatMore(elem, None) => more(elem.model()),
            Rule::RepeatMore(elem, Some((sep, kind))) => more_sep(elem.model(), sep.model(), *kind),
        }
    }
}

/// A list of numbers, written so that its end can be seen.
pub open spec fn nums_code(nums: Seq<usize>, i: int) -> Seq<usize>
    decreases nums.len() - i,
{
    if i >= nums.len() {
        seq![0usize]
    } else {
        seq![1usize, nums[i]] + nums_code(nums, i + 1)
    }
}

pub open spec fn text_code(text: Seq<char>) -> Seq<usize> {
    nums_code(code_points(text), 0)
}

pub open spec fn token_code(t: TokenSpec) -> Seq<usize> {
    match t {
        TokenSpec::Text(s) => seq![0usize] + text_code(s),
        TokenSpec::Str(s) => seq![1usize] + text_code(s),
        TokenSpec::Char(c) => seq![2usize, c as usize],
        TokenSpec::Int(n) => seq![3usize] + text_code(decimal(n)),
    }
}

pub open spec fn tokens_code(ts: SrcSpec, i: int) -> Seq<usize>
    decreases ts.len() - i,
{
    if i >= ts.len() {
        seq![0usize]
    } else {
        seq![1usize] + token_code(ts[i]) + tokens_code(ts, i + 1)
    }
}

/// The numbers that tell a rule from any other.
pub open spec fn code(r: RuleSpec) -> Seq<usize>
    decreases r, 0int,
{
    match r {
        RuleSpec::Empty => seq![0usize],
        RuleSpec::Eat(pat) => seq![1usize] + nums_code(pat.key, 0) + tokens_code(pat.matcher, 0),
        RuleSpec::Call(name) => seq![2usize] + text_code(name),
        RuleSpec::Concat(left, right) => seq![3usize] + code(*left) + code(*right),
        RuleSpec::Or(cases) => seq![4usize] + cases_code(cases, 0),
        RuleSpec::Opt(rule) => seq![5usize] + code(*rule),
        RuleSpec::RepeatMany(elem, None) => seq![6usize] + code(*elem),
        RuleSpec::RepeatMany(elem, Some((sep, SepKind::Simple))) => seq![7usize] + code(*elem)
            + code(*sep),
        RuleSpec::RepeatMany(elem, Some((sep, SepKind::Trailing))) => seq![8usize] + code(*elem)
            + code(*sep),
        RuleSpec::RepeatMore(elem, None) => seq![9usize] + code(*elem),
        RuleSpec::RepeatMore(elem, Some((sep, SepKind::Simple))) => seq![10usize] + code(*elem)
            + code(*sep),
        RuleSpec::RepeatMore(elem, Some((sep, SepKind::Trailing))) => seq![11usize] + code(*elem)
            + code(*sep),
    }
}

pub open spec fn cases_code(cases: Seq<RuleSpec>, i: int) -> Seq<usize>
    decreases cases, cases.len() - i,
{
    if i < 0 || i >= cases.len() {
        seq![0usize]
    } else {
        seq![1usize] + code(cases[i]) + cases_code(cases, i + 1)
    }
}

fn push_nums(out: &mut Vec<usize>, nums: &Vec<usize>)
    ensures
        final(out)@ == old(out)@ + nums_code(nums@, 0),
{
    let mut i: usize = 0;
    while i < nums.len()
        invariant
            i <= nums.len(),
            out@ + nums_code(nums@, i as int) == old(out)@ + nums_code(nums@, 0),
        decreases nums.len() - i,
    {
        let ghost before = out@;
        out.push(1);
        out.push(nums[i]);
        i += 1;
        assert(out@ + nums_code(nums@, i as int) =~= before + nums_code(nums@, i - 1));
    }
    out.push(0);
    assert(out@ =~= old(out)@ + nums_code(nums@, 0));
}

fn push_text(out: &mut Vec<usize>, text: &str)
    ensures
        final(out)@ == old(out)@ + text_code(text@),
{
    let points = code_points_of(text);
    push_nums(out, &points);
}

fn push_token(out: &mut Vec<usize>, token: &Token)
    ensures
        final(out)@ == old(out)@ + token_code(token@),
{
    match token {
        Token::Text(s) => {
            out.push(0);
            push_text(out, s.as_str());
        },
        Token::Str(s) => {
            out.push(1);
            push_text(out, s.as_str());
        },
        Token::Char(c) => {
            out.push(2);
            out.push(*c as usize);
        },
        Token::Int(n) => {
            out.push(3);
            let digits = decimal_string(*n);
            push_text(out, digits.as_str());
        },
    }
    assert(out@ =~= old(out)@ + token_code(token@));
}

fn push_tokens(out: &mut Vec<usize>, src: &Src)
    ensures
        final(out)@ == old(out)@ + tokens_code(src@, 0),
{
    let mut i: usize = 0;
    while i < src.len()
        invariant
            i <= src@.len(),
            out@ + tokens_code(src@, i as int) == old(out)@ + tokens_code(src@, 0),
        decreases src@.len() - i,
    {
        let ghost before = out@;
        out.push(1);
        push_token(out, src.token(i));
        i += 1;
        assert(out@ + tokens_code(src@, i as int) =~= before + tokens_code(src@, i - 1));
    }
    out.push(0);
    assert(out@ =~= old(out)@ + tokens_code(src@, 0));
}

impl<Pat: RustInputPat + PatKey> Rule<Pat> {
    /// The numbers that tell the rule from any other.
    pub fn code(&self) -> (r: Vec<usize>)
        ensures
            r@ == code(self.model()),
    {
        let mut out: Vec<usize> = Vec::new();
        self.push_code(&mut out);
        assert(out@ =~= code(self.model()));
        out
    }

    fn push_code(&self, out: &mut Vec<usize>)
        ensures
            final(out)@ == old(out)@ + code(self.model()),
        decreases self,
    {
        match self {
            Rule::Empty => {
                out.push(0);
            },
            Rule::Eat(pat) => {
                out.push(1);
                let key = pat.key();
                push_nums(out, &key);
                let matcher = pat.rust_matcher();
                push_tokens(out, &matcher);
            },
            Rule::Call(name) => {
                out.push(2);
                push_text(out, name.as_str());
            },
            Rule::Concat(left, right) => {
                out.push(3);
                left.push_code(out);
                right.push_code(out);
            },
            Rule::Or(cases) => {
                out.push(4);
                let ghost start = out@;
                let ghost all = self.model()->Or_0;
                let mut i: usize = 0;
                while i < cases.len()
                    invariant
                        i <= cases.len(),
                        decreases_to!(self => cases),
                        all.len() == cases.len(),
                        forall|j: int| 0 <= j < cases.len() ==> all[j] == cases@[j].model(),
                        out@ + cases_code(all, i as int) == start + cases_code(all, 0),
                    decreases cases.len() - i,
                {
                    let ghost before = out@;
                    out.push(1);
                    cases[i].push_code(out);
                    i += 1;
                    assert(out@ + cases_code(all, i as int) =~= before + cases_code(all, i - 1));
                }
                out.push(0);
                assert(out@ =~= start + cases_code(all, 0));
            },
            Rule::Opt(rule) => {
                out.push(5);
                rule.push_code(out);
            },
            Rule::RepeatMany(elem, None) => {
                out.push(6);
                elem.push_code(out);
            },
            Rule::RepeatMany(elem, Some((sep, kind))) => {
                match kind {
                    SepKind::Simple => {
                        out.push(7);
                    },
                    SepKind::Trailing => {
                        out.push(8);
                    },
                }
                elem.push_code(out);
                sep.push_code(out);
            },
            Rule::RepeatMore(elem, None) => {
                out.push(9);
                elem.push_code(out);
            },
            Rule::RepeatMore(elem, Some((sep, kind))) => {
                match kind {
                    SepKind::Simple => {
                        out.push(10);
                    },
                    SepKind::Trailing => {
                        out.push(11);
                    },
                }
                elem.push_code(out);
                sep.push_code(out);
            },
        }
        assert(out@ =~= old(out)@ + code(self.model()));
    }
}

/// What follows the same start is the same.
proof fn after_same_start(start: Seq<usize>, x: Seq<usize>, y: Seq<usize>)
    requires
        start + x == start + y,
    ensures
        x == y,
{
    assert((start + x).skip(start.len() as int) =~= x);
    assert((start + y).skip(start.len() as int) =~= y);
}

/// The first number of two lists that are the same.
proof fn same_first(a: Seq<usize>, x: Seq<usize>, b: Seq<usize>, y: Seq<usize>)
    requires
        a.len() > 0,
        b.len() > 0,
        a + x == b + y,
    ensures
        a[0] == b[0],
        a.len() > 1 && b.len() > 1 ==> a[1] == b[1],
{
    assert((a + x)[0] == a[0]);
    assert((b + y)[0] == b[0]);
    if a.len() > 1 && b.len() > 1 {
        assert((a + x)[1] == a[1]);
        assert((b + y)[1] == b[1]);
    }
}

/// How a list of numbers starts.
proof fn nums_code_starts(nums: Seq<usize>, i: int)
    requires
        0 <= i <= nums.len(),
    ensures
        i == nums.len() ==> nums_code(nums, i) == seq![0usize],
        i < nums.len() ==> nums_code(nums, i).len() > 1 && nums_code(nums, i)[0] == 1
            && nums_code(nums, i)[1] == nums[i],
{
    if i < nums.len() {
        let rest = nums_code(nums, i + 1);
        let start = seq![1usize, nums[i]];
        assert(start.len() == 2 && start[0] == 1 && start[1] == nums[i]);
        assert((start + rest)[0] == start[0]);
        assert((start + rest)[1] == start[1]);
    }
}

proof fn nums_code_prefix(a: Seq<usize>, b: Seq<usize>, i: int, x: Seq<usize>, y: Seq<usize>)
    requires
        0 <= i <= a.len(),
        i <= b.len(),
        a.take(i) == b.take(i),
        nums_code(a, i) + x == nums_code(b, i) + y,
    ensures
        a == b,
        x == y,
    decreases a.len() - i,
{
    let u = nums_code(a, i) + x;
    let v = nums_code(b, i) + y;
    nums_code_starts(a, i);
    nums_code_starts(b, i);
    same_first(nums_code(a, i), x, nums_code(b, i), y);
    if i == a.len() {
        after_same_start(seq![0usize], x, y);
        assert(a =~= a.take(i));
        assert(b =~= b.take(i));
    } else {
        assert(a[i] == b[i]);
        assert(u =~= seq![1usize, a[i]] + (nums_code(a, i + 1) + x));
        assert(v =~= seq![1usize, b[i]] + (nums_code(b, i + 1) + y));
        after_same_start(seq![1usize, a[i]], nums_code(a, i + 1) + x, nums_code(b, i + 1) + y);
        assert(a.take(i + 1) =~= a.take(i).push(a[i]));
        assert(b.take(i + 1) =~= b.take(i).push(b[i]));
        nums_code_prefix(a, b, i + 1, x, y);
    }
}

proof fn text_code_prefix(a: Seq<char>, b: Seq<char>, x: Seq<usize>, y: Seq<usize>)
    requires
        text_code(a) + x == text_code(b) + y,
    ensures
        a == b,
        x == y,
{
    assert(code_points(a).take(0) =~= code_points(b).take(0));
    nums_code_prefix(code_points(a), code_points(b), 0, x, y);
    code_points_injective(a, b);
}

/// How a token starts.
proof fn token_code_starts(t: TokenSpec)
    ensures
        token_code(t).len() > 0,
        token_code(t)[0] == (match t {
            TokenSpec::Text(_) => 0usize,
            TokenSpec::Str(_) => 1usize,
            TokenSpec::Char(_) => 2usize,
            TokenSpec::Int(_) => 3usize,
        }),
        t matches TokenSpec::Char(c) ==> token_code(t).len() == 2 && token_code(t)[1] == c as usize,
{
    match t {
        TokenSpec::Text(s) => {
            assert((seq![0usize] + text_code(s))[0] == seq![0usize][0]);
        },
        TokenSpec::Str(s) => {
            assert((seq![1usize] + text_code(s))[0] == seq![1usize][0]);
        },
        TokenSpec::Char(c) => {
            assert(seq![2usize, c as usize][0] == 2);
            assert(seq![2usize, c as usize][1] == c as usize);
        },
        TokenSpec::Int(n) => {
            assert((seq![3usize] + text_code(decimal(n)))[0] == seq![3usize][0]);
        },
    }
}

proof fn token_code_prefix(a: TokenSpec, b: TokenSpec, x: Seq<usize>, y: Seq<usize>)
    requires
        token_code(a) + x == token_code(b) + y,
    ensures
        a == b,
        x == y,
{
    let u = token_code(a) + x;
    let v = token_code(b) + y;
    token_code_starts(a);
    token_code_starts(b);
    same_first(token_code(a), x, token_code(b), y);
    match (a, b) {
        (TokenSpec::Text(s), TokenSpec::Text(t)) => {
            assert(u =~= seq![0usize] + (text_code(s) + x));
            assert(v =~= seq![0usize] + (text_code(t) + y));
            after_same_start(seq![0usize], text_code(s) + x, text_code(t) + y);
            text_code_prefix(s, t, x, y);
        },
        (TokenSpec::Str(s), TokenSpec::Str(t)) => {
            assert(u =~= seq![1usize] + (text_code(s) + x));
            assert(v =~= seq![1usize] + (text_code(t) + y));
            after_same_start(seq![1usize], text_code(s) + x, text_code(t) + y);
            text_code_prefix(s, t, x, y);
        },
        (TokenSpec::Char(c), TokenSpec::Char(d)) => {
            assert(c as usize == d as usize);
            code_point_injective(c, d);
            after_same_start(seq![2usize, c as usize], x, y);
        },
        (TokenSpec::Int(m), TokenSpec::Int(n)) => {
            assert(u =~= seq![3usize] + (text_code(decimal(m)) + x));
            assert(v =~= seq![3usize] + (text_code(decimal(n)) + y));
            after_same_start(seq![3usize], text_code(decimal(m)) + x, text_code(decimal(n)) + y);
            text_code_prefix(decimal(m), decimal(n), x, y);
            decimal_injective(m, n);
        },
        _ => {},
    }
}

/// How a list of tokens starts.
proof fn tokens_code_starts(ts: SrcSpec, i: int)
    requires
        0 <= i <= ts.len(),
    ensures
        i == ts.len() ==> tokens_code(ts, i) == seq![0usize],
        i < ts.len() ==> tokens_code(ts, i).len() > 0 && tokens_code(ts, i)[0] == 1,
{
    if i < ts.len() {
        let start = seq![1usize];
        let rest = tokens_code(ts, i + 1);
        assert((start + token_code(ts[i]))[0] == start[0]);
        assert((start + token_code(ts[i]) + rest)[0] == (start + token_code(ts[i]))[0]);
    }
}

proof fn tokens_code_prefix(a: SrcSpec, b: SrcSpec, i: int, x: Seq<usize>, y: Seq<usize>)
    requires
        0 <= i <= a.len(),
        i <= b.len(),
        a.take(i) == b.take(i),
        tokens_code(a, i) + x == tokens_code(b, i) + y,
    ensures
        a == b,
        x == y,
    decreases a.len() - i,
{
    let u = tokens_code(a, i) + x;
    let v = tokens_code(b, i) + y;
    tokens_code_starts(a, i);
    tokens_code_starts(b, i);
    same_first(tokens_code(a, i), x, tokens_code(b, i), y);
    if i == a.len() {
        after_same_start(seq![0usize], x, y);
        assert(a =~= a.take(i));
        assert(b =~= b.take(i));
    } else {
        let ra = tokens_code(a, i + 1) + x;
        let rb = tokens_code(b, i + 1) + y;
        assert(u =~= seq![1usize] + (token_code(a[i]) + ra));
        assert(v =~= seq![1usize] + (token_code(b[i]) + rb));
        after_same_start(seq![1usize], token_code(a[i]) + ra, token_code(b[i]) + rb);
        token_code_prefix(a[i], b[i], ra, rb);
        assert(a.take(i + 1) =~= a.take(i).push(a[i]));
        assert(b.take(i + 1) =~= b.take(i).push(b[i]));
        tokens_code_prefix(a, b, i + 1, x, y);
    }
}

/// The number that tells how a rule is built.
spec fn tag_of(r: RuleSpec) -> usize {
    match r {
        RuleSpec::Empty => 0,
        RuleSpec::Eat(_) => 1,
        RuleSpec::Call(_) => 2,
        RuleSpec::Concat(..) => 3,
        RuleSpec::Or(_) => 4,
        RuleSpec::Opt(_) => 5,
        RuleSpec::RepeatMany(_, None) => 6,
        RuleSpec::RepeatMany(_, Some((_, SepKind::Simple))) => 7,
        RuleSpec::RepeatMany(_, Some((_, SepKind::Trailing))) => 8,
        RuleSpec::RepeatMore(_, None) => 9,
        RuleSpec::RepeatMore(_, Some((_, SepKind::Simple))) => 10,
        RuleSpec::RepeatMore(_, Some((_, SepKind::Trailing))) => 11,
    }
}

/// A list that starts with a number.
proof fn starts_with(tag: usize, a: Seq<usize>, b: Seq<usize>)
    ensures
        seq![tag][0] == tag,
        (seq![tag] + a).len() > 0,
        (seq![tag] + a)[0] == tag,
        (seq![tag] + a + b).len() > 0,
        (seq![tag] + a + b)[0] == tag,
{
    assert((seq![tag] + a)[0] == seq![tag][0]);
    assert((seq![tag] + a + b)[0] == (seq![tag] + a)[0]);
}

/// The code of a rule starts with the number that tells how it is built.
proof fn code_starts(r: RuleSpec)
    ensures
        code(r).len() > 0,
        code(r)[0] == tag_of(r),
{
    let tag = tag_of(r);
    let none = Seq::<usize>::empty();
    match r {
        RuleSpec::Empty => starts_with(tag, none, none),
        RuleSpec::Eat(pat) => starts_with(
            tag,
            nums_code(pat.key, 0),
            tokens_code(pat.matcher, 0),
        ),
        RuleSpec::Call(name) => starts_with(tag, text_code(name), none),
        RuleSpec::Concat(left, right) => starts_with(tag, code(*left), code(*right)),
        RuleSpec::Or(cases) => starts_with(tag, cases_code(cases, 0), none),
        RuleSpec::Opt(inner) => starts_with(tag, code(*inner), none),
        RuleSpec::RepeatMany(elem, None) | RuleSpec::RepeatMore(elem, None) => {
            starts_with(tag, code(*elem), none)
        },
        RuleSpec::RepeatMany(elem, Some((sep, _))) | RuleSpec::RepeatMore(elem, Some((sep, _))) => {
            starts_with(tag, code(*elem), code(*sep))
        },
    }
}

/// How a list of rules starts.
proof fn cases_code_starts(cases: Seq<RuleSpec>, i: int)
    requires
        0 <= i <= cases.len(),
    ensures
        i == cases.len() ==> cases_code(cases, i) == seq![0usize],
        i < cases.len() ==> cases_code(cases, i).len() > 0 && cases_code(cases, i)[0] == 1,
{
    if i < cases.len() {
        starts_with(1, code(cases[i]), cases_code(cases, i + 1));
    }
}

/// The code of a rule after the number that tells how it is built.
spec fn body_code(r: RuleSpec) -> Seq<usize> {
    match r {
        RuleSpec::Empty => Seq::empty(),
        RuleSpec::Eat(pat) => nums_code(pat.key, 0) + tokens_code(pat.matcher, 0),
        RuleSpec::Call(name) => text_code(name),
        RuleSpec::Concat(left, right) => code(*left) + code(*right),
        RuleSpec::Or(cases) => cases_code(cases, 0),
        RuleSpec::Opt(inner) => code(*inner),
        RuleSpec::RepeatMany(elem, None) | RuleSpec::RepeatMore(elem, None) => code(*elem),
        RuleSpec::RepeatMany(elem, Some((sep, _))) | RuleSpec::RepeatMore(elem, Some((sep, _))) => {
            code(*elem) + code(*sep)
        },
    }
}

/// The code of a rule is the number that tells how it is built, and what comes after it.
proof fn code_splits(r: RuleSpec)
    ensures
        code(r) == seq![tag_of(r)] + body_code(r),
{
    assert(code(r) =~= seq![tag_of(r)] + body_code(r));
}

/// Rules with the same code are the same rule, whatever comes after the code.
proof fn code_prefix(a: RuleSpec, b: RuleSpec, x: Seq<usize>, y: Seq<usize>)
    requires
        code(a) + x == code(b) + y,
    ensures
        a == b,
        x == y,
    decreases a, 1nat, 0int,
{
    code_starts(a);
    code_starts(b);
    same_first(code(a), x, code(b), y);
    code_splits(a);
    code_splits(b);
    let tag = seq![tag_of(a)];
    assert(tag + body_code(a) + x =~= tag + (body_code(a) + x));
    assert(tag + body_code(b) + y =~= tag + (body_code(b) + y));
    after_same_start(tag, body_code(a) + x, body_code(b) + y);
    body_code_prefix(a, b, x, y);
}

/// Two rules with the same codes as two others are the same rules, whatever comes after the codes.
proof fn two_code_prefix(
    whole: RuleSpec,
    a: (RuleSpec, RuleSpec),
    b: (RuleSpec, RuleSpec),
    x: Seq<usize>,
    y: Seq<usize>,
)
    requires
        decreases_to!(whole => a.0),
        decreases_to!(whole => a.1),
        code(a.0) + code(a.1) + x == code(b.0) + code(b.1) + y,
    ensures
        a == b,
        x == y,
    decreases whole, 0nat, 0int,
{
    assert(code(a.0) + code(a.1) + x =~= code(a.0) + (code(a.1) + x));
    assert(code(b.0) + code(b.1) + y =~= code(b.0) + (code(b.1) + y));
    code_prefix(a.0, b.0, code(a.1) + x, code(b.1) + y);
    code_prefix(a.1, b.1, x, y);
}

/// Rules that are built alike, with the same code after the number that tells how, are the same
/// rule, whatever comes after the code.
proof fn body_code_prefix(a: RuleSpec, b: RuleSpec, x: Seq<usize>, y: Seq<usize>)
    requires
        tag_of(a) == tag_of(b),
        body_code(a) + x == body_code(b) + y,
    ensures
        a == b,
        x == y,
    decreases a, 0nat, 1int,
{
    match a {
        RuleSpec::Empty => {
            assert(body_code(a) + x =~= x);
            assert(body_code(b) + y =~= y);
        },
        RuleSpec::Eat(p) => {
            let q = b->Eat_0;
            let rp = tokens_code(p.matcher, 0) + x;
            let rq = tokens_code(q.matcher, 0) + y;
            assert(body_code(a) + x =~= nums_code(p.key, 0) + rp);
            assert(body_code(b) + y =~= nums_code(q.key, 0) + rq);
            assert(p.key.take(0) =~= q.key.take(0));
            nums_code_prefix(p.key, q.key, 0, rp, rq);
            assert(p.matcher.take(0) =~= q.matcher.take(0));
            tokens_code_prefix(p.matcher, q.matcher, 0, x, y);
        },
        RuleSpec::Call(s) => {
            text_code_prefix(s, b->Call_0, x, y);
        },
        RuleSpec::Concat(left, right) => {
            two_code_prefix(a, (*left, *right), (*b->Concat_0, *b->Concat_1), x, y);
        },
        RuleSpec::Or(cases) => {
            assert(cases.take(0) =~= b->Or_0.take(0));
            cases_code_prefix(cases, b->Or_0, 0, x, y);
        },
        RuleSpec::Opt(inner) => {
            code_prefix(*inner, *b->Opt_0, x, y);
        },
        RuleSpec::RepeatMany(elem, None) => {
            code_prefix(*elem, *b->RepeatMany_0, x, y);
        },
        RuleSpec::RepeatMore(elem, None) => {
            code_prefix(*elem, *b->RepeatMore_0, x, y);
        },
        RuleSpec::RepeatMany(elem, Some((sep, _))) => {
            let other = b->RepeatMany_1->Some_0;
            two_code_prefix(a, (*elem, *sep), (*b->RepeatMany_0, *other.0), x, y);
        },
        RuleSpec::RepeatMore(elem, Some((sep, _))) => {
            let other = b->RepeatMore_1->Some_0;
            two_code_prefix(a, (*elem, *sep), (*b->RepeatMore_0, *other.0), x, y);
        },
    }
}

proof fn cases_code_prefix(
    a: Seq<RuleSpec>,
    b: Seq<RuleSpec>,
    i: int,
    x: Seq<usize>,
    y: Seq<usize>,
)
    requires
        0 <= i <= a.len(),
        i <= b.len(),
        a.take(i) == b.take(i),
        cases_code(a, i) + x == cases_code(b, i) + y,
    ensures
        a == b,
        x == y,
    decreases a, 0nat, a.len() - i,
{
    let u = cases_code(a, i) + x;
    let v = cases_code(b, i) + y;
    cases_code_starts(a, i);
    cases_code_starts(b, i);
    same_first(cases_code(a, i), x, cases_code(b, i), y);
    if i == a.len() {
        after_same_start(seq![0usize], x, y);
        assert(a =~= a.take(i));
        assert(b =~= b.take(i));
    } else {
        let ra = cases_code(a, i + 1) + x;
        let rb = cases_code(b, i + 1) + y;
        assert(u =~= seq![1usize] + (code(a[i]) + ra));
        assert(v =~= seq![1usize] + (code(b[i]) + rb));
        after_same_start(seq![1usize], code(a[i]) + ra, code(b[i]) + rb);
        code_prefix(a[i], b[i], ra, rb);
        assert(a.take(i + 1) =~= a.take(i).push(a[i]));
        assert(b.take(i + 1) =~= b.take(i).push(b[i]));
        cases_code_prefix(a, b, i + 1, x, y);
    }
}

/// Rules with the same code are the same rule.
pub proof fn code_injective(a: RuleSpec, b: RuleSpec)
    ensures
        code(a) == code(b) <==> a == b,
{
    if code(a) == code(b) {
        code_prefix(a, b, Seq::empty(), Seq::empty());
    }
}

} // verus!
