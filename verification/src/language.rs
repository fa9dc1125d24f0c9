//! What input rules stand for, and why the steps that parse a rule take exactly that input.
use crate::instr::InstrSpec;
use crate::node::KindSpec;
use crate::parse::{both_step, case_step, parse_step, sep_step, EAT};
use crate::paths::{spaced, words_spaced};
use crate::rule::{concat, more, more_sep, RuleSpec, SepKind};
use crate::table::kind_of;
use crate::thunk::{add_choice_step, opt_step, ThunkSpec};
use crate::tokens::{fill, filled, holes, word, SrcSpec, TokenSpec};
use vstd::prelude::*;

verus! {

/// What code does to its input, or to the parse forest.
pub enum EventSpec {
    /// Takes input that a pattern matches.
    Eat(SrcSpec),
    /// Takes input that the rule of a name stands for.
    Rule(Seq<char>),
    /// Takes back a node that was saved.
    Take(KindSpec),
    /// Notes that what was taken back and what came after it make up a node.
    Split(KindSpec),
    /// Notes that a node of the first kind can be one of the second.
    Choice(KindSpec, KindSpec),
}

/// What code does, in order.
pub type Trace = Seq<EventSpec>;

/// All traces of some list, one after the other.
pub open spec fn flat(parts: Seq<Trace>) -> Trace
    decreases parts.len(),
{
    if parts.len() == 0 {
        Seq::empty()
    } else {
        flat(parts.drop_last()) + parts.last()
    }
}

/// Whether the input that a trace takes is what a rule stands for: for a repetition with a
/// separator, elements with separators between them, and after the last one where that is allowed.
pub open spec fn stands_for(rule: RuleSpec, w: Trace) -> bool
    decreases rule,
{
    match rule {
        RuleSpec::Empty => w.len() == 0,
        RuleSpec::Eat(pat) => w == seq![EventSpec::Eat(pat.matcher)],
        RuleSpec::Call(name) => w == seq![EventSpec::Rule(name)],
        RuleSpec::Concat(left, right) => exists|i: int|
            0 <= i <= w.len() && stands_for(*left, #[trigger] w.take(i)) && stands_for(
                *right,
                w.skip(i),
            ),
        RuleSpec::Or(cases) => exists|i: int|
            0 <= i < cases.len() && stands_for(#[trigger] cases[i], w),
        RuleSpec::Opt(inner) => w.len() == 0 || stands_for(*inner, w),
        RuleSpec::RepeatMany(elem, None) => exists|parts: Seq<Trace>| #[trigger]
            flat(parts) == w && forall|i: int|
                0 <= i < parts.len() ==> stands_for(*elem, #[trigger] parts[i]),
        RuleSpec::RepeatMore(elem, None) => exists|parts: Seq<Trace>|
            parts.len() > 0 && #[trigger] flat(parts) == w && forall|i: int|
                0 <= i < parts.len() ==> stands_for(*elem, #[trigger] parts[i]),
        RuleSpec::RepeatMany(elem, Some((sep, kind))) => w.len() == 0 || exists|parts: Seq<Trace>|
            parts.len() > 0 && (kind is Simple ==> parts.len() % 2 == 1) && #[trigger] flat(parts)
                == w && forall|i: int|
                0 <= i < parts.len() ==> if i % 2 == 0 {
                    stands_for(*elem, #[trigger] parts[i])
                } else {
                    stands_for(*sep, parts[i])
                },
        RuleSpec::RepeatMore(elem, Some((sep, kind))) => exists|parts: Seq<Trace>|
            parts.len() > 0 && (kind is Simple ==> parts.len() % 2 == 1) && #[trigger] flat(parts)
                == w && forall|i: int|
                0 <= i < parts.len() ==> if i % 2 == 0 {
                    stands_for(*elem, #[trigger] parts[i])
                } else {
                    stands_for(*sep, parts[i])
                },
    }
}

/// Whether an event takes input.
pub open spec fn takes_input(e: EventSpec) -> bool {
    e is Eat || e is Rule
}

/// The part of a trace that takes input.
pub open spec fn input_of(u: Trace) -> Trace
    decreases u.len(),
{
    if u.len() == 0 {
        Seq::empty()
    } else if takes_input(u.last()) {
        input_of(u.drop_last()).push(u.last())
    } else {
        input_of(u.drop_last())
    }
}

pub proof fn input_of_sum(a: Trace, b: Trace)
    ensures
        input_of(a + b) == input_of(a) + input_of(b),
    decreases b.len(),
{
    if b.len() == 0 {
        assert(a + b =~= a);
        assert(input_of(a) + input_of(b) =~= input_of(a));
    } else {
        input_of_sum(a, b.drop_last());
        assert((a + b).drop_last() =~= a + b.drop_last());
        assert((a + b).last() == b.last());
        if takes_input(b.last()) {
            assert((input_of(a) + input_of(b.drop_last())).push(b.last()) =~= input_of(a)
                + input_of(b.drop_last()).push(b.last()));
        }
    }
}

/// Whether a condition of generated code is that a pattern matches the input.
pub open spec fn is_match(condition: SrcSpec, matcher: SrcSpec) -> bool {
    condition == fill(
        "let Some ( mut rt ) = rt . input_consume_left ( & ( $ ) )"@,
        seq![matcher],
    )
}

/// Whether a step saves a node and starts a frame for what comes after it.
pub open spec fn is_push(t: ThunkSpec) -> bool {
    t matches ThunkSpec::Then(a, b) && *b is CloseFrame && (*a matches ThunkSpec::Emit(code)
        && code.len() == 1 && code[0] is Save)
}

/// Whether a step ends a frame, takes back the node that was saved, and notes a node of both.
pub open spec fn is_pop(t: ThunkSpec) -> bool {
    t matches ThunkSpec::Then(a, b) && *b is OpenFrame && (*a matches ThunkSpec::Then(c, d)
        && (*c matches ThunkSpec::Emit(take) && take.len() == 1 && take[0] is TakeSaved) && (
    *d matches ThunkSpec::Emit(note) && note.len() == 1 && note[0] is AddSplit))
}

/// Whether a step parses one node and another, and notes a node of both.
pub open spec fn is_concat(t: ThunkSpec) -> bool {
    t matches ThunkSpec::Then(a, b) && is_pop(*b) && (*a matches ThunkSpec::Then(c, _)
        && (*c matches ThunkSpec::Then(_, push) && is_push(*push)))
}

/// The kind of the node that a step of [`is_concat`] saves.
pub open spec fn saved_kind(t: ThunkSpec) -> KindSpec {
    (*(*t->Then_0)->Then_0->Then_1)->Then_0->Emit_0[0]->Save_0
}

/// The kind of the node that a step of [`is_concat`] notes.
pub open spec fn noted_kind(t: ThunkSpec) -> KindSpec {
    (*(*t->Then_1)->Then_0)->Then_1->Emit_0[0]->AddSplit_0
}

/// Any number is how deep calls can be inside of each other.
pub open spec fn is_depth(k: nat) -> bool {
    true
}

/// Whether a step can have a trace. `again` tells the traces of the function that the innermost
/// `Fix` around the step makes.
pub open spec fn can_do(t: ThunkSpec, again: spec_fn(Trace) -> bool, u: Trace) -> bool
    decreases t, 0nat,
{
    match t {
        ThunkSpec::Skip => u.len() == 0,
        ThunkSpec::Emit(code) => code.len() == u.len() && forall|i: int|
            0 <= i < code.len() ==> (#[trigger] code[i] matches InstrSpec::AddChoice(kind, choice)
                && u[i] == EventSpec::Choice(kind, choice)),
        ThunkSpec::Check(condition) => u.len() == 1 && (u[0] matches EventSpec::Eat(matcher)
            && is_match(condition, matcher)),
        ThunkSpec::Call(callee) => callee.1.len() == 0 && u == seq![EventSpec::Rule(callee.0)],
        ThunkSpec::CallFix => again(u),
        ThunkSpec::Then(a, b) => if is_concat(t) {
            let left = *(*(*a)->Then_0)->Then_0;
            let right = *(*a)->Then_1;
            let n = u.len() - 2;
            &&& n >= 0
            &&& u[n] == EventSpec::Take(saved_kind(t))
            &&& u[n + 1] == EventSpec::Split(noted_kind(t))
            &&& exists|i: int|
                0 <= i <= n && can_do(left, again, #[trigger] u.take(i)) && can_do(
                    right,
                    again,
                    u.subrange(i, n),
                )
        } else {
            exists|i: int|
                0 <= i <= u.len() && can_do(*a, again, #[trigger] u.take(i)) && can_do(
                    *b,
                    again,
                    u.skip(i),
                )
        },
        ThunkSpec::Parallel(ts) => exists|i: int|
            0 <= i < ts.len() && can_do(#[trigger] ts[i], again, u),
        ThunkSpec::Fix(body) => exists|k: nat| #[trigger] is_depth(k) && can_repeat(*body, k, u),
        ThunkSpec::Ret | ThunkSpec::OpenFrame | ThunkSpec::CloseFrame => false,
    }
}

/// Whether a function that calls itself can have a trace, where it does so less than `k` times
/// inside of each other.
pub open spec fn can_repeat(body: ThunkSpec, k: nat, u: Trace) -> bool
    decreases body, 2 * k + 1,
{
    k > 0 && can_do(body, once_more(body, k), u)
}

/// The traces of a function that calls itself, where it does so once less.
pub open spec fn once_more(body: ThunkSpec, k: nat) -> spec_fn(Trace) -> bool
    decreases body, 2 * k,
{
    |v: Trace| k > 0 && can_repeat(body, (k - 1) as nat, v)
}

/// The traces of one part after the other, with a first one before them.
pub proof fn flat_first(a: Trace, parts: Seq<Trace>)
    ensures
        flat(seq![a] + parts) == a + flat(parts),
    decreases parts.len(),
{
    let all = seq![a] + parts;
    if parts.len() == 0 {
        assert(all.drop_last() =~= Seq::<Trace>::empty());
        assert(flat(all.drop_last()) =~= Seq::empty());
        assert(flat(parts) =~= Seq::empty());
        assert(flat(all) =~= a + flat(parts));
    } else {
        flat_first(a, parts.drop_last());
        assert(all.drop_last() =~= seq![a] + parts.drop_last());
        assert(flat(all) =~= a + flat(parts));
    }
}

/// No step that parses a rule ends with the end of a frame.
pub proof fn no_pop(rule: RuleSpec, table: Option<Seq<RuleSpec>>)
    ensures
        !(parse_step(rule, table) is OpenFrame),
        !is_pop(parse_step(rule, table)),
{
    reveal_with_fuel(parse_step, 2);
}

/// Parsing one rule and another takes what the first step takes, and after it what the second does.
pub proof fn both_do(
    left: RuleSpec,
    left_step: ThunkSpec,
    right_step: ThunkSpec,
    whole: RuleSpec,
    table: Option<Seq<RuleSpec>>,
    again: spec_fn(Trace) -> bool,
    u: Trace,
) -> (r: (Trace, Trace))
    requires
        can_do(both_step(left, left_step, right_step, whole, table), again, u),
        !is_pop(right_step),
    ensures
        can_do(left_step, again, r.0),
        can_do(right_step, again, r.1),
        input_of(u) == input_of(r.0) + input_of(r.1),
        table is None ==> u == r.0 + r.1,
        table matches Some(t) ==> u == r.0 + r.1 + seq![
            EventSpec::Take(kind_of(left, t)),
            EventSpec::Split(kind_of(whole, t)),
        ],
{
    let step = both_step(left, left_step, right_step, whole, table);
    match table {
        None => {
            let i = choose|i: int|
                0 <= i <= u.len() && can_do(left_step, again, #[trigger] u.take(i)) && can_do(
                    right_step,
                    again,
                    u.skip(i),
                );
            assert(u =~= u.take(i) + u.skip(i));
            input_of_sum(u.take(i), u.skip(i));
            (u.take(i), u.skip(i))
        },
        Some(t) => {
            assert(is_concat(step));
            let n = u.len() - 2;
            let i = choose|i: int|
                0 <= i <= n && can_do(left_step, again, #[trigger] u.take(i)) && can_do(
                    right_step,
                    again,
                    u.subrange(i, n),
                );
            let (a, b) = (u.take(i), u.subrange(i, n));
            let end = seq![
                EventSpec::Take(kind_of(left, t)),
                EventSpec::Split(kind_of(whole, t)),
            ];
            assert(u =~= a + b + end);
            input_of_sum(a, b);
            input_of_sum(a + b, end);
            no_input(end);
            assert(input_of(a + b) + Seq::empty() =~= input_of(a + b));
            (a, b)
        },
    }
}

pub proof fn no_input(u: Trace)
    requires
        forall|i: int| 0 <= i < u.len() ==> !takes_input(#[trigger] u[i]),
    ensures
        input_of(u) == Seq::<EventSpec>::empty(),
    decreases u.len(),
{
    if u.len() > 0 {
        no_input(u.drop_last());
        assert(!takes_input(u[u.len() - 1]));
    }
}

/// One step after another has the traces of the first with those of the second after them.
pub proof fn both_done(
    left: RuleSpec,
    left_step: ThunkSpec,
    right_step: ThunkSpec,
    whole: RuleSpec,
    table: Option<Seq<RuleSpec>>,
    again: spec_fn(Trace) -> bool,
    a: Trace,
    b: Trace,
) -> (u: Trace)
    requires
        can_do(left_step, again, a),
        can_do(right_step, again, b),
        !is_pop(right_step),
    ensures
        can_do(both_step(left, left_step, right_step, whole, table), again, u),
        input_of(u) == input_of(a) + input_of(b),
        table is None ==> u == a + b,
        table matches Some(t) ==> u == a + b + seq![
            EventSpec::Take(kind_of(left, t)),
            EventSpec::Split(kind_of(whole, t)),
        ],
{
    let step = both_step(left, left_step, right_step, whole, table);
    let i = a.len() as int;
    input_of_sum(a, b);
    match table {
        None => {
            let u = a + b;
            assert(u.take(i) =~= a);
            assert(u.skip(i) =~= b);
            assert(can_do(left_step, again, u.take(i)));
            u
        },
        Some(t) => {
            assert(is_concat(step));
            let end = seq![
                EventSpec::Take(kind_of(left, t)),
                EventSpec::Split(kind_of(whole, t)),
            ];
            let u = a + b + end;
            let n = u.len() - 2;
            assert(u.take(i) =~= a);
            assert(u.subrange(i, n) =~= b);
            assert(can_do(left_step, again, u.take(i)));
            input_of_sum(a + b, end);
            no_input(end);
            assert(input_of(a + b) + Seq::empty() =~= input_of(a + b));
            u
        },
    }
}

/// Taking a step or none has the traces of the step, and the one of nothing.
pub proof fn opt_does(t: ThunkSpec, again: spec_fn(Trace) -> bool, u: Trace)
    ensures
        can_do(opt_step(t), again, u) <==> can_do(t, again, u) || u.len() == 0,
{
    let ts = opt_step(t)->Parallel_0;
    let none = ThunkSpec::Emit(Seq::empty());
    assert(ts[0] == t);
    assert(ts[1] == none);
    assert(can_do(none, again, u) <==> u.len() == 0);
    if can_do(t, again, u) {
        assert(can_do(ts[0], again, u));
    }
    if u.len() == 0 {
        assert(can_do(ts[1], again, u));
    }
}

/// The input that the steps of a rule take is what the rule stands for, whether or not they note
/// nodes. Where they note none, they do nothing but take input.
pub proof fn steps_take_input(
    rule: RuleSpec,
    table: Option<Seq<RuleSpec>>,
    again: spec_fn(Trace) -> bool,
    u: Trace,
)
    requires
        can_do(parse_step(rule, table), again, u),
    ensures
        stands_for(rule, input_of(u)),
        table is None ==> input_of(u) == u,
    decreases rule, 1nat, 0nat, 0nat,
{
    match rule {
        RuleSpec::Empty => {
        },
        RuleSpec::Eat(pat) => {
            reveal_with_fuel(input_of, 2);
            eat_matches(pat.matcher, u[0]->Eat_0);
            assert(u =~= seq![EventSpec::Eat(pat.matcher)]);
            assert(input_of(u) =~= u);
        },
        RuleSpec::Call(name) => {
            reveal_with_fuel(input_of, 2);
            assert(input_of(u) =~= u);
        },
        RuleSpec::Concat(left, right) => {
            let (a, b) = both_do_rule(rule, *left, *right, table, again, u);
            steps_take_input(*left, table, again, a);
            steps_take_input(*right, table, again, b);
            let w = input_of(u);
            let i = input_of(a).len() as int;
            assert(w.take(i) =~= input_of(a));
            assert(w.skip(i) =~= input_of(b));
            assert(stands_for(*left, w.take(i)));
        },
        RuleSpec::Or(cases) => {
            let ts = parse_step(rule, table)->Parallel_0;
            let i = choose|i: int| 0 <= i < ts.len() && can_do(#[trigger] ts[i], again, u);
            let step = parse_step(cases[i], table);
            assert(ts[i] == case_step(cases[i], step, rule, table));
            let a = case_does(cases[i], step, rule, table, again, u);
            steps_take_input(cases[i], table, again, a);
            assert(stands_for(cases[i], input_of(u)));
        },
        RuleSpec::Opt(inner) => {
            opt_does(parse_step(*inner, table), again, u);
            if u.len() > 0 {
                steps_take_input(*inner, table, again, u);
            }
        },
        RuleSpec::RepeatMany(elem, None) => {
            let step = parse_step(*elem, table);
            let body = opt_step(both_step(*elem, step, ThunkSpec::CallFix, more(*elem), table));
            let k = choose|k: nat| #[trigger] is_depth(k) && can_repeat(body, k, u);
            let parts = many_take_input(rule, *elem, table, k, u);
            assert(flat(parts) == input_of(u));
        },
        RuleSpec::RepeatMore(elem, None) => {
            let step = parse_step(*elem, table);
            let body = both_step(*elem, step, opt_step(ThunkSpec::CallFix), rule, table);
            let k = choose|k: nat| #[trigger] is_depth(k) && can_repeat(body, k, u);
            let parts = more_take_input(rule, *elem, table, k, u);
            assert(flat(parts) == input_of(u));
        },
        RuleSpec::RepeatMany(elem, Some((sep, kind))) => {
            let step = sep_step(
                *elem,
                parse_step(*elem, table),
                *sep,
                parse_step(*sep, table),
                kind,
                table,
            );
            opt_does(step, again, u);
            if u.len() > 0 {
                let parts = sep_take_input(rule, *elem, *sep, kind, table, again, u);
                assert(flat(parts) == input_of(u));
            }
        },
        RuleSpec::RepeatMore(elem, Some((sep, kind))) => {
            let parts = sep_take_input(rule, *elem, *sep, kind, table, again, u);
            assert(flat(parts) == input_of(u));
        },
    }
}

/// Two conditions that are the same ask for the same pattern.
pub proof fn eat_matches(a: SrcSpec, b: SrcSpec)
    requires
        is_match(fill(EAT@, seq![a]), b),
    ensures
        a == b,
{
    let (front, back) = match_layout(a);
    match_layout(b);
    let x = fill(EAT@, seq![a]);
    assert(x.subrange(13, x.len() - 2) =~= a);
    assert(x.subrange(13, x.len() - 2) =~= b);
}

/// What stands in the condition that a pattern matches.
proof fn match_layout(matcher: SrcSpec) -> (r: (SrcSpec, SrcSpec))
    ensures
        fill(EAT@, seq![matcher]) == r.0 + matcher + r.1,
        r.0.len() == 13,
        r.1.len() == 2,
{
    let ws = seq![
        seq!['l', 'e', 't'],
        seq!['S', 'o', 'm', 'e'],
        seq!['('],
        seq!['m', 'u', 't'],
        seq!['r', 't'],
        seq![')'],
        seq!['='],
        seq!['r', 't'],
        seq!['.'],
        seq![
            'i',
            'n',
            'p',
            'u',
            't',
            '_',
            'c',
            'o',
            'n',
            's',
            'u',
            'm',
            'e',
            '_',
            'l',
            'e',
            'f',
            't',
        ],
        seq!['('],
        seq!['&'],
        seq!['('],
        seq!['$'],
        seq![')'],
        seq![')'],
    ];
    reveal_strlit("let Some ( mut rt ) = rt . input_consume_left ( & ( $ ) )");
    reveal_with_fuel(spaced, 17);
    reveal_with_fuel(filled, 17);
    reveal_with_fuel(holes, 17);
    assert(EAT@.push(' ') =~= spaced(ws, 16));
    words_spaced(EAT@, ws);
    assert(ws[0][0] == 'l' && ws[1][0] == 'S' && ws[2][0] == '(' && ws[3][0] == 'm');
    assert(ws[4][0] == 'r' && ws[5][0] == ')' && ws[6][0] == '=' && ws[7][0] == 'r');
    assert(ws[8][0] == '.' && ws[9][0] == 'i' && ws[10][0] == '(' && ws[11][0] == '&');
    assert(ws[12][0] == '(' && ws[14][0] == ')' && ws[15][0] == ')');
    let front = ws.take(13).map_values(|w: Seq<char>| TokenSpec::Text(w));
    let back = word(ws[14]) + word(ws[15]);
    assert(filled(ws, seq![matcher], 13) =~= front);
    assert(fill(EAT@, seq![matcher]) =~= front + matcher + back);
    (front, back)
}

proof fn both_do_rule(
    rule: RuleSpec,
    left: RuleSpec,
    right: RuleSpec,
    table: Option<Seq<RuleSpec>>,
    again: spec_fn(Trace) -> bool,
    u: Trace,
) -> (r: (Trace, Trace))
    requires
        rule == concat(left, right),
        can_do(parse_step(rule, table), again, u),
    ensures
        can_do(parse_step(left, table), again, r.0),
        can_do(parse_step(right, table), again, r.1),
        input_of(u) == input_of(r.0) + input_of(r.1),
        table is None ==> u == r.0 + r.1,
        table matches Some(t) ==> u == r.0 + r.1 + seq![
            EventSpec::Take(kind_of(left, t)),
            EventSpec::Split(kind_of(rule, t)),
        ],
{
    no_pop(right, table);
    both_do(left, parse_step(left, table), parse_step(right, table), rule, table, again, u)
}

/// The input that the steps of a repetition of none or more take is made of parts that the element
/// stands for.
proof fn many_take_input(
    rule: RuleSpec,
    elem: RuleSpec,
    table: Option<Seq<RuleSpec>>,
    k: nat,
    u: Trace,
) -> (parts: Seq<Trace>)
    requires
        rule == RuleSpec::RepeatMany(Box::new(elem), None),
        can_repeat(
            opt_step(
                both_step(
                    elem,
                    parse_step(elem, table),
                    ThunkSpec::CallFix,
                    more(elem),
                    table,
                ),
            ),
            k,
            u,
        ),
    ensures
        flat(parts) == input_of(u),
        forall|i: int| 0 <= i < parts.len() ==> stands_for(elem, #[trigger] parts[i]),
        table is None ==> input_of(u) == u,
    decreases rule, 0nat, 0nat, k,
{
    match rule {
        RuleSpec::RepeatMany(e, _) | RuleSpec::RepeatMore(e, _) => {
            assert(decreases_to!(rule => *e));
        },
        _ => {},
    }
    let step = parse_step(elem, table);
    let both = both_step(elem, step, ThunkSpec::CallFix, more(elem), table);
    let body = opt_step(both);
    let again = once_more(body, k);
    opt_does(both, again, u);
    if u.len() == 0 {
        Seq::empty()
    } else {
        let (a, b) = both_do(elem, step, ThunkSpec::CallFix, more(elem), table, again, u);
        assert(again(b));
        steps_take_input(elem, table, again, a);
        let rest = many_take_input(rule, elem, table, (k - 1) as nat, b);
        let parts = seq![input_of(a)] + rest;
        flat_first(input_of(a), rest);
        assert forall|i: int| 0 <= i < parts.len() implies stands_for(
            elem,
            #[trigger] parts[i],
        ) by {
            if i > 0 {
                assert(parts[i] == rest[i - 1]);
            }
        }
        parts
    }
}

/// The input that the steps of a repetition of one or more take is made of parts that the element
/// stands for.
proof fn more_take_input(
    rule: RuleSpec,
    elem: RuleSpec,
    table: Option<Seq<RuleSpec>>,
    k: nat,
    u: Trace,
) -> (parts: Seq<Trace>)
    requires
        rule == RuleSpec::RepeatMore(Box::new(elem), None),
        can_repeat(
            both_step(
                elem,
                parse_step(elem, table),
                opt_step(ThunkSpec::CallFix),
                rule,
                table,
            ),
            k,
            u,
        ),
    ensures
        parts.len() > 0,
        flat(parts) == input_of(u),
        forall|i: int| 0 <= i < parts.len() ==> stands_for(elem, #[trigger] parts[i]),
        table is None ==> input_of(u) == u,
    decreases rule, 0nat, 0nat, k,
{
    match rule {
        RuleSpec::RepeatMany(e, _) | RuleSpec::RepeatMore(e, _) => {
            assert(decreases_to!(rule => *e));
        },
        _ => {},
    }
    let step = parse_step(elem, table);
    let next = opt_step(ThunkSpec::CallFix);
    let body = both_step(elem, step, next, rule, table);
    let again = once_more(body, k);
    let (a, b) = both_do(elem, step, next, rule, table, again, u);
    opt_does(ThunkSpec::CallFix, again, b);
    steps_take_input(elem, table, again, a);
    let rest = if b.len() == 0 {
        Seq::empty()
    } else {
        assert(again(b));
        more_take_input(rule, elem, table, (k - 1) as nat, b)
    };
    let parts = seq![input_of(a)] + rest;
    flat_first(input_of(a), rest);
    assert forall|i: int| 0 <= i < parts.len() implies stands_for(elem, #[trigger] parts[i]) by {
        if i > 0 {
            assert(parts[i] == rest[i - 1]);
        }
    }
    parts
}

/// Whether parts are elements with separators between them, beginning with an element.
pub open spec fn alternate(elem: RuleSpec, sep: RuleSpec, parts: Seq<Trace>) -> bool {
    forall|i: int|
        0 <= i < parts.len() ==> if i % 2 == 0 {
            stands_for(elem, #[trigger] parts[i])
        } else {
            stands_for(sep, parts[i])
        }
}

/// The function that parses elements with separators between them.
pub open spec fn simple_body(
    elem: RuleSpec,
    sep: RuleSpec,
    table: Option<Seq<RuleSpec>>,
) -> ThunkSpec {
    let whole = more_sep(elem, sep, SepKind::Simple);
    let rest = both_step(
        sep,
        parse_step(sep, table),
        ThunkSpec::CallFix,
        concat(sep, whole),
        table,
    );
    both_step(elem, parse_step(elem, table), opt_step(rest), whole, table)
}

/// The input that the steps of a repetition with a separator take is made of elements with
/// separators between them, and one after the last of them where that is allowed.
proof fn sep_take_input(
    rule: RuleSpec,
    elem: RuleSpec,
    sep: RuleSpec,
    kind: SepKind,
    table: Option<Seq<RuleSpec>>,
    again: spec_fn(Trace) -> bool,
    u: Trace,
) -> (parts: Seq<Trace>)
    requires
        rule == RuleSpec::RepeatMany(Box::new(elem), Some((Box::new(sep), kind))) || rule
            == RuleSpec::RepeatMore(Box::new(elem), Some((Box::new(sep), kind))),
        can_do(
            sep_step(elem, parse_step(elem, table), sep, parse_step(sep, table), kind, table),
            again,
            u,
        ),
    ensures
        parts.len() > 0,
        kind is Simple ==> parts.len() % 2 == 1,
        flat(parts) == input_of(u),
        alternate(elem, sep, parts),
        table is None ==> input_of(u) == u,
    decreases rule, 0nat, 1nat, 0nat,
{
    match rule {
        RuleSpec::RepeatMany(e, Some((b, _))) | RuleSpec::RepeatMore(e, Some((b, _))) => {
            assert(decreases_to!(rule => *e));
            assert(decreases_to!(rule => *b));
        },
        _ => {},
    }
    let body = simple_body(elem, sep, table);
    let simple = ThunkSpec::Fix(Box::new(body));
    match kind {
        SepKind::Simple => {
            let k = choose|k: nat| #[trigger] is_depth(k) && can_repeat(body, k, u);
            simple_take_input(rule, elem, sep, kind, table, k, u)
        },
        SepKind::Trailing => {
            let between = parse_step(sep, table);
            let last = opt_step(between);
            let i = choose|i: int|
                0 <= i <= u.len() && can_do(simple, again, #[trigger] u.take(i)) && can_do(
                    last,
                    again,
                    u.skip(i),
                );
            let (a, b) = (u.take(i), u.skip(i));
            assert(u =~= a + b);
            input_of_sum(a, b);
            opt_does(between, again, b);
            let k = choose|k: nat| #[trigger] is_depth(k) && can_repeat(body, k, a);
            let front = simple_take_input(rule, elem, sep, kind, table, k, a);
            if b.len() == 0 {
                assert(input_of(a) + input_of(b) =~= input_of(a));
                front
            } else {
                steps_take_input(sep, table, again, b);
                let parts = front.push(input_of(b));
                assert(parts.drop_last() =~= front);
                parts
            }
        },
    }
}

proof fn simple_take_input(
    rule: RuleSpec,
    elem: RuleSpec,
    sep: RuleSpec,
    kind: SepKind,
    table: Option<Seq<RuleSpec>>,
    k: nat,
    u: Trace,
) -> (parts: Seq<Trace>)
    requires
        rule == RuleSpec::RepeatMany(Box::new(elem), Some((Box::new(sep), kind))) || rule
            == RuleSpec::RepeatMore(Box::new(elem), Some((Box::new(sep), kind))),
        can_repeat(simple_body(elem, sep, table), k, u),
    ensures
        parts.len() % 2 == 1,
        flat(parts) == input_of(u),
        alternate(elem, sep, parts),
        table is None ==> input_of(u) == u,
    decreases rule, 0nat, 0nat, k,
{
    match rule {
        RuleSpec::RepeatMany(e, Some((b, _))) | RuleSpec::RepeatMore(e, Some((b, _))) => {
            assert(decreases_to!(rule => *e));
            assert(decreases_to!(rule => *b));
        },
        _ => {},
    }
    let whole = more_sep(elem, sep, SepKind::Simple);
    let elem_step = parse_step(elem, table);
    let between = parse_step(sep, table);
    let rest = both_step(sep, between, ThunkSpec::CallFix, concat(sep, whole), table);
    let body = simple_body(elem, sep, table);
    let again = once_more(body, k);
    let (a, b) = both_do(elem, elem_step, opt_step(rest), whole, table, again, u);
    opt_does(rest, again, b);
    steps_take_input(elem, table, again, a);
    if b.len() == 0 {
        let parts = seq![input_of(a)];
        flat_first(input_of(a), Seq::empty());
        assert(parts + Seq::<Trace>::empty() =~= parts);
        assert(input_of(b) =~= Seq::empty());
        parts
    } else {
        let (c, d) = both_do(
            sep,
            between,
            ThunkSpec::CallFix,
            concat(sep, whole),
            table,
            again,
            b,
        );
        assert(again(d));
        steps_take_input(sep, table, again, c);
        let last = simple_take_input(rule, elem, sep, kind, table, (k - 1) as nat, d);
        let tail = seq![input_of(c)] + last;
        let parts = seq![input_of(a)] + tail;
        flat_first(input_of(c), last);
        flat_first(input_of(a), tail);
        assert forall|i: int| 0 <= i < parts.len() implies if i % 2 == 0 {
            stands_for(elem, #[trigger] parts[i])
        } else {
            stands_for(sep, parts[i])
        } by {
            if i > 1 {
                assert(parts[i] == last[i - 2]);
            }
        }
        parts
    }
}

/// Parsing a case takes what the step of the case does.
pub proof fn case_does(
    case: RuleSpec,
    step: ThunkSpec,
    whole: RuleSpec,
    table: Option<Seq<RuleSpec>>,
    again: spec_fn(Trace) -> bool,
    u: Trace,
) -> (a: Trace)
    requires
        can_do(case_step(case, step, whole, table), again, u),
    ensures
        can_do(step, again, a),
        input_of(u) == input_of(a),
        table is None ==> u == a,
        table matches Some(t) ==> u == a.push(
            EventSpec::Choice(kind_of(whole, t), kind_of(case, t)),
        ),
{
    match table {
        None => u,
        Some(t) => {
            let note = add_choice_step(kind_of(whole, t), kind_of(case, t));
            let i = choose|i: int|
                0 <= i <= u.len() && can_do(step, again, #[trigger] u.take(i)) && can_do(
                    note,
                    again,
                    u.skip(i),
                );
            let a = u.take(i);
            assert(note->Emit_0[0] is AddChoice);
            assert(u.skip(i)[0] == u[i]);
            assert(u =~= a.push(u[i]));
            assert(u.drop_last() =~= a);
            a
        },
    }
}

/// All input that a rule stands for is taken by the steps of the rule, whether or not they note
/// nodes.
pub proof fn input_is_taken(
    rule: RuleSpec,
    table: Option<Seq<RuleSpec>>,
    again: spec_fn(Trace) -> bool,
    w: Trace,
) -> (u: Trace)
    requires
        stands_for(rule, w),
    ensures
        can_do(parse_step(rule, table), again, u),
        input_of(u) == w,
        table is None ==> u == w,
    decreases rule, 1nat, 0nat,
{
    match rule {
        RuleSpec::Empty => {
            w
        },
        RuleSpec::Eat(pat) => {
            reveal_with_fuel(input_of, 2);
            assert(input_of(w) =~= w);
            assert(is_match(fill(EAT@, seq![pat.matcher]), pat.matcher));
            w
        },
        RuleSpec::Call(name) => {
            reveal_with_fuel(input_of, 2);
            assert(input_of(w) =~= w);
            w
        },
        RuleSpec::Concat(left, right) => {
            let i = choose|i: int|
                0 <= i <= w.len() && stands_for(*left, #[trigger] w.take(i)) && stands_for(
                    *right,
                    w.skip(i),
                );
            let a = input_is_taken(*left, table, again, w.take(i));
            let b = input_is_taken(*right, table, again, w.skip(i));
            assert(w =~= w.take(i) + w.skip(i));
            no_pop(*right, table);
            both_done(
                *left,
                parse_step(*left, table),
                parse_step(*right, table),
                rule,
                table,
                again,
                a,
                b,
            )
        },
        RuleSpec::Or(cases) => {
            let ts = parse_step(rule, table)->Parallel_0;
            let i = choose|i: int| 0 <= i < cases.len() && stands_for(#[trigger] cases[i], w);
            let a = input_is_taken(cases[i], table, again, w);
            let u = case_done(cases[i], parse_step(cases[i], table), rule, table, again, a);
            assert(can_do(ts[i], again, u));
            u
        },
        RuleSpec::Opt(inner) => {
            let u = if w.len() == 0 {
                assert(input_of(w) =~= w);
                w
            } else {
                input_is_taken(*inner, table, again, w)
            };
            opt_does(parse_step(*inner, table), again, u);
            u
        },
        RuleSpec::RepeatMany(elem, None) => {
            let parts = choose|parts: Seq<Trace>| #[trigger]
                flat(parts) == w && forall|i: int|
                    0 <= i < parts.len() ==> stands_for(*elem, #[trigger] parts[i]);
            let (k, u) = many_is_taken(rule, *elem, table, parts);
            assert(is_depth(k));
            u
        },
        RuleSpec::RepeatMore(elem, None) => {
            let parts = choose|parts: Seq<Trace>|
                parts.len() > 0 && #[trigger] flat(parts) == w && forall|i: int|
                    0 <= i < parts.len() ==> stands_for(*elem, #[trigger] parts[i]);
            let (k, u) = more_is_taken(rule, *elem, table, parts);
            assert(is_depth(k));
            u
        },
        RuleSpec::RepeatMany(elem, Some((sep, kind))) => {
            let step = sep_step(
                *elem,
                parse_step(*elem, table),
                *sep,
                parse_step(*sep, table),
                kind,
                table,
            );
            let u = if w.len() == 0 {
                assert(input_of(w) =~= w);
                w
            } else {
                let parts = choose|parts: Seq<Trace>|
                    parts.len() > 0 && (kind is Simple ==> parts.len() % 2 == 1)
                        && #[trigger] flat(parts) == w && forall|i: int|
                        0 <= i < parts.len() ==> if i % 2 == 0 {
                            stands_for(*elem, #[trigger] parts[i])
                        } else {
                            stands_for(*sep, parts[i])
                        };
                sep_is_taken(rule, *elem, *sep, kind, table, again, parts)
            };
            opt_does(step, again, u);
            u
        },
        RuleSpec::RepeatMore(elem, Some((sep, kind))) => {
            let parts = choose|parts: Seq<Trace>|
                parts.len() > 0 && (kind is Simple ==> parts.len() % 2 == 1)
                    && #[trigger] flat(parts) == w && forall|i: int|
                    0 <= i < parts.len() ==> if i % 2 == 0 {
                        stands_for(*elem, #[trigger] parts[i])
                    } else {
                        stands_for(*sep, parts[i])
                    };
            sep_is_taken(rule, *elem, *sep, kind, table, again, parts)
        },
    }
}

/// What the step of a case takes, parsing the case takes as well.
pub proof fn case_done(
    case: RuleSpec,
    step: ThunkSpec,
    whole: RuleSpec,
    table: Option<Seq<RuleSpec>>,
    again: spec_fn(Trace) -> bool,
    a: Trace,
) -> (u: Trace)
    requires
        can_do(step, again, a),
    ensures
        can_do(case_step(case, step, whole, table), again, u),
        input_of(u) == input_of(a),
        table is None ==> u == a,
        table matches Some(t) ==> u == a.push(
            EventSpec::Choice(kind_of(whole, t), kind_of(case, t)),
        ),
{
    match table {
        None => a,
        Some(t) => {
            let note = add_choice_step(kind_of(whole, t), kind_of(case, t));
            let u = a.push(EventSpec::Choice(kind_of(whole, t), kind_of(case, t)));
            let i = a.len() as int;
            assert(u.take(i) =~= a);
            assert(can_do(note, again, u.skip(i)));
            assert(u.drop_last() =~= a);
            u
        },
    }
}

/// A first part, and the parts after it.
proof fn flat_parts(parts: Seq<Trace>)
    requires
        parts.len() > 0,
    ensures
        flat(parts) == parts[0] + flat(parts.skip(1)),
{
    flat_first(parts[0], parts.skip(1));
    assert(seq![parts[0]] + parts.skip(1) =~= parts);
}

proof fn many_is_taken(
    rule: RuleSpec,
    elem: RuleSpec,
    table: Option<Seq<RuleSpec>>,
    parts: Seq<Trace>,
) -> (r: (nat, Trace))
    requires
        rule == RuleSpec::RepeatMany(Box::new(elem), None),
        forall|i: int| 0 <= i < parts.len() ==> stands_for(elem, #[trigger] parts[i]),
    ensures
        can_repeat(
            opt_step(
                both_step(
                    elem,
                    parse_step(elem, table),
                    ThunkSpec::CallFix,
                    more(elem),
                    table,
                ),
            ),
            r.0,
            r.1,
        ),
        input_of(r.1) == flat(parts),
        table is None ==> r.1 == flat(parts),
    decreases rule, 0nat, parts.len(),
{
    match rule {
        RuleSpec::RepeatMany(e, _) => {
            assert(decreases_to!(rule => *e));
        },
        _ => {},
    }
    let step = parse_step(elem, table);
    let both = both_step(elem, step, ThunkSpec::CallFix, more(elem), table);
    let body = opt_step(both);
    if parts.len() == 0 {
        let u: Trace = Seq::empty();
        opt_does(both, once_more(body, 1), u);
        (1, u)
    } else {
        let rest = parts.skip(1);
        flat_parts(parts);
        assert forall|i: int| 0 <= i < rest.len() implies stands_for(elem, #[trigger] rest[i]) by {
            assert(rest[i] == parts[i + 1]);
        }
        let (k, v) = many_is_taken(rule, elem, table, rest);
        let again = once_more(body, k + 1);
        assert(again(v));
        let a = input_is_taken(elem, table, again, parts[0]);
        let u = both_done(elem, step, ThunkSpec::CallFix, more(elem), table, again, a, v);
        opt_does(both, again, u);
        (k + 1, u)
    }
}

proof fn more_is_taken(
    rule: RuleSpec,
    elem: RuleSpec,
    table: Option<Seq<RuleSpec>>,
    parts: Seq<Trace>,
) -> (r: (nat, Trace))
    requires
        rule == RuleSpec::RepeatMore(Box::new(elem), None),
        parts.len() > 0,
        forall|i: int| 0 <= i < parts.len() ==> stands_for(elem, #[trigger] parts[i]),
    ensures
        can_repeat(
            both_step(
                elem,
                parse_step(elem, table),
                opt_step(ThunkSpec::CallFix),
                rule,
                table,
            ),
            r.0,
            r.1,
        ),
        input_of(r.1) == flat(parts),
        table is None ==> r.1 == flat(parts),
    decreases rule, 0nat, parts.len(),
{
    match rule {
        RuleSpec::RepeatMore(e, _) => {
            assert(decreases_to!(rule => *e));
        },
        _ => {},
    }
    let step = parse_step(elem, table);
    let next = opt_step(ThunkSpec::CallFix);
    let body = both_step(elem, step, next, rule, table);
    let rest = parts.skip(1);
    flat_parts(parts);
    let (k, v) = if rest.len() == 0 {
        let v: Trace = Seq::empty();
        assert(flat(rest) =~= v);
        (0nat, v)
    } else {
        assert forall|i: int| 0 <= i < rest.len() implies stands_for(elem, #[trigger] rest[i]) by {
            assert(rest[i] == parts[i + 1]);
        }
        more_is_taken(rule, elem, table, rest)
    };
    let again = once_more(body, k + 1);
    assert(rest.len() > 0 ==> again(v));
    opt_does(ThunkSpec::CallFix, again, v);
    let a = input_is_taken(elem, table, again, parts[0]);
    let u = both_done(elem, step, next, rule, table, again, a, v);
    (k + 1, u)
}

proof fn sep_is_taken(
    rule: RuleSpec,
    elem: RuleSpec,
    sep: RuleSpec,
    kind: SepKind,
    table: Option<Seq<RuleSpec>>,
    again: spec_fn(Trace) -> bool,
    parts: Seq<Trace>,
) -> (u: Trace)
    requires
        rule == RuleSpec::RepeatMany(Box::new(elem), Some((Box::new(sep), kind))) || rule
            == RuleSpec::RepeatMore(Box::new(elem), Some((Box::new(sep), kind))),
        parts.len() > 0,
        kind is Simple ==> parts.len() % 2 == 1,
        alternate(elem, sep, parts),
    ensures
        can_do(
            sep_step(elem, parse_step(elem, table), sep, parse_step(sep, table), kind, table),
            again,
            u,
        ),
        input_of(u) == flat(parts),
        table is None ==> u == flat(parts),
    decreases rule, 0nat, parts.len() + 1,
{
    match rule {
        RuleSpec::RepeatMany(e, Some((b, _))) | RuleSpec::RepeatMore(e, Some((b, _))) => {
            assert(decreases_to!(rule => *b));
        },
        _ => {},
    }
    let body = simple_body(elem, sep, table);
    let simple = ThunkSpec::Fix(Box::new(body));
    let between = parse_step(sep, table);
    let odd = parts.len() % 2 == 1;
    let front = if odd {
        parts
    } else {
        parts.drop_last()
    };
    let (k, a) = simple_is_taken(rule, elem, sep, kind, table, front);
    assert(is_depth(k));
    assert(can_do(simple, again, a));
    match kind {
        SepKind::Simple => a,
        SepKind::Trailing => {
            let last = opt_step(between);
            let b = if odd {
                let b: Trace = Seq::empty();
                assert(a + b =~= a);
                b
            } else {
                assert(stands_for(sep, parts[parts.len() - 1]));
                input_is_taken(sep, table, again, parts[parts.len() - 1])
            };
            opt_does(between, again, b);
            let u = a + b;
            input_of_sum(a, b);
            assert(input_of(a) + Seq::empty() =~= input_of(a));
            let i = a.len() as int;
            assert(u.take(i) =~= a);
            assert(u.skip(i) =~= b);
            u
        },
    }
}

proof fn simple_is_taken(
    rule: RuleSpec,
    elem: RuleSpec,
    sep: RuleSpec,
    kind: SepKind,
    table: Option<Seq<RuleSpec>>,
    parts: Seq<Trace>,
) -> (r: (nat, Trace))
    requires
        rule == RuleSpec::RepeatMany(Box::new(elem), Some((Box::new(sep), kind))) || rule
            == RuleSpec::RepeatMore(Box::new(elem), Some((Box::new(sep), kind))),
        parts.len() % 2 == 1,
        alternate(elem, sep, parts),
    ensures
        can_repeat(simple_body(elem, sep, table), r.0, r.1),
        input_of(r.1) == flat(parts),
        table is None ==> r.1 == flat(parts),
    decreases rule, 0nat, parts.len(),
{
    match rule {
        RuleSpec::RepeatMany(e, Some((b, _))) | RuleSpec::RepeatMore(e, Some((b, _))) => {
            assert(decreases_to!(rule => *e));
            assert(decreases_to!(rule => *b));
        },
        _ => {},
    }
    let whole = more_sep(elem, sep, SepKind::Simple);
    let elem_step = parse_step(elem, table);
    let between = parse_step(sep, table);
    let rest = both_step(sep, between, ThunkSpec::CallFix, concat(sep, whole), table);
    let body = simple_body(elem, sep, table);
    let tail = parts.skip(1);
    flat_parts(parts);
    assert(stands_for(elem, parts[0]));
    if parts.len() == 1 {
        let again = once_more(body, 1);
        let a = input_is_taken(elem, table, again, parts[0]);
        let b: Trace = Seq::empty();
        assert(flat(tail) =~= b);
        opt_does(rest, again, b);
        let u = both_done(elem, elem_step, opt_step(rest), whole, table, again, a, b);
        (1, u)
    } else {
        let last = tail.skip(1);
        flat_parts(tail);
        assert(tail[0] == parts[1]);
        assert forall|i: int| 0 <= i < last.len() implies if i % 2 == 0 {
            stands_for(elem, #[trigger] last[i])
        } else {
            stands_for(sep, last[i])
        } by {
            assert(last[i] == parts[i + 2]);
        }
        let (k, d) = simple_is_taken(rule, elem, sep, kind, table, last);
        let again = once_more(body, k + 1);
        assert(again(d));
        let a = input_is_taken(elem, table, again, parts[0]);
        let c = input_is_taken(sep, table, again, parts[1]);
        let b = both_done(
            sep,
            between,
            ThunkSpec::CallFix,
            concat(sep, whole),
            table,
            again,
            c,
            d,
        );
        opt_does(rest, again, b);
        let u = both_done(elem, elem_step, opt_step(rest), whole, table, again, a, b);
        (k + 1, u)
    }
}

} // verus!
