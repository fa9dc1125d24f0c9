//! Why the nodes that generated code notes are those that the declared shapes speak of.
use crate::language::{
    both_do, both_done, can_do, can_repeat, case_does, case_done, eat_matches, is_depth, is_match,
    no_pop, once_more, opt_does, simple_body, EventSpec, Trace,
};
use crate::node::ParseNodeShape;
use crate::parse::{both_step, case_step, parse_step, sep_step, EAT};
use crate::rule::{concat, many, more, more_sep, optional, RuleSpec, SepKind};
use crate::table::{kind_of, shape_of, shape_parts};
use crate::thunk::{opt_step, ThunkSpec};
use crate::tokens::fill;
use vstd::prelude::*;

verus! {

/// Whether a trace notes the nodes of a rule as their shapes say, where shapes are looked at less
/// than `k` times inside of each other. A node that is split is made of the nodes of the two parts
/// of its shape, one after the other, the first of which is taken back for the note. A choice is
/// noted with the kind of one of its cases. A node that may be missing is not there, or is that of
/// the part of its shape. Of a repetition whose separator may come last, only the two parts are
/// noted.
pub open spec fn notes(rule: RuleSpec, table: Seq<RuleSpec>, u: Trace, k: nat) -> bool
    decreases k,
{
    k > 0 && match rule {
        RuleSpec::Empty => u.len() == 0,
        RuleSpec::Eat(pat) => u == seq![EventSpec::Eat(pat.matcher)],
        RuleSpec::Call(name) => u == seq![EventSpec::Rule(name)],
        RuleSpec::Or(cases) => shape_of(rule, table) is Choice && u.len() > 0 && exists|i: int|
            0 <= i < cases.len() && u.last() == EventSpec::Choice(
                kind_of(rule, table),
                kind_of(#[trigger] cases[i], table),
            ) && notes(cases[i], table, u.drop_last(), (k - 1) as nat),
        RuleSpec::RepeatMore(_, Some((_, SepKind::Trailing))) => exists|i: int|
            0 <= i <= u.len() && notes(
                shape_parts(rule)[0],
                table,
                #[trigger] u.take(i),
                (k - 1) as nat,
            ) && notes(shape_parts(rule)[1], table, u.skip(i), (k - 1) as nat),
        _ => match shape_of(rule, table) {
            ParseNodeShape::Opt(_) => u.len() == 0 || notes(
                shape_parts(rule)[0],
                table,
                u,
                (k - 1) as nat,
            ),
            ParseNodeShape::Split(left, _) => {
                let n = u.len() - 2;
                &&& n >= 0
                &&& u[n] == EventSpec::Take(left)
                &&& u[n + 1] == EventSpec::Split(kind_of(rule, table))
                &&& exists|i: int|
                    0 <= i <= n && notes(
                        shape_parts(rule)[0],
                        table,
                        #[trigger] u.take(i),
                        (k - 1) as nat,
                    ) && notes(shape_parts(rule)[1], table, u.subrange(i, n), (k - 1) as nat)
            },
            _ => false,
        },
    }
}

/// Whether the nodes of a rule are noted as made of two others.
pub open spec fn is_split(rule: RuleSpec) -> bool {
    match rule {
        RuleSpec::Concat(..) => true,
        RuleSpec::RepeatMore(_, None) => true,
        RuleSpec::RepeatMore(_, Some((_, kind))) => kind is Simple,
        _ => false,
    }
}

proof fn notes_more(rule: RuleSpec, table: Seq<RuleSpec>, u: Trace, k: nat, m: nat)
    requires
        notes(rule, table, u, k),
        k <= m,
    ensures
        notes(rule, table, u, m),
    decreases k,
{
    let (j, l) = ((k - 1) as nat, (m - 1) as nat);
    match rule {
        RuleSpec::Empty | RuleSpec::Eat(_) | RuleSpec::Call(_) => {},
        RuleSpec::Or(cases) => {
            let i = choose|i: int|
                0 <= i < cases.len() && u.last() == EventSpec::Choice(
                    kind_of(rule, table),
                    kind_of(#[trigger] cases[i], table),
                ) && notes(cases[i], table, u.drop_last(), j);
            notes_more(cases[i], table, u.drop_last(), j, l);
        },
        RuleSpec::Opt(_) | RuleSpec::RepeatMany(..) => {
            if u.len() > 0 {
                notes_more(shape_parts(rule)[0], table, u, j, l);
            }
        },
        RuleSpec::RepeatMore(_, Some((_, SepKind::Trailing))) => {
            let i = choose|i: int|
                0 <= i <= u.len() && notes(shape_parts(rule)[0], table, #[trigger] u.take(i), j)
                    && notes(shape_parts(rule)[1], table, u.skip(i), j);
            notes_more(shape_parts(rule)[0], table, u.take(i), j, l);
            notes_more(shape_parts(rule)[1], table, u.skip(i), j, l);
        },
        RuleSpec::Concat(..) | RuleSpec::RepeatMore(..) => {
            let (a, b) = split_parts(rule, table, u, k);
            notes_more(shape_parts(rule)[0], table, a, j, l);
            notes_more(shape_parts(rule)[1], table, b, j, l);
            split_whole(rule, table, a, b, l);
        },
    }
}

/// The traces of the two parts of a node that is split.
proof fn split_parts(rule: RuleSpec, table: Seq<RuleSpec>, u: Trace, k: nat) -> (r: (Trace, Trace))
    requires
        is_split(rule),
        notes(rule, table, u, k),
    ensures
        k > 0,
        notes(shape_parts(rule)[0], table, r.0, (k - 1) as nat),
        notes(shape_parts(rule)[1], table, r.1, (k - 1) as nat),
        u == r.0 + r.1 + seq![
            EventSpec::Take(kind_of(shape_parts(rule)[0], table)),
            EventSpec::Split(kind_of(rule, table)),
        ],
{
    let n = u.len() - 2;
    let i = choose|i: int|
        0 <= i <= n && notes(shape_parts(rule)[0], table, #[trigger] u.take(i), (k - 1) as nat)
            && notes(shape_parts(rule)[1], table, u.subrange(i, n), (k - 1) as nat);
    let (a, b) = (u.take(i), u.subrange(i, n));
    assert(u =~= a + b + seq![
        EventSpec::Take(kind_of(shape_parts(rule)[0], table)),
        EventSpec::Split(kind_of(rule, table)),
    ]);
    (a, b)
}

proof fn split_whole(rule: RuleSpec, table: Seq<RuleSpec>, a: Trace, b: Trace, k: nat)
    requires
        is_split(rule),
        notes(shape_parts(rule)[0], table, a, k),
        notes(shape_parts(rule)[1], table, b, k),
    ensures
        notes(
            rule,
            table,
            a + b + seq![
                EventSpec::Take(kind_of(shape_parts(rule)[0], table)),
                EventSpec::Split(kind_of(rule, table)),
            ],
            k + 1,
        ),
{
    let u = a + b + seq![
        EventSpec::Take(kind_of(shape_parts(rule)[0], table)),
        EventSpec::Split(kind_of(rule, table)),
    ];
    let n = u.len() - 2;
    let i = a.len() as int;
    assert(u.take(i) =~= a);
    assert(u.subrange(i, n) =~= b);
}

spec fn larger(a: nat, b: nat) -> nat {
    if a < b {
        b
    } else {
        a
    }
}

/// Two parts that are noted, each as often as it takes, make up a node that is noted.
proof fn split_noted(
    rule: RuleSpec,
    table: Seq<RuleSpec>,
    a: Trace,
    i: nat,
    b: Trace,
    j: nat,
) -> (k: nat)
    requires
        is_split(rule),
        notes(shape_parts(rule)[0], table, a, i),
        notes(shape_parts(rule)[1], table, b, j),
    ensures
        notes(
            rule,
            table,
            a + b + seq![
                EventSpec::Take(kind_of(shape_parts(rule)[0], table)),
                EventSpec::Split(kind_of(rule, table)),
            ],
            k,
        ),
{
    let k = larger(i, j);
    notes_more(shape_parts(rule)[0], table, a, i, k);
    notes_more(shape_parts(rule)[1], table, b, j, k);
    split_whole(rule, table, a, b, k);
    k + 1
}

/// The steps of a rule note nodes as their shapes say.
pub proof fn steps_note_shapes(
    rule: RuleSpec,
    table: Seq<RuleSpec>,
    again: spec_fn(Trace) -> bool,
    u: Trace,
) -> (k: nat)
    requires
        can_do(parse_step(rule, Some(table)), again, u),
    ensures
        notes(rule, table, u, k),
    decreases rule, 1nat, 0nat, 0nat,
{
    let nodes = Some(table);
    match rule {
        RuleSpec::Empty => 1,
        RuleSpec::Eat(pat) => {
            eat_matches(pat.matcher, u[0]->Eat_0);
            assert(u =~= seq![EventSpec::Eat(pat.matcher)]);
            1
        },
        RuleSpec::Call(name) => 1,
        RuleSpec::Concat(left, right) => {
            no_pop(*right, nodes);
            let (a, b) = both_do(
                *left,
                parse_step(*left, nodes),
                parse_step(*right, nodes),
                rule,
                nodes,
                again,
                u,
            );
            let i = steps_note_shapes(*left, table, again, a);
            let j = steps_note_shapes(*right, table, again, b);
            split_noted(rule, table, a, i, b, j)
        },
        RuleSpec::Or(cases) => {
            let ts = parse_step(rule, nodes)->Parallel_0;
            let i = choose|i: int| 0 <= i < ts.len() && can_do(#[trigger] ts[i], again, u);
            let step = parse_step(cases[i], nodes);
            assert(ts[i] == case_step(cases[i], step, rule, nodes));
            let a = case_does(cases[i], step, rule, nodes, again, u);
            let k = steps_note_shapes(cases[i], table, again, a);
            assert(u.drop_last() =~= a);
            k + 1
        },
        RuleSpec::Opt(inner) => {
            opt_does(parse_step(*inner, nodes), again, u);
            if u.len() == 0 {
                1
            } else {
                let k = steps_note_shapes(*inner, table, again, u);
                assert(shape_parts(rule)[0] == *inner);
                k + 1
            }
        },
        RuleSpec::RepeatMany(elem, None) => {
            let step = parse_step(*elem, nodes);
            let body = opt_step(both_step(*elem, step, ThunkSpec::CallFix, more(*elem), nodes));
            let k = choose|k: nat| #[trigger] is_depth(k) && can_repeat(body, k, u);
            many_notes(rule, *elem, table, k, u)
        },
        RuleSpec::RepeatMore(elem, None) => {
            let step = parse_step(*elem, nodes);
            let body = both_step(*elem, step, opt_step(ThunkSpec::CallFix), rule, nodes);
            let k = choose|k: nat| #[trigger] is_depth(k) && can_repeat(body, k, u);
            more_notes(rule, *elem, table, k, u)
        },
        RuleSpec::RepeatMany(elem, Some((sep, kind))) => {
            let step = sep_step(
                *elem,
                parse_step(*elem, nodes),
                *sep,
                parse_step(*sep, nodes),
                kind,
                nodes,
            );
            opt_does(step, again, u);
            if u.len() == 0 {
                1
            } else {
                let j = kind_notes(rule, *elem, *sep, kind, table, again, u);
                assert(shape_parts(rule)[0] == more_sep(*elem, *sep, kind));
                j + 1
            }
        },
        RuleSpec::RepeatMore(elem, Some((sep, kind))) => {
            kind_notes(rule, *elem, *sep, kind, table, again, u)
        },
    }
}

proof fn kind_notes(
    rule: RuleSpec,
    elem: RuleSpec,
    sep: RuleSpec,
    kind: SepKind,
    table: Seq<RuleSpec>,
    again: spec_fn(Trace) -> bool,
    u: Trace,
) -> (r: nat)
    requires
        rule == RuleSpec::RepeatMany(Box::new(elem), Some((Box::new(sep), kind))) || rule
            == more_sep(elem, sep, kind),
        can_do(
            sep_step(
                elem,
                parse_step(elem, Some(table)),
                sep,
                parse_step(sep, Some(table)),
                kind,
                Some(table),
            ),
            again,
            u,
        ),
    ensures
        notes(more_sep(elem, sep, kind), table, u, r),
    decreases rule, 0nat, 1nat, 0nat,
{
    match rule {
        RuleSpec::RepeatMany(_, Some((b, _))) | RuleSpec::RepeatMore(_, Some((b, _))) => {
            assert(decreases_to!(rule => *b));
        },
        _ => {},
    }
    let nodes = Some(table);
    let body = simple_body(elem, sep, nodes);
    let simple = ThunkSpec::Fix(Box::new(body));
    match kind {
        SepKind::Simple => {
            let k = choose|k: nat| #[trigger] is_depth(k) && can_repeat(body, k, u);
            sep_notes(rule, elem, sep, kind, table, k, u)
        },
        SepKind::Trailing => {
            let whole = more_sep(elem, sep, kind);
            let between = parse_step(sep, nodes);
            let last = opt_step(between);
            let i = choose|i: int|
                0 <= i <= u.len() && can_do(simple, again, #[trigger] u.take(i)) && can_do(
                    last,
                    again,
                    u.skip(i),
                );
            let k = choose|k: nat| #[trigger] is_depth(k) && can_repeat(body, k, u.take(i));
            let x = sep_notes(rule, elem, sep, kind, table, k, u.take(i));
            opt_does(between, again, u.skip(i));
            assert(shape_parts(optional(sep))[0] == sep);
            let y = if u.skip(i).len() == 0 {
                1nat
            } else {
                steps_note_shapes(sep, table, again, u.skip(i)) + 1
            };
            assert(notes(optional(sep), table, u.skip(i), y));
            let m = larger(x, y);
            notes_more(more_sep(elem, sep, SepKind::Simple), table, u.take(i), x, m);
            notes_more(optional(sep), table, u.skip(i), y, m);
            assert(shape_parts(whole)[0] == more_sep(elem, sep, SepKind::Simple));
            assert(shape_parts(whole)[1] == optional(sep));
            m + 1
        },
    }
}

proof fn many_notes(
    rule: RuleSpec,
    elem: RuleSpec,
    table: Seq<RuleSpec>,
    k: nat,
    u: Trace,
) -> (r: nat)
    requires
        rule == many(elem),
        can_repeat(
            opt_step(
                both_step(
                    elem,
                    parse_step(elem, Some(table)),
                    ThunkSpec::CallFix,
                    more(elem),
                    Some(table),
                ),
            ),
            k,
            u,
        ),
    ensures
        notes(rule, table, u, r),
    decreases rule, 0nat, 0nat, k,
{
    match rule {
        RuleSpec::RepeatMany(e, _) => {
            assert(decreases_to!(rule => *e));
        },
        _ => {},
    }
    let nodes = Some(table);
    let step = parse_step(elem, nodes);
    let both = both_step(elem, step, ThunkSpec::CallFix, more(elem), nodes);
    let body = opt_step(both);
    let again = once_more(body, k);
    opt_does(both, again, u);
    if u.len() == 0 {
        1
    } else {
        let (a, b) = both_do(elem, step, ThunkSpec::CallFix, more(elem), nodes, again, u);
        assert(again(b));
        let i = steps_note_shapes(elem, table, again, a);
        let j = many_notes(rule, elem, table, (k - 1) as nat, b);
        let m = split_noted(more(elem), table, a, i, b, j);
        assert(shape_parts(rule)[0] == more(elem));
        m + 1
    }
}

proof fn more_notes(
    rule: RuleSpec,
    elem: RuleSpec,
    table: Seq<RuleSpec>,
    k: nat,
    u: Trace,
) -> (r: nat)
    requires
        rule == more(elem),
        can_repeat(
            both_step(
                elem,
                parse_step(elem, Some(table)),
                opt_step(ThunkSpec::CallFix),
                rule,
                Some(table),
            ),
            k,
            u,
        ),
    ensures
        notes(rule, table, u, r),
    decreases rule, 0nat, 0nat, k,
{
    match rule {
        RuleSpec::RepeatMore(e, _) => {
            assert(decreases_to!(rule => *e));
        },
        _ => {},
    }
    let nodes = Some(table);
    let step = parse_step(elem, nodes);
    let next = opt_step(ThunkSpec::CallFix);
    let body = both_step(elem, step, next, rule, nodes);
    let again = once_more(body, k);
    let (a, b) = both_do(elem, step, next, rule, nodes, again, u);
    opt_does(ThunkSpec::CallFix, again, b);
    let i = steps_note_shapes(elem, table, again, a);
    let j = if b.len() == 0 {
        1nat
    } else {
        assert(again(b));
        more_notes(rule, elem, table, (k - 1) as nat, b) + 1
    };
    assert(shape_parts(many(elem))[0] == rule);
    assert(notes(many(elem), table, b, j));
    split_noted(rule, table, a, i, b, j)
}

proof fn sep_notes(
    rule: RuleSpec,
    elem: RuleSpec,
    sep: RuleSpec,
    kind: SepKind,
    table: Seq<RuleSpec>,
    k: nat,
    u: Trace,
) -> (r: nat)
    requires
        rule == RuleSpec::RepeatMany(Box::new(elem), Some((Box::new(sep), kind))) || rule
            == more_sep(elem, sep, kind),
        can_repeat(simple_body(elem, sep, Some(table)), k, u),
    ensures
        notes(more_sep(elem, sep, SepKind::Simple), table, u, r),
    decreases rule, 0nat, 0nat, k,
{
    match rule {
        RuleSpec::RepeatMany(e, Some((b, _))) | RuleSpec::RepeatMore(e, Some((b, _))) => {
            assert(decreases_to!(rule => *e));
            assert(decreases_to!(rule => *b));
        },
        _ => {},
    }
    let nodes = Some(table);
    let whole = more_sep(elem, sep, SepKind::Simple);
    let elem_step = parse_step(elem, nodes);
    let between = parse_step(sep, nodes);
    let inner = concat(sep, whole);
    let rest = both_step(sep, between, ThunkSpec::CallFix, inner, nodes);
    let body = simple_body(elem, sep, nodes);
    let again = once_more(body, k);
    let (a, b) = both_do(elem, elem_step, opt_step(rest), whole, nodes, again, u);
    opt_does(rest, again, b);
    let i = steps_note_shapes(elem, table, again, a);
    assert(shape_parts(optional(inner))[0] == inner);
    assert(shape_parts(whole)[1] == optional(inner));
    let j = if b.len() == 0 {
        1nat
    } else {
        let (c, d) = both_do(sep, between, ThunkSpec::CallFix, inner, nodes, again, b);
        assert(again(d));
        let x = steps_note_shapes(sep, table, again, c);
        let y = sep_notes(rule, elem, sep, kind, table, (k - 1) as nat, d);
        split_noted(inner, table, c, x, d, y) + 1
    };
    assert(notes(optional(inner), table, b, j));
    split_noted(whole, table, a, i, b, j)
}

/// All that shapes say of the nodes of a rule, the steps of the rule can note.
pub proof fn shapes_are_noted(
    rule: RuleSpec,
    table: Seq<RuleSpec>,
    again: spec_fn(Trace) -> bool,
    u: Trace,
    k: nat,
)
    requires
        notes(rule, table, u, k),
    ensures
        can_do(parse_step(rule, Some(table)), again, u),
    decreases rule, 1nat, 0nat, 0nat,
{
    let nodes = Some(table);
    match rule {
        RuleSpec::Empty => {},
        RuleSpec::Eat(pat) => {
            assert(is_match(fill(EAT@, seq![pat.matcher]), pat.matcher));
        },
        RuleSpec::Call(name) => {},
        RuleSpec::Concat(left, right) => {
            let (a, b) = split_parts(rule, table, u, k);
            shapes_are_noted(*left, table, again, a, (k - 1) as nat);
            shapes_are_noted(*right, table, again, b, (k - 1) as nat);
            no_pop(*right, nodes);
            let all = both_done(
                *left,
                parse_step(*left, nodes),
                parse_step(*right, nodes),
                rule,
                nodes,
                again,
                a,
                b,
            );
            assert(all == u);
        },
        RuleSpec::Or(cases) => {
            let ts = parse_step(rule, nodes)->Parallel_0;
            let i = choose|i: int|
                0 <= i < cases.len() && u.last() == EventSpec::Choice(
                    kind_of(rule, table),
                    kind_of(#[trigger] cases[i], table),
                ) && notes(cases[i], table, u.drop_last(), (k - 1) as nat);
            shapes_are_noted(cases[i], table, again, u.drop_last(), (k - 1) as nat);
            let step = parse_step(cases[i], nodes);
            let all = case_done(cases[i], step, rule, nodes, again, u.drop_last());
            assert(all =~= u);
            assert(can_do(ts[i], again, u));
        },
        RuleSpec::Opt(inner) => {
            if u.len() > 0 {
                assert(shape_parts(rule)[0] == *inner);
                shapes_are_noted(*inner, table, again, u, (k - 1) as nat);
            }
            opt_does(parse_step(*inner, nodes), again, u);
        },
        RuleSpec::RepeatMany(elem, None) => {
            let j = many_is_noted(rule, *elem, table, k, u);
            assert(is_depth(j));
        },
        RuleSpec::RepeatMore(elem, None) => {
            let j = more_is_noted(rule, *elem, table, k, u);
            assert(is_depth(j));
        },
        RuleSpec::RepeatMany(elem, Some((sep, kind))) => {
            let step = sep_step(
                *elem,
                parse_step(*elem, nodes),
                *sep,
                parse_step(*sep, nodes),
                kind,
                nodes,
            );
            if u.len() > 0 {
                assert(shape_parts(rule)[0] == more_sep(*elem, *sep, kind));
                kind_is_noted(rule, *elem, *sep, kind, table, again, (k - 1) as nat, u);
            }
            opt_does(step, again, u);
        },
        RuleSpec::RepeatMore(elem, Some((sep, kind))) => {
            kind_is_noted(rule, *elem, *sep, kind, table, again, k, u);
        },
    }
}

proof fn kind_is_noted(
    rule: RuleSpec,
    elem: RuleSpec,
    sep: RuleSpec,
    kind: SepKind,
    table: Seq<RuleSpec>,
    again: spec_fn(Trace) -> bool,
    k: nat,
    u: Trace,
)
    requires
        rule == RuleSpec::RepeatMany(Box::new(elem), Some((Box::new(sep), kind))) || rule
            == more_sep(elem, sep, kind),
        notes(more_sep(elem, sep, kind), table, u, k),
    ensures
        can_do(
            sep_step(
                elem,
                parse_step(elem, Some(table)),
                sep,
                parse_step(sep, Some(table)),
                kind,
                Some(table),
            ),
            again,
            u,
        ),
    decreases rule, 0nat, 1nat, 0nat,
{
    match rule {
        RuleSpec::RepeatMany(_, Some((b, _))) | RuleSpec::RepeatMore(_, Some((b, _))) => {
            assert(decreases_to!(rule => *b));
        },
        _ => {},
    }
    let nodes = Some(table);
    let body = simple_body(elem, sep, nodes);
    let simple = ThunkSpec::Fix(Box::new(body));
    match kind {
        SepKind::Simple => {
            let j = sep_is_noted(rule, elem, sep, kind, table, k, u);
            assert(is_depth(j));
        },
        SepKind::Trailing => {
            let whole = more_sep(elem, sep, kind);
            let between = parse_step(sep, nodes);
            let last = opt_step(between);
            assert(shape_parts(whole)[0] == more_sep(elem, sep, SepKind::Simple));
            assert(shape_parts(whole)[1] == optional(sep));
            assert(shape_parts(optional(sep))[0] == sep);
            let i = choose|i: int|
                0 <= i <= u.len() && notes(
                    shape_parts(whole)[0],
                    table,
                    #[trigger] u.take(i),
                    (k - 1) as nat,
                ) && notes(shape_parts(whole)[1], table, u.skip(i), (k - 1) as nat);
            let j = sep_is_noted(rule, elem, sep, kind, table, (k - 1) as nat, u.take(i));
            assert(is_depth(j));
            assert(can_do(simple, again, u.take(i)));
            if u.skip(i).len() > 0 {
                shapes_are_noted(sep, table, again, u.skip(i), (k - 2) as nat);
            }
            opt_does(between, again, u.skip(i));
        },
    }
}

proof fn many_is_noted(
    rule: RuleSpec,
    elem: RuleSpec,
    table: Seq<RuleSpec>,
    k: nat,
    u: Trace,
) -> (r: nat)
    requires
        rule == many(elem),
        notes(rule, table, u, k),
    ensures
        can_repeat(
            opt_step(
                both_step(
                    elem,
                    parse_step(elem, Some(table)),
                    ThunkSpec::CallFix,
                    more(elem),
                    Some(table),
                ),
            ),
            r,
            u,
        ),
    decreases rule, 0nat, 0nat, k,
{
    match rule {
        RuleSpec::RepeatMany(e, _) => {
            assert(decreases_to!(rule => *e));
        },
        _ => {},
    }
    let nodes = Some(table);
    let step = parse_step(elem, nodes);
    let both = both_step(elem, step, ThunkSpec::CallFix, more(elem), nodes);
    let body = opt_step(both);
    if u.len() == 0 {
        opt_does(both, once_more(body, 1), u);
        1
    } else {
        assert(shape_parts(rule)[0] == more(elem));
        let (a, b) = split_parts(more(elem), table, u, (k - 1) as nat);
        assert(shape_parts(more(elem))[1] == rule);
        let j = many_is_noted(rule, elem, table, (k - 2) as nat, b);
        let again = once_more(body, j + 1);
        assert(again(b));
        shapes_are_noted(elem, table, again, a, (k - 2) as nat);
        let all = both_done(elem, step, ThunkSpec::CallFix, more(elem), nodes, again, a, b);
        assert(all == u);
        opt_does(both, again, u);
        j + 1
    }
}

proof fn more_is_noted(
    rule: RuleSpec,
    elem: RuleSpec,
    table: Seq<RuleSpec>,
    k: nat,
    u: Trace,
) -> (r: nat)
    requires
        rule == more(elem),
        notes(rule, table, u, k),
    ensures
        can_repeat(
            both_step(
                elem,
                parse_step(elem, Some(table)),
                opt_step(ThunkSpec::CallFix),
                rule,
                Some(table),
            ),
            r,
            u,
        ),
    decreases rule, 0nat, 0nat, k,
{
    match rule {
        RuleSpec::RepeatMore(e, _) => {
            assert(decreases_to!(rule => *e));
        },
        _ => {},
    }
    let nodes = Some(table);
    let step = parse_step(elem, nodes);
    let next = opt_step(ThunkSpec::CallFix);
    let body = both_step(elem, step, next, rule, nodes);
    let (a, b) = split_parts(rule, table, u, k);
    assert(shape_parts(rule)[1] == many(elem));
    assert(shape_parts(many(elem))[0] == rule);
    let j = if b.len() == 0 {
        0nat
    } else {
        more_is_noted(rule, elem, table, (k - 2) as nat, b)
    };
    let again = once_more(body, j + 1);
    assert(b.len() > 0 ==> again(b));
    opt_does(ThunkSpec::CallFix, again, b);
    shapes_are_noted(elem, table, again, a, (k - 1) as nat);
    let all = both_done(elem, step, next, rule, nodes, again, a, b);
    assert(all == u);
    j + 1
}

proof fn sep_is_noted(
    rule: RuleSpec,
    elem: RuleSpec,
    sep: RuleSpec,
    kind: SepKind,
    table: Seq<RuleSpec>,
    k: nat,
    u: Trace,
) -> (r: nat)
    requires
        rule == RuleSpec::RepeatMany(Box::new(elem), Some((Box::new(sep), kind))) || rule
            == more_sep(elem, sep, kind),
        notes(more_sep(elem, sep, SepKind::Simple), table, u, k),
    ensures
        can_repeat(simple_body(elem, sep, Some(table)), r, u),
    decreases rule, 0nat, 0nat, k,
{
    match rule {
        RuleSpec::RepeatMany(e, Some((b, _))) | RuleSpec::RepeatMore(e, Some((b, _))) => {
            assert(decreases_to!(rule => *e));
            assert(decreases_to!(rule => *b));
        },
        _ => {},
    }
    let nodes = Some(table);
    let whole = more_sep(elem, sep, SepKind::Simple);
    let elem_step = parse_step(elem, nodes);
    let between = parse_step(sep, nodes);
    let inner = concat(sep, whole);
    let rest = both_step(sep, between, ThunkSpec::CallFix, inner, nodes);
    let body = simple_body(elem, sep, nodes);
    let (a, b) = split_parts(whole, table, u, k);
    assert(shape_parts(whole)[1] == optional(inner));
    assert(shape_parts(optional(inner))[0] == inner);
    let j = if b.len() == 0 {
        0nat
    } else {
        let (c, d) = split_parts(inner, table, b, (k - 2) as nat);
        let j = sep_is_noted(rule, elem, sep, kind, table, (k - 3) as nat, d);
        let again = once_more(body, j + 1);
        assert(again(d));
        shapes_are_noted(sep, table, again, c, (k - 3) as nat);
        let all = both_done(sep, between, ThunkSpec::CallFix, inner, nodes, again, c, d);
        assert(all == b);
        j
    };
    let again = once_more(body, j + 1);
    opt_does(rest, again, b);
    shapes_are_noted(elem, table, again, a, (k - 1) as nat);
    let all = both_done(elem, elem_step, opt_step(rest), whole, nodes, again, a, b);
    assert(all == u);
    j + 1
}

} // verus!
