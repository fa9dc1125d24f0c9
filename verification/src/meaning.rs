//! What the code of a grammar is for: it takes exactly the input that the rules stand for.
use crate::account::pieces;
use crate::balance::{level_applies, parse_level, within_self};
use crate::continuation::ContSpec;
use crate::generate::{
    code_table, rule_start, rule_step, rule_step_applies, rules_code, GrammarSpec,
};
use crate::instr::{InstrSpec, InstrsSpec};
use crate::label::{rule_label, LabelSpec};
use crate::labels::{declared_iff, each_label_has_code, rule_labels, rules_code_complete};
use crate::language::{
    input_is_taken, input_of, is_concat, stands_for, steps_take_input, EventSpec, Trace,
};
use crate::machine::{agrees, code_takes, cont_parts, cont_whole, fn_takes, takes_one, Program};
use crate::maps::{distinct_keys, has_key, key_at, value};
use crate::parse::{both_step, case_step, parse_step, sep_step};
use crate::rule::{concat, more, more_sep, RuleSpec, SepKind};
use crate::running::{arms_grow, code_can, code_does, fn_can, is_input, is_plain};
use crate::thunk::{apply, opt_step, ThunkSpec};
use vstd::prelude::*;

verus! {

/// The program that has each piece of code at its label.
pub open spec fn program(arms: Seq<(LabelSpec, InstrsSpec)>) -> Program {
    |label: LabelSpec| value(arms, label)
}

/// Whether the code of a rule with a name can take some input.
pub open spec fn rule_takes(
    arms: Seq<(LabelSpec, InstrsSpec)>,
    name: Seq<char>,
    w: Trace,
) -> bool {
    exists|n: nat| #[trigger]
        code_takes(program(arms), program(arms)(rule_label(name)), w, n)
}

proof fn opt_is_plain(t: ThunkSpec)
    requires
        is_plain(t),
    ensures
        is_plain(opt_step(t)),
{
    let ts = opt_step(t)->Parallel_0;
    assert forall|i: int| 0 <= i < ts.len() implies is_plain(#[trigger] ts[i]) by {
        if i == 0 {
            assert(ts[0] == t);
        } else {
            assert(ts[1] == ThunkSpec::Emit(Seq::empty()));
        }
    }
}

proof fn both_is_plain(
    left: RuleSpec,
    left_step: ThunkSpec,
    right_step: ThunkSpec,
    whole: RuleSpec,
    table: Option<Seq<RuleSpec>>,
)
    requires
        is_plain(left_step),
        is_plain(right_step),
    ensures
        is_plain(both_step(left, left_step, right_step, whole, table)),
{
    let t = both_step(left, left_step, right_step, whole, table);
    match table {
        None => {
            assert(!is_concat(t)) by {
                if is_concat(t) {
                    assert(right_step is Then);
                    assert(!is_plain(*right_step->Then_1));
                    assert(!is_concat(right_step));
                }
            }
        },
        Some(_) => {
            assert(is_concat(t));
        },
    }
}

/// The steps that parse a rule are made of calls, conditions, choices, repetitions and pairs.
proof fn steps_are_plain(rule: RuleSpec, table: Option<Seq<RuleSpec>>)
    ensures
        is_plain(parse_step(rule, table)),
    decreases rule,
{
    match rule {
        RuleSpec::Empty | RuleSpec::Eat(_) | RuleSpec::Call(_) => {},
        RuleSpec::Concat(left, right) => {
            steps_are_plain(*left, table);
            steps_are_plain(*right, table);
            both_is_plain(
                *left,
                parse_step(*left, table),
                parse_step(*right, table),
                rule,
                table,
            );
        },
        RuleSpec::Or(cases) => {
            let ts = parse_step(rule, table)->Parallel_0;
            assert forall|i: int| 0 <= i < ts.len() implies is_plain(#[trigger] ts[i]) by {
                steps_are_plain(cases[i], table);
                let step = parse_step(cases[i], table);
                assert(ts[i] == case_step(cases[i], step, rule, table));
                if table is Some {
                    assert(is_plain(*ts[i]->Then_1));
                }
            }
        },
        RuleSpec::Opt(inner) => {
            steps_are_plain(*inner, table);
            opt_is_plain(parse_step(*inner, table));
        },
        RuleSpec::RepeatMany(elem, None) => {
            let step = parse_step(*elem, table);
            steps_are_plain(*elem, table);
            both_is_plain(*elem, step, ThunkSpec::CallFix, more(*elem), table);
            opt_is_plain(both_step(*elem, step, ThunkSpec::CallFix, more(*elem), table));
        },
        RuleSpec::RepeatMore(elem, None) => {
            steps_are_plain(*elem, table);
            opt_is_plain(ThunkSpec::CallFix);
            both_is_plain(
                *elem,
                parse_step(*elem, table),
                opt_step(ThunkSpec::CallFix),
                rule,
                table,
            );
        },
        RuleSpec::RepeatMany(elem, Some((sep, kind))) => {
            steps_are_plain(*elem, table);
            steps_are_plain(*sep, table);
            sep_is_plain(*elem, *sep, kind, table);
            opt_is_plain(
                sep_step(
                    *elem,
                    parse_step(*elem, table),
                    *sep,
                    parse_step(*sep, table),
                    kind,
                    table,
                ),
            );
        },
        RuleSpec::RepeatMore(elem, Some((sep, kind))) => {
            steps_are_plain(*elem, table);
            steps_are_plain(*sep, table);
            sep_is_plain(*elem, *sep, kind, table);
        },
    }
}

proof fn sep_is_plain(
    elem: RuleSpec,
    sep: RuleSpec,
    kind: SepKind,
    table: Option<Seq<RuleSpec>>,
)
    requires
        is_plain(parse_step(elem, table)),
        is_plain(parse_step(sep, table)),
    ensures
        is_plain(
            sep_step(elem, parse_step(elem, table), sep, parse_step(sep, table), kind, table),
        ),
{
    let elem_step = parse_step(elem, table);
    let between = parse_step(sep, table);
    let whole = more_sep(elem, sep, SepKind::Simple);
    let rest = both_step(sep, between, ThunkSpec::CallFix, concat(sep, whole), table);
    both_is_plain(sep, between, ThunkSpec::CallFix, concat(sep, whole), table);
    opt_is_plain(rest);
    both_is_plain(elem, elem_step, opt_step(rest), whole, table);
    opt_is_plain(between);
    let body = both_step(elem, elem_step, opt_step(rest), whole, table);
    assert(is_plain(ThunkSpec::Fix(Box::new(body))));
}

/// The code of a rule takes exactly the input that the rule stands for, whatever the program is
/// that has the pieces of its code.
proof fn rule_code_takes(
    p: Program,
    rule: RuleSpec,
    table: Option<Seq<RuleSpec>>,
    label: LabelSpec,
    begin: ContSpec,
    w: Trace,
)
    requires
        label.1.len() == 0,
        begin.inline() == seq![InstrSpec::Ret],
        begin.frames.len() == 0,
        begin.fn_label == label,
        apply(parse_step(rule, table), label, begin) matches Some(done) && agrees(
            p,
            done.arms,
            begin.arms.len(),
        ),
    ensures
        (exists|n: nat| #[trigger]
            code_takes(p, apply(parse_step(rule, table), label, begin)->Some_0.inline(), w, n))
            <==> stands_for(rule, w),
{
    let step = parse_step(rule, table);
    let done = apply(step, label, begin)->Some_0;
    let none: Trace = Seq::empty();
    let from = begin.arms.len();
    parse_level(rule, table, 0);
    steps_are_plain(rule, table);
    within_self(begin);
    level_applies(step, 0, label, begin, begin.frames, label);
    assert(done.frames.len() == 0);
    let again = |u: Trace| u == seq![EventSpec::Rule(label.0)];
    let one = seq![EventSpec::Rule(label.0)];
    reveal_with_fuel(input_of, 2);
    assert(input_of(one) =~= one);
    if exists|n: nat| #[trigger] code_takes(p, done.inline(), w, n) {
        let n = choose|n: nat| #[trigger] code_takes(p, done.inline(), w, n);
        assert forall|v: Trace, m: nat| m <= n && #[trigger] fn_takes(
            p,
            label,
            v,
            m,
        ) implies is_input(again, v) by {
            assert(again(one));
            assert(input_of(one) == v);
        }
        cont_whole(p, done, w, none, n);
        assert(w + none =~= w);
        let (u, rest) = code_does(p, step, 0, label, begin, from, again, w, n);
        let (a, b) = cont_parts(p, begin, rest, n);
        takes_one(p, InstrSpec::Ret, a, n);
        assert(input_of(u) =~= w);
        steps_take_input(rule, table, again, u);
    }
    if stands_for(rule, w) {
        let u = input_is_taken(rule, table, again, w);
        assert forall|x: Trace| #[trigger] again(x) implies fn_can(p, label, input_of(x)) by {
            assert(fn_takes(p, label, input_of(x), 1));
        }
        takes_one(p, InstrSpec::Ret, none, 0);
        cont_whole(p, begin, none, none, 0);
        assert(none + none =~= none);
        let m = code_can(p, step, 0, label, begin, from, again, u, none, 0);
        let (a, b) = cont_parts(p, done, input_of(u) + none, m);
        assert(a =~= w);
    }
}

/// How many pieces of code the first `n` rules have.
pub open spec fn arms_before(g: GrammarSpec, n: nat, table: Seq<RuleSpec>) -> nat {
    rules_code(g, n, table).arms.len()
}

/// A label with one piece of code has it in one place.
proof fn one_place(arms: Seq<(LabelSpec, InstrsSpec)>, i: int, j: int)
    requires
        0 <= i < arms.len(),
        0 <= j < arms.len(),
        arms[i].0 == arms[j].0,
        pieces(arms, arms[i].0) <= 1,
    ensures
        i == j,
    decreases arms.len(),
{
    let label = arms[i].0;
    let front = arms.drop_last();
    let n = arms.len() - 1;
    if i < n && j < n {
        assert(front[i] == arms[i] && front[j] == arms[j]);
        one_place(front, i, j);
    } else if i < n || j < n {
        let k = if i < n {
            i
        } else {
            j
        };
        assert(front[k] == arms[k]);
        has_piece(front, k);
    }
}

proof fn has_piece(arms: Seq<(LabelSpec, InstrsSpec)>, k: int)
    requires
        0 <= k < arms.len(),
    ensures
        pieces(arms, arms[k].0) >= 1,
    decreases arms.len(),
{
    if k < arms.len() - 1 {
        assert(arms.drop_last()[k] == arms[k]);
        has_piece(arms.drop_last(), k);
    }
}

/// The code of a rule comes after that of the rules before it, and ends with the piece at the label
/// of the rule.
proof fn rule_code_ends(g: GrammarSpec, i: nat, n: nat, table: Seq<RuleSpec>)
    requires
        i < n <= g.len(),
    ensures
        ({
            let before = rules_code(g, i, table);
            let begin = rule_start(before, g[i as int].0).ret()->Some_0;
            let label = rule_label(g[i as int].0);
            let step = parse_step(g[i as int].1.rule, code_table(g[i as int].1, table));
            let done = apply(step, label, begin)->Some_0;
            let all = rules_code(g, n, table).arms;
            &&& apply(step, label, begin) is Some
            &&& begin.inline() == seq![InstrSpec::Ret]
            &&& begin.frames.len() == 0
            &&& begin.fn_label == label
            &&& begin.arms == before.arms
            &&& before.arms.len() <= done.arms.len()
            &&& arms_before(g, i + 1, table) == done.arms.len() + 1
            &&& done.arms.is_prefix_of(all)
            &&& done.arms.len() < all.len()
            &&& all[done.arms.len() as int] == (label, done.inline())
        }),
    decreases n - i,
{
    let name = g[i as int].0;
    let rule = g[i as int].1;
    let before = rules_code(g, i, table);
    let start = rule_start(before, name);
    let begin = start.ret()->Some_0;
    let label = rule_label(name);
    let step = parse_step(rule.rule, code_table(rule, table));
    let all = rules_code(g, n, table).arms;
    if n == i + 1 {
        rule_step_applies(before, name, rule, table);
        assert(apply(ThunkSpec::Ret, label, start) == Some(begin));
        assert(apply(rule_step(rule, table), label, start) == apply(step, label, begin));
        let done = apply(step, label, begin)->Some_0;
        arms_grow(step, label, begin);
        assert(all == done.arms.push((label, done.inline())));
        assert(done.arms =~= all.subrange(0, done.arms.len() as int));
    } else {
        rule_code_ends(g, i, (n - 1) as nat, table);
        rule_code_ends(g, (n - 1) as nat, n, table);
        let done = apply(step, label, begin)->Some_0;
        let earlier = rules_code(g, (n - 1) as nat, table).arms;
        let last = g[n - 1];
        let last_begin = rule_start(rules_code(g, (n - 1) as nat, table), last.0).ret()->Some_0;
        let last_step = parse_step(last.1.rule, code_table(last.1, table));
        arms_grow(last_step, rule_label(last.0), last_begin);
        let last_done = apply(last_step, rule_label(last.0), last_begin)->Some_0;
        assert(earlier.is_prefix_of(last_done.arms));
        assert(forall|k: int| 0 <= k < earlier.len() ==> earlier[k] == all[k]) by {
            assert forall|k: int| 0 <= k < earlier.len() implies earlier[k] == all[k] by {
                assert(earlier[k] == last_done.arms[k]);
                assert(last_done.arms[k] == all[k]);
            }
        }
        assert(done.arms =~= all.subrange(0, done.arms.len() as int));
    }
}

/// The code of each rule of a grammar takes exactly the input that the rule stands for, whether or
/// not it notes nodes: for a sequence one part after the other, for a choice one of its cases, for
/// a repetition its elements with separators between them.
pub proof fn grammar_code_takes(g: GrammarSpec, table: Seq<RuleSpec>, i: int, w: Trace)
    requires
        distinct_keys(g),
        0 <= i < g.len(),
    ensures
        rule_takes(rules_code(g, g.len(), table).arms, g[i].0, w) <==> stands_for(g[i].1.rule, w),
{
    let all = rules_code(g, g.len(), table).arms;
    let p = program(all);
    let rule = g[i].1;
    let label = rule_label(g[i].0);
    let before = rules_code(g, i as nat, table);
    let begin = rule_start(before, g[i].0).ret()->Some_0;
    let step = parse_step(rule.rule, code_table(rule, table));
    let done = apply(step, label, begin)->Some_0;
    each_label_has_code(g, table);
    rule_code_ends(g, i as nat, g.len(), table);
    assert forall|k: int| 0 <= k < all.len() implies p((#[trigger] all[k]).0) == all[k].1 by {
        let at = key_at(all, all[k].0);
        assert(has_key(all, all[k].0));
        assert(all[at].0 == all[k].0);
        assert(pieces(all, all[k].0) <= 1);
        one_place(all, k, at);
    }
    assert forall|k: int| begin.arms.len() <= k < done.arms.len() implies (
    #[trigger] done.arms[k]).0.1.len() > 0 && p(done.arms[k].0) == done.arms[k].1 by {
        assert(done.arms[k] == all[k]);
        inner_pieces(g, table, i, k);
    }
    let end = done.arms.len() as int;
    assert(p(all[end].0) == all[end].1);
    rule_code_takes(p, rule.rule, code_table(rule, table), label, begin, w);
}

/// The pieces of the code of a rule but the last are at labels inside of functions.
proof fn inner_pieces(g: GrammarSpec, table: Seq<RuleSpec>, i: int, k: int)
    requires
        distinct_keys(g),
        0 <= i < g.len(),
        arms_before(g, i as nat, table) <= k < arms_before(g, i as nat + 1, table) - 1,
        k < rules_code(g, g.len(), table).arms.len(),
    ensures
        rules_code(g, g.len(), table).arms[k].0.1.len() > 0,
{
    let all = rules_code(g, g.len(), table).arms;
    let codes = rules_code(g, g.len(), table);
    let label = all[k].0;
    each_label_has_code(g, table);
    rules_code_complete(g, g.len(), table);
    declared_iff(g, codes.labels, label);
    has_piece(all, k);
    assert(pieces(all, label) <= 1);
    if label.1.len() == 0 {
        assert(rule_labels(g, g.len()).contains(label));
        let j = choose|j: int| 0 <= j < g.len() && label == rule_label((#[trigger] g[j]).0);
        rule_code_ends(g, j as nat, g.len(), table);
        let e = arms_before(g, j as nat + 1, table) - 1;
        assert(all[e].0 == label);
        one_place(all, k, e);
        if j < i {
            arms_in_order(g, j as nat + 1, i as nat, table);
        } else if j > i {
            arms_in_order(g, i as nat + 1, j as nat, table);
        }
    }
}

proof fn arms_in_order(g: GrammarSpec, m: nat, n: nat, table: Seq<RuleSpec>)
    requires
        m <= n <= g.len(),
    ensures
        arms_before(g, m, table) <= arms_before(g, n, table),
    decreases n,
{
    if m < n {
        arms_in_order(g, m, (n - 1) as nat, table);
        rule_code_ends(g, (n - 1) as nat, n, table);
    }
}

} // verus!
