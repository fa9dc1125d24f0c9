//! What holds of the code of a grammar: it speaks only of labels and kinds that are declared.
use crate::account::apply_accounts;
use crate::generate::{
    code_table, declare_refs, decls_refs, grammar_table, names_of, refs_table, rules_code,
    rules_code_refs, GrammarSpec,
};
use crate::hereditary::{calls_only, calls_only_is_hereditary, declare_refs_have, parse_refs_have};
use crate::instr::{InstrSpec, InstrsSpec};
use crate::label::{rule_label, LabelSpec};
use crate::labels::{
    declared_iff, minus_named, rule_begin, rule_begin_accounts, rule_code_from_begin, rule_labels,
    rule_labels_grow, rules_code_complete,
};
use crate::mentions::{
    apply_names, can_name, code_names, cont_names, instr_names, reified_names, thunk_names, Scope,
};
use crate::node::KindSpec;
use crate::nodes::{
    calls_defined, code_refs_seen, grammar_table_is_closed, kind_declared, rule_names,
    seen_kind_is_declared,
};
use crate::parse::{both_step, cases_refs, parse_refs, parse_step, sep_step};
use crate::reflect::all_labels;
use crate::rule::{concat, more, more_sep, RuleSpec, SepKind};
use crate::table::{
    all_seen, all_seen_parts, kind_of, kind_stable, prefix_of_prefix, see_all, see_all_extends,
    seen,
};
use crate::thunk::{apply, opt_step, ThunkSpec};
use vstd::prelude::*;

verus! {

/// Whether the kinds of the nodes of rules are among some, where there are nodes.
pub open spec fn kinds_among(
    rules: Seq<RuleSpec>,
    table: Option<Seq<RuleSpec>>,
    kinds: Set<KindSpec>,
) -> bool {
    match table {
        Some(table) => forall|i: int|
            0 <= i < rules.len() ==> kinds.contains(kind_of(#[trigger] rules[i], table)),
        None => true,
    }
}

proof fn kinds_among_parts(
    a: Seq<RuleSpec>,
    b: Seq<RuleSpec>,
    table: Option<Seq<RuleSpec>>,
    kinds: Set<KindSpec>,
)
    requires
        kinds_among(a + b, table, kinds),
    ensures
        kinds_among(a, table, kinds),
        kinds_among(b, table, kinds),
{
    if let Some(table) = table {
        assert forall|i: int| 0 <= i < a.len() implies kinds.contains(
            kind_of(#[trigger] a[i], table),
        ) by {
            assert((a + b)[i] == a[i]);
        }
        assert forall|i: int| 0 <= i < b.len() implies kinds.contains(
            kind_of(#[trigger] b[i], table),
        ) by {
            assert((a + b)[a.len() + i] == b[i]);
        }
    }
}

/// Taking a step or none speaks only of what the step does.
proof fn opt_names(scope: Scope, t: ThunkSpec)
    requires
        thunk_names(scope, t),
    ensures
        thunk_names(scope, opt_step(t)),
{
    let ts = opt_step(t)->Parallel_0;
    assert forall|i: int| 0 <= i < ts.len() implies thunk_names(scope, #[trigger] ts[i]) by {
        if i == 0 {
            assert(ts[0] == t);
        } else {
            assert(ts[1] == ThunkSpec::Emit(Seq::empty()));
        }
    }
}

/// Parsing one rule and another speaks of what the two do, and of two kinds.
proof fn both_names(
    scope: Scope,
    left: RuleSpec,
    left_step: ThunkSpec,
    right_step: ThunkSpec,
    whole: RuleSpec,
    table: Option<Seq<RuleSpec>>,
)
    requires
        thunk_names(scope, left_step),
        thunk_names(scope, right_step),
        kinds_among(seq![left, whole], table, scope.kinds),
    ensures
        thunk_names(scope, both_step(left, left_step, right_step, whole, table)),
{
    if let Some(table) = table {
        let two = seq![left, whole];
        assert(scope.kinds.contains(kind_of(two[0], table)));
        assert(scope.kinds.contains(kind_of(two[1], table)));
    }
    reveal_with_fuel(thunk_names, 5);
}

/// Parsing a repetition with a separator speaks of what the two rules do, and of four kinds.
proof fn sep_names(
    scope: Scope,
    elem: RuleSpec,
    elem_step: ThunkSpec,
    sep: RuleSpec,
    step: ThunkSpec,
    kind: SepKind,
    table: Option<Seq<RuleSpec>>,
)
    requires
        thunk_names(scope, elem_step),
        thunk_names(scope, step),
        kinds_among(
            seq![
                elem,
                sep,
                concat(sep, more_sep(elem, sep, SepKind::Simple)),
                more_sep(elem, sep, SepKind::Simple),
            ],
            table,
            scope.kinds,
        ),
    ensures
        thunk_names(scope, sep_step(elem, elem_step, sep, step, kind, table)),
{
    let whole = more_sep(elem, sep, SepKind::Simple);
    let four = seq![elem, sep, concat(sep, whole), whole];
    let rest = both_step(sep, step, ThunkSpec::CallFix, concat(sep, whole), table);
    if let Some(table) = table {
        assert(scope.kinds.contains(kind_of(four[0], table)));
        assert(scope.kinds.contains(kind_of(four[1], table)));
        assert(scope.kinds.contains(kind_of(four[2], table)));
        assert(scope.kinds.contains(kind_of(four[3], table)));
    }
    both_names(scope, sep, step, ThunkSpec::CallFix, concat(sep, whole), table);
    opt_names(scope, rest);
    both_names(scope, elem, elem_step, opt_step(rest), whole, table);
    let body = both_step(elem, elem_step, opt_step(rest), whole, table);
    assert(thunk_names(scope, ThunkSpec::Fix(Box::new(body))));
    opt_names(scope, step);
}

/// The step that parses a rule speaks only of the labels of rules that it calls, and of the kinds
/// of rules that have been seen for it.
pub proof fn parse_names(
    scope: Scope,
    rule: RuleSpec,
    table: Option<Seq<RuleSpec>>,
    names: Set<Seq<char>>,
)
    requires
        calls_only(rule, names),
        forall|name: Seq<char>|
            names.contains(name) ==> scope.callees.contains(#[trigger] rule_label(name)),
        kinds_among(parse_refs(rule), table, scope.kinds),
    ensures
        thunk_names(scope, parse_step(rule, table)),
    decreases rule, 0nat,
{
    match rule {
        RuleSpec::Empty | RuleSpec::Eat(_) => {},
        RuleSpec::Call(name) => {
            assert(scope.callees.contains(rule_label(name)));
        },
        RuleSpec::Concat(left, right) => {
            let two = seq![*left, rule];
            kinds_among_parts(two + parse_refs(*right), parse_refs(*left), table, scope.kinds);
            kinds_among_parts(two, parse_refs(*right), table, scope.kinds);
            parse_names(scope, *left, table, names);
            parse_names(scope, *right, table, names);
            both_names(
                scope,
                *left,
                parse_step(*left, table),
                parse_step(*right, table),
                rule,
                table,
            );
        },
        RuleSpec::Or(cases) => {
            let ts = parse_step(rule, table)->Parallel_0;
            assert forall|i: int| 0 <= i < ts.len() implies thunk_names(
                scope,
                #[trigger] ts[i],
            ) by {
                case_kinds(rule, cases, cases.len(), i, table, scope.kinds);
                assert(calls_only(cases[i], names));
                parse_names(scope, cases[i], table, names);
                reveal_with_fuel(thunk_names, 3);
            }
        },
        RuleSpec::Opt(inner) => {
            parse_names(scope, *inner, table, names);
            opt_names(scope, parse_step(*inner, table));
        },
        RuleSpec::RepeatMany(elem, None) => {
            let step = parse_step(*elem, table);
            let both = both_step(*elem, step, ThunkSpec::CallFix, more(*elem), table);
            kinds_among_parts(
                seq![*elem, more(*elem)],
                parse_refs(*elem),
                table,
                scope.kinds,
            );
            parse_names(scope, *elem, table, names);
            both_names(scope, *elem, step, ThunkSpec::CallFix, more(*elem), table);
            opt_names(scope, both);
        },
        RuleSpec::RepeatMore(elem, None) => {
            let step = parse_step(*elem, table);
            kinds_among_parts(seq![*elem, rule], parse_refs(*elem), table, scope.kinds);
            parse_names(scope, *elem, table, names);
            opt_names(scope, ThunkSpec::CallFix);
            both_names(scope, *elem, step, opt_step(ThunkSpec::CallFix), rule, table);
        },
        RuleSpec::RepeatMany(elem, Some((sep, kind)))
        | RuleSpec::RepeatMore(elem, Some((sep, kind))) => {
            let whole = more_sep(*elem, *sep, SepKind::Simple);
            let four = seq![*elem, *sep, concat(*sep, whole), whole];
            let simple = four + parse_refs(*sep) + parse_refs(*elem);
            let elem_step = parse_step(*elem, table);
            let step = parse_step(*sep, table);
            if kind == SepKind::Trailing {
                kinds_among_parts(parse_refs(*sep), simple, table, scope.kinds);
            }
            kinds_among_parts(four + parse_refs(*sep), parse_refs(*elem), table, scope.kinds);
            kinds_among_parts(four, parse_refs(*sep), table, scope.kinds);
            parse_names(scope, *elem, table, names);
            parse_names(scope, *sep, table, names);
            sep_names(scope, *elem, elem_step, *sep, step, kind, table);
            opt_names(scope, sep_step(*elem, elem_step, *sep, step, kind, table));
        },
    }
}

/// The kinds that the code of all cases speaks of are among some, so those of each are.
proof fn case_kinds(
    whole: RuleSpec,
    cases: Seq<RuleSpec>,
    n: nat,
    i: int,
    table: Option<Seq<RuleSpec>>,
    kinds: Set<KindSpec>,
)
    requires
        0 <= i < n <= cases.len(),
        kinds_among(cases_refs(whole, cases, n), table, kinds),
    ensures
        table matches Some(table) ==> kinds.contains(kind_of(cases[i], table)) && kinds.contains(
            kind_of(whole, table),
        ),
        kinds_among(parse_refs(cases[i]), table, kinds),
    decreases n,
{
    let before = cases_refs(whole, cases, (n - 1) as nat);
    let two = seq![cases[n - 1], whole];
    kinds_among_parts(before + two, parse_refs(cases[n - 1]), table, kinds);
    kinds_among_parts(before, two, table, kinds);
    if let Some(table) = table {
        assert(kinds.contains(kind_of(two[0], table)));
        assert(kinds.contains(kind_of(two[1], table)));
    }
    if i < n - 1 {
        case_kinds(whole, cases, (n - 1) as nat, i, table, kinds);
    }
}

/// The labels of all rules, and the kinds of nodes that are declared.
pub open spec fn grammar_scope(g: GrammarSpec) -> Scope {
    Scope {
        roots: rule_labels(g, g.len()),
        callees: rule_labels(g, g.len()),
        kinds: Set::new(|kind: KindSpec| kind_declared(g, kind)),
    }
}

/// The kinds that the code of a rule speaks of are declared.
proof fn code_kinds_declared(g: GrammarSpec, i: int)
    requires
        calls_defined(g),
        0 <= i < g.len(),
    ensures
        kinds_among(
            parse_refs(g[i].1.rule),
            code_table(g[i].1, grammar_table(g)),
            grammar_scope(g).kinds,
        ),
{
    let rule = g[i].1;
    let table = grammar_table(g);
    let refs = parse_refs(rule.rule);
    let names = rule_names(g);
    if rule.fields.len() > 0 {
        let p = |r: RuleSpec| calls_only(r, names);
        calls_only_is_hereditary(names);
        assert(p(rule.rule));
        parse_refs_have(p, rule.rule);
        grammar_table_is_closed(g);
        let none = Seq::<RuleSpec>::empty();
        see_all_extends(see_all(none, decls_refs(g, g.len())), rules_code_refs(g, g.len()));
        code_refs_seen(g, g.len(), i, refs_table(g));
        assert forall|k: int| 0 <= k < refs.len() implies grammar_scope(g).kinds.contains(
            kind_of(#[trigger] refs[k], table),
        ) by {
            assert(seen(refs_table(g), refs[k]));
            kind_stable(refs[k], refs_table(g), table);
            assert(p(refs[k]));
            seen_kind_is_declared(g, refs[k]);
        }
    }
}

/// The code of rules speaks only of labels of rules, of labels that have been handed out, and of
/// kinds that are declared.
proof fn rules_code_names(g: GrammarSpec, n: nat)
    requires
        calls_defined(g),
        n <= g.len(),
    ensures
        ({
            let codes = rules_code(g, n, grammar_table(g));
            forall|i: int|
                0 <= i < codes.arms.len() ==> code_names(
                    grammar_scope(g),
                    codes.labels,
                    (#[trigger] codes.arms[i]).1,
                )
        }),
    decreases n,
{
    if n > 0 {
        let i = (n - 1) as nat;
        let table = grammar_table(g);
        let scope = grammar_scope(g);
        let rule = g[n - 1].1;
        let label = rule_label(g[n - 1].0);
        let step = parse_step(rule.rule, code_table(rule, table));
        let begin = rule_begin(g, i, table);
        let extra = minus_named(g, i);
        rules_code_names(g, i);
        rules_code_complete(g, i, table);
        rule_labels_grow(g, n, g.len());
        rule_begin_accounts(g, i, table, scope.roots);
        rule_code_from_begin(g, i, table);
        assert(cont_names(scope, begin));
        assert(rule_labels(g, n).contains(label));
        assert forall|name: Seq<char>| rule_names(g).contains(name) implies scope.callees.contains(
            #[trigger] rule_label(name),
        ) by {
            let k = choose|k: int| 0 <= k < g.len() && (#[trigger] g[k]).0 == name;
            assert(rule_label(name) == rule_label(g[k].0));
        }
        code_kinds_declared(g, n - 1);
        parse_names(scope, rule.rule, code_table(rule, table), rule_names(g));
        apply_names(scope, step, 0, label, begin, begin.frames, begin.fn_label, extra);
        apply_accounts(
            scope.roots,
            step,
            0,
            label,
            begin,
            begin.frames,
            begin.fn_label,
            extra,
        );
        let done = apply(step, label, begin)->Some_0;
        reified_names(scope, done, label);
    }
}

/// Whether code speaks only of labels and kinds that are declared.
pub open spec fn code_declared(g: GrammarSpec, code: InstrsSpec) -> bool
    decreases code,
{
    let labels = all_labels(names_of(g), rules_code(g, g.len(), grammar_table(g)).labels);
    forall|i: int|
        0 <= i < code.len() ==> (match #[trigger] code[i] {
            InstrSpec::Spawn(label) => labels.contains(label),
            InstrSpec::Call(callee, label) => labels.contains(callee) && labels.contains(label),
            InstrSpec::Ret | InstrSpec::TakeSaved => true,
            InstrSpec::Save(kind) | InstrSpec::AddSplit(kind) => kind_declared(g, kind),
            InstrSpec::AddChoice(kind, choice) => kind_declared(g, kind) && kind_declared(
                g,
                choice,
            ),
            InstrSpec::If(_, body) => code_declared(g, body),
        })
}

/// Code that speaks only of what it may speaks only of what is declared.
proof fn names_are_declared(g: GrammarSpec, code: InstrsSpec)
    requires
        code_names(
            grammar_scope(g),
            rules_code(g, g.len(), grammar_table(g)).labels,
            code,
        ),
    ensures
        code_declared(g, code),
    decreases code,
{
    let scope = grammar_scope(g);
    let labels = rules_code(g, g.len(), grammar_table(g)).labels;
    let all = all_labels(names_of(g), labels);
    rules_code_complete(g, g.len(), grammar_table(g));
    assert forall|label: LabelSpec| can_name(scope, labels, label) implies all.contains(label) by {
        declared_iff(g, labels, label);
    }
    assert forall|i: int| 0 <= i < code.len() implies (match #[trigger] code[i] {
        InstrSpec::Spawn(label) => all.contains(label),
        InstrSpec::Call(callee, label) => all.contains(callee) && all.contains(label),
        InstrSpec::Ret | InstrSpec::TakeSaved => true,
        InstrSpec::Save(kind) | InstrSpec::AddSplit(kind) => kind_declared(g, kind),
        InstrSpec::AddChoice(kind, choice) => kind_declared(g, kind) && kind_declared(g, choice),
        InstrSpec::If(_, body) => code_declared(g, body),
    }) by {
        assert(instr_names(scope, labels, code[i]));
        if let InstrSpec::If(_, body) = code[i] {
            assert(code_names(scope, labels, body));
            names_are_declared(g, body);
        }
    }
}

/// The code of a grammar in which all rules that are called are there goes only to labels that are
/// declared, and speaks only of kinds of nodes that are declared.
pub proof fn code_speaks_of_declared(g: GrammarSpec, i: int)
    requires
        calls_defined(g),
        0 <= i < rules_code(g, g.len(), grammar_table(g)).arms.len(),
    ensures
        code_declared(g, rules_code(g, g.len(), grammar_table(g)).arms[i].1),
{
    rules_code_names(g, g.len());
    names_are_declared(g, rules_code(g, g.len(), grammar_table(g)).arms[i].1);
}

/// What the declarations for all rules speak of has been seen, so that of each has.
proof fn declare_refs_seen(g: GrammarSpec, n: nat, i: int, table: Seq<RuleSpec>)
    requires
        0 <= i < n <= g.len(),
        all_seen(table, decls_refs(g, n)),
    ensures
        all_seen(table, declare_refs(g[i].1)),
    decreases n,
{
    all_seen_parts(table, decls_refs(g, (n - 1) as nat), declare_refs(g[n - 1].1));
    if i < n - 1 {
        declare_refs_seen(g, (n - 1) as nat, i, table);
    }
}

/// The declarations for the rules of a grammar in which all rules that are called are there speak
/// only of kinds of nodes that are declared.
pub proof fn declarations_speak_of_declared(g: GrammarSpec, i: int, k: int)
    requires
        calls_defined(g),
        0 <= i < g.len(),
        0 <= k < declare_refs(g[i].1).len(),
    ensures
        kind_declared(g, kind_of(declare_refs(g[i].1)[k], grammar_table(g))),
{
    let rule = g[i].1;
    let table = grammar_table(g);
    let refs = declare_refs(rule);
    let names = rule_names(g);
    let none = Seq::<RuleSpec>::empty();
    let one = see_all(none, decls_refs(g, g.len()));
    let p = |r: RuleSpec| calls_only(r, names);
    calls_only_is_hereditary(names);
    assert(p(rule.rule));
    declare_refs_have(p, rule);
    assert(p(refs[k]));
    grammar_table_is_closed(g);
    see_all_extends(none, decls_refs(g, g.len()));
    see_all_extends(one, rules_code_refs(g, g.len()));
    prefix_of_prefix(one, refs_table(g), table);
    declare_refs_seen(g, g.len(), i, one);
    assert(seen(one, refs[k]));
    kind_stable(refs[k], one, table);
    seen_kind_is_declared(g, refs[k]);
}

} // verus!
