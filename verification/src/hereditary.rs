//! What rules have in common with the rules that they are made of.
use crate::closure::{all_derived, close, closed_table};
use crate::fields::{variants_in, NamedSpec, VariantSpec};
use crate::forest::{one_and_all_refs, rule_shapes_refs, shapes_refs, variant_rules};
use crate::generate::{
    code_refs, declare_refs, decls_refs, grammar_table, refs_table, rules_code_refs, GrammarSpec,
};
use crate::parse::{cases_refs, parse_refs};
use crate::rule::{concat, many, many_sep, more, more_sep, optional, RuleSpec, SepKind};
use crate::table::{can_describe, see_all, shape_parts};
use crate::traverse::{traverse_cases_refs, traverse_refs};
use vstd::prelude::*;

verus! {

/// Whether a property of a rule is one of the rules that it is made of, and the other way round,
/// but for choices, which may have more to ask.
pub open spec fn hereditary(p: spec_fn(RuleSpec) -> bool) -> bool {
    &&& forall|a: RuleSpec, b: RuleSpec| #[trigger] p(concat(a, b)) == (p(a) && p(b))
    &&& forall|cases: Seq<RuleSpec>, i: int|
        p(RuleSpec::Or(cases)) && 0 <= i < cases.len() ==> p(#[trigger] cases[i])
    &&& forall|a: RuleSpec| #[trigger] p(optional(a)) == p(a)
    &&& forall|a: RuleSpec| #[trigger] p(many(a)) == p(a)
    &&& forall|a: RuleSpec| #[trigger] p(more(a)) == p(a)
    &&& forall|a: RuleSpec, sep: RuleSpec, kind: SepKind| #[trigger]
        p(many_sep(a, sep, kind)) == (p(a) && p(sep))
    &&& forall|a: RuleSpec, sep: RuleSpec, kind: SepKind| #[trigger]
        p(more_sep(a, sep, kind)) == (p(a) && p(sep))
}

/// Whether all of the rules have a property.
pub open spec fn all_have(p: spec_fn(RuleSpec) -> bool, rules: Seq<RuleSpec>) -> bool {
    forall|i: int| 0 <= i < rules.len() ==> p(#[trigger] rules[i])
}

/// What a property of a rule says of the rules that it is made of.
proof fn parts_have(p: spec_fn(RuleSpec) -> bool, rule: RuleSpec)
    requires
        hereditary(p),
        p(rule),
    ensures
        match rule {
            RuleSpec::Concat(left, right) => p(*left) && p(*right),
            RuleSpec::Opt(inner) => p(*inner),
            RuleSpec::RepeatMany(elem, None) | RuleSpec::RepeatMore(elem, None) => p(*elem),
            RuleSpec::RepeatMany(elem, Some((sep, _)))
            | RuleSpec::RepeatMore(elem, Some((sep, _))) => p(*elem) && p(*sep),
            _ => true,
        },
{
    match rule {
        RuleSpec::Concat(left, right) => {
            assert(p(concat(*left, *right)));
        },
        RuleSpec::Opt(inner) => {
            assert(p(optional(*inner)));
        },
        RuleSpec::RepeatMany(elem, None) => {
            assert(p(many(*elem)));
        },
        RuleSpec::RepeatMore(elem, None) => {
            assert(p(more(*elem)));
        },
        RuleSpec::RepeatMany(elem, Some((sep, kind))) => {
            assert(p(many_sep(*elem, *sep, kind)));
        },
        RuleSpec::RepeatMore(elem, Some((sep, kind))) => {
            assert(p(more_sep(*elem, *sep, kind)));
        },
        _ => {},
    }
}

proof fn both_have(p: spec_fn(RuleSpec) -> bool, a: Seq<RuleSpec>, b: Seq<RuleSpec>)
    requires
        all_have(p, a),
        all_have(p, b),
    ensures
        all_have(p, a + b),
{
    assert forall|i: int| 0 <= i < (a + b).len() implies p(#[trigger] (a + b)[i]) by {
        if i < a.len() {
            assert((a + b)[i] == a[i]);
        } else {
            assert((a + b)[i] == b[i - a.len()]);
        }
    }
}

proof fn see_all_have(p: spec_fn(RuleSpec) -> bool, table: Seq<RuleSpec>, rules: Seq<RuleSpec>)
    requires
        all_have(p, table),
        all_have(p, rules),
    ensures
        all_have(p, see_all(table, rules)),
    decreases rules.len(),
{
    if rules.len() > 0 {
        assert(all_have(p, rules.drop_last())) by {
            assert forall|i: int| 0 <= i < rules.drop_last().len() implies p(
                #[trigger] rules.drop_last()[i],
            ) by {
                assert(rules.drop_last()[i] == rules[i]);
            }
        }
        see_all_have(p, table, rules.drop_last());
        let before = see_all(table, rules.drop_last());
        let after = see_all(table, rules);
        assert(p(rules[rules.len() - 1]));
        assert forall|i: int| 0 <= i < after.len() implies p(#[trigger] after[i]) by {
            if i < before.len() {
                assert(after[i] == before[i]);
            }
        }
    }
}

/// The rules of a repetition with a separator have a property, where the two rules have it.
proof fn sep_have(p: spec_fn(RuleSpec) -> bool, elem: RuleSpec, sep: RuleSpec)
    requires
        hereditary(p),
        p(elem),
        p(sep),
    ensures
        p(more_sep(elem, sep, SepKind::Simple)),
        p(more_sep(elem, sep, SepKind::Trailing)),
        p(concat(sep, more_sep(elem, sep, SepKind::Simple))),
        p(optional(concat(sep, more_sep(elem, sep, SepKind::Simple)))),
        p(optional(sep)),
{
    let whole = more_sep(elem, sep, SepKind::Simple);
    assert(p(whole));
    assert(p(concat(sep, whole)));
}

/// The rules whose nodes the code of a rule speaks of have a property that the rule has.
pub proof fn parse_refs_have(p: spec_fn(RuleSpec) -> bool, rule: RuleSpec)
    requires
        hereditary(p),
        p(rule),
    ensures
        all_have(p, parse_refs(rule)),
    decreases rule, 0nat,
{
    parts_have(p, rule);
    match rule {
        RuleSpec::Empty | RuleSpec::Eat(_) | RuleSpec::Call(_) => {},
        RuleSpec::Concat(left, right) => {
            parse_refs_have(p, *left);
            parse_refs_have(p, *right);
            both_have(p, seq![*left, rule], parse_refs(*right));
            both_have(p, seq![*left, rule] + parse_refs(*right), parse_refs(*left));
        },
        RuleSpec::Or(cases) => {
            cases_refs_have(p, rule, cases, cases.len());
        },
        RuleSpec::Opt(inner) => {
            parse_refs_have(p, *inner);
        },
        RuleSpec::RepeatMany(elem, None) => {
            parse_refs_have(p, *elem);
            assert(p(more(*elem)));
            both_have(p, seq![*elem, more(*elem)], parse_refs(*elem));
        },
        RuleSpec::RepeatMore(elem, None) => {
            parse_refs_have(p, *elem);
            both_have(p, seq![*elem, rule], parse_refs(*elem));
        },
        RuleSpec::RepeatMany(elem, Some((sep, kind)))
        | RuleSpec::RepeatMore(elem, Some((sep, kind))) => {
            let whole = more_sep(*elem, *sep, SepKind::Simple);
            let four = seq![*elem, *sep, concat(*sep, whole), whole];
            parse_refs_have(p, *elem);
            parse_refs_have(p, *sep);
            sep_have(p, *elem, *sep);
            both_have(p, four, parse_refs(*sep));
            both_have(p, four + parse_refs(*sep), parse_refs(*elem));
            both_have(p, parse_refs(*sep), four + parse_refs(*sep) + parse_refs(*elem));
        },
    }
}

proof fn cases_refs_have(
    p: spec_fn(RuleSpec) -> bool,
    whole: RuleSpec,
    cases: Seq<RuleSpec>,
    n: nat,
)
    requires
        hereditary(p),
        n <= cases.len(),
        p(whole),
        whole == RuleSpec::Or(cases),
    ensures
        all_have(p, cases_refs(whole, cases, n)),
    decreases cases, n,
{
    if n > 0 {
        let before = cases_refs(whole, cases, (n - 1) as nat);
        let two = seq![cases[n - 1], whole];
        assert(p(cases[n - 1]));
        cases_refs_have(p, whole, cases, (n - 1) as nat);
        parse_refs_have(p, cases[n - 1]);
        both_have(p, before, two);
        both_have(p, before + two, parse_refs(cases[n - 1]));
    }
}

proof fn traverse_refs_have(p: spec_fn(RuleSpec) -> bool, rule: RuleSpec)
    requires
        hereditary(p),
        p(rule),
    ensures
        all_have(p, traverse_refs(rule)),
    decreases rule, 0nat,
{
    parts_have(p, rule);
    match rule {
        RuleSpec::Concat(left, right) => {
            traverse_refs_have(p, *left);
            traverse_refs_have(p, *right);
            both_have(p, traverse_refs(*left), traverse_refs(*right));
        },
        RuleSpec::Or(cases) => {
            traverse_cases_have(p, cases, cases.len());
        },
        RuleSpec::Opt(inner) => {
            traverse_refs_have(p, *inner);
        },
        _ => {},
    }
}

proof fn traverse_cases_have(p: spec_fn(RuleSpec) -> bool, cases: Seq<RuleSpec>, n: nat)
    requires
        hereditary(p),
        n <= cases.len(),
        all_have(p, cases),
    ensures
        all_have(p, traverse_cases_refs(cases, n)),
    decreases cases, n,
{
    if n > 0 {
        let before = traverse_cases_refs(cases, (n - 1) as nat);
        let one = seq![cases[n - 1]];
        assert(p(cases[n - 1]));
        traverse_cases_have(p, cases, (n - 1) as nat);
        traverse_refs_have(p, cases[n - 1]);
        both_have(p, before, one);
        both_have(p, before + one, traverse_refs(cases[n - 1]));
    }
}

/// The rules that a node of a rule is made of have a property that the rule has.
pub proof fn shape_parts_have(p: spec_fn(RuleSpec) -> bool, rule: RuleSpec)
    requires
        hereditary(p),
        p(rule),
    ensures
        all_have(p, shape_parts(rule)),
{
    parts_have(p, rule);
    match rule {
        RuleSpec::RepeatMany(elem, None) => {
            assert(p(more(*elem)));
        },
        RuleSpec::RepeatMore(elem, None) => {
            assert(p(many(*elem)));
        },
        RuleSpec::RepeatMany(elem, Some((sep, kind)))
        | RuleSpec::RepeatMore(elem, Some((sep, kind))) => {
            sep_have(p, *elem, *sep);
        },
        _ => {},
    }
}

proof fn close_have(p: spec_fn(RuleSpec) -> bool, table: Seq<RuleSpec>, i: nat, fuel: nat)
    requires
        hereditary(p),
        all_have(p, table),
    ensures
        all_have(p, close(table, i, fuel)),
    decreases fuel,
{
    if fuel > 0 && i < table.len() {
        assert(p(table[i as int]));
        shape_parts_have(p, table[i as int]);
        see_all_have(p, table, shape_parts(table[i as int]));
        close_have(p, 
            see_all(table, shape_parts(table[i as int])),
            i + 1,
            (fuel - 1) as nat,
        );
    }
}

proof fn variants_have(p: spec_fn(RuleSpec) -> bool, vs: Seq<VariantSpec>, n: nat)
    requires
        hereditary(p),
        n <= vs.len(),
        forall|i: int| 0 <= i < vs.len() ==> p((#[trigger] vs[i]).rule),
    ensures
        all_have(p, shapes_refs(vs, n)),
        all_have(p, variant_rules(vs, n)),
    decreases n,
{
    if n > 0 {
        variants_have(p, vs, (n - 1) as nat);
        assert(p(vs[n - 1].rule));
        traverse_refs_have(p, vs[n - 1].rule);
        both_have(p, shapes_refs(vs, (n - 1) as nat), traverse_refs(vs[n - 1].rule));
    }
}

/// The rules whose nodes the declarations for a rule speak of have a property that the rule has.
pub proof fn declare_refs_have(p: spec_fn(RuleSpec) -> bool, rule: NamedSpec)
    requires
        hereditary(p),
        p(rule.rule),
    ensures
        all_have(p, declare_refs(rule)),
{
    let variants = variants_in(rule);
    traverse_refs_have(p, rule.rule);
    if let Some(vs) = variants {
        let cases = rule.rule->Or_0;
        assert forall|i: int| 0 <= i < vs.len() implies p((#[trigger] vs[i]).rule) by {
            assert(p(cases[i]));
        }
        variants_have(p, vs, vs.len());
        both_have(p, variant_rules(vs, vs.len()), shapes_refs(vs, vs.len()));
    }
    both_have(p, rule_shapes_refs(rule, variants), one_and_all_refs(rule, variants));
}

proof fn refs_have(p: spec_fn(RuleSpec) -> bool, g: GrammarSpec, n: nat)
    requires
        hereditary(p),
        n <= g.len(),
        forall|i: int| 0 <= i < g.len() ==> p((#[trigger] g[i]).1.rule),
    ensures
        all_have(p, decls_refs(g, n)),
        all_have(p, rules_code_refs(g, n)),
    decreases n,
{
    if n > 0 {
        let rule = g[n - 1].1;
        assert(p(rule.rule));
        refs_have(p, g, (n - 1) as nat);
        declare_refs_have(p, rule);
        parse_refs_have(p, rule.rule);
        both_have(p, decls_refs(g, (n - 1) as nat), declare_refs(rule));
        both_have(p, rules_code_refs(g, (n - 1) as nat), code_refs(rule));
    }
}

/// All rules that there are nodes for have a property that the rules of a grammar have.
pub proof fn grammar_table_has(p: spec_fn(RuleSpec) -> bool, g: GrammarSpec)
    requires
        hereditary(p),
        forall|i: int| 0 <= i < g.len() ==> p((#[trigger] g[i]).1.rule),
    ensures
        all_have(p, grammar_table(g)),
{
    let none = Seq::<RuleSpec>::empty();
    let table = refs_table(g);
    refs_have(p, g, g.len());
    see_all_have(p, none, decls_refs(g, g.len()));
    see_all_have(p, see_all(none, decls_refs(g, g.len())), rules_code_refs(g, g.len()));
    close_have(p, table, 0, all_derived(table, table.len()).len());
    assert(all_have(p, closed_table(table)));
}

/// That a rule can be written is a property of the rules that it is made of.
pub proof fn can_describe_is_hereditary()
    ensures
        hereditary(|r: RuleSpec| can_describe(r)),
{
    let p = |r: RuleSpec| can_describe(r);
    assert forall|cases: Seq<RuleSpec>, i: int|
        p(RuleSpec::Or(cases)) && 0 <= i < cases.len() implies p(#[trigger] cases[i]) by {
        assert(can_describe(RuleSpec::Or(cases)));
        assert(can_describe(cases[i]));
    }
}

/// Whether all rules that a rule calls have one of some names.
pub open spec fn calls_only(rule: RuleSpec, names: Set<Seq<char>>) -> bool
    decreases rule,
{
    match rule {
        RuleSpec::Empty | RuleSpec::Eat(_) => true,
        RuleSpec::Call(name) => names.contains(name),
        RuleSpec::Concat(left, right) => calls_only(*left, names) && calls_only(*right, names),
        RuleSpec::Or(cases) => forall|i: int|
            0 <= i < cases.len() ==> calls_only(#[trigger] cases[i], names),
        RuleSpec::Opt(inner) => calls_only(*inner, names),
        RuleSpec::RepeatMany(elem, None) | RuleSpec::RepeatMore(elem, None) => calls_only(
            *elem,
            names,
        ),
        RuleSpec::RepeatMany(elem, Some((sep, _))) | RuleSpec::RepeatMore(elem, Some((sep, _))) => {
            calls_only(*elem, names) && calls_only(*sep, names)
        },
    }
}

/// The cases of a choice that calls only rules of some names call only those.
proof fn calls_only_cases(cases: Seq<RuleSpec>, i: int, names: Set<Seq<char>>)
    requires
        calls_only(RuleSpec::Or(cases), names),
        0 <= i < cases.len(),
    ensures
        calls_only(cases[i], names),
{
    let rule = RuleSpec::Or(cases);
    assert(rule->Or_0 == cases);
    assert(calls_only(rule, names));
    assert(match rule {
        RuleSpec::Or(cs) => forall|k: int|
            0 <= k < cs.len() ==> calls_only(#[trigger] cs[k], names),
        _ => true,
    });
}

/// That a rule calls only rules of some names is a property of the rules that it is made of.
pub proof fn calls_only_is_hereditary(names: Set<Seq<char>>)
    ensures
        hereditary(|r: RuleSpec| calls_only(r, names)),
{
    let p = |r: RuleSpec| calls_only(r, names);
    assert forall|cases: Seq<RuleSpec>, i: int|
        p(RuleSpec::Or(cases)) && 0 <= i < cases.len() implies p(#[trigger] cases[i]) by {
        calls_only_cases(cases, i, names);
    }
}

} // verus!
