//! How the rules without a name are numbered: in which order they are met, and that no others get a
//! number.
use crate::closure::{all_derived, close, closed_table};
use crate::fields::{variants_in, NamedSpec, VariantSpec};
use crate::forest::{shapes_refs, variant_rules};
use crate::generate::{
    code_refs, declare_refs, decls_refs, refs_table, rules_code_refs, GrammarSpec,
};
use crate::parse::{cases_refs, parse_refs};
use crate::rule::{concat, more, more_sep, RuleSpec, SepKind};
use crate::table::{prefix_of_prefix, see_all, see_all_adds, see_all_extends, shape_parts};
use crate::traverse::{traverse_cases_refs, traverse_refs};
use crate::written::{row, row_push};
use vstd::prelude::*;

verus! {

/// The rules that are met where the code of a rule is generated. The rule at the start of a row and
/// the row itself come first, and then what is met in the rule at its end, and in that at its
/// start. The cases come in order, each before the choice itself and what is met in the case.
pub proof fn rules_met_in_code(rule: RuleSpec)
    ensures
        parse_refs(rule) == match rule {
            RuleSpec::Empty | RuleSpec::Eat(_) | RuleSpec::Call(_) => Seq::empty(),
            RuleSpec::Concat(left, right) => seq![*left, rule] + parse_refs(*right) + parse_refs(
                *left,
            ),
            RuleSpec::Or(cases) => row(
                Seq::new(cases.len(), |i: int| seq![cases[i], rule] + parse_refs(cases[i])),
            ),
            RuleSpec::Opt(inner) => parse_refs(*inner),
            RuleSpec::RepeatMany(elem, None) | RuleSpec::RepeatMore(elem, None) => seq![
                *elem,
                more(*elem),
            ] + parse_refs(*elem),
            RuleSpec::RepeatMany(elem, Some((sep, kind)))
            | RuleSpec::RepeatMore(elem, Some((sep, kind))) => (match kind {
                SepKind::Simple => Seq::empty(),
                SepKind::Trailing => parse_refs(*sep),
            }) + seq![
                *elem,
                *sep,
                concat(*sep, more_sep(*elem, *sep, SepKind::Simple)),
                more_sep(*elem, *sep, SepKind::Simple),
            ] + parse_refs(*sep) + parse_refs(*elem),
        },
{
    match rule {
        RuleSpec::Or(cases) => {
            cases_met_in_code(rule, cases, cases.len());
        },
        RuleSpec::RepeatMany(elem, Some((sep, kind)))
        | RuleSpec::RepeatMore(elem, Some((sep, kind))) => {
            let four = seq![
                *elem,
                *sep,
                concat(*sep, more_sep(*elem, *sep, SepKind::Simple)),
                more_sep(*elem, *sep, SepKind::Simple),
            ];
            match kind {
                SepKind::Simple => {
                    assert(Seq::<RuleSpec>::empty() + four =~= four);
                },
                SepKind::Trailing => {
                    assert(parse_refs(*sep) + (four + parse_refs(*sep) + parse_refs(*elem))
                        =~= parse_refs(*sep) + four + parse_refs(*sep) + parse_refs(*elem));
                },
            }
        },
        _ => {},
    }
}

proof fn cases_met_in_code(rule: RuleSpec, cases: Seq<RuleSpec>, n: nat)
    requires
        n <= cases.len(),
    ensures
        cases_refs(rule, cases, n) == row(
            Seq::new(n, |i: int| seq![cases[i], rule] + parse_refs(cases[i])),
        ),
    decreases n,
{
    let f = |i: int| seq![cases[i], rule] + parse_refs(cases[i]);
    let parts = Seq::new(n, f);
    if n > 0 {
        cases_met_in_code(rule, cases, (n - 1) as nat);
        let before = Seq::new((n - 1) as nat, f);
        row_push(before, f(n - 1));
        assert(before.push(f(n - 1)) =~= parts);
        assert(cases_refs(rule, cases, n) =~= row(before) + f(n - 1));
    }
}

/// The rules that are met in the shape of a rule: each case before what is met in it, in order.
pub proof fn rules_met_in_shape(rule: RuleSpec)
    ensures
        traverse_refs(rule) == match rule {
            RuleSpec::Concat(left, right) => traverse_refs(*left) + traverse_refs(*right),
            RuleSpec::Or(cases) => row(
                Seq::new(cases.len(), |i: int| seq![cases[i]] + traverse_refs(cases[i])),
            ),
            RuleSpec::Opt(inner) => traverse_refs(*inner),
            _ => Seq::empty(),
        },
{
    if let RuleSpec::Or(cases) = rule {
        cases_met_in_shape(cases, cases.len());
    }
}

proof fn cases_met_in_shape(cases: Seq<RuleSpec>, n: nat)
    requires
        n <= cases.len(),
    ensures
        traverse_cases_refs(cases, n) == row(
            Seq::new(n, |i: int| seq![cases[i]] + traverse_refs(cases[i])),
        ),
    decreases n,
{
    let f = |i: int| seq![cases[i]] + traverse_refs(cases[i]);
    let parts = Seq::new(n, f);
    if n > 0 {
        cases_met_in_shape(cases, (n - 1) as nat);
        let before = Seq::new((n - 1) as nat, f);
        row_push(before, f(n - 1));
        assert(before.push(f(n - 1)) =~= parts);
        assert(traverse_cases_refs(cases, n) =~= row(before) + f(n - 1));
    }
}

/// The rules that are met in what is declared for a rule: those in its shapes, then those of its
/// variants, and those in the shapes again.
pub proof fn rules_met_in_declarations(rule: NamedSpec)
    ensures
        declare_refs(rule) == match variants_in(rule) {
            None => traverse_refs(rule.rule) + traverse_refs(rule.rule),
            Some(vs) => row(Seq::new(vs.len(), |i: int| traverse_refs(vs[i].rule)))
                + Seq::new(vs.len(), |i: int| vs[i].rule) + row(
                Seq::new(vs.len(), |i: int| traverse_refs(vs[i].rule)),
            ),
        },
{
    if let Some(vs) = variants_in(rule) {
        variants_met(vs, vs.len());
        let shapes = shapes_refs(vs, vs.len());
        let rules = variant_rules(vs, vs.len());
        assert(shapes + (rules + shapes) =~= shapes + rules + shapes);
    }
}

proof fn variants_met(vs: Seq<VariantSpec>, n: nat)
    requires
        n <= vs.len(),
    ensures
        shapes_refs(vs, n) == row(Seq::new(n, |i: int| traverse_refs(vs[i].rule))),
        variant_rules(vs, n) == Seq::new(n, |i: int| vs[i].rule),
    decreases n,
{
    let f = |i: int| traverse_refs(vs[i].rule);
    let parts = Seq::new(n, f);
    if n > 0 {
        variants_met(vs, (n - 1) as nat);
        let before = Seq::new((n - 1) as nat, f);
        row_push(before, f(n - 1));
        assert(before.push(f(n - 1)) =~= parts);
        assert(variant_rules(vs, n) =~= Seq::new(n, |i: int| vs[i].rule));
    }
}

/// The rules of a grammar are met first in what is declared for the rules, in order, and then in
/// the code of those of the rules that have fields.
pub proof fn rules_met_in_grammar(g: GrammarSpec)
    ensures
        refs_table(g) == see_all(
            Seq::empty(),
            row(Seq::new(g.len(), |i: int| declare_refs(g[i].1))) + row(
                Seq::new(
                    g.len(),
                    |i: int|
                        if g[i].1.fields.len() == 0 {
                            Seq::empty()
                        } else {
                            parse_refs(g[i].1.rule)
                        },
                ),
            ),
        ),
{
    declarations_met(g, g.len());
    code_met(g, g.len());
    see_all_adds(
        Seq::empty(),
        decls_refs(g, g.len()),
        rules_code_refs(g, g.len()),
    );
}

proof fn declarations_met(g: GrammarSpec, n: nat)
    requires
        n <= g.len(),
    ensures
        decls_refs(g, n) == row(Seq::new(n, |i: int| declare_refs(g[i].1))),
    decreases n,
{
    let f = |i: int| declare_refs(g[i].1);
    let parts = Seq::new(n, f);
    if n > 0 {
        declarations_met(g, (n - 1) as nat);
        let before = Seq::new((n - 1) as nat, f);
        row_push(before, f(n - 1));
        assert(before.push(f(n - 1)) =~= parts);
    }
}

proof fn code_met(g: GrammarSpec, n: nat)
    requires
        n <= g.len(),
    ensures
        rules_code_refs(g, n) == row(
            Seq::new(
                n,
                |i: int|
                    if g[i].1.fields.len() == 0 {
                        Seq::empty()
                    } else {
                        parse_refs(g[i].1.rule)
                    },
            ),
        ),
    decreases n,
{
    let f = |i: int|
        if g[i].1.fields.len() == 0 {
            Seq::empty()
        } else {
            parse_refs(g[i].1.rule)
        };
    let parts = Seq::new(n, f);
    if n > 0 {
        code_met(g, (n - 1) as nat);
        let before = Seq::new((n - 1) as nat, f);
        row_push(before, f(n - 1));
        assert(before.push(f(n - 1)) =~= parts);
        assert(code_refs(g[n - 1].1) == f(n - 1));
    }
}

/// Whether a rule is met at a place for the first time.
pub open spec fn first_met(rules: Seq<RuleSpec>, rule: RuleSpec, at: int) -> bool {
    &&& 0 <= at < rules.len()
    &&& rules[at] == rule
    &&& forall|i: int| 0 <= i < at ==> #[trigger] rules[i] != rule
}

/// Rules that are met are added to the table in the order in which they are met for the first time.
/// A call is not added, nor is a rule that is in the table already.
pub proof fn numbered_as_met(table: Seq<RuleSpec>, rules: Seq<RuleSpec>) -> (places: Seq<int>)
    ensures
        ({
            let after = see_all(table, rules);
            let n = table.len() as int;
            &&& table.is_prefix_of(after)
            &&& places.len() == after.len() - n
            &&& forall|k: int|
                0 <= k < places.len() ==> {
                    &&& first_met(rules, after[n + k], #[trigger] places[k])
                    &&& !(after[n + k] is Call)
                    &&& !table.contains(after[n + k])
                }
            &&& forall|i: int, k: int| 0 <= i < k < places.len() ==> places[i] < places[k]
            &&& forall|i: int|
                0 <= i < rules.len() && !((#[trigger] rules[i]) is Call) ==> after.contains(
                    rules[i],
                )
        }),
    decreases rules.len(),
{
    if rules.len() == 0 {
        assert(table =~= table.subrange(0, table.len() as int));
        Seq::empty()
    } else {
        let before = rules.drop_last();
        let last = rules.last();
        let old_places = numbered_as_met(table, before);
        let mid = see_all(table, before);
        let after = see_all(table, rules);
        let n = table.len() as int;
        see_all_extends(table, rules);
        let places = if last is Call || mid.contains(last) {
            old_places
        } else {
            old_places.push(rules.len() - 1)
        };
        assert forall|k: int| 0 <= k < places.len() implies {
            &&& first_met(rules, after[n + k], #[trigger] places[k])
            &&& !(after[n + k] is Call)
            &&& !table.contains(after[n + k])
        } by {
            if k < old_places.len() {
                assert(places[k] == old_places[k]);
                assert(after[n + k] == mid[n + k]);
                assert(first_met(before, mid[n + k], old_places[k]));
                assert forall|i: int| 0 <= i < places[k] implies #[trigger] rules[i] != after[n
                    + k] by {
                    assert(before[i] == rules[i]);
                }
            } else {
                assert(after[n + k] == last);
                assert forall|i: int| 0 <= i < rules.len() - 1 implies #[trigger] rules[i]
                    != last by {
                    assert(before[i] == rules[i]);
                    if rules[i] == last {
                        assert(mid.contains(before[i]));
                    }
                }
                if table.contains(last) {
                    let at = table.index_of(last);
                    assert(mid[at] == last);
                    assert(mid.contains(last));
                }
            }
        }
        assert forall|i: int| 0 <= i < rules.len() && !((#[trigger] rules[i]) is Call) implies
            after.contains(rules[i]) by {
            if i < before.len() {
                assert(before[i] == rules[i]);
                let at = mid.index_of(rules[i]);
                assert(after[at] == rules[i]);
            } else if !mid.contains(last) {
                assert(after[mid.len() as int] == last);
            }
        }
        places
    }
}

/// Whether a rule is part of a node of a rule before it.
pub open spec fn is_part_of_earlier(table: Seq<RuleSpec>, k: int) -> bool {
    exists|j: int| 0 <= j < k && shape_parts(#[trigger] table[j]).contains(table[k])
}

/// The table is completed only with rules that nodes of rules before them are made of.
pub proof fn only_parts_are_added(table: Seq<RuleSpec>, k: int)
    requires
        table.len() <= k < closed_table(table).len(),
    ensures
        is_part_of_earlier(closed_table(table), k),
{
    parts_are_added(table, 0, all_derived(table, table.len()).len(), k);
}

proof fn parts_are_added(table: Seq<RuleSpec>, i: nat, fuel: nat, k: int)
    requires
        table.len() <= k < close(table, i, fuel).len(),
    ensures
        table.is_prefix_of(close(table, i, fuel)),
        is_part_of_earlier(close(table, i, fuel), k),
    decreases fuel,
{
    if fuel > 0 && i < table.len() {
        let parts = shape_parts(table[i as int]);
        let next = see_all(table, parts);
        let done = close(table, i, fuel);
        let places = numbered_as_met(table, parts);
        close_extends(next, i + 1, (fuel - 1) as nat);
        prefix_of_prefix(table, next, done);
        if k < next.len() {
            assert(done[k] == next[k]);
            assert(first_met(parts, next[k], places[k - table.len()]));
            assert(parts.contains(next[k]));
            assert(done[i as int] == table[i as int]);
        } else {
            parts_are_added(next, i + 1, (fuel - 1) as nat, k);
        }
    }
}

proof fn close_extends(table: Seq<RuleSpec>, i: nat, fuel: nat)
    ensures
        table.is_prefix_of(close(table, i, fuel)),
    decreases fuel,
{
    if fuel > 0 && i < table.len() {
        let next = see_all(table, shape_parts(table[i as int]));
        see_all_extends(table, shape_parts(table[i as int]));
        close_extends(next, i + 1, (fuel - 1) as nat);
        prefix_of_prefix(table, next, close(table, i, fuel));
    } else {
        assert(table =~= table.subrange(0, table.len() as int));
    }
}

} // verus!
