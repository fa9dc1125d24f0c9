//! What holds of the kinds of nodes that generated code declares.
use crate::closure::closed_table_is_closed;


use crate::generate::{
    aliases_seen, all_describable, all_nodes, anon_node, code_refs, decls_refs, grammar_table,
    named_node, refs_table, rules_code_refs, GrammarSpec,
};
use crate::hereditary::{
    calls_only, calls_only_is_hereditary, can_describe_is_hereditary, grammar_table_has,
    shape_parts_have,
};
use crate::maps::distinct_keys;
use crate::node::{KindSpec, ParseNodeShape, ShapeSpec};
use crate::parse::{cases_refs, parse_refs};
use crate::rule::{more, RuleSpec, SepKind};
use crate::table::{
    all_seen, all_seen_parts, can_describe, kind_of, kind_stable, parts_seen, see_all,
    see_all_extends, seen, shape_parts,
};

use vstd::prelude::*;

verus! {

/// The kinds that a shape speaks of.
pub open spec fn shape_kinds(shape: ShapeSpec) -> Seq<KindSpec> {
    match shape {
        ParseNodeShape::Opaque | ParseNodeShape::Choice => Seq::empty(),
        ParseNodeShape::Alias(inner) | ParseNodeShape::Opt(inner) => seq![inner],
        ParseNodeShape::Split(left, right) => seq![left, right],
    }
}

/// The table of a grammar has no rule twice, and has all rules that the nodes of its rules are made
/// of.
pub proof fn grammar_table_is_closed(g: GrammarSpec)
    ensures
        grammar_table(g).no_duplicates(),
        refs_table(g).is_prefix_of(grammar_table(g)),
        forall|k: int|
            0 <= k < grammar_table(g).len() ==> parts_seen(
                #[trigger] grammar_table(g)[k],
                grammar_table(g),
            ),
{
    let none = Seq::<RuleSpec>::empty();
    see_all_extends(none, decls_refs(g, g.len()));
    see_all_extends(see_all(none, decls_refs(g, g.len())), rules_code_refs(g, g.len()));
    closed_table_is_closed(refs_table(g));
}

/// No kind of nodes is declared twice, where no name is that of two rules.
pub proof fn node_kinds_are_distinct(g: GrammarSpec, table: Seq<RuleSpec>, i: int, j: int)
    requires
        distinct_keys(g),
        0 <= i < j < all_nodes(g, table).len(),
    ensures
        all_nodes(g, table)[i].kind != all_nodes(g, table)[j].kind,
{
    if j < g.len() {
        assert(g[i].0 != g[j].0);
    }
}

/// The names of the rules of a grammar.
pub open spec fn rule_names(g: GrammarSpec) -> Set<Seq<char>> {
    Set::new(|name: Seq<char>| exists|i: int| 0 <= i < g.len() && (#[trigger] g[i]).0 == name)
}

/// Whether all rules that are called in a grammar are there.
pub open spec fn calls_defined(g: GrammarSpec) -> bool {
    forall|i: int| 0 <= i < g.len() ==> calls_only((#[trigger] g[i]).1.rule, rule_names(g))
}

/// Whether a kind of nodes is declared.
pub open spec fn kind_declared(g: GrammarSpec, kind: KindSpec) -> bool {
    exists|j: int|
        0 <= j < all_nodes(g, grammar_table(g)).len() && (#[trigger] all_nodes(
            g,
            grammar_table(g),
        )[j]).kind == kind
}

/// The kind of the nodes of a rule that has been seen is declared: that of a rule without a name in
/// any case, that of a rule that calls another where the other is there.
pub proof fn seen_kind_is_declared(g: GrammarSpec, rule: RuleSpec)
    requires
        seen(grammar_table(g), rule),
        rule is Call ==> calls_only(rule, rule_names(g)),
    ensures
        kind_declared(g, kind_of(rule, grammar_table(g))),
{
    let table = grammar_table(g);
    let nodes = all_nodes(g, table);
    match rule {
        RuleSpec::Call(name) => {
            let i = choose|i: int| 0 <= i < g.len() && (#[trigger] g[i]).0 == name;
            assert(g[i].0 == name);
            assert(nodes[i] == named_node(g[i].0, g[i].1, table));
        },
        _ => {
            let n = table.index_of(rule);
            assert(table[n] == rule);
            assert(nodes[g.len() + n] == anon_node(n, table));
        },
    }
}

/// All rules that there are nodes for call only rules that are there, where the rules of the
/// grammar do.
pub proof fn grammar_table_calls(g: GrammarSpec)
    requires
        calls_defined(g),
    ensures
        forall|i: int|
            0 <= i < grammar_table(g).len() ==> calls_only(
                #[trigger] grammar_table(g)[i],
                rule_names(g),
            ),
{
    let names = rule_names(g);
    let p = |r: RuleSpec| calls_only(r, names);
    calls_only_is_hereditary(names);
    assert forall|i: int| 0 <= i < g.len() implies p((#[trigger] g[i]).1.rule) by {}
    grammar_table_has(p, g);
    let table = grammar_table(g);
    assert forall|i: int| 0 <= i < table.len() implies calls_only(#[trigger] table[i], names) by {
        assert(p(table[i]));
    }
}

/// A kind that the shape of declared nodes speaks of is declared: that of a rule without a name in
/// any case, that of a rule with a name where all rules that are called are there.
pub proof fn shape_kinds_are_declared(g: GrammarSpec, i: int, k: int)
    requires
        aliases_seen(g, grammar_table(g)),
        0 <= i < all_nodes(g, grammar_table(g)).len(),
        0 <= k < shape_kinds(all_nodes(g, grammar_table(g))[i].shape).len(),
        shape_kinds(all_nodes(g, grammar_table(g))[i].shape)[k] is Anon || calls_defined(g),
    ensures
        kind_declared(g, shape_kinds(all_nodes(g, grammar_table(g))[i].shape)[k]),
{
    let table = grammar_table(g);
    let nodes = all_nodes(g, table);
    let kind = shape_kinds(nodes[i].shape)[k];
    grammar_table_is_closed(g);
    if i < g.len() {
        assert(kind == kind_of(g[i].1.rule, table));
        seen_kind_is_declared(g, g[i].1.rule);
    } else {
        let rule = table[i - g.len()];
        let part = shape_parts(rule)[k];
        assert(parts_seen(rule, table));
        assert(kind == kind_of(part, table));
        if part is Call {
            let names = rule_names(g);
            let p = |r: RuleSpec| calls_only(r, names);
            grammar_table_calls(g);
            calls_only_is_hereditary(names);
            shape_parts_have(p, rule);
            assert(p(part));
        }
        seen_kind_is_declared(g, part);
    }
}

/// Where the rules of a grammar can be written, so can all rules that there are nodes for.
pub proof fn grammar_table_is_describable(g: GrammarSpec)
    requires
        forall|i: int| 0 <= i < g.len() ==> can_describe((#[trigger] g[i]).1.rule),
    ensures
        all_describable(grammar_table(g)),
{
    let p = |r: RuleSpec| can_describe(r);
    can_describe_is_hereditary();
    assert forall|i: int| 0 <= i < g.len() implies p((#[trigger] g[i]).1.rule) by {}
    grammar_table_has(p, g);
    let table = grammar_table(g);
    assert forall|i: int| 0 <= i < table.len() implies can_describe(#[trigger] table[i]) by {
        assert(p(table[i]));
    }
}

/// Whether the code that parses a rule makes a node of the rule itself, or calls another rule.
pub open spec fn makes_node(rule: RuleSpec) -> bool {
    match rule {
        RuleSpec::Call(_) | RuleSpec::Concat(..) => true,
        RuleSpec::Or(cases) => cases.len() > 0,
        RuleSpec::RepeatMany(_, None) | RuleSpec::RepeatMore(_, None) => true,
        RuleSpec::RepeatMore(_, Some((_, SepKind::Simple))) => true,
        _ => false,
    }
}

/// What the code of all rules speaks of has been seen, so that of each has.
pub proof fn code_refs_seen(g: GrammarSpec, n: nat, i: int, table: Seq<RuleSpec>)
    requires
        0 <= i < n <= g.len(),
        all_seen(table, rules_code_refs(g, n)),
    ensures
        all_seen(table, code_refs(g[i].1)),
    decreases n,
{
    all_seen_parts(table, rules_code_refs(g, (n - 1) as nat), code_refs(g[n - 1].1));
    if i < n - 1 {
        code_refs_seen(g, (n - 1) as nat, i, table);
    }
}

/// There is a kind for the nodes of a rule with fields, where its code makes a node of the rule
/// itself.
pub proof fn alias_is_seen(g: GrammarSpec, i: int)
    requires
        0 <= i < g.len(),
        g[i].1.fields.len() > 0,
        makes_node(g[i].1.rule),
    ensures
        seen(grammar_table(g), g[i].1.rule),
{
    let none = Seq::<RuleSpec>::empty();
    let table = refs_table(g);
    let last = grammar_table(g);
    let rule = g[i].1.rule;
    let refs = parse_refs(rule);
    grammar_table_is_closed(g);
    see_all_extends(see_all(none, decls_refs(g, g.len())), rules_code_refs(g, g.len()));
    code_refs_seen(g, g.len(), i, table);
    match rule {
        RuleSpec::Concat(..) | RuleSpec::RepeatMore(_, None) => {
            assert(refs[1] == rule);
            kind_stable(rule, table, last);
        },
        RuleSpec::Or(cases) => {
            let n = cases.len();
            let before = cases_refs(rule, cases, (n - 1) as nat);
            assert(refs == cases_refs(rule, cases, n));
            assert(refs == before + seq![cases[n - 1], rule] + parse_refs(cases[n - 1]));
            assert(refs[before.len() as int + 1] == rule);
            kind_stable(rule, table, last);
        },
        RuleSpec::RepeatMore(_, Some((_, SepKind::Simple))) => {
            assert(refs[3] == rule);
            kind_stable(rule, table, last);
        },
        RuleSpec::RepeatMany(elem, None) => {
            assert(refs[1] == more(*elem));
            kind_stable(more(*elem), table, last);
            let at = last.index_of(more(*elem));
            assert(last[at] == more(*elem));
            assert(parts_seen(last[at], last));
            assert(shape_parts(more(*elem))[1] == rule);
        },
        _ => {},
    }
}

} // verus!
