//! Which rules there is no parser for: those with a field without a type, or with a choice of less
//! than two cases.
use crate::declare::{can_declare, variant_typed};
use crate::fields::{flat, paths_lead_to_cases, rules_out, variants_in, NamedSpec};
use crate::generate::{
    aliases_seen, code_table, grammar_table, has_parser, why_no_parser, GrammarSpec, NoParser,
};
use crate::naming::{fields_name_cases, path_has_place, place, place_has_path, variants_are_named};
use crate::rule::RuleSpec;
use crate::table::{can_describe, seen};
use crate::tokens::SrcSpec;
use crate::types::{pathset_type, type_agreed, type_at};
use crate::values::{has_type, types_differ, whole_has_type};
use vstd::prelude::*;

verus! {

/// Whether a path before some path leads to another type than the first.
pub open spec fn differs_before(rule: RuleSpec, paths: Seq<Seq<usize>>, k: int) -> bool {
    exists|j: int| 0 < j < k && types_differ(rule, paths[0], #[trigger] paths[j])
}

/// A field has a type exactly where there are paths to it, and each of them leads to a type unless
/// one before it leads to another type than the first.
pub proof fn field_has_type(rule: RuleSpec, paths: Seq<Seq<usize>>)
    ensures
        pathset_type(rule, paths) is Some <==> paths.len() > 0 && forall|k: int|
            0 <= k < paths.len() ==> type_at(rule, #[trigger] paths[k]) is Some || differs_before(
                rule,
                paths,
                k,
            ),
{
    if paths.len() > 0 {
        if let Some(ty) = type_at(rule, paths[0]) {
            types_are_found(rule, paths, ty, 1);
        } else {
            assert(!differs_before(rule, paths, 0));
        }
    }
}

proof fn types_are_found(rule: RuleSpec, paths: Seq<Seq<usize>>, ty: SrcSpec, k: nat)
    requires
        0 < k <= paths.len(),
        type_at(rule, paths[0]) == Some(ty),
        !differs_before(rule, paths, k as int),
        forall|m: int| 0 <= m < k ==> type_at(rule, #[trigger] paths[m]) is Some,
    ensures
        type_agreed(rule, paths, ty, k) is Some <==> forall|m: int|
            0 <= m < paths.len() ==> type_at(rule, #[trigger] paths[m]) is Some || differs_before(
                rule,
                paths,
                m,
            ),
    decreases paths.len() - k,
{
    if k < paths.len() {
        let path = paths[k as int];
        if type_at(rule, path) is Some {
            if types_differ(rule, paths[0], path) {
                assert forall|m: int| 0 <= m < paths.len() implies type_at(
                    rule,
                    #[trigger] paths[m],
                ) is Some || differs_before(rule, paths, m) by {
                    if m > k {
                        assert(types_differ(rule, paths[0], paths[k as int]));
                    }
                }
            } else {
                assert(!differs_before(rule, paths, k as int + 1)) by {
                    if differs_before(rule, paths, k as int + 1) {
                        let j = choose|j: int|
                            0 < j < k + 1 && types_differ(rule, paths[0], #[trigger] paths[j]);
                        assert(j < k);
                    }
                }
                types_are_found(rule, paths, ty, k + 1);
            }
        } else {
            assert(!differs_before(rule, paths, k as int));
        }
    }
}

/// The type for a rule can be declared exactly where its paths lead to its cases, and each of its
/// fields has a type. Where it has variants, those of each variant do, or the variant is worth
/// something by itself if it has none.
pub proof fn declared_if_typed(rule: NamedSpec)
    ensures
        variants_in(rule) is None ==> (can_declare(rule) <==> paths_lead_to_cases(rule) && forall|
            i: int,
        |
            0 <= i < rule.fields.len() ==> pathset_type(rule.rule, (#[trigger] rule.fields[i]).1)
                is Some),
        variants_in(rule) matches Some(vs) ==> (can_declare(rule) <==> paths_lead_to_cases(rule)
            && (forall|v: int|
            0 <= v < vs.len() && (#[trigger] vs[v]).fields.len() == 0 ==> has_type(vs[v].rule)) && (
        forall|v: int, i: int|
            0 <= v < vs.len() && 0 <= i < vs[v].fields.len() ==> pathset_type(
                vs[v].rule,
                (#[trigger] vs[v].fields[i]).1,
            ) is Some)),
{
    if let Some(vs) = variants_in(rule) {
        assert forall|v: int| 0 <= v < vs.len() implies (type_at(
            (#[trigger] vs[v]).rule,
            Seq::empty(),
        ) is Some <==> has_type(vs[v].rule)) by {
            whole_has_type(vs[v].rule);
        }
        if can_declare(rule) {
            assert forall|v: int, i: int|
                0 <= v < vs.len() && 0 <= i < vs[v].fields.len() implies pathset_type(
                vs[v].rule,
                (#[trigger] vs[v].fields[i]).1,
            ) is Some by {
                assert(variant_typed(vs[v]));
            }
            assert forall|v: int|
                0 <= v < vs.len() && (#[trigger] vs[v]).fields.len() == 0 implies has_type(
                vs[v].rule,
            ) by {
                assert(variant_typed(vs[v]));
            }
        }
        if paths_lead_to_cases(rule) && !can_declare(rule) {
            let v = choose|v: int| 0 <= v < vs.len() && !variant_typed(#[trigger] vs[v]);
            if vs[v].fields.len() > 0 {
                let i = choose|i: int|
                    0 <= i < vs[v].fields.len() && pathset_type(
                        vs[v].rule,
                        (#[trigger] vs[v].fields[i]).1,
                    ) is None;
                assert(pathset_type(vs[v].rule, vs[v].fields[i].1) is None);
            }
        }
    }
}

/// Whether a path of a field leads into a case that there is not.
pub open spec fn leaves_cases(rule: NamedSpec, i: int, j: int) -> bool {
    &&& 0 <= i < rule.fields.len()
    &&& 0 <= j < rule.fields[i].1.len()
    &&& rule.fields[i].1[j].len() > 0
    &&& rule.fields[i].1[j][0] >= rule.rule->Or_0.len()
}

/// The paths of a choice whose fields name its cases, each once, and the choice as a whole not at
/// all, lead to its cases exactly where none leads into a case that there is not. Those of a rule
/// that is no choice always do.
pub proof fn paths_stay_in_cases(rule: NamedSpec)
    requires
        forall|i: int| 0 <= i < rule.fields.len() ==> (#[trigger] rule.fields[i]).0.len() > 0,
    ensures
        !(rule.rule is Or) ==> paths_lead_to_cases(rule),
        (forall|i: int, j: int| !#[trigger] leaves_cases(rule, i, j)) ==> paths_lead_to_cases(rule),
        fields_name_cases(rule) && paths_lead_to_cases(rule) ==> forall|i: int, j: int|
            !#[trigger] leaves_cases(rule, i, j),
{
    let fs = rule.fields;
    let all = flat(fs, fs.len());
    if rule.rule is Or {
        if forall|i: int, j: int| !#[trigger] leaves_cases(rule, i, j) {
            assert forall|k: int| 0 <= k < all.len() && (#[trigger] all[k]).1.len() > 0 implies (
            all[k].1[0] as int) < rule.rule->Or_0.len() by {
                let (i, j) = place_has_path(fs, k, fs.len());
                assert(!leaves_cases(rule, i, j));
            }
        }
        if fields_name_cases(rule) && paths_lead_to_cases(rule) {
            variants_are_named(rule);
            assert forall|i: int, j: int| !#[trigger] leaves_cases(rule, i, j) by {
                if leaves_cases(rule, i, j) {
                    path_has_place(fs, i, j, fs.len());
                    let k = place(fs, i, j);
                    assert(all[k].1.len() > 0);
                    let m = choose|m: int| 0 <= m < k && #[trigger] rules_out(all, m);
                    assert(rules_out(all, m));
                }
            }
        }
    }
}

/// The rules that a rule is written with.
pub open spec fn written_with(rule: RuleSpec) -> Seq<RuleSpec> {
    match rule {
        RuleSpec::Empty | RuleSpec::Eat(_) | RuleSpec::Call(_) => Seq::empty(),
        RuleSpec::Concat(left, right) => seq![*left, *right],
        RuleSpec::Or(cases) => cases,
        RuleSpec::Opt(inner) => seq![*inner],
        RuleSpec::RepeatMany(elem, None) | RuleSpec::RepeatMore(elem, None) => seq![*elem],
        RuleSpec::RepeatMany(elem, Some((sep, _))) | RuleSpec::RepeatMore(elem, Some((sep, _))) => {
            seq![*elem, *sep]
        },
    }
}

/// The rule that is found where a rule is taken apart along some numbers.
pub open spec fn found_in(rule: RuleSpec, way: Seq<int>) -> Option<RuleSpec>
    decreases way.len(),
{
    if way.len() == 0 {
        Some(rule)
    } else if 0 <= way[0] < written_with(rule).len() {
        found_in(written_with(rule)[way[0]], way.skip(1))
    } else {
        None
    }
}

/// Whether a rule is a choice of less than two cases.
pub open spec fn lacks_cases(rule: RuleSpec) -> bool {
    rule matches RuleSpec::Or(cases) && cases.len() < 2
}

/// A rule can be written exactly where no choice anywhere in it has less than two cases.
pub proof fn described_if_no_case_lacks(rule: RuleSpec)
    ensures
        can_describe(rule) <==> !exists|way: Seq<int>|
            (#[trigger] found_in(rule, way)) matches Some(r) && lacks_cases(r),
    decreases rule,
{
    let none = Seq::<int>::empty();
    assert(found_in(rule, none) == Some(rule));
    let parts = written_with(rule);
    match rule {
        RuleSpec::Concat(left, right) => {
            described_if_no_case_lacks(*left);
            described_if_no_case_lacks(*right);
            assert(parts[0] == *left && parts[1] == *right);
        },
        RuleSpec::Or(cases) => {
            assert forall|i: int| 0 <= i < cases.len() implies (can_describe(#[trigger] cases[i])
                <==> !lacks_inside(cases[i])) by {
                described_if_no_case_lacks(cases[i]);
            }
        },
        RuleSpec::Opt(inner) => {
            described_if_no_case_lacks(*inner);
            assert(parts[0] == *inner);
        },
        RuleSpec::RepeatMany(elem, None) | RuleSpec::RepeatMore(elem, None) => {
            described_if_no_case_lacks(*elem);
            assert(parts[0] == *elem);
        },
        RuleSpec::RepeatMany(elem, Some((sep, _))) | RuleSpec::RepeatMore(elem, Some((sep, _))) => {
            described_if_no_case_lacks(*elem);
            described_if_no_case_lacks(*sep);
            assert(parts[0] == *elem && parts[1] == *sep);
        },
        _ => {},
    }
    lacks_in_parts(rule);
}

/// Whether a choice anywhere in a rule has less than two cases.
spec fn lacks_inside(rule: RuleSpec) -> bool {
    exists|way: Seq<int>| (#[trigger] found_in(rule, way)) matches Some(r) && lacks_cases(r)
}

proof fn lacks_in_parts(rule: RuleSpec)
    ensures
        lacks_inside(rule) <==> lacks_cases(rule) || exists|i: int|
            0 <= i < written_with(rule).len() && lacks_inside(#[trigger] written_with(rule)[i]),
{
    let parts = written_with(rule);
    let none = Seq::<int>::empty();
    assert(found_in(rule, none) == Some(rule));
    if lacks_inside(rule) {
        let way = choose|way: Seq<int>|
            (#[trigger] found_in(rule, way)) matches Some(r) && lacks_cases(r);
        if way.len() > 0 {
            assert(found_in(rule, way) == found_in(parts[way[0]], way.skip(1)));
            assert(lacks_inside(parts[way[0]]));
        }
    }
    if exists|i: int| 0 <= i < parts.len() && lacks_inside(#[trigger] parts[i]) {
        let i = choose|i: int| 0 <= i < parts.len() && lacks_inside(#[trigger] parts[i]);
        let rest = choose|way: Seq<int>|
            (#[trigger] found_in(parts[i], way)) matches Some(r) && lacks_cases(r);
        let way = seq![i] + rest;
        assert(way.skip(1) =~= rest);
        assert(found_in(rule, way) == found_in(parts[i], rest));
    }
}

/// Whether the nodes of a rule with a name stand for nodes that have no kind.
pub open spec fn stands_for_unknown(g: GrammarSpec, i: int) -> bool {
    &&& 0 <= i < g.len()
    &&& g[i].1.fields.len() > 0
    &&& !(g[i].1.rule is Call)
    &&& !grammar_table(g).contains(g[i].1.rule)
}

/// There is a parser for a grammar, or a reason that there is none: a rule whose type cannot be
/// declared; else nodes without a kind; else a rule that there are nodes for and that cannot be
/// written.
pub proof fn refused_for_a_reason(g: GrammarSpec)
    ensures
        has_parser(g) <==> why_no_parser(g) is None,
        why_no_parser(g) == Some(NoParser::Type) <==> exists|i: int|
            0 <= i < g.len() && !can_declare((#[trigger] g[i]).1),
        why_no_parser(g) == Some(NoParser::Kind) <==> (forall|i: int|
            0 <= i < g.len() ==> can_declare((#[trigger] g[i]).1)) && exists|i: int|
            #[trigger] stands_for_unknown(g, i),
        why_no_parser(g) == Some(NoParser::Description) <==> (forall|i: int|
            0 <= i < g.len() ==> can_declare((#[trigger] g[i]).1)) && (forall|i: int|
            !#[trigger] stands_for_unknown(g, i)) && exists|i: int|
            0 <= i < grammar_table(g).len() && !can_describe(#[trigger] grammar_table(g)[i]),
        why_no_parser(g) != Some(NoParser::Preamble),
{
    let table = grammar_table(g);
    if aliases_seen(g, table) {
        assert forall|i: int| !#[trigger] stands_for_unknown(g, i) by {
            if stands_for_unknown(g, i) {
                assert(seen(table, g[i].1.rule));
            }
        }
    } else {
        let i = choose|i: int|
            0 <= i < g.len() && (#[trigger] g[i]).1.fields.len() > 0 && !seen(table, g[i].1.rule);
        assert(stands_for_unknown(g, i));
    }
}

/// Nodes are noted inside of a rule exactly where it has fields.
pub proof fn nodes_where_fields(rule: NamedSpec, table: Seq<RuleSpec>)
    ensures
        code_table(rule, table) is Some <==> rule.fields.len() > 0,
        code_table(rule, table) matches Some(used) ==> used == table,
{
}

} // verus!
