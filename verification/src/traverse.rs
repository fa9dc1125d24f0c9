//! The shapes by which generated code goes through parse forests.
use crate::node::{kind_src, numbered_name, numbered_name_of};
use crate::pattern::{PatKey, RustInputPat};
use crate::rule::{models, Rule, RuleSpec};
use crate::table::{
    all_seen, all_seen_parts, kind_of, kind_stable, prefix_of_prefix, see_all, see_more, see_one,
    seen, RuleMap,
};
use crate::tokens::{fill, number, quote0, quote1, quote2, quote4, word, Src, SrcSpec};
use std::rc::Rc;
use vstd::prelude::*;

verus! {

pub const MAYBE: &'static str = "?";

pub const ALWAYS: &'static str = "_";

pub const PAIR: &'static str = "( $ , $ )";

pub const CASES: &'static str = "{ $ }";

pub const CASE: &'static str = "$ $ : $ => $ ,";

pub const OPTION: &'static str = "[ $ ]";

/// The shape of a rule: where its nodes are, and which of them may be missing. All of them may be
/// if `refutable`.
pub open spec fn traverse_shape(
    rule: RuleSpec,
    refutable: bool,
    table: Seq<RuleSpec>,
) -> SrcSpec
    decreases rule, 0nat,
{
    match rule {
        RuleSpec::Empty
        | RuleSpec::Eat(_)
        | RuleSpec::Call(_)
        | RuleSpec::RepeatMany(..)
        | RuleSpec::RepeatMore(..) => if refutable {
            fill(MAYBE@, Seq::empty())
        } else {
            fill(ALWAYS@, Seq::empty())
        },
        RuleSpec::Concat(left, right) => fill(
            PAIR@,
            seq![
                traverse_shape(*left, refutable, table),
                traverse_shape(*right, refutable, table),
            ],
        ),
        RuleSpec::Or(cases) => fill(CASES@, seq![traverse_cases(cases, cases.len(), table)]),
        RuleSpec::Opt(inner) => fill(OPTION@, seq![traverse_shape(*inner, true, table)]),
    }
}

/// The shapes of the first `n` cases, each with its number and its kind of nodes.
pub open spec fn traverse_cases(cases: Seq<RuleSpec>, n: nat, table: Seq<RuleSpec>) -> SrcSpec
    decreases cases, n,
{
    if n == 0 || n > cases.len() {
        Seq::empty()
    } else {
        traverse_cases(cases, (n - 1) as nat, table) + fill(
            CASE@,
            seq![
                number((n - 1) as nat),
                word(numbered_name((n - 1) as nat)),
                kind_src(kind_of(cases[n - 1], table)),
                traverse_shape(cases[n - 1], true, table),
            ],
        )
    }
}

/// The rules whose nodes the shape of a rule speaks of, in the order in which it does.
pub open spec fn traverse_refs(rule: RuleSpec) -> Seq<RuleSpec>
    decreases rule, 0nat,
{
    match rule {
        RuleSpec::Empty
        | RuleSpec::Eat(_)
        | RuleSpec::Call(_)
        | RuleSpec::RepeatMany(..)
        | RuleSpec::RepeatMore(..) => Seq::empty(),
        RuleSpec::Concat(left, right) => traverse_refs(*left) + traverse_refs(*right),
        RuleSpec::Or(cases) => traverse_cases_refs(cases, cases.len()),
        RuleSpec::Opt(inner) => traverse_refs(*inner),
    }
}

/// The rules whose nodes the shapes of the first `n` cases speak of.
pub open spec fn traverse_cases_refs(cases: Seq<RuleSpec>, n: nat) -> Seq<RuleSpec>
    decreases cases, n,
{
    if n == 0 || n > cases.len() {
        Seq::empty()
    } else {
        traverse_cases_refs(cases, (n - 1) as nat) + seq![cases[n - 1]] + traverse_refs(
            cases[n - 1],
        )
    }
}

/// Where a table has been added to, the shape of a rule stays the same.
pub proof fn traverse_stable(
    rule: RuleSpec,
    refutable: bool,
    table: Seq<RuleSpec>,
    later: Seq<RuleSpec>,
)
    requires
        later.no_duplicates(),
        table.is_prefix_of(later),
        all_seen(table, traverse_refs(rule)),
    ensures
        traverse_shape(rule, refutable, later) == traverse_shape(rule, refutable, table),
    decreases rule, 0nat,
{
    match rule {
        RuleSpec::Concat(left, right) => {
            all_seen_parts(table, traverse_refs(*left), traverse_refs(*right));
            traverse_stable(*left, refutable, table, later);
            traverse_stable(*right, refutable, table, later);
        },
        RuleSpec::Or(cases) => {
            traverse_cases_stable(cases, cases.len(), table, later);
        },
        RuleSpec::Opt(inner) => {
            traverse_stable(*inner, true, table, later);
        },
        _ => {},
    }
}

/// Where a table has been added to, the shapes of cases stay the same.
pub proof fn traverse_cases_stable(
    cases: Seq<RuleSpec>,
    n: nat,
    table: Seq<RuleSpec>,
    later: Seq<RuleSpec>,
)
    requires
        n <= cases.len(),
        later.no_duplicates(),
        table.is_prefix_of(later),
        all_seen(table, traverse_cases_refs(cases, n)),
    ensures
        traverse_cases(cases, n, later) == traverse_cases(cases, n, table),
    decreases cases, n,
{
    if n > 0 {
        let before = traverse_cases_refs(cases, (n - 1) as nat);
        let one = seq![cases[n - 1]];
        all_seen_parts(table, before + one, traverse_refs(cases[n - 1]));
        all_seen_parts(table, before, one);
        assert(seen(table, one[0]));
        kind_stable(cases[n - 1], table, later);
        traverse_stable(cases[n - 1], true, table, later);
        traverse_cases_stable(cases, (n - 1) as nat, table, later);
    }
}

impl<Pat: RustInputPat + PatKey> Rule<Pat> {
    /// The shape of the rule. All of its nodes may be missing if `refutable`.
    pub fn generate_traverse_shape(
        rc_self: &Rc<Self>,
        refutable: bool,
        rules: &mut RuleMap<Pat>,
    ) -> (r: Src)
        requires
            old(rules).wf(),
        ensures
            final(rules).wf(),
            final(rules).table() == see_all(old(rules).table(), traverse_refs(rc_self.model())),
            r@ == traverse_shape(rc_self.model(), refutable, final(rules).table()),
            final(rules).known_shapes() == old(rules).known_shapes(),
            final(rules).known_descs() == old(rules).known_descs(),
        decreases rc_self,
    {
        let ghost rule = rc_self.model();
        let ghost table = rules.table();
        proof {
            rules.no_duplicates();
        }
        match &**rc_self {
            Rule::Empty
            | Rule::Eat(_)
            | Rule::Call(_)
            | Rule::RepeatMany(..)
            | Rule::RepeatMore(..) => {
                if refutable {
                    quote0(MAYBE)
                } else {
                    quote0(ALWAYS)
                }
            },
            Rule::Concat(left, right) => {
                let left_shape = Rule::generate_traverse_shape(left, refutable, rules);
                let ghost one = rules.table();
                let right_shape = Rule::generate_traverse_shape(right, refutable, rules);
                proof {
                    see_more(table, traverse_refs(left.model()), traverse_refs(right.model()));
                    traverse_stable(left.model(), refutable, one, rules.table());
                }
                quote2(PAIR, left_shape, right_shape)
            },
            Rule::Or(cases) => {
                let ghost all = models(cases@);
                assert(rule->Or_0 =~= all);
                let mut shapes = Src::new();
                let mut i: usize = 0;
                while i < cases.len()
                    invariant
                        i <= cases.len(),
                        decreases_to!(rc_self => cases),
                        all == models(cases@),
                        table.no_duplicates(),
                        rules.wf(),
                        rules.table() == see_all(table, traverse_cases_refs(all, i as nat)),
                        rules.known_shapes() == old(rules).known_shapes(),
                        rules.known_descs() == old(rules).known_descs(),
                        shapes@ == traverse_cases(all, i as nat, rules.table()),
                    decreases cases.len() - i,
                {
                    let ghost before = rules.table();
                    let ghost done = traverse_cases_refs(all, i as nat);
                    let ghost case = cases@[i as int].model();
                    let kind = Rule::parse_node_kind(&cases[i], rules);
                    let ghost one = rules.table();
                    let shape = Rule::generate_traverse_shape(&cases[i], true, rules);
                    proof {
                        let last = rules.table();
                        see_one(before, case);
                        see_more(table, done, seq![case]);
                        see_more(table, done + seq![case], traverse_refs(case));
                        prefix_of_prefix(before, one, last);
                        assert(seen(one, seq![case][0]));
                        kind_stable(case, one, last);
                        traverse_cases_stable(all, i as nat, before, last);
                    }
                    let name = numbered_name_of(i);
                    shapes.append(
                        quote4(
                            CASE,
                            Src::number(i),
                            Src::ident(name.as_str()),
                            kind.to_src(),
                            shape,
                        ),
                    );
                    i += 1;
                }
                quote1(CASES, shapes)
            },
            Rule::Opt(inner) => {
                quote1(OPTION, Rule::generate_traverse_shape(inner, true, rules))
            },
        }
    }
}

} // verus!
