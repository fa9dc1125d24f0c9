//! From rules to the code that parses them.
use crate::label::{rule_label, CodeLabel};
use crate::pattern::{PatKey, RustInputPat};
use crate::rule::{concat, models, more, more_sep, Rule, RuleSpec, SepKind};
use crate::table::{
    all_seen, all_seen_parts, kind_of, kind_stable, prefix_of_prefix, see_all, see_all_extends,
    see_more, see_two, seen, RuleMap,
};
use crate::thunk::{
    add_choice_step, concat_and_forest_add, concat_step, fix, forest_add_choice, opt, opt_step,
    parallel, seq_of, thunks_of, Thunk, ThunkSpec,
};
use crate::tokens::{fill, quote1};
use std::rc::Rc;
use vstd::prelude::*;

verus! {

pub const EAT: &'static str = "let Some ( mut rt ) = rt . input_consume_left ( & ( $ ) )";

/// The step that parses a rule. With a table, the nodes of the rules in it are noted in the parse
/// forest; without one, there are no nodes inside of the rule.
pub open spec fn parse_step(rule: RuleSpec, table: Option<Seq<RuleSpec>>) -> ThunkSpec
    decreases rule,
{
    match rule {
        RuleSpec::Empty => ThunkSpec::Skip,
        RuleSpec::Eat(pat) => ThunkSpec::Check(fill(EAT@, seq![pat.matcher])),
        RuleSpec::Call(name) => ThunkSpec::Call(rule_label(name)),
        RuleSpec::Concat(left, right) => both_step(
            *left,
            parse_step(*left, table),
            parse_step(*right, table),
            rule,
            table,
        ),
        RuleSpec::Or(cases) => ThunkSpec::Parallel(
            Seq::new(
                cases.len(),
                |i: int|
                    if 0 <= i < cases.len() {
                        case_step(cases[i], parse_step(cases[i], table), rule, table)
                    } else {
                        ThunkSpec::Skip
                    },
            ),
        ),
        RuleSpec::Opt(inner) => opt_step(parse_step(*inner, table)),
        RuleSpec::RepeatMany(elem, None) => ThunkSpec::Fix(
            Box::new(
                opt_step(
                    both_step(
                        *elem,
                        parse_step(*elem, table),
                        ThunkSpec::CallFix,
                        more(*elem),
                        table,
                    ),
                ),
            ),
        ),
        RuleSpec::RepeatMore(elem, None) => ThunkSpec::Fix(
            Box::new(
                both_step(
                    *elem,
                    parse_step(*elem, table),
                    opt_step(ThunkSpec::CallFix),
                    rule,
                    table,
                ),
            ),
        ),
        RuleSpec::RepeatMany(elem, Some((sep, kind))) => opt_step(
            sep_step(*elem, parse_step(*elem, table), *sep, parse_step(*sep, table), kind, table),
        ),
        RuleSpec::RepeatMore(elem, Some((sep, kind))) => sep_step(
            *elem,
            parse_step(*elem, table),
            *sep,
            parse_step(*sep, table),
            kind,
            table,
        ),
    }
}

/// Parses the rule `left` and what comes after it, which make up the rule `whole`.
pub open spec fn both_step(
    left: RuleSpec,
    left_step: ThunkSpec,
    right_step: ThunkSpec,
    whole: RuleSpec,
    table: Option<Seq<RuleSpec>>,
) -> ThunkSpec {
    match table {
        None => seq_of(left_step, right_step),
        Some(table) => concat_step(
            kind_of(left, table),
            left_step,
            right_step,
            kind_of(whole, table),
        ),
    }
}

/// Parses the rule `case`, which is one of the cases of the rule `whole`.
pub open spec fn case_step(
    case: RuleSpec,
    step: ThunkSpec,
    whole: RuleSpec,
    table: Option<Seq<RuleSpec>>,
) -> ThunkSpec {
    match table {
        None => step,
        Some(table) => seq_of(step, add_choice_step(kind_of(whole, table), kind_of(case, table))),
    }
}

/// Parses the rule `elem` at least once, with the rule `sep` as separator.
pub open spec fn sep_step(
    elem: RuleSpec,
    elem_step: ThunkSpec,
    sep: RuleSpec,
    between_step: ThunkSpec,
    kind: SepKind,
    table: Option<Seq<RuleSpec>>,
) -> ThunkSpec {
    let whole = more_sep(elem, sep, SepKind::Simple);
    let rest = both_step(sep, between_step, ThunkSpec::CallFix, concat(sep, whole), table);
    let simple = ThunkSpec::Fix(Box::new(both_step(elem, elem_step, opt_step(rest), whole, table)));
    match kind {
        SepKind::Simple => simple,
        SepKind::Trailing => seq_of(simple, opt_step(between_step)),
    }
}

/// The rules whose nodes the code that parses a rule speaks of, in the order in which the code is
/// generated.
pub open spec fn parse_refs(rule: RuleSpec) -> Seq<RuleSpec>
    decreases rule, 0nat,
{
    match rule {
        RuleSpec::Empty | RuleSpec::Eat(_) | RuleSpec::Call(_) => Seq::empty(),
        RuleSpec::Concat(left, right) => seq![*left, rule] + parse_refs(*right) + parse_refs(*left),
        RuleSpec::Or(cases) => cases_refs(rule, cases, cases.len()),
        RuleSpec::Opt(inner) => parse_refs(*inner),
        RuleSpec::RepeatMany(elem, None) => seq![*elem, more(*elem)] + parse_refs(*elem),
        RuleSpec::RepeatMore(elem, None) => seq![*elem, rule] + parse_refs(*elem),
        RuleSpec::RepeatMany(elem, Some((sep, kind)))
        | RuleSpec::RepeatMore(elem, Some((sep, kind))) => sep_refs(
            *elem,
            parse_refs(*elem),
            *sep,
            parse_refs(*sep),
            kind,
        ),
    }
}

/// The rules that the code of the first `n` cases of the rule `whole` speaks of.
pub open spec fn cases_refs(whole: RuleSpec, cases: Seq<RuleSpec>, n: nat) -> Seq<RuleSpec>
    decreases cases, n,
{
    if n == 0 || n > cases.len() {
        Seq::empty()
    } else {
        cases_refs(whole, cases, (n - 1) as nat) + seq![cases[n - 1], whole] + parse_refs(
            cases[n - 1],
        )
    }
}

/// The rules that the code of a repetition with a separator speaks of.
pub open spec fn sep_refs(
    elem: RuleSpec,
    elem_refs: Seq<RuleSpec>,
    sep: RuleSpec,
    between_refs: Seq<RuleSpec>,
    kind: SepKind,
) -> Seq<RuleSpec> {
    let whole = more_sep(elem, sep, SepKind::Simple);
    let simple = seq![elem, sep, concat(sep, whole), whole] + between_refs + elem_refs;
    match kind {
        SepKind::Simple => simple,
        SepKind::Trailing => between_refs + simple,
    }
}

/// Where a table has been added to, what parses a rule stays the same.
#[verifier::rlimit(30)]
pub proof fn parse_stable(rule: RuleSpec, table: Seq<RuleSpec>, later: Seq<RuleSpec>)
    requires
        later.no_duplicates(),
        table.is_prefix_of(later),
        all_seen(table, parse_refs(rule)),
    ensures
        parse_step(rule, Some(later)) == parse_step(rule, Some(table)),
    decreases rule,
{
    let refs = parse_refs(rule);
    match rule {
        RuleSpec::Empty | RuleSpec::Eat(_) | RuleSpec::Call(_) => {},
        RuleSpec::Concat(left, right) => {
            let two = seq![*left, rule];
            all_seen_parts(table, two + parse_refs(*right), parse_refs(*left));
            all_seen_parts(table, two, parse_refs(*right));
            assert(seen(table, two[0]) && seen(table, two[1]));
            kind_stable(*left, table, later);
            kind_stable(rule, table, later);
            parse_stable(*left, table, later);
            parse_stable(*right, table, later);
        },
        RuleSpec::Or(cases) => {
            let a = parse_step(rule, Some(later))->Parallel_0;
            let b = parse_step(rule, Some(table))->Parallel_0;
            assert forall|i: int| 0 <= i < cases.len() implies a[i] == b[i] by {
                cases_stable(rule, cases, cases.len(), i, table);
                kind_stable(cases[i], table, later);
                kind_stable(rule, table, later);
                parse_stable(cases[i], table, later);
            }
            assert(a =~= b);
        },
        RuleSpec::Opt(inner) => {
            parse_stable(*inner, table, later);
        },
        RuleSpec::RepeatMany(elem, None) => {
            let two = seq![*elem, more(*elem)];
            all_seen_parts(table, two, parse_refs(*elem));
            assert(seen(table, two[0]) && seen(table, two[1]));
            kind_stable(*elem, table, later);
            kind_stable(more(*elem), table, later);
            parse_stable(*elem, table, later);
        },
        RuleSpec::RepeatMore(elem, None) => {
            let two = seq![*elem, rule];
            all_seen_parts(table, two, parse_refs(*elem));
            assert(seen(table, two[0]) && seen(table, two[1]));
            kind_stable(*elem, table, later);
            kind_stable(rule, table, later);
            parse_stable(*elem, table, later);
        },
        RuleSpec::RepeatMany(elem, Some((sep, kind)))
        | RuleSpec::RepeatMore(elem, Some((sep, kind))) => {
            let whole = more_sep(*elem, *sep, SepKind::Simple);
            let four = seq![*elem, *sep, concat(*sep, whole), whole];
            let simple = four + parse_refs(*sep) + parse_refs(*elem);
            if kind == SepKind::Trailing {
                all_seen_parts(table, parse_refs(*sep), simple);
            }
            all_seen_parts(table, four + parse_refs(*sep), parse_refs(*elem));
            all_seen_parts(table, four, parse_refs(*sep));
            assert(seen(table, four[0]) && seen(table, four[1]) && seen(table, four[2]) && seen(
                table,
                four[3],
            ));
            kind_stable(*elem, table, later);
            kind_stable(*sep, table, later);
            kind_stable(concat(*sep, whole), table, later);
            kind_stable(whole, table, later);
            parse_stable(*elem, table, later);
            parse_stable(*sep, table, later);
        },
    }
}

/// What the code of all cases speaks of has been seen, so that of each has.
proof fn cases_stable(
    whole: RuleSpec,
    cases: Seq<RuleSpec>,
    n: nat,
    i: int,
    table: Seq<RuleSpec>,
)
    requires
        0 <= i < n <= cases.len(),
        all_seen(table, cases_refs(whole, cases, n)),
    ensures
        seen(table, cases[i]),
        seen(table, whole),
        all_seen(table, parse_refs(cases[i])),
    decreases n,
{
    let before = cases_refs(whole, cases, (n - 1) as nat);
    let two = seq![cases[n - 1], whole];
    all_seen_parts(table, before + two, parse_refs(cases[n - 1]));
    all_seen_parts(table, before, two);
    assert(seen(table, two[0]) && seen(table, two[1]));
    if i < n - 1 {
        cases_stable(whole, cases, (n - 1) as nat, i, table);
    }
}

/// The table for the code of a rule, where there is one.
pub open spec fn table_if(nodes: bool, table: Seq<RuleSpec>) -> Option<Seq<RuleSpec>> {
    if nodes {
        Some(table)
    } else {
        None
    }
}

impl<Pat: RustInputPat + PatKey> Rule<Pat> {
    /// The step that parses the rule. With `nodes`, it notes the nodes inside of the rule in the
    /// parse forest.
    pub fn generate_parse(rc_self: &Rc<Self>, nodes: bool, rules: &mut RuleMap<Pat>) -> (r: Thunk)
        requires
            old(rules).wf(),
        ensures
            final(rules).wf(),
            final(rules).table() == (if nodes {
                see_all(old(rules).table(), parse_refs(rc_self.model()))
            } else {
                old(rules).table()
            }),
            r.model() == parse_step(rc_self.model(), table_if(nodes, final(rules).table())),
            final(rules).known_shapes() == old(rules).known_shapes(),
            final(rules).known_descs() == old(rules).known_descs(),
        decreases rc_self, 3nat,
    {
        let ghost rule = rc_self.model();
        match &**rc_self {
            Rule::Empty => Thunk::Skip,
            Rule::Eat(pat) => Thunk::Check(quote1(EAT, pat.rust_matcher())),
            Rule::Call(name) => Thunk::Call(Rc::new(CodeLabel::NamedRule(name.clone()))),
            Rule::Concat(left, right) => {
                Rule::generate_parse_concat(rc_self, left, right, nodes, rules)
            },
            Rule::Or(cases) => {
                assert(rule->Or_0 =~= models(cases@));
                let thunks = Rule::generate_parse_cases(rc_self, cases, nodes, rules);
                assert(thunks_of(thunks@) =~= parse_step(
                    rule,
                    table_if(nodes, rules.table()),
                )->Parallel_0);
                parallel(thunks)
            },
            Rule::Opt(inner) => opt(Rule::generate_parse(inner, nodes, rules)),
            Rule::RepeatMany(elem, None) => {
                let more = Rc::new(Rule::RepeatMore(elem.clone(), None));
                fix(opt(Rule::generate_parse_elem(elem, Thunk::CallFix, &more, nodes, rules)))
            },
            Rule::RepeatMore(elem, None) => {
                let rest = opt(Thunk::CallFix);
                fix(Rule::generate_parse_elem(elem, rest, rc_self, nodes, rules))
            },
            Rule::RepeatMany(elem, Some((sep, kind))) => {
                opt(Rule::generate_parse_sep(rc_self, elem, sep, *kind, nodes, rules))
            },
            Rule::RepeatMore(elem, Some((sep, kind))) => {
                Rule::generate_parse_sep(rc_self, elem, sep, *kind, nodes, rules)
            },
        }
    }

    /// The step that parses two rules, one after the other.
    fn generate_parse_concat(
        rc_self: &Rc<Self>,
        left: &Rc<Self>,
        right: &Rc<Self>,
        nodes: bool,
        rules: &mut RuleMap<Pat>,
    ) -> (r: Thunk)
        requires
            old(rules).wf(),
            decreases_to!(rc_self => left),
            decreases_to!(rc_self => right),
            rc_self.model() == concat(left.model(), right.model()),
        ensures
            final(rules).wf(),
            final(rules).table() == (if nodes {
                see_all(old(rules).table(), parse_refs(rc_self.model()))
            } else {
                old(rules).table()
            }),
            r.model() == parse_step(rc_self.model(), table_if(nodes, final(rules).table())),
            final(rules).known_shapes() == old(rules).known_shapes(),
            final(rules).known_descs() == old(rules).known_descs(),
        decreases rc_self, 0nat,
    {
        if !nodes {
            let right_thunk = Rule::generate_parse(right, nodes, rules);
            let left_thunk = Rule::generate_parse(left, nodes, rules);
            return left_thunk.plus(right_thunk);
        }
        let ghost rule = rc_self.model();
        let ghost table = rules.table();
        proof {
            rules.no_duplicates();
        }
        let left_kind = Rule::parse_node_kind(left, rules);
        let ghost one = rules.table();
        let kind = Rule::parse_node_kind(rc_self, rules);
        let ghost two = rules.table();
        let right_thunk = Rule::generate_parse(right, nodes, rules);
        let ghost three = rules.table();
        let left_thunk = Rule::generate_parse(left, nodes, rules);
        proof {
            let refs = seq![left.model(), rule];
            let right_refs = parse_refs(right.model());
            let left_refs = parse_refs(left.model());
            let last = rules.table();
            see_two(table, left.model(), rule);
            see_more(table, refs, right_refs);
            see_more(table, refs + right_refs, left_refs);
            prefix_of_prefix(two, three, last);
            prefix_of_prefix(one, two, last);
            assert(seen(two, refs[1]));
            kind_stable(left.model(), one, last);
            kind_stable(rule, two, last);
            parse_stable(right.model(), three, last);
        }
        concat_and_forest_add(left_kind, left_thunk, right_thunk, kind)
    }

    /// The step that parses the element of a repetition and goes on with `rest`, both of which
    /// make up the rule `whole`.
    fn generate_parse_elem(
        elem: &Rc<Self>,
        rest: Thunk,
        whole: &Rc<Self>,
        nodes: bool,
        rules: &mut RuleMap<Pat>,
    ) -> (r: Thunk)
        requires
            old(rules).wf(),
        ensures
            final(rules).wf(),
            final(rules).table() == (if nodes {
                see_all(
                    old(rules).table(),
                    seq![elem.model(), whole.model()] + parse_refs(elem.model()),
                )
            } else {
                old(rules).table()
            }),
            r.model() == both_step(
                elem.model(),
                parse_step(elem.model(), table_if(nodes, final(rules).table())),
                rest.model(),
                whole.model(),
                table_if(nodes, final(rules).table()),
            ),
            final(rules).known_shapes() == old(rules).known_shapes(),
            final(rules).known_descs() == old(rules).known_descs(),
        decreases elem, 4nat,
    {
        if !nodes {
            return Rule::generate_parse(elem, nodes, rules).plus(rest);
        }
        let ghost table = rules.table();
        proof {
            rules.no_duplicates();
        }
        let elem_kind = Rule::parse_node_kind(elem, rules);
        let ghost one = rules.table();
        let kind = Rule::parse_node_kind(whole, rules);
        let ghost two = rules.table();
        let thunk = Rule::generate_parse(elem, nodes, rules);
        proof {
            let last = rules.table();
            let refs = seq![elem.model(), whole.model()];
            see_two(table, elem.model(), whole.model());
            see_more(table, refs, parse_refs(elem.model()));
            prefix_of_prefix(one, two, last);
            assert(seen(two, refs[1]));
            kind_stable(elem.model(), one, last);
            kind_stable(whole.model(), two, last);
        }
        concat_and_forest_add(elem_kind, thunk, rest, kind)
    }

    /// The steps that parse the cases of the rule.
    #[verifier::rlimit(40)]
    fn generate_parse_cases(
        rc_self: &Rc<Self>,
        cases: &Vec<Rc<Self>>,
        nodes: bool,
        rules: &mut RuleMap<Pat>,
    ) -> (r: Vec<Thunk>)
        requires
            old(rules).wf(),
            decreases_to!(rc_self => cases),
            rc_self.model() == RuleSpec::Or(models(cases@)),
        ensures
            final(rules).wf(),
            final(rules).table() == (if nodes {
                see_all(old(rules).table(), parse_refs(rc_self.model()))
            } else {
                old(rules).table()
            }),
            r@.len() == cases@.len(),
            forall|i: int|
                0 <= i < cases@.len() ==> (#[trigger] r@[i]).model() == case_step(
                    models(cases@)[i],
                    parse_step(models(cases@)[i], table_if(nodes, final(rules).table())),
                    rc_self.model(),
                    table_if(nodes, final(rules).table()),
                ),
            final(rules).known_shapes() == old(rules).known_shapes(),
            final(rules).known_descs() == old(rules).known_descs(),
        decreases rc_self, 0nat,
    {
        let ghost rule = rc_self.model();
        let ghost table = rules.table();
        let ghost all = models(cases@);
        proof {
            rules.no_duplicates();
        }
        let mut thunks: Vec<Thunk> = Vec::new();
        let mut i: usize = 0;
        while i < cases.len()
            invariant
                i <= cases.len(),
                decreases_to!(rc_self => cases),
                rule == rc_self.model(),
                rule == RuleSpec::Or(all),
                all.len() == cases.len(),
                forall|j: int| 0 <= j < cases.len() ==> all[j] == cases@[j].model(),
                table.no_duplicates(),
                rules.wf(),
                rules.table() == (if nodes {
                    see_all(table, cases_refs(rule, all, i as nat))
                } else {
                    table
                }),
                rules.known_shapes() == old(rules).known_shapes(),
                rules.known_descs() == old(rules).known_descs(),
                thunks@.len() == i,
                forall|j: int|
                    0 <= j < i ==> (#[trigger] thunks@[j]).model() == case_step(
                        all[j],
                        parse_step(all[j], table_if(nodes, rules.table())),
                        rule,
                        table_if(nodes, rules.table()),
                    ),
            decreases cases.len() - i,
        {
            let ghost before = rules.table();
            let ghost case = cases@[i as int].model();
            let ghost done = cases_refs(rule, all, i as nat);
            let ghost earlier = thunks@;
            proof {
                rules.no_duplicates();
            }
            if nodes {
                let kind = Rule::parse_node_kind(&cases[i], rules);
                let ghost one = rules.table();
                let whole_kind = Rule::parse_node_kind(rc_self, rules);
                let ghost two = rules.table();
                let thunk = Rule::generate_parse(&cases[i], nodes, rules);
                thunks.push(thunk.plus(forest_add_choice(&whole_kind, kind)));
                proof {
                    let last = rules.table();
                    let refs = seq![case, rule];
                    see_two(before, case, rule);
                    see_more(table, done, refs);
                    see_more(table, done + refs, parse_refs(case));
                    see_more(before, refs, parse_refs(case));
                    prefix_of_prefix(one, two, last);
                    prefix_of_prefix(before, two, last);
                    assert(seen(two, refs[1]));
                    kind_stable(case, one, last);
                    kind_stable(rule, two, last);
                    assert forall|j: int| 0 <= j < i implies (
                    #[trigger] thunks@[j]).model() == case_step(
                        all[j],
                        parse_step(all[j], Some(last)),
                        rule,
                        Some(last),
                    ) by {
                        assert(thunks@[j] == earlier[j]);
                        see_all_extends(table, done);
                        cases_stable(rule, all, i as nat, j, before);
                        kind_stable(all[j], before, last);
                        kind_stable(rule, before, last);
                        parse_stable(all[j], before, last);
                    }
                }
            } else {
                let thunk = Rule::generate_parse(&cases[i], nodes, rules);
                thunks.push(thunk);
            }
            i += 1;
        }
        thunks
    }

    /// The step that parses a rule at least once, with another one between any two, and notes the
    /// nodes inside of them in the parse forest.
    #[verifier::rlimit(40)]
    fn generate_parse_simple(
        rc_self: &Rc<Self>,
        elem: &Rc<Self>,
        sep: &Rc<Self>,
        rules: &mut RuleMap<Pat>,
    ) -> (r: Thunk)
        requires
            old(rules).wf(),
            decreases_to!(rc_self => elem),
            decreases_to!(rc_self => sep),
        ensures
            final(rules).wf(),
            final(rules).table() == see_all(
                old(rules).table(),
                sep_refs(
                    elem.model(),
                    parse_refs(elem.model()),
                    sep.model(),
                    parse_refs(sep.model()),
                    SepKind::Simple,
                ),
            ),
            r.model() == sep_step(
                elem.model(),
                parse_step(elem.model(), Some(final(rules).table())),
                sep.model(),
                parse_step(sep.model(), Some(final(rules).table())),
                SepKind::Simple,
                Some(final(rules).table()),
            ),
            final(rules).known_shapes() == old(rules).known_shapes(),
            final(rules).known_descs() == old(rules).known_descs(),
        decreases rc_self, 0nat,
    {
        let ghost table = rules.table();
        let ghost elem_refs = parse_refs(elem.model());
        let ghost between_refs = parse_refs(sep.model());
        proof {
            rules.no_duplicates();
        }
        let whole = Rc::new(
            Rule::RepeatMore(elem.clone(), Some((sep.clone(), SepKind::Simple))),
        );
        let rest = Rc::new(Rule::Concat(sep.clone(), whole.clone()));
        assert(rest.model() == concat(sep.model(), whole.model()));
        let elem_kind = Rule::parse_node_kind(elem, rules);
        let ghost one = rules.table();
        let sep_kind = Rule::parse_node_kind(sep, rules);
        let ghost two = rules.table();
        let rest_kind = Rule::parse_node_kind(&rest, rules);
        let ghost three = rules.table();
        let whole_kind = Rule::parse_node_kind(&whole, rules);
        let ghost four = rules.table();
        let sep_thunk = Rule::generate_parse(sep, true, rules);
        let ghost five = rules.table();
        let elem_thunk = Rule::generate_parse(elem, true, rules);
        proof {
            let last = rules.table();
            let a = seq![elem.model(), sep.model()];
            let b = seq![rest.model(), whole.model()];
            see_two(table, elem.model(), sep.model());
            see_more(table, a, b);
            see_two(two, rest.model(), whole.model());
            see_more(table, a + b, between_refs);
            see_more(table, a + b + between_refs, elem_refs);
            assert(a + b =~= seq![
                elem.model(),
                sep.model(),
                rest.model(),
                whole.model(),
            ]);
            prefix_of_prefix(four, five, last);
            prefix_of_prefix(three, four, last);
            prefix_of_prefix(two, four, last);
            prefix_of_prefix(one, two, last);
            assert(seen(two, a[1]));
            assert(seen(four, b[1]));
            kind_stable(elem.model(), one, last);
            kind_stable(sep.model(), two, last);
            kind_stable(rest.model(), three, last);
            kind_stable(whole.model(), four, last);
            parse_stable(sep.model(), five, last);
        }
        let rest_thunk = concat_and_forest_add(
            sep_kind,
            sep_thunk,
            Thunk::CallFix,
            rest_kind,
        );
        fix(concat_and_forest_add(elem_kind, elem_thunk, opt(rest_thunk), whole_kind))
    }

    /// The step that parses a rule at least once, with another one as separator.
    #[verifier::rlimit(40)]
    fn generate_parse_sep(
        rc_self: &Rc<Self>,
        elem: &Rc<Self>,
        sep: &Rc<Self>,
        kind: SepKind,
        nodes: bool,
        rules: &mut RuleMap<Pat>,
    ) -> (r: Thunk)
        requires
            old(rules).wf(),
            decreases_to!(rc_self => elem),
            decreases_to!(rc_self => sep),
        ensures
            final(rules).wf(),
            final(rules).table() == (if nodes {
                see_all(
                    old(rules).table(),
                    sep_refs(
                        elem.model(),
                        parse_refs(elem.model()),
                        sep.model(),
                        parse_refs(sep.model()),
                        kind,
                    ),
                )
            } else {
                old(rules).table()
            }),
            r.model() == sep_step(
                elem.model(),
                parse_step(elem.model(), table_if(nodes, final(rules).table())),
                sep.model(),
                parse_step(sep.model(), table_if(nodes, final(rules).table())),
                kind,
                table_if(nodes, final(rules).table()),
            ),
            final(rules).known_shapes() == old(rules).known_shapes(),
            final(rules).known_descs() == old(rules).known_descs(),
        decreases rc_self, (if kind is Trailing { 2nat } else { 1nat }),
    {
        let ghost table = rules.table();
        let ghost elem_refs = parse_refs(elem.model());
        let ghost between_refs = parse_refs(sep.model());
        proof {
            rules.no_duplicates();
        }
        match kind {
            SepKind::Simple => {
                if !nodes {
                    let sep_thunk = Rule::generate_parse(sep, nodes, rules);
                    let elem_thunk = Rule::generate_parse(elem, nodes, rules);
                    return fix(elem_thunk.plus(opt(sep_thunk.plus(Thunk::CallFix))));
                }
                Rule::generate_parse_simple(rc_self, elem, sep, rules)
            },
            SepKind::Trailing => {
                let sep_thunk = Rule::generate_parse(sep, nodes, rules);
                let ghost one = rules.table();
                let simple = Rule::generate_parse_sep(
                    rc_self,
                    elem,
                    sep,
                    SepKind::Simple,
                    nodes,
                    rules,
                );
                proof {
                    if nodes {
                        let simple_refs = sep_refs(
                            elem.model(),
                            elem_refs,
                            sep.model(),
                            between_refs,
                            SepKind::Simple,
                        );
                        see_more(table, between_refs, simple_refs);
                        parse_stable(sep.model(), one, rules.table());
                    }
                }
                simple.plus(opt(sep_thunk))
            },
        }
    }
}

} // verus!
