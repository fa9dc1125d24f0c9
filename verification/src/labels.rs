//! What holds of the labels of generated code: each that is declared has code once.
use crate::account::{accounted, accounts_for, apply_accounts, cont_wf, is_known, labels_wf, pieces};
use crate::balance::{level, level_applies, parse_level, within, within_self};
use crate::continuation::{inside, is_issued, parent_of, ContSpec};
use crate::generate::{
    code_table, names_of, rule_start, rule_step, rules_code, CodesSpec, GrammarSpec,
};
use crate::instr::InstrSpec;
use crate::label::{flat_name, nested, rule_label, LabelSpec};
use crate::maps::{distinct_keys, has_key, key_at};
use crate::parse::parse_step;
use crate::reflect::{all_labels, enclosing_fn, inner_labels};
use crate::rule::RuleSpec;
use crate::text::{decimal, decimal_injective, decimal_is_digits, is_digit};
use crate::thunk::{apply, ThunkSpec};
use vstd::prelude::*;

verus! {

/// The labels of the first `n` rules.
pub open spec fn rule_labels(g: GrammarSpec, n: nat) -> Set<LabelSpec> {
    Set::new(
        |label: LabelSpec| exists|i: int| 0 <= i < n && label == rule_label((#[trigger] g[i]).0),
    )
}

/// How many of the first `n` rules have a label.
pub open spec fn times_named(g: GrammarSpec, n: nat, label: LabelSpec) -> nat
    decreases n,
{
    if n == 0 {
        0
    } else {
        times_named(g, (n - 1) as nat, label) + if rule_label(g[n - 1].0) == label {
            1nat
        } else {
            0nat
        }
    }
}

/// What the code of the first rules has taken from the labels that have been handed out.
pub open spec fn minus_named(g: GrammarSpec, n: nat) -> spec_fn(LabelSpec) -> int {
    |label: LabelSpec| -(times_named(g, n, label) as int)
}

/// Whether each label of the first `n` rules, and each that was handed out in their code, has one
/// piece of code, and no other label has any.
pub open spec fn codes_complete(g: GrammarSpec, n: nat, codes: CodesSpec) -> bool {
    &&& labels_wf(rule_labels(g, n), codes.labels)
    &&& forall|label: LabelSpec| #[trigger]
        pieces(codes.arms, label) == times_named(g, n, label) + (if is_issued(
            codes.labels,
            label,
        ) {
            1nat
        } else {
            0nat
        })
}

/// Labels of functions of some rules are such of more rules.
pub proof fn more_roots(
    some: Set<LabelSpec>,
    more: Set<LabelSpec>,
    labels: Seq<(LabelSpec, Seq<LabelSpec>)>,
)
    requires
        labels_wf(some, labels),
        some.subset_of(more),
    ensures
        labels_wf(more, labels),
{
    assert forall|p: LabelSpec| #[trigger] has_key(labels, p) implies is_known(
        more,
        labels,
        p,
    ) by {
        assert(is_known(some, labels, p));
    }
}

/// The labels of the first rules are labels of rules.
pub proof fn rule_labels_grow(g: GrammarSpec, m: nat, n: nat)
    requires
        m <= n <= g.len(),
    ensures
        rule_labels(g, m).subset_of(rule_labels(g, n)),
{
    assert forall|label: LabelSpec| rule_labels(g, m).contains(label) implies rule_labels(
        g,
        n,
    ).contains(label) by {
        let i = choose|i: int| 0 <= i < m && label == rule_label((#[trigger] g[i]).0);
        assert(label == rule_label(g[i].0));
    }
}

/// The continuation that the code of rule `i` is generated from, after the return at its end.
pub open spec fn rule_begin(g: GrammarSpec, i: nat, table: Seq<RuleSpec>) -> ContSpec {
    rule_start(rules_code(g, i, table), g[i as int].0).with_code(seq![InstrSpec::Ret])
}

/// Each label is accounted for where the code of a rule begins.
pub proof fn rule_begin_accounts(
    g: GrammarSpec,
    i: nat,
    table: Seq<RuleSpec>,
    roots: Set<LabelSpec>,
)
    requires
        i < g.len(),
        codes_complete(g, i, rules_code(g, i, table)),
        rule_labels(g, i + 1).subset_of(roots),
    ensures
        cont_wf(roots, rule_begin(g, i, table)),
        accounted(rule_begin(g, i, table), minus_named(g, i)),
{
    let before = rules_code(g, i, table);
    let begin = rule_begin(g, i, table);
    rule_labels_grow(g, i, i + 1);
    more_roots(rule_labels(g, i), roots, before.labels);
    assert(rule_labels(g, i + 1).contains(rule_label(g[i as int].0)));
    assert forall|l: LabelSpec| #[trigger] accounts_for(begin, minus_named(g, i), l) by {
        assert(pieces(before.arms, l) == times_named(g, i, l) + (if is_issued(before.labels, l) {
            1nat
        } else {
            0nat
        }));
    }
}

/// The code of a rule is what its step makes of its beginning.
pub proof fn rule_code_from_begin(g: GrammarSpec, i: nat, table: Seq<RuleSpec>)
    requires
        i < g.len(),
    ensures
        ({
            let rule = g[i as int].1;
            let label = rule_label(g[i as int].0);
            let step = parse_step(rule.rule, code_table(rule, table));
            let begin = rule_begin(g, i, table);
            let done = apply(step, label, begin)->Some_0;
            &&& level(step, 0) == Some(0nat)
            &&& within(begin, begin.frames, begin.fn_label, 0)
            &&& apply(step, label, begin) is Some
            &&& within(done, begin.frames, begin.fn_label, 0)
            &&& rules_code(g, i + 1, table).labels == done.labels
            &&& rules_code(g, i + 1, table).arms == done.reified(label).arms
        }),
{
    let rule = g[i as int].1;
    let label = rule_label(g[i as int].0);
    let step = parse_step(rule.rule, code_table(rule, table));
    let start = rule_start(rules_code(g, i, table), g[i as int].0);
    let begin = rule_begin(g, i, table);
    parse_level(rule.rule, code_table(rule, table), 0);
    within_self(begin);
    level_applies(step, 0, label, begin, begin.frames, begin.fn_label);
    assert(apply(ThunkSpec::Ret, label, start) == Some(begin));
    assert(apply(rule_step(rule, table), label, start) == apply(step, label, begin));
}

/// The code of rules is complete.
pub proof fn rules_code_complete(g: GrammarSpec, n: nat, table: Seq<RuleSpec>)
    requires
        n <= g.len(),
    ensures
        codes_complete(g, n, rules_code(g, n, table)),
    decreases n,
{
    if n > 0 {
        let i = (n - 1) as nat;
        let rule = g[n - 1].1;
        let label = rule_label(g[n - 1].0);
        let roots = rule_labels(g, n);
        let step = parse_step(rule.rule, code_table(rule, table));
        let begin = rule_begin(g, i, table);
        let extra = minus_named(g, i);
        rules_code_complete(g, i, table);
        rule_begin_accounts(g, i, table, roots);
        rule_code_from_begin(g, i, table);
        apply_accounts(roots, step, 0, label, begin, begin.frames, begin.fn_label, extra);
        let done = apply(step, label, begin)->Some_0;
        let after = rules_code(g, n, table);
        assert(after.arms.drop_last() =~= done.arms);
        assert forall|l: LabelSpec| #[trigger] pieces(after.arms, l) == times_named(g, n, l) + (
        if is_issued(after.labels, l) {
            1nat
        } else {
            0nat
        }) by {
            assert(accounts_for(done, extra, l));
        }
    } else {
        let codes = rules_code(g, 0, table);
        assert forall|p: LabelSpec| !#[trigger] has_key(codes.labels, p) by {}
    }
}

/// Where rules have distinct names, no label is that of two.
proof fn named_once(g: GrammarSpec, n: nat, label: LabelSpec)
    requires
        n <= g.len(),
        distinct_keys(g),
    ensures
        times_named(g, n, label) == (if rule_labels(g, n).contains(label) {
            1nat
        } else {
            0nat
        }),
    decreases n,
{
    if n > 0 {
        named_once(g, (n - 1) as nat, label);
        if rule_label(g[n - 1].0) == label {
            assert forall|i: int| 0 <= i < n - 1 implies label != rule_label(
                (#[trigger] g[i]).0,
            ) by {
                assert(g[i].0 != g[n - 1].0);
            }
            assert(!rule_labels(g, (n - 1) as nat).contains(label));
            assert(rule_labels(g, n).contains(label));
        } else if rule_labels(g, n).contains(label) {
            let i = choose|i: int| 0 <= i < n && label == rule_label((#[trigger] g[i]).0);
            assert(i < n - 1);
            assert(rule_labels(g, (n - 1) as nat).contains(label));
        } else {
            assert(!rule_labels(g, (n - 1) as nat).contains(label));
        }
    }
}

/// The labels inside of functions are those that have been handed out.
proof fn inner_labels_issued(
    roots: Set<LabelSpec>,
    labels: Seq<(LabelSpec, Seq<LabelSpec>)>,
    n: nat,
    label: LabelSpec,
)
    requires
        labels_wf(roots, labels),
        n <= labels.len(),
    ensures
        inner_labels(labels, n).contains(label) <==> exists|i: int|
            0 <= i < n && (#[trigger] labels[i]).0 == parent_of(label) && is_issued(labels, label),
    decreases n,
{
    if n > 0 {
        let before = inner_labels(labels, (n - 1) as nat);
        let p = labels[n - 1].0;
        let last = labels[n - 1].1;
        inner_labels_issued(roots, labels, (n - 1) as nat, label);
        inside_of_entry(labels, n - 1);
        let now = inner_labels(labels, n);
        if before.contains(label) {
            assert(now[before.index_of(label)] == label);
        }
        if last.contains(label) {
            let k = last.index_of(label);
            assert(now[before.len() + k] == label);
            assert(inside(labels, p)[k] == nested(p, k as nat));
            assert(label.1.drop_last() =~= p.1);
            assert(parent_of(label) == p);
            assert(labels[n - 1].0 == parent_of(label));
        }
        if now.contains(label) && !before.contains(label) {
            let at = now.index_of(label);
            if at < before.len() {
                assert(before[at] == label);
            }
            assert(last[at - before.len()] == label);
            assert(last.contains(label));
        }
        if is_issued(labels, label) && p == parent_of(label) {
            let k = label.1.last() as int;
            assert(inside(labels, p)[k] == nested(p, k as nat));
            assert(nested(p, k as nat).1 =~= label.1);
            assert(last[k] == label);
            assert(now[before.len() + k] == label);
        }
    }
}

/// The labels inside of a function are those of its entry.
proof fn inside_of_entry(labels: Seq<(LabelSpec, Seq<LabelSpec>)>, i: int)
    requires
        distinct_keys(labels),
        0 <= i < labels.len(),
    ensures
        has_key(labels, labels[i].0),
        inside(labels, labels[i].0) == labels[i].1,
{
    let p = labels[i].0;
    assert(has_key(labels, p));
    let k = key_at(labels, p);
    assert(labels[k].0 == p);
    assert(k == i);
}

/// No label is inside of two functions, or twice inside of one.
proof fn inner_labels_distinct(
    roots: Set<LabelSpec>,
    labels: Seq<(LabelSpec, Seq<LabelSpec>)>,
    n: nat,
)
    requires
        labels_wf(roots, labels),
        n <= labels.len(),
    ensures
        inner_labels(labels, n).no_duplicates(),
    decreases n,
{
    if n > 0 {
        let before = inner_labels(labels, (n - 1) as nat);
        let p = labels[n - 1].0;
        let last = labels[n - 1].1;
        let now = inner_labels(labels, n);
        inner_labels_distinct(roots, labels, (n - 1) as nat);
        inside_of_entry(labels, n - 1);
        assert forall|i: int, j: int| 0 <= i < j < now.len() implies now[i] != now[j] by {
            if j >= before.len() {
                let k = j - before.len();
                assert(now[j] == last[k]);
                assert(inside(labels, p)[k] == nested(p, k as nat));
                assert(now[j].1.last() == k);
                if i >= before.len() {
                    let m = i - before.len();
                    assert(now[i] == last[m]);
                    assert(inside(labels, p)[m] == nested(p, m as nat));
                    assert(now[i].1.last() == m);
                } else {
                    assert(now[i] == before[i]);
                    inner_labels_issued(roots, labels, (n - 1) as nat, before[i]);
                    assert(before.contains(before[i]));
                    assert(parent_of(now[j]) == p) by {
                        assert(now[j].1.drop_last() =~= p.1);
                    }
                }
            } else {
                assert(now[i] == before[i] && now[j] == before[j]);
            }
        }
    }
}

/// The code of the rules of a grammar has exactly the labels that are declared: none is declared
/// twice, each has one piece of code, and no other label has any.
pub proof fn each_label_has_code(g: GrammarSpec, table: Seq<RuleSpec>)
    requires
        distinct_keys(g),
    ensures
        ({
            let codes = rules_code(g, g.len(), table);
            let all = all_labels(names_of(g), codes.labels);
            &&& all.no_duplicates()
            &&& forall|label: LabelSpec| #[trigger]
                pieces(codes.arms, label) == (if all.contains(label) {
                    1nat
                } else {
                    0nat
                })
        }),
{
    let codes = rules_code(g, g.len(), table);
    let all = all_labels(names_of(g), codes.labels);
    let roots = rule_labels(g, g.len());
    let firsts = names_of(g).map_values(|name: Seq<char>| rule_label(name));
    let inner = inner_labels(codes.labels, codes.labels.len());
    rules_code_complete(g, g.len(), table);
    inner_labels_distinct(roots, codes.labels, codes.labels.len());
    assert(all == firsts + inner);
    assert forall|i: int, j: int| 0 <= i < j < all.len() implies all[i] != all[j] by {
        if j < firsts.len() {
            assert(g[i].0 != g[j].0);
        } else if i < firsts.len() {
            assert(all[i].1.len() == 0);
            inner_labels_issued(roots, codes.labels, codes.labels.len(), inner[j - firsts.len()]);
            assert(inner.contains(inner[j - firsts.len()]));
        } else {
            assert(all[i] == inner[i - firsts.len()]);
            assert(all[j] == inner[j - firsts.len()]);
        }
    }
    assert forall|label: LabelSpec| #[trigger] pieces(codes.arms, label) == (if all.contains(
        label,
    ) {
        1nat
    } else {
        0nat
    }) by {
        named_once(g, g.len(), label);
        declared_iff(g, codes.labels, label);
    }
}

/// A label is declared where it is that of a rule, or has been handed out.
pub proof fn declared_iff(
    g: GrammarSpec,
    labels: Seq<(LabelSpec, Seq<LabelSpec>)>,
    label: LabelSpec,
)
    requires
        labels_wf(rule_labels(g, g.len()), labels),
    ensures
        all_labels(names_of(g), labels).contains(label) <==> rule_labels(g, g.len()).contains(label)
            || is_issued(labels, label),
{
    let roots = rule_labels(g, g.len());
    let all = all_labels(names_of(g), labels);
    let firsts = names_of(g).map_values(|name: Seq<char>| rule_label(name));
    let inner = inner_labels(labels, labels.len());
    inner_labels_issued(roots, labels, labels.len(), label);
    if roots.contains(label) {
        let i = choose|i: int| 0 <= i < g.len() && label == rule_label((#[trigger] g[i]).0);
        assert(all[i] == label);
    }
    if is_issued(labels, label) {
        let p = parent_of(label);
        assert(has_key(labels, p));
        let k = key_at(labels, p);
        assert(labels[k].0 == p);
        assert(inner.contains(label));
        assert(all[firsts.len() + inner.index_of(label)] == label);
    }
    if all.contains(label) {
        let i = all.index_of(label);
        if i < firsts.len() {
            assert(label == rule_label(g[i].0));
        } else {
            assert(inner[i - firsts.len()] == label);
            assert(inner.contains(label));
        }
    }
}

/// The function that the code at a declared label belongs to is declared as well.
pub proof fn enclosing_fn_is_declared(g: GrammarSpec, table: Seq<RuleSpec>, label: LabelSpec)
    requires
        all_labels(names_of(g), rules_code(g, g.len(), table).labels).contains(label),
    ensures
        all_labels(names_of(g), rules_code(g, g.len(), table).labels).contains(
            enclosing_fn(label, rules_code(g, g.len(), table).labels),
        ),
{
    let labels = rules_code(g, g.len(), table).labels;
    let roots = rule_labels(g, g.len());
    rules_code_complete(g, g.len(), table);
    declared_iff(g, labels, label);
    if label.1.len() > 0 && !has_key(labels, label) {
        let p = parent_of(label);
        assert(is_issued(labels, label)) by {
            if roots.contains(label) {
                let i = choose|i: int| 0 <= i < g.len() && label == rule_label((#[trigger] g[i]).0);
                assert(label == rule_label(g[i].0));
            }
        }
        assert(has_key(labels, p));
        assert(is_known(roots, labels, p));
        declared_iff(g, labels, p);
    }
}

/// Whether a name ends like that of a label inside of a function.
pub open spec fn like_inner(name: Seq<char>) -> bool {
    exists|start: Seq<char>, i: nat| name == #[trigger] inner_name(start, i)
}

/// Two underscores and a number after some text.
pub open spec fn inner_name(start: Seq<char>, i: nat) -> Seq<char> {
    start + "__"@ + decimal(i)
}

/// What comes before the last two underscores, and the number after them, can be told from the
/// text.
proof fn inner_name_injective(a: Seq<char>, i: nat, b: Seq<char>, j: nat)
    requires
        inner_name(a, i) == inner_name(b, j),
    ensures
        a == b,
        i == j,
{
    reveal_strlit("__");
    let x = inner_name(a, i);
    let y = inner_name(b, j);
    let n = x.len() as int;
    let di = decimal(i).len() as int;
    let dj = decimal(j).len() as int;
    assert(n == a.len() + 2 + di && n == b.len() + 2 + dj);
    assert(x[n - di - 1] == '_');
    assert(y[n - dj - 1] == '_');
    if di < dj {
        let k = n - di - 1;
        assert(y[k] == decimal(j)[k - (n - dj)]);
        decimal_is_digits(j, k - (n - dj));
        assert(!is_digit('_'));
        assert(false);
    }
    if dj < di {
        let k = n - dj - 1;
        assert(x[k] == decimal(i)[k - (n - di)]);
        decimal_is_digits(i, k - (n - di));
        assert(!is_digit('_'));
        assert(false);
    }
    assert(decimal(i) =~= x.skip(n - di));
    assert(decimal(j) =~= y.skip(n - dj));
    decimal_injective(i, j);
    assert(a =~= x.take(a.len() as int));
    assert(b =~= y.take(b.len() as int));
}

/// The names of labels tell them apart, as long as no rule is named like a label inside of a
/// function.
pub proof fn flat_name_injective(a: LabelSpec, b: LabelSpec)
    requires
        !like_inner(a.0),
        !like_inner(b.0),
    ensures
        flat_name(a) == flat_name(b) <==> a == b,
    decreases a.1.len() + b.1.len(),
{
    if flat_name(a) == flat_name(b) {
        if a.1.len() > 0 && b.1.len() > 0 {
            let pa = (a.0, a.1.drop_last());
            let pb = (b.0, b.1.drop_last());
            assert(flat_name(a) == inner_name(flat_name(pa), a.1.last()));
            assert(flat_name(b) == inner_name(flat_name(pb), b.1.last()));
            inner_name_injective(flat_name(pa), a.1.last(), flat_name(pb), b.1.last());
            flat_name_injective(pa, pb);
            assert(a.1 =~= a.1.drop_last().push(a.1.last()));
            assert(b.1 =~= b.1.drop_last().push(b.1.last()));
        } else if a.1.len() > 0 {
            assert(b.0 == inner_name(flat_name((a.0, a.1.drop_last())), a.1.last()));
        } else if b.1.len() > 0 {
            assert(a.0 == inner_name(flat_name((b.0, b.1.drop_last())), b.1.last()));
        } else {
            assert(a.1 =~= b.1);
        }
    }
}

} // verus!
