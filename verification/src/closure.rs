//! All rules that nodes of a table are made of: adding them to the table comes to an end.
use crate::pattern::{PatKey, RustInputPat};
use crate::rule::{concat, many, more, more_sep, optional, Rule, RuleSpec, SepKind};
use crate::table::{
    parts_seen, prefix_of_prefix, see_all, see_all_extends, seen, shape_parts, shape_stable,
    RuleMap,
};
use vstd::prelude::*;

verus! {

/// The rules that a node of the rule is made of, their parts, and so on, and the rule itself.
/// Some may be listed that it is not made of.
pub open spec fn derived(rule: RuleSpec) -> Seq<RuleSpec>
    decreases rule,
{
    match rule {
        RuleSpec::Empty | RuleSpec::Eat(_) | RuleSpec::Call(_) | RuleSpec::Or(_) => seq![rule],
        RuleSpec::Concat(left, right) => seq![rule] + derived(*left) + derived(*right),
        RuleSpec::Opt(inner) => seq![rule] + derived(*inner),
        RuleSpec::RepeatMany(elem, None) | RuleSpec::RepeatMore(elem, None) => seq![
            many(*elem),
            more(*elem),
        ] + derived(*elem),
        RuleSpec::RepeatMany(elem, Some((sep, _))) | RuleSpec::RepeatMore(elem, Some((sep, _))) => {
            let simple = more_sep(*elem, *sep, SepKind::Simple);
            seq![
                rule,
                more_sep(*elem, *sep, SepKind::Trailing),
                simple,
                optional(concat(*sep, simple)),
                concat(*sep, simple),
                optional(*sep),
            ] + derived(*elem) + derived(*sep)
        },
    }
}

/// Whether the parts of each of the rules are among the rules, or calls.
pub open spec fn closed_under_parts(rules: Seq<RuleSpec>) -> bool {
    forall|i: int, k: int|
        #![trigger shape_parts(rules[i])[k]]
        0 <= i < rules.len() && 0 <= k < shape_parts(rules[i]).len() ==> rules.contains(
            shape_parts(rules[i])[k],
        )
}

/// Two lists together have the items of both.
proof fn contains_either(a: Seq<RuleSpec>, b: Seq<RuleSpec>, r: RuleSpec)
    ensures
        (a + b).contains(r) <==> a.contains(r) || b.contains(r),
{
    if a.contains(r) {
        assert((a + b)[a.index_of(r)] == r);
    }
    if b.contains(r) {
        assert((a + b)[a.len() + b.index_of(r)] == r);
    }
    if (a + b).contains(r) {
        let i = (a + b).index_of(r);
        if i < a.len() {
            assert(a[i] == r);
        } else {
            assert(b[i - a.len()] == r);
        }
    }
}

/// Lists that are closed under parts are so together.
proof fn closed_together(a: Seq<RuleSpec>, b: Seq<RuleSpec>)
    requires
        closed_under_parts(a),
        closed_under_parts(b),
    ensures
        closed_under_parts(a + b),
{
    let c = a + b;
    assert forall|i: int, k: int|
        #![trigger shape_parts(c[i])[k]]
        0 <= i < c.len() && 0 <= k < shape_parts(c[i]).len() implies c.contains(
        shape_parts(c[i])[k],
    ) by {
        contains_either(a, b, shape_parts(c[i])[k]);
        if i < a.len() {
            assert(c[i] == a[i]);
            assert(a.contains(shape_parts(a[i])[k]));
        } else {
            assert(c[i] == b[i - a.len()]);
            assert(b.contains(shape_parts(b[i - a.len()])[k]));
        }
    }
}

/// Rules in front of a list that is closed under parts, with their parts among all of them.
proof fn closed_with(front: Seq<RuleSpec>, back: Seq<RuleSpec>)
    requires
        closed_under_parts(back),
        forall|i: int, k: int|
            #![trigger shape_parts(front[i])[k]]
            0 <= i < front.len() && 0 <= k < shape_parts(front[i]).len() ==> front.contains(
                shape_parts(front[i])[k],
            ) || back.contains(shape_parts(front[i])[k]),
    ensures
        closed_under_parts(front + back),
{
    let c = front + back;
    assert forall|i: int, k: int|
        #![trigger shape_parts(c[i])[k]]
        0 <= i < c.len() && 0 <= k < shape_parts(c[i]).len() implies c.contains(
        shape_parts(c[i])[k],
    ) by {
        contains_either(front, back, shape_parts(c[i])[k]);
        if i < front.len() {
            assert(c[i] == front[i]);
            assert(front.contains(shape_parts(front[i])[k]) || back.contains(
                shape_parts(front[i])[k],
            ));
        } else {
            assert(c[i] == back[i - front.len()]);
            assert(back.contains(shape_parts(back[i - front.len()])[k]));
        }
    }
}

/// What a rule is made of is closed under parts, and has the rule in it.
proof fn derived_closed(rule: RuleSpec)
    ensures
        closed_under_parts(derived(rule)),
        derived(rule).contains(rule),
    decreases rule,
{
    match rule {
        RuleSpec::Empty | RuleSpec::Eat(_) | RuleSpec::Call(_) | RuleSpec::Or(_) => {
            assert(derived(rule)[0] == rule);
        },
        RuleSpec::Concat(left, right) => {
            let front = seq![rule];
            let back = derived(*left) + derived(*right);
            derived_closed(*left);
            derived_closed(*right);
            closed_together(derived(*left), derived(*right));
            contains_either(derived(*left), derived(*right), *left);
            contains_either(derived(*left), derived(*right), *right);
            closed_with(front, back);
            assert(derived(rule) =~= front + back);
            assert(derived(rule)[0] == rule);
        },
        RuleSpec::Opt(inner) => {
            derived_closed(*inner);
            closed_with(seq![rule], derived(*inner));
            assert(derived(rule)[0] == rule);
        },
        RuleSpec::RepeatMany(elem, None) | RuleSpec::RepeatMore(elem, None) => {
            let front = seq![many(*elem), more(*elem)];
            derived_closed(*elem);
            assert(front.contains(front[0]) && front.contains(front[1]));
            assert forall|i: int, k: int|
                #![trigger shape_parts(front[i])[k]]
                0 <= i < front.len() && 0 <= k < shape_parts(front[i]).len() implies front.contains(
                shape_parts(front[i])[k],
            ) || derived(*elem).contains(shape_parts(front[i])[k]) by {
                if i == 0 {
                    assert(shape_parts(front[0])[k] == front[1]);
                } else {
                    assert(front[1] == more(*elem));
                    if k == 1 {
                        assert(shape_parts(front[1])[1] == front[0]);
                    }
                }
            }
            closed_with(front, derived(*elem));
            assert(derived(rule)[0] == many(*elem));
            assert(derived(rule)[1] == more(*elem));
        },
        RuleSpec::RepeatMany(elem, Some((sep, kind)))
        | RuleSpec::RepeatMore(elem, Some((sep, kind))) => {
            let simple = more_sep(*elem, *sep, SepKind::Simple);
            let front = seq![
                rule,
                more_sep(*elem, *sep, SepKind::Trailing),
                simple,
                optional(concat(*sep, simple)),
                concat(*sep, simple),
                optional(*sep),
            ];
            let back = derived(*elem) + derived(*sep);
            derived_closed(*elem);
            derived_closed(*sep);
            closed_together(derived(*elem), derived(*sep));
            contains_either(derived(*elem), derived(*sep), *elem);
            contains_either(derived(*elem), derived(*sep), *sep);
            assert(front.contains(front[0]) && front.contains(front[1]) && front.contains(front[2])
                && front.contains(front[3]) && front.contains(front[4]) && front.contains(
                front[5],
            ));
            assert forall|i: int, k: int|
                #![trigger shape_parts(front[i])[k]]
                0 <= i < front.len() && 0 <= k < shape_parts(front[i]).len() implies front.contains(
                shape_parts(front[i])[k],
            ) || back.contains(shape_parts(front[i])[k]) by {
                if i == 0 {
                    assert(front[0] == rule);
                    match rule {
                        RuleSpec::RepeatMany(..) => {
                            if kind == SepKind::Simple {
                                assert(shape_parts(rule)[k] == front[2]);
                            } else {
                                assert(shape_parts(rule)[k] == front[1]);
                            }
                        },
                        _ => {
                            if kind == SepKind::Simple {
                                assert(rule == simple);
                            } else {
                                assert(rule == front[1]);
                            }
                        },
                    }
                } else if i == 1 {
                    assert(shape_parts(front[1])[0] == front[2]);
                    assert(shape_parts(front[1])[1] == front[5]);
                } else if i == 2 {
                    assert(shape_parts(front[2])[0] == *elem);
                    assert(shape_parts(front[2])[1] == front[3]);
                } else if i == 3 {
                    assert(shape_parts(front[3])[0] == front[4]);
                } else if i == 4 {
                    assert(shape_parts(front[4])[0] == *sep);
                    assert(shape_parts(front[4])[1] == front[2]);
                } else {
                    assert(shape_parts(front[5])[0] == *sep);
                }
            }
            closed_with(front, back);
            assert(derived(rule) =~= front + back);
            assert(derived(rule)[0] == rule);
        },
    }
}

/// What the first `n` rules of a table are made of.
pub open spec fn all_derived(table: Seq<RuleSpec>, n: nat) -> Seq<RuleSpec>
    decreases n,
{
    if n == 0 {
        Seq::empty()
    } else {
        all_derived(table, (n - 1) as nat) + derived(table[n - 1])
    }
}

/// What the rules of a table are made of is closed under parts, and has the rules in it.
proof fn all_derived_closed(table: Seq<RuleSpec>, n: nat)
    requires
        n <= table.len(),
    ensures
        closed_under_parts(all_derived(table, n)),
        forall|i: int| 0 <= i < n ==> all_derived(table, n).contains(#[trigger] table[i]),
    decreases n,
{
    if n > 0 {
        let before = all_derived(table, (n - 1) as nat);
        all_derived_closed(table, (n - 1) as nat);
        derived_closed(table[n - 1]);
        closed_together(before, derived(table[n - 1]));
        assert forall|i: int| 0 <= i < n implies all_derived(table, n).contains(
            #[trigger] table[i],
        ) by {
            contains_either(before, derived(table[n - 1]), table[i]);
        }
    }
}

/// A list without duplicates is not longer than one that has all of its items.
proof fn no_longer(a: Seq<RuleSpec>, b: Seq<RuleSpec>)
    requires
        a.no_duplicates(),
        forall|i: int| 0 <= i < a.len() ==> b.contains(#[trigger] a[i]),
    ensures
        a.len() <= b.len(),
{
    a.unique_seq_to_set();
    b.lemma_cardinality_of_set();
    assert(a.to_set().subset_of(b.to_set()));
    vstd::set_lib::lemma_len_subset(a.to_set(), b.to_set());
}

/// The table once the parts of its rules from number `i` on have been seen, and so on, at most
/// `fuel` times.
pub open spec fn close(table: Seq<RuleSpec>, i: nat, fuel: nat) -> Seq<RuleSpec>
    decreases fuel,
{
    if fuel == 0 || i >= table.len() {
        table
    } else {
        close(see_all(table, shape_parts(table[i as int])), i + 1, (fuel - 1) as nat)
    }
}

/// The table once the parts of its rules have been seen, and so on, until there are no new ones.
pub open spec fn closed_table(table: Seq<RuleSpec>) -> Seq<RuleSpec> {
    close(table, 0, all_derived(table, table.len()).len())
}

/// A table whose rules are among some that are closed under parts, with the parts of one more of
/// its rules.
proof fn close_step(table: Seq<RuleSpec>, i: nat, all: Seq<RuleSpec>)
    requires
        table.no_duplicates(),
        closed_under_parts(all),
        forall|k: int| 0 <= k < table.len() ==> all.contains(#[trigger] table[k]),
        i < table.len(),
    ensures
        ({
            let next = see_all(table, shape_parts(table[i as int]));
            &&& next.no_duplicates()
            &&& table.is_prefix_of(next)
            &&& forall|k: int| 0 <= k < next.len() ==> all.contains(#[trigger] next[k])
            &&& parts_seen(table[i as int], next)
        }),
{
    let parts = shape_parts(table[i as int]);
    let at = all.index_of(table[i as int]);
    assert(all.contains(table[i as int]));
    assert(all[at] == table[i as int]);
    assert forall|k: int| 0 <= k < parts.len() implies all.contains(#[trigger] parts[k]) by {
        assert(all.contains(shape_parts(all[at])[k]));
    }
    see_all_extends(table, parts);
    see_all_among(table, parts, all);
}

/// Seeing rules that are among some keeps a table among them.
proof fn see_all_among(table: Seq<RuleSpec>, rules: Seq<RuleSpec>, all: Seq<RuleSpec>)
    requires
        forall|k: int| 0 <= k < table.len() ==> all.contains(#[trigger] table[k]),
        forall|k: int| 0 <= k < rules.len() ==> all.contains(#[trigger] rules[k]),
    ensures
        forall|k: int|
            0 <= k < see_all(table, rules).len() ==> all.contains(
                #[trigger] see_all(table, rules)[k],
            ),
    decreases rules.len(),
{
    if rules.len() > 0 {
        assert forall|k: int| 0 <= k < rules.drop_last().len() implies all.contains(
            #[trigger] rules.drop_last()[k],
        ) by {
            assert(rules.drop_last()[k] == rules[k]);
        }
        see_all_among(table, rules.drop_last(), all);
        assert(all.contains(rules[rules.len() - 1]));
        let before = see_all(table, rules.drop_last());
        let after = see_all(table, rules);
        assert forall|k: int| 0 <= k < after.len() implies all.contains(#[trigger] after[k]) by {
            if k < before.len() {
                assert(after[k] == before[k]);
            }
        }
    }
}

/// Where the fuel is enough for all rules that there can be, no part is left out.
proof fn close_done(table: Seq<RuleSpec>, i: nat, fuel: nat, all: Seq<RuleSpec>)
    requires
        table.no_duplicates(),
        closed_under_parts(all),
        forall|k: int| 0 <= k < table.len() ==> all.contains(#[trigger] table[k]),
        i <= table.len(),
        i + fuel >= all.len(),
        forall|k: int| 0 <= k < i ==> parts_seen(#[trigger] table[k], table),
    ensures
        close(table, i, fuel).no_duplicates(),
        table.is_prefix_of(close(table, i, fuel)),
        forall|k: int|
            0 <= k < close(table, i, fuel).len() ==> parts_seen(
                #[trigger] close(table, i, fuel)[k],
                close(table, i, fuel),
            ),
    decreases fuel,
{
    no_longer(table, all);
    if i < table.len() {
        let next = see_all(table, shape_parts(table[i as int]));
        close_step(table, i, all);
        assert forall|k: int| 0 <= k < i + 1 implies parts_seen(#[trigger] next[k], next) by {
            assert(next[k] == table[k]);
            if k < i {
                shape_stable(table[k], table, next);
            }
        }
        close_done(next, i + 1, (fuel - 1) as nat, all);
        prefix_of_prefix(table, next, close(table, i, fuel));
    } else {
        assert(table =~= table.subrange(0, table.len() as int));
    }
}

/// A closed table keeps the rules that the table had, has none twice, and has all rules that the
/// nodes of its rules are made of.
pub proof fn closed_table_is_closed(table: Seq<RuleSpec>)
    requires
        table.no_duplicates(),
    ensures
        closed_table(table).no_duplicates(),
        table.is_prefix_of(closed_table(table)),
        forall|k: int|
            0 <= k < closed_table(table).len() ==> parts_seen(
                #[trigger] closed_table(table)[k],
                closed_table(table),
            ),
{
    let all = all_derived(table, table.len());
    all_derived_closed(table, table.len());
    close_done(table, 0, all.len(), all);
}

impl<Pat: RustInputPat + PatKey> RuleMap<Pat> {
    /// Finds out how the nodes of all rules are made of others, which may be new rules.
    pub fn fill_parse_node_shapes(&mut self)
        requires
            old(self).wf(),
        ensures
            final(self).wf(),
            final(self).table() == closed_table(old(self).table()),
            forall|r: RuleSpec| #[trigger]
                final(self).shaped(r) <==> old(self).shaped(r) || final(self).table().contains(r),
            old(self).known_shapes().submap_of(final(self).known_shapes()),
            final(self).known_descs() == old(self).known_descs(),
    {
        let ghost start = self.table();
        let ghost all = all_derived(start, start.len());
        proof {
            self.no_duplicates();
            all_derived_closed(start, start.len());
            no_longer(start, all);
        }
        let mut i: usize = 0;
        while i < self.len()
            invariant
                self.wf(),
                i <= self.table().len(),
                i <= all.len(),
                closed_under_parts(all),
                self.table().no_duplicates(),
                self.table().len() <= all.len(),
                forall|k: int|
                    0 <= k < self.table().len() ==> all.contains(#[trigger] self.table()[k]),
                closed_table(start) == close(self.table(), i as nat, (all.len() - i) as nat),
                forall|k: int| 0 <= k < i ==> self.shaped(#[trigger] self.table()[k]),
                forall|r: RuleSpec| #[trigger]
                    self.shaped(r) ==> old(self).shaped(r) || self.table().contains(r),
                forall|r: RuleSpec| #[trigger]
                    old(self).shaped(r) ==> self.shaped(r) && self.known_shapes()[r] == old(
                        self,
                    ).known_shapes()[r],
                self.known_descs() == old(self).known_descs(),
            decreases all.len() - i,
        {
            let ghost before = self.table();
            let ghost known = *self;
            proof {
                close_step(before, i as nat, all);
            }
            let rule = self.rule(i);
            Rule::fill_parse_node_shape(&rule, self);
            i += 1;
            proof {
                no_longer(self.table(), all);
                assert forall|k: int| 0 <= k < i implies self.shaped(
                    #[trigger] self.table()[k],
                ) by {
                    assert(self.table()[k] == before[k]);
                    if k < i - 1 {
                        assert(known.shaped(before[k]));
                    }
                }
                assert forall|r: RuleSpec| #[trigger] self.shaped(r) implies old(self).shaped(r)
                    || self.table().contains(r) by {
                    if known.shaped(r) {
                        assert(before.contains(r) ==> self.table().contains(r)) by {
                            see_all_extends(before, shape_parts(rule.model()));
                        }
                    } else {
                        assert(self.table()[i - 1] == r);
                    }
                }
                assert forall|r: RuleSpec| #[trigger] old(self).shaped(r) implies self.shaped(r)
                    && self.known_shapes()[r] == old(self).known_shapes()[r] by {
                    assert(known.shaped(r));
                }
            }
        }
        proof {
            let table = self.table();
            assert forall|r: RuleSpec| #[trigger] self.shaped(r) <==> old(self).shaped(r)
                || table.contains(r) by {
                if table.contains(r) {
                    assert(self.shaped(table[table.index_of(r)]));
                }
            }
            let (known, then) = (old(self).known_shapes(), self.known_shapes());
            assert forall|r: RuleSpec| #[trigger]
                known.dom().contains(r) implies then.dom().contains(r) && then[r] == known[r] by {
                assert(old(self).shaped(r));
            }
            assert(known.submap_of(then));
        }
    }
}

} // verus!
