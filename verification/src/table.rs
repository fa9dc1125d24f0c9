//! The rules without a name that parse forests have nodes for, and their numbers.
use crate::maps::{
    descs, descs_get, descs_insert, descs_new, distinct_keys, has_key, items, put, put_distinct,
    put_gives, put_keeps, set_find, set_insert, set_len, set_new, shapes, shapes_get, shapes_insert,
    shapes_new, value,
};
use crate::node::{KindSpec, ParseNodeKind, ParseNodeShape, ShapeSpec};
use crate::pattern::{PatKey, RustInputPat};
use crate::rule::{
    code, code_injective, concat, many, models, more_sep, optional, Rule, RuleSpec, SepKind,
};
use crate::tokens::pretty;
use indexmap::{IndexMap, IndexSet};
use std::rc::Rc;
use vstd::prelude::*;

verus! {

/// The table once a rule has been seen: a rule without a name that is new comes last.
pub open spec fn see(table: Seq<RuleSpec>, rule: RuleSpec) -> Seq<RuleSpec> {
    if rule is Call || table.contains(rule) {
        table
    } else {
        table.push(rule)
    }
}

/// The table once some rules have been seen, one after the other.
pub open spec fn see_all(table: Seq<RuleSpec>, rules: Seq<RuleSpec>) -> Seq<RuleSpec>
    decreases rules.len(),
{
    if rules.len() == 0 {
        table
    } else {
        see(see_all(table, rules.drop_last()), rules.last())
    }
}

/// Whether a rule has a kind of nodes.
pub open spec fn seen(table: Seq<RuleSpec>, rule: RuleSpec) -> bool {
    rule is Call || table.contains(rule)
}

/// The kind of the nodes of a rule: its name where it calls a rule, else its number in the table.
pub open spec fn kind_of(rule: RuleSpec, table: Seq<RuleSpec>) -> KindSpec {
    match rule {
        RuleSpec::Call(name) => KindSpec::NamedRule(name),
        _ => KindSpec::Anon(table.index_of(rule) as nat),
    }
}

/// Seeing rules adds to the end of the table, keeps it free of duplicates, and leaves none of them
/// unseen.
pub proof fn see_all_extends(table: Seq<RuleSpec>, rules: Seq<RuleSpec>)
    ensures
        table.is_prefix_of(see_all(table, rules)),
        table.no_duplicates() ==> see_all(table, rules).no_duplicates(),
        forall|r: RuleSpec| table.contains(r) ==> #[trigger] see_all(table, rules).contains(r),
        forall|i: int| 0 <= i < rules.len() ==> seen(see_all(table, rules), #[trigger] rules[i]),
    decreases rules.len(),
{
    if rules.len() > 0 {
        let before = see_all(table, rules.drop_last());
        let after = see_all(table, rules);
        see_all_extends(table, rules.drop_last());
        see_extends(before, rules.last());
        assert forall|i: int| 0 <= i < rules.len() implies seen(after, #[trigger] rules[i]) by {
            if i < rules.len() - 1 {
                assert(rules[i] == rules.drop_last()[i]);
            }
        }
    }
}

/// Seeing a rule adds to the end of the table, keeps it free of duplicates, and leaves the rule
/// not unseen.
pub proof fn see_extends(table: Seq<RuleSpec>, rule: RuleSpec)
    ensures
        table.is_prefix_of(see(table, rule)),
        table.no_duplicates() ==> see(table, rule).no_duplicates(),
        forall|r: RuleSpec| table.contains(r) ==> #[trigger] see(table, rule).contains(r),
        seen(see(table, rule), rule),
{
    let after = see(table, rule);
    assert forall|r: RuleSpec| table.contains(r) implies #[trigger] after.contains(r) by {
        assert(after[table.index_of(r)] == r);
    }
    if !(rule is Call || table.contains(rule)) {
        assert(after[table.len() as int] == rule);
    }
}

/// Seeing some rules and then others is seeing all of them.
pub proof fn see_all_adds(table: Seq<RuleSpec>, a: Seq<RuleSpec>, b: Seq<RuleSpec>)
    ensures
        see_all(table, a + b) == see_all(see_all(table, a), b),
    decreases b.len(),
{
    if b.len() == 0 {
        assert(a + b =~= a);
    } else {
        assert((a + b).drop_last() =~= a + b.drop_last());
        see_all_adds(table, a, b.drop_last());
    }
}

/// Where a table has been added to, its rules keep their kinds.
pub proof fn kind_stable(rule: RuleSpec, table: Seq<RuleSpec>, later: Seq<RuleSpec>)
    requires
        later.no_duplicates(),
        table.is_prefix_of(later),
        seen(table, rule),
    ensures
        kind_of(rule, later) == kind_of(rule, table),
        seen(later, rule),
{
    if table.contains(rule) {
        let i = table.index_of(rule);
        assert(later[i] == rule);
        let j = later.index_of(rule);
        assert(later[j] == rule);
    }
}

/// Seeing rules that have been seen changes nothing.
pub proof fn see_all_again(table: Seq<RuleSpec>, rules: Seq<RuleSpec>)
    requires
        forall|i: int| 0 <= i < rules.len() ==> seen(table, #[trigger] rules[i]),
    ensures
        see_all(table, rules) == table,
    decreases rules.len(),
{
    if rules.len() > 0 {
        assert forall|i: int| 0 <= i < rules.drop_last().len() implies seen(
            table,
            #[trigger] rules.drop_last()[i],
        ) by {
            assert(rules.drop_last()[i] == rules[i]);
        }
        see_all_again(table, rules.drop_last());
        assert(seen(table, rules[rules.len() - 1]));
    }
}

/// Whether all of the rules have been seen.
pub open spec fn all_seen(table: Seq<RuleSpec>, rules: Seq<RuleSpec>) -> bool {
    forall|i: int| 0 <= i < rules.len() ==> seen(table, #[trigger] rules[i])
}

/// Parts of what has been seen have been seen.
pub proof fn all_seen_parts(table: Seq<RuleSpec>, a: Seq<RuleSpec>, b: Seq<RuleSpec>)
    requires
        all_seen(table, a + b),
    ensures
        all_seen(table, a),
        all_seen(table, b),
{
    assert forall|i: int| 0 <= i < a.len() implies seen(table, #[trigger] a[i]) by {
        assert((a + b)[i] == a[i]);
    }
    assert forall|i: int| 0 <= i < b.len() implies seen(table, #[trigger] b[i]) by {
        assert((a + b)[a.len() + i] == b[i]);
    }
}

/// One rule seen.
pub proof fn see_one(table: Seq<RuleSpec>, a: RuleSpec)
    ensures
        see(table, a) == see_all(table, seq![a]),
{
    reveal_with_fuel(see_all, 2);
    assert(seq![a].drop_last() =~= Seq::empty());
}

/// Two rules seen one after the other.
pub proof fn see_two(table: Seq<RuleSpec>, a: RuleSpec, b: RuleSpec)
    ensures
        see(see(table, a), b) == see_all(table, seq![a, b]),
        table.no_duplicates() ==> see(table, a).no_duplicates(),
        seen(see(table, a), a),
        see(table, a).is_prefix_of(see_all(table, seq![a, b])),
{
    reveal_with_fuel(see_all, 3);
    assert(seq![a, b].drop_last() =~= seq![a]);
    assert(seq![a].drop_last() =~= Seq::empty());
    see_extends(table, a);
    see_extends(see(table, a), b);
}

/// A table with some rules seen, and then others: what has been found out from it still holds.
pub proof fn see_more(table: Seq<RuleSpec>, a: Seq<RuleSpec>, b: Seq<RuleSpec>)
    requires
        table.no_duplicates(),
    ensures
        see_all(table, a + b) == see_all(see_all(table, a), b),
        see_all(table, a).is_prefix_of(see_all(table, a + b)),
        see_all(table, a + b).no_duplicates(),
        see_all(table, a).no_duplicates(),
        all_seen(see_all(table, a), a),
        all_seen(see_all(table, a + b), b),
{
    see_all_adds(table, a, b);
    see_all_extends(table, a);
    see_all_extends(see_all(table, a), b);
}

/// Later tables of later tables are later tables.
pub proof fn prefix_of_prefix(a: Seq<RuleSpec>, b: Seq<RuleSpec>, c: Seq<RuleSpec>)
    requires
        a.is_prefix_of(b),
        b.is_prefix_of(c),
    ensures
        a.is_prefix_of(c),
{
    assert(a =~= c.subrange(0, a.len() as int));
}

/// The rules whose nodes make up a node of the rule, in order.
pub open spec fn shape_parts(rule: RuleSpec) -> Seq<RuleSpec> {
    match rule {
        RuleSpec::Empty | RuleSpec::Eat(_) | RuleSpec::Call(_) | RuleSpec::Or(_) => Seq::empty(),
        RuleSpec::Concat(left, right) => seq![*left, *right],
        RuleSpec::Opt(inner) => seq![*inner],
        RuleSpec::RepeatMany(elem, sep) => seq![RuleSpec::RepeatMore(elem, sep)],
        RuleSpec::RepeatMore(elem, None) => seq![*elem, many(*elem)],
        RuleSpec::RepeatMore(elem, Some((sep, SepKind::Simple))) => seq![
            *elem,
            optional(concat(*sep, rule)),
        ],
        RuleSpec::RepeatMore(elem, Some((sep, SepKind::Trailing))) => seq![
            more_sep(*elem, *sep, SepKind::Simple),
            optional(*sep),
        ],
    }
}

/// How a node of a rule without a name is made of others.
pub open spec fn shape_of(rule: RuleSpec, table: Seq<RuleSpec>) -> ShapeSpec {
    let parts = shape_parts(rule);
    match rule {
        RuleSpec::Empty | RuleSpec::Eat(_) | RuleSpec::Call(_) => ParseNodeShape::Opaque,
        RuleSpec::Or(_) => ParseNodeShape::Choice,
        RuleSpec::Opt(_) | RuleSpec::RepeatMany(..) => ParseNodeShape::Opt(
            kind_of(parts[0], table),
        ),
        RuleSpec::Concat(..) | RuleSpec::RepeatMore(..) => ParseNodeShape::Split(
            kind_of(parts[0], table),
            kind_of(parts[1], table),
        ),
    }
}

/// Whether all rules that make up a node of the rule have been seen.
pub open spec fn parts_seen(rule: RuleSpec, table: Seq<RuleSpec>) -> bool {
    forall|i: int|
        0 <= i < shape_parts(rule).len() ==> seen(table, #[trigger] shape_parts(rule)[i])
}

/// Where a table has been added to, the shapes of the nodes stay the same.
pub proof fn shape_stable(rule: RuleSpec, table: Seq<RuleSpec>, later: Seq<RuleSpec>)
    requires
        later.no_duplicates(),
        table.is_prefix_of(later),
        parts_seen(rule, table),
    ensures
        shape_of(rule, later) == shape_of(rule, table),
        parts_seen(rule, later),
{
    assert forall|i: int| 0 <= i < shape_parts(rule).len() implies seen(
        later,
        #[trigger] shape_parts(rule)[i],
    ) && kind_of(shape_parts(rule)[i], later) == kind_of(shape_parts(rule)[i], table) by {
        kind_stable(shape_parts(rule)[i], table, later);
    }
}

/// A rule as it is written in a grammar.
pub open spec fn desc_of(rule: RuleSpec) -> Seq<char>
    decreases rule, 0nat,
{
    match rule {
        RuleSpec::Empty => ""@,
        RuleSpec::Eat(pat) => pretty(pat.matcher),
        RuleSpec::Call(name) => name,
        RuleSpec::Concat(left, right) => "("@ + desc_of(*left) + " "@ + desc_of(*right) + ")"@,
        RuleSpec::Or(cases) => "("@ + cases_desc(cases, cases.len()) + ")"@,
        RuleSpec::Opt(inner) => desc_of(*inner) + "?"@,
        RuleSpec::RepeatMany(elem, None) => desc_of(*elem) + "*"@,
        RuleSpec::RepeatMany(elem, Some((sep, SepKind::Simple))) => desc_of(*elem) + "* % "@
            + desc_of(*sep),
        RuleSpec::RepeatMany(elem, Some((sep, SepKind::Trailing))) => desc_of(*elem) + "* %% "@
            + desc_of(*sep),
        RuleSpec::RepeatMore(elem, None) => desc_of(*elem) + "+"@,
        RuleSpec::RepeatMore(elem, Some((sep, SepKind::Simple))) => desc_of(*elem) + "+ % "@
            + desc_of(*sep),
        RuleSpec::RepeatMore(elem, Some((sep, SepKind::Trailing))) => desc_of(*elem) + "+ %% "@
            + desc_of(*sep),
    }
}

/// The first `n` cases, with a bar between any two.
pub open spec fn cases_desc(cases: Seq<RuleSpec>, n: nat) -> Seq<char>
    decreases cases, n,
{
    if n == 0 || n > cases.len() {
        Seq::empty()
    } else if n == 1 {
        desc_of(cases[0])
    } else {
        cases_desc(cases, (n - 1) as nat) + " | "@ + desc_of(cases[n - 1])
    }
}

/// Whether a rule can be written: wherever there is a choice in it, there is more than one case.
pub open spec fn can_describe(rule: RuleSpec) -> bool
    decreases rule,
{
    match rule {
        RuleSpec::Empty | RuleSpec::Eat(_) | RuleSpec::Call(_) => true,
        RuleSpec::Concat(left, right) => can_describe(*left) && can_describe(*right),
        RuleSpec::Or(cases) => cases.len() > 1 && forall|i: int|
            0 <= i < cases.len() ==> can_describe(#[trigger] cases[i]),
        RuleSpec::Opt(inner) => can_describe(*inner),
        RuleSpec::RepeatMany(elem, None) | RuleSpec::RepeatMore(elem, None) => can_describe(*elem),
        RuleSpec::RepeatMany(elem, Some((sep, _))) | RuleSpec::RepeatMore(elem, Some((sep, _))) => {
            can_describe(*elem) && can_describe(*sep)
        },
    }
}

/// What is known of rules, where it is noted under their codes.
pub open spec fn by_rule<V>(m: Seq<(Seq<usize>, V)>) -> Map<RuleSpec, V> {
    Map::new(|r: RuleSpec| has_key(m, code(r)), |r: RuleSpec| value(m, code(r)))
}

/// What is noted under the code of a rule is known of that rule, and of no other.
proof fn by_rule_put<V>(m: Seq<(Seq<usize>, V)>, rule: RuleSpec, v: V)
    requires
        distinct_keys(m),
    ensures
        distinct_keys(put(m, code(rule), v)),
        by_rule(put(m, code(rule), v)) == by_rule(m).insert(rule, v),
{
    let p = put(m, code(rule), v);
    put_gives(m, code(rule), v);
    put_distinct(m, code(rule), v);
    assert forall|r: RuleSpec| r != rule implies has_key(p, #[trigger] code(r)) == has_key(
        m,
        code(r),
    ) && (has_key(m, code(r)) ==> value(p, code(r)) == value(m, code(r))) by {
        code_injective(r, rule);
        put_keeps(m, code(rule), v, code(r));
    }
    assert(by_rule(p) =~= by_rule(m).insert(rule, v));
}

/// The descriptions that are known once a rule has been described. Where its description is new,
/// those of the rules in it are noted before it.
pub open spec fn describe(known: Map<RuleSpec, Seq<char>>, rule: RuleSpec) -> Map<
    RuleSpec,
    Seq<char>,
>
    decreases rule, 1nat,
{
    if known.contains_key(rule) {
        known
    } else {
        describe_parts(known, rule).insert(rule, desc_of(rule))
    }
}

/// The descriptions that are known once the rules in a rule have been described.
pub open spec fn describe_parts(known: Map<RuleSpec, Seq<char>>, rule: RuleSpec) -> Map<
    RuleSpec,
    Seq<char>,
>
    decreases rule, 0nat,
{
    match rule {
        RuleSpec::Empty | RuleSpec::Eat(_) | RuleSpec::Call(_) => known,
        RuleSpec::Concat(left, right) => describe(describe(known, *left), *right),
        RuleSpec::Or(cases) => describe_cases(known, cases, cases.len()),
        RuleSpec::Opt(inner) => describe(known, *inner),
        RuleSpec::RepeatMany(elem, None) | RuleSpec::RepeatMore(elem, None) => describe(
            known,
            *elem,
        ),
        RuleSpec::RepeatMany(elem, Some((sep, _))) | RuleSpec::RepeatMore(elem, Some((sep, _))) => {
            describe(describe(known, *elem), *sep)
        },
    }
}

/// The descriptions that are known once the first `n` cases have been described.
pub open spec fn describe_cases(
    known: Map<RuleSpec, Seq<char>>,
    cases: Seq<RuleSpec>,
    n: nat,
) -> Map<RuleSpec, Seq<char>>
    decreases cases, n,
{
    if n == 0 || n > cases.len() {
        known
    } else {
        describe(describe_cases(known, cases, (n - 1) as nat), cases[n - 1])
    }
}

/// Whether descriptions are those of their rules, which can be written.
pub open spec fn descs_true(known: Map<RuleSpec, Seq<char>>) -> bool {
    forall|r: RuleSpec| #[trigger]
        known.contains_key(r) ==> can_describe(r) && known[r] == desc_of(r)
}

/// Describing a rule notes its description, keeps those that are known, and does nothing more when
/// it is done again.
pub proof fn describe_notes(known: Map<RuleSpec, Seq<char>>, rule: RuleSpec)
    ensures
        describe(known, rule).contains_key(rule),
        describe(known, rule)[rule] == (if known.contains_key(rule) {
            known[rule]
        } else {
            desc_of(rule)
        }),
        known.submap_of(describe(known, rule)),
        describe(describe(known, rule), rule) == describe(known, rule),
{
    describe_keeps(known, rule);
}

proof fn describe_keeps(known: Map<RuleSpec, Seq<char>>, rule: RuleSpec)
    ensures
        forall|r: RuleSpec| #[trigger]
            known.dom().contains(r) ==> describe(known, rule).dom().contains(r) && describe(
                known,
                rule,
            )[r] == known[r],
        forall|r: RuleSpec| #[trigger]
            known.dom().contains(r) ==> describe_parts(known, rule).dom().contains(r)
                && describe_parts(known, rule)[r] == known[r],
    decreases rule, 0nat,
{
    match rule {
        RuleSpec::Empty | RuleSpec::Eat(_) | RuleSpec::Call(_) => {},
        RuleSpec::Concat(left, right) => {
            describe_keeps(known, *left);
            describe_keeps(describe(known, *left), *right);
        },
        RuleSpec::Or(cases) => {
            describe_cases_keeps(known, cases, cases.len());
        },
        RuleSpec::Opt(inner) => {
            describe_keeps(known, *inner);
        },
        RuleSpec::RepeatMany(elem, None) | RuleSpec::RepeatMore(elem, None) => {
            describe_keeps(known, *elem);
        },
        RuleSpec::RepeatMany(elem, Some((sep, _))) | RuleSpec::RepeatMore(elem, Some((sep, _))) => {
            describe_keeps(known, *elem);
            describe_keeps(describe(known, *elem), *sep);
        },
    }
}

proof fn describe_cases_keeps(known: Map<RuleSpec, Seq<char>>, cases: Seq<RuleSpec>, n: nat)
    requires
        n <= cases.len(),
    ensures
        forall|r: RuleSpec| #[trigger]
            known.dom().contains(r) ==> describe_cases(known, cases, n).dom().contains(r)
                && describe_cases(known, cases, n)[r] == known[r],
    decreases cases, n,
{
    if n > 0 {
        describe_cases_keeps(known, cases, (n - 1) as nat);
        describe_keeps(describe_cases(known, cases, (n - 1) as nat), cases[n - 1]);
    }
}

/// Whether shapes are those of the nodes of their rules, all of whose parts have been seen.
pub open spec fn shapes_true(known: Map<RuleSpec, ShapeSpec>, table: Seq<RuleSpec>) -> bool {
    forall|r: RuleSpec| #[trigger]
        known.contains_key(r) ==> parts_seen(r, table) && known[r] == shape_of(r, table)
}

/// Where a table has been added to, shapes that were true stay so.
proof fn shapes_stay_true(
    known: Map<RuleSpec, ShapeSpec>,
    table: Seq<RuleSpec>,
    later: Seq<RuleSpec>,
)
    requires
        shapes_true(known, table),
        later.no_duplicates(),
        table.is_prefix_of(later),
    ensures
        shapes_true(known, later),
{
    assert forall|r: RuleSpec| #[trigger] known.contains_key(r) implies parts_seen(r, later)
        && known[r] == shape_of(r, later) by {
        shape_stable(r, table, later);
    }
}

/// The table and the shapes that are known once the shape of the nodes of a rule has been found
/// out. Where it is known, or the rule calls another, nothing changes.
pub open spec fn fill_shape(
    table: Seq<RuleSpec>,
    known: Map<RuleSpec, ShapeSpec>,
    rule: RuleSpec,
) -> (Seq<RuleSpec>, Map<RuleSpec, ShapeSpec>) {
    if rule is Call || known.contains_key(rule) {
        (table, known)
    } else {
        let later = see_all(table, shape_parts(rule));
        (later, known.insert(rule, shape_of(rule, later)))
    }
}

/// Finding out the shape of the nodes of a rule adds to the end of the table, keeps the shapes that
/// are known, and does nothing more when it is done again.
pub proof fn fill_shape_notes(
    table: Seq<RuleSpec>,
    known: Map<RuleSpec, ShapeSpec>,
    rule: RuleSpec,
)
    ensures
        ({
            let (later, then) = fill_shape(table, known, rule);
            &&& table.is_prefix_of(later)
            &&& known.submap_of(then)
            &&& rule is Call || then.contains_key(rule)
            &&& fill_shape(later, then, rule) == (later, then)
        }),
{
    see_all_extends(table, shape_parts(rule));
    see_all_extends(table, Seq::empty());
}

/// The rules without a name that have been seen, and what is known of them.
pub struct RuleMap<Pat> {
    anon: IndexSet<Vec<usize>>,
    anon_rules: Vec<Rc<Rule<Pat>>>,
    desc: IndexMap<Vec<usize>, String>,
    anon_shape: IndexMap<Vec<usize>, ParseNodeShape<ParseNodeKind>>,
}

impl<Pat: RustInputPat + PatKey> RuleMap<Pat> {
    /// The rules without a name that have been seen, in order.
    pub closed spec fn table(&self) -> Seq<RuleSpec> {
        models(self.anon_rules@)
    }

    /// The descriptions that are known.
    pub closed spec fn known_descs(&self) -> Map<RuleSpec, Seq<char>> {
        by_rule(descs(self.desc))
    }

    /// The shapes of nodes that are known.
    pub closed spec fn known_shapes(&self) -> Map<RuleSpec, ShapeSpec> {
        by_rule(shapes(self.anon_shape))
    }

    /// Whether the description of a rule is known.
    pub open spec fn described(&self, rule: RuleSpec) -> bool {
        self.known_descs().contains_key(rule)
    }

    /// Whether the shape of the nodes of a rule is known.
    pub open spec fn shaped(&self, rule: RuleSpec) -> bool {
        self.known_shapes().contains_key(rule)
    }

    /// Whether the map is valid: no rule is in it twice, and what is known of a rule is true.
    pub closed spec fn wf(&self) -> bool {
        &&& items(self.anon).len() == self.anon_rules@.len()
        &&& forall|i: int|
            0 <= i < self.anon_rules@.len() ==> #[trigger] items(self.anon)[i] == code(
                self.table()[i],
            )
        &&& self.table().no_duplicates()
        &&& forall|i: int| 0 <= i < self.table().len() ==> !((#[trigger] self.table()[i]) is Call)
        &&& distinct_keys(descs(self.desc))
        &&& distinct_keys(shapes(self.anon_shape))
        &&& descs_true(self.known_descs())
        &&& shapes_true(self.known_shapes(), self.table())
    }

    /// A map without rules.
    pub fn new() -> (r: Self)
        ensures
            r.wf(),
            r.table() == Seq::<RuleSpec>::empty(),
            r.known_descs() == Map::<RuleSpec, Seq<char>>::empty(),
            r.known_shapes() == Map::<RuleSpec, ShapeSpec>::empty(),
    {
        let r = RuleMap {
            anon: set_new(),
            anon_rules: Vec::new(),
            desc: descs_new(),
            anon_shape: shapes_new(),
        };
        assert(r.table() =~= Seq::empty());
        assert(r.known_descs() =~= Map::empty());
        assert(r.known_shapes() =~= Map::empty());
        r
    }

    /// How many rules have been seen.
    pub fn len(&self) -> (r: usize)
        requires
            self.wf(),
        ensures
            r == self.table().len(),
    {
        set_len(&self.anon)
    }

    /// The rule of a number.
    pub fn rule(&self, i: usize) -> (r: Rc<Rule<Pat>>)
        requires
            self.wf(),
            i < self.table().len(),
        ensures
            r.model() == self.table()[i as int],
            !(r.model() is Call),
    {
        self.anon_rules[i].clone()
    }
}

impl<Pat: RustInputPat + PatKey> Rule<Pat> {
    /// The kind of the nodes of the rule. A rule without a name that is new gets a number.
    pub fn parse_node_kind(rc_self: &Rc<Self>, rules: &mut RuleMap<Pat>) -> (r: ParseNodeKind)
        requires
            old(rules).wf(),
        ensures
            final(rules).wf(),
            final(rules).table() == see(old(rules).table(), rc_self.model()),
            r@ == kind_of(rc_self.model(), final(rules).table()),
            final(rules).known_shapes() == old(rules).known_shapes(),
            final(rules).known_descs() == old(rules).known_descs(),
    {
        if let Rule::Call(name) = &**rc_self {
            return ParseNodeKind::NamedRule(name.clone());
        }
        let ghost rule = rc_self.model();
        let ghost table = rules.table();
        let key = rc_self.code();
        if let Some(i) = set_find(&rules.anon, &key) {
            proof {
                code_injective(table[i as int], rule);
                assert(table.contains(rule));
            }
            return ParseNodeKind::Anon(i);
        }
        proof {
            if table.contains(rule) {
                assert(items(rules.anon)[table.index_of(rule)] == code(rule));
            }
            see_extends(table, rule);
        }
        let i = set_len(&rules.anon);
        set_insert(&mut rules.anon, key);
        rules.anon_rules.push(rc_self.clone());
        proof {
            let later = rules.table();
            assert(later =~= table.push(rule));
            assert(later[i as int] == rule);
            assert(later.index_of(rule) == i);
            shapes_stay_true(rules.known_shapes(), table, later);
        }
        ParseNodeKind::Anon(i)
    }

    /// How the nodes of the rule are made of others.
    #[verifier::rlimit(30)]
    pub fn parse_node_shape_uncached(rc_self: &Rc<Self>, rules: &mut RuleMap<Pat>) -> (r:
        ParseNodeShape<ParseNodeKind>)
        requires
            old(rules).wf(),
            !(rc_self.model() is Call),
        ensures
            final(rules).wf(),
            final(rules).table() == see_all(old(rules).table(), shape_parts(rc_self.model())),
            r@ == shape_of(rc_self.model(), final(rules).table()),
            final(rules).known_shapes() == old(rules).known_shapes(),
            final(rules).known_descs() == old(rules).known_descs(),
    {
        let ghost table = rules.table();
        let ghost rule = rc_self.model();
        proof {
            reveal_with_fuel(see_all, 3);
            let parts = shape_parts(rule);
            if parts.len() == 1 {
                assert(parts.drop_last() =~= Seq::empty());
            } else if parts.len() == 2 {
                assert(parts.drop_last() =~= seq![parts[0]]);
                assert(parts.drop_last().drop_last() =~= Seq::empty());
                see_extends(table, parts[0]);
                see_extends(see(table, parts[0]), parts[1]);
                old(rules).no_duplicates();
                kind_stable(parts[0], see(table, parts[0]), see_all(table, parts));
            }
        }
        match &**rc_self {
            Rule::Empty | Rule::Eat(_) => ParseNodeShape::Opaque,
            Rule::Call(_) => ParseNodeShape::Opaque,
            Rule::Concat(left, right) => {
                let left = Rule::parse_node_kind(left, rules);
                let right = Rule::parse_node_kind(right, rules);
                ParseNodeShape::Split(left, right)
            },
            Rule::Or(_) => ParseNodeShape::Choice,
            Rule::Opt(inner) => ParseNodeShape::Opt(Rule::parse_node_kind(inner, rules)),
            Rule::RepeatMany(elem, None) => {
                let more = Rc::new(Rule::RepeatMore(elem.clone(), None));
                ParseNodeShape::Opt(Rule::parse_node_kind(&more, rules))
            },
            Rule::RepeatMany(elem, Some((sep, kind))) => {
                let more = Rc::new(Rule::RepeatMore(elem.clone(), Some((sep.clone(), *kind))));
                ParseNodeShape::Opt(Rule::parse_node_kind(&more, rules))
            },
            Rule::RepeatMore(elem, None) => {
                let left = Rule::parse_node_kind(elem, rules);
                let many = Rc::new(Rule::RepeatMany(elem.clone(), None));
                let right = Rule::parse_node_kind(&many, rules);
                ParseNodeShape::Split(left, right)
            },
            Rule::RepeatMore(elem, Some((sep, SepKind::Simple))) => {
                let left = Rule::parse_node_kind(elem, rules);
                let rest = Rc::new(Rule::Concat(sep.clone(), rc_self.clone()));
                assert(rest.model() == concat(sep.model(), rule));
                let rest_or_none = Rc::new(Rule::Opt(rest));
                assert(rest_or_none.model() == optional(rest.model()));
                let right = Rule::parse_node_kind(&rest_or_none, rules);
                ParseNodeShape::Split(left, right)
            },
            Rule::RepeatMore(elem, Some((sep, SepKind::Trailing))) => {
                let simple = Rc::new(
                    Rule::RepeatMore(elem.clone(), Some((sep.clone(), SepKind::Simple))),
                );
                let left = Rule::parse_node_kind(&simple, rules);
                let last = Rc::new(Rule::Opt(sep.clone()));
                let right = Rule::parse_node_kind(&last, rules);
                ParseNodeShape::Split(left, right)
            },
        }
    }

    /// Finds out how the nodes of the rule are made of others, unless that is known.
    pub fn fill_parse_node_shape(rc_self: &Rc<Self>, rules: &mut RuleMap<Pat>)
        requires
            old(rules).wf(),
        ensures
            final(rules).wf(),
            final(rules).table() == see_all(old(rules).table(), shape_parts(rc_self.model())),
            (final(rules).table(), final(rules).known_shapes()) == fill_shape(
                old(rules).table(),
                old(rules).known_shapes(),
                rc_self.model(),
            ),
            final(rules).known_descs() == old(rules).known_descs(),
    {
        let ghost rule = rc_self.model();
        if let Rule::Call(_) = &**rc_self {
            return ;
        }
        let key = rc_self.code();
        if shapes_get(&rules.anon_shape, &key).is_some() {
            proof {
                assert(rules.shaped(rule));
                see_all_again(rules.table(), shape_parts(rule));
            }
            return ;
        }
        let ghost table = rules.table();
        let shape = Rule::parse_node_shape_uncached(rc_self, rules);
        let ghost before = *rules;
        let ghost known = shapes(rules.anon_shape);
        shapes_insert(&mut rules.anon_shape, key, shape);
        proof {
            by_rule_put(known, rule, shape@);
            see_all_extends(table, shape_parts(rule));
            assert(rules.table() == before.table());
        }
    }
}

impl<Pat: RustInputPat + PatKey> RuleMap<Pat> {
    /// No rule is in the map twice.
    pub proof fn no_duplicates(&self)
        requires
            self.wf(),
        ensures
            self.table().no_duplicates(),
    {
    }

    /// What is known of rules is true: their descriptions, and the shapes of their nodes, whose
    /// parts have all been seen.
    pub proof fn known_is_true(&self)
        requires
            self.wf(),
        ensures
            descs_true(self.known_descs()),
            shapes_true(self.known_shapes(), self.table()),
    {
    }

    /// Whether a rule has a kind of nodes.
    pub fn has(&self, rule: &Rc<Rule<Pat>>) -> (r: bool)
        requires
            self.wf(),
        ensures
            r == seen(self.table(), rule.model()),
    {
        if let Rule::Call(_) = &**rule {
            return true;
        }
        let ghost table = self.table();
        let key = rule.code();
        let found = set_find(&self.anon, &key);
        proof {
            if let Some(i) = found {
                code_injective(table[i as int], rule.model());
                assert(table.contains(rule.model()));
            } else if table.contains(rule.model()) {
                assert(items(self.anon)[table.index_of(rule.model())] == code(rule.model()));
            }
        }
        found.is_some()
    }

    /// The shape of the nodes of a rule, where it is known.
    pub fn shape(&self, rule: &Rc<Rule<Pat>>) -> (r: ParseNodeShape<ParseNodeKind>)
        requires
            self.wf(),
            self.shaped(rule.model()),
        ensures
            r@ == shape_of(rule.model(), self.table()),
    {
        let key = rule.code();
        shapes_get(&self.anon_shape, &key).unwrap().clone()
    }
}

impl<Pat: RustInputPat + PatKey> Rule<Pat> {
    /// The rule as it is written in a grammar.
    pub fn parse_node_desc(rc_self: &Rc<Self>, rules: &mut RuleMap<Pat>) -> (r: String)
        requires
            old(rules).wf(),
            can_describe(rc_self.model()) || old(rules).described(rc_self.model()),
        ensures
            final(rules).wf(),
            final(rules).table() == old(rules).table(),
            r@ == desc_of(rc_self.model()),
            final(rules).known_shapes() == old(rules).known_shapes(),
            final(rules).known_descs() == describe(old(rules).known_descs(), rc_self.model()),
        decreases rc_self, 1nat,
    {
        let ghost rule = rc_self.model();
        let key = rc_self.code();
        if let Some(desc) = descs_get(&rules.desc, &key) {
            assert(rules.described(rule));
            return desc.clone();
        }
        let desc = rc_self.parse_node_desc_uncached(rules);
        let ghost before = *rules;
        let ghost known = descs(rules.desc);
        descs_insert(&mut rules.desc, key, desc.clone());
        proof {
            by_rule_put(known, rule, desc@);
            assert(rules.table() == before.table());
        }
        desc
    }

    /// The rule as it is written in a grammar.
    pub fn parse_node_desc_uncached(&self, rules: &mut RuleMap<Pat>) -> (r: String)
        requires
            old(rules).wf(),
            can_describe(self.model()),
        ensures
            final(rules).wf(),
            final(rules).table() == old(rules).table(),
            r@ == desc_of(self.model()),
            final(rules).known_shapes() == old(rules).known_shapes(),
            final(rules).known_descs() == describe_parts(
                old(rules).known_descs(),
                self.model(),
            ),
        decreases self, 0nat,
    {
        match self {
            Rule::Empty => "".to_owned(),
            Rule::Eat(pat) => pat.rust_matcher().to_pretty_string(),
            Rule::Call(name) => name.clone(),
            Rule::Concat(left, right) => {
                let mut desc = "(".to_owned();
                desc.append(Rule::parse_node_desc(left, rules).as_str());
                desc.append(" ");
                desc.append(Rule::parse_node_desc(right, rules).as_str());
                desc.append(")");
                desc
            },
            Rule::Or(cases) => {
                let ghost all = self.model()->Or_0;
                assert(all[0] == cases@[0].model());
                assert(describe_cases(rules.known_descs(), all, 0) == rules.known_descs());
                let mut desc = Rule::parse_node_desc(&cases[0], rules);
                let mut i: usize = 1;
                while i < cases.len()
                    invariant
                        1 <= i <= cases.len(),
                        decreases_to!(self => cases),
                        all.len() == cases.len(),
                        forall|j: int| 0 <= j < cases.len() ==> all[j] == cases@[j].model(),
                        forall|j: int| 0 <= j < cases.len() ==> can_describe(#[trigger] all[j]),
                        rules.wf(),
                        rules.table() == old(rules).table(),
                        desc@ == cases_desc(all, i as nat),
                        rules.known_shapes() == old(rules).known_shapes(),
                        rules.known_descs() == describe_cases(
                            old(rules).known_descs(),
                            all,
                            i as nat,
                        ),
                    decreases cases.len() - i,
                {
                    assert(can_describe(all[i as int]));
                    desc.append(" | ");
                    desc.append(Rule::parse_node_desc(&cases[i], rules).as_str());
                    i += 1;
                }
                let mut r = "(".to_owned();
                r.append(desc.as_str());
                r.append(")");
                r
            },
            Rule::Opt(inner) => {
                let mut desc = Rule::parse_node_desc(inner, rules);
                desc.append("?");
                desc
            },
            Rule::RepeatMany(elem, None) => {
                let mut desc = Rule::parse_node_desc(elem, rules);
                desc.append("*");
                desc
            },
            Rule::RepeatMany(elem, Some((sep, kind))) => {
                let mut desc = Rule::parse_node_desc(elem, rules);
                match kind {
                    SepKind::Simple => desc.append("* % "),
                    SepKind::Trailing => desc.append("* %% "),
                }
                desc.append(Rule::parse_node_desc(sep, rules).as_str());
                desc
            },
            Rule::RepeatMore(elem, None) => {
                let mut desc = Rule::parse_node_desc(elem, rules);
                desc.append("+");
                desc
            },
            Rule::RepeatMore(elem, Some((sep, kind))) => {
                let mut desc = Rule::parse_node_desc(elem, rules);
                match kind {
                    SepKind::Simple => desc.append("+ % "),
                    SepKind::Trailing => desc.append("+ %% "),
                }
                desc.append(Rule::parse_node_desc(sep, rules).as_str());
                desc
            },
        }
    }

    /// Whether the rule can be written: wherever there is a choice in it, there is more than one
    /// case.
    pub fn has_description(&self) -> (r: bool)
        ensures
            r == can_describe(self.model()),
        decreases self,
    {
        match self {
            Rule::Empty | Rule::Eat(_) | Rule::Call(_) => true,
            Rule::Concat(left, right) => left.has_description() && right.has_description(),
            Rule::Or(cases) => {
                let ghost all = self.model()->Or_0;
                if cases.len() <= 1 {
                    return false;
                }
                let mut i: usize = 0;
                while i < cases.len()
                    invariant
                        i <= cases.len(),
                        decreases_to!(self => cases),
                        self.model() == RuleSpec::Or(all),
                        all.len() == cases.len(),
                        forall|j: int| 0 <= j < cases.len() ==> all[j] == cases@[j].model(),
                        forall|j: int| 0 <= j < i ==> can_describe(#[trigger] all[j]),
                    decreases cases.len() - i,
                {
                    assert(all[i as int] == cases@[i as int].model());
                    if !cases[i].has_description() {
                        return false;
                    }
                    i += 1;
                }
                true
            },
            Rule::Opt(inner) => inner.has_description(),
            Rule::RepeatMany(elem, None) | Rule::RepeatMore(elem, None) => elem.has_description(),
            Rule::RepeatMany(elem, Some((sep, _))) | Rule::RepeatMore(elem, Some((sep, _))) => {
                elem.has_description() && sep.has_description()
            },
        }
    }
}

} // verus!
