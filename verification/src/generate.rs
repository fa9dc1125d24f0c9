//! From grammars to parsers.
use crate::balance::{level_applies, parse_level, within_self};
use crate::closure::{closed_table, closed_table_is_closed};
use crate::continuation::{Code, CodeSpec, ContSpec, Continuation};
use crate::debug::{debug_impls_src, rule_debug_impls};
use crate::declare::{
    can_declare, declare_rule_ty, impl_parse_with, parse_with_src, rule_ty_src, typed_fits,
    variants_model,
};
use crate::fields::{variants_in, NamedSpec, RuleWithNamedFields};
use crate::forest::{
    from_forest_src, from_forest_stable, impl_rule_from_forest, impl_rule_one_and_all,
    one_and_all_refs, one_and_all_src, one_and_all_stable, rule_shapes_refs,
};
use crate::instr::{code_src, code_to_src, InstrsSpec};
use crate::label::{label_src, rule_label, CodeLabel, LabelSpec};
use crate::maps::{
    distinct_keys, fields_len, fn_labels, has_key, key_at, labels_new, put, put_distinct,
};
use crate::node::{KindSpec, ParseNodeKind, ParseNodeShape};
use crate::parse::{parse_refs, parse_stable, parse_step, table_if};
use crate::pattern::{PatKey, RustInputPat};
use crate::reflect::{
    any_debug_src, code_label_decl_and_impls, declare_parse_node_kind, impl_debug_for_handle_any,
    labels_src, nodes_of, nodes_src, NodeSpec, ParseNode,
};
use crate::rule::{Rule, RuleSpec};
use crate::table::{
    all_seen, all_seen_parts, can_describe, desc_of, kind_of, prefix_of_prefix, see_all,
    see_all_extends, see_more, seen, shape_of, RuleMap,
};
use crate::text::same_text;
use crate::thunk::{apply, seq_of, Thunk, ThunkSpec};
use crate::tokens::{fill, lexes, quote0, quote1, quote2, repeated, texts, word, Src, SrcSpec};
use indexmap::IndexMap;
use std::rc::Rc;
use vstd::prelude::*;

verus! {

/// The rules of a grammar by their names, in order.
pub type GrammarSpec = Seq<(Seq<char>, NamedSpec)>;

/// A grammar: rules with names.
pub struct Grammar<Pat> {
    rules: Vec<(String, RuleWithNamedFields<Pat>)>,
}

impl<Pat> Grammar<Pat> {
    /// No name is that of two rules.
    #[verifier::type_invariant]
    spec fn names_distinct(self) -> bool {
        forall|i: int, j: int|
            0 <= i < self.rules@.len() && 0 <= j < self.rules@.len() && i != j ==> (
            #[trigger] self.rules@[i]).0@ != (#[trigger] self.rules@[j]).0@
    }
}

/// What some rules with names are.
pub open spec fn named_of<Pat: RustInputPat + PatKey>(
    rules: Seq<(String, RuleWithNamedFields<Pat>)>,
) -> GrammarSpec {
    rules.map_values(|r: (String, RuleWithNamedFields<Pat>)| (r.0@, r.1.model()))
}

impl<Pat: RustInputPat + PatKey> Grammar<Pat> {
    /// What the grammar is.
    pub closed spec fn model(&self) -> GrammarSpec {
        named_of(self.rules@)
    }

    /// A grammar without rules.
    pub fn new() -> (r: Self)
        ensures
            r.model() == Seq::<(Seq<char>, NamedSpec)>::empty(),
    {
        let r = Grammar { rules: Vec::new() };
        assert(r.model() =~= Seq::empty());
        r
    }

    /// Gives a name to a rule, in place of the rule that has it, or as the last of the rules.
    pub fn insert(&mut self, name: String, rule: RuleWithNamedFields<Pat>)
        ensures
            final(self).model() == put(old(self).model(), name@, rule.model()),
    {
        let ghost before = self.model();
        proof {
            use_type_invariant(&*self);
            put_distinct(before, name@, rule.model());
        }
        let ghost after = put(before, name@, rule.model());
        let mut rules = Vec::new();
        std::mem::swap(&mut rules, &mut self.rules);
        let n = rules.len();
        let mut i: usize = 0;
        while i < n && !same_text(rules[i].0.as_str(), name.as_str())
            invariant
                i <= n,
                n == rules@.len(),
                before == named_of(rules@),
                forall|k: int| 0 <= k < i ==> (#[trigger] before[k]).0 != name@,
            decreases n - i,
        {
            assert(before[i as int].0 == rules@[i as int].0@);
            i += 1;
        }
        if i < n {
            assert(before[i as int].0 == name@);
            assert(key_at(before, name@) == i);
            rules.set(i, (name, rule));
        } else {
            assert(!has_key(before, name@));
            rules.push((name, rule));
        }
        proof {
            assert(named_of(rules@) =~= after);
            assert forall|i: int, j: int|
                0 <= i < rules@.len() && 0 <= j < rules@.len() && i != j implies (
            #[trigger] rules@[i]).0@ != (#[trigger] rules@[j]).0@ by {
                assert(after[i].0 != after[j].0);
            }
        }
        self.rules = rules;
    }

    /// The names of the rules, in order. None is that of two rules.
    pub fn names(&self) -> (r: Vec<String>)
        ensures
            texts(r@) == names_of(self.model()),
            distinct_keys(self.model()),
    {
        proof {
            use_type_invariant(self);
        }
        let ghost g = self.model();
        let mut names: Vec<String> = Vec::new();
        assert(texts(names@) =~= names_of(g).take(0));
        let mut i: usize = 0;
        while i < self.rules.len()
            invariant
                i <= self.rules.len(),
                g == self.model(),
                texts(names@) == names_of(g).take(i as int),
            decreases self.rules.len() - i,
        {
            let ghost earlier = names@;
            names.push(self.rules[i].0.clone());
            i += 1;
            assert(texts(names@) =~= texts(earlier).push(g[i - 1].0));
            assert(names_of(g).take(i as int) =~= names_of(g).take(i - 1).push(g[i - 1].0));
        }
        assert(names_of(g).take(g.len() as int) =~= names_of(g));
        names
    }
}

/// The rules whose nodes the declarations for a rule speak of.
pub open spec fn declare_refs(rule: NamedSpec) -> Seq<RuleSpec> {
    rule_shapes_refs(rule, variants_in(rule)) + one_and_all_refs(rule, variants_in(rule))
}

/// The type for a rule, and how its values are printed and read from a parse forest.
pub open spec fn declare_src(name: Seq<char>, rule: NamedSpec, table: Seq<RuleSpec>) -> SrcSpec {
    let variants = variants_in(rule);
    rule_ty_src(name, rule, variants) + debug_impls_src(name, rule, variants) + from_forest_src(
        name,
        rule,
        variants,
        table,
    ) + one_and_all_src(name, rule, variants, table)
}

/// Where a table has been added to, the declarations for a rule stay the same.
proof fn declare_stable(
    name: Seq<char>,
    rule: NamedSpec,
    table: Seq<RuleSpec>,
    later: Seq<RuleSpec>,
)
    requires
        later.no_duplicates(),
        table.is_prefix_of(later),
        all_seen(table, declare_refs(rule)),
    ensures
        declare_src(name, rule, later) == declare_src(name, rule, table),
{
    let variants = variants_in(rule);
    all_seen_parts(table, rule_shapes_refs(rule, variants), one_and_all_refs(rule, variants));
    from_forest_stable(name, rule, variants, table, later);
    one_and_all_stable(name, rule, variants, table, later);
}

/// The type for a rule, and how its values are printed and read from a parse forest.
pub fn declare_rule<Pat: RustInputPat + PatKey>(
    name: &str,
    rule: &RuleWithNamedFields<Pat>,
    rules: &mut RuleMap<Pat>,
) -> (r: Src)
    requires
        old(rules).wf(),
        can_declare(rule.model()),
    ensures
        final(rules).wf(),
        final(rules).table() == see_all(old(rules).table(), declare_refs(rule.model())),
        r@ == declare_src(name@, rule.model(), final(rules).table()),
        final(rules).known_shapes() == old(rules).known_shapes(),
        final(rules).known_descs() == old(rules).known_descs(),
{
    let ghost table = rules.table();
    let ghost spec = rule.model();
    let found = rule.find_variant_fields();
    let variants = found.as_ref();
    proof {
        rules.no_duplicates();
        assert(variants_model(variants) == variants_in(spec));
        typed_fits(spec, variants_in(spec));
    }
    let ty = declare_rule_ty(name, rule, variants);
    let debug = rule_debug_impls(name, rule, variants);
    let from_forest = impl_rule_from_forest(name, rule, variants, rules);
    let ghost mid = rules.table();
    let one_and_all = impl_rule_one_and_all(name, rule, variants, rules);
    proof {
        see_more(
            table,
            rule_shapes_refs(spec, variants_in(spec)),
            one_and_all_refs(spec, variants_in(spec)),
        );
        from_forest_stable(name@, spec, variants_in(spec), mid, rules.table());
    }
    ty.plus(debug).plus(from_forest).plus(one_and_all)
}

/// The code of some rules: the labels inside of its functions, and its pieces.
pub struct CodesSpec {
    pub labels: Seq<(LabelSpec, Seq<LabelSpec>)>,
    pub arms: Seq<(LabelSpec, InstrsSpec)>,
}

/// The continuation that the code of a rule is generated from: none of it is there.
pub open spec fn rule_start(codes: CodesSpec, name: Seq<char>) -> ContSpec {
    ContSpec {
        labels: codes.labels,
        fn_label: rule_label(name),
        arms: codes.arms,
        code: CodeSpec::Inline(Seq::empty()),
        frames: Seq::empty(),
    }
}

/// The table for the code of a rule: a rule without fields has no nodes inside of it.
pub open spec fn code_table(rule: NamedSpec, table: Seq<RuleSpec>) -> Option<Seq<RuleSpec>> {
    table_if(rule.fields.len() > 0, table)
}

/// The step that parses a rule and returns.
pub open spec fn rule_step(rule: NamedSpec, table: Seq<RuleSpec>) -> ThunkSpec {
    seq_of(parse_step(rule.rule, code_table(rule, table)), ThunkSpec::Ret)
}

/// The code with that of one more rule.
pub open spec fn with_rule_code(
    codes: CodesSpec,
    name: Seq<char>,
    rule: NamedSpec,
    table: Seq<RuleSpec>,
) -> CodesSpec {
    let label = rule_label(name);
    let done = apply(rule_step(rule, table), label, rule_start(codes, name))->Some_0.reified(label);
    CodesSpec { labels: done.labels, arms: done.arms }
}

/// The code of the first `n` rules.
pub open spec fn rules_code(g: GrammarSpec, n: nat, table: Seq<RuleSpec>) -> CodesSpec
    decreases n,
{
    if n == 0 {
        CodesSpec { labels: Seq::empty(), arms: Seq::empty() }
    } else {
        with_rule_code(rules_code(g, (n - 1) as nat, table), g[n - 1].0, g[n - 1].1, table)
    }
}

/// The rules whose nodes the code of a rule speaks of.
pub open spec fn code_refs(rule: NamedSpec) -> Seq<RuleSpec> {
    if rule.fields.len() > 0 {
        parse_refs(rule.rule)
    } else {
        Seq::empty()
    }
}

/// The rules whose nodes the code of the first `n` rules speaks of.
pub open spec fn rules_code_refs(g: GrammarSpec, n: nat) -> Seq<RuleSpec>
    decreases n,
{
    if n == 0 {
        Seq::empty()
    } else {
        rules_code_refs(g, (n - 1) as nat) + code_refs(g[n - 1].1)
    }
}

/// Where a table has been added to, the code of the rules stays the same.
pub proof fn rules_code_stable(
    g: GrammarSpec,
    n: nat,
    table: Seq<RuleSpec>,
    later: Seq<RuleSpec>,
)
    requires
        n <= g.len(),
        later.no_duplicates(),
        table.is_prefix_of(later),
        all_seen(table, rules_code_refs(g, n)),
    ensures
        rules_code(g, n, later) == rules_code(g, n, table),
    decreases n,
{
    if n > 0 {
        let rule = g[n - 1].1;
        all_seen_parts(table, rules_code_refs(g, (n - 1) as nat), code_refs(rule));
        rules_code_stable(g, (n - 1) as nat, table, later);
        if rule.fields.len() > 0 {
            parse_stable(rule.rule, table, later);
        }
    }
}

/// The code of any rule can be generated.
pub proof fn rule_step_applies(
    codes: CodesSpec,
    name: Seq<char>,
    rule: NamedSpec,
    table: Seq<RuleSpec>,
)
    ensures
        apply(rule_step(rule, table), rule_label(name), rule_start(codes, name)) is Some,
{
    let start = rule_start(codes, name);
    let label = rule_label(name);
    let step = parse_step(rule.rule, code_table(rule, table));
    let begin = start.ret()->Some_0;
    parse_level(rule.rule, code_table(rule, table), 0);
    within_self(begin);
    level_applies(step, 0, label, begin, begin.frames, begin.fn_label);
    assert(apply(ThunkSpec::Ret, label, start) == Some(begin));
}

pub const ARM: &'static str = "$ => { $ }";

pub const STEP_FN: &'static str = "impl < I > gll :: runtime :: CodeStep < I > for _C
    where I : gll :: input :: Input < Slice = $ > ,
{
    fn step < 'i > ( self , mut rt : gll :: runtime :: Runtime < '_ , 'i , _C , I > ) {
        match self {
            $
        }
    }
}";

/// The code at each label.
pub open spec fn arm_srcs(arms: Seq<(LabelSpec, InstrsSpec)>) -> spec_fn(int) -> SrcSpec {
    |i: int| fill(ARM@, seq![label_src(arms[i].0), code_src(arms[i].1)])
}

/// The function that runs the code at a label.
pub open spec fn step_fn_src(slice_ty: SrcSpec, arms: Seq<(LabelSpec, InstrsSpec)>) -> SrcSpec {
    fill(STEP_FN@, seq![slice_ty, repeated(arms.len(), arm_srcs(arms))])
}

/// The function that runs the code at a label, and the labels inside of the functions.
pub fn define_parse_fn<Pat: RustInputPat + PatKey>(
    g: &Grammar<Pat>,
    rules: &mut RuleMap<Pat>,
) -> (r: (Src, IndexMap<(String, Vec<usize>), Vec<Rc<CodeLabel>>>))
    requires
        old(rules).wf(),
    ensures
        final(rules).wf(),
        final(rules).table() == see_all(
            old(rules).table(),
            rules_code_refs(g.model(), g.model().len()),
        ),
        r.0@ == step_fn_src(
            Pat::slice_ty_spec(),
            rules_code(g.model(), g.model().len(), final(rules).table()).arms,
        ),
        fn_labels(r.1) == rules_code(g.model(), g.model().len(), final(rules).table()).labels,
        final(rules).known_shapes() == old(rules).known_shapes(),
        final(rules).known_descs() == old(rules).known_descs(),
{
    let ghost table = rules.table();
    let ghost spec = g.model();
    proof {
        rules.no_duplicates();
    }
    let mut cont = Continuation {
        code_labels: labels_new(),
        fn_code_label: Rc::new(CodeLabel::NamedRule(String::new())),
        code_label_arms: Vec::new(),
        code: Code::Inline(Vec::new()),
        nested_frames: Vec::new(),
    };
    assert(cont@.arms =~= Seq::empty());
    let mut i: usize = 0;
    while i < g.rules.len()
        invariant
            i <= g.rules.len(),
            spec == g.model(),
            spec.len() == g.rules@.len(),
            table.no_duplicates(),
            rules.wf(),
            rules.table() == see_all(table, rules_code_refs(spec, i as nat)),
            rules.known_shapes() == old(rules).known_shapes(),
            rules.known_descs() == old(rules).known_descs(),
            cont@.labels == rules_code(spec, i as nat, rules.table()).labels,
            cont@.arms == rules_code(spec, i as nat, rules.table()).arms,
        decreases g.rules.len() - i,
    {
        let name = &g.rules[i].0;
        let rule = &g.rules[i].1;
        assert(spec[i as int] == (name@, rule.model()));
        let ghost before = rules.table();
        let ghost codes = rules_code(spec, i as nat, before);
        let code_label = Rc::new(CodeLabel::NamedRule(name.clone()));
        let nodes = fields_len(&rule.fields) > 0;
        let thunk = Rule::generate_parse(&rule.rule, nodes, rules).plus(Thunk::Ret);
        cont.fn_code_label = code_label.clone();
        cont.code = Code::Inline(Vec::new());
        cont.nested_frames = Vec::new();
        proof {
            let last = rules.table();
            see_more(table, rules_code_refs(spec, i as nat), code_refs(rule.model()));
            if !nodes {
                assert(see_all(before, Seq::empty()) == before);
            }
            rules_code_stable(spec, i as nat, before, last);
            assert(cont@.frames =~= Seq::empty());
            assert(cont@.code->Inline_0 =~= Seq::empty());
            assert(cont@ == rule_start(codes, name@));
            rule_step_applies(codes, name@, rule.model(), last);
        }
        thunk.apply(&code_label, &mut cont);
        cont.reify_as(code_label);
        i += 1;
    }
    let mut arms = Src::new();
    let mut k: usize = 0;
    while k < cont.code_label_arms.len()
        invariant
            k <= cont.code_label_arms.len(),
            arms@ == repeated(k as nat, arm_srcs(cont@.arms)),
        decreases cont.code_label_arms.len() - k,
    {
        let (label, code) = &cont.code_label_arms[k];
        arms.append(quote2(ARM, label.to_src(), code_to_src(code)));
        k += 1;
    }
    let src = quote2(STEP_FN, Pat::rust_slice_ty(), arms);
    (src, cont.code_labels)
}

/// The declarations for each rule.
pub open spec fn rule_decls(
    g: GrammarSpec,
    slice_ty: SrcSpec,
    table: Seq<RuleSpec>,
) -> spec_fn(int) -> SrcSpec {
    |i: int| declare_src(g[i].0, g[i].1, table) + parse_with_src(g[i].0, slice_ty)
}

/// The rules whose nodes the declarations for the first `n` rules speak of.
pub open spec fn decls_refs(g: GrammarSpec, n: nat) -> Seq<RuleSpec>
    decreases n,
{
    if n == 0 {
        Seq::empty()
    } else {
        decls_refs(g, (n - 1) as nat) + declare_refs(g[n - 1].1)
    }
}

/// Where a table has been added to, the declarations for the rules stay the same.
proof fn decls_stable(
    g: GrammarSpec,
    n: nat,
    slice_ty: SrcSpec,
    table: Seq<RuleSpec>,
    later: Seq<RuleSpec>,
)
    requires
        n <= g.len(),
        later.no_duplicates(),
        table.is_prefix_of(later),
        all_seen(table, decls_refs(g, n)),
    ensures
        repeated(n, rule_decls(g, slice_ty, later)) == repeated(
            n,
            rule_decls(g, slice_ty, table),
        ),
    decreases n,
{
    if n > 0 {
        all_seen_parts(table, decls_refs(g, (n - 1) as nat), declare_refs(g[n - 1].1));
        decls_stable(g, (n - 1) as nat, slice_ty, table, later);
        declare_stable(g[n - 1].0, g[n - 1].1, table, later);
    }
}

pub const NAMED_TY: &'static str = "$ < '_ , '_ , _ >";

pub const UNITS_TY: &'static str = "[ ( ) ]";

pub const NAMED_SLICE_TY: &'static str = "[ $ < '_ , '_ , _ > ]";

/// The table once all rules have been seen that the declarations for the rules speak of, and the
/// code of the rules.
pub open spec fn refs_table(g: GrammarSpec) -> Seq<RuleSpec> {
    see_all(see_all(Seq::empty(), decls_refs(g, g.len())), rules_code_refs(g, g.len()))
}

/// The table of all rules without a name that there are nodes for.
pub open spec fn grammar_table(g: GrammarSpec) -> Seq<RuleSpec> {
    closed_table(refs_table(g))
}

/// The nodes of a rule with a name: they stand for those of the rule itself, where it has fields.
pub open spec fn named_node(name: Seq<char>, rule: NamedSpec, table: Seq<RuleSpec>) -> NodeSpec {
    NodeSpec {
        kind: KindSpec::NamedRule(name),
        desc: name,
        shape: if rule.fields.len() == 0 {
            ParseNodeShape::Opaque
        } else {
            ParseNodeShape::Alias(kind_of(rule.rule, table))
        },
        ty: Some(fill(NAMED_TY@, seq![word(name)])),
    }
}

/// The type of the nodes of a rule without a name: a repetition of a pattern or of a rule with a
/// name has one.
pub open spec fn anon_ty(rule: RuleSpec) -> Option<SrcSpec> {
    match rule {
        RuleSpec::RepeatMany(elem, _) | RuleSpec::RepeatMore(elem, _) => match *elem {
            RuleSpec::Eat(_) => Some(fill(UNITS_TY@, Seq::empty())),
            RuleSpec::Call(name) => Some(fill(NAMED_SLICE_TY@, seq![word(name)])),
            _ => None,
        },
        _ => None,
    }
}

/// The nodes of the rule without a name that has the number `i`.
pub open spec fn anon_node(i: int, table: Seq<RuleSpec>) -> NodeSpec {
    NodeSpec {
        kind: KindSpec::Anon(i as nat),
        desc: desc_of(table[i]),
        shape: shape_of(table[i], table),
        ty: anon_ty(table[i]),
    }
}

/// All kinds of nodes.
pub open spec fn all_nodes(g: GrammarSpec, table: Seq<RuleSpec>) -> Seq<NodeSpec> {
    Seq::new(g.len(), |i: int| named_node(g[i].0, g[i].1, table)) + Seq::new(
        table.len(),
        |i: int| anon_node(i, table),
    )
}

/// Whether there is a kind for all nodes that the nodes of rules with names stand for.
pub open spec fn aliases_seen(g: GrammarSpec, table: Seq<RuleSpec>) -> bool {
    forall|i: int|
        0 <= i < g.len() && (#[trigger] g[i]).1.fields.len() > 0 ==> seen(table, g[i].1.rule)
}

/// Whether all rules of a table can be written.
pub open spec fn all_describable(table: Seq<RuleSpec>) -> bool {
    forall|i: int| 0 <= i < table.len() ==> can_describe(#[trigger] table[i])
}

/// Whether the types for all rules can be declared.
pub open spec fn all_declarable(g: GrammarSpec) -> bool {
    forall|i: int| 0 <= i < g.len() ==> can_declare((#[trigger] g[i]).1)
}

/// Whether there is a parser for a grammar: the types for all rules can be declared, there is a
/// kind for all nodes, and all of them have a description.
pub open spec fn has_parser(g: GrammarSpec) -> bool {
    &&& all_declarable(g)
    &&& aliases_seen(g, grammar_table(g))
    &&& all_describable(grammar_table(g))
}

/// Why there is no parser for a grammar.
#[derive(Clone, Copy, Debug, PartialEq, Eq, Structural)]
pub enum NoParser {
    /// The code that is to stand before it is not source code.
    Preamble,
    /// The type for a rule cannot be declared.
    Type,
    /// The nodes of a rule stand for nodes that there is no kind for.
    Kind,
    /// A choice has less than two cases.
    Description,
}

/// Why there is no parser for a grammar, if there is none.
pub open spec fn why_no_parser(g: GrammarSpec) -> Option<NoParser> {
    if !all_declarable(g) {
        Some(NoParser::Type)
    } else if !aliases_seen(g, grammar_table(g)) {
        Some(NoParser::Kind)
    } else if !all_describable(grammar_table(g)) {
        Some(NoParser::Description)
    } else {
        None
    }
}

/// The names of the rules.
pub open spec fn names_of(g: GrammarSpec) -> Seq<Seq<char>> {
    g.map_values(|rule: (Seq<char>, NamedSpec)| rule.0)
}

/// The parser for a grammar, with some code before it.
pub open spec fn parser_src(g: GrammarSpec, slice_ty: SrcSpec, preamble: SrcSpec) -> SrcSpec {
    let table = grammar_table(g);
    let codes = rules_code(g, g.len(), table);
    let nodes = all_nodes(g, table);
    preamble + repeated(g.len(), rule_decls(g, slice_ty, table)) + step_fn_src(
        slice_ty,
        codes.arms,
    ) + nodes_src(nodes) + any_debug_src(nodes) + labels_src(names_of(g), codes.labels)
}

/// The type of the nodes of a rule without a name.
fn anon_ty_of<Pat: RustInputPat + PatKey>(rule: &Rule<Pat>) -> (r: Option<Src>)
    ensures
        r is Some <==> anon_ty(rule.model()) is Some,
        r matches Some(ty) ==> anon_ty(rule.model()) == Some(ty@),
{
    match rule {
        Rule::RepeatMany(elem, _) | Rule::RepeatMore(elem, _) => {
            assert(anon_ty(rule.model()) == match elem.model() {
                RuleSpec::Eat(_) => Some(fill(UNITS_TY@, Seq::empty())),
                RuleSpec::Call(name) => Some(fill(NAMED_SLICE_TY@, seq![word(name)])),
                _ => None,
            });
            match &**elem {
                Rule::Eat(_) => Some(quote0(UNITS_TY)),
                Rule::Call(name) => Some(quote1(NAMED_SLICE_TY, Src::ident(name.as_str()))),
                _ => None,
            }
        },
        _ => None,
    }
}

/// All kinds of nodes, where there is a kind for all nodes, and all of them have a description.
#[verifier::rlimit(30)]
fn gather_nodes<Pat: RustInputPat + PatKey>(g: &Grammar<Pat>, rules: &mut RuleMap<Pat>) -> (r:
    Result<Vec<ParseNode>, NoParser>)
    requires
        old(rules).wf(),
        forall|r: RuleSpec| old(rules).table().contains(r) ==> #[trigger] old(rules).shaped(r),
    ensures
        final(rules).wf(),
        final(rules).table() == old(rules).table(),
        final(rules).known_shapes() == old(rules).known_shapes(),
        match r {
            Ok(_) => aliases_seen(g.model(), old(rules).table()) && all_describable(
                old(rules).table(),
            ),
            Err(why) => if aliases_seen(g.model(), old(rules).table()) {
                why is Description && !all_describable(old(rules).table())
            } else {
                why is Kind
            },
        },
        r matches Ok(nodes) ==> nodes_of(nodes@) == all_nodes(g.model(), old(rules).table()),
{
    let ghost spec = g.model();
    let ghost table = rules.table();
    let ghost all = all_nodes(spec, table);
    proof {
        rules.no_duplicates();
    }
    let mut nodes: Vec<ParseNode> = Vec::new();
    let mut i: usize = 0;
    assert(nodes_of(nodes@) =~= all.take(0));
    while i < g.rules.len()
        invariant
            i <= g.rules.len(),
            spec == g.model(),
            spec.len() == g.rules@.len(),
            table == old(rules).table(),
            all == all_nodes(spec, table),
            rules.wf(),
            rules.table() == table,
            rules.known_shapes() == old(rules).known_shapes(),
            rules.known_descs() == old(rules).known_descs(),
            forall|k: int|
                0 <= k < i && (#[trigger] spec[k]).1.fields.len() > 0 ==> seen(
                    table,
                    spec[k].1.rule,
                ),
            nodes_of(nodes@) == all.take(i as int),
        decreases g.rules.len() - i,
    {
        let name = &g.rules[i].0;
        let rule = &g.rules[i].1;
        assert(spec[i as int] == (name@, rule.model()));
        let shape = if fields_len(&rule.fields) == 0 {
            ParseNodeShape::Opaque
        } else {
            if !rules.has(&rule.rule) {
                assert(!aliases_seen(spec, table));
                return Err(NoParser::Kind);
            }
            ParseNodeShape::Alias(Rule::parse_node_kind(&rule.rule, rules))
        };
        let node = ParseNode {
            kind: ParseNodeKind::NamedRule(name.clone()),
            desc: name.clone(),
            shape,
            ty: Some(quote1(NAMED_TY, Src::ident(name.as_str()))),
        };
        let ghost before = nodes@;
        nodes.push(node);
        i += 1;
        assert(nodes_of(nodes@) =~= nodes_of(before).push(node@));
        assert(node@ == all[i - 1]);
        assert(all.take(i as int) =~= all.take(i - 1).push(all[i - 1]));
    }
    let n = rules.len();
    let mut k: usize = 0;
    while k < n
        invariant
            k <= n,
            n == table.len(),
            spec == g.model(),
            aliases_seen(spec, table),
            table == old(rules).table(),
            all == all_nodes(spec, table),
            all.len() == spec.len() + n,
            table.no_duplicates(),
            rules.wf(),
            rules.table() == table,
            rules.known_shapes() == old(rules).known_shapes(),
            forall|r: RuleSpec| table.contains(r) ==> #[trigger] old(rules).shaped(r),
            forall|j: int| 0 <= j < k ==> can_describe(#[trigger] table[j]),
            nodes_of(nodes@) == all.take(spec.len() + k),
        decreases n - k,
    {
        let rule = rules.rule(k);
        let ghost model = rule.model();
        assert(model == table[k as int]);
        if !rule.has_description() {
            assert(!can_describe(table[k as int]));
            return Err(NoParser::Description);
        }
        let kind = Rule::parse_node_kind(&rule, rules);
        proof {
            assert(table.contains(model));
            assert(table[table.index_of(model)] == model);
        }
        let desc = Rule::parse_node_desc(&rule, rules);
        assert(old(rules).shaped(model));
        let shape = rules.shape(&rule);
        let ty = anon_ty_of(&rule);
        let node = ParseNode { kind, desc, shape, ty };
        let ghost before = nodes@;
        nodes.push(node);
        k += 1;
        assert(nodes_of(nodes@) =~= nodes_of(before).push(node@));
        assert(all[spec.len() + k - 1] == anon_node(k - 1, table));
        assert(node@ == all[spec.len() + k - 1]);
        assert(all.take(spec.len() + k) =~= all.take(spec.len() + k - 1).push(
            all[spec.len() + k - 1],
        ));
    }
    assert(all.take(all.len() as int) =~= all);
    Ok(nodes)
}

impl<Pat: RustInputPat + PatKey> Grammar<Pat> {
    /// The parser for the grammar, with some code before it, where there is one.
    #[verifier::rlimit(30)]
    pub fn try_generate_rust(&self, preamble: Src) -> (r: Result<Src, NoParser>)
        ensures
            match r {
                Ok(_) => why_no_parser(self.model()) is None,
                Err(why) => why_no_parser(self.model()) == Some(why),
            },
            r matches Ok(src) ==> src@ == parser_src(
                self.model(),
                Pat::slice_ty_spec(),
                preamble@,
            ),
    {
        let ghost g = self.model();
        let ghost slice_ty = Pat::slice_ty_spec();
        let mut i: usize = 0;
        while i < self.rules.len()
            invariant
                i <= self.rules.len(),
                g == self.model(),
                g.len() == self.rules@.len(),
                forall|k: int| 0 <= k < i ==> can_declare((#[trigger] g[k]).1),
            decreases self.rules.len() - i,
        {
            assert(g[i as int].1 == self.rules@[i as int].1.model());
            if !self.rules[i].1.is_declarable() {
                assert(!all_declarable(g));
                return Err(NoParser::Type);
            }
            i += 1;
        }
        let mut rules: RuleMap<Pat> = RuleMap::new();
        let mut decls = Src::new();
        assert(Seq::<RuleSpec>::empty().no_duplicates());
        let mut i: usize = 0;
        while i < self.rules.len()
            invariant
                i <= self.rules.len(),
                g == self.model(),
                g.len() == self.rules@.len(),
                slice_ty == Pat::slice_ty_spec(),
                all_declarable(g),
                rules.wf(),
                rules.table() == see_all(Seq::empty(), decls_refs(g, i as nat)),
                Seq::<RuleSpec>::empty().no_duplicates(),
                decls@ == repeated(i as nat, rule_decls(g, slice_ty, rules.table())),
            decreases self.rules.len() - i,
        {
            let name = &self.rules[i].0;
            let rule = &self.rules[i].1;
            assert(g[i as int] == (name@, rule.model()));
            let ghost before = rules.table();
            let decl = declare_rule(name.as_str(), rule, &mut rules);
            proof {
                see_more(Seq::empty(), decls_refs(g, i as nat), declare_refs(rule.model()));
                decls_stable(g, i as nat, slice_ty, before, rules.table());
            }
            decls.append(decl.plus(impl_parse_with::<Pat>(name.as_str())));
            i += 1;
        }
        let ghost one = rules.table();
        let (step_fn, code_labels) = define_parse_fn(self, &mut rules);
        let ghost two = rules.table();
        proof {
            see_all_extends(Seq::empty(), decls_refs(g, g.len()));
            see_all_extends(one, rules_code_refs(g, g.len()));
            closed_table_is_closed(two);
        }
        rules.fill_parse_node_shapes();
        let ghost table = rules.table();
        proof {
            prefix_of_prefix(one, two, table);
            decls_stable(g, g.len(), slice_ty, one, table);
            rules_code_stable(g, g.len(), two, table);
            assert(table == grammar_table(g));
        }
        let all_parse_nodes = match gather_nodes(self, &mut rules) {
            Ok(nodes) => nodes,
            Err(why) => {
                return Err(why);
            },
        };
        Ok(
            preamble.plus(decls).plus(step_fn).plus(
                declare_parse_node_kind(&all_parse_nodes),
            ).plus(impl_debug_for_handle_any(&all_parse_nodes)).plus(
                code_label_decl_and_impls(&self.names(), &code_labels),
            ),
        )
    }

    /// The parser for the grammar, with some code before it.
    pub fn generate_rust(&self, preamble: Src) -> (r: Src)
        requires
            has_parser(self.model()),
        ensures
            r@ == parser_src(self.model(), Pat::slice_ty_spec(), preamble@),
    {
        self.try_generate_rust(preamble).unwrap()
    }
}

/// The parser for a grammar, with some code before it.
pub fn generate<Pat: RustInputPat + PatKey>(g: &Grammar<Pat>, preamble: Src) -> (r: Src)
    requires
        has_parser(g.model()),
    ensures
        r@ == parser_src(g.model(), Pat::slice_ty_spec(), preamble@),
{
    g.generate_rust(preamble)
}

/// The parser for a grammar, with some code before it that is given as text, or why there is none.
pub fn try_generate<Pat: RustInputPat + PatKey>(g: &Grammar<Pat>, preamble: &str) -> (r: Result<
    Src,
    NoParser,
>)
    ensures
        match r {
            Ok(src) => lexes(preamble@) && has_parser(g.model()) && src@ == parser_src(
                g.model(),
                Pat::slice_ty_spec(),
                word(preamble@),
            ),
            Err(why) => if lexes(preamble@) {
                why_no_parser(g.model()) == Some(why)
            } else {
                why is Preamble
            },
        },
{
    match Src::parse(preamble) {
        Some(preamble) => g.try_generate_rust(preamble),
        None => Err(NoParser::Preamble),
    }
}

} // verus!
