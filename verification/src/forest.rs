//! The functions that generated code reads parse forests by.
use crate::declare::{if_no_fields, variants_model, FIELD};
use crate::fields::{
    fields_fit, rule_fits, variants_fit, variants_of, FieldsSpec, NamedSpec, RuleWithNamedFields,
    Variant, VariantSpec,
};
use crate::maps::{fields, fields_get, fields_len, items, set_get, set_len};
use crate::node::{kind_src, numbered_name, numbered_name_of, ParseNodeKind};
use crate::pattern::{PatKey, RustInputPat};
use crate::rule::{Rule, RuleSpec};
use crate::table::{
    all_seen, all_seen_parts, kind_of, kind_stable, see_all, see_more, see_one, seen, RuleMap,
};
use crate::text::joined;
use crate::tokens::{
    fill, listed, number, quote0, quote1, quote2, quote3, quote4, quote5, repeated, word, Src,
    SrcSpec,
};
use crate::traverse::{traverse_refs, traverse_shape, traverse_stable};
use crate::types::{pathset_fits, pathset_refutable};
use indexmap::{IndexMap, IndexSet};
use vstd::prelude::*;

verus! {

pub const STEP: &'static str = ". $";

pub const PATH: &'static str = "_r $";

pub const OR_PATH: &'static str = ". or ( $ )";

pub const MAYBE_HANDLE: &'static str = "None $ . map ( | node | Handle {
    node ,
    forest ,
    _marker : PhantomData ,
} )";

pub const HANDLE: &'static str = "Handle {
    node : $ ,
    forest ,
    _marker : PhantomData ,
}";

pub const TUPLE_EXPR: &'static str = "$ :: $ ( Handle {
    node : _node ,
    forest ,
    _marker : PhantomData ,
} )";

pub const STRUCT_EXPR: &'static str = "$ :: $ { $ }";

pub const VARIANT_FROM_FOREST: &'static str = "# [ allow ( non_snake_case ) ]
fn $ (
    forest : & 'a gll :: forest :: ParseForest < 'i , _G , I > ,
    _node : ParseNode < 'i , _P > ,
    _r : traverse ! ( typeof ( ParseNode < 'i , _P > ) $ ) ,
) -> Self {
    $
}";

pub const MARKER_EXPR: &'static str = "_marker : { let _ = forest ; PhantomData } ,";

pub const FROM_FOREST: &'static str = "fn from_forest (
    forest : & 'a gll :: forest :: ParseForest < 'i , _G , I > ,
    _node : ParseNode < 'i , _P > ,
    _r : traverse ! ( typeof ( ParseNode < 'i , _P > ) $ ) ,
) -> Self {
    $ {
        $
        $
    }
}";

pub const FROM_FOREST_IMPL: &'static str = "impl < 'a , 'i , I : gll :: input :: Input >
    $ < 'a , 'i , I >
{
    $
}";

/// The steps of a path.
pub open spec fn path_steps(path: Seq<usize>) -> spec_fn(int) -> SrcSpec {
    |i: int| fill(STEP@, seq![number(path[i] as nat)])
}

/// What is at the end of a path.
pub open spec fn path_expr(path: Seq<usize>) -> SrcSpec {
    fill(PATH@, seq![repeated(path.len(), path_steps(path))])
}

/// What is at the end of each path.
pub open spec fn path_exprs(paths: Seq<Seq<usize>>) -> spec_fn(int) -> SrcSpec {
    |i: int| path_expr(paths[i])
}

/// What is at the end of each path, as one possibility more.
pub open spec fn or_path_exprs(paths: Seq<Seq<usize>>) -> spec_fn(int) -> SrcSpec {
    |i: int| fill(OR_PATH@, seq![path_expr(paths[i])])
}

/// The handle of a field: that of the first of its nodes that is there, where it may be missing.
pub open spec fn handle_expr(rule: RuleSpec, paths: Seq<Seq<usize>>) -> SrcSpec {
    if pathset_refutable(rule, paths) {
        fill(MAYBE_HANDLE@, seq![repeated(paths.len(), or_path_exprs(paths))])
    } else {
        fill(HANDLE@, seq![repeated(paths.len(), path_exprs(paths))])
    }
}

/// The handle of each field.
pub open spec fn field_expr(rule: RuleSpec, fs: FieldsSpec) -> spec_fn(int) -> SrcSpec {
    |i: int| fill(FIELD@, seq![word(fs[i].0), handle_expr(rule, fs[i].1)])
}

/// A value of a variant.
pub open spec fn variant_expr(name: Seq<char>, v: VariantSpec) -> SrcSpec {
    if v.fields.len() == 0 {
        fill(TUPLE_EXPR@, seq![word(name), word(v.name)])
    } else {
        fill(
            STRUCT_EXPR@,
            seq![
                word(name),
                word(v.name),
                listed(v.fields.len(), field_expr(v.rule, v.fields)),
            ],
        )
    }
}

/// The name of the function that makes a value of a variant.
pub open spec fn from_forest_name(v: VariantSpec) -> Seq<char> {
    v.name + "_from_forest"@
}

/// The function that makes a value of each variant.
pub open spec fn variant_fns(
    name: Seq<char>,
    vs: Seq<VariantSpec>,
    table: Seq<RuleSpec>,
) -> spec_fn(int) -> SrcSpec {
    |i: int|
        fill(
            VARIANT_FROM_FOREST@,
            seq![
                word(from_forest_name(vs[i])),
                traverse_shape(vs[i].rule, false, table),
                variant_expr(name, vs[i]),
            ],
        )
}

/// The functions that make values of the type for a rule.
pub open spec fn from_forest_src(
    name: Seq<char>,
    rule: NamedSpec,
    variants: Option<Seq<VariantSpec>>,
    table: Seq<RuleSpec>,
) -> SrcSpec {
    let methods = match variants {
        Some(vs) => repeated(vs.len(), variant_fns(name, vs, table)),
        None => fill(
            FROM_FOREST@,
            seq![
                traverse_shape(rule.rule, false, table),
                word(name),
                listed(rule.fields.len(), field_expr(rule.rule, rule.fields)),
                if_no_fields(rule.fields, MARKER_EXPR@),
            ],
        ),
    };
    fill(FROM_FOREST_IMPL@, seq![word(name), methods])
}

/// The rules whose nodes the shapes of the first `n` variants speak of.
pub open spec fn shapes_refs(vs: Seq<VariantSpec>, n: nat) -> Seq<RuleSpec>
    decreases n,
{
    if n == 0 {
        Seq::empty()
    } else {
        shapes_refs(vs, (n - 1) as nat) + traverse_refs(vs[n - 1].rule)
    }
}

/// The rules whose nodes the shapes for a rule speak of.
pub open spec fn rule_shapes_refs(
    rule: NamedSpec,
    variants: Option<Seq<VariantSpec>>,
) -> Seq<RuleSpec> {
    match variants {
        Some(vs) => shapes_refs(vs, vs.len()),
        None => traverse_refs(rule.rule),
    }
}

/// What the shapes of all variants speak of has been seen, so that of each has.
pub proof fn shapes_refs_seen(vs: Seq<VariantSpec>, n: nat, i: int, table: Seq<RuleSpec>)
    requires
        0 <= i < n <= vs.len(),
        all_seen(table, shapes_refs(vs, n)),
    ensures
        all_seen(table, traverse_refs(vs[i].rule)),
    decreases n,
{
    all_seen_parts(table, shapes_refs(vs, (n - 1) as nat), traverse_refs(vs[n - 1].rule));
    if i < n - 1 {
        shapes_refs_seen(vs, (n - 1) as nat, i, table);
    }
}

/// Parts that are the same one by one are the same one after the other.
pub proof fn repeated_same(n: nat, f: spec_fn(int) -> SrcSpec, g: spec_fn(int) -> SrcSpec)
    requires
        forall|i: int| 0 <= i < n ==> #[trigger] f(i) == g(i),
    ensures
        repeated(n, f) == repeated(n, g),
    decreases n,
{
    if n > 0 {
        repeated_same((n - 1) as nat, f, g);
    }
}

fn path_of(path: &Vec<usize>) -> (r: Src)
    ensures
        r@ == path_expr(path@),
{
    let mut steps = Src::new();
    let mut i: usize = 0;
    while i < path.len()
        invariant
            i <= path.len(),
            steps@ == repeated(i as nat, path_steps(path@)),
        decreases path.len() - i,
    {
        steps.append(quote1(STEP, Src::number(path[i])));
        i += 1;
    }
    quote1(PATH, steps)
}

fn field_handle_expr<Pat: RustInputPat + PatKey>(
    rule: &Rule<Pat>,
    paths: &IndexSet<Vec<usize>>,
) -> (r: Src)
    requires
        pathset_fits(rule.model(), items(*paths)),
    ensures
        r@ == handle_expr(rule.model(), items(*paths)),
{
    let n = set_len(paths);
    let mut i: usize = 0;
    let mut exprs = Src::new();
    if rule.field_pathset_is_refutable(paths) {
        while i < n
            invariant
                i <= n,
                n == items(*paths).len(),
                exprs@ == repeated(i as nat, or_path_exprs(items(*paths))),
            decreases n - i,
        {
            let path = set_get(paths, i).unwrap();
            exprs.append(quote1(OR_PATH, path_of(path)));
            i += 1;
        }
        quote1(MAYBE_HANDLE, exprs)
    } else {
        while i < n
            invariant
                i <= n,
                n == items(*paths).len(),
                exprs@ == repeated(i as nat, path_exprs(items(*paths))),
            decreases n - i,
        {
            let path = set_get(paths, i).unwrap();
            exprs.append(path_of(path));
            i += 1;
        }
        quote1(HANDLE, exprs)
    }
}

fn field_exprs<Pat: RustInputPat + PatKey>(
    rule: &Rule<Pat>,
    fs: &IndexMap<String, IndexSet<Vec<usize>>>,
) -> (r: Src)
    requires
        fields_fit(rule.model(), fields(*fs)),
    ensures
        r@ == listed(fields(*fs).len(), field_expr(rule.model(), fields(*fs))),
{
    let mut r = Src::new();
    let n = fields_len(fs);
    let mut i: usize = 0;
    while i < n
        invariant
            i <= n,
            n == fields(*fs).len(),
            fields_fit(rule.model(), fields(*fs)),
            r@ == listed(i as nat, field_expr(rule.model(), fields(*fs))),
        decreases n - i,
    {
        let (name, paths) = fields_get(fs, i).unwrap();
        assert(fields(*fs)[i as int] == (name@, items(*paths)));
        let expr = quote2(FIELD, Src::ident(name.as_str()), field_handle_expr(rule, paths));
        r.list(expr, i == 0);
        i += 1;
    }
    r
}

fn variant_body<Pat: RustInputPat + PatKey>(name: &str, v: &Variant<Pat>) -> (r: Src)
    requires
        fields_fit(v.model().rule, v.model().fields),
    ensures
        r@ == variant_expr(name@, v.model()),
{
    let ident = Src::ident(name);
    let variant_ident = Src::ident(v.name.as_str());
    if fields_len(&v.fields) == 0 {
        quote2(TUPLE_EXPR, ident, variant_ident)
    } else {
        quote3(STRUCT_EXPR, ident, variant_ident, field_exprs(&v.rule, &v.fields))
    }
}

/// The functions that make values of the type for a rule.
pub fn impl_rule_from_forest<Pat: RustInputPat + PatKey>(
    name: &str,
    rule: &RuleWithNamedFields<Pat>,
    variants: Option<&Vec<Variant<Pat>>>,
    rules: &mut RuleMap<Pat>,
) -> (r: Src)
    requires
        old(rules).wf(),
        rule_fits(rule.model(), variants_model(variants)),
    ensures
        final(rules).wf(),
        final(rules).table() == see_all(
            old(rules).table(),
            rule_shapes_refs(rule.model(), variants_model(variants)),
        ),
        r@ == from_forest_src(
            name@,
            rule.model(),
            variants_model(variants),
            final(rules).table(),
        ),
        final(rules).known_shapes() == old(rules).known_shapes(),
        final(rules).known_descs() == old(rules).known_descs(),
{
    let ghost table = rules.table();
    proof {
        rules.no_duplicates();
    }
    let methods = match variants {
        Some(vs) => {
            let ghost all = variants_of(vs@);
            let mut fns = Src::new();
            let mut i: usize = 0;
            while i < vs.len()
                invariant
                    i <= vs.len(),
                    all == variants_of(vs@),
                    variants_fit(all),
                    table.no_duplicates(),
                    rules.wf(),
                    rules.table() == see_all(table, shapes_refs(all, i as nat)),
                    rules.known_shapes() == old(rules).known_shapes(),
                    rules.known_descs() == old(rules).known_descs(),
                    fns@ == repeated(i as nat, variant_fns(name@, all, rules.table())),
                decreases vs.len() - i,
            {
                let ghost before = rules.table();
                let shape = Rule::generate_traverse_shape(&vs[i].rule, false, rules);
                let fn_name = joined(vs[i].name.as_str(), "_from_forest");
                assert(all[i as int] == vs@[i as int].model());
                let body = variant_body(name, &vs[i]);
                proof {
                    let last = rules.table();
                    let done = shapes_refs(all, i as nat);
                    see_more(table, done, traverse_refs(all[i as int].rule));
                    let f = variant_fns(name@, all, before);
                    let g = variant_fns(name@, all, last);
                    assert forall|k: int| 0 <= k < i implies #[trigger] f(k) == g(k) by {
                        shapes_refs_seen(all, i as nat, k, before);
                        traverse_stable(all[k].rule, false, before, last);
                    }
                    repeated_same(i as nat, f, g);
                }
                fns.append(
                    quote3(VARIANT_FROM_FOREST, Src::ident(fn_name.as_str()), shape, body),
                );
                i += 1;
            }
            fns
        },
        None => {
            let shape = Rule::generate_traverse_shape(&rule.rule, false, rules);
            let marker_field = if fields_len(&rule.fields) == 0 {
                quote0(MARKER_EXPR)
            } else {
                Src::new()
            };
            quote4(
                FROM_FOREST,
                shape,
                Src::ident(name),
                field_exprs(&rule.rule, &rule.fields),
                marker_field,
            )
        },
    };
    quote2(FROM_FOREST_IMPL, Src::ident(name), methods)
}

pub const ONE_ARM: &'static str = "$ => {
    let r = traverse ! ( one ( forest , node ) $ ) ;
    $ :: $ ( self . forest , node , r )
}";

pub const ONE_OF_VARIANTS: &'static str = "let node = forest . one_choice ( node ) ? ;
match node . kind {
    $
    _ => unreachable ! ( )
}";

pub const ITER_PARAM: &'static str = "$";

pub const ITER_VARIANT: &'static str = "$ ( $ )";

pub const ITER_BOUND: &'static str = ", $ : Iterator < Item = T >";

pub const ITER_NEXT: &'static str = "Iter :: $ ( iter ) => iter . next ( )";

pub const ITER: &'static str = "# [ derive ( Clone ) ]
enum Iter < $ > {
    $
}
impl < T $ > Iterator for Iter < $ >
{
    type Item = T ;
    fn next ( & mut self ) -> Option < T > {
        match self {
            $
        }
    }
}";

pub const ALL_ARM: &'static str = "$ => Iter :: $ (
    traverse ! ( all ( forest ) $ )
        . apply ( node )
        . map ( move | r | $ :: $ ( self . forest , node , r ) )
) ,";

pub const ALL_OF_VARIANTS: &'static str = "forest
    . all_choices ( node )
    . flat_map ( move | node | {
    match node . kind {
        $
        _ => unreachable ! ( ) ,
    }
} )";

pub const ONE_OF_RULE: &'static str = "let r = traverse ! ( one ( forest , node ) $ ) ;
$ :: from_forest ( self . forest , node , r )";

pub const ALL_OF_RULE: &'static str = "traverse ! ( all ( forest ) $ )
    . apply ( node )
    . map ( move | r | $ :: from_forest ( self . forest , node , r ) )";

pub const ONE_AND_ALL: &'static str = "impl < 'a , 'i , I >
    Handle < 'a , 'i , I , $ < 'a , 'i , I > >
    where I : gll :: input :: Input ,
{
    pub fn one ( self ) -> Result < $ < 'a , 'i , I > , Ambiguity < Self > > {
        ( || Ok ( {
            let forest = self . forest ;
            let node = forest . unpack_alias ( self . node ) ;
            $
        } ) ) ( ) . map_err ( | gll :: forest :: MoreThanOne | Ambiguity ( self ) )
    }

    pub fn all ( self ) -> impl Iterator < Item = $ < 'a , 'i , I > > {
        let forest = self . forest ;
        let node = forest . unpack_alias ( self . node ) ;
        $
    }
}";

/// Something for each of the first numbers, by the name that the number has.
pub open spec fn numbered_part(template: Seq<char>) -> spec_fn(int) -> SrcSpec {
    |i: int|
        fill(
            template,
            seq![word(numbered_name(i as nat)), word(numbered_name(i as nat))],
        )
}

/// The kinds of the nodes of the variants and the shapes by which to go through them, for the one
/// value of the type for a rule.
pub open spec fn one_arms(
    name: Seq<char>,
    vs: Seq<VariantSpec>,
    table: Seq<RuleSpec>,
) -> spec_fn(int) -> SrcSpec {
    |i: int|
        fill(
            ONE_ARM@,
            seq![
                kind_src(kind_of(vs[i].rule, table)),
                traverse_shape(vs[i].rule, false, table),
                word(name),
                word(from_forest_name(vs[i])),
            ],
        )
}

/// The kinds of the nodes of the variants and the shapes by which to go through them, for all
/// values of the type for a rule.
pub open spec fn all_arms(
    name: Seq<char>,
    vs: Seq<VariantSpec>,
    table: Seq<RuleSpec>,
) -> spec_fn(int) -> SrcSpec {
    |i: int|
        fill(
            ALL_ARM@,
            seq![
                kind_src(kind_of(vs[i].rule, table)),
                word(numbered_name(i as nat)),
                traverse_shape(vs[i].rule, false, table),
                word(name),
                word(from_forest_name(vs[i])),
            ],
        )
}

/// The iterator over values of any of `n` variants.
pub open spec fn iter_src(n: nat) -> SrcSpec {
    fill(
        ITER@,
        seq![
            listed(n, numbered_part(ITER_PARAM@)),
            listed(n, numbered_part(ITER_VARIANT@)),
            repeated(n, numbered_part(ITER_BOUND@)),
            listed(n, numbered_part(ITER_PARAM@)),
            listed(n, numbered_part(ITER_NEXT@)),
        ],
    )
}

/// The functions that give the one value, or all values, that a handle stands for.
pub open spec fn one_and_all_src(
    name: Seq<char>,
    rule: NamedSpec,
    variants: Option<Seq<VariantSpec>>,
    table: Seq<RuleSpec>,
) -> SrcSpec {
    let (one, all) = match variants {
        Some(vs) => (
            fill(ONE_OF_VARIANTS@, seq![repeated(vs.len(), one_arms(name, vs, table))]),
            iter_src(vs.len()) + fill(
                ALL_OF_VARIANTS@,
                seq![repeated(vs.len(), all_arms(name, vs, table))],
            ),
        ),
        None => (
            fill(ONE_OF_RULE@, seq![traverse_shape(rule.rule, false, table), word(name)]),
            fill(ALL_OF_RULE@, seq![traverse_shape(rule.rule, false, table), word(name)]),
        ),
    };
    fill(ONE_AND_ALL@, seq![word(name), word(name), one, word(name), all])
}

/// The rules of the first `n` variants.
pub open spec fn variant_rules(vs: Seq<VariantSpec>, n: nat) -> Seq<RuleSpec>
    decreases n,
{
    if n == 0 {
        Seq::empty()
    } else {
        variant_rules(vs, (n - 1) as nat).push(vs[n - 1].rule)
    }
}

/// The rules whose nodes the functions that read a parse forest speak of.
pub open spec fn one_and_all_refs(
    rule: NamedSpec,
    variants: Option<Seq<VariantSpec>>,
) -> Seq<RuleSpec> {
    match variants {
        Some(vs) => variant_rules(vs, vs.len()) + shapes_refs(vs, vs.len()),
        None => traverse_refs(rule.rule),
    }
}

/// The rules of all variants have been seen, so that of each has.
pub proof fn variant_rules_seen(vs: Seq<VariantSpec>, n: nat, i: int, table: Seq<RuleSpec>)
    requires
        0 <= i < n <= vs.len(),
        all_seen(table, variant_rules(vs, n)),
    ensures
        seen(table, vs[i].rule),
    decreases n,
{
    let before = variant_rules(vs, (n - 1) as nat);
    let now = variant_rules(vs, n);
    assert(seen(table, now[before.len() as int]));
    if i < n - 1 {
        assert forall|k: int| 0 <= k < before.len() implies seen(table, #[trigger] before[k]) by {
            assert(now[k] == before[k]);
        }
        variant_rules_seen(vs, (n - 1) as nat, i, table);
    }
}

fn numbered_list(template: &str, n: usize) -> (r: Src)
    ensures
        r@ == listed(n as nat, numbered_part(template@)),
{
    let mut r = Src::new();
    let mut i: usize = 0;
    while i < n
        invariant
            i <= n,
            r@ == listed(i as nat, numbered_part(template@)),
        decreases n - i,
    {
        let name = numbered_name_of(i);
        let ident = Src::ident(name.as_str());
        r.list(quote2(template, ident.clone(), ident), i == 0);
        i += 1;
    }
    r
}

fn numbered_parts(template: &str, n: usize) -> (r: Src)
    ensures
        r@ == repeated(n as nat, numbered_part(template@)),
{
    let mut r = Src::new();
    let mut i: usize = 0;
    while i < n
        invariant
            i <= n,
            r@ == repeated(i as nat, numbered_part(template@)),
        decreases n - i,
    {
        let name = numbered_name_of(i);
        let ident = Src::ident(name.as_str());
        r.append(quote2(template, ident.clone(), ident));
        i += 1;
    }
    r
}

fn variants_kind<Pat: RustInputPat + PatKey>(
    vs: &Vec<Variant<Pat>>,
    rules: &mut RuleMap<Pat>,
) -> (r: Vec<ParseNodeKind>)
    requires
        old(rules).wf(),
    ensures
        final(rules).wf(),
        final(rules).table() == see_all(
            old(rules).table(),
            variant_rules(variants_of(vs@), vs@.len()),
        ),
        r@.len() == vs@.len(),
        forall|i: int|
            0 <= i < vs@.len() ==> (#[trigger] r@[i])@ == kind_of(
                vs@[i].rule.model(),
                final(rules).table(),
            ),
        final(rules).known_shapes() == old(rules).known_shapes(),
        final(rules).known_descs() == old(rules).known_descs(),
{
    let ghost table = rules.table();
    let ghost all = variants_of(vs@);
    proof {
        rules.no_duplicates();
    }
    let mut kinds: Vec<ParseNodeKind> = Vec::new();
    let mut i: usize = 0;
    while i < vs.len()
        invariant
            i <= vs.len(),
            all == variants_of(vs@),
            table.no_duplicates(),
            rules.wf(),
            rules.table() == see_all(table, variant_rules(all, i as nat)),
            rules.known_shapes() == old(rules).known_shapes(),
            rules.known_descs() == old(rules).known_descs(),
            kinds@.len() == i,
            forall|k: int|
                0 <= k < i ==> (#[trigger] kinds@[k])@ == kind_of(
                    vs@[k].rule.model(),
                    rules.table(),
                ),
        decreases vs.len() - i,
    {
        let ghost before = rules.table();
        let ghost earlier = kinds@;
        kinds.push(Rule::parse_node_kind(&vs[i].rule, rules));
        i += 1;
        proof {
            let last = rules.table();
            let done = variant_rules(all, (i - 1) as nat);
            let rule = vs@[i - 1].rule.model();
            assert(variant_rules(all, i as nat) =~= done + seq![rule]);
            see_one(before, rule);
            see_more(table, done, seq![rule]);
            assert forall|k: int| 0 <= k < i implies (#[trigger] kinds@[k])@ == kind_of(
                vs@[k].rule.model(),
                last,
            ) by {
                if k < i - 1 {
                    assert(kinds@[k] == earlier[k]);
                    variant_rules_seen(all, (i - 1) as nat, k, before);
                    assert(all[k].rule == vs@[k].rule.model());
                    kind_stable(all[k].rule, before, last);
                }
            }
        }
    }
    kinds
}

fn variants_shape<Pat: RustInputPat + PatKey>(
    vs: &Vec<Variant<Pat>>,
    rules: &mut RuleMap<Pat>,
) -> (r: Vec<Src>)
    requires
        old(rules).wf(),
    ensures
        final(rules).wf(),
        final(rules).table() == see_all(
            old(rules).table(),
            shapes_refs(variants_of(vs@), vs@.len()),
        ),
        r@.len() == vs@.len(),
        forall|i: int|
            0 <= i < vs@.len() ==> (#[trigger] r@[i])@ == traverse_shape(
                vs@[i].rule.model(),
                false,
                final(rules).table(),
            ),
        final(rules).known_shapes() == old(rules).known_shapes(),
        final(rules).known_descs() == old(rules).known_descs(),
{
    let ghost table = rules.table();
    let ghost all = variants_of(vs@);
    proof {
        rules.no_duplicates();
    }
    let mut shapes: Vec<Src> = Vec::new();
    let mut i: usize = 0;
    while i < vs.len()
        invariant
            i <= vs.len(),
            all == variants_of(vs@),
            table.no_duplicates(),
            rules.wf(),
            rules.table() == see_all(table, shapes_refs(all, i as nat)),
            rules.known_shapes() == old(rules).known_shapes(),
            rules.known_descs() == old(rules).known_descs(),
            shapes@.len() == i,
            forall|k: int|
                0 <= k < i ==> (#[trigger] shapes@[k])@ == traverse_shape(
                    vs@[k].rule.model(),
                    false,
                    rules.table(),
                ),
        decreases vs.len() - i,
    {
        let ghost before = rules.table();
        let ghost earlier = shapes@;
        shapes.push(Rule::generate_traverse_shape(&vs[i].rule, false, rules));
        i += 1;
        proof {
            let last = rules.table();
            let done = shapes_refs(all, (i - 1) as nat);
            see_more(table, done, traverse_refs(all[i - 1].rule));
            assert forall|k: int| 0 <= k < i implies (#[trigger] shapes@[k])@ == traverse_shape(
                vs@[k].rule.model(),
                false,
                last,
            ) by {
                if k < i - 1 {
                    assert(shapes@[k] == earlier[k]);
                    shapes_refs_seen(all, (i - 1) as nat, k, before);
                    assert(all[k].rule == vs@[k].rule.model());
                    traverse_stable(all[k].rule, false, before, last);
                }
            }
        }
    }
    shapes
}

/// The functions that give the one value, or all values, that a handle stands for.
pub fn impl_rule_one_and_all<Pat: RustInputPat + PatKey>(
    name: &str,
    rule: &RuleWithNamedFields<Pat>,
    variants: Option<&Vec<Variant<Pat>>>,
    rules: &mut RuleMap<Pat>,
) -> (r: Src)
    requires
        old(rules).wf(),
    ensures
        final(rules).wf(),
        final(rules).table() == see_all(
            old(rules).table(),
            one_and_all_refs(rule.model(), variants_model(variants)),
        ),
        r@ == one_and_all_src(
            name@,
            rule.model(),
            variants_model(variants),
            final(rules).table(),
        ),
        final(rules).known_shapes() == old(rules).known_shapes(),
        final(rules).known_descs() == old(rules).known_descs(),
{
    let ghost table = rules.table();
    proof {
        rules.no_duplicates();
    }
    let (one, all) = match variants {
        Some(vs) => {
            let ghost all_vs = variants_of(vs@);
            let n = vs.len();
            let kinds = variants_kind(vs, rules);
            let ghost mid = rules.table();
            let shapes = variants_shape(vs, rules);
            let ghost last = rules.table();
            proof {
                see_more(table, variant_rules(all_vs, n as nat), shapes_refs(all_vs, n as nat));
                assert forall|k: int| 0 <= k < n implies (#[trigger] kinds@[k])@ == kind_of(
                    vs@[k].rule.model(),
                    last,
                ) by {
                    variant_rules_seen(all_vs, n as nat, k, mid);
                    assert(all_vs[k].rule == vs@[k].rule.model());
                    kind_stable(all_vs[k].rule, mid, last);
                }
            }
            let mut ones = Src::new();
            let mut alls = Src::new();
            let mut i: usize = 0;
            while i < n
                invariant
                    i <= n,
                    n == vs@.len(),
                    all_vs == variants_of(vs@),
                    kinds@.len() == n,
                    shapes@.len() == n,
                    forall|k: int|
                        0 <= k < n ==> (#[trigger] kinds@[k])@ == kind_of(
                            vs@[k].rule.model(),
                            last,
                        ),
                    forall|k: int|
                        0 <= k < n ==> (#[trigger] shapes@[k])@ == traverse_shape(
                            vs@[k].rule.model(),
                            false,
                            last,
                        ),
                    ones@ == repeated(i as nat, one_arms(name@, all_vs, last)),
                    alls@ == repeated(i as nat, all_arms(name@, all_vs, last)),
                decreases n - i,
            {
                let from_forest = joined(vs[i].name.as_str(), "_from_forest");
                let i_name = numbered_name_of(i);
                assert(all_vs[i as int] == vs@[i as int].model());
                ones.append(
                    quote4(
                        ONE_ARM,
                        kinds[i].to_src(),
                        shapes[i].clone(),
                        Src::ident(name),
                        Src::ident(from_forest.as_str()),
                    ),
                );
                alls.append(
                    quote5(
                        ALL_ARM,
                        kinds[i].to_src(),
                        Src::ident(i_name.as_str()),
                        shapes[i].clone(),
                        Src::ident(name),
                        Src::ident(from_forest.as_str()),
                    ),
                );
                i += 1;
            }
            let iter = quote5(
                ITER,
                numbered_list(ITER_PARAM, n),
                numbered_list(ITER_VARIANT, n),
                numbered_parts(ITER_BOUND, n),
                numbered_list(ITER_PARAM, n),
                numbered_list(ITER_NEXT, n),
            );
            (quote1(ONE_OF_VARIANTS, ones), iter.plus(quote1(ALL_OF_VARIANTS, alls)))
        },
        None => {
            let shape = Rule::generate_traverse_shape(&rule.rule, false, rules);
            (
                quote2(ONE_OF_RULE, shape.clone(), Src::ident(name)),
                quote2(ALL_OF_RULE, shape, Src::ident(name)),
            )
        },
    };
    quote5(ONE_AND_ALL, Src::ident(name), Src::ident(name), one, Src::ident(name), all)
}

/// Where a table has been added to, the functions that make values stay the same.
pub proof fn from_forest_stable(
    name: Seq<char>,
    rule: NamedSpec,
    variants: Option<Seq<VariantSpec>>,
    table: Seq<RuleSpec>,
    later: Seq<RuleSpec>,
)
    requires
        later.no_duplicates(),
        table.is_prefix_of(later),
        all_seen(table, rule_shapes_refs(rule, variants)),
    ensures
        from_forest_src(name, rule, variants, later) == from_forest_src(
            name,
            rule,
            variants,
            table,
        ),
{
    match variants {
        Some(vs) => {
            let f = variant_fns(name, vs, table);
            let g = variant_fns(name, vs, later);
            assert forall|k: int| 0 <= k < vs.len() implies #[trigger] f(k) == g(k) by {
                shapes_refs_seen(vs, vs.len(), k, table);
                traverse_stable(vs[k].rule, false, table, later);
            }
            repeated_same(vs.len(), f, g);
        },
        None => {
            traverse_stable(rule.rule, false, table, later);
        },
    }
}

/// Where a table has been added to, the functions that give values stay the same.
pub proof fn one_and_all_stable(
    name: Seq<char>,
    rule: NamedSpec,
    variants: Option<Seq<VariantSpec>>,
    table: Seq<RuleSpec>,
    later: Seq<RuleSpec>,
)
    requires
        later.no_duplicates(),
        table.is_prefix_of(later),
        all_seen(table, one_and_all_refs(rule, variants)),
    ensures
        one_and_all_src(name, rule, variants, later) == one_and_all_src(
            name,
            rule,
            variants,
            table,
        ),
{
    match variants {
        Some(vs) => {
            let f = one_arms(name, vs, table);
            let g = one_arms(name, vs, later);
            let f_all = all_arms(name, vs, table);
            let g_all = all_arms(name, vs, later);
            all_seen_parts(table, variant_rules(vs, vs.len()), shapes_refs(vs, vs.len()));
            assert forall|k: int| 0 <= k < vs.len() implies #[trigger] f(k) == g(k) by {
                variant_rules_seen(vs, vs.len(), k, table);
                kind_stable(vs[k].rule, table, later);
                shapes_refs_seen(vs, vs.len(), k, table);
                traverse_stable(vs[k].rule, false, table, later);
            }
            assert forall|k: int| 0 <= k < vs.len() implies #[trigger] f_all(k) == g_all(k) by {
                variant_rules_seen(vs, vs.len(), k, table);
                kind_stable(vs[k].rule, table, later);
                shapes_refs_seen(vs, vs.len(), k, table);
                traverse_stable(vs[k].rule, false, table, later);
            }
            repeated_same(vs.len(), f, g);
            repeated_same(vs.len(), f_all, g_all);
        },
        None => {
            traverse_stable(rule.rule, false, table, later);
        },
    }
}

} // verus!
