//! What generated code says, part by part: how each rule, field, case, kind of nodes and label is
//! spoken of in it.
use crate::debug::{
    debug_arms, field_debugs, field_pats, handle_debug_src, rule_debug_src, var_debugs,
    variant_debug, variant_pat,
};
use crate::declare::{field_decl, handle_ty, parse_with_src, rule_ty_src, variant_decls};
use crate::fields::{variants_in, NamedSpec, VariantSpec};
use crate::forest::{
    all_arms, field_expr, from_forest_src, handle_expr, numbered_part, one_and_all_src, one_arms,
    variant_fns,
};
use crate::generate::{
    all_nodes, anon_node, arm_srcs, declare_src, grammar_table, named_node, names_of, parser_src,
    rule_decls, rules_code, GrammarSpec,
};
use crate::instr::{code_src, instr_src, instrs_src, InstrSpec, InstrsSpec};
use crate::label::{flat_name, label_src, LabelSpec};
use crate::node::{
    kind_name, kind_src, numbered_name, shape_src, KindSpec, ParseNodeShape, ShapeSpec,
};
use crate::parse::parse_step;
use crate::reflect::{
    all_labels, any_debug_src, enclosing_fn, inner_labels, label_decls, label_fns, labels_src,
    node_decls, node_descs, node_shapes, nodes_src, NodeSpec,
};
use crate::rule::{PatSpec, RuleSpec};
use crate::table::{desc_of, kind_of, see, shape_of};
use crate::text::escape_backticks;
use crate::thunk::ThunkSpec;
use crate::tokens::{fill, listed, repeated, string, word, SrcSpec, TokenSpec};
use crate::traverse::{traverse_cases, traverse_shape};
use crate::types::{pathset_refutable, type_at};
use vstd::prelude::*;

verus! {

/// Parts, one after the other.
pub open spec fn row<A>(parts: Seq<Seq<A>>) -> Seq<A>
    decreases parts.len(),
{
    if parts.len() == 0 {
        Seq::empty()
    } else {
        parts[0] + row(parts.skip(1))
    }
}

/// Parts, one after the other, with a comma between any two.
pub open spec fn comma_row(parts: Seq<SrcSpec>) -> SrcSpec
    decreases parts.len(),
{
    if parts.len() == 0 {
        Seq::empty()
    } else if parts.len() == 1 {
        parts[0]
    } else {
        parts[0] + seq![TokenSpec::Text(seq![','])] + comma_row(parts.skip(1))
    }
}

/// A part more comes at the end of a row.
pub proof fn row_push<A>(parts: Seq<Seq<A>>, last: Seq<A>)
    ensures
        row(parts.push(last)) == row(parts) + last,
    decreases parts.len(),
{
    let all = parts.push(last);
    if parts.len() == 0 {
        assert(all.skip(1) =~= Seq::empty());
        assert(row(all.skip(1)) =~= Seq::empty());
        assert(row(all) =~= row(parts) + last);
    } else {
        row_push(parts.skip(1), last);
        assert(all.skip(1) =~= parts.skip(1).push(last));
        assert(row(all) =~= row(parts) + last);
    }
}

proof fn comma_row_push(parts: Seq<SrcSpec>, last: SrcSpec)
    requires
        parts.len() > 0,
    ensures
        comma_row(parts.push(last)) == comma_row(parts) + seq![TokenSpec::Text(seq![','])] + last,
    decreases parts.len(),
{
    let all = parts.push(last);
    if parts.len() == 1 {
        assert(all.skip(1) =~= seq![last]);
        assert(comma_row(all.skip(1)) == last);
    } else {
        comma_row_push(parts.skip(1), last);
        assert(all.skip(1) =~= parts.skip(1).push(last));
        assert(comma_row(all) =~= comma_row(parts) + seq![TokenSpec::Text(seq![','])] + last);
    }
}

/// Parts that are repeated stand in a row.
pub proof fn repeated_is_row(n: nat, f: spec_fn(int) -> SrcSpec, parts: Seq<SrcSpec>)
    requires
        parts.len() == n,
        forall|i: int| 0 <= i < n ==> #[trigger] parts[i] == f(i),
    ensures
        repeated(n, f) == row(parts),
    decreases n,
{
    if n > 0 {
        repeated_is_row((n - 1) as nat, f, parts.drop_last());
        row_push(parts.drop_last(), parts.last());
        assert(parts.drop_last().push(parts.last()) =~= parts);
    }
}

/// Parts of a list stand in a row, with commas between them.
pub proof fn listed_is_row(n: nat, f: spec_fn(int) -> SrcSpec, parts: Seq<SrcSpec>)
    requires
        parts.len() == n,
        forall|i: int| 0 <= i < n ==> #[trigger] parts[i] == f(i),
    ensures
        listed(n, f) == comma_row(parts),
    decreases n,
{
    if n > 1 {
        reveal_strlit(",");
        assert(","@ =~= seq![',']);
        listed_is_row((n - 1) as nat, f, parts.drop_last());
        comma_row_push(parts.drop_last(), parts.last());
        assert(parts.drop_last().push(parts.last()) =~= parts);
    }
}

/// An instruction says where code goes on, which function is called and where it returns to, and
/// which kinds of nodes are saved or noted.
pub proof fn instr_is_written(instr: InstrSpec)
    ensures
        instr_src(instr) == match instr {
            InstrSpec::Spawn(label) => fill("rt . spawn ( $ ) ;"@, seq![label_src(label)]),
            InstrSpec::Call(callee, label) => fill(
                "rt . call ( $ , $ ) ;"@,
                seq![label_src(callee), label_src(label)],
            ),
            InstrSpec::Ret => fill("rt . ret ( ) ;"@, Seq::empty()),
            InstrSpec::Save(kind) => fill("rt . save ( $ ) ;"@, seq![kind_src(kind)]),
            InstrSpec::TakeSaved => fill("let saved = rt . take_saved ( ) ;"@, Seq::empty()),
            InstrSpec::AddChoice(kind, choice) => fill(
                "rt . forest_add_choice ( $ , $ ) ;"@,
                seq![kind_src(kind), kind_src(choice)],
            ),
            InstrSpec::AddSplit(kind) => fill(
                "rt . forest_add_split ( $ , saved , ) ;"@,
                seq![kind_src(kind)],
            ),
            InstrSpec::If(condition, body) => fill(
                "if $ { $ }"@,
                seq![condition, row(Seq::new(body.len(), |i: int| instr_src(body[i])))],
            ),
        },
{
    if let InstrSpec::If(_, body) = instr {
        code_is_written(body);
    }
}

/// Code is its instructions, one after the other.
pub proof fn code_is_written(code: InstrsSpec)
    ensures
        code_src(code) == row(Seq::new(code.len(), |i: int| instr_src(code[i]))),
        instrs_src(code, code.len()) == row(Seq::new(code.len(), |i: int| instr_src(code[i]))),
{
    first_instrs(code, code.len());
}

proof fn first_instrs(code: InstrsSpec, n: nat)
    requires
        n <= code.len(),
    ensures
        instrs_src(code, n) == row(Seq::new(n, |i: int| instr_src(code[i]))),
    decreases n,
{
    let parts = Seq::new(n, |i: int| instr_src(code[i]));
    if n > 0 {
        first_instrs(code, (n - 1) as nat);
        let before = Seq::new((n - 1) as nat, |i: int| instr_src(code[i]));
        row_push(before, instr_src(code[n - 1]));
        assert(before.push(instr_src(code[n - 1])) =~= parts);
    }
}

/// A label and a kind of nodes are written as a variant of their type.
pub proof fn names_are_written(label: LabelSpec, kind: KindSpec)
    ensures
        label_src(label) == fill("_C :: $"@, seq![word(flat_name(label))]),
        kind_src(kind) == fill("_P :: $"@, seq![word(kind_name(kind))]),
        kind matches KindSpec::NamedRule(name) ==> kind_name(kind) == name,
        kind matches KindSpec::Anon(i) ==> kind_name(kind) == numbered_name(i),
        label.1.len() == 0 ==> flat_name(label) == label.0,
{
}

/// Input is parsed from the code of the rule on, as nodes of the kind of the rule.
pub proof fn parse_starts_at_rule(name: Seq<char>, slice_ty: SrcSpec)
    ensures
        parse_with_src(name, slice_ty) == fill(
            "impl < I > $ < '_ , '_ , I >
    where I : gll :: input :: Input < Slice = $ > ,
{
    pub fn parse ( input : I )
        -> Result <
            OwnedHandle < I , Self > ,
            gll :: parser :: ParseError < I :: SourceInfoPoint > ,
        >
    {
        gll :: runtime :: Runtime :: parse (
            _G ,
            input ,
            $ ,
            $ ,
        ) . map ( | forest_and_node | OwnedHandle {
            forest_and_node ,
            _marker : PhantomData ,
        } )
    }
}"@,
            seq![
                word(name),
                slice_ty,
                label_src((name, Seq::empty())),
                kind_src(KindSpec::NamedRule(name)),
            ],
        ) + fill("impl < I : gll :: input :: Input >
    OwnedHandle < I , $ < '_ , '_ , I > >
{
    pub fn with < R > (
        & self ,
        f : impl for < 'a , 'i > FnOnce ( Handle < 'a , 'i , I , $ < 'a , 'i , I > > ) -> R
    ) -> R {
        self . forest_and_node . unpack_ref ( | _ , forest_and_node | {
            let ( ref forest , node ) = * forest_and_node ;
            f ( Handle {
                node ,
                forest ,
                _marker : PhantomData ,
            } )
        } )
    }
}"@, seq![word(name), word(name)]),
{
}

/// A rule without variants is declared as a structure that has each of its fields, in order, with
/// the type of its handle.
pub proof fn structure_has_fields(name: Seq<char>, rule: NamedSpec)
    ensures
        rule_ty_src(name, rule, None) == fill(
            "# [ allow ( non_camel_case_types ) ]
pub struct $ < 'a , 'i , I : gll :: input :: Input > {
    $
    $
}"@,
            seq![
                word(name),
                comma_row(
                    Seq::new(
                        rule.fields.len(),
                        |i: int|
                            fill(
                                "pub $ : $"@,
                                seq![
                                    word(rule.fields[i].0),
                                    handle_ty(rule.rule, rule.fields[i].1),
                                ],
                            ),
                    ),
                ),
                if rule.fields.len() == 0 {
                    fill("_marker : PhantomData < ( & 'a ( ) , & 'i ( ) , I ) > ,"@, Seq::empty())
                } else {
                    Seq::empty()
                },
            ],
        ),
{
    let parts = Seq::new(
        rule.fields.len(),
        |i: int|
            fill(
                "pub $ : $"@,
                seq![word(rule.fields[i].0), handle_ty(rule.rule, rule.fields[i].1)],
            ),
    );
    listed_is_row(
        rule.fields.len(),
        field_decl("pub $ : $"@, rule.rule, rule.fields),
        parts,
    );
}

/// How a variant is declared: by each of its fields, in order, or by a handle of what it is.
pub open spec fn declared_variant(v: VariantSpec) -> SrcSpec {
    if v.fields.len() > 0 {
        fill(
            "$ { $ }"@,
            seq![
                word(v.name),
                comma_row(
                    Seq::new(
                        v.fields.len(),
                        |i: int|
                            fill(
                                "$ : $"@,
                                seq![word(v.fields[i].0), handle_ty(v.rule, v.fields[i].1)],
                            ),
                    ),
                ),
            ],
        )
    } else {
        fill(
            "$ ( Handle < 'a , 'i , I , $ > )"@,
            seq![word(v.name), type_at(v.rule, Seq::empty())->Some_0],
        )
    }
}

/// A rule with variants is declared as an enumeration that has each of them, in order.
pub proof fn enumeration_has_variants(name: Seq<char>, rule: NamedSpec, vs: Seq<VariantSpec>)
    ensures
        rule_ty_src(name, rule, Some(vs)) == fill(
            "# [ allow ( non_camel_case_types ) ]
pub enum $ < 'a , 'i , I : gll :: input :: Input > {
    $
}"@,
            seq![
                word(name),
                comma_row(Seq::new(vs.len(), |i: int| declared_variant(vs[i]))),
            ],
        ),
{
    let parts = Seq::new(vs.len(), |i: int| declared_variant(vs[i]));
    let f = variant_decls(vs);
    assert forall|i: int| 0 <= i < vs.len() implies #[trigger] parts[i] == f(i) by {
        let v = vs[i];
        if v.fields.len() > 0 {
            let inner = Seq::new(
                v.fields.len(),
                |i: int|
                    fill("$ : $"@, seq![word(v.fields[i].0), handle_ty(v.rule, v.fields[i].1)]),
            );
            listed_is_row(v.fields.len(), field_decl("$ : $"@, v.rule, v.fields), inner);
        }
    }
    listed_is_row(vs.len(), f, parts);
}

/// How a value is made of the nodes of a rule: each of its fields, in order, from its handle.
pub open spec fn made_fields(rule: RuleSpec, fs: Seq<(Seq<char>, Seq<Seq<usize>>)>) -> SrcSpec {
    comma_row(
        Seq::new(
            fs.len(),
            |i: int| fill("$ : $"@, seq![word(fs[i].0), handle_expr(rule, fs[i].1)]),
        ),
    )
}

/// How a value of a variant is made.
pub open spec fn made_variant(name: Seq<char>, v: VariantSpec) -> SrcSpec {
    if v.fields.len() > 0 {
        fill("$ :: $ { $ }"@, seq![word(name), word(v.name), made_fields(v.rule, v.fields)])
    } else {
        fill(
            "$ :: $ ( Handle {
    node : _node ,
    forest ,
    _marker : PhantomData ,
} )"@,
            seq![word(name), word(v.name)],
        )
    }
}

proof fn fields_are_made(rule: RuleSpec, fs: Seq<(Seq<char>, Seq<Seq<usize>>)>)
    ensures
        listed(fs.len(), field_expr(rule, fs)) == made_fields(rule, fs),
{
    let parts = Seq::new(
        fs.len(),
        |i: int| fill("$ : $"@, seq![word(fs[i].0), handle_expr(rule, fs[i].1)]),
    );
    listed_is_row(fs.len(), field_expr(rule, fs), parts);
}

/// A value of the type for a rule is made of all of its fields, from the nodes that the shape of
/// the rule leads to; there is such a function for each variant.
pub proof fn values_are_made(
    name: Seq<char>,
    rule: NamedSpec,
    vs: Seq<VariantSpec>,
    table: Seq<RuleSpec>,
)
    ensures
        from_forest_src(name, rule, None, table) == fill(
            "impl < 'a , 'i , I : gll :: input :: Input >
    $ < 'a , 'i , I >
{
    $
}"@,
            seq![
                word(name),
                fill(
                    "fn from_forest (
    forest : & 'a gll :: forest :: ParseForest < 'i , _G , I > ,
    _node : ParseNode < 'i , _P > ,
    _r : traverse ! ( typeof ( ParseNode < 'i , _P > ) $ ) ,
) -> Self {
    $ {
        $
        $
    }
}"@,
                    seq![
                        traverse_shape(rule.rule, false, table),
                        word(name),
                        made_fields(rule.rule, rule.fields),
                        if rule.fields.len() == 0 {
                            fill("_marker : { let _ = forest ; PhantomData } ,"@, Seq::empty())
                        } else {
                            Seq::empty()
                        },
                    ],
                ),
            ],
        ),
        from_forest_src(name, rule, Some(vs), table) == fill(
            "impl < 'a , 'i , I : gll :: input :: Input >
    $ < 'a , 'i , I >
{
    $
}"@,
            seq![
                word(name),
                row(
                    Seq::new(
                        vs.len(),
                        |i: int|
                            fill(
                                "# [ allow ( non_snake_case ) ]
fn $ (
    forest : & 'a gll :: forest :: ParseForest < 'i , _G , I > ,
    _node : ParseNode < 'i , _P > ,
    _r : traverse ! ( typeof ( ParseNode < 'i , _P > ) $ ) ,
) -> Self {
    $
}"@,
                                seq![
                                    word(vs[i].name + "_from_forest"@),
                                    traverse_shape(vs[i].rule, false, table),
                                    made_variant(name, vs[i]),
                                ],
                            ),
                    ),
                ),
            ],
        ),
{
    fields_are_made(rule.rule, rule.fields);
    let parts = Seq::new(
        vs.len(),
        |i: int|
            fill(
                "# [ allow ( non_snake_case ) ]
fn $ (
    forest : & 'a gll :: forest :: ParseForest < 'i , _G , I > ,
    _node : ParseNode < 'i , _P > ,
    _r : traverse ! ( typeof ( ParseNode < 'i , _P > ) $ ) ,
) -> Self {
    $
}"@,
                seq![
                    word(vs[i].name + "_from_forest"@),
                    traverse_shape(vs[i].rule, false, table),
                    made_variant(name, vs[i]),
                ],
            ),
    );
    let f = variant_fns(name, vs, table);
    assert forall|i: int| 0 <= i < vs.len() implies #[trigger] parts[i] == f(i) by {
        fields_are_made(vs[i].rule, vs[i].fields);
    }
    repeated_is_row(vs.len(), f, parts);
}

/// Parts for the numbers below `n`, each with the name of its number once or twice.
pub open spec fn by_number(template: Seq<char>, n: nat) -> Seq<SrcSpec> {
    Seq::new(
        n,
        |i: int|
            fill(template, seq![word(numbered_name(i as nat)), word(numbered_name(i as nat))]),
    )
}

/// A handle gives the one value that it stands for, or all of them. For each variant, nodes of the
/// kind of its case are gone through by the shape of its case, and handed to the function that
/// makes a value of it.
pub proof fn handles_give_values(
    name: Seq<char>,
    rule: NamedSpec,
    vs: Seq<VariantSpec>,
    table: Seq<RuleSpec>,
)
    ensures
        one_and_all_src(name, rule, None, table) == fill(
            "impl < 'a , 'i , I >
    Handle < 'a , 'i , I , $ < 'a , 'i , I > >
    where I : gll :: input :: Input ,
{
    pub fn one ( self ) -> Result < $ < 'a , 'i , I > , Ambiguity < Self > > {
        ( || Ok ( {
            let forest = self . forest ;
            let node = forest . unpack_alias ( self . node ) ;
            $
        } ) ) ( ) . map_err ( | gll :: forest :: MoreThanOne | Ambiguity ( self ) )
    }

    pub fn all ( self ) -> impl Iterator < Item = $ < 'a , 'i , I > > {
        let forest = self . forest ;
        let node = forest . unpack_alias ( self . node ) ;
        $
    }
}"@,
            seq![
                word(name),
                word(name),
                fill(
                    "let r = traverse ! ( one ( forest , node ) $ ) ;
$ :: from_forest ( self . forest , node , r )"@,
                    seq![traverse_shape(rule.rule, false, table), word(name)],
                ),
                word(name),
                fill(
                    "traverse ! ( all ( forest ) $ )
    . apply ( node )
    . map ( move | r | $ :: from_forest ( self . forest , node , r ) )"@,
                    seq![traverse_shape(rule.rule, false, table), word(name)],
                ),
            ],
        ),
        one_and_all_src(name, rule, Some(vs), table) == fill(
            "impl < 'a , 'i , I >
    Handle < 'a , 'i , I , $ < 'a , 'i , I > >
    where I : gll :: input :: Input ,
{
    pub fn one ( self ) -> Result < $ < 'a , 'i , I > , Ambiguity < Self > > {
        ( || Ok ( {
            let forest = self . forest ;
            let node = forest . unpack_alias ( self . node ) ;
            $
        } ) ) ( ) . map_err ( | gll :: forest :: MoreThanOne | Ambiguity ( self ) )
    }

    pub fn all ( self ) -> impl Iterator < Item = $ < 'a , 'i , I > > {
        let forest = self . forest ;
        let node = forest . unpack_alias ( self . node ) ;
        $
    }
}"@,
            seq![
                word(name),
                word(name),
                fill(
                    "let node = forest . one_choice ( node ) ? ;
match node . kind {
    $
    _ => unreachable ! ( )
}"@,
                    seq![
                        row(
                            Seq::new(
                                vs.len(),
                                |i: int|
                                    fill(
                                        "$ => {
    let r = traverse ! ( one ( forest , node ) $ ) ;
    $ :: $ ( self . forest , node , r )
}"@,
                                        seq![
                                            kind_src(kind_of(vs[i].rule, table)),
                                            traverse_shape(vs[i].rule, false, table),
                                            word(name),
                                            word(vs[i].name + "_from_forest"@),
                                        ],
                                    ),
                            ),
                        ),
                    ],
                ),
                word(name),
                fill(
                    "# [ derive ( Clone ) ]
enum Iter < $ > {
    $
}
impl < T $ > Iterator for Iter < $ >
{
    type Item = T ;
    fn next ( & mut self ) -> Option < T > {
        match self {
            $
        }
    }
}"@,
                    seq![
                        comma_row(by_number("$"@, vs.len())),
                        comma_row(by_number("$ ( $ )"@, vs.len())),
                        row(by_number(", $ : Iterator < Item = T >"@, vs.len())),
                        comma_row(by_number("$"@, vs.len())),
                        comma_row(by_number("Iter :: $ ( iter ) => iter . next ( )"@, vs.len())),
                    ],
                ) + fill(
                    "forest
    . all_choices ( node )
    . flat_map ( move | node | {
    match node . kind {
        $
        _ => unreachable ! ( ) ,
    }
} )"@,
                    seq![
                        row(
                            Seq::new(
                                vs.len(),
                                |i: int|
                                    fill(
                                        "$ => Iter :: $ (
    traverse ! ( all ( forest ) $ )
        . apply ( node )
        . map ( move | r | $ :: $ ( self . forest , node , r ) )
) ,"@,
                                        seq![
                                            kind_src(kind_of(vs[i].rule, table)),
                                            word(numbered_name(i as nat)),
                                            traverse_shape(vs[i].rule, false, table),
                                            word(name),
                                            word(vs[i].name + "_from_forest"@),
                                        ],
                                    ),
                            ),
                        ),
                    ],
                ),
            ],
        ),
{
    let n = vs.len();
    let one = Seq::new(
        vs.len(),
        |i: int|
            fill(
                "$ => {
    let r = traverse ! ( one ( forest , node ) $ ) ;
    $ :: $ ( self . forest , node , r )
}"@,
                seq![
                    kind_src(kind_of(vs[i].rule, table)),
                    traverse_shape(vs[i].rule, false, table),
                    word(name),
                    word(vs[i].name + "_from_forest"@),
                ],
            ),
    );
    let all = Seq::new(
        vs.len(),
        |i: int|
            fill(
                "$ => Iter :: $ (
    traverse ! ( all ( forest ) $ )
        . apply ( node )
        . map ( move | r | $ :: $ ( self . forest , node , r ) )
) ,"@,
                seq![
                    kind_src(kind_of(vs[i].rule, table)),
                    word(numbered_name(i as nat)),
                    traverse_shape(vs[i].rule, false, table),
                    word(name),
                    word(vs[i].name + "_from_forest"@),
                ],
            ),
    );
    repeated_is_row(n, one_arms(name, vs, table), one);
    repeated_is_row(n, all_arms(name, vs, table), all);
    listed_is_row(n, numbered_part("$"@), by_number("$"@, n));
    listed_is_row(n, numbered_part("$ ( $ )"@), by_number("$ ( $ )"@, n));
    repeated_is_row(
        n,
        numbered_part(", $ : Iterator < Item = T >"@),
        by_number(", $ : Iterator < Item = T >"@, n),
    );
    listed_is_row(
        n,
        numbered_part("Iter :: $ ( iter ) => iter . next ( )"@),
        by_number("Iter :: $ ( iter ) => iter . next ( )"@, n),
    );
}

/// How the fields of a structure are printed: each by its name, in order, where it is there.
pub open spec fn printed_fields(rule: RuleSpec, fs: Seq<(Seq<char>, Seq<Seq<usize>>)>) -> SrcSpec {
    row(
        Seq::new(
            fs.len(),
            |i: int|
                if pathset_refutable(rule, fs[i].1) {
                    fill(
                        "if let Some ( ref field ) = self . $ {
    d . field ( $ , field ) ;
}"@,
                        seq![word(fs[i].0), string(fs[i].0)],
                    )
                } else {
                    fill(
                        "d . field ( $ , & self . $ ) ;"@,
                        seq![string(fs[i].0), word(fs[i].0)],
                    )
                },
        ),
    )
}

/// How a variant is taken apart and printed.
pub open spec fn printed_variant(name: Seq<char>, v: VariantSpec) -> SrcSpec {
    if v.fields.len() > 0 {
        fill(
            "$ => $"@,
            seq![
                fill(
                    "$ :: $ { $ }"@,
                    seq![
                        word(name),
                        word(v.name),
                        row(
                            Seq::new(
                                v.fields.len(),
                                |i: int|
                                    fill(
                                        "$ : $ ,"@,
                                        seq![word(v.fields[i].0), word("f_"@ + v.fields[i].0)],
                                    ),
                            ),
                        ),
                    ],
                ),
                fill(
                    "{
    let mut d = f . debug_struct ( $ ) ;
    $
    d . finish ( )
}"@,
                    seq![
                        string(name + "::"@ + v.name),
                        row(
                            Seq::new(
                                v.fields.len(),
                                |i: int|
                                    if pathset_refutable(v.rule, v.fields[i].1) {
                                        fill(
                                            "if let Some ( field ) = $ {
    d . field ( $ , field ) ;
}"@,
                                            seq![
                                                word("f_"@ + v.fields[i].0),
                                                string(v.fields[i].0),
                                            ],
                                        )
                                    } else {
                                        fill(
                                            "d . field ( $ , $ ) ;"@,
                                            seq![
                                                string(v.fields[i].0),
                                                word("f_"@ + v.fields[i].0),
                                            ],
                                        )
                                    },
                            ),
                        ),
                    ],
                ),
            ],
        )
    } else {
        fill(
            "$ => $"@,
            seq![
                fill("$ :: $ ( x )"@, seq![word(name), word(v.name)]),
                fill(
                    "f . debug_tuple ( $ ) . field ( x ) . finish ( ) ,"@,
                    seq![string(name + "::"@ + v.name)],
                ),
            ],
        )
    }
}

/// A value of the type for a rule is printed with the name of the rule, that of its variant, and
/// all of its fields that are there, by their names.
pub proof fn values_are_printed(name: Seq<char>, rule: NamedSpec, vs: Seq<VariantSpec>)
    ensures
        rule_debug_src(name, rule, None) == fill(
            "impl < I : gll :: input :: Input > fmt :: Debug
    for $ < '_ , '_ , I >
{
    fn fmt ( & self , f : & mut fmt :: Formatter < '_ > ) -> fmt :: Result {
        $
    }
}"@,
            seq![
                word(name),
                fill(
                    "let mut d = f . debug_struct ( $ ) ;
$
d . finish ( )"@,
                    seq![string(name), printed_fields(rule.rule, rule.fields)],
                ),
            ],
        ),
        rule_debug_src(name, rule, Some(vs)) == fill(
            "impl < I : gll :: input :: Input > fmt :: Debug
    for $ < '_ , '_ , I >
{
    fn fmt ( & self , f : & mut fmt :: Formatter < '_ > ) -> fmt :: Result {
        $
    }
}"@,
            seq![
                word(name),
                fill(
                    "match self {
    $
}"@,
                    seq![row(Seq::new(vs.len(), |i: int| printed_variant(name, vs[i])))],
                ),
            ],
        ),
{
    let fs = rule.fields;
    let printed = Seq::new(
        fs.len(),
        |i: int|
            if pathset_refutable(rule.rule, fs[i].1) {
                fill(
                    "if let Some ( ref field ) = self . $ {
    d . field ( $ , field ) ;
}"@,
                    seq![word(fs[i].0), string(fs[i].0)],
                )
            } else {
                fill(
                    "d . field ( $ , & self . $ ) ;"@,
                    seq![string(fs[i].0), word(fs[i].0)],
                )
            },
    );
    repeated_is_row(fs.len(), field_debugs(rule.rule, fs), printed);
    let parts = Seq::new(vs.len(), |i: int| printed_variant(name, vs[i]));
    let f = debug_arms(name, vs);
    assert forall|i: int| 0 <= i < vs.len() implies #[trigger] parts[i] == f(i) by {
        variant_is_printed(name, vs[i]);
    }
    repeated_is_row(vs.len(), f, parts);
}

proof fn variant_is_printed(name: Seq<char>, v: VariantSpec)
    ensures
        fill("$ => $"@, seq![variant_pat(name, v), variant_debug(name, v)]) == printed_variant(
            name,
            v,
        ),
{
    let pats = Seq::new(
        v.fields.len(),
        |i: int| fill("$ : $ ,"@, seq![word(v.fields[i].0), word("f_"@ + v.fields[i].0)]),
    );
    repeated_is_row(v.fields.len(), field_pats(v.fields), pats);
    let bodies = Seq::new(
        v.fields.len(),
        |i: int|
            if pathset_refutable(v.rule, v.fields[i].1) {
                fill(
                    "if let Some ( field ) = $ {
    d . field ( $ , field ) ;
}"@,
                    seq![word("f_"@ + v.fields[i].0), string(v.fields[i].0)],
                )
            } else {
                fill(
                    "d . field ( $ , $ ) ;"@,
                    seq![string(v.fields[i].0), word("f_"@ + v.fields[i].0)],
                )
            },
    );
    repeated_is_row(v.fields.len(), var_debugs(v.rule, v.fields), bodies);
}

/// A handle of the type for a rule is printed with all values that it stands for, where the rule
/// has fields.
pub proof fn handles_are_printed(name: Seq<char>, has_fields: bool)
    ensures
        handle_debug_src(name, has_fields) == fill(
            "impl < 'a , 'i , I : gll :: input :: Input > fmt :: Debug
    for Handle < 'a , 'i , I , $ < 'a , 'i , I > >
{
    fn fmt ( & self , f : & mut fmt :: Formatter < '_ > ) -> fmt :: Result {
        write ! ( f , $ , self . source_info ( ) ) ? ;
        $
        Ok ( ( ) )
    }
}

impl < I : gll :: input :: Input > fmt :: Debug for OwnedHandle < I , $ < '_ , '_ , I > > {
    fn fmt ( & self , f : & mut fmt :: Formatter < '_ > ) -> fmt :: Result {
        self . with ( | handle | handle . fmt ( f ) )
    }
}"@,
            seq![
                word(name),
                string("{:?}"@),
                if has_fields {
                    fill(
                        "write ! ( f , $ ) ? ;
let mut first = true ;
for x in self . all ( ) {
    if ! first {
        write ! ( f , $ ) ? ;
    }
    first = false ;
    fmt :: Debug :: fmt ( & x , f ) ? ;
}"@,
                        seq![string(" => "@), string(" | "@)],
                    )
                } else {
                    Seq::empty()
                },
                word(name),
            ],
        ),
{
}

/// A shape is written by its name and the kinds of the nodes that it speaks of, the first of two
/// first.
pub proof fn shape_is_written(shape: ShapeSpec)
    ensures
        shape_src(shape) == fill(
            "ParseNodeShape :: $"@,
            seq![
                match shape {
                    ParseNodeShape::Opaque => fill("Opaque"@, Seq::empty()),
                    ParseNodeShape::Alias(inner) => fill("Alias ( $ )"@, seq![kind_src(inner)]),
                    ParseNodeShape::Choice => fill("Choice"@, Seq::empty()),
                    ParseNodeShape::Opt(inner) => fill("Opt ( $ )"@, seq![kind_src(inner)]),
                    ParseNodeShape::Split(left, right) => fill(
                        "Split ( $ , $ )"@,
                        seq![kind_src(left), kind_src(right)],
                    ),
                },
            ],
        ),
{
}

/// Each kind of nodes is declared once, in order, with its description, and gives its shape and its
/// description.
pub proof fn nodes_are_declared(nodes: Seq<NodeSpec>)
    ensures
        nodes_src(nodes) == fill(
            "pub struct _G ;

# [ derive ( Copy , Clone , PartialEq , Eq , PartialOrd , Ord , Debug , Hash ) ]
pub enum _P {
    $
}

impl gll :: forest :: GrammarReflector for _G {
    type ParseNodeKind = _P ;

    fn parse_node_shape ( & self , kind : _P ) -> ParseNodeShape < _P > {
        match kind {
            $
        }
    }
    fn parse_node_desc ( & self , kind : _P ) -> String {
        let s = match kind {
            $
        } ;
        s . to_string ( )
    }
}"@,
            seq![
                row(
                    Seq::new(
                        nodes.len(),
                        |i: int|
                            fill(
                                "# [ doc = $ ]
$ ,"@,
                                seq![
                                    string("`"@ + escape_backticks(nodes[i].desc) + "`"@),
                                    word(kind_name(nodes[i].kind)),
                                ],
                            ),
                    ),
                ),
                comma_row(
                    Seq::new(
                        nodes.len(),
                        |i: int|
                            fill(
                                "$ => $"@,
                                seq![kind_src(nodes[i].kind), shape_src(nodes[i].shape)],
                            ),
                    ),
                ),
                comma_row(
                    Seq::new(
                        nodes.len(),
                        |i: int|
                            fill("$ => $"@, seq![kind_src(nodes[i].kind), string(nodes[i].desc)]),
                    ),
                ),
            ],
        ),
{
    let n = nodes.len();
    repeated_is_row(
        n,
        node_decls(nodes),
        Seq::new(
            n,
            |i: int|
                fill(
                    "# [ doc = $ ]
$ ,"@,
                    seq![
                        string("`"@ + escape_backticks(nodes[i].desc) + "`"@),
                        word(kind_name(nodes[i].kind)),
                    ],
                ),
        ),
    );
    listed_is_row(
        n,
        node_shapes(nodes),
        Seq::new(
            n,
            |i: int| fill("$ => $"@, seq![kind_src(nodes[i].kind), shape_src(nodes[i].shape)]),
        ),
    );
    listed_is_row(
        n,
        node_descs(nodes),
        Seq::new(
            n,
            |i: int| fill("$ => $"@, seq![kind_src(nodes[i].kind), string(nodes[i].desc)]),
        ),
    );
}

/// Each label is declared once, in order, and gives the function that it belongs to.
pub proof fn labels_are_declared(
    names: Seq<Seq<char>>,
    labels: Seq<(LabelSpec, Seq<LabelSpec>)>,
)
    ensures
        labels_src(names, labels) == fill(
            "# [ allow ( non_camel_case_types ) ]
# [ derive ( Copy , Clone , PartialEq , Eq , PartialOrd , Ord , Debug , Hash ) ]
enum _C {
    $
}
impl gll :: runtime :: CodeLabel for _C {
    type GrammarReflector = _G ;
    type ParseNodeKind = _P ;

    fn enclosing_fn ( self ) -> Self {
        match self {
            $
        }
    }
}"@,
            seq![
                comma_row(
                    Seq::new(
                        all_labels(names, labels).len(),
                        |i: int| word(flat_name(all_labels(names, labels)[i])),
                    ),
                ),
                comma_row(
                    Seq::new(
                        all_labels(names, labels).len(),
                        |i: int|
                            fill(
                                "$ => $"@,
                                seq![
                                    label_src(all_labels(names, labels)[i]),
                                    label_src(
                                        enclosing_fn(all_labels(names, labels)[i], labels),
                                    ),
                                ],
                            ),
                    ),
                ),
            ],
        ),
{
    let all = all_labels(names, labels);
    listed_is_row(
        all.len(),
        label_decls(all),
        Seq::new(all.len(), |i: int| word(flat_name(all_labels(names, labels)[i]))),
    );
    listed_is_row(
        all.len(),
        label_fns(all, labels),
        Seq::new(
            all.len(),
            |i: int|
                fill(
                    "$ => $"@,
                    seq![
                        label_src(all_labels(names, labels)[i]),
                        label_src(enclosing_fn(all_labels(names, labels)[i], labels)),
                    ],
                ),
        ),
    );
}

/// The parser for a grammar has, after the code that is to stand before it, for each rule all that
/// belongs to the rule, in order; the code of all rules, each piece under its label; and the kinds
/// of nodes, how any of them is printed, and the labels.
pub proof fn parser_has_all(g: GrammarSpec, slice_ty: SrcSpec, preamble: SrcSpec)
    ensures
        ({
            let table = grammar_table(g);
            let codes = rules_code(g, g.len(), table);
            let nodes = all_nodes(g, table);
            parser_src(g, slice_ty, preamble) == preamble + row(
                Seq::new(
                    g.len(),
                    |i: int|
                        declare_src(g[i].0, g[i].1, table) + parse_with_src(g[i].0, slice_ty),
                ),
            ) + fill(
                "impl < I > gll :: runtime :: CodeStep < I > for _C
    where I : gll :: input :: Input < Slice = $ > ,
{
    fn step < 'i > ( self , mut rt : gll :: runtime :: Runtime < '_ , 'i , _C , I > ) {
        match self {
            $
        }
    }
}"@,
                seq![
                    slice_ty,
                    row(
                        Seq::new(
                            codes.arms.len(),
                            |i: int|
                                fill(
                                    "$ => { $ }"@,
                                    seq![label_src(codes.arms[i].0), code_src(codes.arms[i].1)],
                                ),
                        ),
                    ),
                ],
            ) + nodes_src(nodes) + any_debug_src(nodes) + labels_src(names_of(g), codes.labels)
        }),
{
    let table = grammar_table(g);
    let codes = rules_code(g, g.len(), table);
    repeated_is_row(
        g.len(),
        rule_decls(g, slice_ty, table),
        Seq::new(
            g.len(),
            |i: int| declare_src(g[i].0, g[i].1, table) + parse_with_src(g[i].0, slice_ty),
        ),
    );
    repeated_is_row(
        codes.arms.len(),
        arm_srcs(codes.arms),
        Seq::new(
            codes.arms.len(),
            |i: int|
                fill("$ => { $ }"@, seq![label_src(codes.arms[i].0), code_src(codes.arms[i].1)]),
        ),
    );
}

/// What belongs to a rule: its type, how values of it are printed, and how they are read from a
/// parse forest, all of them for the same variants.
pub proof fn rule_has_all(name: Seq<char>, rule: NamedSpec, table: Seq<RuleSpec>)
    ensures
        declare_src(name, rule, table) == rule_ty_src(name, rule, variants_in(rule))
            + rule_debug_src(name, rule, variants_in(rule)) + handle_debug_src(
            name,
            rule.fields.len() > 0,
        ) + from_forest_src(name, rule, variants_in(rule), table) + one_and_all_src(
            name,
            rule,
            variants_in(rule),
            table,
        ),
{
    assert(declare_src(name, rule, table) =~= rule_ty_src(name, rule, variants_in(rule))
        + rule_debug_src(name, rule, variants_in(rule)) + handle_debug_src(
        name,
        rule.fields.len() > 0,
    ) + from_forest_src(name, rule, variants_in(rule), table) + one_and_all_src(
        name,
        rule,
        variants_in(rule),
        table,
    ));
}

/// All kinds of nodes are those of the rules with names, which stand for the nodes of their rules
/// where these have fields, and those of the rules without a name, by their numbers and shapes.
pub proof fn nodes_of_grammar(g: GrammarSpec, table: Seq<RuleSpec>, i: int)
    requires
        0 <= i < all_nodes(g, table).len(),
    ensures
        all_nodes(g, table).len() == g.len() + table.len(),
        i < g.len() ==> {
            let node = all_nodes(g, table)[i];
            &&& node.kind == KindSpec::NamedRule(g[i].0)
            &&& node.desc == g[i].0
            &&& g[i].1.fields.len() > 0 ==> node.shape == ParseNodeShape::Alias(
                kind_of(g[i].1.rule, table),
            )
            &&& g[i].1.fields.len() == 0 ==> node.shape is Opaque
            &&& node.ty == Some(fill("$ < '_ , '_ , _ >"@, seq![word(g[i].0)]))
        },
        i >= g.len() ==> {
            let node = all_nodes(g, table)[i];
            let k = i - g.len();
            &&& node.kind == KindSpec::Anon(k as nat)
            &&& node.desc == desc_of(table[k])
            &&& node.shape == shape_of(table[k], table)
        },
{
    if i < g.len() {
        assert(all_nodes(g, table)[i] == named_node(g[i].0, g[i].1, table));
    } else {
        assert(all_nodes(g, table)[i] == anon_node(i - g.len(), table));
    }
}

/// The shape of a rule by which its nodes are gone through: a pair for two rules in a row; the
/// cases, each with its number and its kind of nodes; an option in brackets; else a mark. What is
/// inside of a choice or an option may be missing.
pub proof fn shape_is_gone_through(rule: RuleSpec, refutable: bool, table: Seq<RuleSpec>)
    ensures
        traverse_shape(rule, refutable, table) == match rule {
            RuleSpec::Concat(left, right) => fill(
                "( $ , $ )"@,
                seq![
                    traverse_shape(*left, refutable, table),
                    traverse_shape(*right, refutable, table),
                ],
            ),
            RuleSpec::Or(cases) => fill(
                "{ $ }"@,
                seq![
                    row(
                        Seq::new(
                            cases.len(),
                            |i: int|
                                fill(
                                    "$ $ : $ => $ ,"@,
                                    seq![
                                        seq![TokenSpec::Int(i as nat)],
                                        word(numbered_name(i as nat)),
                                        kind_src(kind_of(cases[i], table)),
                                        traverse_shape(cases[i], true, table),
                                    ],
                                ),
                        ),
                    ),
                ],
            ),
            RuleSpec::Opt(inner) => fill("[ $ ]"@, seq![traverse_shape(*inner, true, table)]),
            _ => if refutable {
                fill("?"@, Seq::empty())
            } else {
                fill("_"@, Seq::empty())
            },
        },
{
    if let RuleSpec::Or(cases) = rule {
        cases_are_gone_through(cases, cases.len(), table);
    }
}

proof fn cases_are_gone_through(cases: Seq<RuleSpec>, n: nat, table: Seq<RuleSpec>)
    requires
        n <= cases.len(),
    ensures
        traverse_cases(cases, n, table) == row(
            Seq::new(
                n,
                |i: int|
                    fill(
                        "$ $ : $ => $ ,"@,
                        seq![
                            seq![TokenSpec::Int(i as nat)],
                            word(numbered_name(i as nat)),
                            kind_src(kind_of(cases[i], table)),
                            traverse_shape(cases[i], true, table),
                        ],
                    ),
            ),
        ),
    decreases n,
{
    let f = |i: int|
        fill(
            "$ $ : $ => $ ,"@,
            seq![
                seq![TokenSpec::Int(i as nat)],
                word(numbered_name(i as nat)),
                kind_src(kind_of(cases[i], table)),
                traverse_shape(cases[i], true, table),
            ],
        );
    let parts = Seq::new(n, f);
    if n > 0 {
        cases_are_gone_through(cases, (n - 1) as nat, table);
        let before = Seq::new((n - 1) as nat, f);
        row_push(before, f(n - 1));
        assert(before.push(f(n - 1)) =~= parts);
    }
}

/// A pattern is eaten where the input on the left matches it.
pub proof fn pattern_is_eaten(pat: PatSpec, table: Option<Seq<RuleSpec>>)
    ensures
        parse_step(RuleSpec::Eat(pat), table) == ThunkSpec::Check(
            fill("let Some ( mut rt ) = rt . input_consume_left ( & ( $ ) )"@, seq![pat.matcher]),
        ),
{
}

/// The kind of the nodes of a rule stands for the rule: it names the rule that is called, or is the
/// number of the rule in the table. A rule that is seen comes last in the table, unless it is a
/// call or in the table already.
pub proof fn kind_stands_for_rule(rule: RuleSpec, table: Seq<RuleSpec>)
    ensures
        rule matches RuleSpec::Call(name) ==> kind_of(rule, table) == KindSpec::NamedRule(name),
        !(rule is Call) && table.contains(rule) ==> {
            &&& kind_of(rule, table) is Anon
            &&& kind_of(rule, table)->Anon_0 < table.len()
            &&& table[kind_of(rule, table)->Anon_0 as int] == rule
        },
        rule is Call || (exists|i: int| 0 <= i < table.len() && #[trigger] table[i] == rule)
            ==> see(table, rule) == table,
        !(rule is Call) && (forall|i: int| 0 <= i < table.len() ==> #[trigger] table[i] != rule)
            ==> see(table, rule) == table + seq![rule],
{
}

/// The labels of the rules come first, in order, and after them those inside of each function.
pub proof fn labels_in_order(names: Seq<Seq<char>>, labels: Seq<(LabelSpec, Seq<LabelSpec>)>)
    ensures
        all_labels(names, labels) == Seq::new(
            names.len(),
            |i: int| (names[i], Seq::<nat>::empty()),
        ) + row(Seq::new(labels.len(), |i: int| labels[i].1)),
{
    inner_in_order(labels, labels.len());
    assert(all_labels(names, labels).take(names.len() as int) =~= Seq::new(
        names.len(),
        |i: int| (names[i], Seq::<nat>::empty()),
    ));
}

proof fn inner_in_order(labels: Seq<(LabelSpec, Seq<LabelSpec>)>, n: nat)
    requires
        n <= labels.len(),
    ensures
        inner_labels(labels, n) == row(Seq::new(n, |i: int| labels[i].1)),
    decreases n,
{
    let parts = Seq::new(n, |i: int| labels[i].1);
    if n > 0 {
        inner_in_order(labels, (n - 1) as nat);
        let before = Seq::new((n - 1) as nat, |i: int| labels[i].1);
        row_push(before, labels[n - 1].1);
        assert(before.push(labels[n - 1].1) =~= parts);
    }
}

} // verus!
