//! The types that generated code declares for rules, and how they are parsed.
use crate::fields::{
    fields_fit, paths_lead_to_cases, rule_fits, variants_in, variants_of, FieldsSpec, NamedSpec,
    RuleWithNamedFields, Variant, VariantSpec,
};
use crate::label::{label_src, rule_label, CodeLabel};
use crate::maps::{fields, fields_get, fields_len, items};
use crate::node::{kind_src, KindSpec, ParseNodeKind};
use crate::pattern::{PatKey, RustInputPat};
use crate::rule::{Rule, RuleSpec};
use crate::tokens::{fill, listed, quote0, quote1, quote2, quote3, quote4, word, Src, SrcSpec};
use crate::types::{pathset_fits, pathset_refutable, pathset_type, type_at, typed_path_fits};
use indexmap::{IndexMap, IndexSet};
use vstd::prelude::*;

verus! {

pub const PARSE_FN: &'static str = "impl < I > $ < '_ , '_ , I >
    where I : gll :: input :: Input < Slice = $ > ,
{
    pub fn parse ( input : I )
        -> Result <
            OwnedHandle < I , Self > ,
            gll :: parser :: ParseError < I :: SourceInfoPoint > ,
        >
    {
        gll :: runtime :: Runtime :: parse (
            _G ,
            input ,
            $ ,
            $ ,
        ) . map ( | forest_and_node | OwnedHandle {
            forest_and_node ,
            _marker : PhantomData ,
        } )
    }
}";

pub const WITH_FN: &'static str = "impl < I : gll :: input :: Input >
    OwnedHandle < I , $ < '_ , '_ , I > >
{
    pub fn with < R > (
        & self ,
        f : impl for < 'a , 'i > FnOnce ( Handle < 'a , 'i , I , $ < 'a , 'i , I > > ) -> R
    ) -> R {
        self . forest_and_node . unpack_ref ( | _ , forest_and_node | {
            let ( ref forest , node ) = * forest_and_node ;
            f ( Handle {
                node ,
                forest ,
                _marker : PhantomData ,
            } )
        } )
    }
}";

/// The functions that parse input by the rule of that name, and give access to the result.
pub open spec fn parse_with_src(name: Seq<char>, slice_ty: SrcSpec) -> SrcSpec {
    fill(
        PARSE_FN@,
        seq![
            word(name),
            slice_ty,
            label_src(rule_label(name)),
            kind_src(KindSpec::NamedRule(name)),
        ],
    ) + fill(WITH_FN@, seq![word(name), word(name)])
}

/// The functions that parse input by the rule of that name, and give access to the result.
pub fn impl_parse_with<Pat: RustInputPat>(name: &str) -> (r: Src)
    ensures
        r@ == parse_with_src(name@, Pat::slice_ty_spec()),
{
    let code_label = CodeLabel::NamedRule(name.to_owned());
    let parse_node_kind = ParseNodeKind::NamedRule(name.to_owned());
    let parse = quote4(
        PARSE_FN,
        Src::ident(name),
        Pat::rust_slice_ty(),
        code_label.to_src(),
        parse_node_kind.to_src(),
    );
    parse.plus(quote2(WITH_FN, Src::ident(name), Src::ident(name)))
}

pub const HANDLE_TY: &'static str = "Handle < 'a , 'i , I , $ >";

pub const OPTION_TY: &'static str = "Option < $ >";

pub const FIELD: &'static str = "$ : $";

pub const PUB_FIELD: &'static str = "pub $ : $";

pub const TUPLE_VARIANT: &'static str = "$ ( Handle < 'a , 'i , I , $ > )";

pub const STRUCT_VARIANT: &'static str = "$ { $ }";

pub const ENUM: &'static str = "# [ allow ( non_camel_case_types ) ]
pub enum $ < 'a , 'i , I : gll :: input :: Input > {
    $
}";

pub const MARKER_TY: &'static str = "_marker : PhantomData < ( & 'a ( ) , & 'i ( ) , I ) > ,";

pub const STRUCT: &'static str = "# [ allow ( non_camel_case_types ) ]
pub struct $ < 'a , 'i , I : gll :: input :: Input > {
    $
    $
}";

/// The type of the handle of a field.
pub open spec fn handle_ty(rule: RuleSpec, paths: Seq<Seq<usize>>) -> SrcSpec {
    let handle = fill(HANDLE_TY@, seq![pathset_type(rule, paths)->Some_0]);
    if pathset_refutable(rule, paths) {
        fill(OPTION_TY@, seq![handle])
    } else {
        handle
    }
}

/// Whether all fields have a type.
pub open spec fn fields_typed(rule: RuleSpec, fs: FieldsSpec) -> bool {
    forall|i: int| 0 <= i < fs.len() ==> pathset_type(rule, (#[trigger] fs[i]).1) is Some
}

/// Whether a variant has a type: its fields, or what it consists of, where it has no fields.
pub open spec fn variant_typed(v: VariantSpec) -> bool {
    if v.fields.len() == 0 {
        type_at(v.rule, Seq::empty()) is Some
    } else {
        fields_typed(v.rule, v.fields)
    }
}

/// Whether all variants have a type.
pub open spec fn variants_typed(vs: Seq<VariantSpec>) -> bool {
    forall|i: int| 0 <= i < vs.len() ==> variant_typed(#[trigger] vs[i])
}

/// Whether all variants have a type, or all fields, where there are no variants.
pub open spec fn rule_typed(rule: NamedSpec, variants: Option<Seq<VariantSpec>>) -> bool {
    match variants {
        Some(vs) => variants_typed(vs),
        None => fields_typed(rule.rule, rule.fields),
    }
}

/// The declaration of each field.
pub open spec fn field_decl(template: Seq<char>, rule: RuleSpec, fs: FieldsSpec) -> spec_fn(
    int,
) -> SrcSpec {
    |i: int| fill(template, seq![word(fs[i].0), handle_ty(rule, fs[i].1)])
}

/// The declaration of a variant.
pub open spec fn variant_decl(v: VariantSpec) -> SrcSpec {
    if v.fields.len() == 0 {
        fill(TUPLE_VARIANT@, seq![word(v.name), type_at(v.rule, Seq::empty())->Some_0])
    } else {
        fill(
            STRUCT_VARIANT@,
            seq![word(v.name), listed(v.fields.len(), field_decl(FIELD@, v.rule, v.fields))],
        )
    }
}

/// The declaration of each variant.
pub open spec fn variant_decls(vs: Seq<VariantSpec>) -> spec_fn(int) -> SrcSpec {
    |i: int| variant_decl(vs[i])
}

/// Some code where a rule has no fields, else none.
pub open spec fn if_no_fields(fs: FieldsSpec, template: Seq<char>) -> SrcSpec {
    if fs.len() == 0 {
        fill(template, Seq::empty())
    } else {
        Seq::empty()
    }
}

/// The type for a rule: an enumeration of its variants, or a structure of its fields.
pub open spec fn rule_ty_src(
    name: Seq<char>,
    rule: NamedSpec,
    variants: Option<Seq<VariantSpec>>,
) -> SrcSpec {
    match variants {
        Some(vs) => fill(ENUM@, seq![word(name), listed(vs.len(), variant_decls(vs))]),
        None => fill(
            STRUCT@,
            seq![
                word(name),
                listed(rule.fields.len(), field_decl(PUB_FIELD@, rule.rule, rule.fields)),
                if_no_fields(rule.fields, MARKER_TY@),
            ],
        ),
    }
}

/// It can be told of fields that have types if they may be missing.
pub proof fn typed_fits(rule: NamedSpec, variants: Option<Seq<VariantSpec>>)
    requires
        rule_typed(rule, variants),
    ensures
        rule_fits(rule, variants),
{
    match variants {
        Some(vs) => {
            assert forall|i: int| 0 <= i < vs.len() implies fields_fit(
                (#[trigger] vs[i]).rule,
                vs[i].fields,
            ) by {
                assert(variant_typed(vs[i]));
                assert forall|k: int| 0 <= k < vs[i].fields.len() implies pathset_fits(
                    vs[i].rule,
                    (#[trigger] vs[i].fields[k]).1,
                ) by {
                    typed_path_fits(vs[i].rule, vs[i].fields[k].1[0]);
                }
            }
        },
        None => {
            assert forall|k: int| 0 <= k < rule.fields.len() implies pathset_fits(
                rule.rule,
                (#[trigger] rule.fields[k]).1,
            ) by {
                typed_path_fits(rule.rule, rule.fields[k].1[0]);
            }
        },
    }
}

/// What the variants of a rule are, where it has any.
pub open spec fn variants_model<Pat: RustInputPat + PatKey>(
    variants: Option<&Vec<Variant<Pat>>>,
) -> Option<Seq<VariantSpec>> {
    match variants {
        Some(vs) => Some(variants_of(vs@)),
        None => None,
    }
}

fn field_handle_ty<Pat: RustInputPat + PatKey>(
    rule: &Rule<Pat>,
    paths: &IndexSet<Vec<usize>>,
) -> (r: Src)
    requires
        pathset_type(rule.model(), items(*paths)) is Some,
    ensures
        r@ == handle_ty(rule.model(), items(*paths)),
{
    let handle = quote1(HANDLE_TY, rule.field_pathset_type(paths));
    proof {
        typed_path_fits(rule.model(), items(*paths)[0]);
    }
    if rule.field_pathset_is_refutable(paths) {
        quote1(OPTION_TY, handle)
    } else {
        handle
    }
}

fn field_decls<Pat: RustInputPat + PatKey>(
    template: &str,
    rule: &Rule<Pat>,
    fs: &IndexMap<String, IndexSet<Vec<usize>>>,
) -> (r: Src)
    requires
        fields_typed(rule.model(), fields(*fs)),
    ensures
        r@ == listed(fields(*fs).len(), field_decl(template@, rule.model(), fields(*fs))),
{
    let mut r = Src::new();
    let n = fields_len(fs);
    let mut i: usize = 0;
    while i < n
        invariant
            i <= n,
            n == fields(*fs).len(),
            fields_typed(rule.model(), fields(*fs)),
            r@ == listed(i as nat, field_decl(template@, rule.model(), fields(*fs))),
        decreases n - i,
    {
        let (name, paths) = fields_get(fs, i).unwrap();
        assert(fields(*fs)[i as int].1 == items(*paths));
        let decl = quote2(template, Src::ident(name.as_str()), field_handle_ty(rule, paths));
        r.list(decl, i == 0);
        i += 1;
    }
    r
}

fn declare_variant<Pat: RustInputPat + PatKey>(v: &Variant<Pat>) -> (r: Src)
    requires
        variant_typed(v.model()),
    ensures
        r@ == variant_decl(v.model()),
{
    let ident = Src::ident(v.name.as_str());
    if fields_len(&v.fields) == 0 {
        let path: Vec<usize> = Vec::new();
        assert(path@ =~= Seq::empty());
        quote2(TUPLE_VARIANT, ident, v.rule.field_type(path.as_slice()))
    } else {
        quote2(STRUCT_VARIANT, ident, field_decls(FIELD, &v.rule, &v.fields))
    }
}

/// The type for a rule: an enumeration of its variants, or a structure of its fields.
pub fn declare_rule_ty<Pat: RustInputPat + PatKey>(
    name: &str,
    rule: &RuleWithNamedFields<Pat>,
    variants: Option<&Vec<Variant<Pat>>>,
) -> (r: Src)
    requires
        rule_typed(rule.model(), variants_model(variants)),
    ensures
        r@ == rule_ty_src(name@, rule.model(), variants_model(variants)),
{
    match variants {
        Some(vs) => {
            let ghost all = variants_of(vs@);
            let mut decls = Src::new();
            let mut i: usize = 0;
            while i < vs.len()
                invariant
                    i <= vs.len(),
                    all == variants_of(vs@),
                    variants_typed(all),
                    decls@ == listed(i as nat, variant_decls(all)),
                decreases vs.len() - i,
            {
                assert(variant_typed(all[i as int]));
                decls.list(declare_variant(&vs[i]), i == 0);
                i += 1;
            }
            quote2(ENUM, Src::ident(name), decls)
        },
        None => {
            let marker_field = if fields_len(&rule.fields) == 0 {
                quote0(MARKER_TY)
            } else {
                Src::new()
            };
            quote3(
                STRUCT,
                Src::ident(name),
                field_decls(PUB_FIELD, &rule.rule, &rule.fields),
                marker_field,
            )
        },
    }
}

/// Whether the type for a rule can be declared.
pub open spec fn can_declare(rule: NamedSpec) -> bool {
    paths_lead_to_cases(rule) && rule_typed(rule, variants_in(rule))
}

fn has_fields_typed<Pat: RustInputPat + PatKey>(
    rule: &Rule<Pat>,
    fs: &IndexMap<String, IndexSet<Vec<usize>>>,
) -> (r: bool)
    ensures
        r == fields_typed(rule.model(), fields(*fs)),
{
    let n = fields_len(fs);
    let mut i: usize = 0;
    while i < n
        invariant
            i <= n,
            n == fields(*fs).len(),
            forall|k: int|
                0 <= k < i ==> pathset_type(rule.model(), (#[trigger] fields(*fs)[k]).1) is Some,
        decreases n - i,
    {
        let (_, paths) = fields_get(fs, i).unwrap();
        assert(fields(*fs)[i as int].1 == items(*paths));
        if rule.try_field_pathset_type(paths).is_none() {
            return false;
        }
        i += 1;
    }
    true
}

impl<Pat: RustInputPat + PatKey> Variant<Pat> {
    /// Whether the variant has a type.
    pub fn is_typed(&self) -> (r: bool)
        ensures
            r == variant_typed(self.model()),
    {
        if fields_len(&self.fields) == 0 {
            let path: Vec<usize> = Vec::new();
            assert(path@ =~= Seq::empty());
            self.rule.try_field_type(path.as_slice()).is_some()
        } else {
            has_fields_typed(&self.rule, &self.fields)
        }
    }
}

impl<Pat: RustInputPat + PatKey> RuleWithNamedFields<Pat> {
    /// Whether the type for the rule can be declared.
    pub fn is_declarable(&self) -> (r: bool)
        ensures
            r == can_declare(self.model()),
    {
        let variants = match self.try_find_variant_fields() {
            Ok(variants) => variants,
            Err(_) => {
                return false;
            },
        };
        match variants {
            Some(vs) => {
                let ghost all = variants_of(vs@);
                let mut i: usize = 0;
                while i < vs.len()
                    invariant
                        i <= vs.len(),
                        all == variants_of(vs@),
                        variants_in(self.model()) == Some(all),
                        forall|k: int| 0 <= k < i ==> variant_typed(#[trigger] all[k]),
                    decreases vs.len() - i,
                {
                    assert(all[i as int] == vs@[i as int].model());
                    if !vs[i].is_typed() {
                        assert(!variants_typed(all));
                        return false;
                    }
                    i += 1;
                }
                true
            },
            None => has_fields_typed(&self.rule, &self.fields),
        }
    }
}

} // verus!
