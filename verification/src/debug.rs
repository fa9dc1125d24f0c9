//! How generated code prints the types for rules.
use crate::declare::variants_model;
use crate::fields::{
    fields_fit, rule_fits, variants_fit, variants_of, FieldsSpec, NamedSpec, RuleWithNamedFields,
    Variant, VariantSpec,
};
use crate::maps::{fields, fields_get, fields_len, items};
use crate::pattern::{PatKey, RustInputPat};
use crate::rule::{Rule, RuleSpec};
use crate::text::joined;
use crate::tokens::{fill, quote1, quote2, quote3, quote4, repeated, string, word, Src, SrcSpec};
use crate::types::pathset_refutable;
use indexmap::{IndexMap, IndexSet};
use vstd::prelude::*;

verus! {

pub const TUPLE_PAT: &'static str = "$ :: $ ( x )";

pub const FIELD_PAT: &'static str = "$ : $ ,";

pub const STRUCT_PAT: &'static str = "$ :: $ { $ }";

pub const TUPLE_DEBUG: &'static str = "f . debug_tuple ( $ ) . field ( x ) . finish ( ) ,";

pub const MAYBE_VAR_DEBUG: &'static str = "if let Some ( field ) = $ {
    d . field ( $ , field ) ;
}";

pub const VAR_DEBUG: &'static str = "d . field ( $ , $ ) ;";

pub const STRUCT_DEBUG: &'static str = "{
    let mut d = f . debug_struct ( $ ) ;
    $
    d . finish ( )
}";

pub const DEBUG_ARM: &'static str = "$ => $";

pub const DEBUG_VARIANTS: &'static str = "match self {
    $
}";

pub const MAYBE_FIELD_DEBUG: &'static str = "if let Some ( ref field ) = self . $ {
    d . field ( $ , field ) ;
}";

pub const FIELD_DEBUG: &'static str = "d . field ( $ , & self . $ ) ;";

pub const DEBUG_FIELDS: &'static str = "let mut d = f . debug_struct ( $ ) ;
$
d . finish ( )";

pub const DEBUG_IMPL: &'static str = "impl < I : gll :: input :: Input > fmt :: Debug
    for $ < '_ , '_ , I >
{
    fn fmt ( & self , f : & mut fmt :: Formatter < '_ > ) -> fmt :: Result {
        $
    }
}";

/// The name of the variable that a field is bound to.
pub open spec fn var_name(field: Seq<char>) -> Seq<char> {
    "f_"@ + field
}

/// The name of a variant with that of its rule before it.
pub open spec fn variant_path(name: Seq<char>, v: VariantSpec) -> Seq<char> {
    name + "::"@ + v.name
}

/// The pattern for each field.
pub open spec fn field_pats(fs: FieldsSpec) -> spec_fn(int) -> SrcSpec {
    |i: int| fill(FIELD_PAT@, seq![word(fs[i].0), word(var_name(fs[i].0))])
}

/// The pattern for a variant.
pub open spec fn variant_pat(name: Seq<char>, v: VariantSpec) -> SrcSpec {
    if v.fields.len() == 0 {
        fill(TUPLE_PAT@, seq![word(name), word(v.name)])
    } else {
        fill(
            STRUCT_PAT@,
            seq![word(name), word(v.name), repeated(v.fields.len(), field_pats(v.fields))],
        )
    }
}

/// The code that prints each field of a variant.
pub open spec fn var_debugs(rule: RuleSpec, fs: FieldsSpec) -> spec_fn(int) -> SrcSpec {
    |i: int|
        if pathset_refutable(rule, fs[i].1) {
            fill(MAYBE_VAR_DEBUG@, seq![word(var_name(fs[i].0)), string(fs[i].0)])
        } else {
            fill(VAR_DEBUG@, seq![string(fs[i].0), word(var_name(fs[i].0))])
        }
}

/// The code that prints a variant.
pub open spec fn variant_debug(name: Seq<char>, v: VariantSpec) -> SrcSpec {
    if v.fields.len() == 0 {
        fill(TUPLE_DEBUG@, seq![string(variant_path(name, v))])
    } else {
        fill(
            STRUCT_DEBUG@,
            seq![
                string(variant_path(name, v)),
                repeated(v.fields.len(), var_debugs(v.rule, v.fields)),
            ],
        )
    }
}

/// The code that prints each variant.
pub open spec fn debug_arms(name: Seq<char>, vs: Seq<VariantSpec>) -> spec_fn(int) -> SrcSpec {
    |i: int| fill(DEBUG_ARM@, seq![variant_pat(name, vs[i]), variant_debug(name, vs[i])])
}

/// The code that prints each field of a structure.
pub open spec fn field_debugs(rule: RuleSpec, fs: FieldsSpec) -> spec_fn(int) -> SrcSpec {
    |i: int|
        if pathset_refutable(rule, fs[i].1) {
            fill(MAYBE_FIELD_DEBUG@, seq![word(fs[i].0), string(fs[i].0)])
        } else {
            fill(FIELD_DEBUG@, seq![string(fs[i].0), word(fs[i].0)])
        }
}

/// The code that prints the type for a rule.
pub open spec fn rule_debug_src(
    name: Seq<char>,
    rule: NamedSpec,
    variants: Option<Seq<VariantSpec>>,
) -> SrcSpec {
    let body = match variants {
        Some(vs) => fill(DEBUG_VARIANTS@, seq![repeated(vs.len(), debug_arms(name, vs))]),
        None => fill(
            DEBUG_FIELDS@,
            seq![
                string(name),
                repeated(rule.fields.len(), field_debugs(rule.rule, rule.fields)),
            ],
        ),
    };
    fill(DEBUG_IMPL@, seq![word(name), body])
}

fn fields_pat(fs: &IndexMap<String, IndexSet<Vec<usize>>>) -> (r: Src)
    ensures
        r@ == repeated(fields(*fs).len(), field_pats(fields(*fs))),
{
    let mut r = Src::new();
    let n = fields_len(fs);
    let mut i: usize = 0;
    while i < n
        invariant
            i <= n,
            n == fields(*fs).len(),
            r@ == repeated(i as nat, field_pats(fields(*fs))),
        decreases n - i,
    {
        let (name, _) = fields_get(fs, i).unwrap();
        let var = joined("f_", name.as_str());
        r.append(quote2(FIELD_PAT, Src::ident(name.as_str()), Src::ident(var.as_str())));
        i += 1;
    }
    r
}

fn vars_debug<Pat: RustInputPat + PatKey>(
    rule: &Rule<Pat>,
    fs: &IndexMap<String, IndexSet<Vec<usize>>>,
) -> (r: Src)
    requires
        fields_fit(rule.model(), fields(*fs)),
    ensures
        r@ == repeated(fields(*fs).len(), var_debugs(rule.model(), fields(*fs))),
{
    let mut r = Src::new();
    let n = fields_len(fs);
    let mut i: usize = 0;
    while i < n
        invariant
            i <= n,
            n == fields(*fs).len(),
            fields_fit(rule.model(), fields(*fs)),
            r@ == repeated(i as nat, var_debugs(rule.model(), fields(*fs))),
        decreases n - i,
    {
        let (name, paths) = fields_get(fs, i).unwrap();
        assert(fields(*fs)[i as int] == (name@, items(*paths)));
        let var = joined("f_", name.as_str());
        let var_ident = Src::ident(var.as_str());
        if rule.field_pathset_is_refutable(paths) {
            r.append(quote2(MAYBE_VAR_DEBUG, var_ident, Src::string(name.as_str())));
        } else {
            r.append(quote2(VAR_DEBUG, Src::string(name.as_str()), var_ident));
        }
        i += 1;
    }
    r
}

fn fields_debug<Pat: RustInputPat + PatKey>(
    rule: &Rule<Pat>,
    fs: &IndexMap<String, IndexSet<Vec<usize>>>,
) -> (r: Src)
    requires
        fields_fit(rule.model(), fields(*fs)),
    ensures
        r@ == repeated(fields(*fs).len(), field_debugs(rule.model(), fields(*fs))),
{
    let mut r = Src::new();
    let n = fields_len(fs);
    let mut i: usize = 0;
    while i < n
        invariant
            i <= n,
            n == fields(*fs).len(),
            fields_fit(rule.model(), fields(*fs)),
            r@ == repeated(i as nat, field_debugs(rule.model(), fields(*fs))),
        decreases n - i,
    {
        let (name, paths) = fields_get(fs, i).unwrap();
        assert(fields(*fs)[i as int] == (name@, items(*paths)));
        let ident = Src::ident(name.as_str());
        if rule.field_pathset_is_refutable(paths) {
            r.append(quote2(MAYBE_FIELD_DEBUG, ident, Src::string(name.as_str())));
        } else {
            r.append(quote2(FIELD_DEBUG, Src::string(name.as_str()), ident));
        }
        i += 1;
    }
    r
}

/// The code that prints the type for a rule.
pub fn rule_debug_impl<Pat: RustInputPat + PatKey>(
    name: &str,
    rule: &RuleWithNamedFields<Pat>,
    variants: Option<&Vec<Variant<Pat>>>,
) -> (r: Src)
    requires
        rule_fits(rule.model(), variants_model(variants)),
    ensures
        r@ == rule_debug_src(name@, rule.model(), variants_model(variants)),
{
    let body = match variants {
        Some(vs) => {
            let ghost all = variants_of(vs@);
            let mut arms = Src::new();
            let mut i: usize = 0;
            while i < vs.len()
                invariant
                    i <= vs.len(),
                    all == variants_of(vs@),
                    variants_fit(all),
                    arms@ == repeated(i as nat, debug_arms(name@, all)),
                decreases vs.len() - i,
            {
                let v = &vs[i];
                assert(all[i as int] == v.model());
                let ident = Src::ident(name);
                let variant_ident = Src::ident(v.name.as_str());
                let mut path = joined(name, "::");
                path.append(v.name.as_str());
                let path = Src::string(path.as_str());
                if fields_len(&v.fields) == 0 {
                    let pat = quote2(TUPLE_PAT, ident, variant_ident);
                    arms.append(quote2(DEBUG_ARM, pat, quote1(TUPLE_DEBUG, path)));
                } else {
                    let pat = quote3(STRUCT_PAT, ident, variant_ident, fields_pat(&v.fields));
                    let body = quote2(STRUCT_DEBUG, path, vars_debug(&v.rule, &v.fields));
                    arms.append(quote2(DEBUG_ARM, pat, body));
                }
                i += 1;
            }
            quote1(DEBUG_VARIANTS, arms)
        },
        None => {
            quote2(DEBUG_FIELDS, Src::string(name), fields_debug(&rule.rule, &rule.fields))
        },
    };
    quote2(DEBUG_IMPL, Src::ident(name), body)
}

pub const DEBUG_VALUES: &'static str = "write ! ( f , $ ) ? ;
let mut first = true ;
for x in self . all ( ) {
    if ! first {
        write ! ( f , $ ) ? ;
    }
    first = false ;
    fmt :: Debug :: fmt ( & x , f ) ? ;
}";

pub const HANDLE_DEBUG: &'static str = "impl < 'a , 'i , I : gll :: input :: Input > fmt :: Debug
    for Handle < 'a , 'i , I , $ < 'a , 'i , I > >
{
    fn fmt ( & self , f : & mut fmt :: Formatter < '_ > ) -> fmt :: Result {
        write ! ( f , $ , self . source_info ( ) ) ? ;
        $
        Ok ( ( ) )
    }
}

impl < I : gll :: input :: Input > fmt :: Debug for OwnedHandle < I , $ < '_ , '_ , I > > {
    fn fmt ( & self , f : & mut fmt :: Formatter < '_ > ) -> fmt :: Result {
        self . with ( | handle | handle . fmt ( f ) )
    }
}";

pub const ARROW: &'static str = " => ";

pub const BAR: &'static str = " | ";

pub const DEBUG_FORMAT: &'static str = "{:?}";

/// The code that prints handles of the type for a rule.
pub open spec fn handle_debug_src(name: Seq<char>, has_fields: bool) -> SrcSpec {
    let body = if has_fields {
        fill(DEBUG_VALUES@, seq![string(ARROW@), string(BAR@)])
    } else {
        Seq::empty()
    };
    fill(HANDLE_DEBUG@, seq![word(name), string(DEBUG_FORMAT@), body, word(name)])
}

/// The code that prints handles of the type for a rule.
pub fn rule_handle_debug_impl(name: &str, has_fields: bool) -> (r: Src)
    ensures
        r@ == handle_debug_src(name@, has_fields),
{
    let body = if !has_fields {
        Src::new()
    } else {
        quote2(DEBUG_VALUES, Src::string(ARROW), Src::string(BAR))
    };
    quote4(HANDLE_DEBUG, Src::ident(name), Src::string(DEBUG_FORMAT), body, Src::ident(name))
}

/// The code that prints the type for a rule and its handles.
pub open spec fn debug_impls_src(
    name: Seq<char>,
    rule: NamedSpec,
    variants: Option<Seq<VariantSpec>>,
) -> SrcSpec {
    rule_debug_src(name, rule, variants) + handle_debug_src(name, rule.fields.len() > 0)
}

/// The code that prints the type for a rule and its handles.
pub fn rule_debug_impls<Pat: RustInputPat + PatKey>(
    name: &str,
    rule: &RuleWithNamedFields<Pat>,
    variants: Option<&Vec<Variant<Pat>>>,
) -> (r: Src)
    requires
        rule_fits(rule.model(), variants_model(variants)),
    ensures
        r@ == debug_impls_src(name@, rule.model(), variants_model(variants)),
{
    let has_fields = fields_len(&rule.fields) > 0;
    rule_debug_impl(name, rule, variants).plus(rule_handle_debug_impl(name, has_fields))
}

} // verus!
