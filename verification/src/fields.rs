//! Rules with named fields: where a field is in a rule, and which type it has.
use crate::maps::{
    fields, fields_entry, fields_get, fields_len, fields_new, has_key, items, put, set_get,
    set_insert, set_len, value,
};
use crate::pattern::{PatKey, RustInputPat};
use crate::rule::{models, Rule, RuleSpec};
use crate::text::is_no_text;
use crate::types::pathset_fits;
use indexmap::{IndexMap, IndexSet};
use std::rc::Rc;
use vstd::prelude::*;

verus! {

/// The fields of a rule, each with the paths that lead to it.
pub type FieldsSpec = Seq<(Seq<char>, Seq<Seq<usize>>)>;

/// A rule in which some places have names.
pub struct RuleWithNamedFields<Pat> {
    pub rule: Rc<Rule<Pat>>,
    pub fields: IndexMap<String, IndexSet<Vec<usize>>>,
}

/// What a [`RuleWithNamedFields`] is.
pub struct NamedSpec {
    pub rule: RuleSpec,
    pub fields: FieldsSpec,
}

/// A case of a rule that has a name, and the fields in it.
pub struct Variant<Pat> {
    pub rule: Rc<Rule<Pat>>,
    pub name: String,
    pub fields: IndexMap<String, IndexSet<Vec<usize>>>,
}

/// What a [`Variant`] is.
pub struct VariantSpec {
    pub rule: RuleSpec,
    pub name: Seq<char>,
    pub fields: FieldsSpec,
}

impl<Pat: RustInputPat + PatKey> RuleWithNamedFields<Pat> {
    /// What the rule is.
    pub open spec fn model(&self) -> NamedSpec {
        NamedSpec { rule: self.rule.model(), fields: fields(self.fields) }
    }
}

impl<Pat: RustInputPat + PatKey> Variant<Pat> {
    /// What the variant is.
    pub open spec fn model(&self) -> VariantSpec {
        VariantSpec { rule: self.rule.model(), name: self.name@, fields: fields(self.fields) }
    }
}

/// What some variants are.
pub open spec fn variants_of<Pat: RustInputPat + PatKey>(vs: Seq<Variant<Pat>>) -> Seq<
    VariantSpec,
> {
    vs.map_values(|v: Variant<Pat>| v.model())
}

/// A path leads to a case that there is not.
#[derive(Debug)]
pub struct NoSuchCase;

/// A name with each of some paths.
pub open spec fn pairs(name: Seq<char>, paths: Seq<Seq<usize>>) -> Seq<(Seq<char>, Seq<usize>)> {
    paths.map_values(|path: Seq<usize>| (name, path))
}

/// The paths of the first `n` fields, each with the name of its field.
pub open spec fn flat(fs: FieldsSpec, n: nat) -> Seq<(Seq<char>, Seq<usize>)>
    decreases n,
{
    if n == 0 {
        Seq::empty()
    } else {
        flat(fs, (n - 1) as nat) + pairs(fs[n - 1].0, fs[n - 1].1)
    }
}

/// The name that some paths give to a case: that of the last that leads to the case itself.
pub open spec fn name_in(all: Seq<(Seq<char>, Seq<usize>)>, case: int) -> Seq<char>
    decreases all.len(),
{
    if all.len() == 0 {
        Seq::empty()
    } else if all.last().1.len() == 1 && all.last().1[0] == case {
        all.last().0
    } else {
        name_in(all.drop_last(), case)
    }
}

/// Whether a path rules out that each case has a name: it leads to the whole rule, or to a case
/// that has a name from an earlier path.
pub open spec fn rules_out(all: Seq<(Seq<char>, Seq<usize>)>, k: int) -> bool {
    let path = all[k].1;
    path.len() == 0 || (path.len() == 1 && name_in(all.take(k), path[0] as int).len() > 0)
}

/// The rests of the paths that go through a case.
pub open spec fn rests(paths: Seq<Seq<usize>>, case: int) -> Seq<Seq<usize>>
    decreases paths.len(),
{
    if paths.len() == 0 {
        Seq::empty()
    } else {
        let before = rests(paths.drop_last(), case);
        let path = paths.last();
        if path.len() > 1 && path[0] == case {
            before.push(path.skip(1))
        } else {
            before
        }
    }
}

/// The fields inside of a case, out of the first `n` fields.
pub open spec fn case_fields(fs: FieldsSpec, case: int, n: nat) -> FieldsSpec
    decreases n,
{
    if n == 0 {
        Seq::empty()
    } else {
        let before = case_fields(fs, case, (n - 1) as nat);
        let inside = rests(fs[n - 1].1, case);
        if inside.len() > 0 {
            before.push((fs[n - 1].0, inside))
        } else {
            before
        }
    }
}

/// Whether the cases of a rule can be looked at: no path leads to a case that there is not, unless
/// a path before it rules out that each case has a name.
pub open spec fn paths_lead_to_cases(rule: NamedSpec) -> bool {
    let all = flat(rule.fields, rule.fields.len());
    match rule.rule {
        RuleSpec::Or(cases) => forall|k: int|
            0 <= k < all.len() && (#[trigger] all[k]).1.len() > 0 && all[k].1[0] >= cases.len()
                ==> exists|j: int| 0 <= j < k && #[trigger] rules_out(all, j),
        _ => true,
    }
}

/// The cases of a rule as variants, where it has fields, and these name each case once.
pub open spec fn variants_in(rule: NamedSpec) -> Option<Seq<VariantSpec>> {
    let all = flat(rule.fields, rule.fields.len());
    match rule.rule {
        RuleSpec::Or(cases) => if rule.fields.len() == 0 || (exists|k: int|
            0 <= k < all.len() && #[trigger] rules_out(all, k)) || (exists|v: int|
            0 <= v < cases.len() && (#[trigger] name_in(all, v)).len() == 0) {
            None
        } else {
            Some(
                Seq::new(
                    cases.len(),
                    |v: int|
                        VariantSpec {
                            rule: cases[v],
                            name: name_in(all, v),
                            fields: case_fields(rule.fields, v, rule.fields.len()),
                        },
                ),
            )
        },
        _ => None,
    }
}

/// Whether it can be told of each field if it may be missing.
pub open spec fn fields_fit(rule: RuleSpec, fs: FieldsSpec) -> bool {
    forall|i: int| 0 <= i < fs.len() ==> pathset_fits(rule, (#[trigger] fs[i]).1)
}

/// Whether it can be told of each field of the variants if it may be missing.
pub open spec fn variants_fit(vs: Seq<VariantSpec>) -> bool {
    forall|i: int| 0 <= i < vs.len() ==> fields_fit((#[trigger] vs[i]).rule, vs[i].fields)
}

/// Whether it can be told of each field of the variants, or of the rule where there are none, if
/// it may be missing.
pub open spec fn rule_fits(rule: NamedSpec, variants: Option<Seq<VariantSpec>>) -> bool {
    match variants {
        Some(vs) => variants_fit(vs),
        None => fields_fit(rule.rule, rule.fields),
    }
}

/// The paths of the first fields come first.
pub proof fn flat_starts(fs: FieldsSpec, i: nat, n: nat)
    requires
        i <= n,
    ensures
        flat(fs, i).len() <= flat(fs, n).len(),
        flat(fs, i) == flat(fs, n).take(flat(fs, i).len() as int),
    decreases n,
{
    if i < n {
        flat_starts(fs, i, (n - 1) as nat);
        let before = flat(fs, (n - 1) as nat);
        assert(flat(fs, n).take(flat(fs, i).len() as int) =~= before.take(
            flat(fs, i).len() as int,
        ));
    } else {
        assert(flat(fs, n).take(flat(fs, n).len() as int) =~= flat(fs, n));
    }
}

/// The paths of the first fields, and the first of those of the field after them.
pub open spec fn flat_upto(fs: FieldsSpec, i: nat, j: nat) -> Seq<(Seq<char>, Seq<usize>)> {
    flat(fs, i) + pairs(fs[i as int].0, fs[i as int].1.take(j as int))
}

/// The first paths are the first of all paths.
proof fn flat_upto_starts(fs: FieldsSpec, i: nat, j: nat)
    requires
        i < fs.len(),
        j <= fs[i as int].1.len(),
    ensures
        ({
            let all = flat(fs, fs.len());
            let upto = flat_upto(fs, i, j);
            &&& upto.len() <= all.len()
            &&& upto == all.take(upto.len() as int)
            &&& j < fs[i as int].1.len() ==> upto.len() < all.len() && all[upto.len() as int] == (
                fs[i as int].0,
                fs[i as int].1[j as int],
            ) && flat_upto(fs, i, j + 1) == upto.push(all[upto.len() as int])
            &&& j == fs[i as int].1.len() ==> upto == flat(fs, i + 1)
        }),
{
    let all = flat(fs, fs.len());
    let upto = flat_upto(fs, i, j);
    let paths = fs[i as int].1;
    flat_starts(fs, i + 1, fs.len());
    let next = flat(fs, i + 1);
    assert(next == flat(fs, i) + pairs(fs[i as int].0, paths));
    assert(upto =~= next.take(upto.len() as int));
    assert(upto =~= all.take(upto.len() as int));
    if j < paths.len() {
        assert(next[upto.len() as int] == (fs[i as int].0, paths[j as int]));
        assert(next[upto.len() as int] == all[upto.len() as int]);
        assert(flat_upto(fs, i, j + 1) =~= upto.push(all[upto.len() as int]));
    } else {
        assert(paths.take(j as int) =~= paths);
    }
}

/// The fields inside of a case with one more, which there are paths to or not.
pub open spec fn with_field(
    before: FieldsSpec,
    name: Seq<char>,
    inside: Seq<Seq<usize>>,
) -> FieldsSpec {
    if inside.len() > 0 {
        before.push((name, inside))
    } else {
        before
    }
}

/// The fields inside of a case have names of fields.
proof fn case_fields_names(fs: FieldsSpec, case: int, n: nat, name: Seq<char>)
    requires
        n <= fs.len(),
        has_key(case_fields(fs, case, n), name),
    ensures
        exists|i: int| 0 <= i < n && (#[trigger] fs[i]).0 == name,
    decreases n,
{
    let now = case_fields(fs, case, n);
    let at = choose|i: int| 0 <= i < now.len() && (#[trigger] now[i]).0 == name;
    if n > 0 {
        let before = case_fields(fs, case, (n - 1) as nat);
        if at < before.len() {
            assert(before[at].0 == name);
            case_fields_names(fs, case, (n - 1) as nat, name);
        } else {
            assert(fs[n - 1].0 == name);
        }
    }
}

/// The rest of a path is one of the rests only where the path is one of the paths.
proof fn rests_origin(paths: Seq<Seq<usize>>, case: int, path: Seq<usize>)
    requires
        path.len() > 1,
        path[0] == case,
        rests(paths, case).contains(path.skip(1)),
    ensures
        paths.contains(path),
    decreases paths.len(),
{
    let before = rests(paths.drop_last(), case);
    let last = paths[paths.len() - 1];
    if before.contains(path.skip(1)) {
        rests_origin(paths.drop_last(), case, path);
        let i = paths.drop_last().index_of(path);
        assert(paths[i] == path);
    } else {
        let now = rests(paths, case);
        let i = now.index_of(path.skip(1));
        if i < before.len() {
            assert(before[i] == path.skip(1));
        }
        assert(last.skip(1) == path.skip(1));
        assert forall|k: int| 0 <= k < path.len() implies path[k] == last[k] by {
            if k > 0 {
                assert(path.skip(1)[k - 1] == last.skip(1)[k - 1]);
            }
        }
        assert(last.skip(1).len() == path.skip(1).len());
        assert(path =~= last);
    }
}

impl<Pat: RustInputPat + PatKey> RuleWithNamedFields<Pat> {
    /// The cases of the rule as variants, where it has fields, and these name each case once.
    /// `Err` if a path leads to a case that there is not.
    #[verifier::rlimit(30)]
    pub fn try_find_variant_fields(&self) -> (r: Result<Option<Vec<Variant<Pat>>>, NoSuchCase>)
        ensures
            r is Ok <==> paths_lead_to_cases(self.model()),
            r matches Ok(found) ==> {
                &&& found is Some <==> variants_in(self.model()) is Some
                &&& found matches Some(vs) ==> variants_in(self.model()) == Some(variants_of(vs@))
            },
    {
        let cases = match &*self.rule {
            Rule::Or(cases) => cases,
            _ => {
                return Ok(None);
            },
        };
        let ghost fs = fields(self.fields);
        let ghost all = flat(fs, fs.len());
        assert(self.model().rule->Or_0 =~= models(cases@));
        let n = fields_len(&self.fields);
        if n == 0 {
            return Ok(None);
        }
        let mut variants: Vec<Variant<Pat>> = Vec::new();
        let mut v: usize = 0;
        while v < cases.len()
            invariant
                v <= cases.len(),
                variants@.len() == v,
                forall|k: int|
                    0 <= k < v ==> (#[trigger] variants@[k]).model() == (VariantSpec {
                        rule: cases@[k].model(),
                        name: Seq::empty(),
                        fields: Seq::empty(),
                    }),
            decreases cases.len() - v,
        {
            let variant = Variant {
                rule: cases[v].clone(),
                name: String::new(),
                fields: fields_new(),
            };
            assert(variant.name@ =~= Seq::empty());
            variants.push(variant);
            v += 1;
        }
        let mut i: usize = 0;
        while i < n
            invariant
                i <= n,
                fs == fields(self.fields),
                n == fs.len(),
                all == flat(fs, fs.len()),
                forall|k: int|
                    0 <= k < flat(fs, i as nat).len() && (#[trigger] all[k]).1.len() > 0
                        ==> all[k].1[0] < cases@.len(),
                self.model().rule == RuleSpec::Or(models(cases@)),
                variants@.len() == cases@.len(),
                forall|k: int|
                    0 <= k < variants@.len() ==> (#[trigger] variants@[k]).model() == (VariantSpec {
                        rule: cases@[k].model(),
                        name: name_in(flat(fs, i as nat), k),
                        fields: case_fields(fs, k, i as nat),
                    }),
                forall|k: int|
                    0 <= k < flat(fs, i as nat).len() ==> !#[trigger] rules_out(all, k),
            decreases n - i,
        {
            let (field, paths) = fields_get(&self.fields, i).unwrap();
            let m = set_len(paths);
            let mut j: usize = 0;
            proof {
                flat_upto_starts(fs, i as nat, 0);
                assert(flat_upto(fs, i as nat, 0) =~= flat(fs, i as nat));
                assert(fs[i as int].1.take(0) =~= Seq::empty());
            }
            while j < m
                invariant
                    j <= m,
                    i < n,
                    fs == fields(self.fields),
                    n == fs.len(),
                    all == flat(fs, fs.len()),
                    forall|k: int|
                        0 <= k < flat_upto(fs, i as nat, j as nat).len() && (
                        #[trigger] all[k]).1.len() > 0 ==> all[k].1[0] < cases@.len(),
                    self.model().rule == RuleSpec::Or(models(cases@)),
                    fs[i as int] == (field@, items(*paths)),
                    m == items(*paths).len(),
                    forall|k: int| 0 <= k < fs.len() && k != i ==> (#[trigger] fs[k]).0 != field@,
                    variants@.len() == cases@.len(),
                    forall|k: int|
                        0 <= k < variants@.len() ==> (#[trigger] variants@[k]).model() == (
                        VariantSpec {
                            rule: cases@[k].model(),
                            name: name_in(flat_upto(fs, i as nat, j as nat), k),
                            fields: with_field(
                                case_fields(fs, k, i as nat),
                                field@,
                                rests(items(*paths).take(j as int), k),
                            ),
                        }),
                    forall|k: int|
                        0 <= k < flat_upto(fs, i as nat, j as nat).len() ==> !#[trigger] rules_out(
                            all,
                            k,
                        ),
                decreases m - j,
            {
                let path = set_get(paths, j).unwrap();
                let ghost upto = flat_upto(fs, i as nat, j as nat);
                let ghost at = upto.len() as int;
                let ghost before = variants@;
                proof {
                    flat_upto_starts(fs, i as nat, j as nat);
                    assert(all[at] == (field@, path@));
                    assert(items(*paths).take(j + 1).drop_last() =~= items(*paths).take(
                        j as int,
                    ));
                    assert(upto.push(all[at]).drop_last() =~= upto);
                }
                if path.len() == 0 {
                    assert(rules_out(all, at));
                    return Ok(None);
                }
                let case = path[0];
                if case >= cases.len() {
                    assert(all[at].1[0] >= cases@.len());
                    return Err(NoSuchCase);
                }
                if path.len() == 1 {
                    if !is_no_text(variants[case].name.as_str()) {
                        assert(before[case as int].model().name == name_in(upto, case as int));
                        assert(rules_out(all, at));
                        return Ok(None);
                    }
                    variants[case].name = field.clone();
                    assert(!rules_out(all, at)) by {
                        assert(before[case as int].model().name == name_in(upto, case as int));
                    }
                } else {
                    let rest = rest_of(path);
                    proof {
                        let known = case_fields(fs, case as int, i as nat);
                        let inside = rests(items(*paths).take(j as int), case as int);
                        if has_key(known, field@) {
                            case_fields_names(fs, case as int, i as nat, field@);
                        }
                        if inside.contains(path@.skip(1)) {
                            rests_origin(items(*paths).take(j as int), case as int, path@);
                            let k = items(*paths).take(j as int).index_of(path@);
                            assert(items(*paths)[k] == path@);
                        }
                        with_field_grows(known, field@, inside, path@.skip(1));
                        assert(before[case as int].model().fields == with_field(
                            known,
                            field@,
                            inside,
                        ));
                    }
                    let entry = fields_entry(&mut variants[case].fields, field.clone());
                    set_insert(entry, rest);
                }
                j += 1;
                proof {
                    assert forall|k: int| 0 <= k < variants@.len() implies (
                    #[trigger] variants@[k]).model() == (VariantSpec {
                        rule: cases@[k].model(),
                        name: name_in(flat_upto(fs, i as nat, j as nat), k),
                        fields: with_field(
                            case_fields(fs, k, i as nat),
                            field@,
                            rests(items(*paths).take(j as int), k),
                        ),
                    }) by {
                        assert(before[k].model().rule == cases@[k].model());
                        if k != case {
                            assert(variants@[k] == before[k]);
                        }
                    }
                }
            }
            proof {
                flat_upto_starts(fs, i as nat, m as nat);
                assert(items(*paths).take(m as int) =~= items(*paths));
            }
            i += 1;
        }
        let mut v: usize = 0;
        while v < variants.len()
            invariant
                v <= variants.len(),
                variants@.len() == cases@.len(),
                fs == self.model().fields,
                self.model().rule == RuleSpec::Or(models(cases@)),
                all == flat(fs, fs.len()),
                paths_lead_to_cases(self.model()),
                forall|k: int|
                    0 <= k < variants@.len() ==> (#[trigger] variants@[k]).model().name == name_in(
                        all,
                        k,
                    ),
                forall|k: int| 0 <= k < v ==> (#[trigger] name_in(all, k)).len() > 0,
            decreases variants.len() - v,
        {
            if is_no_text(variants[v].name.as_str()) {
                assert(variants@[v as int].model().name == name_in(all, v as int));
                return Ok(None);
            }
            assert(variants@[v as int].model().name == name_in(all, v as int));
            v += 1;
        }
        assert(variants_of(variants@) =~= variants_in(self.model())->Some_0);
        Ok(Some(variants))
    }

    /// The cases of the rule as variants, where it has fields, and these name each case once.
    pub fn find_variant_fields(&self) -> (r: Option<Vec<Variant<Pat>>>)
        requires
            paths_lead_to_cases(self.model()),
        ensures
            r is Some <==> variants_in(self.model()) is Some,
            r matches Some(vs) ==> variants_in(self.model()) == Some(variants_of(vs@)),
    {
        self.try_find_variant_fields().unwrap()
    }
}

/// A path without its first step.
fn rest_of(path: &Vec<usize>) -> (r: Vec<usize>)
    requires
        path@.len() > 0,
    ensures
        r@ == path@.skip(1),
{
    let mut r: Vec<usize> = Vec::new();
    let mut i: usize = 1;
    while i < path.len()
        invariant
            1 <= i <= path.len(),
            r@ == path@.subrange(1, i as int),
        decreases path.len() - i,
    {
        r.push(path[i]);
        i += 1;
        assert(r@ =~= path@.subrange(1, i as int));
    }
    assert(r@ =~= path@.skip(1));
    r
}

/// A path more to a field inside of a case.
proof fn with_field_grows(
    known: FieldsSpec,
    name: Seq<char>,
    inside: Seq<Seq<usize>>,
    rest: Seq<usize>,
)
    requires
        !has_key(known, name),
    ensures
        ({
            let before = with_field(known, name, inside);
            &&& (if has_key(before, name) {
                value(before, name)
            } else {
                Seq::empty()
            }) == inside
            &&& put(before, name, inside.push(rest)) == with_field(known, name, inside.push(rest))
        }),
{
    let before = with_field(known, name, inside);
    if inside.len() > 0 {
        let n = known.len() as int;
        assert(before[n].0 == name);
        let at = choose|i: int| 0 <= i < before.len() && (#[trigger] before[i]).0 == name;
        assert(at == n) by {
            if at < n {
                assert(known[at].0 == name);
            }
        }
        assert(put(before, name, inside.push(rest)) =~= with_field(
            known,
            name,
            inside.push(rest),
        ));
    } else {
        assert(inside =~= Seq::empty());
    }
}

} // verus!
