use gll_codegen::declare::declare_rule_ty;
use gll_codegen::fields::{RuleWithNamedFields, Variant};
use gll_codegen::pattern::SPat;
use gll_codegen::rule::Rule;
use indexmap::{IndexMap, IndexSet};
use std::rc::Rc;

type R = Rc<Rule<SPat>>;

fn eat(s: &str) -> R {
    Rc::new(Rule::Eat(SPat::String(s.to_string())))
}

fn call(name: &str) -> R {
    Rc::new(Rule::Call(name.to_string()))
}

fn concat(a: R, b: R) -> R {
    Rc::new(Rule::Concat(a, b))
}

fn or(cases: Vec<R>) -> R {
    Rc::new(Rule::Or(cases))
}

fn opt(a: R) -> R {
    Rc::new(Rule::Opt(a))
}

fn many(a: R) -> R {
    Rc::new(Rule::RepeatMany(a, None))
}

fn set(paths: &[&[usize]]) -> IndexSet<Vec<usize>> {
    paths.iter().map(|path| path.to_vec()).collect()
}

fn named(rule: R, fields: &[(&str, &[&[usize]])]) -> RuleWithNamedFields<SPat> {
    let mut map = IndexMap::new();
    for (name, paths) in fields {
        map.insert(name.to_string(), set(paths));
    }
    RuleWithNamedFields { rule, fields: map }
}

fn show(v: &Variant<SPat>) -> String {
    let mut r = v.name.clone();
    for (name, paths) in &v.fields {
        let paths: Vec<&Vec<usize>> = paths.iter().collect();
        r += &format!(" {}:{:?}", name, paths);
    }
    r
}

fn ty(rule: &R, path: &[usize]) -> Option<String> {
    rule.try_field_type(path).map(|ty| ty.to_ugly_string())
}

#[test]
fn each_case_with_a_name_is_a_variant() {
    let rule = named(
        or(vec![call("A"), concat(call("B"), call("C")), opt(call("B"))]),
        &[
            ("Second", &[&[1]]),
            ("b", &[&[1, 0], &[2, 0]]),
            ("First", &[&[0]]),
            ("c", &[&[1, 1]]),
            ("Third", &[&[2]]),
        ],
    );
    let variants = rule.find_variant_fields().unwrap();
    let shown: Vec<String> = variants.iter().map(show).collect();
    assert_eq!(shown, ["First", "Second b:[[0]] c:[[1]]", "Third b:[[0]]"]);
    assert_eq!(variants[1].rule.code(), concat(call("B"), call("C")).code());
}

#[test]
fn a_rule_without_fields_has_no_variants() {
    assert!(named(or(vec![call("A"), call("B")]), &[]).find_variant_fields().is_none());
}

#[test]
fn a_rule_that_is_no_choice_has_no_variants() {
    let rule = named(concat(call("A"), call("B")), &[("a", &[&[0]]), ("b", &[&[9]])]);
    assert!(rule.find_variant_fields().is_none());
}

#[test]
fn a_case_without_a_name_rules_out_variants() {
    let rule = named(or(vec![call("A"), call("B")]), &[("a", &[&[0]])]);
    assert!(rule.find_variant_fields().is_none());
}

#[test]
fn a_case_with_two_names_rules_out_variants() {
    let rule = named(or(vec![call("A")]), &[("a", &[&[0]]), ("b", &[&[0]])]);
    assert!(rule.find_variant_fields().is_none());
    let rule = named(or(vec![call("A")]), &[("a", &[&[0]]), ("", &[&[0]])]);
    assert!(rule.find_variant_fields().is_none());
}

#[test]
fn an_empty_name_is_no_name() {
    let rule = named(or(vec![call("A")]), &[("", &[&[0]])]);
    assert!(rule.find_variant_fields().is_none());
    let rule = named(or(vec![call("A")]), &[("", &[&[0]]), ("a", &[&[0]])]);
    assert_eq!(rule.find_variant_fields().unwrap()[0].name, "a");
}

#[test]
fn a_path_to_the_whole_rule_rules_out_variants() {
    let rule = named(or(vec![call("A")]), &[("a", &[&[0], &[]])]);
    assert!(rule.find_variant_fields().is_none());
}

#[test]
fn a_path_to_a_case_that_there_is_not_is_an_error() {
    let rule = named(or(vec![call("A")]), &[("a", &[&[0]]), ("b", &[&[1]])]);
    assert!(rule.try_find_variant_fields().is_err());
    let rule = named(or(vec![call("A")]), &[("b", &[&[1, 0]]), ("a", &[&[]])]);
    assert!(rule.try_find_variant_fields().is_err());
    assert!(!rule.is_declarable());
}

#[test]
fn a_path_after_one_that_rules_out_variants_is_not_looked_at() {
    let rule = named(or(vec![call("A")]), &[("a", &[&[]]), ("b", &[&[1, 0]])]);
    assert!(rule.find_variant_fields().is_none());
}

#[test]
fn fields_have_the_types_of_what_they_stand_for() {
    let rule = concat(eat("a"), concat(call("B"), or(vec![many(call("C")), opt(eat("d"))])));
    assert_eq!(ty(&rule, &[]).unwrap(), "( )");
    assert_eq!(ty(&rule, &[0]).unwrap(), "( )");
    assert_eq!(ty(&rule, &[1, 0]).unwrap(), "B < 'a , 'i , I >");
    assert_eq!(ty(&rule, &[1, 0, 7]).unwrap(), "B < 'a , 'i , I >");
    assert_eq!(ty(&rule, &[1, 1, 0]).unwrap(), "[ C < 'a , 'i , I > ]");
    assert_eq!(ty(&rule, &[1, 1, 1, 0]).unwrap(), "( )");
    assert_eq!(ty(&many(many(eat("a"))), &[]).unwrap(), "[ [ ( ) ] ]");
    assert_eq!(rule.field_type(&[1, 1, 0]).to_ugly_string(), "[ C < 'a , 'i , I > ]");
}

#[test]
fn a_path_has_the_type_of_the_rule_at_its_end() {
    let inner = concat(call("B"), many(eat("x")));
    let rule = or(vec![eat("a"), opt(inner.clone())]);
    for path in [&[][..], &[0], &[1]] {
        let whole = [&[1, 0], path].concat();
        assert_eq!(ty(&rule, &whole), ty(&inner, path));
    }
}

#[test]
fn paths_that_lead_nowhere_have_no_type() {
    let rule = concat(eat("a"), or(vec![many(call("C")), opt(eat("d"))]));
    assert_eq!(ty(&rule, &[2]), None);
    assert_eq!(ty(&rule, &[0, 0]), None);
    assert_eq!(ty(&rule, &[1]), None);
    assert_eq!(ty(&rule, &[1, 2]), None);
    assert_eq!(ty(&rule, &[1, 0, 0]), None);
    assert_eq!(ty(&rule, &[1, 1]), None);
    assert_eq!(ty(&rule, &[1, 1, 1]), None);
    assert_eq!(ty(&many(opt(call("A"))), &[]), None);
}

#[test]
fn a_field_with_several_paths_has_the_type_they_agree_on() {
    let rule = or(vec![call("A"), call("B"), call("A"), opt(call("A"))]);
    let agreed = rule.field_pathset_type(&set(&[&[0], &[2], &[3, 0]]));
    assert_eq!(agreed.to_ugly_string(), "A < 'a , 'i , I >");
    let differ = rule.field_pathset_type(&set(&[&[0], &[2], &[1]]));
    assert_eq!(differ.to_ugly_string(), "( )");
    assert!(rule.try_field_pathset_type(&set(&[])).is_none());
    assert!(rule.try_field_pathset_type(&set(&[&[4]])).is_none());
    assert!(rule.try_field_pathset_type(&set(&[&[0], &[4]])).is_none());
    let differ = rule.field_pathset_type(&set(&[&[0], &[1], &[4]]));
    assert_eq!(differ.to_ugly_string(), "( )");
}

#[test]
fn a_field_may_be_missing_behind_a_choice_or_an_option() {
    let rule = concat(opt(call("A")), concat(call("B"), or(vec![call("C")])));
    assert!(rule.field_pathset_is_refutable(&set(&[&[0, 0]])));
    assert!(rule.field_pathset_is_refutable(&set(&[&[1, 1, 0]])));
    assert!(!rule.field_pathset_is_refutable(&set(&[&[1, 0]])));
    assert!(!rule.field_pathset_is_refutable(&set(&[&[1]])));
    assert!(!rule.field_pathset_is_refutable(&set(&[&[]])));
    assert!(rule.field_pathset_is_refutable(&set(&[&[1], &[]])));
    assert!(!many(opt(call("A"))).field_is_refutable(&[]));
}

#[test]
fn a_rule_with_fields_is_a_structure() {
    let rule = named(
        concat(call("A"), opt(call("B"))),
        &[("x", &[&[0]]), ("y", &[&[1, 0]])],
    );
    assert!(rule.is_declarable());
    assert_eq!(
        declare_rule_ty("Foo", &rule, None).to_ugly_string(),
        "# [ allow ( non_camel_case_types ) ] \
         pub struct Foo < 'a , 'i , I : gll :: input :: Input > { \
         pub x : Handle < 'a , 'i , I , A < 'a , 'i , I > > , \
         pub y : Option < Handle < 'a , 'i , I , B < 'a , 'i , I > > > }"
    );
}

#[test]
fn a_rule_without_fields_is_a_structure_with_a_marker() {
    let rule = named(eat("a"), &[]);
    assert_eq!(
        declare_rule_ty("Foo", &rule, None).to_ugly_string(),
        "# [ allow ( non_camel_case_types ) ] \
         pub struct Foo < 'a , 'i , I : gll :: input :: Input > { \
         _marker : PhantomData < ( & 'a ( ) , & 'i ( ) , I ) > , }"
    );
}

#[test]
fn a_rule_with_variants_is_an_enumeration() {
    let rule = named(
        or(vec![call("A"), concat(call("B"), call("C"))]),
        &[("First", &[&[0]]), ("Second", &[&[1]]), ("b", &[&[1, 0]])],
    );
    assert!(rule.is_declarable());
    let variants = rule.find_variant_fields();
    assert!(variants.as_ref().unwrap()[0].is_typed());
    assert_eq!(
        declare_rule_ty("Foo", &rule, variants.as_ref()).to_ugly_string(),
        "# [ allow ( non_camel_case_types ) ] \
         pub enum Foo < 'a , 'i , I : gll :: input :: Input > { \
         First ( Handle < 'a , 'i , I , A < 'a , 'i , I > > ) , \
         Second { b : Handle < 'a , 'i , I , B < 'a , 'i , I > > } }"
    );
}

#[test]
fn a_variant_without_a_type_cannot_be_declared() {
    let rule = named(or(vec![opt(call("A"))]), &[("First", &[&[0]])]);
    assert!(!rule.is_declarable());
    let rule = named(concat(call("A"), call("B")), &[("x", &[&[2]])]);
    assert!(!rule.is_declarable());
    let rule = named(concat(call("A"), call("B")), &[("x", &[])]);
    assert!(!rule.is_declarable());
}
