use gll_codegen::label::CodeLabel;
use gll_codegen::node::{numbered_name_of, ParseNodeKind, ParseNodeShape};
use gll_codegen::pattern::SPat;
use gll_codegen::rule::{Rule, SepKind};
use gll_codegen::table::RuleMap;
use std::rc::Rc;

type R = Rc<Rule<SPat>>;

fn eat(s: &str) -> R {
    Rc::new(Rule::Eat(SPat::String(s.to_string())))
}

fn call(name: &str) -> R {
    Rc::new(Rule::Call(name.to_string()))
}

fn concat(a: R, b: R) -> R {
    Rc::new(Rule::Concat(a, b))
}

fn or(cases: Vec<R>) -> R {
    Rc::new(Rule::Or(cases))
}

fn opt(a: R) -> R {
    Rc::new(Rule::Opt(a))
}

fn many(a: R, sep: Option<(R, SepKind)>) -> R {
    Rc::new(Rule::RepeatMany(a, sep))
}

fn more(a: R, sep: Option<(R, SepKind)>) -> R {
    Rc::new(Rule::RepeatMore(a, sep))
}

fn kind(rule: &R, rules: &mut RuleMap<SPat>) -> String {
    Rule::parse_node_kind(rule, rules).to_src().to_ugly_string()
}

fn shape(rule: &R, rules: &mut RuleMap<SPat>) -> String {
    Rule::parse_node_shape_uncached(rule, rules).to_src().to_ugly_string()
}

fn desc(rule: R) -> String {
    let mut rules = RuleMap::new();
    assert!(rule.has_description());
    let first = Rule::parse_node_desc(&rule, &mut rules);
    assert_eq!(first, Rule::parse_node_desc(&rule, &mut rules));
    first
}

fn all_forms() -> Vec<R> {
    let simple = Some((eat(","), SepKind::Simple));
    let trailing = Some((eat(","), SepKind::Trailing));
    vec![
        Rc::new(Rule::Empty),
        eat("a"),
        eat("b"),
        Rc::new(Rule::Eat(SPat::Range('a', 'b'))),
        call("a"),
        call("b"),
        concat(eat("a"), eat("b")),
        concat(eat("b"), eat("a")),
        or(vec![]),
        or(vec![eat("a")]),
        or(vec![eat("a"), eat("b")]),
        or(vec![or(vec![eat("a")]), eat("b")]),
        opt(eat("a")),
        many(eat("a"), None),
        many(eat("a"), simple.clone()),
        many(eat("a"), trailing.clone()),
        more(eat("a"), None),
        more(eat("a"), simple),
        more(eat("a"), trailing),
    ]
}

#[test]
fn codes_tell_rules_apart() {
    let rules = all_forms();
    let same = all_forms();
    for i in 0..rules.len() {
        assert_eq!(rules[i].code(), same[i].code());
        for j in 0..i {
            assert_ne!(rules[i].code(), rules[j].code());
        }
    }
}

#[test]
fn rules_without_a_name_are_numbered_in_the_order_they_are_seen() {
    let mut rules = RuleMap::new();
    assert_eq!(rules.len(), 0);
    assert_eq!(kind(&eat("a"), &mut rules), "_P :: _0");
    assert_eq!(kind(&call("Foo"), &mut rules), "_P :: Foo");
    assert_eq!(kind(&opt(eat("a")), &mut rules), "_P :: _1");
    assert_eq!(kind(&eat("a"), &mut rules), "_P :: _0");
    assert_eq!(rules.len(), 2);
    assert_eq!(rules.rule(1).code(), opt(eat("a")).code());
    assert!(rules.has(&eat("a")));
    assert!(rules.has(&call("Bar")));
    assert!(!rules.has(&eat("b")));
}

#[test]
fn every_form_of_rule_gets_a_number_of_its_own() {
    let mut rules = RuleMap::new();
    let forms = all_forms();
    for rule in &forms {
        kind(rule, &mut rules);
    }
    assert_eq!(rules.len(), forms.len() - 2);
}

#[test]
fn nodes_without_parts_are_opaque_or_a_choice() {
    let mut rules = RuleMap::new();
    assert_eq!(shape(&eat("a"), &mut rules), "ParseNodeShape :: Opaque");
    assert_eq!(shape(&Rc::new(Rule::Empty), &mut rules), "ParseNodeShape :: Opaque");
    let choice = or(vec![eat("a"), eat("b")]);
    assert_eq!(shape(&choice, &mut rules), "ParseNodeShape :: Choice");
    assert_eq!(rules.len(), 0);
}

#[test]
fn nodes_of_rules_in_a_row_are_split() {
    let mut rules = RuleMap::new();
    let rule = concat(eat("a"), call("B"));
    assert_eq!(shape(&rule, &mut rules), "ParseNodeShape :: Split ( _P :: _0 , _P :: B )");
    assert_eq!(rules.rule(0).code(), eat("a").code());
}

#[test]
fn nodes_of_options_and_repetitions_may_be_missing() {
    let mut rules = RuleMap::new();
    assert_eq!(shape(&opt(eat("a")), &mut rules), "ParseNodeShape :: Opt ( _P :: _0 )");
    let sep = Some((eat(","), SepKind::Simple));
    assert_eq!(
        shape(&many(eat("a"), sep.clone()), &mut rules),
        "ParseNodeShape :: Opt ( _P :: _1 )"
    );
    assert_eq!(rules.rule(1).code(), more(eat("a"), sep).code());
}

#[test]
fn nodes_of_repetitions_are_split_into_the_first_and_the_rest() {
    let mut rules = RuleMap::new();
    let rule = more(eat("a"), None);
    assert_eq!(shape(&rule, &mut rules), "ParseNodeShape :: Split ( _P :: _0 , _P :: _1 )");
    assert_eq!(rules.rule(0).code(), eat("a").code());
    assert_eq!(rules.rule(1).code(), many(eat("a"), None).code());
}

#[test]
fn nodes_of_separated_repetitions_have_the_separator_in_the_rest() {
    let mut rules = RuleMap::new();
    let rule = more(eat("a"), Some((eat(","), SepKind::Simple)));
    assert_eq!(shape(&rule, &mut rules), "ParseNodeShape :: Split ( _P :: _0 , _P :: _1 )");
    let rest = opt(concat(eat(","), rule.clone()));
    assert_eq!(rules.rule(1).code(), rest.code());
}

#[test]
fn nodes_of_repetitions_with_a_last_separator_have_it_on_the_right() {
    let mut rules = RuleMap::new();
    let rule = more(eat("a"), Some((eat(","), SepKind::Trailing)));
    assert_eq!(shape(&rule, &mut rules), "ParseNodeShape :: Split ( _P :: _0 , _P :: _1 )");
    let simple = more(eat("a"), Some((eat(","), SepKind::Simple)));
    assert_eq!(rules.rule(0).code(), simple.code());
    assert_eq!(rules.rule(1).code(), opt(eat(",")).code());
}

#[test]
fn shapes_are_found_out_once() {
    let mut rules = RuleMap::new();
    let rule = concat(eat("a"), eat("b"));
    Rule::fill_parse_node_shape(&rule, &mut rules);
    assert_eq!(rules.len(), 2);
    Rule::fill_parse_node_shape(&rule, &mut rules);
    Rule::fill_parse_node_shape(&call("A"), &mut rules);
    assert_eq!(rules.len(), 2);
    let shape = rules.shape(&rule).to_src().to_ugly_string();
    assert_eq!(shape, "ParseNodeShape :: Split ( _P :: _0 , _P :: _1 )");
}

#[test]
fn all_shapes_come_to_an_end() {
    let mut rules = RuleMap::new();
    kind(&many(eat("a"), Some((eat(","), SepKind::Trailing))), &mut rules);
    rules.fill_parse_node_shapes();
    let simple = more(eat("a"), Some((eat(","), SepKind::Simple)));
    let expected = vec![
        many(eat("a"), Some((eat(","), SepKind::Trailing))),
        more(eat("a"), Some((eat(","), SepKind::Trailing))),
        simple.clone(),
        opt(eat(",")),
        eat("a"),
        opt(concat(eat(","), simple.clone())),
        eat(","),
        concat(eat(","), simple),
    ];
    assert_eq!(rules.len(), expected.len());
    for i in 0..expected.len() {
        assert_eq!(rules.rule(i).code(), expected[i].code());
    }
    let last = rules.shape(&expected[7]).to_src().to_ugly_string();
    assert_eq!(last, "ParseNodeShape :: Split ( _P :: _6 , _P :: _2 )");
}

#[test]
fn a_repetition_leads_back_to_itself() {
    let mut rules = RuleMap::new();
    kind(&more(call("A"), None), &mut rules);
    rules.fill_parse_node_shapes();
    assert_eq!(rules.len(), 2);
    let more = rules.shape(&rules.rule(0)).to_src().to_ugly_string();
    assert_eq!(more, "ParseNodeShape :: Split ( _P :: A , _P :: _1 )");
    let many = rules.shape(&rules.rule(1)).to_src().to_ugly_string();
    assert_eq!(many, "ParseNodeShape :: Opt ( _P :: _0 )");
}

#[test]
fn rules_are_described_as_they_are_written() {
    let sep = |kind: SepKind| Some((eat(","), kind));
    assert_eq!(desc(Rc::new(Rule::Empty)), "");
    assert_eq!(desc(eat("a")), "\"a\"");
    assert_eq!(desc(Rc::new(Rule::Eat(SPat::Range('0', '9')))), "'0'..='9'");
    assert_eq!(desc(call("Foo")), "Foo");
    assert_eq!(desc(concat(call("A"), call("B"))), "(A B)");
    assert_eq!(desc(or(vec![call("A"), call("B"), call("C")])), "(A | B | C)");
    assert_eq!(desc(opt(call("A"))), "A?");
    assert_eq!(desc(many(call("A"), None)), "A*");
    assert_eq!(desc(many(call("A"), sep(SepKind::Simple))), "A* % \",\"");
    assert_eq!(desc(many(call("A"), sep(SepKind::Trailing))), "A* %% \",\"");
    assert_eq!(desc(more(call("A"), None)), "A+");
    assert_eq!(desc(more(call("A"), sep(SepKind::Simple))), "A+ % \",\"");
    assert_eq!(desc(more(call("A"), sep(SepKind::Trailing))), "A+ %% \",\"");
    assert_eq!(desc(opt(concat(opt(call("A")), call("B")))), "(A? B)?");
}

#[test]
fn a_choice_of_less_than_two_cases_has_no_description() {
    assert!(!or(vec![call("A")]).has_description());
    assert!(!or(vec![]).has_description());
    assert!(!concat(call("A"), or(vec![call("A")])).has_description());
    assert!(!many(call("A"), Some((or(vec![]), SepKind::Simple))).has_description());
    assert!(or(vec![call("A"), call("A")]).has_description());
}

#[test]
fn kinds_are_named_after_rules_and_numbers() {
    assert_eq!(numbered_name_of(12), "_12");
    assert_eq!(ParseNodeKind::Anon(3).ident().to_ugly_string(), "_3");
    let named = ParseNodeKind::NamedRule("Foo".to_string());
    assert_eq!(named.ident().to_ugly_string(), "Foo");
    assert_eq!(named.clone().to_src().to_ugly_string(), "_P :: Foo");
}

#[test]
fn names_tell_kinds_apart() {
    let mut kinds = vec![
        ParseNodeKind::NamedRule("A".to_string()),
        ParseNodeKind::NamedRule("_".to_string()),
        ParseNodeKind::NamedRule("_x".to_string()),
    ];
    for i in 0..12 {
        kinds.push(ParseNodeKind::Anon(i));
    }
    for i in 0..kinds.len() {
        for j in 0..i {
            let name = kinds[i].ident().to_ugly_string();
            assert_ne!(name, kinds[j].ident().to_ugly_string());
        }
    }
}

#[test]
fn shapes_are_written_as_expressions() {
    let alias = ParseNodeShape::Alias(ParseNodeKind::Anon(1));
    assert_eq!(alias.to_src().to_ugly_string(), "ParseNodeShape :: Alias ( _P :: _1 )");
    let opt = ParseNodeShape::Opt(ParseNodeKind::NamedRule("A".to_string()));
    assert_eq!(opt.clone().to_src().to_ugly_string(), "ParseNodeShape :: Opt ( _P :: A )");
}

#[test]
fn labels_are_named_after_their_rule_and_numbers() {
    let rule = Rc::new(CodeLabel::NamedRule("Foo".to_string()));
    assert_eq!(rule.flattened_name(), "Foo");
    let inner = Rc::new(CodeLabel::Nested { parent: rule, i: 10 });
    assert_eq!(inner.flattened_name(), "Foo__10");
    let inmost = CodeLabel::Nested { parent: inner, i: 2 };
    assert_eq!(inmost.flattened_name(), "Foo__10__2");
    assert_eq!(inmost.flattened_ident().to_ugly_string(), "Foo__10__2");
    assert_eq!(inmost.to_src().to_ugly_string(), "_C :: Foo__10__2");
    assert_eq!(inmost.key(), ("Foo".to_string(), vec![10, 2]));
}

#[test]
fn names_tell_labels_apart() {
    let mut labels = Vec::new();
    for name in ["A", "A_", "B"] {
        let rule = Rc::new(CodeLabel::NamedRule(name.to_string()));
        labels.push(rule.clone());
        for i in 0..12 {
            let inner = Rc::new(CodeLabel::Nested { parent: rule.clone(), i });
            labels.push(inner.clone());
            labels.push(Rc::new(CodeLabel::Nested { parent: inner, i: 1 }));
        }
    }
    for i in 0..labels.len() {
        for j in 0..i {
            assert_ne!(labels[i].flattened_name(), labels[j].flattened_name());
        }
    }
}

#[test]
fn a_shape_that_is_known_is_not_found_out_again() {
    let mut rules = RuleMap::new();
    let rule = more(eat("a"), None);
    let callee = call("a");
    Rule::fill_parse_node_shape(&callee, &mut rules);
    assert_eq!(rules.len(), 0);
    Rule::fill_parse_node_shape(&rule, &mut rules);
    assert_eq!(rules.len(), 2);
    let first = rules.shape(&rule).to_src().to_ugly_string();
    assert_eq!(first, "ParseNodeShape :: Split ( _P :: _0 , _P :: _1 )");
    Rule::fill_parse_node_shape(&rule, &mut rules);
    assert_eq!(rules.len(), 2);
    assert_eq!(rules.shape(&rule).to_src().to_ugly_string(), first);
}

#[test]
fn descriptions_stay_when_rules_are_seen() {
    let mut rules = RuleMap::new();
    let rule = or(vec![eat("a"), opt(call("b"))]);
    let first = Rule::parse_node_desc(&rule, &mut rules);
    assert_eq!(first, "(\"a\" | b?)");
    assert_eq!(rules.len(), 0);
    assert_eq!(kind(&rule, &mut rules), "_P :: _0");
    Rule::fill_parse_node_shape(&rule, &mut rules);
    assert_eq!(Rule::parse_node_desc(&rule, &mut rules), first);
    assert_eq!(Rule::parse_node_desc(&opt(call("b")), &mut rules), "b?");
}
