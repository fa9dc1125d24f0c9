use gll_codegen::continuation::{Code, Continuation};
use gll_codegen::instr::{clone_instrs, code_to_src, Instr};
use gll_codegen::label::CodeLabel;
use gll_codegen::node::ParseNodeKind;
use gll_codegen::pattern::SPat;
use gll_codegen::rule::{Rule, SepKind};
use gll_codegen::table::RuleMap;
use gll_codegen::thunk::Thunk;
use gll_codegen::tokens::Src;
use indexmap::IndexMap;
use std::rc::Rc;

type R = Rc<Rule<SPat>>;

fn eat(s: &str) -> R {
    Rc::new(Rule::Eat(SPat::String(s.to_string())))
}

fn call(name: &str) -> R {
    Rc::new(Rule::Call(name.to_string()))
}

fn concat(a: R, b: R) -> R {
    Rc::new(Rule::Concat(a, b))
}

fn or(cases: Vec<R>) -> R {
    Rc::new(Rule::Or(cases))
}

fn opt(a: R) -> R {
    Rc::new(Rule::Opt(a))
}

fn many(a: R, sep: Option<(R, SepKind)>) -> R {
    Rc::new(Rule::RepeatMany(a, sep))
}

fn more(a: R, sep: Option<(R, SepKind)>) -> R {
    Rc::new(Rule::RepeatMore(a, sep))
}

fn label(name: &str) -> Rc<CodeLabel> {
    Rc::new(CodeLabel::NamedRule(name.to_string()))
}

fn start(name: &str) -> Continuation {
    Continuation {
        code_labels: IndexMap::new(),
        fn_code_label: label(name),
        code_label_arms: Vec::new(),
        code: Code::Inline(Vec::new()),
        nested_frames: Vec::new(),
    }
}

fn shown(cont: &Continuation) -> Vec<String> {
    cont.code_label_arms
        .iter()
        .map(|(label, code)| {
            format!("{}: {}", label.flattened_name(), code_to_src(code).to_ugly_string())
        })
        .collect()
}

fn generated(rule: &R, nodes: bool) -> (Continuation, RuleMap<SPat>) {
    let mut rules = RuleMap::new();
    let thunk = Rule::generate_parse(rule, nodes, &mut rules).plus(Thunk::Ret);
    let mut cont = start("A");
    thunk.apply(&label("A"), &mut cont);
    assert!(cont.nested_frames.is_empty());
    assert_eq!(cont.fn_code_label.flattened_name(), "A");
    cont.reify_as(label("A"));
    (cont, rules)
}

fn arms(rule: R, nodes: bool) -> Vec<String> {
    shown(&generated(&rule, nodes).0)
}

fn seen(rule: R) -> Vec<Vec<usize>> {
    let (_, rules) = generated(&rule, true);
    (0..rules.len()).map(|i| rules.rule(i).code()).collect()
}

fn codes(rules: &[R]) -> Vec<Vec<usize>> {
    rules.iter().map(|rule| rule.code()).collect()
}

#[test]
fn an_empty_rule_returns() {
    assert_eq!(arms(Rc::new(Rule::Empty), false), ["A: rt . ret ( ) ;"]);
}

#[test]
fn a_pattern_is_matched_before_what_comes_next() {
    assert_eq!(
        arms(eat("x"), false),
        ["A: if let Some ( mut rt ) = rt . input_consume_left ( & ( \"x\" ) ) { rt . ret ( ) ; }"]
    );
}

#[test]
fn a_rule_is_called_with_a_label_to_return_to() {
    assert_eq!(
        arms(call("B"), true),
        ["A__0: rt . ret ( ) ;", "A: rt . call ( _C :: B , _C :: A__0 ) ;"]
    );
}

#[test]
fn rules_in_a_row_are_generated_from_the_last_to_the_first() {
    assert_eq!(
        arms(concat(call("B"), call("C")), false),
        [
            "A__0: rt . ret ( ) ;",
            "A__1: rt . call ( _C :: C , _C :: A__0 ) ;",
            "A: rt . call ( _C :: B , _C :: A__1 ) ;",
        ]
    );
}

#[test]
fn cases_all_go_on_with_what_comes_next() {
    assert_eq!(
        arms(or(vec![eat("x"), call("B")]), false),
        [
            "A__0: rt . ret ( ) ;",
            "A: if let Some ( mut rt ) = rt . input_consume_left ( & ( \"x\" ) ) \
             { rt . spawn ( _C :: A__0 ) ; } rt . call ( _C :: B , _C :: A__0 ) ;",
        ]
    );
    assert_eq!(arms(or(vec![]), false), ["A__0: rt . ret ( ) ;", "A: "]);
}

#[test]
fn an_option_goes_on_with_what_comes_next_as_well() {
    assert_eq!(
        arms(opt(call("B")), true),
        [
            "A__0: rt . ret ( ) ;",
            "A: rt . call ( _C :: B , _C :: A__0 ) ; rt . spawn ( _C :: A__0 ) ;",
        ]
    );
}

#[test]
fn a_repetition_is_a_function_that_calls_itself() {
    let (cont, _) = generated(&many(call("B"), None), false);
    assert_eq!(
        shown(&cont),
        [
            "A__0: rt . ret ( ) ;",
            "A__1__0: rt . ret ( ) ;",
            "A__1__1: rt . call ( _C :: A__1 , _C :: A__1__0 ) ;",
            "A__1: rt . call ( _C :: B , _C :: A__1__1 ) ; rt . spawn ( _C :: A__1__0 ) ;",
            "A: rt . call ( _C :: A__1 , _C :: A__0 ) ;",
        ]
    );
    let labels: Vec<(Vec<usize>, usize)> =
        cont.code_labels.iter().map(|(key, inner)| (key.1.clone(), inner.len())).collect();
    assert_eq!(labels, [(vec![], 2), (vec![1], 2)]);
}

#[test]
fn a_repetition_of_at_least_one_comes_before_its_option() {
    assert_eq!(
        arms(more(call("B"), None), false),
        [
            "A__0: rt . ret ( ) ;",
            "A__1__0: rt . ret ( ) ;",
            "A__1__1: rt . call ( _C :: A__1 , _C :: A__1__0 ) ; rt . spawn ( _C :: A__1__0 ) ;",
            "A__1: rt . call ( _C :: B , _C :: A__1__1 ) ;",
            "A: rt . call ( _C :: A__1 , _C :: A__0 ) ;",
        ]
    );
}

#[test]
fn a_separator_stands_between_elements() {
    let sep = Some((call("S"), SepKind::Simple));
    let inner = [
        "A__0: rt . ret ( ) ;",
        "A__1__0: rt . ret ( ) ;",
        "A__1__1: rt . call ( _C :: A__1 , _C :: A__1__0 ) ;",
        "A__1__2: rt . call ( _C :: S , _C :: A__1__1 ) ; rt . spawn ( _C :: A__1__0 ) ;",
        "A__1: rt . call ( _C :: B , _C :: A__1__2 ) ;",
    ];
    let more_arms = arms(more(call("B"), sep.clone()), false);
    assert_eq!(more_arms[..5], inner);
    assert_eq!(more_arms[5..], ["A: rt . call ( _C :: A__1 , _C :: A__0 ) ;"]);
    let many_arms = arms(many(call("B"), sep), false);
    assert_eq!(many_arms[..5], inner);
    assert_eq!(
        many_arms[5..],
        ["A: rt . call ( _C :: A__1 , _C :: A__0 ) ; rt . spawn ( _C :: A__0 ) ;"]
    );
}

#[test]
fn a_last_separator_comes_after_the_repetition() {
    let sep = Some((call("S"), SepKind::Trailing));
    assert_eq!(
        arms(more(call("B"), sep), false),
        [
            "A__0: rt . ret ( ) ;",
            "A__1: rt . call ( _C :: S , _C :: A__0 ) ; rt . spawn ( _C :: A__0 ) ;",
            "A__2__0: rt . ret ( ) ;",
            "A__2__1: rt . call ( _C :: A__2 , _C :: A__2__0 ) ;",
            "A__2__2: rt . call ( _C :: S , _C :: A__2__1 ) ; rt . spawn ( _C :: A__2__0 ) ;",
            "A__2: rt . call ( _C :: B , _C :: A__2__2 ) ;",
            "A: rt . call ( _C :: A__2 , _C :: A__1 ) ;",
        ]
    );
}

#[test]
fn nodes_in_a_row_are_saved_and_split() {
    assert_eq!(
        arms(concat(call("B"), call("C")), true),
        [
            "A__0: let saved = rt . take_saved ( ) ; \
             rt . forest_add_split ( _P :: _0 , saved , ) ; rt . ret ( ) ;",
            "A__1: rt . save ( _P :: B ) ; rt . call ( _C :: C , _C :: A__0 ) ;",
            "A: rt . call ( _C :: B , _C :: A__1 ) ;",
        ]
    );
}

#[test]
fn nodes_that_are_saved_inside_of_others_have_a_function_of_their_own() {
    assert_eq!(
        arms(concat(call("B"), concat(call("C"), call("D"))), true),
        [
            "A__0: let saved = rt . take_saved ( ) ; \
             rt . forest_add_split ( _P :: _0 , saved , ) ; rt . ret ( ) ;",
            "A__1__0: let saved = rt . take_saved ( ) ; \
             rt . forest_add_split ( _P :: _1 , saved , ) ; rt . ret ( ) ;",
            "A__1__1: rt . save ( _P :: C ) ; rt . call ( _C :: D , _C :: A__1__0 ) ;",
            "A__1: rt . call ( _C :: C , _C :: A__1__1 ) ;",
            "A__2: rt . save ( _P :: B ) ; rt . call ( _C :: A__1 , _C :: A__0 ) ;",
            "A: rt . call ( _C :: B , _C :: A__2 ) ;",
        ]
    );
}

#[test]
fn a_function_that_a_branch_has_opened_ends_with_the_branch() {
    assert_eq!(
        arms(concat(call("B"), opt(concat(call("C"), call("D")))), true),
        [
            "A__0: let saved = rt . take_saved ( ) ; \
             rt . forest_add_split ( _P :: _0 , saved , ) ; rt . ret ( ) ;",
            "A__1__0: let saved = rt . take_saved ( ) ; \
             rt . forest_add_split ( _P :: _1 , saved , ) ; rt . ret ( ) ;",
            "A__1__1: rt . save ( _P :: C ) ; rt . call ( _C :: D , _C :: A__1__0 ) ;",
            "A__1: rt . call ( _C :: C , _C :: A__1__1 ) ;",
            "A__2: rt . save ( _P :: B ) ; rt . call ( _C :: A__1 , _C :: A__0 ) ; \
             rt . spawn ( _C :: A__0 ) ;",
            "A: rt . call ( _C :: B , _C :: A__2 ) ;",
        ]
    );
}

#[test]
fn cases_are_noted_as_choices() {
    assert_eq!(
        arms(or(vec![call("B"), call("C")]), true),
        [
            "A__0: rt . ret ( ) ;",
            "A__1: rt . forest_add_choice ( _P :: _0 , _P :: B ) ; rt . spawn ( _C :: A__0 ) ;",
            "A__2: rt . forest_add_choice ( _P :: _0 , _P :: C ) ; rt . spawn ( _C :: A__0 ) ;",
            "A: rt . call ( _C :: B , _C :: A__1 ) ; rt . call ( _C :: C , _C :: A__2 ) ;",
        ]
    );
}

#[test]
fn rules_are_seen_in_the_order_of_generation() {
    let pair = concat(eat("a"), eat("b"));
    assert_eq!(seen(pair.clone()), codes(&[eat("a"), pair.clone()]));
    let outer = concat(pair.clone(), concat(eat("c"), eat("d")));
    assert_eq!(
        seen(outer.clone()),
        codes(&[pair.clone(), outer, eat("c"), concat(eat("c"), eat("d")), eat("a")])
    );
    let choice = or(vec![pair.clone(), eat("c")]);
    assert_eq!(seen(choice.clone()), codes(&[pair, choice, eat("a"), eat("c")]));
    assert_eq!(seen(opt(eat("a"))), codes(&[]));
}

#[test]
fn rules_of_repetitions_are_seen_in_the_order_of_generation() {
    assert_eq!(seen(many(eat("a"), None)), codes(&[eat("a"), more(eat("a"), None)]));
    assert_eq!(seen(more(eat("a"), None)), codes(&[eat("a"), more(eat("a"), None)]));
    let whole = more(eat("a"), Some((eat(","), SepKind::Simple)));
    let simple = codes(&[eat("a"), eat(","), concat(eat(","), whole.clone()), whole.clone()]);
    assert_eq!(seen(whole), simple);
    assert_eq!(seen(many(eat("a"), Some((eat(","), SepKind::Simple)))), simple);
    assert_eq!(seen(more(eat("a"), Some((eat(","), SepKind::Trailing)))), simple);
}

#[test]
fn the_separator_of_a_last_separator_is_seen_first() {
    let sep = concat(eat("x"), eat("y"));
    let whole = more(eat("a"), Some((sep.clone(), SepKind::Simple)));
    let rest = concat(sep.clone(), whole.clone());
    assert_eq!(
        seen(more(eat("a"), Some((sep.clone(), SepKind::Trailing)))),
        codes(&[eat("x"), sep, eat("a"), rest, whole])
    );
}

#[test]
fn without_nodes_no_rule_is_seen() {
    let (_, rules) = generated(&or(vec![concat(eat("a"), eat("b")), eat("c")]), false);
    assert_eq!(rules.len(), 0);
}

#[test]
fn each_label_that_is_handed_out_gets_code_once() {
    let sep = Some((concat(call("S"), eat(",")), SepKind::Trailing));
    let deep = concat(
        opt(concat(call("B"), many(concat(eat("x"), call("C")), sep))),
        or(vec![concat(concat(eat("a"), eat("b")), call("D")), more(opt(call("E")), None)]),
    );
    for nodes in [false, true] {
        let (cont, _) = generated(&deep, nodes);
        let mut labels: Vec<String> =
            cont.code_label_arms.iter().map(|(label, _)| label.flattened_name()).collect();
        let mut issued = vec!["A".to_string()];
        for inner in cont.code_labels.values() {
            issued.extend(inner.iter().map(|label| label.flattened_name()));
        }
        labels.sort();
        issued.sort();
        assert_eq!(labels, issued);
        labels.dedup();
        assert_eq!(labels, issued);
    }
}

#[test]
fn code_at_a_label_is_jumped_to() {
    let mut cont = start("A");
    cont.ret();
    let label = cont.to_label();
    assert_eq!(label.flattened_name(), "A__0");
    assert_eq!(cont.to_label().flattened_name(), "A__0");
    let code = code_to_src(cont.to_inline()).to_ugly_string();
    assert_eq!(code, "rt . spawn ( _C :: A__0 ) ;");
    assert_eq!(cont.next_code_label().flattened_name(), "A__1");
    assert_eq!(shown(&cont), ["A__0: rt . ret ( ) ;"]);
}

#[test]
fn labels_are_never_handed_out_twice() {
    let mut cont = start("A");
    let mut names = vec![];
    for _ in 0..3 {
        names.push(cont.next_code_label().flattened_name());
    }
    let inner = cont.enter();
    names.push(inner.flattened_name());
    for _ in 0..2 {
        names.push(cont.next_code_label().flattened_name());
    }
    cont.fn_code_label = label("A");
    names.push(cont.next_code_label().flattened_name());
    assert_eq!(names, ["A__0", "A__1", "A__2", "A__3", "A__3__0", "A__3__1", "A__4"]);
}

#[test]
fn instructions_are_written_as_source_code() {
    let kind = || ParseNodeKind::Anon(1);
    let code = vec![
        Instr::TakeSaved,
        Instr::Save(kind()),
        Instr::If(
            Src::ident("ok"),
            vec![
                Instr::AddSplit(kind()),
                Instr::AddChoice(ParseNodeKind::NamedRule("B".to_string()), kind()),
                Instr::If(Src::number(1), vec![]),
            ],
        ),
        Instr::Call(label("B"), label("A")),
        Instr::Spawn(label("A")),
        Instr::Ret,
    ];
    let text = "let saved = rt . take_saved ( ) ; rt . save ( _P :: _1 ) ; \
                if ok { rt . forest_add_split ( _P :: _1 , saved , ) ; \
                rt . forest_add_choice ( _P :: B , _P :: _1 ) ; if 1 { } } \
                rt . call ( _C :: B , _C :: A ) ; rt . spawn ( _C :: A ) ; rt . ret ( ) ;";
    assert_eq!(code_to_src(&code).to_ugly_string(), text);
    assert_eq!(code_to_src(&clone_instrs(&code)).to_ugly_string(), text);
}
