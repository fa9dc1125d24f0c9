use gll_codegen::debug::{rule_debug_impl, rule_debug_impls, rule_handle_debug_impl};
use gll_codegen::declare::impl_parse_with;
use gll_codegen::fields::RuleWithNamedFields;
use gll_codegen::forest::{impl_rule_from_forest, impl_rule_one_and_all};
use gll_codegen::generate::{
    declare_rule, define_parse_fn, generate, try_generate, Grammar, NoParser,
};
use gll_codegen::node::{ParseNodeKind, ParseNodeShape};
use gll_codegen::pattern::SPat;
use gll_codegen::reflect::{
    code_label_decl_and_impls, declare_parse_node_kind, impl_debug_for_handle_any, ParseNode,
};
use gll_codegen::rule::{Rule, SepKind};
use gll_codegen::table::RuleMap;
use gll_codegen::tokens::Src;
use indexmap::IndexMap;
use std::rc::Rc;

type R = Rc<Rule<SPat>>;

fn eat(s: &str) -> R {
    Rc::new(Rule::Eat(SPat::String(s.to_string())))
}

fn call(name: &str) -> R {
    Rc::new(Rule::Call(name.to_string()))
}

fn concat(a: R, b: R) -> R {
    Rc::new(Rule::Concat(a, b))
}

fn or(cases: Vec<R>) -> R {
    Rc::new(Rule::Or(cases))
}

fn opt(a: R) -> R {
    Rc::new(Rule::Opt(a))
}

fn named(rule: R, fields: &[(&str, &[&[usize]])]) -> RuleWithNamedFields<SPat> {
    let mut map = IndexMap::new();
    for (name, paths) in fields {
        map.insert(name.to_string(), paths.iter().map(|path| path.to_vec()).collect());
    }
    RuleWithNamedFields { rule, fields: map }
}

fn grammar(rules: Vec<(&str, RuleWithNamedFields<SPat>)>) -> Grammar<SPat> {
    let mut g = Grammar::new();
    for (name, rule) in rules {
        g.insert(name.to_string(), rule);
    }
    g
}

/// A pair of a rule that is always there and one that may be missing.
fn pair() -> RuleWithNamedFields<SPat> {
    named(concat(call("A"), opt(call("B"))), &[("x", &[&[0]]), ("y", &[&[1, 0]])])
}

/// A choice between a rule and a pair of rules.
fn choice() -> RuleWithNamedFields<SPat> {
    named(
        or(vec![call("A"), concat(opt(call("B")), call("C"))]),
        &[("First", &[&[0]]), ("Second", &[&[1]]), ("b", &[&[1, 0, 0]]), ("c", &[&[1, 1]])],
    )
}

#[test]
fn a_rule_can_be_parsed() {
    assert_eq!(
        impl_parse_with::<SPat>("Foo").to_ugly_string(),
        "impl < I > Foo < '_ , '_ , I > where I : gll :: input :: Input < Slice = str > , { \
         pub fn parse ( input : I ) -> Result < OwnedHandle < I , Self > , \
         gll :: parser :: ParseError < I :: SourceInfoPoint > , > { \
         gll :: runtime :: Runtime :: parse ( _G , input , _C :: Foo , _P :: Foo , ) \
         . map ( | forest_and_node | OwnedHandle { forest_and_node , _marker : PhantomData , } ) \
         } } \
         impl < I : gll :: input :: Input > OwnedHandle < I , Foo < '_ , '_ , I > > { \
         pub fn with < R > ( & self , f : impl for < 'a , 'i > \
         FnOnce ( Handle < 'a , 'i , I , Foo < 'a , 'i , I > > ) -> R ) -> R { \
         self . forest_and_node . unpack_ref ( | _ , forest_and_node | { \
         let ( ref forest , node ) = * forest_and_node ; \
         f ( Handle { node , forest , _marker : PhantomData , } ) } ) } }"
    );
}

#[test]
fn a_structure_is_printed_field_by_field() {
    assert_eq!(
        rule_debug_impl("Foo", &pair(), None).to_ugly_string(),
        "impl < I : gll :: input :: Input > fmt :: Debug for Foo < '_ , '_ , I > { \
         fn fmt ( & self , f : & mut fmt :: Formatter < '_ > ) -> fmt :: Result { \
         let mut d = f . debug_struct ( \"Foo\" ) ; \
         d . field ( \"x\" , & self . x ) ; \
         if let Some ( ref field ) = self . y { d . field ( \"y\" , field ) ; } \
         d . finish ( ) } }"
    );
}

#[test]
fn an_enumeration_is_printed_by_its_variant() {
    let rule = choice();
    let variants = rule.find_variant_fields();
    assert_eq!(
        rule_debug_impl("Foo", &rule, variants.as_ref()).to_ugly_string(),
        "impl < I : gll :: input :: Input > fmt :: Debug for Foo < '_ , '_ , I > { \
         fn fmt ( & self , f : & mut fmt :: Formatter < '_ > ) -> fmt :: Result { \
         match self { \
         Foo :: First ( x ) => f . debug_tuple ( \"Foo::First\" ) . field ( x ) . finish ( ) , \
         Foo :: Second { b : f_b , c : f_c , } => { \
         let mut d = f . debug_struct ( \"Foo::Second\" ) ; \
         if let Some ( field ) = f_b { d . field ( \"b\" , field ) ; } \
         d . field ( \"c\" , f_c ) ; \
         d . finish ( ) } } } }"
    );
}

#[test]
fn a_handle_is_printed_with_all_values_it_stands_for() {
    let end = "impl < I : gll :: input :: Input > fmt :: Debug \
               for OwnedHandle < I , Foo < '_ , '_ , I > > { \
               fn fmt ( & self , f : & mut fmt :: Formatter < '_ > ) -> fmt :: Result { \
               self . with ( | handle | handle . fmt ( f ) ) } }";
    let start = "impl < 'a , 'i , I : gll :: input :: Input > fmt :: Debug \
                 for Handle < 'a , 'i , I , Foo < 'a , 'i , I > > { \
                 fn fmt ( & self , f : & mut fmt :: Formatter < '_ > ) -> fmt :: Result { \
                 write ! ( f , \"{:?}\" , self . source_info ( ) ) ? ;";
    let values = "write ! ( f , \" => \" ) ? ; let mut first = true ; \
                  for x in self . all ( ) { \
                  if ! first { write ! ( f , \" | \" ) ? ; } first = false ; \
                  fmt :: Debug :: fmt ( & x , f ) ? ; }";
    assert_eq!(
        rule_handle_debug_impl("Foo", false).to_ugly_string(),
        format!("{} Ok ( ( ) ) }} }} {}", start, end)
    );
    assert_eq!(
        rule_handle_debug_impl("Foo", true).to_ugly_string(),
        format!("{} {} Ok ( ( ) ) }} }} {}", start, values, end)
    );
}

#[test]
fn handles_of_rules_with_fields_are_printed_with_values() {
    let both = rule_debug_impls("Foo", &pair(), None).to_ugly_string();
    let type_only = rule_debug_impl("Foo", &pair(), None).to_ugly_string();
    let handle = rule_handle_debug_impl("Foo", true).to_ugly_string();
    assert_eq!(both, format!("{} {}", type_only, handle));
    let unit = named(eat("a"), &[]);
    let both = rule_debug_impls("Foo", &unit, None).to_ugly_string();
    assert!(both.ends_with(&rule_handle_debug_impl("Foo", false).to_ugly_string()));
}

#[test]
fn a_structure_is_made_from_the_forest() {
    let mut rules = RuleMap::new();
    assert_eq!(
        impl_rule_from_forest("Foo", &pair(), None, &mut rules).to_ugly_string(),
        "impl < 'a , 'i , I : gll :: input :: Input > Foo < 'a , 'i , I > { \
         fn from_forest ( forest : & 'a gll :: forest :: ParseForest < 'i , _G , I > , \
         _node : ParseNode < 'i , _P > , \
         _r : traverse ! ( typeof ( ParseNode < 'i , _P > ) ( _ , [ ? ] ) ) , ) -> Self { \
         Foo { \
         x : Handle { node : _r . 0 , forest , _marker : PhantomData , } , \
         y : None . or ( _r . 1 . 0 ) . map ( | node | Handle { node , forest , \
         _marker : PhantomData , } ) } } }"
    );
    assert_eq!(rules.len(), 0);
}

#[test]
fn a_structure_without_fields_is_made_from_a_marker() {
    let mut rules = RuleMap::new();
    assert_eq!(
        impl_rule_from_forest("Foo", &named(eat("a"), &[]), None, &mut rules).to_ugly_string(),
        "impl < 'a , 'i , I : gll :: input :: Input > Foo < 'a , 'i , I > { \
         fn from_forest ( forest : & 'a gll :: forest :: ParseForest < 'i , _G , I > , \
         _node : ParseNode < 'i , _P > , \
         _r : traverse ! ( typeof ( ParseNode < 'i , _P > ) _ ) , ) -> Self { \
         Foo { _marker : { let _ = forest ; PhantomData } , } } }"
    );
}

#[test]
fn a_variant_is_made_from_the_forest() {
    let rule = choice();
    let variants = rule.find_variant_fields();
    let mut rules = RuleMap::new();
    let head = "( forest : & 'a gll :: forest :: ParseForest < 'i , _G , I > , \
                _node : ParseNode < 'i , _P > , \
                _r : traverse ! ( typeof ( ParseNode < 'i , _P > )";
    assert_eq!(
        impl_rule_from_forest("Foo", &rule, variants.as_ref(), &mut rules).to_ugly_string(),
        format!(
            "impl < 'a , 'i , I : gll :: input :: Input > Foo < 'a , 'i , I > {{ \
             # [ allow ( non_snake_case ) ] fn First_from_forest {} _ ) , ) -> Self {{ \
             Foo :: First ( Handle {{ node : _node , forest , _marker : PhantomData , }} ) }} \
             # [ allow ( non_snake_case ) ] fn Second_from_forest {} ( [ ? ] , _ ) ) , ) -> Self \
             {{ Foo :: Second {{ \
             b : None . or ( _r . 0 . 0 ) . map ( | node | Handle {{ node , forest , \
             _marker : PhantomData , }} ) , \
             c : Handle {{ node : _r . 1 , forest , _marker : PhantomData , }} }} }} }}",
            head, head
        )
    );
}

#[test]
fn cases_in_a_shape_have_numbers_and_kinds() {
    let mut rules = RuleMap::new();
    let rule = concat(or(vec![eat("a"), opt(call("B"))]), eat("c"));
    assert_eq!(
        Rule::generate_traverse_shape(&rule, false, &mut rules).to_ugly_string(),
        "( { 0 _0 : _P :: _0 => ? , 1 _1 : _P :: _1 => [ ? ] , } , _ )"
    );
    assert_eq!(rules.rule(0).code(), eat("a").code());
    assert_eq!(rules.rule(1).code(), opt(call("B")).code());
    assert_eq!(
        Rule::generate_traverse_shape(&rule, true, &mut rules).to_ugly_string(),
        "( { 0 _0 : _P :: _0 => ? , 1 _1 : _P :: _1 => [ ? ] , } , ? )"
    );
}

#[test]
fn a_field_behind_a_choice_or_an_option_may_be_missing_in_the_shape() {
    let mut rules = RuleMap::new();
    let missing = concat(opt(call("A")), call("B"));
    assert!(missing.field_is_refutable(&[0, 0]));
    assert!(!missing.field_is_refutable(&[1]));
    assert_eq!(
        Rule::generate_traverse_shape(&missing, false, &mut rules).to_ugly_string(),
        "( [ ? ] , _ )"
    );
}

#[test]
fn one_or_all_values_of_a_structure_are_read() {
    let mut rules = RuleMap::new();
    assert_eq!(
        impl_rule_one_and_all("Foo", &pair(), None, &mut rules).to_ugly_string(),
        "impl < 'a , 'i , I > Handle < 'a , 'i , I , Foo < 'a , 'i , I > > \
         where I : gll :: input :: Input , { \
         pub fn one ( self ) -> Result < Foo < 'a , 'i , I > , Ambiguity < Self > > { \
         ( || Ok ( { let forest = self . forest ; \
         let node = forest . unpack_alias ( self . node ) ; \
         let r = traverse ! ( one ( forest , node ) ( _ , [ ? ] ) ) ; \
         Foo :: from_forest ( self . forest , node , r ) \
         } ) ) ( ) . map_err ( | gll :: forest :: MoreThanOne | Ambiguity ( self ) ) } \
         pub fn all ( self ) -> impl Iterator < Item = Foo < 'a , 'i , I > > { \
         let forest = self . forest ; let node = forest . unpack_alias ( self . node ) ; \
         traverse ! ( all ( forest ) ( _ , [ ? ] ) ) . apply ( node ) \
         . map ( move | r | Foo :: from_forest ( self . forest , node , r ) ) } }"
    );
}

#[test]
fn one_or_all_values_of_an_enumeration_are_read() {
    let rule = choice();
    let variants = rule.find_variant_fields();
    let mut rules = RuleMap::new();
    assert_eq!(
        impl_rule_one_and_all("Foo", &rule, variants.as_ref(), &mut rules).to_ugly_string(),
        "impl < 'a , 'i , I > Handle < 'a , 'i , I , Foo < 'a , 'i , I > > \
         where I : gll :: input :: Input , { \
         pub fn one ( self ) -> Result < Foo < 'a , 'i , I > , Ambiguity < Self > > { \
         ( || Ok ( { let forest = self . forest ; \
         let node = forest . unpack_alias ( self . node ) ; \
         let node = forest . one_choice ( node ) ? ; \
         match node . kind { \
         _P :: A => { let r = traverse ! ( one ( forest , node ) _ ) ; \
         Foo :: First_from_forest ( self . forest , node , r ) } \
         _P :: _0 => { let r = traverse ! ( one ( forest , node ) ( [ ? ] , _ ) ) ; \
         Foo :: Second_from_forest ( self . forest , node , r ) } \
         _ => unreachable ! ( ) } \
         } ) ) ( ) . map_err ( | gll :: forest :: MoreThanOne | Ambiguity ( self ) ) } \
         pub fn all ( self ) -> impl Iterator < Item = Foo < 'a , 'i , I > > { \
         let forest = self . forest ; let node = forest . unpack_alias ( self . node ) ; \
         # [ derive ( Clone ) ] enum Iter < _0 , _1 > { _0 ( _0 ) , _1 ( _1 ) } \
         impl < T , _0 : Iterator < Item = T > , _1 : Iterator < Item = T > > \
         Iterator for Iter < _0 , _1 > { type Item = T ; \
         fn next ( & mut self ) -> Option < T > { match self { \
         Iter :: _0 ( iter ) => iter . next ( ) , Iter :: _1 ( iter ) => iter . next ( ) } } } \
         forest . all_choices ( node ) . flat_map ( move | node | { match node . kind { \
         _P :: A => Iter :: _0 ( traverse ! ( all ( forest ) _ ) . apply ( node ) \
         . map ( move | r | Foo :: First_from_forest ( self . forest , node , r ) ) ) , \
         _P :: _0 => Iter :: _1 ( traverse ! ( all ( forest ) ( [ ? ] , _ ) ) . apply ( node ) \
         . map ( move | r | Foo :: Second_from_forest ( self . forest , node , r ) ) ) , \
         _ => unreachable ! ( ) , } } ) } }"
    );
    assert_eq!(rules.len(), 1);
}

#[test]
fn kinds_of_variants_are_seen_before_their_shapes() {
    let rule = named(
        or(vec![or(vec![eat("a"), eat("b")]), eat("c")]),
        &[("First", &[&[0]]), ("Second", &[&[1]])],
    );
    let variants = rule.find_variant_fields();
    let mut rules = RuleMap::new();
    impl_rule_one_and_all("Foo", &rule, variants.as_ref(), &mut rules);
    let expected = [or(vec![eat("a"), eat("b")]), eat("c"), eat("a"), eat("b")];
    assert_eq!(rules.len(), 4);
    for i in 0..4 {
        assert_eq!(rules.rule(i).code(), expected[i].code());
    }
}

#[test]
fn nodes_are_declared_with_shape_and_description() {
    let nodes = vec![
        ParseNode {
            kind: ParseNodeKind::NamedRule("Foo".to_string()),
            desc: "Foo".to_string(),
            shape: ParseNodeShape::Alias(ParseNodeKind::Anon(0)),
            ty: Some(Src::ident("Foo")),
        },
        ParseNode {
            kind: ParseNodeKind::Anon(0),
            desc: "\"`\"".to_string(),
            shape: ParseNodeShape::Opaque,
            ty: None,
        },
    ];
    assert_eq!(
        declare_parse_node_kind(&nodes).to_ugly_string(),
        "pub struct _G ; \
         # [ derive ( Copy , Clone , PartialEq , Eq , PartialOrd , Ord , Debug , Hash ) ] \
         pub enum _P { # [ doc = \"`Foo`\" ] Foo , # [ doc = \"`\\\"\\\\`\\\"`\" ] _0 , } \
         impl gll :: forest :: GrammarReflector for _G { type ParseNodeKind = _P ; \
         fn parse_node_shape ( & self , kind : _P ) -> ParseNodeShape < _P > { match kind { \
         _P :: Foo => ParseNodeShape :: Alias ( _P :: _0 ) , \
         _P :: _0 => ParseNodeShape :: Opaque } } \
         fn parse_node_desc ( & self , kind : _P ) -> String { let s = match kind { \
         _P :: Foo => \"Foo\" , _P :: _0 => \"\\\"`\\\"\" } ; s . to_string ( ) } }"
    );
    assert_eq!(
        impl_debug_for_handle_any(&nodes).to_ugly_string(),
        "impl < I : gll :: input :: Input > fmt :: Debug for Handle < '_ , '_ , I , Any > { \
         fn fmt ( & self , f : & mut fmt :: Formatter < '_ > ) -> fmt :: Result { \
         match self . node . kind { \
         _P :: Foo => write ! ( f , \"{:?}\" , Handle :: < _ , Foo > { node : self . node , \
         forest : self . forest , _marker : PhantomData , } ) , \
         _ => write ! ( f , \"{:?}\" , Handle :: < _ , ( ) > { node : self . node , \
         forest : self . forest , _marker : PhantomData , } ) , } } }"
    );
}

#[test]
fn the_code_of_all_rules_is_run_by_label() {
    let g = grammar(vec![
        ("A", named(eat("a"), &[])),
        ("B", named(Rc::new(Rule::RepeatMany(call("A"), None)), &[])),
    ]);
    let mut rules = RuleMap::new();
    let (src, code_labels) = define_parse_fn(&g, &mut rules);
    assert_eq!(
        src.to_ugly_string(),
        "impl < I > gll :: runtime :: CodeStep < I > for _C \
         where I : gll :: input :: Input < Slice = str > , { \
         fn step < 'i > ( self , mut rt : gll :: runtime :: Runtime < '_ , 'i , _C , I > ) { \
         match self { \
         _C :: A => { if let Some ( mut rt ) = rt . input_consume_left ( & ( \"a\" ) ) \
         { rt . ret ( ) ; } } \
         _C :: B__0 => { rt . ret ( ) ; } \
         _C :: B__1__0 => { rt . ret ( ) ; } \
         _C :: B__1__1 => { rt . call ( _C :: B__1 , _C :: B__1__0 ) ; } \
         _C :: B__1 => { rt . call ( _C :: A , _C :: B__1__1 ) ; \
         rt . spawn ( _C :: B__1__0 ) ; } \
         _C :: B => { rt . call ( _C :: B__1 , _C :: B__0 ) ; } } } }"
    );
    assert_eq!(rules.len(), 0);
    let names = vec!["A".to_string(), "B".to_string()];
    assert_eq!(
        code_label_decl_and_impls(&names, &code_labels).to_ugly_string(),
        "# [ allow ( non_camel_case_types ) ] \
         # [ derive ( Copy , Clone , PartialEq , Eq , PartialOrd , Ord , Debug , Hash ) ] \
         enum _C { A , B , B__0 , B__1 , B__1__0 , B__1__1 } \
         impl gll :: runtime :: CodeLabel for _C { type GrammarReflector = _G ; \
         type ParseNodeKind = _P ; fn enclosing_fn ( self ) -> Self { match self { \
         _C :: A => _C :: A , _C :: B => _C :: B , _C :: B__0 => _C :: B , \
         _C :: B__1 => _C :: B__1 , _C :: B__1__0 => _C :: B__1 , \
         _C :: B__1__1 => _C :: B__1 } } }"
    );
}

#[test]
fn a_rule_is_declared_with_all_that_reads_it() {
    let rule = choice();
    let variants = rule.find_variant_fields();
    let mut rules = RuleMap::new();
    let declared = declare_rule("Foo", &rule, &mut rules).to_ugly_string();
    let mut again = RuleMap::new();
    let from_forest = impl_rule_from_forest("Foo", &rule, variants.as_ref(), &mut again);
    let one_and_all = impl_rule_one_and_all("Foo", &rule, variants.as_ref(), &mut again);
    let debug = rule_debug_impls("Foo", &rule, variants.as_ref());
    let end = format!(
        " {} {} {}",
        debug.to_ugly_string(),
        from_forest.to_ugly_string(),
        one_and_all.to_ugly_string()
    );
    assert!(declared.ends_with(&end));
    assert!(declared.starts_with("# [ allow ( non_camel_case_types ) ] pub enum Foo <"));
}

#[test]
fn a_grammar_has_a_parser() {
    let g = grammar(vec![
        ("List", named(
            concat(eat("["), concat(
                Rc::new(Rule::RepeatMany(call("Item"), Some((eat(","), SepKind::Simple)))),
                eat("]"),
            )),
            &[("items", &[&[1, 0]])],
        )),
        ("Item", named(eat("x"), &[])),
    ]);
    let src = try_generate(&g, "use a::b;").unwrap().to_ugly_string();
    assert!(src.starts_with("use a::b; # [ allow ( non_camel_case_types ) ] pub struct List <"));
    assert!(src.contains(
        "pub items : Handle < 'a , 'i , I , [ Item < 'a , 'i , I > ] >"
    ));
    assert!(src.contains("_P :: List => ParseNodeShape :: Alias ( _P :: _1 )"));
    assert!(src.contains("_P :: Item => ParseNodeShape :: Opaque"));
    assert!(src.contains("_P :: _2 => \"Item* % \\\",\\\"\""));
    assert!(src.contains(
        "_P :: List => write ! ( f , \"{:?}\" , Handle :: < _ , List < '_ , '_ , _ > > {"
    ));
    assert!(src.contains(
        "_P :: _2 => write ! ( f , \"{:?}\" , Handle :: < _ , [ Item < '_ , '_ , _ > ] > {"
    ));
    let preamble = Src::parse("use a::b;").unwrap();
    assert_eq!(generate(&g, preamble).to_ugly_string(), src);
    assert!(Src::parse(src.as_str()).is_some());
}

#[test]
fn each_declared_label_has_one_piece_of_code() {
    let g = grammar(vec![
        ("A", pair()),
        ("B", choice()),
        ("C", named(Rc::new(Rule::RepeatMore(opt(call("A")), None)), &[])),
    ]);
    let src = try_generate(&g, "").unwrap().to_ugly_string();
    let start = src.find("enum _C {").unwrap() + "enum _C {".len();
    let end = start + src[start..].find('}').unwrap();
    let labels: Vec<&str> = src[start..end].split(',').map(|label| label.trim()).collect();
    assert!(labels.len() > 10);
    for label in &labels {
        let arm = format!(" _C :: {} => {{ ", label);
        assert_eq!(src.matches(arm.as_str()).count(), 1);
        assert_eq!(labels.iter().filter(|other| *other == label).count(), 1);
        let enclosing = format!(" _C :: {} => _C :: ", label);
        let at = src.find(enclosing.as_str()).unwrap() + enclosing.len();
        let function = src[at..].split(' ').next().unwrap();
        assert!(labels.contains(&function));
    }
}

#[test]
fn code_goes_only_to_declared_labels() {
    let sep = Some((concat(eat(","), opt(eat(" "))), SepKind::Trailing));
    let g = grammar(vec![
        ("A", pair()),
        ("B", choice()),
        ("C", named(
            concat(eat("c"), Rc::new(Rule::RepeatMany(concat(call("A"), call("B")), sep))),
            &[("x", &[&[0]])],
        )),
    ]);
    let src = try_generate(&g, "").unwrap().to_ugly_string();
    let start = src.find("enum _C {").unwrap() + "enum _C {".len();
    let end = start + src[start..].find('}').unwrap();
    let labels: Vec<&str> = src[start..end].split(',').map(|label| label.trim()).collect();
    let start = src.find("pub enum _P {").unwrap();
    let end = start + src[start..].find(" } ").unwrap();
    let kinds: Vec<&str> = src[start..end].split(' ').collect();
    let from = src.find("fn step < 'i >").unwrap();
    let to = src.find("pub struct _G ;").unwrap();
    let targets: Vec<&str> = src[from..to].split("_C :: ").skip(1).collect();
    assert!(targets.len() > 20);
    for target in targets {
        assert!(labels.contains(&target.split(' ').next().unwrap()));
    }
    let mentioned: Vec<&str> = src[from..to].split("_P :: ").skip(1).collect();
    assert!(mentioned.len() > 8);
    for kind in mentioned {
        assert!(kinds.contains(&kind.split(' ').next().unwrap()));
    }
    for kind in src[..from].split("_P :: ").skip(1) {
        assert!(kinds.contains(&kind.split(' ').next().unwrap()));
    }
}

#[test]
fn a_rule_replaces_one_of_the_same_name() {
    let mut g = grammar(vec![("A", named(eat("a"), &[])), ("B", named(eat("b"), &[]))]);
    let first = try_generate(&g, "").unwrap().to_ugly_string();
    assert!(first.contains("\"a\""));
    g.insert("A".to_string(), named(eat("c"), &[]));
    let second = try_generate(&g, "").unwrap().to_ugly_string();
    assert!(!second.contains("\"a\""));
    let expected = grammar(vec![("A", named(eat("c"), &[])), ("B", named(eat("b"), &[]))]);
    assert_eq!(second, try_generate(&expected, "").unwrap().to_ugly_string());
}

#[test]
fn a_grammar_without_rules_has_a_parser() {
    let g: Grammar<SPat> = Grammar::new();
    assert!(try_generate(&g, "").unwrap().to_ugly_string().contains("enum _C { }"));
}

#[test]
fn code_that_is_no_source_code_is_an_error() {
    let g: Grammar<SPat> = Grammar::new();
    assert_eq!(try_generate(&g, "fn (").err(), Some(NoParser::Preamble));
}

#[test]
fn a_field_without_a_type_is_an_error() {
    let g = grammar(vec![("A", named(concat(eat("a"), eat("b")), &[("x", &[&[2]])]))]);
    assert_eq!(try_generate(&g, "").err(), Some(NoParser::Type));
}

#[test]
fn nodes_that_stand_for_nodes_without_a_kind_are_an_error() {
    let g = grammar(vec![("A", named(eat("a"), &[("x", &[&[]])]))]);
    assert_eq!(try_generate(&g, "").err(), Some(NoParser::Kind));
    let seen_elsewhere = grammar(vec![
        ("A", named(eat("a"), &[("x", &[&[]])])),
        ("B", named(concat(eat("a"), call("A")), &[("y", &[&[1]])])),
    ]);
    assert!(try_generate(&seen_elsewhere, "").is_ok());
}

#[test]
fn a_choice_of_one_case_is_an_error() {
    let g = grammar(vec![("A", named(or(vec![call("A")]), &[("First", &[&[0]])]))]);
    assert_eq!(try_generate(&g, "").err(), Some(NoParser::Description));
}

#[test]
fn repetitions_with_fields_have_a_kind() {
    let many = Rc::new(Rule::RepeatMany(call("B"), None));
    let g = grammar(vec![("A", named(many, &[("x", &[&[]])])), ("B", named(eat("b"), &[]))]);
    let src = try_generate(&g, "").unwrap().to_ugly_string();
    assert!(src.contains("_P :: A => ParseNodeShape :: Alias ( _P :: _1 )"));
}

#[test]
fn kinds_in_shapes_are_declared_once() {
    let sep = Some((eat(","), SepKind::Trailing));
    let g = grammar(vec![
        ("A", pair()),
        ("B", choice()),
        ("C", named(
            concat(Rc::new(Rule::RepeatMany(call("A"), sep)), opt(eat("c"))),
            &[("a", &[&[0]])],
        )),
    ]);
    let src = try_generate(&g, "").unwrap().to_ugly_string();
    let start = src.find("pub enum _P {").unwrap();
    let end = start + src[start..].find(" } ").unwrap();
    let kinds: Vec<&str> = src[start..end]
        .split("# [ doc = ")
        .skip(1)
        .map(|decl| decl.trim_end_matches(" ,").trim_end_matches(" , ").rsplit(' ').next().unwrap())
        .collect();
    assert!(kinds.len() > 8);
    for kind in &kinds {
        assert_eq!(kinds.iter().filter(|other| *other == kind).count(), 1);
    }
    let shapes = src.find("fn parse_node_shape").unwrap();
    let descs = src.find("fn parse_node_desc").unwrap();
    let mentioned = src[shapes..descs].split("_P :: ").skip(1);
    for kind in mentioned.map(|rest| rest.split(' ').next().unwrap()) {
        assert!(kinds.contains(&kind));
    }
}

#[test]
fn a_grammar_of_describable_rules_has_descriptions_for_all_nodes() {
    let sep = Some((or(vec![eat(","), eat(";")]), SepKind::Trailing));
    let rule = concat(Rc::new(Rule::RepeatMany(call("A"), sep)), or(vec![eat("a"), opt(eat("b"))]));
    assert!(rule.has_description());
    let g = grammar(vec![("A", named(rule, &[("a", &[&[0]])]))]);
    assert!(try_generate(&g, "").is_ok());
}

#[test]
fn names_are_given_in_order_and_once() {
    let mut g = grammar(vec![("b", pair()), ("a", choice()), ("b", choice())]);
    assert_eq!(g.names(), vec!["b".to_string(), "a".to_string()]);
    g.insert("c".to_string(), pair());
    assert_eq!(g.names(), vec!["b".to_string(), "a".to_string(), "c".to_string()]);
}

#[test]
fn patterns_behind_references_give_the_same_parser() {
    let pat = SPat::String("x".to_string());
    let mut by_ref: Grammar<&SPat> = Grammar::new();
    let rule = Rc::new(Rule::RepeatMore(Rc::new(Rule::Eat(&pat)), None));
    let fields = named(eat("x"), &[]).fields;
    by_ref.insert("a".to_string(), RuleWithNamedFields { rule, fields });
    let rule = Rc::new(Rule::RepeatMore(eat("x"), None));
    let by_value = grammar(vec![("a", named(rule, &[]))]);
    let first = try_generate(&by_ref, "").ok().unwrap();
    let second = try_generate(&by_value, "").ok().unwrap();
    assert_eq!(first.to_ugly_string(), second.to_ugly_string());
}
