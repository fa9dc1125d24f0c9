//! What generated code declares of the nodes of parse forests and of the labels of its code.
use crate::continuation::parent_of;
use crate::debug::DEBUG_FORMAT;
use crate::label::{flat_name, label_src, labels_of, rule_label, CodeLabel, LabelSpec};
use crate::maps::{fn_labels, has_key, labels_get, labels_has, labels_len};
use crate::node::{
    kind_name, kind_src, shape_src, KindSpec, ParseNodeKind, ParseNodeShape, ShapeSpec,
};
use crate::text::{escape_backticks, escape_backticks_in};
use crate::tokens::{fill, listed, quote2, quote3, repeated, string, texts, word, Src, SrcSpec};
use indexmap::IndexMap;
use std::rc::Rc;
use vstd::prelude::*;

verus! {

/// What generated code declares of a kind of nodes.
pub struct ParseNode {
    pub kind: ParseNodeKind,
    pub desc: String,
    pub shape: ParseNodeShape<ParseNodeKind>,
    pub ty: Option<Src>,
}

/// What a [`ParseNode`] is.
pub struct NodeSpec {
    pub kind: KindSpec,
    pub desc: Seq<char>,
    pub shape: ShapeSpec,
    pub ty: Option<SrcSpec>,
}

impl View for ParseNode {
    type V = NodeSpec;

    open spec fn view(&self) -> NodeSpec {
        NodeSpec {
            kind: self.kind@,
            desc: self.desc@,
            shape: self.shape@,
            ty: match self.ty {
                Some(ty) => Some(ty@),
                None => None,
            },
        }
    }
}

/// What some nodes are.
pub open spec fn nodes_of(nodes: Seq<ParseNode>) -> Seq<NodeSpec> {
    nodes.map_values(|node: ParseNode| node@)
}

pub const NODE: &'static str = "# [ doc = $ ]
$ ,";

pub const MATCH_ARM: &'static str = "$ => $";

pub const NODES: &'static str = "pub struct _G ;

# [ derive ( Copy , Clone , PartialEq , Eq , PartialOrd , Ord , Debug , Hash ) ]
pub enum _P {
    $
}

impl gll :: forest :: GrammarReflector for _G {
    type ParseNodeKind = _P ;

    fn parse_node_shape ( & self , kind : _P ) -> ParseNodeShape < _P > {
        match kind {
            $
        }
    }
    fn parse_node_desc ( & self , kind : _P ) -> String {
        let s = match kind {
            $
        } ;
        s . to_string ( )
    }
}";

/// The text that documents a kind of nodes: its description as code.
pub open spec fn node_doc(desc: Seq<char>) -> Seq<char> {
    "`"@ + escape_backticks(desc) + "`"@
}

/// The variant for each kind of nodes.
pub open spec fn node_decls(nodes: Seq<NodeSpec>) -> spec_fn(int) -> SrcSpec {
    |i: int| fill(NODE@, seq![string(node_doc(nodes[i].desc)), word(kind_name(nodes[i].kind))])
}

/// The shape of each kind of nodes.
pub open spec fn node_shapes(nodes: Seq<NodeSpec>) -> spec_fn(int) -> SrcSpec {
    |i: int| fill(MATCH_ARM@, seq![kind_src(nodes[i].kind), shape_src(nodes[i].shape)])
}

/// The description of each kind of nodes.
pub open spec fn node_descs(nodes: Seq<NodeSpec>) -> spec_fn(int) -> SrcSpec {
    |i: int| fill(MATCH_ARM@, seq![kind_src(nodes[i].kind), string(nodes[i].desc)])
}

/// The declaration of all kinds of nodes.
pub open spec fn nodes_src(nodes: Seq<NodeSpec>) -> SrcSpec {
    fill(
        NODES@,
        seq![
            repeated(nodes.len(), node_decls(nodes)),
            listed(nodes.len(), node_shapes(nodes)),
            listed(nodes.len(), node_descs(nodes)),
        ],
    )
}

/// The declaration of all kinds of nodes.
pub fn declare_parse_node_kind(all_parse_nodes: &Vec<ParseNode>) -> (r: Src)
    ensures
        r@ == nodes_src(nodes_of(all_parse_nodes@)),
{
    let ghost nodes = nodes_of(all_parse_nodes@);
    let mut decls = Src::new();
    let mut shapes = Src::new();
    let mut descs = Src::new();
    let mut i: usize = 0;
    while i < all_parse_nodes.len()
        invariant
            i <= all_parse_nodes.len(),
            nodes == nodes_of(all_parse_nodes@),
            decls@ == repeated(i as nat, node_decls(nodes)),
            shapes@ == listed(i as nat, node_shapes(nodes)),
            descs@ == listed(i as nat, node_descs(nodes)),
        decreases all_parse_nodes.len() - i,
    {
        let node = &all_parse_nodes[i];
        assert(nodes[i as int] == node@);
        let mut doc = "`".to_owned();
        doc.append(escape_backticks_in(node.desc.as_str()).as_str());
        doc.append("`");
        decls.append(quote2(NODE, Src::string(doc.as_str()), node.kind.ident()));
        shapes.list(quote2(MATCH_ARM, node.kind.to_src(), node.shape.to_src()), i == 0);
        descs.list(
            quote2(MATCH_ARM, node.kind.to_src(), Src::string(node.desc.as_str())),
            i == 0,
        );
        i += 1;
    }
    quote3(NODES, decls, shapes, descs)
}

pub const ANY_ARM: &'static str = "$ => write ! ( f , $ , Handle :: < _ , $ > {
    node : self . node ,
    forest : self . forest ,
    _marker : PhantomData ,
} ) ,";

pub const ANY_IMPL: &'static str = "impl < I : gll :: input :: Input > fmt :: Debug
    for Handle < '_ , '_ , I , Any >
{
    fn fmt ( & self , f : & mut fmt :: Formatter < '_ > ) -> fmt :: Result {
        match self . node . kind {
            $
            _ => write ! ( f , $ , Handle :: < _ , ( ) > {
                node : self . node ,
                forest : self . forest ,
                _marker : PhantomData ,
            } ) ,
        }
    }
}";

/// How each kind of nodes that has a type is printed.
pub open spec fn any_arms(nodes: Seq<NodeSpec>) -> spec_fn(int) -> SrcSpec {
    |i: int|
        match nodes[i].ty {
            Some(ty) => fill(
                ANY_ARM@,
                seq![kind_src(nodes[i].kind), string(DEBUG_FORMAT@), ty],
            ),
            None => Seq::empty(),
        }
}

/// The code that prints a handle of any type.
pub open spec fn any_debug_src(nodes: Seq<NodeSpec>) -> SrcSpec {
    fill(ANY_IMPL@, seq![repeated(nodes.len(), any_arms(nodes)), string(DEBUG_FORMAT@)])
}

/// The code that prints a handle of any type.
pub fn impl_debug_for_handle_any(all_parse_nodes: &Vec<ParseNode>) -> (r: Src)
    ensures
        r@ == any_debug_src(nodes_of(all_parse_nodes@)),
{
    let ghost nodes = nodes_of(all_parse_nodes@);
    let mut arms = Src::new();
    let mut i: usize = 0;
    while i < all_parse_nodes.len()
        invariant
            i <= all_parse_nodes.len(),
            nodes == nodes_of(all_parse_nodes@),
            arms@ == repeated(i as nat, any_arms(nodes)),
        decreases all_parse_nodes.len() - i,
    {
        let node = &all_parse_nodes[i];
        assert(nodes[i as int] == node@);
        let ghost before = arms@;
        match &node.ty {
            Some(ty) => {
                arms.append(
                    quote3(ANY_ARM, node.kind.to_src(), Src::string(DEBUG_FORMAT), ty.clone()),
                );
            },
            None => {
                assert(before + Seq::empty() =~= before);
            },
        }
        i += 1;
    }
    quote2(ANY_IMPL, arms, Src::string(DEBUG_FORMAT))
}

pub const CODE_LABELS: &'static str = "# [ allow ( non_camel_case_types ) ]
# [ derive ( Copy , Clone , PartialEq , Eq , PartialOrd , Ord , Debug , Hash ) ]
enum _C {
    $
}
impl gll :: runtime :: CodeLabel for _C {
    type GrammarReflector = _G ;
    type ParseNodeKind = _P ;

    fn enclosing_fn ( self ) -> Self {
        match self {
            $
        }
    }
}";

/// The labels inside of the first `n` functions.
pub open spec fn inner_labels(labels: Seq<(LabelSpec, Seq<LabelSpec>)>, n: nat) -> Seq<LabelSpec>
    decreases n,
{
    if n == 0 {
        Seq::empty()
    } else {
        inner_labels(labels, (n - 1) as nat) + labels[n - 1].1
    }
}

/// The labels of the rules, and after them those inside of the functions.
pub open spec fn all_labels(
    names: Seq<Seq<char>>,
    labels: Seq<(LabelSpec, Seq<LabelSpec>)>,
) -> Seq<LabelSpec> {
    names.map_values(|name: Seq<char>| rule_label(name)) + inner_labels(labels, labels.len())
}

/// The label of the function that the code at a label belongs to.
pub open spec fn enclosing_fn(
    label: LabelSpec,
    labels: Seq<(LabelSpec, Seq<LabelSpec>)>,
) -> LabelSpec {
    if label.1.len() > 0 && !has_key(labels, label) {
        parent_of(label)
    } else {
        label
    }
}

/// The variant for each label.
pub open spec fn label_decls(all: Seq<LabelSpec>) -> spec_fn(int) -> SrcSpec {
    |i: int| word(flat_name(all[i]))
}

/// The function of each label.
pub open spec fn label_fns(
    all: Seq<LabelSpec>,
    labels: Seq<(LabelSpec, Seq<LabelSpec>)>,
) -> spec_fn(int) -> SrcSpec {
    |i: int| fill(MATCH_ARM@, seq![label_src(all[i]), label_src(enclosing_fn(all[i], labels))])
}

/// The declaration of all labels.
pub open spec fn labels_src(
    names: Seq<Seq<char>>,
    labels: Seq<(LabelSpec, Seq<LabelSpec>)>,
) -> SrcSpec {
    let all = all_labels(names, labels);
    fill(
        CODE_LABELS@,
        seq![listed(all.len(), label_decls(all)), listed(all.len(), label_fns(all, labels))],
    )
}

/// The labels of the rules, and after them those inside of the functions.
fn gather_labels(
    names: &Vec<String>,
    code_labels: &IndexMap<(String, Vec<usize>), Vec<Rc<CodeLabel>>>,
) -> (r: Vec<Rc<CodeLabel>>)
    ensures
        labels_of(r@) == all_labels(texts(names@), fn_labels(*code_labels)),
{
    let mut all: Vec<Rc<CodeLabel>> = Vec::new();
    let ghost rule_labels = texts(names@).map_values(
        |name: Seq<char>| rule_label(name),
    );
    let ghost labels = fn_labels(*code_labels);
    let mut i: usize = 0;
    while i < names.len()
        invariant
            i <= names.len(),
            rule_labels == texts(names@).map_values(
                |name: Seq<char>| rule_label(name),
            ),
            labels_of(all@) == rule_labels.take(i as int),
        decreases names.len() - i,
    {
        let ghost before = all@;
        all.push(Rc::new(CodeLabel::NamedRule(names[i].clone())));
        i += 1;
        assert(labels_of(all@) =~= labels_of(before).push(rule_label(names@[i - 1]@)));
        assert(rule_labels.take(i as int) =~= rule_labels.take(i - 1).push(rule_labels[i - 1]));
    }
    assert(rule_labels.take(names@.len() as int) =~= rule_labels);
    assert(rule_labels + inner_labels(labels, 0) =~= rule_labels);
    let mut i: usize = 0;
    let n = labels_len(code_labels);
    while i < n
        invariant
            labels == fn_labels(*code_labels),
            n == labels.len(),
            i <= n,
            labels_of(all@) == rule_labels + inner_labels(labels, i as nat),
        decreases n - i,
    {
        let (_, inner) = labels_get(code_labels, i).unwrap();
        let ghost start = labels_of(all@);
        let mut k: usize = 0;
        assert(start + labels_of(inner@).take(0) =~= start);
        while k < inner.len()
            invariant
                k <= inner.len(),
                labels_of(all@) == start + labels_of(inner@).take(k as int),
            decreases inner.len() - k,
        {
            let ghost before = all@;
            all.push(inner[k].clone());
            k += 1;
            assert(labels_of(all@) =~= labels_of(before).push(inner@[k - 1].label()));
            assert(labels_of(all@) =~= start + labels_of(inner@).take(k as int));
        }
        assert(labels_of(inner@).take(inner@.len() as int) =~= labels_of(inner@));
        i += 1;
        assert(labels_of(all@) =~= rule_labels + inner_labels(labels, i as nat));
    }
    all
}

/// The declaration of all labels.
pub fn code_label_decl_and_impls(
    names: &Vec<String>,
    code_labels: &IndexMap<(String, Vec<usize>), Vec<Rc<CodeLabel>>>,
) -> (r: Src)
    ensures
        r@ == labels_src(texts(names@), fn_labels(*code_labels)),
{
    let all = gather_labels(names, code_labels);
    let ghost specs = labels_of(all@);
    let ghost labels = fn_labels(*code_labels);
    let mut decls = Src::new();
    let mut fns = Src::new();
    let mut i: usize = 0;
    while i < all.len()
        invariant
            i <= all.len(),
            specs == labels_of(all@),
            labels == fn_labels(*code_labels),
            decls@ == listed(i as nat, label_decls(specs)),
            fns@ == listed(i as nat, label_fns(specs, labels)),
        decreases all.len() - i,
    {
        let label = &all[i];
        assert(specs[i as int] == label.label());
        decls.list(label.flattened_ident(), i == 0);
        let enclosing = match &**label {
            CodeLabel::Nested { parent, i: _ } => {
                assert(parent_of(label.label()) == parent.label()) by {
                    assert(label.label().1.drop_last() =~= parent.label().1);
                }
                let key = label.key();
                if !labels_has(code_labels, &key) {
                    parent.clone()
                } else {
                    label.clone()
                }
            },
            CodeLabel::NamedRule(_) => label.clone(),
        };
        fns.list(quote2(MATCH_ARM, label.to_src(), enclosing.to_src()), i == 0);
        i += 1;
    }
    quote2(CODE_LABELS, decls, fns)
}

} // verus!
