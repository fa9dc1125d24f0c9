//! Labels of generated code.
use crate::text::{decimal, decimal_string};
use crate::tokens::{fill, quote1, word, Src, SrcSpec};
use std::rc::Rc;
use vstd::prelude::*;

verus! {

/// A place in the generated code: where the code of a rule starts, or a place inside a function.
pub enum CodeLabel {
    NamedRule(String),
    Nested { parent: Rc<CodeLabel>, i: usize },
}

/// What a [`CodeLabel`] is: the name of the rule that it belongs to, and the numbers that lead
/// from the start of that rule's code to it.
pub type LabelSpec = (Seq<char>, Seq<nat>);

/// Where the code of the rule of that name starts.
pub open spec fn rule_label(name: Seq<char>) -> LabelSpec {
    (name, Seq::empty())
}

/// Place `i` inside the function that starts at `parent`.
pub open spec fn nested(parent: LabelSpec, i: nat) -> LabelSpec {
    (parent.0, parent.1.push(i))
}

impl View for CodeLabel {
    type V = LabelSpec;

    open spec fn view(&self) -> LabelSpec {
        self.label()
    }
}

impl CodeLabel {
    /// What the label is.
    pub open spec fn label(&self) -> LabelSpec
        decreases self,
    {
        match self {
            CodeLabel::NamedRule(name) => rule_label(name@),
            CodeLabel::Nested { parent, i } => nested(parent.label(), *i as nat),
        }
    }
}

/// What some labels are.
pub open spec fn labels_of(labels: Seq<Rc<CodeLabel>>) -> Seq<LabelSpec> {
    labels.map_values(|label: Rc<CodeLabel>| label.label())
}

/// Some machine numbers as numbers.
pub open spec fn nats(path: Seq<usize>) -> Seq<nat> {
    path.map_values(|i: usize| i as nat)
}

/// The name of the variant for a label: the rule's name, and two underscores before each number.
pub open spec fn flat_name(label: LabelSpec) -> Seq<char>
    decreases label.1.len(),
{
    if label.1.len() == 0 {
        label.0
    } else {
        flat_name((label.0, label.1.drop_last())) + "__"@ + decimal(label.1.last())
    }
}

pub const LABEL: &'static str = "_C :: $";

/// The path to the variant for a label.
pub open spec fn label_src(label: LabelSpec) -> SrcSpec {
    fill(LABEL@, seq![word(flat_name(label))])
}

impl CodeLabel {
    /// The rule's name and the numbers that the label consists of.
    pub fn key(&self) -> (r: (String, Vec<usize>))
        ensures
            (r.0@, nats(r.1@)) == self.label(),
        decreases self,
    {
        match self {
            CodeLabel::NamedRule(name) => {
                let path: Vec<usize> = Vec::new();
                assert(nats(path@) =~= Seq::empty());
                (name.clone(), path)
            },
            CodeLabel::Nested { parent, i } => {
                let (name, mut path) = parent.key();
                let ghost before = path@;
                path.push(*i);
                assert(nats(path@) =~= nats(before).push(*i as nat));
                (name, path)
            },
        }
    }

    /// The name of the variant for the label.
    pub fn flattened_name(&self) -> (r: String)
        ensures
            r@ == flat_name(self.label()),
        decreases self,
    {
        match self {
            CodeLabel::NamedRule(name) => name.clone(),
            CodeLabel::Nested { parent, i } => {
                let mut name = parent.flattened_name();
                name.append("__");
                let digits = decimal_string(*i);
                name.append(digits.as_str());
                proof {
                    let path = self.label().1;
                    assert(path.drop_last() =~= parent.label().1);
                }
                name
            },
        }
    }

    /// The name of the variant for the label, as source code.
    pub fn flattened_ident(&self) -> (r: Src)
        ensures
            r@ == word(flat_name(self.label())),
    {
        let name = self.flattened_name();
        Src::ident(name.as_str())
    }

    /// The path to the variant for the label.
    pub fn to_src(&self) -> (r: Src)
        ensures
            r@ == label_src(self.label()),
    {
        quote1(LABEL, self.flattened_ident())
    }
}

} // verus!
