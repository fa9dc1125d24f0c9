//! The instructions that generated code consists of.
use crate::label::{label_src, CodeLabel, LabelSpec};
use crate::node::{kind_src, KindSpec, ParseNodeKind};
use crate::tokens::{fill, quote0, quote1, quote2, Src, SrcSpec};
use std::rc::Rc;
use vstd::prelude::*;

verus! {

/// An instruction of generated code.
pub enum Instr {
    /// Goes on at a label.
    Spawn(Rc<CodeLabel>),
    /// Calls the function at the first label, which returns to the second.
    Call(Rc<CodeLabel>, Rc<CodeLabel>),
    /// Returns.
    Ret,
    /// Saves the node of a kind that has just been parsed.
    Save(ParseNodeKind),
    /// Takes back what was saved last.
    TakeSaved,
    /// Notes that a node of the first kind can be one of the second.
    AddChoice(ParseNodeKind, ParseNodeKind),
    /// Notes that what was saved and the node that has just been parsed make up one of a kind.
    AddSplit(ParseNodeKind),
    /// Runs some code under a condition.
    If(Src, Vec<Instr>),
}

/// What an [`Instr`] is.
pub enum InstrSpec {
    Spawn(LabelSpec),
    Call(LabelSpec, LabelSpec),
    Ret,
    Save(KindSpec),
    TakeSaved,
    AddChoice(KindSpec, KindSpec),
    AddSplit(KindSpec),
    If(SrcSpec, Seq<InstrSpec>),
}

/// What some code is.
pub type InstrsSpec = Seq<InstrSpec>;

/// What some instructions are.
pub open spec fn instrs_of(code: Seq<Instr>) -> InstrsSpec {
    Seq::new(code.len(), |i: int| code[i].model())
}

impl Instr {
    /// What the instruction is.
    pub open spec fn model(&self) -> InstrSpec
        decreases self,
    {
        match self {
            Instr::Spawn(label) => InstrSpec::Spawn(label.label()),
            Instr::Call(callee, label) => InstrSpec::Call(callee.label(), label.label()),
            Instr::Ret => InstrSpec::Ret,
            Instr::Save(kind) => InstrSpec::Save(kind@),
            Instr::TakeSaved => InstrSpec::TakeSaved,
            Instr::AddChoice(kind, choice) => InstrSpec::AddChoice(kind@, choice@),
            Instr::AddSplit(kind) => InstrSpec::AddSplit(kind@),
            Instr::If(condition, body) => InstrSpec::If(
                condition@,
                Seq::new(
                    body@.len(),
                    |i: int|
                        if 0 <= i < body@.len() {
                            body@[i].model()
                        } else {
                            InstrSpec::Ret
                        },
                ),
            ),
        }
    }
}

/// Copies some instructions.
pub fn clone_instrs(code: &Vec<Instr>) -> (r: Vec<Instr>)
    ensures
        instrs_of(r@) == instrs_of(code@),
    decreases code,
{
    let mut r: Vec<Instr> = Vec::new();
    let mut i: usize = 0;
    while i < code.len()
        invariant
            i <= code.len(),
            r@.len() == i,
            forall|j: int| 0 <= j < i ==> (#[trigger] r@[j]).model() == code@[j].model(),
        decreases code.len() - i,
    {
        let copy = match &code[i] {
            Instr::Spawn(label) => Instr::Spawn(label.clone()),
            Instr::Call(callee, label) => Instr::Call(callee.clone(), label.clone()),
            Instr::Ret => Instr::Ret,
            Instr::Save(kind) => Instr::Save(kind.clone()),
            Instr::TakeSaved => Instr::TakeSaved,
            Instr::AddChoice(kind, choice) => Instr::AddChoice(kind.clone(), choice.clone()),
            Instr::AddSplit(kind) => Instr::AddSplit(kind.clone()),
            Instr::If(condition, body) => {
                let body_copy = clone_instrs(body);
                let copy = Instr::If(condition.clone(), body_copy);
                assert(instrs_of(body@) =~= code@[i as int].model()->If_1);
                assert(instrs_of(body_copy@) =~= copy.model()->If_1);
                copy
            },
        };
        r.push(copy);
        i += 1;
    }
    assert(instrs_of(r@) =~= instrs_of(code@));
    r
}

pub const SPAWN: &'static str = "rt . spawn ( $ ) ;";

pub const CALL: &'static str = "rt . call ( $ , $ ) ;";

pub const RET: &'static str = "rt . ret ( ) ;";

pub const SAVE: &'static str = "rt . save ( $ ) ;";

pub const TAKE_SAVED: &'static str = "let saved = rt . take_saved ( ) ;";

pub const ADD_CHOICE: &'static str = "rt . forest_add_choice ( $ , $ ) ;";

pub const ADD_SPLIT: &'static str = "rt . forest_add_split ( $ , saved , ) ;";

pub const IF: &'static str = "if $ { $ }";

/// An instruction as source code.
pub open spec fn instr_src(instr: InstrSpec) -> SrcSpec
    decreases instr, 0nat,
{
    match instr {
        InstrSpec::Spawn(label) => fill(SPAWN@, seq![label_src(label)]),
        InstrSpec::Call(callee, label) => fill(CALL@, seq![label_src(callee), label_src(label)]),
        InstrSpec::Ret => fill(RET@, Seq::empty()),
        InstrSpec::Save(kind) => fill(SAVE@, seq![kind_src(kind)]),
        InstrSpec::TakeSaved => fill(TAKE_SAVED@, Seq::empty()),
        InstrSpec::AddChoice(kind, choice) => fill(
            ADD_CHOICE@,
            seq![kind_src(kind), kind_src(choice)],
        ),
        InstrSpec::AddSplit(kind) => fill(ADD_SPLIT@, seq![kind_src(kind)]),
        InstrSpec::If(condition, body) => fill(
            IF@,
            seq![condition, instrs_src(body, body.len())],
        ),
    }
}

/// The first `n` instructions as source code.
pub open spec fn instrs_src(code: InstrsSpec, n: nat) -> SrcSpec
    decreases code, n,
{
    if n == 0 || n > code.len() {
        Seq::empty()
    } else {
        instrs_src(code, (n - 1) as nat) + instr_src(code[n - 1])
    }
}

/// Some code as source code.
pub open spec fn code_src(code: InstrsSpec) -> SrcSpec {
    instrs_src(code, code.len())
}

impl Instr {
    /// The instruction as source code.
    pub fn to_src(&self) -> (r: Src)
        ensures
            r@ == instr_src(self.model()),
        decreases self, 1nat,
    {
        match self {
            Instr::Spawn(label) => quote1(SPAWN, label.to_src()),
            Instr::Call(callee, label) => quote2(CALL, callee.to_src(), label.to_src()),
            Instr::Ret => quote0(RET),
            Instr::Save(kind) => quote1(SAVE, kind.to_src()),
            Instr::TakeSaved => quote0(TAKE_SAVED),
            Instr::AddChoice(kind, choice) => quote2(ADD_CHOICE, kind.to_src(), choice.to_src()),
            Instr::AddSplit(kind) => quote1(ADD_SPLIT, kind.to_src()),
            Instr::If(condition, body) => {
                let body_src = code_to_src(body);
                assert(instrs_of(body@) =~= self.model()->If_1);
                quote2(IF, condition.clone(), body_src)
            },
        }
    }
}

/// Some code as source code.
pub fn code_to_src(code: &Vec<Instr>) -> (r: Src)
    ensures
        r@ == code_src(instrs_of(code@)),
    decreases code, 0nat,
{
    let mut r = Src::new();
    let ghost all = instrs_of(code@);
    let mut i: usize = 0;
    while i < code.len()
        invariant
            i <= code.len(),
            all == instrs_of(code@),
            r@ == instrs_src(all, i as nat),
        decreases code.len() - i,
    {
        r.append(code[i].to_src());
        i += 1;
    }
    r
}

} // verus!
