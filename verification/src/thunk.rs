//! Steps of code generation, each of which puts code before the code that comes next.
use crate::continuation::{
    clone_frames, frames_of, Code, CodeSpec, ContSpec, Continuation, FrameSpec,
};
use crate::instr::{clone_instrs, instrs_of, Instr, InstrSpec, InstrsSpec};
use crate::label::{CodeLabel, LabelSpec};
use crate::node::{KindSpec, ParseNodeKind};
use crate::tokens::{Src, SrcSpec};
use std::rc::Rc;
use vstd::prelude::*;

verus! {

/// A step of code generation.
pub enum Thunk {
    /// Does nothing.
    Skip,
    /// Puts some code before what comes next.
    Emit(Vec<Instr>),
    /// Puts what comes next under a condition.
    Check(Src),
    /// Calls a function.
    Call(Rc<CodeLabel>),
    /// Calls the function that the innermost `Fix` around the step makes.
    CallFix,
    /// Returns.
    Ret,
    /// Starts a frame.
    OpenFrame,
    /// Ends a frame.
    CloseFrame,
    /// Generates the code of the first before that of the second.
    Then(Box<Thunk>, Box<Thunk>),
    /// Generates the code of each of several, all of which go on with what comes next.
    Parallel(Vec<Thunk>),
    /// Makes a function, and calls it.
    Fix(Box<Thunk>),
}

/// What a [`Thunk`] is.
pub enum ThunkSpec {
    Skip,
    Emit(InstrsSpec),
    Check(SrcSpec),
    Call(LabelSpec),
    CallFix,
    Ret,
    OpenFrame,
    CloseFrame,
    Then(Box<ThunkSpec>, Box<ThunkSpec>),
    Parallel(Seq<ThunkSpec>),
    Fix(Box<ThunkSpec>),
}

/// The code of `a`, then that of `b`.
pub open spec fn seq_of(a: ThunkSpec, b: ThunkSpec) -> ThunkSpec {
    ThunkSpec::Then(Box::new(a), Box::new(b))
}

/// What some steps are.
pub open spec fn thunks_of(ts: Seq<Thunk>) -> Seq<ThunkSpec> {
    Seq::new(ts.len(), |i: int| ts[i].model())
}

impl Thunk {
    /// What the step is.
    pub open spec fn model(&self) -> ThunkSpec
        decreases self,
    {
        match self {
            Thunk::Skip => ThunkSpec::Skip,
            Thunk::Emit(code) => ThunkSpec::Emit(instrs_of(code@)),
            Thunk::Check(condition) => ThunkSpec::Check(condition@),
            Thunk::Call(callee) => ThunkSpec::Call(callee.label()),
            Thunk::CallFix => ThunkSpec::CallFix,
            Thunk::Ret => ThunkSpec::Ret,
            Thunk::OpenFrame => ThunkSpec::OpenFrame,
            Thunk::CloseFrame => ThunkSpec::CloseFrame,
            Thunk::Then(a, b) => seq_of(a.model(), b.model()),
            Thunk::Parallel(ts) => ThunkSpec::Parallel(
                Seq::new(
                    ts@.len(),
                    |i: int|
                        if 0 <= i < ts@.len() {
                            ts@[i].model()
                        } else {
                            ThunkSpec::Skip
                        },
                ),
            ),
            Thunk::Fix(body) => ThunkSpec::Fix(Box::new(body.model())),
        }
    }
}

/// What comes of the first branches of a `Parallel`: the continuation that the next branch starts
/// from, the code of the branches so far, and how many frames each of them left.
pub struct BranchesSpec {
    pub cont: ContSpec,
    pub code: InstrsSpec,
    pub depth: Option<nat>,
}

/// A branch that started with these frames, with the function closed that it opened in the last of
/// them. The frames that it leaves must be the first of those it started with.
pub open spec fn end_branch(child: ContSpec, frames: Seq<FrameSpec>) -> Option<ContSpec> {
    let n = child.frames.len();
    if n > frames.len() {
        None
    } else {
        let ended = if n > 0 && child.frames[n - 1] is Some && frames[n - 1] is None {
            let (ret_label, outer) = child.frames[n - 1]->Some_0;
            ContSpec {
                frames: child.frames.update(n - 1, None),
                ..child.left(ret_label, outer)
            }
        } else {
            child
        };
        if ended.frames == frames.take(n as int) {
            Some(ended)
        } else {
            None
        }
    }
}

/// The first `n` branches, each applied to `start`, one after the other.
pub open spec fn branches(
    ts: Seq<ThunkSpec>,
    n: nat,
    fixed: LabelSpec,
    start: ContSpec,
) -> Option<BranchesSpec>
    decreases ts, n,
{
    if n == 0 || n > ts.len() {
        Some(BranchesSpec { cont: start, code: Seq::empty(), depth: None })
    } else {
        match branches(ts, (n - 1) as nat, fixed, start) {
            None => None,
            Some(before) => match apply(ts[n - 1], fixed, before.cont) {
                None => None,
                Some(child) => match end_branch(child, start.frames) {
                    None => None,
                    Some(ended) => if before.depth is None || before.depth == Some(
                        ended.frames.len(),
                    ) {
                        Some(
                            BranchesSpec {
                                cont: ContSpec { code: start.code, frames: start.frames, ..ended },
                                code: before.code + ended.inline(),
                                depth: Some(ended.frames.len()),
                            },
                        )
                    } else {
                        None
                    },
                },
            },
        }
    }
}

/// The continuation after all branches. The frames that they have ended must not have a function.
pub open spec fn join(all: BranchesSpec) -> Option<ContSpec> {
    let frames = all.cont.frames;
    let n = match all.depth {
        Some(n) => n as int,
        None => frames.len() as int,
    };
    if forall|i: int| n <= i < frames.len() ==> (#[trigger] frames[i]) is None {
        Some(
            ContSpec { code: CodeSpec::Inline(all.code), frames: frames.take(n), ..all.cont },
        )
    } else {
        None
    }
}

/// The continuation with the code of a step before it, where the step can be taken. `fixed` is
/// the function that the innermost `Fix` around the step makes.
pub open spec fn apply(t: ThunkSpec, fixed: LabelSpec, c: ContSpec) -> Option<ContSpec>
    decreases t, 0nat,
{
    match t {
        ThunkSpec::Skip => Some(c),
        ThunkSpec::Emit(code) => Some(c.emit(code)),
        ThunkSpec::Check(condition) => Some(c.check(condition)),
        ThunkSpec::Call(callee) => Some(c.call(callee)),
        ThunkSpec::CallFix => Some(c.call(fixed)),
        ThunkSpec::Ret => c.ret(),
        ThunkSpec::OpenFrame => Some(c.open_frame()),
        ThunkSpec::CloseFrame => c.close_frame(),
        ThunkSpec::Then(a, b) => match apply(*b, fixed, c) {
            None => None,
            Some(after) => apply(*a, fixed, after),
        },
        ThunkSpec::Parallel(ts) => match branches(ts, ts.len(), fixed, c.labelled()) {
            None => None,
            Some(all) => join(all),
        },
        ThunkSpec::Fix(body) => {
            let start = c.labelled();
            let inner = start.entered();
            let label = inner.fn_label;
            match apply(
                *body,
                label,
                ContSpec {
                    frames: Seq::empty(),
                    ..inner.with_code(seq![InstrSpec::Ret])
                },
            ) {
                None => None,
                Some(done) => Some(
                    ContSpec {
                        frames: c.frames,
                        ..(ContSpec { fn_label: label, ..done }).left(
                            start.code->Label_0,
                            c.fn_label,
                        )
                    },
                ),
            }
        },
    }
}

impl Thunk {
    /// Puts the code of the step before what comes next.
    #[verifier::rlimit(30)]
    pub fn apply(&self, fixed: &Rc<CodeLabel>, cont: &mut Continuation)
        requires
            apply(self.model(), fixed.label(), old(cont)@) is Some,
        ensures
            apply(self.model(), fixed.label(), old(cont)@) == Some(final(cont)@),
        decreases self,
    {
        match self {
            Thunk::Skip => {},
            Thunk::Emit(code) => {
                cont.emit(clone_instrs(code));
            },
            Thunk::Check(condition) => {
                cont.check(condition.clone());
            },
            Thunk::Call(callee) => {
                cont.call(callee);
            },
            Thunk::CallFix => {
                cont.call(fixed);
            },
            Thunk::Ret => {
                cont.ret();
            },
            Thunk::OpenFrame => {
                cont.open_frame();
            },
            Thunk::CloseFrame => {
                cont.close_frame();
            },
            Thunk::Then(a, b) => {
                b.apply(fixed, cont);
                a.apply(fixed, cont);
            },
            Thunk::Parallel(ts) => {
                let label = cont.to_label();
                let frames = clone_frames(&cont.nested_frames);
                let ghost start = cont@;
                let ghost all = self.model()->Parallel_0;
                let mut code: Vec<Instr> = Vec::new();
                assert(instrs_of(code@) =~= Seq::empty());
                let mut depth: usize = frames.len();
                let mut i: usize = 0;
                while i < ts.len()
                    invariant
                        i <= ts.len(),
                        decreases_to!(self => ts),
                        all.len() == ts.len(),
                        forall|j: int| 0 <= j < ts.len() ==> all[j] == ts@[j].model(),
                        start.code == CodeSpec::Label(label.label()),
                        start.frames == frames_of(frames@),
                        branches(all, all.len(), fixed.label(), start) is Some,
                        branches(all, i as nat, fixed.label(), start) matches Some(b) && {
                            &&& b.cont == (ContSpec {
                                code: start.code,
                                frames: start.frames,
                                ..cont@
                            })
                            &&& b.code == instrs_of(code@)
                            &&& b.depth == (if i == 0 {
                                None
                            } else {
                                Some(depth as nat)
                            })
                            &&& i == 0 ==> depth == frames.len()
                            &&& i > 0 ==> cont@.frames == start.frames.take(depth as int)
                                && depth <= start.frames.len()
                        },
                        i == 0 ==> cont@ == start,
                    decreases ts.len() - i,
                {
                    proof {
                        branches_prefix(all, (i + 1) as nat, all.len(), fixed.label(), start);
                    }
                    cont.code = Code::Label(label.clone());
                    cont.nested_frames = clone_frames(&frames);
                    assert(cont@ == branches(all, i as nat, fixed.label(), start)->Some_0.cont);
                    ts[i].apply(fixed, cont);
                    let ghost child = cont@;
                    depth = cont.nested_frames.len();
                    if depth > 0 && frames[depth - 1].is_none() {
                        let last = depth - 1;
                        let opened = match &cont.nested_frames[last] {
                            Some((ret_label, outer)) => Some((ret_label.clone(), outer.clone())),
                            None => None,
                        };
                        if let Some((ret_label, outer)) = opened {
                            cont.leave(ret_label, outer);
                            cont.nested_frames.set(last, None);
                            assert(cont@.frames =~= child.frames.update(last as int, None));
                        }
                    }
                    assert(end_branch(child, start.frames) == Some(cont@));
                    let ghost ended = cont@;
                    let ghost before = instrs_of(code@);
                    let mut more = cont.take_code();
                    code.append(&mut more);
                    assert(instrs_of(code@) =~= before + ended.inline());
                    i += 1;
                }
                cont.code = Code::Inline(code);
                assert(start.frames.take(start.frames.len() as int) =~= start.frames);
            },
            Thunk::Fix(body) => {
                let ghost start = cont@;
                let ret_label = cont.to_label();
                let frames = clone_frames(&cont.nested_frames);
                let outer = cont.fn_code_label.clone();
                let label = cont.enter();
                cont.ret();
                cont.nested_frames = Vec::new();
                assert(cont@.frames =~= Seq::empty());
                body.apply(&label, cont);
                cont.fn_code_label = label;
                cont.leave(ret_label, outer);
                cont.nested_frames = frames;
            },
        }
    }
}

/// Where all branches can be taken, the first ones can.
proof fn branches_prefix(ts: Seq<ThunkSpec>, m: nat, n: nat, fixed: LabelSpec, start: ContSpec)
    requires
        m <= n <= ts.len(),
        branches(ts, n, fixed, start) is Some,
    ensures
        branches(ts, m, fixed, start) is Some,
    decreases n,
{
    if m < n {
        branches_prefix(ts, m, (n - 1) as nat, fixed, start);
    }
}

/// Takes back the value that was saved last, under the name `saved`, and goes on with `f`.
pub open spec fn pop_saved_step(f: ThunkSpec) -> ThunkSpec {
    seq_of(
        seq_of(ThunkSpec::Emit(seq![InstrSpec::TakeSaved]), f),
        ThunkSpec::OpenFrame,
    )
}

/// Saves the node of a kind that has just been parsed.
pub open spec fn push_saved_step(kind: KindSpec) -> ThunkSpec {
    seq_of(ThunkSpec::Emit(seq![InstrSpec::Save(kind)]), ThunkSpec::CloseFrame)
}

/// Takes a step, or none.
pub open spec fn opt_step(t: ThunkSpec) -> ThunkSpec {
    ThunkSpec::Parallel(seq![t, ThunkSpec::Emit(Seq::empty())])
}

/// Notes that a node of the first kind can be one of the second.
pub open spec fn add_choice_step(kind: KindSpec, choice: KindSpec) -> ThunkSpec {
    ThunkSpec::Emit(seq![InstrSpec::AddChoice(kind, choice)])
}

/// Parses a node of the first kind by `left`, another one by `right`, and notes that they make up
/// a node of the second kind.
pub open spec fn concat_step(
    left_kind: KindSpec,
    left: ThunkSpec,
    right: ThunkSpec,
    kind: KindSpec,
) -> ThunkSpec {
    seq_of(
        seq_of(seq_of(left, push_saved_step(left_kind)), right),
        pop_saved_step(ThunkSpec::Emit(seq![InstrSpec::AddSplit(kind)])),
    )
}

impl Thunk {
    /// Puts an instruction before what comes next.
    pub fn emit(instr: Instr) -> (r: Thunk)
        ensures
            r.model() == ThunkSpec::Emit(seq![instr.model()]),
    {
        let code: Vec<Instr> = vec![instr];
        assert(instrs_of(code@) =~= seq![instr.model()]);
        Thunk::Emit(code)
    }

    /// The code of `self`, then that of `other`.
    pub fn plus(self, other: Thunk) -> (r: Thunk)
        ensures
            r.model() == seq_of(self.model(), other.model()),
    {
        Thunk::Then(Box::new(self), Box::new(other))
    }
}

/// Takes back the value that was saved last, under the name `saved`, and goes on with `f`.
pub fn pop_saved(f: Thunk) -> (r: Thunk)
    ensures
        r.model() == pop_saved_step(f.model()),
{
    Thunk::emit(Instr::TakeSaved).plus(f).plus(Thunk::OpenFrame)
}

/// Saves the node of a kind that has just been parsed.
pub fn push_saved(parse_node_kind: ParseNodeKind) -> (r: Thunk)
    ensures
        r.model() == push_saved_step(parse_node_kind@),
{
    Thunk::emit(Instr::Save(parse_node_kind)).plus(Thunk::CloseFrame)
}

/// Takes all of the steps, each from the same place.
pub fn parallel(thunks: Vec<Thunk>) -> (r: Thunk)
    ensures
        r.model() == ThunkSpec::Parallel(thunks_of(thunks@)),
{
    let r = Thunk::Parallel(thunks);
    assert(r.model()->Parallel_0 =~= thunks_of(thunks@));
    r
}

/// Takes a step, or none.
pub fn opt(thunk: Thunk) -> (r: Thunk)
    ensures
        r.model() == opt_step(thunk.model()),
{
    let none: Vec<Instr> = Vec::new();
    assert(instrs_of(none@) =~= Seq::empty());
    let thunks: Vec<Thunk> = vec![thunk, Thunk::Emit(none)];
    assert(thunks_of(thunks@) =~= seq![thunk.model(), ThunkSpec::Emit(Seq::empty())]);
    parallel(thunks)
}

/// Makes a function of a step, which can call it, and calls it.
pub fn fix(body: Thunk) -> (r: Thunk)
    ensures
        r.model() == ThunkSpec::Fix(Box::new(body.model())),
{
    Thunk::Fix(Box::new(body))
}

/// Notes that a node of the first kind can be one of the second.
pub fn forest_add_choice(parse_node_kind: &ParseNodeKind, choice: ParseNodeKind) -> (r: Thunk)
    ensures
        r.model() == add_choice_step(parse_node_kind@, choice@),
{
    Thunk::emit(Instr::AddChoice(parse_node_kind.clone(), choice))
}

/// Parses a node of the first kind by `left`, another one by `right`, and notes that they make up
/// a node of the second kind.
pub fn concat_and_forest_add(
    left_parse_node_kind: ParseNodeKind,
    left: Thunk,
    right: Thunk,
    parse_node_kind: ParseNodeKind,
) -> (r: Thunk)
    ensures
        r.model() == concat_step(
            left_parse_node_kind@,
            left.model(),
            right.model(),
            parse_node_kind@,
        ),
{
    let add_split = Thunk::emit(Instr::AddSplit(parse_node_kind));
    left.plus(push_saved(left_parse_node_kind)).plus(right).plus(pop_saved(add_split))
}

} // verus!
