//! Generated code from its end to its start: what comes after the code that is generated next.
use crate::instr::{instrs_of, Instr, InstrSpec, InstrsSpec};
use crate::label::{labels_of, nested, CodeLabel, LabelSpec};
use crate::maps::{
    distinct_keys, fn_labels, has_key, labels_entry, labels_insert, put, put_distinct,
    put_distinct_before, put_gives, put_keeps, value,
};
use crate::tokens::{Src, SrcSpec};
use indexmap::IndexMap;
use std::rc::Rc;
use vstd::prelude::*;

verus! {

/// Code that runs next: written out, or at a label.
pub enum Code {
    Inline(Vec<Instr>),
    Label(Rc<CodeLabel>),
}

/// What a [`Code`] is.
pub enum CodeSpec {
    Inline(InstrsSpec),
    Label(LabelSpec),
}

impl View for Code {
    type V = CodeSpec;

    open spec fn view(&self) -> CodeSpec {
        match self {
            Code::Inline(code) => CodeSpec::Inline(instrs_of(code@)),
            Code::Label(label) => CodeSpec::Label(label.label()),
        }
    }
}

/// A frame that a nested function has been opened in: the label that it returns to, and the label
/// of the function around it. `None` as long as no function has been opened.
pub type FrameSpec = Option<(LabelSpec, LabelSpec)>;

/// What some frames are.
pub open spec fn frames_of(frames: Seq<Option<(Rc<CodeLabel>, Rc<CodeLabel>)>>) -> Seq<FrameSpec> {
    frames.map_values(
        |frame: Option<(Rc<CodeLabel>, Rc<CodeLabel>)>|
            match frame {
                Some((ret_label, outer)) => Some((ret_label.label(), outer.label())),
                None => None,
            },
    )
}

/// What some pieces of code under labels are.
pub open spec fn arms_of(arms: Seq<(Rc<CodeLabel>, Vec<Instr>)>) -> Seq<(LabelSpec, InstrsSpec)> {
    arms.map_values(|arm: (Rc<CodeLabel>, Vec<Instr>)| (arm.0.label(), instrs_of(arm.1@)))
}

/// The code that has been generated, and what is still to come before it.
pub struct Continuation {
    /// For each function the labels inside it.
    pub code_labels: IndexMap<(String, Vec<usize>), Vec<Rc<CodeLabel>>>,
    /// The function that code is generated for.
    pub fn_code_label: Rc<CodeLabel>,
    /// The code that is done, each piece under its label.
    pub code_label_arms: Vec<(Rc<CodeLabel>, Vec<Instr>)>,
    /// The code that comes next.
    pub code: Code,
    /// For each value that has been saved, and not yet taken back, its frame.
    pub nested_frames: Vec<Option<(Rc<CodeLabel>, Rc<CodeLabel>)>>,
}

/// What a [`Continuation`] is.
pub struct ContSpec {
    pub labels: Seq<(LabelSpec, Seq<LabelSpec>)>,
    pub fn_label: LabelSpec,
    pub arms: Seq<(LabelSpec, InstrsSpec)>,
    pub code: CodeSpec,
    pub frames: Seq<FrameSpec>,
}

impl View for Continuation {
    type V = ContSpec;

    open spec fn view(&self) -> ContSpec {
        ContSpec {
            labels: fn_labels(self.code_labels),
            fn_label: self.fn_code_label.label(),
            arms: arms_of(self.code_label_arms@),
            code: self.code@,
            frames: frames_of(self.nested_frames@),
        }
    }
}

/// The labels inside a function.
pub open spec fn inside(
    labels: Seq<(LabelSpec, Seq<LabelSpec>)>,
    fn_label: LabelSpec,
) -> Seq<LabelSpec> {
    if has_key(labels, fn_label) {
        value(labels, fn_label)
    } else {
        Seq::empty()
    }
}

/// The label of the function that a label is inside of.
pub open spec fn parent_of(label: LabelSpec) -> LabelSpec {
    (label.0, label.1.drop_last())
}

/// Whether a label has been handed out.
pub open spec fn is_issued(labels: Seq<(LabelSpec, Seq<LabelSpec>)>, label: LabelSpec) -> bool {
    label.1.len() > 0 && label.1.last() < inside(labels, parent_of(label)).len()
}

impl ContSpec {
    /// The label that is handed out next.
    pub open spec fn next_label(self) -> LabelSpec {
        nested(self.fn_label, inside(self.labels, self.fn_label).len())
    }

    /// The continuation once the next label has been handed out.
    pub open spec fn issued(self) -> ContSpec {
        ContSpec {
            labels: put(
                self.labels,
                self.fn_label,
                inside(self.labels, self.fn_label).push(self.next_label()),
            ),
            ..self
        }
    }

    /// The continuation once `n` labels have been handed out, one after the other.
    pub open spec fn issued_times(self, n: nat) -> ContSpec
        decreases n,
    {
        if n == 0 {
            self
        } else {
            self.issued_times((n - 1) as nat).issued()
        }
    }

    /// The code that comes next, written out: a jump where it is at a label.
    pub open spec fn inline(self) -> InstrsSpec {
        match self.code {
            CodeSpec::Inline(code) => code,
            CodeSpec::Label(label) => seq![InstrSpec::Spawn(label)],
        }
    }

    /// The continuation with other code that comes next.
    pub open spec fn with_code(self, code: InstrsSpec) -> ContSpec {
        ContSpec { code: CodeSpec::Inline(code), ..self }
    }

    /// The continuation with the code that comes next done, under a label.
    pub open spec fn reified(self, label: LabelSpec) -> ContSpec {
        ContSpec {
            arms: self.arms.push((label, self.inline())),
            code: CodeSpec::Label(label),
            ..self
        }
    }

    /// The continuation with the code that comes next at a label: a new one, unless it has one.
    pub open spec fn labelled(self) -> ContSpec {
        match self.code {
            CodeSpec::Label(_) => self,
            CodeSpec::Inline(_) => self.issued().reified(self.next_label()),
        }
    }

    /// With some code before the code that comes next.
    pub open spec fn emit(self, prefix: InstrsSpec) -> ContSpec {
        self.with_code(prefix + self.inline())
    }

    /// With the code that comes next under a condition.
    pub open spec fn check(self, condition: SrcSpec) -> ContSpec {
        self.with_code(seq![InstrSpec::If(condition, self.inline())])
    }

    /// With a call of a function before the code that comes next.
    pub open spec fn call(self, callee: LabelSpec) -> ContSpec {
        let c = self.labelled();
        c.with_code(seq![InstrSpec::Call(callee, c.code->Label_0)])
    }

    /// With a return as the code that comes next. There must be none after it.
    pub open spec fn ret(self) -> Option<ContSpec> {
        if self.inline().len() == 0 {
            Some(self.with_code(seq![InstrSpec::Ret]))
        } else {
            None
        }
    }

    /// The continuation inside of a new function, with no code yet.
    pub open spec fn entered(self) -> ContSpec {
        let c = self.issued();
        ContSpec {
            labels: put(c.labels, self.next_label(), Seq::empty()),
            fn_label: self.next_label(),
            code: CodeSpec::Inline(Seq::empty()),
            ..c
        }
    }

    /// The continuation after the code of the function has been done: back in the function around
    /// it, with a call of the inner one that returns to `ret_label`.
    pub open spec fn left(self, ret_label: LabelSpec, outer: LabelSpec) -> ContSpec {
        let inner = self.fn_label;
        let c = ContSpec { fn_label: outer, ..self }.reified(inner);
        ContSpec { code: CodeSpec::Label(ret_label), ..c }.call(inner)
    }

    /// The continuation inside a new frame. Where the code around it is in a frame as well, which
    /// has no function of its own yet, it gets one, so that what is saved stays apart.
    pub open spec fn open_frame(self) -> ContSpec {
        if self.frames.len() > 0 && self.frames.last() is None {
            let c = self.labelled();
            let frame = Some((c.code->Label_0, c.fn_label));
            let inner = c.entered();
            ContSpec {
                frames: self.frames.update(self.frames.len() - 1, frame).push(None),
                code: CodeSpec::Inline(seq![InstrSpec::Ret]),
                ..inner
            }
        } else {
            ContSpec { frames: self.frames.push(None), ..self }
        }
    }

    /// The continuation outside of the last frame. There must be one.
    pub open spec fn close_frame(self) -> Option<ContSpec> {
        if self.frames.len() == 0 {
            None
        } else {
            let c = ContSpec { frames: self.frames.drop_last(), ..self };
            match self.frames.last() {
                Some((ret_label, outer)) => Some(c.left(ret_label, outer)),
                None => Some(c),
            }
        }
    }
}

/// What is inside of the functions once one has been set.
pub proof fn inside_put(
    labels: Seq<(LabelSpec, Seq<LabelSpec>)>,
    fn_label: LabelSpec,
    v: Seq<LabelSpec>,
    p: LabelSpec,
)
    requires
        distinct_keys(labels),
    ensures
        inside(put(labels, fn_label, v), p) == (if p == fn_label {
            v
        } else {
            inside(labels, p)
        }),
        has_key(put(labels, fn_label, v), p) == (p == fn_label || has_key(labels, p)),
        distinct_keys(put(labels, fn_label, v)),
{
    put_gives(labels, fn_label, v);
    put_distinct(labels, fn_label, v);
    if p != fn_label {
        put_keeps(labels, fn_label, v, p);
    }
}

/// Handing out a label adds it to those inside of its function, and to no others. It is new, and is
/// the only one that has been handed out since.
pub proof fn issued_is_new(c: ContSpec)
    requires
        distinct_keys(c.labels),
    ensures
        distinct_keys(c.issued().labels),
        inside(c.issued().labels, c.fn_label) == inside(c.labels, c.fn_label).push(c.next_label()),
        forall|p: LabelSpec|
            p != c.fn_label ==> #[trigger] inside(c.issued().labels, p) == inside(c.labels, p),
        !is_issued(c.labels, c.next_label()),
        forall|label: LabelSpec| #[trigger]
            is_issued(c.issued().labels, label) == (is_issued(c.labels, label) || label
                == c.next_label()),
{
    let f = c.fn_label;
    let v = inside(c.labels, f).push(c.next_label());
    let new = c.next_label();
    assert forall|p: LabelSpec| #[trigger] inside(c.issued().labels, p) == (if p == f {
        v
    } else {
        inside(c.labels, p)
    }) by {
        inside_put(c.labels, f, v, p);
    }
    inside_put(c.labels, f, v, f);
    assert(parent_of(new) == f) by {
        assert(new.1.drop_last() =~= f.1);
    }
    assert forall|label: LabelSpec| #[trigger]
        is_issued(c.issued().labels, label) == (is_issued(c.labels, label) || label == new) by {
        assert(inside(c.issued().labels, parent_of(label)) == (if parent_of(label) == f {
            v
        } else {
            inside(c.labels, parent_of(label))
        }));
        if label.1.len() > 0 && parent_of(label) == f && label.1.last() == inside(
            c.labels,
            f,
        ).len() {
            assert(label.1 =~= new.1);
        }
    }
}

/// Whether all labels that are known before are known after.
pub open spec fn knows_more(before: ContSpec, after: ContSpec) -> bool {
    forall|label: LabelSpec|
        is_issued(before.labels, label) ==> #[trigger] is_issued(after.labels, label)
}

/// A label that is handed out once all labels of `a` have been, and one more, is not that one.
/// Which function it is inside of makes no difference.
pub proof fn later_label_differs(a: ContSpec, b: ContSpec)
    requires
        distinct_keys(a.labels),
        knows_more(a.issued(), b),
    ensures
        a.next_label() != b.next_label(),
{
    issued_is_new(a);
    assert(is_issued(a.issued().labels, a.next_label()));
    assert(is_issued(b.labels, a.next_label()));
    let f = b.fn_label;
    assert(b.next_label().1.drop_last() =~= f.1);
    assert(!is_issued(b.labels, b.next_label()));
}

/// Labels that are handed out one after the other are never the same.
pub proof fn labels_never_repeat(c: ContSpec, i: nat, j: nat)
    requires
        distinct_keys(c.labels),
        i < j,
    ensures
        c.issued_times(i).next_label() != c.issued_times(j).next_label(),
{
    issued_times_grow(c, i, i);
    issued_times_grow(c, i + 1, j);
    later_label_differs(c.issued_times(i), c.issued_times(j));
}

/// Handing out labels keeps those that have been, and the keys distinct.
proof fn issued_times_grow(c: ContSpec, i: nat, j: nat)
    requires
        distinct_keys(c.labels),
        i <= j,
    ensures
        distinct_keys(c.issued_times(j).labels),
        knows_more(c.issued_times(i), c.issued_times(j)),
    decreases j,
{
    if j > 0 {
        let before = c.issued_times((j - 1) as nat);
        if i < j {
            issued_times_grow(c, i, (j - 1) as nat);
        } else {
            issued_times_grow(c, (j - 1) as nat, (j - 1) as nat);
        }
        issued_is_new(before);
    }
}

impl Continuation {
    /// Hands out a new label inside the function that code is generated for. No function is there
    /// twice, so that the label has not been handed out before.
    pub fn next_code_label(&mut self) -> (r: Rc<CodeLabel>)
        ensures
            r.label() == old(self)@.next_label(),
            final(self)@ == old(self)@.issued(),
            distinct_keys(old(self)@.labels),
            distinct_keys(final(self)@.labels),
            !is_issued(old(self)@.labels, r.label()),
            forall|label: LabelSpec| #[trigger]
                is_issued(final(self)@.labels, label) == (is_issued(old(self)@.labels, label)
                    || label == r.label()),
    {
        let key = self.fn_code_label.key();
        let labels = labels_entry(&mut self.code_labels, key);
        let label = Rc::new(
            CodeLabel::Nested { parent: self.fn_code_label.clone(), i: labels.len() },
        );
        let ghost before = labels@;
        labels.push(label.clone());
        assert(labels_of(labels@) =~= labels_of(before).push(label.label()));
        proof {
            let c = old(self)@;
            put_distinct_before(
                c.labels,
                c.fn_label,
                inside(c.labels, c.fn_label).push(c.next_label()),
            );
            issued_is_new(c);
        }
        label
    }

    /// The code that comes next, written out.
    pub fn to_inline(&mut self) -> (r: &mut Vec<Instr>)
        ensures
            instrs_of(r@) == old(self)@.inline(),
            final(self)@ == old(self)@.with_code(instrs_of(final(r)@)),
    {
        if let Code::Label(label) = &self.code {
            let jump: Vec<Instr> = vec![Instr::Spawn(label.clone())];
            assert(instrs_of(jump@) =~= seq![InstrSpec::Spawn(label.label())]);
            self.code = Code::Inline(jump);
        }
        match &mut self.code {
            Code::Inline(code) => code,
            Code::Label(_) => vstd::pervasive::unreached(),
        }
    }

    /// The label of the code that comes next: a new one, unless it has one.
    pub fn to_label(&mut self) -> (r: Rc<CodeLabel>)
        ensures
            final(self)@ == old(self)@.labelled(),
            final(self)@.code == CodeSpec::Label(r.label()),
    {
        match &self.code {
            Code::Label(label) => label.clone(),
            Code::Inline(_) => {
                let label = self.next_code_label();
                self.reify_as(label.clone());
                label
            },
        }
    }

    /// Puts the code that comes next under a label.
    pub fn reify_as(&mut self, label: Rc<CodeLabel>)
        ensures
            final(self)@ == old(self)@.reified(label.label()),
    {
        let code = self.take_code();
        let ghost before = self.code_label_arms@;
        self.code_label_arms.push((label.clone(), code));
        self.code = Code::Label(label);
        assert(arms_of(self.code_label_arms@) =~= arms_of(before).push(
            (label.label(), instrs_of(code@)),
        ));
    }

    /// The code that comes next, taken away.
    pub fn take_code(&mut self) -> (r: Vec<Instr>)
        ensures
            instrs_of(r@) == old(self)@.inline(),
            final(self)@ == old(self)@.with_code(Seq::empty()),
    {
        let mut code: Vec<Instr> = Vec::new();
        assert(instrs_of(code@) =~= Seq::empty());
        std::mem::swap(&mut code, self.to_inline());
        code
    }

    /// Puts some code before the code that comes next.
    pub fn emit(&mut self, prefix: Vec<Instr>)
        ensures
            final(self)@ == old(self)@.emit(instrs_of(prefix@)),
    {
        let mut code = prefix;
        let mut suffix = self.take_code();
        let ghost before = instrs_of(suffix@);
        code.append(&mut suffix);
        assert(instrs_of(code@) =~= instrs_of(prefix@) + before);
        self.code = Code::Inline(code);
    }

    /// Puts the code that comes next under a condition.
    pub fn check(&mut self, condition: Src)
        ensures
            final(self)@ == old(self)@.check(condition@),
    {
        let body = self.take_code();
        let code: Vec<Instr> = vec![Instr::If(condition, body)];
        assert(code@[0].model()->If_1 =~= instrs_of(body@));
        assert(instrs_of(code@) =~= seq![InstrSpec::If(condition@, instrs_of(body@))]);
        self.code = Code::Inline(code);
    }

    /// Puts a call of a function before the code that comes next.
    pub fn call(&mut self, callee: &Rc<CodeLabel>)
        ensures
            final(self)@ == old(self)@.call(callee.label()),
    {
        let label = self.to_label();
        let code: Vec<Instr> = vec![Instr::Call(callee.clone(), label.clone())];
        assert(instrs_of(code@) =~= seq![InstrSpec::Call(callee.label(), label.label())]);
        self.code = Code::Inline(code);
    }

    /// Returns where there is no code that comes next.
    pub fn ret(&mut self)
        requires
            old(self)@.ret() is Some,
        ensures
            old(self)@.ret() == Some(final(self)@),
    {
        let code: Vec<Instr> = vec![Instr::Ret];
        assert(instrs_of(code@) =~= seq![InstrSpec::Ret]);
        self.code = Code::Inline(code);
    }

    /// Starts a new function, and tells its label.
    pub fn enter(&mut self) -> (r: Rc<CodeLabel>)
        ensures
            final(self)@ == old(self)@.entered(),
            r.label() == old(self)@.next_label(),
    {
        let label = self.next_code_label();
        self.fn_code_label = label.clone();
        let none: Vec<Rc<CodeLabel>> = Vec::new();
        assert(labels_of(none@) =~= Seq::empty());
        labels_insert(&mut self.code_labels, label.key(), none);
        let code: Vec<Instr> = Vec::new();
        assert(instrs_of(code@) =~= Seq::empty());
        self.code = Code::Inline(code);
        label
    }

    /// Ends a function, and goes on in the one around it with a call of it.
    pub fn leave(&mut self, ret_label: Rc<CodeLabel>, outer: Rc<CodeLabel>)
        ensures
            final(self)@ == old(self)@.left(ret_label.label(), outer.label()),
    {
        let inner = self.fn_code_label.clone();
        self.fn_code_label = outer;
        self.reify_as(inner.clone());
        self.code = Code::Label(ret_label);
        self.call(&inner);
    }

    /// Starts a frame.
    pub fn open_frame(&mut self)
        ensures
            final(self)@ == old(self)@.open_frame(),
    {
        let n = self.nested_frames.len();
        let ghost start = self@;
        if n > 0 {
            if let None = self.nested_frames[n - 1] {
                assert(start.frames.last() is None);
                let ret_label = self.to_label();
                let outer = self.fn_code_label.clone();
                let ghost frame = Some((ret_label.label(), outer.label()));
                self.nested_frames.set(n - 1, Some((ret_label, outer)));
                assert(self@.frames =~= start.frames.update(n - 1, frame));
                self.enter();
                self.ret();
                let ghost before = self@.frames;
                self.nested_frames.push(None);
                assert(self@.frames =~= before.push(None));
                assert(self@ == start.open_frame());
                return ;
            }
        }
        self.nested_frames.push(None);
        assert(self@.frames =~= start.frames.push(None));
    }

    /// Ends the last frame.
    pub fn close_frame(&mut self)
        requires
            old(self)@.close_frame() is Some,
        ensures
            old(self)@.close_frame() == Some(final(self)@),
    {
        let ghost start = self@;
        let frame = self.nested_frames.pop();
        assert(self@.frames =~= start.frames.drop_last());
        if let Some(Some((ret_label, outer))) = frame {
            self.leave(ret_label, outer);
        }
    }
}

/// Copies some frames.
pub fn clone_frames(frames: &Vec<Option<(Rc<CodeLabel>, Rc<CodeLabel>)>>) -> (r: Vec<
    Option<(Rc<CodeLabel>, Rc<CodeLabel>)>,
>)
    ensures
        frames_of(r@) == frames_of(frames@),
{
    let mut r: Vec<Option<(Rc<CodeLabel>, Rc<CodeLabel>)>> = Vec::new();
    let mut i: usize = 0;
    while i < frames.len()
        invariant
            i <= frames.len(),
            r@.len() == i,
            forall|j: int| 0 <= j < i ==> r@[j] == frames@[j],
        decreases frames.len() - i,
    {
        match &frames[i] {
            Some((ret_label, outer)) => {
                r.push(Some((ret_label.clone(), outer.clone())));
            },
            None => {
                r.push(None);
            },
        }
        i += 1;
    }
    assert(r@ =~= frames@);
    r
}

} // verus!
