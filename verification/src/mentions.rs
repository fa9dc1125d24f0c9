//! Why generated code speaks of nothing that is not declared.
use crate::account::{
    accounted, apply_accounts, branches_account, cont_wf, enter_one, fix_begin, fix_begin_accounts,
    frame_wf, is_known, labelled_accounts, outside_fix,
};
use crate::balance::{branches_apply, level, level_applies, within, within_self};
use crate::continuation::{is_issued, knows_more, CodeSpec, ContSpec, FrameSpec};
use crate::instr::{InstrSpec, InstrsSpec};
use crate::label::LabelSpec;
use crate::node::KindSpec;
use crate::thunk::{apply, branches, end_branch, ThunkSpec};
use vstd::prelude::*;

verus! {

/// What code may speak of, besides the labels that have been handed out.
pub struct Scope {
    /// The labels of the rules whose code is generated.
    pub roots: Set<LabelSpec>,
    /// The labels of functions that may be called.
    pub callees: Set<LabelSpec>,
    /// The kinds of nodes.
    pub kinds: Set<KindSpec>,
}

/// Whether code may speak of a label.
pub open spec fn can_name(
    scope: Scope,
    labels: Seq<(LabelSpec, Seq<LabelSpec>)>,
    label: LabelSpec,
) -> bool {
    is_known(scope.roots, labels, label) || scope.callees.contains(label)
}

/// Whether an instruction speaks only of what it may.
pub open spec fn instr_names(
    scope: Scope,
    labels: Seq<(LabelSpec, Seq<LabelSpec>)>,
    instr: InstrSpec,
) -> bool
    decreases instr,
{
    match instr {
        InstrSpec::Spawn(label) => can_name(scope, labels, label),
        InstrSpec::Call(callee, label) => can_name(scope, labels, callee) && can_name(
            scope,
            labels,
            label,
        ),
        InstrSpec::Ret | InstrSpec::TakeSaved => true,
        InstrSpec::Save(kind) | InstrSpec::AddSplit(kind) => scope.kinds.contains(kind),
        InstrSpec::AddChoice(kind, choice) => scope.kinds.contains(kind) && scope.kinds.contains(
            choice,
        ),
        InstrSpec::If(_, body) => forall|i: int|
            0 <= i < body.len() ==> instr_names(scope, labels, #[trigger] body[i]),
    }
}

/// Whether code speaks only of what it may.
pub open spec fn code_names(
    scope: Scope,
    labels: Seq<(LabelSpec, Seq<LabelSpec>)>,
    code: InstrsSpec,
) -> bool {
    forall|i: int| 0 <= i < code.len() ==> instr_names(scope, labels, #[trigger] code[i])
}

/// Whether all code of a continuation speaks only of what it may.
pub open spec fn cont_names(scope: Scope, c: ContSpec) -> bool {
    &&& c.code matches CodeSpec::Inline(code) ==> code_names(scope, c.labels, code)
    &&& forall|i: int|
        0 <= i < c.arms.len() ==> code_names(scope, c.labels, (#[trigger] c.arms[i]).1)
}

/// Whether the code of a step speaks only of what it may, besides the labels that the step itself
/// hands out.
pub open spec fn thunk_names(scope: Scope, t: ThunkSpec) -> bool
    decreases t,
{
    match t {
        ThunkSpec::Emit(code) => code_names(scope, Seq::empty(), code),
        ThunkSpec::Call(callee) => scope.callees.contains(callee),
        ThunkSpec::Then(a, b) => thunk_names(scope, *a) && thunk_names(scope, *b),
        ThunkSpec::Parallel(ts) => forall|i: int|
            0 <= i < ts.len() ==> thunk_names(scope, #[trigger] ts[i]),
        ThunkSpec::Fix(body) => thunk_names(scope, *body),
        _ => true,
    }
}

/// Whether more labels have been handed out.
pub open spec fn more_issued(
    before: Seq<(LabelSpec, Seq<LabelSpec>)>,
    after: Seq<(LabelSpec, Seq<LabelSpec>)>,
) -> bool {
    forall|label: LabelSpec| is_issued(before, label) ==> #[trigger] is_issued(after, label)
}

/// Where more labels have been handed out, an instruction may speak of what it might.
proof fn instr_names_grow(
    scope: Scope,
    before: Seq<(LabelSpec, Seq<LabelSpec>)>,
    after: Seq<(LabelSpec, Seq<LabelSpec>)>,
    instr: InstrSpec,
)
    requires
        more_issued(before, after),
        instr_names(scope, before, instr),
    ensures
        instr_names(scope, after, instr),
    decreases instr,
{
    match instr {
        InstrSpec::If(_, body) => {
            assert forall|i: int| 0 <= i < body.len() implies instr_names(
                scope,
                after,
                #[trigger] body[i],
            ) by {
                instr_names_grow(scope, before, after, body[i]);
            }
        },
        _ => {},
    }
}

/// Where more labels have been handed out, code may speak of what it might.
pub proof fn code_names_grow(
    scope: Scope,
    before: Seq<(LabelSpec, Seq<LabelSpec>)>,
    after: Seq<(LabelSpec, Seq<LabelSpec>)>,
    code: InstrsSpec,
)
    requires
        more_issued(before, after),
        code_names(scope, before, code),
    ensures
        code_names(scope, after, code),
{
    assert forall|i: int| 0 <= i < code.len() implies instr_names(
        scope,
        after,
        #[trigger] code[i],
    ) by {
        instr_names_grow(scope, before, after, code[i]);
    }
}

/// Where more labels have been handed out, the pieces of code that were there may speak of what
/// they might.
proof fn arms_names_grow(scope: Scope, before: ContSpec, after: ContSpec)
    requires
        knows_more(before, after),
        cont_names(scope, before),
    ensures
        forall|i: int|
            0 <= i < before.arms.len() ==> code_names(
                scope,
                after.labels,
                (#[trigger] before.arms[i]).1,
            ),
{
    assert forall|i: int| 0 <= i < before.arms.len() implies code_names(
        scope,
        after.labels,
        (#[trigger] before.arms[i]).1,
    ) by {
        code_names_grow(scope, before.labels, after.labels, before.arms[i].1);
    }
}

/// The code that comes next, written out, speaks only of what it may.
proof fn inline_names(scope: Scope, c: ContSpec)
    requires
        cont_wf(scope.roots, c),
        cont_names(scope, c),
    ensures
        code_names(scope, c.labels, c.inline()),
{
    if let CodeSpec::Label(label) = c.code {
        assert(can_name(scope, c.labels, label));
    }
}

/// Code that is done, and comes at a label, speaks only of what it may.
pub proof fn reified_names(scope: Scope, c: ContSpec, label: LabelSpec)
    requires
        cont_wf(scope.roots, c),
        cont_names(scope, c),
    ensures
        cont_names(scope, c.reified(label)),
{
    let after = c.reified(label);
    inline_names(scope, c);
    assert forall|i: int| 0 <= i < after.arms.len() implies code_names(
        scope,
        after.labels,
        (#[trigger] after.arms[i]).1,
    ) by {
        if i < c.arms.len() {
            assert(after.arms[i] == c.arms[i]);
        }
    }
}

/// A label for the code that comes next leaves code that speaks only of what it may.
proof fn labelled_names(scope: Scope, c: ContSpec, extra: spec_fn(LabelSpec) -> int)
    requires
        cont_wf(scope.roots, c),
        accounted(c, extra),
        cont_names(scope, c),
    ensures
        cont_names(scope, c.labelled()),
{
    labelled_accounts(scope.roots, c, extra);
    if c.code is Inline {
        let after = c.labelled();
        arms_names_grow(scope, c, after);
        inline_names(scope, c);
        code_names_grow(scope, c.labels, after.labels, c.inline());
        assert forall|i: int| 0 <= i < after.arms.len() implies code_names(
            scope,
            after.labels,
            (#[trigger] after.arms[i]).1,
        ) by {
            if i < c.arms.len() {
                assert(after.arms[i] == c.arms[i]);
            }
        }
    }
}

/// The end of a function leaves code that speaks only of what it may.
proof fn left_names(scope: Scope, c: ContSpec, ret_label: LabelSpec, outer: LabelSpec)
    requires
        cont_wf(scope.roots, c),
        cont_names(scope, c),
        is_issued(c.labels, ret_label),
    ensures
        cont_names(scope, c.left(ret_label, outer)),
{
    let after = c.left(ret_label, outer);
    reified_names(scope, c, c.fn_label);
    assert(after.arms =~= c.reified(c.fn_label).arms);
    assert(can_name(scope, after.labels, c.fn_label));
    assert(can_name(scope, after.labels, ret_label));
}

/// The start of a frame leaves code that speaks only of what it may.
proof fn open_names(scope: Scope, c: ContSpec, extra: spec_fn(LabelSpec) -> int)
    requires
        cont_wf(scope.roots, c),
        accounted(c, extra),
        cont_names(scope, c),
    ensures
        cont_names(scope, c.open_frame()),
{
    if c.frames.len() > 0 && c.frames.last() is None {
        let mid = c.labelled();
        labelled_accounts(scope.roots, c, extra);
        labelled_names(scope, c, extra);
        enter_one(scope.roots, mid);
        arms_names_grow(scope, mid, c.open_frame());
    }
}

/// A step whose frames are in order leaves code that speaks only of what it may.
#[verifier::rlimit(30)]
pub proof fn apply_names(
    scope: Scope,
    t: ThunkSpec,
    d: nat,
    fixed: LabelSpec,
    c: ContSpec,
    base: Seq<FrameSpec>,
    fn_label: LabelSpec,
    extra: spec_fn(LabelSpec) -> int,
)
    requires
        level(t, d) is Some,
        within(c, base, fn_label, d),
        cont_wf(scope.roots, c),
        accounted(c, extra),
        cont_names(scope, c),
        thunk_names(scope, t),
        can_name(scope, c.labels, fixed),
    ensures
        apply(t, fixed, c) is Some,
        cont_names(scope, apply(t, fixed, c)->Some_0),
    decreases t, 0nat,
{
    level_applies(t, d, fixed, c, base, fn_label);
    let after = apply(t, fixed, c)->Some_0;
    match t {
        ThunkSpec::Skip => {},
        ThunkSpec::Emit(code) => {
            inline_names(scope, c);
            code_names_grow(scope, Seq::empty(), c.labels, code);
            let whole = code + c.inline();
            assert forall|i: int| 0 <= i < whole.len() implies instr_names(
                scope,
                c.labels,
                #[trigger] whole[i],
            ) by {
                if i < code.len() {
                    assert(whole[i] == code[i]);
                } else {
                    assert(whole[i] == c.inline()[i - code.len()]);
                }
            }
        },
        ThunkSpec::Check(condition) => {
            inline_names(scope, c);
            assert(instr_names(scope, c.labels, InstrSpec::If(condition, c.inline())));
        },
        ThunkSpec::Ret => {
            assert(instr_names(scope, c.labels, InstrSpec::Ret));
        },
        ThunkSpec::Call(callee) => {
            labelled_accounts(scope.roots, c, extra);
            labelled_names(scope, c, extra);
        },
        ThunkSpec::CallFix => {
            labelled_accounts(scope.roots, c, extra);
            labelled_names(scope, c, extra);
        },
        ThunkSpec::OpenFrame => {
            open_names(scope, c, extra);
        },
        ThunkSpec::CloseFrame => {
            let inner = ContSpec { frames: c.frames.drop_last(), ..c };
            let last = c.frames[c.frames.len() - 1];
            if let Some((ret_label, outer)) = last {
                assert(cont_wf(scope.roots, inner)) by {
                    assert forall|i: int|
                        0 <= i < inner.frames.len() implies frame_wf(
                        scope.roots,
                        inner.labels,
                        #[trigger] inner.frames[i],
                    ) by {
                        assert(inner.frames[i] == c.frames[i]);
                    }
                }
                left_names(scope, inner, ret_label, outer);
            }
        },
        ThunkSpec::Then(a, b) => {
            let mid = apply(*b, fixed, c)->Some_0;
            let e = level(*b, d)->Some_0;
            level_applies(*b, d, fixed, c, base, fn_label);
            apply_accounts(scope.roots, *b, d, fixed, c, base, fn_label, extra);
            apply_names(scope, *b, d, fixed, c, base, fn_label, extra);
            apply_names(scope, *a, e, fixed, mid, base, fn_label, extra);
        },
        ThunkSpec::Parallel(ts) => {
            let start = c.labelled();
            labelled_accounts(scope.roots, c, extra);
            labelled_names(scope, c, extra);
            branches_apply(ts, ts.len(), fixed, start);
            branches_names(scope, ts, ts.len(), fixed, start, extra);
        },
        ThunkSpec::Fix(body) => {
            let start = c.labelled();
            let begin = fix_begin(c);
            let made = begin.fn_label;
            let more = outside_fix(start, extra, made);
            labelled_accounts(scope.roots, c, extra);
            labelled_names(scope, c, extra);
            fix_begin_accounts(scope.roots, c, extra);
            arms_names_grow(scope, start, begin);
            assert(cont_names(scope, begin));
            level_applies(*body, 0, made, begin, Seq::empty(), made);
            apply_accounts(scope.roots, *body, 0, made, begin, Seq::empty(), made, more);
            apply_names(scope, *body, 0, made, begin, Seq::empty(), made, more);
            let done = apply(*body, made, begin)->Some_0;
            assert(is_issued(start.labels, start.code->Label_0));
            assert(is_issued(done.labels, start.code->Label_0));
            left_names(scope, done, start.code->Label_0, c.fn_label);
        },
    }
}

/// Branches whose frames are in order leave code that speaks only of what it may.
proof fn branches_names(
    scope: Scope,
    ts: Seq<ThunkSpec>,
    n: nat,
    fixed: LabelSpec,
    start: ContSpec,
    extra: spec_fn(LabelSpec) -> int,
)
    requires
        n <= ts.len(),
        forall|i: int| 0 <= i < ts.len() ==> level(#[trigger] ts[i], 0) == Some(0nat),
        cont_wf(scope.roots, start),
        accounted(start, extra),
        cont_names(scope, start),
        start.code is Label,
        forall|i: int| 0 <= i < ts.len() ==> thunk_names(scope, #[trigger] ts[i]),
        can_name(scope, start.labels, fixed),
    ensures
        branches(ts, n, fixed, start) matches Some(b) && {
            &&& cont_names(scope, b.cont)
            &&& code_names(scope, b.cont.labels, b.code)
        },
    decreases ts, n,
{
    if n > 0 {
        let before = branches(ts, (n - 1) as nat, fixed, start)->Some_0;
        branches_apply(ts, (n - 1) as nat, fixed, start);
        branches_apply(ts, n, fixed, start);
        branches_account(scope.roots, ts, (n - 1) as nat, fixed, start, extra);
        branches_account(scope.roots, ts, n, fixed, start, extra);
        branches_names(scope, ts, (n - 1) as nat, fixed, start, extra);
        let frames = before.cont.frames;
        let fn_label = before.cont.fn_label;
        assert(level(ts[n - 1], 0) == Some(0nat));
        assert(thunk_names(scope, ts[n - 1]));
        within_self(before.cont);
        level_applies(ts[n - 1], 0, fixed, before.cont, frames, fn_label);
        apply_accounts(scope.roots, ts[n - 1], 0, fixed, before.cont, frames, fn_label, extra);
        apply_names(scope, ts[n - 1], 0, fixed, before.cont, frames, fn_label, extra);
        let child = apply(ts[n - 1], fixed, before.cont)->Some_0;
        let ended = end_branch(child, start.frames)->Some_0;
        let b = branches(ts, n, fixed, start)->Some_0;
        let m = child.frames.len();
        if m > 0 && child.frames[m - 1] is Some && start.frames[m - 1] is None {
            let (ret_label, outer) = child.frames[m - 1]->Some_0;
            assert(frame_wf(scope.roots, child.labels, child.frames[m - 1]));
            left_names(scope, child, ret_label, outer);
        } else {
            inline_names(scope, child);
        }
        assert(code_names(scope, ended.labels, ended.inline()));
        code_names_grow(scope, before.cont.labels, b.cont.labels, before.code);
        assert forall|i: int| 0 <= i < b.code.len() implies instr_names(
            scope,
            b.cont.labels,
            #[trigger] b.code[i],
        ) by {
            if i < before.code.len() {
                assert(b.code[i] == before.code[i]);
            } else {
                assert(b.code[i] == ended.inline()[i - before.code.len()]);
            }
        }
    }
}

} // verus!
