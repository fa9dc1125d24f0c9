//! Why code stays inside of its function: it goes on only at labels that belong to the same
//! function as itself, and calls only functions.
use crate::account::{
    accounted, apply_accounts, branches_account, cont_wf, enter_one, fix_begin, fix_begin_accounts,
    issue_one, labelled_accounts, outside_fix,
};
use crate::balance::{branches_apply, level, level_applies, within, within_self};
use crate::continuation::{inside, inside_put, is_issued, parent_of, ContSpec, FrameSpec};
use crate::generate::{code_table, rules_code, GrammarSpec};
use crate::instr::{InstrSpec, InstrsSpec};
use crate::label::{nested, rule_label, LabelSpec};
use crate::labels::{
    minus_named, rule_begin, rule_begin_accounts, rule_code_from_begin, rule_labels,
    rules_code_complete,
};
use crate::maps::has_key;
use crate::parse::{both_step, parse_step, sep_step};
use crate::reflect::enclosing_fn;
use crate::rule::{concat, more, more_sep, RuleSpec, SepKind};
use crate::thunk::{apply, branches, end_branch, opt_step, ThunkSpec};
use vstd::prelude::*;

verus! {

/// Whether a label is where a function starts: that of a rule, or one that has been handed out for
/// a function.
pub open spec fn is_function(labels: Seq<(LabelSpec, Seq<LabelSpec>)>, label: LabelSpec) -> bool {
    enclosing_fn(label, labels) == label && (label.1.len() == 0 || is_issued(labels, label))
}

/// Whether a label has been handed out, and the code at it belongs to a function.
pub open spec fn belongs_to(
    labels: Seq<(LabelSpec, Seq<LabelSpec>)>,
    label: LabelSpec,
    function: LabelSpec,
) -> bool {
    is_issued(labels, label) && enclosing_fn(label, labels) == function
}

/// Whether an instruction goes on only inside of a function, and calls only functions.
pub open spec fn instr_stays(
    labels: Seq<(LabelSpec, Seq<LabelSpec>)>,
    function: LabelSpec,
    instr: InstrSpec,
) -> bool
    decreases instr,
{
    match instr {
        InstrSpec::Spawn(label) => belongs_to(labels, label, function),
        InstrSpec::Call(callee, label) => is_function(labels, callee) && belongs_to(
            labels,
            label,
            function,
        ),
        InstrSpec::If(_, body) => forall|i: int|
            0 <= i < body.len() ==> instr_stays(labels, function, #[trigger] body[i]),
        _ => true,
    }
}

/// Whether code goes on only inside of a function, and calls only functions.
pub open spec fn code_stays(
    labels: Seq<(LabelSpec, Seq<LabelSpec>)>,
    function: LabelSpec,
    code: InstrsSpec,
) -> bool {
    forall|i: int| 0 <= i < code.len() ==> instr_stays(labels, function, #[trigger] code[i])
}

/// Whether all pieces of code stay inside of the functions that they belong to.
pub open spec fn arms_stay(
    labels: Seq<(LabelSpec, Seq<LabelSpec>)>,
    arms: Seq<(LabelSpec, InstrsSpec)>,
) -> bool {
    forall|i: int|
        0 <= i < arms.len() ==> {
            &&& (#[trigger] arms[i]).0.1.len() == 0 || is_issued(labels, arms[i].0)
            &&& code_stays(labels, enclosing_fn(arms[i].0, labels), arms[i].1)
        }
}

/// Whether a frame returns to a label that belongs to the function around it.
spec fn frame_stays(labels: Seq<(LabelSpec, Seq<LabelSpec>)>, frame: FrameSpec) -> bool {
    match frame {
        Some((ret_label, outer)) => belongs_to(labels, ret_label, outer) && is_function(
            labels,
            outer,
        ),
        None => true,
    }
}

/// Whether all code of a continuation stays inside of its functions.
spec fn cont_stays(c: ContSpec) -> bool {
    &&& is_function(c.labels, c.fn_label)
    &&& code_stays(c.labels, c.fn_label, c.inline())
    &&& arms_stay(c.labels, c.arms)
    &&& forall|i: int| 0 <= i < c.frames.len() ==> frame_stays(c.labels, #[trigger] c.frames[i])
}

/// Whether a step itself does not go on anywhere, and calls only rules.
spec fn thunk_stays(t: ThunkSpec) -> bool
    decreases t,
{
    match t {
        ThunkSpec::Emit(code) => forall|i: int|
            0 <= i < code.len() ==> !((#[trigger] code[i]) is Spawn) && !(code[i] is Call) && !(
            code[i] is If),
        ThunkSpec::Call(callee) => callee.1.len() == 0,
        ThunkSpec::Then(a, b) => thunk_stays(*a) && thunk_stays(*b),
        ThunkSpec::Parallel(ts) => forall|i: int|
            0 <= i < ts.len() ==> thunk_stays(#[trigger] ts[i]),
        ThunkSpec::Fix(body) => thunk_stays(*body),
        _ => true,
    }
}

/// Whether the labels that have been handed out still are, and belong to the same functions.
spec fn keeps_functions(
    before: Seq<(LabelSpec, Seq<LabelSpec>)>,
    after: Seq<(LabelSpec, Seq<LabelSpec>)>,
) -> bool {
    forall|label: LabelSpec|
        #![trigger is_issued(before, label)]
        #![trigger is_issued(after, label)]
        is_issued(before, label) ==> is_issued(after, label) && (has_key(after, label) <==> has_key(
            before,
            label,
        ))
}

proof fn keeps_on(
    a: Seq<(LabelSpec, Seq<LabelSpec>)>,
    b: Seq<(LabelSpec, Seq<LabelSpec>)>,
    c: Seq<(LabelSpec, Seq<LabelSpec>)>,
)
    requires
        keeps_functions(a, b),
        keeps_functions(b, c),
    ensures
        keeps_functions(a, c),
{
    assert forall|label: LabelSpec| #[trigger] is_issued(a, label) implies is_issued(c, label) && (
    has_key(c, label) <==> has_key(a, label)) by {
        assert(is_issued(b, label));
        assert(is_issued(c, label));
    }
}

proof fn instr_stays_on(
    before: Seq<(LabelSpec, Seq<LabelSpec>)>,
    after: Seq<(LabelSpec, Seq<LabelSpec>)>,
    function: LabelSpec,
    instr: InstrSpec,
)
    requires
        keeps_functions(before, after),
        instr_stays(before, function, instr),
    ensures
        instr_stays(after, function, instr),
    decreases instr,
{
    match instr {
        InstrSpec::Spawn(label) => {
            assert(is_issued(after, label));
        },
        InstrSpec::Call(callee, label) => {
            assert(is_issued(after, label));
            if callee.1.len() > 0 {
                assert(is_issued(after, callee));
            }
        },
        InstrSpec::If(_, body) => {
            assert forall|i: int| 0 <= i < body.len() implies instr_stays(
                after,
                function,
                #[trigger] body[i],
            ) by {
                instr_stays_on(before, after, function, body[i]);
            }
        },
        _ => {},
    }
}

proof fn code_stays_on(
    before: Seq<(LabelSpec, Seq<LabelSpec>)>,
    after: Seq<(LabelSpec, Seq<LabelSpec>)>,
    function: LabelSpec,
    code: InstrsSpec,
)
    requires
        keeps_functions(before, after),
        code_stays(before, function, code),
    ensures
        code_stays(after, function, code),
{
    assert forall|i: int| 0 <= i < code.len() implies instr_stays(
        after,
        function,
        #[trigger] code[i],
    ) by {
        instr_stays_on(before, after, function, code[i]);
    }
}

proof fn arms_stay_on(
    before: Seq<(LabelSpec, Seq<LabelSpec>)>,
    after: Seq<(LabelSpec, Seq<LabelSpec>)>,
    arms: Seq<(LabelSpec, InstrsSpec)>,
)
    requires
        keeps_functions(before, after),
        arms_stay(before, arms),
    ensures
        arms_stay(after, arms),
{
    assert forall|i: int| 0 <= i < arms.len() implies {
        &&& (#[trigger] arms[i]).0.1.len() == 0 || is_issued(after, arms[i].0)
        &&& code_stays(after, enclosing_fn(arms[i].0, after), arms[i].1)
    } by {
        let label = arms[i].0;
        if label.1.len() > 0 {
            assert(is_issued(after, label));
        }
        assert(enclosing_fn(label, after) == enclosing_fn(label, before));
        code_stays_on(before, after, enclosing_fn(label, before), arms[i].1);
    }
}

proof fn frames_stay_on(
    before: Seq<(LabelSpec, Seq<LabelSpec>)>,
    after: Seq<(LabelSpec, Seq<LabelSpec>)>,
    frame: FrameSpec,
)
    requires
        keeps_functions(before, after),
        frame_stays(before, frame),
    ensures
        frame_stays(after, frame),
{
    if let Some((ret_label, outer)) = frame {
        assert(is_issued(after, ret_label));
        if outer.1.len() > 0 {
            assert(is_issued(after, outer));
        }
    }
}

proof fn function_on(
    before: Seq<(LabelSpec, Seq<LabelSpec>)>,
    after: Seq<(LabelSpec, Seq<LabelSpec>)>,
    label: LabelSpec,
)
    requires
        keeps_functions(before, after),
        is_function(before, label),
    ensures
        is_function(after, label),
{
    if label.1.len() > 0 {
        assert(is_issued(after, label));
    }
}

/// Labels that are handed out belong to the function that they are handed out in.
proof fn issue_stays(roots: Set<LabelSpec>, c: ContSpec)
    requires
        cont_wf(roots, c),
        is_function(c.labels, c.fn_label),
    ensures
        keeps_functions(c.labels, c.issued().labels),
        belongs_to(c.issued().labels, c.next_label(), c.fn_label),
{
    issue_one(roots, c);
    let after = c.issued().labels;
    let new = c.next_label();
    let f = c.fn_label;
    assert(is_issued(after, new));
    assert(parent_of(new) == f) by {
        assert(new.1.drop_last() =~= f.1);
    }
    assert forall|label: LabelSpec| #[trigger] is_issued(c.labels, label) implies is_issued(
        after,
        label,
    ) && (has_key(after, label) <==> has_key(c.labels, label)) by {
        inside_put(
            c.labels,
            f,
            inside(c.labels, f).push(new),
            label,
        );
    }
}

/// The label of a new function is that of a function.
proof fn enter_stays(roots: Set<LabelSpec>, c: ContSpec)
    requires
        cont_wf(roots, c),
        is_function(c.labels, c.fn_label),
    ensures
        keeps_functions(c.labels, c.entered().labels),
        is_function(c.entered().labels, c.next_label()),
{
    issue_stays(roots, c);
    issue_one(roots, c);
    enter_one(roots, c);
    let mid = c.issued().labels;
    let after = c.entered().labels;
    let new = c.next_label();
    assert(is_issued(after, new));
    inside_put(mid, new, Seq::empty(), new);
    assert forall|label: LabelSpec| #[trigger] is_issued(c.labels, label) implies is_issued(
        after,
        label,
    ) && (has_key(after, label) <==> has_key(c.labels, label)) by {
        assert(is_issued(mid, label));
        inside_put(mid, new, Seq::empty(), label);
    }
}

proof fn labelled_stays(roots: Set<LabelSpec>, c: ContSpec)
    requires
        cont_wf(roots, c),
        cont_stays(c),
    ensures
        cont_stays(c.labelled()),
        keeps_functions(c.labels, c.labelled().labels),
        belongs_to(c.labelled().labels, c.labelled().code->Label_0, c.fn_label),
{
    let after = c.labelled();
    if c.code is Inline {
        issue_stays(roots, c);
        arms_stay_on(c.labels, after.labels, c.arms);
        code_stays_on(c.labels, after.labels, c.fn_label, c.inline());
        function_on(c.labels, after.labels, c.fn_label);
        assert forall|i: int| 0 <= i < after.arms.len() implies {
            &&& (#[trigger] after.arms[i]).0.1.len() == 0 || is_issued(
                after.labels,
                after.arms[i].0,
            )
            &&& code_stays(
                after.labels,
                enclosing_fn(after.arms[i].0, after.labels),
                after.arms[i].1,
            )
        } by {
            if i < c.arms.len() {
                assert(after.arms[i] == c.arms[i]);
            }
        }
        assert forall|i: int| 0 <= i < after.frames.len() implies frame_stays(
            after.labels,
            #[trigger] after.frames[i],
        ) by {
            frames_stay_on(c.labels, after.labels, c.frames[i]);
        }
    } else {
        assert(c.inline()[0] == InstrSpec::Spawn(c.code->Label_0));
        assert(instr_stays(c.labels, c.fn_label, c.inline()[0]));
    }
}

proof fn call_stays(roots: Set<LabelSpec>, c: ContSpec, callee: LabelSpec)
    requires
        cont_wf(roots, c),
        cont_stays(c),
        is_function(c.labels, callee),
    ensures
        cont_stays(c.call(callee)),
        keeps_functions(c.labels, c.call(callee).labels),
{
    labelled_stays(roots, c);
    function_on(c.labels, c.labelled().labels, callee);
}

proof fn left_stays(c: ContSpec, ret_label: LabelSpec, outer: LabelSpec)
    requires
        cont_stays(c),
        frame_stays(c.labels, Some((ret_label, outer))),
    ensures
        cont_stays(c.left(ret_label, outer)),
        c.left(ret_label, outer).labels == c.labels,
{
    let after = c.left(ret_label, outer);
    assert(after.arms =~= c.arms.push((c.fn_label, c.inline())));
    assert forall|i: int| 0 <= i < after.arms.len() implies {
        &&& (#[trigger] after.arms[i]).0.1.len() == 0 || is_issued(after.labels, after.arms[i].0)
        &&& code_stays(
            after.labels,
            enclosing_fn(after.arms[i].0, after.labels),
            after.arms[i].1,
        )
    } by {
        if i < c.arms.len() {
            assert(after.arms[i] == c.arms[i]);
        }
    }
}

proof fn open_stays(roots: Set<LabelSpec>, c: ContSpec, extra: spec_fn(LabelSpec) -> int)
    requires
        cont_wf(roots, c),
        accounted(c, extra),
        cont_stays(c),
    ensures
        cont_stays(c.open_frame()),
        keeps_functions(c.labels, c.open_frame().labels),
{
    let after = c.open_frame();
    if c.frames.len() > 0 && c.frames.last() is None {
        let mid = c.labelled();
        labelled_accounts(roots, c, extra);
        labelled_stays(roots, c);
        enter_stays(roots, mid);
        keeps_on(c.labels, mid.labels, after.labels);
        arms_stay_on(mid.labels, after.labels, mid.arms);
        assert forall|i: int| 0 <= i < after.frames.len() implies frame_stays(
            after.labels,
            #[trigger] after.frames[i],
        ) by {
            if i < c.frames.len() - 1 {
                assert(after.frames[i] == mid.frames[i]);
                frames_stay_on(mid.labels, after.labels, mid.frames[i]);
            } else if i == c.frames.len() - 1 {
                frames_stay_on(
                    mid.labels,
                    after.labels,
                    Some((mid.code->Label_0, mid.fn_label)),
                );
            }
        }
    } else {
        assert forall|i: int| 0 <= i < after.frames.len() implies frame_stays(
            after.labels,
            #[trigger] after.frames[i],
        ) by {
            if i < c.frames.len() {
                assert(after.frames[i] == c.frames[i]);
            }
        }
    }
}

/// A step whose frames are in order leaves code that stays inside of its functions.
#[verifier::rlimit(50)]
proof fn apply_stays(
    roots: Set<LabelSpec>,
    t: ThunkSpec,
    d: nat,
    fixed: LabelSpec,
    c: ContSpec,
    base: Seq<FrameSpec>,
    fn_label: LabelSpec,
    extra: spec_fn(LabelSpec) -> int,
)
    requires
        level(t, d) is Some,
        within(c, base, fn_label, d),
        cont_wf(roots, c),
        accounted(c, extra),
        cont_stays(c),
        thunk_stays(t),
        is_function(c.labels, fixed),
    ensures
        apply(t, fixed, c) is Some,
        cont_stays(apply(t, fixed, c)->Some_0),
        keeps_functions(c.labels, apply(t, fixed, c)->Some_0.labels),
    decreases t, 0nat,
{
    level_applies(t, d, fixed, c, base, fn_label);
    let after = apply(t, fixed, c)->Some_0;
    match t {
        ThunkSpec::Skip => {},
        ThunkSpec::Emit(code) => {
            let whole = code + c.inline();
            assert forall|i: int| 0 <= i < whole.len() implies instr_stays(
                c.labels,
                c.fn_label,
                #[trigger] whole[i],
            ) by {
                if i < code.len() {
                    assert(whole[i] == code[i]);
                } else {
                    assert(whole[i] == c.inline()[i - code.len()]);
                }
            }
        },
        ThunkSpec::Check(condition) => {
            assert(instr_stays(c.labels, c.fn_label, InstrSpec::If(condition, c.inline())));
        },
        ThunkSpec::Ret => {},
        ThunkSpec::Call(callee) => {
            call_stays(roots, c, callee);
        },
        ThunkSpec::CallFix => {
            call_stays(roots, c, fixed);
        },
        ThunkSpec::OpenFrame => {
            open_stays(roots, c, extra);
        },
        ThunkSpec::CloseFrame => {
            let inner = ContSpec { frames: c.frames.drop_last(), ..c };
            let last = c.frames[c.frames.len() - 1];
            assert forall|i: int| 0 <= i < inner.frames.len() implies frame_stays(
                inner.labels,
                #[trigger] inner.frames[i],
            ) by {
                assert(inner.frames[i] == c.frames[i]);
            }
            assert(frame_stays(c.labels, last));
            if let Some((ret_label, outer)) = last {
                left_stays(inner, ret_label, outer);
            }
        },
        ThunkSpec::Then(a, b) => {
            let mid = apply(*b, fixed, c)->Some_0;
            let e = level(*b, d)->Some_0;
            level_applies(*b, d, fixed, c, base, fn_label);
            apply_accounts(roots, *b, d, fixed, c, base, fn_label, extra);
            apply_stays(roots, *b, d, fixed, c, base, fn_label, extra);
            function_on(c.labels, mid.labels, fixed);
            apply_stays(roots, *a, e, fixed, mid, base, fn_label, extra);
            keeps_on(c.labels, mid.labels, after.labels);
        },
        ThunkSpec::Parallel(ts) => {
            let start = c.labelled();
            labelled_accounts(roots, c, extra);
            labelled_stays(roots, c);
            function_on(c.labels, start.labels, fixed);
            branches_apply(ts, ts.len(), fixed, start);
            branches_stay(roots, ts, ts.len(), fixed, start, extra);
            keeps_on(c.labels, start.labels, after.labels);
            let all = branches(ts, ts.len(), fixed, start)->Some_0;
            assert(after.frames =~= start.frames);
            assert(after.inline() == all.code);
            assert(after.arms == all.cont.arms);
        },
        ThunkSpec::Fix(body) => {
            let start = c.labelled();
            let begin = fix_begin(c);
            let made = begin.fn_label;
            let more = outside_fix(start, extra, made);
            labelled_accounts(roots, c, extra);
            labelled_stays(roots, c);
            fix_begin_accounts(roots, c, extra);
            enter_stays(roots, start);
            arms_stay_on(start.labels, begin.labels, start.arms);
            assert(cont_stays(begin));
            level_applies(*body, 0, made, begin, Seq::empty(), made);
            apply_accounts(roots, *body, 0, made, begin, Seq::empty(), made, more);
            apply_stays(roots, *body, 0, made, begin, Seq::empty(), made, more);
            let done = apply(*body, made, begin)->Some_0;
            keeps_on(start.labels, begin.labels, done.labels);
            keeps_on(c.labels, start.labels, done.labels);
            let frame = Some((start.code->Label_0, c.fn_label));
            frames_stay_on(start.labels, done.labels, frame);
            assert(done.fn_label == made);
            left_stays(done, start.code->Label_0, c.fn_label);
            assert forall|i: int| 0 <= i < c.frames.len() implies frame_stays(
                after.labels,
                #[trigger] c.frames[i],
            ) by {
                frames_stay_on(c.labels, done.labels, c.frames[i]);
            }
        },
    }
}

/// Branches whose frames are in order leave code that stays inside of its functions.
proof fn branches_stay(
    roots: Set<LabelSpec>,
    ts: Seq<ThunkSpec>,
    n: nat,
    fixed: LabelSpec,
    start: ContSpec,
    extra: spec_fn(LabelSpec) -> int,
)
    requires
        n <= ts.len(),
        forall|i: int| 0 <= i < ts.len() ==> level(#[trigger] ts[i], 0) == Some(0nat),
        cont_wf(roots, start),
        accounted(start, extra),
        cont_stays(start),
        start.code is Label,
        forall|i: int| 0 <= i < ts.len() ==> thunk_stays(#[trigger] ts[i]),
        is_function(start.labels, fixed),
    ensures
        branches(ts, n, fixed, start) matches Some(b) && {
            &&& cont_stays(b.cont)
            &&& code_stays(b.cont.labels, start.fn_label, b.code)
            &&& keeps_functions(start.labels, b.cont.labels)
        },
    decreases ts, n,
{
    if n > 0 {
        let before = branches(ts, (n - 1) as nat, fixed, start)->Some_0;
        branches_apply(ts, (n - 1) as nat, fixed, start);
        branches_apply(ts, n, fixed, start);
        branches_account(roots, ts, (n - 1) as nat, fixed, start, extra);
        branches_stay(roots, ts, (n - 1) as nat, fixed, start, extra);
        let frames = before.cont.frames;
        let fn_label = before.cont.fn_label;
        assert(level(ts[n - 1], 0) == Some(0nat));
        assert(thunk_stays(ts[n - 1]));
        within_self(before.cont);
        function_on(start.labels, before.cont.labels, fixed);
        level_applies(ts[n - 1], 0, fixed, before.cont, frames, fn_label);
        apply_stays(roots, ts[n - 1], 0, fixed, before.cont, frames, fn_label, extra);
        let child = apply(ts[n - 1], fixed, before.cont)->Some_0;
        let ended = end_branch(child, start.frames)->Some_0;
        let b = branches(ts, n, fixed, start)->Some_0;
        let m = child.frames.len();
        if m > 0 && child.frames[m - 1] is Some && start.frames[m - 1] is None {
            let (ret_label, outer) = child.frames[m - 1]->Some_0;
            assert(frame_stays(child.labels, child.frames[m - 1]));
            left_stays(child, ret_label, outer);
        }
        keeps_on(start.labels, before.cont.labels, ended.labels);
        assert(b.cont.fn_label == start.fn_label);
        assert(ended.fn_label == start.fn_label);
        code_stays_on(before.cont.labels, b.cont.labels, start.fn_label, before.code);
        assert forall|i: int| 0 <= i < b.code.len() implies instr_stays(
            b.cont.labels,
            start.fn_label,
            #[trigger] b.code[i],
        ) by {
            if i < before.code.len() {
                assert(b.code[i] == before.code[i]);
            } else {
                assert(b.code[i] == ended.inline()[i - before.code.len()]);
            }
        }
        code_stays_on(start.labels, b.cont.labels, start.fn_label, start.inline());
        assert forall|i: int| 0 <= i < b.cont.frames.len() implies frame_stays(
            b.cont.labels,
            #[trigger] b.cont.frames[i],
        ) by {
            frames_stay_on(start.labels, b.cont.labels, start.frames[i]);
        }
    }
}

proof fn opt_stays(t: ThunkSpec)
    requires
        thunk_stays(t),
    ensures
        thunk_stays(opt_step(t)),
{
    let ts = opt_step(t)->Parallel_0;
    assert forall|i: int| 0 <= i < ts.len() implies thunk_stays(#[trigger] ts[i]) by {
        if i == 0 {
            assert(ts[0] == t);
        } else {
            assert(ts[1] == ThunkSpec::Emit(Seq::empty()));
        }
    }
}

proof fn both_stays(
    left: RuleSpec,
    left_step: ThunkSpec,
    right_step: ThunkSpec,
    whole: RuleSpec,
    table: Option<Seq<RuleSpec>>,
)
    requires
        thunk_stays(left_step),
        thunk_stays(right_step),
    ensures
        thunk_stays(both_step(left, left_step, right_step, whole, table)),
{
    reveal_with_fuel(thunk_stays, 5);
}

proof fn sep_stays(
    elem: RuleSpec,
    elem_step: ThunkSpec,
    sep: RuleSpec,
    step: ThunkSpec,
    kind: SepKind,
    table: Option<Seq<RuleSpec>>,
)
    requires
        thunk_stays(elem_step),
        thunk_stays(step),
    ensures
        thunk_stays(sep_step(elem, elem_step, sep, step, kind, table)),
{
    let whole = more_sep(elem, sep, SepKind::Simple);
    let rest = both_step(sep, step, ThunkSpec::CallFix, concat(sep, whole), table);
    both_stays(sep, step, ThunkSpec::CallFix, concat(sep, whole), table);
    opt_stays(rest);
    both_stays(elem, elem_step, opt_step(rest), whole, table);
    let body = both_step(elem, elem_step, opt_step(rest), whole, table);
    assert(thunk_stays(ThunkSpec::Fix(Box::new(body))));
    opt_stays(step);
}

proof fn parse_stays(rule: RuleSpec, table: Option<Seq<RuleSpec>>)
    ensures
        thunk_stays(parse_step(rule, table)),
    decreases rule, 0nat,
{
    match rule {
        RuleSpec::Empty | RuleSpec::Eat(_) | RuleSpec::Call(_) => {},
        RuleSpec::Concat(left, right) => {
            parse_stays(*left, table);
            parse_stays(*right, table);
            both_stays(
                *left,
                parse_step(*left, table),
                parse_step(*right, table),
                rule,
                table,
            );
        },
        RuleSpec::Or(cases) => {
            let ts = parse_step(rule, table)->Parallel_0;
            assert forall|i: int| 0 <= i < ts.len() implies thunk_stays(#[trigger] ts[i]) by {
                parse_stays(cases[i], table);
                reveal_with_fuel(thunk_stays, 3);
            }
        },
        RuleSpec::Opt(inner) => {
            parse_stays(*inner, table);
            opt_stays(parse_step(*inner, table));
        },
        RuleSpec::RepeatMany(elem, None) => {
            let step = parse_step(*elem, table);
            parse_stays(*elem, table);
            both_stays(*elem, step, ThunkSpec::CallFix, more(*elem), table);
            opt_stays(both_step(*elem, step, ThunkSpec::CallFix, more(*elem), table));
        },
        RuleSpec::RepeatMore(elem, None) => {
            let step = parse_step(*elem, table);
            parse_stays(*elem, table);
            opt_stays(ThunkSpec::CallFix);
            both_stays(*elem, step, opt_step(ThunkSpec::CallFix), rule, table);
        },
        RuleSpec::RepeatMany(elem, Some((sep, kind)))
        | RuleSpec::RepeatMore(elem, Some((sep, kind))) => {
            let elem_step = parse_step(*elem, table);
            let step = parse_step(*sep, table);
            parse_stays(*elem, table);
            parse_stays(*sep, table);
            sep_stays(*elem, elem_step, *sep, step, kind, table);
            opt_stays(sep_step(*elem, elem_step, *sep, step, kind, table));
        },
    }
}

/// The code of a grammar stays inside of its functions: what stands at a label goes on only at
/// labels that are said to belong to the same function, and what it calls are functions.
pub proof fn grammar_code_stays(g: GrammarSpec, n: nat, table: Seq<RuleSpec>)
    requires
        n <= g.len(),
    ensures
        arms_stay(rules_code(g, n, table).labels, rules_code(g, n, table).arms),
    decreases n,
{
    if n > 0 {
        let i = (n - 1) as nat;
        let rule = g[n - 1].1;
        let label = rule_label(g[n - 1].0);
        let roots = rule_labels(g, n);
        let step = parse_step(rule.rule, code_table(rule, table));
        let begin = rule_begin(g, i, table);
        let extra = minus_named(g, i);
        grammar_code_stays(g, i, table);
        rules_code_complete(g, i, table);
        rule_begin_accounts(g, i, table, roots);
        rule_code_from_begin(g, i, table);
        parse_stays(rule.rule, code_table(rule, table));
        assert(cont_stays(begin));
        apply_stays(roots, step, 0, label, begin, begin.frames, begin.fn_label, extra);
        let done = apply(step, label, begin)->Some_0;
        let codes = rules_code(g, n, table);
        assert(done.fn_label == label);
        assert forall|k: int| 0 <= k < codes.arms.len() implies {
            &&& (#[trigger] codes.arms[k]).0.1.len() == 0 || is_issued(
                codes.labels,
                codes.arms[k].0,
            )
            &&& code_stays(
                codes.labels,
                enclosing_fn(codes.arms[k].0, codes.labels),
                codes.arms[k].1,
            )
        } by {
            if k < done.arms.len() {
                assert(codes.arms[k] == done.arms[k]);
            } else {
                assert(codes.arms[k] == (label, done.inline()));
            }
        }
    }
}

/// The function that a label belongs to is the label itself, or the one that the label is inside
/// of. It is the label itself exactly where the label is that of a rule, or the labels inside of it
/// are listed.
pub proof fn function_of_label(label: LabelSpec, labels: Seq<(LabelSpec, Seq<LabelSpec>)>)
    ensures
        enclosing_fn(label, labels) == label || label == nested(
            enclosing_fn(label, labels),
            label.1.last(),
        ),
        enclosing_fn(label, labels) == label <==> label.1.len() == 0 || exists|i: int|
            0 <= i < labels.len() && (#[trigger] labels[i]).0 == label,
{
    if label.1.len() > 0 {
        assert(parent_of(label).1.push(label.1.last()) =~= label.1);
        assert(parent_of(label).1.len() < label.1.len());
    }
}

/// Whether all frames but the last have a function of their own.
pub open spec fn frames_apart(frames: Seq<FrameSpec>) -> bool {
    forall|i: int| 0 <= i < frames.len() - 1 ==> (#[trigger] frames[i]) is Some
}

/// A step leaves frames of which all but the last have a function of their own, so that no function
/// has two of its own values saved at a time.
pub proof fn frames_stay_apart(t: ThunkSpec, fixed: LabelSpec, c: ContSpec)
    requires
        frames_apart(c.frames),
        apply(t, fixed, c) is Some,
    ensures
        frames_apart(apply(t, fixed, c)->Some_0.frames),
    decreases t,
{
    let after = apply(t, fixed, c)->Some_0;
    match t {
        ThunkSpec::Then(a, b) => {
            frames_stay_apart(*b, fixed, c);
            frames_stay_apart(*a, fixed, apply(*b, fixed, c)->Some_0);
        },
        ThunkSpec::OpenFrame => {
            let n = c.frames.len();
            assert forall|i: int| 0 <= i < after.frames.len() - 1 implies (
            #[trigger] after.frames[i]) is Some by {
                if i < n - 1 {
                    assert(after.frames[i] == c.frames[i]);
                }
            }
        },
        ThunkSpec::Parallel(ts) => {
            branches_frames(ts, ts.len(), fixed, c.labelled());
        },
        _ => {},
    }
}

proof fn branches_frames(ts: Seq<ThunkSpec>, n: nat, fixed: LabelSpec, start: ContSpec)
    requires
        n <= ts.len(),
        branches(ts, n, fixed, start) is Some,
    ensures
        branches(ts, n, fixed, start)->Some_0.cont.frames == start.frames,
        branches(ts, n, fixed, start)->Some_0.depth matches Some(d) ==> d <= start.frames.len(),
    decreases n,
{
    if n > 0 {
        branches_frames(ts, (n - 1) as nat, fixed, start);
    }
}

} // verus!
