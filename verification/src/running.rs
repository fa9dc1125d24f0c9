//! Why generated code takes the input that its steps take.
use crate::balance::{branches_apply, level, level_applies};
use crate::continuation::ContSpec;
use crate::instr::{InstrSpec, InstrsSpec};
use crate::label::LabelSpec;
use crate::language::{
    can_do, can_repeat, input_of, input_of_sum, is_concat, is_depth, no_input, noted_kind,
    once_more, saved_kind, takes_input, EventSpec, Trace,
};
use crate::machine::{
    agrees, call_taken, call_takes, check_taken, check_takes, close_takes, code_takes,
    code_takes_more, cont_parts, cont_takes, cont_takes_more, cont_whole, emit_takes, end_takes,
    fn_takes, is_note, label_takes, left_taken, left_takes, open_takes, rest_takes, rest_takes_more,
    takes_one, takes_sum, Program,
};
use crate::thunk::{apply, branches, end_branch, ThunkSpec};
use vstd::prelude::*;

verus! {

/// Whether a step is made of calls, conditions, choices, repetitions, and of pairs of nodes.
pub open spec fn is_plain(t: ThunkSpec) -> bool
    decreases t,
{
    match t {
        ThunkSpec::Skip | ThunkSpec::Check(_) | ThunkSpec::CallFix => true,
        ThunkSpec::Call(callee) => callee.1.len() == 0,
        ThunkSpec::Emit(code) => forall|i: int|
            0 <= i < code.len() ==> (#[trigger] code[i]) is AddChoice,
        ThunkSpec::Then(a, b) => if is_concat(t) {
            is_plain(*(*(*a)->Then_0)->Then_0) && is_plain(*(*a)->Then_1)
        } else {
            is_plain(*a) && is_plain(*b)
        },
        ThunkSpec::Parallel(ts) => forall|i: int| 0 <= i < ts.len() ==> is_plain(#[trigger] ts[i]),
        ThunkSpec::Fix(body) => is_plain(*body),
        ThunkSpec::Ret | ThunkSpec::OpenFrame | ThunkSpec::CloseFrame => false,
    }
}

/// What a step can do stays possible where more can be done once more.
proof fn can_do_more(
    t: ThunkSpec,
    x: spec_fn(Trace) -> bool,
    y: spec_fn(Trace) -> bool,
    u: Trace,
)
    requires
        can_do(t, x, u),
        forall|v: Trace| #[trigger] x(v) ==> y(v),
    ensures
        can_do(t, y, u),
    decreases t,
{
    match t {
        ThunkSpec::Then(a, b) => {
            if is_concat(t) {
                let left = *(*(*a)->Then_0)->Then_0;
                let right = *(*a)->Then_1;
                let n = u.len() - 2;
                let i = choose|i: int|
                    0 <= i <= n && can_do(left, x, #[trigger] u.take(i)) && can_do(
                        right,
                        x,
                        u.subrange(i, n),
                    );
                can_do_more(left, x, y, u.take(i));
                can_do_more(right, x, y, u.subrange(i, n));
            } else {
                let i = choose|i: int|
                    0 <= i <= u.len() && can_do(*a, x, #[trigger] u.take(i)) && can_do(
                        *b,
                        x,
                        u.skip(i),
                    );
                can_do_more(*a, x, y, u.take(i));
                can_do_more(*b, x, y, u.skip(i));
            }
        },
        ThunkSpec::Parallel(ts) => {
            let i = choose|i: int| 0 <= i < ts.len() && can_do(#[trigger] ts[i], x, u);
            can_do_more(ts[i], x, y, u);
        },
        _ => {},
    }
}

/// What a function can do that calls itself stays possible where it may do so more often.
proof fn can_repeat_more(body: ThunkSpec, k: nat, m: nat, u: Trace)
    requires
        can_repeat(body, k, u),
        k <= m,
    ensures
        can_repeat(body, m, u),
    decreases k,
{
    let x = once_more(body, k);
    let y = once_more(body, m);
    assert forall|v: Trace| #[trigger] x(v) implies y(v) by {
        can_repeat_more(body, (k - 1) as nat, (m - 1) as nat, v);
    }
    can_do_more(body, x, y, u);
}

/// Steps only add code.
pub proof fn arms_grow(t: ThunkSpec, fixed: LabelSpec, c: ContSpec)
    requires
        apply(t, fixed, c) is Some,
    ensures
        c.arms.is_prefix_of(apply(t, fixed, c)->Some_0.arms),
    decreases t, 0nat,
{
    let after = apply(t, fixed, c)->Some_0;
    match t {
        ThunkSpec::Then(a, b) => {
            arms_grow(*b, fixed, c);
            let mid = apply(*b, fixed, c)->Some_0;
            arms_grow(*a, fixed, mid);
            prefixes(c.arms, mid.arms, after.arms);
        },
        ThunkSpec::Parallel(ts) => {
            let start = c.labelled();
            branches_grow(ts, ts.len(), fixed, start);
            prefixes(c.arms, start.arms, after.arms);
        },
        ThunkSpec::Fix(body) => {
            let inner = c.labelled().entered();
            let begin = ContSpec {
                frames: Seq::empty(),
                ..inner.with_code(seq![InstrSpec::Ret])
            };
            arms_grow(*body, inner.fn_label, begin);
            let done = apply(*body, inner.fn_label, begin)->Some_0;
            prefixes(c.arms, begin.arms, done.arms);
            prefixes(c.arms, done.arms, after.arms);
        },
        _ => {},
    }
}

proof fn branches_grow(ts: Seq<ThunkSpec>, n: nat, fixed: LabelSpec, start: ContSpec)
    requires
        n <= ts.len(),
        branches(ts, n, fixed, start) is Some,
    ensures
        start.arms.is_prefix_of(branches(ts, n, fixed, start)->Some_0.cont.arms),
    decreases ts, n,
{
    if n > 0 {
        branches_grow(ts, (n - 1) as nat, fixed, start);
        let before = branches(ts, (n - 1) as nat, fixed, start)->Some_0;
        arms_grow(ts[n - 1], fixed, before.cont);
        let child = apply(ts[n - 1], fixed, before.cont)->Some_0;
        let ended = end_branch(child, start.frames)->Some_0;
        prefixes(start.arms, before.cont.arms, child.arms);
        prefixes(start.arms, child.arms, ended.arms);
    }
}

proof fn prefixes(
    a: Seq<(LabelSpec, InstrsSpec)>,
    b: Seq<(LabelSpec, InstrsSpec)>,
    c: Seq<(LabelSpec, InstrsSpec)>,
)
    requires
        a.is_prefix_of(b),
        b.is_prefix_of(c),
    ensures
        a.is_prefix_of(c),
{
    assert(a =~= c.subrange(0, a.len() as int));
}

/// A program that has all code has the code that was there before.
proof fn agrees_before(
    p: Program,
    a: Seq<(LabelSpec, InstrsSpec)>,
    b: Seq<(LabelSpec, InstrsSpec)>,
    from: nat,
)
    requires
        agrees(p, b, from),
        a.is_prefix_of(b),
    ensures
        agrees(p, a, from),
{
    assert forall|i: int| from <= i < a.len() implies (#[trigger] a[i]).0.1.len() > 0 && p(a[i].0)
        == a[i].1 by {
        assert(a[i] == b[i]);
    }
}

/// Whether some input is that of a trace.
pub open spec fn is_input(again: spec_fn(Trace) -> bool, w: Trace) -> bool {
    exists|u: Trace| again(u) && #[trigger] input_of(u) == w
}

/// Whether all input that a function takes is that of traces.
pub open spec fn calls_do(
    p: Program,
    fixed: LabelSpec,
    again: spec_fn(Trace) -> bool,
    n: nat,
) -> bool {
    forall|w: Trace, m: nat| m <= n && #[trigger] fn_takes(p, fixed, w, m) ==> is_input(again, w)
}

/// The code of a step takes the input of a trace of the step, and after it what the continuation
/// took.
pub proof fn code_does(
    p: Program,
    t: ThunkSpec,
    d: nat,
    fixed: LabelSpec,
    c: ContSpec,
    from: nat,
    again: spec_fn(Trace) -> bool,
    w: Trace,
    n: nat,
) -> (r: (Trace, Trace))
    requires
        is_plain(t),
        level(t, d) is Some,
        apply(t, fixed, c) is Some,
        agrees(p, apply(t, fixed, c)->Some_0.arms, from),
        from <= c.arms.len(),
        calls_do(p, fixed, again, n),
        cont_takes(p, apply(t, fixed, c)->Some_0, w, n),
    ensures
        can_do(t, again, r.0),
        w == input_of(r.0) + r.1,
        cont_takes(p, c, r.1, n),
    decreases t, 0nat, 0nat,
{
    let after = apply(t, fixed, c)->Some_0;
    let none: Trace = Seq::empty();
    match t {
        ThunkSpec::Skip => {
            assert(w =~= input_of(none) + w);
            (none, w)
        },
        ThunkSpec::Emit(code) => {
            assert forall|i: int| 0 <= i < code.len() implies is_note(#[trigger] code[i]) by {
                assert(code[i] is AddChoice);
            }
            emit_takes(p, c, code, w, n);
            let u = Seq::new(
                code.len(),
                |i: int| EventSpec::Choice(code[i]->AddChoice_0, code[i]->AddChoice_1),
            );
            no_input(u);
            assert(w =~= input_of(u) + w);
            assert forall|i: int| 0 <= i < code.len() implies (
            #[trigger] code[i] matches InstrSpec::AddChoice(kind, choice) && u[i]
                == EventSpec::Choice(kind, choice)) by {
                assert(code[i] is AddChoice);
            }
            (u, w)
        },
        ThunkSpec::Check(condition) => {
            let (a, b) = check_takes(p, c, condition, w, n);
            reveal_with_fuel(input_of, 2);
            assert(input_of(a) =~= a);
            (a, b)
        },
        ThunkSpec::Call(callee) => {
            let (a, b) = call_takes(p, c, callee, from, w, n);
            reveal_with_fuel(input_of, 2);
            assert(input_of(a) =~= a);
            (a, b)
        },
        ThunkSpec::CallFix => {
            let (a, b) = call_takes(p, c, fixed, from, w, n);
            assert(is_input(again, a));
            let u = choose|u: Trace| again(u) && #[trigger] input_of(u) == a;
            (u, b)
        },
        ThunkSpec::Then(a, b) => {
            if is_concat(t) {
                concat_does(p, t, d, fixed, c, from, again, w, n)
            } else {
                let mid = apply(*b, fixed, c)->Some_0;
                arms_grow(*b, fixed, c);
                arms_grow(*a, fixed, mid);
                agrees_before(p, mid.arms, after.arms, from);
                let e = level(*b, d)->Some_0;
                let (u, rest) = code_does(p, *a, e, fixed, mid, from, again, w, n);
                let (v, last) = code_does(p, *b, d, fixed, c, from, again, rest, n);
                let all = u + v;
                input_of_sum(u, v);
                assert(w =~= input_of(all) + last);
                assert(all.take(u.len() as int) =~= u);
                assert(all.skip(u.len() as int) =~= v);
                (all, last)
            }
        },
        ThunkSpec::Parallel(ts) => {
            let start = c.labelled();
            let all = branches(ts, ts.len(), fixed, start)->Some_0;
            branches_apply(ts, ts.len(), fixed, start);
            assert(start.frames.take(start.frames.len() as int) =~= start.frames);
            let (a, b) = cont_parts(p, after, w, n);
            let (u, rest) = branches_do(p, ts, ts.len(), fixed, start, from, again, a, b, n);
            // The continuation has a label now, and takes what it took before.
            branches_grow(ts, ts.len(), fixed, start);
            agrees_before(p, start.arms, after.arms, from);
            let (x, y) = cont_parts(p, start, rest, n);
            takes_one(p, InstrSpec::Spawn(start.code->Label_0), x, n);
            label_takes(p, c, from, x, (n - 1) as nat);
            cont_whole(p, c, x, y, n);
            (u, rest)
        },
        ThunkSpec::Fix(body) => {
            let start = c.labelled();
            let inner = start.entered();
            let made = inner.fn_label;
            let begin = ContSpec {
                frames: Seq::empty(),
                ..inner.with_code(seq![InstrSpec::Ret])
            };
            level_applies(*body, 0, made, begin, Seq::empty(), made);
            let done = apply(*body, made, begin)->Some_0;
            let made_done = ContSpec { fn_label: made, ..done };
            arms_grow(*body, made, begin);
            assert(done.frames.len() == 0);
            let (a, b) = cont_parts(p, after, w, n);
            let ret_label = start.code->Label_0;
            assert(after.arms == made_done.left(ret_label, c.fn_label).arms);
            assert(after.inline() == made_done.left(ret_label, c.fn_label).inline());
            let last = after.arms[after.arms.len() - 1];
            assert(last == (made, done.inline()));
            assert(p(last.0) == last.1);
            let (x, y) = left_takes(p, made_done, ret_label, c.fn_label, from, a, n);
            assert(done.arms.is_prefix_of(after.arms));
            agrees_before(p, done.arms, after.arms, from);
            let u = fn_does(p, *body, made, begin, from, x, (n - 1) as nat);
            assert(is_depth(n));
            assert(start.arms.is_prefix_of(done.arms));
            agrees_before(p, start.arms, done.arms, from);
            label_takes(p, c, from, y, (n - 1) as nat);
            cont_whole(p, c, y, b, n);
            assert(w =~= input_of(u) + (y + b));
            (u, y + b)
        },
        ThunkSpec::Ret | ThunkSpec::OpenFrame | ThunkSpec::CloseFrame => (none, none),
    }
}

/// The code of a pair of nodes takes the input of the first, and after it that of the second.
proof fn concat_does(
    p: Program,
    t: ThunkSpec,
    d: nat,
    fixed: LabelSpec,
    c: ContSpec,
    from: nat,
    again: spec_fn(Trace) -> bool,
    w: Trace,
    n: nat,
) -> (r: (Trace, Trace))
    requires
        is_plain(t),
        is_concat(t),
        level(t, d) is Some,
        apply(t, fixed, c) is Some,
        agrees(p, apply(t, fixed, c)->Some_0.arms, from),
        from <= c.arms.len(),
        calls_do(p, fixed, again, n),
        cont_takes(p, apply(t, fixed, c)->Some_0, w, n),
    ensures
        can_do(t, again, r.0),
        w == input_of(r.0) + r.1,
        cont_takes(p, c, r.1, n),
    decreases *t->Then_0, 1nat, 0nat,
{
    let left = left_of(t);
    let right = right_of(t);
    let save = save_of(t);
    let take = take_of(t);
    let note = note_of(t);
    concat_applies(t, d, fixed, c);
    let c1 = c.open_frame();
    let c2 = c1.emit(note);
    let c3 = c2.emit(take);
    let c4 = apply(right, fixed, c3)->Some_0;
    let c5 = c4.close_frame()->Some_0;
    let c6 = c5.emit(save);
    let c7 = apply(left, fixed, c6)->Some_0;
    arms_grow(left, fixed, c6);
    arms_grow(right, fixed, c3);
    assert(c.arms.is_prefix_of(c1.arms));
    assert(c4.arms.is_prefix_of(c5.arms));
    agrees_before(p, c6.arms, c7.arms, from);
    agrees_before(p, c4.arms, c5.arms, from);
    agrees_before(p, c3.arms, c4.arms, from);
    let e = level(right, d + 1)->Some_0;
    let (u, rest) = code_does(p, left, (e - 1) as nat, fixed, c6, from, again, w, n);
    emit_takes(p, c5, save, rest, n);
    close_takes(p, c4, from, rest, n);
    let (v, last) = code_does(p, right, d + 1, fixed, c3, from, again, rest, n);
    emit_takes(p, c2, take, last, n);
    emit_takes(p, c1, note, last, n);
    open_takes(p, c, from, last, n);
    let all = concat_trace(t, again, u, v);
    assert(w =~= input_of(all) + last);
    (all, last)
}

/// The step for the first of a pair of nodes.
pub open spec fn left_of(t: ThunkSpec) -> ThunkSpec {
    *(*(*t->Then_0)->Then_0)->Then_0
}

/// The step for the second of a pair of nodes.
pub open spec fn right_of(t: ThunkSpec) -> ThunkSpec {
    *(*t->Then_0)->Then_1
}

/// The code that saves the first of a pair of nodes.
pub open spec fn save_of(t: ThunkSpec) -> InstrsSpec {
    (*(*(*(*t->Then_0)->Then_0)->Then_1)->Then_0)->Emit_0
}

/// The code that takes back the first of a pair of nodes.
pub open spec fn take_of(t: ThunkSpec) -> InstrsSpec {
    (*(*(*t->Then_1)->Then_0)->Then_0)->Emit_0
}

/// The code that notes a pair of nodes.
pub open spec fn note_of(t: ThunkSpec) -> InstrsSpec {
    (*(*(*t->Then_1)->Then_0)->Then_1)->Emit_0
}

/// The code of a pair of nodes is generated from its end to its start.
proof fn concat_applies(t: ThunkSpec, d: nat, fixed: LabelSpec, c: ContSpec)
    requires
        is_concat(t),
        level(t, d) is Some,
        apply(t, fixed, c) is Some,
    ensures
        ({
            let c3 = c.open_frame().emit(note_of(t)).emit(take_of(t));
            let c4 = apply(right_of(t), fixed, c3)->Some_0;
            let c6 = c4.close_frame()->Some_0.emit(save_of(t));
            &&& apply(right_of(t), fixed, c3) is Some
            &&& c4.frames.len() > 0
            &&& apply(left_of(t), fixed, c6) is Some
            &&& apply(t, fixed, c) == apply(left_of(t), fixed, c6)
            &&& level(right_of(t), d + 1) is Some
            &&& level(right_of(t), d + 1)->Some_0 > 0
            &&& level(left_of(t), (level(right_of(t), d + 1)->Some_0 - 1) as nat) is Some
        }),
        forall|i: int| 0 <= i < save_of(t).len() ==> is_note(#[trigger] save_of(t)[i]),
        forall|i: int| 0 <= i < take_of(t).len() ==> is_note(#[trigger] take_of(t)[i]),
        forall|i: int| 0 <= i < note_of(t).len() ==> is_note(#[trigger] note_of(t)[i]),
{
    let pop = *t->Then_1;
    let front = *t->Then_0;
    let first = *front->Then_0;
    let push = *first->Then_1;
    let c1 = c.open_frame();
    let c3 = c1.emit(note_of(t)).emit(take_of(t));
    assert(apply(pop, fixed, c) == Some(c3)) by {
        let inner = *pop->Then_0;
        assert(apply(*pop->Then_1, fixed, c) == Some(c1));
        assert(apply(*inner->Then_1, fixed, c1) == Some(c1.emit(note_of(t))));
        assert(apply(*inner->Then_0, fixed, c1.emit(note_of(t))) == Some(c3));
        assert(apply(inner, fixed, c1) == Some(c3));
    }
    assert(apply(t, fixed, c) == apply(front, fixed, c3));
    let c4 = apply(right_of(t), fixed, c3)->Some_0;
    assert(apply(front, fixed, c3) == apply(first, fixed, c4));
    let closed = c4.close_frame();
    assert(apply(*push->Then_1, fixed, c4) == closed);
    assert(apply(*push->Then_0, fixed, closed->Some_0) == Some(
        closed->Some_0.emit(save_of(t)),
    ));
    assert(closed is Some);
    assert(apply(push, fixed, c4) == Some(closed->Some_0.emit(save_of(t))));
    assert(level(pop, d) == Some(d + 1)) by {
        let inner = *pop->Then_0;
        assert(level(*pop->Then_1, d) == Some(d + 1));
        assert(level(*inner->Then_1, d + 1) == Some(d + 1));
        assert(level(*inner->Then_0, d + 1) == Some(d + 1));
        assert(level(inner, d + 1) == Some(d + 1));
    }
    let e = level(right_of(t), d + 1)->Some_0;
    assert(level(front, d + 1) == level(first, e));
    assert(level(*push->Then_1, e) is Some);
    assert(level(push, e) == Some((e - 1) as nat)) by {
        assert(level(*push->Then_0, (e - 1) as nat) == Some((e - 1) as nat));
    }
}

/// The trace of a pair of nodes: that of the first, that of the second, and the note of both.
proof fn concat_trace(t: ThunkSpec, again: spec_fn(Trace) -> bool, u: Trace, v: Trace) -> (all:
    Trace)
    requires
        is_concat(t),
        can_do(left_of(t), again, u),
        can_do(right_of(t), again, v),
    ensures
        can_do(t, again, all),
        input_of(all) == input_of(u) + input_of(v),
{
    let end = seq![EventSpec::Take(saved_kind(t)), EventSpec::Split(noted_kind(t))];
    let all = u + v + end;
    let m = all.len() - 2;
    input_of_sum(u, v);
    input_of_sum(u + v, end);
    no_input(end);
    assert(input_of(u + v) + Seq::empty() =~= input_of(u + v));
    assert(all.take(u.len() as int) =~= u);
    assert(all.subrange(u.len() as int, m) =~= v);
    all
}

/// The code of a function that calls itself takes the input of a trace of the function.
proof fn fn_does(
    p: Program,
    body: ThunkSpec,
    made: LabelSpec,
    begin: ContSpec,
    from: nat,
    w: Trace,
    n: nat,
) -> (u: Trace)
    requires
        is_plain(body),
        level(body, 0) == Some(0nat),
        apply(body, made, begin) matches Some(done) && done.frames.len() == 0 && agrees(
            p,
            done.arms,
            from,
        ) && p(made) == done.inline(),
        made.1.len() > 0,
        from <= begin.arms.len(),
        begin.frames.len() == 0,
        begin.inline() == seq![InstrSpec::Ret],
        code_takes(p, p(made), w, n),
    ensures
        can_repeat(body, n + 1, u),
        input_of(u) == w,
    decreases body, 1nat, n,
{
    let done = apply(body, made, begin)->Some_0;
    let again = once_more(body, n + 1);
    let none: Trace = Seq::empty();
    cont_whole(p, done, w, none, n);
    assert(w + none =~= w);
    assert forall|v: Trace, m: nat| m <= n && #[trigger] fn_takes(p, made, v, m) implies is_input(
        again,
        v,
    ) by {
        let u = fn_does(p, body, made, begin, from, v, (m - 1) as nat);
        can_repeat_more(body, m, n, u);
        assert(again(u));
    }
    let (u, rest) = code_does(p, body, 0, made, begin, from, again, w, n);
    let (a, b) = cont_parts(p, begin, rest, n);
    takes_one(p, InstrSpec::Ret, a, n);
    assert(input_of(u) =~= w);
    u
}

proof fn parallel_does(ts: Seq<ThunkSpec>, i: int, again: spec_fn(Trace) -> bool, u: Trace)
    requires
        0 <= i < ts.len(),
        can_do(ts[i], again, u),
    ensures
        can_do(ThunkSpec::Parallel(ts), again, u),
{
    let all = ThunkSpec::Parallel(ts)->Parallel_0;
    assert(can_do(all[i], again, u));
}

/// The code of branches takes the input of a trace of one of them, and after it what the
/// continuation takes that they all start from.
proof fn branches_do(
    p: Program,
    ts: Seq<ThunkSpec>,
    k: nat,
    fixed: LabelSpec,
    start: ContSpec,
    from: nat,
    again: spec_fn(Trace) -> bool,
    a: Trace,
    b: Trace,
    n: nat,
) -> (r: (Trace, Trace))
    requires
        k <= ts.len(),
        forall|i: int| 0 <= i < ts.len() ==> is_plain(#[trigger] ts[i]),
        forall|i: int| 0 <= i < ts.len() ==> level(#[trigger] ts[i], 0) == Some(0nat),
        branches(ts, k, fixed, start) is Some,
        agrees(p, branches(ts, k, fixed, start)->Some_0.cont.arms, from),
        from <= start.arms.len(),
        calls_do(p, fixed, again, n),
        code_takes(p, branches(ts, k, fixed, start)->Some_0.code, a, n),
        rest_takes(p, start.frames, b, n),
    ensures
        can_do(ThunkSpec::Parallel(ts), again, r.0),
        a + b == input_of(r.0) + r.1,
        cont_takes(p, start, r.1, n),
    decreases ts, 0nat, k,
{
    if k == 0 {
        let code = branches(ts, k, fixed, start)->Some_0.code;
        assert(code.len() == 0);
        assert(!code_takes(p, code, a, n));
        (a, b)
    } else {
        let all = branches(ts, k, fixed, start)->Some_0;
        let before = branches(ts, (k - 1) as nat, fixed, start)->Some_0;
        branches_apply(ts, (k - 1) as nat, fixed, start);
        branches_apply(ts, k, fixed, start);
        branches_grow(ts, (k - 1) as nat, fixed, start);
        let child = apply(ts[k - 1], fixed, before.cont)->Some_0;
        let ended = end_branch(child, start.frames)->Some_0;
        arms_grow(ts[k - 1], fixed, before.cont);
        assert(child.arms.is_prefix_of(ended.arms));
        assert(ended.frames =~= start.frames);
        takes_sum(p, before.code, ended.inline(), a, n);
        agrees_before(p, child.arms, ended.arms, from);
        agrees_before(p, before.cont.arms, child.arms, from);
        if code_takes(p, before.code, a, n) {
            branches_do(p, ts, (k - 1) as nat, fixed, start, from, again, a, b, n)
        } else {
            cont_whole(p, ended, a, b, n);
            end_takes(p, child, start.frames, from, a + b, n);
            let (u, rest) = code_does(
                p,
                ts[k - 1],
                0,
                fixed,
                before.cont,
                from,
                again,
                a + b,
                n,
            );
            let (x, y) = cont_parts(p, before.cont, rest, n);
            cont_whole(p, start, x, y, n);
            parallel_does(ts, k - 1, again, u);
            (u, rest)
        }
    }
}

/// Whether a function can take some input.
pub open spec fn fn_can(p: Program, callee: LabelSpec, w: Trace) -> bool {
    exists|m: nat| #[trigger] fn_takes(p, callee, w, m)
}

/// Whether a function can take the input of all traces.
pub open spec fn calls_can(p: Program, fixed: LabelSpec, again: spec_fn(Trace) -> bool) -> bool {
    forall|u: Trace| #[trigger] again(u) ==> fn_can(p, fixed, input_of(u))
}

/// The larger of two numbers.
spec fn larger(a: nat, b: nat) -> nat {
    if a < b {
        b
    } else {
        a
    }
}

proof fn fn_takes_more(p: Program, callee: LabelSpec, w: Trace, n: nat, m: nat)
    requires
        fn_takes(p, callee, w, n),
        n <= m,
    ensures
        fn_takes(p, callee, w, m),
{
    if callee.1.len() > 0 {
        code_takes_more(p, p(callee), w, (n - 1) as nat, (m - 1) as nat);
    }
}

/// The input of each trace of a step is taken by its code, and after it all that the continuation
/// took.
pub proof fn code_can(
    p: Program,
    t: ThunkSpec,
    d: nat,
    fixed: LabelSpec,
    c: ContSpec,
    from: nat,
    again: spec_fn(Trace) -> bool,
    u: Trace,
    v: Trace,
    n: nat,
) -> (m: nat)
    requires
        is_plain(t),
        level(t, d) is Some,
        apply(t, fixed, c) is Some,
        agrees(p, apply(t, fixed, c)->Some_0.arms, from),
        from <= c.arms.len(),
        calls_can(p, fixed, again),
        can_do(t, again, u),
        cont_takes(p, c, v, n),
    ensures
        cont_takes(p, apply(t, fixed, c)->Some_0, input_of(u) + v, m),
    decreases t, 0nat, 0nat,
{
    let after = apply(t, fixed, c)->Some_0;
    match t {
        ThunkSpec::Skip => {
            assert(v =~= input_of(u) + v);
            n
        },
        ThunkSpec::Emit(code) => {
            assert forall|i: int| 0 <= i < code.len() implies is_note(#[trigger] code[i]) by {
                assert(code[i] is AddChoice);
            }
            assert forall|i: int| 0 <= i < u.len() implies !takes_input(#[trigger] u[i]) by {
                assert(code[i] is AddChoice);
            }
            no_input(u);
            assert(v =~= input_of(u) + v);
            emit_takes(p, c, code, v, n);
            n
        },
        ThunkSpec::Check(condition) => {
            reveal_with_fuel(input_of, 2);
            assert(input_of(u) =~= u);
            check_taken(p, c, condition, u, v, n);
            n
        },
        ThunkSpec::Call(callee) => {
            reveal_with_fuel(input_of, 2);
            assert(input_of(u) =~= u);
            cont_takes_more(p, c, v, n, n + 1);
            call_taken(p, c, callee, from, u, v, n + 1);
            n + 2
        },
        ThunkSpec::CallFix => {
            assert(again(u));
            let k = choose|k: nat| #[trigger] fn_takes(p, fixed, input_of(u), k);
            let m = larger(k, n);
            fn_takes_more(p, fixed, input_of(u), k, m);
            cont_takes_more(p, c, v, n, m);
            call_taken(p, c, fixed, from, input_of(u), v, m);
            m + 1
        },
        ThunkSpec::Then(a, b) => {
            if is_concat(t) {
                concat_can(p, t, d, fixed, c, from, again, u, v, n)
            } else {
                let mid = apply(*b, fixed, c)->Some_0;
                arms_grow(*b, fixed, c);
                arms_grow(*a, fixed, mid);
                agrees_before(p, mid.arms, after.arms, from);
                let e = level(*b, d)->Some_0;
                let i = choose|i: int|
                    0 <= i <= u.len() && can_do(*a, again, #[trigger] u.take(i)) && can_do(
                        *b,
                        again,
                        u.skip(i),
                    );
                let m = code_can(p, *b, d, fixed, c, from, again, u.skip(i), v, n);
                let rest = input_of(u.skip(i)) + v;
                let k = code_can(p, *a, e, fixed, mid, from, again, u.take(i), rest, m);
                input_of_sum(u.take(i), u.skip(i));
                assert(u =~= u.take(i) + u.skip(i));
                assert(input_of(u.take(i)) + rest =~= input_of(u) + v);
                k
            }
        },
        ThunkSpec::Parallel(ts) => {
            let start = c.labelled();
            branches_apply(ts, ts.len(), fixed, start);
            assert(start.frames.take(start.frames.len() as int) =~= start.frames);
            branches_grow(ts, ts.len(), fixed, start);
            agrees_before(p, start.arms, after.arms, from);
            let (x, y) = cont_parts(p, c, v, n);
            label_takes(p, c, from, x, n);
            takes_one(p, InstrSpec::Spawn(start.code->Label_0), x, n + 1);
            rest_takes_more(p, c.frames, y, n, n + 1);
            cont_whole(p, start, x, y, n + 1);
            let i = choose|i: int| 0 <= i < ts.len() && can_do(#[trigger] ts[i], again, u);
            let (m, a, b) = branches_can(
                p,
                ts,
                ts.len(),
                fixed,
                start,
                from,
                again,
                i,
                u,
                v,
                n + 1,
            );
            cont_whole(p, after, a, b, m);
            m
        },
        ThunkSpec::Fix(body) => {
            let start = c.labelled();
            let inner = start.entered();
            let made = inner.fn_label;
            let begin = ContSpec {
                frames: Seq::empty(),
                ..inner.with_code(seq![InstrSpec::Ret])
            };
            level_applies(*body, 0, made, begin, Seq::empty(), made);
            let done = apply(*body, made, begin)->Some_0;
            let made_done = ContSpec { fn_label: made, ..done };
            arms_grow(*body, made, begin);
            let ret_label = start.code->Label_0;
            assert(after.arms == made_done.left(ret_label, c.fn_label).arms);
            assert(after.inline() == made_done.left(ret_label, c.fn_label).inline());
            let last = after.arms[after.arms.len() - 1];
            assert(last == (made, done.inline()));
            assert(p(last.0) == last.1);
            assert(done.arms.is_prefix_of(after.arms));
            agrees_before(p, done.arms, after.arms, from);
            assert(start.arms.is_prefix_of(done.arms));
            agrees_before(p, start.arms, done.arms, from);
            let k = choose|k: nat| #[trigger] is_depth(k) && can_repeat(*body, k, u);
            let j = repeat_can(p, *body, made, begin, from, k, u);
            let (x, y) = cont_parts(p, c, v, n);
            label_takes(p, c, from, x, n);
            let m = larger(j, n);
            code_takes_more(p, done.inline(), input_of(u), j, m);
            code_takes_more(p, p(ret_label), x, n, m);
            left_taken(p, made_done, ret_label, c.fn_label, from, input_of(u), x, m);
            rest_takes_more(p, c.frames, y, n, m + 1);
            cont_whole(p, after, input_of(u) + x, y, m + 1);
            assert((input_of(u) + x) + y =~= input_of(u) + v);
            m + 1
        },
        ThunkSpec::Ret | ThunkSpec::OpenFrame | ThunkSpec::CloseFrame => n,
    }
}

proof fn concat_can(
    p: Program,
    t: ThunkSpec,
    d: nat,
    fixed: LabelSpec,
    c: ContSpec,
    from: nat,
    again: spec_fn(Trace) -> bool,
    u: Trace,
    v: Trace,
    n: nat,
) -> (m: nat)
    requires
        is_plain(t),
        is_concat(t),
        level(t, d) is Some,
        apply(t, fixed, c) is Some,
        agrees(p, apply(t, fixed, c)->Some_0.arms, from),
        from <= c.arms.len(),
        calls_can(p, fixed, again),
        can_do(t, again, u),
        cont_takes(p, c, v, n),
    ensures
        cont_takes(p, apply(t, fixed, c)->Some_0, input_of(u) + v, m),
    decreases *t->Then_0, 1nat, 0nat,
{
    let left = left_of(t);
    let right = right_of(t);
    let save = save_of(t);
    let take = take_of(t);
    let note = note_of(t);
    concat_applies(t, d, fixed, c);
    let c1 = c.open_frame();
    let c2 = c1.emit(note);
    let c3 = c2.emit(take);
    let c4 = apply(right, fixed, c3)->Some_0;
    let c5 = c4.close_frame()->Some_0;
    let c6 = c5.emit(save);
    let c7 = apply(left, fixed, c6)->Some_0;
    arms_grow(left, fixed, c6);
    arms_grow(right, fixed, c3);
    assert(c.arms.is_prefix_of(c1.arms));
    assert(c4.arms.is_prefix_of(c5.arms));
    agrees_before(p, c6.arms, c7.arms, from);
    agrees_before(p, c4.arms, c5.arms, from);
    agrees_before(p, c3.arms, c4.arms, from);
    let e = level(right, d + 1)->Some_0;
    let (a, b) = concat_split(t, again, u);
    open_takes(p, c, from, v, n);
    emit_takes(p, c1, note, v, n + 1);
    emit_takes(p, c2, take, v, n + 1);
    let k = code_can(p, right, d + 1, fixed, c3, from, again, b, v, n + 1);
    let rest = input_of(b) + v;
    close_takes(p, c4, from, rest, k);
    emit_takes(p, c5, save, rest, k + 1);
    let m = code_can(p, left, (e - 1) as nat, fixed, c6, from, again, a, rest, k + 1);
    assert(input_of(a) + rest =~= input_of(u) + v);
    m
}

proof fn concat_split(t: ThunkSpec, again: spec_fn(Trace) -> bool, u: Trace) -> (r: (Trace, Trace))
    requires
        is_concat(t),
        can_do(t, again, u),
    ensures
        can_do(left_of(t), again, r.0),
        can_do(right_of(t), again, r.1),
        input_of(u) == input_of(r.0) + input_of(r.1),
{
    let n = u.len() - 2;
    let i = choose|i: int|
        0 <= i <= n && can_do(left_of(t), again, #[trigger] u.take(i)) && can_do(
            right_of(t),
            again,
            u.subrange(i, n),
        );
    let (a, b) = (u.take(i), u.subrange(i, n));
    let end = seq![EventSpec::Take(saved_kind(t)), EventSpec::Split(noted_kind(t))];
    assert(u =~= a + b + end);
    input_of_sum(a, b);
    input_of_sum(a + b, end);
    no_input(end);
    assert(input_of(a + b) + Seq::empty() =~= input_of(a + b));
    (a, b)
}

proof fn repeat_can(
    p: Program,
    body: ThunkSpec,
    made: LabelSpec,
    begin: ContSpec,
    from: nat,
    k: nat,
    u: Trace,
) -> (m: nat)
    requires
        is_plain(body),
        level(body, 0) == Some(0nat),
        apply(body, made, begin) matches Some(done) && done.frames.len() == 0 && agrees(
            p,
            done.arms,
            from,
        ) && p(made) == done.inline(),
        made.1.len() > 0,
        from <= begin.arms.len(),
        begin.frames.len() == 0,
        begin.inline() == seq![InstrSpec::Ret],
        can_repeat(body, k, u),
    ensures
        code_takes(p, p(made), input_of(u), m),
    decreases body, 1nat, k,
{
    let done = apply(body, made, begin)->Some_0;
    let again = once_more(body, k);
    let none: Trace = Seq::empty();
    takes_one(p, InstrSpec::Ret, none, 0);
    cont_whole(p, begin, none, none, 0);
    assert(none + none =~= none);
    assert forall|x: Trace| #[trigger] again(x) implies fn_can(p, made, input_of(x)) by {
        let j = repeat_can(p, body, made, begin, from, (k - 1) as nat, x);
        assert(fn_takes(p, made, input_of(x), j + 1));
    }
    let m = code_can(p, body, 0, made, begin, from, again, u, none, 0);
    let (a, b) = cont_parts(p, done, input_of(u) + none, m);
    assert(a =~= input_of(u));
    m
}

proof fn branches_can(
    p: Program,
    ts: Seq<ThunkSpec>,
    k: nat,
    fixed: LabelSpec,
    start: ContSpec,
    from: nat,
    again: spec_fn(Trace) -> bool,
    i: int,
    u: Trace,
    v: Trace,
    n: nat,
) -> (r: (nat, Trace, Trace))
    requires
        0 <= i < k <= ts.len(),
        forall|i: int| 0 <= i < ts.len() ==> is_plain(#[trigger] ts[i]),
        forall|i: int| 0 <= i < ts.len() ==> level(#[trigger] ts[i], 0) == Some(0nat),
        branches(ts, k, fixed, start) is Some,
        agrees(p, branches(ts, k, fixed, start)->Some_0.cont.arms, from),
        from <= start.arms.len(),
        calls_can(p, fixed, again),
        can_do(ts[i], again, u),
        cont_takes(p, start, v, n),
    ensures
        r.1 + r.2 == input_of(u) + v,
        code_takes(p, branches(ts, k, fixed, start)->Some_0.code, r.1, r.0),
        rest_takes(p, start.frames, r.2, r.0),
    decreases ts, 0nat, k,
{
    let before = branches(ts, (k - 1) as nat, fixed, start)->Some_0;
    branches_apply(ts, (k - 1) as nat, fixed, start);
    branches_apply(ts, k, fixed, start);
    branches_grow(ts, (k - 1) as nat, fixed, start);
    let child = apply(ts[k - 1], fixed, before.cont)->Some_0;
    let ended = end_branch(child, start.frames)->Some_0;
    arms_grow(ts[k - 1], fixed, before.cont);
    assert(child.arms.is_prefix_of(ended.arms));
    assert(ended.frames =~= start.frames);
    agrees_before(p, child.arms, ended.arms, from);
    agrees_before(p, before.cont.arms, child.arms, from);
    if i < k - 1 {
        let (m, a, b) = branches_can(
            p,
            ts,
            (k - 1) as nat,
            fixed,
            start,
            from,
            again,
            i,
            u,
            v,
            n,
        );
        takes_sum(p, before.code, ended.inline(), a, m);
        (m, a, b)
    } else {
        let (x, y) = cont_parts(p, start, v, n);
        cont_whole(p, before.cont, x, y, n);
        let m = code_can(p, ts[k - 1], 0, fixed, before.cont, from, again, u, v, n);
        end_takes(p, child, start.frames, from, input_of(u) + v, m);
        let (a, b) = cont_parts(p, ended, input_of(u) + v, m + 1);
        takes_sum(p, before.code, ended.inline(), a, m + 1);
        (m + 1, a, b)
    }
}

} // verus!
