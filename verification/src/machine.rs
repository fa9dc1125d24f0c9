//! What input generated code takes when it runs, and why that is what its rule stands for.
use crate::continuation::{CodeSpec, ContSpec, FrameSpec};
use crate::instr::{InstrSpec, InstrsSpec};
use crate::label::LabelSpec;
use crate::language::{is_match, EventSpec, Trace};
use crate::thunk::end_branch;
use crate::tokens::SrcSpec;
use vstd::prelude::*;

verus! {

/// The code at each label.
pub type Program = spec_fn(LabelSpec) -> InstrsSpec;

/// Whether an instruction can take some input until the function that it belongs to returns, where
/// the code goes to less than `n` labels, one after the other or inside of each other. A jump takes
/// what the code at its label takes. A call takes what the function takes, and after it what the
/// code at the label takes that is returned to; what a rule with a name takes is left open. Under a
/// condition that a pattern matches, input is taken that it matches. Where nodes are saved, taken
/// back or noted, no input is.
pub open spec fn takes(p: Program, instr: InstrSpec, w: Trace, n: nat) -> bool
    decreases n, instr,
{
    match instr {
        InstrSpec::Ret => w.len() == 0,
        InstrSpec::Spawn(label) => n > 0 && code_takes(p, p(label), w, (n - 1) as nat),
        InstrSpec::Call(callee, label) => n > 0 && exists|i: int|
            0 <= i <= w.len() && (if callee.1.len() == 0 {
                (#[trigger] w.take(i)) == seq![EventSpec::Rule(callee.0)]
            } else {
                code_takes(p, p(callee), w.take(i), (n - 1) as nat)
            }) && code_takes(p, p(label), w.skip(i), (n - 1) as nat),
        InstrSpec::If(condition, body) => w.len() > 0 && (w[0] matches EventSpec::Eat(matcher)
            && is_match(condition, matcher)) && code_takes(p, body, w.skip(1), n),
        InstrSpec::Save(_)
        | InstrSpec::TakeSaved
        | InstrSpec::AddChoice(..)
        | InstrSpec::AddSplit(_) => false,
    }
}

/// Whether some code can take some input: one of its instructions does.
pub open spec fn code_takes(p: Program, code: InstrsSpec, w: Trace, n: nat) -> bool
    decreases n, code,
{
    exists|i: int| 0 <= i < code.len() && takes(p, #[trigger] code[i], w, n)
}

/// Whether a function can take some input.
pub open spec fn fn_takes(p: Program, callee: LabelSpec, w: Trace, n: nat) -> bool {
    n > 0 && if callee.1.len() == 0 {
        w == seq![EventSpec::Rule(callee.0)]
    } else {
        code_takes(p, p(callee), w, (n - 1) as nat)
    }
}

/// What can be taken can be taken where more labels may be gone to.
pub proof fn takes_more(p: Program, instr: InstrSpec, w: Trace, n: nat, m: nat)
    requires
        takes(p, instr, w, n),
        n <= m,
    ensures
        takes(p, instr, w, m),
    decreases n, instr,
{
    match instr {
        InstrSpec::Spawn(label) => {
            code_takes_more(p, p(label), w, (n - 1) as nat, (m - 1) as nat);
        },
        InstrSpec::Call(callee, label) => {
            let i = choose|i: int|
                0 <= i <= w.len() && (if callee.1.len() == 0 {
                    (#[trigger] w.take(i)) == seq![EventSpec::Rule(callee.0)]
                } else {
                    code_takes(p, p(callee), w.take(i), (n - 1) as nat)
                }) && code_takes(p, p(label), w.skip(i), (n - 1) as nat);
            if callee.1.len() > 0 {
                code_takes_more(p, p(callee), w.take(i), (n - 1) as nat, (m - 1) as nat);
            }
            code_takes_more(p, p(label), w.skip(i), (n - 1) as nat, (m - 1) as nat);
            assert(w.take(i) == w.take(i));
        },
        InstrSpec::If(condition, body) => {
            code_takes_more(p, body, w.skip(1), n, m);
        },
        _ => {},
    }
}

pub proof fn code_takes_more(p: Program, code: InstrsSpec, w: Trace, n: nat, m: nat)
    requires
        code_takes(p, code, w, n),
        n <= m,
    ensures
        code_takes(p, code, w, m),
    decreases n, code,
{
    let i = choose|i: int| 0 <= i < code.len() && takes(p, #[trigger] code[i], w, n);
    takes_more(p, code[i], w, n, m);
}

/// Code takes what one or the other part of it takes.
pub proof fn takes_sum(p: Program, a: InstrsSpec, b: InstrsSpec, w: Trace, n: nat)
    ensures
        code_takes(p, a + b, w, n) <==> code_takes(p, a, w, n) || code_takes(p, b, w, n),
{
    let c = a + b;
    if code_takes(p, c, w, n) {
        let i = choose|i: int| 0 <= i < c.len() && takes(p, #[trigger] c[i], w, n);
        if i < a.len() {
            assert(a[i] == c[i]);
        } else {
            assert(b[i - a.len()] == c[i]);
        }
    }
    if code_takes(p, a, w, n) {
        let i = choose|i: int| 0 <= i < a.len() && takes(p, #[trigger] a[i], w, n);
        assert(c[i] == a[i]);
    }
    if code_takes(p, b, w, n) {
        let i = choose|i: int| 0 <= i < b.len() && takes(p, #[trigger] b[i], w, n);
        assert(c[i + a.len()] == b[i]);
    }
}

/// A single instruction takes what it does.
pub proof fn takes_one(p: Program, instr: InstrSpec, w: Trace, n: nat)
    ensures
        code_takes(p, seq![instr], w, n) <==> takes(p, instr, w, n),
{
    assert(seq![instr][0] == instr);
    if code_takes(p, seq![instr], w, n) {
        let i = choose|i: int|
            0 <= i < seq![instr].len() && takes(p, #[trigger] seq![instr][i], w, n);
        assert(i == 0);
    }
}

/// Whether a program has, at their labels, the pieces of code from the `from`th on.
pub open spec fn agrees(p: Program, arms: Seq<(LabelSpec, InstrsSpec)>, from: nat) -> bool {
    forall|i: int|
        from <= i < arms.len() ==> (#[trigger] arms[i]).0.1.len() > 0 && p(arms[i].0) == arms[i].1
}

/// Whether the functions around that of a continuation can take some input once it has returned.
pub open spec fn rest_takes(p: Program, frames: Seq<FrameSpec>, w: Trace, n: nat) -> bool
    decreases frames.len(),
{
    if frames.len() == 0 {
        w.len() == 0
    } else {
        match frames.last() {
            None => rest_takes(p, frames.drop_last(), w, n),
            Some((ret_label, _)) => n > 0 && exists|i: int|
                0 <= i <= w.len() && code_takes(
                    p,
                    p(ret_label),
                    #[trigger] w.take(i),
                    (n - 1) as nat,
                ) && rest_takes(p, frames.drop_last(), w.skip(i), n),
        }
    }
}

/// Whether the code of a continuation can take some input, until the outermost function returns.
pub open spec fn cont_takes(p: Program, c: ContSpec, w: Trace, n: nat) -> bool {
    exists|i: int|
        0 <= i <= w.len() && code_takes(p, c.inline(), #[trigger] w.take(i), n) && rest_takes(
            p,
            c.frames,
            w.skip(i),
            n,
        )
}

pub proof fn rest_takes_more(p: Program, frames: Seq<FrameSpec>, w: Trace, n: nat, m: nat)
    requires
        rest_takes(p, frames, w, n),
        n <= m,
    ensures
        rest_takes(p, frames, w, m),
    decreases frames.len(),
{
    if frames.len() > 0 {
        match frames.last() {
            None => {
                rest_takes_more(p, frames.drop_last(), w, n, m);
            },
            Some((ret_label, _)) => {
                let (a, b) = ret_parts(p, frames, w, n);
                code_takes_more(p, p(ret_label), a, (n - 1) as nat, (m - 1) as nat);
                rest_takes_more(p, frames.drop_last(), b, n, m);
                ret_whole(p, frames, a, b, m);
            },
        }
    }
}

/// What is taken once a function has returned, in two parts.
proof fn ret_parts(p: Program, frames: Seq<FrameSpec>, w: Trace, n: nat) -> (r: (Trace, Trace))
    requires
        rest_takes(p, frames, w, n),
        frames.len() > 0,
        frames.last() is Some,
    ensures
        n > 0,
        w == r.0 + r.1,
        code_takes(p, p(frames.last()->Some_0.0), r.0, (n - 1) as nat),
        rest_takes(p, frames.drop_last(), r.1, n),
{
    let ret_label = frames.last()->Some_0.0;
    let i = choose|i: int|
        0 <= i <= w.len() && code_takes(p, p(ret_label), #[trigger] w.take(i), (n - 1) as nat)
            && rest_takes(p, frames.drop_last(), w.skip(i), n);
    assert(w =~= w.take(i) + w.skip(i));
    (w.take(i), w.skip(i))
}

proof fn ret_whole(p: Program, frames: Seq<FrameSpec>, a: Trace, b: Trace, n: nat)
    requires
        n > 0,
        frames.len() > 0,
        frames.last() is Some,
        code_takes(p, p(frames.last()->Some_0.0), a, (n - 1) as nat),
        rest_takes(p, frames.drop_last(), b, n),
    ensures
        rest_takes(p, frames, a + b, n),
{
    let i = a.len() as int;
    assert((a + b).take(i) =~= a);
    assert((a + b).skip(i) =~= b);
}

/// What a continuation takes, in two parts.
pub proof fn cont_parts(p: Program, c: ContSpec, w: Trace, n: nat) -> (r: (Trace, Trace))
    requires
        cont_takes(p, c, w, n),
    ensures
        w == r.0 + r.1,
        code_takes(p, c.inline(), r.0, n),
        rest_takes(p, c.frames, r.1, n),
{
    let i = choose|i: int|
        0 <= i <= w.len() && code_takes(p, c.inline(), #[trigger] w.take(i), n) && rest_takes(
            p,
            c.frames,
            w.skip(i),
            n,
        );
    assert(w =~= w.take(i) + w.skip(i));
    (w.take(i), w.skip(i))
}

pub proof fn cont_whole(p: Program, c: ContSpec, a: Trace, b: Trace, n: nat)
    requires
        code_takes(p, c.inline(), a, n),
        rest_takes(p, c.frames, b, n),
    ensures
        cont_takes(p, c, a + b, n),
{
    let i = a.len() as int;
    assert((a + b).take(i) =~= a);
    assert((a + b).skip(i) =~= b);
}

pub proof fn cont_takes_more(p: Program, c: ContSpec, w: Trace, n: nat, m: nat)
    requires
        cont_takes(p, c, w, n),
        n <= m,
    ensures
        cont_takes(p, c, w, m),
{
    let (a, b) = cont_parts(p, c, w, n);
    code_takes_more(p, c.inline(), a, n, m);
    rest_takes_more(p, c.frames, b, n, m);
    cont_whole(p, c, a, b, m);
}

/// The code at the label of a continuation takes what the continuation did before it had one.
pub proof fn label_takes(p: Program, c: ContSpec, from: nat, w: Trace, n: nat)
    requires
        agrees(p, c.labelled().arms, from),
        from <= c.arms.len(),
    ensures
        c.labelled().code is Label,
        c.code is Inline ==> p(c.labelled().code->Label_0) == c.inline(),
        code_takes(p, p(c.labelled().code->Label_0), w, n) ==> code_takes(p, c.inline(), w, n + 1),
        c.code is Inline && code_takes(p, p(c.labelled().code->Label_0), w, n) ==> code_takes(
            p,
            c.inline(),
            w,
            n,
        ),
        code_takes(p, c.inline(), w, n) ==> code_takes(p, p(c.labelled().code->Label_0), w, n),
{
    let after = c.labelled();
    match c.code {
        CodeSpec::Inline(code) => {
            let last = after.arms[after.arms.len() - 1];
            assert(last == (c.next_label(), c.inline()));
            assert(p(last.0) == last.1);
            if code_takes(p, c.inline(), w, n) {
                code_takes_more(p, c.inline(), w, n, n + 1);
            }
        },
        CodeSpec::Label(label) => {
            takes_one(p, InstrSpec::Spawn(label), w, n + 1);
            takes_one(p, InstrSpec::Spawn(label), w, n);
            if n > 0 && code_takes(p, p(label), w, (n - 1) as nat) {
                code_takes_more(p, p(label), w, (n - 1) as nat, n);
            }
        },
    }
}

/// A call takes what the function takes, and after it what the continuation did.
pub proof fn call_takes(
    p: Program,
    c: ContSpec,
    callee: LabelSpec,
    from: nat,
    w: Trace,
    n: nat,
) -> (r: (Trace, Trace))
    requires
        agrees(p, c.call(callee).arms, from),
        from <= c.arms.len(),
        cont_takes(p, c.call(callee), w, n),
    ensures
        w == r.0 + r.1,
        fn_takes(p, callee, r.0, n),
        cont_takes(p, c, r.1, n),
{
    let after = c.call(callee);
    let label = c.labelled().code->Label_0;
    let (a, b) = cont_parts(p, after, w, n);
    takes_one(p, InstrSpec::Call(callee, label), a, n);
    let i = choose|i: int|
        0 <= i <= a.len() && (if callee.1.len() == 0 {
            (#[trigger] a.take(i)) == seq![EventSpec::Rule(callee.0)]
        } else {
            code_takes(p, p(callee), a.take(i), (n - 1) as nat)
        }) && code_takes(p, p(label), a.skip(i), (n - 1) as nat);
    label_takes(p, c, from, a.skip(i), (n - 1) as nat);
    cont_whole(p, c, a.skip(i), b, n);
    assert(w =~= a.take(i) + (a.skip(i) + b));
    (a.take(i), a.skip(i) + b)
}

pub proof fn call_taken(
    p: Program,
    c: ContSpec,
    callee: LabelSpec,
    from: nat,
    a: Trace,
    b: Trace,
    n: nat,
)
    requires
        agrees(p, c.call(callee).arms, from),
        from <= c.arms.len(),
        fn_takes(p, callee, a, n),
        cont_takes(p, c, b, n),
    ensures
        cont_takes(p, c.call(callee), a + b, n + 1),
{
    let after = c.call(callee);
    let label = c.labelled().code->Label_0;
    let (x, y) = cont_parts(p, c, b, n);
    label_takes(p, c, from, x, n);
    let front = a + x;
    let i = a.len() as int;
    assert(front.take(i) =~= a);
    assert(front.skip(i) =~= x);
    if callee.1.len() > 0 {
        code_takes_more(p, p(callee), a, (n - 1) as nat, n);
    }
    assert(takes(p, InstrSpec::Call(callee, label), front, n + 1));
    takes_one(p, InstrSpec::Call(callee, label), front, n + 1);
    rest_takes_more(p, c.frames, y, n, n + 1);
    cont_whole(p, after, front, y, n + 1);
    assert(front + y =~= a + b);
}

/// A condition takes what its pattern matches, and after it what the continuation did.
pub proof fn check_takes(
    p: Program,
    c: ContSpec,
    condition: SrcSpec,
    w: Trace,
    n: nat,
) -> (r: (Trace, Trace))
    requires
        cont_takes(p, c.check(condition), w, n),
    ensures
        w == r.0 + r.1,
        r.0.len() == 1,
        r.0[0] matches EventSpec::Eat(matcher) && is_match(condition, matcher),
        cont_takes(p, c, r.1, n),
{
    let (a, b) = cont_parts(p, c.check(condition), w, n);
    takes_one(p, InstrSpec::If(condition, c.inline()), a, n);
    cont_whole(p, c, a.skip(1), b, n);
    assert(w =~= a.take(1) + (a.skip(1) + b));
    (a.take(1), a.skip(1) + b)
}

pub proof fn check_taken(p: Program, c: ContSpec, condition: SrcSpec, a: Trace, b: Trace, n: nat)
    requires
        a.len() == 1,
        a[0] matches EventSpec::Eat(matcher) && is_match(condition, matcher),
        cont_takes(p, c, b, n),
    ensures
        cont_takes(p, c.check(condition), a + b, n),
{
    let (x, y) = cont_parts(p, c, b, n);
    let front = a + x;
    assert(front.skip(1) =~= x);
    takes_one(p, InstrSpec::If(condition, c.inline()), front, n);
    cont_whole(p, c.check(condition), front, y, n);
    assert(front + y =~= a + b);
}

/// Whether an instruction neither takes input nor goes anywhere.
pub open spec fn is_note(instr: InstrSpec) -> bool {
    instr is Save || instr is TakeSaved || instr is AddChoice || instr is AddSplit
}

/// Notes take no input.
pub proof fn emit_takes(p: Program, c: ContSpec, code: InstrsSpec, w: Trace, n: nat)
    requires
        forall|i: int| 0 <= i < code.len() ==> is_note(#[trigger] code[i]),
    ensures
        cont_takes(p, c.emit(code), w, n) <==> cont_takes(p, c, w, n),
{
    assert forall|x: Trace| !#[trigger] code_takes(p, code, x, n) by {
        if code_takes(p, code, x, n) {
            let i = choose|i: int| 0 <= i < code.len() && takes(p, #[trigger] code[i], x, n);
            assert(is_note(code[i]));
        }
    }
    if cont_takes(p, c.emit(code), w, n) {
        let (a, b) = cont_parts(p, c.emit(code), w, n);
        takes_sum(p, code, c.inline(), a, n);
        cont_whole(p, c, a, b, n);
    }
    if cont_takes(p, c, w, n) {
        let (a, b) = cont_parts(p, c, w, n);
        takes_sum(p, code, c.inline(), a, n);
        cont_whole(p, c.emit(code), a, b, n);
    }
}

/// Starting a frame takes no input.
pub proof fn open_takes(p: Program, c: ContSpec, from: nat, w: Trace, n: nat)
    requires
        agrees(p, c.open_frame().arms, from),
        from <= c.arms.len(),
    ensures
        cont_takes(p, c.open_frame(), w, n) ==> cont_takes(p, c, w, n),
        cont_takes(p, c, w, n) ==> cont_takes(p, c.open_frame(), w, n + 1),
{
    let after = c.open_frame();
    assert(after.frames.drop_last().len() == c.frames.len());
    if c.frames.len() > 0 && c.frames.last() is None {
        let label = c.labelled().code->Label_0;
        let inner = after.frames.drop_last();
        assert(after.frames.last() is None);
        assert(inner.last() == Some((label, c.labelled().fn_label)));
        assert(inner.drop_last() =~= c.frames.drop_last());
        assert(after.inline() == seq![InstrSpec::Ret]);
        if cont_takes(p, after, w, n) {
            let (a, b) = cont_parts(p, after, w, n);
            takes_one(p, InstrSpec::Ret, a, n);
            assert(w =~= b);
            let (x, y) = ret_parts(p, inner, b, n);
            label_takes(p, c, from, x, (n - 1) as nat);
            cont_whole(p, c, x, y, n);
        }
        if cont_takes(p, c, w, n) {
            let (x, y) = cont_parts(p, c, w, n);
            label_takes(p, c, from, x, n);
            rest_takes_more(p, c.frames, y, n, n + 1);
            ret_whole(p, inner, x, y, n + 1);
            let none: Trace = Seq::empty();
            takes_one(p, InstrSpec::Ret, none, n + 1);
            cont_whole(p, after, none, x + y, n + 1);
            assert(none + (x + y) =~= w);
        }
    } else {
        assert(after.frames.drop_last() =~= c.frames);
        if cont_takes(p, after, w, n) {
            let (a, b) = cont_parts(p, after, w, n);
            cont_whole(p, c, a, b, n);
        }
        if cont_takes(p, c, w, n) {
            let (a, b) = cont_parts(p, c, w, n);
            cont_whole(p, after, a, b, n);
            cont_takes_more(p, after, w, n, n + 1);
        }
    }
}

/// Leaving a function takes no input: it is called, and returns to where it was to return.
pub proof fn left_takes(
    p: Program,
    c: ContSpec,
    ret_label: LabelSpec,
    outer: LabelSpec,
    from: nat,
    w: Trace,
    n: nat,
) -> (r: (Trace, Trace))
    requires
        agrees(p, c.left(ret_label, outer).arms, from),
        from <= c.arms.len(),
        code_takes(p, c.left(ret_label, outer).inline(), w, n),
    ensures
        n > 0,
        w == r.0 + r.1,
        code_takes(p, c.inline(), r.0, (n - 1) as nat),
        code_takes(p, p(ret_label), r.1, (n - 1) as nat),
{
    let after = c.left(ret_label, outer);
    let inner = c.fn_label;
    let last = after.arms[after.arms.len() - 1];
    assert(last == (inner, c.inline()));
    assert(p(last.0) == last.1 && inner.1.len() > 0);
    takes_one(p, InstrSpec::Call(inner, ret_label), w, n);
    let i = choose|i: int|
        0 <= i <= w.len() && (if inner.1.len() == 0 {
            (#[trigger] w.take(i)) == seq![EventSpec::Rule(inner.0)]
        } else {
            code_takes(p, p(inner), w.take(i), (n - 1) as nat)
        }) && code_takes(p, p(ret_label), w.skip(i), (n - 1) as nat);
    assert(w =~= w.take(i) + w.skip(i));
    (w.take(i), w.skip(i))
}

pub proof fn left_taken(
    p: Program,
    c: ContSpec,
    ret_label: LabelSpec,
    outer: LabelSpec,
    from: nat,
    a: Trace,
    b: Trace,
    n: nat,
)
    requires
        agrees(p, c.left(ret_label, outer).arms, from),
        from <= c.arms.len(),
        code_takes(p, c.inline(), a, n),
        code_takes(p, p(ret_label), b, n),
    ensures
        code_takes(p, c.left(ret_label, outer).inline(), a + b, n + 1),
{
    let after = c.left(ret_label, outer);
    let inner = c.fn_label;
    let last = after.arms[after.arms.len() - 1];
    assert(last == (inner, c.inline()));
    assert(p(last.0) == last.1 && inner.1.len() > 0);
    let w = a + b;
    let i = a.len() as int;
    assert(w.take(i) =~= a);
    assert(w.skip(i) =~= b);
    assert(takes(p, InstrSpec::Call(inner, ret_label), w, n + 1));
    takes_one(p, InstrSpec::Call(inner, ret_label), w, n + 1);
}

/// Ending a frame takes no input.
pub proof fn close_takes(p: Program, c: ContSpec, from: nat, w: Trace, n: nat)
    requires
        c.frames.len() > 0,
        agrees(p, c.close_frame()->Some_0.arms, from),
        from <= c.arms.len(),
    ensures
        cont_takes(p, c.close_frame()->Some_0, w, n) ==> cont_takes(p, c, w, n),
        cont_takes(p, c, w, n) ==> cont_takes(p, c.close_frame()->Some_0, w, n + 1),
{
    let after = c.close_frame()->Some_0;
    match c.frames.last() {
        Some((ret_label, outer)) => {
            let d = ContSpec { frames: c.frames.drop_last(), ..c };
            assert(d.inline() == c.inline());
            if cont_takes(p, after, w, n) {
                let (a, b) = cont_parts(p, after, w, n);
                let (x, y) = left_takes(p, d, ret_label, outer, from, a, n);
                code_takes_more(p, c.inline(), x, (n - 1) as nat, n);
                ret_whole(p, c.frames, y, b, n);
                cont_whole(p, c, x, y + b, n);
                assert(x + (y + b) =~= w);
            }
            if cont_takes(p, c, w, n) {
                let (x, r) = cont_parts(p, c, w, n);
                let (y, b) = ret_parts(p, c.frames, r, n);
                code_takes_more(p, p(ret_label), y, (n - 1) as nat, n);
                left_taken(p, d, ret_label, outer, from, x, y, n);
                rest_takes_more(p, after.frames, b, n, n + 1);
                cont_whole(p, after, x + y, b, n + 1);
                assert((x + y) + b =~= w);
            }
        },
        None => {
            if cont_takes(p, after, w, n) {
                let (a, b) = cont_parts(p, after, w, n);
                cont_whole(p, c, a, b, n);
            }
            if cont_takes(p, c, w, n) {
                let (a, b) = cont_parts(p, c, w, n);
                cont_whole(p, after, a, b, n);
                cont_takes_more(p, after, w, n, n + 1);
            }
        },
    }
}

/// Ending a branch takes no input.
pub proof fn end_takes(
    p: Program,
    child: ContSpec,
    frames: Seq<FrameSpec>,
    from: nat,
    w: Trace,
    n: nat,
)
    requires
        end_branch(child, frames) is Some,
        agrees(p, end_branch(child, frames)->Some_0.arms, from),
        from <= child.arms.len(),
    ensures
        cont_takes(p, end_branch(child, frames)->Some_0, w, n) ==> cont_takes(p, child, w, n),
        cont_takes(p, child, w, n) ==> cont_takes(p, end_branch(child, frames)->Some_0, w, n + 1),
{
    let ended = end_branch(child, frames)->Some_0;
    let m = child.frames.len() as int;
    if m > 0 && child.frames[m - 1] is Some && frames[m - 1] is None {
        let (ret_label, outer) = child.frames[m - 1]->Some_0;
        let closed = child.close_frame()->Some_0;
        let d = ContSpec { frames: child.frames.drop_last(), ..child };
        assert(child.frames.last() == child.frames[m - 1]);
        assert(ended.frames.last() is None);
        assert(ended.frames.drop_last() =~= child.frames.drop_last());
        assert(ended.inline() == closed.inline());
        assert(ended.arms == closed.arms);
        assert(closed.frames == child.frames.drop_last());
        close_takes(p, child, from, w, n);
        if cont_takes(p, ended, w, n) {
            let (a, b) = cont_parts(p, ended, w, n);
            cont_whole(p, closed, a, b, n);
        }
        if cont_takes(p, child, w, n) {
            let (a, b) = cont_parts(p, closed, w, n + 1);
            cont_whole(p, ended, a, b, n + 1);
        }
    } else {
        if cont_takes(p, child, w, n) {
            cont_takes_more(p, ended, w, n, n + 1);
        }
    }
}

} // verus!
