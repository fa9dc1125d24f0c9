//! Why the steps that parse rules can always be taken: each frame that they start they end.
use crate::continuation::{ContSpec, FrameSpec};
use crate::instr::InstrSpec;
use crate::label::LabelSpec;
use crate::parse::{both_step, parse_step, sep_step};
use crate::rule::{concat, more, more_sep, RuleSpec, SepKind};
use crate::thunk::{apply, branches, end_branch, join, opt_step, ThunkSpec};
use vstd::prelude::*;

verus! {

/// How many frames are open after a step, where `d` were before it. A step that ends more frames
/// than are open has no such number, nor has one that returns.
pub open spec fn level(t: ThunkSpec, d: nat) -> Option<nat>
    decreases t,
{
    match t {
        ThunkSpec::Skip
        | ThunkSpec::Emit(_)
        | ThunkSpec::Check(_)
        | ThunkSpec::Call(_)
        | ThunkSpec::CallFix => Some(d),
        ThunkSpec::Ret => None,
        ThunkSpec::OpenFrame => Some(d + 1),
        ThunkSpec::CloseFrame => if d > 0 {
            Some((d - 1) as nat)
        } else {
            None
        },
        ThunkSpec::Then(a, b) => match level(*b, d) {
            None => None,
            Some(e) => level(*a, e),
        },
        ThunkSpec::Parallel(ts) => if forall|i: int|
            0 <= i < ts.len() ==> level(#[trigger] ts[i], 0) == Some(0nat) {
            Some(d)
        } else {
            None
        },
        ThunkSpec::Fix(body) => if level(*body, 0) == Some(0nat) {
            Some(d)
        } else {
            None
        },
    }
}

/// The function around the frames after the first `k`.
pub open spec fn under(frames: Seq<FrameSpec>, fn_label: LabelSpec, k: nat) -> LabelSpec
    decreases frames.len(),
{
    if frames.len() <= k {
        fn_label
    } else {
        match frames.last() {
            None => under(frames.drop_last(), fn_label, k),
            Some((_, outer)) => under(frames.drop_last(), outer, k),
        }
    }
}

/// Whether a continuation has the frames `base` and `d` more, and has gone into functions only in
/// these, or in the last of `base` that had no function before.
pub open spec fn within(c: ContSpec, base: Seq<FrameSpec>, fn_label: LabelSpec, d: nat) -> bool {
    let m = base.len() as int;
    &&& c.frames.len() == m + d
    &&& forall|i: int| 0 <= i < m - 1 ==> #[trigger] c.frames[i] == base[i]
    &&& if m > 0 && c.frames[m - 1] != base[m - 1] {
        &&& base[m - 1] is None
        &&& c.frames[m - 1] is Some
        &&& c.frames[m - 1]->Some_0.1 == fn_label
    } else {
        under(c.frames, c.fn_label, m as nat) == fn_label
    }
}

/// A continuation is within its own frames.
pub proof fn within_self(c: ContSpec)
    ensures
        within(c, c.frames, c.fn_label, 0),
{
}

/// A step whose frames are in order can be taken, and opens and closes them as it should.
#[verifier::rlimit(30)]
pub proof fn level_applies(
    t: ThunkSpec,
    d: nat,
    fixed: LabelSpec,
    c: ContSpec,
    base: Seq<FrameSpec>,
    fn_label: LabelSpec,
)
    requires
        level(t, d) is Some,
        within(c, base, fn_label, d),
    ensures
        apply(t, fixed, c) is Some,
        within(apply(t, fixed, c)->Some_0, base, fn_label, level(t, d)->Some_0),
    decreases t, 0nat,
{
    let m = base.len();
    match t {
        ThunkSpec::Skip
        | ThunkSpec::Emit(_)
        | ThunkSpec::Check(_)
        | ThunkSpec::Call(_)
        | ThunkSpec::CallFix
        | ThunkSpec::Ret => {},
        ThunkSpec::OpenFrame => {
            let after = c.open_frame();
            let n = c.frames.len();
            assert(after.frames.drop_last().len() == n);
            if n > 0 && c.frames.last() is None {
                assert(after.frames.drop_last().drop_last() =~= c.frames.drop_last());
                reveal_with_fuel(under, 3);
            } else {
                assert(after.frames.drop_last() =~= c.frames);
            }
        },
        ThunkSpec::CloseFrame => {},
        ThunkSpec::Then(a, b) => {
            level_applies(*b, d, fixed, c, base, fn_label);
            let after = apply(*b, fixed, c)->Some_0;
            level_applies(*a, level(*b, d)->Some_0, fixed, after, base, fn_label);
        },
        ThunkSpec::Parallel(ts) => {
            let start = c.labelled();
            branches_apply(ts, ts.len(), fixed, start);
            let all = branches(ts, ts.len(), fixed, start)->Some_0;
            assert(start.frames.take(start.frames.len() as int) =~= start.frames);
            assert(join(all)->Some_0.frames == c.frames);
        },
        ThunkSpec::Fix(body) => {
            let inner = c.labelled().entered();
            let begin = ContSpec {
                frames: Seq::empty(),
                ..inner.with_code(seq![InstrSpec::Ret])
            };
            level_applies(*body, 0, inner.fn_label, begin, Seq::empty(), inner.fn_label);
        },
    }
}

/// Branches whose frames are in order can be taken, and each leaves the frames and the function
/// that it found.
pub proof fn branches_apply(ts: Seq<ThunkSpec>, n: nat, fixed: LabelSpec, start: ContSpec)
    requires
        n <= ts.len(),
        forall|i: int| 0 <= i < ts.len() ==> level(#[trigger] ts[i], 0) == Some(0nat),
    ensures
        branches(ts, n, fixed, start) matches Some(b) && {
            &&& b.cont.frames == start.frames
            &&& b.cont.fn_label == start.fn_label
            &&& b.depth == (if n == 0 {
                None
            } else {
                Some(start.frames.len())
            })
        },
    decreases ts, n,
{
    if n > 0 {
        branches_apply(ts, (n - 1) as nat, fixed, start);
        let before = branches(ts, (n - 1) as nat, fixed, start)->Some_0;
        assert(level(ts[n - 1], 0) == Some(0nat));
        within_self(before.cont);
        level_applies(
            ts[n - 1],
            0,
            fixed,
            before.cont,
            before.cont.frames,
            before.cont.fn_label,
        );
        let child = apply(ts[n - 1], fixed, before.cont)->Some_0;
        end_of_branch(child, start.frames, start.fn_label);
    }
}

/// A branch with its frames in order ends with the frames and the function that it found.
proof fn end_of_branch(child: ContSpec, frames: Seq<FrameSpec>, fn_label: LabelSpec)
    requires
        within(child, frames, fn_label, 0),
    ensures
        end_branch(child, frames) matches Some(ended) && ended.frames == frames && ended.fn_label
            == fn_label,
{
    let n = frames.len() as int;
    assert(frames.take(n) =~= frames);
    if n > 0 && child.frames[n - 1] != frames[n - 1] {
        assert(child.frames.update(n - 1, None) =~= frames);
    } else {
        assert(child.frames =~= frames);
    }
}

/// Taking a step or none ends each frame that it starts, where the step does.
proof fn opt_level(t: ThunkSpec, d: nat)
    requires
        level(t, 0) == Some(0nat),
    ensures
        level(opt_step(t), d) == Some(d),
{
    let ts = opt_step(t)->Parallel_0;
    assert forall|i: int| 0 <= i < ts.len() implies level(#[trigger] ts[i], 0) == Some(0nat) by {
        if i == 0 {
            assert(ts[0] == t);
        } else {
            assert(ts[1] == ThunkSpec::Emit(Seq::empty()));
        }
    }
}

/// Parsing one rule and another ends each frame that it starts, where the two do.
proof fn both_level(
    left: RuleSpec,
    left_step: ThunkSpec,
    right_step: ThunkSpec,
    whole: RuleSpec,
    table: Option<Seq<RuleSpec>>,
    d: nat,
)
    requires
        level(left_step, d) == Some(d),
        level(right_step, d) == Some(d),
        level(right_step, d + 1) == Some(d + 1),
    ensures
        level(both_step(left, left_step, right_step, whole, table), d) == Some(d),
{
    reveal_with_fuel(level, 5);
}

/// Parsing a repetition with a separator ends each frame that it starts, where the two rules do.
proof fn sep_level(
    elem: RuleSpec,
    elem_step: ThunkSpec,
    sep: RuleSpec,
    step: ThunkSpec,
    kind: SepKind,
    table: Option<Seq<RuleSpec>>,
    d: nat,
)
    requires
        level(elem_step, 0) == Some(0nat),
        level(step, 0) == Some(0nat),
    ensures
        level(sep_step(elem, elem_step, sep, step, kind, table), d) == Some(d),
{
    let whole = more_sep(elem, sep, SepKind::Simple);
    let rest = both_step(sep, step, ThunkSpec::CallFix, concat(sep, whole), table);
    both_level(sep, step, ThunkSpec::CallFix, concat(sep, whole), table, 0);
    opt_level(rest, 0);
    opt_level(rest, 1);
    both_level(elem, elem_step, opt_step(rest), whole, table, 0);
    opt_level(step, d);
    let body = both_step(elem, elem_step, opt_step(rest), whole, table);
    assert(level(ThunkSpec::Fix(Box::new(body)), d) == Some(d));
}

/// The steps that parse a rule end each frame that they start.
pub proof fn parse_level(rule: RuleSpec, table: Option<Seq<RuleSpec>>, d: nat)
    ensures
        level(parse_step(rule, table), d) == Some(d),
    decreases rule,
{
    match rule {
        RuleSpec::Empty | RuleSpec::Eat(_) | RuleSpec::Call(_) => {},
        RuleSpec::Concat(left, right) => {
            parse_level(*left, table, d);
            parse_level(*right, table, d);
            parse_level(*right, table, d + 1);
            both_level(
                *left,
                parse_step(*left, table),
                parse_step(*right, table),
                rule,
                table,
                d,
            );
        },
        RuleSpec::Or(cases) => {
            let ts = parse_step(rule, table)->Parallel_0;
            assert forall|i: int| 0 <= i < ts.len() implies level(#[trigger] ts[i], 0) == Some(
                0nat,
            ) by {
                parse_level(cases[i], table, 0);
                reveal_with_fuel(level, 2);
            }
        },
        RuleSpec::Opt(inner) => {
            parse_level(*inner, table, 0);
            opt_level(parse_step(*inner, table), d);
        },
        RuleSpec::RepeatMany(elem, None) => {
            let step = parse_step(*elem, table);
            parse_level(*elem, table, 0);
            both_level(*elem, step, ThunkSpec::CallFix, more(*elem), table, 0);
            opt_level(both_step(*elem, step, ThunkSpec::CallFix, more(*elem), table), 0);
        },
        RuleSpec::RepeatMore(elem, None) => {
            parse_level(*elem, table, 0);
            opt_level(ThunkSpec::CallFix, 0);
            opt_level(ThunkSpec::CallFix, 1);
            both_level(
                *elem,
                parse_step(*elem, table),
                opt_step(ThunkSpec::CallFix),
                rule,
                table,
                0,
            );
        },
        RuleSpec::RepeatMany(elem, Some((sep, kind))) => {
            let elem_step = parse_step(*elem, table);
            let step = parse_step(*sep, table);
            parse_level(*elem, table, 0);
            parse_level(*sep, table, 0);
            sep_level(*elem, elem_step, *sep, step, kind, table, 0);
            opt_level(sep_step(*elem, elem_step, *sep, step, kind, table), d);
        },
        RuleSpec::RepeatMore(elem, Some((sep, kind))) => {
            parse_level(*elem, table, 0);
            parse_level(*sep, table, 0);
            sep_level(
                *elem,
                parse_step(*elem, table),
                *sep,
                parse_step(*sep, table),
                kind,
                table,
                d,
            );
        },
    }
}

} // verus!
