//! Why every label has its code: each label that a step hands out gets code once.
use crate::balance::{branches_apply, level, level_applies, within, within_self};
use crate::continuation::{
    inside, inside_put, is_issued, issued_is_new, knows_more, parent_of, CodeSpec, ContSpec,
    FrameSpec,
};
use crate::instr::{InstrSpec, InstrsSpec};
use crate::label::{nested, LabelSpec};
use crate::maps::{distinct_keys, has_key, put_distinct};
use crate::thunk::{apply, branches, ThunkSpec};

use vstd::prelude::*;

verus! {

/// Whether a label is one of some rules, or has been handed out.
pub open spec fn is_known(
    roots: Set<LabelSpec>,
    labels: Seq<(LabelSpec, Seq<LabelSpec>)>,
    label: LabelSpec,
) -> bool {
    if label.1.len() == 0 {
        roots.contains(label)
    } else {
        is_issued(labels, label)
    }
}

/// Whether the labels inside of each function are numbered from zero on, and all functions are
/// known.
pub open spec fn labels_wf(
    roots: Set<LabelSpec>,
    labels: Seq<(LabelSpec, Seq<LabelSpec>)>,
) -> bool {
    &&& distinct_keys(labels)
    &&& forall|p: LabelSpec| #[trigger] has_key(labels, p) ==> is_known(roots, labels, p)
    &&& forall|p: LabelSpec, i: int|
        0 <= i < inside(labels, p).len() ==> #[trigger] inside(labels, p)[i] == nested(p, i as nat)
}

/// Whether a frame is of known functions, and returns to a label that has been handed out.
pub open spec fn frame_wf(
    roots: Set<LabelSpec>,
    labels: Seq<(LabelSpec, Seq<LabelSpec>)>,
    frame: FrameSpec,
) -> bool {
    match frame {
        Some((ret_label, outer)) => is_issued(labels, ret_label) && is_known(roots, labels, outer),
        None => true,
    }
}

/// Whether the functions that a continuation speaks of are known, and the labels that it goes on
/// at have been handed out.
pub open spec fn cont_wf(roots: Set<LabelSpec>, c: ContSpec) -> bool {
    &&& labels_wf(roots, c.labels)
    &&& is_known(roots, c.labels, c.fn_label)
    &&& c.code matches CodeSpec::Label(label) ==> is_issued(c.labels, label)
    &&& forall|i: int| 0 <= i < c.frames.len() ==> frame_wf(roots, c.labels, #[trigger] c.frames[i])
}

/// How many pieces of code a label has.
pub open spec fn pieces(arms: Seq<(LabelSpec, InstrsSpec)>, label: LabelSpec) -> nat
    decreases arms.len(),
{
    if arms.len() == 0 {
        0
    } else {
        pieces(arms.drop_last(), label) + if arms.last().0 == label {
            1nat
        } else {
            0nat
        }
    }
}

/// How many functions with a label have been started in the frames, and not ended.
pub open spec fn unfinished(frames: Seq<FrameSpec>, fn_label: LabelSpec, label: LabelSpec) -> nat
    decreases frames.len(),
{
    if frames.len() == 0 {
        0
    } else {
        match frames.last() {
            None => unfinished(frames.drop_last(), fn_label, label),
            Some((_, outer)) => unfinished(frames.drop_last(), outer, label) + if fn_label
                == label {
                1nat
            } else {
                0nat
            },
        }
    }
}

/// Whether a label that has been handed out has one piece of code or is to get it, or the label
/// has not been handed out and neither has any nor is to. `extra` counts what is to come outside of
/// the continuation.
pub open spec fn accounts_for(
    c: ContSpec,
    extra: spec_fn(LabelSpec) -> int,
    label: LabelSpec,
) -> bool {
    pieces(c.arms, label) + unfinished(c.frames, c.fn_label, label) + extra(label) == (
    if is_issued(c.labels, label) {
        1int
    } else {
        0
    })
}

/// Whether all labels are accounted for.
pub open spec fn accounted(c: ContSpec, extra: spec_fn(LabelSpec) -> int) -> bool {
    forall|label: LabelSpec| #[trigger] accounts_for(c, extra, label)
}

/// Handing out a label makes that label, which is new, and no other.
pub proof fn issue_one(roots: Set<LabelSpec>, c: ContSpec)
    requires
        cont_wf(roots, c),
    ensures
        labels_wf(roots, c.issued().labels),
        forall|label: LabelSpec| #[trigger]
            is_issued(c.issued().labels, label) == (is_issued(c.labels, label) || label
                == c.next_label()),
        !is_issued(c.labels, c.next_label()),
        !has_key(c.issued().labels, c.next_label()),
{
    let before = c.labels;
    let f = c.fn_label;
    let v = inside(before, f).push(c.next_label());
    let after = c.issued().labels;
    let new = c.next_label();
    issued_is_new(c);
    assert forall|p: LabelSpec| #[trigger] has_key(after, p) implies is_known(roots, after, p) by {
        inside_put(before, f, v, p);
        assert(is_issued(after, p) == (is_issued(before, p) || p == new));
        assert(is_issued(after, f) == (is_issued(before, f) || f == new));
    }
    assert forall|p: LabelSpec, i: int| 0 <= i < inside(after, p).len() implies #[trigger] inside(
        after,
        p,
    )[i] == nested(p, i as nat) by {
        inside_put(before, f, v, p);
        if p == f && i < inside(before, f).len() {
            assert(v[i] == inside(before, f)[i]);
        } else if p != f {
            assert(inside(before, p)[i] == nested(p, i as nat));
        }
    }
    inside_put(before, f, v, new);
    if has_key(before, new) {
        assert(is_known(roots, before, new));
    }
    assert(new != f) by {
        assert(new.1.len() == f.1.len() + 1);
    }
}

/// Starting a function hands out its label and nothing else.
pub proof fn enter_one(roots: Set<LabelSpec>, c: ContSpec)
    requires
        cont_wf(roots, c),
    ensures
        labels_wf(roots, c.entered().labels),
        forall|label: LabelSpec| #[trigger]
            is_issued(c.entered().labels, label) == (is_issued(c.labels, label) || label
                == c.next_label()),
        !is_issued(c.labels, c.next_label()),
{
    issue_one(roots, c);
    let new = c.next_label();
    let before = c.issued().labels;
    let after = c.entered().labels;
    assert forall|p: LabelSpec| #[trigger] inside(after, p) == inside(before, p) by {
        inside_put(before, new, Seq::empty(), p);
    }
    assert forall|label: LabelSpec| #[trigger] is_issued(after, label) == is_issued(
        before,
        label,
    ) by {
        assert(inside(after, parent_of(label)) == inside(before, parent_of(label)));
    }
    assert forall|p: LabelSpec| #[trigger] has_key(after, p) implies is_known(roots, after, p) by {
        inside_put(before, new, Seq::empty(), p);
        assert(is_issued(after, p) == is_issued(before, p));
        assert(is_issued(before, p) == (is_issued(c.labels, p) || p == new));
    }
    put_distinct(before, new, Seq::empty());
}

/// A continuation stays valid where it knows more, in the same frames and the same function.
proof fn still_wf(roots: Set<LabelSpec>, before: ContSpec, after: ContSpec)
    requires
        cont_wf(roots, before),
        knows_more(before, after),
        labels_wf(roots, after.labels),
        after.frames == before.frames,
        after.fn_label == before.fn_label,
        after.code matches CodeSpec::Label(label) ==> is_issued(after.labels, label),
    ensures
        cont_wf(roots, after),
{
    assert forall|i: int| 0 <= i < after.frames.len() implies frame_wf(
        roots,
        after.labels,
        #[trigger] after.frames[i],
    ) by {
        assert(frame_wf(roots, before.labels, before.frames[i]));
    }
}

/// A piece of code more.
proof fn one_piece(c: ContSpec, l: LabelSpec)
    ensures
        forall|label: LabelSpec| #[trigger]
            pieces(c.reified(l).arms, label) == pieces(c.arms, label) + (if l == label {
                1nat
            } else {
                0nat
            }),
{
    assert(c.reified(l).arms.drop_last() =~= c.arms);
}

/// A label for the code that comes next is handed out and gets the code.
pub proof fn labelled_accounts(roots: Set<LabelSpec>, c: ContSpec, extra: spec_fn(LabelSpec) -> int)
    requires
        cont_wf(roots, c),
        accounted(c, extra),
    ensures
        cont_wf(roots, c.labelled()),
        accounted(c.labelled(), extra),
        knows_more(c, c.labelled()),
{
    let after = c.labelled();
    if c.code is Inline {
        issue_one(roots, c);
        one_piece(c.issued(), c.next_label());
        assert(knows_more(c, after));
        still_wf(roots, c, after);
        assert forall|label: LabelSpec| #[trigger] accounts_for(after, extra, label) by {
            assert(accounts_for(c, extra, label));
        }
    }
}

/// Starting a frame leaves each label accounted for.
pub proof fn open_accounts(roots: Set<LabelSpec>, c: ContSpec, extra: spec_fn(LabelSpec) -> int)
    requires
        cont_wf(roots, c),
        accounted(c, extra),
    ensures
        cont_wf(roots, c.open_frame()),
        accounted(c.open_frame(), extra),
        knows_more(c, c.open_frame()),
{
    let after = c.open_frame();
    if c.frames.len() > 0 && c.frames.last() is None {
        let mid = c.labelled();
        labelled_accounts(roots, c, extra);
        enter_one(roots, mid);
        assert(is_issued(after.labels, after.fn_label));
        assert forall|i: int| 0 <= i < after.frames.len() implies frame_wf(
            roots,
            after.labels,
            #[trigger] after.frames[i],
        ) by {
            if i < c.frames.len() - 1 {
                assert(frame_wf(roots, mid.labels, mid.frames[i]));
                assert(after.frames[i] == mid.frames[i]);
            }
        }
        assert(after.frames.drop_last().drop_last() =~= c.frames.drop_last());
        assert forall|label: LabelSpec| #[trigger] accounts_for(after, extra, label) by {
            reveal_with_fuel(unfinished, 3);
            assert(accounts_for(mid, extra, label));
        }
    } else {
        assert(after.frames.drop_last() =~= c.frames);
        assert forall|label: LabelSpec| #[trigger] accounts_for(after, extra, label) by {
            assert(accounts_for(c, extra, label));
        }
    }
}

/// Ending a frame leaves each label accounted for.
pub proof fn close_accounts(roots: Set<LabelSpec>, c: ContSpec, extra: spec_fn(LabelSpec) -> int)
    requires
        cont_wf(roots, c),
        accounted(c, extra),
        c.frames.len() > 0,
    ensures
        cont_wf(roots, c.close_frame()->Some_0),
        accounted(c.close_frame()->Some_0, extra),
        knows_more(c, c.close_frame()->Some_0),
{
    let after = c.close_frame()->Some_0;
    let last = c.frames[c.frames.len() - 1];
    one_piece(c, c.fn_label);
    assert forall|i: int| 0 <= i < after.frames.len() implies frame_wf(
        roots,
        after.labels,
        #[trigger] after.frames[i],
    ) by {
        assert(frame_wf(roots, c.labels, c.frames[i]));
    }
    assert forall|label: LabelSpec| #[trigger] accounts_for(after, extra, label) by {
        assert(accounts_for(c, extra, label));
        if last is Some {
            assert(after.arms =~= c.reified(c.fn_label).arms);
        }
    }
}

/// What is to come outside of a function that a `Fix` makes.
pub open spec fn outside_fix(
    c: ContSpec,
    extra: spec_fn(LabelSpec) -> int,
    made: LabelSpec,
) -> spec_fn(LabelSpec) -> int {
    |label: LabelSpec|
        extra(label) + unfinished(c.frames, c.fn_label, label) + if label == made {
            1int
        } else {
            0
        }
}

/// The continuation that the code of a function that a `Fix` makes is generated from.
pub open spec fn fix_begin(c: ContSpec) -> ContSpec {
    ContSpec { frames: Seq::empty(), ..c.labelled().entered().with_code(seq![InstrSpec::Ret]) }
}

/// Each label is accounted for where the code of a function that a `Fix` makes begins.
pub proof fn fix_begin_accounts(
    roots: Set<LabelSpec>,
    c: ContSpec,
    extra: spec_fn(LabelSpec) -> int,
)
    requires
        cont_wf(roots, c),
        accounted(c, extra),
    ensures
        cont_wf(roots, fix_begin(c)),
        accounted(
            fix_begin(c),
            outside_fix(c.labelled(), extra, fix_begin(c).fn_label),
        ),
        knows_more(c, fix_begin(c)),
        knows_more(c.labelled(), fix_begin(c)),
        is_issued(fix_begin(c).labels, fix_begin(c).fn_label),
{
    let start = c.labelled();
    let begin = fix_begin(c);
    let more = outside_fix(start, extra, begin.fn_label);
    labelled_accounts(roots, c, extra);
    enter_one(roots, start);
    assert(is_issued(begin.labels, begin.fn_label));
    assert forall|label: LabelSpec| #[trigger] accounts_for(begin, more, label) by {
        assert(accounts_for(start, extra, label));
    }
}

/// A step whose frames are in order leaves each label accounted for.
#[verifier::rlimit(30)]
pub proof fn apply_accounts(
    roots: Set<LabelSpec>,
    t: ThunkSpec,
    d: nat,
    fixed: LabelSpec,
    c: ContSpec,
    base: Seq<FrameSpec>,
    fn_label: LabelSpec,
    extra: spec_fn(LabelSpec) -> int,
)
    requires
        level(t, d) is Some,
        within(c, base, fn_label, d),
        cont_wf(roots, c),
        accounted(c, extra),
    ensures
        apply(t, fixed, c) is Some,
        cont_wf(roots, apply(t, fixed, c)->Some_0),
        accounted(apply(t, fixed, c)->Some_0, extra),
        knows_more(c, apply(t, fixed, c)->Some_0),
    decreases t, 0nat,
{
    level_applies(t, d, fixed, c, base, fn_label);
    let after = apply(t, fixed, c)->Some_0;
    match t {
        ThunkSpec::Skip | ThunkSpec::Emit(_) | ThunkSpec::Check(_) | ThunkSpec::Ret => {
            assert forall|label: LabelSpec| #[trigger] accounts_for(after, extra, label) by {
                assert(accounts_for(c, extra, label));
            }
        },
        ThunkSpec::Call(_) | ThunkSpec::CallFix => {
            labelled_accounts(roots, c, extra);
            assert forall|label: LabelSpec| #[trigger] accounts_for(after, extra, label) by {
                assert(accounts_for(c.labelled(), extra, label));
            }
        },
        ThunkSpec::OpenFrame => {
            open_accounts(roots, c, extra);
        },
        ThunkSpec::CloseFrame => {
            close_accounts(roots, c, extra);
        },
        ThunkSpec::Then(a, b) => {
            let mid = apply(*b, fixed, c)->Some_0;
            level_applies(*b, d, fixed, c, base, fn_label);
            apply_accounts(roots, *b, d, fixed, c, base, fn_label, extra);
            apply_accounts(roots, *a, level(*b, d)->Some_0, fixed, mid, base, fn_label, extra);
        },
        ThunkSpec::Parallel(ts) => {
            let start = c.labelled();
            labelled_accounts(roots, c, extra);
            branches_apply(ts, ts.len(), fixed, start);
            branches_account(roots, ts, ts.len(), fixed, start, extra);
            let all = branches(ts, ts.len(), fixed, start)->Some_0;
            assert(start.frames.take(start.frames.len() as int) =~= start.frames);
            assert forall|label: LabelSpec| #[trigger] accounts_for(after, extra, label) by {
                assert(accounts_for(all.cont, extra, label));
            }
        },
        ThunkSpec::Fix(body) => {
            let start = c.labelled();
            let begin = fix_begin(c);
            let made = begin.fn_label;
            let more = outside_fix(start, extra, made);
            labelled_accounts(roots, c, extra);
            fix_begin_accounts(roots, c, extra);
            level_applies(*body, 0, made, begin, Seq::empty(), made);
            apply_accounts(roots, *body, 0, made, begin, Seq::empty(), made, more);
            let done = apply(*body, made, begin)->Some_0;
            one_piece(done, made);
            assert(after.arms == done.reified(made).arms);
            assert(knows_more(start, after));
            still_wf(roots, start, after);
            assert forall|label: LabelSpec| #[trigger] accounts_for(after, extra, label) by {
                assert(accounts_for(done, more, label));
            }
        },
    }
}

/// Branches whose frames are in order leave each label accounted for.
pub proof fn branches_account(
    roots: Set<LabelSpec>,
    ts: Seq<ThunkSpec>,
    n: nat,
    fixed: LabelSpec,
    start: ContSpec,
    extra: spec_fn(LabelSpec) -> int,
)
    requires
        n <= ts.len(),
        forall|i: int| 0 <= i < ts.len() ==> level(#[trigger] ts[i], 0) == Some(0nat),
        cont_wf(roots, start),
        accounted(start, extra),
    ensures
        branches(ts, n, fixed, start) matches Some(b) && {
            &&& cont_wf(roots, b.cont)
            &&& accounted(b.cont, extra)
            &&& knows_more(start, b.cont)
        },
    decreases ts, n,
{
    if n > 0 {
        let before = branches(ts, (n - 1) as nat, fixed, start)->Some_0;
        branches_apply(ts, (n - 1) as nat, fixed, start);
        branches_apply(ts, n, fixed, start);
        branches_account(roots, ts, (n - 1) as nat, fixed, start, extra);
        let frames = before.cont.frames;
        let fn_label = before.cont.fn_label;
        assert(level(ts[n - 1], 0) == Some(0nat));
        within_self(before.cont);
        level_applies(ts[n - 1], 0, fixed, before.cont, frames, fn_label);
        apply_accounts(roots, ts[n - 1], 0, fixed, before.cont, frames, fn_label, extra);
        let child = apply(ts[n - 1], fixed, before.cont)->Some_0;
        let after = branches(ts, n, fixed, start)->Some_0.cont;
        let m = child.frames.len();
        assert(knows_more(before.cont, after));
        still_wf(roots, before.cont, after);
        if m > 0 && child.frames[m - 1] is Some && start.frames[m - 1] is None {
            close_accounts(roots, child, extra);
            let closed = child.close_frame()->Some_0;
            assert(after.frames.drop_last() =~= child.frames.drop_last());
            assert(after.arms == closed.arms);
            assert forall|label: LabelSpec| #[trigger] accounts_for(after, extra, label) by {
                assert(accounts_for(closed, extra, label));
            }
        } else {
            assert(child.frames =~= start.frames);
            assert forall|label: LabelSpec| #[trigger] accounts_for(after, extra, label) by {
                assert(accounts_for(child, extra, label));
            }
        }
    }
}

} // verus!
