//! What nodes are made of: the parts of a rule stand for what the rule stands for.
use crate::language::{flat, flat_first, stands_for, Trace};
use crate::node::ParseNodeShape;
use crate::rule::{concat, many, more_sep, optional, RuleSpec, SepKind};
use crate::table::{kind_of, shape_of, shape_parts};
use vstd::prelude::*;

verus! {

/// A node that is split has two parts, which in a row stand for what its rule does. A node that is
/// optional has one, which as an option stands for what its rule does. Other nodes have no parts.
pub proof fn parts_stand_for_rule(rule: RuleSpec, table: Seq<RuleSpec>, w: Trace)
    ensures
        shape_of(rule, table) matches ParseNodeShape::Split(left, right) ==> {
            &&& shape_parts(rule).len() == 2
            &&& left == kind_of(shape_parts(rule)[0], table)
            &&& right == kind_of(shape_parts(rule)[1], table)
            &&& stands_for(rule, w) <==> stands_for(
                concat(shape_parts(rule)[0], shape_parts(rule)[1]),
                w,
            )
        },
        shape_of(rule, table) matches ParseNodeShape::Opt(inner) ==> {
            &&& shape_parts(rule).len() == 1
            &&& inner == kind_of(shape_parts(rule)[0], table)
            &&& stands_for(rule, w) <==> stands_for(optional(shape_parts(rule)[0]), w)
        },
        shape_of(rule, table) is Split || shape_of(rule, table) is Opt || shape_parts(rule).len()
            == 0,
        shape_of(rule, table) is Choice <==> rule is Or,
        shape_of(rule, table) is Opaque <==> rule is Empty || rule is Eat || rule is Call,
        !(shape_of(rule, table) is Alias),
{
    match rule {
        RuleSpec::RepeatMany(elem, None) => {
            many_parts(*elem, w);
        },
        RuleSpec::RepeatMore(elem, None) => {
            more_parts(*elem, w);
        },
        RuleSpec::RepeatMany(elem, Some(sep)) => {
            let more = RuleSpec::RepeatMore(elem, Some(sep));
            assert(shape_parts(rule)[0] == more);
            assert(stands_for(rule, w) <==> w.len() == 0 || stands_for(more, w));
        },
        RuleSpec::RepeatMore(elem, Some((sep, SepKind::Simple))) => {
            simple_parts(*elem, *sep, w);
        },
        RuleSpec::RepeatMore(elem, Some((sep, SepKind::Trailing))) => {
            trailing_parts(*elem, *sep, w);
        },
        _ => {},
    }
}

/// Whether traces are all of what a rule stands for.
spec fn all_stand(elem: RuleSpec, parts: Seq<Trace>) -> bool {
    forall|i: int| 0 <= i < parts.len() ==> stands_for(elem, #[trigger] parts[i])
}

/// Whether traces are by turns of what one rule and another stand for.
spec fn by_turns(elem: RuleSpec, sep: RuleSpec, parts: Seq<Trace>) -> bool {
    forall|i: int|
        0 <= i < parts.len() ==> if i % 2 == 0 {
            stands_for(elem, #[trigger] parts[i])
        } else {
            stands_for(sep, parts[i])
        }
}

proof fn many_parts(elem: RuleSpec, w: Trace)
    ensures
        stands_for(many(elem), w) <==> stands_for(
            optional(RuleSpec::RepeatMore(Box::new(elem), None)),
            w,
        ),
{
    let more = RuleSpec::RepeatMore(Box::new(elem), None);
    if stands_for(many(elem), w) {
        let parts = choose|parts: Seq<Trace>| #[trigger] flat(parts) == w && all_stand(elem, parts);
        if parts.len() == 0 {
            assert(w.len() == 0);
        } else {
            assert(flat(parts) == w);
            assert(stands_for(more, w));
        }
    }
    if w.len() == 0 {
        let none = Seq::<Trace>::empty();
        assert(flat(none) =~= w);
        assert(stands_for(many(elem), w));
    } else if stands_for(more, w) {
        let parts = choose|parts: Seq<Trace>|
            parts.len() > 0 && #[trigger] flat(parts) == w && all_stand(elem, parts);
        assert(flat(parts) == w);
        assert(stands_for(many(elem), w));
    }
}

proof fn more_parts(elem: RuleSpec, w: Trace)
    ensures
        stands_for(RuleSpec::RepeatMore(Box::new(elem), None), w) <==> stands_for(
            concat(elem, many(elem)),
            w,
        ),
{
    let more = RuleSpec::RepeatMore(Box::new(elem), None);
    let both = concat(elem, many(elem));
    if stands_for(more, w) {
        let parts = choose|parts: Seq<Trace>|
            parts.len() > 0 && #[trigger] flat(parts) == w && all_stand(elem, parts);
        let first = parts[0];
        let rest = parts.skip(1);
        assert(seq![first] + rest =~= parts);
        flat_first(first, rest);
        assert(w.take(first.len() as int) =~= first);
        assert(w.skip(first.len() as int) =~= flat(rest));
        assert forall|i: int| 0 <= i < rest.len() implies stands_for(elem, #[trigger] rest[i]) by {
            assert(rest[i] == parts[i + 1]);
        }
        assert(stands_for(many(elem), flat(rest)));
        assert(stands_for(both, w));
    }
    if stands_for(both, w) {
        let i = choose|i: int|
            0 <= i <= w.len() && stands_for(elem, #[trigger] w.take(i)) && stands_for(
                many(elem),
                w.skip(i),
            );
        let rest = choose|parts: Seq<Trace>|
            #[trigger] flat(parts) == w.skip(i) && all_stand(elem, parts);
        let parts = seq![w.take(i)] + rest;
        flat_first(w.take(i), rest);
        assert(flat(parts) =~= w);
        assert forall|k: int| 0 <= k < parts.len() implies stands_for(
            elem,
            #[trigger] parts[k],
        ) by {
            if k > 0 {
                assert(parts[k] == rest[k - 1]);
            }
        }
        assert(stands_for(more, w));
    }
}

/// The traces of a repetition with separators between its elements.
proof fn simple_list(elem: RuleSpec, sep: RuleSpec, w: Trace) -> (parts: Seq<Trace>)
    requires
        stands_for(more_sep(elem, sep, SepKind::Simple), w),
    ensures
        parts.len() % 2 == 1,
        flat(parts) == w,
        by_turns(elem, sep, parts),
{
    let parts = choose|parts: Seq<Trace>|
        parts.len() > 0 && parts.len() % 2 == 1 && #[trigger] flat(parts) == w && by_turns(
            elem,
            sep,
            parts,
        );
    assert(exists|parts: Seq<Trace>|
        parts.len() > 0 && parts.len() % 2 == 1 && #[trigger] flat(parts) == w && by_turns(
            elem,
            sep,
            parts,
        )) by {
        let found = choose|parts: Seq<Trace>|
            parts.len() > 0 && parts.len() % 2 == 1 && #[trigger] flat(parts) == w && forall|i: int|
                0 <= i < parts.len() ==> if i % 2 == 0 {
                    stands_for(elem, #[trigger] parts[i])
                } else {
                    stands_for(sep, parts[i])
                };
        assert(flat(found) == w);
        assert(by_turns(elem, sep, found));
    }
    parts
}

proof fn list_is_simple(elem: RuleSpec, sep: RuleSpec, parts: Seq<Trace>)
    requires
        parts.len() % 2 == 1,
        by_turns(elem, sep, parts),
    ensures
        stands_for(more_sep(elem, sep, SepKind::Simple), flat(parts)),
{
}

proof fn simple_parts(elem: RuleSpec, sep: RuleSpec, w: Trace)
    ensures
        ({
            let whole = more_sep(elem, sep, SepKind::Simple);
            stands_for(whole, w) <==> stands_for(concat(elem, optional(concat(sep, whole))), w)
        }),
{
    let whole = more_sep(elem, sep, SepKind::Simple);
    let next = concat(sep, whole);
    let both = concat(elem, optional(next));
    if stands_for(whole, w) {
        let parts = simple_list(elem, sep, w);
        let first = parts[0];
        let rest = parts.skip(1);
        assert(seq![first] + rest =~= parts);
        flat_first(first, rest);
        let tail = flat(rest);
        assert(w.take(first.len() as int) =~= first);
        assert(w.skip(first.len() as int) =~= tail);
        assert(stands_for(elem, first));
        if rest.len() > 0 {
            let second = rest[0];
            let others = rest.skip(1);
            assert(second == parts[1]);
            assert(seq![second] + others =~= rest);
            flat_first(second, others);
            assert(tail.take(second.len() as int) =~= second);
            assert(tail.skip(second.len() as int) =~= flat(others));
            assert forall|i: int| 0 <= i < others.len() implies if i % 2 == 0 {
                stands_for(elem, #[trigger] others[i])
            } else {
                stands_for(sep, others[i])
            } by {
                assert(others[i] == parts[i + 2]);
            }
            list_is_simple(elem, sep, others);
            assert(stands_for(sep, second));
            assert(stands_for(next, tail));
        }
        assert(stands_for(optional(next), tail));
        assert(stands_for(both, w));
    }
    if stands_for(both, w) {
        let i = choose|i: int|
            0 <= i <= w.len() && stands_for(elem, #[trigger] w.take(i)) && stands_for(
                optional(next),
                w.skip(i),
            );
        let first = w.take(i);
        let tail = w.skip(i);
        if tail.len() == 0 {
            let parts = seq![first];
            flat_first(first, Seq::empty());
            assert(seq![first] + Seq::<Trace>::empty() =~= parts);
            assert(flat(parts) =~= w);
            list_is_simple(elem, sep, parts);
        } else {
            assert(stands_for(next, tail));
            let j = choose|j: int|
                0 <= j <= tail.len() && stands_for(sep, #[trigger] tail.take(j)) && stands_for(
                    whole,
                    tail.skip(j),
                );
            let others = simple_list(elem, sep, tail.skip(j));
            let rest = seq![tail.take(j)] + others;
            let parts = seq![first] + rest;
            flat_first(tail.take(j), others);
            flat_first(first, rest);
            assert(flat(parts) =~= w);
            assert forall|k: int| 0 <= k < parts.len() implies if k % 2 == 0 {
                stands_for(elem, #[trigger] parts[k])
            } else {
                stands_for(sep, parts[k])
            } by {
                if k > 1 {
                    assert(parts[k] == others[k - 2]);
                }
            }
            list_is_simple(elem, sep, parts);
        }
    }
}

proof fn trailing_parts(elem: RuleSpec, sep: RuleSpec, w: Trace)
    ensures
        stands_for(more_sep(elem, sep, SepKind::Trailing), w) <==> stands_for(
            concat(more_sep(elem, sep, SepKind::Simple), optional(sep)),
            w,
        ),
{
    let whole = more_sep(elem, sep, SepKind::Trailing);
    let simple = more_sep(elem, sep, SepKind::Simple);
    let both = concat(simple, optional(sep));
    if stands_for(whole, w) {
        let parts = choose|parts: Seq<Trace>|
            parts.len() > 0 && #[trigger] flat(parts) == w && forall|i: int|
                0 <= i < parts.len() ==> if i % 2 == 0 {
                    stands_for(elem, #[trigger] parts[i])
                } else {
                    stands_for(sep, parts[i])
                };
        assert(by_turns(elem, sep, parts));
        if parts.len() % 2 == 1 {
            list_is_simple(elem, sep, parts);
            assert(w.take(w.len() as int) =~= w);
            assert(w.skip(w.len() as int).len() == 0);
            assert(stands_for(optional(sep), w.skip(w.len() as int)));
            assert(stands_for(both, w));
        } else {
            let before = parts.drop_last();
            let n = flat(before).len() as int;
            assert forall|i: int| 0 <= i < before.len() implies if i % 2 == 0 {
                stands_for(elem, #[trigger] before[i])
            } else {
                stands_for(sep, before[i])
            } by {
                assert(before[i] == parts[i]);
            }
            list_is_simple(elem, sep, before);
            assert(w.take(n) =~= flat(before));
            assert(w.skip(n) =~= parts[parts.len() - 1]);
            assert(stands_for(sep, parts[parts.len() - 1]));
            assert(stands_for(optional(sep), w.skip(n)));
            assert(stands_for(both, w));
        }
    }
    if stands_for(both, w) {
        let i = choose|i: int|
            0 <= i <= w.len() && stands_for(simple, #[trigger] w.take(i)) && stands_for(
                optional(sep),
                w.skip(i),
            );
        let before = simple_list(elem, sep, w.take(i));
        if w.skip(i).len() == 0 {
            assert(w.take(i) =~= w);
            assert(flat(before) == w);
            assert(stands_for(whole, w));
        } else {
            let parts = before.push(w.skip(i));
            assert(parts.drop_last() =~= before);
            assert(flat(parts) =~= w);
            assert forall|k: int| 0 <= k < parts.len() implies if k % 2 == 0 {
                stands_for(elem, #[trigger] parts[k])
            } else {
                stands_for(sep, parts[k])
            } by {
                if k < before.len() {
                    assert(parts[k] == before[k]);
                }
            }
            assert(stands_for(whole, w));
        }
    }
}

} // verus!
