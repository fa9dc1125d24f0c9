//! What holds of names: which rules have variants, and how these are called.
use crate::fields::{
    case_fields, flat, flat_starts, name_in, pairs, rests, rules_out, variants_in, FieldsSpec,
    NamedSpec,
};
use vstd::prelude::*;

verus! {

/// Whether a path of a field leads to a case itself, and so gives the case its name.
pub open spec fn names_case(fs: FieldsSpec, i: int, j: int, case: int) -> bool {
    &&& 0 <= i < fs.len()
    &&& 0 <= j < fs[i].1.len()
    &&& fs[i].1[j].len() == 1
    &&& fs[i].1[j][0] == case
}

/// Whether a path of a field leads to the whole rule.
pub open spec fn names_whole(fs: FieldsSpec, i: int, j: int) -> bool {
    &&& 0 <= i < fs.len()
    &&& 0 <= j < fs[i].1.len()
    &&& fs[i].1[j].len() == 0
}

/// Where a path of a field is among those of all fields.
pub open spec fn place(fs: FieldsSpec, i: int, j: int) -> int {
    flat(fs, i as nat).len() + j
}

/// A path of a field is at its place.
pub proof fn path_has_place(fs: FieldsSpec, i: int, j: int, n: nat)
    requires
        0 <= i < n,
        n <= fs.len(),
        0 <= j < fs[i].1.len(),
    ensures
        0 <= place(fs, i, j) < flat(fs, n).len(),
        place(fs, i, j) < flat(fs, (i + 1) as nat).len(),
        flat(fs, n)[place(fs, i, j)] == (fs[i].0, fs[i].1[j]),
{
    flat_starts(fs, (i + 1) as nat, n);
    let k = place(fs, i, j);
    let first = flat(fs, (i + 1) as nat);
    assert(first[k] == pairs(fs[i].0, fs[i].1)[j]);
    assert(flat(fs, n).take(first.len() as int)[k] == flat(fs, n)[k]);
}

/// At each place there is a path of a field.
pub proof fn place_has_path(fs: FieldsSpec, k: int, n: nat) -> (r: (int, int))
    requires
        n <= fs.len(),
        0 <= k < flat(fs, n).len(),
    ensures
        0 <= r.0 < n,
        0 <= r.1 < fs[r.0].1.len(),
        place(fs, r.0, r.1) == k,
        flat(fs, n)[k] == (fs[r.0].0, fs[r.0].1[r.1]),
    decreases n,
{
    let before = flat(fs, (n - 1) as nat);
    if k < before.len() {
        place_has_path(fs, k, (n - 1) as nat)
    } else {
        (n - 1, k - before.len())
    }
}

/// Two paths of fields have different places.
proof fn places_differ(fs: FieldsSpec, a: int, b: int, i: int, j: int)
    requires
        0 <= a < fs.len(),
        0 <= b < fs[a].1.len(),
        0 <= i < fs.len(),
        0 <= j < fs[i].1.len(),
        place(fs, a, b) == place(fs, i, j),
    ensures
        a == i,
        b == j,
{
    path_has_place(fs, a, b, fs.len());
    path_has_place(fs, i, j, fs.len());
    if a < i {
        flat_starts(fs, (a + 1) as nat, i as nat);
    } else if i < a {
        flat_starts(fs, (i + 1) as nat, a as nat);
    }
}

/// The name that paths give to a case is that of the last that leads to it.
proof fn name_is_last(all: Seq<(Seq<char>, Seq<usize>)>, case: int) -> (k: int)
    requires
        forall|i: int| 0 <= i < all.len() ==> (#[trigger] all[i]).0.len() > 0,
    ensures
        -1 <= k < all.len(),
        k < 0 ==> name_in(all, case).len() == 0,
        k >= 0 ==> all[k].1.len() == 1 && all[k].1[0] == case && name_in(all, case) == all[k].0,
        forall|i: int|
            k < i < all.len() ==> !((#[trigger] all[i]).1.len() == 1 && all[i].1[0] == case),
    decreases all.len(),
{
    if all.len() == 0 {
        -1
    } else if all.last().1.len() == 1 && all.last().1[0] == case {
        all.len() - 1
    } else {
        let before = all.drop_last();
        assert(forall|i: int| 0 <= i < before.len() ==> (#[trigger] before[i]) == all[i]);
        let k = name_is_last(before, case);
        assert forall|i: int| k < i < all.len() implies !((#[trigger] all[i]).1.len() == 1
            && all[i].1[0] == case) by {
            if i < before.len() {
                assert(before[i] == all[i]);
            }
        }
        k
    }
}

/// Whether a rule with fields is a choice whose cases the fields name, each once, and the rule as a
/// whole not at all.
pub open spec fn fields_name_cases(rule: NamedSpec) -> bool {
    let fs = rule.fields;
    &&& rule.rule is Or
    &&& fs.len() > 0
    &&& forall|i: int, j: int| !#[trigger] names_whole(fs, i, j)
    &&& forall|a: int, b: int, i: int, j: int, case: int|
        #[trigger] names_case(fs, a, b, case) && #[trigger] names_case(fs, i, j, case) ==> a == i
            && b == j
    &&& forall|case: int|
        0 <= case < rule.rule->Or_0.len() ==> #[trigger] case_is_named(fs, case)
}

/// Whether a field names a case.
pub open spec fn case_is_named(fs: FieldsSpec, case: int) -> bool {
    exists|i: int, j: int| #[trigger] names_case(fs, i, j, case)
}

/// A rule has variants exactly where it is a choice and its fields name each of its cases once.
/// There is a variant for each case, in order. It has the name that a field gives to the case.
pub proof fn variants_are_named(rule: NamedSpec)
    requires
        forall|i: int| 0 <= i < rule.fields.len() ==> (#[trigger] rule.fields[i]).0.len() > 0,
    ensures
        variants_in(rule) is Some <==> fields_name_cases(rule),
        variants_in(rule) matches Some(vs) ==> {
            &&& vs.len() == rule.rule->Or_0.len()
            &&& forall|v: int|
                0 <= v < vs.len() ==> (#[trigger] vs[v]).rule == rule.rule->Or_0[v]
                    && vs[v].fields == case_fields(rule.fields, v, rule.fields.len())
            &&& forall|v: int, i: int, j: int|
                0 <= v < vs.len() && #[trigger] names_case(rule.fields, i, j, v) ==> vs[v].name
                    == rule.fields[i].0
        },
{
    let fs = rule.fields;
    let all = flat(fs, fs.len());
    assert forall|k: int| 0 <= k < all.len() implies (#[trigger] all[k]).0.len() > 0 by {
        let (i, j) = place_has_path(fs, k, fs.len());
        assert(fs[i].0.len() > 0);
    }
    if variants_in(rule) is Some {
        variants_have_names(rule);
    }
    if fields_name_cases(rule) {
        let cases = rule.rule->Or_0;
        assert forall|k: int| 0 <= k < all.len() implies !#[trigger] rules_out(all, k) by {
            let (i, j) = place_has_path(fs, k, fs.len());
            assert(!names_whole(fs, i, j));
            let path = all[k].1;
            if path.len() == 1 {
                let before = all.take(k);
                assert(forall|m: int| 0 <= m < k ==> #[trigger] before[m] == all[m]);
                let m = name_is_last(before, path[0] as int);
                if m >= 0 {
                    let (a, b) = place_has_path(fs, m, fs.len());
                    assert(before[m] == all[m]);
                    assert(names_case(fs, a, b, path[0] as int));
                    assert(names_case(fs, i, j, path[0] as int));
                }
            }
        }
        assert forall|v: int| 0 <= v < cases.len() implies (#[trigger] name_in(all, v)).len()
            > 0 by {
            assert(case_is_named(fs, v));
            let (i, j) = choose|i: int, j: int| #[trigger] names_case(fs, i, j, v);
            path_has_place(fs, i, j, fs.len());
            let k = name_is_last(all, v);
            assert(all[place(fs, i, j)].1 == fs[i].1[j]);
            assert(k >= 0);
        }
    }
}

proof fn variants_have_names(rule: NamedSpec)
    requires
        forall|i: int| 0 <= i < rule.fields.len() ==> (#[trigger] rule.fields[i]).0.len() > 0,
        variants_in(rule) is Some,
        forall|k: int|
            0 <= k < flat(rule.fields, rule.fields.len()).len() ==> (#[trigger] flat(
                rule.fields,
                rule.fields.len(),
            )[k]).0.len() > 0,
    ensures
        fields_name_cases(rule),
        ({
            let vs = variants_in(rule)->Some_0;
            forall|v: int, i: int, j: int|
                0 <= v < vs.len() && #[trigger] names_case(rule.fields, i, j, v) ==> vs[v].name
                    == rule.fields[i].0
        }),
{
    let fs = rule.fields;
    let all = flat(fs, fs.len());
    let cases = rule.rule->Or_0;
    let vs = variants_in(rule)->Some_0;
    assert forall|i: int, j: int| !#[trigger] names_whole(fs, i, j) by {
        if names_whole(fs, i, j) {
            path_has_place(fs, i, j, fs.len());
            assert(rules_out(all, place(fs, i, j)));
        }
    }
    assert forall|a: int, b: int, i: int, j: int, case: int|
        #[trigger] names_case(fs, a, b, case) && #[trigger] names_case(
            fs,
            i,
            j,
            case,
        ) implies a == i && b == j by {
        path_has_place(fs, a, b, fs.len());
        path_has_place(fs, i, j, fs.len());
        let p = place(fs, a, b);
        let q = place(fs, i, j);
        if p == q {
            places_differ(fs, a, b, i, j);
        } else {
            let (first, last) = if p < q {
                (p, q)
            } else {
                (q, p)
            };
            let before = all.take(last);
            assert(forall|m: int| 0 <= m < last ==> #[trigger] before[m] == all[m]);
            let m = name_is_last(before, case);
            assert(before[first] == all[first]);
            assert(m >= 0);
            assert(all[m].0.len() > 0);
            assert(rules_out(all, last));
        }
    }
    assert forall|case: int| 0 <= case < cases.len() implies #[trigger] case_is_named(
        fs,
        case,
    ) by {
        let k = name_is_last(all, case);
        assert(name_in(all, case).len() > 0);
        let (i, j) = place_has_path(fs, k, fs.len());
        assert(names_case(fs, i, j, case));
    }
    assert forall|v: int, i: int, j: int|
        0 <= v < vs.len() && #[trigger] names_case(fs, i, j, v) implies vs[v].name == fs[i].0 by {
        let k = name_is_last(all, v);
        assert(name_in(all, v).len() > 0);
        let (a, b) = place_has_path(fs, k, fs.len());
        assert(names_case(fs, a, b, v));
    }
}

/// The rests of the paths into a case are those of all paths that go through the case and on, in
/// order.
pub proof fn rests_in_order(paths: Seq<Seq<usize>>, case: int)
    ensures
        rests(paths, case) == paths.filter(
            |path: Seq<usize>| path.len() > 1 && path[0] == case,
        ).map_values(|path: Seq<usize>| path.skip(1)),
    decreases paths.len(),
{
    reveal(Seq::filter);
    let through = |path: Seq<usize>| path.len() > 1 && path[0] == case;
    let on = |path: Seq<usize>| path.skip(1);
    if paths.len() > 0 {
        let before = paths.drop_last();
        rests_in_order(before, case);
        if through(paths.last()) {
            assert(before.filter(through).push(paths.last()).map_values(on) =~= before.filter(
                through,
            ).map_values(on).push(on(paths.last())));
        }
    } else {
        assert(paths.filter(through).map_values(on) =~= Seq::empty());
    }
}

/// The fields inside of a case are those of the rule that have paths into it, in order, each with
/// the rests of these paths.
pub proof fn fields_in_order(fs: FieldsSpec, case: int, n: nat)
    requires
        n <= fs.len(),
    ensures
        case_fields(fs, case, n) == Seq::new(
            n,
            |i: int| (fs[i].0, rests(fs[i].1, case)),
        ).filter(|f: (Seq<char>, Seq<Seq<usize>>)| f.1.len() > 0),
    decreases n,
{
    reveal(Seq::filter);
    let all = Seq::new(n, |i: int| (fs[i].0, rests(fs[i].1, case)));
    if n > 0 {
        fields_in_order(fs, case, (n - 1) as nat);
        assert(all.drop_last() =~= Seq::new(
            (n - 1) as nat,
            |i: int| (fs[i].0, rests(fs[i].1, case)),
        ));
    }
}

} // verus!
