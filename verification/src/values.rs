//! What holds of the values that generated code hands out: their types, and where they are read.
use crate::declare::handle_ty;
use crate::forest::{handle_expr, or_path_exprs, path_expr, path_exprs, path_steps};
use crate::paths::{is_part_at, rule_at, spaced, words_spaced};
use crate::rule::{RuleSpec, SepKind};
use crate::tokens::{fill, filled, holes, number, repeated, ugly, word, SrcSpec, TokenSpec};
use crate::types::{path_refutable, pathset_refutable, pathset_type, type_agreed, type_at};
use vstd::prelude::*;

verus! {

/// The type of what a rule parses as a whole. Nothing and a pattern, and two rules in a row, are
/// worth nothing; a call is worth what the rule is that is called; a repetition, of none or more
/// and of one or more alike, is worth a slice of what its element is. A choice and an option are
/// worth nothing by themselves.
pub proof fn whole_type(rule: RuleSpec)
    ensures
        match rule {
            RuleSpec::Empty | RuleSpec::Eat(_) | RuleSpec::Concat(..) => type_at(rule, Seq::empty())
                == Some(fill("( )"@, Seq::empty())),
            RuleSpec::Call(name) => type_at(rule, Seq::empty()) == Some(
                fill("$ < 'a , 'i , I >"@, seq![word(name)]),
            ),
            RuleSpec::Or(_) | RuleSpec::Opt(_) => type_at(rule, Seq::empty()) is None,
            RuleSpec::RepeatMany(elem, _) | RuleSpec::RepeatMore(elem, _) => {
                &&& type_at(rule, Seq::empty()) is Some <==> type_at(*elem, Seq::empty()) is Some
                &&& type_at(*elem, Seq::empty()) matches Some(ty) ==> type_at(rule, Seq::empty())
                    == Some(word(seq!['[']) + ty + word(seq![']']))
            },
        },
{
    match rule {
        RuleSpec::RepeatMany(elem, _) | RuleSpec::RepeatMore(elem, _) => {
            if let Some(ty) = type_at(*elem, Seq::empty()) {
                slice_layout(ty);
            }
        },
        _ => {},
    }
}

/// What stands in the type of a slice.
proof fn slice_layout(ty: SrcSpec)
    ensures
        fill("[ $ ]"@, seq![ty]) == word(seq!['[']) + ty + word(seq![']']),
{
    let ws = seq![seq!['['], seq!['$'], seq![']']];
    reveal_strlit("[ $ ]");
    reveal_with_fuel(spaced, 4);
    reveal_with_fuel(filled, 4);
    reveal_with_fuel(holes, 4);
    assert("[ $ ]"@.push(' ') =~= spaced(ws, 3));
    words_spaced("[ $ ]"@, ws);
    assert(ws[0][0] == '[' && ws[2][0] == ']');
    assert(fill("[ $ ]"@, seq![ty]) =~= word(ws[0]) + ty + word(ws[2]));
}

/// A repetition of none or more and one of one or more have the same type, whatever separates
/// their elements.
pub proof fn repetitions_have_one_type(
    elem: RuleSpec,
    a: Option<(Box<RuleSpec>, SepKind)>,
    b: Option<(Box<RuleSpec>, SepKind)>,
    path: Seq<usize>,
)
    ensures
        type_at(RuleSpec::RepeatMany(Box::new(elem), a), path) == type_at(
            RuleSpec::RepeatMore(Box::new(elem), b),
            path,
        ),
        path.len() > 0 ==> type_at(RuleSpec::RepeatMany(Box::new(elem), a), path) is None,
{
}

/// What a path leads through is the rule that is called, once a call is reached.
pub proof fn call_type(name: Seq<char>, path: Seq<usize>)
    ensures
        type_at(RuleSpec::Call(name), path) == type_at(RuleSpec::Call(name), Seq::empty()),
{
}

/// Whether a rule on the way along a path is a choice or an option.
pub open spec fn goes_through_choice(rule: RuleSpec, path: Seq<usize>) -> bool {
    exists|k: int|
        0 <= k <= path.len() && (#[trigger] rule_at(rule, path.take(k)) matches Some(r) && (r is Or
            || r is Opt))
}

/// What is at the end of a path may be missing exactly where a rule on the way is a choice or an
/// option.
pub proof fn refutable_through_choice(rule: RuleSpec, path: Seq<usize>)
    requires
        rule_at(rule, path) is Some,
    ensures
        path_refutable(rule, path) <==> goes_through_choice(rule, path),
    decreases path.len(),
{
    assert(path.take(0) =~= Seq::empty());
    assert(rule_at(rule, path.take(0)) == Some(rule));
    if path.len() == 0 {
        assert(forall|k: int| 0 <= k <= path.len() ==> #[trigger] path.take(k) =~= Seq::empty());
    } else if let RuleSpec::Concat(left, right) = rule {
        let rest = path.skip(1);
        let next = if path[0] == 0 {
            *left
        } else {
            *right
        };
        refutable_through_choice(next, rest);
        assert forall|k: int| 1 <= k <= path.len() implies #[trigger] rule_at(rule, path.take(k))
            == rule_at(next, rest.take(k - 1)) by {
            assert(path.take(k).skip(1) =~= rest.take(k - 1));
        }
        if goes_through_choice(rule, path) {
            let k = choose|k: int|
                0 <= k <= path.len() && (#[trigger] rule_at(rule, path.take(k)) matches Some(r) && (
                r is Or || r is Opt));
            assert(k > 0);
            assert(rule_at(next, rest.take(k - 1)) == rule_at(rule, path.take(k)));
        }
        if goes_through_choice(next, rest) {
            let k = choose|k: int|
                0 <= k <= rest.len() && (#[trigger] rule_at(next, rest.take(k)) matches Some(r) && (
                r is Or || r is Opt));
            assert(rule_at(rule, path.take(k + 1)) == rule_at(next, rest.take(k)));
        }
    }
}

/// Whether the types at the ends of two paths are written differently.
pub open spec fn types_differ(rule: RuleSpec, a: Seq<usize>, b: Seq<usize>) -> bool {
    type_at(rule, a) matches Some(x) && (type_at(rule, b) matches Some(y) && ugly(x) != ugly(y))
}

/// The declared type of a field is that of a handle. Where two of its paths lead to different
/// types, it is a handle of the unit type; any other handle is of the type at every path. There is
/// an option around it exactly where the field has several paths or goes through a choice or an
/// option.
pub proof fn handle_type_agrees(rule: RuleSpec, paths: Seq<Seq<usize>>, ty: SrcSpec)
    requires
        pathset_type(rule, paths) == Some(ty),
    ensures
        handle_ty(rule, paths) == (if pathset_refutable(rule, paths) {
            fill(
                "Option < $ >"@,
                seq![fill("Handle < 'a , 'i , I , $ >"@, seq![ty])],
            )
        } else {
            fill("Handle < 'a , 'i , I , $ >"@, seq![ty])
        }),
        pathset_refutable(rule, paths) <==> paths.len() > 1 || path_refutable(rule, paths[0]),
        (exists|i: int, j: int|
            0 <= i < paths.len() && 0 <= j < paths.len() && #[trigger] types_differ(
                rule,
                paths[i],
                paths[j],
            )) ==> ty == fill("( )"@, Seq::empty()),
        ty == fill("( )"@, Seq::empty()) || forall|i: int|
            0 <= i < paths.len() ==> (#[trigger] type_at(rule, paths[i]) matches Some(other)
                && ugly(other) == ugly(ty)),
        (forall|i: int|
            0 <= i < paths.len() ==> (#[trigger] type_at(rule, paths[i]) matches Some(other)
                && ugly(other) == ugly(type_at(rule, paths[0])->Some_0))) ==> type_at(
            rule,
            paths[0],
        ) == Some(ty),
{
    agreed_is_everywhere(rule, paths, type_at(rule, paths[0])->Some_0, 1);
}

/// The type that paths agree on is that of each of them, or the unit type.
proof fn agreed_is_everywhere(rule: RuleSpec, paths: Seq<Seq<usize>>, ty: SrcSpec, k: nat)
    requires
        k <= paths.len(),
        type_agreed(rule, paths, ty, k) is Some,
    ensures
        ({
            let all = forall|i: int|
                k <= i < paths.len() ==> (#[trigger] type_at(rule, paths[i]) matches Some(other)
                    && ugly(other) == ugly(ty));
            type_agreed(rule, paths, ty, k) == Some(
                if all {
                    ty
                } else {
                    fill("( )"@, Seq::empty())
                },
            )
        }),
    decreases paths.len() - k,
{
    if k < paths.len() {
        let here = type_at(rule, paths[k as int]);
        if here is Some && ugly(here->Some_0) == ugly(ty) {
            agreed_is_everywhere(rule, paths, ty, k + 1);
        }
    }
}

/// The tokens by which the end of a path is read: one step after the other, from `_r` on.
pub open spec fn path_tokens(path: Seq<usize>) -> SrcSpec {
    Seq::new(
        1 + 2 * path.len(),
        |i: int|
            if i == 0 {
                TokenSpec::Text("_r"@)
            } else if i % 2 == 1 {
                TokenSpec::Text("."@)
            } else {
                TokenSpec::Int(path[i / 2 - 1] as nat)
            },
    )
}

/// The end of a path is read step by step.
proof fn path_is_read(path: Seq<usize>)
    ensures
        path_expr(path) == path_tokens(path),
{
    let ws = seq![seq!['_', 'r'], seq!['$']];
    reveal_strlit("_r $");
    reveal_strlit("_r");
    reveal_with_fuel(spaced, 3);
    reveal_with_fuel(filled, 3);
    reveal_with_fuel(holes, 3);
    assert("_r $"@.push(' ') =~= spaced(ws, 2));
    words_spaced("_r $"@, ws);
    assert(ws[0][0] == '_');
    let steps = repeated(path.len(), path_steps(path));
    steps_are_read(path, path.len());
    assert("_r"@ =~= ws[0]);
    assert(path_expr(path) =~= word(ws[0]) + steps);
    assert(path_expr(path) =~= path_tokens(path));
}

proof fn steps_are_read(path: Seq<usize>, n: nat)
    requires
        n <= path.len(),
    ensures
        repeated(n, path_steps(path)) == path_tokens(path).subrange(1, 1 + 2 * n as int),
    decreases n,
{
    if n == 0 {
        assert(path_tokens(path).subrange(1, 1) =~= Seq::empty());
    } else {
        steps_are_read(path, (n - 1) as nat);
        let ws = seq![seq!['.'], seq!['$']];
        reveal_strlit(". $");
        reveal_strlit(".");
        reveal_with_fuel(spaced, 3);
        reveal_with_fuel(filled, 3);
        reveal_with_fuel(holes, 3);
        assert(". $"@.push(' ') =~= spaced(ws, 2));
        words_spaced(". $"@, ws);
        assert(ws[0][0] == '.');
        assert("."@ =~= ws[0]);
        let step = number(path[n - 1] as nat);
        assert(fill(". $"@, seq![step]) =~= word(ws[0]) + step);
        let tokens = path_tokens(path);
        assert(tokens[2 * n - 1] == TokenSpec::Text("."@));
        assert(tokens[2 * n as int] == TokenSpec::Int(path[n - 1] as nat));
        assert(repeated(n, path_steps(path)) =~= tokens.subrange(1, 1 + 2 * n as int));
    }
}

/// The tokens that read the end of a path as one more alternative.
pub open spec fn alternative(path: Seq<usize>) -> SrcSpec {
    word("."@) + word("or"@) + word("("@) + path_tokens(path) + word(")"@)
}

/// How many tokens the first `n` alternatives have.
pub open spec fn alternatives_len(paths: Seq<Seq<usize>>, n: nat) -> nat
    decreases n,
{
    if n == 0 {
        0
    } else {
        alternatives_len(paths, (n - 1) as nat) + 5 + 2 * paths[n - 1].len()
    }
}

/// Whether some code is the alternatives of all paths, in the order of the paths, and nothing else.
pub open spec fn are_alternatives(code: SrcSpec, paths: Seq<Seq<usize>>) -> bool {
    &&& code.len() == alternatives_len(paths, paths.len())
    &&& forall|i: int|
        0 <= i < paths.len() ==> is_part_at(
            code,
            #[trigger] alternative(paths[i]),
            alternatives_len(paths, i as nat) as int,
        )
}

/// The handle of a field that may be missing is that of the first of its nodes that is there: each
/// of its paths is one of the alternatives, in the order of the paths. The handle of any other
/// field is that of the node at the end of its path.
pub proof fn handle_reads_all_paths(rule: RuleSpec, paths: Seq<Seq<usize>>) -> (all: SrcSpec)
    requires
        paths.len() > 0,
    ensures
        pathset_refutable(rule, paths) ==> are_alternatives(all, paths) && handle_expr(rule, paths)
            == fill(
            "None $ . map ( | node | Handle {
    node ,
    forest ,
    _marker : PhantomData ,
} )"@,
            seq![all],
        ),
        !pathset_refutable(rule, paths) ==> paths.len() == 1 && handle_expr(rule, paths) == fill(
            "Handle {
    node : $ ,
    forest ,
    _marker : PhantomData ,
}"@,
            seq![path_tokens(paths[0])],
        ),
{
    let n = paths.len();
    alternatives_in_order(paths, n);
    if !pathset_refutable(rule, paths) {
        path_is_read(paths[0]);
        reveal_with_fuel(repeated, 2);
        assert(repeated(1, path_exprs(paths)) =~= path_tokens(paths[0]));
    }
    repeated(n, or_path_exprs(paths))
}

proof fn alternatives_in_order(paths: Seq<Seq<usize>>, n: nat)
    requires
        n <= paths.len(),
    ensures
        repeated(n, or_path_exprs(paths)).len() == alternatives_len(paths, n),
        forall|i: int|
            0 <= i < n ==> is_part_at(
                repeated(n, or_path_exprs(paths)),
                #[trigger] alternative(paths[i]),
                alternatives_len(paths, i as nat) as int,
            ),
    decreases n,
{
    if n > 0 {
        let before = repeated((n - 1) as nat, or_path_exprs(paths));
        let now = repeated(n, or_path_exprs(paths));
        alternatives_in_order(paths, (n - 1) as nat);
        alternative_layout(paths[n - 1]);
        assert(now =~= before + alternative(paths[n - 1]));
        assert forall|i: int| 0 <= i < n implies is_part_at(
            now,
            #[trigger] alternative(paths[i]),
            alternatives_len(paths, i as nat) as int,
        ) by {
            let at = alternatives_len(paths, i as nat) as int;
            let part = alternative(paths[i]);
            if i < n - 1 {
                assert(is_part_at(before, part, at));
                assert(now.subrange(at, at + part.len()) =~= before.subrange(at, at + part.len()));
            } else {
                assert(now.subrange(at, at + part.len()) =~= part);
            }
        }
    }
}

proof fn alternative_layout(path: Seq<usize>)
    ensures
        fill(". or ( $ )"@, seq![path_expr(path)]) == alternative(path),
        alternative(path).len() == 5 + 2 * path.len(),
{
    let ws = seq![seq!['.'], seq!['o', 'r'], seq!['('], seq!['$'], seq![')']];
    reveal_strlit(". or ( $ )");
    reveal_strlit(".");
    reveal_strlit("or");
    reveal_strlit("(");
    reveal_strlit(")");
    reveal_with_fuel(spaced, 6);
    reveal_with_fuel(filled, 6);
    reveal_with_fuel(holes, 6);
    assert(". or ( $ )"@.push(' ') =~= spaced(ws, 5));
    words_spaced(". or ( $ )"@, ws);
    assert(ws[0][0] == '.' && ws[1][0] == 'o' && ws[2][0] == '(' && ws[4][0] == ')');
    assert("."@ =~= ws[0] && "or"@ =~= ws[1] && "("@ =~= ws[2] && ")"@ =~= ws[4]);
    path_is_read(path);
    assert(fill(". or ( $ )"@, seq![path_expr(path)]) =~= alternative(path));
}

/// Whether a rule is worth something by itself.
pub open spec fn has_type(rule: RuleSpec) -> bool
    decreases rule,
{
    match rule {
        RuleSpec::Or(_) | RuleSpec::Opt(_) => false,
        RuleSpec::RepeatMany(elem, _) | RuleSpec::RepeatMore(elem, _) => has_type(*elem),
        _ => true,
    }
}

/// Whether a path goes as far as to a call, or ends there.
pub open spec fn reaches_call(rule: RuleSpec, path: Seq<usize>) -> bool {
    exists|k: int|
        0 <= k <= path.len() && (#[trigger] rule_at(rule, path.take(k)) matches Some(r)
            && r is Call)
}

/// A rule as a whole has a type exactly where it is worth something by itself.
pub proof fn whole_has_type(rule: RuleSpec)
    ensures
        type_at(rule, Seq::empty()) is Some <==> has_type(rule),
    decreases rule,
{
    match rule {
        RuleSpec::RepeatMany(elem, _) | RuleSpec::RepeatMore(elem, _) => {
            whole_has_type(*elem);
        },
        _ => {},
    }
}

/// There is a type at a path exactly where the path leads to a rule that is worth something by
/// itself, or to a call and on from there.
pub proof fn typed_paths(rule: RuleSpec, path: Seq<usize>)
    ensures
        type_at(rule, path) is Some <==> (rule_at(rule, path) matches Some(end) && has_type(end))
            || reaches_call(rule, path),
    decreases path.len(),
{
    assert(path.take(0) =~= Seq::empty());
    assert(rule_at(rule, path.take(0)) == Some(rule));
    if path.len() == 0 {
        assert(path =~= Seq::empty());
        whole_has_type(rule);
        assert(forall|k: int| 0 <= k <= path.len() ==> #[trigger] path.take(k) =~= Seq::empty());
    } else {
        let rest = path.skip(1);
        let next = match rule {
            RuleSpec::Concat(left, right) => if path[0] == 0 {
                Some(*left)
            } else if path[0] == 1 {
                Some(*right)
            } else {
                None
            },
            RuleSpec::Or(cases) => if path[0] < cases.len() {
                Some(cases[path[0] as int])
            } else {
                None
            },
            RuleSpec::Opt(inner) => if path[0] == 0 {
                Some(*inner)
            } else {
                None
            },
            _ => None,
        };
        assert forall|k: int| 1 <= k <= path.len() implies #[trigger] rule_at(rule, path.take(k))
            == (match next {
            Some(next) => rule_at(next, rest.take(k - 1)),
            None => None,
        }) by {
            assert(path.take(k).skip(1) =~= rest.take(k - 1));
        }
        if let Some(next) = next {
            typed_paths(next, rest);
            if reaches_call(next, rest) {
                let k = choose|k: int|
                    0 <= k <= rest.len() && (#[trigger] rule_at(next, rest.take(k)) matches Some(r)
                        && r is Call);
                assert(rule_at(rule, path.take(k + 1)) == rule_at(next, rest.take(k)));
            }
            if reaches_call(rule, path) && !(rule is Call) {
                let k = choose|k: int|
                    0 <= k <= path.len() && (#[trigger] rule_at(rule, path.take(k)) matches Some(r)
                        && r is Call);
                assert(k > 0);
                assert(rule_at(next, rest.take(k - 1)) == rule_at(rule, path.take(k)));
            }
        } else if reaches_call(rule, path) {
            let k = choose|k: int|
                0 <= k <= path.len() && (#[trigger] rule_at(rule, path.take(k)) matches Some(r)
                    && r is Call);
            assert(k == 0);
        }
    }
}

} // verus!
