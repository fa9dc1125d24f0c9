//! What holds of paths into rules: the shape of a rule says, at the place that a path leads to,
//! whether what is there may be missing.
use crate::fields::{case_fields, rests, FieldsSpec};
use crate::node::{kind_src, numbered_name};
use crate::rule::RuleSpec;
use crate::table::kind_of;
use crate::tokens::{fill, filled, holes, is_blank, number, split, word, words, SrcSpec};
use crate::traverse::{traverse_cases, traverse_shape, ALWAYS, CASE, CASES, MAYBE, OPTION, PAIR};
use crate::types::{path_refutable, type_at};
use vstd::prelude::*;

verus! {

/// The rule at the end of a path into a rule, where the path leads to one.
pub open spec fn rule_at(rule: RuleSpec, path: Seq<usize>) -> Option<RuleSpec>
    decreases path.len(),
{
    if path.len() == 0 {
        Some(rule)
    } else {
        match rule {
            RuleSpec::Concat(left, right) => if path[0] == 0 {
                rule_at(*left, path.skip(1))
            } else if path[0] == 1 {
                rule_at(*right, path.skip(1))
            } else {
                None
            },
            RuleSpec::Or(cases) => if path[0] < cases.len() {
                rule_at(cases[path[0] as int], path.skip(1))
            } else {
                None
            },
            RuleSpec::Opt(inner) => if path[0] == 0 {
                rule_at(*inner, path.skip(1))
            } else {
                None
            },
            _ => None,
        }
    }
}

/// Whether the code `whole` has the code `part` at place `k`.
pub open spec fn is_part_at(whole: SrcSpec, part: SrcSpec, k: int) -> bool {
    0 <= k && k + part.len() <= whole.len() && whole.subrange(k, k + part.len()) == part
}

pub proof fn part_of_part(a: SrcSpec, b: SrcSpec, c: SrcSpec, i: int, j: int)
    requires
        is_part_at(a, b, i),
        is_part_at(b, c, j),
    ensures
        is_part_at(a, c, i + j),
{
    assert(a.subrange(i + j, i + j + c.len()) =~= b.subrange(j, j + c.len()));
}

pub proof fn part_of_sum(a: SrcSpec, b: SrcSpec, c: SrcSpec)
    ensures
        is_part_at(a + b + c, b, a.len() as int),
{
    assert((a + b + c).subrange(a.len() as int, (a.len() + b.len()) as int) =~= b);
}

/// The first `n` words, with a blank after each.
pub open spec fn spaced(ws: Seq<Seq<char>>, n: nat) -> Seq<char>
    decreases n,
{
    if n == 0 {
        Seq::empty()
    } else {
        (spaced(ws, (n - 1) as nat) + ws[n - 1]).push(' ')
    }
}

/// The words of a text with one more character.
proof fn split_push(text: Seq<char>, c: char)
    ensures
        split(text.push(c)) == ({
            let (done, open) = split(text);
            if !is_blank(c) {
                (done, open.push(c))
            } else if open.len() == 0 {
                (done, open)
            } else {
                (done.push(open), Seq::empty())
            }
        }),
{
    assert(text.push(c).drop_last() =~= text);
}

/// A word after a text that ends in a blank is the one that no blank has ended.
proof fn split_word(text: Seq<char>, w: Seq<char>)
    requires
        split(text).1.len() == 0,
        forall|i: int| 0 <= i < w.len() ==> !is_blank(#[trigger] w[i]),
    ensures
        split(text + w) == (split(text).0, w),
    decreases w.len(),
{
    if w.len() == 0 {
        assert(text + w =~= text);
        assert(split(text).1 =~= w);
    } else {
        split_word(text, w.drop_last());
        split_push(text + w.drop_last(), w.last());
        assert((text + w.drop_last()).push(w.last()) =~= text + w);
        assert(w.drop_last().push(w.last()) =~= w);
    }
}

/// Words with a blank after each are the words of their text.
proof fn split_spaced(ws: Seq<Seq<char>>, n: nat)
    requires
        n <= ws.len(),
        forall|i: int| 0 <= i < n ==> is_word(#[trigger] ws[i]),
    ensures
        split(spaced(ws, n)) == (ws.take(n as int), Seq::<char>::empty()),
    decreases n,
{
    if n == 0 {
        assert(ws.take(0) =~= Seq::empty());
    } else {
        let before = spaced(ws, (n - 1) as nat);
        split_spaced(ws, (n - 1) as nat);
        assert(is_word(ws[n - 1]));
        split_word(before, ws[n - 1]);
        split_push(before + ws[n - 1], ' ');
        assert(ws.take(n as int) =~= ws.take(n - 1).push(ws[n - 1]));
    }
}

/// Whether some text is a word: there is something in it, and no blank.
pub open spec fn is_word(w: Seq<char>) -> bool {
    w.len() > 0 && forall|i: int| 0 <= i < w.len() ==> !is_blank(#[trigger] w[i])
}

/// A template that is some words with a blank between any two has these words.
pub proof fn words_spaced(template: Seq<char>, ws: Seq<Seq<char>>)
    requires
        template.push(' ') == spaced(ws, ws.len()),
        forall|i: int| 0 <= i < ws.len() ==> is_word(#[trigger] ws[i]),
    ensures
        words(template) == ws,
{
    split_spaced(ws, ws.len());
    split_push(template, ' ');
    assert(ws.take(ws.len() as int) =~= ws);
}

/// What stands in the shape of a pair.
proof fn pair_layout(left: SrcSpec, right: SrcSpec)
    ensures
        fill(PAIR@, seq![left, right]) == word(seq!['(']) + left + word(seq![',']) + right + word(
            seq![')'],
        ),
{
    let ws = seq![seq!['('], seq!['$'], seq![','], seq!['$'], seq![')']];
    reveal_strlit("( $ , $ )");
    reveal_with_fuel(spaced, 6);
    reveal_with_fuel(filled, 6);
    reveal_with_fuel(holes, 6);
    assert(PAIR@.push(' ') =~= spaced(ws, 5));
    words_spaced(PAIR@, ws);
    assert(ws[0][0] == '(' && ws[2][0] == ',' && ws[4][0] == ')');
    assert(fill(PAIR@, seq![left, right]) =~= word(ws[0]) + left + word(ws[2]) + right + word(
        ws[4],
    ));
}

/// What stands in the shape of a choice.
proof fn cases_layout(cases: SrcSpec)
    ensures
        fill(CASES@, seq![cases]) == word(seq!['{']) + cases + word(seq!['}']),
{
    let ws = seq![seq!['{'], seq!['$'], seq!['}']];
    reveal_strlit("{ $ }");
    reveal_with_fuel(spaced, 4);
    reveal_with_fuel(filled, 4);
    reveal_with_fuel(holes, 4);
    assert(CASES@.push(' ') =~= spaced(ws, 3));
    words_spaced(CASES@, ws);
    assert(ws[0][0] == '{' && ws[2][0] == '}');
    assert(fill(CASES@, seq![cases]) =~= word(ws[0]) + cases + word(ws[2]));
}

/// What stands in the shape of an option.
proof fn option_layout(inner: SrcSpec)
    ensures
        fill(OPTION@, seq![inner]) == word(seq!['[']) + inner + word(seq![']']),
{
    let ws = seq![seq!['['], seq!['$'], seq![']']];
    reveal_strlit("[ $ ]");
    reveal_with_fuel(spaced, 4);
    reveal_with_fuel(filled, 4);
    reveal_with_fuel(holes, 4);
    assert(OPTION@.push(' ') =~= spaced(ws, 3));
    words_spaced(OPTION@, ws);
    assert(ws[0][0] == '[' && ws[2][0] == ']');
    assert(fill(OPTION@, seq![inner]) =~= word(ws[0]) + inner + word(ws[2]));
}

/// What stands in the shape of a case.
proof fn case_layout(i: SrcSpec, name: SrcSpec, kind: SrcSpec, shape: SrcSpec)
    ensures
        fill(CASE@, seq![i, name, kind, shape]) == i + name + word(seq![':']) + kind + word(
            seq!['=', '>'],
        ) + shape + word(seq![',']),
{
    let ws = seq![
        seq!['$'],
        seq!['$'],
        seq![':'],
        seq!['$'],
        seq!['=', '>'],
        seq!['$'],
        seq![','],
    ];
    reveal_strlit("$ $ : $ => $ ,");
    reveal_with_fuel(spaced, 8);
    reveal_with_fuel(filled, 8);
    reveal_with_fuel(holes, 8);
    assert(CASE@.push(' ') =~= spaced(ws, 7));
    words_spaced(CASE@, ws);
    assert(ws[2][0] == ':' && ws[4][0] == '=' && ws[6][0] == ',');
    assert(fill(CASE@, seq![i, name, kind, shape]) =~= i + name + word(ws[2]) + kind + word(ws[4])
        + shape + word(ws[6]));
}

/// Where in the shapes of cases that of the case `i` is: after the shapes of the cases before it,
/// its number, its variable, a colon, its kind of nodes and an arrow.
pub open spec fn case_place(cases: Seq<RuleSpec>, i: int, table: Seq<RuleSpec>) -> int {
    let kind = kind_src(kind_of(cases[i], table));
    traverse_cases(cases, i as nat, table).len() + 3 + kind.len() as int + 1
}

/// Where in the shape of a rule that of the rule at the end of a path is. Inside of a pair, it is
/// after the first bracket, or after that, the shape of the first of the pair, and a comma; inside
/// of a choice or an option, it is after the first bracket.
pub open spec fn shape_place(
    rule: RuleSpec,
    path: Seq<usize>,
    refutable: bool,
    table: Seq<RuleSpec>,
) -> int
    decreases path.len(),
{
    if path.len() == 0 {
        0
    } else {
        let rest = path.skip(1);
        match rule {
            RuleSpec::Concat(left, right) => if path[0] == 0 {
                1 + shape_place(*left, rest, refutable, table)
            } else {
                1 + traverse_shape(*left, refutable, table).len() + 1 + shape_place(
                    *right,
                    rest,
                    refutable,
                    table,
                )
            },
            RuleSpec::Or(cases) => 1 + case_place(cases, path[0] as int, table) + shape_place(
                cases[path[0] as int],
                rest,
                true,
                table,
            ),
            RuleSpec::Opt(inner) => 1 + shape_place(*inner, rest, true, table),
            _ => 0,
        }
    }
}

/// The shapes of cases have the shape of each case at its place.
proof fn cases_have(cases: Seq<RuleSpec>, n: nat, i: int, table: Seq<RuleSpec>)
    requires
        0 <= i < n <= cases.len(),
    ensures
        is_part_at(
            traverse_cases(cases, n, table),
            traverse_shape(cases[i], true, table),
            case_place(cases, i, table),
        ),
    decreases n,
{
    let before = traverse_cases(cases, (n - 1) as nat, table);
    let all = traverse_cases(cases, n, table);
    let shape = traverse_shape(cases[i], true, table);
    let at = case_place(cases, i, table);
    if i < n - 1 {
        cases_have(cases, (n - 1) as nat, i, table);
        assert(all.subrange(at, at + shape.len()) =~= before.subrange(at, at + shape.len()));
    } else {
        let number = number(i as nat);
        let name = word(numbered_name(i as nat));
        let kind = kind_src(kind_of(cases[i], table));
        let start = number + name + word(seq![':']) + kind + word(seq!['=', '>']);
        case_layout(number, name, kind, shape);
        part_of_sum(before + start, shape, word(seq![',']));
        assert(all =~= before + start + shape + word(seq![',']));
        assert((before + start).len() == at);
    }
}

/// The shape of a rule has, at the place that a path leads to, the shape of the rule at the end of
/// the path, as that of nodes that may be missing exactly where the path goes through a choice or
/// an option.
pub proof fn shape_at_path(
    rule: RuleSpec,
    path: Seq<usize>,
    refutable: bool,
    table: Seq<RuleSpec>,
)
    requires
        rule_at(rule, path) is Some,
    ensures
        is_part_at(
            traverse_shape(rule, refutable, table),
            traverse_shape(
                rule_at(rule, path)->Some_0,
                refutable || path_refutable(rule, path),
                table,
            ),
            shape_place(rule, path, refutable, table),
        ),
    decreases path.len(),
{
    let whole = traverse_shape(rule, refutable, table);
    if path.len() == 0 {
        assert(whole.subrange(0, whole.len() as int) =~= whole);
    } else {
        let rest = path.skip(1);
        let end = traverse_shape(
            rule_at(rule, path)->Some_0,
            refutable || path_refutable(rule, path),
            table,
        );
        match rule {
            RuleSpec::Concat(left, right) => {
                let first = traverse_shape(*left, refutable, table);
                let second = traverse_shape(*right, refutable, table);
                let open = word(seq!['(']);
                let comma = word(seq![',']);
                let close = word(seq![')']);
                pair_layout(first, second);
                if path[0] == 0 {
                    part_of_sum(open, first, comma + second + close);
                    assert(whole =~= open + first + (comma + second + close));
                    shape_at_path(*left, rest, refutable, table);
                    let at = shape_place(*left, rest, refutable, table);
                    part_of_part(whole, first, end, 1, at);
                } else {
                    part_of_sum(open + first + comma, second, close);
                    shape_at_path(*right, rest, refutable, table);
                    let at = shape_place(*right, rest, refutable, table);
                    part_of_part(whole, second, end, 2 + first.len() as int, at);
                }
            },
            RuleSpec::Or(cases) => {
                let i = path[0] as int;
                let all = traverse_cases(cases, cases.len(), table);
                let shape = traverse_shape(cases[i], true, table);
                cases_layout(all);
                part_of_sum(word(seq!['{']), all, word(seq!['}']));
                cases_have(cases, cases.len(), i, table);
                part_of_part(whole, all, shape, 1, case_place(cases, i, table));
                shape_at_path(cases[i], rest, true, table);
                let at = shape_place(cases[i], rest, true, table);
                part_of_part(whole, shape, end, 1 + case_place(cases, i, table), at);
            },
            RuleSpec::Opt(inner) => {
                let shape = traverse_shape(*inner, true, table);
                option_layout(shape);
                part_of_sum(word(seq!['[']), shape, word(seq![']']));
                shape_at_path(*inner, rest, true, table);
                let at = shape_place(*inner, rest, true, table);
                part_of_part(whole, shape, end, 1, at);
            },
            _ => {},
        }
    }
}

/// Whether the shape of a rule is a single mark.
pub open spec fn is_mark(rule: RuleSpec) -> bool {
    !(rule is Concat) && !(rule is Or) && !(rule is Opt)
}

/// In the shape of a rule, the mark at the place that a path leads to is a question mark exactly
/// where the path goes through a choice or an option. Else it is an underscore.
pub proof fn mark_at_path(rule: RuleSpec, path: Seq<usize>, table: Seq<RuleSpec>)
    requires
        rule_at(rule, path) matches Some(end) && is_mark(end),
    ensures
        is_part_at(
            traverse_shape(rule, false, table),
            if path_refutable(rule, path) {
                word(seq!['?'])
            } else {
                word(seq!['_'])
            },
            shape_place(rule, path, false, table),
        ),
{
    shape_at_path(rule, path, false, table);
    reveal_strlit("?");
    reveal_strlit("_");
    let mark = if path_refutable(rule, path) {
        MAYBE@
    } else {
        ALWAYS@
    };
    let ws = seq![mark];
    reveal_with_fuel(spaced, 2);
    reveal_with_fuel(filled, 2);
    assert(MAYBE@ =~= seq!['?']);
    assert(ALWAYS@ =~= seq!['_']);
    assert(mark.push(' ') =~= spaced(ws, 1));
    words_spaced(mark, ws);
    assert(mark[0] != '$');
    assert(fill(mark, Seq::empty()) =~= word(mark));
}

/// The type at the end of a path into a rule is that of the rule at the end of the path.
pub proof fn type_at_path(rule: RuleSpec, path: Seq<usize>)
    requires
        rule_at(rule, path) is Some,
    ensures
        type_at(rule, path) == type_at(rule_at(rule, path)->Some_0, Seq::empty()),
    decreases path.len(),
{
    if path.len() == 0 {
        assert(path =~= Seq::empty());
    } else {
        let rest = path.skip(1);
        match rule {
            RuleSpec::Concat(left, right) => {
                if path[0] == 0 {
                    type_at_path(*left, rest);
                } else {
                    type_at_path(*right, rest);
                }
            },
            RuleSpec::Or(cases) => {
                type_at_path(cases[path[0] as int], rest);
            },
            RuleSpec::Opt(inner) => {
                type_at_path(*inner, rest);
            },
            _ => {},
        }
    }
}

/// The rests of paths through a case are what comes after the case in the paths.
proof fn rests_exact(paths: Seq<Seq<usize>>, case: usize, rest: Seq<usize>)
    ensures
        rests(paths, case as int).contains(rest) <==> rest.len() > 0 && paths.contains(
            seq![case] + rest,
        ),
    decreases paths.len(),
{
    let path = seq![case] + rest;
    if paths.len() > 0 {
        let before = paths.drop_last();
        let last = paths[paths.len() - 1];
        let now = rests(paths, case as int);
        let earlier = rests(before, case as int);
        rests_exact(before, case, rest);
        if before.contains(path) {
            assert(paths[before.index_of(path)] == path);
        }
        if paths.contains(path) && !before.contains(path) {
            let i = paths.index_of(path);
            if i < before.len() {
                assert(before[i] == path);
            }
            assert(last == path);
        }
        if last.len() > 1 && last[0] == case {
            assert(now == earlier.push(last.skip(1)));
            if earlier.contains(rest) {
                assert(now[earlier.index_of(rest)] == rest);
            }
            if last == path {
                assert(last.skip(1) =~= rest);
                assert(now[earlier.len() as int] == rest);
            }
            if now.contains(rest) && !earlier.contains(rest) {
                let i = now.index_of(rest);
                if i < earlier.len() {
                    assert(earlier[i] == rest);
                }
                assert(last.skip(1) == rest);
                assert(last =~= path);
                assert(paths[paths.len() - 1] == path);
            }
        }
    }
}

/// A variant has exactly the fields that a path leads to through its case, with what comes after
/// the case in these paths.
pub proof fn case_fields_exact(
    fs: FieldsSpec,
    case: usize,
    n: nat,
    name: Seq<char>,
    rest: Seq<usize>,
)
    requires
        n <= fs.len(),
    ensures
        (exists|j: int|
            0 <= j < case_fields(fs, case as int, n).len() && (#[trigger] case_fields(
                fs,
                case as int,
                n,
            )[j]).0 == name && case_fields(fs, case as int, n)[j].1.contains(rest)) <==> (exists|
            i: int,
        |
            0 <= i < n && (#[trigger] fs[i]).0 == name && rest.len() > 0 && fs[i].1.contains(
                seq![case] + rest,
            )),
    decreases n,
{
    if n > 0 {
        let before = case_fields(fs, case as int, (n - 1) as nat);
        let now = case_fields(fs, case as int, n);
        let last = fs[n - 1];
        let inside = rests(last.1, case as int);
        case_fields_exact(fs, case, (n - 1) as nat, name, rest);
        rests_exact(last.1, case, rest);
        if exists|j: int|
            0 <= j < now.len() && (#[trigger] now[j]).0 == name && now[j].1.contains(rest) {
            let j = choose|j: int|
                0 <= j < now.len() && (#[trigger] now[j]).0 == name && now[j].1.contains(rest);
            if j < before.len() {
                assert(before[j] == now[j]);
            } else {
                assert(fs[n - 1].0 == name);
            }
        }
        if exists|i: int|
            0 <= i < n && (#[trigger] fs[i]).0 == name && rest.len() > 0 && fs[i].1.contains(
                seq![case] + rest,
            ) {
            let i = choose|i: int|
                0 <= i < n && (#[trigger] fs[i]).0 == name && rest.len() > 0 && fs[i].1.contains(
                    seq![case] + rest,
                );
            if i < n - 1 {
                let j = choose|j: int|
                    0 <= j < before.len() && (#[trigger] before[j]).0 == name
                        && before[j].1.contains(rest);
                assert(now[j] == before[j]);
            } else {
                assert(inside.contains(rest));
                assert(now[before.len() as int] == (name, inside));
            }
        }
    }
}

} // verus!
