//! What holds of how generated code prints nodes: which of them are printed as values of a type.
use crate::generate::{all_nodes, anon_node, anon_ty, named_node, GrammarSpec};
use crate::node::{kind_src, KindSpec};
use crate::paths::is_part_at;
use crate::reflect::{any_arms, any_debug_src, NodeSpec};
use crate::rule::RuleSpec;
use crate::tokens::{fill, repeated, string, word, SrcSpec};
use vstd::prelude::*;

verus! {

/// Parts that follow each other are each at the end of those before it.
pub proof fn repeated_has(n: nat, f: spec_fn(int) -> SrcSpec, i: int)
    requires
        0 <= i < n,
    ensures
        is_part_at(repeated(n, f), f(i), repeated(i as nat, f).len() as int),
    decreases n,
{
    let now = repeated(n, f);
    let at = repeated(i as nat, f).len() as int;
    if i == n - 1 {
        assert(now.subrange(at, at + f(i).len()) =~= f(i));
    } else {
        let before = repeated((n - 1) as nat, f);
        repeated_has((n - 1) as nat, f, i);
        assert(now.subrange(at, at + f(i).len()) =~= before.subrange(at, at + f(i).len()));
    }
}

/// What a rule repeats, whether none or more times or one or more times.
pub open spec fn repeats(rule: RuleSpec) -> Option<RuleSpec> {
    match rule {
        RuleSpec::RepeatMany(elem, _) => Some(*elem),
        RuleSpec::RepeatMore(elem, _) => Some(*elem),
        _ => None,
    }
}

/// The nodes of each repetition of a rule with a name are printed as a slice of the type of that
/// rule, those of each repetition of a pattern as a slice of the unit type, and no others of a rule
/// without a name have a type.
pub proof fn repetitions_have_types(rule: RuleSpec)
    ensures
        repeats(rule) matches Some(RuleSpec::Call(name)) ==> anon_ty(rule) == Some(
            fill("[ $ < '_ , '_ , _ > ]"@, seq![word(name)]),
        ),
        repeats(rule) matches Some(RuleSpec::Eat(_)) ==> anon_ty(rule) == Some(
            fill("[ ( ) ]"@, Seq::empty()),
        ),
        anon_ty(rule) is Some <==> (repeats(rule) matches Some(elem) && (elem is Call
            || elem is Eat)),
{
}

/// The arm for a kind of nodes that is printed as a value of a type.
pub open spec fn typed_arm(kind: KindSpec, ty: SrcSpec) -> SrcSpec {
    fill(
        "$ => write ! ( f , $ , Handle :: < _ , $ > {
    node : self . node ,
    forest : self . forest ,
    _marker : PhantomData ,
} ) ,"@,
        seq![kind_src(kind), string("{:?}"@), ty],
    )
}

/// Whether some arms have one for a kind of nodes with a type.
pub open spec fn has_arm(arms: SrcSpec, kind: KindSpec, ty: SrcSpec) -> bool {
    exists|at: int| #[trigger] is_part_at(arms, typed_arm(kind, ty), at)
}

/// The code that prints a handle of any type, with the arms for the kinds that have a type.
pub open spec fn prints_any(arms: SrcSpec) -> SrcSpec {
    fill(
        "impl < I : gll :: input :: Input > fmt :: Debug
    for Handle < '_ , '_ , I , Any >
{
    fn fmt ( & self , f : & mut fmt :: Formatter < '_ > ) -> fmt :: Result {
        match self . node . kind {
            $
            _ => write ! ( f , $ , Handle :: < _ , ( ) > {
                node : self . node ,
                forest : self . forest ,
                _marker : PhantomData ,
            } ) ,
        }
    }
}"@,
        seq![arms, string("{:?}"@)],
    )
}

/// A handle of any type prints nodes of each kind that has a type as values of it: those of each
/// rule with a name by the type for the rule, and those of each repetition of a rule with a name by
/// the slice of the type for that rule. All other nodes are printed without a type: there are as
/// many arms as kinds with a type.
pub proof fn any_prints_by_type(g: GrammarSpec, table: Seq<RuleSpec>) -> (arms: SrcSpec)
    ensures
        any_debug_src(all_nodes(g, table)) == prints_any(arms),
        forall|i: int|
            0 <= i < g.len() ==> has_arm(
                arms,
                KindSpec::NamedRule((#[trigger] g[i]).0),
                fill("$ < '_ , '_ , _ >"@, seq![word(g[i].0)]),
            ),
        forall|i: int|
            0 <= i < table.len() ==> (repeats(#[trigger] table[i]) matches Some(
                RuleSpec::Call(name),
            ) ==> has_arm(
                arms,
                KindSpec::Anon(i as nat),
                fill("[ $ < '_ , '_ , _ > ]"@, seq![word(name)]),
            )),
        forall|i: int|
            0 <= i < table.len() ==> (repeats(#[trigger] table[i]) matches Some(RuleSpec::Eat(_))
                ==> has_arm(arms, KindSpec::Anon(i as nat), fill("[ ( ) ]"@, Seq::empty()))),
        arms.len() == arms_len(all_nodes(g, table), all_nodes(g, table).len()),
{
    let nodes = all_nodes(g, table);
    let arms = repeated(nodes.len(), any_arms(nodes));
    arms_are_counted(nodes, nodes.len());
    assert forall|i: int| 0 <= i < g.len() implies has_arm(
        arms,
        KindSpec::NamedRule((#[trigger] g[i]).0),
        fill("$ < '_ , '_ , _ >"@, seq![word(g[i].0)]),
    ) by {
        assert(nodes[i] == named_node(g[i].0, g[i].1, table));
        arm_is_there(nodes, i);
    }
    assert forall|i: int|
        0 <= i < table.len() implies (anon_ty(#[trigger] table[i]) matches Some(ty)
        ==> has_arm(arms, KindSpec::Anon(i as nat), ty)) by {
        assert(nodes[g.len() + i] == anon_node(i, table));
        arm_is_there(nodes, g.len() + i);
    }
    arms
}

proof fn arm_is_there(nodes: Seq<NodeSpec>, i: int)
    requires
        0 <= i < nodes.len(),
    ensures
        nodes[i].ty matches Some(ty) ==> has_arm(
            repeated(nodes.len(), any_arms(nodes)),
            nodes[i].kind,
            ty,
        ),
{
    let f = any_arms(nodes);
    if let Some(ty) = nodes[i].ty {
        repeated_has(nodes.len(), f, i);
        assert(f(i) == typed_arm(nodes[i].kind, ty));
        assert(is_part_at(
            repeated(nodes.len(), f),
            typed_arm(nodes[i].kind, ty),
            repeated(i as nat, f).len() as int,
        ));
    }
}

/// How many tokens the arms for the first `n` kinds have, where only those with a type have one.
pub open spec fn arms_len(nodes: Seq<NodeSpec>, n: nat) -> nat
    decreases n,
{
    if n == 0 {
        0
    } else {
        arms_len(nodes, (n - 1) as nat) + match nodes[n - 1].ty {
            Some(ty) => typed_arm(nodes[n - 1].kind, ty).len(),
            None => 0,
        }
    }
}

proof fn arms_are_counted(nodes: Seq<NodeSpec>, n: nat)
    ensures
        repeated(n, any_arms(nodes)).len() == arms_len(nodes, n),
    decreases n,
{
    if n > 0 {
        arms_are_counted(nodes, (n - 1) as nat);
    }
}

} // verus!
