//! The types of fields, and whether a field may be missing.
use crate::maps::{items, set_get, set_len};
use crate::pattern::{PatKey, RustInputPat};
use crate::rule::{Rule, RuleSpec};
use crate::tokens::{fill, quote0, quote1, ugly, word, Src, SrcSpec};
use indexmap::IndexSet;
use vstd::prelude::*;
use vstd::slice::slice_subrange;

verus! {

pub const UNIT: &'static str = "( )";

pub const RULE_TY: &'static str = "$ < 'a , 'i , I >";

pub const SLICE_TY: &'static str = "[ $ ]";

/// The type of what is at the end of a path into a rule, where the path leads somewhere.
pub open spec fn type_at(rule: RuleSpec, path: Seq<usize>) -> Option<SrcSpec>
    decreases rule,
{
    match rule {
        RuleSpec::Empty | RuleSpec::Eat(_) => if path.len() == 0 {
            Some(fill(UNIT@, Seq::empty()))
        } else {
            None
        },
        RuleSpec::Call(name) => Some(fill(RULE_TY@, seq![word(name)])),
        RuleSpec::Concat(left, right) => if path.len() == 0 {
            Some(fill(UNIT@, Seq::empty()))
        } else if path[0] == 0 {
            type_at(*left, path.skip(1))
        } else if path[0] == 1 {
            type_at(*right, path.skip(1))
        } else {
            None
        },
        RuleSpec::Or(cases) => if path.len() > 0 && path[0] < cases.len() {
            type_at(cases[path[0] as int], path.skip(1))
        } else {
            None
        },
        RuleSpec::Opt(inner) => if path.len() > 0 && path[0] == 0 {
            type_at(*inner, path.skip(1))
        } else {
            None
        },
        RuleSpec::RepeatMany(elem, _) | RuleSpec::RepeatMore(elem, _) => if path.len() == 0 {
            match type_at(*elem, Seq::empty()) {
                Some(ty) => Some(fill(SLICE_TY@, seq![ty])),
                None => None,
            }
        } else {
            None
        },
    }
}

/// The type that the paths after the first `k` agree on with the first, which leads to a type
/// `ty`: the unit type where one leads to a type that is written otherwise.
pub open spec fn type_agreed(
    rule: RuleSpec,
    paths: Seq<Seq<usize>>,
    ty: SrcSpec,
    k: nat,
) -> Option<SrcSpec>
    decreases paths.len() - k,
{
    if k >= paths.len() {
        Some(ty)
    } else {
        match type_at(rule, paths[k as int]) {
            None => None,
            Some(other) => if ugly(other) != ugly(ty) {
                Some(fill(UNIT@, Seq::empty()))
            } else {
                type_agreed(rule, paths, ty, k + 1)
            },
        }
    }
}

/// The type of a field that several paths may lead to.
pub open spec fn pathset_type(rule: RuleSpec, paths: Seq<Seq<usize>>) -> Option<SrcSpec> {
    if paths.len() == 0 {
        None
    } else {
        match type_at(rule, paths[0]) {
            None => None,
            Some(ty) => type_agreed(rule, paths, ty, 1),
        }
    }
}

/// Whether what is at the end of a path may be missing: the path goes through a choice or an
/// option.
pub open spec fn path_refutable(rule: RuleSpec, path: Seq<usize>) -> bool
    decreases rule,
{
    match rule {
        RuleSpec::Or(_) | RuleSpec::Opt(_) => true,
        RuleSpec::Concat(left, right) => if path.len() == 0 {
            false
        } else if path[0] == 0 {
            path_refutable(*left, path.skip(1))
        } else {
            path_refutable(*right, path.skip(1))
        },
        _ => false,
    }
}

/// Whether a path stays inside of a rule as far as that decides whether what is at its end may be
/// missing.
pub open spec fn path_fits(rule: RuleSpec, path: Seq<usize>) -> bool
    decreases rule,
{
    match rule {
        RuleSpec::Concat(left, right) => path.len() == 0 || (path[0] == 0 && path_fits(
            *left,
            path.skip(1),
        )) || (path[0] == 1 && path_fits(*right, path.skip(1))),
        _ => true,
    }
}

/// Whether it can be told if a field may be missing: there is more than one path to it, or one
/// that stays inside of the rule.
pub open spec fn pathset_fits(rule: RuleSpec, paths: Seq<Seq<usize>>) -> bool {
    paths.len() > 1 || (paths.len() == 1 && path_fits(rule, paths[0]))
}

/// A path that leads to a type stays inside of the rule.
pub proof fn typed_path_fits(rule: RuleSpec, path: Seq<usize>)
    requires
        type_at(rule, path) is Some,
    ensures
        path_fits(rule, path),
    decreases rule,
{
    match rule {
        RuleSpec::Concat(left, right) => {
            if path.len() > 0 {
                if path[0] == 0 {
                    typed_path_fits(*left, path.skip(1));
                } else {
                    typed_path_fits(*right, path.skip(1));
                }
            }
        },
        _ => {},
    }
}

/// Whether a field may be missing: there is more than one path to it, or what is at the end of
/// the path may be missing.
pub open spec fn pathset_refutable(rule: RuleSpec, paths: Seq<Seq<usize>>) -> bool {
    paths.len() > 1 || (paths.len() == 1 && path_refutable(rule, paths[0]))
}

impl<Pat: RustInputPat + PatKey> Rule<Pat> {
    /// The type of a field that several paths may lead to, where they lead somewhere.
    pub fn try_field_pathset_type(&self, paths: &IndexSet<Vec<usize>>) -> (r: Option<Src>)
        ensures
            r is Some <==> pathset_type(self.model(), items(*paths)) is Some,
            r matches Some(ty) ==> pathset_type(self.model(), items(*paths)) == Some(ty@),
    {
        let first = match set_get(paths, 0) {
            Some(first) => first,
            None => {
                return None;
            },
        };
        let ty = match self.try_field_type(first.as_slice()) {
            Some(ty) => ty,
            None => {
                return None;
            },
        };
        let n = set_len(paths);
        if n > 1 {
            let ty_string = ty.to_ugly_string();
            let mut k: usize = 1;
            while k < n
                invariant
                    1 <= k <= n,
                    n == items(*paths).len(),
                    ty_string@ == ugly(ty@),
                    pathset_type(self.model(), items(*paths)) == type_agreed(
                        self.model(),
                        items(*paths),
                        ty@,
                        k as nat,
                    ),
                decreases n - k,
            {
                let path = set_get(paths, k).unwrap();
                match self.try_field_type(path.as_slice()) {
                    Some(other) => {
                        if other.to_ugly_string() != ty_string {
                            return Some(quote0(UNIT));
                        }
                    },
                    None => {
                        return None;
                    },
                }
                k += 1;
            }
        }
        Some(ty)
    }

    /// The type of a field that several paths may lead to.
    pub fn field_pathset_type(&self, paths: &IndexSet<Vec<usize>>) -> (r: Src)
        requires
            pathset_type(self.model(), items(*paths)) is Some,
        ensures
            pathset_type(self.model(), items(*paths)) == Some(r@),
    {
        self.try_field_pathset_type(paths).unwrap()
    }

    /// The type of what is at the end of a path into the rule, where the path leads somewhere.
    pub fn try_field_type(&self, path: &[usize]) -> (r: Option<Src>)
        ensures
            r is Some <==> type_at(self.model(), path@) is Some,
            r matches Some(ty) ==> type_at(self.model(), path@) == Some(ty@),
        decreases self,
    {
        match self {
            Rule::Empty | Rule::Eat(_) => {
                if path.len() == 0 {
                    Some(quote0(UNIT))
                } else {
                    None
                }
            },
            Rule::Call(name) => Some(quote1(RULE_TY, Src::ident(name.as_str()))),
            Rule::Concat(left, right) => {
                if path.len() == 0 {
                    return Some(quote0(UNIT));
                }
                let rest = slice_subrange(path, 1, path.len());
                assert(rest@ =~= path@.skip(1));
                if path[0] == 0 {
                    left.try_field_type(rest)
                } else if path[0] == 1 {
                    right.try_field_type(rest)
                } else {
                    None
                }
            },
            Rule::Or(cases) => {
                if path.len() == 0 || path[0] >= cases.len() {
                    return None;
                }
                let rest = slice_subrange(path, 1, path.len());
                assert(rest@ =~= path@.skip(1));
                cases[path[0]].try_field_type(rest)
            },
            Rule::Opt(inner) => {
                if path.len() == 0 || path[0] != 0 {
                    return None;
                }
                let rest = slice_subrange(path, 1, path.len());
                assert(rest@ =~= path@.skip(1));
                inner.try_field_type(rest)
            },
            Rule::RepeatMany(elem, _) | Rule::RepeatMore(elem, _) => {
                if path.len() != 0 {
                    return None;
                }
                assert(path@ =~= Seq::empty());
                match elem.try_field_type(path) {
                    Some(ty) => Some(quote1(SLICE_TY, ty)),
                    None => None,
                }
            },
        }
    }

    /// The type of what is at the end of a path into the rule.
    pub fn field_type(&self, path: &[usize]) -> (r: Src)
        requires
            type_at(self.model(), path@) is Some,
        ensures
            type_at(self.model(), path@) == Some(r@),
    {
        self.try_field_type(path).unwrap()
    }

    /// Whether a field may be missing.
    pub fn field_pathset_is_refutable(&self, paths: &IndexSet<Vec<usize>>) -> (r: bool)
        requires
            pathset_fits(self.model(), items(*paths)),
        ensures
            r == pathset_refutable(self.model(), items(*paths)),
    {
        if set_len(paths) > 1 {
            return true;
        }
        let path = set_get(paths, 0).unwrap();
        self.field_is_refutable(path.as_slice())
    }

    /// Whether what is at the end of a path may be missing.
    pub fn field_is_refutable(&self, path: &[usize]) -> (r: bool)
        requires
            path_fits(self.model(), path@),
        ensures
            r == path_refutable(self.model(), path@),
        decreases self,
    {
        match self {
            Rule::Or(_) | Rule::Opt(_) => true,
            Rule::Concat(left, right) => {
                if path.len() == 0 {
                    return false;
                }
                let rest = slice_subrange(path, 1, path.len());
                assert(rest@ =~= path@.skip(1));
                if path[0] == 0 {
                    left.field_is_refutable(rest)
                } else {
                    right.field_is_refutable(rest)
                }
            },
            _ => false,
        }
    }
}

} // verus!
