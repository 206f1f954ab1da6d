//! The rules of the checker, stated over the models: elaboration, supertrait
//! closure, and the verdict for a pair of impls.

use crate::concrete::{BoundTerm, TraitTerm, TypeTerm};
use crate::seqs::{collect, merge};
use crate::syntax::{BoundExpr, ImplDecl, ParamDecl, StructDecl, TraitDecl, TypeExpr};
use crate::unifier::{classes, shorter, unify_traits, unify_types};
use vstd::prelude::*;

verus! {

/// Why a program cannot be checked.
pub ghost enum ErrorModel {
    /// A name is neither a parameter in scope nor a declared struct.
    UndefinedSymbol { name: Seq<char> },
    /// A struct is applied to a number of arguments other than it declares.
    Arity { name: Seq<char>, expected: nat, found: nat },
    /// A trait whose supertraits are needed has no declaration.
    UndeclaredTrait { name: Seq<char> },
    /// A chain of supertraits is longer than the number of trait declarations,
    /// so one trait is reached from itself.
    CyclicSupertraits { name: Seq<char> },
}

/// The verdict for a pair of impls.
#[derive(Debug, Clone, Copy, PartialEq, Eq, Structural)]
pub enum ConflictCheckResult {
    /// The impls overlap: both may apply to one instantiation.
    Conflict,
    /// The impls are disjoint: no instantiation has both.
    NonConflict,
}

/// The declared structs and traits. Of two declarations with one name the
/// later counts.
pub ghost struct Table {
    pub structs: Seq<StructDecl>,
    pub traits: Seq<TraitDecl>,
}

/// The value that the last entry named `name` holds.
pub open spec fn find_last<V>(env: Seq<(Seq<char>, V)>, name: Seq<char>) -> Option<V>
    decreases env.len(),
{
    if env.len() == 0 {
        None
    } else if env.last().0 == name {
        Some(env.last().1)
    } else {
        find_last(env.drop_last(), name)
    }
}

/// The structs by name, each with the number of its parameters.
pub open spec fn struct_entries(structs: Seq<StructDecl>) -> Seq<(Seq<char>, nat)> {
    Seq::new(structs.len(), |i: int| (structs[i].name, structs[i].arity()))
}

/// The traits by name.
pub open spec fn trait_entries(traits: Seq<TraitDecl>) -> Seq<(Seq<char>, TraitDecl)> {
    Seq::new(traits.len(), |i: int| (traits[i].name, traits[i]))
}

/// The elaboration of a type expression. A name that the scope `env` holds is
/// the variable of that parameter. Any other name must be a declared struct,
/// applied to as many arguments as it declares; the arguments are elaborated
/// in turn.
pub open spec fn elaborate_type(t: Table, env: Seq<(Seq<char>, nat)>, te: TypeExpr) -> Result<
    TypeTerm,
    ErrorModel,
>
    decreases te,
{
    match find_last(env, te.name) {
        Some(id) => Ok(TypeTerm::Variable { id }),
        None => match find_last(struct_entries(t.structs), te.name) {
            None => Err(ErrorModel::UndefinedSymbol { name: te.name }),
            Some(arity) => if arity != te.args.len() {
                Err(ErrorModel::Arity { name: te.name, expected: arity, found: te.args.len() })
            } else {
                match collect(elaborate_each(t, env, te.args)) {
                    Ok(args) => Ok(TypeTerm::Constructor { name: te.name, args }),
                    Err(e) => Err(e),
                }
            },
        },
    }
}

/// The elaboration of each type expression of a list.
pub open spec fn elaborate_each(t: Table, env: Seq<(Seq<char>, nat)>, tes: Seq<TypeExpr>) -> Seq<
    Result<TypeTerm, ErrorModel>,
>
    decreases tes,
{
    Seq::new(
        tes.len(),
        |i: int|
            if 0 <= i < tes.len() {
                elaborate_type(t, env, tes[i])
            } else {
                arbitrary()
            },
    )
}

/// The elaboration of a trait expression: its arguments are elaborated; its
/// name is taken as it is.
pub open spec fn elaborate_trait(t: Table, env: Seq<(Seq<char>, nat)>, te: TypeExpr) -> Result<
    TraitTerm,
    ErrorModel,
> {
    match collect(elaborate_each(t, env, te.args)) {
        Ok(args) => Ok(TraitTerm { name: te.name, args }),
        Err(e) => Err(e),
    }
}

/// The elaboration of a list of trait expressions, as a set: each result once.
pub open spec fn elaborate_traits(t: Table, env: Seq<(Seq<char>, nat)>, tes: Seq<TypeExpr>) -> Result<
    Seq<TraitTerm>,
    ErrorModel,
> {
    match collect(Seq::new(tes.len(), |i: int| elaborate_trait(t, env, tes[i]))) {
        Ok(v) => Ok(merge(Seq::empty(), v)),
        Err(e) => Err(e),
    }
}

/// The elaboration of a bound: the positive part, then the negative part.
pub open spec fn elaborate_bound(t: Table, env: Seq<(Seq<char>, nat)>, b: BoundExpr) -> Result<
    BoundTerm,
    ErrorModel,
> {
    match elaborate_traits(t, env, b.positive) {
        Err(e) => Err(e),
        Ok(positive) => match elaborate_traits(t, env, b.negative) {
            Err(e) => Err(e),
            Ok(negative) => Ok(BoundTerm { positive, negative }),
        },
    }
}

/// The scope and the bounds after the first `k` parameters. The parameter at
/// position `i` gets the variable `base + i`. Its bound is elaborated in the
/// scope of the parameters before it, and then its name enters the scope.
pub open spec fn elaborate_params(t: Table, params: Seq<ParamDecl>, base: nat, k: nat) -> Result<
    (Seq<(Seq<char>, nat)>, Seq<Option<BoundTerm>>),
    ErrorModel,
>
    decreases k,
{
    if k == 0 {
        Ok((Seq::empty(), Seq::empty()))
    } else {
        match elaborate_params(t, params, base, (k - 1) as nat) {
            Err(e) => Err(e),
            Ok((env, bounds)) => {
                let p = params[k - 1];
                let entry = (p.name, (base + k - 1) as nat);
                match p.bound {
                    None => Ok((env.push(entry), bounds.push(None))),
                    Some(b) => match elaborate_bound(t, env, b) {
                        Err(e) => Err(e),
                        Ok(bt) => Ok((env.push(entry), bounds.push(Some(bt)))),
                    },
                }
            },
        }
    }
}

/// An elaborated impl: its trait, its target, and the bound of each of its
/// parameters, in the order of their variables.
pub ghost struct ImplTerm {
    pub trait_term: TraitTerm,
    pub target: TypeTerm,
    pub bounds: Seq<Option<BoundTerm>>,
}

/// The elaboration of an impl whose parameters get the variables from `base`
/// on: the parameters, then the trait, then the target.
pub open spec fn elaborate_impl(t: Table, im: ImplDecl, base: nat) -> Result<ImplTerm, ErrorModel> {
    match elaborate_params(t, im.params, base, im.params.len()) {
        Err(e) => Err(e),
        Ok((env, bounds)) => match elaborate_trait(t, env, im.trait_expr) {
            Err(e) => Err(e),
            Ok(trait_term) => match elaborate_type(t, env, im.target) {
                Err(e) => Err(e),
                Ok(target) => Ok(ImplTerm { trait_term, target, bounds }),
            },
        },
    }
}

/// The declared parameters of a trait with the arguments of an application,
/// pairwise as far as the shorter list reaches.
pub open spec fn param_args(params: Seq<ParamDecl>, args: Seq<TypeTerm>) -> Seq<
    (Seq<char>, TypeTerm),
> {
    Seq::new(
        if params.len() <= args.len() {
            params.len()
        } else {
            args.len()
        },
        |i: int| (params[i].name, args[i]),
    )
}

/// An argument of a supertrait entry: the argument of the application where
/// it names a parameter of the trait, else its elaboration in the empty scope.
pub open spec fn instantiate_arg(t: Table, env: Seq<(Seq<char>, TypeTerm)>, p: TypeExpr) -> Result<
    TypeTerm,
    ErrorModel,
> {
    match find_last(env, p.name) {
        Some(ct) => Ok(ct),
        None => elaborate_type(t, Seq::empty(), p),
    }
}

/// A supertrait entry with the parameters of the trait replaced.
pub open spec fn instantiate_trait(
    t: Table,
    env: Seq<(Seq<char>, TypeTerm)>,
    te: TypeExpr,
) -> Result<TraitTerm, ErrorModel> {
    match collect(Seq::new(te.args.len(), |j: int| instantiate_arg(t, env, te.args[j]))) {
        Ok(args) => Ok(TraitTerm { name: te.name, args }),
        Err(e) => Err(e),
    }
}

/// The direct supertraits of a trait application: the positive entries of the
/// supertrait bound that the trait declares, with its parameters replaced by
/// the arguments of the application.
pub open spec fn supertraits_of(t: Table, tr: TraitTerm) -> Result<Seq<TraitTerm>, ErrorModel> {
    match find_last(trait_entries(t.traits), tr.name) {
        None => Err(ErrorModel::UndeclaredTrait { name: tr.name }),
        Some(decl) => match decl.supertraits {
            None => Ok(Seq::empty()),
            Some(b) => collect(
                Seq::new(
                    b.positive.len(),
                    |i: int| instantiate_trait(t, param_args(decl.params, tr.args), b.positive[i]),
                ),
            ),
        },
    }
}

/// The trait application with all that it obliges to: itself, and the closure
/// of each of its direct supertraits. `fuel` bounds the length of a chain of
/// supertraits.
pub open spec fn closure_fuel(t: Table, tr: TraitTerm, fuel: nat) -> Result<
    Set<TraitTerm>,
    ErrorModel,
>
    decreases fuel, 0nat, 0nat,
{
    match supertraits_of(t, tr) {
        Err(e) => Err(e),
        Ok(sups) => if sups.len() == 0 {
            Ok(set![tr])
        } else if fuel == 0 {
            Err(ErrorModel::CyclicSupertraits { name: tr.name })
        } else {
            match closure_all(t, sups, (fuel - 1) as nat, sups.len()) {
                Err(e) => Err(e),
                Ok(u) => Ok(u.insert(tr)),
            }
        },
    }
}

/// The union of the closures of the first `k` trait applications of `trs`, or
/// the first error in their order.
pub open spec fn closure_all(t: Table, trs: Seq<TraitTerm>, fuel: nat, k: nat) -> Result<
    Set<TraitTerm>,
    ErrorModel,
>
    decreases fuel, 1nat, k,
{
    if k == 0 {
        Ok(Set::empty())
    } else {
        match closure_all(t, trs, fuel, (k - 1) as nat) {
            Err(e) => Err(e),
            Ok(u) => match closure_fuel(t, trs[k - 1], fuel) {
                Err(e) => Err(e),
                Ok(c) => Ok(u.union(c)),
            },
        }
    }
}

/// The reflexive and transitive closure of the supertraits of a trait
/// application. A chain of supertraits longer than the number of trait
/// declarations comes by one trait twice and is an error: no amount of fuel
/// would give a closure then.
pub open spec fn closure(t: Table, tr: TraitTerm) -> Result<Set<TraitTerm>, ErrorModel> {
    closure_fuel(t, tr, t.traits.len())
}

/// All that the positive part of a bound obliges to: the union of the
/// closures of its traits.
pub open spec fn obligations(t: Table, b: BoundTerm) -> Result<Set<TraitTerm>, ErrorModel> {
    closure_all(t, b.positive, t.traits.len(), b.positive.len())
}

/// Some trait is both in `a` and among `negative`.
pub open spec fn contradicts(a: Set<TraitTerm>, negative: Seq<TraitTerm>) -> bool {
    exists|i: int| 0 <= i < negative.len() && a.contains(#[trigger] negative[i])
}

/// The verdict for one bound: `NonConflict` when no type can meet it, because
/// it forbids a trait that its positive part obliges to.
pub open spec fn bound_verdict(t: Table, b: BoundTerm) -> Result<ConflictCheckResult, ErrorModel> {
    match obligations(t, b) {
        Err(e) => Err(e),
        Ok(a) => if contradicts(a, b.negative) {
            Ok(ConflictCheckResult::NonConflict)
        } else {
            Ok(ConflictCheckResult::Conflict)
        },
    }
}

/// The join of the bounds of the first `k` members, or `None` when one of
/// them has no bound.
pub open spec fn joined_bound(bounds: Seq<Option<BoundTerm>>, members: Seq<nat>, k: nat) -> Option<
    BoundTerm,
>
    decreases k,
{
    if k == 0 {
        Some(BoundTerm::empty())
    } else {
        match joined_bound(bounds, members, (k - 1) as nat) {
            None => None,
            Some(b) => {
                let m = members[k - 1] as int;
                if m < bounds.len() && bounds[m] is Some {
                    Some(b.join(bounds[m]->Some_0))
                } else {
                    None
                }
            },
        }
    }
}

/// The verdict for one class of linked variables. A class that stands for a
/// constructor, or that has a member without a bound, gives nothing to
/// contradict. Any other class is judged by the join of its members' bounds.
pub open spec fn class_verdict(
    t: Table,
    bounds: Seq<Option<BoundTerm>>,
    class: (Option<TypeTerm>, Seq<nat>),
) -> Result<ConflictCheckResult, ErrorModel> {
    if class.0 is Some {
        Ok(ConflictCheckResult::Conflict)
    } else {
        match joined_bound(bounds, class.1, class.1.len()) {
            None => Ok(ConflictCheckResult::Conflict),
            Some(b) => bound_verdict(t, b),
        }
    }
}

/// The verdict over the first `k` classes, taken in order: the first class
/// that fails gives the error, the first class that no type can meet gives
/// `NonConflict`, and classes after it are not looked at.
pub open spec fn classes_verdict(
    t: Table,
    bounds: Seq<Option<BoundTerm>>,
    cs: Seq<(Option<TypeTerm>, Seq<nat>)>,
    k: nat,
) -> Result<ConflictCheckResult, ErrorModel>
    decreases k,
{
    if k == 0 {
        Ok(ConflictCheckResult::Conflict)
    } else {
        match classes_verdict(t, bounds, cs, (k - 1) as nat) {
            Ok(ConflictCheckResult::Conflict) => class_verdict(t, bounds, cs[k - 1]),
            other => other,
        }
    }
}

/// The traits of the two impls unify, and then their targets do.
pub open spec fn heads_unify(c1: ImplTerm, c2: ImplTerm) -> bool {
    let (s1, ok1) = unify_traits(Seq::empty(), c1.trait_term, c2.trait_term);
    ok1 && unify_types(s1, c1.target, c2.target).1
}

/// The verdict for two elaborated impls: `NonConflict` when their traits or
/// their targets do not unify; else the verdict over the classes of the
/// variables that unification has linked.
pub open spec fn terms_verdict(t: Table, c1: ImplTerm, c2: ImplTerm) -> Result<
    ConflictCheckResult,
    ErrorModel,
> {
    let bounds = c1.bounds + c2.bounds;
    let (s1, ok1) = unify_traits(Seq::empty(), c1.trait_term, c2.trait_term);
    if !ok1 {
        Ok(ConflictCheckResult::NonConflict)
    } else {
        let (s2, ok2) = unify_types(s1, c1.target, c2.target);
        if !ok2 {
            Ok(ConflictCheckResult::NonConflict)
        } else {
            let cs = classes(s2);
            classes_verdict(t, bounds, cs, cs.len())
        }
    }
}

/// The verdict for a pair of impls. The first is elaborated with variables
/// from 0 on, the second with the variables after those of the first.
pub open spec fn check_pair(t: Table, i1: ImplDecl, i2: ImplDecl) -> Result<
    ConflictCheckResult,
    ErrorModel,
> {
    match elaborate_impl(t, i1, 0) {
        Err(e) => Err(e),
        Ok(c1) => match elaborate_impl(t, i2, i1.params.len()) {
            Err(e) => Err(e),
            Ok(c2) => terms_verdict(t, c1, c2),
        },
    }
}

/// After `k` parameters the scope holds `k` names and there are `k` bounds.
pub proof fn lemma_params_len(t: Table, params: Seq<ParamDecl>, base: nat, k: nat)
    ensures
        elaborate_params(t, params, base, k) matches Ok(r) ==> r.0.len() == k && r.1.len() == k,
    decreases k,
{
    if k > 0 {
        lemma_params_len(t, params, base, (k - 1) as nat);
    }
}

/// Once a parameter fails, the parameters after it are not looked at.
pub proof fn lemma_params_err(t: Table, params: Seq<ParamDecl>, base: nat, k: nat, n: nat)
    requires
        k <= n,
        elaborate_params(t, params, base, k) is Err,
    ensures
        elaborate_params(t, params, base, n) == elaborate_params(t, params, base, k),
    decreases n - k,
{
    if k < n {
        lemma_params_err(t, params, base, k, (n - 1) as nat);
    }
}

/// Once a closure fails, the traits after it are not looked at.
pub proof fn lemma_closure_err(t: Table, trs: Seq<TraitTerm>, fuel: nat, k: nat, n: nat)
    requires
        k <= n,
        closure_all(t, trs, fuel, k) is Err,
    ensures
        closure_all(t, trs, fuel, n) == closure_all(t, trs, fuel, k),
    decreases n - k,
{
    if k < n {
        lemma_closure_err(t, trs, fuel, k, (n - 1) as nat);
    }
}

/// Once a member has no bound, the class has no joined bound.
pub proof fn lemma_joined_none(bounds: Seq<Option<BoundTerm>>, members: Seq<nat>, k: nat, n: nat)
    requires
        k <= n,
        joined_bound(bounds, members, k) is None,
    ensures
        joined_bound(bounds, members, n) is None,
    decreases n - k,
{
    if k < n {
        lemma_joined_none(bounds, members, k, (n - 1) as nat);
    }
}

/// Once a class fails or proves the impls disjoint, the classes after it are
/// not looked at.
pub proof fn lemma_verdict_sticky(
    t: Table,
    bounds: Seq<Option<BoundTerm>>,
    cs: Seq<(Option<TypeTerm>, Seq<nat>)>,
    k: nat,
    n: nat,
)
    requires
        k <= n,
        classes_verdict(t, bounds, cs, k) != Ok::<ConflictCheckResult, ErrorModel>(
            ConflictCheckResult::Conflict,
        ),
    ensures
        classes_verdict(t, bounds, cs, n) == classes_verdict(t, bounds, cs, k),
    decreases n - k,
{
    if k < n {
        lemma_verdict_sticky(t, bounds, cs, k, (n - 1) as nat);
    }
}

} // verus!
