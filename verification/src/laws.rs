//! What holds of every program: laws of the verdict, proved from the rules.

use crate::concrete::{BoundTerm, TraitTerm, TypeTerm};
use crate::renaming::{
    bound_renamed, holds_renamed, lemma_closure_renamed, lemma_elaborate_impl_renamed,
    lemma_rename_trait_back, rename_trait, renamed_from,
};
use crate::rules::{
    ConflictCheckResult, ErrorModel, ImplTerm, Table, bound_verdict, check_pair, class_verdict,
    classes_verdict, closure_all, closure_fuel, contradicts, elaborate_each, elaborate_impl,
    elaborate_params, elaborate_type, find_last, heads_unify, joined_bound, lemma_joined_none,
    lemma_params_len, obligations, terms_verdict,
};
use crate::seqs::{collect, lemma_collect};
use crate::symmetry::{
    aligned, injective, lemma_class_swapped, lemma_classes_aligned, lemma_swap, lemma_swap_upto,
    linked, related, rename,
};
use crate::syntax::{ImplDecl, ParamDecl, TypeExpr};
use crate::unifier::{
    below, classes, classes_ok, keys_distinct, lemma_classes, lemma_settled_resolve,
    lemma_unify_halts, lemma_unify_mono, lemma_unify_traits, lemma_unify_traits_halts,
    lemma_unify_types, lemma_upto_mono, links_forward, lookup, resolve, resolve_each, resolve_fuel,
    root, settled, shorter, unify_fuel, unify_traits, unify_traits_fuel, unify_types, unify_upto,
    var,
};
use vstd::prelude::*;

verus! {

/// A constructor resolves to a constructor of the same name, if it resolves.
pub proof fn lemma_resolve_constructor(s: Seq<(nat, TypeTerm)>, t: TypeTerm, fuel: nat)
    requires
        t is Constructor,
    ensures
        resolve_fuel(s, t, fuel) matches Some(r) ==> r is Constructor && r->Constructor_name
            == t->Constructor_name,
{
    let rs = resolve_each(s, t->Constructor_args, fuel);
}

/// Constructors of different names do not unify, under any substitution.
pub proof fn lemma_names_clash(s: Seq<(nat, TypeTerm)>, a: TypeTerm, b: TypeTerm)
    requires
        a is Constructor,
        b is Constructor,
        a->Constructor_name != b->Constructor_name,
    ensures
        unify_types(s, a, b) == (s, false),
{
    lemma_resolve_constructor(s, a, s.len());
    lemma_resolve_constructor(s, b, s.len());
    assert(unify_fuel(s, a, b, 0) == Some((s, false)));
    lemma_unify_types(s, a, b, 0);
}

/// Disjoint targets: two impls whose targets are structs of different names
/// are disjoint, whatever their parameters and bounds are.
pub proof fn law_disjoint_targets(t: Table, i1: ImplDecl, i2: ImplDecl)
    requires
        elaborate_impl(t, i1, 0) is Ok,
        elaborate_impl(t, i2, i1.params.len()) is Ok,
        elaborate_impl(t, i1, 0)->Ok_0.target is Constructor,
        elaborate_impl(t, i2, i1.params.len())->Ok_0.target is Constructor,
        elaborate_impl(t, i1, 0)->Ok_0.target->Constructor_name != elaborate_impl(
            t,
            i2,
            i1.params.len(),
        )->Ok_0.target->Constructor_name,
    ensures
        check_pair(t, i1, i2) == Ok::<ConflictCheckResult, ErrorModel>(
            ConflictCheckResult::NonConflict,
        ),
{
    let c1 = elaborate_impl(t, i1, 0)->Ok_0;
    let c2 = elaborate_impl(t, i2, i1.params.len())->Ok_0;
    let (s1, ok1) = unify_traits(Seq::empty(), c1.trait_term, c2.trait_term);
    lemma_names_clash(s1, c1.target, c2.target);
}

/// A type without variables has no bound variable.
pub proof fn lemma_ground_settled(s: Seq<(nat, TypeTerm)>, t: TypeTerm)
    requires
        below(t, 0),
    ensures
        settled(s, t),
    decreases t,
{
    match t {
        TypeTerm::Variable { id } => {},
        TypeTerm::Constructor { name, args } => {
            assert forall|i: int| 0 <= i < args.len() implies settled(s, #[trigger] args[i]) by {
                assert(below(args[i], 0));
                lemma_ground_settled(s, args[i]);
            }
        },
    }
}

/// Fuel with which a type without variables unifies with itself and leaves
/// the substitution as it is.
pub proof fn ground_self_fuel(s: Seq<(nat, TypeTerm)>, a: TypeTerm) -> (f: nat)
    requires
        below(a, 0),
    ensures
        unify_fuel(s, a, a, f) == Some((s, true)),
    decreases a, 0nat,
{
    lemma_ground_settled(s, a);
    lemma_settled_resolve(s, a, s.len());
    match a {
        TypeTerm::Variable { id } => 0,
        TypeTerm::Constructor { name, args } => {
            let g = ground_self_fuel_list(s, args, args.len());
            g + 1
        },
    }
}

/// Fuel with which the first `k` types of a list without variables unify with
/// themselves.
pub proof fn ground_self_fuel_list(s: Seq<(nat, TypeTerm)>, xs: Seq<TypeTerm>, k: nat) -> (f: nat)
    requires
        k <= xs.len(),
        forall|i: int| 0 <= i < xs.len() ==> below(#[trigger] xs[i], 0),
    ensures
        unify_upto(s, xs, xs, k, f) == Some((s, true)),
    decreases xs, k,
{
    if k == 0 {
        0
    } else {
        let g1 = ground_self_fuel_list(s, xs, (k - 1) as nat);
        let g2 = ground_self_fuel(s, xs[k - 1]);
        let g = if g1 <= g2 {
            g2
        } else {
            g1
        };
        lemma_upto_mono(s, xs, xs, (k - 1) as nat, g1, g);
        lemma_unify_mono(s, xs[k - 1], xs[k - 1], g2, g);
        g
    }
}

/// In the empty scope elaboration yields a type without variables.
pub proof fn lemma_elaborate_ground(t: Table, te: TypeExpr)
    ensures
        elaborate_type(t, Seq::empty(), te) matches Ok(x) ==> below(x, 0),
    decreases te,
{
    let env = Seq::<(Seq<char>, nat)>::empty();
    if let Ok(x) = elaborate_type(t, env, te) {
        assert(find_last(env, te.name) is None);
        lemma_elaborate_ground_list(t, te.args);
        assert(x is Constructor);
        let args = x->Constructor_args;
        assert(forall|i: int| 0 <= i < args.len() ==> below(#[trigger] args[i], 0));
    }
}

/// In the empty scope elaboration of a list yields types without variables.
pub proof fn lemma_elaborate_ground_list(t: Table, tes: Seq<TypeExpr>)
    ensures
        collect(elaborate_each(t, Seq::empty(), tes)) matches Ok(v) ==> forall|i: int|
            0 <= i < v.len() ==> below(#[trigger] v[i], 0),
    decreases tes,
{
    let env = Seq::<(Seq<char>, nat)>::empty();
    let rs = elaborate_each(t, env, tes);
    lemma_collect(rs);
    if let Ok(v) = collect(rs) {
        assert forall|i: int| 0 <= i < v.len() implies below(#[trigger] v[i], 0) by {
            lemma_elaborate_ground(t, tes[i]);
            assert(rs[i] == Ok::<TypeTerm, ErrorModel>(v[i]));
        }
    }
}

/// Reflexive duplication: an impl without generic parameters overlaps with a
/// second impl that is written the same.
pub proof fn law_reflexive_duplication(t: Table, i: ImplDecl)
    requires
        i.params.len() == 0,
        elaborate_impl(t, i, 0) is Ok,
    ensures
        check_pair(t, i, i) == Ok::<ConflictCheckResult, ErrorModel>(
            ConflictCheckResult::Conflict,
        ),
{
    let c = elaborate_impl(t, i, 0)->Ok_0;
    let e = Seq::<(nat, TypeTerm)>::empty();
    let env = Seq::<(Seq<char>, nat)>::empty();
    assert(elaborate_params(t, i.params, 0, 0) == Ok::<
        (Seq<(Seq<char>, nat)>, Seq<Option<BoundTerm>>),
        ErrorModel,
    >((env, Seq::empty())));
    lemma_elaborate_ground_list(t, i.trait_expr.args);
    lemma_elaborate_ground(t, i.target);
    let xs = c.trait_term.args;
    assert(forall|k: int| 0 <= k < xs.len() ==> below(#[trigger] xs[k], 0));
    let g = ground_self_fuel_list(e, xs, xs.len());
    assert(unify_traits_fuel(e, c.trait_term, c.trait_term, g) == Some((e, true)));
    lemma_unify_traits(e, c.trait_term, c.trait_term, g);
    let h = ground_self_fuel(e, c.target);
    lemma_unify_types(e, c.target, c.target, h);
    assert(classes(e) =~= Seq::empty());
    assert(terms_verdict(t, c, c) == Ok::<ConflictCheckResult, ErrorModel>(
        ConflictCheckResult::Conflict,
    ));
}

/// Parameters without a bound elaborate without error, to variables without
/// a bound.
pub proof fn lemma_params_unbounded(t: Table, params: Seq<ParamDecl>, base: nat, k: nat)
    requires
        k <= params.len(),
        forall|i: int| 0 <= i < params.len() ==> (#[trigger] params[i]).bound is None,
    ensures
        elaborate_params(t, params, base, k) is Ok,
        forall|i: int|
            0 <= i < k ==> (#[trigger] elaborate_params(t, params, base, k)->Ok_0.1[i]) is None,
    decreases k,
{
    if k > 0 {
        lemma_params_unbounded(t, params, base, (k - 1) as nat);
        lemma_params_len(t, params, base, (k - 1) as nat);
        assert(params[k - 1].bound is None);
    }
}

/// Where no variable has a bound, no class proves anything.
pub proof fn lemma_unbounded_verdict(
    t: Table,
    bounds: Seq<Option<BoundTerm>>,
    s: Seq<(nat, TypeTerm)>,
    cs: Seq<(Option<TypeTerm>, Seq<nat>)>,
    k: nat,
)
    requires
        classes_ok(s, cs),
        k <= cs.len(),
        forall|i: int| 0 <= i < bounds.len() ==> (#[trigger] bounds[i]) is None,
    ensures
        classes_verdict(t, bounds, cs, k) == Ok::<ConflictCheckResult, ErrorModel>(
            ConflictCheckResult::Conflict,
        ),
    decreases k,
{
    if k > 0 {
        lemma_unbounded_verdict(t, bounds, s, cs, (k - 1) as nat);
        let c = cs[k - 1];
        assert(c.1.len() > 0);
        if c.0 is None {
            assert(joined_bound(bounds, c.1, 0) == Some(BoundTerm::empty()));
            assert(joined_bound(bounds, c.1, 1) is None);
            lemma_joined_none(bounds, c.1, 1, c.1.len());
        }
    }
}

/// No-bound impls never contradict: two impls none of whose parameters has a
/// bound overlap whenever their traits and their targets unify.
pub proof fn law_unbounded_overlap(t: Table, i1: ImplDecl, i2: ImplDecl)
    requires
        forall|k: int| 0 <= k < i1.params.len() ==> (#[trigger] i1.params[k]).bound is None,
        forall|k: int| 0 <= k < i2.params.len() ==> (#[trigger] i2.params[k]).bound is None,
        elaborate_impl(t, i1, 0) is Ok,
        elaborate_impl(t, i2, i1.params.len()) is Ok,
        heads_unify(elaborate_impl(t, i1, 0)->Ok_0, elaborate_impl(t, i2, i1.params.len())->Ok_0),
    ensures
        check_pair(t, i1, i2) == Ok::<ConflictCheckResult, ErrorModel>(
            ConflictCheckResult::Conflict,
        ),
{
    let c1 = elaborate_impl(t, i1, 0)->Ok_0;
    let c2 = elaborate_impl(t, i2, i1.params.len())->Ok_0;
    lemma_params_unbounded(t, i1.params, 0, i1.params.len());
    lemma_params_unbounded(t, i2.params, i1.params.len(), i2.params.len());
    lemma_params_len(t, i1.params, 0, i1.params.len());
    lemma_params_len(t, i2.params, i1.params.len(), i2.params.len());
    let bounds = c1.bounds + c2.bounds;
    assert(c1.bounds == elaborate_params(t, i1.params, 0, i1.params.len())->Ok_0.1);
    assert(c2.bounds == elaborate_params(t, i2.params, i1.params.len(), i2.params.len())->Ok_0.1);
    assert forall|i: int| 0 <= i < bounds.len() implies (#[trigger] bounds[i]) is None by {
        if i < c1.bounds.len() {
            assert(bounds[i] == c1.bounds[i]);
        } else {
            assert(bounds[i] == c2.bounds[i - c1.bounds.len()]);
        }
    }
    let (s1, ok1) = unify_traits(Seq::empty(), c1.trait_term, c2.trait_term);
    let (s2, ok2) = unify_types(s1, c1.target, c2.target);
    let cs = classes(s2);
    lemma_classes(s2, s2.len());
    lemma_unbounded_verdict(t, bounds, s2, cs, cs.len());
}

/// The variable `m` has a bound.
pub open spec fn bounded(bounds: Seq<Option<BoundTerm>>, m: nat) -> bool {
    m < bounds.len() && bounds[m as int] is Some
}

/// The members of a class have a joined bound exactly when each of them has
/// a bound; it holds a trait exactly when the bound of some member does.
pub proof fn lemma_joined(bounds: Seq<Option<BoundTerm>>, members: Seq<nat>, k: nat)
    requires
        k <= members.len(),
    ensures
        joined_bound(bounds, members, k) is Some <==> (forall|i: int|
            0 <= i < k ==> bounded(bounds, #[trigger] members[i])),
        joined_bound(bounds, members, k) matches Some(b) ==> (forall|x: TraitTerm| #[trigger]
            b.positive.contains(x) <==> exists|i: int|
                0 <= i < k && bounded(bounds, #[trigger] members[i]) && bounds[members[i] as int]->Some_0.positive.contains(
                    x,
                )) && (forall|x: TraitTerm| #[trigger]
            b.negative.contains(x) <==> exists|i: int|
                0 <= i < k && bounded(bounds, #[trigger] members[i]) && bounds[members[i] as int]->Some_0.negative.contains(
                    x,
                )),
    decreases k,
{
    if k == 0 {
        let e = BoundTerm::empty();
        assert forall|x: TraitTerm| !e.positive.contains(x) && !e.negative.contains(x) by {}
    } else {
        let j = (k - 1) as nat;
        lemma_joined(bounds, members, j);
        if let Some(b0) = joined_bound(bounds, members, j) {
            let m = members[k - 1];
            if bounded(bounds, m) {
                let c = bounds[m as int]->Some_0;
                let b = b0.join(c);
                b0.lemma_join(c);
                assert forall|x: TraitTerm| #[trigger]
                    b.positive.contains(x) <==> exists|i: int|
                        0 <= i < k && bounded(bounds, #[trigger] members[i]) && bounds[members[i] as int]->Some_0.positive.contains(
                            x,
                        ) by {
                    assert(b.positive.contains(x) <==> b.positive.to_set().contains(x));
                    assert(b0.positive.contains(x) <==> b0.positive.to_set().contains(x));
                    assert(c.positive.contains(x) <==> c.positive.to_set().contains(x));
                    if b0.positive.contains(x) {
                        let i = choose|i: int|
                            0 <= i < j && bounded(bounds, #[trigger] members[i]) && bounds[members[i] as int]->Some_0.positive.contains(
                                x,
                            );
                        assert(0 <= i < k);
                    }
                    if c.positive.contains(x) {
                        assert(bounded(bounds, members[k - 1]));
                    }
                }
                assert forall|x: TraitTerm| #[trigger]
                    b.negative.contains(x) <==> exists|i: int|
                        0 <= i < k && bounded(bounds, #[trigger] members[i]) && bounds[members[i] as int]->Some_0.negative.contains(
                            x,
                        ) by {
                    assert(b.negative.contains(x) <==> b.negative.to_set().contains(x));
                    assert(b0.negative.contains(x) <==> b0.negative.to_set().contains(x));
                    assert(c.negative.contains(x) <==> c.negative.to_set().contains(x));
                    if b0.negative.contains(x) {
                        let i = choose|i: int|
                            0 <= i < j && bounded(bounds, #[trigger] members[i]) && bounds[members[i] as int]->Some_0.negative.contains(
                                x,
                            );
                        assert(0 <= i < k);
                    }
                    if c.negative.contains(x) {
                        assert(bounded(bounds, members[k - 1]));
                    }
                }
            } else {
                assert(!bounded(bounds, members[k - 1]));
            }
        } else {
            let i = choose|i: int| 0 <= i < j && !bounded(bounds, #[trigger] members[i]);
            assert(0 <= i < k);
        }
    }
}

/// The closures of a list are computed exactly when each one is; together
/// they hold a trait exactly when one of them does.
pub proof fn lemma_closure_all(t: Table, trs: Seq<TraitTerm>, fuel: nat, k: nat)
    requires
        k <= trs.len(),
    ensures
        closure_all(t, trs, fuel, k) is Ok <==> (forall|i: int|
            0 <= i < k ==> (#[trigger] closure_fuel(t, trs[i], fuel)) is Ok),
        closure_all(t, trs, fuel, k) matches Ok(a) ==> (forall|y: TraitTerm| #[trigger]
            a.contains(y) <==> exists|i: int|
                0 <= i < k && (#[trigger] closure_fuel(t, trs[i], fuel))->Ok_0.contains(y)),
    decreases k,
{
    if k > 0 {
        let j = (k - 1) as nat;
        lemma_closure_all(t, trs, fuel, j);
        match closure_all(t, trs, fuel, j) {
            Ok(u) => {
                if let Ok(c) = closure_fuel(t, trs[k - 1], fuel) {
                    let a = u.union(c);
                    assert forall|y: TraitTerm| #[trigger]
                        a.contains(y) <==> exists|i: int|
                            0 <= i < k && (#[trigger] closure_fuel(
                                t,
                                trs[i],
                                fuel,
                            ))->Ok_0.contains(y) by {
                        if u.contains(y) {
                            let i = choose|i: int|
                                0 <= i < j && (#[trigger] closure_fuel(
                                    t,
                                    trs[i],
                                    fuel,
                                ))->Ok_0.contains(y);
                            assert(0 <= i < k);
                        }
                        if c.contains(y) {
                            assert(closure_fuel(t, trs[k - 1], fuel)->Ok_0.contains(y));
                        }
                    }
                }
            },
            Err(e) => {
                let i = choose|i: int|
                    0 <= i < j && !((#[trigger] closure_fuel(t, trs[i], fuel)) is Ok);
                assert(0 <= i < k);
            },
        }
    }
}

/// The two results are the same verdict, or both are errors.
pub open spec fn same_verdict(
    a: Result<ConflictCheckResult, ErrorModel>,
    b: Result<ConflictCheckResult, ErrorModel>,
) -> bool {
    match a {
        Ok(v) => b == Ok::<ConflictCheckResult, ErrorModel>(v),
        Err(_) => b is Err,
    }
}

/// Two bounds of which one holds the renamed form of what the other holds
/// get the same verdict, or fail both.
pub proof fn lemma_bound_verdict_renamed(
    t: Table,
    b1: BoundTerm,
    b2: BoundTerm,
    p: spec_fn(nat) -> nat,
    pinv: spec_fn(nat) -> nat,
)
    requires
        forall|x: nat| #[trigger] pinv(p(x)) == x,
        holds_renamed(p, b1.positive, b2.positive),
        holds_renamed(p, b1.negative, b2.negative),
    ensures
        same_verdict(bound_verdict(t, b1), bound_verdict(t, b2)),
{
    let depth = t.traits.len();
    lemma_closure_all(t, b1.positive, depth, b1.positive.len());
    lemma_closure_all(t, b2.positive, depth, b2.positive.len());
    if obligations(t, b1) is Ok {
        assert forall|i: int| 0 <= i < b2.positive.len() implies (#[trigger] closure_fuel(
            t,
            b2.positive[i],
            depth,
        )) is Ok by {
            assert(renamed_from(p, b1.positive, b2.positive[i]));
            let k = choose|k: int|
                0 <= k < b1.positive.len() && b2.positive[i] == rename_trait(
                    p,
                    #[trigger] b1.positive[k],
                );
            assert(closure_fuel(t, b1.positive[k], depth) is Ok);
            lemma_closure_renamed(t, p, b1.positive[k], depth);
        }
    }
    if obligations(t, b2) is Ok {
        assert forall|i: int| 0 <= i < b1.positive.len() implies (#[trigger] closure_fuel(
            t,
            b1.positive[i],
            depth,
        )) is Ok by {
            let x = b1.positive[i];
            assert(b2.positive.contains(rename_trait(p, b1.positive[i])));
            let k = choose|k: int|
                0 <= k < b2.positive.len() && b2.positive[k] == rename_trait(p, x);
            assert(closure_fuel(t, b2.positive[k], depth) is Ok);
            lemma_closure_renamed(t, pinv, rename_trait(p, x), depth);
            lemma_rename_trait_back(p, pinv, x);
        }
    }
    if obligations(t, b1) is Ok && obligations(t, b2) is Ok {
        let a1 = obligations(t, b1)->Ok_0;
        let a2 = obligations(t, b2)->Ok_0;
        if contradicts(a1, b1.negative) {
            let i = choose|i: int|
                0 <= i < b1.negative.len() && a1.contains(#[trigger] b1.negative[i]);
            let x = b1.negative[i];
            assert(b2.negative.contains(rename_trait(p, b1.negative[i])));
            let z = choose|z: int|
                0 <= z < b2.negative.len() && b2.negative[z] == rename_trait(p, x);
            let qi = choose|qi: int|
                0 <= qi < b1.positive.len() && (#[trigger] closure_fuel(
                    t,
                    b1.positive[qi],
                    depth,
                ))->Ok_0.contains(x);
            let q = b1.positive[qi];
            assert(b2.positive.contains(rename_trait(p, b1.positive[qi])));
            let q2 = choose|q2: int|
                0 <= q2 < b2.positive.len() && b2.positive[q2] == rename_trait(p, q);
            assert(closure_fuel(t, b1.positive[qi], depth) is Ok);
            lemma_closure_renamed(t, p, q, depth);
            assert(closure_fuel(t, b2.positive[q2], depth)->Ok_0.contains(rename_trait(p, x)));
            assert(a2.contains(b2.negative[z]));
            assert(contradicts(a2, b2.negative));
        }
        if contradicts(a2, b2.negative) {
            let i = choose|i: int|
                0 <= i < b2.negative.len() && a2.contains(#[trigger] b2.negative[i]);
            let y = b2.negative[i];
            assert(renamed_from(p, b1.negative, b2.negative[i]));
            let k = choose|k: int|
                0 <= k < b1.negative.len() && y == rename_trait(p, #[trigger] b1.negative[k]);
            let x = b1.negative[k];
            let qi = choose|qi: int|
                0 <= qi < b2.positive.len() && (#[trigger] closure_fuel(
                    t,
                    b2.positive[qi],
                    depth,
                ))->Ok_0.contains(y);
            let q2 = b2.positive[qi];
            assert(renamed_from(p, b1.positive, b2.positive[qi]));
            let kq = choose|kq: int|
                0 <= kq < b1.positive.len() && q2 == rename_trait(p, #[trigger] b1.positive[kq]);
            let q = b1.positive[kq];
            assert(closure_fuel(t, b2.positive[qi], depth) is Ok);
            lemma_closure_renamed(t, pinv, q2, depth);
            lemma_rename_trait_back(p, pinv, q);
            lemma_rename_trait_back(p, pinv, x);
            assert(closure_fuel(t, b1.positive[kq], depth)->Ok_0.contains(x));
            assert(a1.contains(b1.negative[k]));
            assert(contradicts(a1, b1.negative));
        }
    }
}

/// Two classes whose members correspond get the same verdict, or fail
/// both, where the bounds of corresponding variables correspond.
pub proof fn lemma_class_verdict_renamed(
    t: Table,
    bounds: Seq<Option<BoundTerm>>,
    bounds2: Seq<Option<BoundTerm>>,
    ms: Seq<nat>,
    ms2: Seq<nat>,
    p: spec_fn(nat) -> nat,
    pinv: spec_fn(nat) -> nat,
)
    requires
        forall|x: nat| #[trigger] pinv(p(x)) == x,
        forall|y: nat| #[trigger] p(pinv(y)) == y,
        forall|m: nat| ms.contains(m) ==> #[trigger] ms2.contains(p(m)),
        forall|m2: nat| #[trigger] ms2.contains(m2) ==> ms.contains(pinv(m2)),
        forall|m: nat|
            (bounded(bounds, m) <==> bounded(bounds2, #[trigger] p(m))) && (bounded(bounds, m)
                ==> bound_renamed(p, bounds[m as int], bounds2[p(m) as int])),
    ensures
        same_verdict(
            class_verdict(t, bounds, (None, ms)),
            class_verdict(t, bounds2, (None, ms2)),
        ),
{
    lemma_joined(bounds, ms, ms.len());
    lemma_joined(bounds2, ms2, ms2.len());
    let j1 = joined_bound(bounds, ms, ms.len());
    let j2 = joined_bound(bounds2, ms2, ms2.len());
    if j1 is Some {
        assert forall|i: int| 0 <= i < ms2.len() implies bounded(bounds2, #[trigger] ms2[i]) by {
            let m2 = ms2[i];
            assert(ms2.contains(m2));
            assert(ms.contains(pinv(m2)));
            let k = choose|k: int| 0 <= k < ms.len() && ms[k] == pinv(m2);
            assert(bounded(bounds, ms[k]));
            assert(p(pinv(m2)) == m2);
            assert(bounded(bounds2, p(pinv(m2))));
        }
    }
    if j2 is Some {
        assert forall|i: int| 0 <= i < ms.len() implies bounded(bounds, #[trigger] ms[i]) by {
            let m = ms[i];
            assert(ms.contains(m));
            assert(ms2.contains(p(m)));
            let k = choose|k: int| 0 <= k < ms2.len() && ms2[k] == p(m);
            assert(bounded(bounds2, ms2[k]));
        }
    }
    if j1 is Some && j2 is Some {
        let b1 = j1->Some_0;
        let b2 = j2->Some_0;
        assert forall|i: int| 0 <= i < b1.positive.len() implies b2.positive.contains(
            rename_trait(p, #[trigger] b1.positive[i]),
        ) by {
            let x = b1.positive[i];
            assert(b1.positive.contains(x));
            let mi = choose|mi: int|
                0 <= mi < ms.len() && bounded(bounds, #[trigger] ms[mi]) && bounds[ms[mi] as int]->Some_0.positive.contains(
                    x,
                );
            let m = ms[mi];
            assert(ms.contains(m));
            assert(ms2.contains(p(m)));
            assert(bounded(bounds2, p(m)));
            let xi = choose|xi: int|
                0 <= xi < bounds[m as int]->Some_0.positive.len() && bounds[m as int]->Some_0.positive[xi]
                    == x;
            assert(bounds2[p(m) as int]->Some_0.positive.contains(
                rename_trait(p, bounds[m as int]->Some_0.positive[xi]),
            ));
            let k2 = choose|k2: int| 0 <= k2 < ms2.len() && ms2[k2] == p(m);
            assert(bounded(bounds2, ms2[k2]));
        }
        assert forall|i: int| 0 <= i < b1.negative.len() implies b2.negative.contains(
            rename_trait(p, #[trigger] b1.negative[i]),
        ) by {
            let x = b1.negative[i];
            assert(b1.negative.contains(x));
            let mi = choose|mi: int|
                0 <= mi < ms.len() && bounded(bounds, #[trigger] ms[mi]) && bounds[ms[mi] as int]->Some_0.negative.contains(
                    x,
                );
            let m = ms[mi];
            assert(ms.contains(m));
            assert(ms2.contains(p(m)));
            assert(bounded(bounds2, p(m)));
            let xi = choose|xi: int|
                0 <= xi < bounds[m as int]->Some_0.negative.len() && bounds[m as int]->Some_0.negative[xi]
                    == x;
            assert(bounds2[p(m) as int]->Some_0.negative.contains(
                rename_trait(p, bounds[m as int]->Some_0.negative[xi]),
            ));
            let k2 = choose|k2: int| 0 <= k2 < ms2.len() && ms2[k2] == p(m);
            assert(bounded(bounds2, ms2[k2]));
        }
        assert forall|i: int| 0 <= i < b2.positive.len() implies renamed_from(
            p,
            b1.positive,
            #[trigger] b2.positive[i],
        ) by {
            let y = b2.positive[i];
            assert(b2.positive.contains(y));
            let mi = choose|mi: int|
                0 <= mi < ms2.len() && bounded(bounds2, #[trigger] ms2[mi]) && bounds2[ms2[mi] as int]->Some_0.positive.contains(
                    y,
                );
            let m2 = ms2[mi];
            assert(ms2.contains(m2));
            let m = pinv(m2);
            assert(ms.contains(m));
            assert(p(pinv(m2)) == m2);
            assert(bounded(bounds, m) <==> bounded(bounds2, p(m)));
            let yi = choose|yi: int|
                0 <= yi < bounds2[m2 as int]->Some_0.positive.len() && bounds2[m2 as int]->Some_0.positive[yi]
                    == y;
            assert(renamed_from(
                p,
                bounds[m as int]->Some_0.positive,
                bounds2[m2 as int]->Some_0.positive[yi],
            ));
            let k = choose|k: int|
                0 <= k < bounds[m as int]->Some_0.positive.len() && y == rename_trait(
                    p,
                    #[trigger] bounds[m as int]->Some_0.positive[k],
                );
            let x = bounds[m as int]->Some_0.positive[k];
            assert(bounds[m as int]->Some_0.positive.contains(x));
            let km = choose|km: int| 0 <= km < ms.len() && ms[km] == m;
            assert(bounded(bounds, ms[km]));
            assert(b1.positive.contains(x));
            let kx = choose|kx: int| 0 <= kx < b1.positive.len() && b1.positive[kx] == x;
            assert(y == rename_trait(p, b1.positive[kx]));
        }
        assert forall|i: int| 0 <= i < b2.negative.len() implies renamed_from(
            p,
            b1.negative,
            #[trigger] b2.negative[i],
        ) by {
            let y = b2.negative[i];
            assert(b2.negative.contains(y));
            let mi = choose|mi: int|
                0 <= mi < ms2.len() && bounded(bounds2, #[trigger] ms2[mi]) && bounds2[ms2[mi] as int]->Some_0.negative.contains(
                    y,
                );
            let m2 = ms2[mi];
            assert(ms2.contains(m2));
            let m = pinv(m2);
            assert(ms.contains(m));
            assert(p(pinv(m2)) == m2);
            assert(bounded(bounds, m) <==> bounded(bounds2, p(m)));
            let yi = choose|yi: int|
                0 <= yi < bounds2[m2 as int]->Some_0.negative.len() && bounds2[m2 as int]->Some_0.negative[yi]
                    == y;
            assert(renamed_from(
                p,
                bounds[m as int]->Some_0.negative,
                bounds2[m2 as int]->Some_0.negative[yi],
            ));
            let k = choose|k: int|
                0 <= k < bounds[m as int]->Some_0.negative.len() && y == rename_trait(
                    p,
                    #[trigger] bounds[m as int]->Some_0.negative[k],
                );
            let x = bounds[m as int]->Some_0.negative[k];
            assert(bounds[m as int]->Some_0.negative.contains(x));
            let km = choose|km: int| 0 <= km < ms.len() && ms[km] == m;
            assert(bounded(bounds, ms[km]));
            assert(b1.negative.contains(x));
            let kx = choose|kx: int| 0 <= kx < b1.negative.len() && b1.negative[kx] == x;
            assert(y == rename_trait(p, b1.negative[kx]));
        }
        lemma_bound_verdict_renamed(t, b1, b2, p, pinv);
    }
}

/// Lists of classes that get the same verdicts class by class get the same
/// verdict.
pub proof fn lemma_classes_verdict_same(
    t: Table,
    bounds: Seq<Option<BoundTerm>>,
    bounds2: Seq<Option<BoundTerm>>,
    cs: Seq<(Option<TypeTerm>, Seq<nat>)>,
    cs2: Seq<(Option<TypeTerm>, Seq<nat>)>,
    k: nat,
)
    requires
        k <= cs.len(),
        k <= cs2.len(),
        forall|j: int|
            0 <= j < k ==> same_verdict(
                class_verdict(t, bounds, #[trigger] cs[j]),
                class_verdict(t, bounds2, cs2[j]),
            ),
    ensures
        same_verdict(classes_verdict(t, bounds, cs, k), classes_verdict(t, bounds2, cs2, k)),
    decreases k,
{
    if k > 0 {
        lemma_classes_verdict_same(t, bounds, bounds2, cs, cs2, (k - 1) as nat);
        assert(same_verdict(
            class_verdict(t, bounds, cs[k - 1]),
            class_verdict(t, bounds2, cs2[k - 1]),
        ));
    }
}

/// The renaming between the two orders of a pair: in one order the first
/// impl has the variables under `n1` and the second the `n2` after them; in
/// the other order the second impl comes first.
pub open spec fn swap_ids(n1: nat, n2: nat) -> spec_fn(nat) -> nat {
    |v: nat|
        if v < n1 {
            v + n2
        } else if v < n1 + n2 {
            (v - n1) as nat
        } else {
            v
        }
}

/// The substitution that unifying the traits, and then the targets, of two
/// elaborated impls leaves.
pub open spec fn linking(c1: ImplTerm, c2: ImplTerm) -> Seq<(nat, TypeTerm)> {
    let (s1, ok1) = unify_traits(Seq::empty(), c1.trait_term, c2.trait_term);
    if ok1 {
        unify_types(s1, c1.target, c2.target).0
    } else {
        s1
    }
}

/// Under the empty substitution every type resolves to itself.
pub proof fn lemma_resolve_empty(x: TypeTerm)
    ensures
        settled(Seq::empty(), x),
        resolve(Seq::empty(), x) == Some(x),
    decreases x,
{
    let e = Seq::<(nat, TypeTerm)>::empty();
    match x {
        TypeTerm::Variable { id } => {},
        TypeTerm::Constructor { name, args } => {
            assert forall|i: int| 0 <= i < args.len() implies settled(e, #[trigger] args[i]) by {
                lemma_resolve_empty(args[i]);
            }
        },
    }
    lemma_settled_resolve(e, x, 0);
}

/// The heads of two impls unify in one order exactly when they do in the
/// other, and the two runs link the same variables: each variable of the one
/// run and its counterpart in the other resolve alike, up to the renaming
/// that is returned.
pub proof fn lemma_heads_swapped(
    c1: ImplTerm,
    c2: ImplTerm,
    d1: ImplTerm,
    d2: ImplTerm,
    p: spec_fn(nat) -> nat,
    pinv: spec_fn(nat) -> nat,
) -> (r: (spec_fn(nat) -> nat, spec_fn(nat) -> nat))
    requires
        d1.trait_term == rename_trait(p, c1.trait_term),
        d1.target == rename(p, c1.target),
        d2.trait_term == rename_trait(p, c2.trait_term),
        d2.target == rename(p, c2.target),
        forall|x: nat| #[trigger] pinv(p(x)) == x,
    ensures
        heads_unify(d2, d1) == heads_unify(c1, c2),
        keys_distinct(linking(c1, c2)),
        keys_distinct(linking(d2, d1)),
        links_forward(linking(c1, c2)),
        links_forward(linking(d2, d1)),
        heads_unify(c1, c2) ==> injective(r.0, linking(c1, c2)) && aligned(
            linking(c1, c2),
            linking(d2, d1),
            r.0,
            r.1,
        ) && (forall|v: nat| #[trigger] linked(linking(c1, c2), linking(d2, d1), r.0, p, v)),
{
    let e = Seq::<(nat, TypeTerm)>::empty();
    let a = c1.trait_term;
    let b = c2.trait_term;
    let a2 = d1.trait_term;
    let b2 = d2.trait_term;
    assert forall|x: TypeTerm| #[trigger] related(e, e, p, x, rename(p, x)) by {
        lemma_resolve_empty(x);
        lemma_resolve_empty(rename(p, x));
    }
    assert forall|u1: nat, u2: nat|
        lookup(e, u1) is None && lookup(e, u2) is None && #[trigger] p(u1) == #[trigger] p(
            u2,
        ) implies u1 == u2 by {
        assert(pinv(p(u1)) == u1);
        assert(pinv(p(u2)) == u2);
    }
    assert(links_forward(e));
    assert(aligned(e, e, p, p)) by {
        assert forall|x: nat| root(e, x) == x by {}
        assert forall|x: nat, y: nat| #[trigger]
            p(root(e, x)) == #[trigger] p(root(e, y)) implies root(e, x) == root(e, y) by {
            assert(pinv(p(x)) == x);
            assert(pinv(p(y)) == y);
        }
    }
    let g1 = lemma_unify_traits_halts(e, a, b);
    lemma_unify_traits(e, a, b, g1);
    let (s1, ok1) = unify_traits(e, a, b);
    let h1 = lemma_unify_traits_halts(e, b2, a2);
    lemma_unify_traits(e, b2, a2, h1);
    if a.name != b.name {
        (p, p)
    } else {
        let k = shorter(a.args, b.args);
        assert forall|i: int| 0 <= i < k implies related(e, e, p, #[trigger] a.args[i], a2.args[i])
            && related(e, e, p, b.args[i], b2.args[i]) by {
            assert(related(e, e, p, a.args[i], rename(p, a.args[i])));
            assert(related(e, e, p, b.args[i], rename(p, b.args[i])));
        }
        let (t1, f1, p1) = lemma_swap_upto(e, e, p, p, a.args, b.args, a2.args, b2.args, k, g1);
        assert(shorter(b2.args, a2.args) == k);
        assert(unify_traits_fuel(e, b2, a2, g1) == Some((t1, ok1)));
        lemma_unify_traits(e, b2, a2, g1);
        assert(unify_traits(e, b2, a2) == (t1, ok1));
        if !ok1 {
            (p, p)
        } else {
            let g2 = lemma_unify_halts(s1, c1.target, c2.target);
            lemma_unify_types(s1, c1.target, c2.target, g2);
            let (s2, ok2) = unify_types(s1, c1.target, c2.target);
            assert(related(e, e, p, c1.target, rename(p, c1.target)));
            assert(related(e, e, p, c2.target, rename(p, c2.target)));
            assert(related(s1, t1, f1, c1.target, d1.target));
            assert(related(s1, t1, f1, c2.target, d2.target));
            let (t2, f2, p2) = lemma_swap(
                s1,
                t1,
                f1,
                p1,
                c1.target,
                c2.target,
                d1.target,
                d2.target,
                g2,
            );
            lemma_unify_types(t1, d2.target, d1.target, g2);
            let h2 = lemma_unify_halts(t1, d2.target, d1.target);
            lemma_unify_types(t1, d2.target, d1.target, h2);
            assert(linking(d2, d1) == t2);
            assert forall|v: nat| #[trigger] linked(s2, t2, f2, p, v) by {
                assert(related(e, e, p, var(v), rename(p, var(v))));
                assert(rename(p, var(v)) == var(p(v)));
                assert(related(s1, t1, f1, var(v), var(p(v))));
                assert(related(s2, t2, f2, var(v), var(p(v))));
            }
            (f2, p2)
        }
    }
}

/// The verdict for a pair of impls in the other order: the same verdict.
pub proof fn lemma_pair_swapped(t: Table, i1: ImplDecl, i2: ImplDecl)
    requires
        check_pair(t, i1, i2) is Ok,
    ensures
        check_pair(t, i2, i1) == check_pair(t, i1, i2),
{
    let n1 = i1.params.len();
    let n2 = i2.params.len();
    let p = swap_ids(n1, n2);
    let pinv = swap_ids(n2, n1);
    let c1 = elaborate_impl(t, i1, 0)->Ok_0;
    let c2 = elaborate_impl(t, i2, n1)->Ok_0;
    let d2 = elaborate_impl(t, i2, 0)->Ok_0;
    let d1 = elaborate_impl(t, i1, n2)->Ok_0;
    assert forall|i: nat| i < i1.params.len() implies #[trigger] p(0 + i) == n2 + i by {}
    assert forall|i: nat| i < i2.params.len() implies #[trigger] p(n1 + i) == 0 + i by {}
    lemma_elaborate_impl_renamed(t, p, i1, 0, n2);
    lemma_elaborate_impl_renamed(t, p, i2, n1, 0);
    assert forall|x: nat| #[trigger] pinv(p(x)) == x by {}
    assert forall|y: nat| #[trigger] p(pinv(y)) == y by {}
    let (f, phi) = lemma_heads_swapped(c1, c2, d1, d2, p, pinv);
    assert(check_pair(t, i2, i1) == terms_verdict(t, d2, d1));
    if heads_unify(c1, c2) {
        let s = linking(c1, c2);
        let s2 = linking(d2, d1);
        let bounds = c1.bounds + c2.bounds;
        let bounds2 = d2.bounds + d1.bounds;
        let cs = classes(s);
        let cs2 = classes(s2);
        assert(check_pair(t, i1, i2) == classes_verdict(t, bounds, cs, cs.len()));
        assert(check_pair(t, i2, i1) == classes_verdict(t, bounds2, cs2, cs2.len()));
        lemma_classes_aligned(s, s2, f, phi, s.len());
        assert forall|m: nat|
            (bounded(bounds, m) <==> bounded(bounds2, #[trigger] p(m))) && (bounded(bounds, m)
                ==> bound_renamed(p, bounds[m as int], bounds2[p(m) as int])) by {
            if m < n1 {
                assert(bounds[m as int] == c1.bounds[m as int]);
                assert(bounds2[p(m) as int] == d1.bounds[m as int]);
                assert(bound_renamed(p, c1.bounds[m as int], d1.bounds[m as int]));
            } else if m < n1 + n2 {
                assert(bounds[m as int] == c2.bounds[m - n1]);
                assert(bounds2[p(m) as int] == d2.bounds[m - n1]);
                assert(bound_renamed(p, c2.bounds[m - n1], d2.bounds[m - n1]));
            }
        }
        assert forall|j: int| 0 <= j < cs.len() implies same_verdict(
            class_verdict(t, bounds, #[trigger] cs[j]),
            class_verdict(t, bounds2, cs2[j]),
        ) by {
            if cs[j].0 is None {
                let j2 = lemma_class_swapped(s, s2, f, p, pinv, j);
                let r = root(s, cs[j].1[0]);
                assert(root(s2, cs2[j].1[0]) == phi(root(s, cs[j].1[0])));
                assert(phi(r) == f(r));
                if j2 < j {
                    assert(root(s2, cs2[j2].1[0]) != root(s2, cs2[j].1[0]));
                }
                if j < j2 {
                    assert(root(s2, cs2[j].1[0]) != root(s2, cs2[j2].1[0]));
                }
                assert(j2 == j);
                lemma_class_verdict_renamed(t, bounds, bounds2, cs[j].1, cs2[j].1, p, pinv);
                assert(cs[j] == (None::<TypeTerm>, cs[j].1));
                assert(cs2[j] == (None::<TypeTerm>, cs2[j].1));
            }
        }
        lemma_classes_verdict_same(t, bounds, bounds2, cs, cs2, cs.len());
    }
}

/// Symmetry: the verdict for a pair of impls does not depend on which of the
/// two is declared first. Where one order gives a verdict, the other order
/// gives the same verdict; where one order fails, the other fails too.
pub proof fn law_symmetry(t: Table, i1: ImplDecl, i2: ImplDecl)
    ensures
        check_pair(t, i1, i2) is Ok ==> check_pair(t, i2, i1) == check_pair(t, i1, i2),
        check_pair(t, i1, i2) is Err ==> check_pair(t, i2, i1) is Err,
{
    if check_pair(t, i1, i2) is Ok {
        lemma_pair_swapped(t, i1, i2);
    } else if check_pair(t, i2, i1) is Ok {
        lemma_pair_swapped(t, i2, i1);
    }
}

} // verus!
