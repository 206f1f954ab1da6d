//! Elaboration and supertrait closure under a renaming of the variables:
//! which variables an impl gets does not matter for what is derived from it.

use crate::concrete::{BoundTerm, TraitTerm, TypeTerm};
use crate::laws::lemma_elaborate_ground;
use crate::rules::{
    ErrorModel, ImplTerm, Table, closure_all, closure_fuel, elaborate_bound, elaborate_each,
    elaborate_impl, elaborate_params, elaborate_trait, elaborate_traits, elaborate_type, find_last,
    instantiate_arg, instantiate_trait, lemma_params_len, param_args, struct_entries,
    supertraits_of, trait_entries,
};
use crate::seqs::{collect, lemma_merge, merge};
use crate::symmetry::{rename, rename_each};
use crate::syntax::{BoundExpr, ImplDecl, ParamDecl, TypeExpr};
use crate::unifier::below;
use vstd::prelude::*;

verus! {

/// A trait application with its variables renamed.
pub open spec fn rename_trait(f: spec_fn(nat) -> nat, x: TraitTerm) -> TraitTerm {
    TraitTerm { name: x.name, args: rename_each(f, x.args) }
}

/// Each trait application of a list renamed.
pub open spec fn rename_traits(f: spec_fn(nat) -> nat, v: Seq<TraitTerm>) -> Seq<TraitTerm> {
    Seq::new(v.len(), |i: int| rename_trait(f, v[i]))
}

/// A scope with its variables renamed.
pub open spec fn rename_env(f: spec_fn(nat) -> nat, env: Seq<(Seq<char>, nat)>) -> Seq<
    (Seq<char>, nat),
> {
    Seq::new(env.len(), |i: int| (env[i].0, f(env[i].1)))
}

/// A list of named types with their variables renamed.
pub open spec fn rename_args(f: spec_fn(nat) -> nat, env: Seq<(Seq<char>, TypeTerm)>) -> Seq<
    (Seq<char>, TypeTerm),
> {
    Seq::new(env.len(), |i: int| (env[i].0, rename(f, env[i].1)))
}

/// The result of an elaboration with its variables renamed.
pub open spec fn rename_type_result(
    f: spec_fn(nat) -> nat,
    r: Result<TypeTerm, ErrorModel>,
) -> Result<TypeTerm, ErrorModel> {
    match r {
        Ok(x) => Ok(rename(f, x)),
        Err(e) => Err(e),
    }
}

/// The result of elaborating a list with its variables renamed.
pub open spec fn rename_types_result(
    f: spec_fn(nat) -> nat,
    r: Result<Seq<TypeTerm>, ErrorModel>,
) -> Result<Seq<TypeTerm>, ErrorModel> {
    match r {
        Ok(v) => Ok(rename_each(f, v)),
        Err(e) => Err(e),
    }
}

/// The result of elaborating a trait with its variables renamed.
pub open spec fn rename_trait_result(
    f: spec_fn(nat) -> nat,
    r: Result<TraitTerm, ErrorModel>,
) -> Result<TraitTerm, ErrorModel> {
    match r {
        Ok(x) => Ok(rename_trait(f, x)),
        Err(e) => Err(e),
    }
}

/// The result of elaborating a list of traits with its variables renamed.
pub open spec fn rename_traits_result(
    f: spec_fn(nat) -> nat,
    r: Result<Seq<TraitTerm>, ErrorModel>,
) -> Result<Seq<TraitTerm>, ErrorModel> {
    match r {
        Ok(v) => Ok(rename_traits(f, v)),
        Err(e) => Err(e),
    }
}

/// `y` is the renamed form of a trait of `a`.
pub open spec fn renamed_from(f: spec_fn(nat) -> nat, a: Seq<TraitTerm>, y: TraitTerm) -> bool {
    exists|k: int| 0 <= k < a.len() && y == rename_trait(f, #[trigger] a[k])
}

/// `b` holds the renamed form of every trait of `a`, and nothing else.
pub open spec fn holds_renamed(f: spec_fn(nat) -> nat, a: Seq<TraitTerm>, b: Seq<TraitTerm>) -> bool {
    &&& forall|i: int| 0 <= i < a.len() ==> b.contains(rename_trait(f, #[trigger] a[i]))
    &&& forall|i: int| 0 <= i < b.len() ==> renamed_from(f, a, #[trigger] b[i])
}

/// The second bound holds the renamed form of all that the first holds; one
/// is absent when the other is.
pub open spec fn bound_renamed(
    f: spec_fn(nat) -> nat,
    a: Option<BoundTerm>,
    b: Option<BoundTerm>,
) -> bool {
    match a {
        None => b is None,
        Some(x) => b is Some && holds_renamed(f, x.positive, b->Some_0.positive)
            && holds_renamed(f, x.negative, b->Some_0.negative),
    }
}

/// A lookup in a renamed scope finds the renamed variable.
pub proof fn lemma_find_renamed(f: spec_fn(nat) -> nat, env: Seq<(Seq<char>, nat)>, name: Seq<char>)
    ensures
        find_last(rename_env(f, env), name) == match find_last(env, name) {
            Some(id) => Some(f(id)),
            None => None,
        },
    decreases env.len(),
{
    if env.len() > 0 {
        assert(rename_env(f, env).drop_last() =~= rename_env(f, env.drop_last()));
        lemma_find_renamed(f, env.drop_last(), name);
    }
}

/// A lookup among renamed types finds the renamed type.
pub proof fn lemma_find_renamed_arg(
    f: spec_fn(nat) -> nat,
    env: Seq<(Seq<char>, TypeTerm)>,
    name: Seq<char>,
)
    ensures
        find_last(rename_args(f, env), name) == match find_last(env, name) {
            Some(x) => Some(rename(f, x)),
            None => None,
        },
    decreases env.len(),
{
    if env.len() > 0 {
        assert(rename_args(f, env).drop_last() =~= rename_args(f, env.drop_last()));
        lemma_find_renamed_arg(f, env.drop_last(), name);
    }
}

/// Results that are renamed one by one collect to the renamed collection.
pub proof fn lemma_collect_renamed(
    f: spec_fn(nat) -> nat,
    rs: Seq<Result<TypeTerm, ErrorModel>>,
    rs2: Seq<Result<TypeTerm, ErrorModel>>,
)
    requires
        rs.len() == rs2.len(),
        forall|i: int| 0 <= i < rs.len() ==> #[trigger] rs2[i] == rename_type_result(f, rs[i]),
    ensures
        collect(rs2) == rename_types_result(f, collect(rs)),
    decreases rs.len(),
{
    if rs.len() == 0 {
        assert(rename_each(f, Seq::<TypeTerm>::empty()) =~= Seq::<TypeTerm>::empty());
    } else {
        let p = rs.drop_last();
        let p2 = rs2.drop_last();
        assert forall|i: int| 0 <= i < p.len() implies #[trigger] p2[i] == rename_type_result(
            f,
            p[i],
        ) by {
            assert(p2[i] == rs2[i]);
            assert(p[i] == rs[i]);
        }
        lemma_collect_renamed(f, p, p2);
        assert(rs2[rs.len() - 1] == rename_type_result(f, rs[rs.len() - 1]));
        if let Ok(v) = collect(p) {
            if let Ok(x) = rs.last() {
                assert(rename_each(f, v.push(x)) =~= rename_each(f, v).push(rename(f, x)));
            }
        }
    }
}

/// Results that are renamed one by one collect to the renamed collection.
pub proof fn lemma_collect_renamed_traits(
    f: spec_fn(nat) -> nat,
    rs: Seq<Result<TraitTerm, ErrorModel>>,
    rs2: Seq<Result<TraitTerm, ErrorModel>>,
)
    requires
        rs.len() == rs2.len(),
        forall|i: int| 0 <= i < rs.len() ==> #[trigger] rs2[i] == rename_trait_result(f, rs[i]),
    ensures
        collect(rs2) == rename_traits_result(f, collect(rs)),
    decreases rs.len(),
{
    if rs.len() == 0 {
        assert(rename_traits(f, Seq::<TraitTerm>::empty()) =~= Seq::<TraitTerm>::empty());
    } else {
        let p = rs.drop_last();
        let p2 = rs2.drop_last();
        assert forall|i: int| 0 <= i < p.len() implies #[trigger] p2[i] == rename_trait_result(
            f,
            p[i],
        ) by {
            assert(p2[i] == rs2[i]);
            assert(p[i] == rs[i]);
        }
        lemma_collect_renamed_traits(f, p, p2);
        assert(rs2[rs.len() - 1] == rename_trait_result(f, rs[rs.len() - 1]));
        if let Ok(v) = collect(p) {
            if let Ok(x) = rs.last() {
                assert(rename_traits(f, v.push(x)) =~= rename_traits(f, v).push(
                    rename_trait(f, x),
                ));
            }
        }
    }
}

/// Elaboration in a renamed scope gives the renamed type, or the same error.
pub proof fn lemma_elaborate_renamed(
    t: Table,
    f: spec_fn(nat) -> nat,
    env: Seq<(Seq<char>, nat)>,
    te: TypeExpr,
)
    ensures
        elaborate_type(t, rename_env(f, env), te) == rename_type_result(
            f,
            elaborate_type(t, env, te),
        ),
    decreases te,
{
    lemma_find_renamed(f, env, te.name);
    if find_last(env, te.name) is None {
        if let Some(arity) = find_last(struct_entries(t.structs), te.name) {
            if arity == te.args.len() {
                lemma_elaborate_each_renamed(t, f, env, te.args);
            }
        }
    }
}

/// Elaboration of a list in a renamed scope gives the renamed types, or the
/// same error.
pub proof fn lemma_elaborate_each_renamed(
    t: Table,
    f: spec_fn(nat) -> nat,
    env: Seq<(Seq<char>, nat)>,
    tes: Seq<TypeExpr>,
)
    ensures
        collect(elaborate_each(t, rename_env(f, env), tes)) == rename_types_result(
            f,
            collect(elaborate_each(t, env, tes)),
        ),
    decreases tes,
{
    let rs = elaborate_each(t, env, tes);
    let rs2 = elaborate_each(t, rename_env(f, env), tes);
    assert forall|i: int| 0 <= i < rs.len() implies #[trigger] rs2[i] == rename_type_result(
        f,
        rs[i],
    ) by {
        lemma_elaborate_renamed(t, f, env, tes[i]);
    }
    lemma_collect_renamed(f, rs, rs2);
}

/// Elaboration of a trait in a renamed scope gives the renamed trait, or the
/// same error.
pub proof fn lemma_elaborate_trait_renamed(
    t: Table,
    f: spec_fn(nat) -> nat,
    env: Seq<(Seq<char>, nat)>,
    te: TypeExpr,
)
    ensures
        elaborate_trait(t, rename_env(f, env), te) == rename_trait_result(
            f,
            elaborate_trait(t, env, te),
        ),
{
    lemma_elaborate_each_renamed(t, f, env, te.args);
}

/// Elaboration of a list of traits in a renamed scope fails alike, and
/// otherwise holds the renamed form of each trait.
pub proof fn lemma_elaborate_traits_renamed(
    t: Table,
    f: spec_fn(nat) -> nat,
    env: Seq<(Seq<char>, nat)>,
    tes: Seq<TypeExpr>,
)
    ensures
        match elaborate_traits(t, env, tes) {
            Ok(a) => elaborate_traits(t, rename_env(f, env), tes) is Ok && holds_renamed(
                f,
                a,
                elaborate_traits(t, rename_env(f, env), tes)->Ok_0,
            ),
            Err(e) => elaborate_traits(t, rename_env(f, env), tes) == Err::<
                Seq<TraitTerm>,
                ErrorModel,
            >(e),
        },
{
    let env2 = rename_env(f, env);
    let rs = Seq::new(tes.len(), |i: int| elaborate_trait(t, env, tes[i]));
    let rs2 = Seq::new(tes.len(), |i: int| elaborate_trait(t, env2, tes[i]));
    assert forall|i: int| 0 <= i < rs.len() implies #[trigger] rs2[i] == rename_trait_result(
        f,
        rs[i],
    ) by {
        lemma_elaborate_trait_renamed(t, f, env, tes[i]);
    }
    lemma_collect_renamed_traits(f, rs, rs2);
    if let Ok(v) = collect(rs) {
        let v2 = rename_traits(f, v);
        let e = Seq::<TraitTerm>::empty();
        lemma_merge(e, v);
        lemma_merge(e, v2);
        let a = merge(e, v);
        let b = merge(e, v2);
        assert forall|i: int| 0 <= i < a.len() implies b.contains(
            rename_trait(f, #[trigger] a[i]),
        ) by {
            assert(a.contains(a[i]));
            assert(v.contains(a[i]));
            let k = choose|k: int| 0 <= k < v.len() && v[k] == a[i];
            assert(v2[k] == rename_trait(f, a[i]));
            assert(v2.contains(rename_trait(f, a[i])));
        }
        assert forall|i: int| 0 <= i < b.len() implies renamed_from(f, a, #[trigger] b[i]) by {
            assert(b.contains(b[i]));
            assert(v2.contains(b[i]));
            let j = choose|j: int| 0 <= j < v2.len() && v2[j] == b[i];
            assert(v.contains(v[j]));
            assert(a.contains(v[j]));
            let k = choose|k: int| 0 <= k < a.len() && a[k] == v[j];
            assert(b[i] == rename_trait(f, a[k]));
        }
    }
}

/// Elaboration of a bound in a renamed scope fails alike, and otherwise
/// holds the renamed form of each trait.
pub proof fn lemma_elaborate_bound_renamed(
    t: Table,
    f: spec_fn(nat) -> nat,
    env: Seq<(Seq<char>, nat)>,
    b: BoundExpr,
)
    ensures
        match elaborate_bound(t, env, b) {
            Ok(x) => elaborate_bound(t, rename_env(f, env), b) is Ok && bound_renamed(
                f,
                Some(x),
                Some(elaborate_bound(t, rename_env(f, env), b)->Ok_0),
            ),
            Err(e) => elaborate_bound(t, rename_env(f, env), b) == Err::<BoundTerm, ErrorModel>(e),
        },
{
    lemma_elaborate_traits_renamed(t, f, env, b.positive);
    lemma_elaborate_traits_renamed(t, f, env, b.negative);
}

/// Elaboration of parameters from another first variable: the scope is the
/// renamed scope, and the bounds hold the renamed form of what they held.
pub proof fn lemma_elaborate_params_renamed(
    t: Table,
    f: spec_fn(nat) -> nat,
    params: Seq<ParamDecl>,
    base: nat,
    base2: nat,
    k: nat,
)
    requires
        k <= params.len(),
        forall|i: nat| i < params.len() ==> #[trigger] f(base + i) == base2 + i,
    ensures
        match elaborate_params(t, params, base, k) {
            Ok(r) => elaborate_params(t, params, base2, k) is Ok && elaborate_params(
                t,
                params,
                base2,
                k,
            )->Ok_0.0 == rename_env(f, r.0) && (forall|i: int|
                0 <= i < k ==> bound_renamed(
                    f,
                    #[trigger] r.1[i],
                    elaborate_params(t, params, base2, k)->Ok_0.1[i],
                )),
            Err(e) => elaborate_params(t, params, base2, k) == Err::<
                (Seq<(Seq<char>, nat)>, Seq<Option<BoundTerm>>),
                ErrorModel,
            >(e),
        },
    decreases k,
{
    if k == 0 {
        assert(rename_env(f, Seq::<(Seq<char>, nat)>::empty()) =~= Seq::<
            (Seq<char>, nat),
        >::empty());
    } else {
        let j = (k - 1) as nat;
        lemma_elaborate_params_renamed(t, f, params, base, base2, j);
        lemma_params_len(t, params, base, j);
        lemma_params_len(t, params, base2, j);
        if let Ok((env, bounds)) = elaborate_params(t, params, base, j) {
            let (env2, bounds2) = elaborate_params(t, params, base2, j)->Ok_0;
            let p = params[k - 1];
            assert(f(base + j) == base2 + j);
            let entry = (p.name, (base + k - 1) as nat);
            let entry2 = (p.name, (base2 + k - 1) as nat);
            assert(rename_env(f, env.push(entry)) =~= env2.push(entry2));
            match p.bound {
                None => {
                    let r = elaborate_params(t, params, base, k)->Ok_0;
                    let r2 = elaborate_params(t, params, base2, k)->Ok_0;
                    assert forall|i: int| 0 <= i < k implies bound_renamed(
                        f,
                        #[trigger] r.1[i],
                        r2.1[i],
                    ) by {
                        if i < j {
                            assert(r.1[i] == bounds[i]);
                            assert(r2.1[i] == bounds2[i]);
                        }
                    }
                },
                Some(b) => {
                    lemma_elaborate_bound_renamed(t, f, env, b);
                    if let Ok(bt) = elaborate_bound(t, env, b) {
                        let r = elaborate_params(t, params, base, k)->Ok_0;
                        let r2 = elaborate_params(t, params, base2, k)->Ok_0;
                        assert forall|i: int| 0 <= i < k implies bound_renamed(
                            f,
                            #[trigger] r.1[i],
                            r2.1[i],
                        ) by {
                            if i < j {
                                assert(r.1[i] == bounds[i]);
                                assert(r2.1[i] == bounds2[i]);
                            }
                        }
                    }
                },
            }
        }
    }
}

/// Elaboration of an impl from another first variable gives the renamed
/// trait and target, and bounds that hold the renamed form of what they
/// held; or the same error.
pub proof fn lemma_elaborate_impl_renamed(
    t: Table,
    f: spec_fn(nat) -> nat,
    im: ImplDecl,
    base: nat,
    base2: nat,
)
    requires
        forall|i: nat| i < im.params.len() ==> #[trigger] f(base + i) == base2 + i,
    ensures
        match elaborate_impl(t, im, base) {
            Ok(c) => elaborate_impl(t, im, base2) is Ok && elaborate_impl(
                t,
                im,
                base2,
            )->Ok_0.trait_term == rename_trait(f, c.trait_term) && elaborate_impl(
                t,
                im,
                base2,
            )->Ok_0.target == rename(f, c.target) && c.bounds.len() == im.params.len()
                && elaborate_impl(t, im, base2)->Ok_0.bounds.len() == im.params.len() && (forall|
                i: int,
            |
                0 <= i < im.params.len() ==> bound_renamed(
                    f,
                    #[trigger] c.bounds[i],
                    elaborate_impl(t, im, base2)->Ok_0.bounds[i],
                )),
            Err(e) => elaborate_impl(t, im, base2) == Err::<ImplTerm, ErrorModel>(e),
        },
{
    let n = im.params.len();
    lemma_elaborate_params_renamed(t, f, im.params, base, base2, n);
    lemma_params_len(t, im.params, base, n);
    lemma_params_len(t, im.params, base2, n);
    if let Ok((env, bounds)) = elaborate_params(t, im.params, base, n) {
        lemma_elaborate_trait_renamed(t, f, env, im.trait_expr);
        lemma_elaborate_renamed(t, f, env, im.target);
    }
}

/// Renaming leaves a type without variables as it is.
pub proof fn lemma_rename_ground(f: spec_fn(nat) -> nat, x: TypeTerm)
    requires
        below(x, 0),
    ensures
        rename(f, x) == x,
    decreases x,
{
    match x {
        TypeTerm::Variable { id } => {},
        TypeTerm::Constructor { name, args } => {
            assert forall|i: int| 0 <= i < args.len() implies rename_each(f, args)[i]
                == args[i] by {
                assert(below(args[i], 0));
                lemma_rename_ground(f, args[i]);
            }
            assert(rename_each(f, args) =~= args);
        },
    }
}

/// The direct supertraits of a renamed trait application are the renamed
/// direct supertraits, or the same error.
pub proof fn lemma_supertraits_renamed(t: Table, f: spec_fn(nat) -> nat, tr: TraitTerm)
    ensures
        supertraits_of(t, rename_trait(f, tr)) == rename_traits_result(f, supertraits_of(t, tr)),
{
    let tr2 = rename_trait(f, tr);
    if let Some(decl) = find_last(trait_entries(t.traits), tr.name) {
        match decl.supertraits {
            None => {
                assert(rename_traits(f, Seq::<TraitTerm>::empty()) =~= Seq::<TraitTerm>::empty());
            },
            Some(b) => {
                let env = param_args(decl.params, tr.args);
                let env2 = param_args(decl.params, tr2.args);
                assert(env2 =~= rename_args(f, env));
                let rs = Seq::new(
                    b.positive.len(),
                    |i: int| instantiate_trait(t, env, b.positive[i]),
                );
                let rs2 = Seq::new(
                    b.positive.len(),
                    |i: int| instantiate_trait(t, env2, b.positive[i]),
                );
                assert forall|i: int| 0 <= i < rs.len() implies #[trigger] rs2[i]
                    == rename_trait_result(f, rs[i]) by {
                    lemma_instantiate_renamed(t, f, env, b.positive[i]);
                }
                lemma_collect_renamed_traits(f, rs, rs2);
            },
        }
    }
}

/// An entry of a supertrait bound instantiated with renamed arguments is the
/// renamed instance, or fails alike.
pub proof fn lemma_instantiate_renamed(
    t: Table,
    f: spec_fn(nat) -> nat,
    env: Seq<(Seq<char>, TypeTerm)>,
    te: TypeExpr,
)
    ensures
        instantiate_trait(t, rename_args(f, env), te) == rename_trait_result(
            f,
            instantiate_trait(t, env, te),
        ),
{
    let env2 = rename_args(f, env);
    let rs = Seq::new(te.args.len(), |j: int| instantiate_arg(t, env, te.args[j]));
    let rs2 = Seq::new(te.args.len(), |j: int| instantiate_arg(t, env2, te.args[j]));
    assert forall|j: int| 0 <= j < rs.len() implies #[trigger] rs2[j] == rename_type_result(
        f,
        rs[j],
    ) by {
        let q = te.args[j];
        lemma_find_renamed_arg(f, env, q.name);
        if find_last(env, q.name) is None {
            lemma_elaborate_ground(t, q);
            if let Ok(x) = elaborate_type(t, Seq::empty(), q) {
                lemma_rename_ground(f, x);
            }
        }
    }
    lemma_collect_renamed(f, rs, rs2);
}

/// What the closure of a trait application holds, the closure of the
/// renamed application holds in renamed form; and it does not fail where the
/// first does not.
pub proof fn lemma_closure_renamed(t: Table, f: spec_fn(nat) -> nat, tr: TraitTerm, fuel: nat)
    requires
        closure_fuel(t, tr, fuel) is Ok,
    ensures
        closure_fuel(t, rename_trait(f, tr), fuel) is Ok,
        forall|y: TraitTerm| #[trigger]
            closure_fuel(t, tr, fuel)->Ok_0.contains(y) ==> closure_fuel(
                t,
                rename_trait(f, tr),
                fuel,
            )->Ok_0.contains(rename_trait(f, y)),
    decreases fuel, 0nat, 0nat,
{
    lemma_supertraits_renamed(t, f, tr);
    let sups = supertraits_of(t, tr)->Ok_0;
    if sups.len() > 0 {
        lemma_closure_all_renamed(t, f, sups, (fuel - 1) as nat, sups.len());
    }
}

/// What the closures of the first `k` trait applications hold, the closures
/// of the renamed applications hold in renamed form.
pub proof fn lemma_closure_all_renamed(
    t: Table,
    f: spec_fn(nat) -> nat,
    trs: Seq<TraitTerm>,
    fuel: nat,
    k: nat,
)
    requires
        k <= trs.len(),
        closure_all(t, trs, fuel, k) is Ok,
    ensures
        closure_all(t, rename_traits(f, trs), fuel, k) is Ok,
        forall|y: TraitTerm| #[trigger]
            closure_all(t, trs, fuel, k)->Ok_0.contains(y) ==> closure_all(
                t,
                rename_traits(f, trs),
                fuel,
                k,
            )->Ok_0.contains(rename_trait(f, y)),
    decreases fuel, 1nat, k,
{
    if k > 0 {
        lemma_closure_all_renamed(t, f, trs, fuel, (k - 1) as nat);
        lemma_closure_renamed(t, f, trs[k - 1], fuel);
        assert(rename_traits(f, trs)[k - 1] == rename_trait(f, trs[k - 1]));
    }
}

/// Renaming back gives the type back.
pub proof fn lemma_rename_back(f: spec_fn(nat) -> nat, g: spec_fn(nat) -> nat, x: TypeTerm)
    requires
        forall|v: nat| #[trigger] g(f(v)) == v,
    ensures
        rename(g, rename(f, x)) == x,
    decreases x,
{
    match x {
        TypeTerm::Variable { id } => {
            assert(g(f(id)) == id);
        },
        TypeTerm::Constructor { name, args } => {
            let l = rename_each(g, rename_each(f, args));
            assert forall|i: int| 0 <= i < args.len() implies l[i] == args[i] by {
                lemma_rename_back(f, g, args[i]);
            }
            assert(l =~= args);
        },
    }
}

/// Renaming back gives the trait application back.
pub proof fn lemma_rename_trait_back(f: spec_fn(nat) -> nat, g: spec_fn(nat) -> nat, x: TraitTerm)
    requires
        forall|v: nat| #[trigger] g(f(v)) == v,
    ensures
        rename_trait(g, rename_trait(f, x)) == x,
{
    let l = rename_each(g, rename_each(f, x.args));
    assert forall|i: int| 0 <= i < x.args.len() implies l[i] == x.args[i] by {
        lemma_rename_back(f, g, x.args[i]);
    }
    assert(l =~= x.args);
}

} // verus!
