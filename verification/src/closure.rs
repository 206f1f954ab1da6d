//! The depth of supertrait chains: a closure that can be computed at all is
//! computed within as many steps as there are trait declarations.

use crate::concrete::TraitTerm;
use crate::laws::lemma_closure_all;
use crate::rules::{
    ErrorModel, Table, closure, closure_all, closure_fuel, elaborate_each, elaborate_type,
    find_last, instantiate_arg, instantiate_trait, param_args, supertraits_of, trait_entries,
};
use crate::seqs::lemma_collect;
use crate::syntax::{TraitDecl, TypeExpr};
use vstd::prelude::*;

verus! {

/// The declarations without those of the traits named `n`.
pub open spec fn drop_named(ts: Seq<TraitDecl>, n: Seq<char>) -> Seq<TraitDecl>
    decreases ts.len(),
{
    if ts.len() == 0 {
        ts
    } else if ts.last().name == n {
        drop_named(ts.drop_last(), n)
    } else {
        drop_named(ts.drop_last(), n).push(ts.last())
    }
}

/// The tables without the declarations of the traits named `n`.
pub open spec fn without_trait(t: Table, n: Seq<char>) -> Table {
    Table { structs: t.structs, traits: drop_named(t.traits, n) }
}

/// Dropping the declarations of one name leaves the lookups of the other
/// names as they were, and fewer declarations where the name was declared.
pub proof fn lemma_drop_named(ts: Seq<TraitDecl>, n: Seq<char>, m: Seq<char>)
    ensures
        drop_named(ts, n).len() <= ts.len(),
        find_last(trait_entries(ts), n) is Some ==> drop_named(ts, n).len() < ts.len(),
        find_last(trait_entries(drop_named(ts, n)), m) == if m == n {
            None
        } else {
            find_last(trait_entries(ts), m)
        },
    decreases ts.len(),
{
    if ts.len() > 0 {
        let p = ts.drop_last();
        lemma_drop_named(p, n, m);
        assert(trait_entries(ts).drop_last() =~= trait_entries(p));
        if ts.last().name != n {
            let q = drop_named(p, n);
            assert(trait_entries(q.push(ts.last())).drop_last() =~= trait_entries(q));
        }
    }
}

/// Elaboration of a type looks at the declared structs only.
pub proof fn lemma_elaborate_structs(t: Table, t2: Table, env: Seq<(Seq<char>, nat)>, te: TypeExpr)
    requires
        t.structs == t2.structs,
    ensures
        elaborate_type(t2, env, te) == elaborate_type(t, env, te),
    decreases te,
{
    let rs = elaborate_each(t, env, te.args);
    let rs2 = elaborate_each(t2, env, te.args);
    assert forall|i: int| 0 <= i < rs.len() implies rs2[i] == rs[i] by {
        lemma_elaborate_structs(t, t2, env, te.args[i]);
    }
    assert(rs2 =~= rs);
}

/// The direct supertraits without the declarations of the name `n`: as
/// before for a trait of another name, none for a trait of that name.
pub proof fn lemma_supertraits_without(t: Table, n: Seq<char>, y: TraitTerm)
    ensures
        y.name != n ==> supertraits_of(without_trait(t, n), y) == supertraits_of(t, y),
        y.name == n ==> supertraits_of(without_trait(t, n), y) is Err,
{
    let t2 = without_trait(t, n);
    lemma_drop_named(t.traits, n, y.name);
    if y.name != n {
        if let Some(decl) = find_last(trait_entries(t.traits), y.name) {
            if let Some(b) = decl.supertraits {
                let env = param_args(decl.params, y.args);
                let rs = Seq::new(
                    b.positive.len(),
                    |i: int| instantiate_trait(t, env, b.positive[i]),
                );
                let rs2 = Seq::new(
                    b.positive.len(),
                    |i: int| instantiate_trait(t2, env, b.positive[i]),
                );
                assert forall|i: int| 0 <= i < rs.len() implies rs2[i] == rs[i] by {
                    let te = b.positive[i];
                    let xs = Seq::new(te.args.len(), |j: int| instantiate_arg(t, env, te.args[j]));
                    let xs2 = Seq::new(
                        te.args.len(),
                        |j: int| instantiate_arg(t2, env, te.args[j]),
                    );
                    assert forall|j: int| 0 <= j < xs.len() implies xs2[j] == xs[j] by {
                        lemma_elaborate_structs(t, t2, Seq::empty(), te.args[j]);
                    }
                    assert(xs2 =~= xs);
                }
                assert(rs2 =~= rs);
            }
        }
    }
}

/// The direct supertraits of two applications of one trait have the same
/// names, in the same order.
pub proof fn lemma_supertrait_names(t: Table, a: TraitTerm, b: TraitTerm)
    requires
        a.name == b.name,
        supertraits_of(t, a) is Ok,
        supertraits_of(t, b) is Ok,
    ensures
        supertraits_of(t, a)->Ok_0.len() == supertraits_of(t, b)->Ok_0.len(),
        forall|i: int|
            0 <= i < supertraits_of(t, a)->Ok_0.len() ==> (#[trigger] supertraits_of(
                t,
                a,
            )->Ok_0[i]).name == supertraits_of(t, b)->Ok_0[i].name,
{
    let decl = find_last(trait_entries(t.traits), a.name)->Some_0;
    if let Some(bd) = decl.supertraits {
        let ra = Seq::new(
            bd.positive.len(),
            |i: int| instantiate_trait(t, param_args(decl.params, a.args), bd.positive[i]),
        );
        let rb = Seq::new(
            bd.positive.len(),
            |i: int| instantiate_trait(t, param_args(decl.params, b.args), bd.positive[i]),
        );
        lemma_collect(ra);
        lemma_collect(rb);
        let sa = supertraits_of(t, a)->Ok_0;
        let sb = supertraits_of(t, b)->Ok_0;
        assert forall|i: int| 0 <= i < sa.len() implies (#[trigger] sa[i]).name == sb[i].name by {
            assert(ra[i] == Ok::<TraitTerm, ErrorModel>(sa[i]));
            assert(rb[i] == Ok::<TraitTerm, ErrorModel>(sb[i]));
        }
    }
}

/// More fuel does not change a closure.
pub proof fn lemma_closure_mono(t: Table, tr: TraitTerm, g: nat, h: nat)
    requires
        g <= h,
        closure_fuel(t, tr, g) is Ok,
    ensures
        closure_fuel(t, tr, h) == closure_fuel(t, tr, g),
    decreases g, 0nat, 0nat,
{
    let sups = supertraits_of(t, tr)->Ok_0;
    if sups.len() > 0 {
        lemma_closure_all_mono(t, sups, (g - 1) as nat, (h - 1) as nat, sups.len());
    }
}

/// More fuel does not change the closures of a list.
pub proof fn lemma_closure_all_mono(t: Table, trs: Seq<TraitTerm>, g: nat, h: nat, k: nat)
    requires
        g <= h,
        closure_all(t, trs, g, k) is Ok,
    ensures
        closure_all(t, trs, h, k) == closure_all(t, trs, g, k),
    decreases g, 1nat, k,
{
    if k > 0 {
        lemma_closure_all_mono(t, trs, g, h, (k - 1) as nat);
        lemma_closure_mono(t, trs[k - 1], g, h);
    }
}

/// The fuel that the closure of one application of a trait needs is enough
/// for every other application of the trait that has a closure.
pub proof fn lemma_closure_names(t: Table, a: TraitTerm, b: TraitTerm, g: nat, h: nat)
    requires
        a.name == b.name,
        closure_fuel(t, a, g) is Ok,
        closure_fuel(t, b, h) is Ok,
    ensures
        closure_fuel(t, b, g) is Ok,
    decreases g,
{
    let sa = supertraits_of(t, a)->Ok_0;
    let sb = supertraits_of(t, b)->Ok_0;
    lemma_supertrait_names(t, a, b);
    if sa.len() > 0 {
        lemma_closure_all(t, sa, (g - 1) as nat, sa.len());
        lemma_closure_all(t, sb, (h - 1) as nat, sb.len());
        lemma_closure_all(t, sb, (g - 1) as nat, sb.len());
        assert forall|i: int| 0 <= i < sb.len() implies (#[trigger] closure_fuel(
            t,
            sb[i],
            (g - 1) as nat,
        )) is Ok by {
            assert(closure_fuel(t, sa[i], (g - 1) as nat) is Ok);
            assert(closure_fuel(t, sb[i], (h - 1) as nat) is Ok);
            assert(sa[i].name == sb[i].name);
            lemma_closure_names(t, sa[i], sb[i], (g - 1) as nat, (h - 1) as nat);
        }
    }
}

/// The least fuel with which a closure is computed.
pub proof fn least_closure_fuel(t: Table, tr: TraitTerm, g: nat) -> (g0: nat)
    requires
        closure_fuel(t, tr, g) is Ok,
    ensures
        g0 <= g,
        closure_fuel(t, tr, g0) is Ok,
        forall|h: nat| h < g0 ==> (#[trigger] closure_fuel(t, tr, h)) is Err,
    decreases g,
{
    if g > 0 && closure_fuel(t, tr, (g - 1) as nat) is Ok {
        least_closure_fuel(t, tr, (g - 1) as nat)
    } else {
        assert forall|h: nat| h < g implies (#[trigger] closure_fuel(t, tr, h)) is Err by {
            if closure_fuel(t, tr, h) is Ok {
                lemma_closure_mono(t, tr, h, (g - 1) as nat);
            }
        }
        g
    }
}

/// No trait named `n` has a closure with fuel up to `h`.
pub open spec fn never_closed(t: Table, n: Seq<char>, h: nat) -> bool {
    forall|z: TraitTerm, k: nat|
        z.name == n && k <= h ==> (#[trigger] closure_fuel(t, z, k)) is Err
}

/// A closure on the way of which no trait named `n` is closed is the same
/// without the declarations of that name.
pub proof fn lemma_closure_without(t: Table, n: Seq<char>, y: TraitTerm, h: nat)
    requires
        closure_fuel(t, y, h) is Ok,
        never_closed(t, n, h),
    ensures
        closure_fuel(without_trait(t, n), y, h) == closure_fuel(t, y, h),
    decreases h, 0nat, 0nat,
{
    lemma_supertraits_without(t, n, y);
    assert(y.name != n);
    let sups = supertraits_of(t, y)->Ok_0;
    if sups.len() > 0 {
        lemma_closure_all_without(t, n, sups, (h - 1) as nat, sups.len());
    }
}

/// The closures of a list on the way of which no trait named `n` is closed
/// are the same without the declarations of that name.
pub proof fn lemma_closure_all_without(
    t: Table,
    n: Seq<char>,
    trs: Seq<TraitTerm>,
    h: nat,
    k: nat,
)
    requires
        closure_all(t, trs, h, k) is Ok,
        never_closed(t, n, h),
    ensures
        closure_all(without_trait(t, n), trs, h, k) == closure_all(t, trs, h, k),
    decreases h, 1nat, k,
{
    if k > 0 {
        lemma_closure_all_without(t, n, trs, h, (k - 1) as nat);
        lemma_closure_without(t, n, trs[k - 1], h);
    }
}

/// A closure that is computed without the declarations of a name is the
/// closure with them.
pub proof fn lemma_closure_with(t: Table, n: Seq<char>, y: TraitTerm, h: nat)
    requires
        closure_fuel(without_trait(t, n), y, h) is Ok,
    ensures
        closure_fuel(t, y, h) == closure_fuel(without_trait(t, n), y, h),
    decreases h, 0nat, 0nat,
{
    lemma_supertraits_without(t, n, y);
    let sups = supertraits_of(t, y)->Ok_0;
    if sups.len() > 0 {
        lemma_closure_all_with(t, n, sups, (h - 1) as nat, sups.len());
    }
}

/// The closures of a list that are computed without the declarations of a
/// name are the closures with them.
pub proof fn lemma_closure_all_with(t: Table, n: Seq<char>, trs: Seq<TraitTerm>, h: nat, k: nat)
    requires
        closure_all(without_trait(t, n), trs, h, k) is Ok,
    ensures
        closure_all(t, trs, h, k) == closure_all(without_trait(t, n), trs, h, k),
    decreases h, 1nat, k,
{
    if k > 0 {
        lemma_closure_all_with(t, n, trs, h, (k - 1) as nat);
        lemma_closure_with(t, n, trs[k - 1], h);
    }
}

/// A closure that can be computed with some fuel is computed with as much
/// fuel as there are trait declarations: on a chain of supertraits that ends,
/// no trait comes twice.
pub proof fn lemma_closure_enough(t: Table, tr: TraitTerm, g: nat)
    requires
        closure_fuel(t, tr, g) is Ok,
    ensures
        closure(t, tr) == closure_fuel(t, tr, g),
    decreases t.traits.len(),
{
    let n = tr.name;
    let sups = supertraits_of(t, tr)->Ok_0;
    let depth = t.traits.len();
    if sups.len() > 0 {
        let g0 = least_closure_fuel(t, tr, g);
        let h = (g0 - 1) as nat;
        let t2 = without_trait(t, n);
        lemma_drop_named(t.traits, n, n);
        let d2 = t2.traits.len();
        assert(d2 < depth);
        assert(never_closed(t, n, h)) by {
            assert forall|z: TraitTerm, k: nat| z.name == n && k <= h implies (
            #[trigger] closure_fuel(t, z, k)) is Err by {
                if closure_fuel(t, z, k) is Ok {
                    lemma_closure_names(t, z, tr, k, g0);
                }
            }
        }
        lemma_closure_all(t, sups, h, sups.len());
        lemma_closure_list_enough(t, n, sups, h, sups.len());
        lemma_closure_mono(t, tr, g0, g);
    }
}

/// The step of `lemma_closure_enough` for the direct supertraits.
pub proof fn lemma_closure_list_enough(
    t: Table,
    n: Seq<char>,
    trs: Seq<TraitTerm>,
    h: nat,
    k: nat,
)
    requires
        k <= trs.len(),
        closure_all(t, trs, h, k) is Ok,
        never_closed(t, n, h),
        drop_named(t.traits, n).len() < t.traits.len(),
    ensures
        closure_all(t, trs, (t.traits.len() - 1) as nat, k) == closure_all(t, trs, h, k),
    decreases t.traits.len(), k,
{
    if k > 0 {
        let t2 = without_trait(t, n);
        let d2 = t2.traits.len();
        let y = trs[k - 1];
        lemma_closure_list_enough(t, n, trs, h, (k - 1) as nat);
        lemma_closure_without(t, n, y, h);
        lemma_closure_enough(t2, y, h);
        lemma_closure_with(t, n, y, d2);
        lemma_closure_mono(t, y, d2, (t.traits.len() - 1) as nat);
    }
}

} // verus!
