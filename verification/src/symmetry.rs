//! Unification does not depend on which side comes first: run on swapped
//! arguments it succeeds or fails alike and links the same variables, up to
//! the direction of the bindings between variables.

use crate::concrete::TypeTerm;
use crate::seqs::{insert_new, lemma_insert_new, values};
use crate::unifier::{
    add_member, anchor, classes, classes_ok, classes_upto, find_class, holds, in_classes,
    keys_distinct, lemma_add_member, lemma_classes, lemma_find_class, lemma_in_classes,
    lemma_links_push, lemma_lookup, lemma_lookup_at, lemma_lookup_push, lemma_resolve_mono,
    lemma_resolve_settled, lemma_root_ends, lemma_roots_end, lemma_settled_holds,
    lemma_settled_resolve, links_forward, lookup, participant, resolve, resolve_each, resolve_fuel,
    root, root_fuel, settled, shorter, unify_fuel, unify_upto, var,
};
use vstd::prelude::*;

verus! {

/// `t` with every variable `v` replaced by the variable `f(v)`.
pub open spec fn rename(f: spec_fn(nat) -> nat, t: TypeTerm) -> TypeTerm
    decreases t,
{
    match t {
        TypeTerm::Variable { id } => TypeTerm::Variable { id: f(id) },
        TypeTerm::Constructor { name, args } => TypeTerm::Constructor {
            name,
            args: rename_each(f, args),
        },
    }
}

/// Each type of `ts` renamed.
pub open spec fn rename_each(f: spec_fn(nat) -> nat, ts: Seq<TypeTerm>) -> Seq<TypeTerm>
    decreases ts,
{
    Seq::new(
        ts.len(),
        |i: int|
            if 0 <= i < ts.len() {
                rename(f, ts[i])
            } else {
                arbitrary()
            },
    )
}

/// `t` with the variable `v` replaced by the type `u`.
pub open spec fn subst(v: nat, u: TypeTerm, t: TypeTerm) -> TypeTerm
    decreases t,
{
    match t {
        TypeTerm::Variable { id } => if id == v {
            u
        } else {
            t
        },
        TypeTerm::Constructor { name, args } => TypeTerm::Constructor {
            name,
            args: subst_each(v, u, args),
        },
    }
}

/// Each type of `ts` with the variable `v` replaced by the type `u`.
pub open spec fn subst_each(v: nat, u: TypeTerm, ts: Seq<TypeTerm>) -> Seq<TypeTerm>
    decreases ts,
{
    Seq::new(
        ts.len(),
        |i: int|
            if 0 <= i < ts.len() {
                subst(v, u, ts[i])
            } else {
                arbitrary()
            },
    )
}

/// `f` maps different unbound variables to different variables.
pub open spec fn injective(f: spec_fn(nat) -> nat, s: Seq<(nat, TypeTerm)>) -> bool {
    forall|u1: nat, u2: nat|
        lookup(s, u1) is None && lookup(s, u2) is None && #[trigger] f(u1) == #[trigger] f(u2)
            ==> u1 == u2
}

/// `x` under `s` and `x2` under `s2` resolve to the same type, up to the
/// renaming `f` of the unbound variables; or neither can be resolved.
pub open spec fn related(
    s: Seq<(nat, TypeTerm)>,
    s2: Seq<(nat, TypeTerm)>,
    f: spec_fn(nat) -> nat,
    x: TypeTerm,
    x2: TypeTerm,
) -> bool {
    ||| resolve(s, x) is Some && resolve(s2, x2) == Some(rename(f, resolve(s, x)->Some_0))
    ||| doomed(s, x) && doomed(s2, x2)
}

/// Resolution after one more binding: what a type resolved to before, with
/// the new variable replaced by its type.
pub proof fn lemma_resolve_push(
    s: Seq<(nat, TypeTerm)>,
    v: nat,
    t: TypeTerm,
    x: TypeTerm,
    fuel: nat,
)
    requires
        lookup(s, v) is None,
        settled(s.push((v, t)), t),
        resolve_fuel(s, x, fuel) is Some,
    ensures
        resolve_fuel(s.push((v, t)), x, fuel + 1) == Some(
            subst(v, t, resolve_fuel(s, x, fuel)->Some_0),
        ),
    decreases fuel, x,
{
    let s1 = s.push((v, t));
    let r = resolve_fuel(s, x, fuel)->Some_0;
    match x {
        TypeTerm::Variable { id } => {
            lemma_lookup_push(s, v, t, id);
            match lookup(s, id) {
                None => {
                    if id == v {
                        lemma_settled_resolve(s1, t, fuel);
                    }
                },
                Some(u) => {
                    lemma_resolve_push(s, v, t, u, (fuel - 1) as nat);
                },
            }
        },
        TypeTerm::Constructor { name, args } => {
            let rs = resolve_each(s, args, fuel);
            let rs1 = resolve_each(s1, args, fuel + 1);
            assert forall|i: int| 0 <= i < args.len() implies (#[trigger] rs1[i]) == Some(
                subst(v, t, rs[i]->Some_0),
            ) by {
                assert(rs[i] is Some);
                lemma_resolve_push(s, v, t, args[i], fuel);
            }
            assert(values(rs1) =~= subst_each(v, t, values(rs)));
        },
    }
}

/// Renaming and the replacement of a variable by a type change places.
pub proof fn lemma_rename_subst(
    s: Seq<(nat, TypeTerm)>,
    f: spec_fn(nat) -> nat,
    v: nat,
    t: TypeTerm,
    z: TypeTerm,
)
    requires
        injective(f, s),
        lookup(s, v) is None,
        settled(s, z),
    ensures
        subst(f(v), rename(f, t), rename(f, z)) == rename(f, subst(v, t, z)),
    decreases z,
{
    match z {
        TypeTerm::Variable { id } => {
            if id != v {
                assert(f(id) != f(v));
            }
        },
        TypeTerm::Constructor { name, args } => {
            let l = subst_each(f(v), rename(f, t), rename_each(f, args));
            let r = rename_each(f, subst_each(v, t, args));
            assert forall|i: int| 0 <= i < args.len() implies l[i] == r[i] by {
                assert(settled(s, args[i]));
                lemma_rename_subst(s, f, v, t, args[i]);
            }
            assert(l =~= r);
        },
    }
}

/// The renaming that goes with a binding of `v` to the variable `w`, when the
/// other side binds `f(w)` to `f(v)`.
pub open spec fn redirect(f: spec_fn(nat) -> nat, v: nat, w: nat) -> spec_fn(nat) -> nat {
    |u: nat|
        if u == w {
            f(v)
        } else {
            f(u)
        }
}

/// Binding `v` to `w` on one side is binding `f(w)` to `f(v)` on the other.
pub proof fn lemma_rename_redirect(
    s: Seq<(nat, TypeTerm)>,
    f: spec_fn(nat) -> nat,
    v: nat,
    w: nat,
    z: TypeTerm,
)
    requires
        injective(f, s),
        lookup(s, v) is None,
        lookup(s, w) is None,
        v != w,
        settled(s, z),
    ensures
        subst(f(w), TypeTerm::Variable { id: f(v) }, rename(f, z)) == rename(
            redirect(f, v, w),
            subst(v, TypeTerm::Variable { id: w }, z),
        ),
    decreases z,
{
    let g = redirect(f, v, w);
    let tw = TypeTerm::Variable { id: w };
    let tv = TypeTerm::Variable { id: f(v) };
    match z {
        TypeTerm::Variable { id } => {
            assert(f(v) != f(w));
            if id != w && id != v {
                assert(f(id) != f(w));
            }
            assert(g(w) == f(v));
            assert(g(id) == if id == w {
                f(v)
            } else {
                f(id)
            });
        },
        TypeTerm::Constructor { name, args } => {
            let l = subst_each(f(w), tv, rename_each(f, args));
            let r = rename_each(g, subst_each(v, tw, args));
            assert forall|i: int| 0 <= i < args.len() implies l[i] == r[i] by {
                assert(settled(s, args[i]));
                lemma_rename_redirect(s, f, v, w, args[i]);
            }
            assert(l =~= r);
        },
    }
}

/// A renamed type holds no bound variable and not `f(v)`, when the type held
/// no bound variable and not `v`.
pub proof fn lemma_settled_rename(
    s: Seq<(nat, TypeTerm)>,
    s2: Seq<(nat, TypeTerm)>,
    f: spec_fn(nat) -> nat,
    v: nat,
    t: TypeTerm,
    t2: TypeTerm,
    z: TypeTerm,
)
    requires
        injective(f, s),
        lookup(s, v) is None,
        settled(s.push((v, t)), z),
        settled(s2, rename(f, z)),
    ensures
        settled(s2.push((f(v), t2)), rename(f, z)),
    decreases z,
{
    match z {
        TypeTerm::Variable { id } => {
            lemma_lookup_push(s, v, t, id);
            lemma_lookup_push(s2, f(v), t2, f(id));
            assert(id != v);
            assert(f(id) != f(v));
        },
        TypeTerm::Constructor { name, args } => {
            let ra = rename(f, z)->Constructor_args;
            assert(ra == rename_each(f, args));
            assert forall|i: int| 0 <= i < ra.len() implies settled(
                s2.push((f(v), t2)),
                #[trigger] ra[i],
            ) by {
                assert(settled(s.push((v, t)), args[i]));
                assert(settled(s2, ra[i]));
                lemma_settled_rename(s, s2, f, v, t, t2, args[i]);
            }
        },
    }
}

/// One more binding of an unbound variable binds no variable twice.
pub proof fn lemma_keys_push(s: Seq<(nat, TypeTerm)>, v: nat, t: TypeTerm)
    requires
        keys_distinct(s),
        lookup(s, v) is None,
    ensures
        keys_distinct(s.push((v, t))),
{
    let s1 = s.push((v, t));
    lemma_lookup(s, v);
    assert forall|i: int, j: int| 0 <= i < j < s1.len() implies (#[trigger] s1[i]).0 != (
    #[trigger] s1[j]).0 by {
        if j < s.len() {
            assert(s[i].0 != s[j].0);
        } else {
            assert(s[i].0 != v);
        }
    }
}

/// What resolves on the one side is related to what resolves alike on the
/// other, not to what is doomed.
pub proof fn lemma_related_some(
    s: Seq<(nat, TypeTerm)>,
    s2: Seq<(nat, TypeTerm)>,
    f: spec_fn(nat) -> nat,
    x: TypeTerm,
    x2: TypeTerm,
)
    requires
        keys_distinct(s),
        keys_distinct(s2),
        related(s, s2, f, x, x2),
    ensures
        resolve(s, x) is Some ==> resolve(s2, x2) == Some(rename(f, resolve(s, x)->Some_0)),
        resolve(s, x) is None ==> resolve(s2, x2) is None,
        resolve(s2, x2) is Some ==> resolve(s, x) is Some,
{
    if doomed(s, x) {
        lemma_doomed(s, x);
    }
    if doomed(s2, x2) {
        lemma_doomed(s2, x2);
    }
}

/// A binding of a variable to a type that does not hold it on one side, and
/// the renamed binding on the other, keep related what was related.
pub proof fn lemma_bind_related(
    s: Seq<(nat, TypeTerm)>,
    s2: Seq<(nat, TypeTerm)>,
    f: spec_fn(nat) -> nat,
    v: nat,
    c: TypeTerm,
    x: TypeTerm,
    x2: TypeTerm,
)
    requires
        injective(f, s),
        lookup(s, v) is None,
        lookup(s2, f(v)) is None,
        settled(s, c),
        settled(s2, rename(f, c)),
        !holds(c, v),
        related(s, s2, f, x, x2),
    ensures
        related(s.push((v, c)), s2.push((f(v), rename(f, c))), f, x, x2),
{
    if doomed(s, x) && doomed(s2, x2) {
        lemma_doomed_push(s, v, c, x);
        lemma_doomed_push(s2, f(v), rename(f, c), x2);
    } else {
        let r = resolve(s, x)->Some_0;
        lemma_settled_holds(s, v, c, c);
        lemma_settled_rename(s, s2, f, v, c, rename(f, c), c);
        lemma_resolve_settled(s, x, s.len());
        lemma_resolve_push(s, v, c, x, s.len());
        lemma_resolve_push(s2, f(v), rename(f, c), x2, s2.len());
        lemma_rename_subst(s, f, v, c, r);
    }
}

/// A binding of a variable to a type that holds it on one side, and the
/// renamed binding on the other, keep related what was related: what held
/// the variable is doomed on both sides, and the rest resolves as before.
pub proof fn lemma_cycle_related(
    s: Seq<(nat, TypeTerm)>,
    s2: Seq<(nat, TypeTerm)>,
    f: spec_fn(nat) -> nat,
    v: nat,
    c: TypeTerm,
    x: TypeTerm,
    x2: TypeTerm,
)
    requires
        injective(f, s),
        lookup(s, v) is None,
        lookup(s2, f(v)) is None,
        holds(c, v),
        related(s, s2, f, x, x2),
    ensures
        related(s.push((v, c)), s2.push((f(v), rename(f, c))), f, x, x2),
{
    let s1 = s.push((v, c));
    let t1 = s2.push((f(v), rename(f, c)));
    if doomed(s, x) && doomed(s2, x2) {
        lemma_doomed_push(s, v, c, x);
        lemma_doomed_push(s2, f(v), rename(f, c), x2);
    } else {
        let r = resolve(s, x)->Some_0;
        lemma_resolve_settled(s, x, s.len());
        lemma_holds_rename(s, f, r, v);
        lemma_holds_rename(s, f, c, v);
        if holds(r, v) {
            assert(s1.take(s.len() as int) =~= s);
            assert(doomed_at(s1, x, s.len() as int));
            assert(t1.take(s2.len() as int) =~= s2);
            assert(doomed_at(t1, x2, s2.len() as int));
        } else {
            lemma_resolve_push_free(s, v, c, x, s.len());
            lemma_resolve_push_free(s2, f(v), rename(f, c), x2, s2.len());
        }
    }
}

/// A binding of `v` to the variable `w` on one side and of `f(w)` to `f(v)`
/// on the other keep related what was related, under the redirected renaming.
pub proof fn lemma_link_related(
    s: Seq<(nat, TypeTerm)>,
    s2: Seq<(nat, TypeTerm)>,
    f: spec_fn(nat) -> nat,
    v: nat,
    w: nat,
    x: TypeTerm,
    x2: TypeTerm,
)
    requires
        injective(f, s),
        lookup(s, v) is None,
        lookup(s, w) is None,
        v != w,
        lookup(s2, f(v)) is None,
        lookup(s2, f(w)) is None,
        related(s, s2, f, x, x2),
    ensures
        related(
            s.push((v, TypeTerm::Variable { id: w })),
            s2.push((f(w), TypeTerm::Variable { id: f(v) })),
            redirect(f, v, w),
            x,
            x2,
        ),
{
    let tw = TypeTerm::Variable { id: w };
    let tv = TypeTerm::Variable { id: f(v) };
    if doomed(s, x) && doomed(s2, x2) {
        lemma_doomed_push(s, v, tw, x);
        lemma_doomed_push(s2, f(w), tv, x2);
    } else {
        let r = resolve(s, x)->Some_0;
        assert(f(v) != f(w));
        lemma_lookup_push(s, v, tw, w);
        lemma_lookup_push(s2, f(w), tv, f(v));
        lemma_resolve_settled(s, x, s.len());
        lemma_resolve_push(s, v, tw, x, s.len());
        lemma_resolve_push(s2, f(w), tv, x2, s2.len());
        lemma_rename_redirect(s, f, v, w, r);
    }
}

/// A binding of a variable to a constructor on one side and the renamed
/// binding on the other: what the two sides keep.
pub proof fn lemma_bind_step(
    s: Seq<(nat, TypeTerm)>,
    s2: Seq<(nat, TypeTerm)>,
    f: spec_fn(nat) -> nat,
    phi: spec_fn(nat) -> nat,
    v: nat,
    c: TypeTerm,
)
    requires
        keys_distinct(s),
        keys_distinct(s2),
        links_forward(s),
        links_forward(s2),
        injective(f, s),
        aligned(s, s2, f, phi),
        lookup(s, v) is None,
        lookup(s2, f(v)) is None,
        settled(s, c),
        settled(s2, rename(f, c)),
        c is Constructor,
    ensures
        keys_distinct(s.push((v, c))),
        keys_distinct(s2.push((f(v), rename(f, c)))),
        links_forward(s.push((v, c))),
        links_forward(s2.push((f(v), rename(f, c)))),
        injective(f, s.push((v, c))),
        aligned(s.push((v, c)), s2.push((f(v), rename(f, c))), f, phi),
        forall|x: TypeTerm, x2: TypeTerm| #[trigger]
            related(s, s2, f, x, x2) ==> related(
                s.push((v, c)),
                s2.push((f(v), rename(f, c))),
                f,
                x,
                x2,
            ),
{
    let s1 = s.push((v, c));
    lemma_keys_push(s, v, c);
    lemma_keys_push(s2, f(v), rename(f, c));
    lemma_links_push(s, v, c);
    lemma_links_push(s2, f(v), rename(f, c));
    lemma_aligned_bind(s, s2, f, phi, v, c);
    assert forall|x: TypeTerm, x2: TypeTerm| #[trigger] related(s, s2, f, x, x2) implies related(
        s.push((v, c)),
        s2.push((f(v), rename(f, c))),
        f,
        x,
        x2,
    ) by {
        if holds(c, v) {
            lemma_cycle_related(s, s2, f, v, c, x, x2);
        } else {
            lemma_bind_related(s, s2, f, v, c, x, x2);
        }
    }
    assert forall|u1: nat, u2: nat|
        lookup(s1, u1) is None && lookup(s1, u2) is None && #[trigger] f(u1) == #[trigger] f(
            u2,
        ) implies u1 == u2 by {
        lemma_lookup_push(s, v, c, u1);
        lemma_lookup_push(s, v, c, u2);
    }
}

/// Unification with the sides swapped. Where `a` and `b` under `s` are
/// related to `a2` and `b2` under `s2`, unifying `b2` with `a2` under `s2`
/// goes as unifying `a` with `b` under `s` does: it succeeds or fails alike,
/// and what was related stays related, under the renaming that is returned
/// with the substitution of the swapped run.
pub proof fn lemma_swap(
    s: Seq<(nat, TypeTerm)>,
    s2: Seq<(nat, TypeTerm)>,
    f: spec_fn(nat) -> nat,
    phi: spec_fn(nat) -> nat,
    a: TypeTerm,
    b: TypeTerm,
    a2: TypeTerm,
    b2: TypeTerm,
    fuel: nat,
) -> (r: (Seq<(nat, TypeTerm)>, spec_fn(nat) -> nat, spec_fn(nat) -> nat))
    requires
        keys_distinct(s),
        keys_distinct(s2),
        links_forward(s),
        links_forward(s2),
        injective(f, s),
        aligned(s, s2, f, phi),
        related(s, s2, f, a, a2),
        related(s, s2, f, b, b2),
        unify_fuel(s, a, b, fuel) is Some,
    ensures
        unify_fuel(s2, b2, a2, fuel) == Some((r.0, unify_fuel(s, a, b, fuel)->Some_0.1)),
        keys_distinct(unify_fuel(s, a, b, fuel)->Some_0.0),
        keys_distinct(r.0),
        links_forward(unify_fuel(s, a, b, fuel)->Some_0.0),
        links_forward(r.0),
        injective(r.1, unify_fuel(s, a, b, fuel)->Some_0.0),
        aligned(unify_fuel(s, a, b, fuel)->Some_0.0, r.0, r.1, r.2),
        forall|x: TypeTerm, x2: TypeTerm| #[trigger]
            related(s, s2, f, x, x2) ==> related(
                unify_fuel(s, a, b, fuel)->Some_0.0,
                r.0,
                r.1,
                x,
                x2,
            ),
    decreases fuel, 0nat, 1nat,
{
    lemma_related_some(s, s2, f, a, a2);
    lemma_related_some(s, s2, f, b, b2);
    if resolve(s, a) is None || resolve(s, b) is None {
        (s2, f, phi)
    } else {
        lemma_swap_resolved(s, s2, f, phi, a, b, a2, b2, fuel)
    }
}

/// The case of `lemma_swap` in which both sides resolve.
pub proof fn lemma_swap_resolved(
    s: Seq<(nat, TypeTerm)>,
    s2: Seq<(nat, TypeTerm)>,
    f: spec_fn(nat) -> nat,
    phi: spec_fn(nat) -> nat,
    a: TypeTerm,
    b: TypeTerm,
    a2: TypeTerm,
    b2: TypeTerm,
    fuel: nat,
) -> (r: (Seq<(nat, TypeTerm)>, spec_fn(nat) -> nat, spec_fn(nat) -> nat))
    requires
        keys_distinct(s),
        keys_distinct(s2),
        links_forward(s),
        links_forward(s2),
        injective(f, s),
        aligned(s, s2, f, phi),
        resolve(s, a) is Some,
        resolve(s, b) is Some,
        resolve(s2, a2) == Some(rename(f, resolve(s, a)->Some_0)),
        resolve(s2, b2) == Some(rename(f, resolve(s, b)->Some_0)),
        unify_fuel(s, a, b, fuel) is Some,
    ensures
        unify_fuel(s2, b2, a2, fuel) == Some((r.0, unify_fuel(s, a, b, fuel)->Some_0.1)),
        keys_distinct(unify_fuel(s, a, b, fuel)->Some_0.0),
        keys_distinct(r.0),
        links_forward(unify_fuel(s, a, b, fuel)->Some_0.0),
        links_forward(r.0),
        injective(r.1, unify_fuel(s, a, b, fuel)->Some_0.0),
        aligned(unify_fuel(s, a, b, fuel)->Some_0.0, r.0, r.1, r.2),
        forall|x: TypeTerm, x2: TypeTerm| #[trigger]
            related(s, s2, f, x, x2) ==> related(
                unify_fuel(s, a, b, fuel)->Some_0.0,
                r.0,
                r.1,
                x,
                x2,
            ),
    decreases fuel, 0nat, 0nat,
{
    let ra = resolve(s, a)->Some_0;
    let rb = resolve(s, b)->Some_0;
    let s1 = unify_fuel(s, a, b, fuel)->Some_0.0;
    lemma_resolve_settled(s, a, s.len());
    lemma_resolve_settled(s, b, s.len());
    lemma_resolve_settled(s2, a2, s2.len());
    lemma_resolve_settled(s2, b2, s2.len());
    assert(resolve(s2, a2) == Some(rename(f, ra)));
    assert(resolve(s2, b2) == Some(rename(f, rb)));
    match ra {
        TypeTerm::Constructor { name: n1, args: a1 } => match rb {
            TypeTerm::Constructor { name: n2, args: b1 } => {
                if n1 != n2 {
                    (s2, f, phi)
                } else {
                    let k = shorter(a1, b1);
                    let a1r = rename(f, ra)->Constructor_args;
                    let b1r = rename(f, rb)->Constructor_args;
                    assert(a1r == rename_each(f, a1));
                    assert(b1r == rename_each(f, b1));
                    assert(ra->Constructor_args == a1);
                    assert(rb->Constructor_args == b1);
                    assert forall|i: int| 0 <= i < k implies related(
                        s,
                        s2,
                        f,
                        #[trigger] a1[i],
                        a1r[i],
                    ) && related(s, s2, f, b1[i], b1r[i]) by {
                        assert(settled(s, a1[i]));
                        assert(settled(s, b1[i]));
                        assert(settled(s2, a1r[i]));
                        assert(settled(s2, b1r[i]));
                        lemma_settled_resolve(s, a1[i], s.len());
                        lemma_settled_resolve(s, b1[i], s.len());
                        lemma_settled_resolve(s2, a1r[i], s2.len());
                        lemma_settled_resolve(s2, b1r[i], s2.len());
                    }
                    assert(shorter(b1r, a1r) == k);
                    lemma_swap_upto(s, s2, f, phi, a1, b1, a1r, b1r, k, (fuel - 1) as nat)
                }
            },
            TypeTerm::Variable { id } => {
                lemma_bind_step(s, s2, f, phi, id, ra);
                (s2.push((f(id), rename(f, ra))), f, phi)
            },
        },
        TypeTerm::Variable { id: i1 } => match rb {
            TypeTerm::Constructor { .. } => {
                lemma_bind_step(s, s2, f, phi, i1, rb);
                (s2.push((f(i1), rename(f, rb))), f, phi)
            },
            TypeTerm::Variable { id: i2 } => {
                if i1 == i2 {
                    (s2, f, phi)
                } else {
                    let g = redirect(f, i1, i2);
                    let tv = TypeTerm::Variable { id: f(i1) };
                    assert(f(i1) != f(i2));
                    lemma_aligned_link(s, s2, f, phi, i1, i2);
                    lemma_keys_push(s, i1, rb);
                    lemma_keys_push(s2, f(i2), tv);
                    lemma_links_push(s, i1, rb);
                    lemma_links_push(s2, f(i2), tv);
                    assert forall|x: TypeTerm, x2: TypeTerm| #[trigger]
                        related(s, s2, f, x, x2) implies related(
                        s.push((i1, rb)),
                        s2.push((f(i2), tv)),
                        g,
                        x,
                        x2,
                    ) by {
                        lemma_link_related(s, s2, f, i1, i2, x, x2);
                    }
                    assert forall|u1: nat, u2: nat|
                        lookup(s1, u1) is None && lookup(s1, u2) is None && #[trigger] g(u1)
                            == #[trigger] g(u2) implies u1 == u2 by {
                        lemma_lookup_push(s, i1, rb, u1);
                        lemma_lookup_push(s, i1, rb, u2);
                        assert(f(u1) == f(u1) && f(u2) == f(u2));
                        if u1 == i2 {
                            assert(f(i1) == f(u2) || u2 == i2);
                        }
                        if u2 == i2 {
                            assert(f(i1) == f(u1) || u1 == i2);
                        }
                    }
                    (s2.push((f(i2), tv)), g, redirect(phi, i1, i2))
                }
            },
        },
    }
}

/// Unification of lists with the sides swapped; see `lemma_swap`.
pub proof fn lemma_swap_upto(
    s: Seq<(nat, TypeTerm)>,
    s2: Seq<(nat, TypeTerm)>,
    f: spec_fn(nat) -> nat,
    phi: spec_fn(nat) -> nat,
    xs: Seq<TypeTerm>,
    ys: Seq<TypeTerm>,
    xs2: Seq<TypeTerm>,
    ys2: Seq<TypeTerm>,
    k: nat,
    fuel: nat,
) -> (r: (Seq<(nat, TypeTerm)>, spec_fn(nat) -> nat, spec_fn(nat) -> nat))
    requires
        keys_distinct(s),
        keys_distinct(s2),
        links_forward(s),
        links_forward(s2),
        injective(f, s),
        aligned(s, s2, f, phi),
        k <= xs.len(),
        k <= ys.len(),
        xs2.len() == xs.len(),
        ys2.len() == ys.len(),
        forall|i: int|
            0 <= i < k ==> related(s, s2, f, #[trigger] xs[i], xs2[i]) && related(
                s,
                s2,
                f,
                ys[i],
                ys2[i],
            ),
        unify_upto(s, xs, ys, k, fuel) is Some,
    ensures
        unify_upto(s2, ys2, xs2, k, fuel) == Some(
            (r.0, unify_upto(s, xs, ys, k, fuel)->Some_0.1),
        ),
        keys_distinct(unify_upto(s, xs, ys, k, fuel)->Some_0.0),
        keys_distinct(r.0),
        links_forward(unify_upto(s, xs, ys, k, fuel)->Some_0.0),
        links_forward(r.0),
        injective(r.1, unify_upto(s, xs, ys, k, fuel)->Some_0.0),
        aligned(unify_upto(s, xs, ys, k, fuel)->Some_0.0, r.0, r.1, r.2),
        forall|x: TypeTerm, x2: TypeTerm| #[trigger]
            related(s, s2, f, x, x2) ==> related(
                unify_upto(s, xs, ys, k, fuel)->Some_0.0,
                r.0,
                r.1,
                x,
                x2,
            ),
    decreases fuel, 1nat, k,
{
    if k == 0 {
        (s2, f, phi)
    } else {
        let p = unify_upto(s, xs, ys, (k - 1) as nat, fuel);
        let (sa, oka) = p->Some_0;
        let (sa2, fa, pa) = lemma_swap_upto(
            s,
            s2,
            f,
            phi,
            xs,
            ys,
            xs2,
            ys2,
            (k - 1) as nat,
            fuel,
        );
        if oka {
            assert(related(s, s2, f, xs[k - 1], xs2[k - 1]));
            assert(related(s, s2, f, ys[k - 1], ys2[k - 1]));
            let (sb2, fb, pb) = lemma_swap(
                sa,
                sa2,
                fa,
                pa,
                xs[k - 1],
                ys[k - 1],
                xs2[k - 1],
                ys2[k - 1],
                fuel,
            );
            (sb2, fb, pb)
        } else {
            (sa2, fa, pa)
        }
    }
}

/// What resolution makes of a variable tells its representative: a variable
/// that resolves to a variable has that one for its representative, and it is
/// unbound; a variable that resolves to a constructor has a representative
/// that is bound to a constructor.
pub proof fn lemma_root_resolve(s: Seq<(nat, TypeTerm)>, v: nat, fuel: nat)
    requires
        resolve_fuel(s, TypeTerm::Variable { id: v }, fuel) is Some,
    ensures
        match resolve_fuel(s, TypeTerm::Variable { id: v }, fuel)->Some_0 {
            TypeTerm::Variable { id } => root_fuel(s, v, fuel) == id && lookup(s, id) is None,
            TypeTerm::Constructor { .. } => lookup(s, root_fuel(s, v, fuel)) is Some && lookup(
                s,
                root_fuel(s, v, fuel),
            )->Some_0 is Constructor,
        },
    decreases fuel,
{
    let tv = TypeTerm::Variable { id: v };
    match lookup(s, v) {
        None => {
            assert(resolve_fuel(s, tv, fuel) == Some(tv));
            assert(root_fuel(s, v, fuel) == v);
        },
        Some(u) => {
            assert(fuel > 0);
            assert(resolve_fuel(s, tv, fuel) == resolve_fuel(s, u, (fuel - 1) as nat));
            match u {
                TypeTerm::Variable { id } => {
                    assert(root_fuel(s, v, fuel) == root_fuel(s, id, (fuel - 1) as nat));
                    lemma_root_resolve(s, id, (fuel - 1) as nat);
                },
                TypeTerm::Constructor { name, args } => {
                    let rs = resolve_each(s, args, (fuel - 1) as nat);
                    assert(resolve_fuel(s, u, (fuel - 1) as nat)->Some_0 is Constructor);
                    assert(root_fuel(s, v, fuel) == v);
                },
            }
        },
    }
}

/// A variable that resolves to another variable leads to it by a binding
/// whose type is that variable.
pub proof fn lemma_var_target(s: Seq<(nat, TypeTerm)>, y: nat, z: nat, fuel: nat)
    requires
        resolve_fuel(s, TypeTerm::Variable { id: y }, fuel) == Some(TypeTerm::Variable { id: z }),
        y != z,
    ensures
        exists|i: int| 0 <= i < s.len() && (#[trigger] s[i]).1 == (TypeTerm::Variable { id: z }),
    decreases fuel,
{
    lemma_lookup(s, y);
    let ty = TypeTerm::Variable { id: y };
    match lookup(s, y) {
        None => {
            assert(resolve_fuel(s, ty, fuel) == Some(ty));
        },
        Some(u) => {
            assert(fuel > 0);
            assert(resolve_fuel(s, ty, fuel) == resolve_fuel(s, u, (fuel - 1) as nat));
            match u {
                TypeTerm::Variable { id } => {
                    if id == z {
                        let i = choose|i: int| 0 <= i < s.len() && #[trigger] s[i] == (y, u);
                        assert(s[i].1 == (TypeTerm::Variable { id: z }));
                    } else {
                        lemma_var_target(s, id, z, (fuel - 1) as nat);
                    }
                },
                TypeTerm::Constructor { name, args } => {
                    let rs = resolve_each(s, args, (fuel - 1) as nat);
                    assert(resolve_fuel(s, u, (fuel - 1) as nat)->Some_0 is Constructor);
                },
            }
        },
    }
}

/// The variable `v` under `s` and the variable `p(v)` under `s2` resolve to
/// the same type, up to the renaming `f` of the unbound variables.
pub open spec fn linked(
    s: Seq<(nat, TypeTerm)>,
    s2: Seq<(nat, TypeTerm)>,
    f: spec_fn(nat) -> nat,
    p: spec_fn(nat) -> nat,
    v: nat,
) -> bool {
    related(s, s2, f, var(v), var(p(v)))
}

/// A variable that resolves to the unbound variable `r` takes part in a
/// binding, when some variable that does resolves to `r`.
pub proof fn lemma_participant(s: Seq<(nat, TypeTerm)>, x: nat, r: nat, m0: nat)
    requires
        resolve(s, var(x)) == Some(var(r)),
        resolve(s, var(m0)) == Some(var(r)),
        participant(s, m0),
    ensures
        participant(s, x),
{
    if x != r {
        lemma_lookup(s, x);
        if lookup(s, x) is None {
            assert(resolve_fuel(s, var(x), s.len()) == Some(var(x)));
        }
        let u = lookup(s, x)->Some_0;
        let i = choose|i: int| 0 <= i < s.len() && #[trigger] s[i] == (x, u);
        assert(s[i].0 == x);
    } else {
        if m0 != r {
            lemma_var_target(s, m0, r, s.len());
            let i = choose|i: int| 0 <= i < s.len() && (#[trigger] s[i]).1 == var(r);
            assert(s[i].1 == var(x));
        }
    }
}

/// A variable `m` that takes part in a binding and resolves to the unbound
/// variable `r` has a counterpart `p(m)` that takes part in one too.
pub proof fn lemma_participant_swapped(
    s: Seq<(nat, TypeTerm)>,
    s2: Seq<(nat, TypeTerm)>,
    f: spec_fn(nat) -> nat,
    p: spec_fn(nat) -> nat,
    pinv: spec_fn(nat) -> nat,
    m: nat,
    r: nat,
)
    requires
        keys_distinct(s),
        keys_distinct(s2),
        forall|v: nat| #[trigger] linked(s, s2, f, p, v),
        forall|x: nat| #[trigger] pinv(p(x)) == x,
        participant(s, m),
        resolve(s, var(m)) == Some(var(r)),
    ensures
        participant(s2, p(m)),
{
    assert(linked(s, s2, f, p, m));
    lemma_related_some(s, s2, f, var(m), var(p(m)));
    assert(resolve(s2, var(p(m))) == Some(var(f(r))));
    lemma_resolve_settled(s, var(m), s.len());
    assert(lookup(s, r) is None);
    assert(resolve_fuel(s, var(r), s.len()) == Some(var(r)));
    if p(m) != f(r) {
        lemma_lookup(s2, p(m));
        if lookup(s2, p(m)) is None {
            assert(resolve_fuel(s2, var(p(m)), s2.len()) == Some(var(p(m))));
        }
        let u = lookup(s2, p(m))->Some_0;
        let i = choose|i: int| 0 <= i < s2.len() && #[trigger] s2[i] == (p(m), u);
        assert(s2[i].0 == p(m));
    } else {
        // Another variable resolves to `r`; its counterpart leads to `f(r)`.
        let k = if m != r {
            r
        } else {
            lemma_lookup(s, r);
            let i = choose|i: int|
                0 <= i < s.len() && ((#[trigger] s[i]).0 == m || s[i].1 == var(m));
            assert(s[i].0 != r);
            lemma_lookup_at(s, i);
            assert(s.len() > 0);
            assert(resolve_fuel(s, var(s[i].0), s.len()) == resolve_fuel(
                s,
                var(r),
                (s.len() - 1) as nat,
            ));
            assert(resolve_fuel(s, var(r), (s.len() - 1) as nat) == Some(var(r)));
            s[i].0
        };
        assert(k != m);
        assert(resolve(s, var(k)) == Some(var(r)));
        assert(linked(s, s2, f, p, k));
        lemma_related_some(s, s2, f, var(k), var(p(k)));
        assert(resolve(s2, var(p(k))) == Some(var(f(r))));
        assert(pinv(p(k)) == k && pinv(p(m)) == m);
        assert(p(k) != p(m));
        lemma_var_target(s2, p(k), f(r), s2.len());
        let i = choose|i: int| 0 <= i < s2.len() && (#[trigger] s2[i]).1 == var(f(r));
        assert(s2[i].1 == var(p(m)));
    }
}

/// A member of a class whose representative is unbound resolves to the
/// representative.
pub proof fn lemma_member_resolves(s: Seq<(nat, TypeTerm)>, m: nat, r: nat)
    requires
        root(s, m) == r,
        lookup(s, r) is None,
    ensures
        resolve(s, var(m)) == Some(var(r)),
{
    lemma_root_resolves(s, m, s.len());
}

/// The classes of the swapped run: a class without a constructor has a
/// counterpart without one, whose members are the counterparts of its
/// members.
pub proof fn lemma_class_swapped(
    s: Seq<(nat, TypeTerm)>,
    s2: Seq<(nat, TypeTerm)>,
    f: spec_fn(nat) -> nat,
    p: spec_fn(nat) -> nat,
    pinv: spec_fn(nat) -> nat,
    j: int,
) -> (j2: int)
    requires
        keys_distinct(s),
        keys_distinct(s2),
        links_forward(s),
        links_forward(s2),
        injective(f, s),
        forall|v: nat| #[trigger] linked(s, s2, f, p, v),
        forall|x: nat| #[trigger] pinv(p(x)) == x,
        forall|y: nat| #[trigger] p(pinv(y)) == y,
        0 <= j < classes(s).len(),
        classes(s)[j].0 is None,
    ensures
        0 <= j2 < classes(s2).len(),
        classes(s2)[j2].0 is None,
        forall|m: nat| classes(s)[j].1.contains(m) ==> #[trigger] classes(s2)[j2].1.contains(p(m)),
        forall|m2: nat| #[trigger]
            classes(s2)[j2].1.contains(m2) ==> classes(s)[j].1.contains(pinv(m2)),
        lookup(s, root(s, classes(s)[j].1[0])) is None,
        root(s2, classes(s2)[j2].1[0]) == f(root(s, classes(s)[j].1[0])),
{
    let cs = classes(s);
    let cs2 = classes(s2);
    let ms = cs[j].1;
    let m0 = ms[0];
    lemma_in_classes(s, m0);
    assert(ms.len() > 0);
    assert(ms.contains(m0));
    assert(in_classes(cs, m0));
    // The class has an unbound representative.
    let r = root(s, m0);
    lemma_root_ends(s, m0);
    assert(cs[j].0 == anchor(s, m0));
    assert(lookup(s, r) is None);
    lemma_member_resolves(s, m0, r);
    assert(linked(s, s2, f, p, m0));
    lemma_related_some(s, s2, f, var(m0), var(p(m0)));
    // Its counterpart has a class.
    lemma_participant_swapped(s, s2, f, p, pinv, m0, r);
    lemma_in_classes(s2, p(m0));
    let j2 = choose|j2: int| 0 <= j2 < cs2.len() && (#[trigger] cs2[j2]).1.contains(p(m0));
    let ms2 = cs2[j2].1;
    let k0 = choose|k: int| 0 <= k < ms2.len() && ms2[k] == p(m0);
    lemma_root_resolve(s2, p(m0), s2.len());
    assert(root(s2, p(m0)) == f(r));
    assert(lookup(s2, f(r)) is None);
    assert(root(s2, ms2[k0]) == root(s2, ms2[0]));
    assert(cs2[j2].0 == anchor(s2, ms2[0]));
    assert forall|m: nat| ms.contains(m) implies #[trigger] ms2.contains(p(m)) by {
        let k = choose|k: int| 0 <= k < ms.len() && ms[k] == m;
        assert(root(s, ms[k]) == root(s, ms[0]));
        assert(linked(s, s2, f, p, m));
        lemma_member_resolves(s, m, r);
        lemma_related_some(s, s2, f, var(m), var(p(m)));
        assert(in_classes(cs, m));
        lemma_in_classes(s, m);
        lemma_participant_swapped(s, s2, f, p, pinv, m, r);
        lemma_in_classes(s2, p(m));
        let i2 = choose|i2: int| 0 <= i2 < cs2.len() && (#[trigger] cs2[i2]).1.contains(p(m));
        let k2 = choose|k2: int| 0 <= k2 < cs2[i2].1.len() && cs2[i2].1[k2] == p(m);
        lemma_root_resolve(s2, p(m), s2.len());
        assert(root(s2, cs2[i2].1[k2]) == root(s2, cs2[i2].1[0]));
        if i2 < j2 {
            assert(root(s2, cs2[i2].1[0]) != root(s2, cs2[j2].1[0]));
        }
        if j2 < i2 {
            assert(root(s2, cs2[j2].1[0]) != root(s2, cs2[i2].1[0]));
        }
    }
    assert forall|m2: nat| #[trigger] ms2.contains(m2) implies ms.contains(pinv(m2)) by {
        let k2 = choose|k2: int| 0 <= k2 < ms2.len() && ms2[k2] == m2;
        assert(root(s2, ms2[k2]) == root(s2, ms2[0]));
        let x = pinv(m2);
        assert(p(pinv(m2)) == m2);
        assert(linked(s, s2, f, p, x));
        lemma_member_resolves(s2, m2, f(r));
        lemma_related_some(s, s2, f, var(x), var(p(x)));
        let big = resolve(s, var(x))->Some_0;
        lemma_resolve_settled(s, var(x), s.len());
        assert(rename(f, big) == var(f(r)));
        assert(big is Variable);
        let u = big->Variable_id;
        assert(f(u) == f(r));
        assert(u == r);
        lemma_participant(s, x, r, m0);
        lemma_in_classes(s, x);
        let i = choose|i: int| 0 <= i < cs.len() && (#[trigger] cs[i]).1.contains(x);
        let k = choose|k: int| 0 <= k < cs[i].1.len() && cs[i].1[k] == x;
        lemma_root_resolve(s, x, s.len());
        assert(root(s, cs[i].1[k]) == root(s, cs[i].1[0]));
        if i < j {
            assert(root(s, cs[i].1[0]) != root(s, cs[j].1[0]));
        }
        if j < i {
            assert(root(s, cs[j].1[0]) != root(s, cs[i].1[0]));
        }
    }
    j2
}

/// Renaming keeps the variables of a type: the renamed type holds `f(v)`
/// where the type holds `v`; and only then, where `f` tells the unbound
/// variables apart and the type is settled.
pub proof fn lemma_holds_rename(
    s: Seq<(nat, TypeTerm)>,
    f: spec_fn(nat) -> nat,
    z: TypeTerm,
    v: nat,
)
    ensures
        holds(z, v) ==> holds(rename(f, z), f(v)),
        injective(f, s) && lookup(s, v) is None && settled(s, z) && holds(rename(f, z), f(v))
            ==> holds(z, v),
    decreases z,
{
    match z {
        TypeTerm::Variable { id } => {
            if injective(f, s) && lookup(s, v) is None && settled(s, z) && f(id) == f(v) {
                assert(id == v);
            }
        },
        TypeTerm::Constructor { name, args } => {
            let ra = rename(f, z)->Constructor_args;
            assert(ra == rename_each(f, args));
            assert forall|i: int| 0 <= i < args.len() implies (holds(#[trigger] args[i], v)
                ==> holds(ra[i], f(v))) && (injective(f, s) && lookup(s, v) is None && settled(
                s,
                z,
            ) && holds(ra[i], f(v)) ==> holds(args[i], v)) by {
                lemma_holds_rename(s, f, args[i], v);
                if settled(s, z) {
                    assert(settled(s, args[i]));
                }
            }
            if holds(z, v) {
                let i = choose|i: int| 0 <= i < args.len() && holds(#[trigger] args[i], v);
                assert(holds(ra[i], f(v)));
            }
            if holds(rename(f, z), f(v)) {
                let i = choose|i: int| 0 <= i < ra.len() && holds(#[trigger] ra[i], f(v));
                assert(ra[i] == rename(f, args[i]));
            }
        },
    }
}

/// Where a type resolves, every variable that it holds resolves.
pub proof fn lemma_resolve_part(s: Seq<(nat, TypeTerm)>, t: TypeTerm, u: nat, fuel: nat)
    requires
        resolve_fuel(s, t, fuel) is Some,
        holds(t, u),
    ensures
        resolve_fuel(s, var(u), fuel) is Some,
    decreases t,
{
    match t {
        TypeTerm::Variable { id } => {},
        TypeTerm::Constructor { name, args } => {
            let rs = resolve_each(s, args, fuel);
            let i = choose|i: int| 0 <= i < args.len() && holds(#[trigger] args[i], u);
            assert(rs[i] is Some);
            lemma_resolve_part(s, args[i], u, fuel);
        },
    }
}

/// A variable that is bound to a type that holds it does not resolve,
/// whatever the fuel.
pub proof fn lemma_cycle_diverges(s: Seq<(nat, TypeTerm)>, v: nat, fuel: nat)
    requires
        lookup(s, v) is Some,
        holds(lookup(s, v)->Some_0, v),
    ensures
        resolve_fuel(s, var(v), fuel) is None,
    decreases fuel,
{
    if fuel > 0 {
        let t = lookup(s, v)->Some_0;
        lemma_cycle_diverges(s, v, (fuel - 1) as nat);
        if resolve_fuel(s, t, (fuel - 1) as nat) is Some {
            lemma_resolve_part(s, t, v, (fuel - 1) as nat);
        }
    }
}

/// A lookup that finds a type in the front of a substitution finds it in the
/// whole, where no variable is bound twice.
pub proof fn lemma_lookup_prefix(s: Seq<(nat, TypeTerm)>, j: int, w: nat)
    requires
        keys_distinct(s),
        0 <= j <= s.len(),
        lookup(s.take(j), w) is Some,
    ensures
        lookup(s, w) == lookup(s.take(j), w),
{
    let p = s.take(j);
    lemma_lookup(p, w);
    let u = lookup(p, w)->Some_0;
    let i = choose|i: int| 0 <= i < p.len() && #[trigger] p[i] == (w, u);
    assert(s[i] == (w, u));
    lemma_lookup_at(s, i);
}

/// Where a type resolves under the whole substitution, the variables that
/// its resolved form under a front of the substitution holds resolve too.
pub proof fn lemma_resolve_factor(
    s: Seq<(nat, TypeTerm)>,
    j: int,
    x: TypeTerm,
    f: nat,
    g: nat,
    u: nat,
)
    requires
        keys_distinct(s),
        0 <= j <= s.len(),
        resolve_fuel(s.take(j), x, f) is Some,
        holds(resolve_fuel(s.take(j), x, f)->Some_0, u),
        resolve_fuel(s, x, g) is Some,
    ensures
        resolve_fuel(s, var(u), g) is Some,
    decreases f, x,
{
    let p = s.take(j);
    match x {
        TypeTerm::Variable { id } => {
            match lookup(p, id) {
                None => {},
                Some(t) => {
                    lemma_lookup_prefix(s, j, id);
                    lemma_resolve_factor(s, j, t, (f - 1) as nat, (g - 1) as nat, u);
                    lemma_resolve_mono(s, var(u), (g - 1) as nat, g);
                },
            }
        },
        TypeTerm::Constructor { name, args } => {
            let rp = resolve_each(p, args, f);
            let rs = resolve_each(s, args, g);
            let r = resolve_fuel(p, x, f)->Some_0;
            let ra = r->Constructor_args;
            let i = choose|i: int| 0 <= i < ra.len() && holds(#[trigger] ra[i], u);
            assert(rp[i] is Some);
            assert(rs[i] is Some);
            lemma_resolve_factor(s, j, args[i], f, g, u);
        },
    }
}

/// On the way of resolving `x` the variable of the binding at `j` comes up,
/// and that binding leads back to its own variable.
pub open spec fn doomed_at(s: Seq<(nat, TypeTerm)>, x: TypeTerm, j: int) -> bool {
    &&& 0 <= j < s.len()
    &&& resolve(s.take(j), x) is Some
    &&& holds(resolve(s.take(j), x)->Some_0, s[j].0)
    &&& holds(s[j].1, s[j].0)
}

/// `x` cannot be resolved, under `s` or with more bindings: resolving it
/// comes to a variable that is bound to a type that holds it.
pub open spec fn doomed(s: Seq<(nat, TypeTerm)>, x: TypeTerm) -> bool {
    exists|j: int| #[trigger] doomed_at(s, x, j)
}

/// What is doomed does not resolve.
pub proof fn lemma_doomed(s: Seq<(nat, TypeTerm)>, x: TypeTerm)
    requires
        keys_distinct(s),
        doomed(s, x),
    ensures
        resolve(s, x) is None,
{
    let j = choose|j: int| #[trigger] doomed_at(s, x, j);
    let v = s[j].0;
    lemma_lookup_at(s, j);
    if resolve(s, x) is Some {
        lemma_resolve_factor(s, j, x, j as nat, s.len(), v);
        lemma_cycle_diverges(s, v, s.len());
    }
}

/// What is doomed stays doomed under more bindings.
pub proof fn lemma_doomed_push(s: Seq<(nat, TypeTerm)>, v: nat, t: TypeTerm, x: TypeTerm)
    requires
        doomed(s, x),
    ensures
        doomed(s.push((v, t)), x),
{
    let j = choose|j: int| #[trigger] doomed_at(s, x, j);
    let s1 = s.push((v, t));
    assert(s1.take(j) =~= s.take(j));
    assert(s1[j] == s[j]);
    assert(doomed_at(s1, x, j));
}

/// Resolution after a binding of a variable that the resolved type does not
/// hold: the type resolves as before.
pub proof fn lemma_resolve_push_free(
    s: Seq<(nat, TypeTerm)>,
    v: nat,
    t: TypeTerm,
    x: TypeTerm,
    fuel: nat,
)
    requires
        lookup(s, v) is None,
        resolve_fuel(s, x, fuel) is Some,
        !holds(resolve_fuel(s, x, fuel)->Some_0, v),
    ensures
        resolve_fuel(s.push((v, t)), x, fuel + 1) == resolve_fuel(s, x, fuel),
    decreases fuel, x,
{
    let s1 = s.push((v, t));
    match x {
        TypeTerm::Variable { id } => {
            lemma_lookup_push(s, v, t, id);
            match lookup(s, id) {
                None => {},
                Some(u) => {
                    lemma_resolve_push_free(s, v, t, u, (fuel - 1) as nat);
                },
            }
        },
        TypeTerm::Constructor { name, args } => {
            let rs = resolve_each(s, args, fuel);
            let rs1 = resolve_each(s1, args, fuel + 1);
            let r = resolve_fuel(s, x, fuel)->Some_0;
            let ra = r->Constructor_args;
            assert forall|i: int| 0 <= i < args.len() implies #[trigger] rs1[i] == rs[i] by {
                assert(rs[i] is Some);
                assert(ra[i] == rs[i]->Some_0);
                assert(!holds(ra[i], v));
                lemma_resolve_push_free(s, v, t, args[i], fuel);
            }
            assert(rs1 =~= rs);
        },
    }
}

/// A variable whose chain ends at an unbound variable resolves to it.
pub proof fn lemma_root_resolves(s: Seq<(nat, TypeTerm)>, v: nat, fuel: nat)
    requires
        lookup(s, root_fuel(s, v, fuel)) is None,
    ensures
        resolve_fuel(s, var(v), fuel) == Some(var(root_fuel(s, v, fuel))),
    decreases fuel,
{
    match lookup(s, v) {
        None => {},
        Some(t) => {
            match t {
                TypeTerm::Variable { id } => {
                    if fuel > 0 {
                        lemma_root_resolves(s, id, (fuel - 1) as nat);
                    }
                },
                TypeTerm::Constructor { .. } => {},
            }
        },
    }
}

/// Once the chain from a variable has come to its end, more fuel leads to
/// the same end.
pub proof fn lemma_root_stable(s: Seq<(nat, TypeTerm)>, x: nat, f1: nat, f2: nat)
    requires
        f1 <= f2,
        !(lookup(s, root_fuel(s, x, f1)) matches Some(t) && t is Variable),
    ensures
        root_fuel(s, x, f2) == root_fuel(s, x, f1),
    decreases f1,
{
    if let Some(TypeTerm::Variable { id }) = lookup(s, x) {
        if f1 > 0 {
            lemma_root_stable(s, id, (f1 - 1) as nat, (f2 - 1) as nat);
        }
    }
}

/// A binding of an unbound variable to a constructor changes no
/// representative.
pub proof fn lemma_root_push_con(
    s: Seq<(nat, TypeTerm)>,
    v: nat,
    t: TypeTerm,
    x: nat,
    fuel: nat,
)
    requires
        lookup(s, v) is None,
        t is Constructor,
    ensures
        root_fuel(s.push((v, t)), x, fuel) == root_fuel(s, x, fuel),
    decreases fuel,
{
    lemma_lookup_push(s, v, t, x);
    if let Some(TypeTerm::Variable { id }) = lookup(s, x) {
        if fuel > 0 {
            lemma_root_push_con(s, v, t, id, (fuel - 1) as nat);
        }
    }
}

/// A binding of the unbound variable `v` to the unbound variable `w` makes
/// `w` the representative of what `v` stood for, and changes no other.
pub proof fn lemma_root_push_var(s: Seq<(nat, TypeTerm)>, v: nat, w: nat, x: nat, fuel: nat)
    requires
        lookup(s, v) is None,
        lookup(s, w) is None,
        v != w,
        !(lookup(s, root_fuel(s, x, fuel)) matches Some(t) && t is Variable),
    ensures
        root_fuel(s.push((v, var(w))), x, fuel + 1) == if root_fuel(s, x, fuel) == v {
            w
        } else {
            root_fuel(s, x, fuel)
        },
    decreases fuel,
{
    let s1 = s.push((v, var(w)));
    lemma_lookup_push(s, v, var(w), x);
    lemma_lookup_push(s, v, var(w), w);
    match lookup(s, x) {
        None => {
            if x == v {
                assert(root_fuel(s1, w, fuel) == w);
            }
        },
        Some(t) => {
            if let TypeTerm::Variable { id } = t {
                lemma_root_push_var(s, v, w, id, (fuel - 1) as nat);
            }
        },
    }
}

/// The representatives after a binding to a constructor, by the number of
/// bindings: they are what they were.
pub proof fn lemma_root_after_con(s: Seq<(nat, TypeTerm)>, v: nat, t: TypeTerm, x: nat)
    requires
        keys_distinct(s),
        links_forward(s),
        lookup(s, v) is None,
        t is Constructor,
    ensures
        root(s.push((v, t)), x) == root(s, x),
{
    lemma_root_ends(s, x);
    lemma_root_stable(s, x, s.len(), s.len() + 1);
    lemma_root_push_con(s, v, t, x, s.len() + 1);
}

/// The representatives after a binding of `v` to the variable `w`.
pub proof fn lemma_root_after_var(s: Seq<(nat, TypeTerm)>, v: nat, w: nat, x: nat)
    requires
        keys_distinct(s),
        links_forward(s),
        lookup(s, v) is None,
        lookup(s, w) is None,
        v != w,
    ensures
        root(s.push((v, var(w))), x) == if root(s, x) == v {
            w
        } else {
            root(s, x)
        },
{
    lemma_root_ends(s, x);
    lemma_root_push_var(s, v, w, x, s.len());
}

/// The two runs have made the same number of bindings, of the same kinds,
/// and the representatives of their bound variables correspond under `phi`,
/// which tells the representatives of the first run apart and agrees with
/// `f` on the unbound variables.
pub open spec fn aligned(
    s: Seq<(nat, TypeTerm)>,
    s2: Seq<(nat, TypeTerm)>,
    f: spec_fn(nat) -> nat,
    phi: spec_fn(nat) -> nat,
) -> bool {
    &&& s.len() == s2.len()
    &&& forall|j: int|
        0 <= j < s.len() ==> ((#[trigger] s[j]).1 is Variable <==> s2[j].1 is Variable)
    &&& forall|j: int|
        0 <= j < s.len() ==> root(s2, (#[trigger] s2[j]).0) == phi(root(s, s[j].0))
    &&& forall|x: nat, y: nat| #[trigger]
        phi(root(s, x)) == #[trigger] phi(root(s, y)) ==> root(s, x) == root(s, y)
    &&& forall|u: nat| lookup(s, u) is None ==> #[trigger] phi(u) == f(u)
    &&& forall|x: nat|
        lookup(s, root(s, x)) is None <==> lookup(s2, #[trigger] phi(root(s, x))) is None
}

/// An unbound variable is its own representative.
pub proof fn lemma_root_unbound(s: Seq<(nat, TypeTerm)>, v: nat)
    requires
        lookup(s, v) is None,
    ensures
        root(s, v) == v,
{
}

/// A binding of a variable to a constructor on one side and the renamed
/// binding on the other keep the runs aligned.
pub proof fn lemma_aligned_bind(
    s: Seq<(nat, TypeTerm)>,
    s2: Seq<(nat, TypeTerm)>,
    f: spec_fn(nat) -> nat,
    phi: spec_fn(nat) -> nat,
    v: nat,
    c: TypeTerm,
)
    requires
        keys_distinct(s),
        keys_distinct(s2),
        links_forward(s),
        links_forward(s2),
        aligned(s, s2, f, phi),
        lookup(s, v) is None,
        lookup(s2, f(v)) is None,
        c is Constructor,
    ensures
        aligned(s.push((v, c)), s2.push((f(v), rename(f, c))), f, phi),
{
    let c2 = rename(f, c);
    let s1 = s.push((v, c));
    let t1 = s2.push((f(v), c2));
    lemma_root_unbound(s, v);
    lemma_root_unbound(s2, f(v));
    assert(phi(v) == f(v));
    assert forall|x: nat| root(s1, x) == root(s, x) by {
        lemma_root_after_con(s, v, c, x);
    }
    assert forall|x: nat| root(t1, x) == root(s2, x) by {
        lemma_root_after_con(s2, f(v), c2, x);
    }
    assert forall|j: int| 0 <= j < s1.len() implies root(t1, (#[trigger] t1[j]).0) == phi(
        root(s1, s1[j].0),
    ) by {
        if j < s.len() {
            assert(t1[j] == s2[j]);
            assert(s1[j] == s[j]);
        }
    }
    assert forall|j: int| 0 <= j < s1.len() implies ((#[trigger] s1[j]).1 is Variable
        <==> t1[j].1 is Variable) by {
        if j < s.len() {
            assert(t1[j] == s2[j]);
            assert(s1[j] == s[j]);
        }
    }
    assert forall|x: nat, y: nat| #[trigger]
        phi(root(s1, x)) == #[trigger] phi(root(s1, y)) implies root(s1, x) == root(s1, y) by {
        assert(phi(root(s, x)) == phi(root(s, y)));
    }
    assert forall|u: nat| lookup(s1, u) is None implies #[trigger] phi(u) == f(u) by {
        lemma_lookup_push(s, v, c, u);
    }
    assert forall|x: nat|
        lookup(s1, root(s1, x)) is None <==> lookup(t1, #[trigger] phi(root(s1, x))) is None by {
        let r = root(s, x);
        lemma_lookup_push(s, v, c, r);
        lemma_lookup_push(s2, f(v), c2, phi(r));
        assert(lookup(s, r) is None <==> lookup(s2, phi(root(s, x))) is None);
        if r != v && phi(r) == f(v) {
            assert(phi(root(s, x)) == phi(root(s, v)));
        }
    }
}

/// A binding of `v` to the variable `w` on one side and of `f(w)` to `f(v)`
/// on the other keep the runs aligned, under the redirected renamings.
pub proof fn lemma_aligned_link(
    s: Seq<(nat, TypeTerm)>,
    s2: Seq<(nat, TypeTerm)>,
    f: spec_fn(nat) -> nat,
    phi: spec_fn(nat) -> nat,
    v: nat,
    w: nat,
)
    requires
        keys_distinct(s),
        keys_distinct(s2),
        links_forward(s),
        links_forward(s2),
        aligned(s, s2, f, phi),
        lookup(s, v) is None,
        lookup(s, w) is None,
        v != w,
        lookup(s2, f(v)) is None,
        lookup(s2, f(w)) is None,
        f(v) != f(w),
    ensures
        aligned(
            s.push((v, var(w))),
            s2.push((f(w), var(f(v)))),
            redirect(f, v, w),
            redirect(phi, v, w),
        ),
{
    let s1 = s.push((v, var(w)));
    let t1 = s2.push((f(w), var(f(v))));
    let g = redirect(f, v, w);
    let psi = redirect(phi, v, w);
    lemma_root_unbound(s, v);
    lemma_root_unbound(s, w);
    lemma_root_unbound(s2, f(v));
    lemma_root_unbound(s2, f(w));
    assert(phi(v) == f(v));
    assert(phi(w) == f(w));
    assert(psi(w) == phi(v));
    assert forall|x: nat| root(s1, x) == (if root(s, x) == v {
        w
    } else {
        root(s, x)
    }) by {
        lemma_root_after_var(s, v, w, x);
    }
    assert forall|x: nat| root(t1, x) == (if root(s2, x) == f(w) {
        f(v)
    } else {
        root(s2, x)
    }) by {
        lemma_root_after_var(s2, f(w), f(v), x);
    }
    // The representatives of the first run after the binding, renamed.
    assert forall|x: nat| #[trigger] psi(root(s1, x)) == (if phi(root(s, x)) == f(w) {
        f(v)
    } else {
        phi(root(s, x))
    }) by {
        let r = root(s, x);
        if r == v {
        } else if r == w {
        } else {
            assert(psi(r) == phi(r));
            if phi(r) == f(w) {
                assert(phi(root(s, x)) == phi(root(s, w)));
            }
        }
    }
    assert forall|j: int| 0 <= j < s1.len() implies root(t1, (#[trigger] t1[j]).0) == psi(
        root(s1, s1[j].0),
    ) by {
        if j < s.len() {
            assert(t1[j] == s2[j]);
            assert(s1[j] == s[j]);
            assert(root(s2, s2[j].0) == phi(root(s, s[j].0)));
        }
    }
    assert forall|j: int| 0 <= j < s1.len() implies ((#[trigger] s1[j]).1 is Variable
        <==> t1[j].1 is Variable) by {
        if j < s.len() {
            assert(t1[j] == s2[j]);
            assert(s1[j] == s[j]);
        }
    }
    assert forall|x: nat, y: nat| #[trigger]
        psi(root(s1, x)) == #[trigger] psi(root(s1, y)) implies root(s1, x) == root(s1, y) by {
        let a = root(s, x);
        let b = root(s, y);
        assert(phi(root(s, x)) == phi(root(s, v)) ==> a == v);
        assert(phi(root(s, x)) == phi(root(s, w)) ==> a == w);
        assert(phi(root(s, y)) == phi(root(s, v)) ==> b == v);
        assert(phi(root(s, y)) == phi(root(s, w)) ==> b == w);
        assert(phi(root(s, x)) == phi(root(s, y)) ==> a == b);
    }
    assert forall|u: nat| lookup(s1, u) is None implies #[trigger] psi(u) == g(u) by {
        lemma_lookup_push(s, v, var(w), u);
    }
    assert forall|x: nat|
        lookup(s1, root(s1, x)) is None <==> lookup(t1, #[trigger] psi(root(s1, x))) is None by {
        let r = root(s, x);
        let r1 = root(s1, x);
        lemma_lookup_push(s, v, var(w), r1);
        lemma_lookup_push(s2, f(w), var(f(v)), psi(r1));
        assert(lookup(s, r) is None <==> lookup(s2, phi(root(s, x))) is None);
        assert(phi(root(s, x)) == phi(root(s, w)) ==> r == w);
    }
}

/// A variable that is bound to a variable has the representative of that
/// variable.
pub proof fn lemma_root_of_link(s: Seq<(nat, TypeTerm)>, j: int)
    requires
        keys_distinct(s),
        links_forward(s),
        0 <= j < s.len(),
        s[j].1 is Variable,
    ensures
        root(s, s[j].0) == root(s, s[j].1->Variable_id),
{
    let w = s[j].1->Variable_id;
    lemma_lookup_at(s, j);
    lemma_lookup(s, w);
    assert(lookup(s.take(j + 1), w) is None);
    if let Some(u) = lookup(s, w) {
        lemma_lookup(s.take(j + 1), w);
        let k = choose|k: int| 0 <= k < s.len() && #[trigger] s[k] == (w, u);
        if k <= j {
            assert(s.take(j + 1)[k] == s[k]);
            assert(s.take(j + 1)[k].0 == w);
        }
        assert(s[k].0 == w && (s.len() - 1) + k >= s.len());
    }
    lemma_roots_end(s, w, (s.len() - 1) as nat);
    lemma_root_stable(s, w, (s.len() - 1) as nat, s.len());
}

/// The classes of two aligned runs come in the same order: there are as many
/// of them, the representatives of the classes at one position correspond,
/// and one stands for a constructor exactly when the other does.
pub proof fn lemma_classes_aligned(
    s: Seq<(nat, TypeTerm)>,
    s2: Seq<(nat, TypeTerm)>,
    f: spec_fn(nat) -> nat,
    phi: spec_fn(nat) -> nat,
    k: nat,
)
    requires
        keys_distinct(s),
        keys_distinct(s2),
        links_forward(s),
        links_forward(s2),
        aligned(s, s2, f, phi),
        k <= s.len(),
    ensures
        classes_upto(s, k).len() == classes_upto(s2, k).len(),
        classes_ok(s, classes_upto(s, k)),
        classes_ok(s2, classes_upto(s2, k)),
        forall|j: int|
            0 <= j < classes_upto(s, k).len() ==> root(s2, (#[trigger] classes_upto(s2, k)[j]).1[0])
                == phi(root(s, classes_upto(s, k)[j].1[0])),
        forall|j: int|
            0 <= j < classes_upto(s, k).len() ==> ((#[trigger] classes_upto(s, k)[j]).0 is Some
                <==> classes_upto(s2, k)[j].0 is Some),
    decreases k,
{
    lemma_classes(s, k);
    lemma_classes(s2, k);
    if k > 0 {
        let i = (k - 1) as nat;
        lemma_classes_aligned(s, s2, f, phi, i);
        lemma_classes(s, i);
        lemma_classes(s2, i);
        let c0 = classes_upto(s, i);
        let d0 = classes_upto(s2, i);
        let key = s[k - 1].0;
        let key2 = s2[k - 1].0;
        assert(root(s2, s2[k - 1].0) == phi(root(s, s[k - 1].0)));
        lemma_add_aligned(s, s2, f, phi, c0, d0, key, key2);
        lemma_add_member(s, c0, key);
        lemma_add_member(s2, d0, key2);
        let c1 = add_member(s, c0, key);
        let d1 = add_member(s2, d0, key2);
        if s[k - 1].1 is Variable {
            let w = s[k - 1].1->Variable_id;
            let w2 = s2[k - 1].1->Variable_id;
            lemma_root_of_link(s, k - 1);
            lemma_root_of_link(s2, k - 1);
            lemma_add_aligned(s, s2, f, phi, c1, d1, w, w2);
            lemma_add_member(s, c1, w);
            lemma_add_member(s2, d1, w2);
        }
        let c2 = classes_upto(s, k);
        let d2 = classes_upto(s2, k);
        assert forall|j: int| 0 <= j < c2.len() implies ((#[trigger] c2[j]).0 is Some
            <==> d2[j].0 is Some) by {
            let m = c2[j].1[0];
            let m2 = d2[j].1[0];
            lemma_root_ends(s, m);
            lemma_root_ends(s2, m2);
            assert(root(s2, d2[j].1[0]) == phi(root(s, c2[j].1[0])));
            assert(lookup(s, root(s, m)) is None <==> lookup(s2, phi(root(s, m))) is None);
            assert(c2[j].0 == anchor(s, m));
            assert(d2[j].0 == anchor(s2, m2));
        }
    }
}

/// Adding corresponding members to aligned lists of classes keeps the lists
/// aligned.
pub proof fn lemma_add_aligned(
    s: Seq<(nat, TypeTerm)>,
    s2: Seq<(nat, TypeTerm)>,
    f: spec_fn(nat) -> nat,
    phi: spec_fn(nat) -> nat,
    cs: Seq<(Option<TypeTerm>, Seq<nat>)>,
    cs2: Seq<(Option<TypeTerm>, Seq<nat>)>,
    v: nat,
    v2: nat,
)
    requires
        aligned(s, s2, f, phi),
        classes_ok(s, cs),
        classes_ok(s2, cs2),
        cs.len() == cs2.len(),
        forall|j: int|
            0 <= j < cs.len() ==> root(s2, (#[trigger] cs2[j]).1[0]) == phi(root(s, cs[j].1[0])),
        root(s2, v2) == phi(root(s, v)),
    ensures
        add_member(s, cs, v).len() == add_member(s2, cs2, v2).len(),
        forall|j: int|
            0 <= j < add_member(s, cs, v).len() ==> root(
                s2,
                (#[trigger] add_member(s2, cs2, v2)[j]).1[0],
            ) == phi(root(s, add_member(s, cs, v)[j].1[0])),
{
    let r = root(s, v);
    let r2 = root(s2, v2);
    let j = find_class(s, cs, r);
    let j2 = find_class(s2, cs2, r2);
    lemma_find_class(s, cs, r);
    lemma_find_class(s2, cs2, r2);
    if j2 < j {
        assert(root(s2, cs2[j2].1[0]) == phi(root(s, cs[j2].1[0])));
        assert(phi(root(s, cs[j2].1[0])) == phi(root(s, v)));
    }
    if j < j2 {
        assert(root(s2, cs2[j].1[0]) == phi(root(s, cs[j].1[0])));
    }
    assert(j == j2);
    let out = add_member(s, cs, v);
    let out2 = add_member(s2, cs2, v2);
    if j < cs.len() {
        lemma_insert_new(cs[j].1, v);
        lemma_insert_new(cs2[j].1, v2);
        assert(insert_new(cs[j].1, v).take(cs[j].1.len() as int)[0] == cs[j].1[0]);
        assert(insert_new(cs2[j].1, v2).take(cs2[j].1.len() as int)[0] == cs2[j].1[0]);
        assert forall|i: int| 0 <= i < out.len() implies root(s2, (#[trigger] out2[i]).1[0])
            == phi(root(s, out[i].1[0])) by {
            if i != j {
                assert(out[i] == cs[i]);
                assert(out2[i] == cs2[i]);
            }
            assert(root(s2, cs2[i].1[0]) == phi(root(s, cs[i].1[0])));
        }
    } else {
        assert forall|i: int| 0 <= i < out.len() implies root(s2, (#[trigger] out2[i]).1[0])
            == phi(root(s, out[i].1[0])) by {
            if i < cs.len() {
                assert(out[i] == cs[i]);
                assert(out2[i] == cs2[i]);
                assert(root(s2, cs2[i].1[0]) == phi(root(s, cs[i].1[0])));
            } else {
                assert(out[i].1[0] == v);
                assert(out2[i].1[0] == v2);
            }
        }
    }
}

} // verus!
