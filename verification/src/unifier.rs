//! Substitutions and unification of elaborated types.
//!
//! A substitution is a list of bindings, variable to type, in the order in
//! which they were recorded. No variable is bound twice. A binding may lead to
//! another variable, so a variable is resolved by following the chain.

use crate::concrete::{ConcreteTrait, ConcreteType, TraitTerm, TypeTerm};
use crate::seqs::{all_some, insert_new, lemma_insert_new, values};
use crate::syntax::seq_view;
use vstd::prelude::*;
use vstd::set_lib::{lemma_int_range, lemma_len_subset, set_int_range};

verus! {

/// The variable `v` as a type.
pub open spec fn var(v: nat) -> TypeTerm {
    TypeTerm::Variable { id: v }
}

/// The type that the substitution binds to `v`, if any.
pub open spec fn lookup(s: Seq<(nat, TypeTerm)>, v: nat) -> Option<TypeTerm>
    decreases s.len(),
{
    if s.len() == 0 {
        None
    } else if s.last().0 == v {
        Some(s.last().1)
    } else {
        lookup(s.drop_last(), v)
    }
}

/// No variable is bound twice.
pub open spec fn keys_distinct(s: Seq<(nat, TypeTerm)>) -> bool {
    forall|i: int, j: int| 0 <= i < j < s.len() ==> (#[trigger] s[i]).0 != (#[trigger] s[j]).0
}

/// `t` resolved through the substitution: every bound variable is replaced by
/// what its binding resolves to. `fuel` bounds the number of bindings followed
/// on one path; `None` when a path needs more.
pub open spec fn resolve_fuel(s: Seq<(nat, TypeTerm)>, t: TypeTerm, fuel: nat) -> Option<TypeTerm>
    decreases fuel, t,
{
    match t {
        TypeTerm::Variable { id } => match lookup(s, id) {
            None => Some(t),
            Some(u) => if fuel == 0 {
                None
            } else {
                resolve_fuel(s, u, (fuel - 1) as nat)
            },
        },
        TypeTerm::Constructor { name, args } => {
            let rs = resolve_each(s, args, fuel);
            if all_some(rs) {
                Some(TypeTerm::Constructor { name, args: values(rs) })
            } else {
                None
            }
        },
    }
}

/// Each type of `ts` resolved through the substitution.
pub open spec fn resolve_each(s: Seq<(nat, TypeTerm)>, ts: Seq<TypeTerm>, fuel: nat) -> Seq<
    Option<TypeTerm>,
>
    decreases fuel, ts,
{
    Seq::new(
        ts.len(),
        |i: int|
            if 0 <= i < ts.len() {
                resolve_fuel(s, ts[i], fuel)
            } else {
                arbitrary()
            },
    )
}

/// `t` resolved through the substitution, or `None` where a chain of bindings
/// does not end. A path that follows more bindings than the substitution holds
/// has come by one of them twice; so as much fuel as there are bindings is
/// always enough (`lemma_resolve_enough`).
pub open spec fn resolve(s: Seq<(nat, TypeTerm)>, t: TypeTerm) -> Option<TypeTerm> {
    resolve_fuel(s, t, s.len())
}

/// No variable of `t` is bound.
pub open spec fn settled(s: Seq<(nat, TypeTerm)>, t: TypeTerm) -> bool
    decreases t,
{
    match t {
        TypeTerm::Variable { id } => lookup(s, id) is None,
        TypeTerm::Constructor { args, .. } => forall|i: int|
            0 <= i < args.len() ==> settled(s, #[trigger] args[i]),
    }
}

/// Every variable of `t` has an identity under `n`.
pub open spec fn below(t: TypeTerm, n: nat) -> bool
    decreases t,
{
    match t {
        TypeTerm::Variable { id } => id < n,
        TypeTerm::Constructor { args, .. } => forall|i: int|
            0 <= i < args.len() ==> below(#[trigger] args[i], n),
    }
}

/// Every variable that the substitution binds or mentions has an identity
/// under `n`.
pub open spec fn subst_below(s: Seq<(nat, TypeTerm)>, n: nat) -> bool {
    forall|i: int| 0 <= i < s.len() ==> (#[trigger] s[i]).0 < n && below(s[i].1, n)
}

/// `t` begins with `s`.
pub open spec fn extends(t: Seq<(nat, TypeTerm)>, s: Seq<(nat, TypeTerm)>) -> bool {
    s.len() <= t.len() && t.take(s.len() as int) == s
}

/// What `lookup` finds is the type of a binding of `v`; it finds none exactly
/// when no binding has `v`.
pub proof fn lemma_lookup(s: Seq<(nat, TypeTerm)>, v: nat)
    ensures
        lookup(s, v) matches Some(u) ==> exists|i: int|
            0 <= i < s.len() && #[trigger] s[i] == (v, u),
        lookup(s, v) is None <==> (forall|i: int| 0 <= i < s.len() ==> (#[trigger] s[i]).0 != v),
    decreases s.len(),
{
    if s.len() > 0 {
        let p = s.drop_last();
        lemma_lookup(p, v);
        if s.last().0 == v {
            assert(s[s.len() - 1] == (v, s.last().1));
        } else {
            if let Some(u) = lookup(p, v) {
                let i = choose|i: int| 0 <= i < p.len() && #[trigger] p[i] == (v, u);
                assert(s[i] == (v, u));
            } else {
                assert forall|i: int| 0 <= i < s.len() implies (#[trigger] s[i]).0 != v by {
                    if i < p.len() {
                        assert(p[i] == s[i]);
                    }
                }
            }
        }
    }
}

/// What resolution returns has no bound variable left.
pub proof fn lemma_resolve_settled(s: Seq<(nat, TypeTerm)>, t: TypeTerm, fuel: nat)
    ensures
        resolve_fuel(s, t, fuel) matches Some(r) ==> settled(s, r),
    decreases fuel, t,
{
    match t {
        TypeTerm::Variable { id } => {
            if let Some(u) = lookup(s, id) {
                if fuel > 0 {
                    lemma_resolve_settled(s, u, (fuel - 1) as nat);
                }
            }
        },
        TypeTerm::Constructor { name, args } => {
            if let Some(r) = resolve_fuel(s, t, fuel) {
                let ra = r->Constructor_args;
                let rs = resolve_each(s, args, fuel);
                assert forall|i: int| 0 <= i < ra.len() implies settled(s, #[trigger] ra[i]) by {
                    lemma_resolve_settled(s, args[i], fuel);
                    assert(rs[i] is Some);
                }
            }
        },
    }
}

/// A type without bound variables resolves to itself, with any fuel.
pub proof fn lemma_settled_resolve(s: Seq<(nat, TypeTerm)>, t: TypeTerm, fuel: nat)
    requires
        settled(s, t),
    ensures
        resolve_fuel(s, t, fuel) == Some(t),
    decreases t,
{
    match t {
        TypeTerm::Variable { id } => {},
        TypeTerm::Constructor { name, args } => {
            let rs = resolve_each(s, args, fuel);
            assert forall|i: int| 0 <= i < args.len() implies (#[trigger] rs[i]) == Some(
                args[i],
            ) by {
                assert(settled(s, args[i]));
                lemma_settled_resolve(s, args[i], fuel);
            }
            assert(values(rs) =~= args);
        },
    }
}

/// Resolution brings in no variable beyond those of the type and of the
/// substitution.
pub proof fn lemma_resolve_below(s: Seq<(nat, TypeTerm)>, t: TypeTerm, fuel: nat, n: nat)
    requires
        subst_below(s, n),
        below(t, n),
    ensures
        resolve_fuel(s, t, fuel) matches Some(r) ==> below(r, n),
    decreases fuel, t,
{
    match t {
        TypeTerm::Variable { id } => {
            if let Some(u) = lookup(s, id) {
                lemma_lookup(s, id);
                if fuel > 0 {
                    lemma_resolve_below(s, u, (fuel - 1) as nat, n);
                }
            }
        },
        TypeTerm::Constructor { name, args } => {
            if let Some(r) = resolve_fuel(s, t, fuel) {
                let ra = r->Constructor_args;
                let rs = resolve_each(s, args, fuel);
                assert forall|i: int| 0 <= i < ra.len() implies below(#[trigger] ra[i], n) by {
                    assert(below(args[i], n));
                    lemma_resolve_below(s, args[i], fuel, n);
                    assert(rs[i] is Some);
                }
            }
        },
    }
}

/// A substitution over variables under `n` has at most `n` bindings.
pub proof fn lemma_len_bound(s: Seq<(nat, TypeTerm)>, n: nat)
    requires
        keys_distinct(s),
        subst_below(s, n),
    ensures
        s.len() <= n,
{
    let ks = Seq::new(s.len(), |i: int| s[i].0 as int);
    assert(ks.no_duplicates()) by {
        assert forall|i: int, j: int| 0 <= i < ks.len() && 0 <= j < ks.len() && i != j implies ks[i]
            != ks[j] by {
            if i < j {
                assert(s[i].0 != s[j].0);
            } else {
                assert(s[j].0 != s[i].0);
            }
        }
    }
    ks.unique_seq_to_set();
    lemma_int_range(0, n as int);
    assert(ks.to_set().subset_of(set_int_range(0, n as int))) by {
        assert forall|x: int| ks.to_set().contains(x) implies set_int_range(0, n as int).contains(
            x,
        ) by {
            let i = choose|i: int| 0 <= i < ks.len() && ks[i] == x;
            assert(s[i].0 < n);
        }
    }
    lemma_len_subset(ks.to_set(), set_int_range(0, n as int));
}

/// The outcome of unifying `a` with `b` under `s`: the substitution afterwards,
/// and whether the two unify. `None` when the nesting of constructors is
/// deeper than `fuel`.
///
/// Both sides are resolved first; a side that does not resolve fails. Two
/// constructors unify when their names are equal and their arguments unify in
/// turn, as far as the shorter list reaches. A variable against a constructor
/// is bound to it. Of two different variables the first is bound to the second.
pub open spec fn unify_fuel(s: Seq<(nat, TypeTerm)>, a: TypeTerm, b: TypeTerm, fuel: nat) -> Option<
    (Seq<(nat, TypeTerm)>, bool),
>
    decreases fuel, 0nat, 0nat,
{
    match (resolve(s, a), resolve(s, b)) {
        (Some(ra), Some(rb)) => match ra {
            TypeTerm::Constructor { name: n1, args: a1 } => match rb {
                TypeTerm::Constructor { name: n2, args: a2 } => if n1 != n2 {
                    Some((s, false))
                } else if fuel == 0 {
                    None
                } else {
                    unify_upto(s, a1, a2, shorter(a1, a2), (fuel - 1) as nat)
                },
                TypeTerm::Variable { id } => Some((s.push((id, ra)), true)),
            },
            TypeTerm::Variable { id: i1 } => match rb {
                TypeTerm::Constructor { .. } => Some((s.push((i1, rb)), true)),
                TypeTerm::Variable { id: i2 } => if i1 == i2 {
                    Some((s, true))
                } else {
                    Some((s.push((i1, rb)), true))
                },
            },
        },
        _ => Some((s, false)),
    }
}

/// The length of the shorter of two lists.
pub open spec fn shorter<T>(xs: Seq<T>, ys: Seq<T>) -> nat {
    if xs.len() <= ys.len() {
        xs.len()
    } else {
        ys.len()
    }
}

/// The outcome of unifying the first `k` pairs of `xs` and `ys` in order, each
/// under the substitution that the one before left. The first failure ends it.
pub open spec fn unify_upto(
    s: Seq<(nat, TypeTerm)>,
    xs: Seq<TypeTerm>,
    ys: Seq<TypeTerm>,
    k: nat,
    fuel: nat,
) -> Option<(Seq<(nat, TypeTerm)>, bool)>
    decreases fuel, 1nat, k,
{
    if k == 0 {
        Some((s, true))
    } else {
        match unify_upto(s, xs, ys, (k - 1) as nat, fuel) {
            Some((s1, true)) => unify_fuel(s1, xs[k - 1], ys[k - 1], fuel),
            other => other,
        }
    }
}

/// More fuel does not change an outcome.
pub proof fn lemma_unify_mono(
    s: Seq<(nat, TypeTerm)>,
    a: TypeTerm,
    b: TypeTerm,
    f1: nat,
    f2: nat,
)
    requires
        f1 <= f2,
        unify_fuel(s, a, b, f1) is Some,
    ensures
        unify_fuel(s, a, b, f2) == unify_fuel(s, a, b, f1),
    decreases f1, 0nat, 0nat,
{
    match (resolve(s, a), resolve(s, b)) {
        (Some(ra), Some(rb)) => {
            if let TypeTerm::Constructor { name: n1, args: a1 } = ra {
                if let TypeTerm::Constructor { name: n2, args: a2 } = rb {
                    if n1 == n2 {
                        lemma_upto_mono(
                            s,
                            a1,
                            a2,
                            shorter(a1, a2),
                            (f1 - 1) as nat,
                            (f2 - 1) as nat,
                        );
                    }
                }
            }
        },
        _ => {},
    }
}

/// More fuel does not change the outcome of a list.
pub proof fn lemma_upto_mono(
    s: Seq<(nat, TypeTerm)>,
    xs: Seq<TypeTerm>,
    ys: Seq<TypeTerm>,
    k: nat,
    f1: nat,
    f2: nat,
)
    requires
        f1 <= f2,
        unify_upto(s, xs, ys, k, f1) is Some,
    ensures
        unify_upto(s, xs, ys, k, f2) == unify_upto(s, xs, ys, k, f1),
    decreases f1, 1nat, k,
{
    if k > 0 {
        let p = unify_upto(s, xs, ys, (k - 1) as nat, f1);
        lemma_upto_mono(s, xs, ys, (k - 1) as nat, f1, f2);
        if let Some((s1, true)) = p {
            lemma_unify_mono(s1, xs[k - 1], ys[k - 1], f1, f2);
        }
    }
}

/// Unification of `a` with `b` under `s` comes to an end.
pub open spec fn unify_halts(s: Seq<(nat, TypeTerm)>, a: TypeTerm, b: TypeTerm) -> bool {
    exists|f: nat| (#[trigger] unify_fuel(s, a, b, f)) is Some
}

/// The substitution after unifying `a` with `b` under `s`, and whether they
/// unify. The substitution is `s` with the bindings that were recorded up to
/// the end or to the first failure.
pub open spec fn unify_types(s: Seq<(nat, TypeTerm)>, a: TypeTerm, b: TypeTerm) -> (
    Seq<(nat, TypeTerm)>,
    bool,
) {
    let f = choose|f: nat| (#[trigger] unify_fuel(s, a, b, f)) is Some;
    unify_fuel(s, a, b, f)->Some_0
}

/// An outcome reached with some fuel is the outcome.
pub proof fn lemma_unify_types(s: Seq<(nat, TypeTerm)>, a: TypeTerm, b: TypeTerm, fuel: nat)
    requires
        unify_fuel(s, a, b, fuel) is Some,
    ensures
        unify_halts(s, a, b),
        unify_types(s, a, b) == unify_fuel(s, a, b, fuel)->Some_0,
{
    let f = choose|f: nat| (#[trigger] unify_fuel(s, a, b, f)) is Some;
    if f <= fuel {
        lemma_unify_mono(s, a, b, f, fuel);
    } else {
        lemma_unify_mono(s, a, b, fuel, f);
    }
}

/// The outcome of unifying two trait applications with `fuel`: they fail when
/// the names differ; else the arguments are unified in turn, as far as the
/// shorter list reaches.
pub open spec fn unify_traits_fuel(
    s: Seq<(nat, TypeTerm)>,
    a: TraitTerm,
    b: TraitTerm,
    fuel: nat,
) -> Option<(Seq<(nat, TypeTerm)>, bool)> {
    if a.name != b.name {
        Some((s, false))
    } else {
        unify_upto(s, a.args, b.args, shorter(a.args, b.args), fuel)
    }
}

/// Unification of two trait applications under `s` comes to an end.
pub open spec fn unify_traits_halts(s: Seq<(nat, TypeTerm)>, a: TraitTerm, b: TraitTerm) -> bool {
    exists|f: nat| (#[trigger] unify_traits_fuel(s, a, b, f)) is Some
}

/// The substitution after unifying two trait applications under `s`, and
/// whether they unify.
pub open spec fn unify_traits(s: Seq<(nat, TypeTerm)>, a: TraitTerm, b: TraitTerm) -> (
    Seq<(nat, TypeTerm)>,
    bool,
) {
    let f = choose|f: nat| (#[trigger] unify_traits_fuel(s, a, b, f)) is Some;
    unify_traits_fuel(s, a, b, f)->Some_0
}

/// An outcome reached with some fuel is the outcome.
pub proof fn lemma_unify_traits(s: Seq<(nat, TypeTerm)>, a: TraitTerm, b: TraitTerm, fuel: nat)
    requires
        unify_traits_fuel(s, a, b, fuel) is Some,
    ensures
        unify_traits_halts(s, a, b),
        unify_traits(s, a, b) == unify_traits_fuel(s, a, b, fuel)->Some_0,
{
    let f = choose|f: nat| (#[trigger] unify_traits_fuel(s, a, b, f)) is Some;
    if a.name == b.name {
        let k = shorter(a.args, b.args);
        if f <= fuel {
            lemma_upto_mono(s, a.args, b.args, k, f, fuel);
        } else {
            lemma_upto_mono(s, a.args, b.args, k, fuel, f);
        }
    }
}

/// What is under `m` is under every larger number.
pub proof fn lemma_subst_below_mono(s: Seq<(nat, TypeTerm)>, m: nat, n: nat)
    requires
        subst_below(s, m),
        m <= n,
    ensures
        subst_below(s, n),
{
    assert forall|i: int| 0 <= i < s.len() implies (#[trigger] s[i]).0 < n && below(s[i].1, n) by {
        lemma_below_mono(s[i].1, m, n);
    }
}

/// `t` where it resolves, its resolved form.
pub open spec fn resolved_term(s: Seq<(nat, TypeTerm)>, t: TypeTerm) -> TypeTerm {
    match resolve(s, t) {
        Some(r) => r,
        None => t,
    }
}

/// A number above every variable of `t`.
pub proof fn bound_of(t: TypeTerm) -> (n: nat)
    ensures
        below(t, n),
    decreases t, 0nat,
{
    match t {
        TypeTerm::Variable { id } => id + 1,
        TypeTerm::Constructor { name, args } => bound_of_list(args, args.len()),
    }
}

/// A number above every variable of the first `k` types of `ts`.
pub proof fn bound_of_list(ts: Seq<TypeTerm>, k: nat) -> (n: nat)
    requires
        k <= ts.len(),
    ensures
        forall|i: int| 0 <= i < k ==> below(#[trigger] ts[i], n),
    decreases ts, k,
{
    if k == 0 {
        0
    } else {
        let m = bound_of_list(ts, (k - 1) as nat);
        let x = bound_of(ts[k - 1]);
        let n = if m <= x {
            x
        } else {
            m
        };
        assert forall|i: int| 0 <= i < k implies below(#[trigger] ts[i], n) by {
            if i < k - 1 {
                lemma_below_mono(ts[i], m, n);
            } else {
                lemma_below_mono(ts[i], x, n);
            }
        }
        n
    }
}

/// What is under `m` is under every larger number.
pub proof fn lemma_below_mono(t: TypeTerm, m: nat, n: nat)
    requires
        below(t, m),
        m <= n,
    ensures
        below(t, n),
    decreases t,
{
    match t {
        TypeTerm::Variable { id } => {},
        TypeTerm::Constructor { name, args } => {
            assert forall|i: int| 0 <= i < args.len() implies below(#[trigger] args[i], n) by {
                lemma_below_mono(args[i], m, n);
            }
        },
    }
}

/// A number above every variable that the first `k` bindings of `s` bind or
/// mention.
pub proof fn bound_of_subst(s: Seq<(nat, TypeTerm)>, k: nat) -> (n: nat)
    requires
        k <= s.len(),
    ensures
        subst_below(s.take(k as int), n),
    decreases k,
{
    if k == 0 {
        0
    } else {
        let m = bound_of_subst(s, (k - 1) as nat);
        let x = bound_of(s[k - 1].1);
        let y = s[k - 1].0 + 1;
        let n = if m <= x + y {
            x + y
        } else {
            m
        };
        let p = s.take(k as int);
        assert forall|i: int| 0 <= i < p.len() implies (#[trigger] p[i]).0 < n && below(
            p[i].1,
            n,
        ) by {
            if i < k - 1 {
                assert(s.take(k - 1)[i] == p[i]);
                lemma_below_mono(p[i].1, m, n);
            } else {
                lemma_below_mono(p[i].1, x, n);
            }
        }
        n
    }
}

/// The variable at the end of the chain of variable-to-variable bindings that
/// starts at `v`, following at most `fuel` of them.
pub open spec fn root_fuel(s: Seq<(nat, TypeTerm)>, v: nat, fuel: nat) -> nat
    decreases fuel,
{
    match lookup(s, v) {
        Some(TypeTerm::Variable { id }) => if fuel == 0 {
            v
        } else {
            root_fuel(s, id, (fuel - 1) as nat)
        },
        _ => v,
    }
}

/// The representative of `v`: the variable at the end of its chain, which is
/// unbound or bound to a constructor.
pub open spec fn root(s: Seq<(nat, TypeTerm)>, v: nat) -> nat {
    root_fuel(s, v, s.len())
}

/// The constructor that the representative of `v` is bound to, if any.
pub open spec fn anchor(s: Seq<(nat, TypeTerm)>, v: nat) -> Option<TypeTerm> {
    match lookup(s, root(s, v)) {
        Some(t) => if t is Constructor {
            Some(t)
        } else {
            None
        },
        None => None,
    }
}

/// The index of the first class whose first member has the representative
/// `r`, or the number of classes if there is none.
pub open spec fn find_class(
    s: Seq<(nat, TypeTerm)>,
    cs: Seq<(Option<TypeTerm>, Seq<nat>)>,
    r: nat,
) -> int
    decreases cs.len(),
{
    if cs.len() == 0 {
        0
    } else {
        let j = find_class(s, cs.drop_last(), r);
        if j < cs.len() - 1 {
            j
        } else if root(s, cs.last().1[0]) == r {
            cs.len() - 1
        } else {
            cs.len() as int
        }
    }
}

/// The classes with `v` added: to the class of its representative where there
/// is one, else as a new class, which comes last.
pub open spec fn add_member(
    s: Seq<(nat, TypeTerm)>,
    cs: Seq<(Option<TypeTerm>, Seq<nat>)>,
    v: nat,
) -> Seq<(Option<TypeTerm>, Seq<nat>)> {
    let j = find_class(s, cs, root(s, v));
    if 0 <= j < cs.len() {
        cs.update(j, (cs[j].0, insert_new(cs[j].1, v)))
    } else {
        cs.push((anchor(s, v), seq![v]))
    }
}

/// The classes of the variables of the first `k` bindings: each bound
/// variable, and the variable it is bound to where it is bound to one, is
/// added in turn.
pub open spec fn classes_upto(s: Seq<(nat, TypeTerm)>, k: nat) -> Seq<(Option<TypeTerm>, Seq<nat>)>
    decreases k,
{
    if k == 0 || k > s.len() {
        Seq::empty()
    } else {
        let cs = add_member(s, classes_upto(s, (k - 1) as nat), s[k - 1].0);
        match s[k - 1].1 {
            TypeTerm::Variable { id } => add_member(s, cs, id),
            _ => cs,
        }
    }
}

/// The equivalence classes of the variables that the substitution links, in
/// the order in which their first member was bound; each with the constructor
/// that its members stand for, if any, and its members in the order in which
/// they came up.
pub open spec fn classes(s: Seq<(nat, TypeTerm)>) -> Seq<(Option<TypeTerm>, Seq<nat>)> {
    classes_upto(s, s.len())
}

/// What holds of classes: none is empty, the members of one class have one
/// representative and are distinct, the class carries the constructor of that
/// representative, and two classes have different representatives.
pub open spec fn classes_ok(s: Seq<(nat, TypeTerm)>, cs: Seq<(Option<TypeTerm>, Seq<nat>)>) -> bool {
    &&& forall|j: int| 0 <= j < cs.len() ==> (#[trigger] cs[j]).1.len() > 0
    &&& forall|j: int| 0 <= j < cs.len() ==> (#[trigger] cs[j]).1.no_duplicates()
    &&& forall|j: int| 0 <= j < cs.len() ==> (#[trigger] cs[j]).0 == anchor(s, cs[j].1[0])
    &&& forall|j: int, m: int|
        0 <= j < cs.len() && 0 <= m < cs[j].1.len() ==> root(s, #[trigger] cs[j].1[m]) == root(
            s,
            cs[j].1[0],
        )
    &&& forall|i: int, j: int|
        0 <= i < j < cs.len() ==> root(s, (#[trigger] cs[i]).1[0]) != root(
            s,
            (#[trigger] cs[j]).1[0],
        )
}

/// Some class holds `v`.
pub open spec fn in_classes(cs: Seq<(Option<TypeTerm>, Seq<nat>)>, v: nat) -> bool {
    exists|j: int| 0 <= j < cs.len() && (#[trigger] cs[j]).1.contains(v)
}

/// `find_class` finds the first class of the representative, or none.
pub proof fn lemma_find_class(
    s: Seq<(nat, TypeTerm)>,
    cs: Seq<(Option<TypeTerm>, Seq<nat>)>,
    r: nat,
)
    ensures
        0 <= find_class(s, cs, r) <= cs.len(),
        find_class(s, cs, r) < cs.len() ==> root(s, cs[find_class(s, cs, r)].1[0]) == r,
        forall|j: int|
            0 <= j < find_class(s, cs, r) ==> root(s, (#[trigger] cs[j]).1[0]) != r,
    decreases cs.len(),
{
    if cs.len() > 0 {
        let p = cs.drop_last();
        lemma_find_class(s, p, r);
        let j = find_class(s, p, r);
        if j < cs.len() - 1 {
            assert(p[j] == cs[j]);
        }
        assert forall|i: int| 0 <= i < find_class(s, cs, r) implies root(
            s,
            (#[trigger] cs[i]).1[0],
        ) != r by {
            if i < p.len() {
                assert(p[i] == cs[i]);
            }
        }
    }
}

/// Adding a member keeps the classes in order and puts the member in one.
pub proof fn lemma_add_member(
    s: Seq<(nat, TypeTerm)>,
    cs: Seq<(Option<TypeTerm>, Seq<nat>)>,
    v: nat,
)
    requires
        classes_ok(s, cs),
    ensures
        classes_ok(s, add_member(s, cs, v)),
        in_classes(add_member(s, cs, v), v),
        forall|w: nat| in_classes(cs, w) ==> in_classes(add_member(s, cs, v), w),
        forall|w: nat| in_classes(add_member(s, cs, v), w) ==> in_classes(cs, w) || w == v,
        cs.len() <= add_member(s, cs, v).len(),
{
    let r = root(s, v);
    let j = find_class(s, cs, r);
    let out = add_member(s, cs, v);
    lemma_find_class(s, cs, r);
    if 0 <= j < cs.len() {
        let old_m = cs[j].1;
        let new_m = insert_new(old_m, v);
        lemma_insert_new(old_m, v);
        assert(new_m[0] == old_m[0]) by {
            assert(new_m.take(old_m.len() as int)[0] == old_m[0]);
        }
        assert forall|i: int| 0 <= i < out.len() implies (#[trigger] out[i]).1.len() > 0 && out[i].1.no_duplicates()
            && out[i].0 == anchor(s, out[i].1[0]) by {
            if i != j {
                assert(out[i] == cs[i]);
            }
        }
        assert forall|i: int, m: int| 0 <= i < out.len() && 0 <= m < out[i].1.len() implies root(
            s,
            #[trigger] out[i].1[m],
        ) == root(s, out[i].1[0]) by {
            if i != j {
                assert(out[i] == cs[i]);
            } else {
                if m < old_m.len() {
                    assert(new_m.take(old_m.len() as int)[m] == old_m[m]);
                    assert(root(s, cs[j].1[m]) == root(s, cs[j].1[0]));
                } else {
                    assert(new_m.contains(new_m[m]));
                    if old_m.contains(new_m[m]) {
                        let q = choose|q: int| 0 <= q < old_m.len() && old_m[q] == new_m[m];
                        assert(root(s, cs[j].1[q]) == root(s, cs[j].1[0]));
                    }
                }
            }
        }
        assert forall|i1: int, i2: int| 0 <= i1 < i2 < out.len() implies root(
            s,
            (#[trigger] out[i1]).1[0],
        ) != root(s, (#[trigger] out[i2]).1[0]) by {
            assert(root(s, cs[i1].1[0]) != root(s, cs[i2].1[0]));
            assert(out[i1].1[0] == cs[i1].1[0]);
            assert(out[i2].1[0] == cs[i2].1[0]);
        }
        assert(out[j].1.contains(v));
        assert forall|w: nat| in_classes(cs, w) implies in_classes(out, w) by {
            let i = choose|i: int| 0 <= i < cs.len() && (#[trigger] cs[i]).1.contains(w);
            if i != j {
                assert(out[i] == cs[i]);
            }
            assert(out[i].1.contains(w));
        }
        assert forall|w: nat| in_classes(out, w) implies in_classes(cs, w) || w == v by {
            let i = choose|i: int| 0 <= i < out.len() && (#[trigger] out[i]).1.contains(w);
            if i != j {
                assert(out[i] == cs[i]);
                assert(cs[i].1.contains(w));
            } else {
                if w != v {
                    assert(cs[j].1.contains(w));
                }
            }
        }
    } else {
        let c = (anchor(s, v), seq![v]);
        assert(out[cs.len() as int] == c);
        assert forall|i: int| 0 <= i < out.len() implies (#[trigger] out[i]).1.len() > 0 && out[i].1.no_duplicates()
            && out[i].0 == anchor(s, out[i].1[0]) by {
            if i < cs.len() {
                assert(out[i] == cs[i]);
            }
        }
        assert forall|i: int, m: int| 0 <= i < out.len() && 0 <= m < out[i].1.len() implies root(
            s,
            #[trigger] out[i].1[m],
        ) == root(s, out[i].1[0]) by {
            if i < cs.len() {
                assert(out[i] == cs[i]);
                assert(root(s, cs[i].1[m]) == root(s, cs[i].1[0]));
            }
        }
        assert forall|i1: int, i2: int| 0 <= i1 < i2 < out.len() implies root(
            s,
            (#[trigger] out[i1]).1[0],
        ) != root(s, (#[trigger] out[i2]).1[0]) by {
            assert(out[i1] == cs[i1]);
            if i2 < cs.len() {
                assert(out[i2] == cs[i2]);
                assert(root(s, cs[i1].1[0]) != root(s, cs[i2].1[0]));
            } else {
                assert(root(s, cs[i1].1[0]) != r);
            }
        }
        assert(c.1[0] == v);
        assert(out[cs.len() as int].1.contains(v));
        assert forall|w: nat| in_classes(cs, w) implies in_classes(out, w) by {
            let i = choose|i: int| 0 <= i < cs.len() && (#[trigger] cs[i]).1.contains(w);
            assert(out[i] == cs[i]);
        }
        assert forall|w: nat| in_classes(out, w) implies in_classes(cs, w) || w == v by {
            let i = choose|i: int| 0 <= i < out.len() && (#[trigger] out[i]).1.contains(w);
            if i < cs.len() {
                assert(out[i] == cs[i]);
                assert(cs[i].1.contains(w));
            } else {
                let q = choose|q: int| 0 <= q < c.1.len() && c.1[q] == w;
            }
        }
    }
}

/// The classes are in order, and they hold every bound variable and every
/// variable that one is bound to, and no other.
pub proof fn lemma_classes(s: Seq<(nat, TypeTerm)>, k: nat)
    requires
        k <= s.len(),
    ensures
        classes_ok(s, classes_upto(s, k)),
        forall|i: int| 0 <= i < k ==> in_classes(classes_upto(s, k), (#[trigger] s[i]).0),
        forall|i: int|
            0 <= i < k && (#[trigger] s[i]).1 is Variable ==> in_classes(
                classes_upto(s, k),
                s[i].1->Variable_id,
            ),
        forall|w: nat| #[trigger]
            in_classes(classes_upto(s, k), w) ==> exists|i: int|
                0 <= i < k && ((#[trigger] s[i]).0 == w || s[i].1 == (TypeTerm::Variable { id: w })),
    decreases k,
{
    if k > 0 {
        let c0 = classes_upto(s, (k - 1) as nat);
        lemma_classes(s, (k - 1) as nat);
        let c1 = add_member(s, c0, s[k - 1].0);
        lemma_add_member(s, c0, s[k - 1].0);
        let c2 = classes_upto(s, k);
        if let TypeTerm::Variable { id } = s[k - 1].1 {
            lemma_add_member(s, c1, id);
        }
        assert forall|w: nat| #[trigger] in_classes(c2, w) implies exists|i: int|
            0 <= i < k && ((#[trigger] s[i]).0 == w || s[i].1 == (TypeTerm::Variable {
                id: w,
            })) by {
            if in_classes(c0, w) {
                let i = choose|i: int|
                    0 <= i < k - 1 && ((#[trigger] s[i]).0 == w || s[i].1 == (TypeTerm::Variable {
                        id: w,
                    }));
                assert(0 <= i < k);
            } else {
                assert(s[k - 1].0 == w || s[k - 1].1 == (TypeTerm::Variable { id: w }));
            }
        }
    }
}

/// What a lookup finds after one more binding.
pub proof fn lemma_lookup_push(s: Seq<(nat, TypeTerm)>, v: nat, t: TypeTerm, u: nat)
    ensures
        lookup(s.push((v, t)), u) == if u == v {
            Some(t)
        } else {
            lookup(s, u)
        },
{
    assert(s.push((v, t)).drop_last() =~= s);
}

/// Where no variable is bound twice, a lookup finds the type of the binding.
pub proof fn lemma_lookup_at(s: Seq<(nat, TypeTerm)>, i: int)
    requires
        keys_distinct(s),
        0 <= i < s.len(),
    ensures
        lookup(s, s[i].0) == Some(s[i].1),
    decreases s.len(),
{
    if i < s.len() - 1 {
        let p = s.drop_last();
        assert(s[i].0 != s[s.len() - 1].0);
        assert(p[i] == s[i]);
        assert forall|a: int, b: int| 0 <= a < b < p.len() implies (#[trigger] p[a]).0 != (
        #[trigger] p[b]).0 by {
            assert(p[a] == s[a]);
            assert(p[b] == s[b]);
        }
        lemma_lookup_at(p, i);
    }
}

/// Every binding to a variable is to one that was unbound when the binding
/// was made, and not to its own.
pub open spec fn links_forward(s: Seq<(nat, TypeTerm)>) -> bool {
    forall|j: int|
        0 <= j < s.len() && (#[trigger] s[j]).1 is Variable ==> lookup(
            s.take(j + 1),
            s[j].1->Variable_id,
        ) is None
}

/// One more binding, to a constructor or to another, unbound variable, keeps
/// the bindings to variables leading forward.
pub proof fn lemma_links_push(s: Seq<(nat, TypeTerm)>, v: nat, t: TypeTerm)
    requires
        links_forward(s),
        t is Variable ==> lookup(s, t->Variable_id) is None && t->Variable_id != v,
    ensures
        links_forward(s.push((v, t))),
{
    let s1 = s.push((v, t));
    assert forall|j: int| 0 <= j < s1.len() && (#[trigger] s1[j]).1 is Variable implies lookup(
        s1.take(j + 1),
        s1[j].1->Variable_id,
    ) is None by {
        if j < s.len() {
            assert(s1.take(j + 1) =~= s.take(j + 1));
            assert(s1[j] == s[j]);
        } else {
            assert(s1.take(j + 1) =~= s1);
            lemma_lookup_push(s, v, t, t->Variable_id);
        }
    }
}

/// Where bindings to variables lead forward, the chain from a variable ends
/// at a variable that is unbound or bound to a constructor.
pub proof fn lemma_roots_end(s: Seq<(nat, TypeTerm)>, v: nat, fuel: nat)
    requires
        keys_distinct(s),
        links_forward(s),
        lookup(s, v) is None || exists|j: int|
            0 <= j < s.len() && (#[trigger] s[j]).0 == v && fuel + j >= s.len(),
    ensures
        !(lookup(s, root_fuel(s, v, fuel)) matches Some(t) && t is Variable),
    decreases fuel,
{
    if let Some(t) = lookup(s, v) {
        let j = choose|j: int| 0 <= j < s.len() && (#[trigger] s[j]).0 == v && fuel + j >= s.len();
        lemma_lookup_at(s, j);
        if let TypeTerm::Variable { id } = t {
            assert(lookup(s.take(j + 1), id) is None);
            if let Some(u) = lookup(s, id) {
                lemma_lookup(s, id);
                lemma_lookup(s.take(j + 1), id);
                let k = choose|k: int| 0 <= k < s.len() && #[trigger] s[k] == (id, u);
                if k <= j {
                    assert(s.take(j + 1)[k] == s[k]);
                    assert(s.take(j + 1)[k].0 == id);
                }
                assert(k > j);
                assert(s[k].0 == id && (fuel - 1) + k >= s.len());
            }
            lemma_roots_end(s, id, (fuel - 1) as nat);
        }
    }
}

/// The representative of a variable is unbound or bound to a constructor,
/// where the bindings to variables lead forward.
pub proof fn lemma_root_ends(s: Seq<(nat, TypeTerm)>, v: nat)
    requires
        keys_distinct(s),
        links_forward(s),
    ensures
        !(lookup(s, root(s, v)) matches Some(t) && t is Variable),
{
    lemma_lookup(s, v);
    if let Some(u) = lookup(s, v) {
        let i = choose|i: int| 0 <= i < s.len() && #[trigger] s[i] == (v, u);
        assert(s[i].0 == v);
    }
    lemma_roots_end(s, v, s.len());
}

/// The variable `v` occurs in `t`.
pub open spec fn holds(t: TypeTerm, v: nat) -> bool
    decreases t,
{
    match t {
        TypeTerm::Variable { id } => id == v,
        TypeTerm::Constructor { args, .. } => exists|i: int|
            0 <= i < args.len() && holds(#[trigger] args[i], v),
    }
}

/// A type is settled under one more binding exactly when it was settled and
/// does not hold the new variable.
pub proof fn lemma_settled_holds(s: Seq<(nat, TypeTerm)>, v: nat, t: TypeTerm, z: TypeTerm)
    ensures
        settled(s.push((v, t)), z) <==> settled(s, z) && !holds(z, v),
    decreases z,
{
    match z {
        TypeTerm::Variable { id } => {
            lemma_lookup_push(s, v, t, id);
        },
        TypeTerm::Constructor { name, args } => {
            assert forall|i: int| 0 <= i < args.len() implies (settled(
                s.push((v, t)),
                #[trigger] args[i],
            ) <==> settled(s, args[i]) && !holds(args[i], v)) by {
                lemma_settled_holds(s, v, t, args[i]);
            }
            if settled(s, z) && !holds(z, v) {
                assert forall|i: int| 0 <= i < args.len() implies settled(
                    s.push((v, t)),
                    #[trigger] args[i],
                ) by {
                    assert(settled(s, args[i]));
                    assert(!holds(args[i], v));
                }
            }
            if settled(s.push((v, t)), z) {
                assert forall|i: int| 0 <= i < args.len() implies settled(s, #[trigger] args[i])
                    && !holds(args[i], v) by {
                    assert(settled(s.push((v, t)), args[i]));
                }
            }
        },
    }
}

/// More fuel does not change what a type resolves to.
pub proof fn lemma_resolve_mono(s: Seq<(nat, TypeTerm)>, x: TypeTerm, f1: nat, f2: nat)
    requires
        f1 <= f2,
        resolve_fuel(s, x, f1) is Some,
    ensures
        resolve_fuel(s, x, f2) == resolve_fuel(s, x, f1),
    decreases f1, x,
{
    match x {
        TypeTerm::Variable { id } => {
            if let Some(u) = lookup(s, id) {
                lemma_resolve_mono(s, u, (f1 - 1) as nat, (f2 - 1) as nat);
            }
        },
        TypeTerm::Constructor { name, args } => {
            let rs1 = resolve_each(s, args, f1);
            let rs2 = resolve_each(s, args, f2);
            assert forall|i: int| 0 <= i < args.len() implies #[trigger] rs2[i] == rs1[i] by {
                assert(rs1[i] is Some);
                lemma_resolve_mono(s, args[i], f1, f2);
            }
            assert(rs2 =~= rs1);
        },
    }
}

/// A settled type holds no bound variable.
pub proof fn lemma_settled_free(s: Seq<(nat, TypeTerm)>, r: TypeTerm, v: nat)
    requires
        settled(s, r),
        holds(r, v),
    ensures
        lookup(s, v) is None,
    decreases r,
{
    match r {
        TypeTerm::Variable { id } => {},
        TypeTerm::Constructor { name, args } => {
            let i = choose|i: int| 0 <= i < args.len() && holds(#[trigger] args[i], v);
            assert(settled(s, args[i]));
            lemma_settled_free(s, args[i], v);
        },
    }
}

/// The least fuel with which a variable that resolves does resolve.
pub proof fn least_fuel(s: Seq<(nat, TypeTerm)>, v: nat, g: nat) -> (g0: nat)
    requires
        resolve_fuel(s, var(v), g) is Some,
    ensures
        g0 <= g,
        resolve_fuel(s, var(v), g0) is Some,
        forall|h: nat| h < g0 ==> (#[trigger] resolve_fuel(s, var(v), h)) is None,
    decreases g,
{
    if g > 0 && resolve_fuel(s, var(v), (g - 1) as nat) is Some {
        least_fuel(s, v, (g - 1) as nat)
    } else {
        assert forall|h: nat| h < g implies (#[trigger] resolve_fuel(s, var(v), h)) is None by {
            if resolve_fuel(s, var(v), h) is Some {
                lemma_resolve_mono(s, var(v), h, (g - 1) as nat);
            }
        }
        g
    }
}

/// `s2` is `s` without its binding of `v`.
pub open spec fn without(s: Seq<(nat, TypeTerm)>, s2: Seq<(nat, TypeTerm)>, v: nat) -> bool {
    &&& lookup(s2, v) is None
    &&& forall|u: nat| u != v ==> #[trigger] lookup(s2, u) == lookup(s, u)
}

/// A type that resolves without the variable `v` ever being resolved on the
/// way resolves alike without the binding of `v`.
pub proof fn lemma_resolve_without(
    s: Seq<(nat, TypeTerm)>,
    s2: Seq<(nat, TypeTerm)>,
    v: nat,
    y: TypeTerm,
    h: nat,
)
    requires
        without(s, s2, v),
        resolve_fuel(s, y, h) is Some,
        forall|k: nat| k <= h ==> (#[trigger] resolve_fuel(s, var(v), k)) is None,
    ensures
        resolve_fuel(s2, y, h) == resolve_fuel(s, y, h),
    decreases h, y,
{
    match y {
        TypeTerm::Variable { id } => {
            if id == v {
                assert(resolve_fuel(s, var(v), h) is None);
            } else {
                assert(lookup(s2, id) == lookup(s, id));
                if let Some(u) = lookup(s, id) {
                    lemma_resolve_without(s, s2, v, u, (h - 1) as nat);
                }
            }
        },
        TypeTerm::Constructor { name, args } => {
            let rs = resolve_each(s, args, h);
            let rs2 = resolve_each(s2, args, h);
            assert forall|i: int| 0 <= i < args.len() implies #[trigger] rs2[i] == rs[i] by {
                assert(rs[i] is Some);
                lemma_resolve_without(s, s2, v, args[i], h);
            }
            assert(rs2 =~= rs);
        },
    }
}

/// A type that resolves without the binding of `v` to a type that does not
/// hold `v` resolves alike with the binding.
pub proof fn lemma_resolve_with(
    s: Seq<(nat, TypeTerm)>,
    s2: Seq<(nat, TypeTerm)>,
    v: nat,
    y: TypeTerm,
    h: nat,
)
    requires
        without(s, s2, v),
        resolve_fuel(s2, y, h) is Some,
        !holds(resolve_fuel(s2, y, h)->Some_0, v),
    ensures
        resolve_fuel(s, y, h) == resolve_fuel(s2, y, h),
    decreases h, y,
{
    match y {
        TypeTerm::Variable { id } => {
            if id != v {
                assert(lookup(s2, id) == lookup(s, id));
                if let Some(u) = lookup(s, id) {
                    lemma_resolve_with(s, s2, v, u, (h - 1) as nat);
                }
            }
        },
        TypeTerm::Constructor { name, args } => {
            let rs = resolve_each(s, args, h);
            let rs2 = resolve_each(s2, args, h);
            let r = resolve_fuel(s2, y, h)->Some_0;
            let ra = r->Constructor_args;
            assert forall|i: int| 0 <= i < args.len() implies #[trigger] rs[i] == rs2[i] by {
                assert(rs2[i] is Some);
                assert(ra[i] == rs2[i]->Some_0);
                assert(!holds(ra[i], v));
                lemma_resolve_with(s, s2, v, args[i], h);
            }
            assert(rs =~= rs2);
        },
    }
}

/// The substitution without the binding at `i` is shorter by one, binds no
/// variable twice, and differs in the lookup of the one variable only.
pub proof fn lemma_remove_binding(s: Seq<(nat, TypeTerm)>, i: int)
    requires
        keys_distinct(s),
        0 <= i < s.len(),
    ensures
        s.remove(i).len() == s.len() - 1,
        keys_distinct(s.remove(i)),
        without(s, s.remove(i), s[i].0),
{
    let s2 = s.remove(i);
    let v = s[i].0;
    assert forall|a: int, b: int| 0 <= a < b < s2.len() implies (#[trigger] s2[a]).0 != (
    #[trigger] s2[b]).0 by {
        let a1 = if a < i {
            a
        } else {
            a + 1
        };
        let b1 = if b < i {
            b
        } else {
            b + 1
        };
        assert(s2[a] == s[a1]);
        assert(s2[b] == s[b1]);
        assert(s[a1].0 != s[b1].0);
    }
    lemma_lookup(s2, v);
    assert forall|k: int| 0 <= k < s2.len() implies (#[trigger] s2[k]).0 != v by {
        let k1 = if k < i {
            k
        } else {
            k + 1
        };
        assert(s2[k] == s[k1]);
        if k1 < i {
            assert(s[k1].0 != s[i].0);
        } else {
            assert(s[i].0 != s[k1].0);
        }
    }
    assert forall|u: nat| u != v implies #[trigger] lookup(s2, u) == lookup(s, u) by {
        lemma_lookup(s, u);
        lemma_lookup(s2, u);
        if let Some(t) = lookup(s, u) {
            let k = choose|k: int| 0 <= k < s.len() && #[trigger] s[k] == (u, t);
            let k2 = if k < i {
                k
            } else {
                k - 1
            };
            assert(s2[k2] == s[k]);
            lemma_lookup_at(s2, k2);
        } else {
            assert forall|k: int| 0 <= k < s2.len() implies (#[trigger] s2[k]).0 != u by {
                let k1 = if k < i {
                    k
                } else {
                    k + 1
                };
                assert(s2[k] == s[k1]);
            }
        }
    }
}

/// A type that resolves with some fuel resolves with as much fuel as the
/// substitution has bindings: on the way of a resolution that ends, no
/// binding is followed twice.
pub proof fn lemma_resolve_enough(s: Seq<(nat, TypeTerm)>, x: TypeTerm, g: nat)
    requires
        keys_distinct(s),
        resolve_fuel(s, x, g) is Some,
    ensures
        resolve(s, x) == resolve_fuel(s, x, g),
    decreases s.len(), x,
{
    let n = s.len();
    match x {
        TypeTerm::Variable { id } => {
            lemma_lookup(s, id);
            if let Some(t) = lookup(s, id) {
                let i = choose|i: int| 0 <= i < s.len() && #[trigger] s[i] == (id, t);
                let g0 = least_fuel(s, id, g);
                let h = (g0 - 1) as nat;
                let s2 = s.remove(i);
                lemma_remove_binding(s, i);
                assert(resolve_fuel(s, t, h) is Some);
                let r = resolve_fuel(s, t, h)->Some_0;
                lemma_resolve_without(s, s2, id, t, h);
                lemma_resolve_enough(s2, t, h);
                lemma_resolve_settled(s, t, h);
                assert(!holds(r, id)) by {
                    lemma_settled_holds(s2, id, t, r);
                    if holds(r, id) {
                        lemma_settled_free(s, r, id);
                    }
                }
                lemma_resolve_with(s, s2, id, t, (n - 1) as nat);
                lemma_resolve_mono(s, x, g0, g);
                assert(resolve_fuel(s, x, n) == resolve_fuel(s, t, (n - 1) as nat));
            }
        },
        TypeTerm::Constructor { name, args } => {
            let rs = resolve_each(s, args, g);
            let rn = resolve_each(s, args, n);
            assert forall|i: int| 0 <= i < args.len() implies #[trigger] rn[i] == rs[i] by {
                assert(rs[i] is Some);
                lemma_resolve_enough(s, args[i], g);
            }
            assert(rn =~= rs);
        },
    }
}

/// The variable `w` is bound, or some variable is bound to it.
pub open spec fn participant(s: Seq<(nat, TypeTerm)>, w: nat) -> bool {
    exists|i: int| 0 <= i < s.len() && ((#[trigger] s[i]).0 == w || s[i].1 == var(w))
}

/// The classes hold exactly the variables that take part in a binding.
pub proof fn lemma_in_classes(s: Seq<(nat, TypeTerm)>, w: nat)
    ensures
        in_classes(classes(s), w) <==> participant(s, w),
        classes_ok(s, classes(s)),
{
    lemma_classes(s, s.len());
    if participant(s, w) {
        let i = choose|i: int| 0 <= i < s.len() && ((#[trigger] s[i]).0 == w || s[i].1 == var(w));
        if s[i].0 != w {
            assert(s[i].1 is Variable);
            assert(s[i].1->Variable_id == w);
        }
    }
    if in_classes(classes(s), w) {
        let i = choose|i: int|
            0 <= i < s.len() && ((#[trigger] s[i]).0 == w || s[i].1 == (TypeTerm::Variable {
                id: w,
            }));
        assert(s[i].0 == w || s[i].1 == var(w));
    }
}

/// The result of a unification.
#[derive(Debug, Clone, Copy, PartialEq, Eq, Structural)]
pub enum UnificationResult {
    /// The two sides unify.
    Success,
    /// They do not.
    Failure,
}

/// The model of an optional type.
pub open spec fn type_view(t: Option<ConcreteType>) -> Option<TypeTerm> {
    match t {
        Some(t) => Some(t@),
        None => None,
    }
}

/// A substitution under construction.
#[derive(Debug)]
pub struct Unifier {
    bindings: Vec<(usize, ConcreteType)>,
}

impl View for Unifier {
    type V = Seq<(nat, TypeTerm)>;

    closed spec fn view(&self) -> Seq<(nat, TypeTerm)> {
        Seq::new(self.bindings.len() as nat, |i: int| (self.bindings[i].0 as nat, self.bindings[i].1@))
    }
}

impl Unifier {
    /// No variable is bound twice, and a variable that is bound to a variable
    /// is bound to one that was unbound, and another, when the binding was
    /// made.
    pub open spec fn wf(&self) -> bool {
        keys_distinct(self@) && links_forward(self@)
    }

    /// The empty substitution.
    pub fn new() -> (res: Unifier)
        ensures
            res@ == Seq::<(nat, TypeTerm)>::empty(),
            res.wf(),
    {
        let res = Unifier { bindings: Vec::new() };
        assert(res@ =~= Seq::<(nat, TypeTerm)>::empty());
        res
    }

    /// The representative of every class is unbound, or bound to the
    /// constructor that the class carries.
    pub open spec fn classes_rooted(&self, cs: Seq<(Option<TypeTerm>, Seq<nat>)>) -> bool {
        forall|j: int|
            0 <= j < cs.len() ==> lookup(self@, root(self@, (#[trigger] cs[j]).1[0])) == cs[j].0
    }

    /// The number of bindings.
    pub fn len(&self) -> (n: usize)
        ensures
            n == self@.len(),
    {
        self.bindings.len()
    }

    /// The type bound to the variable `id`, if any.
    pub fn get(&self, id: usize) -> (res: Option<&ConcreteType>)
        ensures
            match res {
                Some(t) => lookup(self@, id as nat) == Some(t@),
                None => lookup(self@, id as nat) is None,
            },
    {
        let mut i: usize = self.bindings.len();
        assert(self@.take(i as int) =~= self@);
        while i > 0
            invariant
                i <= self.bindings.len(),
                lookup(self@, id as nat) == lookup(self@.take(i as int), id as nat),
            decreases i,
        {
            i -= 1;
            proof {
                let p = self@.take(i + 1);
                assert(p.drop_last() =~= self@.take(i as int));
                assert(p.last() == self@[i as int]);
            }
            if self.bindings[i].0 == id {
                return Some(&self.bindings[i].1);
            }
        }
        None
    }

    /// Resolution with a bound on the bindings followed on one path.
    #[verifier::loop_isolation(false)]
    fn resolve_with(&self, cty: &ConcreteType, fuel: usize) -> (res: Option<ConcreteType>)
        ensures
            type_view(res) == resolve_fuel(self@, cty@, fuel as nat),
        decreases fuel, cty,
    {
        proof {
            cty.lemma_args();
        }
        match cty {
            ConcreteType::Type { name, params } => {
                let mut out: Vec<ConcreteType> = Vec::new();
                let mut i: usize = 0;
                while i < params.len()
                    invariant
                        i <= params.len(),
                        out.len() == i,
                        cty == (ConcreteType::Type { name: *name, params: *params }),
                        forall|j: int|
                            0 <= j < i ==> resolve_fuel(self@, params[j]@, fuel as nat) == Some(
                                #[trigger] out[j]@,
                            ),
                    decreases params.len() - i,
                {
                    match self.resolve_with(&params[i], fuel) {
                        Some(r) => {
                            out.push(r);
                        },
                        None => {
                            proof {
                                let rs = resolve_each(self@, seq_view(params@), fuel as nat);
                                assert(seq_view(params@)[i as int] == params[i as int]@);
                                assert(rs[i as int] is None);
                            }
                            return None;
                        },
                    }
                    i += 1;
                }
                let res = ConcreteType::Type { name: name.clone(), params: out };
                proof {
                    res.lemma_args();
                    let args = seq_view(params@);
                    let rs = resolve_each(self@, args, fuel as nat);
                    assert forall|j: int| 0 <= j < args.len() implies (#[trigger] rs[j]) == Some(
                        out[j]@,
                    ) by {
                        assert(resolve_fuel(self@, params[j]@, fuel as nat) == Some(out[j]@));
                    }
                    assert(values(rs) =~= seq_view(out@));
                }
                Some(res)
            },
            ConcreteType::Param { id, .. } => {
                match self.get(*id) {
                    None => Some(cty.clone()),
                    Some(ct) => {
                        if fuel == 0 {
                            None
                        } else {
                            self.resolve_with(ct, fuel - 1)
                        }
                    },
                }
            },
        }
    }

    /// `cty` resolved through the substitution: every bound variable replaced
    /// by what its binding resolves to. `None` where a chain of bindings does
    /// not end.
    pub fn resolve(&self, cty: &ConcreteType) -> (res: Option<ConcreteType>)
        requires
            self.wf(),
        ensures
            type_view(res) == resolve(self@, cty@),
            res matches Some(r) ==> settled(self@, r@),
            res is None ==> forall|fuel: nat| (#[trigger] resolve_fuel(self@, cty@, fuel)) is None,
    {
        proof {
            lemma_resolve_settled(self@, cty@, self@.len());
            assert forall|fuel: nat| resolve(self@, cty@) is None implies (#[trigger] resolve_fuel(
                self@,
                cty@,
                fuel,
            )) is None by {
                if resolve_fuel(self@, cty@, fuel) is Some {
                    lemma_resolve_enough(self@, cty@, fuel);
                }
            }
        }
        self.resolve_with(cty, self.bindings.len())
    }

    /// Records that the variable `id` stands for `t`.
    fn bind(&mut self, id: usize, t: ConcreteType)
        requires
            old(self).wf(),
            lookup(old(self)@, id as nat) is None,
            t@ is Variable ==> lookup(old(self)@, t@->Variable_id) is None && t@->Variable_id
                != id,
        ensures
            final(self).wf(),
            final(self)@ == old(self)@.push((id as nat, t@)),
    {
        proof {
            lemma_lookup(self@, id as nat);
            lemma_links_push(self@, id as nat, t@);
        }
        self.bindings.push((id, t));
        assert(self@ =~= old(self)@.push((id as nat, t@)));
    }

    /// Unification proper. `n` is above every variable in sight; `res.1` is
    /// fuel with which the model reaches the same outcome.
    #[verifier::loop_isolation(false)]
    fn unify_inner(&mut self, cty1: &ConcreteType, cty2: &ConcreteType, Ghost(n): Ghost<nat>) -> (res:
        (UnificationResult, Ghost<nat>))
        requires
            old(self).wf(),
            subst_below(old(self)@, n),
            below(cty1@, n),
            below(cty2@, n),
        ensures
            final(self).wf(),
            subst_below(final(self)@, n),
            extends(final(self)@, old(self)@),
            unify_fuel(old(self)@, cty1@, cty2@, res.1@) == Some(
                (final(self)@, res.0 == UnificationResult::Success),
            ),
        decreases n - old(self)@.len(), resolved_term(old(self)@, cty1@),
    {
        let ghost s0 = self@;
        proof {
            lemma_resolve_below(s0, cty1@, s0.len(), n);
            lemma_resolve_below(s0, cty2@, s0.len(), n);
            assert(s0.take(s0.len() as int) =~= s0);
        }
        let r1 = match self.resolve(cty1) {
            Some(r) => r,
            None => {
                return (UnificationResult::Failure, Ghost(0));
            },
        };
        let r2 = match self.resolve(cty2) {
            Some(r) => r,
            None => {
                return (UnificationResult::Failure, Ghost(0));
            },
        };
        proof {
            r1.lemma_args();
            r2.lemma_args();
        }
        match &r1 {
            ConcreteType::Type { name: n1, params: ps1 } => match &r2 {
                ConcreteType::Type { name: n2, params: ps2 } => {
                    if !(*n1 == *n2) {
                        return (UnificationResult::Failure, Ghost(0));
                    }
                    let ghost a1 = r1@->Constructor_args;
                    let ghost a2 = r2@->Constructor_args;
                    proof {
                        assert(a1 =~= seq_view(ps1@));
                        assert(a2 =~= seq_view(ps2@));
                    }
                    let k = if ps1.len() <= ps2.len() {
                        ps1.len()
                    } else {
                        ps2.len()
                    };
                    let ghost mut fuel: nat = 0;
                    let mut i: usize = 0;
                    while i < k
                        invariant
                            i <= k,
                            k == shorter(a1, a2),
                            self.wf(),
                            subst_below(self@, n),
                            extends(self@, s0),
                            unify_upto(s0, a1, a2, i as nat, fuel) == Some((self@, true)),
                        decreases k - i,
                    {
                        let ghost s1 = self@;
                        proof {
                            assert(a1[i as int] == ps1[i as int]@);
                            assert(a2[i as int] == ps2[i as int]@);
                            assert(below(a1[i as int], n));
                            assert(below(a2[i as int], n));
                            lemma_len_bound(s1, n);
                            if s1.len() == s0.len() {
                                assert(s1 =~= s0);
                                assert(settled(s0, a1[i as int]));
                                lemma_settled_resolve(s0, a1[i as int], s0.len());
                            }
                        }
                        let (r, Ghost(f)) = self.unify_inner(&ps1[i], &ps2[i], Ghost(n));
                        proof {
                            let f2 = if fuel <= f {
                                f
                            } else {
                                fuel
                            };
                            lemma_upto_mono(s0, a1, a2, i as nat, fuel, f2);
                            lemma_unify_mono(s1, a1[i as int], a2[i as int], f, f2);
                            fuel = f2;
                            assert(extends(self@, s0)) by {
                                assert(self@.take(s0.len() as int) =~= s1.take(s0.len() as int));
                            }
                        }
                        if r == UnificationResult::Failure {
                            proof {
                                lemma_upto_fail(s0, a1, a2, (i + 1) as nat, k as nat, fuel);
                            }
                            return (UnificationResult::Failure, Ghost(fuel + 1));
                        }
                        i += 1;
                    }
                    (UnificationResult::Success, Ghost(fuel + 1))
                },
                ConcreteType::Param { id, .. } => {
                    self.bind(*id, r1.clone());
                    proof {
                        assert(extends(self@, s0)) by {
                            assert(self@.take(s0.len() as int) =~= s0);
                        }
                    }
                    (UnificationResult::Success, Ghost(0))
                },
            },
            ConcreteType::Param { id: id1, .. } => match &r2 {
                ConcreteType::Type { .. } => {
                    self.bind(*id1, r2.clone());
                    proof {
                        assert(extends(self@, s0)) by {
                            assert(self@.take(s0.len() as int) =~= s0);
                        }
                    }
                    (UnificationResult::Success, Ghost(0))
                },
                ConcreteType::Param { id: id2, .. } => {
                    if *id1 == *id2 {
                        (UnificationResult::Success, Ghost(0))
                    } else {
                        self.bind(*id1, r2.clone());
                        proof {
                            assert(extends(self@, s0)) by {
                                assert(self@.take(s0.len() as int) =~= s0);
                            }
                        }
                        (UnificationResult::Success, Ghost(0))
                    }
                },
            },
        }
    }
}

/// Once a pair fails, the rest of the list is not looked at.
pub proof fn lemma_upto_fail(
    s: Seq<(nat, TypeTerm)>,
    xs: Seq<TypeTerm>,
    ys: Seq<TypeTerm>,
    i: nat,
    k: nat,
    fuel: nat,
)
    requires
        i <= k,
        unify_upto(s, xs, ys, i, fuel) matches Some((_, false)),
    ensures
        unify_upto(s, xs, ys, k, fuel) == unify_upto(s, xs, ys, i, fuel),
    decreases k - i,
{
    if i < k {
        lemma_upto_fail(s, xs, ys, i, (k - 1) as nat, fuel);
    }
}

/// The model of a list of variable identities.
pub open spec fn ids_view(v: Seq<usize>) -> Seq<nat> {
    Seq::new(v.len(), |i: int| v[i] as nat)
}

/// The model of a list of classes.
pub open spec fn classes_view(v: Seq<(Option<ConcreteType>, Vec<usize>)>) -> Seq<
    (Option<TypeTerm>, Seq<nat>),
> {
    Seq::new(v.len(), |i: int| (type_view(v[i].0), ids_view(v[i].1@)))
}

/// A copy of an optional type.
pub fn clone_anchor(t: &Option<ConcreteType>) -> (res: Option<ConcreteType>)
    ensures
        type_view(res) == type_view(*t),
{
    match t {
        Some(t) => Some(t.clone()),
        None => None,
    }
}

/// A copy of `v` with `x` appended unless `v` holds it.
pub fn with_id(v: &Vec<usize>, x: usize) -> (res: Vec<usize>)
    ensures
        ids_view(res@) == insert_new(ids_view(v@), x as nat),
{
    let mut res: Vec<usize> = Vec::new();
    let mut found = false;
    let mut i: usize = 0;
    while i < v.len()
        invariant
            i <= v.len(),
            res@ == v@.take(i as int),
            found <==> exists|j: int| 0 <= j < i && v[j] == x,
        decreases v.len() - i,
    {
        if v[i] == x {
            found = true;
        }
        res.push(v[i]);
        assert(v@.take(i + 1) =~= v@.take(i as int).push(v[i as int]));
        i += 1;
    }
    assert(v@.take(v.len() as int) =~= v@);
    proof {
        let m = ids_view(v@);
        if found {
            let j = choose|j: int| 0 <= j < v.len() && v[j] == x;
            assert(m[j] == x as nat);
        } else {
            assert forall|j: int| 0 <= j < m.len() implies m[j] != x as nat by {
                assert(v[j] != x);
            }
        }
    }
    if !found {
        res.push(x);
        assert(ids_view(res@) =~= ids_view(v@).push(x as nat));
    }
    res
}

impl Unifier {
    /// Unifies two types: both are resolved; two constructors unify when their
    /// names are equal and their arguments unify in turn, as far as the shorter
    /// list reaches; a variable against a constructor is bound to it; of two
    /// different variables the first is bound to the second. A side whose
    /// bindings do not end fails. Bindings recorded before a failure stay.
    pub fn type_unify(&mut self, cty1: &ConcreteType, cty2: &ConcreteType) -> (r: UnificationResult)
        requires
            old(self).wf(),
        ensures
            final(self).wf(),
            extends(final(self)@, old(self)@),
            unify_halts(old(self)@, cty1@, cty2@),
            final(self)@ == unify_types(old(self)@, cty1@, cty2@).0,
            (r == UnificationResult::Success) == unify_types(old(self)@, cty1@, cty2@).1,
    {
        let ghost mut n: nat = 0;
        proof {
            let n1 = bound_of(cty1@);
            let n2 = bound_of(cty2@);
            let n3 = bound_of_subst(self@, self@.len());
            assert(self@.take(self@.len() as int) =~= self@);
            n = n1 + n2 + n3;
            lemma_below_mono(cty1@, n1, n);
            lemma_below_mono(cty2@, n2, n);
            lemma_subst_below_mono(self@, n3, n);
        }
        let (r, Ghost(f)) = self.unify_inner(cty1, cty2, Ghost(n));
        proof {
            lemma_unify_types(old(self)@, cty1@, cty2@, f);
        }
        r
    }

    /// Unifies two trait applications: they fail when the names differ; else
    /// the arguments are unified in turn, as far as the shorter list reaches.
    /// Bindings recorded before a failure stay.
    pub fn trait_unify(&mut self, ctr1: &ConcreteTrait, ctr2: &ConcreteTrait) -> (r:
        UnificationResult)
        requires
            old(self).wf(),
        ensures
            final(self).wf(),
            extends(final(self)@, old(self)@),
            unify_traits_halts(old(self)@, ctr1@, ctr2@),
            final(self)@ == unify_traits(old(self)@, ctr1@, ctr2@).0,
            (r == UnificationResult::Success) == unify_traits(old(self)@, ctr1@, ctr2@).1,
    {
        let ghost s0 = self@;
        let ghost a1 = ctr1@.args;
        let ghost a2 = ctr2@.args;
        proof {
            assert(s0.take(s0.len() as int) =~= s0);
        }
        if !(ctr1.name == ctr2.name) {
            proof {
                lemma_unify_traits(s0, ctr1@, ctr2@, 0);
            }
            return UnificationResult::Failure;
        }
        let ghost mut n: nat = 0;
        proof {
            let n1 = bound_of_list(a1, a1.len());
            let n2 = bound_of_list(a2, a2.len());
            let n3 = bound_of_subst(s0, s0.len());
            n = n1 + n2 + n3;
            assert forall|i: int| 0 <= i < a1.len() implies below(#[trigger] a1[i], n) by {
                lemma_below_mono(a1[i], n1, n);
            }
            assert forall|i: int| 0 <= i < a2.len() implies below(#[trigger] a2[i], n) by {
                lemma_below_mono(a2[i], n2, n);
            }
            lemma_subst_below_mono(s0, n3, n);
        }
        let k = if ctr1.params.len() <= ctr2.params.len() {
            ctr1.params.len()
        } else {
            ctr2.params.len()
        };
        let ghost mut fuel: nat = 0;
        let mut i: usize = 0;
        while i < k
            invariant
                i <= k,
                k == shorter(a1, a2),
                k <= ctr1.params.len(),
                k <= ctr2.params.len(),
                a1 == ctr1@.args,
                a2 == ctr2@.args,
                ctr1@.name == ctr2@.name,
                s0 == old(self)@,
                self.wf(),
                subst_below(self@, n),
                forall|i: int| 0 <= i < a1.len() ==> below(#[trigger] a1[i], n),
                forall|i: int| 0 <= i < a2.len() ==> below(#[trigger] a2[i], n),
                extends(self@, s0),
                unify_upto(s0, a1, a2, i as nat, fuel) == Some((self@, true)),
            decreases k - i,
        {
            let ghost s1 = self@;
            proof {
                assert(a1[i as int] == ctr1.params[i as int]@);
                assert(a2[i as int] == ctr2.params[i as int]@);
            }
            let (r, Ghost(f)) = self.unify_inner(&ctr1.params[i], &ctr2.params[i], Ghost(n));
            proof {
                let f2 = if fuel <= f {
                    f
                } else {
                    fuel
                };
                lemma_upto_mono(s0, a1, a2, i as nat, fuel, f2);
                lemma_unify_mono(s1, a1[i as int], a2[i as int], f, f2);
                fuel = f2;
                assert(extends(self@, s0)) by {
                    assert(self@.take(s0.len() as int) =~= s1.take(s0.len() as int));
                }
            }
            if r == UnificationResult::Failure {
                proof {
                    lemma_upto_fail(s0, a1, a2, (i + 1) as nat, k as nat, fuel);
                    lemma_unify_traits(s0, ctr1@, ctr2@, fuel);
                }
                return UnificationResult::Failure;
            }
            i += 1;
        }
        proof {
            lemma_unify_traits(s0, ctr1@, ctr2@, fuel);
        }
        UnificationResult::Success
    }

    /// The representative of the variable `v`.
    pub fn root_of(&self, v: usize) -> (r: usize)
        ensures
            r as nat == root(self@, v as nat),
    {
        let mut cur = v;
        let mut fuel = self.bindings.len();
        loop
            invariant
                fuel <= self@.len(),
                root_fuel(self@, cur as nat, fuel as nat) == root(self@, v as nat),
            decreases fuel,
        {
            match self.get(cur) {
                Some(ConcreteType::Param { id, .. }) => {
                    if fuel == 0 {
                        return cur;
                    }
                    cur = *id;
                    fuel -= 1;
                },
                _ => {
                    return cur;
                },
            }
        }
    }

    /// The constructor that the representative of the variable `v` is bound
    /// to, if any.
    pub fn anchor_of(&self, v: usize) -> (res: Option<ConcreteType>)
        ensures
            type_view(res) == anchor(self@, v as nat),
    {
        let r = self.root_of(v);
        match self.get(r) {
            Some(t) => {
                proof {
                    t.lemma_args();
                }
                match t {
                    ConcreteType::Type { .. } => Some(t.clone()),
                    ConcreteType::Param { .. } => None,
                }
            },
            None => None,
        }
    }

    /// Adds the variable `i` to the classes: to the class of its
    /// representative where there is one, else as a new class at the end.
    pub fn get_routes(&self, routes: &mut Vec<(Option<ConcreteType>, Vec<usize>)>, i: usize)
        requires
            classes_ok(self@, classes_view(old(routes)@)),
        ensures
            classes_view(final(routes)@) == add_member(
                self@,
                classes_view(old(routes)@),
                i as nat,
            ),
            classes_ok(self@, classes_view(final(routes)@)),
    {
        let ghost cs = classes_view(routes@);
        let r = self.root_of(i);
        proof {
            lemma_add_member(self@, cs, i as nat);
            assert(cs.take(0) =~= Seq::<(Option<TypeTerm>, Seq<nat>)>::empty());
        }
        let mut j: usize = 0;
        while j < routes.len()
            invariant
                j <= routes.len(),
                routes@ == old(routes)@,
                cs == classes_view(routes@),
                classes_ok(self@, cs),
                r as nat == root(self@, i as nat),
                find_class(self@, cs.take(j as int), r as nat) == j,
            decreases routes.len() - j,
        {
            assert(cs[j as int].1.len() > 0);
            assert(cs[j as int].1[0] == routes[j as int].1[0] as nat);
            let first = routes[j].1[0];
            proof {
                assert(cs.take(j + 1).drop_last() =~= cs.take(j as int));
                assert(cs.take(j + 1).last() == cs[j as int]);
            }
            if self.root_of(first) == r {
                proof {
                    lemma_find_prefix(self@, cs, r as nat, j + 1);
                }
                let members = with_id(&routes[j].1, i);
                let a = clone_anchor(&routes[j].0);
                routes.set(j, (a, members));
                assert(classes_view(routes@) =~= add_member(self@, cs, i as nat));
                return ;
            }
            j += 1;
        }
        assert(cs.take(routes.len() as int) =~= cs);
        let a = self.anchor_of(i);
        let mut members: Vec<usize> = Vec::new();
        members.push(i);
        routes.push((a, members));
        assert(ids_view(members@) =~= seq![i as nat]);
        assert(classes_view(routes@) =~= add_member(self@, cs, i as nat));
    }

    /// The equivalence classes of the variables that unification has linked:
    /// two variables are in one class exactly when they have the same
    /// representative. Each class comes with the constructor that its members
    /// stand for, if any. The classes hold every bound variable and every
    /// variable that one is bound to.
    pub fn get_all_unified_params(&self) -> (res: Vec<(Option<ConcreteType>, Vec<usize>)>)
        requires
            self.wf(),
        ensures
            classes_view(res@) == classes(self@),
            classes_ok(self@, classes_view(res@)),
            self.classes_rooted(classes_view(res@)),
            forall|w: nat| #[trigger]
                in_classes(classes_view(res@), w) <==> participant(self@, w),
    {
        let mut routes: Vec<(Option<ConcreteType>, Vec<usize>)> = Vec::new();
        assert(classes_view(routes@) =~= classes_upto(self@, 0));
        let mut k: usize = 0;
        while k < self.bindings.len()
            invariant
                k <= self.bindings.len(),
                self.bindings.len() == self@.len(),
                classes_view(routes@) == classes_upto(self@, k as nat),
                classes_ok(self@, classes_view(routes@)),
            decreases self.bindings.len() - k,
        {
            assert(self@[k as int] == (self.bindings[k as int].0 as nat, self.bindings[k as int].1@));
            self.get_routes(&mut routes, self.bindings[k].0);
            proof {
                self.bindings[k as int].1.lemma_args();
            }
            match &self.bindings[k].1 {
                ConcreteType::Param { id, .. } => {
                    self.get_routes(&mut routes, *id);
                },
                ConcreteType::Type { .. } => {},
            }
            k += 1;
        }
        proof {
            let cs = classes_view(routes@);
            assert forall|w: nat| #[trigger] in_classes(cs, w) <==> participant(self@, w) by {
                lemma_in_classes(self@, w);
            }
            assert forall|j: int| 0 <= j < cs.len() implies lookup(
                self@,
                root(self@, (#[trigger] cs[j]).1[0]),
            ) == cs[j].0 by {
                lemma_root_ends(self@, cs[j].1[0]);
                assert(cs[j].0 == anchor(self@, cs[j].1[0]));
            }
        }
        routes
    }
}

/// In a longer list `find_class` finds what it found in a prefix.
pub proof fn lemma_find_prefix(
    s: Seq<(nat, TypeTerm)>,
    cs: Seq<(Option<TypeTerm>, Seq<nat>)>,
    r: nat,
    k: int,
)
    requires
        0 <= k <= cs.len(),
        find_class(s, cs.take(k), r) < k,
    ensures
        find_class(s, cs, r) == find_class(s, cs.take(k), r),
    decreases cs.len() - k,
{
    if k < cs.len() {
        assert(cs.take(k + 1).drop_last() =~= cs.take(k));
        lemma_find_prefix(s, cs, r, k + 1);
    } else {
        assert(cs.take(k) =~= cs);
    }
}

/// Fuel with which unification comes to an end, for a substitution that
/// binds no variable twice. `n` is above every variable in sight.
pub proof fn unify_total(s: Seq<(nat, TypeTerm)>, a: TypeTerm, b: TypeTerm, n: nat) -> (fuel: nat)
    requires
        keys_distinct(s),
        subst_below(s, n),
        below(a, n),
        below(b, n),
    ensures
        unify_fuel(s, a, b, fuel) is Some,
        keys_distinct(unify_fuel(s, a, b, fuel)->Some_0.0),
        subst_below(unify_fuel(s, a, b, fuel)->Some_0.0, n),
        extends(unify_fuel(s, a, b, fuel)->Some_0.0, s),
    decreases n - s.len(), resolved_term(s, a), 1nat, 0nat,
{
    assert(s.take(s.len() as int) =~= s);
    lemma_resolve_below(s, a, s.len(), n);
    lemma_resolve_below(s, b, s.len(), n);
    lemma_resolve_settled(s, a, s.len());
    lemma_resolve_settled(s, b, s.len());
    match (resolve(s, a), resolve(s, b)) {
        (Some(ra), Some(rb)) => {
            if ra is Constructor && rb is Constructor {
                let a1 = ra->Constructor_args;
                let b1 = rb->Constructor_args;
                if ra->Constructor_name != rb->Constructor_name {
                    0
                } else {
                    let g = unify_total_upto(s, ra, a1, b1, shorter(a1, b1), n);
                    g + 1
                }
            } else {
                let s1 = unify_fuel(s, a, b, 0)->Some_0.0;
                if s1.len() > s.len() {
                    let v = s1[s.len() as int].0;
                    let t = s1[s.len() as int].1;
                    assert(s1 == s.push((v, t)));
                    assert(lookup(s, v) is None);
                    lemma_lookup(s, v);
                    assert(s1.take(s.len() as int) =~= s);
                    assert forall|i: int, j: int| 0 <= i < j < s1.len() implies (#[trigger] s1[i]).0
                        != (#[trigger] s1[j]).0 by {
                        if j < s.len() {
                            assert(s[i].0 != s[j].0);
                        } else {
                            assert(s[i].0 != v);
                        }
                    }
                    assert forall|i: int| 0 <= i < s1.len() implies (#[trigger] s1[i]).0 < n
                        && below(s1[i].1, n) by {
                        if i < s.len() {
                            assert(s1[i] == s[i]);
                        }
                    }
                }
                0
            }
        },
        _ => 0,
    }
}

/// Fuel with which unification of the first `k` arguments of the resolved
/// type `ra` comes to an end.
pub proof fn unify_total_upto(
    s: Seq<(nat, TypeTerm)>,
    ra: TypeTerm,
    xs: Seq<TypeTerm>,
    ys: Seq<TypeTerm>,
    k: nat,
    n: nat,
) -> (fuel: nat)
    requires
        keys_distinct(s),
        subst_below(s, n),
        ra is Constructor,
        ra->Constructor_args == xs,
        settled(s, ra),
        k <= xs.len(),
        k <= ys.len(),
        forall|i: int| 0 <= i < xs.len() ==> below(#[trigger] xs[i], n),
        forall|i: int| 0 <= i < ys.len() ==> below(#[trigger] ys[i], n),
    ensures
        unify_upto(s, xs, ys, k, fuel) is Some,
        keys_distinct(unify_upto(s, xs, ys, k, fuel)->Some_0.0),
        subst_below(unify_upto(s, xs, ys, k, fuel)->Some_0.0, n),
        extends(unify_upto(s, xs, ys, k, fuel)->Some_0.0, s),
    decreases n - s.len(), ra, 0nat, k,
{
    assert(s.take(s.len() as int) =~= s);
    if k == 0 {
        0
    } else {
        let g1 = unify_total_upto(s, ra, xs, ys, (k - 1) as nat, n);
        let (sa, oka) = unify_upto(s, xs, ys, (k - 1) as nat, g1)->Some_0;
        if !oka {
            g1
        } else {
            lemma_len_bound(sa, n);
            if sa.len() == s.len() {
                assert(sa =~= s);
                assert(settled(s, xs[k - 1]));
                lemma_settled_resolve(s, xs[k - 1], s.len());
                assert(resolved_term(sa, xs[k - 1]) == ra->Constructor_args[k - 1]);
            }
            let g2 = unify_total(sa, xs[k - 1], ys[k - 1], n);
            let g = if g1 <= g2 {
                g2
            } else {
                g1
            };
            lemma_upto_mono(s, xs, ys, (k - 1) as nat, g1, g);
            lemma_unify_mono(sa, xs[k - 1], ys[k - 1], g2, g);
            let sb = unify_fuel(sa, xs[k - 1], ys[k - 1], g)->Some_0.0;
            assert(sb.take(s.len() as int) =~= sa.take(s.len() as int));
            g
        }
    }
}

/// Unification under a substitution that binds no variable twice comes to an
/// end, and what it leaves binds no variable twice.
pub proof fn lemma_unify_halts(s: Seq<(nat, TypeTerm)>, a: TypeTerm, b: TypeTerm) -> (fuel: nat)
    requires
        keys_distinct(s),
    ensures
        unify_fuel(s, a, b, fuel) is Some,
        unify_halts(s, a, b),
        keys_distinct(unify_fuel(s, a, b, fuel)->Some_0.0),
        extends(unify_fuel(s, a, b, fuel)->Some_0.0, s),
{
    let n1 = bound_of(a);
    let n2 = bound_of(b);
    let n3 = bound_of_subst(s, s.len());
    assert(s.take(s.len() as int) =~= s);
    let n = n1 + n2 + n3;
    lemma_below_mono(a, n1, n);
    lemma_below_mono(b, n2, n);
    lemma_subst_below_mono(s, n3, n);
    let fuel = unify_total(s, a, b, n);
    lemma_unify_types(s, a, b, fuel);
    fuel
}

/// Unification of two trait applications under a substitution that binds no
/// variable twice comes to an end.
pub proof fn lemma_unify_traits_halts(s: Seq<(nat, TypeTerm)>, a: TraitTerm, b: TraitTerm) -> (fuel:
    nat)
    requires
        keys_distinct(s),
    ensures
        unify_traits_fuel(s, a, b, fuel) is Some,
        unify_traits_halts(s, a, b),
        keys_distinct(unify_traits_fuel(s, a, b, fuel)->Some_0.0),
        extends(unify_traits_fuel(s, a, b, fuel)->Some_0.0, s),
{
    assert(s.take(s.len() as int) =~= s);
    if a.name != b.name {
        lemma_unify_traits(s, a, b, 0);
        0
    } else {
        let n1 = bound_of_list(a.args, a.args.len());
        let n2 = bound_of_list(b.args, b.args.len());
        let n3 = bound_of_subst(s, s.len());
        let n = n1 + n2 + n3;
        assert forall|i: int| 0 <= i < a.args.len() implies below(#[trigger] a.args[i], n) by {
            lemma_below_mono(a.args[i], n1, n);
        }
        assert forall|i: int| 0 <= i < b.args.len() implies below(#[trigger] b.args[i], n) by {
            lemma_below_mono(b.args[i], n2, n);
        }
        lemma_subst_below_mono(s, n3, n);
        let fuel = unify_list_total(s, a.args, b.args, shorter(a.args, b.args), n);
        lemma_unify_traits(s, a, b, fuel);
        fuel
    }
}

/// Fuel with which unification of the first `k` pairs of two lists comes to
/// an end.
pub proof fn unify_list_total(
    s: Seq<(nat, TypeTerm)>,
    xs: Seq<TypeTerm>,
    ys: Seq<TypeTerm>,
    k: nat,
    n: nat,
) -> (fuel: nat)
    requires
        keys_distinct(s),
        subst_below(s, n),
        k <= xs.len(),
        k <= ys.len(),
        forall|i: int| 0 <= i < xs.len() ==> below(#[trigger] xs[i], n),
        forall|i: int| 0 <= i < ys.len() ==> below(#[trigger] ys[i], n),
    ensures
        unify_upto(s, xs, ys, k, fuel) is Some,
        keys_distinct(unify_upto(s, xs, ys, k, fuel)->Some_0.0),
        subst_below(unify_upto(s, xs, ys, k, fuel)->Some_0.0, n),
        extends(unify_upto(s, xs, ys, k, fuel)->Some_0.0, s),
    decreases k,
{
    assert(s.take(s.len() as int) =~= s);
    if k == 0 {
        0
    } else {
        let g1 = unify_list_total(s, xs, ys, (k - 1) as nat, n);
        let (sa, oka) = unify_upto(s, xs, ys, (k - 1) as nat, g1)->Some_0;
        if !oka {
            g1
        } else {
            let g2 = unify_total(sa, xs[k - 1], ys[k - 1], n);
            let g = if g1 <= g2 {
                g2
            } else {
                g1
            };
            lemma_upto_mono(s, xs, ys, (k - 1) as nat, g1, g);
            lemma_unify_mono(sa, xs[k - 1], ys[k - 1], g2, g);
            let sb = unify_fuel(sa, xs[k - 1], ys[k - 1], g)->Some_0.0;
            assert(sb.take(s.len() as int) =~= sa.take(s.len() as int));
            g
        }
    }
}

} // verus!
