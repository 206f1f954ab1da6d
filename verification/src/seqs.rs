//! Sequences used as ordered sets, and sequences of results.

use vstd::prelude::*;

verus! {

/// `s` with `x` appended unless `s` already holds it.
pub open spec fn insert_new<T>(s: Seq<T>, x: T) -> Seq<T> {
    if s.contains(x) {
        s
    } else {
        s.push(x)
    }
}

/// `s` followed by the elements of `t` that are new, each once, in the order
/// of their first occurrence in `t`.
pub open spec fn merge<T>(s: Seq<T>, t: Seq<T>) -> Seq<T>
    decreases t.len(),
{
    if t.len() == 0 {
        s
    } else {
        insert_new(merge(s, t.drop_last()), t.last())
    }
}

/// `insert_new` adds exactly `x` to the elements and keeps them distinct.
pub proof fn lemma_insert_new<T>(s: Seq<T>, x: T)
    ensures
        insert_new(s, x).to_set() == s.to_set().insert(x),
        s.no_duplicates() ==> insert_new(s, x).no_duplicates(),
        forall|y: T| insert_new(s, x).contains(y) <==> (s.contains(y) || y == x),
        s.len() <= insert_new(s, x).len(),
        insert_new(s, x).take(s.len() as int) == s,
{
    let r = insert_new(s, x);
    assert forall|y: T| r.contains(y) <==> (s.contains(y) || y == x) by {
        if s.contains(x) {
        } else {
            if r.contains(y) {
                let i = choose|i: int| 0 <= i < r.len() && r[i] == y;
                if i < s.len() {
                    assert(s[i] == y);
                }
            }
            if s.contains(y) {
                let i = choose|i: int| 0 <= i < s.len() && s[i] == y;
                assert(r[i] == y);
            }
            assert(r[s.len() as int] == x);
        }
    }
    assert(r.to_set() =~= s.to_set().insert(x));
    assert(r.take(s.len() as int) =~= s);
}

/// `merge` is the union of the elements; it keeps `s` in front and adds
/// nothing twice.
pub proof fn lemma_merge<T>(s: Seq<T>, t: Seq<T>)
    ensures
        merge(s, t).to_set() == s.to_set().union(t.to_set()),
        forall|y: T| merge(s, t).contains(y) <==> (s.contains(y) || t.contains(y)),
        s.no_duplicates() ==> merge(s, t).no_duplicates(),
        s.len() <= merge(s, t).len(),
        merge(s, t).take(s.len() as int) == s,
    decreases t.len(),
{
    if t.len() == 0 {
        assert(s.to_set().union(t.to_set()) =~= s.to_set());
        assert(s.take(s.len() as int) =~= s);
    } else {
        let p = t.drop_last();
        let m = merge(s, p);
        lemma_merge(s, p);
        lemma_insert_new(m, t.last());
        let r = merge(s, t);
        assert forall|y: T| r.contains(y) <==> (s.contains(y) || t.contains(y)) by {
            if t.contains(y) {
                let i = choose|i: int| 0 <= i < t.len() && t[i] == y;
                if i < p.len() {
                    assert(p[i] == y);
                }
            }
            if p.contains(y) {
                let i = choose|i: int| 0 <= i < p.len() && p[i] == y;
                assert(t[i] == y);
            }
            assert(t[t.len() - 1] == t.last());
        }
        assert(r.to_set() =~= s.to_set().union(t.to_set()));
        assert(r.take(s.len() as int) =~= m.take(s.len() as int)) by {
            assert(r.take(m.len() as int) == m);
        }
    }
}

/// Every element is present.
pub open spec fn all_some<T>(s: Seq<Option<T>>) -> bool {
    forall|i: int| 0 <= i < s.len() ==> (#[trigger] s[i]) is Some
}

/// The values of a sequence of present elements.
pub open spec fn values<T>(s: Seq<Option<T>>) -> Seq<T> {
    Seq::new(s.len(), |i: int| s[i]->Some_0)
}

/// The values of a sequence of results, or its first error.
pub open spec fn collect<T, E>(rs: Seq<Result<T, E>>) -> Result<Seq<T>, E>
    decreases rs.len(),
{
    if rs.len() == 0 {
        Ok(Seq::empty())
    } else {
        match collect(rs.drop_last()) {
            Err(e) => Err(e),
            Ok(v) => match rs.last() {
                Ok(x) => Ok(v.push(x)),
                Err(e) => Err(e),
            },
        }
    }
}

/// `collect` succeeds exactly when every element does, and then holds the
/// values in order; else it holds the error of the first element that fails.
pub proof fn lemma_collect<T, E>(rs: Seq<Result<T, E>>)
    ensures
        collect(rs) is Ok <==> (forall|i: int| 0 <= i < rs.len() ==> rs[i] is Ok),
        collect(rs) matches Ok(v) ==> v.len() == rs.len() && (forall|i: int|
            0 <= i < rs.len() ==> rs[i] == Ok::<T, E>(v[i])),
        collect(rs) matches Err(e) ==> exists|i: int|
            0 <= i < rs.len() && rs[i] == Err::<T, E>(e) && (forall|j: int|
                0 <= j < i ==> rs[j] is Ok),
    decreases rs.len(),
{
    if rs.len() > 0 {
        let p = rs.drop_last();
        lemma_collect(p);
        match collect(p) {
            Err(e) => {
                let i = choose|i: int|
                    0 <= i < p.len() && p[i] == Err::<T, E>(e) && (forall|j: int|
                        0 <= j < i ==> p[j] is Ok);
                assert(rs[i] == Err::<T, E>(e));
                assert forall|j: int| 0 <= j < i implies rs[j] is Ok by {
                    assert(p[j] is Ok);
                }
            },
            Ok(v) => {
                assert forall|j: int| 0 <= j < p.len() implies rs[j] is Ok by {
                    assert(p[j] is Ok);
                }
                match rs.last() {
                    Ok(x) => {
                        assert forall|i: int| 0 <= i < rs.len() implies rs[i] == Ok::<T, E>(
                            v.push(x)[i],
                        ) by {
                            if i < p.len() {
                                assert(p[i] == rs[i]);
                            }
                        }
                    },
                    Err(e) => {
                        assert(rs[rs.len() - 1] == Err::<T, E>(e));
                    },
                }
            },
        }
    }
}

/// One more step of `collect`: the first `i + 1` results from the first `i`.
pub proof fn lemma_collect_step<T, E>(rs: Seq<Result<T, E>>, i: int)
    requires
        0 <= i < rs.len(),
    ensures
        collect(rs.take(i + 1)) == match collect(rs.take(i)) {
            Err(e) => Err::<Seq<T>, E>(e),
            Ok(v) => match rs[i] {
                Ok(x) => Ok(v.push(x)),
                Err(e) => Err(e),
            },
        },
{
    assert(rs.take(i + 1).drop_last() =~= rs.take(i));
}

/// Once a prefix fails, the whole sequence fails with the same error.
pub proof fn lemma_collect_err<T, E>(rs: Seq<Result<T, E>>, i: int)
    requires
        0 <= i <= rs.len(),
        collect(rs.take(i)) is Err,
    ensures
        collect(rs) == collect(rs.take(i)),
    decreases rs.len() - i,
{
    if i < rs.len() {
        lemma_collect_step(rs, i);
        lemma_collect_err(rs, i + 1);
    } else {
        assert(rs.take(i) =~= rs);
    }
}

} // verus!
