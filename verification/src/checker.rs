//! The checker: the declaration tables and the sweep over all pairs of impls.

use crate::env::{ConflictCheckEnv, verdict_result};
use crate::errors::{CheckError, PairError, PairErrorModel};
use crate::rules::{
    ConflictCheckResult, Table, check_pair, find_last, struct_entries, trait_entries,
};
use crate::seqs::{collect, lemma_collect_err, lemma_collect_step};
use crate::syntax::{
    Decl, DeclModel, Impl, ImplDecl, Program, Struct, StructDecl, Trait, TraitDecl, seq_view,
};
use vstd::prelude::*;

verus! {

/// Model of a checker: the declarations it holds, each kind in source order.
pub ghost struct CheckerModel {
    pub structs: Seq<StructDecl>,
    pub traits: Seq<TraitDecl>,
    pub impls: Seq<ImplDecl>,
}

/// The model after the first `k` of `decls` were added, each to the
/// declarations of its kind.
pub open spec fn declare(m: CheckerModel, decls: Seq<DeclModel>, k: nat) -> CheckerModel
    decreases k,
{
    if k == 0 {
        m
    } else {
        let p = declare(m, decls, (k - 1) as nat);
        match decls[k - 1] {
            DeclModel::Struct(s) => CheckerModel {
                structs: p.structs.push(s),
                traits: p.traits,
                impls: p.impls,
            },
            DeclModel::Trait(t) => CheckerModel {
                structs: p.structs,
                traits: p.traits.push(t),
                impls: p.impls,
            },
            DeclModel::Impl(i) => CheckerModel {
                structs: p.structs,
                traits: p.traits,
                impls: p.impls.push(i),
            },
        }
    }
}

/// The pairs `(i, j)` with `j` from `i + 1` up to `n`, in order.
pub open spec fn row(i: nat, n: nat) -> Seq<(nat, nat)> {
    Seq::new((n - 1 - i) as nat, |k: int| (i, (i + 1 + k) as nat))
}

/// The pairs `(i, j)` with `i < j < n` and `i < m`, ordered by `i`, then `j`.
pub open spec fn pairs_upto(n: nat, m: nat) -> Seq<(nat, nat)>
    decreases m,
{
    if m == 0 {
        Seq::empty()
    } else {
        pairs_upto(n, (m - 1) as nat) + row((m - 1) as nat, n)
    }
}

/// All pairs of positions `i < j` among `n` impls, in the order in which they
/// are checked and reported.
pub open spec fn all_pairs(n: nat) -> Seq<(nat, nat)> {
    pairs_upto(n, n)
}

/// The result for the pair of impls at the positions `p`: the verdict with
/// the two impls, or the error with the two positions.
pub open spec fn pair_result(t: Table, impls: Seq<ImplDecl>, p: (nat, nat)) -> Result<
    (ConflictCheckResult, ImplDecl, ImplDecl),
    PairErrorModel,
> {
    match check_pair(t, impls[p.0 as int], impls[p.1 as int]) {
        Ok(v) => Ok((v, impls[p.0 as int], impls[p.1 as int])),
        Err(e) => Err(PairErrorModel { first: p.0, second: p.1, error: e }),
    }
}

/// The results for all pairs of impls, in order.
pub open spec fn pair_results(t: Table, impls: Seq<ImplDecl>) -> Seq<
    Result<(ConflictCheckResult, ImplDecl, ImplDecl), PairErrorModel>,
> {
    Seq::new(
        all_pairs(impls.len()).len(),
        |k: int| pair_result(t, impls, all_pairs(impls.len())[k]),
    )
}

/// The outcome of a run over the declarations of `m`: a verdict for every
/// pair of impls, in order, or the first error and no verdict at all.
pub open spec fn check_all(m: CheckerModel) -> Result<
    Seq<(ConflictCheckResult, ImplDecl, ImplDecl)>,
    PairErrorModel,
> {
    collect(pair_results(Table { structs: m.structs, traits: m.traits }, m.impls))
}

/// The pairs with a first position under `m` are the front of those with a
/// first position under `m2`; the pairs of position `m` follow them.
pub proof fn lemma_pairs_prefix(n: nat, m: nat, m2: nat)
    requires
        m <= m2,
    ensures
        pairs_upto(n, m).len() <= pairs_upto(n, m2).len(),
        pairs_upto(n, m2).take(pairs_upto(n, m).len() as int) == pairs_upto(n, m),
    decreases m2 - m,
{
    if m < m2 {
        lemma_pairs_prefix(n, m, (m2 - 1) as nat);
        let a = pairs_upto(n, (m2 - 1) as nat);
        let b = pairs_upto(n, m2);
        assert(b.take(pairs_upto(n, m).len() as int) =~= a.take(pairs_upto(n, m).len() as int));
    } else {
        assert(pairs_upto(n, m).take(pairs_upto(n, m).len() as int) =~= pairs_upto(n, m));
    }
}

/// Where the pair `(i, j)` stands among all pairs.
pub proof fn lemma_pair_at(n: nat, i: nat, j: nat)
    requires
        i < j < n,
    ensures
        pairs_upto(n, i).len() + (j - i - 1) < all_pairs(n).len(),
        all_pairs(n)[pairs_upto(n, i).len() + (j - i - 1)] == (i, j),
        pairs_upto(n, i + 1).len() == pairs_upto(n, i).len() + (n - 1 - i),
        pairs_upto(n, i + 1).len() <= all_pairs(n).len(),
{
    lemma_pairs_prefix(n, i + 1, n);
    let a = pairs_upto(n, i);
    let b = pairs_upto(n, i + 1);
    let k = a.len() + (j - i - 1);
    assert(b == a + row(i, n));
    assert(b[k] == row(i, n)[j - i - 1]);
    assert(all_pairs(n).take(b.len() as int)[k] == b[k]);
}

/// The model of a list of verdicts.
pub open spec fn verdicts_view(v: Seq<(ConflictCheckResult, Impl, Impl)>) -> Seq<
    (ConflictCheckResult, ImplDecl, ImplDecl),
> {
    Seq::new(v.len(), |k: int| (v[k].0, v[k].1@, v[k].2@))
}

/// The model of the outcome of a run.
pub open spec fn run_result(r: Result<Vec<(ConflictCheckResult, Impl, Impl)>, PairError>) -> Result<
    Seq<(ConflictCheckResult, ImplDecl, ImplDecl)>,
    PairErrorModel,
> {
    match r {
        Ok(v) => Ok(verdicts_view(v@)),
        Err(e) => Err(e@),
    }
}

/// The declarations of a program, by kind. Of two structs or two traits with
/// one name the later is the one that lookups find; impls are all kept.
pub struct Checker {
    pub structs: Vec<Struct>,
    pub traits: Vec<Trait>,
    pub impls: Vec<Impl>,
}

impl View for Checker {
    type V = CheckerModel;

    open spec fn view(&self) -> CheckerModel {
        CheckerModel {
            structs: seq_view(self.structs@),
            traits: seq_view(self.traits@),
            impls: seq_view(self.impls@),
        }
    }
}

impl Checker {
    /// The declared structs and traits.
    pub open spec fn table(&self) -> Table {
        Table { structs: self@.structs, traits: self@.traits }
    }

    /// A checker without declarations.
    pub fn new() -> (res: Checker)
        ensures
            res@.structs == Seq::<StructDecl>::empty(),
            res@.traits == Seq::<TraitDecl>::empty(),
            res@.impls == Seq::<ImplDecl>::empty(),
    {
        let res = Checker { structs: Vec::new(), traits: Vec::new(), impls: Vec::new() };
        assert(res@.structs =~= Seq::<StructDecl>::empty());
        assert(res@.traits =~= Seq::<TraitDecl>::empty());
        assert(res@.impls =~= Seq::<ImplDecl>::empty());
        res
    }

    /// Adds the declarations of a program, in order. It never fails.
    pub fn insert(&mut self, p: Program) -> (res: Result<(), CheckError>)
        ensures
            res is Ok,
            final(self)@ == declare(old(self)@, p@, p@.len()),
    {
        let mut k: usize = 0;
        while k < p.0.len()
            invariant
                k <= p.0.len(),
                self@ == declare(old(self)@, p@, k as nat),
            decreases p.0.len() - k,
        {
            let ghost before = self@;
            assert(p@[k as int] == p.0[k as int]@);
            match &p.0[k] {
                Decl::Struct(s) => {
                    self.structs.push(s.clone());
                    assert(self@.structs =~= before.structs.push(s@));
                },
                Decl::Trait(t) => {
                    self.traits.push(t.clone());
                    assert(self@.traits =~= before.traits.push(t@));
                },
                Decl::Impl(i) => {
                    self.impls.push(i.clone());
                    assert(self@.impls =~= before.impls.push(i@));
                },
            }
            k += 1;
        }
        Ok(())
    }

    /// The declaration of the struct named `name`: the last one of that name.
    pub fn find_struct(&self, name: &String) -> (res: Option<&Struct>)
        ensures
            match res {
                Some(st) => find_last(struct_entries(self.table().structs), name@) == Some(
                    st@.arity(),
                ),
                None => find_last(struct_entries(self.table().structs), name@) is None,
            },
    {
        let ghost es = struct_entries(self.table().structs);
        let mut i: usize = self.structs.len();
        assert(es.take(i as int) =~= es);
        while i > 0
            invariant
                i <= self.structs.len(),
                es == struct_entries(self.table().structs),
                find_last(es, name@) == find_last(es.take(i as int), name@),
            decreases i,
        {
            i -= 1;
            proof {
                let p = es.take(i + 1);
                assert(p.drop_last() =~= es.take(i as int));
                assert(p.last() == es[i as int]);
                assert(es[i as int] == (self.structs[i as int]@.name, self.structs[i as int]@.arity()));
            }
            if self.structs[i].name == *name {
                return Some(&self.structs[i]);
            }
        }
        None
    }

    /// The declaration of the trait named `name`: the last one of that name.
    pub fn find_trait(&self, name: &String) -> (res: Option<&Trait>)
        ensures
            match res {
                Some(tr) => find_last(trait_entries(self.table().traits), name@) == Some(tr@),
                None => find_last(trait_entries(self.table().traits), name@) is None,
            },
    {
        let ghost es = trait_entries(self.table().traits);
        let mut i: usize = self.traits.len();
        assert(es.take(i as int) =~= es);
        while i > 0
            invariant
                i <= self.traits.len(),
                es == trait_entries(self.table().traits),
                find_last(es, name@) == find_last(es.take(i as int), name@),
            decreases i,
        {
            i -= 1;
            proof {
                let p = es.take(i + 1);
                assert(p.drop_last() =~= es.take(i as int));
                assert(p.last() == es[i as int]);
                assert(es[i as int] == (self.traits[i as int]@.name, self.traits[i as int]@));
            }
            if self.traits[i].name == *name {
                return Some(&self.traits[i]);
            }
        }
        None
    }

    /// The verdict for two impls against the tables of this checker.
    pub fn check_impls(&self, i1: &Impl, i2: &Impl) -> (res: Result<
        ConflictCheckResult,
        CheckError,
    >)
        ensures
            verdict_result(res) == check_pair(self.table(), i1@, i2@),
    {
        ConflictCheckEnv::check_impls(self, i1, i2)
    }

    /// Adds the declarations of `p`, then checks every pair of impls that the
    /// checker holds, in declaration order: `(i, j)` with `i < j`, by `i`, then
    /// by `j`. Returns the verdict of each pair with a copy of the two impls.
    /// The first pair whose elaboration or closure fails ends the run with its
    /// error; no verdict is returned then.
    pub fn check(&mut self, p: Program) -> (res: Result<
        Vec<(ConflictCheckResult, Impl, Impl)>,
        PairError,
    >)
        ensures
            final(self)@ == declare(old(self)@, p@, p@.len()),
            run_result(res) == check_all(final(self)@),
    {
        let _ = self.insert(p);
        let n = self.impls.len();
        let ghost t = self.table();
        let ghost impls = self@.impls;
        let ghost rs = pair_results(t, impls);
        let ghost all = all_pairs(n as nat);
        let mut res: Vec<(ConflictCheckResult, Impl, Impl)> = Vec::new();
        let ghost mut done: nat = 0;
        let mut i: usize = 0;
        proof {
            assert(verdicts_view(res@) =~= Seq::empty());
            assert(rs.take(0) =~= Seq::empty());
        }
        while i < n
            invariant
                i <= n,
                n == self.impls.len(),
                self@ == declare(old(self)@, p@, p@.len()),
                t == self.table(),
                impls == self@.impls,
                rs == pair_results(t, impls),
                all == all_pairs(n as nat),
                rs.len() == all.len(),
                i < n ==> done == pairs_upto(n as nat, i as nat).len(),
                i == n ==> done == all.len(),
                done <= rs.len(),
                collect(rs.take(done as int)) == Ok::<
                    Seq<(ConflictCheckResult, ImplDecl, ImplDecl)>,
                    PairErrorModel,
                >(verdicts_view(res@)),
            decreases n - i,
        {
            let mut j: usize = i + 1;
            proof {
                if i + 1 < n {
                    lemma_pair_at(n as nat, i as nat, (i + 1) as nat);
                } else {
                    lemma_pairs_prefix(n as nat, i as nat, n as nat);
                    assert(row(i as nat, n as nat) =~= Seq::empty());
                    assert(pairs_upto(n as nat, (i + 1) as nat) =~= pairs_upto(
                        n as nat,
                        i as nat,
                    ));
                }
            }
            while j < n
                invariant
                    i < j <= n,
                    n == self.impls.len(),
                    self@ == declare(old(self)@, p@, p@.len()),
                    t == self.table(),
                    impls == self@.impls,
                    rs == pair_results(t, impls),
                    all == all_pairs(n as nat),
                    rs.len() == all.len(),
                    done == pairs_upto(n as nat, i as nat).len() + (j - i - 1),
                    done <= rs.len(),
                    collect(rs.take(done as int)) == Ok::<
                        Seq<(ConflictCheckResult, ImplDecl, ImplDecl)>,
                        PairErrorModel,
                    >(verdicts_view(res@)),
                decreases n - j,
            {
                let ghost before = verdicts_view(res@);
                proof {
                    lemma_pair_at(n as nat, i as nat, j as nat);
                    lemma_collect_step(rs, done as int);
                    assert(rs[done as int] == pair_result(t, impls, (i as nat, j as nat)));
                    assert(impls[i as int] == self.impls[i as int]@);
                    assert(impls[j as int] == self.impls[j as int]@);
                }
                let i1 = self.impls[i].clone();
                let i2 = self.impls[j].clone();
                match self.check_impls(&i1, &i2) {
                    Ok(v) => {
                        res.push((v, i1, i2));
                        proof {
                            assert(verdicts_view(res@) =~= before.push((v, i1@, i2@)));
                            done = done + 1;
                        }
                    },
                    Err(e) => {
                        proof {
                            lemma_collect_err(rs, (done + 1) as int);
                        }
                        return Err(PairError { first: i, second: j, error: e });
                    },
                }
                j += 1;
            }
            proof {
                if i + 1 < n {
                    lemma_pair_at(n as nat, i as nat, (i + 1) as nat);
                }
            }
            i += 1;
        }
        proof {
            if n == 0 {
                assert(all =~= Seq::empty());
            }
            assert(rs.take(rs.len() as int) =~= rs);
        }
        Ok(res)
    }
}

} // verus!
