//! The environment of one pairwise check: elaboration of impls, supertrait
//! closure, and the decision for a pair.

use crate::checker::Checker;
use crate::closure::lemma_closure_enough;
use crate::concrete::{
    BoundTerm, ConcreteBound, ConcreteTrait, ConcreteType, TraitTerm, TypeTerm, contains_trait,
    insert_trait, merge_traits,
};
use crate::errors::CheckError;
use crate::rules::{
    ConflictCheckResult, ErrorModel, ImplTerm, Table, bound_verdict, check_pair, classes_verdict,
    closure, closure_all, closure_fuel, elaborate_bound, elaborate_each, elaborate_impl,
    elaborate_params, elaborate_trait, elaborate_traits, elaborate_type, find_last, instantiate_arg,
    instantiate_trait, joined_bound, lemma_closure_err, lemma_joined_none, lemma_params_err,
    lemma_params_len, lemma_verdict_sticky, obligations, param_args, supertraits_of,
};
use crate::seqs::{
    collect, lemma_collect_err, lemma_collect_step, lemma_insert_new, lemma_merge, merge,
};
use crate::syntax::{Bound, Impl, TExp, seq_view};
use crate::unifier::{UnificationResult, Unifier, classes_view, ids_view};
use vstd::prelude::*;

verus! {

/// An elaborated impl: its trait and its target.
#[derive(Debug)]
pub struct ConcreteImpl {
    pub trait_exp: ConcreteTrait,
    pub impl_for: ConcreteType,
}

/// The model of a scope of parameters.
pub open spec fn env_view(env: Seq<(String, usize)>) -> Seq<(Seq<char>, nat)> {
    Seq::new(env.len(), |i: int| (env[i].0@, env[i].1 as nat))
}

/// The model of a list of named types.
pub open spec fn args_view(env: Seq<(String, ConcreteType)>) -> Seq<(Seq<char>, TypeTerm)> {
    Seq::new(env.len(), |i: int| (env[i].0@, env[i].1@))
}

/// The model of an optional bound.
pub open spec fn option_bound_view(b: Option<ConcreteBound>) -> Option<BoundTerm> {
    match b {
        Some(b) => Some(b@),
        None => None,
    }
}

/// The model of a list of optional bounds.
pub open spec fn bounds_view(v: Seq<Option<ConcreteBound>>) -> Seq<Option<BoundTerm>> {
    Seq::new(v.len(), |i: int| option_bound_view(v[i]))
}

/// The model of the result of elaborating a type.
pub open spec fn type_result(r: Result<ConcreteType, CheckError>) -> Result<TypeTerm, ErrorModel> {
    match r {
        Ok(t) => Ok(t@),
        Err(e) => Err(e@),
    }
}

/// The model of the result of elaborating a list of types.
pub open spec fn types_result(r: Result<Vec<ConcreteType>, CheckError>) -> Result<
    Seq<TypeTerm>,
    ErrorModel,
> {
    match r {
        Ok(v) => Ok(seq_view(v@)),
        Err(e) => Err(e@),
    }
}

/// The model of the result of elaborating a trait application.
pub open spec fn trait_result(r: Result<ConcreteTrait, CheckError>) -> Result<
    TraitTerm,
    ErrorModel,
> {
    match r {
        Ok(t) => Ok(t@),
        Err(e) => Err(e@),
    }
}

/// The model of the result of elaborating a list of trait applications.
pub open spec fn traits_result(r: Result<Vec<ConcreteTrait>, CheckError>) -> Result<
    Seq<TraitTerm>,
    ErrorModel,
> {
    match r {
        Ok(v) => Ok(seq_view(v@)),
        Err(e) => Err(e@),
    }
}

/// The model of the result of elaborating a bound.
pub open spec fn bound_result(r: Result<ConcreteBound, CheckError>) -> Result<
    BoundTerm,
    ErrorModel,
> {
    match r {
        Ok(b) => Ok(b@),
        Err(e) => Err(e@),
    }
}

/// The model of a verdict or an error.
pub open spec fn verdict_result(r: Result<ConflictCheckResult, CheckError>) -> Result<
    ConflictCheckResult,
    ErrorModel,
> {
    match r {
        Ok(v) => Ok(v),
        Err(e) => Err(e@),
    }
}

/// The model of a closure that was computed: the set of its elements.
pub open spec fn set_result(r: Result<Vec<ConcreteTrait>, CheckError>) -> Result<
    Set<TraitTerm>,
    ErrorModel,
> {
    match r {
        Ok(v) => Ok(seq_view(v@).to_set()),
        Err(e) => Err(e@),
    }
}

/// The variable of the parameter named `name`: that of the last one of that
/// name in scope.
pub fn find_param(env: &Vec<(String, usize)>, name: &String) -> (res: Option<usize>)
    ensures
        match res {
            Some(id) => find_last(env_view(env@), name@) == Some(id as nat),
            None => find_last(env_view(env@), name@) is None,
        },
{
    let ghost es = env_view(env@);
    let mut i: usize = env.len();
    assert(es.take(i as int) =~= es);
    while i > 0
        invariant
            i <= env.len(),
            es == env_view(env@),
            find_last(es, name@) == find_last(es.take(i as int), name@),
        decreases i,
    {
        i -= 1;
        proof {
            let p = es.take(i + 1);
            assert(p.drop_last() =~= es.take(i as int));
            assert(p.last() == es[i as int]);
        }
        if env[i].0 == *name {
            return Some(env[i].1);
        }
    }
    None
}

/// The type named `name`: the last one of that name in the list.
pub fn find_arg<'b>(env: &'b Vec<(String, ConcreteType)>, name: &String) -> (res: Option<
    &'b ConcreteType,
>)
    ensures
        match res {
            Some(t) => find_last(args_view(env@), name@) == Some(t@),
            None => find_last(args_view(env@), name@) is None,
        },
{
    let ghost es = args_view(env@);
    let mut i: usize = env.len();
    assert(es.take(i as int) =~= es);
    while i > 0
        invariant
            i <= env.len(),
            es == args_view(env@),
            find_last(es, name@) == find_last(es.take(i as int), name@),
        decreases i,
    {
        i -= 1;
        proof {
            let p = es.take(i + 1);
            assert(p.drop_last() =~= es.take(i as int));
            assert(p.last() == es[i as int]);
        }
        if env[i].0 == *name {
            return Some(&env[i].1);
        }
    }
    None
}

/// The state of one pairwise check: the declaration tables, and the bound of
/// every variable handed out so far, by variable.
pub struct ConflictCheckEnv<'a> {
    pub checker: &'a Checker,
    pub params: Vec<Option<ConcreteBound>>,
}

impl<'a> ConflictCheckEnv<'a> {
    /// The declared structs and traits.
    pub open spec fn table(&self) -> Table {
        self.checker.table()
    }

    /// The bound of each variable handed out so far.
    pub open spec fn bounds(&self) -> Seq<Option<BoundTerm>> {
        bounds_view(self.params@)
    }

    /// An environment over the tables of `checker`, with no variable yet.
    pub fn new(checker: &'a Checker) -> (res: ConflictCheckEnv<'a>)
        ensures
            res.checker == checker,
            res.bounds() == Seq::<Option<BoundTerm>>::empty(),
    {
        let res = ConflictCheckEnv { checker, params: Vec::new() };
        assert(res.bounds() =~= Seq::<Option<BoundTerm>>::empty());
        res
    }

    /// Elaborates a type expression. A name in scope is the variable of that
    /// parameter; any other name must be a declared struct, applied to as many
    /// arguments as it declares.
    pub fn texp_to_concrete_type(&self, env: &Vec<(String, usize)>, te: &TExp) -> (res: Result<
        ConcreteType,
        CheckError,
    >)
        ensures
            type_result(res) == elaborate_type(self.table(), env_view(env@), te@),
        decreases te,
    {
        proof {
            te.lemma_args();
        }
        match find_param(env, &te.name) {
            Some(id) => {
                let res = ConcreteType::Param { id, name: te.name.clone() };
                proof {
                    res.lemma_args();
                }
                Ok(res)
            },
            None => match self.checker.find_struct(&te.name) {
                None => Err(CheckError::UndefinedSymbol { name: te.name.clone() }),
                Some(st) => {
                    let arity = st.arity();
                    if arity != te.params.len() {
                        Err(
                            CheckError::Arity {
                                name: te.name.clone(),
                                expected: arity,
                                found: te.params.len(),
                            },
                        )
                    } else {
                        match self.texps_to_concrete_types(env, &te.params) {
                            Ok(params) => {
                                let res = ConcreteType::Type { name: te.name.clone(), params };
                                proof {
                                    res.lemma_args();
                                }
                                Ok(res)
                            },
                            Err(e) => Err(e),
                        }
                    }
                },
            },
        }
    }

    /// Elaborates each type expression of a list, in order, up to the first
    /// that fails.
    pub fn texps_to_concrete_types(&self, env: &Vec<(String, usize)>, tes: &Vec<TExp>) -> (res:
        Result<Vec<ConcreteType>, CheckError>)
        ensures
            types_result(res) == collect(
                elaborate_each(self.table(), env_view(env@), seq_view(tes@)),
            ),
        decreases tes,
    {
        let ghost rs = elaborate_each(self.table(), env_view(env@), seq_view(tes@));
        let mut out: Vec<ConcreteType> = Vec::new();
        let mut i: usize = 0;
        assert(seq_view(out@) =~= Seq::<TypeTerm>::empty());
        assert(rs.take(0) =~= Seq::<Result<TypeTerm, ErrorModel>>::empty());
        while i < tes.len()
            invariant
                i <= tes.len(),
                rs == elaborate_each(self.table(), env_view(env@), seq_view(tes@)),
                rs.len() == tes.len(),
                collect(rs.take(i as int)) == Ok::<Seq<TypeTerm>, ErrorModel>(seq_view(out@)),
            decreases tes.len() - i,
        {
            let ghost before = seq_view(out@);
            proof {
                lemma_collect_step(rs, i as int);
                assert(seq_view(tes@)[i as int] == tes[i as int]@);
                assert(rs[i as int] == elaborate_type(
                    self.table(),
                    env_view(env@),
                    tes[i as int]@,
                ));
            }
            match self.texp_to_concrete_type(env, &tes[i]) {
                Ok(t) => {
                    out.push(t);
                    assert(seq_view(out@) =~= before.push(t@));
                },
                Err(e) => {
                    proof {
                        lemma_collect_err(rs, i + 1);
                    }
                    return Err(e);
                },
            }
            i += 1;
        }
        assert(rs.take(tes.len() as int) =~= rs);
        Ok(out)
    }

    /// Elaborates a trait expression: its arguments are elaborated; its name
    /// is taken as it is.
    pub fn texp_to_concrete_trait(&self, env: &Vec<(String, usize)>, te: &TExp) -> (res: Result<
        ConcreteTrait,
        CheckError,
    >)
        ensures
            trait_result(res) == elaborate_trait(self.table(), env_view(env@), te@),
    {
        proof {
            te.lemma_args();
        }
        match self.texps_to_concrete_types(env, &te.params) {
            Ok(params) => Ok(ConcreteTrait { name: te.name.clone(), params }),
            Err(e) => Err(e),
        }
    }

    /// Elaborates a list of trait expressions as a set: each result is kept
    /// once, in the order of its first occurrence.
    pub fn texps_to_concrete_traits(&self, env: &Vec<(String, usize)>, tes: &Vec<TExp>) -> (res:
        Result<Vec<ConcreteTrait>, CheckError>)
        ensures
            traits_result(res) == elaborate_traits(self.table(), env_view(env@), seq_view(tes@)),
    {
        let ghost ts = seq_view(tes@);
        let ghost rs = Seq::new(
            ts.len(),
            |i: int| elaborate_trait(self.table(), env_view(env@), ts[i]),
        );
        let ghost mut all: Seq<TraitTerm> = Seq::empty();
        let mut out: Vec<ConcreteTrait> = Vec::new();
        let mut i: usize = 0;
        assert(seq_view(out@) =~= Seq::<TraitTerm>::empty());
        assert(rs.take(0) =~= Seq::<Result<TraitTerm, ErrorModel>>::empty());
        while i < tes.len()
            invariant
                i <= tes.len(),
                ts == seq_view(tes@),
                rs == Seq::new(
                    ts.len(),
                    |i: int| elaborate_trait(self.table(), env_view(env@), ts[i]),
                ),
                collect(rs.take(i as int)) == Ok::<Seq<TraitTerm>, ErrorModel>(all),
                seq_view(out@) == merge(Seq::empty(), all),
            decreases tes.len() - i,
        {
            proof {
                lemma_collect_step(rs, i as int);
                assert(ts[i as int] == tes[i as int]@);
            }
            match self.texp_to_concrete_trait(env, &tes[i]) {
                Ok(t) => {
                    insert_trait(&mut out, t);
                    proof {
                        assert(all.push(t@).drop_last() =~= all);
                        all = all.push(t@);
                    }
                },
                Err(e) => {
                    proof {
                        lemma_collect_err(rs, i + 1);
                    }
                    return Err(e);
                },
            }
            i += 1;
        }
        assert(rs.take(tes.len() as int) =~= rs);
        Ok(out)
    }

    /// Elaborates a bound: the positive part, then the negative part.
    pub fn bound_to_concrete_bound(&self, env: &Vec<(String, usize)>, b: &Bound) -> (res: Result<
        ConcreteBound,
        CheckError,
    >)
        ensures
            bound_result(res) == elaborate_bound(self.table(), env_view(env@), b@),
    {
        match self.texps_to_concrete_traits(env, &b.pos) {
            Err(e) => Err(e),
            Ok(pos) => match self.texps_to_concrete_traits(env, &b.neg) {
                Err(e) => Err(e),
                Ok(neg) => Ok(ConcreteBound { pos, neg }),
            },
        }
    }

    /// Elaborates an impl. Each parameter gets the next free variable, in
    /// declaration order; its bound is elaborated in the scope of the
    /// parameters before it. Then the trait and the target are elaborated in
    /// the scope of all parameters. On an error no variable is handed out.
    pub fn get_concrete_impl(&mut self, im: &Impl) -> (res: Result<ConcreteImpl, CheckError>)
        ensures
            final(self).checker == old(self).checker,
            match res {
                Ok(c) => elaborate_impl(old(self).table(), im@, old(self).bounds().len())
                    matches Ok(it) && it.trait_term == c.trait_exp@ && it.target == c.impl_for@
                    && final(self).bounds() == old(self).bounds() + it.bounds,
                Err(e) => elaborate_impl(old(self).table(), im@, old(self).bounds().len())
                    == Err::<ImplTerm, ErrorModel>(e@) && final(self).bounds() == old(
                    self,
                ).bounds(),
            },
    {
        let base = self.params.len();
        let ghost t = self.table();
        let ghost b0 = self.bounds();
        let ghost ps = seq_view(im.params@);
        let ghost mut acc: Seq<Option<BoundTerm>> = Seq::empty();
        let mut env: Vec<(String, usize)> = Vec::new();
        let mut k: usize = 0;
        proof {
            assert(env_view(env@) =~= Seq::<(Seq<char>, nat)>::empty());
            assert(b0 + acc =~= b0);
        }
        while k < im.params.len()
            invariant
                k <= im.params.len(),
                self.checker == old(self).checker,
                t == self.table(),
                b0 == old(self).bounds(),
                b0.len() == base,
                ps == seq_view(im.params@),
                self.params.len() == base + k,
                elaborate_params(t, ps, base as nat, k as nat) == Ok::<
                    (Seq<(Seq<char>, nat)>, Seq<Option<BoundTerm>>),
                    ErrorModel,
                >((env_view(env@), acc)),
                self.bounds() == b0 + acc,
            decreases im.params.len() - k,
        {
            let p = &im.params[k];
            let param_id = self.params.len();
            let ghost env0 = env_view(env@);
            let ghost bs0 = self.bounds();
            proof {
                assert(ps[k as int] == p@);
            }
            match &p.bound {
                Some(bound) => {
                    match self.bound_to_concrete_bound(&env, bound) {
                        Ok(b) => {
                            self.params.push(Some(b));
                            proof {
                                acc = acc.push(Some(b@));
                                assert(self.bounds() =~= bs0.push(Some(b@)));
                            }
                        },
                        Err(e) => {
                            let ghost pre = self.bounds();
                            self.params.truncate(base);
                            proof {
                                assert forall|i: int| 0 <= i < base implies self.bounds()[i]
                                    == b0[i] by {
                                    assert(self.bounds()[i] == pre[i]);
                                }
                                lemma_params_err(
                                    t,
                                    ps,
                                    base as nat,
                                    (k + 1) as nat,
                                    im.params.len() as nat,
                                );
                                assert(self.bounds() =~= b0);
                            }
                            return Err(e);
                        },
                    }
                },
                None => {
                    self.params.push(None);
                    proof {
                        acc = acc.push(None);
                        assert(self.bounds() =~= bs0.push(None));
                    }
                },
            }
            env.push((p.name.clone(), param_id));
            proof {
                assert(env_view(env@) =~= env0.push((p@.name, (base + k) as nat)));
                assert(self.bounds() =~= b0 + acc);
            }
            k += 1;
        }
        let trait_exp = match self.texp_to_concrete_trait(&env, &im.trait_exp) {
            Ok(tr) => tr,
            Err(e) => {
                let ghost pre = self.bounds();
                self.params.truncate(base);
                proof {
                    assert forall|i: int| 0 <= i < base implies self.bounds()[i] == b0[i] by {
                        assert(self.bounds()[i] == pre[i]);
                    }
                    assert(self.bounds() =~= b0);
                }
                return Err(e);
            },
        };
        let impl_for = match self.texp_to_concrete_type(&env, &im.impl_for) {
            Ok(ty) => ty,
            Err(e) => {
                let ghost pre = self.bounds();
                self.params.truncate(base);
                proof {
                    assert forall|i: int| 0 <= i < base implies self.bounds()[i] == b0[i] by {
                        assert(self.bounds()[i] == pre[i]);
                    }
                    assert(self.bounds() =~= b0);
                }
                return Err(e);
            },
        };
        Ok(ConcreteImpl { trait_exp, impl_for })
    }

    /// One entry of a supertrait bound with the parameters of the trait
    /// replaced: an argument that names a parameter becomes the type bound to
    /// it; any other argument is elaborated in the empty scope.
    pub fn instantiate(&self, env: &Vec<(String, ConcreteType)>, te: &TExp) -> (res: Result<
        ConcreteTrait,
        CheckError,
    >)
        ensures
            trait_result(res) == instantiate_trait(self.table(), args_view(env@), te@),
    {
        let ghost args = te@.args;
        let ghost rs = Seq::new(
            args.len(),
            |j: int| instantiate_arg(self.table(), args_view(env@), args[j]),
        );
        let scope: Vec<(String, usize)> = Vec::new();
        let mut out: Vec<ConcreteType> = Vec::new();
        let mut j: usize = 0;
        proof {
            te.lemma_args();
            assert(env_view(scope@) =~= Seq::<(Seq<char>, nat)>::empty());
            assert(seq_view(out@) =~= Seq::<TypeTerm>::empty());
            assert(rs.take(0) =~= Seq::<Result<TypeTerm, ErrorModel>>::empty());
        }
        while j < te.params.len()
            invariant
                j <= te.params.len(),
                args == te@.args,
                args == seq_view(te.params@),
                env_view(scope@) == Seq::<(Seq<char>, nat)>::empty(),
                rs == Seq::new(
                    args.len(),
                    |j: int| instantiate_arg(self.table(), args_view(env@), args[j]),
                ),
                collect(rs.take(j as int)) == Ok::<Seq<TypeTerm>, ErrorModel>(seq_view(out@)),
            decreases te.params.len() - j,
        {
            let ghost before = seq_view(out@);
            let p = &te.params[j];
            proof {
                lemma_collect_step(rs, j as int);
                assert(args[j as int] == p@);
                p.lemma_args();
            }
            let ty = match find_arg(env, &p.name) {
                Some(ct) => ct.clone(),
                None => match self.texp_to_concrete_type(&scope, p) {
                    Ok(ty) => ty,
                    Err(e) => {
                        proof {
                            lemma_collect_err(rs, j + 1);
                        }
                        return Err(e);
                    },
                },
            };
            out.push(ty);
            assert(seq_view(out@) =~= before.push(ty@));
            j += 1;
        }
        assert(rs.take(te.params.len() as int) =~= rs);
        Ok(ConcreteTrait { name: te.name.clone(), params: out })
    }

    /// The direct supertraits of a trait application: the positive entries of
    /// the supertrait bound that the trait declares, with its parameters
    /// replaced by the arguments of the application. The trait must be
    /// declared.
    pub fn sup(&self, ct: &ConcreteTrait) -> (res: Result<Vec<ConcreteTrait>, CheckError>)
        ensures
            traits_result(res) == supertraits_of(self.table(), ct@),
    {
        let tr = match self.checker.find_trait(&ct.name) {
            Some(tr) => tr,
            None => {
                return Err(CheckError::UndeclaredTrait { name: ct.name.clone() });
            },
        };
        let n = if tr.params.len() <= ct.params.len() {
            tr.params.len()
        } else {
            ct.params.len()
        };
        let mut env: Vec<(String, ConcreteType)> = Vec::new();
        let mut i: usize = 0;
        while i < n
            invariant
                i <= n,
                n <= tr.params.len(),
                n <= ct.params.len(),
                env.len() == i,
                forall|j: int|
                    0 <= j < i ==> (#[trigger] env[j]).0@ == tr.params[j].name@ && env[j].1@
                        == ct.params[j]@,
            decreases n - i,
        {
            env.push((tr.params[i].name.clone(), ct.params[i].clone()));
            i += 1;
        }
        proof {
            assert(args_view(env@) =~= param_args(tr@.params, ct@.args));
        }
        let b = match &tr.supertraits {
            None => {
                let res: Vec<ConcreteTrait> = Vec::new();
                assert(seq_view(res@) =~= Seq::<TraitTerm>::empty());
                return Ok(res);
            },
            Some(b) => b,
        };
        let ghost pos = b@.positive;
        let ghost rs = Seq::new(
            pos.len(),
            |i: int| instantiate_trait(self.table(), param_args(tr@.params, ct@.args), pos[i]),
        );
        let mut out: Vec<ConcreteTrait> = Vec::new();
        let mut k: usize = 0;
        proof {
            assert(seq_view(out@) =~= Seq::<TraitTerm>::empty());
            assert(rs.take(0) =~= Seq::<Result<TraitTerm, ErrorModel>>::empty());
            assert(supertraits_of(self.table(), ct@) == collect(rs));
        }
        while k < b.pos.len()
            invariant
                k <= b.pos.len(),
                pos == seq_view(b.pos@),
                supertraits_of(self.table(), ct@) == collect(rs),
                args_view(env@) == param_args(tr@.params, ct@.args),
                rs == Seq::new(
                    pos.len(),
                    |i: int|
                        instantiate_trait(
                            self.table(),
                            param_args(tr@.params, ct@.args),
                            pos[i],
                        ),
                ),
                collect(rs.take(k as int)) == Ok::<Seq<TraitTerm>, ErrorModel>(seq_view(out@)),
            decreases b.pos.len() - k,
        {
            let ghost before = seq_view(out@);
            proof {
                lemma_collect_step(rs, k as int);
                assert(pos[k as int] == b.pos[k as int]@);
            }
            match self.instantiate(&env, &b.pos[k]) {
                Ok(t) => {
                    out.push(t);
                    assert(seq_view(out@) =~= before.push(t@));
                },
                Err(e) => {
                    proof {
                        lemma_collect_err(rs, k + 1);
                    }
                    return Err(e);
                },
            }
            k += 1;
        }
        assert(rs.take(b.pos.len() as int) =~= rs);
        Ok(out)
    }

    /// The closure of a trait application with a bound on the length of a
    /// chain of supertraits.
    fn closure_with(&self, ct: &ConcreteTrait, fuel: usize) -> (res: Result<
        Vec<ConcreteTrait>,
        CheckError,
    >)
        ensures
            set_result(res) == closure_fuel(self.table(), ct@, fuel as nat),
            res matches Ok(v) ==> seq_view(v@).no_duplicates(),
        decreases fuel, 0nat,
    {
        let sups = match self.sup(ct) {
            Ok(s) => s,
            Err(e) => {
                return Err(e);
            },
        };
        if sups.len() == 0 {
            let mut v: Vec<ConcreteTrait> = Vec::new();
            v.push(ct.clone());
            proof {
                assert(seq_view(v@) =~= seq![ct@]);
                assert(seq![ct@].to_set() =~= set![ct@]) by {
                    assert(seq![ct@][0] == ct@);
                }
            }
            return Ok(v);
        }
        if fuel == 0 {
            return Err(CheckError::CyclicSupertraits { name: ct.name.clone() });
        }
        let mut acc = match self.closure_list(&sups, fuel - 1) {
            Ok(a) => a,
            Err(e) => {
                return Err(e);
            },
        };
        proof {
            lemma_insert_new(seq_view(acc@), ct@);
        }
        insert_trait(&mut acc, ct.clone());
        Ok(acc)
    }

    /// The union of the closures of a list of trait applications.
    fn closure_list(&self, trs: &Vec<ConcreteTrait>, fuel: usize) -> (res: Result<
        Vec<ConcreteTrait>,
        CheckError,
    >)
        ensures
            set_result(res) == closure_all(
                self.table(),
                seq_view(trs@),
                fuel as nat,
                trs.len() as nat,
            ),
            res matches Ok(v) ==> seq_view(v@).no_duplicates(),
        decreases fuel, 1nat,
    {
        let ghost ts = seq_view(trs@);
        let mut acc: Vec<ConcreteTrait> = Vec::new();
        let mut i: usize = 0;
        proof {
            assert(seq_view(acc@).to_set() =~= Set::<TraitTerm>::empty());
        }
        while i < trs.len()
            invariant
                i <= trs.len(),
                ts == seq_view(trs@),
                closure_all(self.table(), ts, fuel as nat, i as nat) == Ok::<
                    Set<TraitTerm>,
                    ErrorModel,
                >(seq_view(acc@).to_set()),
                seq_view(acc@).no_duplicates(),
            decreases trs.len() - i,
        {
            assert(ts[i as int] == trs[i as int]@);
            match self.closure_with(&trs[i], fuel) {
                Ok(c) => {
                    proof {
                        lemma_merge(seq_view(acc@), seq_view(c@));
                    }
                    merge_traits(&mut acc, &c);
                },
                Err(e) => {
                    proof {
                        lemma_closure_err(
                            self.table(),
                            ts,
                            fuel as nat,
                            (i + 1) as nat,
                            trs.len() as nat,
                        );
                    }
                    return Err(e);
                },
            }
            i += 1;
        }
        Ok(acc)
    }

    /// The reflexive and transitive closure of the supertraits of a trait
    /// application: the application itself and the closure of each of its
    /// direct supertraits. A chain of supertraits longer than the number of
    /// trait declarations is an error.
    pub fn a_d(&self, ct: &ConcreteTrait) -> (res: Result<Vec<ConcreteTrait>, CheckError>)
        ensures
            set_result(res) == closure(self.table(), ct@),
            res matches Ok(v) ==> seq_view(v@).no_duplicates(),
            res is Err ==> forall|fuel: nat|
                (#[trigger] closure_fuel(self.table(), ct@, fuel)) is Err,
    {
        proof {
            assert forall|fuel: nat| closure(self.table(), ct@) is Err implies (
            #[trigger] closure_fuel(self.table(), ct@, fuel)) is Err by {
                if closure_fuel(self.table(), ct@, fuel) is Ok {
                    lemma_closure_enough(self.table(), ct@, fuel);
                }
            }
        }
        self.closure_with(ct, self.checker.traits.len())
    }

    /// All that the positive part of a bound obliges to: the union of the
    /// closures of its traits.
    pub fn a(&self, b: &ConcreteBound) -> (res: Result<Vec<ConcreteTrait>, CheckError>)
        ensures
            set_result(res) == obligations(self.table(), b@),
            res matches Ok(v) ==> seq_view(v@).no_duplicates(),
    {
        self.closure_list(&b.pos, self.checker.traits.len())
    }

    /// The verdict for one bound: `NonConflict` when it forbids a trait that
    /// its positive part obliges to, so that no type meets it.
    pub fn check_bound(&self, b: &ConcreteBound) -> (res: Result<ConflictCheckResult, CheckError>)
        ensures
            verdict_result(res) == bound_verdict(self.table(), b@),
    {
        let a = match self.a(b) {
            Ok(a) => a,
            Err(e) => {
                return Err(e);
            },
        };
        let ghost aset = seq_view(a@).to_set();
        let ghost neg = b@.negative;
        let mut i: usize = 0;
        while i < b.neg.len()
            invariant
                i <= b.neg.len(),
                aset == seq_view(a@).to_set(),
                neg == seq_view(b.neg@),
                neg == b@.negative,
                obligations(self.table(), b@) == Ok::<Set<TraitTerm>, ErrorModel>(aset),
                forall|j: int| 0 <= j < i ==> !aset.contains(#[trigger] neg[j]),
            decreases b.neg.len() - i,
        {
            assert(neg[i as int] == b.neg[i as int]@);
            if contains_trait(&a, &b.neg[i]) {
                return Ok(ConflictCheckResult::NonConflict);
            }
            i += 1;
        }
        Ok(ConflictCheckResult::Conflict)
    }

    /// The join of the bounds of the members of a class, or `None` when one
    /// of them has no bound.
    pub fn join_members(&self, members: &Vec<usize>) -> (res: Option<ConcreteBound>)
        ensures
            option_bound_view(res) == joined_bound(
                self.bounds(),
                ids_view(members@),
                members.len() as nat,
            ),
    {
        let ghost ms = ids_view(members@);
        let mut bound = ConcreteBound::new();
        let mut m: usize = 0;
        while m < members.len()
            invariant
                m <= members.len(),
                ms == ids_view(members@),
                joined_bound(self.bounds(), ms, m as nat) == Some(bound@),
            decreases members.len() - m,
        {
            let idx = members[m];
            assert(ms[m as int] == idx as nat);
            if idx >= self.params.len() {
                proof {
                    lemma_joined_none(self.bounds(), ms, (m + 1) as nat, members.len() as nat);
                }
                return None;
            }
            assert(self.bounds()[idx as int] == option_bound_view(self.params[idx as int]));
            match &self.params[idx] {
                Some(b) => {
                    bound = ConcreteBound::join(&bound, b);
                },
                None => {
                    proof {
                        lemma_joined_none(
                            self.bounds(),
                            ms,
                            (m + 1) as nat,
                            members.len() as nat,
                        );
                    }
                    return None;
                },
            }
            m += 1;
        }
        Some(bound)
    }

    /// The verdict for a pair of impls. Both are elaborated, the second with
    /// variables of its own. Where their traits or their targets do not unify
    /// the impls are disjoint. Else each class of linked variables is looked
    /// at in turn: a class that stands for a constructor or has a member
    /// without a bound constrains nothing; a class whose joined bound no type
    /// can meet proves the impls disjoint. Without such a class they overlap.
    pub fn check_impls(checker: &'a Checker, i1: &Impl, i2: &Impl) -> (res: Result<
        ConflictCheckResult,
        CheckError,
    >)
        ensures
            verdict_result(res) == check_pair(checker.table(), i1@, i2@),
    {
        let ghost t = checker.table();
        let mut env = ConflictCheckEnv::new(checker);
        let c1 = match env.get_concrete_impl(i1) {
            Ok(c) => c,
            Err(e) => {
                return Err(e);
            },
        };
        let ghost it1 = elaborate_impl(t, i1@, 0)->Ok_0;
        proof {
            lemma_params_len(t, i1@.params, 0, i1@.params.len());
            assert(env.bounds() =~= it1.bounds);
        }
        let c2 = match env.get_concrete_impl(i2) {
            Ok(c) => c,
            Err(e) => {
                return Err(e);
            },
        };
        let ghost it2 = elaborate_impl(t, i2@, i1@.params.len())->Ok_0;
        let ghost bounds = it1.bounds + it2.bounds;
        let mut unif = Unifier::new();
        if unif.trait_unify(&c1.trait_exp, &c2.trait_exp) == UnificationResult::Failure {
            return Ok(ConflictCheckResult::NonConflict);
        }
        if unif.type_unify(&c1.impl_for, &c2.impl_for) == UnificationResult::Failure {
            return Ok(ConflictCheckResult::NonConflict);
        }
        let routes = unif.get_all_unified_params();
        let ghost cs = classes_view(routes@);
        proof {
            assert(check_pair(t, i1@, i2@) == classes_verdict(t, bounds, cs, cs.len()));
        }
        let mut k: usize = 0;
        while k < routes.len()
            invariant
                k <= routes.len(),
                env.checker == checker,
                t == checker.table(),
                env.bounds() == bounds,
                cs == classes_view(routes@),
                cs.len() == routes.len(),
                check_pair(t, i1@, i2@) == classes_verdict(t, bounds, cs, cs.len()),
                classes_verdict(t, bounds, cs, k as nat) == Ok::<ConflictCheckResult, ErrorModel>(
                    ConflictCheckResult::Conflict,
                ),
            decreases routes.len() - k,
        {
            assert(cs[k as int] == (
                crate::unifier::type_view(routes[k as int].0),
                ids_view(routes[k as int].1@),
            ));
            if routes[k].0.is_none() {
                match env.join_members(&routes[k].1) {
                    Some(bound) => {
                        match env.check_bound(&bound) {
                            Ok(ConflictCheckResult::NonConflict) => {
                                proof {
                                    lemma_verdict_sticky(
                                        t,
                                        bounds,
                                        cs,
                                        (k + 1) as nat,
                                        cs.len(),
                                    );
                                }
                                return Ok(ConflictCheckResult::NonConflict);
                            },
                            Ok(ConflictCheckResult::Conflict) => {},
                            Err(e) => {
                                proof {
                                    lemma_verdict_sticky(
                                        t,
                                        bounds,
                                        cs,
                                        (k + 1) as nat,
                                        cs.len(),
                                    );
                                }
                                return Err(e);
                            },
                        }
                    },
                    None => {},
                }
            }
            k += 1;
        }
        Ok(ConflictCheckResult::Conflict)
    }
}

} // verus!
