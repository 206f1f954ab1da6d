//! Elaborated types, trait applications and bounds.
//!
//! In elaborated form every generic parameter is a variable with an integer
//! identity, and every other name is a struct applied to arguments.

use crate::seqs::{insert_new, lemma_merge, merge};
use crate::syntax::seq_view;
use vstd::prelude::*;
use vstd::std_specs::cmp::PartialEqSpecImpl;

verus! {

/// Model of an elaborated type: a constructor applied to arguments, or a
/// variable known by its identity alone.
pub ghost enum TypeTerm {
    Constructor { name: Seq<char>, args: Seq<TypeTerm> },
    Variable { id: nat },
}

/// Model of an elaborated trait application.
pub ghost struct TraitTerm {
    pub name: Seq<char>,
    pub args: Seq<TypeTerm>,
}

/// Model of an elaborated bound. Each list is a set: it holds nothing twice.
pub ghost struct BoundTerm {
    pub positive: Seq<TraitTerm>,
    pub negative: Seq<TraitTerm>,
}

/// The lenient equality of elaborated types: variables are equal when their
/// identities are; constructors when their names are and their arguments are
/// equal pairwise, as far as the shorter list reaches.
pub open spec fn alike(a: TypeTerm, b: TypeTerm) -> bool
    decreases a,
{
    match a {
        TypeTerm::Constructor { name: n1, args: a1 } => match b {
            TypeTerm::Constructor { name: n2, args: a2 } => n1 == n2 && forall|i: int|
                0 <= i < a1.len() && i < a2.len() ==> alike(a1[i], #[trigger] a2[i]),
            TypeTerm::Variable { .. } => false,
        },
        TypeTerm::Variable { id: i1 } => match b {
            TypeTerm::Constructor { .. } => false,
            TypeTerm::Variable { id: i2 } => i1 == i2,
        },
    }
}

/// An elaborated type.
#[derive(Debug)]
pub enum ConcreteType {
    /// A struct applied to arguments.
    Type { name: String, params: Vec<ConcreteType> },
    /// A type variable. `name` is kept for display; `id` alone identifies it.
    Param { id: usize, name: String },
}

impl ConcreteType {
    /// The model of this type; `@` gives the same.
    pub open spec fn model(&self) -> TypeTerm
        decreases self,
    {
        match self {
            ConcreteType::Type { name, params } => TypeTerm::Constructor {
                name: name@,
                args: Seq::new(
                    params.len() as nat,
                    |i: int|
                        if 0 <= i < params.len() {
                            params[i].model()
                        } else {
                            arbitrary()
                        },
                ),
            },
            ConcreteType::Param { id, .. } => TypeTerm::Variable { id: *id as nat },
        }
    }

    /// The arguments of the model are the models of the arguments.
    pub proof fn lemma_args(&self)
        ensures
            self matches ConcreteType::Type { name, params } ==> self@ == (TypeTerm::Constructor {
                name: name@,
                args: seq_view(params@),
            }),
            self matches ConcreteType::Param { id, .. } ==> self@ == (TypeTerm::Variable {
                id: id as nat,
            }),
    {
        match self {
            ConcreteType::Type { name, params } => {
                assert(self.model()->args =~= seq_view(params@));
            },
            ConcreteType::Param { .. } => {},
        }
    }

    /// Whether the two types have the same model: the same structure, names and
    /// variable identities.
    #[verifier::loop_isolation(false)]
    pub fn identical(&self, other: &ConcreteType) -> (b: bool)
        ensures
            b == (self@ == other@),
        decreases self,
    {
        proof {
            self.lemma_args();
            other.lemma_args();
        }
        match self {
            ConcreteType::Type { name: n1, params: ps1 } => match other {
                ConcreteType::Type { name: n2, params: ps2 } => {
                    if !(*n1 == *n2) {
                        return false;
                    }
                    if ps1.len() != ps2.len() {
                        assert(seq_view(ps1@).len() != seq_view(ps2@).len());
                        return false;
                    }
                    let mut i: usize = 0;
                    while i < ps1.len()
                        invariant
                            i <= ps1.len(),
                            ps1.len() == ps2.len(),
                            forall|j: int| 0 <= j < i ==> ps1[j]@ == ps2[j]@,
                        decreases ps1.len() - i,
                    {
                        if !ps1[i].identical(&ps2[i]) {
                            assert(seq_view(ps1@)[i as int] != seq_view(ps2@)[i as int]);
                            return false;
                        }
                        i += 1;
                    }
                    assert(seq_view(ps1@) =~= seq_view(ps2@));
                    true
                },
                ConcreteType::Param { .. } => false,
            },
            ConcreteType::Param { id: id1, .. } => match other {
                ConcreteType::Type { .. } => false,
                ConcreteType::Param { id: id2, .. } => *id1 == *id2,
            },
        }
    }

    /// The lenient equality, which `==` computes.
    #[verifier::loop_isolation(false)]
    pub fn lenient_eq(&self, other: &ConcreteType) -> (b: bool)
        ensures
            b == alike(self@, other@),
        decreases self,
    {
        proof {
            self.lemma_args();
            other.lemma_args();
        }
        match self {
            ConcreteType::Type { name: n1, params: ps1 } => match other {
                ConcreteType::Type { name: n2, params: ps2 } => {
                    if !(*n1 == *n2) {
                        return false;
                    }
                    let mut i: usize = 0;
                    while i < ps1.len() && i < ps2.len()
                        invariant
                            forall|j: int| 0 <= j < i ==> alike(ps1[j]@, ps2[j]@),
                        decreases ps1.len() - i,
                    {
                        if !ps1[i].lenient_eq(&ps2[i]) {
                            proof {
                                let a1 = seq_view(ps1@);
                                let a2 = seq_view(ps2@);
                                assert(a1[i as int] == ps1[i as int]@);
                                assert(a2[i as int] == ps2[i as int]@);
                                assert(!alike(a1[i as int], a2[i as int]));
                                assert(self@->Constructor_args == a1);
                                assert(other@->Constructor_args == a2);
                            }
                            return false;
                        }
                        i += 1;
                    }
                    assert forall|j: int|
                        0 <= j < seq_view(ps1@).len() && j < seq_view(ps2@).len() implies alike(
                        seq_view(ps1@)[j],
                        #[trigger] seq_view(ps2@)[j],
                    ) by {
                        assert(alike(ps1[j]@, ps2[j]@));
                    }
                    true
                },
                ConcreteType::Param { .. } => false,
            },
            ConcreteType::Param { id: id1, .. } => match other {
                ConcreteType::Type { .. } => false,
                ConcreteType::Param { id: id2, .. } => *id1 == *id2,
            },
        }
    }
}

impl View for ConcreteType {
    type V = TypeTerm;

    open spec fn view(&self) -> TypeTerm {
        self.model()
    }
}

impl PartialEq for ConcreteType {
    fn eq(&self, other: &ConcreteType) -> (b: bool) {
        self.lenient_eq(other)
    }
}

impl PartialEqSpecImpl for ConcreteType {
    open spec fn obeys_eq_spec() -> bool {
        true
    }

    open spec fn eq_spec(&self, other: &ConcreteType) -> bool {
        alike(self@, other@)
    }
}

/// A copy of each type of `v`.
pub fn clone_types(v: &Vec<ConcreteType>) -> (res: Vec<ConcreteType>)
    ensures
        seq_view(res@) == seq_view(v@),
    decreases v,
{
    let mut res: Vec<ConcreteType> = Vec::new();
    let mut i: usize = 0;
    while i < v.len()
        invariant
            i <= v.len(),
            res.len() == i,
            forall|j: int| 0 <= j < i ==> res[j]@ == v[j]@,
        decreases v.len() - i,
    {
        res.push(v[i].clone());
        i += 1;
    }
    assert(seq_view(res@) =~= seq_view(v@));
    res
}

impl Clone for ConcreteType {
    fn clone(&self) -> (res: ConcreteType)
        ensures
            res@ == self@,
        decreases self,
    {
        let res = match self {
            ConcreteType::Type { name, params } => ConcreteType::Type {
                name: name.clone(),
                params: clone_types(params),
            },
            ConcreteType::Param { id, name } => ConcreteType::Param {
                id: *id,
                name: name.clone(),
            },
        };
        proof {
            res.lemma_args();
            self.lemma_args();
        }
        res
    }
}

/// Whether the two lists hold types with the same models, in the same order.
pub fn identical_types(a: &Vec<ConcreteType>, b: &Vec<ConcreteType>) -> (r: bool)
    ensures
        r == (seq_view(a@) == seq_view(b@)),
{
    if a.len() != b.len() {
        assert(seq_view(a@).len() != seq_view(b@).len());
        return false;
    }
    let mut i: usize = 0;
    while i < a.len()
        invariant
            i <= a.len(),
            a.len() == b.len(),
            forall|j: int| 0 <= j < i ==> a[j]@ == b[j]@,
        decreases a.len() - i,
    {
        if !a[i].identical(&b[i]) {
            assert(seq_view(a@)[i as int] != seq_view(b@)[i as int]);
            return false;
        }
        i += 1;
    }
    assert(seq_view(a@) =~= seq_view(b@));
    true
}

/// An elaborated trait application: a trait name and its arguments.
#[derive(Debug)]
pub struct ConcreteTrait {
    pub name: String,
    pub params: Vec<ConcreteType>,
}

impl View for ConcreteTrait {
    type V = TraitTerm;

    open spec fn view(&self) -> TraitTerm {
        TraitTerm { name: self.name@, args: seq_view(self.params@) }
    }
}

impl Clone for ConcreteTrait {
    fn clone(&self) -> (res: ConcreteTrait)
        ensures
            res@ == self@,
    {
        ConcreteTrait { name: self.name.clone(), params: clone_types(&self.params) }
    }
}

impl ConcreteTrait {
    /// Whether the two applications have the same model.
    pub fn identical(&self, other: &ConcreteTrait) -> (b: bool)
        ensures
            b == (self@ == other@),
    {
        self.name == other.name && identical_types(&self.params, &other.params)
    }
}

/// Whether `v` holds an application with the model of `t`.
pub fn contains_trait(v: &Vec<ConcreteTrait>, t: &ConcreteTrait) -> (b: bool)
    ensures
        b == seq_view(v@).contains(t@),
{
    let mut i: usize = 0;
    while i < v.len()
        invariant
            i <= v.len(),
            forall|j: int| 0 <= j < i ==> v[j]@ != t@,
        decreases v.len() - i,
    {
        if v[i].identical(t) {
            assert(seq_view(v@)[i as int] == t@);
            return true;
        }
        i += 1;
    }
    assert forall|j: int| 0 <= j < seq_view(v@).len() implies seq_view(v@)[j] != t@ by {
        assert(v[j]@ != t@);
    }
    false
}

/// Appends `t` to `v` unless `v` holds its model already.
pub fn insert_trait(v: &mut Vec<ConcreteTrait>, t: ConcreteTrait)
    ensures
        seq_view(final(v)@) == insert_new(seq_view(old(v)@), t@),
{
    if !contains_trait(v, &t) {
        v.push(t);
        assert(seq_view(v@) =~= seq_view(old(v)@).push(t@));
    }
}

/// Appends to `v` a copy of each application of `w` that is new to it.
pub fn merge_traits(v: &mut Vec<ConcreteTrait>, w: &Vec<ConcreteTrait>)
    ensures
        seq_view(final(v)@) == merge(seq_view(old(v)@), seq_view(w@)),
{
    let mut i: usize = 0;
    assert(seq_view(w@).take(0) =~= Seq::<TraitTerm>::empty());
    while i < w.len()
        invariant
            i <= w.len(),
            seq_view(v@) == merge(seq_view(old(v)@), seq_view(w@).take(i as int)),
        decreases w.len() - i,
    {
        insert_trait(v, w[i].clone());
        proof {
            let s = seq_view(w@);
            assert(s.take(i + 1).drop_last() =~= s.take(i as int));
            assert(s.take(i + 1).last() == w[i as int]@);
        }
        i += 1;
    }
    assert(seq_view(w@).take(w.len() as int) =~= seq_view(w@));
}

/// An elaborated bound: the traits that a variable implements (`pos`) and
/// those that it does not (`neg`).
#[derive(Debug)]
pub struct ConcreteBound {
    pub pos: Vec<ConcreteTrait>,
    pub neg: Vec<ConcreteTrait>,
}

impl View for ConcreteBound {
    type V = BoundTerm;

    open spec fn view(&self) -> BoundTerm {
        BoundTerm { positive: seq_view(self.pos@), negative: seq_view(self.neg@) }
    }
}

impl Clone for ConcreteBound {
    fn clone(&self) -> (res: ConcreteBound)
        ensures
            res@ == self@,
    {
        let mut pos: Vec<ConcreteTrait> = Vec::new();
        let mut neg: Vec<ConcreteTrait> = Vec::new();
        let mut i: usize = 0;
        while i < self.pos.len()
            invariant
                i <= self.pos.len(),
                pos.len() == i,
                forall|j: int| 0 <= j < i ==> pos[j]@ == self.pos[j]@,
            decreases self.pos.len() - i,
        {
            pos.push(self.pos[i].clone());
            i += 1;
        }
        let mut k: usize = 0;
        while k < self.neg.len()
            invariant
                k <= self.neg.len(),
                neg.len() == k,
                forall|j: int| 0 <= j < k ==> neg[j]@ == self.neg[j]@,
            decreases self.neg.len() - k,
        {
            neg.push(self.neg[k].clone());
            k += 1;
        }
        assert(seq_view(pos@) =~= seq_view(self.pos@));
        assert(seq_view(neg@) =~= seq_view(self.neg@));
        ConcreteBound { pos, neg }
    }
}

impl BoundTerm {
    /// The bound that constrains nothing.
    pub open spec fn empty() -> BoundTerm {
        BoundTerm { positive: Seq::empty(), negative: Seq::empty() }
    }

    /// Neither list holds a trait twice.
    pub open spec fn wf(self) -> bool {
        self.positive.no_duplicates() && self.negative.no_duplicates()
    }

    /// The bound that asks for what either of the two asks: the union of the
    /// positive parts and the union of the negative parts.
    pub open spec fn join(self, other: BoundTerm) -> BoundTerm {
        BoundTerm {
            positive: merge(merge(Seq::empty(), self.positive), other.positive),
            negative: merge(merge(Seq::empty(), self.negative), other.negative),
        }
    }

    /// A join holds a trait exactly when one of the two bounds does, and holds
    /// nothing twice.
    pub proof fn lemma_join(self, other: BoundTerm)
        ensures
            self.join(other).wf(),
            self.join(other).positive.to_set() == self.positive.to_set().union(
                other.positive.to_set(),
            ),
            self.join(other).negative.to_set() == self.negative.to_set().union(
                other.negative.to_set(),
            ),
            self.wf() ==> self.join(other).positive.take(self.positive.len() as int)
                == self.positive,
    {
        let e = Seq::<TraitTerm>::empty();
        lemma_merge(e, self.positive);
        lemma_merge(merge(e, self.positive), other.positive);
        lemma_merge(e, self.negative);
        lemma_merge(merge(e, self.negative), other.negative);
        assert(e.to_set().union(self.positive.to_set()) =~= self.positive.to_set());
        assert(e.to_set().union(self.negative.to_set()) =~= self.negative.to_set());
        if self.wf() {
            lemma_merge_distinct(self.positive);
        }
    }
}

/// Merging a list of distinct elements into an empty one gives it back.
pub proof fn lemma_merge_distinct<T>(t: Seq<T>)
    requires
        t.no_duplicates(),
    ensures
        merge(Seq::<T>::empty(), t) == t,
    decreases t.len(),
{
    if t.len() == 0 {
    } else {
        lemma_merge_distinct(t.drop_last());
        let p = t.drop_last();
        if p.contains(t.last()) {
            let i = choose|i: int| 0 <= i < p.len() && p[i] == t.last();
            assert(t[i] == t[t.len() - 1]);
        }
        assert(p.push(t.last()) =~= t);
    }
}

impl ConcreteBound {
    /// The bound that constrains nothing.
    pub fn new() -> (res: ConcreteBound)
        ensures
            res@ == BoundTerm::empty(),
    {
        let res = ConcreteBound { pos: Vec::new(), neg: Vec::new() };
        assert(seq_view(res.pos@) =~= Seq::<TraitTerm>::empty());
        assert(seq_view(res.neg@) =~= Seq::<TraitTerm>::empty());
        res
    }

    /// The join of two bounds: the union of their positive parts and the union
    /// of their negative parts.
    pub fn join(b: &ConcreteBound, c: &ConcreteBound) -> (res: ConcreteBound)
        ensures
            res@ == b@.join(c@),
            res@.wf(),
            res@.positive.to_set() == b@.positive.to_set().union(c@.positive.to_set()),
            res@.negative.to_set() == b@.negative.to_set().union(c@.negative.to_set()),
    {
        let mut res = ConcreteBound::new();
        merge_traits(&mut res.pos, &b.pos);
        merge_traits(&mut res.pos, &c.pos);
        merge_traits(&mut res.neg, &b.neg);
        merge_traits(&mut res.neg, &c.neg);
        proof {
            b@.lemma_join(c@);
        }
        res
    }
}

} // verus!
