//! The surface syntax: type expressions, bounds, parameters and declarations.
//!
//! Every executable type has a mathematical model, reached with `@`, in which
//! strings are sequences of characters and vectors are sequences.

use vstd::prelude::*;

verus! {

/// The models of the elements of a sequence, in order.
pub open spec fn seq_view<T: View>(s: Seq<T>) -> Seq<T::V> {
    Seq::new(s.len(), |i: int| s[i]@)
}

/// Model of a type expression: a name applied to arguments.
pub ghost struct TypeExpr {
    pub name: Seq<char>,
    pub args: Seq<TypeExpr>,
}

/// Model of a bound: the traits a parameter must implement and those it must not.
pub ghost struct BoundExpr {
    pub positive: Seq<TypeExpr>,
    pub negative: Seq<TypeExpr>,
}

/// Model of a generic parameter.
pub ghost struct ParamDecl {
    pub name: Seq<char>,
    pub bound: Option<BoundExpr>,
}

/// Model of a trait declaration.
pub ghost struct TraitDecl {
    pub name: Seq<char>,
    pub params: Seq<ParamDecl>,
    pub supertraits: Option<BoundExpr>,
}

/// Model of an impl declaration.
pub ghost struct ImplDecl {
    pub params: Seq<ParamDecl>,
    pub trait_expr: TypeExpr,
    pub target: TypeExpr,
}

/// Model of a struct declaration: its name and its parameters, if it has a
/// parameter list.
pub ghost struct StructDecl {
    pub name: Seq<char>,
    pub params: Option<Seq<ParamDecl>>,
}

impl StructDecl {
    /// The number of parameters that the struct declares.
    pub open spec fn arity(self) -> nat {
        match self.params {
            Some(ps) => ps.len(),
            None => 0,
        }
    }
}

/// Model of a declaration.
pub ghost enum DeclModel {
    Struct(StructDecl),
    Trait(TraitDecl),
    Impl(ImplDecl),
}

/// A name applied to a list of arguments. It names a struct, a trait or a
/// parameter, depending on where it stands.
#[derive(Debug, PartialEq, Eq)]
pub struct TExp {
    pub name: String,
    pub params: Vec<TExp>,
}

impl TExp {
    /// The model of this expression; `@` gives the same.
    pub open spec fn model(&self) -> TypeExpr
        decreases self,
    {
        TypeExpr {
            name: self.name@,
            args: Seq::new(
                self.params.len() as nat,
                |i: int|
                    if 0 <= i < self.params.len() {
                        self.params[i].model()
                    } else {
                        arbitrary()
                    },
            ),
        }
    }

    /// The arguments of the model are the models of the arguments.
    pub proof fn lemma_args(&self)
        ensures
            self@.name == self.name@,
            self@.args == seq_view(self.params@),
    {
        assert(self.model().args =~= seq_view(self.params@));
    }
}

impl View for TExp {
    type V = TypeExpr;

    open spec fn view(&self) -> TypeExpr {
        self.model()
    }
}

/// A copy of each expression of `v`.
pub fn clone_texps(v: &Vec<TExp>) -> (res: Vec<TExp>)
    ensures
        seq_view(res@) == seq_view(v@),
    decreases v,
{
    let mut res: Vec<TExp> = Vec::new();
    let mut i: usize = 0;
    while i < v.len()
        invariant
            i <= v.len(),
            res.len() == i,
            forall|j: int| 0 <= j < i ==> res[j]@ == v[j]@,
        decreases v.len() - i,
    {
        res.push(v[i].clone());
        i += 1;
    }
    assert(seq_view(res@) =~= seq_view(v@));
    res
}

impl Clone for TExp {
    fn clone(&self) -> (res: TExp)
        ensures
            res@ == self@,
        decreases self,
    {
        let res = TExp { name: self.name.clone(), params: clone_texps(&self.params) };
        proof {
            res.lemma_args();
            self.lemma_args();
        }
        res
    }
}

/// Traits a parameter must implement (`pos`) and must not implement (`neg`).
#[derive(Debug, PartialEq, Eq)]
pub struct Bound {
    pub pos: Vec<TExp>,
    pub neg: Vec<TExp>,
}

impl View for Bound {
    type V = BoundExpr;

    open spec fn view(&self) -> BoundExpr {
        BoundExpr { positive: seq_view(self.pos@), negative: seq_view(self.neg@) }
    }
}

impl Clone for Bound {
    fn clone(&self) -> (res: Bound)
        ensures
            res@ == self@,
    {
        Bound { pos: clone_texps(&self.pos), neg: clone_texps(&self.neg) }
    }
}

/// The model of an optional bound.
pub open spec fn bound_view(b: Option<Bound>) -> Option<BoundExpr> {
    match b {
        Some(b) => Some(b@),
        None => None,
    }
}

/// A copy of an optional bound.
pub fn clone_bound(b: &Option<Bound>) -> (res: Option<Bound>)
    ensures
        bound_view(res) == bound_view(*b),
{
    match b {
        Some(b) => Some(b.clone()),
        None => None,
    }
}

/// A generic parameter of a trait or an impl, with its optional bound.
#[derive(Debug, PartialEq, Eq)]
pub struct Param {
    pub name: String,
    pub bound: Option<Bound>,
}

impl View for Param {
    type V = ParamDecl;

    open spec fn view(&self) -> ParamDecl {
        ParamDecl { name: self.name@, bound: bound_view(self.bound) }
    }
}

impl Clone for Param {
    fn clone(&self) -> (res: Param)
        ensures
            res@ == self@,
    {
        Param { name: self.name.clone(), bound: clone_bound(&self.bound) }
    }
}

/// A copy of each parameter of `v`.
pub fn clone_params(v: &Vec<Param>) -> (res: Vec<Param>)
    ensures
        seq_view(res@) == seq_view(v@),
{
    let mut res: Vec<Param> = Vec::new();
    let mut i: usize = 0;
    while i < v.len()
        invariant
            i <= v.len(),
            res.len() == i,
            forall|j: int| 0 <= j < i ==> res[j]@ == v[j]@,
        decreases v.len() - i,
    {
        res.push(v[i].clone());
        i += 1;
    }
    assert(seq_view(res@) =~= seq_view(v@));
    res
}

/// A trait declaration: `trait Name<Params>: Supertraits {}`.
#[derive(Debug, PartialEq, Eq)]
pub struct Trait {
    pub name: String,
    pub params: Vec<Param>,
    pub supertraits: Option<Bound>,
}

impl View for Trait {
    type V = TraitDecl;

    open spec fn view(&self) -> TraitDecl {
        TraitDecl {
            name: self.name@,
            params: seq_view(self.params@),
            supertraits: bound_view(self.supertraits),
        }
    }
}

impl Clone for Trait {
    fn clone(&self) -> (res: Trait)
        ensures
            res@ == self@,
    {
        Trait {
            name: self.name.clone(),
            params: clone_params(&self.params),
            supertraits: clone_bound(&self.supertraits),
        }
    }
}

/// An impl declaration: `impl<Params> Trait<Args> for Target {}`.
#[derive(Debug, PartialEq, Eq)]
pub struct Impl {
    pub params: Vec<Param>,
    pub trait_exp: TExp,
    pub impl_for: TExp,
}

impl View for Impl {
    type V = ImplDecl;

    open spec fn view(&self) -> ImplDecl {
        ImplDecl {
            params: seq_view(self.params@),
            trait_expr: self.trait_exp@,
            target: self.impl_for@,
        }
    }
}

impl Clone for Impl {
    fn clone(&self) -> (res: Impl)
        ensures
            res@ == self@,
    {
        Impl {
            params: clone_params(&self.params),
            trait_exp: self.trait_exp.clone(),
            impl_for: self.impl_for.clone(),
        }
    }
}

/// A struct declaration: `struct Name<Params>;`.
#[derive(Debug, PartialEq, Eq)]
pub struct Struct {
    pub name: String,
    pub params: Option<Vec<Param>>,
}

impl Struct {
    /// The number of generic parameters that the struct declares.
    pub open spec fn spec_arity(&self) -> nat {
        match self.params {
            Some(ps) => ps.len() as nat,
            None => 0,
        }
    }

    /// The number of generic parameters that the struct declares.
    pub fn arity(&self) -> (n: usize)
        ensures
            n == self.spec_arity(),
            n == self@.arity(),
    {
        match &self.params {
            Some(ps) => ps.len(),
            None => 0,
        }
    }
}

impl View for Struct {
    type V = StructDecl;

    open spec fn view(&self) -> StructDecl {
        StructDecl {
            name: self.name@,
            params: match self.params {
                Some(ps) => Some(seq_view(ps@)),
                None => None,
            },
        }
    }
}

impl Clone for Struct {
    fn clone(&self) -> (res: Struct)
        ensures
            res@ == self@,
    {
        let params = match &self.params {
            Some(ps) => Some(clone_params(ps)),
            None => None,
        };
        Struct { name: self.name.clone(), params }
    }
}

/// One declaration of a program.
#[derive(Debug, PartialEq, Eq)]
pub enum Decl {
    Struct(Struct),
    Trait(Trait),
    Impl(Impl),
}

impl View for Decl {
    type V = DeclModel;

    open spec fn view(&self) -> DeclModel {
        match self {
            Decl::Struct(s) => DeclModel::Struct(s@),
            Decl::Trait(t) => DeclModel::Trait(t@),
            Decl::Impl(i) => DeclModel::Impl(i@),
        }
    }
}

impl Clone for Decl {
    fn clone(&self) -> (res: Decl)
        ensures
            res@ == self@,
    {
        match self {
            Decl::Struct(s) => Decl::Struct(s.clone()),
            Decl::Trait(t) => Decl::Trait(t.clone()),
            Decl::Impl(i) => Decl::Impl(i.clone()),
        }
    }
}

/// A program: its declarations in source order.
#[derive(Debug, PartialEq, Eq)]
pub struct Program(pub Vec<Decl>);

impl View for Program {
    type V = Seq<DeclModel>;

    open spec fn view(&self) -> Seq<DeclModel> {
        seq_view(self.0@)
    }
}

impl Clone for Program {
    fn clone(&self) -> (res: Program)
        ensures
            res@ == self@,
    {
        let mut res: Vec<Decl> = Vec::new();
        let mut i: usize = 0;
        while i < self.0.len()
            invariant
                i <= self.0.len(),
                res.len() == i,
                forall|j: int| 0 <= j < i ==> res[j]@ == self.0[j]@,
            decreases self.0.len() - i,
        {
            res.push(self.0[i].clone());
            i += 1;
        }
        assert(seq_view(res@) =~= seq_view(self.0@));
        Program(res)
    }
}

} // verus!
