//! Text for declarations and for elaborated types, in the surface notation.

use crate::concrete::{ConcreteBound, ConcreteTrait, ConcreteType};
use crate::syntax::{
    Bound, BoundExpr, Impl, ImplDecl, Param, ParamDecl, Struct, StructDecl, TExp, TypeExpr,
    seq_view,
};
use vstd::prelude::*;

verus! {

/// The texts of `parts` with `sep` between each two.
pub open spec fn join_texts(parts: Seq<Seq<char>>, sep: Seq<char>) -> Seq<char>
    decreases parts.len(),
{
    if parts.len() == 0 {
        Seq::empty()
    } else if parts.len() == 1 {
        parts[0]
    } else {
        join_texts(parts.drop_last(), sep) + sep + parts.last()
    }
}

/// Nothing for an empty list; else the texts between `<` and `>`, separated
/// by a comma and a space.
pub open spec fn angle_list(parts: Seq<Seq<char>>) -> Seq<char> {
    if parts.len() == 0 {
        Seq::empty()
    } else {
        seq!['<'] + join_texts(parts, seq![',', ' ']) + seq!['>']
    }
}

/// Each text with `lead` in front, one after the other.
pub open spec fn led_texts(parts: Seq<Seq<char>>, lead: Seq<char>) -> Seq<char>
    decreases parts.len(),
{
    if parts.len() == 0 {
        Seq::empty()
    } else {
        led_texts(parts.drop_last(), lead) + lead + parts.last()
    }
}

/// The text of a bound from the texts of its traits: the positive ones
/// joined by ` + `, then each negative one after ` - `.
pub open spec fn bound_text_of(pos: Seq<Seq<char>>, neg: Seq<Seq<char>>) -> Seq<char> {
    join_texts(pos, seq![' ', '+', ' ']) + led_texts(neg, seq![' ', '-', ' '])
}

/// The text of a type expression: `Name` or `Name<Arg, ...>`.
pub open spec fn type_expr_text(t: TypeExpr) -> Seq<char>
    decreases t,
{
    t.name + angle_list(type_expr_texts(t.args))
}

/// The text of each type expression of a list.
pub open spec fn type_expr_texts(ts: Seq<TypeExpr>) -> Seq<Seq<char>>
    decreases ts,
{
    Seq::new(
        ts.len(),
        |i: int|
            if 0 <= i < ts.len() {
                type_expr_text(ts[i])
            } else {
                arbitrary()
            },
    )
}

/// The text of a bound: `Pos + Pos - Neg - Neg`.
pub open spec fn bound_text(b: BoundExpr) -> Seq<char> {
    bound_text_of(type_expr_texts(b.positive), type_expr_texts(b.negative))
}

/// The text of a parameter: `Name` or `Name: Bound`.
pub open spec fn param_text(p: ParamDecl) -> Seq<char> {
    match p.bound {
        Some(b) => p.name + seq![':', ' '] + bound_text(b),
        None => p.name,
    }
}

/// The text of each parameter of a list.
pub open spec fn param_texts(ps: Seq<ParamDecl>) -> Seq<Seq<char>> {
    Seq::new(ps.len(), |i: int| param_text(ps[i]))
}

/// The text of an impl: `impl<Params> Trait for Target`.
pub open spec fn impl_text(i: ImplDecl) -> Seq<char> {
    seq!['i', 'm', 'p', 'l'] + angle_list(param_texts(i.params)) + seq![' '] + type_expr_text(
        i.trait_expr,
    ) + seq![' ', 'f', 'o', 'r', ' '] + type_expr_text(i.target)
}

/// The text of a struct: `Name` or `Name<Params>`.
pub open spec fn struct_text(s: StructDecl) -> Seq<char> {
    match s.params {
        Some(ps) => s.name + angle_list(param_texts(ps)),
        None => s.name,
    }
}

/// The model of a list of strings.
pub open spec fn strings_view(v: Seq<String>) -> Seq<Seq<char>> {
    Seq::new(v.len(), |i: int| v[i]@)
}

/// The strings of `parts` with `sep` between each two.
pub fn join_strings(parts: &Vec<String>, sep: &str) -> (out: String)
    ensures
        out@ == join_texts(strings_view(parts@), sep@),
{
    let ghost ps = strings_view(parts@);
    let mut out = String::new();
    let mut i: usize = 0;
    assert(ps.take(0) =~= Seq::<Seq<char>>::empty());
    while i < parts.len()
        invariant
            i <= parts.len(),
            ps == strings_view(parts@),
            out@ == join_texts(ps.take(i as int), sep@),
        decreases parts.len() - i,
    {
        proof {
            assert(ps.take(i + 1).drop_last() =~= ps.take(i as int));
            assert(ps.take(i + 1).last() == parts[i as int]@);
            if i == 0 {
                assert(ps.take(1)[0] == parts[0]@);
                assert(out@ + parts[0]@ =~= parts[0]@);
            }
        }
        if i > 0 {
            out.append(sep);
        }
        out.append(parts[i].as_str());
        i += 1;
    }
    assert(ps.take(parts.len() as int) =~= ps);
    out
}

/// Appends each string of `parts` with `lead` in front.
pub fn append_led(out: &mut String, parts: &Vec<String>, lead: &str)
    ensures
        final(out)@ == old(out)@ + led_texts(strings_view(parts@), lead@),
{
    let ghost ps = strings_view(parts@);
    let mut i: usize = 0;
    assert(ps.take(0) =~= Seq::<Seq<char>>::empty());
    assert(out@ + Seq::<char>::empty() =~= out@);
    while i < parts.len()
        invariant
            i <= parts.len(),
            ps == strings_view(parts@),
            out@ == old(out)@ + led_texts(ps.take(i as int), lead@),
        decreases parts.len() - i,
    {
        let ghost before = out@;
        proof {
            assert(ps.take(i + 1).drop_last() =~= ps.take(i as int));
            assert(ps.take(i + 1).last() == parts[i as int]@);
        }
        out.append(lead);
        out.append(parts[i].as_str());
        proof {
            let l = led_texts(ps.take(i as int), lead@);
            assert(before + lead@ + parts[i as int]@ =~= old(out)@ + (l + lead@ + parts[i as int]@));
        }
        i += 1;
    }
    assert(ps.take(parts.len() as int) =~= ps);
}

/// Appends the strings between `<` and `>`, separated by a comma and a
/// space; nothing for an empty list.
pub fn append_angle_list(out: &mut String, parts: &Vec<String>)
    ensures
        final(out)@ == old(out)@ + angle_list(strings_view(parts@)),
{
    if parts.len() == 0 {
        assert(out@ + Seq::<char>::empty() =~= out@);
    } else {
        proof {
            reveal_strlit("<");
            reveal_strlit(", ");
            reveal_strlit(">");
            assert("<"@ =~= seq!['<']);
            assert(", "@ =~= seq![',', ' ']);
            assert(">"@ =~= seq!['>']);
        }
        let inner = join_strings(parts, ", ");
        out.append("<");
        out.append(inner.as_str());
        out.append(">");
        assert(out@ =~= old(out)@ + (seq!['<'] + inner@ + seq!['>']));
    }
}

/// The text of a bound from the strings of its traits.
pub fn bound_string(pos: &Vec<String>, neg: &Vec<String>) -> (out: String)
    ensures
        out@ == bound_text_of(strings_view(pos@), strings_view(neg@)),
{
    proof {
        reveal_strlit(" + ");
        reveal_strlit(" - ");
        assert(" + "@ =~= seq![' ', '+', ' ']);
        assert(" - "@ =~= seq![' ', '-', ' ']);
    }
    let mut out = join_strings(pos, " + ");
    append_led(&mut out, neg, " - ");
    out
}

impl TExp {
    /// The text of this expression: `Name` or `Name<Arg, ...>`.
    pub fn to_text(&self) -> (out: String)
        ensures
            out@ == type_expr_text(self@),
        decreases self,
    {
        let parts = texts_of(&self.params);
        let mut out = self.name.clone();
        append_angle_list(&mut out, &parts);
        proof {
            self.lemma_args();
        }
        out
    }
}

/// The text of each expression of a list.
pub fn texts_of(v: &Vec<TExp>) -> (out: Vec<String>)
    ensures
        strings_view(out@) == type_expr_texts(seq_view(v@)),
    decreases v,
{
    let mut out: Vec<String> = Vec::new();
    let mut i: usize = 0;
    while i < v.len()
        invariant
            i <= v.len(),
            out.len() == i,
            forall|j: int| 0 <= j < i ==> out[j]@ == type_expr_text(v[j]@),
        decreases v.len() - i,
    {
        out.push(v[i].to_text());
        i += 1;
    }
    assert(strings_view(out@) =~= type_expr_texts(seq_view(v@)));
    out
}

impl Bound {
    /// The text of this bound: `Pos + Pos - Neg - Neg`.
    pub fn to_text(&self) -> (out: String)
        ensures
            out@ == bound_text(self@),
    {
        let pos = texts_of(&self.pos);
        let neg = texts_of(&self.neg);
        bound_string(&pos, &neg)
    }
}

impl Param {
    /// The text of this parameter: `Name` or `Name: Bound`.
    pub fn to_text(&self) -> (out: String)
        ensures
            out@ == param_text(self@),
    {
        let mut out = self.name.clone();
        match &self.bound {
            Some(b) => {
                proof {
                    reveal_strlit(": ");
                    assert(": "@ =~= seq![':', ' ']);
                }
                let text = b.to_text();
                out.append(": ");
                out.append(text.as_str());
            },
            None => {},
        }
        out
    }
}

/// The text of each parameter of a list.
pub fn param_strings(v: &Vec<Param>) -> (out: Vec<String>)
    ensures
        strings_view(out@) == param_texts(seq_view(v@)),
{
    let mut out: Vec<String> = Vec::new();
    let mut i: usize = 0;
    while i < v.len()
        invariant
            i <= v.len(),
            out.len() == i,
            forall|j: int| 0 <= j < i ==> out[j]@ == param_text(v[j]@),
        decreases v.len() - i,
    {
        out.push(v[i].to_text());
        i += 1;
    }
    assert(strings_view(out@) =~= param_texts(seq_view(v@)));
    out
}

impl Impl {
    /// The text of this impl: `impl<Params> Trait for Target`.
    pub fn to_text(&self) -> (out: String)
        ensures
            out@ == impl_text(self@),
    {
        proof {
            reveal_strlit("impl");
            reveal_strlit(" ");
            reveal_strlit(" for ");
            assert("impl"@ =~= seq!['i', 'm', 'p', 'l']);
            assert(" "@ =~= seq![' ']);
            assert(" for "@ =~= seq![' ', 'f', 'o', 'r', ' ']);
        }
        let params = param_strings(&self.params);
        let head = self.trait_exp.to_text();
        let target = self.impl_for.to_text();
        let mut out = String::new();
        out.append("impl");
        append_angle_list(&mut out, &params);
        out.append(" ");
        out.append(head.as_str());
        out.append(" for ");
        out.append(target.as_str());
        assert(out@ =~= impl_text(self@));
        out
    }
}

impl Struct {
    /// The text of this struct: `Name` or `Name<Params>`.
    pub fn to_text(&self) -> (out: String)
        ensures
            out@ == struct_text(self@),
    {
        let mut out = self.name.clone();
        match &self.params {
            Some(ps) => {
                let params = param_strings(ps);
                append_angle_list(&mut out, &params);
            },
            None => {},
        }
        out
    }
}

impl ConcreteType {
    /// The text of this type: a variable by the name of its parameter, a
    /// struct as `Name` or `Name<Arg, ...>`.
    pub open spec fn text(&self) -> Seq<char>
        decreases self,
    {
        match self {
            ConcreteType::Type { name, params } => name@ + angle_list(texts_in(params)),
            ConcreteType::Param { name, .. } => name@,
        }
    }

    /// The text of this type.
    pub fn to_text(&self) -> (out: String)
        ensures
            out@ == self.text(),
        decreases self,
    {
        match self {
            ConcreteType::Type { name, params } => {
                let parts = type_strings(params);
                let mut out = name.clone();
                append_angle_list(&mut out, &parts);
                proof {
                    assert(texts_in(params) =~= type_texts(params@));
                }
                out
            },
            ConcreteType::Param { name, .. } => name.clone(),
        }
    }
}

/// The text of each type of a list.
pub open spec fn texts_in(v: &Vec<ConcreteType>) -> Seq<Seq<char>>
    decreases v,
{
    Seq::new(
        v.len() as nat,
        |i: int|
            if 0 <= i < v.len() {
                v[i].text()
            } else {
                arbitrary()
            },
    )
}

/// The text of each type of a list.
pub open spec fn type_texts(v: Seq<ConcreteType>) -> Seq<Seq<char>> {
    Seq::new(v.len(), |i: int| v[i].text())
}

/// The text of each type of a list.
pub fn type_strings(v: &Vec<ConcreteType>) -> (out: Vec<String>)
    ensures
        strings_view(out@) == type_texts(v@),
    decreases v,
{
    let mut out: Vec<String> = Vec::new();
    let mut i: usize = 0;
    while i < v.len()
        invariant
            i <= v.len(),
            out.len() == i,
            forall|j: int| 0 <= j < i ==> out[j]@ == v[j].text(),
        decreases v.len() - i,
    {
        out.push(v[i].to_text());
        i += 1;
    }
    assert(strings_view(out@) =~= type_texts(v@));
    out
}

impl ConcreteTrait {
    /// The text of this trait application: `Name` or `Name<Arg, ...>`.
    pub open spec fn text(&self) -> Seq<char> {
        self.name@ + angle_list(texts_in(&self.params))
    }

    /// The text of this trait application.
    pub fn to_text(&self) -> (out: String)
        ensures
            out@ == self.text(),
    {
        let parts = type_strings(&self.params);
        let mut out = self.name.clone();
        append_angle_list(&mut out, &parts);
        proof {
            assert(texts_in(&self.params) =~= type_texts(self.params@));
        }
        out
    }
}

/// The text of each trait application of a list.
pub open spec fn trait_texts(v: Seq<ConcreteTrait>) -> Seq<Seq<char>> {
    Seq::new(v.len(), |i: int| v[i].text())
}

/// The text of each trait application of a list.
pub fn trait_strings(v: &Vec<ConcreteTrait>) -> (out: Vec<String>)
    ensures
        strings_view(out@) == trait_texts(v@),
{
    let mut out: Vec<String> = Vec::new();
    let mut i: usize = 0;
    while i < v.len()
        invariant
            i <= v.len(),
            out.len() == i,
            forall|j: int| 0 <= j < i ==> out[j]@ == v[j].text(),
        decreases v.len() - i,
    {
        out.push(v[i].to_text());
        i += 1;
    }
    assert(strings_view(out@) =~= trait_texts(v@));
    out
}

impl ConcreteBound {
    /// The text of this bound: `Pos + Pos - Neg - Neg`.
    pub open spec fn text(&self) -> Seq<char> {
        bound_text_of(trait_texts(self.pos@), trait_texts(self.neg@))
    }

    /// The text of this bound.
    pub fn to_text(&self) -> (out: String)
        ensures
            out@ == self.text(),
    {
        let pos = trait_strings(&self.pos);
        let neg = trait_strings(&self.neg);
        bound_string(&pos, &neg)
    }
}

} // verus!
