//! The surface grammar and its parser.
//!
//! ```text
//! program ::= (ws* decl '\n' ws*)*
//! decl    ::= "struct" ws+ name ws* params? ws* ';'
//!           | "trait" ws+ name ws* params? (ws* ':' ws* bound)? ws* '{' ws* '}'
//!           | "impl" ws* params? ws* type ws* "for" ws+ type ws* '{' ws* '}'
//! params  ::= '<' ws* '>' | '<' ws* param (ws* ',' ws* param)* ws* '>'
//! param   ::= name (ws* ':' ws* bound)?
//! bound   ::= ('-' ws*)? type (ws* ('+' | '-') ws* type)*
//! type    ::= name (ws* '<' ws* type (ws* ',' ws* type)* ws* '>')?
//! name    ::= one or more ASCII letters and digits
//! ws      ::= ' ' | '\t' | '\r' | '\n'
//! ```
//!
//! Choices are tried in order, repetitions and names take as much as they
//! can, and an optional part that does not parse is left out together with
//! the white space before it. Positions count characters.

use crate::syntax::{
    Bound, BoundExpr, Decl, DeclModel, Impl, ImplDecl, Param, ParamDecl, Program, Struct,
    StructDecl, TExp, Trait, TraitDecl, TypeExpr, seq_view,
};
use vstd::prelude::*;

verus! {

/// An ASCII letter or digit.
pub open spec fn is_name_char(c: char) -> bool {
    ('a' <= c && c <= 'z') || ('A' <= c && c <= 'Z') || ('0' <= c && c <= '9')
}

/// A blank, a tab, a carriage return or a line feed.
pub open spec fn is_space(c: char) -> bool {
    c == ' ' || c == '\t' || c == '\r' || c == '\n'
}

/// The end of the longest run of letters and digits that starts at `pos`.
pub open spec fn name_end(s: Seq<char>, pos: int) -> int
    decreases s.len() - pos,
{
    if 0 <= pos < s.len() && is_name_char(s[pos]) {
        name_end(s, pos + 1)
    } else {
        pos
    }
}

/// The end of the longest run of white space that starts at `pos`.
pub open spec fn spaces_end(s: Seq<char>, pos: int) -> int
    decreases s.len() - pos,
{
    if 0 <= pos < s.len() && is_space(s[pos]) {
        spaces_end(s, pos + 1)
    } else {
        pos
    }
}

/// The character `c` stands at `pos`.
pub open spec fn at(s: Seq<char>, pos: int, c: char) -> bool {
    0 <= pos < s.len() && s[pos] == c
}

/// The word `w` stands at `pos`.
pub open spec fn has_word(s: Seq<char>, pos: int, w: Seq<char>) -> bool {
    0 <= pos && pos + w.len() <= s.len() && s.subrange(pos, pos + w.len()) == w
}

/// A type expression at `pos`, and where it ends.
pub open spec fn texp_spec(s: Seq<char>, pos: int) -> Option<(TypeExpr, int)>
    decreases s.len() - pos, 1int,
{
    let e = name_end(s, pos);
    if 0 <= pos < e <= s.len() {
        let name = s.subrange(pos, e);
        let plain = Some((TypeExpr { name, args: Seq::empty() }, e));
        let p1 = spaces_end(s, e);
        if at(s, p1, '<') {
            let p2 = spaces_end(s, p1 + 1);
            if pos < p2 <= s.len() {
                match texp_list_spec(s, p2, Seq::empty()) {
                    Some((args, end)) => Some((TypeExpr { name, args }, end)),
                    None => plain,
                }
            } else {
                plain
            }
        } else {
            plain
        }
    } else {
        None
    }
}

/// Type expressions separated by commas, up to and with the closing `>`,
/// added to `acc`.
pub open spec fn texp_list_spec(s: Seq<char>, pos: int, acc: Seq<TypeExpr>) -> Option<
    (Seq<TypeExpr>, int),
>
    decreases s.len() - pos, 2int,
{
    match texp_spec(s, pos) {
        None => None,
        Some((te, p1)) => {
            let p2 = spaces_end(s, p1);
            if at(s, p2, ',') {
                let p3 = spaces_end(s, p2 + 1);
                if pos < p3 <= s.len() {
                    texp_list_spec(s, p3, acc.push(te))
                } else {
                    None
                }
            } else if at(s, p2, '>') {
                Some((acc.push(te), p2 + 1))
            } else {
                None
            }
        },
    }
}

/// `b` with one more trait: a positive one after `+`, a negative one after
/// any other sign.
pub open spec fn with_term(b: BoundExpr, sign: char, te: TypeExpr) -> BoundExpr {
    if sign == '+' {
        BoundExpr { positive: b.positive.push(te), negative: b.negative }
    } else {
        BoundExpr { positive: b.positive, negative: b.negative.push(te) }
    }
}

/// The further terms of a bound from `pos` on, added to `b`, and where they
/// end.
pub open spec fn bound_tail_spec(s: Seq<char>, pos: int, b: BoundExpr) -> (BoundExpr, int)
    decreases s.len() - pos,
{
    let p1 = spaces_end(s, pos);
    if at(s, p1, '+') || at(s, p1, '-') {
        match texp_spec(s, spaces_end(s, p1 + 1)) {
            Some((te, p2)) => if pos < p2 <= s.len() {
                bound_tail_spec(s, p2, with_term(b, s[p1], te))
            } else {
                (b, pos)
            },
            None => (b, pos),
        }
    } else {
        (b, pos)
    }
}

/// A bound at `pos`, and where it ends.
pub open spec fn bound_spec(s: Seq<char>, pos: int) -> Option<(BoundExpr, int)> {
    let sign = if at(s, pos, '-') {
        '-'
    } else {
        '+'
    };
    let p0 = if at(s, pos, '-') {
        spaces_end(s, pos + 1)
    } else {
        pos
    };
    match texp_spec(s, p0) {
        None => None,
        Some((te, p1)) => Some(
            bound_tail_spec(
                s,
                p1,
                with_term(BoundExpr { positive: Seq::empty(), negative: Seq::empty() }, sign, te),
            ),
        ),
    }
}

/// An optional `: bound` at `pos`, and where it ends; nothing, ending at
/// `pos`, where there is none.
pub open spec fn colon_bound_spec(s: Seq<char>, pos: int) -> (Option<BoundExpr>, int) {
    let p1 = spaces_end(s, pos);
    if at(s, p1, ':') {
        match bound_spec(s, spaces_end(s, p1 + 1)) {
            Some((b, e)) => (Some(b), e),
            None => (None, pos),
        }
    } else {
        (None, pos)
    }
}

/// A parameter at `pos`, and where it ends.
pub open spec fn param_spec(s: Seq<char>, pos: int) -> Option<(ParamDecl, int)> {
    let e = name_end(s, pos);
    if 0 <= pos < e <= s.len() {
        let (bound, end) = colon_bound_spec(s, e);
        Some((ParamDecl { name: s.subrange(pos, e), bound }, end))
    } else {
        None
    }
}

/// Parameters separated by commas, up to and with the closing `>`, added to
/// `acc`.
pub open spec fn param_list_spec(s: Seq<char>, pos: int, acc: Seq<ParamDecl>) -> Option<
    (Seq<ParamDecl>, int),
>
    decreases s.len() - pos,
{
    match param_spec(s, pos) {
        None => None,
        Some((p, p1)) => {
            let p2 = spaces_end(s, p1);
            if at(s, p2, ',') {
                let p3 = spaces_end(s, p2 + 1);
                if pos < p3 <= s.len() {
                    param_list_spec(s, p3, acc.push(p))
                } else {
                    None
                }
            } else if at(s, p2, '>') {
                Some((acc.push(p), p2 + 1))
            } else {
                None
            }
        },
    }
}

/// A parameter list in angle brackets at `pos`, and where it ends.
pub open spec fn params_spec(s: Seq<char>, pos: int) -> Option<(Seq<ParamDecl>, int)> {
    if at(s, pos, '<') {
        let p1 = spaces_end(s, pos + 1);
        if at(s, p1, '>') {
            Some((Seq::empty(), p1 + 1))
        } else {
            param_list_spec(s, p1, Seq::empty())
        }
    } else {
        None
    }
}

/// An optional parameter list at `pos`, and where it ends; nothing, ending
/// at `pos`, where there is none.
pub open spec fn opt_params_spec(s: Seq<char>, pos: int) -> (Option<Seq<ParamDecl>>, int) {
    match params_spec(s, pos) {
        Some((ps, e)) => (Some(ps), e),
        None => (None, pos),
    }
}

/// The parameters of an optional list; none where there is no list.
pub open spec fn params_or_none(ps: Option<Seq<ParamDecl>>) -> Seq<ParamDecl> {
    match ps {
        Some(ps) => ps,
        None => Seq::empty(),
    }
}

/// The end of `{ }` at `pos`, white space allowed before and between.
pub open spec fn braces_spec(s: Seq<char>, pos: int) -> Option<int> {
    let p1 = spaces_end(s, pos);
    if at(s, p1, '{') {
        let p2 = spaces_end(s, p1 + 1);
        if at(s, p2, '}') {
            Some(p2 + 1)
        } else {
            None
        }
    } else {
        None
    }
}

/// A struct declaration at `pos`, and where it ends.
pub open spec fn struct_spec(s: Seq<char>, pos: int) -> Option<(StructDecl, int)> {
    let p1 = pos + 6;
    let p2 = spaces_end(s, p1);
    let e = name_end(s, p2);
    if has_word(s, pos, seq!['s', 't', 'r', 'u', 'c', 't']) && p1 < p2 < e {
        let (params, p3) = opt_params_spec(s, spaces_end(s, e));
        let p4 = spaces_end(s, p3);
        if at(s, p4, ';') {
            Some((StructDecl { name: s.subrange(p2, e), params }, p4 + 1))
        } else {
            None
        }
    } else {
        None
    }
}

/// A trait declaration at `pos`, and where it ends.
pub open spec fn trait_spec(s: Seq<char>, pos: int) -> Option<(TraitDecl, int)> {
    let p1 = pos + 5;
    let p2 = spaces_end(s, p1);
    let e = name_end(s, p2);
    if has_word(s, pos, seq!['t', 'r', 'a', 'i', 't']) && p1 < p2 < e {
        let (params, p3) = opt_params_spec(s, spaces_end(s, e));
        let (supertraits, p4) = colon_bound_spec(s, p3);
        match braces_spec(s, p4) {
            Some(end) => Some(
                (
                    TraitDecl {
                        name: s.subrange(p2, e),
                        params: params_or_none(params),
                        supertraits,
                    },
                    end,
                ),
            ),
            None => None,
        }
    } else {
        None
    }
}

/// An impl declaration at `pos`, and where it ends.
pub open spec fn impl_spec(s: Seq<char>, pos: int) -> Option<(ImplDecl, int)> {
    if has_word(s, pos, seq!['i', 'm', 'p', 'l']) {
        let (params, p1) = opt_params_spec(s, spaces_end(s, pos + 4));
        match texp_spec(s, spaces_end(s, p1)) {
            None => None,
            Some((trait_expr, p2)) => {
                let p3 = spaces_end(s, p2);
                let p4 = p3 + 3;
                let p5 = spaces_end(s, p4);
                if has_word(s, p3, seq!['f', 'o', 'r']) && p4 < p5 {
                    match texp_spec(s, p5) {
                        None => None,
                        Some((target, p6)) => match braces_spec(s, p6) {
                            Some(end) => Some(
                                (
                                    ImplDecl {
                                        params: params_or_none(params),
                                        trait_expr,
                                        target,
                                    },
                                    end,
                                ),
                            ),
                            None => None,
                        },
                    }
                } else {
                    None
                }
            },
        }
    } else {
        None
    }
}

/// A declaration at `pos`, and where it ends: a struct, else a trait, else
/// an impl.
pub open spec fn decl_spec(s: Seq<char>, pos: int) -> Option<(DeclModel, int)> {
    match struct_spec(s, pos) {
        Some((d, e)) => Some((DeclModel::Struct(d), e)),
        None => match trait_spec(s, pos) {
            Some((d, e)) => Some((DeclModel::Trait(d), e)),
            None => match impl_spec(s, pos) {
                Some((d, e)) => Some((DeclModel::Impl(d), e)),
                None => None,
            },
        },
    }
}

/// The declarations from `pos` on, each followed by a line feed, added to
/// `acc`; and where they end.
pub open spec fn decls_spec(s: Seq<char>, pos: int, acc: Seq<DeclModel>) -> (Seq<DeclModel>, int)
    decreases s.len() - pos,
{
    match decl_spec(s, spaces_end(s, pos)) {
        Some((d, p1)) => if at(s, p1, '\n') {
            let p2 = spaces_end(s, p1 + 1);
            if pos < p2 <= s.len() {
                decls_spec(s, p2, acc.push(d))
            } else {
                (acc, pos)
            }
        } else {
            (acc, pos)
        },
        None => (acc, pos),
    }
}

/// The program that a text holds, if the text is a program from its first
/// character to its last.
pub open spec fn program_spec(s: Seq<char>) -> Option<Seq<DeclModel>> {
    let (decls, end) = decls_spec(s, 0, Seq::empty());
    if end == s.len() {
        Some(decls)
    } else {
        None
    }
}

/// Whether `c` is an ASCII letter or digit.
pub fn name_char(c: char) -> (b: bool)
    ensures
        b == is_name_char(c),
{
    (c >= 'a' && c <= 'z') || (c >= 'A' && c <= 'Z') || (c >= '0' && c <= '9')
}

/// Whether `c` is white space.
pub fn space_char(c: char) -> (b: bool)
    ensures
        b == is_space(c),
{
    c == ' ' || c == '\t' || c == '\r' || c == '\n'
}

/// The end of the name that starts at `pos`.
pub fn skip_name(s: &str, len: usize, pos: usize) -> (e: usize)
    requires
        len == s@.len(),
        pos <= len,
    ensures
        e == name_end(s@, pos as int),
        pos <= e <= len,
{
    let mut i = pos;
    while i < len
        invariant
            len == s@.len(),
            pos <= i <= len,
            name_end(s@, pos as int) == name_end(s@, i as int),
        decreases len - i,
    {
        if !name_char(s.get_char(i)) {
            return i;
        }
        i += 1;
    }
    i
}

/// The end of the white space that starts at `pos`.
pub fn skip_spaces(s: &str, len: usize, pos: usize) -> (e: usize)
    requires
        len == s@.len(),
        pos <= len,
    ensures
        e == spaces_end(s@, pos as int),
        pos <= e <= len,
{
    let mut i = pos;
    while i < len
        invariant
            len == s@.len(),
            pos <= i <= len,
            spaces_end(s@, pos as int) == spaces_end(s@, i as int),
        decreases len - i,
    {
        if !space_char(s.get_char(i)) {
            return i;
        }
        i += 1;
    }
    i
}

/// Whether the character `c` stands at `pos`.
pub fn peek(s: &str, len: usize, pos: usize, c: char) -> (b: bool)
    requires
        len == s@.len(),
    ensures
        b == at(s@, pos as int, c),
{
    pos < len && s.get_char(pos) == c
}

/// Whether the word `w` stands at `pos`.
pub fn peek_word(s: &str, len: usize, pos: usize, w: &str) -> (b: bool)
    requires
        len == s@.len(),
        pos <= len,
    ensures
        b == has_word(s@, pos as int, w@),
{
    let n = w.unicode_len();
    if n > len - pos {
        return false;
    }
    let mut j: usize = 0;
    while j < n
        invariant
            len == s@.len(),
            n == w@.len(),
            pos + n <= len,
            j <= n,
            forall|k: int| 0 <= k < j ==> s@[pos + k] == w@[k],
        decreases n - j,
    {
        if s.get_char(pos + j) != w.get_char(j) {
            assert(s@.subrange(pos as int, pos + n)[j as int] != w@[j as int]);
            return false;
        }
        j += 1;
    }
    assert(s@.subrange(pos as int, pos + n) =~= w@);
    true
}

/// The name between `from` and `to`.
pub fn name_at(s: &str, len: usize, from: usize, to: usize) -> (name: String)
    requires
        len == s@.len(),
        from <= to <= len,
    ensures
        name@ == s@.subrange(from as int, to as int),
{
    String::from_str(s.substring_char(from, to))
}

/// A name at `pos`, and where it ends.
pub open spec fn id_spec(s: Seq<char>, pos: int) -> Option<(Seq<char>, int)> {
    let e = name_end(s, pos);
    if 0 <= pos < e <= s.len() {
        Some((s.subrange(pos, e), e))
    } else {
        None
    }
}

/// Parses a name at `pos`: one or more ASCII letters and digits.
pub fn id(s: &str, len: usize, pos: usize) -> (res: Option<(String, usize)>)
    requires
        len == s@.len(),
        pos <= len,
    ensures
        match res {
            Some((name, e)) => id_spec(s@, pos as int) == Some((name@, e as int)) && pos < e
                <= len,
            None => id_spec(s@, pos as int) is None,
        },
{
    let e = skip_name(s, len, pos);
    if e == pos {
        None
    } else {
        Some((name_at(s, len, pos, e), e))
    }
}

/// The model of a parsed item with its end.
pub open spec fn texp_result(r: Option<(TExp, usize)>) -> Option<(TypeExpr, int)> {
    match r {
        Some((te, e)) => Some((te@, e as int)),
        None => None,
    }
}

/// The model of a parsed list of type expressions with its end.
pub open spec fn texps_result(r: Option<(Vec<TExp>, usize)>) -> Option<(Seq<TypeExpr>, int)> {
    match r {
        Some((v, e)) => Some((seq_view(v@), e as int)),
        None => None,
    }
}

/// Parses a type expression at `pos`.
pub fn t_exp(s: &str, len: usize, pos: usize) -> (res: Option<(TExp, usize)>)
    requires
        len == s@.len(),
        pos <= len,
    ensures
        texp_result(res) == texp_spec(s@, pos as int),
        res matches Some(r) ==> pos < r.1 <= len,
    decreases len - pos, 1int,
{
    let (name, e) = match id(s, len, pos) {
        Some(r) => r,
        None => {
            return None;
        },
    };
    let p1 = skip_spaces(s, len, e);
    if peek(s, len, p1, '<') {
        let p2 = skip_spaces(s, len, p1 + 1);
        match t_exp_list(s, len, p2) {
            Some((args, end)) => {
                let te = TExp { name, params: args };
                proof {
                    te.lemma_args();
                }
                return Some((te, end));
            },
            None => {},
        }
    }
    let te = TExp { name, params: Vec::new() };
    proof {
        te.lemma_args();
        assert(seq_view(te.params@) =~= Seq::<TypeExpr>::empty());
    }
    Some((te, e))
}

/// Parses type expressions separated by commas, up to and with the closing
/// `>`.
pub fn t_exp_list(s: &str, len: usize, pos: usize) -> (res: Option<(Vec<TExp>, usize)>)
    requires
        len == s@.len(),
        pos <= len,
    ensures
        texps_result(res) == texp_list_spec(s@, pos as int, Seq::empty()),
        res matches Some(r) ==> pos < r.1 <= len,
    decreases len - pos, 2int,
{
    let mut acc: Vec<TExp> = Vec::new();
    let mut cur = pos;
    assert(seq_view(acc@) =~= Seq::<TypeExpr>::empty());
    loop
        invariant
            len == s@.len(),
            pos <= cur <= len,
            texp_list_spec(s@, pos as int, Seq::empty()) == texp_list_spec(
                s@,
                cur as int,
                seq_view(acc@),
            ),
        decreases len - cur,
    {
        let ghost before = seq_view(acc@);
        match t_exp(s, len, cur) {
            None => {
                return None;
            },
            Some((te, p1)) => {
                let p2 = skip_spaces(s, len, p1);
                if peek(s, len, p2, ',') {
                    let p3 = skip_spaces(s, len, p2 + 1);
                    acc.push(te);
                    assert(seq_view(acc@) =~= before.push(te@));
                    cur = p3;
                } else if peek(s, len, p2, '>') {
                    acc.push(te);
                    assert(seq_view(acc@) =~= before.push(te@));
                    return Some((acc, p2 + 1));
                } else {
                    return None;
                }
            },
        }
    }
}

/// Parses the further terms of a bound from `pos` on and adds them to `b`.
pub fn trait_bound_tail(s: &str, len: usize, pos: usize, start: Bound) -> (res: (Bound, usize))
    requires
        len == s@.len(),
        pos <= len,
    ensures
        (res.0@, res.1 as int) == bound_tail_spec(s@, pos as int, start@),
        pos <= res.1 <= len,
{
    let ghost first = start@;
    let mut b = start;
    let mut cur = pos;
    loop
        invariant
            len == s@.len(),
            pos <= cur <= len,
            first == start@,
            bound_tail_spec(s@, pos as int, first) == bound_tail_spec(s@, cur as int, b@),
        decreases len - cur,
    {
        let ghost before = b@;
        let p1 = skip_spaces(s, len, cur);
        let plus = peek(s, len, p1, '+');
        if plus || peek(s, len, p1, '-') {
            let p = skip_spaces(s, len, p1 + 1);
            match t_exp(s, len, p) {
                Some((te, p2)) => {
                    if plus {
                        b.pos.push(te);
                        assert(seq_view(b.pos@) =~= before.positive.push(te@));
                    } else {
                        b.neg.push(te);
                        assert(seq_view(b.neg@) =~= before.negative.push(te@));
                    }
                    cur = p2;
                },
                None => {
                    return (b, cur);
                },
            }
        } else {
            return (b, cur);
        }
    }
}

/// The model of a parsed bound with its end.
pub open spec fn bound_result(r: Option<(Bound, usize)>) -> Option<(BoundExpr, int)> {
    match r {
        Some((b, e)) => Some((b@, e as int)),
        None => None,
    }
}

/// Parses a bound at `pos`: `Pos + Pos - Neg`, or `- Neg ...`.
pub fn trait_bound(s: &str, len: usize, pos: usize) -> (res: Option<(Bound, usize)>)
    requires
        len == s@.len(),
        pos <= len,
    ensures
        bound_result(res) == bound_spec(s@, pos as int),
        res matches Some(r) ==> pos < r.1 <= len,
{
    let minus = peek(s, len, pos, '-');
    let p0 = if minus {
        skip_spaces(s, len, pos + 1)
    } else {
        pos
    };
    match t_exp(s, len, p0) {
        None => None,
        Some((te, p1)) => {
            let mut b = Bound { pos: Vec::new(), neg: Vec::new() };
            let ghost empty = b@;
            assert(empty.positive =~= Seq::<TypeExpr>::empty());
            assert(empty.negative =~= Seq::<TypeExpr>::empty());
            if minus {
                b.neg.push(te);
                assert(seq_view(b.neg@) =~= empty.negative.push(te@));
            } else {
                b.pos.push(te);
                assert(seq_view(b.pos@) =~= empty.positive.push(te@));
            }
            let (b, end) = trait_bound_tail(s, len, p1, b);
            Some((b, end))
        },
    }
}

/// The model of an optional bound.
pub open spec fn opt_bound_view(b: Option<Bound>) -> Option<BoundExpr> {
    match b {
        Some(b) => Some(b@),
        None => None,
    }
}

/// Parses an optional `: bound` at `pos`.
pub fn colon_bound(s: &str, len: usize, pos: usize) -> (res: (Option<Bound>, usize))
    requires
        len == s@.len(),
        pos <= len,
    ensures
        (opt_bound_view(res.0), res.1 as int) == colon_bound_spec(s@, pos as int),
        pos <= res.1 <= len,
{
    let p1 = skip_spaces(s, len, pos);
    if peek(s, len, p1, ':') {
        let p2 = skip_spaces(s, len, p1 + 1);
        match trait_bound(s, len, p2) {
            Some((b, e)) => (Some(b), e),
            None => (None, pos),
        }
    } else {
        (None, pos)
    }
}

/// The model of a parsed parameter with its end.
pub open spec fn param_result(r: Option<(Param, usize)>) -> Option<(ParamDecl, int)> {
    match r {
        Some((p, e)) => Some((p@, e as int)),
        None => None,
    }
}

/// Parses a parameter at `pos`: `Name` or `Name: Bound`.
pub fn param(s: &str, len: usize, pos: usize) -> (res: Option<(Param, usize)>)
    requires
        len == s@.len(),
        pos <= len,
    ensures
        param_result(res) == param_spec(s@, pos as int),
        res matches Some(r) ==> pos < r.1 <= len,
{
    let (name, e) = match id(s, len, pos) {
        Some(r) => r,
        None => {
            return None;
        },
    };
    let (bound, end) = colon_bound(s, len, e);
    Some((Param { name, bound }, end))
}

/// The model of a parsed parameter list with its end.
pub open spec fn params_result(r: Option<(Vec<Param>, usize)>) -> Option<(Seq<ParamDecl>, int)> {
    match r {
        Some((v, e)) => Some((seq_view(v@), e as int)),
        None => None,
    }
}

/// Parses parameters separated by commas, up to and with the closing `>`.
pub fn param_list(s: &str, len: usize, pos: usize) -> (res: Option<(Vec<Param>, usize)>)
    requires
        len == s@.len(),
        pos <= len,
    ensures
        params_result(res) == param_list_spec(s@, pos as int, Seq::empty()),
        res matches Some(r) ==> pos < r.1 <= len,
{
    let mut acc: Vec<Param> = Vec::new();
    let mut cur = pos;
    assert(seq_view(acc@) =~= Seq::<ParamDecl>::empty());
    loop
        invariant
            len == s@.len(),
            pos <= cur <= len,
            param_list_spec(s@, pos as int, Seq::empty()) == param_list_spec(
                s@,
                cur as int,
                seq_view(acc@),
            ),
        decreases len - cur,
    {
        let ghost before = seq_view(acc@);
        match param(s, len, cur) {
            None => {
                return None;
            },
            Some((p, p1)) => {
                let p2 = skip_spaces(s, len, p1);
                if peek(s, len, p2, ',') {
                    let p3 = skip_spaces(s, len, p2 + 1);
                    acc.push(p);
                    assert(seq_view(acc@) =~= before.push(p@));
                    cur = p3;
                } else if peek(s, len, p2, '>') {
                    acc.push(p);
                    assert(seq_view(acc@) =~= before.push(p@));
                    return Some((acc, p2 + 1));
                } else {
                    return None;
                }
            },
        }
    }
}

/// Parses a parameter list in angle brackets at `pos`.
pub fn params(s: &str, len: usize, pos: usize) -> (res: Option<(Vec<Param>, usize)>)
    requires
        len == s@.len(),
        pos <= len,
    ensures
        params_result(res) == params_spec(s@, pos as int),
        res matches Some(r) ==> pos < r.1 <= len,
{
    if !peek(s, len, pos, '<') {
        return None;
    }
    let p1 = skip_spaces(s, len, pos + 1);
    if peek(s, len, p1, '>') {
        let v: Vec<Param> = Vec::new();
        assert(seq_view(v@) =~= Seq::<ParamDecl>::empty());
        Some((v, p1 + 1))
    } else {
        param_list(s, len, p1)
    }
}

/// The model of an optional parameter list.
pub open spec fn opt_params_view(ps: Option<Vec<Param>>) -> Option<Seq<ParamDecl>> {
    match ps {
        Some(ps) => Some(seq_view(ps@)),
        None => None,
    }
}

/// Parses an optional parameter list at `pos`.
pub fn opt_params(s: &str, len: usize, pos: usize) -> (res: (Option<Vec<Param>>, usize))
    requires
        len == s@.len(),
        pos <= len,
    ensures
        (opt_params_view(res.0), res.1 as int) == opt_params_spec(s@, pos as int),
        pos <= res.1 <= len,
{
    match params(s, len, pos) {
        Some((ps, e)) => (Some(ps), e),
        None => (None, pos),
    }
}

/// The parameters of an optional list; none where there is no list.
pub fn unwrap_params(ps: Option<Vec<Param>>) -> (res: Vec<Param>)
    ensures
        seq_view(res@) == params_or_none(opt_params_view(ps)),
{
    match ps {
        Some(ps) => ps,
        None => {
            let v: Vec<Param> = Vec::new();
            assert(seq_view(v@) =~= Seq::<ParamDecl>::empty());
            v
        },
    }
}

/// Parses `{ }` at `pos`, white space allowed before and between.
pub fn braces(s: &str, len: usize, pos: usize) -> (res: Option<usize>)
    requires
        len == s@.len(),
        pos <= len,
    ensures
        match res {
            Some(e) => braces_spec(s@, pos as int) == Some(e as int) && pos < e <= len,
            None => braces_spec(s@, pos as int) is None,
        },
{
    let p1 = skip_spaces(s, len, pos);
    if !peek(s, len, p1, '{') {
        return None;
    }
    let p2 = skip_spaces(s, len, p1 + 1);
    if !peek(s, len, p2, '}') {
        return None;
    }
    Some(p2 + 1)
}

/// Parses a struct declaration at `pos`: `struct Name<Params>;`.
pub fn struct_def(s: &str, len: usize, pos: usize) -> (res: Option<(Struct, usize)>)
    requires
        len == s@.len(),
        pos <= len,
    ensures
        match res {
            Some((d, e)) => struct_spec(s@, pos as int) == Some((d@, e as int)) && pos < e <= len,
            None => struct_spec(s@, pos as int) is None,
        },
{
    proof {
        reveal_strlit("struct");
        assert("struct"@ =~= seq!['s', 't', 'r', 'u', 'c', 't']);
    }
    if !peek_word(s, len, pos, "struct") {
        return None;
    }
    let p1 = pos + 6;
    let p2 = skip_spaces(s, len, p1);
    if p2 == p1 {
        return None;
    }
    let (name, e) = match id(s, len, p2) {
        Some(r) => r,
        None => {
            return None;
        },
    };
    let q = skip_spaces(s, len, e);
    let (params, p3) = opt_params(s, len, q);
    let p4 = skip_spaces(s, len, p3);
    if !peek(s, len, p4, ';') {
        return None;
    }
    Some((Struct { name, params }, p4 + 1))
}

/// Parses a trait declaration at `pos`: `trait Name<Params>: Bound {}`.
pub fn trait_def(s: &str, len: usize, pos: usize) -> (res: Option<(Trait, usize)>)
    requires
        len == s@.len(),
        pos <= len,
    ensures
        match res {
            Some((d, e)) => trait_spec(s@, pos as int) == Some((d@, e as int)) && pos < e <= len,
            None => trait_spec(s@, pos as int) is None,
        },
{
    proof {
        reveal_strlit("trait");
        assert("trait"@ =~= seq!['t', 'r', 'a', 'i', 't']);
    }
    if !peek_word(s, len, pos, "trait") {
        return None;
    }
    let p1 = pos + 5;
    let p2 = skip_spaces(s, len, p1);
    if p2 == p1 {
        return None;
    }
    let (name, e) = match id(s, len, p2) {
        Some(r) => r,
        None => {
            return None;
        },
    };
    let q = skip_spaces(s, len, e);
    let (params, p3) = opt_params(s, len, q);
    let (supertraits, p4) = colon_bound(s, len, p3);
    match braces(s, len, p4) {
        Some(end) => Some((Trait { name, params: unwrap_params(params), supertraits }, end)),
        None => None,
    }
}

/// Parses an impl declaration at `pos`: `impl<Params> Trait for Type {}`.
pub fn impl_def(s: &str, len: usize, pos: usize) -> (res: Option<(Impl, usize)>)
    requires
        len == s@.len(),
        pos <= len,
    ensures
        match res {
            Some((d, e)) => impl_spec(s@, pos as int) == Some((d@, e as int)) && pos < e <= len,
            None => impl_spec(s@, pos as int) is None,
        },
{
    proof {
        reveal_strlit("impl");
        reveal_strlit("for");
        assert("impl"@ =~= seq!['i', 'm', 'p', 'l']);
        assert("for"@ =~= seq!['f', 'o', 'r']);
    }
    if !peek_word(s, len, pos, "impl") {
        return None;
    }
    let q = skip_spaces(s, len, pos + 4);
    let (params, p1) = opt_params(s, len, q);
    let q1 = skip_spaces(s, len, p1);
    let (trait_exp, p2) = match t_exp(s, len, q1) {
        Some(r) => r,
        None => {
            return None;
        },
    };
    let p3 = skip_spaces(s, len, p2);
    if !peek_word(s, len, p3, "for") {
        return None;
    }
    let p4 = p3 + 3;
    let p5 = skip_spaces(s, len, p4);
    if p5 == p4 {
        return None;
    }
    let (impl_for, p6) = match t_exp(s, len, p5) {
        Some(r) => r,
        None => {
            return None;
        },
    };
    match braces(s, len, p6) {
        Some(end) => Some((Impl { params: unwrap_params(params), trait_exp, impl_for }, end)),
        None => None,
    }
}

/// Parses a declaration at `pos`: a struct, else a trait, else an impl.
pub fn decl(s: &str, len: usize, pos: usize) -> (res: Option<(Decl, usize)>)
    requires
        len == s@.len(),
        pos <= len,
    ensures
        match res {
            Some((d, e)) => decl_spec(s@, pos as int) == Some((d@, e as int)) && pos < e <= len,
            None => decl_spec(s@, pos as int) is None,
        },
{
    match struct_def(s, len, pos) {
        Some((d, e)) => Some((Decl::Struct(d), e)),
        None => match trait_def(s, len, pos) {
            Some((d, e)) => Some((Decl::Trait(d), e)),
            None => match impl_def(s, len, pos) {
                Some((d, e)) => Some((Decl::Impl(d), e)),
                None => None,
            },
        },
    }
}

/// The model of an optional program.
pub open spec fn program_view(p: Option<Program>) -> Option<Seq<DeclModel>> {
    match p {
        Some(p) => Some(p@),
        None => None,
    }
}

/// Parses a program: declarations, each followed by a line feed, with white
/// space allowed before and after each. `None` where the text is not a
/// program from its first character to its last.
pub fn program(text: &str) -> (res: Option<Program>)
    ensures
        program_view(res) == program_spec(text@),
{
    let len = text.unicode_len();
    let mut acc: Vec<Decl> = Vec::new();
    let mut cur: usize = 0;
    assert(seq_view(acc@) =~= Seq::<DeclModel>::empty());
    loop
        invariant
            len == text@.len(),
            cur <= len,
            decls_spec(text@, 0, Seq::empty()) == decls_spec(text@, cur as int, seq_view(acc@)),
        decreases len - cur,
    {
        let ghost before = seq_view(acc@);
        let p0 = skip_spaces(text, len, cur);
        match decl(text, len, p0) {
            Some((d, p1)) => {
                if peek(text, len, p1, '\n') {
                    let p2 = skip_spaces(text, len, p1 + 1);
                    acc.push(d);
                    assert(seq_view(acc@) =~= before.push(d@));
                    cur = p2;
                } else {
                    return whole(acc, cur, len);
                }
            },
            None => {
                return whole(acc, cur, len);
            },
        }
    }
}

/// The declarations as a program, if they end where the text does.
fn whole(decls: Vec<Decl>, end: usize, len: usize) -> (res: Option<Program>)
    ensures
        program_view(res) == if end == len {
            Some(seq_view(decls@))
        } else {
            None
        },
{
    if end == len {
        Some(Program(decls))
    } else {
        None
    }
}

} // verus!
