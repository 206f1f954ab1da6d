use coherence_check::checker::Checker;
use coherence_check::parser::{id, program, t_exp, trait_bound};
use coherence_check::rules::ConflictCheckResult;
use coherence_check::syntax::{Bound, Decl, Impl, Param, Program, Struct, TExp, Trait};

fn t(name: &str, params: Vec<TExp>) -> TExp {
    TExp { name: name.to_string(), params }
}

fn n(name: &str) -> TExp {
    t(name, vec![])
}

fn param(name: &str, bound: Option<Bound>) -> Param {
    Param { name: name.to_string(), bound }
}

fn decls(text: &str) -> Option<Vec<Decl>> {
    program(text).map(|p| p.0)
}

fn texp(text: &str) -> Option<(TExp, usize)> {
    t_exp(text, text.chars().count(), 0)
}

fn bound(text: &str) -> Option<(Bound, usize)> {
    trait_bound(text, text.chars().count(), 0)
}

#[test]
fn the_empty_text_is_the_empty_program() {
    assert_eq!(decls(""), Some(vec![]));
}

#[test]
fn white_space_alone_is_no_program() {
    assert_eq!(decls("\n"), None);
    assert_eq!(decls("  "), None);
}

#[test]
fn a_struct_needs_its_line_feed() {
    let a = Decl::Struct(Struct { name: "A".to_string(), params: None });
    assert_eq!(decls("struct A;\n"), Some(vec![a.clone()]));
    assert_eq!(decls("struct A;"), None);
    assert_eq!(decls("struct A; \n"), None);
    assert_eq!(decls("  \n struct \t A ;\n\n  "), Some(vec![a.clone()]));
    assert_eq!(decls("structA;\n"), None);
    assert_eq!(decls("struct ;\n"), None);
    assert_eq!(decls("struct A\n"), None);
    assert_eq!(decls("struct A_B;\n"), None);
}

#[test]
fn a_struct_may_have_parameters() {
    let with = |ps: Vec<Param>| Decl::Struct(Struct { name: "S".to_string(), params: Some(ps) });
    assert_eq!(decls("struct S<>;\n"), Some(vec![with(vec![])]));
    assert_eq!(decls("struct S< >;\n"), Some(vec![with(vec![])]));
    assert_eq!(
        decls("struct S<X, Y>;\n"),
        Some(vec![with(vec![param("X", None), param("Y", None)])])
    );
    assert_eq!(
        decls("struct S <X:TA> ;\n"),
        Some(vec![with(vec![param("X", Some(Bound { pos: vec![n("TA")], neg: vec![] }))])])
    );
    assert_eq!(decls("struct S<X,>;\n"), None);
    assert_eq!(decls("struct S<X;\n"), None);
}

#[test]
fn traits_have_parameters_and_supertraits() {
    let tr = |params: Vec<Param>, supertraits: Option<Bound>| {
        Decl::Trait(Trait { name: "T".to_string(), params, supertraits })
    };
    assert_eq!(decls("trait T {}\n"), Some(vec![tr(vec![], None)]));
    assert_eq!(decls("trait T{}\n"), Some(vec![tr(vec![], None)]));
    assert_eq!(decls("trait T { }\n"), Some(vec![tr(vec![], None)]));
    assert_eq!(decls("trait T<P> {}\n"), Some(vec![tr(vec![param("P", None)], None)]));
    assert_eq!(
        decls("trait T: TA + TB {}\n"),
        Some(vec![tr(vec![], Some(Bound { pos: vec![n("TA"), n("TB")], neg: vec![] }))])
    );
    assert_eq!(
        decls("trait T<P, Q: TA> : From<P> - TB {}\n"),
        Some(vec![tr(
            vec![param("P", None), param("Q", Some(Bound { pos: vec![n("TA")], neg: vec![] }))],
            Some(Bound { pos: vec![t("From", vec![n("P")])], neg: vec![n("TB")] })
        )])
    );
    assert_eq!(decls("trait T\n"), None);
    assert_eq!(decls("trait T: {}\n"), None);
    assert_eq!(decls("trait T {x}\n"), None);
    assert_eq!(decls("traitT {}\n"), None);
}

#[test]
fn impls_have_parameters_a_trait_and_a_target() {
    let im = |params: Vec<Param>, trait_exp: TExp, impl_for: TExp| {
        Decl::Impl(Impl { params, trait_exp, impl_for })
    };
    assert_eq!(decls("impl TF for A {}\n"), Some(vec![im(vec![], n("TF"), n("A"))]));
    assert_eq!(decls("implTF for A{}\n"), Some(vec![im(vec![], n("TF"), n("A"))]));
    assert_eq!(
        decls("impl<P: TB - TA, Q: TP<P>> TP<Q> for A {}\n"),
        Some(vec![im(
            vec![
                param("P", Some(Bound { pos: vec![n("TB")], neg: vec![n("TA")] })),
                param("Q", Some(Bound { pos: vec![t("TP", vec![n("P")])], neg: vec![] })),
            ],
            t("TP", vec![n("Q")]),
            n("A")
        )])
    );
    assert_eq!(
        decls("impl <T> From< T > for S<T , A> { }\n"),
        Some(vec![im(
            vec![param("T", None)],
            t("From", vec![n("T")]),
            t("S", vec![n("T"), n("A")])
        )])
    );
    assert_eq!(decls("impl TF forA {}\n"), None);
    assert_eq!(decls("impl TF A {}\n"), None);
    assert_eq!(decls("impl TF for {}\n"), None);
    assert_eq!(decls("impl for A {}\n"), None);
    assert_eq!(decls("impl TF for A\n"), None);
}

#[test]
fn a_type_expression_takes_its_arguments_when_they_parse() {
    assert_eq!(texp("A"), Some((n("A"), 1)));
    assert_eq!(texp("Abc9 rest"), Some((n("Abc9"), 4)));
    assert_eq!(texp("A<B>"), Some((t("A", vec![n("B")]), 4)));
    assert_eq!(
        texp("A < B<C , D> ,E >x"),
        Some((t("A", vec![t("B", vec![n("C"), n("D")]), n("E")]), 17))
    );
    assert_eq!(texp("A<B"), Some((n("A"), 1)));
    assert_eq!(texp("A <>"), Some((n("A"), 1)));
    assert_eq!(texp("A<B,>"), Some((n("A"), 1)));
    assert_eq!(texp("A<B<C>"), Some((n("A"), 1)));
    assert_eq!(texp(""), None);
    assert_eq!(texp("<A>"), None);
    assert_eq!(texp(" A"), None);
}

#[test]
fn a_bound_has_positive_and_negative_terms() {
    let b = |pos: Vec<TExp>, neg: Vec<TExp>| Bound { pos, neg };
    assert_eq!(bound("TA"), Some((b(vec![n("TA")], vec![]), 2)));
    assert_eq!(bound("TA + TB"), Some((b(vec![n("TA"), n("TB")], vec![]), 7)));
    assert_eq!(
        bound("TA+TB<X> - TC -TD"),
        Some((b(vec![n("TA"), t("TB", vec![n("X")])], vec![n("TC"), n("TD")]), 17))
    );
    assert_eq!(bound("-TA"), Some((b(vec![], vec![n("TA")]), 3)));
    assert_eq!(bound("- TA + TB"), Some((b(vec![n("TB")], vec![n("TA")]), 9)));
    assert_eq!(bound("TA - TB + TC"), Some((b(vec![n("TA"), n("TC")], vec![n("TB")]), 12)));
    assert_eq!(bound("TA + "), Some((b(vec![n("TA")], vec![]), 2)));
    assert_eq!(bound("TA +, TB"), Some((b(vec![n("TA")], vec![]), 2)));
    assert_eq!(bound("+ TA"), None);
    assert_eq!(bound("-"), None);
}

#[test]
fn a_name_is_made_of_letters_and_digits() {
    assert_eq!(id("abc", 3, 0), Some(("abc".to_string(), 3)));
    assert_eq!(id("a1B2-", 5, 0), Some(("a1B2".to_string(), 4)));
    assert_eq!(id("x yz", 4, 2), Some(("yz".to_string(), 4)));
    assert_eq!(id("-a", 2, 0), None);
    assert_eq!(id("a", 1, 1), None);
    assert_eq!(id("", 0, 0), None);
}

#[test]
fn positions_count_characters() {
    assert_eq!(texp("A\u{e9}"), Some((n("A"), 1)));
    assert_eq!(decls("struct \u{e9};\n"), None);
    assert_eq!(decls("struct A;\n\u{e9}"), None);
}

#[test]
fn text_after_the_last_declaration_is_refused() {
    assert_eq!(decls("struct A;\nstruct B;\nwhat\n"), None);
    assert_eq!(decls("struct A;\nstruct B\n"), None);
    assert_eq!(decls("struct A;\nstruct B;\n").map(|d| d.len()), Some(2));
}

const SAMPLE: &str = "struct A;
trait TA {}
trait TB {}
trait TC: TA + TB {}
trait TD {}
trait TE {}
trait TF {}
trait TP<P> {}

impl<P: TA> TP<P> for A {}
impl<P: TA + TB> TP<P> for A {}
impl<P: TC> TP<P> for A {}
impl<P: TD - TA> TP<P> for A {}
impl<P: TE + TA - TB> TP<P> for A {}
impl<P: TA, Q: TP<P>> TP<Q> for A {}
impl<P: TB - TA, Q: TP<P>> TP<Q> for A {}
impl TF for A {}
impl TF for A {}
";

#[test]
fn a_whole_program_parses_and_checks() {
    let parsed = program(SAMPLE).unwrap();
    assert_eq!(parsed.0.len(), 17);
    let out = Checker::new().check(parsed).unwrap();
    assert_eq!(out.len(), 36);
    let disjoint: Vec<(String, String)> = out
        .iter()
        .filter(|r| r.0 == ConflictCheckResult::NonConflict)
        .filter(|r| r.1.params.len() == 1 && r.2.params.len() == 1)
        .map(|r| (r.1.to_text(), r.2.to_text()))
        .collect();
    let p = |b: &str| format!("impl<P: {}> TP<P> for A", b);
    assert_eq!(
        disjoint,
        vec![
            (p("TA"), p("TD - TA")),
            (p("TA + TB"), p("TD - TA")),
            (p("TA + TB"), p("TE + TA - TB")),
            (p("TC"), p("TD - TA")),
            (p("TC"), p("TE + TA - TB")),
            (p("TD - TA"), p("TE + TA - TB")),
        ]
    );
}

#[test]
fn printed_declarations_parse_back() {
    let parsed = program(SAMPLE).unwrap();
    let mut text = String::new();
    for d in &parsed.0 {
        match d {
            Decl::Struct(s) => text.push_str(&format!("struct {};\n", s.to_text())),
            Decl::Trait(t) => {
                let params: Vec<String> = t.params.iter().map(|p| p.to_text()).collect();
                let list =
                    if params.is_empty() { String::new() } else { format!("<{}>", params.join(", ")) };
                let sup = match &t.supertraits {
                    Some(b) => format!(": {}", b.to_text()),
                    None => String::new(),
                };
                text.push_str(&format!("trait {}{}{} {{}}\n", t.name, list, sup));
            }
            Decl::Impl(i) => text.push_str(&format!("{} {{}}\n", i.to_text())),
        }
    }
    assert_eq!(program(&text), Some(Program(parsed.0.clone())));
}

#[test]
fn generic_conversions_with_a_negative_bound() {
    let text = "struct u8;
struct u16;
struct A;
trait From<I> {}
trait IntoIterator<I> {}

impl<I: IntoIterator<u8>> From<I> for A {}
impl<I: IntoIterator<u16>, T: From<u8>> From<I> for T {}
impl<I: IntoIterator<u16>, T: From<u16> - From<u8>> From<I> for T {}
";
    let out = Checker::new().check(program(text).unwrap()).unwrap();
    let verdicts: Vec<ConflictCheckResult> = out.iter().map(|r| r.0).collect();
    assert_eq!(
        verdicts,
        vec![
            ConflictCheckResult::Conflict,
            ConflictCheckResult::Conflict,
            ConflictCheckResult::NonConflict,
        ]
    );
}

#[test]
fn conversions_to_a_string() {
    let text = "struct String;
trait From<T> {}
trait Display {}
trait ToString {}

impl<T: Display> From<T> for String {}
impl<T: ToString> From<T> for String {}
impl<T: ToString - Display> From<T> for String {}
";
    let out = Checker::new().check(program(text).unwrap()).unwrap();
    let verdicts: Vec<ConflictCheckResult> = out.iter().map(|r| r.0).collect();
    assert_eq!(
        verdicts,
        vec![
            ConflictCheckResult::Conflict,
            ConflictCheckResult::NonConflict,
            ConflictCheckResult::Conflict,
        ]
    );
}
