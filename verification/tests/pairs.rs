use coherence_check::checker::Checker;
use coherence_check::errors::{CheckError, PairError};
use coherence_check::rules::ConflictCheckResult;
use coherence_check::syntax::{Bound, Decl, Impl, Param, Program, Struct, TExp, Trait};

fn t(name: &str, params: Vec<TExp>) -> TExp {
    TExp { name: name.to_string(), params }
}

fn n(name: &str) -> TExp {
    t(name, vec![])
}

fn bound(pos: Vec<TExp>, neg: Vec<TExp>) -> Option<Bound> {
    Some(Bound { pos, neg })
}

fn param(name: &str, bound: Option<Bound>) -> Param {
    Param { name: name.to_string(), bound }
}

fn strukt(name: &str) -> Decl {
    Decl::Struct(Struct { name: name.to_string(), params: None })
}

fn strukt_with(name: &str, params: Vec<Param>) -> Decl {
    Decl::Struct(Struct { name: name.to_string(), params: Some(params) })
}

fn tr(name: &str, params: Vec<Param>, supertraits: Option<Bound>) -> Decl {
    Decl::Trait(Trait { name: name.to_string(), params, supertraits })
}

fn im(params: Vec<Param>, trait_exp: TExp, impl_for: TExp) -> Impl {
    Impl { params, trait_exp, impl_for }
}

fn verdicts(decls: Vec<Decl>) -> Result<Vec<ConflictCheckResult>, PairError> {
    let out = Checker::new().check(Program(decls))?;
    Ok(out.into_iter().map(|r| r.0).collect())
}

/// `impl<P: pos - neg> T<P> for A {}`
fn bounded(pos: &[&str], neg: &[&str]) -> Impl {
    im(
        vec![param(
            "P",
            bound(pos.iter().map(|s| n(s)).collect(), neg.iter().map(|s| n(s)).collect()),
        )],
        t("T", vec![n("P")]),
        n("A"),
    )
}

#[test]
fn end_to_end_scenario_yields_one_disjoint_pair() {
    let i1 = bounded(&["TA"], &[]);
    let i2 = bounded(&["TB"], &["TA"]);
    let program = Program(vec![
        strukt("A"),
        tr("TA", vec![], None),
        tr("TB", vec![], None),
        Decl::Impl(i1.clone()),
        Decl::Impl(i2.clone()),
    ]);
    let out = Checker::new().check(program).unwrap();
    assert_eq!(out.len(), 1);
    assert_eq!(out[0].0, ConflictCheckResult::NonConflict);
    assert_eq!(out[0].1, i1);
    assert_eq!(out[0].2, i2);
}

#[test]
fn direct_negative_contradiction_is_disjoint() {
    let program = vec![
        strukt("S"),
        tr("TA", vec![], None),
        tr("TB", vec![], None),
        Decl::Impl(im(
            vec![param("P", bound(vec![n("TA")], vec![]))],
            t("Trait", vec![n("P")]),
            n("S"),
        )),
        Decl::Impl(im(
            vec![param("P", bound(vec![n("TB")], vec![n("TA")]))],
            t("Trait", vec![n("P")]),
            n("S"),
        )),
    ];
    assert_eq!(verdicts(program), Ok(vec![ConflictCheckResult::NonConflict]));
}

#[test]
fn parameters_that_are_not_linked_do_not_contradict() {
    let program = vec![
        strukt("S"),
        tr("TA", vec![], None),
        tr("TB", vec![], None),
        Decl::Impl(im(vec![param("P", bound(vec![n("TA")], vec![]))], n("Trait"), n("S"))),
        Decl::Impl(im(
            vec![param("P", bound(vec![n("TB")], vec![n("TA")]))],
            n("Trait"),
            n("S"),
        )),
    ];
    assert_eq!(verdicts(program), Ok(vec![ConflictCheckResult::Conflict]));
}

#[test]
fn supertrait_mediated_contradiction_is_disjoint() {
    let program = vec![
        strukt("A"),
        tr("TA", vec![], None),
        tr("TC", vec![], bound(vec![n("TA")], vec![])),
        Decl::Impl(bounded(&["TC"], &[])),
        Decl::Impl(bounded(&[], &["TA"])),
    ];
    assert_eq!(verdicts(program), Ok(vec![ConflictCheckResult::NonConflict]));
}

#[test]
fn contradiction_through_a_chain_of_three_supertraits() {
    let program = vec![
        strukt("A"),
        tr("T0", vec![], None),
        tr("T1", vec![], bound(vec![n("T0")], vec![])),
        tr("T2", vec![], bound(vec![n("T1")], vec![])),
        tr("T3", vec![], bound(vec![n("T2")], vec![])),
        Decl::Impl(bounded(&["T3"], &[])),
        Decl::Impl(bounded(&[], &["T0"])),
    ];
    assert_eq!(verdicts(program), Ok(vec![ConflictCheckResult::NonConflict]));
}

#[test]
fn a_negative_supertrait_entry_obliges_to_nothing() {
    let program = vec![
        strukt("A"),
        tr("TA", vec![], None),
        tr("TC", vec![], bound(vec![], vec![n("TA")])),
        Decl::Impl(bounded(&["TC"], &[])),
        Decl::Impl(bounded(&[], &["TA"])),
    ];
    assert_eq!(verdicts(program), Ok(vec![ConflictCheckResult::Conflict]));
}

#[test]
fn verdict_does_not_depend_on_declaration_order() {
    let head = vec![
        strukt("A"),
        tr("TA", vec![], None),
        tr("TB", vec![], None),
        tr("TC", vec![], bound(vec![n("TA"), n("TB")], vec![])),
    ];
    let impls = vec![
        bounded(&["TA"], &[]),
        bounded(&["TC"], &[]),
        bounded(&["TB"], &["TA"]),
        bounded(&[], &[]),
        im(vec![], t("T", vec![n("A")]), n("A")),
    ];
    for i in 0..impls.len() {
        for j in 0..impls.len() {
            if i == j {
                continue;
            }
            let mut forth = head.clone();
            forth.push(Decl::Impl(impls[i].clone()));
            forth.push(Decl::Impl(impls[j].clone()));
            let mut back = head.clone();
            back.push(Decl::Impl(impls[j].clone()));
            back.push(Decl::Impl(impls[i].clone()));
            assert_eq!(verdicts(forth), verdicts(back));
        }
    }
}

#[test]
fn identical_impls_without_parameters_overlap() {
    let program = vec![
        strukt("A"),
        tr("TF", vec![], None),
        Decl::Impl(im(vec![], n("TF"), n("A"))),
        Decl::Impl(im(vec![], n("TF"), n("A"))),
    ];
    assert_eq!(verdicts(program), Ok(vec![ConflictCheckResult::Conflict]));
}

#[test]
fn identical_ground_impls_with_arguments_overlap() {
    let program = vec![
        strukt("A"),
        strukt_with("B", vec![param("X", None), param("Y", None)]),
        Decl::Impl(im(
            vec![],
            t("T", vec![t("B", vec![n("A"), n("A")])]),
            t("B", vec![n("A"), t("B", vec![n("A"), n("A")])]),
        )),
        Decl::Impl(im(
            vec![],
            t("T", vec![t("B", vec![n("A"), n("A")])]),
            t("B", vec![n("A"), t("B", vec![n("A"), n("A")])]),
        )),
    ];
    assert_eq!(verdicts(program), Ok(vec![ConflictCheckResult::Conflict]));
}

#[test]
fn different_target_structs_are_disjoint() {
    let program = vec![
        strukt("A"),
        strukt("B"),
        tr("TA", vec![], None),
        Decl::Impl(im(vec![param("P", bound(vec![n("TA")], vec![]))], t("T", vec![n("P")]), n("A"))),
        Decl::Impl(im(vec![param("P", bound(vec![n("TA")], vec![]))], t("T", vec![n("P")]), n("B"))),
    ];
    assert_eq!(verdicts(program), Ok(vec![ConflictCheckResult::NonConflict]));
}

#[test]
fn different_trait_names_are_disjoint() {
    let program = vec![
        strukt("A"),
        Decl::Impl(im(vec![], n("T1"), n("A"))),
        Decl::Impl(im(vec![], n("T2"), n("A"))),
    ];
    assert_eq!(verdicts(program), Ok(vec![ConflictCheckResult::NonConflict]));
}

#[test]
fn different_ground_trait_arguments_are_disjoint() {
    let program = vec![
        strukt("A"),
        strukt("B"),
        strukt("S"),
        Decl::Impl(im(vec![], t("T", vec![n("A")]), n("S"))),
        Decl::Impl(im(vec![], t("T", vec![n("B")]), n("S"))),
    ];
    assert_eq!(verdicts(program), Ok(vec![ConflictCheckResult::NonConflict]));
}

#[test]
fn parameters_without_bound_overlap() {
    let program = vec![
        strukt("A"),
        Decl::Impl(im(vec![param("P", None)], t("T", vec![n("P")]), n("A"))),
        Decl::Impl(im(vec![param("Q", None)], t("T", vec![n("Q")]), n("A"))),
    ];
    assert_eq!(verdicts(program), Ok(vec![ConflictCheckResult::Conflict]));
}

#[test]
fn a_member_without_bound_leaves_nothing_to_contradict() {
    let program = vec![
        strukt("A"),
        tr("TA", vec![], None),
        Decl::Impl(im(
            vec![param("P", bound(vec![n("TA")], vec![n("TA")]))],
            t("T", vec![n("P")]),
            n("A"),
        )),
        Decl::Impl(im(vec![param("Q", None)], t("T", vec![n("Q")]), n("A"))),
    ];
    assert_eq!(verdicts(program), Ok(vec![ConflictCheckResult::Conflict]));
}

#[test]
fn a_class_that_stands_for_a_struct_overlaps() {
    let program = vec![
        strukt("A"),
        tr("TA", vec![], None),
        Decl::Impl(im(
            vec![param("P", bound(vec![n("TA")], vec![n("TA")]))],
            t("T", vec![n("P")]),
            n("A"),
        )),
        Decl::Impl(im(vec![], t("T", vec![n("A")]), n("A"))),
    ];
    assert_eq!(verdicts(program), Ok(vec![ConflictCheckResult::Conflict]));
}

#[test]
fn an_unsatisfiable_class_after_an_anchored_one_is_found() {
    let program = vec![
        strukt("A"),
        tr("TA", vec![], None),
        tr("TB", vec![], None),
        Decl::Impl(im(
            vec![param("P", None), param("Q", bound(vec![n("TA")], vec![]))],
            t("T", vec![n("P"), n("Q")]),
            n("A"),
        )),
        Decl::Impl(im(
            vec![param("R", bound(vec![n("TB")], vec![n("TA")]))],
            t("T", vec![n("A"), n("R")]),
            n("A"),
        )),
    ];
    assert_eq!(verdicts(program), Ok(vec![ConflictCheckResult::NonConflict]));
}

#[test]
fn a_self_contradicting_impl_is_disjoint_from_a_bounded_one() {
    let program = vec![
        strukt("A"),
        tr("TA", vec![], None),
        tr("TB", vec![], None),
        Decl::Impl(bounded(&["TA"], &["TA"])),
        Decl::Impl(bounded(&["TB"], &[])),
    ];
    assert_eq!(verdicts(program), Ok(vec![ConflictCheckResult::NonConflict]));
}

#[test]
fn same_parameter_on_both_sides_twice() {
    let program = vec![
        strukt("A"),
        Decl::Impl(im(vec![param("P", None)], t("T", vec![n("P")]), n("P"))),
        Decl::Impl(im(vec![param("Q", None)], t("T", vec![n("Q")]), n("Q"))),
    ];
    assert_eq!(verdicts(program), Ok(vec![ConflictCheckResult::Conflict]));
}

#[test]
fn bindings_that_do_not_end_fail_to_unify() {
    let s = |x: TExp| t("S", vec![x]);
    let program = vec![
        strukt_with("S", vec![param("X", None)]),
        strukt("A"),
        Decl::Impl(im(
            vec![param("P", None)],
            t("T", vec![n("P"), n("P"), n("P")]),
            n("A"),
        )),
        Decl::Impl(im(
            vec![param("Q", None)],
            t("T", vec![s(n("Q")), n("Q"), n("Q")]),
            n("A"),
        )),
    ];
    assert_eq!(verdicts(program), Ok(vec![ConflictCheckResult::NonConflict]));
}

#[test]
fn a_cycle_that_is_never_followed_does_not_matter() {
    let s = |x: TExp| t("S", vec![x]);
    let program = vec![
        strukt_with("S", vec![param("X", None)]),
        strukt("A"),
        Decl::Impl(im(vec![param("P", None)], t("T", vec![n("P"), n("P")]), n("A"))),
        Decl::Impl(im(vec![param("Q", None)], t("T", vec![s(n("Q")), n("Q")]), n("A"))),
    ];
    assert_eq!(verdicts(program), Ok(vec![ConflictCheckResult::Conflict]));
}

#[test]
fn extra_trait_arguments_are_ignored() {
    let program = vec![
        strukt("A"),
        strukt("B"),
        Decl::Impl(im(vec![], t("T", vec![n("A"), n("B")]), n("A"))),
        Decl::Impl(im(vec![], t("T", vec![n("A")]), n("A"))),
    ];
    assert_eq!(verdicts(program), Ok(vec![ConflictCheckResult::Conflict]));
}

#[test]
fn pairs_come_in_declaration_order() {
    let a = im(vec![], n("T"), n("A"));
    let b = im(vec![], n("T"), n("B"));
    let c = im(vec![], n("U"), n("A"));
    let d = im(vec![], n("T"), n("A"));
    let program = Program(vec![
        strukt("A"),
        Decl::Impl(a.clone()),
        strukt("B"),
        Decl::Impl(b.clone()),
        Decl::Impl(c.clone()),
        Decl::Impl(d.clone()),
    ]);
    let out = Checker::new().check(program).unwrap();
    let x = ConflictCheckResult::NonConflict;
    let o = ConflictCheckResult::Conflict;
    assert_eq!(
        out,
        vec![
            (x, a.clone(), b.clone()),
            (x, a.clone(), c.clone()),
            (o, a.clone(), d.clone()),
            (x, b.clone(), c.clone()),
            (x, b.clone(), d.clone()),
            (x, c.clone(), d.clone()),
        ]
    );
}

#[test]
fn no_impls_no_pairs() {
    assert_eq!(verdicts(vec![]), Ok(vec![]));
    assert_eq!(verdicts(vec![strukt("A"), Decl::Impl(im(vec![], n("T"), n("A")))]), Ok(vec![]));
}

#[test]
fn every_pair_of_a_larger_program() {
    let p = |pos: &[&str], neg: &[&str]| {
        im(
            vec![param(
                "P",
                bound(pos.iter().map(|s| n(s)).collect(), neg.iter().map(|s| n(s)).collect()),
            )],
            t("TP", vec![n("P")]),
            n("A"),
        )
    };
    let q = |pos: &[&str], neg: &[&str]| {
        im(
            vec![
                param(
                    "P",
                    bound(pos.iter().map(|s| n(s)).collect(), neg.iter().map(|s| n(s)).collect()),
                ),
                param("Q", bound(vec![t("TP", vec![n("P")])], vec![])),
            ],
            t("TP", vec![n("Q")]),
            n("A"),
        )
    };
    let program = vec![
        strukt("A"),
        tr("TA", vec![], None),
        tr("TB", vec![], None),
        tr("TC", vec![], bound(vec![n("TA"), n("TB")], vec![])),
        tr("TD", vec![], None),
        tr("TE", vec![], None),
        tr("TF", vec![], None),
        tr("TP", vec![param("P", None)], None),
        Decl::Impl(p(&["TA"], &[])),
        Decl::Impl(p(&["TA", "TB"], &[])),
        Decl::Impl(p(&["TC"], &[])),
        Decl::Impl(p(&["TD"], &["TA"])),
        Decl::Impl(p(&["TE", "TA"], &["TB"])),
        Decl::Impl(q(&["TA"], &[])),
        Decl::Impl(q(&["TB"], &["TA"])),
        Decl::Impl(im(vec![], n("TF"), n("A"))),
        Decl::Impl(im(vec![], n("TF"), n("A"))),
    ];
    let x = ConflictCheckResult::NonConflict;
    let o = ConflictCheckResult::Conflict;
    let expected = vec![
        // 0 with 1..8
        o, o, x, o, o, o, x, x,
        // 1 with 2..8
        o, x, x, o, o, x, x,
        // 2 with 3..8
        x, x, o, o, x, x,
        // 3 with 4..8
        x, o, o, x, x,
        // 4 with 5..8
        o, o, x, x,
        // 5 with 6..8
        o, x, x,
        // 6 with 7..8
        x, x,
        // 7 with 8
        o,
    ];
    assert_eq!(verdicts(program), Ok(expected));
}

#[test]
fn unknown_target_is_an_undefined_symbol() {
    let program = vec![
        strukt("A"),
        Decl::Impl(im(vec![], n("T"), n("A"))),
        Decl::Impl(im(vec![], n("T"), n("B"))),
    ];
    assert_eq!(
        verdicts(program),
        Err(PairError {
            first: 0,
            second: 1,
            error: CheckError::UndefinedSymbol { name: "B".to_string() },
        })
    );
}

#[test]
fn a_parameter_is_not_in_scope_of_its_own_bound() {
    let program = vec![
        strukt("A"),
        tr("TA", vec![param("X", None)], None),
        Decl::Impl(im(
            vec![param("P", bound(vec![t("TA", vec![n("P")])], vec![]))],
            t("T", vec![n("P")]),
            n("A"),
        )),
        Decl::Impl(im(vec![], n("T"), n("A"))),
    ];
    assert_eq!(
        verdicts(program),
        Err(PairError {
            first: 0,
            second: 1,
            error: CheckError::UndefinedSymbol { name: "P".to_string() },
        })
    );
}

#[test]
fn wrong_number_of_arguments_is_an_arity_error() {
    let program = vec![
        strukt("A"),
        strukt_with("B", vec![param("X", None)]),
        Decl::Impl(im(vec![], n("T"), n("A"))),
        Decl::Impl(im(vec![], n("T"), n("A"))),
        Decl::Impl(im(vec![], n("T"), t("B", vec![n("A"), n("A")]))),
    ];
    assert_eq!(
        verdicts(program),
        Err(PairError {
            first: 0,
            second: 2,
            error: CheckError::Arity { name: "B".to_string(), expected: 1, found: 2 },
        })
    );
}

#[test]
fn arguments_on_a_struct_without_parameters_are_an_arity_error() {
    let program = vec![
        strukt("A"),
        Decl::Impl(im(vec![], n("T"), t("A", vec![n("A")]))),
        Decl::Impl(im(vec![], n("T"), n("A"))),
    ];
    assert_eq!(
        verdicts(program),
        Err(PairError {
            first: 0,
            second: 1,
            error: CheckError::Arity { name: "A".to_string(), expected: 0, found: 1 },
        })
    );
}

#[test]
fn a_bound_on_an_undeclared_trait_fails_when_its_closure_is_needed() {
    let program = vec![
        strukt("A"),
        tr("TA", vec![], None),
        Decl::Impl(bounded(&["TA"], &[])),
        Decl::Impl(bounded(&["TA"], &[])),
        Decl::Impl(bounded(&["TZ"], &[])),
    ];
    assert_eq!(
        verdicts(program),
        Err(PairError {
            first: 0,
            second: 2,
            error: CheckError::UndeclaredTrait { name: "TZ".to_string() },
        })
    );
}

#[test]
fn an_undeclared_trait_that_is_never_closed_over_is_accepted() {
    let program = vec![
        strukt("A"),
        Decl::Impl(im(vec![param("P", bound(vec![n("TZ")], vec![]))], n("T"), n("A"))),
        Decl::Impl(im(vec![], n("T"), n("A"))),
    ];
    assert_eq!(verdicts(program), Ok(vec![ConflictCheckResult::Conflict]));
}

#[test]
fn an_undeclared_supertrait_fails() {
    let program = vec![
        strukt("A"),
        tr("TC", vec![], bound(vec![n("TZ")], vec![])),
        Decl::Impl(bounded(&["TC"], &[])),
        Decl::Impl(bounded(&["TC"], &[])),
    ];
    assert_eq!(
        verdicts(program),
        Err(PairError {
            first: 0,
            second: 1,
            error: CheckError::UndeclaredTrait { name: "TZ".to_string() },
        })
    );
}

#[test]
fn supertraits_that_reach_themselves_are_an_error() {
    let program = vec![
        strukt("A"),
        tr("TA", vec![], bound(vec![n("TB")], vec![])),
        tr("TB", vec![], bound(vec![n("TA")], vec![])),
        Decl::Impl(bounded(&["TA"], &[])),
        Decl::Impl(bounded(&["TA"], &[])),
    ];
    assert_eq!(
        verdicts(program),
        Err(PairError {
            first: 0,
            second: 1,
            error: CheckError::CyclicSupertraits { name: "TA".to_string() },
        })
    );
}

#[test]
fn the_longest_chain_without_a_cycle_is_accepted() {
    let program = vec![
        strukt("A"),
        tr("T2", vec![], bound(vec![n("T1")], vec![])),
        tr("T1", vec![], bound(vec![n("T0")], vec![])),
        tr("T0", vec![], None),
        Decl::Impl(bounded(&["T2"], &[])),
        Decl::Impl(bounded(&["T2"], &["T0"])),
    ];
    assert_eq!(verdicts(program), Ok(vec![ConflictCheckResult::NonConflict]));
}

#[test]
fn the_later_struct_declaration_counts() {
    let program = vec![
        strukt("A"),
        strukt_with("A", vec![param("X", None)]),
        strukt("B"),
        Decl::Impl(im(vec![], n("T"), t("A", vec![n("B")]))),
        Decl::Impl(im(vec![], n("T"), t("A", vec![n("B")]))),
    ];
    assert_eq!(verdicts(program), Ok(vec![ConflictCheckResult::Conflict]));
}

#[test]
fn the_later_trait_declaration_counts() {
    let program = vec![
        strukt("A"),
        tr("TA", vec![], None),
        tr("TC", vec![], bound(vec![n("TA")], vec![])),
        tr("TC", vec![], None),
        Decl::Impl(bounded(&["TC"], &[])),
        Decl::Impl(bounded(&[], &["TA"])),
    ];
    assert_eq!(verdicts(program), Ok(vec![ConflictCheckResult::Conflict]));
}

#[test]
fn supertrait_arguments_follow_the_application() {
    // trait Into<X>: From<X>; P: Into<A> against P: -From<A> contradicts,
    // against P: -From<B> it does not.
    let head = vec![
        strukt("A"),
        strukt("B"),
        strukt("S"),
        tr("From", vec![param("X", None)], None),
        tr("Into", vec![param("X", None)], bound(vec![t("From", vec![n("X")])], vec![])),
    ];
    let into_a = im(
        vec![param("P", bound(vec![t("Into", vec![n("A")])], vec![]))],
        t("T", vec![n("P")]),
        n("S"),
    );
    let not_from = |x: &str| {
        im(
            vec![param("P", bound(vec![], vec![t("From", vec![n(x)])]))],
            t("T", vec![n("P")]),
            n("S"),
        )
    };
    let mut first = head.clone();
    first.push(Decl::Impl(into_a.clone()));
    first.push(Decl::Impl(not_from("A")));
    assert_eq!(verdicts(first), Ok(vec![ConflictCheckResult::NonConflict]));
    let mut second = head.clone();
    second.push(Decl::Impl(into_a));
    second.push(Decl::Impl(not_from("B")));
    assert_eq!(verdicts(second), Ok(vec![ConflictCheckResult::Conflict]));
}

#[test]
fn insert_keeps_earlier_declarations() {
    let mut checker = Checker::new();
    assert_eq!(checker.insert(Program(vec![strukt("A")])), Ok(()));
    let first = checker.check(Program(vec![Decl::Impl(im(vec![], n("T"), n("A")))])).unwrap();
    assert_eq!(first.len(), 0);
    let second = checker.check(Program(vec![Decl::Impl(im(vec![], n("T"), n("A")))])).unwrap();
    assert_eq!(second.len(), 1);
    assert_eq!(second[0].0, ConflictCheckResult::Conflict);
    assert_eq!(checker.structs.len(), 1);
    assert_eq!(checker.impls.len(), 2);
}

#[test]
fn symmetry_over_a_family_of_impls() {
    let head = vec![
        strukt("A"),
        strukt("B"),
        strukt_with("S", vec![param("X", None)]),
        tr("TA", vec![], None),
        tr("TB", vec![], None),
        tr("TC", vec![], bound(vec![n("TA"), n("TB")], vec![])),
        tr("TL", vec![], bound(vec![n("TL")], vec![])),
        tr("TG", vec![param("X", None)], bound(vec![n("TA")], vec![])),
    ];
    let bounds: Vec<Option<Bound>> = vec![
        None,
        bound(vec![n("TA")], vec![]),
        bound(vec![n("TB")], vec![n("TA")]),
        bound(vec![n("TC")], vec![]),
        bound(vec![], vec![n("TB")]),
        bound(vec![n("TZ")], vec![]),
        bound(vec![n("TL")], vec![n("TA")]),
        bound(vec![t("TG", vec![n("A")])], vec![n("TA")]),
    ];
    let shapes: Vec<(Vec<TExp>, TExp)> = vec![
        (vec![n("P"), n("Q")], n("A")),
        (vec![n("P"), n("P")], n("A")),
        (vec![n("Q"), n("P")], n("P")),
        (vec![n("A"), n("Q")], n("Q")),
        (vec![t("S", vec![n("P")]), n("P")], n("A")),
        (vec![t("S", vec![n("Q")]), n("P"), n("Q")], n("B")),
        (vec![n("P"), t("S", vec![n("P")]), n("P")], t("S", vec![n("Q")])),
        (vec![n("P")], t("S", vec![t("S", vec![n("Q")])])),
    ];
    let mut impls = Vec::new();
    for (k, (args, target)) in shapes.iter().enumerate() {
        for i in 0..bounds.len() {
            let j = (i * 3 + k) % bounds.len();
            impls.push(im(
                vec![param("P", bounds[i].clone()), param("Q", bounds[j].clone())],
                t("T", args.clone()),
                target.clone(),
            ));
        }
    }
    let mut overlaps = 0;
    let mut disjoint = 0;
    let mut failed = 0;
    for a in 0..impls.len() {
        for b in (a + 1)..impls.len() {
            let mut forth = head.clone();
            forth.push(Decl::Impl(impls[a].clone()));
            forth.push(Decl::Impl(impls[b].clone()));
            let mut back = head.clone();
            back.push(Decl::Impl(impls[b].clone()));
            back.push(Decl::Impl(impls[a].clone()));
            match (verdicts(forth), verdicts(back)) {
                (Ok(x), Ok(y)) => {
                    assert_eq!(x, y);
                    if x[0] == ConflictCheckResult::Conflict {
                        overlaps += 1;
                    } else {
                        disjoint += 1;
                    }
                }
                (Err(_), Err(_)) => failed += 1,
                (x, y) => panic!("{:?} against {:?}", x, y),
            }
        }
    }
    assert!(overlaps > 0 && disjoint > 0 && failed > 0);
}
