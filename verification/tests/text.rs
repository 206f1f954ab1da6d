use coherence_check::checker::Checker;
use coherence_check::concrete::{ConcreteBound, ConcreteTrait, ConcreteType};
use coherence_check::env::ConflictCheckEnv;
use coherence_check::errors::CheckError;
use coherence_check::rules::ConflictCheckResult;
use coherence_check::syntax::{Bound, Decl, Impl, Param, Program, Struct, TExp, Trait};

fn t(name: &str, params: Vec<TExp>) -> TExp {
    TExp { name: name.to_string(), params }
}

fn n(name: &str) -> TExp {
    t(name, vec![])
}

fn param(name: &str, bound: Option<Bound>) -> Param {
    Param { name: name.to_string(), bound }
}

fn tr(name: &str, params: Vec<Param>, supertraits: Option<Bound>) -> Decl {
    Decl::Trait(Trait { name: name.to_string(), params, supertraits })
}

fn strukt(name: &str) -> Decl {
    Decl::Struct(Struct { name: name.to_string(), params: None })
}

fn ctr(name: &str, params: Vec<ConcreteType>) -> ConcreteTrait {
    ConcreteTrait { name: name.to_string(), params }
}

fn con(name: &str, params: Vec<ConcreteType>) -> ConcreteType {
    ConcreteType::Type { name: name.to_string(), params }
}

fn names(v: &[ConcreteTrait]) -> Vec<String> {
    let mut out: Vec<String> = v.iter().map(|t| t.to_text()).collect();
    out.sort();
    out
}

fn sample() -> Checker {
    let mut checker = Checker::new();
    let program = Program(vec![
        strukt("A"),
        strukt("B"),
        Decl::Struct(Struct { name: "S".to_string(), params: Some(vec![param("X", None)]) }),
        tr("TA", vec![], None),
        tr("TB", vec![], Some(Bound { pos: vec![n("TA")], neg: vec![] })),
        tr("TC", vec![], Some(Bound { pos: vec![n("TB"), n("TA")], neg: vec![n("TD")] })),
        tr("TD", vec![], None),
        tr("From", vec![param("X", None)], None),
        tr(
            "Into",
            vec![param("X", None), param("Y", None)],
            Some(Bound {
                pos: vec![t("From", vec![n("Y")]), t("From", vec![t("S", vec![n("A")])])],
                neg: vec![],
            }),
        ),
        tr("Bad", vec![param("X", None)], Some(Bound { pos: vec![t("From", vec![t("S", vec![n("X")])])], neg: vec![] })),
    ]);
    assert_eq!(checker.insert(program), Ok(()));
    checker
}

#[test]
fn type_expressions_print_in_surface_notation() {
    assert_eq!(n("A").to_text(), "A");
    assert_eq!(t("From", vec![n("I")]).to_text(), "From<I>");
    assert_eq!(
        t("A", vec![t("B", vec![n("C"), n("D")]), n("E")]).to_text(),
        "A<B<C, D>, E>"
    );
}

#[test]
fn bounds_print_positive_then_negative() {
    let b = Bound { pos: vec![n("TA"), t("TB", vec![n("X")])], neg: vec![n("TC"), n("TD")] };
    assert_eq!(b.to_text(), "TA + TB<X> - TC - TD");
    assert_eq!(Bound { pos: vec![n("TA")], neg: vec![] }.to_text(), "TA");
    assert_eq!(Bound { pos: vec![], neg: vec![n("TA")] }.to_text(), " - TA");
    assert_eq!(Bound { pos: vec![], neg: vec![] }.to_text(), "");
}

#[test]
fn parameters_print_with_their_bound() {
    assert_eq!(param("P", None).to_text(), "P");
    assert_eq!(
        param("P", Some(Bound { pos: vec![n("TA")], neg: vec![n("TB")] })).to_text(),
        "P: TA - TB"
    );
}

#[test]
fn impls_print_as_declared() {
    let i = Impl {
        params: vec![
            param("P", Some(Bound { pos: vec![n("TB")], neg: vec![n("TA")] })),
            param("Q", Some(Bound { pos: vec![t("TP", vec![n("P")])], neg: vec![] })),
        ],
        trait_exp: t("TP", vec![n("Q")]),
        impl_for: n("A"),
    };
    assert_eq!(i.to_text(), "impl<P: TB - TA, Q: TP<P>> TP<Q> for A");
    let plain = Impl { params: vec![], trait_exp: n("TF"), impl_for: n("A") };
    assert_eq!(plain.to_text(), "impl TF for A");
}

#[test]
fn structs_print_with_their_parameters() {
    assert_eq!(Struct { name: "A".to_string(), params: None }.to_text(), "A");
    assert_eq!(Struct { name: "A".to_string(), params: Some(vec![]) }.to_text(), "A");
    let s = Struct { name: "S".to_string(), params: Some(vec![param("X", None), param("Y", None)]) };
    assert_eq!(s.to_text(), "S<X, Y>");
    assert_eq!(s.arity(), 2);
    assert_eq!(Struct { name: "A".to_string(), params: None }.arity(), 0);
}

#[test]
fn elaborated_types_print_variables_by_name() {
    let v = ConcreteType::Param { id: 3, name: "P".to_string() };
    assert_eq!(v.to_text(), "P");
    let c = con("S", vec![v.clone(), con("A", vec![])]);
    assert_eq!(c.to_text(), "S<P, A>");
    assert_eq!(ctr("From", vec![c.clone()]).to_text(), "From<S<P, A>>");
    let b = ConcreteBound { pos: vec![ctr("TA", vec![]), ctr("TB", vec![v])], neg: vec![ctr("TC", vec![])] };
    assert_eq!(b.to_text(), "TA + TB<P> - TC");
}

#[test]
fn elaboration_gives_each_impl_variables_of_its_own() {
    let checker = sample();
    let mut env = ConflictCheckEnv::new(&checker);
    let i = Impl {
        params: vec![
            param("P", Some(Bound { pos: vec![n("TA"), n("TA")], neg: vec![n("TD")] })),
            param("Q", None),
        ],
        trait_exp: t("From", vec![n("Q")]),
        impl_for: t("S", vec![n("P")]),
    };
    let c1 = env.get_concrete_impl(&i).unwrap();
    let c2 = env.get_concrete_impl(&i).unwrap();
    let var = |id: usize, name: &str| ConcreteType::Param { id, name: name.to_string() };
    assert!(c1.trait_exp.identical(&ctr("From", vec![var(1, "Q")])));
    assert!(c1.impl_for.identical(&con("S", vec![var(0, "P")])));
    assert!(c2.trait_exp.identical(&ctr("From", vec![var(3, "Q")])));
    assert!(c2.impl_for.identical(&con("S", vec![var(2, "P")])));
    assert_eq!(env.params.len(), 4);
    assert_eq!(env.params[0].as_ref().unwrap().to_text(), "TA - TD");
    assert!(env.params[1].is_none());
    assert_eq!(env.params[2].as_ref().unwrap().to_text(), "TA - TD");
    assert!(env.params[3].is_none());
}

#[test]
fn a_later_parameter_shadows_an_earlier_one_of_the_same_name() {
    let checker = sample();
    let mut env = ConflictCheckEnv::new(&checker);
    let i = Impl {
        params: vec![param("P", None), param("P", None)],
        trait_exp: n("T"),
        impl_for: n("P"),
    };
    let c = env.get_concrete_impl(&i).unwrap();
    assert!(c.impl_for.identical(&ConcreteType::Param { id: 1, name: "P".to_string() }));
}

#[test]
fn a_failed_elaboration_hands_out_no_variable() {
    let checker = sample();
    let mut env = ConflictCheckEnv::new(&checker);
    let bad_target = Impl {
        params: vec![param("P", None), param("Q", None)],
        trait_exp: n("T"),
        impl_for: n("Nowhere"),
    };
    assert_eq!(
        env.get_concrete_impl(&bad_target).err(),
        Some(CheckError::UndefinedSymbol { name: "Nowhere".to_string() })
    );
    assert_eq!(env.params.len(), 0);
    let bad_bound = Impl {
        params: vec![
            param("P", None),
            param("Q", Some(Bound { pos: vec![t("From", vec![t("S", vec![])])], neg: vec![] })),
        ],
        trait_exp: n("T"),
        impl_for: n("A"),
    };
    assert_eq!(
        env.get_concrete_impl(&bad_bound).err(),
        Some(CheckError::Arity { name: "S".to_string(), expected: 1, found: 0 })
    );
    assert_eq!(env.params.len(), 0);
}

#[test]
fn the_positive_part_of_a_bound_fails_before_the_negative_part() {
    let checker = sample();
    let mut env = ConflictCheckEnv::new(&checker);
    let i = Impl {
        params: vec![param(
            "P",
            Some(Bound {
                pos: vec![n("TA"), t("From", vec![n("X1")])],
                neg: vec![t("From", vec![n("X2")])],
            }),
        )],
        trait_exp: n("T"),
        impl_for: n("A"),
    };
    assert_eq!(
        env.get_concrete_impl(&i).err(),
        Some(CheckError::UndefinedSymbol { name: "X1".to_string() })
    );
}

#[test]
fn direct_supertraits_replace_the_parameters_of_the_trait() {
    let checker = sample();
    let env = ConflictCheckEnv::new(&checker);
    let v = ConcreteType::Param { id: 0, name: "P".to_string() };
    assert!(env.sup(&ctr("TA", vec![])).unwrap().is_empty());
    let sups = env.sup(&ctr("TC", vec![])).unwrap();
    assert_eq!(sups.iter().map(|t| t.to_text()).collect::<Vec<_>>(), vec!["TB", "TA"]);
    let sups = env.sup(&ctr("Into", vec![con("A", vec![]), v.clone()])).unwrap();
    assert_eq!(sups.len(), 2);
    assert!(sups[0].identical(&ctr("From", vec![v.clone()])));
    assert!(sups[1].identical(&ctr("From", vec![con("S", vec![con("A", vec![])])])));
    assert_eq!(
        env.sup(&ctr("Missing", vec![])).err(),
        Some(CheckError::UndeclaredTrait { name: "Missing".to_string() })
    );
}

#[test]
fn a_parameter_nested_in_a_supertrait_argument_is_not_replaced() {
    let checker = sample();
    let env = ConflictCheckEnv::new(&checker);
    assert_eq!(
        env.sup(&ctr("Bad", vec![con("A", vec![])])).err(),
        Some(CheckError::UndefinedSymbol { name: "X".to_string() })
    );
}

#[test]
fn a_missing_argument_leaves_the_parameter_unreplaced() {
    let checker = sample();
    let env = ConflictCheckEnv::new(&checker);
    assert_eq!(
        env.sup(&ctr("Into", vec![con("A", vec![])])).err(),
        Some(CheckError::UndefinedSymbol { name: "Y".to_string() })
    );
}

#[test]
fn the_closure_holds_the_trait_and_all_it_obliges_to() {
    let checker = sample();
    let env = ConflictCheckEnv::new(&checker);
    assert_eq!(names(&env.a_d(&ctr("TA", vec![])).unwrap()), vec!["TA"]);
    assert_eq!(names(&env.a_d(&ctr("TB", vec![])).unwrap()), vec!["TA", "TB"]);
    assert_eq!(names(&env.a_d(&ctr("TC", vec![])).unwrap()), vec!["TA", "TB", "TC"]);
    let bound = ConcreteBound { pos: vec![ctr("TD", vec![]), ctr("TB", vec![])], neg: vec![] };
    assert_eq!(names(&env.a(&bound).unwrap()), vec!["TA", "TB", "TD"]);
    assert!(env.a(&ConcreteBound::new()).unwrap().is_empty());
}

#[test]
fn a_bound_that_forbids_what_it_obliges_to_cannot_be_met() {
    let checker = sample();
    let env = ConflictCheckEnv::new(&checker);
    let met = ConcreteBound { pos: vec![ctr("TB", vec![])], neg: vec![ctr("TD", vec![])] };
    assert_eq!(env.check_bound(&met), Ok(ConflictCheckResult::Conflict));
    let unmet = ConcreteBound { pos: vec![ctr("TC", vec![])], neg: vec![ctr("TD", vec![]), ctr("TA", vec![])] };
    assert_eq!(env.check_bound(&unmet), Ok(ConflictCheckResult::NonConflict));
    let only_negative = ConcreteBound { pos: vec![], neg: vec![ctr("Missing", vec![])] };
    assert_eq!(env.check_bound(&only_negative), Ok(ConflictCheckResult::Conflict));
    let undeclared = ConcreteBound { pos: vec![ctr("Missing", vec![])], neg: vec![] };
    assert_eq!(
        env.check_bound(&undeclared),
        Err(CheckError::UndeclaredTrait { name: "Missing".to_string() })
    );
}

#[test]
fn lookups_find_the_last_declaration_of_a_name() {
    let mut checker = sample();
    assert_eq!(checker.find_struct(&"S".to_string()).unwrap().arity(), 1);
    assert!(checker.find_struct(&"TA".to_string()).is_none());
    assert!(checker.find_trait(&"TA".to_string()).unwrap().supertraits.is_none());
    let again = Program(vec![
        Decl::Struct(Struct { name: "S".to_string(), params: None }),
        tr("TA", vec![], Some(Bound { pos: vec![n("TD")], neg: vec![] })),
    ]);
    assert_eq!(checker.insert(again), Ok(()));
    assert_eq!(checker.find_struct(&"S".to_string()).unwrap().arity(), 0);
    assert!(checker.find_trait(&"TA".to_string()).unwrap().supertraits.is_some());
}
