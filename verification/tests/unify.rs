use coherence_check::concrete::{ConcreteBound, ConcreteTrait, ConcreteType};
use coherence_check::unifier::{UnificationResult, Unifier};

fn var(id: usize) -> ConcreteType {
    ConcreteType::Param { id, name: format!("P{}", id) }
}

fn con(name: &str, params: Vec<ConcreteType>) -> ConcreteType {
    ConcreteType::Type { name: name.to_string(), params }
}

fn tr(name: &str, params: Vec<ConcreteType>) -> ConcreteTrait {
    ConcreteTrait { name: name.to_string(), params }
}

#[test]
fn equality_of_variables_is_by_identity() {
    let a = ConcreteType::Param { id: 1, name: "X".to_string() };
    let b = ConcreteType::Param { id: 1, name: "Y".to_string() };
    let c = ConcreteType::Param { id: 2, name: "X".to_string() };
    assert!(a == b);
    assert!(a != c);
    assert!(a.identical(&b));
    assert!(!a.identical(&c));
}

#[test]
fn equality_of_constructors_reaches_as_far_as_the_shorter_list() {
    let long = con("C", vec![con("A", vec![]), con("B", vec![])]);
    let short = con("C", vec![con("A", vec![])]);
    let other = con("C", vec![con("B", vec![])]);
    assert!(long == short);
    assert!(short == long);
    assert!(short != other);
    assert!(con("C", vec![]) == long);
    assert!(con("D", vec![]) != con("C", vec![]));
    assert!(con("C", vec![]) != var(0));
    assert!(var(0) != con("C", vec![]));
    assert!(!long.identical(&short));
    assert!(long.identical(&con("C", vec![con("A", vec![]), con("B", vec![])])));
}

#[test]
fn lenient_equality_is_not_transitive() {
    let a = con("C", vec![con("A", vec![]), con("X", vec![])]);
    let b = con("C", vec![con("A", vec![])]);
    let c = con("C", vec![con("A", vec![]), con("Y", vec![])]);
    assert!(a == b);
    assert!(b == c);
    assert!(a != c);
}

#[test]
fn a_new_unifier_resolves_everything_to_itself() {
    let u = Unifier::new();
    assert_eq!(u.len(), 0);
    let t = con("C", vec![var(0), con("A", vec![])]);
    assert!(u.resolve(&t).unwrap().identical(&t));
    assert!(u.get_all_unified_params().is_empty());
}

#[test]
fn of_two_variables_the_first_is_bound_to_the_second() {
    let mut u = Unifier::new();
    assert_eq!(u.type_unify(&var(0), &var(1)), UnificationResult::Success);
    assert_eq!(u.len(), 1);
    assert!(u.get(0).unwrap().identical(&var(1)));
    assert!(u.get(1).is_none());
    assert!(u.resolve(&var(0)).unwrap().identical(&var(1)));
    assert!(u.resolve(&var(1)).unwrap().identical(&var(1)));
}

#[test]
fn a_variable_unifies_with_itself_without_a_binding() {
    let mut u = Unifier::new();
    assert_eq!(u.type_unify(&var(3), &var(3)), UnificationResult::Success);
    assert_eq!(u.len(), 0);
    assert_eq!(u.type_unify(&var(0), &var(1)), UnificationResult::Success);
    assert_eq!(u.type_unify(&var(0), &var(1)), UnificationResult::Success);
    assert_eq!(u.type_unify(&var(1), &var(0)), UnificationResult::Success);
    assert_eq!(u.len(), 1);
}

#[test]
fn a_variable_is_bound_to_a_constructor_from_either_side() {
    let a = con("A", vec![]);
    let mut u = Unifier::new();
    assert_eq!(u.type_unify(&var(0), &a), UnificationResult::Success);
    assert_eq!(u.type_unify(&a, &var(1)), UnificationResult::Success);
    assert!(u.resolve(&var(0)).unwrap().identical(&a));
    assert!(u.resolve(&var(1)).unwrap().identical(&a));
    assert_eq!(u.len(), 2);
}

#[test]
fn resolution_follows_chains_and_rebuilds_arguments() {
    let a = con("A", vec![]);
    let mut u = Unifier::new();
    assert_eq!(u.type_unify(&var(0), &var(1)), UnificationResult::Success);
    assert_eq!(u.type_unify(&var(1), &con("S", vec![var(2)])), UnificationResult::Success);
    assert_eq!(u.type_unify(&var(2), &a), UnificationResult::Success);
    let resolved = u.resolve(&con("C", vec![var(0), var(3)])).unwrap();
    let expected = con("C", vec![con("S", vec![con("A", vec![])]), var(3)]);
    assert!(resolved.identical(&expected));
}

#[test]
fn constructors_of_different_names_fail() {
    let mut u = Unifier::new();
    assert_eq!(
        u.type_unify(&con("A", vec![var(0)]), &con("B", vec![var(1)])),
        UnificationResult::Failure
    );
    assert_eq!(u.len(), 0);
}

#[test]
fn arguments_are_unified_as_far_as_the_shorter_list_reaches() {
    let mut u = Unifier::new();
    let long = con("C", vec![var(0), con("A", vec![])]);
    let short = con("C", vec![con("B", vec![])]);
    assert_eq!(u.type_unify(&long, &short), UnificationResult::Success);
    assert!(u.resolve(&var(0)).unwrap().identical(&con("B", vec![])));
    assert_eq!(u.len(), 1);
}

#[test]
fn bindings_recorded_before_a_failure_stay() {
    let mut u = Unifier::new();
    let left = tr("T", vec![var(0), con("A", vec![]), var(1)]);
    let right = tr("T", vec![con("B", vec![]), con("C", vec![]), con("D", vec![])]);
    assert_eq!(u.trait_unify(&left, &right), UnificationResult::Failure);
    assert_eq!(u.len(), 1);
    assert!(u.resolve(&var(0)).unwrap().identical(&con("B", vec![])));
    assert!(u.resolve(&var(1)).unwrap().identical(&var(1)));
}

#[test]
fn an_earlier_binding_decides_a_later_pair() {
    let mut u = Unifier::new();
    let left = con("C", vec![var(0), var(0)]);
    let right = con("C", vec![con("A", vec![]), con("B", vec![])]);
    assert_eq!(u.type_unify(&left, &right), UnificationResult::Failure);
    let mut v = Unifier::new();
    let same = con("C", vec![con("A", vec![]), con("A", vec![])]);
    assert_eq!(v.type_unify(&left, &same), UnificationResult::Success);
}

#[test]
fn traits_of_different_names_fail() {
    let mut u = Unifier::new();
    assert_eq!(
        u.trait_unify(&tr("T", vec![var(0)]), &tr("U", vec![var(1)])),
        UnificationResult::Failure
    );
    assert_eq!(u.len(), 0);
}

#[test]
fn trait_arguments_are_unified_in_turn() {
    let mut u = Unifier::new();
    let left = tr("T", vec![var(0), var(1)]);
    let right = tr("T", vec![var(2), var(3), var(4)]);
    assert_eq!(u.trait_unify(&left, &right), UnificationResult::Success);
    assert!(u.resolve(&var(0)).unwrap().identical(&var(2)));
    assert!(u.resolve(&var(1)).unwrap().identical(&var(3)));
    assert_eq!(u.len(), 2);
}

#[test]
fn a_binding_to_a_type_that_holds_the_variable_does_not_resolve() {
    let mut u = Unifier::new();
    assert_eq!(u.type_unify(&var(0), &con("S", vec![var(0)])), UnificationResult::Success);
    assert_eq!(u.len(), 1);
    assert!(u.resolve(&var(0)).is_none());
    assert!(u.resolve(&con("C", vec![var(1), var(0)])).is_none());
    assert!(u.resolve(&var(1)).is_some());
    assert_eq!(u.type_unify(&var(0), &con("A", vec![])), UnificationResult::Failure);
    assert_eq!(u.type_unify(&var(1), &var(0)), UnificationResult::Failure);
    assert_eq!(u.len(), 1);
}

#[test]
fn linked_variables_form_one_class() {
    let mut u = Unifier::new();
    assert_eq!(u.type_unify(&var(0), &var(1)), UnificationResult::Success);
    assert_eq!(u.type_unify(&var(2), &var(1)), UnificationResult::Success);
    let classes = u.get_all_unified_params();
    assert_eq!(classes.len(), 1);
    assert!(classes[0].0.is_none());
    assert_eq!(classes[0].1, vec![0, 1, 2]);
    assert_eq!(u.root_of(0), 1);
    assert_eq!(u.root_of(2), 1);
    assert_eq!(u.root_of(1), 1);
    assert_eq!(u.root_of(7), 7);
}

#[test]
fn a_chain_of_variables_is_one_class() {
    let mut u = Unifier::new();
    assert_eq!(u.type_unify(&var(0), &var(1)), UnificationResult::Success);
    assert_eq!(u.type_unify(&var(0), &var(2)), UnificationResult::Success);
    // 0 -> 1, then 1 -> 2
    assert!(u.get(1).unwrap().identical(&var(2)));
    let classes = u.get_all_unified_params();
    assert_eq!(classes.len(), 1);
    assert_eq!(classes[0].1, vec![0, 1, 2]);
}

#[test]
fn separate_links_form_separate_classes_in_binding_order() {
    let mut u = Unifier::new();
    let left = tr("T", vec![var(1), var(0)]);
    let right = tr("T", vec![var(3), var(2)]);
    assert_eq!(u.trait_unify(&left, &right), UnificationResult::Success);
    let classes = u.get_all_unified_params();
    assert_eq!(classes.len(), 2);
    assert_eq!(classes[0].1, vec![1, 3]);
    assert_eq!(classes[1].1, vec![0, 2]);
    assert!(classes[0].0.is_none());
    assert!(classes[1].0.is_none());
}

#[test]
fn a_class_carries_the_constructor_it_stands_for() {
    let a = con("A", vec![]);
    let mut u = Unifier::new();
    assert_eq!(u.type_unify(&var(0), &var(1)), UnificationResult::Success);
    assert_eq!(u.type_unify(&var(0), &a), UnificationResult::Success);
    assert_eq!(u.type_unify(&var(5), &var(6)), UnificationResult::Success);
    let classes = u.get_all_unified_params();
    assert_eq!(classes.len(), 2);
    assert!(classes[0].0.as_ref().unwrap().identical(&a));
    assert_eq!(classes[0].1, vec![0, 1]);
    assert!(classes[1].0.is_none());
    assert_eq!(classes[1].1, vec![5, 6]);
    assert!(u.anchor_of(0).unwrap().identical(&a));
    assert!(u.anchor_of(5).is_none());
}

#[test]
fn get_routes_adds_to_the_class_of_the_representative() {
    let mut u = Unifier::new();
    assert_eq!(u.type_unify(&var(0), &var(1)), UnificationResult::Success);
    let mut routes = Vec::new();
    u.get_routes(&mut routes, 1);
    u.get_routes(&mut routes, 4);
    u.get_routes(&mut routes, 0);
    u.get_routes(&mut routes, 1);
    assert_eq!(routes.len(), 2);
    assert_eq!(routes[0].1, vec![1, 0]);
    assert_eq!(routes[1].1, vec![4]);
}

#[test]
fn join_is_the_union_of_both_parts() {
    let ta = tr("TA", vec![]);
    let tb = tr("TB", vec![var(0)]);
    let tc = tr("TC", vec![]);
    let b = ConcreteBound { pos: vec![ta.clone(), tb.clone()], neg: vec![tc.clone()] };
    let c = ConcreteBound { pos: vec![tb.clone(), tc.clone(), tb.clone()], neg: vec![tc.clone()] };
    let j = ConcreteBound::join(&b, &c);
    assert_eq!(j.pos.len(), 3);
    assert!(j.pos[0].identical(&ta));
    assert!(j.pos[1].identical(&tb));
    assert!(j.pos[2].identical(&tc));
    assert_eq!(j.neg.len(), 1);
    assert!(j.neg[0].identical(&tc));
    let e = ConcreteBound::join(&ConcreteBound::new(), &ConcreteBound::new());
    assert!(e.pos.is_empty() && e.neg.is_empty());
}

#[test]
fn trait_applications_differ_by_name_arity_and_arguments() {
    assert!(tr("T", vec![var(0)]).identical(&tr("T", vec![var(0)])));
    assert!(!tr("T", vec![var(0)]).identical(&tr("T", vec![var(1)])));
    assert!(!tr("T", vec![var(0)]).identical(&tr("U", vec![var(0)])));
    assert!(!tr("T", vec![var(0)]).identical(&tr("T", vec![var(0), var(0)])));
}
