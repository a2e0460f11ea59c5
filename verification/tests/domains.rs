use crisp::propagate::{insert_update, PropId};
use crisp::var::{BTreeSetVar, DomainUpdate, HashSetVar, VarId, VarSet, Variable};

type Var = BTreeSetVar<u8>;

#[test]
fn with_domain_keeps_distinct_values_in_order() {
    let var = Var::with_domain(&[3, 1, 2, 3, 1]);
    assert_eq!(var.size(), 3);
    assert_eq!(var.possibilities(), vec![1, 2, 3]);
    assert_eq!(var.id(), VarId { id: 0 });
    assert!(var.contains(&2));
    assert!(!var.contains(&4));
    assert_eq!(var.value(), None);
}

#[test]
fn value_of_a_ground_variable() {
    let var = Var::with_domain(&[7]);
    assert_eq!(var.value(), Some(7));
    let empty = Var::with_domain(&[]);
    assert_eq!(empty.value(), None);
    assert_eq!(empty.size(), 0);
}

#[test]
fn set_id_changes_the_handle_only() {
    let mut var = Var::with_domain(&[1, 2]);
    var.set_id(VarId { id: 5 });
    assert_eq!(var.id(), VarId { id: 5 });
    assert_eq!(var.possibilities(), vec![1, 2]);
}

#[test]
fn remove_classifies_the_change() {
    let mut var = Var::with_domain(&[1, 2, 3]);
    var.set_id(VarId { id: 4 });
    assert_eq!(var.remove(&9), Ok(DomainUpdate::Unchanged(VarId { id: 4 })));
    assert_eq!(var.possibilities(), vec![1, 2, 3]);
    assert_eq!(var.remove(&1), Ok(DomainUpdate::Reduced(VarId { id: 4 })));
    assert_eq!(var.possibilities(), vec![2, 3]);
    assert_eq!(var.remove(&3), Ok(DomainUpdate::Fixed(VarId { id: 4 })));
    assert_eq!(var.value(), Some(2));
    assert_eq!(var.remove(&2), Err(()));
    assert_eq!(var.size(), 0);
}

#[test]
fn second_remove_is_unchanged() {
    let mut var = Var::with_domain(&[1, 2, 3]);
    assert_eq!(var.remove(&2), Ok(DomainUpdate::Reduced(VarId { id: 0 })));
    assert_eq!(var.remove(&2), Ok(DomainUpdate::Unchanged(VarId { id: 0 })));
    assert_eq!(var.possibilities(), vec![1, 3]);
}

#[test]
fn instantiate_collapses_or_fails() {
    let mut var = Var::with_domain(&[1, 2, 3]);
    assert_eq!(var.instantiate(&5), Err(()));
    assert_eq!(var.possibilities(), vec![1, 2, 3]);
    assert_eq!(var.instantiate(&2), Ok(DomainUpdate::Fixed(VarId { id: 0 })));
    assert_eq!(var.possibilities(), vec![2]);
    assert_eq!(var.instantiate(&2), Ok(DomainUpdate::Unchanged(VarId { id: 0 })));
    assert_eq!(var.possibilities(), vec![2]);
    assert_eq!(var.instantiate(&1), Err(()));
    assert_eq!(var.possibilities(), vec![2]);
}

#[test]
fn duplicate_is_independent() {
    let mut var = Var::with_domain(&[1, 2, 3]);
    var.set_id(VarId { id: 2 });
    let mut copy = var.duplicate();
    assert_eq!(copy.id(), VarId { id: 2 });
    assert_eq!(copy.remove(&1), Ok(DomainUpdate::Reduced(VarId { id: 2 })));
    assert_eq!(var.possibilities(), vec![1, 2, 3]);
    assert_eq!(copy.possibilities(), vec![2, 3]);
}

#[test]
fn hash_set_variable_behaves_as_a_set() {
    let mut var = HashSetVar::<u32>::with_domain(&[10, 20, 20, 30]);
    var.set_id(VarId { id: 1 });
    assert_eq!(var.size(), 3);
    let mut all = var.possibilities();
    all.sort();
    assert_eq!(all, vec![10, 20, 30]);
    assert!(var.contains(&20));
    assert_eq!(var.value(), None);
    assert_eq!(var.remove(&40), Ok(DomainUpdate::Unchanged(VarId { id: 1 })));
    assert_eq!(var.remove(&10), Ok(DomainUpdate::Reduced(VarId { id: 1 })));
    let copy = var.duplicate();
    assert_eq!(var.instantiate(&10), Err(()));
    assert_eq!(var.instantiate(&30), Ok(DomainUpdate::Fixed(VarId { id: 1 })));
    assert_eq!(var.instantiate(&30), Ok(DomainUpdate::Unchanged(VarId { id: 1 })));
    assert_eq!(var.value(), Some(30));
    assert_eq!(var.remove(&30), Err(()));
    assert_eq!(copy.size(), 2);
    assert_eq!(copy.id(), VarId { id: 1 });
}

#[test]
fn update_names_its_variable() {
    assert_eq!(DomainUpdate::Unchanged(VarId { id: 1 }).var_id(), VarId { id: 1 });
    assert_eq!(DomainUpdate::Reduced(VarId { id: 2 }).var_id(), VarId { id: 2 });
    assert_eq!(DomainUpdate::Fixed(VarId { id: 3 }).var_id(), VarId { id: 3 });
}

#[test]
fn store_hands_out_dense_handles() {
    let mut store = VarSet::<Var>::new();
    assert_eq!(store.size(), 0);
    let a = store.create_var(&[1, 2]);
    let b = store.create_var(&[3]);
    assert_eq!(a, VarId { id: 0 });
    assert_eq!(b, VarId { id: 1 });
    assert_eq!(store.size(), 2);
    assert_eq!(store.var_id(1), b);
    assert_eq!(store.var_ids(), &vec![a, b]);
    assert_eq!(store.var(a).id(), a);
    assert_eq!(store.var(b).id(), b);
    assert_eq!(store.var(a).possibilities(), vec![1, 2]);
    assert!(store.subscriptions(a).is_empty());
    assert!(!store.check());
    assert_eq!(store.var_mut(a).remove(&1), Ok(DomainUpdate::Fixed(a)));
    assert!(store.check());
}

#[test]
fn store_set_replaces_the_domain() {
    let mut store = VarSet::<Var>::new();
    let a = store.create_var(&[1, 2, 3]);
    let b = store.create_var(&[1, 2, 3]);
    store.set(a, &9);
    assert_eq!(store.var(a).possibilities(), vec![9]);
    assert_eq!(store.var(a).id(), a);
    assert_eq!(store.var(b).possibilities(), vec![1, 2, 3]);
    store.set(b, &2);
    assert_eq!(store.var(b).value(), Some(2));
}

#[test]
fn subscriptions_keep_their_order() {
    let mut store = VarSet::<Var>::new();
    let a = store.create_var(&[1, 2]);
    let b = store.create_var(&[1, 2]);
    store.subscribe(a, PropId { id: 2 });
    store.subscribe(a, PropId { id: 0 });
    store.subscribe(a, PropId { id: 2 });
    assert_eq!(store.subscriptions(a), &vec![PropId { id: 2 }, PropId { id: 0 }, PropId { id: 2 }]);
    assert!(store.subscriptions(b).is_empty());
    let copy = store.duplicate();
    store.subscribe(b, PropId { id: 1 });
    assert!(copy.subscriptions(b).is_empty());
    assert_eq!(copy.subscriptions(a).len(), 3);
    assert_eq!(copy.var(b).possibilities(), vec![1, 2]);
}

#[test]
fn updates_are_recorded_once() {
    let mut list = Vec::new();
    insert_update(&mut list, DomainUpdate::Fixed(VarId { id: 1 }));
    insert_update(&mut list, DomainUpdate::Reduced(VarId { id: 1 }));
    insert_update(&mut list, DomainUpdate::Fixed(VarId { id: 1 }));
    assert_eq!(
        list,
        vec![DomainUpdate::Fixed(VarId { id: 1 }), DomainUpdate::Reduced(VarId { id: 1 })]
    );
}
