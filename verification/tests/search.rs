use crisp::propagate::{prune, AllDifferent, PropId, PropSet, Propagate};
use crisp::solve::{SearchState, Solver};
use crisp::var::{BTreeSetVar, DomainUpdate, HashSetVar, VarId, VarSet, Variable};
use crisp::Model;
use std::collections::HashSet;

type Var = BTreeSetVar<u8>;

fn values_of(solution: &VarSet<Var>) -> Vec<u8> {
    (0..solution.size()).map(|i| solution.var(VarId { id: i }).value().unwrap()).collect()
}

fn all_solutions(model: &Model<Var>) -> Vec<Vec<u8>> {
    let mut solver = model.solve();
    let mut found = Vec::new();
    while let Some(solution) = solver.next() {
        assert!(solution.check());
        found.push(values_of(&solution));
    }
    assert!(solver.next().is_none());
    found
}

fn state_of(model_vars: &[&[u8]], groups: &[&[usize]]) -> SearchState<Var, AllDifferent<Var>> {
    let mut var_set = VarSet::<Var>::new();
    for values in model_vars {
        var_set.create_var(values);
    }
    let mut prop_set = PropSet::<AllDifferent<Var>>::new();
    for group in groups {
        let ids: Vec<VarId> = group.iter().map(|&i| VarId { id: i }).collect();
        prop_set.add_propagator(AllDifferent::new(&ids));
    }
    SearchState { var_set, prop_set, instantiated_vars: HashSet::new() }
}

fn domains_of(state: &SearchState<Var, AllDifferent<Var>>) -> Vec<Vec<u8>> {
    (0..state.var_set.size()).map(|i| state.var_set.var(VarId { id: i }).possibilities()).collect()
}

#[test]
fn one_variable_yields_each_value_in_order() {
    let mut model = Model::<Var>::new();
    let a = model.create_var(&[1, 2, 3]);
    let mut solver = model.solve();
    assert_eq!(solver.next().unwrap().var(a).value(), Some(1));
    assert_eq!(solver.next().unwrap().var(a).value(), Some(2));
    assert_eq!(solver.next().unwrap().var(a).value(), Some(3));
    assert!(solver.next().is_none());
    assert!(solver.next().is_none());
}

#[test]
fn two_variables_all_different() {
    let mut model = Model::<Var>::new();
    let ids = model.create_var_array(&[1, 2], 2);
    assert_eq!(ids, vec![VarId { id: 0 }, VarId { id: 1 }]);
    assert_eq!(model.all_different(&ids), PropId { id: 0 });
    assert_eq!(all_solutions(&model), vec![vec![1, 2], vec![2, 1]]);
}

#[test]
fn third_variable_forced_by_propagation() {
    let mut model = Model::<Var>::new();
    let ids = model.create_var_array(&[1, 2, 3], 3);
    model.all_different(&ids);
    model.set(ids[0], &1);
    model.set(ids[1], &2);
    let mut solver = model.solve();
    let first = solver.next().unwrap();
    assert_eq!(first.var(ids[2]).value(), Some(3));
    assert_eq!(values_of(&first), vec![1, 2, 3]);
    assert!(solver.next().is_none());
}

#[test]
fn unsatisfiable_model_has_no_solution() {
    let mut model = Model::<Var>::new();
    let ids = model.create_var_array(&[1], 2);
    model.all_different(&ids);
    let mut solver = model.solve();
    assert!(solver.next().is_none());
    assert!(solver.next().is_none());
}

#[test]
fn empty_domain_has_no_solution() {
    let mut model = Model::<Var>::new();
    model.create_var(&[1, 2]);
    model.create_var(&[]);
    assert_eq!(all_solutions(&model), Vec::<Vec<u8>>::new());
}

#[test]
fn model_without_variables_has_one_solution() {
    let model = Model::<Var>::new();
    let mut solver = model.solve();
    assert_eq!(solver.next().unwrap().size(), 0);
    assert!(solver.next().is_none());
}

#[test]
fn enumeration_is_exhaustive_and_without_repeats() {
    let mut model = Model::<Var>::new();
    let ids = model.create_var_array(&[1, 2, 3], 3);
    model.all_different(&ids);
    let found = all_solutions(&model);
    assert_eq!(
        found,
        vec![
            vec![1, 2, 3],
            vec![1, 3, 2],
            vec![2, 1, 3],
            vec![2, 3, 1],
            vec![3, 1, 2],
            vec![3, 2, 1],
        ]
    );
}

#[test]
fn enumeration_is_reproducible() {
    let mut model = Model::<Var>::new();
    let grid = model.create_var_matrix(&[1, 2, 3], 2, 2);
    assert_eq!(grid.len(), 2);
    assert_eq!(grid[1], vec![VarId { id: 2 }, VarId { id: 3 }]);
    model.all_different(&grid[0]);
    model.all_different(&grid[1]);
    model.all_different(&[grid[0][0], grid[1][0]]);
    let first = all_solutions(&model);
    let second = all_solutions(&model);
    assert_eq!(first, second);
    assert_eq!(first.len(), 24);
    assert_eq!(first[0], vec![1, 2, 2, 1]);
    for solution in &first {
        assert_ne!(solution[0], solution[1]);
        assert_ne!(solution[2], solution[3]);
        assert_ne!(solution[0], solution[2]);
    }
}

#[test]
fn solving_leaves_the_model_as_it_was() {
    let mut model = Model::<Var>::new();
    let ids = model.create_var_array(&[1, 2], 2);
    model.all_different(&ids);
    let first = all_solutions(&model);
    model.set(ids[0], &2);
    assert_eq!(all_solutions(&model), vec![vec![2, 1]]);
    assert_eq!(first.len(), 2);
}

#[test]
fn hash_set_domains_find_the_same_solutions() {
    let mut model = Model::<HashSetVar<u8>>::new();
    let ids = model.create_var_array(&[1, 2, 3], 3);
    model.all_different(&ids);
    let mut solver = model.solve();
    let mut found = Vec::new();
    while let Some(solution) = solver.next() {
        let row: Vec<u8> = ids.iter().map(|&id| solution.var(id).value().unwrap()).collect();
        found.push(row);
    }
    found.sort();
    assert_eq!(found.len(), 6);
    assert_eq!(found[0], vec![1, 2, 3]);
    assert_eq!(found[5], vec![3, 2, 1]);
}

#[test]
fn add_propagator_registers_in_order() {
    let mut model = Model::<Var>::new();
    let ids = model.create_var_array(&[1, 2], 3);
    let first = model.add_propagator(AllDifferent::new(&ids[0..2]));
    let second = model.add_propagator(AllDifferent::new(&ids[1..3]));
    assert_eq!(first, PropId { id: 0 });
    assert_eq!(second, PropId { id: 1 });
    assert_eq!(all_solutions(&model), vec![vec![1, 2, 1], vec![2, 1, 2]]);
}

#[test]
fn registry_hands_out_dense_handles() {
    let mut registry = PropSet::<AllDifferent<Var>>::new();
    assert!(registry.prop_ids().is_empty());
    let a = registry.add_propagator(AllDifferent::new(&[VarId { id: 0 }, VarId { id: 1 }]));
    let b = registry.add_propagator(AllDifferent::new(&[VarId { id: 1 }]));
    assert_eq!(registry.prop_ids(), &vec![PropId { id: 0 }, PropId { id: 1 }]);
    assert_eq!((a, b), (PropId { id: 0 }, PropId { id: 1 }));
    let copy = registry.duplicate();
    assert_eq!(copy.prop_ids().len(), 2);

    let mut store = VarSet::<Var>::new();
    store.create_var(&[1, 2]);
    store.create_var(&[1, 2]);
    registry.propagator_mut(b).initial_propagation(&mut store).unwrap();
    assert_eq!(store.subscriptions(VarId { id: 1 }), &vec![PropId { id: 1 }]);
    let again = registry.propagator(a).boxed_clone();
    let mut again = *again;
    again.initial_propagation(&mut store).unwrap();
    assert_eq!(store.subscriptions(VarId { id: 0 }), &vec![PropId { id: 0 }]);
    assert_eq!(store.subscriptions(VarId { id: 1 }), &vec![PropId { id: 1 }, PropId { id: 0 }]);
}

#[test]
fn prune_records_changes_and_fails_on_the_last_value() {
    let mut store = VarSet::<Var>::new();
    let a = store.create_var(&[1, 2, 3]);
    let mut updates = Vec::new();
    assert_eq!(prune(&mut store, a, &5, &mut updates), Ok(()));
    assert_eq!(prune(&mut store, a, &1, &mut updates), Ok(()));
    assert_eq!(prune(&mut store, a, &2, &mut updates), Ok(()));
    assert_eq!(
        updates,
        vec![DomainUpdate::Unchanged(a), DomainUpdate::Reduced(a), DomainUpdate::Fixed(a)]
    );
    assert_eq!(prune(&mut store, a, &3, &mut updates), Err(()));
    assert_eq!(updates.len(), 3);
    assert_eq!(store.var(a).size(), 0);
}

#[test]
fn all_different_reacts_to_fixed_only() {
    let mut store = VarSet::<Var>::new();
    let a = store.create_var(&[1]);
    let b = store.create_var(&[1, 2, 3]);
    let c = store.create_var(&[1, 2]);
    let d = store.create_var(&[1, 2]);
    let mut constraint = AllDifferent::<Var>::new(&[a, b, c, b]);
    constraint.set_id(PropId { id: 0 });
    assert_eq!(constraint.propagate(&mut store, DomainUpdate::Reduced(b)), Ok(vec![]));
    assert_eq!(constraint.propagate(&mut store, DomainUpdate::Unchanged(a)), Ok(vec![]));
    assert_eq!(constraint.propagate(&mut store, DomainUpdate::Fixed(VarId { id: 3 })), Ok(vec![]));
    assert_eq!(store.var(b).size(), 3);
    assert_eq!(
        constraint.propagate(&mut store, DomainUpdate::Fixed(a)),
        Ok(vec![DomainUpdate::Reduced(b), DomainUpdate::Fixed(c)])
    );
    assert_eq!(store.var(a).possibilities(), vec![1]);
    assert_eq!(store.var(b).possibilities(), vec![2, 3]);
    assert_eq!(store.var(c).possibilities(), vec![2]);
    assert_eq!(store.var(d).possibilities(), vec![1, 2]);
    assert_eq!(
        constraint.propagate(&mut store, DomainUpdate::Fixed(a)),
        Ok(vec![DomainUpdate::Unchanged(b), DomainUpdate::Unchanged(c)])
    );
}

#[test]
fn all_different_fails_on_a_clash() {
    let mut store = VarSet::<Var>::new();
    let a = store.create_var(&[1]);
    let b = store.create_var(&[1]);
    let mut constraint = AllDifferent::<Var>::new(&[a, b]);
    assert_eq!(constraint.propagate(&mut store, DomainUpdate::Fixed(a)), Err(()));
    let mut fresh = VarSet::<Var>::new();
    fresh.create_var(&[1]);
    fresh.create_var(&[1]);
    assert_eq!(constraint.initial_propagation(&mut fresh), Err(()));
}

#[test]
fn initial_propagation_subscribes_and_prunes() {
    let mut state = state_of(&[&[1], &[1, 2], &[1, 2, 3]], &[&[0, 1, 2]]);
    assert_eq!(state.initial_propagation(), Ok(()));
    assert_eq!(domains_of(&state), vec![vec![1], vec![2], vec![3]]);
    for i in 0..3 {
        assert_eq!(state.var_set.subscriptions(VarId { id: i }), &vec![PropId { id: 0 }]);
    }
    assert!(state.instantiated_vars.is_empty());
}

#[test]
fn propagating_unchanged_on_a_quiet_state_changes_nothing() {
    let mut state = state_of(&[&[1, 2, 3], &[1, 2, 3], &[3]], &[&[0, 1, 2]]);
    assert_eq!(state.initial_propagation(), Ok(()));
    let before = domains_of(&state);
    assert_eq!(before, vec![vec![1, 2], vec![1, 2], vec![3]]);
    for i in 0..3 {
        assert_eq!(state.propagate(DomainUpdate::Unchanged(VarId { id: i })), Ok(()));
        assert_eq!(domains_of(&state), before);
    }
    for i in 0..3 {
        let id = VarId { id: i };
        let reply = state.prop_set.propagator_mut(PropId { id: 0 }).propagate(
            &mut state.var_set,
            DomainUpdate::Unchanged(id),
        );
        assert_eq!(reply, Ok(vec![]));
    }
    assert_eq!(state.propagate(DomainUpdate::Fixed(VarId { id: 2 })), Ok(()));
    assert_eq!(domains_of(&state), before);
}

#[test]
fn propagation_ripples_through_constraints() {
    let mut state = state_of(&[&[1, 2], &[1, 2], &[2, 3], &[3, 4]], &[&[0, 1], &[1, 2], &[2, 3]]);
    assert_eq!(state.initial_propagation(), Ok(()));
    assert_eq!(domains_of(&state), vec![vec![1, 2], vec![1, 2], vec![2, 3], vec![3, 4]]);
    let update = state.var_set.var_mut(VarId { id: 0 }).instantiate(&1).unwrap();
    assert_eq!(update, DomainUpdate::Fixed(VarId { id: 0 }));
    assert_eq!(state.propagate(update), Ok(()));
    assert_eq!(domains_of(&state), vec![vec![1], vec![2], vec![3], vec![4]]);
}

#[test]
fn propagation_reports_failure() {
    let mut state = state_of(&[&[1, 2], &[1, 2], &[1, 2]], &[&[0, 1, 2]]);
    assert_eq!(state.initial_propagation(), Ok(()));
    let update = state.var_set.var_mut(VarId { id: 0 }).instantiate(&1).unwrap();
    assert_eq!(state.propagate(update), Err(()));
}

#[test]
fn choose_var_prefers_small_domains_then_early_handles() {
    let mut state = state_of(&[&[1, 2, 3], &[1, 2], &[4, 5], &[7]], &[]);
    assert_eq!(state.choose_var(), Some(VarId { id: 3 }));
    state.instantiated_vars.insert(3);
    assert_eq!(state.choose_var(), Some(VarId { id: 1 }));
    state.instantiated_vars.insert(1);
    assert_eq!(state.choose_var(), Some(VarId { id: 2 }));
    state.instantiated_vars.insert(2);
    assert_eq!(state.choose_var(), Some(VarId { id: 0 }));
    state.instantiated_vars.insert(0);
    assert_eq!(state.choose_var(), None);
}

#[test]
fn choose_value_takes_the_smallest() {
    let state = state_of(&[&[5, 3, 9], &[]], &[]);
    assert_eq!(state.choose_value(VarId { id: 0 }), Some(3));
    assert_eq!(state.choose_value(VarId { id: 1 }), None);
}

#[test]
fn instantiate_gives_both_branches() {
    let mut state = state_of(&[&[1, 2, 3], &[1, 2, 3]], &[&[0, 1]]);
    assert_eq!(state.initial_propagation(), Ok(()));
    let (assigned, excluded) = state.instantiate(VarId { id: 0 }, &1);
    let assigned = assigned.unwrap();
    let excluded = excluded.unwrap();
    assert_eq!(domains_of(&assigned), vec![vec![1], vec![2, 3]]);
    assert_eq!(domains_of(&excluded), vec![vec![2, 3], vec![1, 2, 3]]);
    assert!(assigned.instantiated_vars.contains(&0));
    assert_eq!(assigned.instantiated_vars.len(), 1);
    assert!(excluded.instantiated_vars.is_empty());
}

#[test]
fn instantiate_drops_failed_branches() {
    let mut state = state_of(&[&[1], &[1, 2]], &[&[0, 1]]);
    assert_eq!(state.initial_propagation(), Ok(()));
    assert_eq!(domains_of(&state), vec![vec![1], vec![2]]);
    let twin = state.duplicate();
    let (assigned, excluded) = state.instantiate(VarId { id: 0 }, &1);
    assert!(excluded.is_none());
    assert_eq!(domains_of(&assigned.unwrap()), vec![vec![1], vec![2]]);
    let (assigned, excluded) = twin.instantiate(VarId { id: 1 }, &1);
    assert!(assigned.is_none());
    assert_eq!(domains_of(&excluded.unwrap()), vec![vec![1], vec![2]]);

    let mut clash = state_of(&[&[1, 2], &[1]], &[&[0, 1]]);
    clash.var_set.subscribe(VarId { id: 0 }, PropId { id: 0 });
    clash.var_set.subscribe(VarId { id: 1 }, PropId { id: 0 });
    let (assigned, excluded) = clash.instantiate(VarId { id: 0 }, &1);
    assert!(assigned.is_none());
    assert_eq!(domains_of(&excluded.unwrap()), vec![vec![2], vec![1]]);
}

#[test]
fn changing_a_copy_leaves_its_source() {
    let mut state = state_of(&[&[1, 2, 3], &[1, 2, 3]], &[&[0, 1]]);
    assert_eq!(state.initial_propagation(), Ok(()));
    let mut copy = state.duplicate();
    let update = copy.var_set.var_mut(VarId { id: 0 }).instantiate(&2).unwrap();
    assert_eq!(copy.propagate(update), Ok(()));
    copy.instantiated_vars.insert(0);
    copy.var_set.subscribe(VarId { id: 1 }, PropId { id: 0 });
    assert_eq!(domains_of(&copy), vec![vec![2], vec![1, 3]]);
    assert_eq!(domains_of(&state), vec![vec![1, 2, 3], vec![1, 2, 3]]);
    assert!(state.instantiated_vars.is_empty());
    assert_eq!(state.var_set.subscriptions(VarId { id: 1 }).len(), 1);
    assert_eq!(state.prop_set.prop_ids().len(), 1);
}

#[test]
fn solver_from_parts() {
    let state = state_of(&[&[1, 2], &[2]], &[&[0, 1]]);
    let mut solver = Solver::new(state.var_set, state.prop_set);
    let solution = solver.next().unwrap();
    assert_eq!(values_of(&solution), vec![1, 2]);
    assert!(solver.next().is_none());
}

#[test]
fn solutions_keep_watched_variables_apart() {
    let mut model = Model::<Var>::new();
    let ids = model.create_var_array(&[1, 2, 3, 4], 4);
    model.all_different(&ids[0..3]);
    model.all_different(&ids[2..4]);
    let found = all_solutions(&model);
    assert_eq!(found.len(), 4 * 3 * 2 * 3);
    for solution in &found {
        assert_ne!(solution[0], solution[1]);
        assert_ne!(solution[0], solution[2]);
        assert_ne!(solution[1], solution[2]);
        assert_ne!(solution[2], solution[3]);
    }
    let mut sorted = found.clone();
    sorted.sort();
    sorted.dedup();
    assert_eq!(sorted.len(), found.len());
    assert_eq!(found[0], vec![1, 2, 3, 1]);
}

#[test]
fn a_settled_variable_causes_no_pruning() {
    let mut state = state_of(&[&[1, 2, 3], &[1, 2, 3], &[1, 2, 3]], &[&[0, 1, 2]]);
    assert_eq!(state.initial_propagation(), Ok(()));
    let (assigned, _) = state.instantiate(VarId { id: 0 }, &2);
    let mut assigned = assigned.unwrap();
    let before = domains_of(&assigned);
    assert_eq!(before, vec![vec![2], vec![1, 3], vec![1, 3]]);
    let reply = assigned.prop_set.propagator_mut(PropId { id: 0 }).propagate(
        &mut assigned.var_set,
        DomainUpdate::Fixed(VarId { id: 0 }),
    );
    assert_eq!(
        reply,
        Ok(vec![DomainUpdate::Unchanged(VarId { id: 1 }), DomainUpdate::Unchanged(VarId { id: 2 })])
    );
    assert_eq!(domains_of(&assigned), before);
}

#[test]
fn none_comes_after_finitely_many_calls() {
    let mut model = Model::<Var>::new();
    let ids = model.create_var_array(&[1, 2, 3], 2);
    model.all_different(&ids);
    let mut solver = model.solve();
    let mut calls = 0;
    while solver.next().is_some() {
        calls += 1;
        assert!(calls <= 6);
    }
    assert_eq!(calls, 6);
}
