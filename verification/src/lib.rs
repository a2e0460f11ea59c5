//! A finite-domain constraint propagation and search engine.
//!
//! A model holds decision variables, each with a finite set of candidate
//! values, and propagators that prune candidates. Solving enumerates, one at
//! a time, the assignments in which every variable has exactly one value.
pub mod order;
pub mod propagate;
pub mod solve;
pub mod var;

use crate::propagate::{within, AllDifferent, PropId, PropSet, Propagate};
use crate::solve::{lemma_covered_push, Solver};
use crate::var::{VarId, VarSet, Variable};
use vstd::prelude::*;

verus! {

/// A model under construction: variables and the constraints on them.
#[verifier::reject_recursive_types(V)]
#[verifier::reject_recursive_types(P)]
pub struct Model<V: Variable, P: Propagate<Variable = V> = AllDifferent<V>> {
    var_set: VarSet<V>,
    prop_set: PropSet<P>,
}

impl<V: Variable, P: Propagate<Variable = V>> Model<V, P> {
    /// The variables.
    pub closed spec fn vars(&self) -> VarSet<V> {
        self.var_set
    }

    /// The propagators.
    pub closed spec fn props(&self) -> PropSet<P> {
        self.prop_set
    }

    /// Stores and registry are well-formed, the propagators watch only
    /// variables of the model, and nothing is subscribed yet.
    pub open spec fn wf(&self) -> bool {
        &&& self.vars().wf()
        &&& self.props().wf()
        &&& self.props().fits(self.vars().len())
        &&& forall|i: int| 0 <= i < self.vars().len() ==> (#[trigger] self.vars().subs()[i]).len() == 0
    }

    /// Whether `g` is a solution of the model: it holds one value for each
    /// variable, taken from the domain that the variable has in the model,
    /// and gives no propagator anything to prune.
    pub open spec fn solution(&self, g: &VarSet<V>) -> bool {
        &&& g.wf()
        &&& g.ground()
        &&& g.refines(&self.vars())
        &&& forall|q: int, v: VarId|
            0 <= q < self.props().len() && g.valid(v) ==> #[trigger] self.props().props()[q].settled(
                g,
                v,
            )
    }

    /// Whether this model is `prev` with `n` more variables, each with the
    /// candidate values `values`.
    pub open spec fn extends(&self, prev: &Self, n: nat, values: Set<V::Value>) -> bool {
        &&& self.props() == prev.props()
        &&& self.vars().len() == prev.vars().len() + n
        &&& forall|i: int|
            0 <= i < prev.vars().len() ==> (#[trigger] self.vars().vars()[i]) == prev.vars().vars()[i]
        &&& forall|i: int|
            prev.vars().len() <= i < self.vars().len() ==> (#[trigger] self.vars().vars()[i]).domain()
                == values
    }

    /// A model without variables or propagators.
    pub fn new() -> (r: Model<V, P>)
        ensures
            r.wf(),
            r.vars().len() == 0,
            r.props().len() == 0,
    {
        Model { var_set: VarSet::new(), prop_set: PropSet::new() }
    }

    /// Adds a variable with the given candidate values.
    pub fn create_var(&mut self, values: &[V::Value]) -> (r: VarId)
        requires
            old(self).wf(),
            V::lawful(),
        ensures
            final(self).wf(),
            r.id == old(self).vars().len(),
            final(self).extends(old(self), 1, values@.to_set()),
    {
        self.var_set.create_var(values)
    }

    /// Adds `len` variables, each with the given candidate values.
    pub fn create_var_array(&mut self, values: &[V::Value], len: usize) -> (r: Vec<VarId>)
        requires
            old(self).wf(),
            V::lawful(),
        ensures
            final(self).wf(),
            r@.len() == len,
            forall|k: int| 0 <= k < len ==> (#[trigger] r@[k]).id == old(self).vars().len() + k,
            final(self).extends(old(self), len as nat, values@.to_set()),
    {
        let mut var_ids: Vec<VarId> = Vec::new();
        let mut k: usize = 0;
        while k < len
            invariant
                k <= len,
                V::lawful(),
                self.wf(),
                var_ids@.len() == k,
                forall|q: int| 0 <= q < k ==> (#[trigger] var_ids@[q]).id == old(self).vars().len() + q,
                self.extends(old(self), k as nat, values@.to_set()),
            decreases len - k,
        {
            let id = self.create_var(values);
            var_ids.push(id);
            k += 1;
        }
        var_ids
    }

    /// Adds `rows` times `cols` variables, each with the given candidate
    /// values, and returns their handles row by row.
    pub fn create_var_matrix(&mut self, values: &[V::Value], rows: usize, cols: usize) -> (r: Vec<
        Vec<VarId>,
    >)
        requires
            old(self).wf(),
            V::lawful(),
        ensures
            final(self).wf(),
            r@.len() == rows,
            forall|a: int| 0 <= a < rows ==> (#[trigger] r@[a])@.len() == cols,
            forall|a: int, b: int|
                0 <= a < rows && 0 <= b < cols ==> (#[trigger] r@[a]@[b]).id == old(self).vars().len()
                    + a * cols + b,
            final(self).extends(old(self), (rows * cols) as nat, values@.to_set()),
    {
        let mut var_ids: Vec<Vec<VarId>> = Vec::new();
        let mut a: usize = 0;
        while a < rows
            invariant
                a <= rows,
                V::lawful(),
                self.wf(),
                var_ids@.len() == a,
                forall|p: int| 0 <= p < a ==> (#[trigger] var_ids@[p])@.len() == cols,
                forall|p: int, q: int|
                    0 <= p < a && 0 <= q < cols ==> (#[trigger] var_ids@[p]@[q]).id == old(
                        self,
                    ).vars().len() + p * cols + q,
                self.extends(old(self), (a * cols) as nat, values@.to_set()),
            decreases rows - a,
        {
            proof {
                assert((a + 1) * cols == a * cols + cols) by (nonlinear_arith);
            }
            let row = self.create_var_array(values, cols);
            var_ids.push(row);
            a += 1;
        }
        var_ids
    }

    /// Replaces the domain of `var_id` by `value` alone, whatever it held.
    pub fn set(&mut self, var_id: VarId, value: &V::Value)
        requires
            old(self).wf(),
            old(self).vars().valid(var_id),
        ensures
            final(self).wf(),
            final(self).props() == old(self).props(),
            final(self).vars().is_update_of(&old(self).vars(), var_id, set![*value]),
    {
        self.var_set.set(var_id, value)
    }

    /// Registers `propagator` and returns its handle.
    pub fn add_propagator(&mut self, propagator: P) -> (r: PropId)
        requires
            old(self).wf(),
            propagator.wf(),
            within(propagator.watched(), old(self).vars().len()),
        ensures
            final(self).wf(),
            final(self).vars() == old(self).vars(),
            r.id == old(self).props().len(),
            final(self).props().len() == old(self).props().len() + 1,
            final(self).props().props()[r.id as int].watched() == propagator.watched(),
            forall|vars: &VarSet<V>, v: VarId| #[trigger]
                final(self).props().props()[r.id as int].settled(vars, v) == propagator.settled(
                    vars,
                    v,
                ),
            forall|i: int|
                0 <= i < old(self).props().len() ==> (#[trigger] final(self).props().props()[i])
                    == old(self).props().props()[i],
    {
        self.prop_set.add_propagator(propagator)
    }

    /// A search for the solutions of the model as it stands.
    pub fn solve(&self) -> (r: Solver<V, P>)
        requires
            self.wf(),
        ensures
            r.wf(),
            !r.started(),
            r.origin().same_as(&self.vars()),
            r.registry().copies(&self.props()),
            forall|g: &VarSet<V>| #[trigger] r.covers(g) <==> self.solution(g),
    {
        let var_set = self.var_set.duplicate();
        let prop_set = self.prop_set.duplicate();
        let solver = Solver::new(var_set, prop_set);
        proof {
            let first = solver.stack()[0];
            assert(solver.stack() =~= Seq::empty().push(first));
            assert forall|g: &VarSet<V>| #[trigger] solver.covers(g) <==> self.solution(g) by {
                lemma_covered_push(Seq::empty(), first, g);
                if first.admits(g) {
                    assert forall|i: int| 0 <= i < g.len() implies (#[trigger] g.vars()[i]).domain().subset_of(
                        self.vars().vars()[i].domain(),
                    ) by {
                        assert(g.vars()[i].domain().subset_of(first.var_set.vars()[i].domain()));
                    }
                    assert forall|q: int, v: VarId|
                        0 <= q < self.props().len() && g.valid(
                            v,
                        ) implies #[trigger] self.props().props()[q].settled(g, v) by {
                        assert(first.prop_set.props()[q].settled(g, v));
                    }
                }
                if self.solution(g) {
                    assert forall|i: int| 0 <= i < g.len() implies (#[trigger] g.vars()[i]).domain().subset_of(
                        first.var_set.vars()[i].domain(),
                    ) by {
                        assert(g.vars()[i].domain().subset_of(self.vars().vars()[i].domain()));
                    }
                    assert forall|q: int, v: VarId|
                        0 <= q < first.prop_set.len() && g.valid(
                            v,
                        ) implies #[trigger] first.prop_set.props()[q].settled(g, v) by {
                        assert(self.props().props()[q].settled(g, v));
                    }
                }
            }
        }
        solver
    }
}

impl<V: Variable> Model<V, AllDifferent<V>> {
    /// Constrains the given variables to take values that differ from one
    /// another, and returns the handle of the constraint.
    pub fn all_different(&mut self, var_ids: &[VarId]) -> (r: PropId)
        requires
            old(self).wf(),
            forall|k: int| 0 <= k < var_ids@.len() ==> old(self).vars().valid(#[trigger] var_ids@[k]),
        ensures
            final(self).wf(),
            final(self).vars() == old(self).vars(),
            r.id == old(self).props().len(),
            final(self).props().len() == old(self).props().len() + 1,
            final(self).props().props()[r.id as int].watched() == var_ids@.to_set(),
            forall|i: int|
                0 <= i < old(self).props().len() ==> (#[trigger] final(self).props().props()[i])
                    == old(self).props().props()[i],
    {
        let propagator = AllDifferent::new(var_ids);
        self.prop_set.add_propagator(propagator)
    }
}

} // verus!
