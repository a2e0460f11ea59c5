//! Propagators and their registry.
use crate::var::{removal_outcome, DomainUpdate, VarId, VarSet, Variable};
use std::marker::PhantomData;
use vstd::prelude::*;

verus! {

/// Handle of a propagator within one registry: its position in registration
/// order.
#[derive(Clone, Copy, Debug, PartialEq, Eq, Structural, PartialOrd, Ord, Hash)]
pub struct PropId {
    pub id: usize,
}

/// How many updates of `s` report a change.
pub open spec fn changes(s: Seq<DomainUpdate>) -> nat
    decreases s.len(),
{
    if s.len() == 0 {
        0
    } else {
        changes(s.drop_last()) + if s.last() is Unchanged {
            0nat
        } else {
            1nat
        }
    }
}

/// One more update adds one change, unless it reports none.
pub proof fn lemma_changes_push(s: Seq<DomainUpdate>, u: DomainUpdate)
    ensures
        changes(s.push(u)) == changes(s) + if u is Unchanged {
            0nat
        } else {
            1nat
        },
{
    assert(s.push(u).drop_last() =~= s);
}

/// Updates that all report no change report no change together.
pub proof fn lemma_changes_none(s: Seq<DomainUpdate>)
    requires
        forall|k: int| 0 <= k < s.len() ==> (#[trigger] s[k]) is Unchanged,
    ensures
        changes(s) == 0,
    decreases s.len(),
{
    if s.len() > 0 {
        assert forall|k: int| 0 <= k < s.drop_last().len() implies (#[trigger] s.drop_last()[k]) is Unchanged by {
            assert(s.drop_last()[k] == s[k]);
        }
        lemma_changes_none(s.drop_last());
        assert(s.last() == s[s.len() - 1]);
    }
}

/// A prefix reports no more changes than the whole.
pub proof fn lemma_changes_take(s: Seq<DomainUpdate>, j: int)
    requires
        0 <= j <= s.len(),
    ensures
        changes(s.take(j)) <= changes(s),
    decreases s.len() - j,
{
    if j < s.len() {
        assert(s.take(j + 1).drop_last() =~= s.take(j));
        lemma_changes_take(s, j + 1);
    } else {
        assert(s.take(j) =~= s);
    }
}

/// Whether the subscription lists `now` are the lists `before`, each with
/// zero or more entries `id` appended.
pub open spec fn subscribed(before: Seq<Seq<PropId>>, now: Seq<Seq<PropId>>, id: PropId) -> bool {
    &&& now.len() == before.len()
    &&& forall|i: int|
        0 <= i < now.len() ==> {
            &&& before[i].len() <= (#[trigger] now[i]).len()
            &&& now[i].take(before[i].len() as int) == before[i]
            &&& forall|k: int| before[i].len() <= k < now[i].len() ==> now[i][k] == id
        }
}

/// Whether `id` is among the subscriptions of every variable of `w`.
pub open spec fn listens(subs: Seq<Seq<PropId>>, w: Set<VarId>, id: PropId) -> bool {
    forall|v: VarId| #[trigger] w.contains(v) ==> subs[v.id as int].contains(id)
}

/// Whether the handles of `w` are all among the first `n`.
pub open spec fn within(w: Set<VarId>, n: nat) -> bool {
    forall|v: VarId| #[trigger] w.contains(v) ==> v.id < n
}

/// Whether `now` is `before` with `u` added, unless it was there already.
pub open spec fn recorded(before: Seq<DomainUpdate>, now: Seq<DomainUpdate>, u: DomainUpdate) -> bool {
    now == if before.contains(u) {
        before
    } else {
        before.push(u)
    }
}

/// Adds `u` to `list` unless it is there already.
pub fn insert_update(list: &mut Vec<DomainUpdate>, u: DomainUpdate)
    ensures
        recorded(old(list)@, final(list)@, u),
{
    let mut i: usize = 0;
    while i < list.len()
        invariant
            i <= list.len(),
            *list == *old(list),
            forall|k: int| 0 <= k < i ==> list@[k] != u,
        decreases list.len() - i,
    {
        if list[i] == u {
            return ;
        }
        i += 1;
    }
    list.push(u);
}

/// A constraint: it prunes the domains of the variables that it watches.
pub trait Propagate: Sized {
    type Variable: Variable;

    /// The variables whose changes concern this propagator.
    spec fn watched(&self) -> Set<VarId>;

    /// The handle under which this propagator is registered.
    spec fn spec_id(&self) -> PropId;

    /// The representation invariant.
    spec fn wf(&self) -> bool;

    /// Whether the variable `v`, as it stands in `vars`, gives this
    /// propagator nothing to prune.
    spec fn settled(&self, vars: &VarSet<Self::Variable>, v: VarId) -> bool;

    /// A variable that is not watched gives nothing to prune.
    proof fn lemma_settled_unwatched(&self, vars: &VarSet<Self::Variable>, v: VarId)
        requires
            !self.watched().contains(v),
        ensures
            self.settled(vars, v),
    ;

    /// A variable that gave nothing to prune gives nothing to prune while
    /// it keeps its domain and the others only shrink.
    proof fn lemma_settled_kept(
        &self,
        a: &VarSet<Self::Variable>,
        b: &VarSet<Self::Variable>,
        v: VarId,
    )
        requires
            a.wf(),
            b.refines(a),
            a.valid(v),
            b.dom(v) == a.dom(v),
            self.settled(a, v),
        ensures
            self.settled(b, v),
    ;

    /// Reacts to the change `update` of a subscribed variable: prunes
    /// domains and reports each pruning. The store keeps its variables and
    /// subscriptions; domains only shrink. On success no domain has run
    /// empty, every reported update is true of the store, and each reported
    /// change is paid for by a value that left some domain. Where `update`
    /// is current, its variable gives nothing more to prune afterwards; and
    /// every variable that lost a value is reported. An update that reports
    /// no change is answered without a change, and so is an update about a
    /// variable that gives nothing to prune. What the propagator holds
    /// to be settled does not change, and no choice of one value for each
    /// variable that leaves it nothing to prune is lost: while there is
    /// one, the call succeeds.
    fn propagate(&mut self, vars: &mut VarSet<Self::Variable>, update: DomainUpdate) -> (r: Result<
        Vec<DomainUpdate>,
        (),
    >)
        requires
            old(vars).wf(),
            old(self).wf(),
            within(old(self).watched(), old(vars).len()),
            old(vars).describes(update),
        ensures
            final(self).wf(),
            final(self).watched() == old(self).watched(),
            final(self).spec_id() == old(self).spec_id(),
            final(vars).wf(),
            final(vars).narrows(old(vars)),
            r matches Ok(u) ==> {
                &&& final(vars).keeps_alive(old(vars))
                &&& final(vars).describes_all(u@)
                &&& changes(u@) + final(vars).total() <= old(vars).total()
                &&& old(vars).current(update) ==> final(self).settled(
                    final(vars),
                    update.var_id(),
                )
                &&& forall|v: VarId|
                    final(vars).valid(v) && #[trigger] final(vars).dom(v) != old(vars).dom(v)
                        ==> final(vars).reports(u@, v)
            },
            forall|other: &VarSet<Self::Variable>, v: VarId| #[trigger]
                final(self).settled(other, v) == old(self).settled(other, v),
            forall|g: &VarSet<Self::Variable>|
                g.wf() && g.ground() && g.refines(old(vars)) && (forall|v: VarId|
                    g.valid(v) ==> #[trigger] old(self).settled(g, v)) ==> r is Ok
                    && #[trigger] g.refines(final(vars)),
            old(self).settled(old(vars), update.var_id()) ==> {
                &&& r matches Ok(u) && changes(u@) == 0
                &&& final(vars).same_as(old(vars))
            },
            update is Unchanged ==> {
                &&& r matches Ok(u) && changes(u@) == 0
                &&& final(vars).same_as(old(vars))
            },
    ;

    /// Called once before search: subscribes this propagator to the
    /// variables that it watches, and prunes what the current domains
    /// allow, as `propagate` does. Afterwards every variable gives nothing
    /// more to prune or is reported, and every variable that lost a value
    /// is reported.
    fn initial_propagation(&mut self, vars: &mut VarSet<Self::Variable>) -> (r: Result<
        Vec<DomainUpdate>,
        (),
    >)
        requires
            old(vars).wf(),
            old(self).wf(),
            within(old(self).watched(), old(vars).len()),
        ensures
            final(self).wf(),
            final(self).watched() == old(self).watched(),
            final(self).spec_id() == old(self).spec_id(),
            final(vars).wf(),
            final(vars).refines(old(vars)),
            subscribed(old(vars).subs(), final(vars).subs(), old(self).spec_id()),
            listens(final(vars).subs(), old(self).watched(), old(self).spec_id()),
            forall|other: &VarSet<Self::Variable>, v: VarId| #[trigger]
                final(self).settled(other, v) == old(self).settled(other, v),
            forall|g: &VarSet<Self::Variable>|
                g.wf() && g.ground() && g.refines(old(vars)) && (forall|v: VarId|
                    g.valid(v) ==> #[trigger] old(self).settled(g, v)) ==> r is Ok
                    && #[trigger] g.refines(final(vars)),
            r matches Ok(u) ==> {
                &&& final(vars).keeps_alive(old(vars))
                &&& final(vars).describes_all(u@)
                &&& changes(u@) + final(vars).total() <= old(vars).total()
                &&& forall|v: VarId|
                    final(vars).valid(v) ==> #[trigger] final(self).settled(final(vars), v)
                        || final(vars).reports(u@, v)
                &&& forall|v: VarId|
                    final(vars).valid(v) && #[trigger] final(vars).dom(v) != old(vars).dom(v)
                        ==> final(vars).reports(u@, v)
            },
    ;

    /// An independent copy.
    fn boxed_clone(&self) -> (r: Box<Self>)
        requires
            self.wf(),
        ensures
            r.wf(),
            r.watched() == self.watched(),
            r.spec_id() == self.spec_id(),
            forall|vars: &VarSet<Self::Variable>, v: VarId| #[trigger]
                r.settled(vars, v) == self.settled(vars, v),
    ;

    /// Tells the propagator the handle under which it is registered.
    fn set_id(&mut self, id: PropId)
        ensures
            final(self).spec_id() == id,
            final(self).watched() == old(self).watched(),
            final(self).wf() == old(self).wf(),
            forall|vars: &VarSet<Self::Variable>, v: VarId| #[trigger]
                final(self).settled(vars, v) == old(self).settled(vars, v),
    ;
}

/// The registered propagators, by handle.
pub struct PropSet<P: Propagate> {
    propagators: Vec<P>,
    prop_ids: Vec<PropId>,
}

impl<P: Propagate> PropSet<P> {
    /// The propagators, in registration order.
    pub closed spec fn props(&self) -> Seq<P> {
        self.propagators@
    }

    /// The handles, in registration order.
    pub closed spec fn ids(&self) -> Seq<PropId> {
        self.prop_ids@
    }

    /// The number of propagators.
    pub open spec fn len(&self) -> nat {
        self.props().len()
    }

    /// Whether `id` was handed out by this registry.
    pub open spec fn valid(&self, id: PropId) -> bool {
        id.id < self.len()
    }

    /// Every handle indexes its own propagator.
    pub open spec fn wf(&self) -> bool {
        &&& self.ids().len() == self.len()
        &&& self.len() <= usize::MAX
        &&& forall|i: int| 0 <= i < self.len() ==> (#[trigger] self.ids()[i]).id == i
        &&& forall|i: int|
            0 <= i < self.len() ==> {
                &&& (#[trigger] self.props()[i]).spec_id().id == i
                &&& self.props()[i].wf()
            }
    }

    /// Whether every propagator watches only variables among the first `n`.
    pub open spec fn fits(&self, n: nat) -> bool {
        forall|i: int| 0 <= i < self.len() ==> within((#[trigger] self.props()[i]).watched(), n)
    }

    /// Whether this registry holds the propagators of `other`, each watching
    /// what it watched.
    pub open spec fn same_as(&self, other: &Self) -> bool {
        &&& self.len() == other.len()
        &&& self.ids() == other.ids()
        &&& forall|i: int|
            0 <= i < self.len() ==> (#[trigger] self.props()[i]).watched()
                == other.props()[i].watched()
    }

    /// Whether this registry holds the propagators of `other`, each watching
    /// what it watched and settled where it was.
    pub open spec fn copies(&self, other: &Self) -> bool {
        &&& self.same_as(other)
        &&& forall|i: int, vars: &VarSet<P::Variable>, v: VarId|
            0 <= i < self.len() ==> #[trigger] self.props()[i].settled(vars, v)
                == other.props()[i].settled(vars, v)
    }

    /// A registry without propagators.
    pub fn new() -> (r: PropSet<P>)
        ensures
            r.wf(),
            r.len() == 0,
    {
        PropSet { propagators: Vec::new(), prop_ids: Vec::new() }
    }

    /// Registers `propagator` under the next handle, and tells it the handle.
    pub fn add_propagator(&mut self, propagator: P) -> (r: PropId)
        requires
            old(self).wf(),
            propagator.wf(),
        ensures
            final(self).wf(),
            r.id == old(self).len(),
            final(self).len() == old(self).len() + 1,
            final(self).ids() == old(self).ids().push(r),
            final(self).props()[r.id as int].watched() == propagator.watched(),
            forall|vars: &VarSet<P::Variable>, v: VarId| #[trigger]
                final(self).props()[r.id as int].settled(vars, v) == propagator.settled(vars, v),
            forall|i: int|
                0 <= i < old(self).len() ==> (#[trigger] final(self).props()[i]) == old(
                    self,
                ).props()[i],
    {
        let mut propagator = propagator;
        let prop_id = PropId { id: self.propagators.len() };
        self.prop_ids.push(prop_id);
        propagator.set_id(prop_id);
        self.propagators.push(propagator);
        let count = self.propagators.len();
        assert(count == self.len());
        prop_id
    }

    /// The propagator `prop_id`.
    pub fn propagator(&self, prop_id: PropId) -> (r: &P)
        requires
            self.valid(prop_id),
        ensures
            *r == self.props()[prop_id.id as int],
    {
        &self.propagators[prop_id.id]
    }

    /// The propagator `prop_id`, to change it.
    pub fn propagator_mut(&mut self, prop_id: PropId) -> (r: &mut P)
        requires
            old(self).valid(prop_id),
        ensures
            *r == old(self).props()[prop_id.id as int],
            final(self).props() == old(self).props().update(prop_id.id as int, *final(r)),
            final(self).ids() == old(self).ids(),
    {
        &mut self.propagators[prop_id.id]
    }

    /// All handles, in registration order.
    pub fn prop_ids(&self) -> (r: &Vec<PropId>)
        ensures
            r@ == self.ids(),
    {
        &self.prop_ids
    }

    /// An independent copy.
    pub fn duplicate(&self) -> (r: PropSet<P>)
        requires
            self.wf(),
        ensures
            r.wf(),
            r.copies(self),
    {
        let mut propagators: Vec<P> = Vec::new();
        let mut prop_ids: Vec<PropId> = Vec::new();
        let mut i: usize = 0;
        while i < self.propagators.len()
            invariant
                self.wf(),
                i <= self.propagators.len(),
                propagators@.len() == i,
                prop_ids@.len() == i,
                forall|j: int|
                    0 <= j < i ==> {
                        &&& (#[trigger] propagators@[j]).wf()
                        &&& propagators@[j].watched() == self.propagators@[j].watched()
                        &&& propagators@[j].spec_id().id == j
                    },
                forall|j: int, vars: &VarSet<P::Variable>, v: VarId|
                    0 <= j < i ==> #[trigger] propagators@[j].settled(vars, v)
                        == self.propagators@[j].settled(vars, v),
                forall|j: int| 0 <= j < i ==> #[trigger] prop_ids@[j] == self.prop_ids@[j],
            decreases self.propagators.len() - i,
        {
            assert(self.props()[i as int].wf());
            let copy = self.propagators[i].boxed_clone();
            propagators.push(*copy);
            prop_ids.push(self.prop_ids[i]);
            i += 1;
        }
        let r = PropSet { propagators, prop_ids };
        proof {
            assert(r.ids() =~= self.ids());
        }
        r
    }
}

/// Takes `value` out of the domain of `var_id` and, unless that leaves the
/// domain empty, records the update in `updates`.
pub fn prune<V: Variable>(
    vars: &mut VarSet<V>,
    var_id: VarId,
    value: &V::Value,
    updates: &mut Vec<DomainUpdate>,
) -> (r: Result<(), ()>)
    requires
        old(vars).wf(),
        old(vars).valid(var_id),
        old(vars).describes_all(old(updates)@),
    ensures
        final(vars).wf(),
        final(vars).is_update_of(old(vars), var_id, old(vars).dom(var_id).remove(*value)),
        final(vars).narrows(old(vars)),
        r is Err <==> old(vars).dom(var_id) == set![*value],
        r is Err <==> removal_outcome(old(vars).dom(var_id), *value, var_id) is Err,
        r is Err ==> final(updates)@ == old(updates)@,
        r is Ok ==> {
            &&& recorded(
                old(updates)@,
                final(updates)@,
                removal_outcome(old(vars).dom(var_id), *value, var_id)->Ok_0,
            )
            &&& final(vars).keeps_alive(old(vars))
            &&& final(vars).describes_all(final(updates)@)
            &&& changes(final(updates)@) + final(vars).total() <= changes(old(updates)@) + old(
                vars,
            ).total()
        },
{
    let ghost before = old(vars).vars()[var_id.id as int];
    proof {
        before.lemma_wf();
    }
    let outcome = vars.var_mut(var_id).remove(value);
    proof {
        let after = vars.vars()[var_id.id as int];
        crate::var::lemma_total_update(old(vars).vars(), var_id.id as int, after);
        assert(after.domain() == before.domain().remove(*value));
        if before.domain().contains(*value) {
            if before.domain().len() == 1 {
                crate::var::lemma_singleton(before.domain(), *value);
            }
        } else {
            assert(before.domain().remove(*value) =~= before.domain());
            assert(before.domain() != set![*value]);
        }
        if before.domain() == set![*value] {
            assert(before.domain().contains(*value));
            assert(set![*value].len() == 1);
        }
    }
    match outcome {
        Ok(u) => {
            proof {
                assert forall|k: int| 0 <= k < old(updates)@.len() implies vars.describes(
                    #[trigger] old(updates)@[k],
                ) by {
                    vars.lemma_describes_kept(old(vars), old(updates)@[k]);
                }
                lemma_changes_push(old(updates)@, u);
            }
            insert_update(updates, u);
            Ok(())
        },
        Err(e) => Err(()),
    }
}

/// The constraint that no two of the watched variables take the same value.
#[derive(Debug)]
pub struct AllDifferent<V> {
    id: PropId,
    var_ids: Vec<VarId>,
    phantom: PhantomData<V>,
}

/// Whether `list` holds `v`.
pub fn holds(list: &Vec<VarId>, v: VarId) -> (r: bool)
    ensures
        r == list@.contains(v),
{
    let mut i: usize = 0;
    while i < list.len()
        invariant
            i <= list.len(),
            forall|k: int| 0 <= k < i ==> list@[k] != v,
        decreases list.len() - i,
    {
        if list[i] == v {
            return true;
        }
        i += 1;
    }
    false
}

impl<V> AllDifferent<V> {
    /// The watched variables, each once, in the order in which they were
    /// first named.
    pub closed spec fn vars(&self) -> Seq<VarId> {
        self.var_ids@
    }

    /// The constraint over the variables named in `var_ids`.
    pub fn new(var_ids: &[VarId]) -> (r: AllDifferent<V>)
        ensures
            r.vars().no_duplicates(),
            r.vars().to_set() == var_ids@.to_set(),
    {
        let mut list: Vec<VarId> = Vec::new();
        let mut i: usize = 0;
        while i < var_ids.len()
            invariant
                i <= var_ids.len(),
                list@.no_duplicates(),
                list@.to_set() == var_ids@.take(i as int).to_set(),
            decreases var_ids.len() - i,
        {
            proof {
                crate::var::lemma_take_to_set(var_ids@, i as int);
                crate::var::lemma_take_to_set(list@.push(var_ids@[i as int]), list@.len() as int);
                assert(list@.push(var_ids@[i as int]).take(list@.len() as int) =~= list@);
                assert(list@.push(var_ids@[i as int]).take(list@.len() as int + 1) =~= list@.push(
                    var_ids@[i as int],
                ));
            }
            if !holds(&list, var_ids[i]) {
                list.push(var_ids[i]);
            } else {
                proof {
                    assert(list@.to_set().insert(var_ids@[i as int]) =~= list@.to_set());
                }
            }
            i += 1;
        }
        proof {
            assert(var_ids@.take(i as int) =~= var_ids@);
        }
        AllDifferent { id: PropId { id: 0 }, var_ids: list, phantom: PhantomData }
    }
}

impl<V: Variable> AllDifferent<V> {
    /// Whether `update` makes the constraint prune: it reports that a
    /// watched variable is ground.
    pub open spec fn acts(&self, update: DomainUpdate) -> bool {
        update is Fixed && self.vars().contains(update.var_id())
    }

    /// The domain that `v` has in `prev` once `x`, the value of `f`, is
    /// taken from every other watched variable.
    pub open spec fn pruned_dom(&self, prev: &VarSet<V>, f: VarId, x: V::Value, v: VarId) -> Set<
        V::Value,
    > {
        if self.vars().contains(v) && v != f {
            prev.dom(v).remove(x)
        } else {
            prev.dom(v)
        }
    }

    /// Whether another watched variable has no value but `x`, the value of
    /// `f`.
    pub open spec fn clash(&self, prev: &VarSet<V>, f: VarId, x: V::Value) -> bool {
        exists|w: VarId| self.vars().contains(w) && w != f && #[trigger] prev.dom(w) == set![x]
    }

    /// What the constraint reports for the watched variable `w` when `x`,
    /// the value of `f`, is taken from it.
    pub open spec fn report(prev: &VarSet<V>, x: V::Value, w: VarId) -> DomainUpdate {
        removal_outcome(prev.dom(w), x, w)->Ok_0
    }
}

impl<V: Variable> AllDifferent<V> {
    /// The domains `m` once the value of `f`, if `f` is ground, has left
    /// every other watched variable; `None` if one of them has no other
    /// value.
    pub open spec fn exclude_from(
        &self,
        m: Map<VarId, Set<V::Value>>,
        f: VarId,
    ) -> Option<Map<VarId, Set<V::Value>>> {
        if m[f].len() != 1 {
            Some(m)
        } else if exists|w: VarId| self.vars().contains(w) && w != f && #[trigger] m[w] == set![m[f].choose()] {
            None
        } else {
            Some(
                Map::new(
                    |v: VarId| m.dom().contains(v),
                    |v: VarId|
                        if self.vars().contains(v) && v != f {
                            m[v].remove(m[f].choose())
                        } else {
                            m[v]
                        },
                ),
            )
        }
    }

    /// The domains `m` once the first `n` watched variables have, each in
    /// its turn, had their value taken from the others.
    pub open spec fn sweep(&self, m: Map<VarId, Set<V::Value>>, n: nat) -> Option<
        Map<VarId, Set<V::Value>>,
    >
        decreases n,
    {
        if n == 0 {
            Some(m)
        } else {
            match self.sweep(m, (n - 1) as nat) {
                None => None,
                Some(d) => self.exclude_from(d, self.vars()[n - 1]),
            }
        }
    }

    /// Once a turn has failed, the sweep has failed.
    pub proof fn lemma_sweep_none(&self, m: Map<VarId, Set<V::Value>>, i: nat, n: nat)
        requires
            i <= n,
            self.sweep(m, i) is None,
        ensures
            self.sweep(m, n) is None,
        decreases n,
    {
        if i < n {
            self.lemma_sweep_none(m, i, (n - 1) as nat);
        }
    }

    /// Whether `listed` accounts for what happened to `start`: every
    /// variable that lost a value is reported, and every variable of `seen`
    /// gives nothing to prune or is reported.
    pub open spec fn accounted(
        &self,
        start: &VarSet<V>,
        vars: &VarSet<V>,
        listed: Seq<DomainUpdate>,
        seen: Seq<VarId>,
    ) -> bool {
        &&& forall|v: VarId|
            vars.valid(v) && #[trigger] vars.dom(v) != start.dom(v) ==> vars.reports(listed, v)
        &&& forall|v: VarId|
            vars.valid(v) && seen.contains(v) ==> #[trigger] self.settled(vars, v) || vars.reports(
                listed,
                v,
            )
    }

    /// Where the constraint is settled, two watched ground variables have
    /// different values.
    pub proof fn lemma_values_differ(&self, vars: &VarSet<V>, a: VarId, b: VarId)
        requires
            vars.wf(),
            vars.valid(a),
            vars.valid(b),
            self.watched().contains(a),
            self.watched().contains(b),
            a != b,
            vars.dom(a).len() == 1,
            vars.dom(b).len() == 1,
            self.settled(vars, a),
        ensures
            vars.dom(a) != vars.dom(b),
    {
        vars.vars()[a.id as int].lemma_wf();
        assert(vars.dom(a).contains(vars.dom(a).choose()));
        assert(!vars.dom(b).contains(vars.dom(a).choose()));
    }

    /// A choice of one value for each variable that leaves the constraint
    /// nothing to prune does not give the value of the ground variable `f`
    /// to another watched variable `w`.
    pub proof fn lemma_sound(&self, prev: &VarSet<V>, g: &VarSet<V>, f: VarId, x: V::Value, w: VarId)
        requires
            prev.wf(),
            g.wf(),
            g.ground(),
            g.refines(prev),
            self.settled(g, f),
            self.vars().contains(f),
            self.vars().contains(w),
            w != f,
            prev.valid(f),
            prev.valid(w),
            prev.dom(f) == set![x],
        ensures
            !g.dom(w).contains(x),
            g.dom(w).subset_of(prev.dom(w).remove(x)),
            prev.dom(w) != set![x],
    {
        let gf = g.vars()[f.id as int];
        let gw = g.vars()[w.id as int];
        gf.lemma_wf();
        gw.lemma_wf();
        assert(gf.domain().len() == 1);
        assert(gw.domain().len() == 1);
        assert(gf.domain().subset_of(prev.vars()[f.id as int].domain()));
        assert(gw.domain().subset_of(prev.vars()[w.id as int].domain()));
        assert(gf.domain().contains(gf.domain().choose()));
        assert(gf.domain().choose() == x);
        assert(gw.domain().contains(gw.domain().choose()));
    }

    /// A report about a variable other than the pruned one, or about an
    /// unchanged one, stays a report.
    pub proof fn lemma_report_kept(
        before: &VarSet<V>,
        after: &VarSet<V>,
        listed: Seq<DomainUpdate>,
        now: Seq<DomainUpdate>,
        u: DomainUpdate,
        v: VarId,
    )
        requires
            recorded(listed, now, u),
            before.reports(listed, v),
            after.dom(v) == before.dom(v),
        ensures
            after.reports(now, v),
    {
        let k = choose|k: int|
            0 <= k < listed.len() && (#[trigger] listed[k]).var_id() == v && !(listed[k] is Unchanged)
                && before.current(listed[k]);
        assert(now[k] == listed[k]);
    }

    /// Recording a pruning keeps the account.
    pub proof fn lemma_after_prune(
        &self,
        start: &VarSet<V>,
        before: &VarSet<V>,
        after: &VarSet<V>,
        listed: Seq<DomainUpdate>,
        now: Seq<DomainUpdate>,
        seen: Seq<VarId>,
        w: VarId,
        x: V::Value,
    )
        requires
            before.wf(),
            before.valid(w),
            after.is_update_of(before, w, before.dom(w).remove(x)),
            after.refines(before),
            removal_outcome(before.dom(w), x, w) is Ok,
            recorded(listed, now, removal_outcome(before.dom(w), x, w)->Ok_0),
            self.accounted(start, before, listed, seen),
        ensures
            self.accounted(start, after, now, seen),
    {
        let u = removal_outcome(before.dom(w), x, w)->Ok_0;
        before.vars()[w.id as int].lemma_wf();
        if after.dom(w) != before.dom(w) {
            assert(before.dom(w).contains(x)) by {
                if !before.dom(w).contains(x) {
                    assert(before.dom(w).remove(x) =~= before.dom(w));
                }
            }
            assert(now.contains(u)) by {
                if !listed.contains(u) {
                    assert(now[listed.len() as int] == u);
                } else {
                    let k = choose|k: int| 0 <= k < listed.len() && listed[k] == u;
                    assert(now[k] == u);
                }
            }
            let k = choose|k: int| 0 <= k < now.len() && now[k] == u;
            assert(now[k].var_id() == w);
            assert(after.reports(now, w));
        }
        assert forall|v: VarId|
            after.valid(v) && #[trigger] after.dom(v) != start.dom(v) implies after.reports(
            now,
            v,
        ) by {
            if after.dom(v) == before.dom(v) {
                assert(after.vars()[v.id as int].domain() == before.vars()[v.id as int].domain());
                Self::lemma_report_kept(before, after, listed, now, u, v);
            } else {
                assert(v == w);
            }
        }
        assert forall|v: VarId| after.valid(v) && seen.contains(v) implies #[trigger] self.settled(
            after,
            v,
        ) || after.reports(now, v) by {
            if after.dom(v) == before.dom(v) {
                if self.settled(before, v) {
                    self.lemma_settled_kept(before, after, v);
                } else {
                    Self::lemma_report_kept(before, after, listed, now, u, v);
                }
            } else {
                assert(v == w);
            }
        }
    }
}

/// The values up to `i`, one more than up to `i - 1`.
pub proof fn lemma_take_contains(s: Seq<VarId>, i: int, v: VarId)
    requires
        0 <= i < s.len(),
        s.no_duplicates(),
    ensures
        s.take(i + 1).contains(v) <==> (s.take(i).contains(v) || s[i] == v),
        !s.take(i).contains(s[i]),
        s.take(i + 1).contains(v) ==> s.contains(v),
{
    let a = s.take(i);
    let b = s.take(i + 1);
    assert(b[i] == s[i]);
    if a.contains(v) {
        let k = choose|k: int| 0 <= k < a.len() && a[k] == v;
        assert(b[k] == v);
    }
    if b.contains(v) {
        let k = choose|k: int| 0 <= k < b.len() && b[k] == v;
        assert(s[k] == v);
        if k < i {
            assert(a[k] == v);
        }
    }
    if a.contains(s[i]) {
        let k = choose|k: int| 0 <= k < a.len() && a[k] == s[i];
        assert(s[k] == s[i]);
    }
}

impl<V: Variable> Propagate for AllDifferent<V> {
    type Variable = V;

    open spec fn watched(&self) -> Set<VarId> {
        self.vars().to_set()
    }

    closed spec fn spec_id(&self) -> PropId {
        self.id
    }

    open spec fn wf(&self) -> bool {
        self.vars().no_duplicates()
    }

    /// If `v` is watched and ground, no other watched variable holds its
    /// value.
    open spec fn settled(&self, vars: &VarSet<V>, v: VarId) -> bool {
        self.vars().contains(v) && vars.valid(v) && vars.dom(v).len() == 1 ==> forall|w: VarId|
            self.vars().contains(w) && w != v && vars.valid(w) ==> !(#[trigger] vars.dom(
                w,
            )).contains(vars.dom(v).choose())
    }

    proof fn lemma_settled_unwatched(&self, vars: &VarSet<V>, v: VarId) {
    }

    proof fn lemma_settled_kept(&self, a: &VarSet<V>, b: &VarSet<V>, v: VarId) {
        if self.vars().contains(v) && b.valid(v) && b.dom(v).len() == 1 {
            assert forall|w: VarId|
                self.vars().contains(w) && w != v && b.valid(w) implies !(#[trigger] b.dom(
                w,
            )).contains(b.dom(v).choose()) by {
                assert(!a.dom(w).contains(a.dom(v).choose()));
                assert(b.vars()[w.id as int].domain().subset_of(a.vars()[w.id as int].domain()));
            }
        }
    }

    /// Acts only when `update` reports that a watched variable is ground:
    /// then the value of that variable leaves the domain of every other
    /// watched variable, each removal is reported, and the call fails
    /// exactly if one of them has no other value.
    fn propagate(&mut self, vars: &mut VarSet<V>, update: DomainUpdate) -> (r: Result<
        Vec<DomainUpdate>,
        (),
    >)
        ensures
            *final(self) == *old(self),
            !old(self).acts(update) ==> {
                &&& r matches Ok(u) && u@.len() == 0
                &&& *final(vars) == *old(vars)
            },
            old(self).acts(update) ==> {
                let f = update.var_id();
                let x = old(vars).dom(f).choose();
                &&& r is Err <==> old(self).clash(old(vars), f, x)
                &&& r matches Ok(u) ==> {
                    &&& forall|v: VarId|
                        final(vars).valid(v) ==> #[trigger] final(vars).dom(v) == old(
                            self,
                        ).pruned_dom(old(vars), f, x, v)
                    &&& forall|k: int|
                        0 <= k < u@.len() ==> {
                            &&& old(self).vars().contains((#[trigger] u@[k]).var_id())
                            &&& u@[k].var_id() != f
                            &&& u@[k] == Self::report(old(vars), x, u@[k].var_id())
                        }
                    &&& forall|w: VarId|
                        old(self).vars().contains(w) && w != f ==> u@.contains(
                            #[trigger] Self::report(old(vars), x, w),
                        )
                }
            },
    {
        let mut domain_updates: Vec<DomainUpdate> = Vec::new();
        if let DomainUpdate::Fixed(fixed_id) = update {
            if holds(&self.var_ids, fixed_id) {
                let found = vars.var(fixed_id).value();
                let value = found.unwrap();
                let ghost x = old(vars).dom(fixed_id).choose();
                proof {
                    assert(set![value].contains(value));
                    assert(x == value);
                }
                let mut i: usize = 0;
                while i < self.var_ids.len()
                    invariant
                        i <= self.var_ids.len(),
                        *self == *old(self),
                        self.wf(),
                        within(self.watched(), vars.len()),
                        old(vars).wf(),
                        old(vars).dom(fixed_id) == set![value],
                        old(vars).dom(fixed_id).choose() == value,
                        old(vars).valid(fixed_id),
                        update == DomainUpdate::Fixed(fixed_id),
                        self.var_ids@.contains(fixed_id),
                        vars.wf(),
                        vars.narrows(old(vars)),
                        vars.keeps_alive(old(vars)),
                        vars.describes_all(domain_updates@),
                        changes(domain_updates@) + vars.total() <= old(vars).total(),
                        forall|v: VarId|
                            vars.valid(v) ==> #[trigger] vars.dom(v) == if self.var_ids@.take(
                                i as int,
                            ).contains(v) && v != fixed_id {
                                old(vars).dom(v).remove(value)
                            } else {
                                old(vars).dom(v)
                            },
                        forall|v: VarId|
                            self.var_ids@.take(i as int).contains(v) && v != fixed_id ==> #[trigger] old(
                                vars,
                            ).dom(v) != set![value],
                        forall|k: int|
                            0 <= k < domain_updates@.len() ==> {
                                &&& self.var_ids@.take(i as int).contains(
                                    (#[trigger] domain_updates@[k]).var_id(),
                                )
                                &&& domain_updates@[k].var_id() != fixed_id
                                &&& domain_updates@[k] == Self::report(
                                    old(vars),
                                    value,
                                    domain_updates@[k].var_id(),
                                )
                            },
                        forall|w: VarId|
                            self.var_ids@.take(i as int).contains(w) && w != fixed_id
                                ==> domain_updates@.contains(
                                #[trigger] Self::report(old(vars), value, w),
                            ),
                    decreases self.var_ids.len() - i,
                {
                    let var_id = self.var_ids[i];
                    let ghost before = *vars;
                    let ghost listed = domain_updates@;
                    proof {
                        assert(self.watched().contains(var_id));
                        assert forall|v: VarId|
                            self.var_ids@.take(i + 1).contains(v) <==> (self.var_ids@.take(
                                i as int,
                            ).contains(v) || v == var_id) by {
                            lemma_take_contains(self.var_ids@, i as int, v);
                        }
                        lemma_take_contains(self.var_ids@, i as int, var_id);
                        assert(vars.dom(var_id) == old(vars).dom(var_id));
                    }
                    if var_id != fixed_id {
                        match prune(vars, var_id, &value, &mut domain_updates) {
                            Ok(done) => {
                                proof {
                                    let u = Self::report(old(vars), value, var_id);
                                    assert(u.var_id() == var_id);
                                    assert(domain_updates@ == listed || domain_updates@
                                        == listed.push(u));
                                    assert(listed.push(u)[listed.len() as int] == u);
                                    assert(domain_updates@.contains(u)) by {
                                        if listed.contains(u) {
                                        } else {
                                            assert(domain_updates@[listed.len() as int] == u);
                                        }
                                    }
                                    assert forall|w: VarId|
                                        self.var_ids@.take(i as int).contains(w) && w
                                            != fixed_id implies domain_updates@.contains(
                                        #[trigger] Self::report(old(vars), value, w),
                                    ) by {
                                        let d = Self::report(old(vars), value, w);
                                        let q = choose|q: int| 0 <= q < listed.len() && listed[q] == d;
                                        assert(domain_updates@[q] == d);
                                    }
                                    assert forall|v: VarId| vars.valid(v) implies #[trigger] vars.dom(
                                        v,
                                    ) == if self.var_ids@.take(i + 1).contains(v) && v
                                        != fixed_id {
                                        old(vars).dom(v).remove(value)
                                    } else {
                                        old(vars).dom(v)
                                    } by {
                                        if v != var_id {
                                            assert(vars.vars()[v.id as int].domain()
                                                == before.vars()[v.id as int].domain());
                                            assert(before.dom(v) == if self.var_ids@.take(
                                                i as int,
                                            ).contains(v) && v != fixed_id {
                                                old(vars).dom(v).remove(value)
                                            } else {
                                                old(vars).dom(v)
                                            });
                                        }
                                    }
                                }
                            },
                            Err(e) => {
                                proof {
                                    assert(self.vars().contains(var_id));
                                    assert(old(vars).dom(var_id) == set![value]);
                                    assert(old(vars).dom(var_id).contains(value));
                                    assert(!self.settled(old(vars), fixed_id));
                                    assert forall|g: &VarSet<V>|
                                        g.wf() && g.ground() && g.refines(old(vars)) && (forall|
                                            v: VarId,
                                        |
                                            g.valid(v) ==> #[trigger] self.settled(
                                                g,
                                                v,
                                            )) implies false by {
                                        assert(self.settled(g, fixed_id));
                                        self.lemma_sound(old(vars), g, fixed_id, value, var_id);
                                    }
                                }
                                return Err(());
                            },
                        }
                    }
                    i += 1;
                }
                proof {
                    assert(self.var_ids@.take(i as int) =~= self.var_ids@);
                    if self.clash(old(vars), fixed_id, value) {
                        let w = choose|w: VarId|
                            self.vars().contains(w) && w != fixed_id && #[trigger] old(vars).dom(w)
                                == set![value];
                        assert(false);
                    }
                    assert(vars.dom(fixed_id) == old(vars).dom(fixed_id));
                    if self.settled(old(vars), fixed_id) {
                        assert forall|k: int| 0 <= k < domain_updates@.len() implies (
                        #[trigger] domain_updates@[k]) is Unchanged by {
                            let w = domain_updates@[k].var_id();
                            assert(self.watched().contains(w));
                            assert(!old(vars).dom(w).contains(value));
                        }
                        lemma_changes_none(domain_updates@);
                        assert forall|i: int| 0 <= i < vars.len() implies (#[trigger] vars.vars()[i]).domain()
                            == old(vars).vars()[i].domain() by {
                            let v = VarId { id: i as usize };
                            assert(vars.dom(v) == self.pruned_dom(old(vars), fixed_id, value, v));
                            if self.vars().contains(v) && v != fixed_id {
                                assert(!old(vars).dom(v).contains(value));
                                assert(old(vars).dom(v).remove(value) =~= old(vars).dom(v));
                            }
                        }
                    }
                    assert forall|g: &VarSet<V>|
                        g.wf() && g.ground() && g.refines(old(vars)) && (forall|v: VarId|
                            g.valid(v) ==> #[trigger] self.settled(g, v)) implies #[trigger] g.refines(
                        vars,
                    ) by {
                        assert(self.settled(g, fixed_id));
                        assert forall|i: int| 0 <= i < g.len() implies (#[trigger] g.vars()[i]).domain().subset_of(
                            vars.vars()[i].domain(),
                        ) by {
                            let v = VarId { id: i as usize };
                            assert(g.vars()[i].domain().subset_of(old(vars).vars()[i].domain()));
                            assert(vars.dom(v) == self.pruned_dom(old(vars), fixed_id, value, v));
                            if self.vars().contains(v) && v != fixed_id {
                                self.lemma_sound(old(vars), g, fixed_id, value, v);
                            }
                        }
                    }
                    assert forall|v: VarId|
                        vars.valid(v) && #[trigger] vars.dom(v) != old(vars).dom(
                            v,
                        ) implies vars.reports(domain_updates@, v) by {
                        old(vars).vars()[v.id as int].lemma_wf();
                        let d = Self::report(old(vars), value, v);
                        assert(domain_updates@.contains(d));
                        let k = choose|k: int|
                            0 <= k < domain_updates@.len() && domain_updates@[k] == d;
                        assert(old(vars).dom(v).contains(value)) by {
                            if !old(vars).dom(v).contains(value) {
                                assert(old(vars).dom(v).remove(value) =~= old(vars).dom(v));
                            }
                        }
                        assert(domain_updates@[k].var_id() == v);
                    }
                }
            }
        }
        proof {
            if let DomainUpdate::Fixed(f) = update {
            } else {
                assert(old(vars).current(update) ==> old(vars).dom(update.var_id()).len() != 1);
            }
        }
        Ok(domain_updates)
    }

    /// Subscribes once to each watched variable; then, for each watched
    /// variable in turn that is ground by then, takes its value from every
    /// other watched variable, and fails if one of them has no other value.
    fn initial_propagation(&mut self, vars: &mut VarSet<V>) -> (r: Result<Vec<DomainUpdate>, ()>)
        ensures
            *final(self) == *old(self),
            forall|v: VarId|
                final(vars).valid(v) ==> #[trigger] final(vars).subs()[v.id as int] == if old(
                    self,
                ).vars().contains(v) {
                    old(vars).subs()[v.id as int].push(old(self).spec_id())
                } else {
                    old(vars).subs()[v.id as int]
                },
            r is Ok <==> old(self).sweep(old(vars).dom_map(), old(self).vars().len()) is Some,
            r is Ok ==> Some(final(vars).dom_map()) == old(self).sweep(
                old(vars).dom_map(),
                old(self).vars().len(),
            ),
    {
        proof {
            lemma_subscribed_none(vars.subs(), self.id);
        }
        let mut s: usize = 0;
        while s < self.var_ids.len()
            invariant
                s <= self.var_ids.len(),
                *self == *old(self),
                self.wf(),
                within(self.watched(), vars.len()),
                vars.wf(),
                vars.vars() == old(vars).vars(),
                vars.ids() == old(vars).ids(),
                subscribed(old(vars).subs(), vars.subs(), self.id),
                listens(vars.subs(), self.var_ids@.take(s as int).to_set(), self.id),
                forall|v: VarId|
                    vars.valid(v) ==> #[trigger] vars.subs()[v.id as int] == if self.var_ids@.take(
                        s as int,
                    ).contains(v) {
                        old(vars).subs()[v.id as int].push(self.id)
                    } else {
                        old(vars).subs()[v.id as int]
                    },
            decreases self.var_ids.len() - s,
        {
            let var_id = self.var_ids[s];
            let ghost lists = vars.subs();
            assert(self.watched().contains(var_id));
            proof {
                lemma_subscribed_step(old(vars).subs(), vars.subs(), var_id.id as int, self.id);
            }
            vars.subscribe(var_id, self.id);
            proof {
                let slot = var_id.id as int;
                assert(vars.subs()[slot][lists[slot].len() as int] == self.id);
                assert forall|v: VarId| vars.valid(v) implies #[trigger] vars.subs()[v.id as int]
                    == if self.var_ids@.take(s + 1).contains(v) {
                    old(vars).subs()[v.id as int].push(self.id)
                } else {
                    old(vars).subs()[v.id as int]
                } by {
                    lemma_take_contains(self.var_ids@, s as int, v);
                    if v != var_id {
                        assert(vars.subs()[v.id as int] == lists[v.id as int]);
                    }
                }
                assert forall|v: VarId| #[trigger]
                    self.var_ids@.take(s + 1).to_set().contains(v) implies vars.subs()[v.id as int].contains(
                    self.id,
                ) by {
                    lemma_take_contains(self.var_ids@, s as int, v);
                    assert(self.watched().contains(v));
                    if v != var_id {
                        assert(self.var_ids@.take(s as int).to_set().contains(v));
                        assert(vars.subs()[v.id as int] == lists[v.id as int]);
                    }
                }
            }
            s += 1;
        }
        proof {
            assert(self.var_ids@.take(s as int) =~= self.var_ids@);
        }
        let ghost start = *vars;
        proof {
            assert(vars.dom_map() =~= old(vars).dom_map());
        }
        let mut domain_updates: Vec<DomainUpdate> = Vec::new();
        let mut i: usize = 0;
        while i < self.var_ids.len()
            invariant
                i <= self.var_ids.len(),
                *self == *old(self),
                self.wf(),
                within(self.watched(), vars.len()),
                vars.wf(),
                start.wf(),
                start.vars() == old(vars).vars(),
                start.ids() == old(vars).ids(),
                subscribed(old(vars).subs(), start.subs(), self.id),
                listens(start.subs(), self.watched(), self.id),
                forall|v: VarId|
                    start.valid(v) ==> #[trigger] start.subs()[v.id as int] == if self.var_ids@.contains(
                        v,
                    ) {
                        old(vars).subs()[v.id as int].push(self.id)
                    } else {
                        old(vars).subs()[v.id as int]
                    },
                vars.narrows(&start),
                vars.keeps_alive(&start),
                vars.describes_all(domain_updates@),
                changes(domain_updates@) + vars.total() <= start.total(),
                self.accounted(&start, vars, domain_updates@, self.var_ids@.take(i as int)),
                self.sweep(old(vars).dom_map(), i as nat) == Some(vars.dom_map()),
                forall|g: &VarSet<V>|
                    g.wf() && g.ground() && g.refines(&start) && (forall|v: VarId|
                        g.valid(v) ==> #[trigger] self.settled(g, v)) ==> #[trigger] g.refines(vars),
            decreases self.var_ids.len() - i,
        {
            let var_id = self.var_ids[i];
            assert(self.watched().contains(var_id));
            let ghost seen = self.var_ids@.take(i as int);
            let ghost turn = *vars;
            if let Some(value) = vars.var(var_id).value() {
                proof {
                    assert(set![value].contains(value));
                    assert(turn.dom_map()[var_id] == set![value]);
                }
                let mut j: usize = 0;
                while j < self.var_ids.len()
                    invariant
                        j <= self.var_ids.len(),
                        0 <= i < self.var_ids.len(),
                        var_id == self.var_ids@[i as int],
                        seen == self.var_ids@.take(i as int),
                        *self == *old(self),
                        self.wf(),
                        within(self.watched(), vars.len()),
                        vars.wf(),
                        start.wf(),
                        start.vars() == old(vars).vars(),
                        start.ids() == old(vars).ids(),
                        subscribed(old(vars).subs(), start.subs(), self.id),
                        listens(start.subs(), self.watched(), self.id),
                        forall|v: VarId|
                            start.valid(v) ==> #[trigger] start.subs()[v.id as int]
                                == if self.var_ids@.contains(v) {
                                old(vars).subs()[v.id as int].push(self.id)
                            } else {
                                old(vars).subs()[v.id as int]
                            },
                        vars.narrows(&start),
                        vars.keeps_alive(&start),
                        vars.describes_all(domain_updates@),
                        changes(domain_updates@) + vars.total() <= start.total(),
                        self.accounted(&start, vars, domain_updates@, seen),
                        forall|g: &VarSet<V>|
                            g.wf() && g.ground() && g.refines(&start) && (forall|v: VarId|
                                g.valid(v) ==> #[trigger] self.settled(g, v)) ==> #[trigger] g.refines(vars),
                        vars.valid(var_id),
                        vars.dom(var_id) == set![value],
                        forall|v: VarId|
                            self.var_ids@.take(j as int).contains(v) && v != var_id ==> !(
                            #[trigger] vars.dom(v)).contains(value),
                        turn.wf(),
                        turn.len() == vars.len(),
                        turn.dom(var_id) == set![value],
                        self.sweep(old(vars).dom_map(), i as nat) == Some(turn.dom_map()),
                        forall|v: VarId|
                            vars.valid(v) ==> #[trigger] vars.dom(v) == if self.var_ids@.take(
                                j as int,
                            ).contains(v) && v != var_id {
                                turn.dom(v).remove(value)
                            } else {
                                turn.dom(v)
                            },
                        forall|v: VarId|
                            self.var_ids@.take(j as int).contains(v) && v != var_id ==> #[trigger] turn.dom(
                                v,
                            ) != set![value],
                    decreases self.var_ids.len() - j,
                {
                    let other = self.var_ids[j];
                    assert(self.watched().contains(other));
                    let ghost before = *vars;
                    let ghost listed = domain_updates@;
                    if var_id != other {
                        match prune(vars, other, &value, &mut domain_updates) {
                            Ok(done) => {
                                proof {
                                    self.lemma_after_prune(
                                        &start,
                                        &before,
                                        vars,
                                        listed,
                                        domain_updates@,
                                        seen,
                                        other,
                                        value,
                                    );
                                    assert(vars.vars()[var_id.id as int].domain()
                                        == before.vars()[var_id.id as int].domain());
                                    assert forall|g: &VarSet<V>|
                                        g.wf() && g.ground() && g.refines(&start) && (forall|
                                            v: VarId,
                                        |
                                            g.valid(v) ==> #[trigger] self.settled(
                                                g,
                                                v,
                                            )) implies #[trigger] g.refines(vars) by {
                                        assert(g.refines(&before));
                                        assert(self.settled(g, var_id));
                                        self.lemma_sound(&before, g, var_id, value, other);
                                        assert forall|i: int| 0 <= i < g.len() implies (
                                        #[trigger] g.vars()[i]).domain().subset_of(
                                            vars.vars()[i].domain(),
                                        ) by {
                                            assert(g.vars()[i].domain().subset_of(
                                                before.vars()[i].domain(),
                                            ));
                                            if i != other.id {
                                                assert(vars.vars()[i].domain()
                                                    == before.vars()[i].domain());
                                            }
                                        }
                                    }
                                }
                            },
                            Err(e) => {
                                proof {
                                    lemma_take_contains(self.var_ids@, j as int, other);
                                    assert(before.dom(other) == turn.dom(other));
                                    assert(turn.dom_map()[other] == set![turn.dom_map()[var_id].choose()]);
                                    assert(self.vars().contains(other));
                                    assert(self.exclude_from(turn.dom_map(), var_id) is None);
                                    assert(self.sweep(old(vars).dom_map(), (i + 1) as nat) is None);
                                    self.lemma_sweep_none(
                                        old(vars).dom_map(),
                                        (i + 1) as nat,
                                        self.var_ids@.len(),
                                    );
                                    assert forall|g: &VarSet<V>|
                                        g.wf() && g.ground() && g.refines(old(vars)) && (forall|
                                            v: VarId,
                                        |
                                            g.valid(v) ==> #[trigger] self.settled(
                                                g,
                                                v,
                                            )) implies false by {
                                        assert(g.refines(&start));
                                        assert(g.refines(&before));
                                        assert(self.settled(g, var_id));
                                        self.lemma_sound(&before, g, var_id, value, other);
                                    }
                                }
                                return Err(());
                            },
                        }
                    }
                    proof {
                        assert forall|v: VarId|
                            self.var_ids@.take(j + 1).contains(v) && v != var_id implies !(
                        #[trigger] vars.dom(v)).contains(value) by {
                            lemma_take_contains(self.var_ids@, j as int, v);
                            assert(self.watched().contains(v));
                            if v != other {
                                assert(vars.vars()[v.id as int].domain()
                                    == before.vars()[v.id as int].domain());
                                assert(!before.dom(v).contains(value));
                            }
                        }
                        lemma_take_contains(self.var_ids@, j as int, other);
                        assert(before.dom(other) == turn.dom(other));
                        assert forall|v: VarId| vars.valid(v) implies #[trigger] vars.dom(v)
                            == if self.var_ids@.take(j + 1).contains(v) && v != var_id {
                            turn.dom(v).remove(value)
                        } else {
                            turn.dom(v)
                        } by {
                            lemma_take_contains(self.var_ids@, j as int, v);
                            if v != other {
                                assert(vars.vars()[v.id as int].domain()
                                    == before.vars()[v.id as int].domain());
                                assert(before.dom(v) == if self.var_ids@.take(j as int).contains(v)
                                    && v != var_id {
                                    turn.dom(v).remove(value)
                                } else {
                                    turn.dom(v)
                                });
                            }
                        }
                        assert forall|v: VarId|
                            self.var_ids@.take(j + 1).contains(v) && v != var_id implies #[trigger] turn.dom(
                            v,
                        ) != set![value] by {
                            lemma_take_contains(self.var_ids@, j as int, v);
                            if v == other {
                                assert(before.dom(other) != set![value]);
                            }
                        }
                    }
                    j += 1;
                }
                proof {
                    assert(self.var_ids@.take(j as int) =~= self.var_ids@);
                    assert(vars.dom(var_id).choose() == value);
                    assert(self.settled(vars, var_id));
                    let m = turn.dom_map();
                    assert(m[var_id].choose() == value);
                    assert(!(exists|w: VarId|
                        self.vars().contains(w) && w != var_id && #[trigger] m[w] == set![m[var_id].choose()])) by {
                        if exists|w: VarId|
                            self.vars().contains(w) && w != var_id && #[trigger] m[w] == set![m[var_id].choose()] {
                            let w = choose|w: VarId|
                                self.vars().contains(w) && w != var_id && #[trigger] m[w] == set![m[var_id].choose()];
                            assert(self.watched().contains(w));
                            assert(turn.dom(w) != set![value]);
                        }
                    }
                    assert(self.exclude_from(m, var_id) == Some(vars.dom_map())) by {
                        assert(vars.dom_map() =~= self.exclude_from(m, var_id)->Some_0);
                    }
                }
            } else {
                proof {
                    assert(turn.dom_map()[var_id].len() != 1);
                }
            }
            proof {
                assert forall|v: VarId|
                    vars.valid(v) && self.var_ids@.take(i + 1).contains(
                        v,
                    ) implies #[trigger] self.settled(vars, v) || vars.reports(domain_updates@, v) by {
                    lemma_take_contains(self.var_ids@, i as int, v);
                    if v == var_id {
                        assert(self.settled(vars, var_id));
                    }
                }
            }
            i += 1;
        }
        proof {
            assert(self.var_ids@.take(i as int) =~= self.var_ids@);
            assert forall|v: VarId| vars.valid(v) implies #[trigger] self.settled(vars, v)
                || vars.reports(domain_updates@, v) by {
                if !self.var_ids@.contains(v) {
                    self.lemma_settled_unwatched(vars, v);
                }
            }
            assert forall|v: VarId|
                vars.valid(v) && #[trigger] vars.dom(v) != old(vars).dom(v) implies vars.reports(
                domain_updates@,
                v,
            ) by {
                assert(start.dom(v) == old(vars).dom(v));
            }
            assert forall|g: &VarSet<V>|
                g.wf() && g.ground() && g.refines(old(vars)) && (forall|v: VarId|
                    g.valid(v) ==> #[trigger] self.settled(g, v)) implies #[trigger] g.refines(
                vars,
            ) by {
                assert(g.refines(&start));
            }
        }
        Ok(domain_updates)
    }

    fn boxed_clone(&self) -> (r: Box<Self>) {
        let mut list: Vec<VarId> = Vec::new();
        let mut i: usize = 0;
        while i < self.var_ids.len()
            invariant
                i <= self.var_ids.len(),
                list@ == self.var_ids@.take(i as int),
            decreases self.var_ids.len() - i,
        {
            list.push(self.var_ids[i]);
            proof {
                assert(self.var_ids@.take(i + 1) =~= self.var_ids@.take(i as int).push(
                    self.var_ids@[i as int],
                ));
            }
            i += 1;
        }
        proof {
            assert(self.var_ids@.take(i as int) =~= self.var_ids@);
        }
        Box::new(AllDifferent { id: self.id, var_ids: list, phantom: PhantomData })
    }

    fn set_id(&mut self, id: PropId) {
        self.id = id;
    }
}

/// Lists extend themselves.
pub proof fn lemma_subscribed_none(lists: Seq<Seq<PropId>>, id: PropId)
    ensures
        subscribed(lists, lists, id),
{
    assert forall|i: int| 0 <= i < lists.len() implies (#[trigger] lists[i]).take(
        lists[i].len() as int,
    ) == lists[i] by {
        assert(lists[i].take(lists[i].len() as int) =~= lists[i]);
    }
}

/// One more subscription of `id` keeps the lists an extension by `id`.
pub proof fn lemma_subscribed_step(
    before: Seq<Seq<PropId>>,
    now: Seq<Seq<PropId>>,
    i: int,
    id: PropId,
)
    requires
        subscribed(before, now, id),
        0 <= i < now.len(),
    ensures
        subscribed(before, now.update(i, now[i].push(id)), id),
{
    let next = now.update(i, now[i].push(id));
    assert forall|j: int| 0 <= j < next.len() implies {
        &&& before[j].len() <= (#[trigger] next[j]).len()
        &&& next[j].take(before[j].len() as int) == before[j]
        &&& forall|k: int| before[j].len() <= k < next[j].len() ==> next[j][k] == id
    } by {
        assert(now[j].take(before[j].len() as int) == before[j]);
        if j == i {
            assert(next[j].take(before[j].len() as int) =~= now[j].take(before[j].len() as int));
        }
    }
}

} // verus!
