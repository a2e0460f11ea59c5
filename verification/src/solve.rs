//! Propagation to a fixed point, branching, and the depth-first search that
//! yields solutions one at a time.
use crate::propagate::{changes, PropId, PropSet, Propagate};
use crate::var::{copy_prop_ids, lemma_total_update, DomainUpdate, VarId, VarSet, Variable};
use std::collections::HashSet;
use std::collections::VecDeque;
use vstd::prelude::*;
use vstd::std_specs::iter::IteratorSpec;

verus! {

broadcast use vstd::std_specs::hash::group_hash_axioms;

/// The first value of `s`, if it has one.
pub open spec fn first_of<T>(s: Seq<T>) -> Option<T> {
    if s.len() > 0 {
        Some(s[0])
    } else {
        None
    }
}

/// Whether every subscription names one of the first `n` propagators.
pub open spec fn subs_valid(subs: Seq<Seq<PropId>>, n: nat) -> bool {
    forall|i: int, k: int|
        0 <= i < subs.len() && 0 <= k < subs[i].len() ==> (#[trigger] subs[i][k]).id < n
}

/// A set of indices below `n` has at most `n` elements.
pub proof fn lemma_bounded_set(s: Set<usize>, n: nat)
    requires
        s.finite(),
        forall|x: usize| s.contains(x) ==> x < n,
    ensures
        s.len() <= n,
    decreases n,
{
    if n == 0 {
        assert(s =~= Set::empty());
    } else {
        let top = (n - 1) as usize;
        if s.contains(top) {
            lemma_bounded_set(s.remove(top), (n - 1) as nat);
        } else {
            lemma_bounded_set(s, (n - 1) as nat);
        }
    }
}

/// A copy of a set of indices.
pub fn copy_index_set(s: &HashSet<usize>) -> (r: HashSet<usize>)
    ensures
        r@ == s@,
{
    let mut out: HashSet<usize> = HashSet::new();
    for x in it: s.iter()
        invariant
            it.seq() == s.iter().remaining(),
            out@ == it.seq().take(it.index@).unref().to_set(),
    {
        proof {
            let all = it.seq().unref();
            crate::var::lemma_take_to_set(all, it.index@);
            assert(it.seq().take(it.index@).unref() =~= all.take(it.index@));
            assert(it.seq().take(it.index@ + 1).unref() =~= all.take(it.index@ + 1));
        }
        out.insert(*x);
    }
    proof {
        let all = s.iter().remaining();
        assert(all.take(all.len() as int) =~= all);
    }
    out
}

/// One node of the search: the variables, the propagators, and the
/// variables that the search has branched on and fixed.
#[verifier::reject_recursive_types(V)]
#[verifier::reject_recursive_types(P)]
pub struct SearchState<V: Variable, P: Propagate<Variable = V>> {
    pub var_set: VarSet<V>,
    pub prop_set: PropSet<P>,
    pub instantiated_vars: HashSet<usize>,
}

impl<V: Variable, P: Propagate<Variable = V>> SearchState<V, P> {
    /// Stores and registry are well-formed and refer only to each other's
    /// handles.
    pub open spec fn coherent(&self) -> bool {
        &&& self.var_set.wf()
        &&& self.prop_set.wf()
        &&& self.prop_set.fits(self.var_set.len())
        &&& subs_valid(self.var_set.subs(), self.prop_set.len())
        &&& self.instantiated_vars@.finite()
    }

    /// Whether the search has branched on `v` and fixed it.
    pub open spec fn instantiated(&self, v: VarId) -> bool {
        self.instantiated_vars@.contains(v.id)
    }

    /// The state is coherent, and every variable that the search has fixed
    /// is a variable of the store with exactly one value.
    pub open spec fn wf(&self) -> bool {
        &&& self.coherent()
        &&& forall|i: usize| #[trigger]
            self.instantiated_vars@.contains(i) ==> i < self.var_set.len()
                && self.var_set.vars()[i as int].domain().len() == 1
    }

    /// Whether `g` is a solution within this state: it holds one value for
    /// each variable, taken from the domain that the variable has here, and
    /// gives no propagator anything to prune.
    pub open spec fn admits(&self, g: &VarSet<V>) -> bool {
        &&& g.wf()
        &&& g.ground()
        &&& g.refines(&self.var_set)
        &&& forall|q: int, v: VarId|
            0 <= q < self.prop_set.len() && g.valid(v) ==> #[trigger] self.prop_set.props()[q].settled(
                g,
                v,
            )
    }

    /// A solution within this state is a solution within any state whose
    /// domains hold it and whose propagators judge as these do.
    pub proof fn lemma_admits_transfer(&self, to: &Self, g: &VarSet<V>)
        requires
            self.admits(g),
            g.refines(&to.var_set),
            to.prop_set.len() == self.prop_set.len(),
            to.prop_set.copies(&self.prop_set) || self.prop_set.copies(&to.prop_set),
        ensures
            to.admits(g),
    {
        assert forall|q: int, v: VarId|
            0 <= q < to.prop_set.len() && g.valid(v) implies #[trigger] to.prop_set.props()[q].settled(
            g,
            v,
        ) by {
            assert(self.prop_set.props()[q].settled(g, v));
        }
    }

    /// Whether the variable `v` gives the propagator number `q` nothing to
    /// prune.
    pub open spec fn settled(&self, q: int, v: VarId) -> bool {
        self.prop_set.props()[q].settled(&self.var_set, v)
    }

    /// Whether no variable gives any propagator anything to prune: the
    /// state is at a fixed point.
    pub open spec fn quiescent(&self) -> bool {
        forall|q: int, v: VarId|
            0 <= q < self.prop_set.len() && self.var_set.valid(v) ==> #[trigger] self.settled(q, v)
    }

    /// Whether every propagator is subscribed to every variable that it
    /// watches.
    pub open spec fn subscribed_all(&self) -> bool {
        forall|q: int, v: VarId|
            0 <= q < self.prop_set.len() && #[trigger] self.prop_set.props()[q].watched().contains(
                v,
            ) ==> self.var_set.subs()[v.id as int].contains(PropId { id: q as usize })
    }

    /// Whether a variable can be left unsettled for a propagator: only if it
    /// was so in `prev`, has not changed since, and is not the variable
    /// that a current `seed` is about.
    pub open spec fn excused(&self, prev: &Self, seed: DomainUpdate, q: int, v: VarId) -> bool {
        &&& !prev.settled(q, v)
        &&& self.var_set.dom(v) == prev.var_set.dom(v)
        &&& !(v == seed.var_id() && prev.var_set.current(seed))
    }

    /// Whether every variable is settled for every propagator, or excused,
    /// or has a current update waiting in `queue`, or is the variable of
    /// the current update `latest` that the propagators `rest` have still
    /// to hear of.
    pub open spec fn owes(
        &self,
        prev: &Self,
        seed: DomainUpdate,
        queue: Seq<DomainUpdate>,
        latest: DomainUpdate,
        rest: Seq<PropId>,
    ) -> bool {
        forall|q: int, v: VarId|
            0 <= q < self.prop_set.len() && self.var_set.valid(v) ==> {
                ||| #[trigger] self.settled(q, v)
                ||| self.excused(prev, seed, q, v)
                ||| self.var_set.announces(queue, v)
                ||| (v == latest.var_id() && self.var_set.current(latest) && rest.contains(
                    PropId { id: q as usize },
                ))
            }
    }

    /// Whether every variable is settled for every propagator, or excused.
    pub open spec fn restores(&self, prev: &Self, seed: DomainUpdate) -> bool {
        forall|q: int, v: VarId|
            0 <= q < self.prop_set.len() && self.var_set.valid(v) ==> {
                ||| #[trigger] self.settled(q, v)
                ||| self.excused(prev, seed, q, v)
            }
    }

    /// Whether `r` is the variable to branch on: `None` if the search has
    /// fixed every variable; else a variable that it has not fixed, with no
    /// more values than any other such variable, and created before any
    /// other such variable with as few.
    pub open spec fn is_choice(&self, r: Option<VarId>) -> bool {
        match r {
            None => forall|i: usize| i < self.var_set.len() ==> self.instantiated_vars@.contains(i),
            Some(v) => {
                &&& self.var_set.valid(v)
                &&& !self.instantiated(v)
                &&& forall|i: usize|
                    i < self.var_set.len() && !self.instantiated_vars@.contains(i) ==> {
                        let here = self.var_set.vars()[v.id as int].domain().len();
                        let there = (#[trigger] self.var_set.vars()[i as int]).domain().len();
                        here < there || (here == there && v.id <= i)
                    }
            },
        }
    }

    /// The choice of the variable to branch on is determined by the state.
    pub proof fn lemma_choice_unique(&self, a: Option<VarId>, b: Option<VarId>)
        requires
            self.is_choice(a),
            self.is_choice(b),
        ensures
            a == b,
    {
        match (a, b) {
            (Some(v), Some(w)) => {
                let dv = self.var_set.vars()[v.id as int];
                let dw = self.var_set.vars()[w.id as int];
                assert(dv.domain().len() <= dw.domain().len());
                assert(dw.domain().len() <= dv.domain().len());
                assert(v.id == w.id);
            },
            (Some(v), None) => {
                assert(self.instantiated_vars@.contains(v.id));
            },
            (None, Some(w)) => {
                assert(self.instantiated_vars@.contains(w.id));
            },
            (None, None) => {},
        }
    }

    /// A variable that the search has fixed has exactly one value.
    pub proof fn lemma_instantiated_ground(&self, v: VarId)
        requires
            self.wf(),
            self.instantiated(v),
        ensures
            self.var_set.valid(v),
            self.var_set.dom(v).len() == 1,
    {
    }

    /// What is left to decide: the candidate values, and the variables not
    /// yet fixed by the search.
    pub open spec fn effort(&self) -> nat {
        (self.var_set.total() + self.var_set.len() - self.instantiated_vars@.len()) as nat
    }

    /// Whether this state has the variables and propagators of `prev`, with
    /// domains that only shrank and none that ran empty.
    pub open spec fn descends(&self, prev: &Self) -> bool {
        &&& self.var_set.narrows(&prev.var_set)
        &&& self.var_set.keeps_alive(&prev.var_set)
        &&& self.prop_set.copies(&prev.prop_set)
    }

    /// A state that descends from a well-formed one with the same fixed
    /// variables is well-formed.
    pub proof fn lemma_wf_kept(&self, prev: &Self)
        requires
            prev.wf(),
            self.coherent(),
            self.var_set.refines(&prev.var_set),
            self.var_set.keeps_alive(&prev.var_set),
            self.instantiated_vars@ == prev.instantiated_vars@,
        ensures
            self.wf(),
    {
        assert forall|i: usize| #[trigger] self.instantiated_vars@.contains(i) implies i
            < self.var_set.len() && self.var_set.vars()[i as int].domain().len() == 1 by {
            prev.var_set.vars()[i as int].lemma_wf();
            vstd::set_lib::lemma_len_subset(
                self.var_set.vars()[i as int].domain(),
                prev.var_set.vars()[i as int].domain(),
            );
        }
    }

    /// An independent copy.
    pub fn duplicate(&self) -> (r: Self)
        requires
            self.wf(),
        ensures
            r.wf(),
            r.var_set.same_as(&self.var_set),
            r.prop_set.copies(&self.prop_set),
            r.instantiated_vars@ == self.instantiated_vars@,
    {
        SearchState {
            var_set: self.var_set.duplicate(),
            prop_set: self.prop_set.duplicate(),
            instantiated_vars: copy_index_set(&self.instantiated_vars),
        }
    }

    /// Runs the propagators subscribed to the changed variable, then those
    /// subscribed to what they changed, until nothing changes or a domain
    /// runs empty.
    pub fn propagate(&mut self, update: DomainUpdate) -> (r: Result<(), ()>)
        requires
            old(self).coherent(),
            old(self).var_set.describes(update),
        ensures
            final(self).coherent(),
            final(self).var_set.narrows(&old(self).var_set),
            final(self).prop_set.same_as(&old(self).prop_set),
            final(self).instantiated_vars@ == old(self).instantiated_vars@,
            r is Ok ==> final(self).var_set.keeps_alive(&old(self).var_set),
            r is Ok && old(self).wf() ==> final(self).wf(),
            update is Unchanged ==> r is Ok && final(self).var_set.same_as(&old(self).var_set),
            old(self).subscribed_all() ==> final(self).subscribed_all(),
            r is Ok && old(self).subscribed_all() ==> final(self).restores(old(self), update),
            final(self).prop_set.copies(&old(self).prop_set),
            forall|g: &VarSet<V>| #[trigger] old(self).admits(g) ==> r is Ok && final(self).admits(g),
    {
        let mut queue: VecDeque<DomainUpdate> = VecDeque::new();
        queue.push_back(update);
        proof {
            if old(self).subscribed_all() {
                assert forall|q: int, v: VarId|
                    0 <= q < self.prop_set.len() && self.var_set.valid(v) implies {
                    ||| #[trigger] self.settled(q, v)
                    ||| self.excused(old(self), update, q, v)
                    ||| self.var_set.announces(queue@, v)
                } by {
                    if v == update.var_id() && self.var_set.current(update) {
                        assert(queue@[0] == update);
                    }
                }
            }
        }
        while queue.len() > 0
            invariant
                self.coherent(),
                old(self).var_set.wf(),
                self.var_set.narrows(&old(self).var_set),
                self.var_set.keeps_alive(&old(self).var_set),
                self.prop_set.copies(&old(self).prop_set),
                forall|g: &VarSet<V>| #[trigger] old(self).admits(g) ==> self.admits(g),
                self.instantiated_vars@ == old(self).instantiated_vars@,
                self.var_set.describes_all(queue@),
                update is Unchanged ==> {
                    &&& self.var_set.same_as(&old(self).var_set)
                    &&& queue@.len() <= 1
                    &&& queue@.len() == 1 ==> queue@[0] == update
                },
                old(self).subscribed_all() ==> self.subscribed_all() && self.owes(
                    old(self),
                    update,
                    queue@,
                    update,
                    Seq::empty(),
                ),
            decreases self.var_set.total() + queue.len(),
        {
            let ghost queued = queue@;
            let latest_update = queue.pop_front().unwrap();
            let ghost budget = self.var_set.total() + queue.len();
            let snapshot = copy_prop_ids(self.var_set.subscriptions(latest_update.var_id()));
            proof {
                if old(self).subscribed_all() {
                    assert(snapshot@.skip(0) =~= snapshot@);
                    assert forall|q: int, v: VarId|
                        0 <= q < self.prop_set.len() && self.var_set.valid(v) implies {
                        ||| #[trigger] self.settled(q, v)
                        ||| self.excused(old(self), update, q, v)
                        ||| self.var_set.announces(queue@, v)
                        ||| (v == latest_update.var_id() && self.var_set.current(latest_update)
                            && snapshot@.skip(0).contains(PropId { id: q as usize }))
                    } by {
                        if !self.settled(q, v) && !self.excused(old(self), update, q, v) {
                            assert(self.var_set.announces(queued, v));
                            let at = choose|at: int|
                                0 <= at < queued.len() && (#[trigger] queued[at]).var_id() == v
                                    && self.var_set.current(queued[at]);
                            if at == 0 {
                                if !self.prop_set.props()[q].watched().contains(v) {
                                    self.prop_set.props()[q].lemma_settled_unwatched(
                                        &self.var_set,
                                        v,
                                    );
                                }
                            } else {
                                assert(queue@[at - 1] == queued[at]);
                            }
                        }
                    }
                }
            }
            let mut k: usize = 0;
            while k < snapshot.len()
                invariant
                    k <= snapshot.len(),
                    self.coherent(),
                    old(self).var_set.wf(),
                    self.var_set.narrows(&old(self).var_set),
                    self.var_set.keeps_alive(&old(self).var_set),
                    self.prop_set.copies(&old(self).prop_set),
                    forall|g: &VarSet<V>| #[trigger] old(self).admits(g) ==> self.admits(g),
                    self.instantiated_vars@ == old(self).instantiated_vars@,
                    self.var_set.describes_all(queue@),
                    self.var_set.describes(latest_update),
                    snapshot@ == self.var_set.subs()[latest_update.var_id().id as int],
                    self.var_set.total() + queue.len() <= budget,
                    update is Unchanged ==> {
                        &&& self.var_set.same_as(&old(self).var_set)
                        &&& queue@.len() == 0
                        &&& latest_update == update
                    },
                    old(self).subscribed_all() ==> self.subscribed_all() && self.owes(
                        old(self),
                        update,
                        queue@,
                        latest_update,
                        snapshot@.skip(k as int),
                    ),
                decreases snapshot.len() - k,
            {
                let prop_id = snapshot[k];
                let ghost prev = self.var_set;
                let ghost before = *self;
                let ghost waiting = queue@;
                assert(self.prop_set.props()[prop_id.id as int].wf());
                let outcome = self.prop_set.propagator_mut(prop_id).propagate(
                    &mut self.var_set,
                    latest_update,
                );
                proof {
                    assert(self.prop_set.copies(&before.prop_set));
                    assert forall|g: &VarSet<V>| #[trigger] old(self).admits(g) implies outcome is Ok
                        && self.admits(g) by {
                        assert(before.admits(g));
                        assert forall|v: VarId| g.valid(v) implies #[trigger] before.prop_set.props()[prop_id.id as int].settled(
                        g, v) by {}
                        if g.refines(&self.var_set) {
                            before.lemma_admits_transfer(self, g);
                        }
                    }
                    if outcome is Ok {
                        self.var_set.lemma_describes_kept(&prev, latest_update);
                        assert forall|q: int| 0 <= q < waiting.len() implies self.var_set.describes(
                            #[trigger] waiting[q],
                        ) by {
                            self.var_set.lemma_describes_kept(&prev, waiting[q]);
                        }
                    }
                }
                let new_updates = match outcome {
                    Ok(u) => u,
                    Err(e) => {
                        return Err(());
                    },
                };
                let mut j: usize = 0;
                while j < new_updates.len()
                    invariant
                        j <= new_updates.len(),
                        self.var_set.describes_all(new_updates@),
                        self.var_set.describes_all(queue@),
                        queue.len() == waiting.len() + changes(new_updates@.take(j as int)),
                        queue.len() <= waiting.len() + changes(new_updates@),
                        forall|m: int| 0 <= m < waiting.len() ==> queue@[m] == waiting[m],
                        forall|m: int|
                            0 <= m < j && !(new_updates@[m] is Unchanged) ==> queue@.contains(
                                #[trigger] new_updates@[m],
                            ),
                    decreases new_updates.len() - j,
                {
                    let next_update = new_updates[j];
                    proof {
                        assert(new_updates@.take(j + 1).drop_last() =~= new_updates@.take(
                            j as int,
                        ));
                        crate::propagate::lemma_changes_take(new_updates@, j + 1);
                    }
                    let ghost grown = queue@;
                    match next_update {
                        DomainUpdate::Unchanged(v) => {},
                        other => {
                            queue.push_back(next_update);
                            proof {
                                assert(queue@[grown.len() as int] == next_update);
                                assert forall|m: int|
                                    0 <= m < j && !(new_updates@[m] is Unchanged) implies queue@.contains(
                                    #[trigger] new_updates@[m],
                                ) by {
                                    let at = choose|at: int|
                                        0 <= at < grown.len() && grown[at] == new_updates@[m];
                                    assert(queue@[at] == new_updates@[m]);
                                }
                            }
                        },
                    }
                    j += 1;
                }
                proof {
                    assert(new_updates@.take(j as int) =~= new_updates@);
                    if old(self).subscribed_all() {
                        self.lemma_step(
                            &before,
                            old(self),
                            update,
                            waiting,
                            queue@,
                            new_updates@,
                            latest_update,
                            snapshot@,
                            k as int,
                        );
                    }
                }
                k += 1;
            }
        }
        proof {
            if old(self).wf() {
                self.lemma_wf_kept(old(self));
            }
            if old(self).subscribed_all() {
                assert forall|q: int, v: VarId|
                    0 <= q < self.prop_set.len() && self.var_set.valid(v) implies {
                    ||| #[trigger] self.settled(q, v)
                    ||| self.excused(old(self), update, q, v)
                } by {
                    assert(!self.var_set.announces(queue@, v));
                    assert(!Seq::<PropId>::empty().contains(PropId { id: q as usize }));
                }
            }
        }
        Ok(())
    }

    /// A state at a fixed point is at a fixed point again when one variable
    /// has changed and the change has been propagated.
    pub proof fn lemma_branch_quiescent(&self, mid: &Self, start: &Self, update: DomainUpdate)
        requires
            start.quiescent(),
            start.var_set.wf(),
            mid.var_set.refines(&start.var_set),
            mid.prop_set.copies(&start.prop_set),
            self.prop_set.len() == mid.prop_set.len(),
            self.var_set.len() == mid.var_set.len(),
            forall|v: VarId|
                mid.var_set.valid(v) && v != update.var_id() ==> #[trigger] mid.var_set.dom(v)
                    == start.var_set.dom(v),
            mid.var_set.dom(update.var_id()) != start.var_set.dom(update.var_id())
                ==> mid.var_set.current(update),
            self.restores(mid, update),
        ensures
            self.quiescent(),
    {
        assert forall|q: int, v: VarId|
            0 <= q < self.prop_set.len() && self.var_set.valid(v) implies #[trigger] self.settled(
            q,
            v,
        ) by {
            if self.excused(mid, update, q, v) {
                assert(start.settled(q, v));
                if mid.var_set.dom(v) == start.var_set.dom(v) {
                    start.prop_set.props()[q].lemma_settled_kept(
                        &start.var_set,
                        &mid.var_set,
                        v,
                    );
                    assert(mid.prop_set.props()[q].settled(&mid.var_set, v)
                        == start.prop_set.props()[q].settled(&mid.var_set, v));
                }
            }
        }
    }

    /// One propagator has heard of `latest` and its reports have joined the
    /// queue: what is owed after the step.
    pub proof fn lemma_step(
        &self,
        before: &Self,
        start: &Self,
        seed: DomainUpdate,
        waiting: Seq<DomainUpdate>,
        queue: Seq<DomainUpdate>,
        new_updates: Seq<DomainUpdate>,
        latest: DomainUpdate,
        snapshot: Seq<PropId>,
        k: int,
    )
        requires
            0 <= k < snapshot.len(),
            snapshot[k].id < before.prop_set.len(),
            before.var_set.wf(),
            before.var_set.valid(latest.var_id()),
            before.owes(start, seed, waiting, latest, snapshot.skip(k)),
            self.var_set.narrows(&before.var_set),
            self.prop_set.len() == before.prop_set.len(),
            self.prop_set.len() <= usize::MAX,
            forall|q: int|
                0 <= q < self.prop_set.len() && q != snapshot[k].id ==> #[trigger] self.prop_set.props()[q]
                    == before.prop_set.props()[q],
            ({
                let p = before.prop_set.props()[snapshot[k].id as int];
                let after = self.prop_set.props()[snapshot[k].id as int];
                &&& before.var_set.current(latest) ==> after.settled(&self.var_set, latest.var_id())
                &&& forall|v: VarId|
                    p.settled(&self.var_set, v) ==> #[trigger] after.settled(&self.var_set, v)
            }),
            forall|v: VarId|
                self.var_set.valid(v) && #[trigger] self.var_set.dom(v) != before.var_set.dom(v)
                    ==> self.var_set.reports(new_updates, v),
            queue.len() >= waiting.len(),
            forall|m: int| 0 <= m < waiting.len() ==> queue[m] == waiting[m],
            forall|m: int|
                0 <= m < new_updates.len() && !(new_updates[m] is Unchanged) ==> queue.contains(
                    #[trigger] new_updates[m],
                ),
        ensures
            self.owes(start, seed, queue, latest, snapshot.skip(k + 1)),
    {
        let qk = snapshot[k].id as int;
        assert forall|q: int, v: VarId|
            0 <= q < self.prop_set.len() && self.var_set.valid(v) implies {
            ||| #[trigger] self.settled(q, v)
            ||| self.excused(start, seed, q, v)
            ||| self.var_set.announces(queue, v)
            ||| (v == latest.var_id() && self.var_set.current(latest) && snapshot.skip(
                k + 1,
            ).contains(PropId { id: q as usize }))
        } by {
            if self.var_set.dom(v) != before.var_set.dom(v) {
                assert(self.var_set.reports(new_updates, v));
                let m = choose|m: int|
                    0 <= m < new_updates.len() && (#[trigger] new_updates[m]).var_id() == v && !(
                    new_updates[m] is Unchanged) && self.var_set.current(new_updates[m]);
                assert(queue.contains(new_updates[m]));
                let at = choose|at: int| 0 <= at < queue.len() && queue[at] == new_updates[m];
                assert(queue[at].var_id() == v);
            } else {
                assert(before.settled(q, v) || before.excused(start, seed, q, v)
                    || before.var_set.announces(waiting, v) || (v == latest.var_id()
                    && before.var_set.current(latest) && snapshot.skip(k).contains(
                    PropId { id: q as usize },
                )));
                if before.settled(q, v) {
                    before.prop_set.props()[q].lemma_settled_kept(
                        &before.var_set,
                        &self.var_set,
                        v,
                    );
                } else if before.excused(start, seed, q, v) {
                } else if before.var_set.announces(waiting, v) {
                    let at = choose|at: int|
                        0 <= at < waiting.len() && (#[trigger] waiting[at]).var_id() == v
                            && before.var_set.current(waiting[at]);
                    assert(queue[at] == waiting[at]);
                } else {
                    let rest = snapshot.skip(k);
                    let at = choose|at: int|
                        0 <= at < rest.len() && rest[at] == (PropId { id: q as usize });
                    if at == 0 {
                        assert(q == qk);
                    } else {
                        assert(snapshot.skip(k + 1)[at - 1] == rest[at]);
                    }
                }
            }
        }
    }

    /// The variable to branch on next: among those that the search has not
    /// fixed, one with the fewest candidate values, and of those the one
    /// created first.
    pub fn choose_var(&self) -> (r: Option<VarId>)
        requires
            self.coherent(),
        ensures
            self.is_choice(r),
    {
        let mut best: Option<VarId> = None;
        let mut best_size: usize = 0;
        let n = self.var_set.size();
        let mut i: usize = 0;
        while i < n
            invariant
                i <= n,
                n == self.var_set.len(),
                self.coherent(),
                match best {
                    None => forall|q: usize| q < i ==> self.instantiated_vars@.contains(q),
                    Some(v) => {
                        &&& v.id < i
                        &&& !self.instantiated_vars@.contains(v.id)
                        &&& best_size == self.var_set.vars()[v.id as int].domain().len()
                        &&& forall|q: usize|
                            q < i && !self.instantiated_vars@.contains(q) ==> {
                                let there = (#[trigger] self.var_set.vars()[q as int]).domain().len();
                                best_size < there || (best_size == there && v.id <= q)
                            }
                    },
                },
            decreases n - i,
        {
            if !self.instantiated_vars.contains(&i) {
                let size = self.var_set.var(VarId { id: i }).size();
                if best.is_none() || size < best_size {
                    best = Some(VarId { id: i });
                    best_size = size;
                }
            }
            i += 1;
        }
        best
    }

    /// The value to try first for `var_id`: the first of its candidate
    /// values, if it has any.
    pub fn choose_value(&self, var_id: VarId) -> (r: Option<V::Value>)
        requires
            self.coherent(),
            self.var_set.valid(var_id),
        ensures
            r == first_of(self.var_set.vars()[var_id.id as int].order()),
            r is None <==> self.var_set.dom(var_id).len() == 0,
            r matches Some(x) ==> self.var_set.dom(var_id).contains(x),
    {
        let all = self.var_set.var(var_id).possibilities();
        if all.len() > 0 {
            proof {
                assert(all@.to_set().contains(all@[0]));
            }
            Some(all[0])
        } else {
            None
        }
    }

    /// Branches on `var_id` and `value`: the first state has the variable
    /// fixed to the value, the second has the value removed; each is
    /// propagated to a fixed point, and is `None` where that fails.
    pub fn instantiate(self, var_id: VarId, value: &V::Value) -> (r: (Option<Self>, Option<Self>))
        requires
            self.wf(),
            self.var_set.valid(var_id),
        ensures
            r.0 matches Some(a) ==> {
                &&& a.wf()
                &&& a.descends(&self)
                &&& a.var_set.dom(var_id) == set![*value]
                &&& a.instantiated_vars@ == self.instantiated_vars@.insert(var_id.id)
            },
            r.0 is Some ==> self.var_set.dom(var_id).contains(*value),
            r.1 matches Some(e) ==> {
                &&& e.wf()
                &&& e.descends(&self)
                &&& !e.var_set.dom(var_id).contains(*value)
                &&& e.instantiated_vars@ == self.instantiated_vars@
                &&& self.var_set.dom(var_id).contains(*value) ==> e.var_set.total()
                    < self.var_set.total()
            },
            r.1 is Some ==> self.var_set.dom(var_id) != set![*value],
            self.quiescent() && self.subscribed_all() ==> {
                &&& r.0 matches Some(a) ==> a.quiescent() && a.subscribed_all()
                &&& r.1 matches Some(e) ==> e.quiescent() && e.subscribed_all()
            },
            forall|g: &VarSet<V>| #[trigger]
                self.admits(g) ==> {
                    if g.dom(var_id) == set![*value] {
                        r.0 matches Some(a) && a.admits(g)
                    } else {
                        r.1 matches Some(e) && e.admits(g)
                    }
                },
            r.0 matches Some(a) ==> forall|g: &VarSet<V>| #[trigger]
                a.admits(g) ==> self.admits(g) && g.dom(var_id) == set![*value],
            r.1 matches Some(e) ==> forall|g: &VarSet<V>| #[trigger]
                e.admits(g) ==> self.admits(g) && g.dom(var_id) != set![*value],
    {
        let mut instantiated_state = self.duplicate();
        let mut removed_state = self;
        let mut instantiated_state_retval: Option<Self> = None;
        let mut removed_state_retval: Option<Self> = None;
        let ghost slot = var_id.id as int;
        proof {
            self.var_set.vars()[slot].lemma_wf();
        }

        let removal = removed_state.var_set.var_mut(var_id).remove(value);
        proof {
            lemma_total_update(self.var_set.vars(), slot, removed_state.var_set.vars()[slot]);
            if self.var_set.dom(var_id).contains(*value) {
                if self.var_set.dom(var_id).len() == 1 {
                    crate::var::lemma_singleton(self.var_set.dom(var_id), *value);
                }
            } else {
                assert(self.var_set.dom(var_id).remove(*value) =~= self.var_set.dom(var_id));
            }
            if self.var_set.dom(var_id) == set![*value] {
                assert(self.var_set.dom(var_id).contains(*value));
                assert(set![*value].len() == 1);
            }
        }
        proof {
            assert forall|g: &VarSet<V>| #[trigger] self.admits(g) implies {
                &&& g.dom(var_id).len() == 1
                &&& g.dom(var_id).finite()
                &&& g.dom(var_id).subset_of(self.var_set.dom(var_id))
                &&& g.dom(var_id) != set![*value] ==> !g.dom(var_id).contains(*value)
                &&& g.dom(var_id) == set![*value] ==> self.var_set.dom(var_id).contains(*value)
            } by {
                let d = g.vars()[slot];
                d.lemma_wf();
                assert(d.domain().len() == 1);
                assert(d.domain().subset_of(self.var_set.vars()[slot].domain()));
                if d.domain().contains(*value) {
                    crate::var::lemma_singleton(d.domain(), *value);
                }
                if d.domain() == set![*value] {
                    assert(set![*value].contains(*value));
                }
            }
        }
        if let Ok(update) = removal {
            let ghost pruned = removed_state;
            proof {
                assert(pruned.var_set.refines(&self.var_set));
                assert(pruned.var_set.keeps_alive(&self.var_set));
                pruned.lemma_wf_kept(&self);
                assert forall|g: &VarSet<V>|
                    self.admits(g) && g.dom(var_id) != set![*value] implies #[trigger] pruned.admits(
                    g,
                ) by {
                    assert forall|i: int| 0 <= i < g.len() implies (#[trigger] g.vars()[i]).domain().subset_of(
                        pruned.var_set.vars()[i].domain(),
                    ) by {
                        assert(g.vars()[i].domain().subset_of(self.var_set.vars()[i].domain()));
                    }
                    self.lemma_admits_transfer(&pruned, g);
                }
            }
            match removed_state.propagate(update) {
                Ok(done) => {
                    proof {
                        removed_state.var_set.lemma_refines_total(&pruned.var_set);
                        if self.quiescent() && self.subscribed_all() {
                            assert(pruned.subscribed_all());
                            removed_state.lemma_branch_quiescent(&pruned, &self, update);
                        }
                        assert forall|g: &VarSet<V>|
                            #[trigger] self.admits(g) && g.dom(var_id) != set![*value] implies removed_state.admits(
                            g,
                        ) by {
                            assert(pruned.admits(g));
                        }
                        assert forall|g: &VarSet<V>| #[trigger]
                            removed_state.admits(g) implies self.admits(g) && g.dom(var_id)
                            != set![*value] by {
                            assert(g.refines(&self.var_set));
                            removed_state.lemma_admits_transfer(&self, g);
                            assert(g.vars()[slot].domain().subset_of(
                                removed_state.var_set.vars()[slot].domain(),
                            ));
                            assert(removed_state.var_set.vars()[slot].domain().subset_of(
                                pruned.var_set.vars()[slot].domain(),
                            ));
                            if g.dom(var_id) == set![*value] {
                                assert(set![*value].contains(*value));
                            }
                        }
                    }
                    removed_state_retval = Some(removed_state);
                },
                Err(e) => {
                    proof {
                        assert forall|g: &VarSet<V>|
                            #[trigger] self.admits(g) && g.dom(var_id) != set![*value] implies false by {
                            assert(pruned.admits(g));
                        }
                    }
                },
            }
        } else {
            proof {
                assert forall|g: &VarSet<V>|
                    #[trigger] self.admits(g) && g.dom(var_id) != set![*value] implies false by {
                    let d = g.vars()[slot];
                    d.lemma_wf();
                    assert(d.domain().contains(d.domain().choose()));
                    assert(self.var_set.dom(var_id).contains(d.domain().choose()));
                    crate::var::lemma_singleton(d.domain(), *value);
                }
            }
        }
        let ghost twin = instantiated_state;
        let collapse = instantiated_state.var_set.var_mut(var_id).instantiate(value);
        if let Ok(update) = collapse {
            let ghost fixed = instantiated_state;
            proof {
                assert forall|g: &VarSet<V>|
                    self.admits(g) && g.dom(var_id) == set![*value] implies #[trigger] fixed.admits(
                    g,
                ) by {
                    assert forall|i: int| 0 <= i < g.len() implies (#[trigger] g.vars()[i]).domain().subset_of(
                        fixed.var_set.vars()[i].domain(),
                    ) by {
                        assert(g.vars()[i].domain().subset_of(self.var_set.vars()[i].domain()));
                    }
                    self.lemma_admits_transfer(&fixed, g);
                }
                assert(set![*value].len() == 1);
                assert(fixed.var_set.refines(&twin.var_set)) by {
                    assert(set![*value].subset_of(self.var_set.dom(var_id)));
                }
                assert(fixed.var_set.keeps_alive(&twin.var_set));
                fixed.lemma_wf_kept(&twin);
            }
            match instantiated_state.propagate(update) {
                Ok(done) => {
                    proof {
                        if self.quiescent() && self.subscribed_all() {
                            assert(fixed.subscribed_all()) by {
                                assert(twin.subscribed_all());
                            }
                            assert(fixed.var_set.refines(&self.var_set));
                            instantiated_state.lemma_branch_quiescent(&fixed, &self, update);
                        }
                        assert forall|g: &VarSet<V>|
                            #[trigger] self.admits(g) && g.dom(var_id) == set![*value] implies instantiated_state.admits(
                            g,
                        ) by {
                            assert(fixed.admits(g));
                        }
                        assert forall|g: &VarSet<V>| #[trigger]
                            instantiated_state.admits(g) implies self.admits(g) && g.dom(var_id)
                            == set![*value] by {
                            assert(g.refines(&self.var_set)) by {
                                assert forall|i: int| 0 <= i < g.len() implies (
                                #[trigger] g.vars()[i]).domain().subset_of(
                                    self.var_set.vars()[i].domain(),
                                ) by {
                                    assert(g.vars()[i].domain().subset_of(
                                        instantiated_state.var_set.vars()[i].domain(),
                                    ));
                                    assert(instantiated_state.var_set.vars()[i].domain().subset_of(
                                        fixed.var_set.vars()[i].domain(),
                                    ));
                                    assert(fixed.var_set.vars()[i].domain().subset_of(
                                        self.var_set.vars()[i].domain(),
                                    ));
                                }
                            }
                            instantiated_state.lemma_admits_transfer(&self, g);
                            let d = g.vars()[slot];
                            d.lemma_wf();
                            assert(d.domain().subset_of(
                                instantiated_state.var_set.vars()[slot].domain(),
                            ));
                            assert(instantiated_state.var_set.vars()[slot].domain().subset_of(
                                fixed.var_set.vars()[slot].domain(),
                            ));
                            assert(d.domain().contains(d.domain().choose()));
                            crate::var::lemma_singleton(d.domain(), *value);
                        }
                        let last = instantiated_state.var_set.vars()[slot].domain();
                        vstd::set_lib::lemma_len_subset(last, set![*value]);
                        assert(last.len() == 1);
                        assert(last =~= set![*value]) by {
                            let w = last.choose();
                            assert(last.contains(w));
                            crate::var::lemma_singleton(last, w);
                        }
                    }
                    let ghost settled_state = instantiated_state;
                    instantiated_state.instantiated_vars.insert(var_id.id);
                    proof {
                        assert forall|g: &VarSet<V>| #[trigger]
                            instantiated_state.admits(g) implies settled_state.admits(g) by {
                            instantiated_state.lemma_admits_transfer(&settled_state, g);
                        }
                        assert forall|g: &VarSet<V>| #[trigger]
                            settled_state.admits(g) implies instantiated_state.admits(g) by {
                            settled_state.lemma_admits_transfer(&instantiated_state, g);
                        }
                        if settled_state.quiescent() {
                            assert forall|q: int, v: VarId|
                                0 <= q < instantiated_state.prop_set.len()
                                    && instantiated_state.var_set.valid(
                                    v,
                                ) implies #[trigger] instantiated_state.settled(q, v) by {
                                assert(settled_state.settled(q, v));
                            }
                        }
                    }
                    instantiated_state_retval = Some(instantiated_state);
                },
                Err(e) => {
                    proof {
                        assert forall|g: &VarSet<V>|
                            #[trigger] self.admits(g) && g.dom(var_id) == set![*value] implies false by {
                            assert(fixed.admits(g));
                        }
                    }
                },
            }
        } else {
            proof {
                assert forall|g: &VarSet<V>|
                    #[trigger] self.admits(g) && g.dom(var_id) == set![*value] implies false by {
                    assert(self.var_set.dom(var_id).contains(*value));
                }
            }
        }
        (instantiated_state_retval, removed_state_retval)
    }

    /// Lets every propagator subscribe and prune once, in registration
    /// order, then propagates each reported update to a fixed point.
    pub fn initial_propagation(&mut self) -> (r: Result<(), ()>)
        requires
            old(self).coherent(),
        ensures
            final(self).coherent(),
            final(self).var_set.refines(&old(self).var_set),
            final(self).prop_set.same_as(&old(self).prop_set),
            final(self).instantiated_vars@ == old(self).instantiated_vars@,
            r is Ok ==> final(self).var_set.keeps_alive(&old(self).var_set),
            r is Ok && old(self).wf() ==> final(self).wf(),
            r is Ok ==> final(self).quiescent() && final(self).subscribed_all(),
            final(self).prop_set.copies(&old(self).prop_set),
            forall|g: &VarSet<V>| #[trigger] old(self).admits(g) ==> r is Ok && final(self).admits(g),
    {
        let mut domain_updates: Vec<DomainUpdate> = Vec::new();
        let n = self.prop_set.prop_ids().len();
        let mut i: usize = 0;
        while i < n
            invariant
                i <= n,
                n == self.prop_set.len(),
                self.coherent(),
                old(self).var_set.wf(),
                self.var_set.refines(&old(self).var_set),
                self.var_set.keeps_alive(&old(self).var_set),
                self.prop_set.copies(&old(self).prop_set),
                forall|g: &VarSet<V>| #[trigger] old(self).admits(g) ==> self.admits(g),
                self.instantiated_vars@ == old(self).instantiated_vars@,
                self.var_set.describes_all(domain_updates@),
                forall|q: int, v: VarId|
                    0 <= q < i && self.var_set.valid(v) ==> #[trigger] self.settled(q, v)
                        || self.var_set.reports(domain_updates@, v),
                forall|q: int, v: VarId|
                    0 <= q < i && #[trigger] self.prop_set.props()[q].watched().contains(v)
                        ==> self.var_set.subs()[v.id as int].contains(PropId { id: q as usize }),
            decreases n - i,
        {
            let prop_id = PropId { id: i };
            let ghost prev = self.var_set;
            let ghost before = *self;
            let ghost collected = domain_updates@;
            assert(self.prop_set.props()[i as int].wf());
            let outcome = self.prop_set.propagator_mut(prop_id).initial_propagation(
                &mut self.var_set,
            );
            proof {
                assert(subs_valid(self.var_set.subs(), self.prop_set.len())) by {
                    let before = prev.subs();
                    let now = self.var_set.subs();
                    assert forall|a: int, b: int|
                        0 <= a < now.len() && 0 <= b < now[a].len() implies (#[trigger] now[a][b]).id
                        < self.prop_set.len() by {
                        if b < before[a].len() {
                            assert(now[a].take(before[a].len() as int)[b] == before[a][b]);
                        }
                    }
                }
                assert(self.prop_set.copies(&before.prop_set));
                assert forall|g: &VarSet<V>| #[trigger] old(self).admits(g) implies outcome is Ok
                    && self.admits(g) by {
                    assert(before.admits(g));
                    assert forall|v: VarId| g.valid(v) implies #[trigger] before.prop_set.props()[i as int].settled(
                    g, v) by {}
                    if g.refines(&self.var_set) {
                        before.lemma_admits_transfer(self, g);
                    }
                }
                if outcome is Ok {
                    assert forall|q: int| 0 <= q < collected.len() implies self.var_set.describes(
                        #[trigger] collected[q],
                    ) by {
                        self.var_set.lemma_describes_kept(&prev, collected[q]);
                    }
                }
            }
            let updates = match outcome {
                Ok(u) => u,
                Err(e) => {
                    return Err(());
                },
            };
            let mut j: usize = 0;
            while j < updates.len()
                invariant
                    j <= updates.len(),
                    self.var_set.describes_all(updates@),
                    self.var_set.describes_all(domain_updates@),
                    domain_updates@ == collected + updates@.take(j as int),
                decreases updates.len() - j,
            {
                domain_updates.push(updates[j]);
                proof {
                    assert(updates@.take(j + 1) =~= updates@.take(j as int).push(updates@[j as int]));
                    assert(domain_updates@ =~= collected + updates@.take(j + 1));
                }
                j += 1;
            }
            proof {
                assert(updates@.take(j as int) =~= updates@);
                self.lemma_initial_step(&before, collected, updates@, domain_updates@, i as int);
            }
            i += 1;
        }
        proof {
            assert(domain_updates@.skip(0) =~= domain_updates@);
            assert forall|q: int, v: VarId|
                0 <= q < self.prop_set.len() && self.var_set.valid(v) implies #[trigger] self.settled(
                q,
                v,
            ) || self.var_set.announces(domain_updates@.skip(0), v) by {
                if !self.settled(q, v) {
                    assert(self.var_set.reports(domain_updates@, v));
                }
            }
        }
        let mut k: usize = 0;
        while k < domain_updates.len()
            invariant
                k <= domain_updates.len(),
                self.coherent(),
                old(self).var_set.wf(),
                self.var_set.refines(&old(self).var_set),
                self.var_set.keeps_alive(&old(self).var_set),
                self.prop_set.copies(&old(self).prop_set),
                forall|g: &VarSet<V>| #[trigger] old(self).admits(g) ==> self.admits(g),
                self.instantiated_vars@ == old(self).instantiated_vars@,
                self.var_set.describes_all(domain_updates@),
                self.subscribed_all(),
                forall|q: int, v: VarId|
                    0 <= q < self.prop_set.len() && self.var_set.valid(v) ==> #[trigger] self.settled(
                        q,
                        v,
                    ) || self.var_set.announces(domain_updates@.skip(k as int), v),
            decreases domain_updates.len() - k,
        {
            let ghost prev = self.var_set;
            let ghost before = *self;
            match self.propagate(domain_updates[k]) {
                Ok(done) => {},
                Err(e) => {
                    return Err(());
                },
            }
            proof {
                let now = domain_updates@.skip(k as int);
                let later = domain_updates@.skip(k + 1);
                assert forall|q: int, v: VarId|
                    0 <= q < self.prop_set.len() && self.var_set.valid(v) implies #[trigger] self.settled(
                    q,
                    v,
                ) || self.var_set.announces(later, v) by {
                    if !self.settled(q, v) {
                        assert(self.excused(&before, domain_updates@[k as int], q, v));
                        assert(before.settled(q, v) || before.var_set.announces(now, v));
                        let m = choose|m: int|
                            0 <= m < now.len() && (#[trigger] now[m]).var_id() == v
                                && before.var_set.current(now[m]);
                        assert(now[0] == domain_updates@[k as int]);
                        assert(m > 0);
                        assert(later[m - 1] == now[m]);
                    }
                }
            }
            proof {
                assert forall|q: int| 0 <= q < domain_updates@.len() implies self.var_set.describes(
                    #[trigger] domain_updates@[q],
                ) by {
                    self.var_set.lemma_describes_kept(&prev, domain_updates@[q]);
                }
            }
            k += 1;
        }
        proof {
            if old(self).wf() {
                self.lemma_wf_kept(old(self));
            }
            assert forall|q: int, v: VarId|
                0 <= q < self.prop_set.len() && self.var_set.valid(v) implies #[trigger] self.settled(
                q,
                v,
            ) by {
                assert(!self.var_set.announces(domain_updates@.skip(k as int), v));
            }
        }
        Ok(())
    }

    /// One propagator has subscribed and pruned, and its reports have
    /// joined those collected: what holds of the first `i + 1` propagators.
    pub proof fn lemma_initial_step(
        &self,
        before: &Self,
        collected: Seq<DomainUpdate>,
        updates: Seq<DomainUpdate>,
        joined: Seq<DomainUpdate>,
        i: int,
    )
        requires
            0 <= i < before.prop_set.len(),
            before.coherent(),
            self.coherent(),
            self.prop_set.len() == before.prop_set.len(),
            self.var_set.refines(&before.var_set),
            forall|q: int|
                0 <= q < self.prop_set.len() && q != i ==> #[trigger] self.prop_set.props()[q]
                    == before.prop_set.props()[q],
            self.prop_set.props()[i].watched() == before.prop_set.props()[i].watched(),
            crate::propagate::subscribed(
                before.var_set.subs(),
                self.var_set.subs(),
                PropId { id: i as usize },
            ),
            crate::propagate::listens(
                self.var_set.subs(),
                self.prop_set.props()[i].watched(),
                PropId { id: i as usize },
            ),
            forall|v: VarId|
                self.var_set.valid(v) ==> #[trigger] self.prop_set.props()[i].settled(
                    &self.var_set,
                    v,
                ) || self.var_set.reports(updates, v),
            forall|v: VarId|
                self.var_set.valid(v) && #[trigger] self.var_set.dom(v) != before.var_set.dom(v)
                    ==> self.var_set.reports(updates, v),
            joined == collected + updates,
            forall|q: int, v: VarId|
                0 <= q < i && before.var_set.valid(v) ==> #[trigger] before.settled(q, v)
                    || before.var_set.reports(collected, v),
            forall|q: int, v: VarId|
                0 <= q < i && #[trigger] before.prop_set.props()[q].watched().contains(v)
                    ==> before.var_set.subs()[v.id as int].contains(PropId { id: q as usize }),
        ensures
            forall|q: int, v: VarId|
                0 <= q < i + 1 && self.var_set.valid(v) ==> #[trigger] self.settled(q, v)
                    || self.var_set.reports(joined, v),
            forall|q: int, v: VarId|
                0 <= q < i + 1 && #[trigger] self.prop_set.props()[q].watched().contains(v)
                    ==> self.var_set.subs()[v.id as int].contains(PropId { id: q as usize }),
    {
        assert forall|q: int, v: VarId|
            0 <= q < i + 1 && self.var_set.valid(v) implies #[trigger] self.settled(q, v)
            || self.var_set.reports(joined, v) by {
            if self.var_set.reports(updates, v) {
                let m = choose|m: int|
                    0 <= m < updates.len() && (#[trigger] updates[m]).var_id() == v && !(
                    updates[m] is Unchanged) && self.var_set.current(updates[m]);
                assert(joined[collected.len() + m] == updates[m]);
            } else if q < i {
                assert(self.var_set.dom(v) == before.var_set.dom(v));
                if before.settled(q, v) {
                    before.prop_set.props()[q].lemma_settled_kept(
                        &before.var_set,
                        &self.var_set,
                        v,
                    );
                } else {
                    let m = choose|m: int|
                        0 <= m < collected.len() && (#[trigger] collected[m]).var_id() == v && !(
                        collected[m] is Unchanged) && before.var_set.current(collected[m]);
                    assert(joined[m] == collected[m]);
                }
            }
        }
        assert forall|q: int, v: VarId|
            0 <= q < i + 1 && #[trigger] self.prop_set.props()[q].watched().contains(
                v,
            ) implies self.var_set.subs()[v.id as int].contains(PropId { id: q as usize }) by {
            if q < i {
                let id = PropId { id: q as usize };
                let old_list = before.var_set.subs()[v.id as int];
                let new_list = self.var_set.subs()[v.id as int];
                assert(old_list.contains(id));
                let at = choose|at: int| 0 <= at < old_list.len() && old_list[at] == id;
                assert(new_list.take(old_list.len() as int)[at] == old_list[at]);
                assert(new_list[at] == id);
            }
        }
    }
}

/// The number of nodes of a full binary tree of height `m`: a bound on the
/// states that a state of effort `m` can lead to.
pub open spec fn weight(m: nat) -> nat
    decreases m,
{
    if m == 0 {
        1
    } else {
        2 * weight((m - 1) as nat) + 1
    }
}

/// More effort weighs more.
pub proof fn lemma_weight_monotone(a: nat, b: nat)
    requires
        a <= b,
    ensures
        weight(a) <= weight(b),
    decreases b,
{
    if a < b {
        lemma_weight_monotone(a, (b - 1) as nat);
    }
}

/// The weight of all states that wait on the stack.
pub open spec fn stack_weight<V: Variable, P: Propagate<Variable = V>>(
    stack: Seq<SearchState<V, P>>,
) -> nat
    decreases stack.len(),
{
    if stack.len() == 0 {
        0
    } else {
        stack_weight(stack.drop_last()) + weight(stack.last().effort())
    }
}

/// One more state adds its weight.
pub proof fn lemma_stack_weight_push<V: Variable, P: Propagate<Variable = V>>(
    stack: Seq<SearchState<V, P>>,
    state: SearchState<V, P>,
)
    ensures
        stack_weight(stack.push(state)) == stack_weight(stack) + weight(state.effort()),
{
    assert(stack.push(state).drop_last() =~= stack);
}

/// Whether `g` is a solution within one of the states of `stack`.
pub open spec fn covered<V: Variable, P: Propagate<Variable = V>>(
    stack: Seq<SearchState<V, P>>,
    g: &VarSet<V>,
) -> bool {
    exists|i: int| 0 <= i < stack.len() && (#[trigger] stack[i]).admits(g)
}

/// Whether no solution lies within two states of `stack`.
pub open spec fn apart<V: Variable, P: Propagate<Variable = V>>(
    stack: Seq<SearchState<V, P>>,
) -> bool {
    forall|i: int, j: int, g: &VarSet<V>|
        0 <= i < j < stack.len() ==> !(#[trigger] stack[i].admits(g) && #[trigger] stack[j].admits(
            g,
        ))
}

/// What one more state covers.
pub proof fn lemma_covered_push<V: Variable, P: Propagate<Variable = V>>(
    stack: Seq<SearchState<V, P>>,
    state: SearchState<V, P>,
    g: &VarSet<V>,
)
    ensures
        covered(stack.push(state), g) <==> (covered(stack, g) || state.admits(g)),
{
    let longer = stack.push(state);
    if covered(stack, g) {
        let i = choose|i: int| 0 <= i < stack.len() && (#[trigger] stack[i]).admits(g);
        assert(longer[i] == stack[i]);
    }
    if state.admits(g) {
        assert(longer[stack.len() as int] == state);
    }
    if covered(longer, g) {
        let i = choose|i: int| 0 <= i < longer.len() && (#[trigger] longer[i]).admits(g);
        if i < stack.len() {
            assert(stack[i] == longer[i]);
        }
    }
}

/// One more state that shares no solution with the others keeps them apart,
/// and states that are apart share no solution with the last of them.
pub proof fn lemma_apart_push<V: Variable, P: Propagate<Variable = V>>(
    stack: Seq<SearchState<V, P>>,
    state: SearchState<V, P>,
)
    ensures
        apart(stack.push(state)) <==> (apart(stack) && forall|g: &VarSet<V>| #[trigger]
            state.admits(g) ==> !covered(stack, g)),
{
    let longer = stack.push(state);
    if apart(longer) {
        assert forall|i: int, j: int, g: &VarSet<V>| 0 <= i < j < stack.len() implies !(
        #[trigger] stack[i].admits(g) && #[trigger] stack[j].admits(g)) by {
            assert(longer[i] == stack[i]);
            assert(longer[j] == stack[j]);
        }
        assert forall|g: &VarSet<V>| #[trigger] state.admits(g) implies !covered(stack, g) by {
            if covered(stack, g) {
                let i = choose|i: int| 0 <= i < stack.len() && (#[trigger] stack[i]).admits(g);
                assert(longer[i] == stack[i]);
                assert(longer[stack.len() as int] == state);
            }
        }
    }
    if apart(stack) && (forall|g: &VarSet<V>| #[trigger] state.admits(g) ==> !covered(stack, g)) {
        assert forall|i: int, j: int, g: &VarSet<V>| 0 <= i < j < longer.len() implies !(
        #[trigger] longer[i].admits(g) && #[trigger] longer[j].admits(g)) by {
            assert(longer[i] == stack[i]);
            if j < stack.len() {
                assert(longer[j] == stack[j]);
            } else {
                assert(longer[j] == state);
                if stack[i].admits(g) {
                    assert(covered(stack, g));
                }
            }
        }
    }
}

/// A depth-first search that yields the solutions of a model one at a time.
#[verifier::reject_recursive_types(V)]
#[verifier::reject_recursive_types(P)]
pub struct Solver<V: Variable, P: Propagate<Variable = V>> {
    state_stack: Vec<SearchState<V, P>>,
    initialized: bool,
    root: Ghost<VarSet<V>>,
    registry: Ghost<PropSet<P>>,
}

impl<V: Variable, P: Propagate<Variable = V>> Solver<V, P> {
    /// The states still to explore; the last is explored next.
    pub closed spec fn stack(&self) -> Seq<SearchState<V, P>> {
        self.state_stack@
    }

    /// Whether the initial propagation has run.
    pub closed spec fn started(&self) -> bool {
        self.initialized
    }

    /// The variables as the search was given them.
    pub closed spec fn origin(&self) -> VarSet<V> {
        self.root@
    }

    /// The propagators as the search was given them.
    pub closed spec fn registry(&self) -> PropSet<P> {
        self.registry@
    }

    /// Whether `solution` is the store of a state at a fixed point whose
    /// propagators watch what those of `registry` watch.
    pub open spec fn satisfied(solution: VarSet<V>, registry: PropSet<P>) -> bool {
        exists|state: SearchState<V, P>| #[trigger]
            state.quiescent() && state.var_set == solution && state.prop_set.same_as(&registry)
    }

    /// Whether no choice of one value for each variable, from its domain at
    /// the start, is the store of a state at a fixed point.
    pub open spec fn unsatisfiable(&self) -> bool {
        forall|s: VarSet<V>|
            !(s.ground() && s.refines(&self.origin()) && #[trigger] Self::satisfied(
                s,
                self.registry(),
            ))
    }

    /// Whether the search has run and nothing is left to explore.
    pub open spec fn exhausted(&self) -> bool {
        self.started() && self.stack().len() == 0
    }

    /// Whether `state` is well-formed and its domains are what is left of
    /// those of `origin`, none of them emptied.
    pub open spec fn reachable(
        state: SearchState<V, P>,
        origin: VarSet<V>,
        registry: PropSet<P>,
    ) -> bool {
        &&& state.wf()
        &&& state.var_set.refines(&origin)
        &&& state.var_set.keeps_alive(&origin)
        &&& state.prop_set.copies(&registry)
    }

    /// Every waiting state is reachable from the origin, and before the
    /// search has started exactly one state waits; once it has started,
    /// every waiting state is at a fixed point.
    pub open spec fn wf(&self) -> bool {
        &&& self.origin().wf()
        &&& !self.started() ==> self.stack().len() == 1
        &&& forall|i: int|
            0 <= i < self.stack().len() ==> Self::reachable(
                #[trigger] self.stack()[i],
                self.origin(),
                self.registry(),
            )
        &&& self.started() ==> forall|i: int|
            0 <= i < self.stack().len() ==> (#[trigger] self.stack()[i]).quiescent()
                && self.stack()[i].subscribed_all()
        &&& apart(self.stack())
    }

    /// Whether `g` is a solution that the search has still to yield.
    pub open spec fn covers(&self, g: &VarSet<V>) -> bool {
        covered(self.stack(), g)
    }

    /// If every variable had a value when the search was given the model,
    /// every variable has a value in every state that waits.
    pub proof fn lemma_domains_nonempty(&self, k: int, v: VarId)
        requires
            self.wf(),
            forall|i: int|
                0 <= i < self.origin().len() ==> (#[trigger] self.origin().vars()[i]).domain().len()
                    > 0,
            0 <= k < self.stack().len(),
            self.origin().valid(v),
        ensures
            self.stack()[k].var_set.valid(v),
            self.stack()[k].var_set.dom(v).len() > 0,
    {
        assert(Self::reachable(self.stack()[k], self.origin(), self.registry()));
        assert(self.origin().vars()[v.id as int].domain().len() > 0);
    }

    /// A search over the given variables and propagators.
    pub fn new(var_set: VarSet<V>, prop_set: PropSet<P>) -> (r: Solver<V, P>)
        requires
            var_set.wf(),
            prop_set.wf(),
            prop_set.fits(var_set.len()),
            subs_valid(var_set.subs(), prop_set.len()),
        ensures
            r.wf(),
            !r.started(),
            r.origin() == var_set,
            r.registry() == prop_set,
            r.stack().len() == 1,
            r.stack()[0].var_set == var_set,
            r.stack()[0].prop_set == prop_set,
            r.stack()[0].instantiated_vars@ == Set::<usize>::empty(),
    {
        let ghost root = var_set;
        let ghost registry = prop_set;
        let state = SearchState {
            var_set: var_set,
            prop_set: prop_set,
            instantiated_vars: HashSet::new(),
        };
        let mut state_stack: Vec<SearchState<V, P>> = Vec::new();
        state_stack.push(state);
        Solver { state_stack, initialized: false, root: Ghost(root), registry: Ghost(registry) }
    }

    /// The next solution, or `None` when the search is over. A solution
    /// holds exactly one value for every variable, taken from the domain
    /// that the variable had at the start, and gives no propagator anything
    /// to prune. Where no such choice of values exists, `None` comes at
    /// once. Once `None` has come, `None` comes ever after. Every solution
    /// that the search had still to yield is yielded by this call or is
    /// still to be yielded; the one yielded was among them and is no longer.
    /// While states wait, every call lessens their weight, so that `None`
    /// comes after finitely many calls.
    pub fn next(&mut self) -> (r: Option<VarSet<V>>)
        requires
            old(self).wf(),
        ensures
            final(self).wf(),
            final(self).started(),
            final(self).origin() == old(self).origin(),
            final(self).registry() == old(self).registry(),
            r matches Some(solution) ==> {
                &&& solution.wf()
                &&& solution.ground()
                &&& solution.refines(&old(self).origin())
                &&& Self::satisfied(solution, old(self).registry())
            },
            r is None ==> final(self).exhausted(),
            old(self).exhausted() ==> r is None,
            old(self).unsatisfiable() ==> r is None,
            forall|g: &VarSet<V>| #[trigger]
                old(self).covers(g) ==> final(self).covers(g) || (r matches Some(solution)
                    && g.agrees(&solution)),
            forall|g: &VarSet<V>| #[trigger] final(self).covers(g) ==> old(self).covers(g),
            r matches Some(solution) ==> old(self).covers(&solution) && forall|g: &VarSet<V>|
                final(self).covers(g) ==> !#[trigger] g.agrees(&solution),
            old(self).stack().len() > 0 ==> stack_weight(final(self).stack()) < stack_weight(
                old(self).stack(),
            ),
    {
        proof {
            if old(self).stack().len() > 0 {
                assert(weight(old(self).stack().last().effort()) > 0);
            }
        }
        if !self.initialized {
            self.initialized = true;
            let mut first = self.state_stack.pop().unwrap();
            let ghost root_state = first;
            proof {
                lemma_stack_weight_push(Seq::empty(), root_state);
                assert(old(self).stack() =~= Seq::empty().push(root_state));
                assert(self.state_stack@ =~= Seq::empty());
                assert forall|g: &VarSet<V>|
                    old(self).covers(g) <==> #[trigger] root_state.admits(g) by {
                    lemma_covered_push(Seq::empty(), root_state, g);
                }
            }
            match first.initial_propagation() {
                Ok(done) => {
                    self.state_stack.push(first);
                    proof {
                        lemma_stack_weight_push(Seq::empty(), first);
                        first.var_set.lemma_refines_total(&root_state.var_set);
                        lemma_bounded_set(root_state.instantiated_vars@, root_state.var_set.len());
                        lemma_weight_monotone(first.effort(), root_state.effort());
                        assert(self.state_stack@ =~= Seq::empty().push(first));
                        lemma_apart_push(Seq::empty(), first);
                        assert forall|g: &VarSet<V>| #[trigger]
                            covered(self.state_stack@, g) <==> root_state.admits(g) by {
                            lemma_covered_push(Seq::empty(), first, g);
                            if first.admits(g) {
                                assert(g.refines(&root_state.var_set));
                                first.lemma_admits_transfer(&root_state, g);
                            }
                        }
                    }
                },
                Err(e) => {
                    proof {
                        lemma_apart_push(
                            Seq::<SearchState<V, P>>::empty(),
                            root_state,
                        );
                    }
                    return None;
                },
            }
        }
        while self.state_stack.len() > 0
            invariant
                self.wf(),
                self.initialized,
                self.root == old(self).root,
                self.registry == old(self).registry,
                old(self).exhausted() ==> self.state_stack@.len() == 0,
                forall|g: &VarSet<V>| #[trigger]
                    old(self).covers(g) <==> covered(self.state_stack@, g),
                stack_weight(self.state_stack@) <= stack_weight(old(self).stack()),
                old(self).stack().len() > 0 ==> stack_weight(old(self).stack()) > 0,
            decreases stack_weight(self.state_stack@),
        {
            let ghost waiting = self.state_stack@;
            let ghost head = *self;
            let current_state = self.state_stack.pop().unwrap();
            let ghost rest = self.state_stack@;
            let ghost current = current_state;
            proof {
                assert(rest =~= waiting.drop_last());
                assert(head.stack() == waiting);
                assert(Self::reachable(
                    waiting[waiting.len() - 1],
                    head.origin(),
                    head.registry(),
                ));
                assert(waiting[waiting.len() - 1].quiescent());
                assert forall|i: int| 0 <= i < rest.len() implies Self::reachable(
                    #[trigger] rest[i],
                    self.origin(),
                    self.registry(),
                ) && rest[i].quiescent() && rest[i].subscribed_all() by {
                    assert(rest[i] == waiting[i]);
                }
                assert(waiting =~= rest.push(current));
                lemma_apart_push(rest, current);
                assert forall|g: &VarSet<V>| #[trigger]
                    old(self).covers(g) <==> (covered(rest, g) || current.admits(g)) by {
                    lemma_covered_push(rest, current, g);
                }
            }
            match current_state.choose_var() {
                None => {
                    proof {
                        assert forall|i: int| 0 <= i < current.var_set.len() implies (
                        #[trigger] current.var_set.vars()[i]).domain().len() == 1 by {
                            assert(current.instantiated_vars@.contains(i as usize));
                        }
                        assert(current.quiescent() && current.var_set == current_state.var_set
                            && current.prop_set.same_as(&self.registry()));
                        assert(Self::satisfied(current.var_set, old(self).registry()));
                        assert(current.var_set.ground());
                        assert(current.var_set.refines(&old(self).origin()));
                        assert(current.admits(&current.var_set)) by {
                            assert(current.var_set.refines(&current.var_set));
                            assert forall|q: int, v: VarId|
                                0 <= q < current.prop_set.len() && current.var_set.valid(
                                    v,
                                ) implies #[trigger] current.prop_set.props()[q].settled(
                                &current.var_set,
                                v,
                            ) by {
                                assert(current.settled(q, v));
                            }
                        }
                        assert forall|g: &VarSet<V>| #[trigger]
                            current.admits(g) implies g.agrees(&current.var_set) by {
                            assert forall|i: int| 0 <= i < g.len() implies (#[trigger] g.vars()[i]).domain()
                                == current.var_set.vars()[i].domain() by {
                                let d = g.vars()[i].domain();
                                let c = current.var_set.vars()[i];
                                c.lemma_wf();
                                g.vars()[i].lemma_wf();
                                assert(d.subset_of(c.domain()));
                                assert(d.contains(d.choose()));
                                crate::var::lemma_singleton(c.domain(), d.choose());
                                crate::var::lemma_singleton(d, d.choose());
                            }
                        }
                        assert forall|g: &VarSet<V>| covered(rest, g) implies !#[trigger] g.agrees(
                            &current.var_set,
                        ) by {
                            if g.agrees(&current.var_set) {
                                let i = choose|i: int|
                                    0 <= i < rest.len() && (#[trigger] rest[i]).admits(g);
                                assert(g.refines(&current.var_set));
                                rest[i].lemma_admits_transfer(&current, g);
                            }
                        }
                    }
                    return Some(current_state.var_set);
                },
                Some(next_var) => {
                    match current_state.choose_value(next_var) {
                        None => {
                            proof {
                                assert forall|g: &VarSet<V>| #[trigger]
                                    current.admits(g) implies false by {
                                    let d = g.vars()[next_var.id as int];
                                    d.lemma_wf();
                                    current.var_set.vars()[next_var.id as int].lemma_wf();
                                    assert(d.domain().subset_of(
                                        current.var_set.vars()[next_var.id as int].domain(),
                                    ));
                                    assert(d.domain().contains(d.domain().choose()));
                                    assert(current.var_set.dom(next_var).contains(
                                        d.domain().choose(),
                                    ));
                                }
                            }
                        },
                        Some(next_value) => {
                            let (instantiated_state, removed_state) = current_state.instantiate(
                                next_var,
                                &next_value,
                            );
                            proof {
                                lemma_bounded_set(
                                    current.instantiated_vars@,
                                    current.var_set.len(),
                                );
                                assert(current.effort() >= 1) by {
                                    current.var_set.vars()[next_var.id as int].lemma_wf();
                                    assert(!current.instantiated_vars@.contains(next_var.id));
                                    lemma_bounded_set(
                                        current.instantiated_vars@.insert(next_var.id),
                                        current.var_set.len(),
                                    );
                                }
                            }
                            let ghost lower = self.state_stack@;
                            proof {
                                if removed_state is Some {
                                    let e = removed_state->0;
                                    lemma_apart_push(lower, e);
                                    assert forall|g: &VarSet<V>| #[trigger]
                                        e.admits(g) implies !covered(lower, g) by {}
                                    let middle = lower.push(e);
                                    if instantiated_state is Some {
                                        let a = instantiated_state->0;
                                        lemma_apart_push(middle, a);
                                        assert forall|g: &VarSet<V>| #[trigger]
                                            a.admits(g) implies !covered(middle, g) by {
                                            lemma_covered_push(lower, e, g);
                                        }
                                        assert forall|g: &VarSet<V>| #[trigger]
                                            old(self).covers(g) <==> covered(middle.push(a), g) by {
                                            lemma_covered_push(lower, e, g);
                                            lemma_covered_push(middle, a, g);
                                        }
                                    } else {
                                        assert forall|g: &VarSet<V>| #[trigger]
                                            old(self).covers(g) <==> covered(middle, g) by {
                                            lemma_covered_push(lower, e, g);
                                        }
                                    }
                                } else {
                                    if instantiated_state is Some {
                                        let a = instantiated_state->0;
                                        lemma_apart_push(lower, a);
                                        assert forall|g: &VarSet<V>| #[trigger]
                                            a.admits(g) implies !covered(lower, g) by {}
                                        assert forall|g: &VarSet<V>| #[trigger]
                                            old(self).covers(g) <==> covered(lower.push(a), g) by {
                                            lemma_covered_push(lower, a, g);
                                        }
                                    } else {
                                        assert forall|g: &VarSet<V>| #[trigger]
                                            old(self).covers(g) <==> covered(lower, g) by {}
                                    }
                                }
                            }
                            if let Some(state) = removed_state {
                                proof {
                                    lemma_weight_monotone(
                                        state.effort(),
                                        (current.effort() - 1) as nat,
                                    );
                                    lemma_stack_weight_push(self.state_stack@, state);
                                }
                                self.state_stack.push(state);
                            }
                            if let Some(state) = instantiated_state {
                                proof {
                                    state.var_set.lemma_refines_total(&current.var_set);
                                    lemma_bounded_set(
                                        state.instantiated_vars@,
                                        state.var_set.len(),
                                    );
                                    lemma_weight_monotone(
                                        state.effort(),
                                        (current.effort() - 1) as nat,
                                    );
                                    lemma_stack_weight_push(self.state_stack@, state);
                                }
                                self.state_stack.push(state);
                            }
                        },
                    }
                },
            }
        }
        None
    }
}

} // verus!
