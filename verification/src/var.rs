//! Variables, their domains, and the store that owns them.
use crate::propagate::PropId;
use std::collections::BTreeSet;
use std::collections::HashSet;
use std::hash::Hash;
use vstd::prelude::*;
use vstd::std_specs::hash::obeys_key_model;
use vstd::std_specs::iter::IteratorSpec;

verus! {

broadcast use {
    vstd::std_specs::btree::group_btree_axioms,
    vstd::std_specs::hash::group_hash_axioms,
};

/// Handle of a variable within one store: its position in creation order.
#[derive(Clone, Copy, Debug, Default, PartialEq, Eq, Structural, PartialOrd, Ord, Hash)]
pub struct VarId {
    pub id: usize,
}

/// What a mutation did to the domain of one variable.
#[derive(Clone, Copy, Debug, PartialEq, Eq, Structural, PartialOrd, Ord, Hash)]
pub enum DomainUpdate {
    /// Nothing was removed.
    Unchanged(VarId),
    /// Values were removed and more than one remains.
    Reduced(VarId),
    /// Exactly one value remains.
    Fixed(VarId),
}

impl DomainUpdate {
    /// The variable that the update is about.
    pub open spec fn spec_var_id(&self) -> VarId {
        match *self {
            DomainUpdate::Unchanged(v) => v,
            DomainUpdate::Reduced(v) => v,
            DomainUpdate::Fixed(v) => v,
        }
    }

    /// The variable that the update is about.
    #[verifier::when_used_as_spec(spec_var_id)]
    pub fn var_id(&self) -> (r: VarId)
        ensures
            r == self.spec_var_id(),
    {
        match *self {
            DomainUpdate::Unchanged(v) => v,
            DomainUpdate::Reduced(v) => v,
            DomainUpdate::Fixed(v) => v,
        }
    }
}

/// A mutation either reports its effect or fails because it would leave a
/// domain without values.
pub type VarResult<T> = Result<T, ()>;

/// The outcome of removing `v` from `d`, for a variable with handle `id`.
pub open spec fn removal_outcome<T>(d: Set<T>, v: T, id: VarId) -> VarResult<DomainUpdate> {
    if !d.contains(v) {
        Ok(DomainUpdate::Unchanged(id))
    } else if d.len() == 1 {
        Err(())
    } else if d.len() == 2 {
        Ok(DomainUpdate::Fixed(id))
    } else {
        Ok(DomainUpdate::Reduced(id))
    }
}

/// The outcome of collapsing `d` to `v`, for a variable with handle `id`.
pub open spec fn collapse_outcome<T>(d: Set<T>, v: T, id: VarId) -> VarResult<DomainUpdate> {
    if !d.contains(v) {
        Err(())
    } else if d.len() == 1 {
        Ok(DomainUpdate::Unchanged(id))
    } else {
        Ok(DomainUpdate::Fixed(id))
    }
}

/// The domain left by collapsing `d` to `v`.
pub open spec fn collapsed<T>(d: Set<T>, v: T) -> Set<T> {
    if d.contains(v) {
        set![v]
    } else {
        d
    }
}

/// Removing a value a second time reports no change and changes nothing.
pub proof fn lemma_remove_twice<T>(d: Set<T>, v: T, id: VarId)
    ensures
        removal_outcome(d.remove(v), v, id) == Ok::<DomainUpdate, ()>(DomainUpdate::Unchanged(id)),
        d.remove(v).remove(v) == d.remove(v),
{
    assert(d.remove(v).remove(v) =~= d.remove(v));
}

/// Collapsing to a value of the domain leaves that value alone; collapsing
/// to any other value fails and leaves the domain as it was.
pub proof fn lemma_collapse<T>(d: Set<T>, v: T, id: VarId)
    ensures
        d.contains(v) ==> collapsed(d, v) == set![v] && collapse_outcome(d, v, id) is Ok,
        !d.contains(v) ==> collapsed(d, v) == d && collapse_outcome(d, v, id) is Err,
{
}

/// One decision variable: a handle and a finite set of candidate values.
pub trait Variable: Sized {
    type Value: Copy;

    /// Whether comparing or hashing values agrees with equality, as the
    /// container behind the domain needs.
    spec fn lawful() -> bool;

    /// The candidate values.
    spec fn domain(&self) -> Set<Self::Value>;

    /// The handle.
    spec fn spec_id(&self) -> VarId;

    /// The candidate values in the order in which `possibilities` hands
    /// them out.
    spec fn order(&self) -> Seq<Self::Value>;

    /// The representation invariant.
    spec fn wf(&self) -> bool;

    /// A well-formed variable has a finite domain of lawful values.
    proof fn lemma_wf(&self)
        requires
            self.wf(),
        ensures
            self.domain().finite(),
            Self::lawful(),
    ;

    /// A variable whose domain holds exactly the distinct values given.
    fn with_domain(values: &[Self::Value]) -> (r: Self)
        requires
            Self::lawful(),
        ensures
            r.wf(),
            r.domain() == values@.to_set(),
            r.spec_id() == (VarId { id: 0 }),
    ;

    /// The handle.
    fn id(&self) -> (r: VarId)
        ensures
            r == self.spec_id(),
    ;

    /// Gives the variable its handle; the domain stays.
    fn set_id(&mut self, id: VarId)
        ensures
            final(self).spec_id() == id,
            final(self).domain() == old(self).domain(),
            final(self).wf() == old(self).wf(),
    ;

    /// An independent copy.
    fn duplicate(&self) -> (r: Self)
        requires
            self.wf(),
        ensures
            r.wf(),
            r.domain() == self.domain(),
            r.spec_id() == self.spec_id(),
    ;

    /// The number of candidate values.
    fn size(&self) -> (r: usize)
        requires
            self.wf(),
        ensures
            r == self.domain().len(),
    ;

    /// Whether `value` is a candidate.
    fn contains(&self, value: &Self::Value) -> (r: bool)
        requires
            self.wf(),
        ensures
            r == self.domain().contains(*value),
    ;

    /// The value of a ground variable.
    fn value(&self) -> (r: Option<Self::Value>)
        requires
            self.wf(),
        ensures
            r is Some <==> self.domain().len() == 1,
            r matches Some(v) ==> self.domain() == set![v],
    ;

    /// The candidate values, each once.
    fn possibilities(&self) -> (r: Vec<Self::Value>)
        requires
            self.wf(),
        ensures
            r@ == self.order(),
            r@.no_duplicates(),
            r@.to_set() == self.domain(),
            r@.len() == self.domain().len(),
    ;

    /// Takes `value` out of the domain.
    fn remove(&mut self, value: &Self::Value) -> (r: VarResult<DomainUpdate>)
        requires
            old(self).wf(),
        ensures
            final(self).wf(),
            final(self).spec_id() == old(self).spec_id(),
            final(self).domain() == old(self).domain().remove(*value),
            r == removal_outcome(old(self).domain(), *value, old(self).spec_id()),
    ;

    /// Collapses the domain to `value` alone, if it holds `value`.
    fn instantiate(&mut self, value: &Self::Value) -> (r: VarResult<DomainUpdate>)
        requires
            old(self).wf(),
        ensures
            final(self).wf(),
            final(self).spec_id() == old(self).spec_id(),
            final(self).domain() == collapsed(old(self).domain(), *value),
            r == collapse_outcome(old(self).domain(), *value, old(self).spec_id()),
    ;
}

/// Whether the order on `T` is a total order that agrees with equality.
pub open spec fn ordered<T: Ord>() -> bool {
    vstd::laws_cmp::obeys_cmp::<T>()
}

/// Whether hashing and equality on `T` agree.
pub open spec fn hashable<T>() -> bool {
    obeys_key_model::<T>()
}

/// The set of the values of `s` up to `i`, one more than up to `i - 1`.
pub proof fn lemma_take_to_set<T>(s: Seq<T>, i: int)
    requires
        0 <= i < s.len(),
    ensures
        s.take(i + 1).to_set() == s.take(i).to_set().insert(s[i]),
        s.take(i).to_set().finite(),
{
    let a = s.take(i);
    let b = s.take(i + 1);
    vstd::seq_lib::seq_to_set_is_finite(a);
    assert forall|x: T| b.to_set().contains(x) <==> a.to_set().insert(s[i]).contains(x) by {
        if b.contains(x) {
            let k = choose|k: int| 0 <= k < b.len() && b[k] == x;
            if k < a.len() {
                assert(a[k] == x);
            }
        }
        if a.contains(x) {
            let k = choose|k: int| 0 <= k < a.len() && a[k] == x;
            assert(b[k] == x);
        }
        assert(b[i] == s[i]);
    }
    assert(b.to_set() =~= a.to_set().insert(s[i]));
}

/// A set of one element is that element alone.
pub proof fn lemma_singleton<T>(d: Set<T>, v: T)
    requires
        d.finite(),
        d.len() == 1,
        d.contains(v),
    ensures
        d == set![v],
{
    assert(d.remove(v).len() == 0);
    assert(d.remove(v) =~= Set::empty());
    assert(d =~= set![v]);
}

/// A variable whose domain lies in an ordered set.
#[derive(Debug)]
pub struct BTreeSetVar<T> {
    id: VarId,
    domain: BTreeSet<T>,
}

impl<T: Ord + Copy> BTreeSetVar<T> {
    /// The values that the set hands out, in its order.
    fn listing(&self) -> (r: Vec<T>)
        requires
            self.wf(),
        ensures
            r@ == self.order(),
            r@.no_duplicates(),
            r@.to_set() == self.domain(),
            r@.len() == self.domain().len(),
            crate::order::increasing(r@),
    {
        let mut out: Vec<T> = Vec::new();
        for x in it: self.domain.iter()
            invariant
                out@ == it.seq().take(it.index@).unref(),
                it.seq() == self.domain.iter().remaining(),
                vstd::std_specs::btree::into_iter_btree_keys(self.domain.iter())
                    == it.seq().unref(),
        {
            out.push(*x);
        }
        proof {
            assert(out@ =~= self.domain.iter().remaining().unref());
            crate::order::lemma_increasing(self.domain.iter().remaining());
        }
        out
    }
}

impl<T: Ord + Copy> Variable for BTreeSetVar<T> {
    type Value = T;

    closed spec fn order(&self) -> Seq<T> {
        vstd::std_specs::btree::into_iter_btree_keys(self.domain.iter())
    }

    open spec fn lawful() -> bool {
        ordered::<T>()
    }

    closed spec fn domain(&self) -> Set<T> {
        self.domain@
    }

    closed spec fn spec_id(&self) -> VarId {
        self.id
    }

    closed spec fn wf(&self) -> bool {
        ordered::<T>() && self.domain@.finite()
    }

    proof fn lemma_wf(&self) {
    }

    fn with_domain(values: &[T]) -> (r: Self) {
        let mut domain: BTreeSet<T> = BTreeSet::new();
        let mut i: usize = 0;
        while i < values.len()
            invariant
                ordered::<T>(),
                i <= values.len(),
                domain@ == values@.take(i as int).to_set(),
                domain@.finite(),
            decreases values.len() - i,
        {
            proof {
                lemma_take_to_set(values@, i as int);
            }
            domain.insert(values[i]);
            i += 1;
        }
        proof {
            assert(values@.take(i as int) =~= values@);
        }
        BTreeSetVar { id: VarId { id: 0 }, domain }
    }

    fn id(&self) -> (r: VarId) {
        self.id
    }

    fn set_id(&mut self, id: VarId) {
        self.id = id;
    }

    fn duplicate(&self) -> (r: Self) {
        BTreeSetVar { id: self.id, domain: self.domain.clone() }
    }

    fn size(&self) -> (r: usize) {
        self.domain.len()
    }

    fn contains(&self, value: &T) -> (r: bool) {
        self.domain.contains(value)
    }

    fn value(&self) -> (r: Option<T>) {
        if self.domain.len() == 1 {
            let all = self.listing();
            proof {
                assert(all@.to_set().contains(all@[0]));
                lemma_singleton(self.domain@, all@[0]);
            }
            Some(all[0])
        } else {
            None
        }
    }

    /// The candidate values, each once, from the least to the greatest.
    fn possibilities(&self) -> (r: Vec<T>)
        ensures
            crate::order::increasing(r@),
    {
        self.listing()
    }

    fn remove(&mut self, value: &T) -> (r: VarResult<DomainUpdate>) {
        if self.domain.remove(value) {
            let left = self.domain.len();
            if left == 0 {
                Err(())
            } else if left == 1 {
                Ok(DomainUpdate::Fixed(self.id))
            } else {
                Ok(DomainUpdate::Reduced(self.id))
            }
        } else {
            proof {
                assert(self.domain@ =~= old(self).domain@);
            }
            Ok(DomainUpdate::Unchanged(self.id))
        }
    }

    fn instantiate(&mut self, value: &T) -> (r: VarResult<DomainUpdate>) {
        if self.domain.contains(value) {
            if self.domain.len() == 1 {
                proof {
                    lemma_singleton(self.domain@, *value);
                }
                Ok(DomainUpdate::Unchanged(self.id))
            } else {
                self.domain = BTreeSet::new();
                self.domain.insert(*value);
                proof {
                    assert(self.domain@ =~= set![*value]);
                }
                Ok(DomainUpdate::Fixed(self.id))
            }
        } else {
            Err(())
        }
    }
}

/// A variable whose domain lies in a hash set: its values come out in an
/// order that may differ from one run to the next.
#[derive(Debug)]
pub struct HashSetVar<T: Eq + Hash> {
    id: VarId,
    domain: HashSet<T>,
}

impl<T: Eq + Hash + Copy> HashSetVar<T> {
    /// The values that the set hands out, in its order.
    fn listing(&self) -> (r: Vec<T>)
        requires
            self.wf(),
        ensures
            r@ == self.order(),
            r@.no_duplicates(),
            r@.to_set() == self.domain(),
            r@.len() == self.domain().len(),
    {
        let mut out: Vec<T> = Vec::new();
        for x in it: self.domain.iter()
            invariant
                out@ == it.seq().take(it.index@).unref(),
                it.seq() == self.domain.iter().remaining(),
                vstd::std_specs::hash::into_iter_hash_keys(self.domain.iter()) == it.seq().unref(),
        {
            out.push(*x);
        }
        proof {
            assert(out@ =~= self.domain.iter().remaining().unref());
        }
        out
    }
}

impl<T: Eq + Hash + Copy> Variable for HashSetVar<T> {
    type Value = T;

    closed spec fn order(&self) -> Seq<T> {
        vstd::std_specs::hash::into_iter_hash_keys(self.domain.iter())
    }

    open spec fn lawful() -> bool {
        hashable::<T>()
    }

    closed spec fn domain(&self) -> Set<T> {
        self.domain@
    }

    closed spec fn spec_id(&self) -> VarId {
        self.id
    }

    closed spec fn wf(&self) -> bool {
        hashable::<T>() && self.domain@.finite()
    }

    proof fn lemma_wf(&self) {
    }

    fn with_domain(values: &[T]) -> (r: Self) {
        let mut domain: HashSet<T> = HashSet::new();
        let mut i: usize = 0;
        while i < values.len()
            invariant
                hashable::<T>(),
                i <= values.len(),
                domain@ == values@.take(i as int).to_set(),
                domain@.finite(),
            decreases values.len() - i,
        {
            proof {
                lemma_take_to_set(values@, i as int);
            }
            domain.insert(values[i]);
            i += 1;
        }
        proof {
            assert(values@.take(i as int) =~= values@);
        }
        HashSetVar { id: VarId { id: 0 }, domain }
    }

    fn id(&self) -> (r: VarId) {
        self.id
    }

    fn set_id(&mut self, id: VarId) {
        self.id = id;
    }

    fn duplicate(&self) -> (r: Self) {
        let all = self.listing();
        let mut copy = Self::with_domain(all.as_slice());
        copy.set_id(self.id);
        copy
    }

    fn size(&self) -> (r: usize) {
        self.domain.len()
    }

    fn contains(&self, value: &T) -> (r: bool) {
        self.domain.contains(value)
    }

    fn value(&self) -> (r: Option<T>) {
        if self.domain.len() == 1 {
            let all = self.listing();
            proof {
                assert(all@.to_set().contains(all@[0]));
                lemma_singleton(self.domain@, all@[0]);
            }
            Some(all[0])
        } else {
            None
        }
    }

    fn possibilities(&self) -> (r: Vec<T>) {
        self.listing()
    }

    fn remove(&mut self, value: &T) -> (r: VarResult<DomainUpdate>) {
        if self.domain.remove(value) {
            let left = self.domain.len();
            if left == 0 {
                Err(())
            } else if left == 1 {
                Ok(DomainUpdate::Fixed(self.id))
            } else {
                Ok(DomainUpdate::Reduced(self.id))
            }
        } else {
            proof {
                assert(self.domain@ =~= old(self).domain@);
            }
            Ok(DomainUpdate::Unchanged(self.id))
        }
    }

    fn instantiate(&mut self, value: &T) -> (r: VarResult<DomainUpdate>) {
        if self.domain.contains(value) {
            if self.domain.len() == 1 {
                proof {
                    lemma_singleton(self.domain@, *value);
                }
                Ok(DomainUpdate::Unchanged(self.id))
            } else {
                self.domain = HashSet::new();
                self.domain.insert(*value);
                proof {
                    assert(self.domain@ =~= set![*value]);
                }
                Ok(DomainUpdate::Fixed(self.id))
            }
        } else {
            Err(())
        }
    }
}


/// The number of candidate values that the variables of `s` hold together.
pub open spec fn total_size<V: Variable>(s: Seq<V>) -> nat
    decreases s.len(),
{
    if s.len() == 0 {
        0
    } else {
        total_size(s.drop_last()) + s.last().domain().len()
    }
}

/// Replacing one variable changes the total by the change of its domain's
/// size.
pub proof fn lemma_total_update<V: Variable>(s: Seq<V>, i: int, v: V)
    requires
        0 <= i < s.len(),
    ensures
        total_size(s.update(i, v)) + s[i].domain().len() == total_size(s) + v.domain().len(),
    decreases s.len(),
{
    let t = s.update(i, v);
    if i == s.len() - 1 {
        assert(t.drop_last() =~= s.drop_last());
    } else {
        assert(t.drop_last() =~= s.drop_last().update(i, v));
        lemma_total_update(s.drop_last(), i, v);
    }
}

/// Variables with smaller domains, one by one, hold a smaller total.
pub proof fn lemma_total_le<V: Variable>(s: Seq<V>, t: Seq<V>)
    requires
        s.len() == t.len(),
        forall|i: int| 0 <= i < t.len() ==> (#[trigger] t[i]).wf(),
        forall|i: int| 0 <= i < s.len() ==> (#[trigger] s[i]).domain().subset_of(t[i].domain()),
    ensures
        total_size(s) <= total_size(t),
    decreases s.len(),
{
    if s.len() > 0 {
        lemma_total_le(s.drop_last(), t.drop_last());
        t.last().lemma_wf();
        assert(s.last() == s[s.len() - 1]);
        assert(t.last() == t[t.len() - 1]);
        vstd::set_lib::lemma_len_subset(s.last().domain(), t.last().domain());
    }
}

/// The variables of a model, by handle, and for each variable the
/// propagators that asked to hear of its changes.
#[derive(Debug)]
pub struct VarSet<V: Variable> {
    vars: Vec<V>,
    var_ids: Vec<VarId>,
    subscriptions: Vec<Vec<PropId>>,
}

impl<V: Variable> VarSet<V> {
    /// The variables, in creation order.
    pub closed spec fn vars(&self) -> Seq<V> {
        self.vars@
    }

    /// The handles, in creation order.
    pub closed spec fn ids(&self) -> Seq<VarId> {
        self.var_ids@
    }

    /// The subscription list of each variable, in creation order.
    pub closed spec fn subs(&self) -> Seq<Seq<PropId>> {
        Seq::new(self.subscriptions@.len(), |i: int| self.subscriptions@[i]@)
    }

    /// The number of variables.
    pub open spec fn len(&self) -> nat {
        self.vars().len()
    }

    /// Whether `id` was handed out by this store.
    pub open spec fn valid(&self, id: VarId) -> bool {
        id.id < self.len()
    }

    /// The domain of the variable `id`.
    pub open spec fn dom(&self, id: VarId) -> Set<V::Value> {
        self.vars()[id.id as int].domain()
    }

    /// The domain of each variable, by handle.
    pub open spec fn dom_map(&self) -> Map<VarId, Set<V::Value>> {
        Map::new(|v: VarId| self.valid(v), |v: VarId| self.dom(v))
    }

    /// Every handle indexes its own variable, and every variable is
    /// well-formed.
    pub open spec fn wf(&self) -> bool {
        &&& self.ids().len() == self.len()
        &&& self.subs().len() == self.len()
        &&& forall|i: int| 0 <= i < self.len() ==> (#[trigger] self.ids()[i]).id == i
        &&& forall|i: int|
            0 <= i < self.len() ==> {
                &&& (#[trigger] self.vars()[i]).wf()
                &&& self.vars()[i].spec_id().id == i
            }
    }

    /// The number of candidate values left in the whole store.
    pub open spec fn total(&self) -> nat {
        total_size(self.vars())
    }

    /// Whether every variable has exactly one value.
    pub open spec fn ground(&self) -> bool {
        forall|i: int| 0 <= i < self.len() ==> (#[trigger] self.vars()[i]).domain().len() == 1
    }

    /// Whether this store has the variables of `prev`, each domain a subset
    /// of what it was.
    pub open spec fn refines(&self, prev: &Self) -> bool {
        &&& self.len() == prev.len()
        &&& self.ids() == prev.ids()
        &&& forall|i: int|
            0 <= i < self.len() ==> (#[trigger] self.vars()[i]).domain().subset_of(
                prev.vars()[i].domain(),
            )
    }

    /// Whether this store refines `prev` and has the same subscriptions.
    pub open spec fn narrows(&self, prev: &Self) -> bool {
        &&& self.refines(prev)
        &&& self.subs() == prev.subs()
    }

    /// Whether `u` is about a variable of this store, and that variable is
    /// ground if `u` says so.
    pub open spec fn describes(&self, u: DomainUpdate) -> bool {
        &&& self.valid(u.var_id())
        &&& u is Fixed ==> self.dom(u.var_id()).len() == 1
    }

    /// Whether `u` does not miss that its variable is ground by now.
    pub open spec fn current(&self, u: DomainUpdate) -> bool {
        self.dom(u.var_id()).len() == 1 ==> u is Fixed
    }

    /// Whether `list` holds an update about `v` that is current.
    pub open spec fn announces(&self, list: Seq<DomainUpdate>, v: VarId) -> bool {
        exists|k: int|
            0 <= k < list.len() && (#[trigger] list[k]).var_id() == v && self.current(list[k])
    }

    /// Whether `list` holds an update about `v` that is current and reports
    /// a change.
    pub open spec fn reports(&self, list: Seq<DomainUpdate>, v: VarId) -> bool {
        exists|k: int|
            0 <= k < list.len() && (#[trigger] list[k]).var_id() == v && !(list[k] is Unchanged)
                && self.current(list[k])
    }

    /// Whether every update of `s` is described by this store.
    pub open spec fn describes_all(&self, s: Seq<DomainUpdate>) -> bool {
        forall|k: int| 0 <= k < s.len() ==> self.describes(#[trigger] s[k])
    }

    /// A ground variable stays ground while domains only shrink and none
    /// runs empty.
    pub proof fn lemma_describes_kept(&self, prev: &Self, u: DomainUpdate)
        requires
            prev.wf(),
            self.refines(prev),
            self.keeps_alive(prev),
            prev.describes(u),
        ensures
            self.describes(u),
    {
        let i = u.var_id().id as int;
        prev.vars()[i].lemma_wf();
        assert(self.vars()[i].domain().subset_of(prev.vars()[i].domain()));
        vstd::set_lib::lemma_len_subset(self.vars()[i].domain(), prev.vars()[i].domain());
    }

    /// Shrinking domains shrink the total.
    pub proof fn lemma_refines_total(&self, prev: &Self)
        requires
            prev.wf(),
            self.refines(prev),
        ensures
            self.total() <= prev.total(),
    {
        lemma_total_le(self.vars(), prev.vars());
    }

    /// Whether no variable that had a value in `prev` is without one here.
    pub open spec fn keeps_alive(&self, prev: &Self) -> bool {
        forall|i: int|
            0 <= i < self.len() && i < prev.len() && prev.vars()[i].domain().len() > 0 ==> (
            #[trigger] self.vars()[i]).domain().len() > 0
    }

    /// Whether this store has the variables, domains and subscriptions of
    /// `other`.
    pub open spec fn same_as(&self, other: &Self) -> bool {
        &&& self.len() == other.len()
        &&& self.ids() == other.ids()
        &&& self.subs() == other.subs()
        &&& forall|i: int|
            0 <= i < self.len() ==> (#[trigger] self.vars()[i]).domain()
                == other.vars()[i].domain()
    }

    /// Whether this store has as many variables as `other`, each with the
    /// domain that it has there.
    pub open spec fn agrees(&self, other: &Self) -> bool {
        &&& self.len() == other.len()
        &&& self.ids() == other.ids()
        &&& forall|i: int|
            0 <= i < self.len() ==> (#[trigger] self.vars()[i]).domain()
                == other.vars()[i].domain()
    }

    /// Whether this store is `prev` but for the variable `id`, which has the
    /// domain `d`.
    pub open spec fn is_update_of(&self, prev: &Self, id: VarId, d: Set<V::Value>) -> bool {
        &&& self.len() == prev.len()
        &&& self.ids() == prev.ids()
        &&& self.subs() == prev.subs()
        &&& self.dom(id) == d
        &&& forall|i: int|
            0 <= i < self.len() && i != id.id ==> (#[trigger] self.vars()[i]).domain()
                == prev.vars()[i].domain()
    }

    /// A store without variables.
    pub fn new() -> (r: VarSet<V>)
        ensures
            r.wf(),
            r.len() == 0,
    {
        VarSet { vars: Vec::new(), var_ids: Vec::new(), subscriptions: Vec::new() }
    }

    /// Adds a variable with the given candidate values and no subscriptions.
    pub fn create_var(&mut self, values: &[V::Value]) -> (r: VarId)
        requires
            old(self).wf(),
            V::lawful(),
        ensures
            final(self).wf(),
            r.id == old(self).len(),
            final(self).len() == old(self).len() + 1,
            final(self).dom(r) == values@.to_set(),
            final(self).subs() == old(self).subs().push(Seq::empty()),
            final(self).ids() == old(self).ids().push(r),
            forall|i: int|
                0 <= i < old(self).len() ==> (#[trigger] final(self).vars()[i]) == old(
                    self,
                ).vars()[i],
    {
        let var_id = VarId { id: self.vars.len() };
        let mut var = V::with_domain(values);
        var.set_id(var_id);
        self.vars.push(var);
        self.var_ids.push(var_id);
        self.subscriptions.push(Vec::new());
        proof {
            assert(self.subs() =~= old(self).subs().push(Seq::empty()));
        }
        var_id
    }

    /// Replaces the domain of `var_id` by `value` alone, whatever it held.
    pub fn set(&mut self, var_id: VarId, value: &V::Value)
        requires
            old(self).wf(),
            old(self).valid(var_id),
        ensures
            final(self).wf(),
            final(self).is_update_of(old(self), var_id, set![*value]),
    {
        proof {
            old(self).vars()[var_id.id as int].lemma_wf();
        }
        let one: [V::Value; 1] = [*value];
        let mut new_var = V::with_domain(one.as_slice());
        new_var.set_id(var_id);
        proof {
            assert(one@.to_set() =~= set![*value]) by {
                assert(one@[0] == *value);
                assert forall|x: V::Value| one@.to_set().contains(x) implies x == *value by {
                    let k = choose|k: int| 0 <= k < one@.len() && one@[k] == x;
                }
            }
        }
        self.vars[var_id.id] = new_var;
        proof {
            assert(self.subs() =~= old(self).subs());
        }
    }

    /// The variable `var_id`.
    pub fn var(&self, var_id: VarId) -> (r: &V)
        requires
            self.valid(var_id),
        ensures
            *r == self.vars()[var_id.id as int],
    {
        &self.vars[var_id.id]
    }

    /// The variable `var_id`, to change it.
    pub fn var_mut(&mut self, var_id: VarId) -> (r: &mut V)
        requires
            old(self).valid(var_id),
        ensures
            *r == old(self).vars()[var_id.id as int],
            final(self).vars() == old(self).vars().update(var_id.id as int, *final(r)),
            final(self).ids() == old(self).ids(),
            final(self).subs() == old(self).subs(),
    {
        &mut self.vars[var_id.id]
    }

    /// The handle of the variable created as number `num`.
    pub fn var_id(&self, num: usize) -> (r: VarId)
        requires
            self.wf(),
            num < self.len(),
        ensures
            r.id == num,
    {
        self.var_ids[num]
    }

    /// All handles, in creation order.
    pub fn var_ids(&self) -> (r: &Vec<VarId>)
        ensures
            r@ == self.ids(),
    {
        &self.var_ids
    }

    /// The number of variables.
    pub fn size(&self) -> (r: usize)
        ensures
            r == self.len(),
    {
        self.vars.len()
    }

    /// Whether every variable has exactly one value.
    pub fn check(&self) -> (r: bool)
        requires
            self.wf(),
        ensures
            r == self.ground(),
    {
        let mut i: usize = 0;
        while i < self.vars.len()
            invariant
                self.wf(),
                i <= self.vars.len(),
                forall|j: int| 0 <= j < i ==> (#[trigger] self.vars()[j]).domain().len() == 1,
            decreases self.vars.len() - i,
        {
            if self.vars[i].size() != 1 {
                return false;
            }
            i += 1;
        }
        true
    }

    /// Records that `prop_id` wants to hear of the changes of `var_id`.
    pub fn subscribe(&mut self, var_id: VarId, prop_id: PropId)
        requires
            old(self).valid(var_id),
            old(self).subs().len() == old(self).len(),
        ensures
            final(self).vars() == old(self).vars(),
            final(self).ids() == old(self).ids(),
            final(self).subs() == old(self).subs().update(
                var_id.id as int,
                old(self).subs()[var_id.id as int].push(prop_id),
            ),
    {
        self.subscriptions[var_id.id].push(prop_id);
        proof {
            assert(self.subs() =~= old(self).subs().update(
                var_id.id as int,
                old(self).subs()[var_id.id as int].push(prop_id),
            ));
        }
    }

    /// The propagators subscribed to `var_id`, in the order in which they
    /// subscribed.
    pub fn subscriptions(&self, var_id: VarId) -> (r: &Vec<PropId>)
        requires
            self.valid(var_id),
            self.subs().len() == self.len(),
        ensures
            r@ == self.subs()[var_id.id as int],
    {
        &self.subscriptions[var_id.id]
    }

    /// An independent copy.
    pub fn duplicate(&self) -> (r: VarSet<V>)
        requires
            self.wf(),
        ensures
            r.wf(),
            r.same_as(self),
    {
        let mut vars: Vec<V> = Vec::new();
        let mut var_ids: Vec<VarId> = Vec::new();
        let mut subscriptions: Vec<Vec<PropId>> = Vec::new();
        let mut i: usize = 0;
        while i < self.vars.len()
            invariant
                self.wf(),
                i <= self.vars.len(),
                vars@.len() == i,
                var_ids@.len() == i,
                subscriptions@.len() == i,
                forall|j: int|
                    0 <= j < i ==> {
                        &&& (#[trigger] vars@[j]).wf()
                        &&& vars@[j].domain() == self.vars@[j].domain()
                        &&& vars@[j].spec_id().id == j
                    },
                forall|j: int| 0 <= j < i ==> #[trigger] var_ids@[j] == self.var_ids@[j],
                forall|j: int| 0 <= j < i ==> (#[trigger] subscriptions@[j])@ == self.subscriptions@[j]@,
            decreases self.vars.len() - i,
        {
            vars.push(self.vars[i].duplicate());
            var_ids.push(self.var_ids[i]);
            subscriptions.push(copy_prop_ids(&self.subscriptions[i]));
            i += 1;
        }
        let r = VarSet { vars, var_ids, subscriptions };
        proof {
            assert(r.ids() =~= self.ids());
            assert(r.subs() =~= self.subs());
        }
        r
    }
}

/// A copy of a list of propagator handles.
pub fn copy_prop_ids(list: &Vec<PropId>) -> (r: Vec<PropId>)
    ensures
        r@ == list@,
{
    let mut out: Vec<PropId> = Vec::new();
    let mut i: usize = 0;
    while i < list.len()
        invariant
            i <= list.len(),
            out@ == list@.take(i as int),
        decreases list.len() - i,
    {
        out.push(list[i]);
        proof {
            assert(list@.take(i + 1) =~= list@.take(i as int).push(list@[i as int]));
        }
        i += 1;
    }
    proof {
        assert(list@.take(i as int) =~= list@);
    }
    out
}

} // verus!
