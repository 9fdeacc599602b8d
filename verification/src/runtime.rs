use vstd::prelude::*;

use crate::delta_f32::{
    all_in_bounds, apply_delta_f32, apply_outcome, compute_delta_f32, compute_outcome,
    decimal, deterministic_test, lemma_apply_law, lemma_compute_deterministic, lemma_compute_law, lemma_compute_then_apply, patched, Delta,
    DeltaError,
};
use crate::policy::ReusePolicy;
use crate::state_types::StateId;

verus! {

/// Errors of the runtime.
#[derive(Debug)]
pub enum RuntimeError {
    /// No master is registered under the requested id.
    MasterNotFound,
    /// The delta operation on the registered master failed.
    Delta(DeltaError),
}

/// A registered master buffer.
struct MasterEntry<T> {
    id: StateId,
    data: Vec<T>,
}

/// Runtime orchestrator: keeps master states by id and computes and applies
/// deltas against them.
pub struct DeltaRuntime<T> {
    masters: Vec<MasterEntry<T>>,
    policy: ReusePolicy<T>,
}

/// No two entries hold the same id.
spec fn distinct_ids<T>(masters: Seq<MasterEntry<T>>) -> bool {
    forall|i: int, j: int|
        0 <= i < j < masters.len() ==> #[trigger] masters[i].id@ != #[trigger] masters[j].id@
}

/// No two entries hold the same id, and the map of entries has exactly one key
/// per entry.
spec fn well_kept<T>(masters: Seq<MasterEntry<T>>) -> bool {
    &&& distinct_ids(masters)
    &&& entries_view(masters).dom().finite()
    &&& entries_view(masters).dom().len() == masters.len()
}

/// The entries as a map from id to data.
spec fn entries_view<T>(masters: Seq<MasterEntry<T>>) -> Map<<StateId as View>::V, Seq<T>> {
    Map::new(
        |k: <StateId as View>::V| exists|i: int| 0 <= i < masters.len() && masters[i].id@ == k,
        |k: <StateId as View>::V|
            masters[choose|i: int| 0 <= i < masters.len() && masters[i].id@ == k].data@,
    )
}

/// With distinct ids, entry `i` is what the map shows under its id.
proof fn lemma_entry_in_view<T>(masters: Seq<MasterEntry<T>>, i: int)
    requires
        0 <= i < masters.len(),
        distinct_ids(masters),
    ensures
        entries_view(masters).contains_key(masters[i].id@),
        entries_view(masters)[masters[i].id@] == masters[i].data@,
{
    let k = masters[i].id@;
    let j = choose|j: int| 0 <= j < masters.len() && masters[j].id@ == k;
    if j < i {
        assert(masters[j].id@ != masters[i].id@);
    } else if j > i {
        assert(masters[i].id@ != masters[j].id@);
    }
}

/// Writing `entry` at `pos` (an existing entry with the same id, or one past
/// the end) inserts its data under its id.
proof fn lemma_write_entry<T>(
    old_masters: Seq<MasterEntry<T>>,
    new_masters: Seq<MasterEntry<T>>,
    pos: int,
)
    requires
        well_kept(old_masters),
        0 <= pos <= old_masters.len(),
        pos < new_masters.len(),
        pos < old_masters.len() ==> old_masters[pos].id@ == new_masters[pos].id@,
        pos == old_masters.len() ==> forall|j: int|
            0 <= j < old_masters.len() ==> old_masters[j].id@ != new_masters[pos].id@,
        new_masters.len() == if pos < old_masters.len() {
            old_masters.len()
        } else {
            old_masters.len() + 1
        },
        forall|j: int| 0 <= j < old_masters.len() && j != pos ==> new_masters[j] == old_masters[j],
    ensures
        well_kept(new_masters),
        entries_view(new_masters) == entries_view(old_masters).insert(
            new_masters[pos].id@,
            new_masters[pos].data@,
        ),
{
    let key = new_masters[pos].id@;
    assert forall|a: int, b: int|
        0 <= a < b < new_masters.len() implies #[trigger] new_masters[a].id@
        != #[trigger] new_masters[b].id@ by {
        if a != pos && b != pos {
            assert(new_masters[a] == old_masters[a]);
            assert(new_masters[b] == old_masters[b]);
        } else if a == pos {
            assert(new_masters[b] == old_masters[b]);
            if pos < old_masters.len() {
                assert(old_masters[pos].id@ != old_masters[b].id@);
            }
        } else {
            assert(new_masters[a] == old_masters[a]);
            if pos < old_masters.len() {
                assert(old_masters[a].id@ != old_masters[pos].id@);
            } else {
                assert(old_masters[a].id@ != new_masters[pos].id@);
            }
        }
    }
    let before = entries_view(old_masters);
    let after = entries_view(new_masters);
    let expected = before.insert(key, new_masters[pos].data@);
    assert forall|k: <StateId as View>::V| #[trigger] after.contains_key(k) == expected.contains_key(
        k,
    ) by {
        if k == key {
            assert(new_masters[pos].id@ == k);
        } else {
            if before.contains_key(k) {
                let j = choose|j: int| 0 <= j < old_masters.len() && old_masters[j].id@ == k;
                assert(new_masters[j] == old_masters[j]);
            }
            if after.contains_key(k) {
                let j = choose|j: int| 0 <= j < new_masters.len() && new_masters[j].id@ == k;
                assert(new_masters[j] == old_masters[j]);
            }
        }
    }
    assert forall|k: <StateId as View>::V| #[trigger] after.contains_key(k) implies after[k]
        == expected[k] by {
        if k == key {
            lemma_entry_in_view(new_masters, pos);
        } else {
            let j = choose|j: int| 0 <= j < new_masters.len() && new_masters[j].id@ == k;
            lemma_entry_in_view(new_masters, j);
            assert(new_masters[j] == old_masters[j]);
            lemma_entry_in_view(old_masters, j);
        }
    }
    assert(after =~= expected);
    if pos < old_masters.len() {
        lemma_entry_in_view(old_masters, pos);
        assert(before.dom().insert(key) =~= before.dom());
    }
}

/// No entries make the empty map.
proof fn lemma_no_entries<T>(masters: Seq<MasterEntry<T>>)
    requires
        masters.len() == 0,
    ensures
        well_kept(masters),
        entries_view(masters) == Map::<<StateId as View>::V, Seq<T>>::empty(),
{
    assert(entries_view(masters) =~= Map::<<StateId as View>::V, Seq<T>>::empty());
}

/// Removing entry `i` removes its id from the map.
proof fn lemma_remove_entry<T>(old_masters: Seq<MasterEntry<T>>, i: int)
    requires
        well_kept(old_masters),
        0 <= i < old_masters.len(),
    ensures
        well_kept(old_masters.remove(i)),
        entries_view(old_masters.remove(i)) == entries_view(old_masters).remove(old_masters[i].id@),
{
    let new_masters = old_masters.remove(i);
    let key = old_masters[i].id@;
    assert forall|a: int, b: int|
        0 <= a < b < new_masters.len() implies #[trigger] new_masters[a].id@
        != #[trigger] new_masters[b].id@ by {
        let oa = if a < i { a } else { a + 1 };
        let ob = if b < i { b } else { b + 1 };
        assert(new_masters[a] == old_masters[oa]);
        assert(new_masters[b] == old_masters[ob]);
        assert(old_masters[oa].id@ != old_masters[ob].id@);
    }
    let before = entries_view(old_masters);
    let after = entries_view(new_masters);
    let expected = before.remove(key);
    assert forall|k: <StateId as View>::V| #[trigger] after.contains_key(k) == expected.contains_key(
        k,
    ) by {
        if after.contains_key(k) {
            let j = choose|j: int| 0 <= j < new_masters.len() && new_masters[j].id@ == k;
            let oj = if j < i { j } else { j + 1 };
            assert(new_masters[j] == old_masters[oj]);
            if k == key {
                if oj < i {
                    assert(old_masters[oj].id@ != old_masters[i].id@);
                } else {
                    assert(old_masters[i].id@ != old_masters[oj].id@);
                }
            }
        }
        if expected.contains_key(k) {
            let j = choose|j: int| 0 <= j < old_masters.len() && old_masters[j].id@ == k;
            assert(j != i);
            if j < i {
                assert(new_masters[j] == old_masters[j]);
            } else {
                assert(new_masters[j - 1] == old_masters[j]);
            }
        }
    }
    assert(well_kept(old_masters));
    assert forall|k: <StateId as View>::V| #[trigger] after.contains_key(k) implies after[k]
        == expected[k] by {
        let j = choose|j: int| 0 <= j < new_masters.len() && new_masters[j].id@ == k;
        lemma_entry_in_view(new_masters, j);
        let oj = if j < i { j } else { j + 1 };
        assert(new_masters[j] == old_masters[oj]);
        lemma_entry_in_view(old_masters, oj);
    }
    assert(after =~= expected);
    lemma_entry_in_view(old_masters, i);
}

/// The part of a runtime result that comes from the delta operation.  The
/// contracts use it only where a master is registered, so the value given for
/// `MasterNotFound` never matters.
pub open spec fn delta_part<X>(r: Result<X, RuntimeError>) -> Result<X, DeltaError> {
    match r {
        Ok(x) => Ok(x),
        Err(RuntimeError::Delta(e)) => Err(e),
        Err(RuntimeError::MasterNotFound) => Err(DeltaError::LengthMismatch { expected: 0, got: 0 }),
    }
}

/// What registering `data` under `id` does to the masters: the map gains (or
/// replaces) that entry and stays finite.
pub open spec fn registered<T>(
    before: Map<<StateId as View>::V, Seq<T>>,
    after: Map<<StateId as View>::V, Seq<T>>,
    id: <StateId as View>::V,
    data: Seq<T>,
) -> bool {
    &&& after == before.insert(id, data)
    &&& after.dom().finite()
    &&& after.len() == before.len() + if before.contains_key(id) {
        0int
    } else {
        1int
    }
}

/// What removing `id` does to the masters, and what it returns.
pub open spec fn removed<T>(
    before: Map<<StateId as View>::V, Seq<T>>,
    after: Map<<StateId as View>::V, Seq<T>>,
    id: <StateId as View>::V,
    r: Option<Vec<T>>,
) -> bool {
    &&& after == before.remove(id)
    &&& after.dom().finite()
    &&& r is Some <==> before.contains_key(id)
    &&& r matches Some(data) ==> data@ == before[id]
}

/// What `compute_delta_for` gives: `MasterNotFound` exactly without a master
/// under `id`; otherwise the delta computation on that master with the
/// policy's tolerance.
pub open spec fn compute_for_outcome<T, F: Fn(T, T, T) -> bool>(
    r: Result<Delta<T>, RuntimeError>,
    masters: Map<<StateId as View>::V, Seq<T>>,
    policy: ReusePolicy<T>,
    id: <StateId as View>::V,
    variant: Seq<T>,
    exceeds: F,
) -> bool {
    &&& (r matches Err(RuntimeError::MasterNotFound)) <==> !masters.contains_key(id)
    &&& masters.contains_key(id) ==> compute_outcome(
        delta_part(r),
        id,
        masters[id],
        variant,
        policy.tolerance,
        exceeds,
    )
}

/// What `apply_delta_for` gives: `MasterNotFound` exactly without a master
/// under `id`; otherwise applying the delta to that master.
pub open spec fn apply_for_outcome<T>(
    r: Result<Vec<T>, RuntimeError>,
    masters: Map<<StateId as View>::V, Seq<T>>,
    id: <StateId as View>::V,
    delta: &Delta<T>,
) -> bool {
    &&& (r matches Err(RuntimeError::MasterNotFound)) <==> !masters.contains_key(id)
    &&& masters.contains_key(id) ==> apply_outcome(delta_part(r), masters[id], delta)
}

/// Law of `register_master`: reading `id` afterwards gives `data`; every
/// other id keeps its master or its absence; the number of masters grows by
/// one exactly when `id` was new.
pub proof fn lemma_register_law<T>(
    before: Map<<StateId as View>::V, Seq<T>>,
    after: Map<<StateId as View>::V, Seq<T>>,
    id: <StateId as View>::V,
    data: Seq<T>,
)
    requires
        registered(before, after, id, data),
    ensures
        after.contains_key(id),
        after[id] == data,
        forall|k: <StateId as View>::V| k != id ==> (#[trigger] after.contains_key(k) <==> before.contains_key(k)),
        forall|k: <StateId as View>::V| k != id && before.contains_key(k) ==> #[trigger] after[k] == before[k],
        before.contains_key(id) ==> after.len() == before.len(),
        !before.contains_key(id) ==> after.len() == before.len() + 1,
{
}

/// Law of `remove_master`: it returns the master registered under `id`, if
/// any; afterwards `id` has no master and every other id keeps its master or
/// its absence.
pub proof fn lemma_remove_law<T>(
    before: Map<<StateId as View>::V, Seq<T>>,
    after: Map<<StateId as View>::V, Seq<T>>,
    id: <StateId as View>::V,
    r: Option<Vec<T>>,
)
    requires
        removed(before, after, id, r),
    ensures
        !after.contains_key(id),
        before.contains_key(id) ==> (r matches Some(data) && data@ == before[id]),
        !before.contains_key(id) ==> r is None,
        forall|k: <StateId as View>::V| k != id ==> (#[trigger] after.contains_key(k) <==> before.contains_key(k)),
        forall|k: <StateId as View>::V| k != id && before.contains_key(k) ==> #[trigger] after[k] == before[k],
{
}

impl<T> DeltaRuntime<T> {
    /// No two entries hold the same id.
    #[verifier::type_invariant]
    spec fn wf(self) -> bool {
        well_kept(self.masters@)
    }

    /// The registered masters, by id.
    pub closed spec fn masters_view(self) -> Map<<StateId as View>::V, Seq<T>> {
        entries_view(self.masters@)
    }

    /// The policy the runtime was made with.
    pub closed spec fn policy_view(self) -> ReusePolicy<T> {
        self.policy
    }

    /// A runtime with no master.
    pub fn new(policy: ReusePolicy<T>) -> (r: Self)
        ensures
            r.masters_view() == Map::<<StateId as View>::V, Seq<T>>::empty(),
            r.masters_view().dom().finite(),
            r.policy_view() == policy,
    {
        let masters: Vec<MasterEntry<T>> = Vec::new();
        proof {
            lemma_no_entries(masters@);
        }
        DeltaRuntime { masters, policy }
    }

    /// Number of registered masters.
    pub fn master_count(&self) -> (r: usize)
        ensures
            self.masters_view().dom().finite(),
            r == self.masters_view().len(),
    {
        proof {
            use_type_invariant(self);
        }
        self.masters.len()
    }

    /// Replaces the policy; the masters stay as they are.
    pub fn set_policy(&mut self, policy: ReusePolicy<T>)
        ensures
            final(self).masters_view() == old(self).masters_view(),
            final(self).policy_view() == policy,
    {
        proof {
            use_type_invariant(&*self);
        }
        self.policy = policy;
    }

    /// Removes the master registered under `id`, returning it if there was one.
    pub fn remove_master(&mut self, id: &StateId) -> (r: Option<Vec<T>>)
        ensures
            final(self).masters_view() == old(self).masters_view().remove(id@),
            final(self).masters_view().dom().finite(),
            r is Some <==> old(self).masters_view().contains_key(id@),
            r matches Some(data) ==> data@ == old(self).masters_view()[id@],
            final(self).policy_view() == old(self).policy_view(),
            removed(old(self).masters_view(), final(self).masters_view(), id@, r),
    {
        proof {
            use_type_invariant(&*self);
        }
        match self.find(id) {
            None => {
                assert(self.masters_view().remove(id@) =~= self.masters_view());
                None
            },
            Some(i) => {
                let mut masters = Vec::new();
                proof {
                    lemma_no_entries(masters@);
                }
                std::mem::swap(&mut masters, &mut self.masters);
                let ghost old_masters = masters@;
                proof {
                    lemma_remove_entry(old_masters, i as int);
                }
                let entry = masters.remove(i);
                self.masters = masters;
                Some(entry.data)
            },
        }
    }

    /// The policy the runtime was made with.
    pub fn policy(&self) -> (r: &ReusePolicy<T>)
        ensures
            *r == self.policy_view(),
    {
        &self.policy
    }

    /// Position of the master registered under `id`.
    fn find(&self, id: &StateId) -> (r: Option<usize>)
        ensures
            r is None ==> !self.masters_view().contains_key(id@),
            r matches Some(i) ==> {
                &&& i < self.masters@.len()
                &&& self.masters@[i as int].id@ == id@
                &&& self.masters_view().contains_key(id@)
                &&& self.masters_view()[id@] == self.masters@[i as int].data@
            },
    {
        proof {
            use_type_invariant(self);
        }
        let n = self.masters.len();
        let mut i: usize = 0;
        while i < n
            invariant
                n == self.masters@.len(),
                i <= n,
                forall|j: int| 0 <= j < i ==> self.masters@[j].id@ != id@,
                well_kept(self.masters@),
            decreases n - i,
        {
            if self.masters[i].id.same_as(id) {
                proof {
                    lemma_entry_in_view(self.masters@, i as int);
                }
                return Some(i);
            }
            i = i + 1;
        }
        None
    }

    /// The master registered under `id`, if any.
    pub fn master(&self, id: &StateId) -> (r: Option<&Vec<T>>)
        ensures
            r is Some <==> self.masters_view().contains_key(id@),
            r matches Some(data) ==> data@ == self.masters_view()[id@],
    {
        match self.find(id) {
            Some(i) => Some(&self.masters[i].data),
            None => None,
        }
    }

    /// Registers `data` as the master of `id`, replacing any earlier one.
    pub fn register_master(&mut self, id: &StateId, data: Vec<T>)
        ensures
            final(self).masters_view() == old(self).masters_view().insert(id@, data@),
            final(self).masters_view().dom().finite(),
            final(self).masters_view().len() == old(self).masters_view().len() + if old(
                self,
            ).masters_view().contains_key(id@) {
                0int
            } else {
                1int
            },
            final(self).policy_view() == old(self).policy_view(),
            registered(old(self).masters_view(), final(self).masters_view(), id@, data@),
    {
        proof {
            use_type_invariant(&*self);
        }
        let found = self.find(id);
        let mut masters = Vec::new();
        proof {
            lemma_no_entries(masters@);
        }
        std::mem::swap(&mut masters, &mut self.masters);
        let ghost old_masters = masters@;
        let entry = MasterEntry { id: id.duplicate(), data };
        let ghost pos: int = match found {
            Some(i) => i as int,
            None => old_masters.len() as int,
        };
        match found {
            Some(i) => {
                masters.set(i, entry);
            },
            None => {
                masters.push(entry);
            },
        }
        proof {
            if pos == old_masters.len() {
                assert forall|j: int| 0 <= j < old_masters.len() implies old_masters[j].id@
                    != masters@[pos].id@ by {
                    if old_masters[j].id@ == id@ {
                        assert(entries_view(old_masters).contains_key(id@));
                    }
                }
            }
            lemma_write_entry(old_masters, masters@, pos);
        }
        self.masters = masters;
    }
}

impl<T: Copy> DeltaRuntime<T> {
    /// Computes the delta of `variant` against the master registered under
    /// `id`, with the policy's tolerance and the element test `exceeds`.
    pub fn compute_delta_for<F: Fn(T, T, T) -> bool>(
        &self,
        id: &StateId,
        variant: &[T],
        exceeds: F,
    ) -> (r: Result<Delta<T>, RuntimeError>)
        requires
            forall|m: T, v: T, t: T| exceeds.requires((m, v, t)),
        ensures
            r matches Err(RuntimeError::MasterNotFound) <==> !self.masters_view().contains_key(id@),
            self.masters_view().contains_key(id@) ==> compute_outcome(
                delta_part(r),
                id@,
                self.masters_view()[id@],
                variant@,
                self.policy_view().tolerance,
                exceeds,
            ),
            compute_for_outcome(r, self.masters_view(), self.policy_view(), id@, variant@, exceeds),
    {
        match self.find(id) {
            None => Err(RuntimeError::MasterNotFound),
            Some(i) => {
                let master = self.masters[i].data.as_slice();
                match compute_delta_f32(id.duplicate(), master, variant, self.policy.tolerance, exceeds) {
                    Ok(d) => Ok(d),
                    Err(e) => Err(RuntimeError::Delta(e)),
                }
            },
        }
    }

    /// Applies `delta` to the master registered under `id` and returns the
    /// reconstructed buffer.
    pub fn apply_delta_for(&self, id: &StateId, delta: &Delta<T>) -> (r: Result<Vec<T>, RuntimeError>)
        ensures
            r matches Err(RuntimeError::MasterNotFound) <==> !self.masters_view().contains_key(id@),
            self.masters_view().contains_key(id@) ==> apply_outcome(
                delta_part(r),
                self.masters_view()[id@],
                delta,
            ),
            apply_for_outcome(r, self.masters_view(), id@, delta),
    {
        match self.find(id) {
            None => Err(RuntimeError::MasterNotFound),
            Some(i) => {
                let master = self.masters[i].data.as_slice();
                match apply_delta_f32(master, delta) {
                    Ok(out) => Ok(out),
                    Err(e) => Err(RuntimeError::Delta(e)),
                }
            },
        }
    }
}

/// Round trip through the runtime: after `data` is registered under `id`
/// (on top of any masters `before`), a delta that `compute_delta_for` made
/// for `id` and `variant` is applied by `apply_delta_for` on `id` without
/// error and rebuilds `variant`, provided the element test reports an element
/// as unchanged only where master and variant are equal.
pub proof fn lemma_register_compute_apply<T, F: Fn(T, T, T) -> bool>(
    before: Map<<StateId as View>::V, Seq<T>>,
    id: <StateId as View>::V,
    data: Seq<T>,
    variant: Seq<T>,
    tolerance: T,
    exceeds: F,
    delta: Delta<T>,
)
    requires
        compute_outcome(Ok(delta), id, before.insert(id, data)[id], variant, tolerance, exceeds),
        forall|i: int, changed: bool|
            0 <= i < data.len() && #[trigger] exceeds.ensures((data[i], variant[i], tolerance), changed)
                && !changed ==> data[i] == variant[i],
    ensures
        before.insert(id, data).contains_key(id),
        delta.original_len == before.insert(id, data)[id].len(),
        all_in_bounds(delta.patches@, before.insert(id, data)[id].len() as int),
        patched(before.insert(id, data)[id], delta.patches@) == variant,
{
    assert(before.insert(id, data)[id] == data);
    lemma_compute_then_apply(data, variant, tolerance, exceeds, delta);
}

/// The runtime computes what a direct computation on the registered master
/// computes: with `data` registered under `id` and a deterministic element
/// test, `compute_delta_for` on `id` and `compute_delta_f32` on `data` with
/// the policy's tolerance agree, the runtime wrapping the same error.
pub proof fn lemma_runtime_matches_direct<T, F: Fn(T, T, T) -> bool>(
    before: Map<<StateId as View>::V, Seq<T>>,
    id: <StateId as View>::V,
    data: Seq<T>,
    variant: Seq<T>,
    tolerance: T,
    exceeds: F,
    via_runtime: Result<Delta<T>, RuntimeError>,
    direct: Result<Delta<T>, DeltaError>,
)
    requires
        deterministic_test(exceeds),
        via_runtime matches Err(RuntimeError::MasterNotFound) <==> !before.insert(id, data).contains_key(id),
        compute_outcome(
            delta_part(via_runtime),
            id,
            before.insert(id, data)[id],
            variant,
            tolerance,
            exceeds,
        ),
        compute_outcome(direct, id, data, variant, tolerance, exceeds),
    ensures
        via_runtime is Ok <==> direct is Ok,
        direct is Err ==> via_runtime == Err::<Delta<T>, RuntimeError>(RuntimeError::Delta(direct->Err_0)),
        direct is Ok ==> {
            &&& via_runtime->Ok_0.id@ == direct->Ok_0.id@
            &&& via_runtime->Ok_0.original_len == direct->Ok_0.original_len
            &&& via_runtime->Ok_0.patches@ == direct->Ok_0.patches@
        },
{
    assert(before.insert(id, data)[id] == data);
    lemma_compute_deterministic(delta_part(via_runtime), direct, id, data, variant, tolerance, exceeds);
}

/// Law of `apply_delta_for`: a delta for an id without a master is refused
/// with `MasterNotFound`; otherwise the runtime gives what a direct
/// `apply_delta_f32` on the registered master gives (the same buffer, or the
/// same error wrapped in `RuntimeError::Delta`).  In particular a delta made
/// for another length than the registered master is refused with
/// `LengthMismatch { expected: master.len(), got: delta.original_len }`, and a
/// successful result has the master's length, each position holding the value
/// of the last patch for it or the master's value.
pub proof fn lemma_apply_for_law<T>(
    masters: Map<<StateId as View>::V, Seq<T>>,
    id: <StateId as View>::V,
    delta: Delta<T>,
    via_runtime: Result<Vec<T>, RuntimeError>,
    direct: Result<Vec<T>, DeltaError>,
)
    requires
        apply_for_outcome(via_runtime, masters, id, &delta),
        masters.contains_key(id) ==> apply_outcome(direct, masters[id], &delta),
    ensures
        !masters.contains_key(id) ==> via_runtime matches Err(RuntimeError::MasterNotFound),
        masters.contains_key(id) ==> {
            &&& via_runtime is Ok <==> direct is Ok
            &&& via_runtime is Ok ==> via_runtime->Ok_0@ == direct->Ok_0@
            &&& direct matches Err(DeltaError::LengthMismatch { expected, got }) ==> via_runtime
                == Err::<Vec<T>, RuntimeError>(
                RuntimeError::Delta(DeltaError::LengthMismatch { expected, got }),
            )
            &&& direct matches Err(DeltaError::Internal(m1)) ==> (via_runtime matches Err(
                RuntimeError::Delta(DeltaError::Internal(m2)),
            ) && m1@ == m2@)
        },
        masters.contains_key(id) && masters[id].len() != delta.original_len ==> (via_runtime matches Err(
            RuntimeError::Delta(DeltaError::LengthMismatch { expected, got }),
        ) && expected == masters[id].len() && got == delta.original_len),
        via_runtime matches Ok(out) ==> {
            &&& masters[id].len() == delta.original_len
            &&& out@.len() == masters[id].len()
            &&& forall|i: int|
                0 <= i < out@.len() && (forall|k: int|
                    0 <= k < delta.patches@.len() ==> #[trigger] delta.patches@[k].index != i)
                    ==> #[trigger] out@[i] == masters[id][i]
            &&& forall|k: int|
                0 <= k < delta.patches@.len() && (forall|k2: int|
                    k < k2 < delta.patches@.len() ==> #[trigger] delta.patches@[k2].index
                        != delta.patches@[k].index) ==> #[trigger] out@[delta.patches@[k].index as int]
                    == delta.patches@[k].value
        },
{
    if masters.contains_key(id) {
        let master = masters[id];
        lemma_apply_law(delta_part(via_runtime), master, delta);
        lemma_apply_law(direct, master, delta);
        if direct is Err && direct->Err_0 is Internal {
            assert(delta_part(via_runtime) is Err);
            assert(!(delta_part(via_runtime)->Err_0 is LengthMismatch));
            let k1 = choose|k: int|
                {
                    &&& 0 <= k < delta.patches@.len()
                    &&& #[trigger] delta.patches@[k].index >= master.len()
                    &&& forall|j: int| 0 <= j < k ==> #[trigger] delta.patches@[j].index < master.len()
                    &&& direct->Err_0->Internal_0@ == "patch index "@ + decimal(
                        delta.patches@[k].index as nat,
                    ) + " out of bounds"@
                };
            let k2 = choose|k: int|
                {
                    &&& 0 <= k < delta.patches@.len()
                    &&& #[trigger] delta.patches@[k].index >= master.len()
                    &&& forall|j: int| 0 <= j < k ==> #[trigger] delta.patches@[j].index < master.len()
                    &&& delta_part(via_runtime)->Err_0->Internal_0@ == "patch index "@ + decimal(
                        delta.patches@[k].index as nat,
                    ) + " out of bounds"@
                };
            if k1 < k2 {
                assert(delta.patches@[k1].index < master.len());
            }
            if k2 < k1 {
                assert(delta.patches@[k2].index < master.len());
            }
        }
    }
}

/// Law of `compute_delta_for`: an id without a master is refused with
/// `MasterNotFound`; otherwise buffers of another length than the registered
/// master are refused with `LengthMismatch { expected: master.len(), got:
/// variant.len() }`, and a delta has the id and the master's length, and its
/// patches, in strictly increasing index order, point inside the buffer,
/// carry the variant's value and are exactly the elements on which the
/// element test, called with the policy's tolerance, answered `true` (every
/// element without a patch got `false`).
pub proof fn lemma_compute_for_law<T, F: Fn(T, T, T) -> bool>(
    masters: Map<<StateId as View>::V, Seq<T>>,
    policy: ReusePolicy<T>,
    id: <StateId as View>::V,
    variant: Seq<T>,
    exceeds: F,
    via_runtime: Result<Delta<T>, RuntimeError>,
)
    requires
        compute_for_outcome(via_runtime, masters, policy, id, variant, exceeds),
    ensures
        !masters.contains_key(id) ==> via_runtime matches Err(RuntimeError::MasterNotFound),
        masters.contains_key(id) && masters[id].len() != variant.len() ==> via_runtime == Err::<
            Delta<T>,
            RuntimeError,
        >(
            RuntimeError::Delta(
                DeltaError::LengthMismatch {
                    expected: masters[id].len() as usize,
                    got: variant.len() as usize,
                },
            ),
        ),
        via_runtime matches Ok(d) ==> {
            &&& masters[id].len() == variant.len()
            &&& d.id@ == id
            &&& d.original_len == masters[id].len()
            &&& forall|k: int|
                0 <= k < d.patches@.len() ==> {
                    &&& #[trigger] d.patches@[k].index < variant.len()
                    &&& d.patches@[k].value == variant[d.patches@[k].index as int]
                    &&& exceeds.ensures(
                        (
                            masters[id][d.patches@[k].index as int],
                            variant[d.patches@[k].index as int],
                            policy.tolerance,
                        ),
                        true,
                    )
                }
            &&& forall|k1: int, k2: int|
                0 <= k1 < k2 < d.patches@.len() ==> #[trigger] d.patches@[k1].index
                    < #[trigger] d.patches@[k2].index
            &&& forall|i: int|
                0 <= i < variant.len() && (forall|k: int|
                    0 <= k < d.patches@.len() ==> #[trigger] d.patches@[k].index != i)
                    ==> #[trigger] exceeds.ensures((masters[id][i], variant[i], policy.tolerance), false)
        },
{
    if masters.contains_key(id) {
        lemma_compute_law(delta_part(via_runtime), id, masters[id], variant, policy.tolerance, exceeds);
    }
}

} // verus!
