use vstd::prelude::*;

use crate::state_types::StateId;

verus! {

/// A single sparse patch: an index and the new value there.
#[derive(Clone, Copy, Debug)]
pub struct Patch<T> {
    pub index: usize,
    pub value: T,
}

/// Delta representation for an entire tensor.
#[derive(Clone, Debug)]
pub struct Delta<T> {
    pub id: StateId,
    pub original_len: usize,
    pub patches: Vec<Patch<T>>,
}

/// Errors from delta operations.
#[derive(Debug)]
pub enum DeltaError {
    /// The two buffers, or a buffer and a delta, disagree on the length.
    LengthMismatch { expected: usize, got: usize },
    /// A delta that cannot be applied; the text says why.
    Internal(String),
}

/// `mask[i]` is the verdict that `exceeds` gave on element `i`, called with
/// the master value, the variant value and the tolerance.
pub open spec fn verdicts_of<T, F: Fn(T, T, T) -> bool>(
    exceeds: F,
    master: Seq<T>,
    variant: Seq<T>,
    tolerance: T,
    mask: Seq<bool>,
) -> bool {
    &&& mask.len() == master.len()
    &&& mask.len() == variant.len()
    &&& forall|i: int|
        0 <= i < mask.len() ==> exceeds.ensures((master[i], variant[i], tolerance), #[trigger] mask[i])
}

/// `patches` lists, in increasing index order, exactly the positions below
/// `mask.len()` whose flag is set, each with the value that `variant` holds there.
pub open spec fn selects<T>(patches: Seq<Patch<T>>, variant: Seq<T>, mask: Seq<bool>) -> bool {
    &&& forall|k: int|
        0 <= k < patches.len() ==> {
            &&& #[trigger] patches[k].index < mask.len()
            &&& mask[patches[k].index as int]
            &&& patches[k].value == variant[patches[k].index as int]
        }
    &&& forall|k1: int, k2: int|
        0 <= k1 < k2 < patches.len() ==> #[trigger] patches[k1].index < #[trigger] patches[k2].index
    &&& forall|i: int|
        0 <= i < mask.len() && #[trigger] mask[i] ==> exists|k: int|
            0 <= k < patches.len() && #[trigger] patches[k].index == i
}

/// Every patch points inside a buffer of `len` elements.
pub open spec fn all_in_bounds<T>(patches: Seq<Patch<T>>, len: int) -> bool {
    forall|k: int| 0 <= k < patches.len() ==> #[trigger] patches[k].index < len
}

/// `k` is the first patch that points outside a buffer of `len` elements.
pub open spec fn first_out_of_bounds<T>(patches: Seq<Patch<T>>, len: int, k: int) -> bool {
    &&& 0 <= k < patches.len()
    &&& patches[k].index >= len
    &&& all_in_bounds(patches.take(k), len)
}

/// `base` with the patches written in order: a later patch for an index
/// overrides an earlier one.
pub open spec fn patched<T>(base: Seq<T>, patches: Seq<Patch<T>>) -> Seq<T>
    decreases patches.len(),
{
    if patches.len() == 0 {
        base
    } else {
        let last = patches.last();
        patched(base, patches.drop_last()).update(last.index as int, last.value)
    }
}

/// The decimal digit `d` as a character.
pub open spec fn digit_char(d: nat) -> char {
    (d + 48) as char
}

/// The decimal notation of `n`, without leading zeros.
pub open spec fn decimal(n: nat) -> Seq<char>
    decreases n,
{
    if n < 10 {
        seq![digit_char(n)]
    } else {
        decimal(n / 10).push(digit_char(n % 10))
    }
}

/// The text of the error for a patch at `index` outside the buffer.
pub open spec fn out_of_bounds_text(index: usize) -> Seq<char> {
    "patch index "@ + decimal(index as nat) + " out of bounds"@
}

/// What computing the delta of `variant` against `master` gives: a length
/// mismatch exactly when the lengths differ, and otherwise a delta for `id`
/// of the master's length whose patches are the elements the test flagged.
pub open spec fn compute_outcome<T, F: Fn(T, T, T) -> bool>(
    r: Result<Delta<T>, DeltaError>,
    id: <StateId as View>::V,
    master: Seq<T>,
    variant: Seq<T>,
    tolerance: T,
    exceeds: F,
) -> bool {
    &&& r is Err <==> master.len() != variant.len()
    &&& r matches Err(e) ==> e == (DeltaError::LengthMismatch {
        expected: master.len() as usize,
        got: variant.len() as usize,
    })
    &&& r matches Ok(d) ==> {
        &&& d.id@ == id
        &&& d.original_len == master.len()
        &&& exists|mask: Seq<bool>|
            verdicts_of(exceeds, master, variant, tolerance, mask) && selects(
                d.patches@,
                variant,
                mask,
            )
    }
}

/// What applying `delta` to `master` gives: a length mismatch exactly when
/// the delta was made for another length; otherwise an internal error naming
/// the first patch that points outside the buffer, if there is one; and
/// otherwise the master with the patches written in order.
pub open spec fn apply_outcome<T>(r: Result<Vec<T>, DeltaError>, master: Seq<T>, delta: &Delta<T>) -> bool {
    &&& r is Ok <==> master.len() == delta.original_len && all_in_bounds(
        delta.patches@,
        master.len() as int,
    )
    &&& r matches Ok(out) ==> out@ == patched(master, delta.patches@)
    &&& master.len() != delta.original_len ==> (r matches Err(DeltaError::LengthMismatch { expected, got })
        && expected == master.len() && got == delta.original_len)
    &&& r matches Err(DeltaError::LengthMismatch { .. }) ==> master.len() != delta.original_len
    &&& r matches Err(DeltaError::Internal(msg)) ==> {
        &&& master.len() == delta.original_len
        &&& exists|k: int|
            first_out_of_bounds(delta.patches@, master.len() as int, k) && msg@ == out_of_bounds_text(
                delta.patches@[k].index,
            )
    }
}

/// Writes `n` in decimal notation.
///
/// Trusted: `usize::to_string` (through `Display`) writes a `usize` in decimal
/// notation without leading zeros, which is what `decimal` states.
#[verifier::external_body]
fn decimal_text(n: usize) -> (s: String)
    ensures
        s@ == decimal(n as nat),
{
    n.to_string()
}

/// The message for a patch that points outside the buffer.
fn out_of_bounds_message(index: usize) -> (s: String)
    ensures
        s@ == out_of_bounds_text(index),
{
    let digits = decimal_text(index);
    let mut s = String::from_str("patch index ");
    s.append(digits.as_str());
    s.append(" out of bounds");
    s
}

/// Builds the delta of `variant` against `master` from per-element verdicts:
/// one patch, in increasing index order, for every element whose verdict is
/// set, with the variant's value.
pub fn delta_from_verdicts<T: Copy>(
    id: StateId,
    master: &[T],
    variant: &[T],
    verdicts: &[bool],
) -> (r: Result<Delta<T>, DeltaError>)
    requires
        master@.len() == variant@.len() ==> verdicts@.len() == variant@.len(),
    ensures
        r is Err <==> master@.len() != variant@.len(),
        r matches Err(e) ==> e == (DeltaError::LengthMismatch {
            expected: master@.len() as usize,
            got: variant@.len() as usize,
        }),
        r matches Ok(d) ==> {
            &&& d.id == id
            &&& d.original_len == master@.len()
            &&& selects(d.patches@, variant@, verdicts@)
        },
{
    if master.len() != variant.len() {
        return Err(DeltaError::LengthMismatch { expected: master.len(), got: variant.len() });
    }
    let n = master.len();
    let mut patches: Vec<Patch<T>> = Vec::new();
    let mut i: usize = 0;
    while i < n
        invariant
            n == variant@.len(),
            n == verdicts@.len(),
            i <= n,
            selects(patches@, variant@, verdicts@.take(i as int)),
        decreases n - i,
    {
        let ghost old_patches = patches@;
        let ghost old_mask = verdicts@.take(i as int);
        if verdicts[i] {
            patches.push(Patch { index: i, value: variant[i] });
        }
        proof {
            let mask = verdicts@.take(i + 1);
            assert(mask == old_mask.push(verdicts@[i as int]));
            assert forall|j: int| 0 <= j < mask.len() && #[trigger] mask[j] implies exists|k: int|
                0 <= k < patches@.len() && #[trigger] patches@[k].index == j by {
                if j < i {
                    assert(old_mask[j]);
                    let k = choose|k: int| 0 <= k < old_patches.len() && #[trigger] old_patches[k].index == j;
                    assert(patches@[k] == old_patches[k]);
                } else {
                    assert(patches@[patches@.len() - 1].index == j);
                }
            }
            assert forall|k: int| 0 <= k < patches@.len() implies {
                &&& #[trigger] patches@[k].index < mask.len()
                &&& mask[patches@[k].index as int]
                &&& patches@[k].value == variant@[patches@[k].index as int]
            } by {
                if k < old_patches.len() {
                    assert(patches@[k] == old_patches[k]);
                    assert(old_mask[old_patches[k].index as int]);
                }
            }
        }
        i = i + 1;
    }
    assert(verdicts@.take(n as int) =~= verdicts@);
    Ok(Delta { id, original_len: n, patches })
}

/// Computes the sparse delta of `variant` against `master`.
///
/// `exceeds(m, v, tolerance)` is the element test: it reports whether the
/// element changed (for `f32` tensors, whether `|m - v| > tolerance`).  The
/// delta holds, in increasing index order, one patch per element the test
/// reports as changed, with the variant's value.
pub fn compute_delta_f32<T: Copy, F: Fn(T, T, T) -> bool>(
    id: StateId,
    master: &[T],
    variant: &[T],
    tolerance: T,
    exceeds: F,
) -> (r: Result<Delta<T>, DeltaError>)
    requires
        forall|m: T, v: T, t: T| exceeds.requires((m, v, t)),
    ensures
        compute_outcome(r, id@, master@, variant@, tolerance, exceeds),
        r matches Ok(d) ==> d.id == id,
{
    if master.len() != variant.len() {
        return Err(DeltaError::LengthMismatch { expected: master.len(), got: variant.len() });
    }
    let n = master.len();
    let mut verdicts: Vec<bool> = Vec::new();
    let mut i: usize = 0;
    while i < n
        invariant
            n == master@.len(),
            n == variant@.len(),
            i <= n,
            verdicts@.len() == i,
            forall|m: T, v: T, t: T| exceeds.requires((m, v, t)),
            forall|j: int|
                0 <= j < i ==> exceeds.ensures(
                    (master@[j], variant@[j], tolerance),
                    #[trigger] verdicts@[j],
                ),
        decreases n - i,
    {
        let changed = exceeds(master[i], variant[i], tolerance);
        verdicts.push(changed);
        i = i + 1;
    }
    let r = delta_from_verdicts(id, master, variant, verdicts.as_slice());
    proof {
        assert(verdicts_of(exceeds, master@, variant@, tolerance, verdicts@));
        if r is Ok {
            assert(selects(r->Ok_0.patches@, variant@, verdicts@));
        }
    }
    r
}

/// Applies `delta` to `master`, producing a new buffer.
///
/// The delta must have been made for a buffer of `master`'s length and every
/// patch must point inside it; patches are written in order.
pub fn apply_delta_f32<T: Copy>(master: &[T], delta: &Delta<T>) -> (r: Result<Vec<T>, DeltaError>)
    ensures
        apply_outcome(r, master@, delta),
{
    if master.len() != delta.original_len {
        return Err(DeltaError::LengthMismatch { expected: master.len(), got: delta.original_len });
    }
    let n = master.len();
    let mut out = vstd::slice::slice_to_vec(master);
    let count = delta.patches.len();
    let mut k: usize = 0;
    while k < count
        invariant
            n == master@.len(),
            n == delta.original_len,
            count == delta.patches@.len(),
            k <= count,
            all_in_bounds(delta.patches@.take(k as int), n as int),
            out@ == patched(master@, delta.patches@.take(k as int)),
            out@.len() == n,
        decreases count - k,
    {
        let index = delta.patches[k].index;
        let value = delta.patches[k].value;
        if index >= n {
            let msg = out_of_bounds_message(index);
            proof {
                assert(first_out_of_bounds(delta.patches@, n as int, k as int));
            }
            return Err(DeltaError::Internal(msg));
        }
        proof {
            let prefix = delta.patches@.take(k as int + 1);
            assert(prefix.drop_last() =~= delta.patches@.take(k as int));
            assert(prefix.last() == delta.patches@[k as int]);
        }
        out.set(index, value);
        proof {
            let prefix = delta.patches@.take(k as int + 1);
            assert forall|j: int| 0 <= j < prefix.len() implies #[trigger] prefix[j].index < n by {
                if j < k {
                    assert(prefix[j] == delta.patches@.take(k as int)[j]);
                }
            }
        }
        k = k + 1;
    }
    assert(delta.patches@.take(count as int) =~= delta.patches@);
    Ok(out)
}

/// The buffer that has `variant`'s value where `mask` is set and `master`'s elsewhere.
pub open spec fn merged<T>(master: Seq<T>, variant: Seq<T>, mask: Seq<bool>) -> Seq<T> {
    Seq::new(master.len(), |i: int| if mask[i] { variant[i] } else { master[i] })
}

/// Writing patches that each carry `variant`'s value at their index leaves
/// `variant`'s value wherever some patch points and `master`'s elsewhere.
proof fn lemma_patched_values<T>(master: Seq<T>, variant: Seq<T>, patches: Seq<Patch<T>>)
    requires
        master.len() == variant.len(),
        forall|k: int|
            0 <= k < patches.len() ==> #[trigger] patches[k].index < master.len()
                && patches[k].value == variant[patches[k].index as int],
    ensures
        patched(master, patches).len() == master.len(),
        forall|i: int|
            0 <= i < master.len() ==> #[trigger] patched(master, patches)[i] == if exists|k: int|
                0 <= k < patches.len() && patches[k].index == i {
                variant[i]
            } else {
                master[i]
            },
    decreases patches.len(),
{
    if patches.len() > 0 {
        let init = patches.drop_last();
        lemma_patched_values(master, variant, init);
        let last = patches.last();
        assert(patches[patches.len() - 1] == last);
        assert forall|i: int| 0 <= i < master.len() implies #[trigger] patched(master, patches)[i]
            == if exists|k: int| 0 <= k < patches.len() && patches[k].index == i {
            variant[i]
        } else {
            master[i]
        } by {
            if i == last.index {
                assert(0 <= patches.len() - 1 < patches.len() && patches[patches.len() - 1].index
                    == i);
            } else {
                if exists|k: int| 0 <= k < patches.len() && patches[k].index == i {
                    let k = choose|k: int| 0 <= k < patches.len() && patches[k].index == i;
                    assert(init[k] == patches[k]);
                }
                if exists|k: int| 0 <= k < init.len() && init[k].index == i {
                    let k = choose|k: int| 0 <= k < init.len() && init[k].index == i;
                    assert(init[k] == patches[k]);
                }
            }
        }
    }
}

/// Reconstruction: a delta that selects, from `variant`, the elements flagged
/// in `mask` applies to a master of the same length without error, and
/// applying it yields `variant`'s value at every flagged element and
/// `master`'s value at every other one.
pub proof fn lemma_delta_reconstructs<T>(
    master: Seq<T>,
    variant: Seq<T>,
    mask: Seq<bool>,
    delta: Delta<T>,
)
    requires
        master.len() == variant.len(),
        mask.len() == variant.len(),
        delta.original_len == master.len(),
        selects(delta.patches@, variant, mask),
    ensures
        all_in_bounds(delta.patches@, master.len() as int),
        patched(master, delta.patches@) == merged(master, variant, mask),
{
    let ps = delta.patches@;
    lemma_patched_values(master, variant, ps);
    assert forall|i: int| 0 <= i < master.len() implies #[trigger] patched(master, ps)[i] == merged(
        master,
        variant,
        mask,
    )[i] by {
        if mask[i] {
            let k = choose|k: int| 0 <= k < ps.len() && #[trigger] ps[k].index == i;
            assert(ps[k].index == i);
        } else {
            if exists|k: int| 0 <= k < ps.len() && ps[k].index == i {
                let k = choose|k: int| 0 <= k < ps.len() && ps[k].index == i;
                assert(ps[k].index < mask.len());
            }
        }
    }
    assert(patched(master, ps) =~= merged(master, variant, mask));
}

/// Exact round trip: when every element that the element test left out is
/// equal in master and variant, applying the computed delta to the master
/// gives back the variant.
pub proof fn lemma_delta_round_trip<T>(
    master: Seq<T>,
    variant: Seq<T>,
    mask: Seq<bool>,
    delta: Delta<T>,
)
    requires
        master.len() == variant.len(),
        mask.len() == variant.len(),
        delta.original_len == master.len(),
        selects(delta.patches@, variant, mask),
        forall|i: int| 0 <= i < mask.len() && !mask[i] ==> master[i] == variant[i],
    ensures
        all_in_bounds(delta.patches@, master.len() as int),
        patched(master, delta.patches@) == variant,
{
    lemma_delta_reconstructs(master, variant, mask, delta);
    assert(merged(master, variant, mask) =~= variant);
}

/// Round trip of the two operations: if computing the delta of `variant`
/// against `master` succeeded, and the element test reports an element as
/// unchanged only where master and variant are equal, then applying that
/// delta to `master` succeeds and gives back `variant` exactly.
pub proof fn lemma_compute_then_apply<T, F: Fn(T, T, T) -> bool>(
    master: Seq<T>,
    variant: Seq<T>,
    tolerance: T,
    exceeds: F,
    delta: Delta<T>,
)
    requires
        compute_outcome(Ok(delta), delta.id@, master, variant, tolerance, exceeds),
        forall|i: int, changed: bool|
            0 <= i < master.len() && #[trigger] exceeds.ensures(
                (master[i], variant[i], tolerance),
                changed,
            ) && !changed ==> master[i] == variant[i],
    ensures
        delta.original_len == master.len(),
        all_in_bounds(delta.patches@, master.len() as int),
        patched(master, delta.patches@) == variant,
{
    let mask = choose|mask: Seq<bool>|
        verdicts_of(exceeds, master, variant, tolerance, mask) && selects(delta.patches@, variant, mask);
    assert forall|i: int| 0 <= i < mask.len() && !mask[i] implies master[i] == variant[i] by {
        assert(exceeds.ensures((master[i], variant[i], tolerance), mask[i]));
    }
    lemma_delta_round_trip(master, variant, mask, delta);
}

/// Strictly increasing indices start at least at their position.
proof fn lemma_increasing_indices<T>(patches: Seq<Patch<T>>, k: int)
    requires
        0 <= k < patches.len(),
        forall|k1: int, k2: int|
            0 <= k1 < k2 < patches.len() ==> #[trigger] patches[k1].index < #[trigger] patches[k2].index,
    ensures
        patches[k].index >= k,
    decreases k,
{
    if k > 0 {
        lemma_increasing_indices(patches, k - 1);
        assert(patches[k - 1].index < patches[k].index);
    }
}

/// A delta holds at most one patch per element: its patch count never
/// exceeds the length of the buffers it was computed from.
pub proof fn lemma_patch_count_bounded<T>(patches: Seq<Patch<T>>, variant: Seq<T>, mask: Seq<bool>)
    requires
        selects(patches, variant, mask),
    ensures
        patches.len() <= mask.len(),
{
    if patches.len() > 0 {
        lemma_increasing_indices(patches, patches.len() - 1);
        assert(patches[patches.len() - 1].index < mask.len());
    }
}

/// Number of set flags among the first `n` of `mask`.
pub open spec fn count_set(mask: Seq<bool>, n: int) -> nat
    decreases n,
{
    if n <= 0 {
        0
    } else {
        count_set(mask, n - 1) + if mask[n - 1] {
            1nat
        } else {
            0nat
        }
    }
}

/// The test gives one verdict per input: two verdicts on the same arguments agree.
pub open spec fn deterministic_test<T, F: Fn(T, T, T) -> bool>(exceeds: F) -> bool {
    forall|m: T, v: T, t: T, x: bool, y: bool|
        #[trigger] exceeds.ensures((m, v, t), x) && #[trigger] exceeds.ensures((m, v, t), y) ==> x
            == y
}

/// `a` is `b` with some elements left out, the rest kept in order.
pub open spec fn is_subsequence<A>(a: Seq<A>, b: Seq<A>) -> bool {
    exists|pick: spec_fn(int) -> int| #[trigger] picks_in_order(a, b, pick)
}

/// `pick` places each element of `a` at an equal element of `b`, in
/// increasing positions.
pub open spec fn picks_in_order<A>(a: Seq<A>, b: Seq<A>, pick: spec_fn(int) -> int) -> bool {
    &&& forall|k: int| 0 <= k < a.len() ==> 0 <= #[trigger] pick(k) < b.len() && a[k] == b[pick(k)]
    &&& forall|k1: int, k2: int| 0 <= k1 < k2 < a.len() ==> #[trigger] pick(k1) < #[trigger] pick(k2)
}

/// For a selection, the patches below position `n` are exactly the first
/// `count_set(mask, n)` ones.
proof fn lemma_rank<T>(patches: Seq<Patch<T>>, variant: Seq<T>, mask: Seq<bool>, n: int) -> (j: int)
    requires
        selects(patches, variant, mask),
        0 <= n <= mask.len(),
    ensures
        j == count_set(mask, n),
        0 <= j <= patches.len(),
        forall|k: int| 0 <= k < j ==> #[trigger] patches[k].index < n,
        forall|k: int| j <= k < patches.len() ==> #[trigger] patches[k].index >= n,
    decreases n,
{
    if n == 0 {
        0
    } else {
        let j0 = lemma_rank(patches, variant, mask, n - 1);
        if mask[n - 1] {
            let k = choose|k: int| 0 <= k < patches.len() && #[trigger] patches[k].index == n - 1;
            if k > j0 {
                assert(patches[j0].index < patches[k].index);
            }
            assert(k == j0);
            assert forall|k2: int| j0 + 1 <= k2 < patches.len() implies #[trigger] patches[k2].index
                >= n by {
                assert(patches[j0].index < patches[k2].index);
            }
            j0 + 1
        } else {
            assert forall|k2: int| j0 <= k2 < patches.len() implies #[trigger] patches[k2].index
                >= n by {
                if patches[k2].index == n - 1 {
                    assert(mask[patches[k2].index as int]);
                }
            }
            j0
        }
    }
}

/// The patch at position `k` of a selection sits after exactly `k` set flags.
proof fn lemma_position_rank<T>(patches: Seq<Patch<T>>, variant: Seq<T>, mask: Seq<bool>, k: int)
    requires
        selects(patches, variant, mask),
        0 <= k < patches.len(),
    ensures
        count_set(mask, patches[k].index as int) == k,
        count_set(mask, patches[k].index as int + 1) == k + 1,
{
    let n = patches[k].index as int;
    let j = lemma_rank(patches, variant, mask, n);
    if j < k {
        assert(patches[j].index < patches[k].index);
    }
    if j > k {
        assert(patches[k].index < n);
    }
    assert(mask[n]);
}

/// A selection holds one patch per set flag: its length is the number of
/// flagged elements.
pub proof fn lemma_patch_count_exact<T>(patches: Seq<Patch<T>>, variant: Seq<T>, mask: Seq<bool>)
    requires
        selects(patches, variant, mask),
    ensures
        patches.len() == count_set(mask, mask.len() as int),
{
    let j = lemma_rank(patches, variant, mask, mask.len() as int);
    if j < patches.len() {
        assert(patches[j].index < mask.len());
    }
}

/// Two selections by the same flags pick the same indices, in the same order.
pub proof fn lemma_selects_same_indices<T>(
    p1: Seq<Patch<T>>,
    v1: Seq<T>,
    p2: Seq<Patch<T>>,
    v2: Seq<T>,
    mask: Seq<bool>,
)
    requires
        selects(p1, v1, mask),
        selects(p2, v2, mask),
    ensures
        p1.len() == p2.len(),
        forall|k: int| 0 <= k < p1.len() ==> #[trigger] p1[k].index == p2[k].index,
{
    lemma_patch_count_exact(p1, v1, mask);
    lemma_patch_count_exact(p2, v2, mask);
    assert forall|k: int| 0 <= k < p1.len() implies #[trigger] p1[k].index == p2[k].index by {
        lemma_position_rank(p1, v1, mask, k);
        lemma_position_rank(p2, v2, mask, k);
        if p1[k].index < p2[k].index {
            let j = lemma_rank(p2, v2, mask, p1[k].index as int + 1);
            assert(p2[k].index < p1[k].index + 1);
        }
        if p2[k].index < p1[k].index {
            let j = lemma_rank(p1, v1, mask, p2[k].index as int + 1);
            assert(p1[k].index < p2[k].index + 1);
        }
    }
}

/// A selection is determined by its flags and the variant.
pub proof fn lemma_selects_unique<T>(p1: Seq<Patch<T>>, p2: Seq<Patch<T>>, variant: Seq<T>, mask: Seq<bool>)
    requires
        selects(p1, variant, mask),
        selects(p2, variant, mask),
    ensures
        p1 == p2,
{
    lemma_selects_same_indices(p1, variant, p2, variant, mask);
    assert forall|k: int| 0 <= k < p1.len() implies #[trigger] p1[k] == p2[k] by {
        assert(p1[k].index == p2[k].index);
    }
    assert(p1 =~= p2);
}

/// Verdicts of a deterministic test on the same inputs are the same flags.
proof fn lemma_verdicts_unique<T, F: Fn(T, T, T) -> bool>(
    exceeds: F,
    master: Seq<T>,
    variant: Seq<T>,
    tolerance: T,
    m1: Seq<bool>,
    m2: Seq<bool>,
)
    requires
        deterministic_test(exceeds),
        verdicts_of(exceeds, master, variant, tolerance, m1),
        verdicts_of(exceeds, master, variant, tolerance, m2),
    ensures
        m1 == m2,
{
    assert forall|i: int| 0 <= i < m1.len() implies m1[i] == m2[i] by {
        assert(exceeds.ensures((master[i], variant[i], tolerance), m1[i]));
        assert(exceeds.ensures((master[i], variant[i], tolerance), m2[i]));
    }
    assert(m1 =~= m2);
}

/// Determinism: with a deterministic element test, two computations on the
/// same id, buffers and tolerance give the same result (the runtime's
/// `compute_delta_for` and a direct `compute_delta_f32` on the registered
/// master state exactly these outcomes).
pub proof fn lemma_compute_deterministic<T, F: Fn(T, T, T) -> bool>(
    r1: Result<Delta<T>, DeltaError>,
    r2: Result<Delta<T>, DeltaError>,
    id: <StateId as View>::V,
    master: Seq<T>,
    variant: Seq<T>,
    tolerance: T,
    exceeds: F,
)
    requires
        deterministic_test(exceeds),
        compute_outcome(r1, id, master, variant, tolerance, exceeds),
        compute_outcome(r2, id, master, variant, tolerance, exceeds),
    ensures
        r1 is Ok <==> r2 is Ok,
        r1 is Err ==> r1 == r2,
        r1 is Ok ==> {
            &&& r1->Ok_0.id@ == r2->Ok_0.id@
            &&& r1->Ok_0.original_len == r2->Ok_0.original_len
            &&& r1->Ok_0.patches@ == r2->Ok_0.patches@
        },
{
    if r1 is Ok {
        let d1 = r1->Ok_0;
        let d2 = r2->Ok_0;
        let m1 = choose|mask: Seq<bool>|
            verdicts_of(exceeds, master, variant, tolerance, mask) && selects(d1.patches@, variant, mask);
        let m2 = choose|mask: Seq<bool>|
            verdicts_of(exceeds, master, variant, tolerance, mask) && selects(d2.patches@, variant, mask);
        lemma_verdicts_unique(exceeds, master, variant, tolerance, m1, m2);
        lemma_selects_unique(d1.patches@, d2.patches@, variant, m1);
    }
}

/// Raising the tolerance only removes patches: when the test never flags an
/// element at `t2` that it leaves unflagged at `t1`, the delta at `t2` is a
/// subsequence of the delta at `t1`.
pub proof fn lemma_tolerance_monotone<T, F: Fn(T, T, T) -> bool>(
    master: Seq<T>,
    variant: Seq<T>,
    t1: T,
    t2: T,
    exceeds: F,
    d1: Delta<T>,
    d2: Delta<T>,
)
    requires
        compute_outcome(Ok(d1), d1.id@, master, variant, t1, exceeds),
        compute_outcome(Ok(d2), d2.id@, master, variant, t2, exceeds),
        forall|m: T, v: T, b1: bool, b2: bool|
            #[trigger] exceeds.ensures((m, v, t1), b1) && #[trigger] exceeds.ensures((m, v, t2), b2)
                && b2 ==> b1,
    ensures
        is_subsequence(d2.patches@, d1.patches@),
{
    let p1 = d1.patches@;
    let p2 = d2.patches@;
    let m1 = choose|mask: Seq<bool>|
        verdicts_of(exceeds, master, variant, t1, mask) && selects(p1, variant, mask);
    let m2 = choose|mask: Seq<bool>|
        verdicts_of(exceeds, master, variant, t2, mask) && selects(p2, variant, mask);
    assert forall|i: int| 0 <= i < m2.len() && m2[i] implies m1[i] by {
        assert(exceeds.ensures((master[i], variant[i], t1), m1[i]));
        assert(exceeds.ensures((master[i], variant[i], t2), m2[i]));
    }
    let pick = |k: int| choose|k1: int| 0 <= k1 < p1.len() && #[trigger] p1[k1].index == p2[k].index;
    assert forall|k: int| 0 <= k < p2.len() implies 0 <= #[trigger] pick(k) < p1.len() && p2[k]
        == p1[pick(k)] by {
        let i = p2[k].index as int;
        assert(m2[i]);
        assert(m1[i]);
        let k1 = pick(k);
        assert(0 <= k1 < p1.len() && p1[k1].index == i);
    }
    assert forall|k1: int, k2: int| 0 <= k1 < k2 < p2.len() implies #[trigger] pick(k1) < #[trigger] pick(
        k2,
    ) by {
        assert(p2[k1].index < p2[k2].index);
        assert(p1[pick(k1)].index == p2[k1].index);
        assert(p1[pick(k2)].index == p2[k2].index);
        if pick(k1) >= pick(k2) {
            if pick(k1) > pick(k2) {
                assert(p1[pick(k2)].index < p1[pick(k1)].index);
            }
        }
    }
    assert(picks_in_order(p2, p1, pick));
}

/// Swapping master and variant keeps the outcome and the patched indices:
/// with a symmetric, deterministic test, both computations succeed or fail
/// together, and on success patch `k` has the same index in both, carrying
/// the second buffer's value in each.
pub proof fn lemma_swap_same_indices<T, F: Fn(T, T, T) -> bool>(
    r1: Result<Delta<T>, DeltaError>,
    r2: Result<Delta<T>, DeltaError>,
    id: <StateId as View>::V,
    a: Seq<T>,
    b: Seq<T>,
    tolerance: T,
    exceeds: F,
)
    requires
        compute_outcome(r1, id, a, b, tolerance, exceeds),
        compute_outcome(r2, id, b, a, tolerance, exceeds),
        forall|x: T, y: T, t: T, v1: bool, v2: bool|
            #[trigger] exceeds.ensures((x, y, t), v1) && #[trigger] exceeds.ensures((y, x, t), v2) ==> v1
                == v2,
    ensures
        r1 is Ok <==> r2 is Ok,
        r1 is Ok ==> {
            let p1 = r1->Ok_0.patches@;
            let p2 = r2->Ok_0.patches@;
            &&& p1.len() == p2.len()
            &&& forall|k: int|
                0 <= k < p1.len() ==> {
                    &&& #[trigger] p1[k].index == p2[k].index
                    &&& p1[k].value == b[p1[k].index as int]
                    &&& p2[k].value == a[p1[k].index as int]
                }
        },
{
    if r1 is Ok {
        let p1 = r1->Ok_0.patches@;
        let p2 = r2->Ok_0.patches@;
        let m1 = choose|mask: Seq<bool>|
            verdicts_of(exceeds, a, b, tolerance, mask) && selects(p1, b, mask);
        let m2 = choose|mask: Seq<bool>|
            verdicts_of(exceeds, b, a, tolerance, mask) && selects(p2, a, mask);
        assert forall|i: int| 0 <= i < m1.len() implies m1[i] == m2[i] by {
            assert(exceeds.ensures((a[i], b[i], tolerance), m1[i]));
            assert(exceeds.ensures((b[i], a[i], tolerance), m2[i]));
        }
        assert(m1 =~= m2);
        lemma_selects_same_indices(p1, b, p2, a, m1);
        assert forall|k: int| 0 <= k < p1.len() implies {
            &&& #[trigger] p1[k].index == p2[k].index
            &&& p1[k].value == b[p1[k].index as int]
            &&& p2[k].value == a[p1[k].index as int]
        } by {
            assert(p1[k].index == p2[k].index);
        }
    }
}

/// Element by element: applying a computed delta gives each element the
/// variant's value, or keeps the master's value where the test reported the
/// element as unchanged (for `f32`, where `|m - v| <= tolerance`).
pub proof fn lemma_compute_then_apply_elementwise<T, F: Fn(T, T, T) -> bool>(
    master: Seq<T>,
    variant: Seq<T>,
    tolerance: T,
    exceeds: F,
    delta: Delta<T>,
)
    requires
        compute_outcome(Ok(delta), delta.id@, master, variant, tolerance, exceeds),
    ensures
        delta.original_len == master.len(),
        all_in_bounds(delta.patches@, master.len() as int),
        patched(master, delta.patches@).len() == master.len(),
        forall|i: int|
            0 <= i < master.len() ==> #[trigger] patched(master, delta.patches@)[i] == variant[i] || (
            patched(master, delta.patches@)[i] == master[i] && exceeds.ensures(
                (master[i], variant[i], tolerance),
                false,
            )),
{
    let mask = choose|mask: Seq<bool>|
        verdicts_of(exceeds, master, variant, tolerance, mask) && selects(delta.patches@, variant, mask);
    lemma_delta_reconstructs(master, variant, mask, delta);
    assert forall|i: int| 0 <= i < master.len() implies #[trigger] patched(master, delta.patches@)[i]
        == variant[i] || (patched(master, delta.patches@)[i] == master[i] && exceeds.ensures(
        (master[i], variant[i], tolerance),
        false,
    )) by {
        assert(exceeds.ensures((master[i], variant[i], tolerance), mask[i]));
        assert(patched(master, delta.patches@)[i] == merged(master, variant, mask)[i]);
    }
}

/// Exact reconstruction, if and only if: with a deterministic test, applying
/// the computed delta gives back the variant exactly when every element is
/// equal in master and variant or flagged by the test.
pub proof fn lemma_round_trip_exact_iff<T, F: Fn(T, T, T) -> bool>(
    master: Seq<T>,
    variant: Seq<T>,
    tolerance: T,
    exceeds: F,
    delta: Delta<T>,
)
    requires
        deterministic_test(exceeds),
        compute_outcome(Ok(delta), delta.id@, master, variant, tolerance, exceeds),
    ensures
        patched(master, delta.patches@) == variant <==> forall|i: int|
            0 <= i < master.len() ==> master[i] == variant[i] || #[trigger] exceeds.ensures(
                (master[i], variant[i], tolerance),
                true,
            ),
{
    let mask = choose|mask: Seq<bool>|
        verdicts_of(exceeds, master, variant, tolerance, mask) && selects(delta.patches@, variant, mask);
    lemma_delta_reconstructs(master, variant, mask, delta);
    let out = merged(master, variant, mask);
    if forall|i: int|
        0 <= i < master.len() ==> master[i] == variant[i] || #[trigger] exceeds.ensures(
            (master[i], variant[i], tolerance),
            true,
        ) {
        assert forall|i: int| 0 <= i < master.len() implies out[i] == variant[i] by {
            assert(exceeds.ensures((master[i], variant[i], tolerance), mask[i]));
            if master[i] != variant[i] {
                assert(exceeds.ensures((master[i], variant[i], tolerance), true));
            }
        }
        assert(out =~= variant);
    }
    if out == variant {
        assert forall|i: int| 0 <= i < master.len() implies master[i] == variant[i]
            || #[trigger] exceeds.ensures((master[i], variant[i], tolerance), true) by {
            assert(exceeds.ensures((master[i], variant[i], tolerance), mask[i]));
            assert(out[i] == variant[i]);
        }
    }
}

/// Applying two deltas in turn is applying their patches one after the other.
pub proof fn lemma_patched_concat<T>(base: Seq<T>, p1: Seq<Patch<T>>, p2: Seq<Patch<T>>)
    ensures
        patched(patched(base, p1), p2) == patched(base, p1 + p2),
    decreases p2.len(),
{
    if p2.len() == 0 {
        assert(p1 + p2 =~= p1);
    } else {
        lemma_patched_concat(base, p1, p2.drop_last());
        assert((p1 + p2).drop_last() =~= p1 + p2.drop_last());
        assert((p1 + p2).last() == p2.last());
    }
}

/// What writing the patches in order leaves at each position: the value of
/// the last patch for that position, or the base value where no patch points.
proof fn lemma_patched_elementwise<T>(base: Seq<T>, ps: Seq<Patch<T>>)
    requires
        forall|k: int| 0 <= k < ps.len() ==> #[trigger] ps[k].index < base.len(),
    ensures
        patched(base, ps).len() == base.len(),
        forall|i: int|
            0 <= i < base.len() && (forall|k: int| 0 <= k < ps.len() ==> #[trigger] ps[k].index != i)
                ==> #[trigger] patched(base, ps)[i] == base[i],
        forall|k: int|
            0 <= k < ps.len() && (forall|k2: int| k < k2 < ps.len() ==> #[trigger] ps[k2].index
                != ps[k].index) ==> #[trigger] patched(base, ps)[ps[k].index as int] == ps[k].value,
    decreases ps.len(),
{
    if ps.len() > 0 {
        let init = ps.drop_last();
        let n = ps.len() - 1;
        let last = ps[n];
        assert(ps.last() == last);
        assert forall|k: int| 0 <= k < init.len() implies #[trigger] init[k].index < base.len() by {
            assert(init[k] == ps[k]);
        }
        lemma_patched_elementwise(base, init);
        let prev = patched(base, init);
        assert forall|i: int|
            0 <= i < base.len() && (forall|k: int| 0 <= k < ps.len() ==> #[trigger] ps[k].index != i)
                implies #[trigger] patched(base, ps)[i] == base[i] by {
            assert(ps[n].index != i);
            assert forall|k: int| 0 <= k < init.len() implies #[trigger] init[k].index != i by {
                assert(init[k] == ps[k]);
                assert(ps[k].index != i);
            }
        }
        assert forall|k: int|
            0 <= k < ps.len() && (forall|k2: int| k < k2 < ps.len() ==> #[trigger] ps[k2].index
                != ps[k].index) implies #[trigger] patched(base, ps)[ps[k].index as int]
            == ps[k].value by {
            if k < n {
                assert(ps[n].index != ps[k].index);
                assert(init[k] == ps[k]);
                assert forall|k2: int| k < k2 < init.len() implies #[trigger] init[k2].index
                    != init[k].index by {
                    assert(init[k2] == ps[k2]);
                    assert(ps[k2].index != ps[k].index);
                }
            }
        }
    }
}

/// Law of `apply_delta_f32`, stated directly on the inputs:
/// - a delta made for another length is refused with
///   `LengthMismatch { expected: master.len(), got: delta.original_len }`,
///   and success needs equal lengths;
/// - a delta for the right length whose patches all point inside the buffer
///   is applied; one with a patch outside is refused, naming the first such
///   patch;
/// - the result has the master's length; each position holds the value of
///   the last patch for it, or the master's value where no patch points.
pub proof fn lemma_apply_law<T>(r: Result<Vec<T>, DeltaError>, master: Seq<T>, delta: Delta<T>)
    requires
        apply_outcome(r, master, &delta),
    ensures
        master.len() != delta.original_len ==> (r matches Err(
            DeltaError::LengthMismatch { expected, got },
        ) && expected == master.len() && got == delta.original_len),
        r is Ok ==> master.len() == delta.original_len,
        master.len() == delta.original_len && (forall|k: int|
            0 <= k < delta.patches@.len() ==> #[trigger] delta.patches@[k].index < master.len())
            ==> r is Ok,
        (exists|k: int| 0 <= k < delta.patches@.len() && #[trigger] delta.patches@[k].index >= master.len())
            ==> r is Err,
        r matches Err(DeltaError::Internal(msg)) ==> exists|k: int|
            {
                &&& 0 <= k < delta.patches@.len()
                &&& #[trigger] delta.patches@[k].index >= master.len()
                &&& forall|j: int| 0 <= j < k ==> #[trigger] delta.patches@[j].index < master.len()
                &&& msg@ == "patch index "@ + decimal(delta.patches@[k].index as nat)
                    + " out of bounds"@
            },
        r matches Ok(out) ==> {
            &&& out@.len() == master.len()
            &&& forall|i: int|
                0 <= i < master.len() && (forall|k: int|
                    0 <= k < delta.patches@.len() ==> #[trigger] delta.patches@[k].index != i)
                    ==> #[trigger] out@[i] == master[i]
            &&& forall|k: int|
                0 <= k < delta.patches@.len() && (forall|k2: int|
                    k < k2 < delta.patches@.len() ==> #[trigger] delta.patches@[k2].index
                        != delta.patches@[k].index) ==> #[trigger] out@[delta.patches@[k].index as int]
                    == delta.patches@[k].value
        },
{
    let ps = delta.patches@;
    if exists|k: int| 0 <= k < ps.len() && #[trigger] ps[k].index >= master.len() {
        let k = choose|k: int| 0 <= k < ps.len() && #[trigger] ps[k].index >= master.len();
        assert(!all_in_bounds(ps, master.len() as int));
    }
    if master.len() == delta.original_len && (forall|k: int|
        0 <= k < ps.len() ==> #[trigger] ps[k].index < master.len()) {
        assert(all_in_bounds(ps, master.len() as int));
    }
    if r is Err && r->Err_0 is Internal {
        let k = choose|k: int|
            first_out_of_bounds(ps, master.len() as int, k) && r->Err_0->Internal_0@ == out_of_bounds_text(
                ps[k].index,
            );
        assert forall|j: int| 0 <= j < k implies #[trigger] ps[j].index < master.len() by {
            assert(ps.take(k)[j] == ps[j]);
        }
    }
    if r is Ok {
        assert(all_in_bounds(ps, master.len() as int));
        lemma_patched_elementwise(master, ps);
    }
}

/// Law of `compute_delta_f32`, stated directly on the inputs: buffers of
/// different lengths are refused with
/// `LengthMismatch { expected: master.len(), got: variant.len() }`; otherwise
/// the delta has the id and the master's length, and its patches, in strictly
/// increasing index order, point inside the buffer, carry the variant's value
/// and are exactly the elements on which the element test answered `true`:
/// every element without a patch got `false` from it.
pub proof fn lemma_compute_law<T, F: Fn(T, T, T) -> bool>(
    r: Result<Delta<T>, DeltaError>,
    id: <StateId as View>::V,
    master: Seq<T>,
    variant: Seq<T>,
    tolerance: T,
    exceeds: F,
)
    requires
        compute_outcome(r, id, master, variant, tolerance, exceeds),
    ensures
        master.len() != variant.len() ==> r == Err::<Delta<T>, DeltaError>(
            DeltaError::LengthMismatch { expected: master.len() as usize, got: variant.len() as usize },
        ),
        r is Ok ==> master.len() == variant.len(),
        r matches Ok(d) ==> {
            &&& d.id@ == id
            &&& d.original_len == master.len()
            &&& d.patches@.len() <= master.len()
            &&& forall|k: int|
                0 <= k < d.patches@.len() ==> {
                    &&& #[trigger] d.patches@[k].index < master.len()
                    &&& d.patches@[k].value == variant[d.patches@[k].index as int]
                    &&& exceeds.ensures(
                        (
                            master[d.patches@[k].index as int],
                            variant[d.patches@[k].index as int],
                            tolerance,
                        ),
                        true,
                    )
                }
            &&& forall|k1: int, k2: int|
                0 <= k1 < k2 < d.patches@.len() ==> #[trigger] d.patches@[k1].index
                    < #[trigger] d.patches@[k2].index
            &&& forall|i: int|
                0 <= i < master.len() && (forall|k: int|
                    0 <= k < d.patches@.len() ==> #[trigger] d.patches@[k].index != i)
                    ==> #[trigger] exceeds.ensures((master[i], variant[i], tolerance), false)
        },
{
    if r is Ok {
        let d = r->Ok_0;
        let ps = d.patches@;
        let mask = choose|mask: Seq<bool>|
            verdicts_of(exceeds, master, variant, tolerance, mask) && selects(ps, variant, mask);
        lemma_patch_count_bounded(ps, variant, mask);
        assert forall|k: int| 0 <= k < ps.len() implies {
            &&& #[trigger] ps[k].index < master.len()
            &&& ps[k].value == variant[ps[k].index as int]
            &&& exceeds.ensures((master[ps[k].index as int], variant[ps[k].index as int], tolerance), true)
        } by {
            let i = ps[k].index as int;
            assert(mask[i]);
            assert(exceeds.ensures((master[i], variant[i], tolerance), mask[i]));
        }
        assert forall|i: int|
            0 <= i < master.len() && (forall|k: int| 0 <= k < ps.len() ==> #[trigger] ps[k].index != i)
                implies #[trigger] exceeds.ensures((master[i], variant[i], tolerance), false) by {
            assert(exceeds.ensures((master[i], variant[i], tolerance), mask[i]));
            if mask[i] {
                let k = choose|k: int| 0 <= k < ps.len() && #[trigger] ps[k].index == i;
                assert(ps[k].index != i);
            }
        }
    }
}

/// The number that a string of decimal digits denotes.
pub open spec fn digits_value(s: Seq<char>) -> int
    decreases s.len(),
{
    if s.len() == 0 {
        0
    } else {
        digits_value(s.drop_last()) * 10 + (s.last() as int - 48)
    }
}

/// Law of the decimal notation used in error messages: it is made of the
/// digits '0'..'9', starts with '0' only for zero, and denotes `n`.
pub proof fn lemma_decimal_law(n: nat)
    ensures
        decimal(n).len() > 0,
        forall|i: int| 0 <= i < decimal(n).len() ==> '0' <= #[trigger] decimal(n)[i] <= '9',
        n > 0 ==> decimal(n)[0] != '0',
        digits_value(decimal(n)) == n,
    decreases n,
{
    assert(digit_char(n % 10) as int == n % 10 + 48);
    if n >= 10 {
        lemma_decimal_law(n / 10);
        let s = decimal(n);
        assert(s.drop_last() =~= decimal(n / 10));
        assert(s[0] == decimal(n / 10)[0]);
        assert(s.last() == digit_char(n % 10));
        vstd::arithmetic::div_mod::lemma_fundamental_div_mod(n as int, 10);
        assert(digits_value(s) == digits_value(decimal(n / 10)) * 10 + (n % 10));
        assert(digits_value(decimal(n / 10)) == n / 10);
        vstd::arithmetic::mul::lemma_mul_is_commutative(n as int / 10, 10);
    } else {
        assert(digit_char(n) as int == n + 48);
        assert(decimal(n).drop_last() =~= Seq::<char>::empty());
        assert(digits_value(decimal(n).drop_last()) == 0);
        assert(decimal(n).last() == digit_char(n));
    }
}

} // verus!
