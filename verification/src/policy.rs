use vstd::prelude::*;

verus! {

/// Controls when a previous state is reused rather than recomputed.
///
/// `T` is the tensor's element type; the threshold and the tolerance are
/// values of it.
#[derive(Clone, Debug)]
pub struct ReusePolicy<T> {
    /// Fraction of elements that must be unchanged to allow reuse.
    pub reuse_threshold: T,
    /// Largest number of patches that still allows reuse.
    pub max_patches_for_reuse: usize,
    /// Tolerance of the element comparison.
    pub tolerance: T,
}

/// What `should_reuse` answers: never for an empty buffer; otherwise the
/// fraction test's verdict on `(total_len, patch_count, reuse_threshold)`,
/// and the patch count within the cap.
pub open spec fn reuse_outcome<T, F: Fn(usize, usize, T) -> bool>(
    r: bool,
    policy: ReusePolicy<T>,
    total_len: usize,
    patch_count: usize,
    fraction_reached: F,
) -> bool {
    &&& total_len == 0 ==> !r
    &&& total_len > 0 ==> exists|reached: bool|
        #[trigger] fraction_reached.ensures((total_len, patch_count, policy.reuse_threshold), reached)
            && r == (reached && patch_count <= policy.max_patches_for_reuse)
}

/// Monotonicity of reuse: when the fraction test is monotone (fewer patches,
/// or a longer buffer, never lowers the unchanged fraction below the
/// threshold), fewer patches or a longer buffer never turn reuse off.
pub proof fn lemma_reuse_monotone<T, F: Fn(usize, usize, T) -> bool>(
    policy: ReusePolicy<T>,
    fraction_reached: F,
    n1: usize,
    n2: usize,
    k1: usize,
    k2: usize,
    r_n1_k2: bool,
    r_n1_k1: bool,
    r_n2_k2: bool,
)
    requires
        k1 <= k2,
        0 < n1 <= n2,
        reuse_outcome(r_n1_k2, policy, n1, k2, fraction_reached),
        reuse_outcome(r_n1_k1, policy, n1, k1, fraction_reached),
        reuse_outcome(r_n2_k2, policy, n2, k2, fraction_reached),
        forall|n: usize, ka: usize, kb: usize, t: T, a: bool, b: bool|
            ka <= kb && #[trigger] fraction_reached.ensures((n, kb, t), b) && #[trigger]
                fraction_reached.ensures((n, ka, t), a) && b ==> a,
        forall|na: usize, nb: usize, k: usize, t: T, a: bool, b: bool|
            0 < na <= nb && #[trigger] fraction_reached.ensures((na, k, t), a) && #[trigger]
                fraction_reached.ensures((nb, k, t), b) && a ==> b,
    ensures
        r_n1_k2 ==> r_n1_k1 && r_n2_k2,
{
    let t = policy.reuse_threshold;
    if r_n1_k2 {
        let b = choose|reached: bool| #[trigger] fraction_reached.ensures((n1, k2, t), reached)
            && r_n1_k2 == (reached && k2 <= policy.max_patches_for_reuse);
        let a = choose|reached: bool| #[trigger] fraction_reached.ensures((n1, k1, t), reached)
            && r_n1_k1 == (reached && k1 <= policy.max_patches_for_reuse);
        let c = choose|reached: bool| #[trigger] fraction_reached.ensures((n2, k2, t), reached)
            && r_n2_k2 == (reached && k2 <= policy.max_patches_for_reuse);
        assert(b);
        assert(a);
        assert(c);
    }
}

/// Law of `should_reuse`, stated directly on the inputs: when the fraction
/// test answers `reached` on `(total_len, patch_count, reuse_threshold)`, the
/// answer is exactly "the buffer is not empty, the fraction is reached and
/// the patch count is within the cap".  In particular an empty buffer is never
/// reused, and a non-empty buffer with no patch is reused whenever the test
/// holds and the cap allows it.
pub proof fn lemma_should_reuse_law<T, F: Fn(usize, usize, T) -> bool>(
    r: bool,
    policy: ReusePolicy<T>,
    total_len: usize,
    patch_count: usize,
    fraction_reached: F,
    reached: bool,
)
    requires
        reuse_outcome(r, policy, total_len, patch_count, fraction_reached),
        forall|b: bool|
            #[trigger] fraction_reached.ensures((total_len, patch_count, policy.reuse_threshold), b)
                ==> b == reached,
    ensures
        r == (total_len > 0 && reached && patch_count <= policy.max_patches_for_reuse),
        total_len == 0 ==> !r,
        total_len > 0 && patch_count == 0 && reached ==> r,
        r ==> patch_count <= policy.max_patches_for_reuse,
{
    if total_len > 0 {
        let b = choose|b: bool|
            #[trigger] fraction_reached.ensures((total_len, patch_count, policy.reuse_threshold), b)
                && r == (b && patch_count <= policy.max_patches_for_reuse);
        assert(b == reached);
    }
}

impl<T: Copy> ReusePolicy<T> {
    /// Decides whether to reuse, given the number of patches and the total length.
    ///
    /// An empty buffer is never reused.  Otherwise `fraction_reached(total_len,
    /// patch_count, reuse_threshold)` tells whether the unchanged fraction
    /// `1 - patch_count / total_len` reaches the threshold, and reuse is
    /// chosen when it does and the patch count is within the cap.
    pub fn should_reuse<F: Fn(usize, usize, T) -> bool>(
        &self,
        total_len: usize,
        patch_count: usize,
        fraction_reached: F,
    ) -> (r: bool)
        requires
            forall|n: usize, p: usize, t: T| fraction_reached.requires((n, p, t)),
        ensures
            reuse_outcome(r, *self, total_len, patch_count, fraction_reached),
    {
        if total_len == 0 {
            return false;
        }
        let reached = fraction_reached(total_len, patch_count, self.reuse_threshold);
        reached && patch_count <= self.max_patches_for_reuse
    }
}

} // verus!
