use vstd::prelude::*;

use crate::delta_f32::Patch;
use crate::state_types::StateId;

verus! {

/// Patches of one KV row, placed by layer, head and row index.
#[derive(Clone, Debug)]
pub struct KvDeltaPatch<T> {
    pub layer: usize,
    pub head: usize,
    pub row: usize,
    /// Patches within the row.
    pub values: Vec<Patch<T>>,
}

/// KV delta container for a single step.
#[derive(Clone, Debug)]
pub struct KvDelta<T> {
    pub id: StateId,
    pub patches: Vec<KvDeltaPatch<T>>,
}

impl<T> KvDelta<T> {
    /// An empty KV delta for `id`.
    pub fn new(id: StateId) -> (r: Self)
        ensures
            r.id == id,
            r.patches@.len() == 0,
    {
        KvDelta { id, patches: Vec::new() }
    }

    /// Appends the patches of one row.
    pub fn add_row_patch(&mut self, layer: usize, head: usize, row: usize, values: Vec<Patch<T>>)
        ensures
            final(self).id == old(self).id,
            final(self).patches@ == old(self).patches@.push(
                (KvDeltaPatch { layer, head, row, values }),
            ),
    {
        self.patches.push(KvDeltaPatch { layer, head, row, values });
    }
}

} // verus!
