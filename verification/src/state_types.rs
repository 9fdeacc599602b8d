use vstd::prelude::*;

verus! {

/// Identifier of a tracked state: a layer, an optional head and an optional name.
#[derive(Clone, Debug, PartialEq, Eq, Hash)]
pub struct StateId {
    pub layer: usize,
    pub head: Option<usize>,
    pub name: Option<String>,
}

/// Mathematical value of a `StateId`: the name is taken as its characters.
pub open spec fn name_view(name: Option<String>) -> Option<Seq<char>> {
    match name {
        Some(s) => Some(s@),
        None => None,
    }
}

impl View for StateId {
    type V = (usize, Option<usize>, Option<Seq<char>>);

    open spec fn view(&self) -> Self::V {
        (self.layer, self.head, name_view(self.name))
    }
}

impl StateId {
    /// A copy of this identifier.
    pub fn duplicate(&self) -> (r: StateId)
        ensures
            r@ == self@,
    {
        let name = match &self.name {
            Some(s) => Some(s.clone()),
            None => None,
        };
        StateId { layer: self.layer, head: self.head, name }
    }

    /// Whether two identifiers denote the same state.
    pub fn same_as(&self, other: &StateId) -> (r: bool)
        ensures
            r == (self@ == other@),
    {
        if self.layer != other.layer {
            return false;
        }
        let heads_equal = match (self.head, other.head) {
            (Some(a), Some(b)) => a == b,
            (None, None) => true,
            _ => false,
        };
        if !heads_equal {
            return false;
        }
        match (&self.name, &other.name) {
            (Some(a), Some(b)) => {
                let same: bool = a.eq(b);
                proof {
                    if !same {
                        assert(name_view(self.name) != name_view(other.name));
                    }
                }
                same
            },
            (None, None) => true,
            _ => false,
        }
    }
}

/// A contiguous view of tensor data to be diffed.
pub struct TensorView<'a, T> {
    pub id: StateId,
    pub shape: Vec<usize>,
    pub data: &'a [T],
}

impl<'a, T> TensorView<'a, T> {
    /// Number of elements in the view.
    pub fn len(&self) -> (r: usize)
        ensures
            r == self.data@.len(),
    {
        self.data.len()
    }

    /// Whether the view holds no element.
    pub fn is_empty(&self) -> (r: bool)
        ensures
            r == (self.data@.len() == 0),
    {
        self.data.len() == 0
    }
}

} // verus!
