use vstd::prelude::*;

verus! {

/// The neighbor lists of one node, one fixed-capacity list per tier the node
/// takes part in. Entries are positions in the owning index.
pub enum Layer<const L0: usize, const L1: usize, const L2: usize, const L3: usize> {
    Layer0 { l0_neighbors: [usize; L0] },
    #[allow(unused)]
    Layer1 { l0_neighbors: [usize; L0], l1_neighbors: [usize; L1] },
    #[allow(unused)]
    Layer2 { l0_neighbors: [usize; L0], l1_neighbors: [usize; L1], l2_neighbors: [usize; L2] },
    #[allow(unused)]
    Layer3 {
        l0_neighbors: [usize; L0],
        l1_neighbors: [usize; L1],
        l2_neighbors: [usize; L2],
        l3_neighbors: [usize; L3],
    },
}

impl<const L0: usize, const L1: usize, const L2: usize, const L3: usize> Layer<L0, L1, L2, L3> {
    /// The base-tier list.
    pub open spec fn base(self) -> [usize; L0] {
        match self {
            Self::Layer0 { l0_neighbors } => l0_neighbors,
            Self::Layer1 { l0_neighbors, .. } => l0_neighbors,
            Self::Layer2 { l0_neighbors, .. } => l0_neighbors,
            Self::Layer3 { l0_neighbors, .. } => l0_neighbors,
        }
    }

    /// The same value with `list` as its base-tier list.
    pub open spec fn with_base(self, list: [usize; L0]) -> Self {
        match self {
            Self::Layer0 { .. } => Self::Layer0 { l0_neighbors: list },
            Self::Layer1 { l1_neighbors, .. } => Self::Layer1 { l0_neighbors: list, l1_neighbors },
            Self::Layer2 { l1_neighbors, l2_neighbors, .. } => Self::Layer2 {
                l0_neighbors: list,
                l1_neighbors,
                l2_neighbors,
            },
            Self::Layer3 { l1_neighbors, l2_neighbors, l3_neighbors, .. } => Self::Layer3 {
                l0_neighbors: list,
                l1_neighbors,
                l2_neighbors,
                l3_neighbors,
            },
        }
    }

    pub fn l0(&self) -> (list: &[usize; L0])
        ensures
            *list == self.base(),
    {
        match self {
            Self::Layer0 { l0_neighbors } => l0_neighbors,
            Self::Layer1 { l0_neighbors, .. } => l0_neighbors,
            Self::Layer2 { l0_neighbors, .. } => l0_neighbors,
            Self::Layer3 { l0_neighbors, .. } => l0_neighbors,
        }
    }

    pub fn l0_mut(&mut self) -> (list: &mut [usize; L0])
        ensures
            *list == old(self).base(),
            *final(self) == old(self).with_base(*final(list)),
    {
        match self {
            Self::Layer0 { l0_neighbors } => l0_neighbors,
            Self::Layer1 { l0_neighbors, .. } => l0_neighbors,
            Self::Layer2 { l0_neighbors, .. } => l0_neighbors,
            Self::Layer3 { l0_neighbors, .. } => l0_neighbors,
        }
    }
}

} // verus!
