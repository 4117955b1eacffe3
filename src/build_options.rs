//! How a hierarchy is built: when to stop splitting and how to split.
use vstd::prelude::*;

verus! {

/// The options of a build.
#[derive(Clone, Copy, Debug)]
pub struct BuildBvhOption {
    pub depth_control: DepthControl,
    pub split_method: SplitMethod,
}

/// When a node stops being split.
#[derive(Clone, Copy, PartialEq, Eq, Structural, Debug)]
pub enum DepthControl {
    /// Stop once a node's depth reaches the bound (the root has depth 1).
    MaxDepth(usize),
    /// Stop once a node holds at most this many primitives.
    MinPrimitives(usize),
}

/// How a node's primitives are split in two.
#[derive(Clone, Copy, PartialEq, Eq, Structural, Debug)]
pub enum SplitMethod {
    /// By the midpoint of the centers' box along its longest axis.
    Mid,
    /// By the median center along that axis.
    Average,
}

/// The depth bound a build uses when none is given.
pub const DEFAULT_MAX_DEPTH: usize = 20;

impl Default for DepthControl {
    fn default() -> (r: Self)
        ensures
            r == DepthControl::MaxDepth(DEFAULT_MAX_DEPTH),
    {
        DepthControl::MaxDepth(DEFAULT_MAX_DEPTH)
    }
}

impl Default for SplitMethod {
    fn default() -> (r: Self)
        ensures
            r == SplitMethod::Mid,
    {
        SplitMethod::Mid
    }
}

impl Default for BuildBvhOption {
    fn default() -> (r: Self)
        ensures
            r.depth_control == DepthControl::MaxDepth(DEFAULT_MAX_DEPTH),
            r.split_method == SplitMethod::Mid,
    {
        BuildBvhOption { depth_control: DepthControl::default(), split_method: SplitMethod::default() }
    }
}

impl DepthControl {
    /// Whether a node at `depth` holding `count` primitives becomes a leaf.
    /// A node with at most one primitive always does.
    pub open spec fn stops(self, depth: nat, count: nat) -> bool {
        count <= 1 || match self {
            DepthControl::MaxDepth(m) => depth >= m,
            DepthControl::MinPrimitives(m) => count <= m,
        }
    }

    /// Whether a node at `depth` holding `count` primitives becomes a leaf.
    pub fn should_stop(&self, depth: usize, count: usize) -> (r: bool)
        ensures
            r == self.stops(depth as nat, count as nat),
    {
        if count <= 1 {
            return true;
        }
        match *self {
            DepthControl::MaxDepth(m) => depth >= m,
            DepthControl::MinPrimitives(m) => count <= m,
        }
    }
}

} // verus!
