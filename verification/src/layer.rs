use vstd::prelude::*;

verus! {

/// The closed set of named tile layers. Each layer is an independent grid with
/// a fixed draw order and a display name; at most one map exists per layer.
#[derive(Clone, Copy, Debug, PartialEq, Eq, Structural, Hash)]
pub enum Layer {
    World,
}

impl Layer {
    /// Draw-order index of this layer: larger values draw on top.
    pub fn z_index(&self) -> (r: u32)
        ensures
            r == self.spec_z_index(),
    {
        match self {
            Layer::World => 0,
        }
    }

    pub open spec fn spec_z_index(self) -> u32 {
        match self {
            Layer::World => 0,
        }
    }

    /// Human-readable name of this layer.
    pub fn name(&self) -> (r: &'static str)
        ensures
            r@ == self.spec_name(),
    {
        match self {
            Layer::World => "World",
        }
    }

    pub open spec fn spec_name(self) -> Seq<char> {
        match self {
            Layer::World => "World"@,
        }
    }
}

} // verus!
