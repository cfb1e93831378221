use vstd::prelude::*;

verus! {

/// Flip flags of a tile's visual: horizontal (`x`), vertical (`y`) and
/// diagonal (`d`). The default is all false.
#[derive(Clone, Copy, Debug, PartialEq, Eq, Structural)]
pub struct TileFlip {
    pub x: bool,
    pub y: bool,
    pub d: bool,
}

impl Default for TileFlip {
    fn default() -> (r: Self)
        ensures
            r == (TileFlip { x: false, y: false, d: false }),
    {
        TileFlip { x: false, y: false, d: false }
    }
}

/// True exactly when every flip flag is off.
pub fn is_default_flip(flip: &TileFlip) -> (r: bool)
    ensures
        r == flip.is_default(),
{
    !flip.x && !flip.y && !flip.d
}

impl TileFlip {
    pub open spec fn is_default(self) -> bool {
        !self.x && !self.y && !self.d
    }
}

/// The visual identity of a placed tile: a texture index and flip flags.
/// A value type with structural equality; the default id stands for
/// "not yet assigned".
#[derive(Clone, Copy, Debug, PartialEq, Eq, Structural)]
pub struct TileProperties {
    pub id: u32,
    pub flip: TileFlip,
}

impl Default for TileProperties {
    fn default() -> (r: Self)
        ensures
            r == (TileProperties { id: 0, flip: TileFlip { x: false, y: false, d: false } }),
    {
        TileProperties { id: 0, flip: TileFlip { x: false, y: false, d: false } }
    }
}

} // verus!
