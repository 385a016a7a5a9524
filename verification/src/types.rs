use vstd::prelude::*;
use crate::grid::Cell;

verus! {

/// A generated map: the puzzle channels and the solution, flattened.
///
/// With `l` layers, `g` routes and an `h` by `w` grid, `puzzle` holds for each
/// layer `g + 1` channels of `h * w` cells (channel 0 the walls, channel
/// `r + 1` the checkpoints and vias of route `r`), and `solution` holds one
/// channel per layer marking the cells of the routes' paths.
pub struct MazeMap {
    /// Layer-major, then channel, then row-major cells; 1 marks the cell.
    pub puzzle: Vec<i8>,
    /// Layer-major, then row-major cells; 1 marks a path cell.
    pub solution: Vec<i8>,
}

/// What each layer knows about the routes, in grid coordinates.
#[derive(Clone)]
pub struct LayerRouteData {
    /// For each cell, row-major, the route that owns it, or the number of
    /// routes for cells no route owns.
    pub route_owner: Vec<u8>,
    /// For each route, the checkpoints that lie on this layer.
    pub checkpoints: Vec<Vec<Cell>>,
    /// For each route, the vias that open onto this layer.
    pub vias: Vec<Vec<Cell>>,
}

} // verus!
