//! A verified compiler and stack machine for the Piet graphical language.
//!
//! The pipeline turns a rectangular grid of RGB pixels into an executable
//! transition table: the grid is segmented into colour-uniform blocks, a
//! deterministic pointer automaton is built over those blocks, colour
//! transitions are decoded into primitive operations, the automaton is
//! collapsed and pruned to a fixed point, and the result is flattened into
//! a numeric table that a small stack machine executes.

pub mod block;
pub mod blockimage;
pub mod chooser;
pub mod colour;
pub mod direction;
pub mod grid;
pub mod machine;
pub mod machinenode;
pub mod protoprogram;

use vstd::prelude::*;

use crate::blockimage::{
    block_connected, block_matches_grid, blocks_in_scan_order, blocks_maximal, spec_build,
    BlockImage,
};
use crate::grid::Grid;
use crate::machine::Program;
use crate::protoprogram::{spec_encode, spec_optimize, spec_root_id};

verus! {

/// What segmentation promises of its output for a given grid: a sound
/// image whose blocks are drawn from the grid, own exactly its pixels, are
/// maximal 4-connected regions, and carry ids in row-major seed-discovery
/// order. Maximality makes the region set canonical and the scan order
/// makes the numbering canonical, so these clauses determine the
/// segmentation — in particular which region is block 0, the root.
pub open spec fn spec_segmentation(g: Grid, bi: BlockImage) -> bool {
    &&& bi.wf()
    &&& forall|p: (u32, u32)| #[trigger] bi.spec_owns(p) <==> g.in_bounds(p.0 as int, p.1 as int)
    &&& forall|i: int|
        0 <= i < bi.blocks@.len() ==> block_matches_grid(g, #[trigger] bi.blocks@[i])
    &&& forall|i: int| 0 <= i < bi.blocks@.len() ==> block_connected(#[trigger] bi.blocks@[i])
    &&& blocks_maximal(g, bi)
    &&& blocks_in_scan_order(g, bi)
}

/// The whole compilation pipeline: segment the grid, build the pointer
/// automaton, optimize it to a fixed point, and flatten it into the
/// executable table.
pub fn compile(g: &Grid) -> (prog: Program)
    requires
        g.wf(),
    ensures
        prog.initial_state == spec_root_id(),
        exists|bi: BlockImage|
            {
                &&& #[trigger] spec_segmentation(*g, bi)
                &&& prog.transitions@ == spec_encode(bi.blocks@, spec_optimize(spec_build(bi)))
            },
{
    let bi = BlockImage::from_grid(g);
    let ghost big = bi;
    proof {
        assert forall|i: int|
            0 <= i < bi.blocks@.len() implies (#[trigger] bi.blocks@[i]).pixels@.len()
            <= i64::MAX by {
            assert(block_matches_grid(*g, bi.blocks@[i]));
            assert(16 * (g.width * g.height) <= usize::MAX);
            assert(usize::MAX <= u64::MAX);
        }
    }
    let pp = bi.to_protoprogram();
    let opt = pp.optimize();
    let prog = opt.to_program();
    proof {
        assert(spec_segmentation(*g, big));
        assert(prog.transitions@ == spec_encode(big.blocks@, spec_optimize(spec_build(big))));
    }
    prog
}

} // verus!
