use pietc::blockimage::BlockImage;
use pietc::colour::Colour;
use pietc::compile;
use pietc::grid::Grid;
use pietc::machine::{Machine, Operation, StepOutcome};

fn rgb_grid(width: u32, height: u32, pixels: Vec<(u8, u8, u8)>) -> Grid {
    Grid::new(width, height, pixels)
}

const LIGHT_RED: (u8, u8, u8) = (255, 192, 192);
const RED: (u8, u8, u8) = (255, 0, 0);
const GREEN: (u8, u8, u8) = (0, 255, 0);
const WHITE: (u8, u8, u8) = (255, 255, 255);

#[test]
fn single_red_pixel_segments_to_one_block() {
    let g = rgb_grid(1, 1, vec![RED]);
    let bi = BlockImage::from_grid(&g);
    assert_eq!(bi.blocks.len(), 1);
    assert_eq!(bi.blocks[0].id, 0);
    assert_eq!(bi.blocks[0].colour, Colour::Colour { hue: 0, lightness: 1 });
    assert_eq!(bi.blocks[0].pixels, vec![(0, 0)]);
    assert!(bi.contains_pixel(&(0, 0)));
    assert!(bi.block_by_pixel(&(0, 0)).is_some());
}

#[test]
fn single_red_pixel_automaton_self_loops() {
    let g = rgb_grid(1, 1, vec![RED]);
    let pp = BlockImage::from_grid(&g).to_protoprogram();
    assert_eq!(pp.next.len(), 16);
    for entry in pp.next.iter() {
        let m = entry.expect("every state of a colour block has a successor");
        assert_eq!(m.block, 0);
    }
}

#[test]
fn single_red_pixel_program_halts_immediately() {
    let g = rgb_grid(1, 1, vec![RED]);
    let prog = compile(&g);
    assert_eq!(prog.initial_state, 12);
    assert_eq!(prog.transitions.len(), 0);
    let mut m = Machine::new(prog);
    assert_eq!(m.step(), StepOutcome::Halted);
    assert!(m.stack.is_empty());
}

#[test]
fn push_between_adjacent_blocks() {
    // light red then red, side by side; moving right decodes to Push(1)
    let g = rgb_grid(2, 1, vec![LIGHT_RED, RED]);
    let prog = compile(&g);
    let mut m = Machine::new(prog);
    assert_eq!(m.step(), StepOutcome::Stepped);
    assert_eq!(m.stack, vec![1]);
}

#[test]
fn white_transitions_recorded_independently() {
    // red | white | green: entering white is NoOp, and leaving it into
    // green is its own transition, also NoOp
    let g = rgb_grid(3, 1, vec![RED, WHITE, GREEN]);
    let prog = BlockImage::from_grid(&g).to_protoprogram().to_program();
    // block ids 0,1,2 left to right; rank 12 is (Right, Left, unflipped)
    let red_right = 12u64;
    let white_right = 16 + 12u64;
    let green_right = 32 + 12u64;
    assert_eq!(prog.transitions.get(&red_right), Some(&(white_right, Operation::NoOp)));
    assert_eq!(prog.transitions.get(&white_right), Some(&(green_right, Operation::NoOp)));
}

#[test]
fn partition_covers_every_pixel_once() {
    // a 2x2 grid with an L-shaped red region and one green pixel
    let g = rgb_grid(2, 2, vec![RED, RED, RED, GREEN]);
    let bi = BlockImage::from_grid(&g);
    assert_eq!(bi.blocks.len(), 2);
    let mut seen = 0;
    for x in 0..2u32 {
        for y in 0..2u32 {
            let b = bi.block_by_pixel(&(x, y)).expect("pixel must be owned");
            let owners = bi
                .blocks
                .iter()
                .filter(|blk| blk.pixels.contains(&(x, y)))
                .count();
            assert_eq!(owners, 1);
            assert!(b.pixels.contains(&(x, y)));
            seen += 1;
        }
    }
    assert_eq!(seen, 4);
    assert_eq!(bi.blocks[0].pixels.len(), 3);
    assert_eq!(bi.blocks[1].pixels.len(), 1);
    assert_eq!(bi.blocks[1].colour, Colour::Colour { hue: 2, lightness: 1 });
    // ids follow row-major discovery order, each seed first in its block
    assert_eq!(bi.blocks[0].pixels[0], (0, 0));
    assert_eq!(bi.blocks[1].pixels[0], (1, 1));
}

#[test]
fn optimizer_is_idempotent_on_its_output() {
    let g = rgb_grid(2, 1, vec![LIGHT_RED, RED]);
    let once = BlockImage::from_grid(&g).to_protoprogram().optimize();
    let first = once.next.clone();
    let twice = once.optimize();
    assert_eq!(twice.next, first);
}

#[test]
fn optimizer_drops_stuck_states() {
    let g = rgb_grid(1, 1, vec![RED]);
    let opt = BlockImage::from_grid(&g).to_protoprogram().optimize();
    assert!(opt.next.iter().all(|e| e.is_none()));
}

#[test]
fn entering_a_non_standard_colour_aborts() {
    let g = rgb_grid(2, 1, vec![RED, (10, 20, 30)]);
    let prog = compile(&g);
    let mut m = Machine::new(prog);
    assert_eq!(
        m.step(),
        StepOutcome::Aborted(pietc::machine::ErrorReason::NonStandardColour)
    );
}

#[test]
fn flood_fill_joins_regions_around_corners() {
    // a red ring-top over a green centre: all five red pixels are one block
    let g = rgb_grid(
        3,
        2,
        vec![RED, RED, RED, RED, GREEN, RED],
    );
    let bi = BlockImage::from_grid(&g);
    assert_eq!(bi.blocks.len(), 2);
    assert_eq!(bi.blocks[0].pixels.len(), 5);
    assert_eq!(bi.blocks[0].pixels[0], (0, 0));
    assert_eq!(bi.blocks[1].pixels.len(), 1);
    assert_eq!(bi.blocks[1].pixels, vec![(1, 1)]);
}
