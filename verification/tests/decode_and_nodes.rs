use pietc::block::Block;
use pietc::blockimage::{exit_codel, maximal_codels};
use pietc::chooser::Chooser;
use pietc::colour::Colour;
use pietc::direction::Direction;
use pietc::machine::{ErrorReason, Operation};
use pietc::machinenode::MachineNode;

fn block(id: usize, colour: Colour, pixels: Vec<(u32, u32)>) -> Block {
    Block { id, colour, pixels }
}

fn palette(hue: u8, lightness: u8) -> Colour {
    Colour::Colour { hue, lightness }
}

#[test]
fn classify_palette_black_white_other() {
    assert_eq!(Colour::from_rgb(255, 0, 0), palette(0, 1));
    assert_eq!(Colour::from_rgb(255, 192, 192), palette(0, 0));
    assert_eq!(Colour::from_rgb(192, 0, 192), palette(5, 2));
    assert_eq!(Colour::from_rgb(0, 0, 0), Colour::Black);
    assert_eq!(Colour::from_rgb(255, 255, 255), Colour::White);
    assert_eq!(Colour::from_rgb(1, 2, 3), Colour::Other);
    assert_eq!(Colour::from_rgb(255, 0, 1), Colour::Other);
}

#[test]
fn decode_table_spot_checks() {
    let one = |c: Colour| block(0, c, vec![(0, 0)]);
    // same cell: NoOp
    assert_eq!(one(palette(3, 1)).delta(&one(palette(3, 1))), Operation::NoOp);
    // one lightness step: Push of the entered block's size
    let entered = block(0, palette(0, 0), vec![(0, 0), (1, 0), (2, 0)]);
    assert_eq!(entered.delta(&one(palette(0, 1))), Operation::Push(3));
    // one hue step: Add
    assert_eq!(one(palette(2, 2)).delta(&one(palette(3, 2))), Operation::Add);
    // hue wraps around the 6-cycle: 5 -> 0 is one step
    assert_eq!(one(palette(5, 0)).delta(&one(palette(0, 0))), Operation::Add);
    // lightness wraps around the 3-cycle: 2 -> 0 is one step
    assert_eq!(one(palette(0, 2)).delta(&one(palette(0, 0))), Operation::Push(1));
    // the far corner of the table
    assert_eq!(one(palette(0, 0)).delta(&one(palette(5, 2))), Operation::OutChar);
    assert_eq!(one(palette(1, 1)).delta(&one(palette(4, 2))), Operation::Pointer);
    assert_eq!(one(palette(1, 1)).delta(&one(palette(4, 0))), Operation::Switch);
}

#[test]
fn decode_white_and_other() {
    let one = |c: Colour| block(0, c, vec![(0, 0)]);
    assert_eq!(one(Colour::White).delta(&one(palette(2, 1))), Operation::NoOp);
    assert_eq!(one(palette(2, 1)).delta(&one(Colour::White)), Operation::NoOp);
    assert_eq!(
        one(Colour::Other).delta(&one(palette(2, 1))),
        Operation::Error(ErrorReason::NonStandardColour)
    );
    assert_eq!(
        one(Colour::White).delta(&one(Colour::Other)),
        Operation::Error(ErrorReason::NonStandardColour)
    );
}

#[test]
fn rotate_and_flip() {
    assert_eq!(Direction::Up.rotate(Chooser::Left), Direction::Left);
    assert_eq!(Direction::Up.rotate(Chooser::Right), Direction::Right);
    assert_eq!(Direction::Left.rotate(Chooser::Left), Direction::Down);
    assert_eq!(Direction::Right.rotate(Chooser::Right), Direction::Down);
    assert_eq!(Direction::Up.clockwise(), Direction::Right);
    assert_eq!(Direction::Right.clockwise(), Direction::Down);
    assert_eq!(Chooser::Left.flip(), Chooser::Right);
    assert_eq!(Chooser::Right.flip(), Chooser::Left);
}

#[test]
fn bounce_cycle_returns_after_eight_steps() {
    let start = MachineNode {
        block: 3,
        direction: Direction::Up,
        chooser: Chooser::Left,
        flipped: false,
    };
    let mut cur = start;
    let mut dirs_seen: Vec<(Direction, Chooser)> = Vec::new();
    for k in 0..8 {
        assert!(!(k > 0 && cur == start), "returned early at step {}", k);
        if !dirs_seen.contains(&(cur.direction, cur.chooser)) {
            dirs_seen.push((cur.direction, cur.chooser));
        }
        cur = cur.redirect();
        assert_eq!(cur.block, start.block);
    }
    assert_eq!(cur, start);
    assert_eq!(dirs_seen.len(), 8);
}

#[test]
fn identifier_and_root() {
    let root = MachineNode {
        block: 0,
        direction: Direction::Right,
        chooser: Chooser::Left,
        flipped: false,
    };
    assert!(root.is_root());
    assert_eq!(root.identifier(), 12);
    let other = MachineNode {
        block: 2,
        direction: Direction::Down,
        chooser: Chooser::Right,
        flipped: true,
    };
    assert!(!other.is_root());
    assert_eq!(other.identifier(), 2 * 16 + 7);
}

#[test]
fn machinenode_delta_flattens_a_transition() {
    let sb = block(1, palette(0, 0), vec![(0, 0), (1, 0)]);
    let rb = block(2, palette(0, 1), vec![(2, 0)]);
    let from = MachineNode {
        block: 1,
        direction: Direction::Right,
        chooser: Chooser::Left,
        flipped: false,
    };
    let to = MachineNode {
        block: 2,
        direction: Direction::Right,
        chooser: Chooser::Left,
        flipped: false,
    };
    let (src, (dst, op)) = from.delta(&to, &sb, &rb);
    assert_eq!(src, 28);
    assert_eq!(dst, 44);
    assert_eq!(op, Operation::Push(2));
}

#[test]
fn maximal_codels_keeps_all_extremes() {
    let pixels = vec![(0, 0), (1, 0), (1, 1), (0, 1)];
    let right = maximal_codels(&pixels, Direction::Right);
    assert_eq!(right, vec![(1, 0), (1, 1)]);
    let up = maximal_codels(&pixels, Direction::Up);
    assert_eq!(up, vec![(0, 0), (1, 0)]);
}

#[test]
fn exit_codel_is_the_unique_double_extreme() {
    // an L-shaped region
    let pixels = vec![(0, 0), (1, 0), (1, 1)];
    // travelling right, the Left chooser rotates to Up: furthest right,
    // then topmost
    assert_eq!(exit_codel(&pixels, Direction::Right, Chooser::Left), (1, 0));
    assert_eq!(exit_codel(&pixels, Direction::Right, Chooser::Right), (1, 1));
    assert_eq!(exit_codel(&pixels, Direction::Down, Chooser::Left), (1, 1));
    assert_eq!(exit_codel(&pixels, Direction::Up, Chooser::Left), (0, 0));
    assert_eq!(exit_codel(&pixels, Direction::Up, Chooser::Right), (1, 0));
    assert_eq!(exit_codel(&pixels, Direction::Left, Chooser::Left), (0, 0));
}
