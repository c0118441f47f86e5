use vstd::prelude::*;

use std::collections::HashMap;

use crate::block::Block;
use crate::chooser::Chooser;
use crate::colour::{spec_classify, Colour};
use crate::direction::Direction;
use crate::grid::{lemma_row_major_index, Grid};
use crate::machinenode::{index_parts, spec_index_parts, MachineNode};
use crate::protoprogram::ProtoProgram;

verus! {

broadcast use vstd::std_specs::hash::group_hash_axioms;

/// How far a pixel lies along a direction of travel: larger means further.
/// Up and Left negate the coordinate so that "extremal" is always "maximal".
pub open spec fn axis_value(p: (u32, u32), d: Direction) -> int {
    match d {
        Direction::Up => -(p.1 as int),
        Direction::Down => p.1 as int,
        Direction::Left => -(p.0 as int),
        Direction::Right => p.0 as int,
    }
}

/// A pixel of `s` that no other pixel of `s` exceeds along `d`.
pub open spec fn is_extremal(s: Seq<(u32, u32)>, d: Direction, p: (u32, u32)) -> bool {
    s.contains(p) && forall|q: (u32, u32)| s.contains(q) ==> axis_value(q, d) <= axis_value(p, d)
}

/// The largest axis position along `d` among the pixels of `s`.
pub open spec fn seq_axis_max(s: Seq<(u32, u32)>, d: Direction) -> int
    decreases s.len(),
{
    if s.len() <= 1 {
        axis_value(s[0], d)
    } else {
        let m0 = seq_axis_max(s.drop_last(), d);
        if axis_value(s.last(), d) > m0 {
            axis_value(s.last(), d)
        } else {
            m0
        }
    }
}

/// The pixels of `s` whose axis position along `d` is `m`, in `s`'s order.
pub open spec fn spec_keep_extremal(s: Seq<(u32, u32)>, d: Direction, m: int) -> Seq<(u32, u32)>
    decreases s.len(),
{
    if s.len() == 0 {
        Seq::empty()
    } else {
        let rest = spec_keep_extremal(s.drop_last(), d, m);
        if axis_value(s.last(), d) == m {
            rest.push(s.last())
        } else {
            rest
        }
    }
}

/// The pixels of `s` lying furthest along `d`, in `s`'s order.
pub open spec fn spec_maximal_codels(s: Seq<(u32, u32)>, d: Direction) -> Seq<(u32, u32)> {
    spec_keep_extremal(s, d, seq_axis_max(s, d))
}

/// Everything the extremal filter keeps came from the sequence and lies at
/// the filtered position.
proof fn lemma_keep_extremal_subset(s: Seq<(u32, u32)>, d: Direction, m: int, p: (u32, u32))
    requires
        spec_keep_extremal(s, d, m).contains(p),
    ensures
        s.contains(p),
        axis_value(p, d) == m,
    decreases s.len(),
{
    if s.len() > 0 {
        let rest = spec_keep_extremal(s.drop_last(), d, m);
        if axis_value(s.last(), d) == m && p == s.last() {
            assert(s.contains(p)) by {
                assert(s[s.len() - 1] == p);
            }
        } else {
            assert(rest.contains(p)) by {
                let j = choose|j: int|
                    0 <= j < spec_keep_extremal(s, d, m).len() && spec_keep_extremal(s, d, m)[j]
                        == p;
                if axis_value(s.last(), d) == m {
                    assert(j < rest.len());
                    assert(rest[j] == p);
                }
            }
            lemma_keep_extremal_subset(s.drop_last(), d, m, p);
            let k = choose|k: int| 0 <= k < s.drop_last().len() && s.drop_last()[k] == p;
            assert(s[k] == p);
        }
    }
}

/// Every pixel at the filtered position is kept.
proof fn lemma_keep_extremal_complete(s: Seq<(u32, u32)>, d: Direction, m: int, j: int)
    requires
        0 <= j < s.len(),
        axis_value(s[j], d) == m,
    ensures
        spec_keep_extremal(s, d, m).contains(s[j]),
    decreases s.len(),
{
    let rest = spec_keep_extremal(s.drop_last(), d, m);
    if j == s.len() - 1 {
        assert(spec_keep_extremal(s, d, m) == rest.push(s.last()));
        assert(spec_keep_extremal(s, d, m)[rest.len() as int] == s[j]);
    } else {
        lemma_keep_extremal_complete(s.drop_last(), d, m, j);
        let k = choose|k: int| 0 <= k < rest.len() && rest[k] == s.drop_last()[j];
        assert(spec_keep_extremal(s, d, m)[k] == s[j]);
    }
}

/// The extremal filter keeps a sequence free of duplicates.
proof fn lemma_keep_extremal_no_duplicates(s: Seq<(u32, u32)>, d: Direction, m: int)
    requires
        s.no_duplicates(),
    ensures
        spec_keep_extremal(s, d, m).no_duplicates(),
    decreases s.len(),
{
    if s.len() != 0 {
        lemma_keep_extremal_no_duplicates(s.drop_last(), d, m);
        let rest = spec_keep_extremal(s.drop_last(), d, m);
        if axis_value(s.last(), d) == m {
            assert(spec_keep_extremal(s, d, m) == rest.push(s.last()));
            assert forall|j: int| 0 <= j < rest.len() implies rest[j] != s.last() by {
                assert(rest.contains(rest[j]));
                lemma_keep_extremal_subset(s.drop_last(), d, m, rest[j]);
                let k = choose|k: int|
                    0 <= k < s.drop_last().len() && s.drop_last()[k] == rest[j];
                assert(s[k] == rest[j]);
            }
        }
    }
}

/// The pixels of `i` that lie furthest along `d`, kept in `i`'s order.
pub fn maximal_codels(i: &Vec<(u32, u32)>, d: Direction) -> (r: Vec<(u32, u32)>)
    requires
        i@.len() >= 1,
    ensures
        r@ == spec_maximal_codels(i@, d),
        r@.len() >= 1,
        forall|p: (u32, u32)| #[trigger] r@.contains(p) ==> i@.contains(p),
        forall|p: (u32, u32), q: (u32, u32)|
            r@.contains(p) && i@.contains(q) ==> axis_value(q, d) <= axis_value(p, d),
        forall|p: (u32, u32)| is_extremal(i@, d, p) ==> r@.contains(p),
        i@.no_duplicates() ==> r@.no_duplicates(),
{
    let ghost iv = i@;
    let mut m: i64 = axis_exec(i[0], d);
    let mut k: usize = 1;
    proof {
        assert(iv.take(1)[0] == iv[0]);
    }
    while k < i.len()
        invariant
            1 <= k <= iv.len(),
            i@ == iv,
            m == seq_axis_max(iv.take(k as int), d),
            exists|j: int| 0 <= j < k && m == axis_value(iv[j], d),
            forall|j: int| 0 <= j < k ==> axis_value(iv[j], d) <= m,
        decreases iv.len() - k,
    {
        let a = axis_exec(i[k], d);
        proof {
            assert(iv.take(k as int + 1).drop_last() == iv.take(k as int));
            assert(iv.take(k as int + 1).last() == iv[k as int]);
        }
        if a > m {
            m = a;
        }
        k += 1;
    }
    proof {
        assert(iv.take(iv.len() as int) == iv);
    }
    let mut r: Vec<(u32, u32)> = Vec::new();
    let mut k: usize = 0;
    while k < i.len()
        invariant
            0 <= k <= iv.len(),
            i@ == iv,
            m == seq_axis_max(iv, d),
            exists|j: int| 0 <= j < iv.len() && m == axis_value(iv[j], d),
            forall|j: int| 0 <= j < iv.len() ==> axis_value(iv[j], d) <= m,
            r@ == spec_keep_extremal(iv.take(k as int), d, m as int),
        decreases iv.len() - k,
    {
        let p = i[k];
        let a = axis_exec(p, d);
        proof {
            assert(iv.take(k as int + 1).drop_last() == iv.take(k as int));
            assert(iv.take(k as int + 1).last() == iv[k as int]);
        }
        if a == m {
            r.push(p);
        }
        k += 1;
    }
    proof {
        assert(iv.take(iv.len() as int) == iv);
        assert(r@ == spec_keep_extremal(iv, d, m as int));
        // the witness for the maximum is kept, so the result is non-empty
        let j = choose|j: int| 0 <= j < iv.len() && m == axis_value(iv[j], d);
        lemma_keep_extremal_complete(iv, d, m as int, j);
        assert(r@.contains(iv[j]));
        assert forall|p: (u32, u32)| #[trigger] r@.contains(p) implies iv.contains(p) by {
            lemma_keep_extremal_subset(iv, d, m as int, p);
        }
        assert forall|p: (u32, u32), q: (u32, u32)|
            r@.contains(p) && iv.contains(q) implies axis_value(q, d) <= axis_value(p, d) by {
            lemma_keep_extremal_subset(iv, d, m as int, p);
            let jq = choose|jq: int| 0 <= jq < iv.len() && iv[jq] == q;
            assert(axis_value(iv[jq], d) <= m);
        }
        assert forall|p: (u32, u32)| is_extremal(iv, d, p) implies r@.contains(p) by {
            let jp = choose|jp: int| 0 <= jp < iv.len() && iv[jp] == p;
            assert(axis_value(iv[j], d) <= axis_value(p, d));
            assert(axis_value(iv[jp], d) == m);
            lemma_keep_extremal_complete(iv, d, m as int, jp);
        }
        if iv.no_duplicates() {
            lemma_keep_extremal_no_duplicates(iv, d, m as int);
        }
    }
    r
}

/// The signed position of a pixel along `d`, as the executable twin of
/// `axis_value`.
fn axis_exec(p: (u32, u32), d: Direction) -> (a: i64)
    ensures
        a == axis_value(p, d),
{
    match d {
        Direction::Up => -(p.1 as i64),
        Direction::Down => p.1 as i64,
        Direction::Left => -(p.0 as i64),
        Direction::Right => p.0 as i64,
    }
}

/// The single pixel from which the pointer leaves a block: extremal along
/// the direction of travel, and among those extremal along the rotated
/// direction picked by the chooser.
pub open spec fn is_exit_pixel(
    s: Seq<(u32, u32)>,
    d: Direction,
    c: Chooser,
    p: (u32, u32),
) -> bool {
    &&& s.contains(p)
    &&& forall|q: (u32, u32)| s.contains(q) ==> axis_value(q, d) <= axis_value(p, d)
    &&& forall|q: (u32, u32)|
        s.contains(q) && axis_value(q, d) == axis_value(p, d) ==> axis_value(
            q,
            d.spec_rotate(c),
        ) <= axis_value(p, d.spec_rotate(c))
}

/// Two pixels that agree along a direction and along either of its
/// rotations are the same pixel: the two axes are perpendicular, so they
/// pin down both coordinates.
proof fn lemma_perpendicular_axes(p: (u32, u32), q: (u32, u32), d: Direction, c: Chooser)
    requires
        axis_value(p, d) == axis_value(q, d),
        axis_value(p, d.spec_rotate(c)) == axis_value(q, d.spec_rotate(c)),
    ensures
        p == q,
{
    assert(p.0 == q.0 && p.1 == q.1);
}

/// Resolves the exit codel of a pixel set by the two-stage extremal filter.
/// The second filter always yields exactly one pixel: the returned one, as
/// the uniqueness clause states.
pub fn exit_codel(pixels: &Vec<(u32, u32)>, d: Direction, c: Chooser) -> (p: (u32, u32))
    requires
        pixels@.len() >= 1,
        pixels@.no_duplicates(),
    ensures
        is_exit_pixel(pixels@, d, c, p),
        forall|q: (u32, u32)| is_exit_pixel(pixels@, d, c, q) ==> q == p,
{
    let filter1 = maximal_codels(pixels, d);
    let rot = d.rotate(c);
    let filter2 = maximal_codels(&filter1, rot);
    let p = filter2[0];
    proof {
        assert(filter2@.contains(p));
        assert(filter1@.contains(p));
        assert forall|q: (u32, u32)|
            pixels@.contains(q) && axis_value(q, d) == axis_value(p, d) implies axis_value(
            q,
            rot,
        ) <= axis_value(p, rot) by {
            assert(is_extremal(pixels@, d, q));
            assert(filter1@.contains(q));
        }
        assert forall|q: (u32, u32)| is_exit_pixel(pixels@, d, c, q) implies q == p by {
            assert(is_extremal(pixels@, d, q));
            assert(filter1@.contains(q));
            assert(axis_value(q, d) == axis_value(p, d));
            assert(axis_value(q, rot) <= axis_value(p, rot));
            assert(axis_value(p, rot) <= axis_value(q, rot));
            lemma_perpendicular_axes(p, q, d, c);
        }
    }
    p
}

/// The row-major index of a pixel in a grid `w` pixels wide.
pub open spec fn rm(p: (u32, u32), w: int) -> int {
    (p.1 as int) * w + (p.0 as int)
}

/// Distinct in-bounds pixels have distinct row-major indices.
proof fn lemma_rm_injective(p: (u32, u32), q: (u32, u32), w: int)
    requires
        p.0 < w,
        q.0 < w,
        rm(p, w) == rm(q, w),
    ensures
        p == q,
{
    assert(p.1 == q.1) by (nonlinear_arith)
        requires
            p.0 < w,
            q.0 < w,
            0 <= p.0,
            0 <= q.0,
            (p.1 as int) * w + (p.0 as int) == (q.1 as int) * w + (q.0 as int),
            0 <= p.1,
            0 <= q.1,
    ;
    assert(p.0 == q.0);
}

/// The mark bit a pixel occupies in the visited table.
spec fn mark_at(marks: Seq<bool>, w: int, x: u32, y: u32) -> bool {
    marks[(y as int) * w + (x as int)]
}

/// Number of set entries in a mark table.
spec fn count_marked(s: Seq<bool>) -> nat
    decreases s.len(),
{
    if s.len() == 0 {
        0
    } else {
        count_marked(s.drop_last()) + if s.last() {
            1nat
        } else {
            0nat
        }
    }
}

proof fn lemma_count_marked_le_len(s: Seq<bool>)
    ensures
        count_marked(s) <= s.len(),
    decreases s.len(),
{
    if s.len() > 0 {
        lemma_count_marked_le_len(s.drop_last());
    }
}

proof fn lemma_count_marked_update(s: Seq<bool>, k: int)
    requires
        0 <= k < s.len(),
        !s[k],
    ensures
        count_marked(s.update(k, true)) == count_marked(s) + 1,
    decreases s.len(),
{
    if k == s.len() - 1 {
        assert(s.update(k, true).drop_last() == s.drop_last());
        assert(s.update(k, true).last());
    } else {
        assert(s.update(k, true).drop_last() == s.drop_last().update(k, true));
        assert(s.update(k, true).last() == s.last());
        lemma_count_marked_update(s.drop_last(), k);
    }
}

/// A pixel coordinate packed into a single map key.
pub open spec fn pixel_key(p: (u32, u32)) -> u64 {
    ((p.0 as int) * 0x1_0000_0000 + (p.1 as int)) as u64
}

fn pixel_key_exec(p: (u32, u32)) -> (k: u64)
    ensures
        k == pixel_key(p),
{
    (p.0 as u64) * 0x1_0000_0000u64 + (p.1 as u64)
}

/// Packing a pixel coordinate loses nothing.
pub proof fn lemma_pixel_key_injective(p: (u32, u32), q: (u32, u32))
    requires
        pixel_key(p) == pixel_key(q),
    ensures
        p == q,
{
    assert(p.0 == q.0 && p.1 == q.1);
}

/// The segmented image: the blocks in discovery order, and a map sending
/// every owned pixel to the index of its block.
pub struct BlockImage {
    pub blocks: Vec<Block>,
    pub pixel_to_index: HashMap<u64, usize>,
}

impl BlockImage {
    /// Whether some block of the image holds the pixel `p`.
    pub open spec fn spec_owns(self, p: (u32, u32)) -> bool {
        exists|i: int| 0 <= i < self.blocks@.len() && self.blocks@[i].pixels@.contains(p)
    }

    /// Internal soundness: block ids match their position, each block is
    /// well formed, and the pixel map is exactly the ownership relation.
    /// Because the map sends each pixel to one index, the blocks' pixel
    /// sets are pairwise disjoint.
    pub open spec fn wf(self) -> bool {
        &&& forall|i: int| 0 <= i < self.blocks@.len() ==> (#[trigger] self.blocks@[i]).id == i
        &&& forall|i: int| 0 <= i < self.blocks@.len() ==> (#[trigger] self.blocks@[i]).wf()
        &&& forall|i: int, p: (u32, u32)|
            0 <= i < self.blocks@.len() && #[trigger] self.blocks@[i].pixels@.contains(p)
                ==> self.pixel_to_index@.contains_key(pixel_key(p))
                && self.pixel_to_index@[pixel_key(p)] == i
        &&& forall|k: u64| #[trigger]
            self.pixel_to_index@.contains_key(k) ==> exists|i: int, p: (u32, u32)|
                0 <= i < self.blocks@.len() && #[trigger] self.blocks@[i].pixels@.contains(p)
                    && pixel_key(p) == k && self.pixel_to_index@[k] == i
    }

    pub fn new() -> (bi: BlockImage)
        ensures
            bi.wf(),
            bi.blocks@.len() == 0,
    {
        BlockImage { blocks: Vec::new(), pixel_to_index: HashMap::new() }
    }

    /// Part of the partition law: within a well-formed image no pixel
    /// belongs to two distinct blocks.
    pub proof fn lemma_blocks_disjoint(self)
        requires
            self.wf(),
        ensures
            forall|i: int, j: int, p: (u32, u32)|
                0 <= i < self.blocks@.len() && 0 <= j < self.blocks@.len()
                    && #[trigger] self.blocks@[i].pixels@.contains(p)
                    && #[trigger] self.blocks@[j].pixels@.contains(p) ==> i == j,
    {
    }

    /// Appends a freshly discovered region as a block with the next id and
    /// records each of its pixels in the ownership map.
    pub fn insert_block(&mut self, p: &Vec<(u32, u32)>, c: &Colour)
        requires
            old(self).wf(),
            p@.len() >= 1,
            p@.no_duplicates(),
            c.wf(),
            forall|q: (u32, u32)| #[trigger] p@.contains(q) ==> !old(self).spec_owns(q),
        ensures
            final(self).wf(),
            final(self).blocks@.len() == old(self).blocks@.len() + 1,
            forall|i: int|
                0 <= i < old(self).blocks@.len() ==> final(self).blocks@[i] == old(
                    self,
                ).blocks@[i],
            final(self).blocks@.last().id == old(self).blocks@.len(),
            final(self).blocks@.last().colour == *c,
            final(self).blocks@.last().pixels@ == p@,
            forall|q: (u32, u32)|
                #[trigger] final(self).spec_owns(q) <==> (old(self).spec_owns(q) || p@.contains(
                    q,
                )),
    {
        proof {
            assert forall|q: (u32, u32)| p@.contains(q) implies !old(
                self,
            ).pixel_to_index@.contains_key(pixel_key(q)) by {
                if old(self).pixel_to_index@.contains_key(pixel_key(q)) {
                    let (i, q2) = choose|i: int, q2: (u32, u32)|
                        0 <= i < old(self).blocks@.len() && #[trigger] old(
                            self,
                        ).blocks@[i].pixels@.contains(q2) && pixel_key(q2) == pixel_key(q) && old(
                            self,
                        ).pixel_to_index@[pixel_key(q)] == i;
                    lemma_pixel_key_injective(q2, q);
                }
            }
        }
        let ghost old_self = *self;
        let pos = self.blocks.len();
        let mut px: Vec<(u32, u32)> = Vec::new();
        let mut k: usize = 0;
        while k < p.len()
            invariant
                0 <= k <= p@.len(),
                px@ == p@.take(k as int),
            decreases p@.len() - k,
        {
            px.push(p[k]);
            proof {
                assert(p@.take(k as int + 1) == p@.take(k as int).push(p@[k as int]));
            }
            k += 1;
        }
        proof {
            assert(p@.take(p@.len() as int) == p@);
        }
        self.blocks.push(Block { id: pos, colour: *c, pixels: px });
        let mut k: usize = 0;
        while k < p.len()
            invariant
                0 <= k <= p@.len(),
                self.blocks@ == old_self.blocks@.push(
                    Block { id: old_self.blocks@.len() as usize, colour: *c, pixels: self.blocks@.last().pixels },
                ),
                self.blocks@.last().pixels@ == p@,
                pos == old_self.blocks@.len(),
                forall|q: (u32, u32)|
                    p@.contains(q) ==> !old_self.pixel_to_index@.contains_key(pixel_key(q)),
                forall|j: int|
                    0 <= j < k ==> self.pixel_to_index@.contains_key(pixel_key(#[trigger] p@[j]))
                        && self.pixel_to_index@[pixel_key(p@[j])] == pos,
                forall|key: u64|
                    old_self.pixel_to_index@.contains_key(key)
                        ==> #[trigger] self.pixel_to_index@.contains_key(key)
                        && self.pixel_to_index@[key] == old_self.pixel_to_index@[key],
                forall|key: u64| #[trigger]
                    self.pixel_to_index@.contains_key(key)
                        ==> old_self.pixel_to_index@.contains_key(key) || exists|j: int|
                        0 <= j < k && pixel_key(#[trigger] p@[j]) == key,
            decreases p@.len() - k,
        {
            let key = pixel_key_exec(p[k]);
            proof {
                assert(p@.contains(p@[k as int]));
            }
            self.pixel_to_index.insert(key, pos);
            k += 1;
        }
        proof {
            let new_self = *self;
            assert forall|i: int, q: (u32, u32)|
                0 <= i < new_self.blocks@.len() && #[trigger] new_self.blocks@[i].pixels@.contains(
                    q,
                ) implies new_self.pixel_to_index@.contains_key(pixel_key(q))
                && new_self.pixel_to_index@[pixel_key(q)] == i by {
                if i < old_self.blocks@.len() {
                    assert(old_self.blocks@[i].pixels@.contains(q));
                } else {
                    let j = choose|j: int| 0 <= j < p@.len() && p@[j] == q;
                    assert(new_self.pixel_to_index@.contains_key(pixel_key(p@[j])));
                }
            }
            assert forall|key: u64| #[trigger]
                new_self.pixel_to_index@.contains_key(key) implies exists|i: int, q: (u32, u32)|
                0 <= i < new_self.blocks@.len() && #[trigger] new_self.blocks@[i].pixels@.contains(
                    q,
                ) && pixel_key(q) == key && new_self.pixel_to_index@[key] == i by {
                if old_self.pixel_to_index@.contains_key(key) {
                    let (i, q) = choose|i: int, q: (u32, u32)|
                        0 <= i < old_self.blocks@.len() && #[trigger] old_self.blocks@[i].pixels@.contains(
                            q,
                        ) && pixel_key(q) == key && old_self.pixel_to_index@[key] == i;
                    assert(new_self.blocks@[i].pixels@.contains(q));
                } else {
                    let j = choose|j: int| 0 <= j < p@.len() && pixel_key(#[trigger] p@[j]) == key;
                    let i = new_self.blocks@.len() - 1;
                    assert(new_self.blocks@[i].pixels@.contains(p@[j]));
                }
            }
            assert forall|q: (u32, u32)| #[trigger]
                self.spec_owns(q) <==> (old_self.spec_owns(q) || p@.contains(q)) by {
                if self.spec_owns(q) {
                    let i = choose|i: int|
                        0 <= i < self.blocks@.len() && #[trigger] self.blocks@[i].pixels@.contains(
                            q,
                        );
                    if i < old_self.blocks@.len() {
                        assert(old_self.blocks@[i].pixels@.contains(q));
                        assert(old_self.spec_owns(q));
                    } else {
                        assert(p@.contains(q));
                    }
                }
                if old_self.spec_owns(q) {
                    let i = choose|i: int|
                        0 <= i < old_self.blocks@.len()
                            && #[trigger] old_self.blocks@[i].pixels@.contains(q);
                    assert(self.blocks@[i].pixels@.contains(q));
                    assert(self.spec_owns(q));
                }
                if p@.contains(q) {
                    let i = self.blocks@.len() - 1;
                    assert(self.blocks@[i].pixels@.contains(q));
                    assert(self.spec_owns(q));
                }
            }
        }
    }

    /// Whether `p` has already been assigned to a block.
    pub fn contains_pixel(&self, p: &(u32, u32)) -> (r: bool)
        requires
            self.wf(),
        ensures
            r == self.spec_owns(*p),
    {
        let key = pixel_key_exec(*p);
        let r = self.pixel_to_index.contains_key(&key);
        proof {
            if r {
                let (i, q) = choose|i: int, q: (u32, u32)|
                    0 <= i < self.blocks@.len() && #[trigger] self.blocks@[i].pixels@.contains(q)
                        && pixel_key(q) == key && self.pixel_to_index@[key] == i;
                lemma_pixel_key_injective(q, *p);
                assert(self.spec_owns(*p));
            } else {
                if self.spec_owns(*p) {
                    let i = choose|i: int|
                        0 <= i < self.blocks@.len() && #[trigger] self.blocks@[i].pixels@.contains(
                            *p,
                        );
                    assert(self.pixel_to_index@.contains_key(pixel_key(*p)));
                }
            }
        }
        r
    }

    /// The block owning `p`, if `p` has been assigned to one.
    pub fn block_by_pixel(&self, p: &(u32, u32)) -> (r: Option<&Block>)
        requires
            self.wf(),
        ensures
            match r {
                Some(b) => self.spec_owns(*p) && b.pixels@.contains(*p) && b.id
                    < self.blocks@.len() && *b == self.blocks@[b.id as int],
                None => !self.spec_owns(*p),
            },
    {
        let key = pixel_key_exec(*p);
        match self.pixel_to_index.get(&key) {
            Some(i) => {
                let idx = *i;
                proof {
                    let (i2, q) = choose|i2: int, q: (u32, u32)|
                        0 <= i2 < self.blocks@.len() && #[trigger] self.blocks@[i2].pixels@.contains(
                            q,
                        ) && pixel_key(q) == key && self.pixel_to_index@[key] == i2;
                    lemma_pixel_key_injective(q, *p);
                    assert(self.blocks@[idx as int].pixels@.contains(*p));
                    assert(self.spec_owns(*p));
                }
                Some(&self.blocks[idx])
            },
            None => {
                proof {
                    if self.spec_owns(*p) {
                        let i = choose|i: int|
                            0 <= i < self.blocks@.len()
                                && #[trigger] self.blocks@[i].pixels@.contains(*p);
                        assert(self.pixel_to_index@.contains_key(pixel_key(*p)));
                    }
                }
                None
            },
        }
    }

    /// Segments a pixel grid into blocks by repeated flood fill in a fixed
    /// row-major scan order, so that block ids are assigned the same way on
    /// every run. The result partitions the grid: every in-bounds pixel
    /// belongs to a block (coverage below) and to only one
    /// (`lemma_blocks_disjoint`); every block is uniform in its raw RGB
    /// value and carries the classification of that value.
    #[verifier::loop_isolation(false)]
    pub fn from_grid(g: &Grid) -> (bi: BlockImage)
        requires
            g.wf(),
        ensures
            bi.wf(),
            forall|p: (u32, u32)| #[trigger]
                bi.spec_owns(p) <==> g.in_bounds(p.0 as int, p.1 as int),
            forall|i: int|
                0 <= i < bi.blocks@.len() ==> block_matches_grid(*g, #[trigger] bi.blocks@[i]),
            forall|i: int| 0 <= i < bi.blocks@.len() ==> block_connected(#[trigger] bi.blocks@[i]),
            blocks_maximal(*g, bi),
            blocks_in_scan_order(*g, bi),
            16 * bi.blocks@.len() <= usize::MAX,
    {
        let w = g.width;
        let h = g.height;
        proof {
            lemma_row_major_index(w as int, h as int, (w - 1) as int, (h - 1) as int);
        }
        let n: usize = (w as usize) * (h as usize);
        let mut marks: Vec<bool> = Vec::new();
        while marks.len() < n
            invariant
                marks@.len() <= n,
                forall|j: int| 0 <= j < marks@.len() ==> !marks@[j],
            decreases n - marks@.len(),
        {
            marks.push(false);
        }
        proof {
            lemma_count_all_false(marks@);
            assert forall|px: u32, py: u32| px < w && py < h implies !mark_at(
                marks@,
                w as int,
                px,
                py,
            ) by {
                lemma_row_major_index(w as int, h as int, px as int, py as int);
            }
        }
        let mut bi = BlockImage::new();
        let mut y: u32 = 0;
        while y < h
            invariant
                y <= h,
                seg_inv(*g, bi, marks@),
                forall|p: (u32, u32)|
                    g.in_bounds(p.0 as int, p.1 as int) && p.1 < y ==> #[trigger] bi.spec_owns(p),
                forall|i: int|
                    0 <= i < bi.blocks@.len() ==> rm(
                        (#[trigger] bi.blocks@[i]).pixels@[0],
                        w as int,
                    ) < (y as int) * (w as int),
            decreases h - y,
        {
            let mut x: u32 = 0;
            while x < w
                invariant
                    x <= w,
                    y < h,
                    seg_inv(*g, bi, marks@),
                    forall|p: (u32, u32)|
                        g.in_bounds(p.0 as int, p.1 as int) && (p.1 < y || (p.1 == y && p.0 < x))
                            ==> #[trigger] bi.spec_owns(p),
                    forall|i: int|
                        0 <= i < bi.blocks@.len() ==> rm(
                            (#[trigger] bi.blocks@[i]).pixels@[0],
                            w as int,
                        ) < (y as int) * (w as int) + (x as int),
                decreases w - x,
            {
                proof {
                    lemma_row_major_index(w as int, h as int, x as int, y as int);
                }
                let idx: usize = (y as usize) * (w as usize) + (x as usize);
                let ghost bi_pre = bi;
                if !marks[idx] {
                    proof {
                        assert(!mark_at(marks@, w as int, x, y));
                        assert(rm((x, y), w as int) == (y as int) * (w as int) + (x as int));
                        assert forall|p: (u32, u32)|
                            g.in_bounds(p.0 as int, p.1 as int) && rm(p, w as int) < rm(
                            (x, y),
                            w as int,
                        ) implies #[trigger] bi.spec_owns(p) by {
                            lemma_rm_before_scan(p, x as int, y as int, w as int);
                        }
                    }
                    fill_region(g, &mut bi, &mut marks, x, y);
                }
                proof {
                    assert(mark_at(marks@, w as int, x, y));
                    assert(bi.spec_owns((x, y)));
                    assert forall|p: (u32, u32)|
                        g.in_bounds(p.0 as int, p.1 as int) && (p.1 < y || (p.1 == y && p.0 < x
                            + 1)) implies #[trigger] bi.spec_owns(p) by {
                        if p.1 == y && p.0 == x {
                            assert(p == (x, y));
                        }
                    }
                    assert forall|i: int| 0 <= i < bi.blocks@.len() implies rm(
                        (#[trigger] bi.blocks@[i]).pixels@[0],
                        w as int,
                    ) < (y as int) * (w as int) + ((x + 1) as int) by {
                        if i < bi_pre.blocks@.len() {
                            assert(bi.blocks@[i] == bi_pre.blocks@[i]);
                        } else {
                            assert(bi.blocks@[i].pixels@[0] == (x, y));
                        }
                    }
                }
                x += 1;
            }
            proof {
                assert(((y as int) + 1) * (w as int) == (y as int) * (w as int) + (w as int))
                    by (nonlinear_arith);
            }
            y += 1;
        }
        proof {
            assert forall|p: (u32, u32)| #[trigger]
                bi.spec_owns(p) <==> g.in_bounds(p.0 as int, p.1 as int) by {
                if bi.spec_owns(p) {
                    let i = choose|i: int|
                        0 <= i < bi.blocks@.len() && #[trigger] bi.blocks@[i].pixels@.contains(p);
                    assert(block_matches_grid(*g, bi.blocks@[i]));
                }
            }
            lemma_count_marked_le_len(marks@);
        }
        bi
    }
}

/// Two pixels sharing a grid edge.
pub open spec fn adjacent(p: (u32, u32), q: (u32, u32)) -> bool {
    ||| p.0 == q.0 && (p.1 + 1 == q.1 || q.1 + 1 == p.1)
    ||| p.1 == q.1 && (p.0 + 1 == q.0 || q.0 + 1 == p.0)
}

/// A walk inside the pixel list `px` from `from` to `to`, moving one grid
/// edge at a time.
pub open spec fn is_path_in(
    path: Seq<(u32, u32)>,
    px: Seq<(u32, u32)>,
    from: (u32, u32),
    to: (u32, u32),
) -> bool {
    &&& path.len() >= 1
    &&& path[0] == from
    &&& path.last() == to
    &&& forall|i: int| 0 <= i < path.len() ==> px.contains(#[trigger] path[i])
    &&& forall|i: int| 0 <= i < path.len() - 1 ==> adjacent(#[trigger] path[i], path[i + 1])
}

/// Reachability inside a pixel list by edge-to-edge steps.
pub open spec fn connected_in(px: Seq<(u32, u32)>, from: (u32, u32), to: (u32, u32)) -> bool {
    exists|path: Seq<(u32, u32)>| is_path_in(path, px, from, to)
}

/// A block is 4-connected: every pixel is reachable from the first one
/// without leaving the block.
pub open spec fn block_connected(b: Block) -> bool {
    forall|q: (u32, u32)| #[trigger]
        b.pixels@.contains(q) ==> connected_in(b.pixels@, b.pixels@[0], q)
}

/// Reachability survives growing the pixel list.
proof fn lemma_connected_monotone(
    px1: Seq<(u32, u32)>,
    px2: Seq<(u32, u32)>,
    from: (u32, u32),
    to: (u32, u32),
)
    requires
        connected_in(px1, from, to),
        forall|r: (u32, u32)| px1.contains(r) ==> px2.contains(r),
    ensures
        connected_in(px2, from, to),
{
    let path = choose|path: Seq<(u32, u32)>| is_path_in(path, px1, from, to);
    assert forall|i: int| 0 <= i < path.len() implies px2.contains(#[trigger] path[i]) by {
        assert(px1.contains(path[i]));
    }
    assert(is_path_in(path, px2, from, to));
}

/// Blocks are discovered in row-major scan order: each block's recorded
/// seed (its first pixel) is the row-major-least pixel of the block, and
/// block ids increase with their seeds' scan positions.
pub open spec fn blocks_in_scan_order(g: Grid, bi: BlockImage) -> bool {
    &&& forall|i: int, q: (u32, u32)|
        0 <= i < bi.blocks@.len() && #[trigger] bi.blocks@[i].pixels@.contains(q) ==> rm(
            bi.blocks@[i].pixels@[0],
            g.width as int,
        ) <= rm(q, g.width as int)
    &&& forall|i: int, j: int|
        #![trigger bi.blocks@[i], bi.blocks@[j]]
        0 <= i < j < bi.blocks@.len() ==> rm(bi.blocks@[i].pixels@[0], g.width as int) < rm(
            bi.blocks@[j].pixels@[0],
            g.width as int,
        )
}

/// A pixel with a smaller row-major index lies on an earlier row, or
/// earlier on the same row.
proof fn lemma_rm_before_scan(p: (u32, u32), xi: int, yi: int, w: int)
    requires
        0 <= p.0 < w,
        0 <= xi < w,
        0 <= yi,
        rm(p, w) < yi * w + xi,
    ensures
        p.1 < yi || (p.1 == yi && p.0 < xi),
{
    if p.1 > yi {
        assert(false) by (nonlinear_arith)
            requires
                (p.1 as int) * w + (p.0 as int) < yi * w + xi,
                p.1 >= yi + 1,
                0 <= p.0,
                xi < w,
                0 <= yi,
                0 < w,
        ;
    }
}

/// Blocks are maximal: a pixel adjacent to a block's pixel and of the same
/// raw RGB value belongs to that very block.
pub open spec fn blocks_maximal(g: Grid, bi: BlockImage) -> bool {
    forall|i: int, q1: (u32, u32), q2: (u32, u32)|
        #![trigger bi.blocks@[i].pixels@.contains(q1), adjacent(q1, q2)]
        0 <= i < bi.blocks@.len() && bi.blocks@[i].pixels@.contains(q1) && g.in_bounds(
            q2.0 as int,
            q2.1 as int,
        ) && adjacent(q1, q2) && g.spec_rgb(q2.0 as int, q2.1 as int) == g.spec_rgb(
            q1.0 as int,
            q1.1 as int,
        ) ==> bi.blocks@[i].pixels@.contains(q2)
}

/// A block drawn faithfully from a grid: non-empty, every pixel in bounds
/// and of the same raw RGB value as the block's first pixel, and the
/// block's colour the classification of that value.
pub open spec fn block_matches_grid(g: Grid, b: Block) -> bool {
    &&& 1 <= b.pixels@.len() <= g.width * g.height
    &&& forall|q: (u32, u32)| #[trigger]
        b.pixels@.contains(q) ==> g.in_bounds(q.0 as int, q.1 as int) && g.spec_rgb(
            q.0 as int,
            q.1 as int,
        ) == g.spec_rgb(b.pixels@[0].0 as int, b.pixels@[0].1 as int)
    &&& b.colour == spec_classify(
        g.spec_rgb(b.pixels@[0].0 as int, b.pixels@[0].1 as int).0,
        g.spec_rgb(b.pixels@[0].0 as int, b.pixels@[0].1 as int).1,
        g.spec_rgb(b.pixels@[0].0 as int, b.pixels@[0].1 as int).2,
    )
}

/// The running state of segmentation: a sound image whose blocks are drawn
/// from the grid, a visited table that mirrors ownership exactly, and no
/// more blocks than visited pixels.
spec fn seg_inv(g: Grid, bi: BlockImage, marks: Seq<bool>) -> bool {
    &&& bi.wf()
    &&& marks.len() == g.width * g.height
    &&& count_marked(marks) <= marks.len()
    &&& forall|x: u32, y: u32|
        x < g.width && y < g.height ==> (#[trigger] mark_at(marks, g.width as int, x, y)
            <==> bi.spec_owns((x, y)))
    &&& forall|i: int|
        0 <= i < bi.blocks@.len() ==> block_matches_grid(g, #[trigger] bi.blocks@[i])
    &&& forall|i: int| 0 <= i < bi.blocks@.len() ==> block_connected(#[trigger] bi.blocks@[i])
    &&& blocks_maximal(g, bi)
    &&& blocks_in_scan_order(g, bi)
    &&& bi.blocks@.len() <= count_marked(marks)
}

proof fn lemma_count_all_false(s: Seq<bool>)
    requires
        forall|j: int| 0 <= j < s.len() ==> !s[j],
    ensures
        count_marked(s) == 0,
    decreases s.len(),
{
    if s.len() > 0 {
        lemma_count_all_false(s.drop_last());
    }
}

fn rgb_eq(a: (u8, u8, u8), b: (u8, u8, u8)) -> (r: bool)
    ensures
        r == (a == b),
{
    a.0 == b.0 && a.1 == b.1 && a.2 == b.2
}

/// Pushes every in-bounds neighbour of `p` that shares its raw RGB value
/// onto the worklist: afterwards the worklist holds exactly its old
/// entries plus all such neighbours.
proof fn lemma_contains_extends(s: Seq<(u32, u32)>, t: Seq<(u32, u32)>, q: (u32, u32))
    requires
        s.contains(q),
        s.len() <= t.len(),
        forall|i: int| 0 <= i < s.len() ==> t[i] == s[i],
    ensures
        t.contains(q),
{
    let j = choose|j: int| 0 <= j < s.len() && s[j] == q;
    assert(t[j] == q);
}

fn push_neighbours(g: &Grid, stack: &mut Vec<(u32, u32)>, p: (u32, u32))
    requires
        g.wf(),
        g.in_bounds(p.0 as int, p.1 as int),
    ensures
        forall|q: (u32, u32)|
            old(stack)@.contains(q) ==> #[trigger] final(stack)@.contains(q),
        forall|q: (u32, u32)| #[trigger]
            final(stack)@.contains(q) ==> old(stack)@.contains(q) || (g.in_bounds(
                q.0 as int,
                q.1 as int,
            ) && adjacent(p, q) && g.spec_rgb(q.0 as int, q.1 as int) == g.spec_rgb(
                p.0 as int,
                p.1 as int,
            )),
        forall|q: (u32, u32)|
            g.in_bounds(q.0 as int, q.1 as int) && adjacent(p, q) && g.spec_rgb(
                q.0 as int,
                q.1 as int,
            ) == g.spec_rgb(p.0 as int, p.1 as int) ==> #[trigger] final(stack)@.contains(q),
{
    let ghost s0 = stack@;
    let rgb = g.rgb(p.0, p.1);
    if p.0 > 0 {
        let q = (p.0 - 1, p.1);
        if rgb_eq(g.rgb(q.0, q.1), rgb) {
            stack.push(q);
        }
    }
    let ghost s1 = stack@;
    if p.0 + 1 < g.width {
        let q = (p.0 + 1, p.1);
        if rgb_eq(g.rgb(q.0, q.1), rgb) {
            stack.push(q);
        }
    }
    let ghost s2 = stack@;
    if p.1 > 0 {
        let q = (p.0, p.1 - 1);
        if rgb_eq(g.rgb(q.0, q.1), rgb) {
            stack.push(q);
        }
    }
    let ghost s3 = stack@;
    if p.1 + 1 < g.height {
        let q = (p.0, p.1 + 1);
        if rgb_eq(g.rgb(q.0, q.1), rgb) {
            stack.push(q);
        }
    }
    proof {
        assert forall|q: (u32, u32)| s0.contains(q) implies #[trigger] stack@.contains(q) by {
            let j = choose|j: int| 0 <= j < s0.len() && s0[j] == q;
            assert(stack@[j] == q);
        }
        assert forall|q: (u32, u32)| #[trigger]
            stack@.contains(q) implies s0.contains(q) || (g.in_bounds(q.0 as int, q.1 as int)
            && adjacent(p, q) && g.spec_rgb(q.0 as int, q.1 as int) == g.spec_rgb(
            p.0 as int,
            p.1 as int,
        )) by {
            let j = choose|j: int| 0 <= j < stack@.len() && stack@[j] == q;
            if j < s0.len() {
                assert(s0[j] == q);
            }
        }
        assert forall|q: (u32, u32)|
            g.in_bounds(q.0 as int, q.1 as int) && adjacent(p, q) && g.spec_rgb(
            q.0 as int,
            q.1 as int,
        ) == g.spec_rgb(p.0 as int, p.1 as int) implies #[trigger] stack@.contains(q) by {
            if q.1 == p.1 && q.0 + 1 == p.0 {
                assert(q == (((p.0 - 1) as u32), p.1));
                assert(s1 == s0.push(q));
                assert(s1.contains(q)) by {
                    assert(s1[s1.len() - 1] == q);
                }
                lemma_contains_extends(s1, s2, q);
                lemma_contains_extends(s2, s3, q);
                lemma_contains_extends(s3, stack@, q);
            } else if q.1 == p.1 && p.0 + 1 == q.0 {
                assert(q == ((p.0 + 1) as u32, p.1));
                assert(s2 == s1.push(q));
                assert(s2.contains(q)) by {
                    assert(s2[s2.len() - 1] == q);
                }
                lemma_contains_extends(s2, s3, q);
                lemma_contains_extends(s3, stack@, q);
            } else if q.0 == p.0 && q.1 + 1 == p.1 {
                assert(q == (p.0, ((p.1 - 1) as u32)));
                assert(s3 == s2.push(q));
                assert(s3.contains(q)) by {
                    assert(s3[s3.len() - 1] == q);
                }
                lemma_contains_extends(s3, stack@, q);
            } else {
                assert(q.0 == p.0 && p.1 + 1 == q.1);
                assert(q == (p.0, (p.1 + 1) as u32));
                assert(stack@ == s3.push(q));
                assert(stack@[stack@.len() - 1] == q);
            }
        }
    }
}

/// Marking one freshly visited pixel keeps the visited table mirroring
/// ownership-or-collected exactly.
proof fn lemma_fill_sync_step(
    g: Grid,
    bi0: BlockImage,
    marks0: Seq<bool>,
    marks: Seq<bool>,
    pixels0: Seq<(u32, u32)>,
    pixels: Seq<(u32, u32)>,
    p: (u32, u32),
)
    requires
        p.0 < g.width,
        p.1 < g.height,
        marks0.len() == g.width * g.height,
        marks == marks0.update(rm(p, g.width as int), true),
        pixels == pixels0.push(p),
        forall|x: u32, y: u32|
            x < g.width && y < g.height ==> (#[trigger] mark_at(marks0, g.width as int, x, y)
                <==> (bi0.spec_owns((x, y)) || pixels0.contains((x, y)))),
    ensures
        forall|x: u32, y: u32|
            x < g.width && y < g.height ==> (#[trigger] mark_at(marks, g.width as int, x, y) <==> (
            bi0.spec_owns((x, y)) || pixels.contains((x, y)))),
{
    let w = g.width as int;
    assert forall|x: u32, y: u32|
        x < g.width && y < g.height implies (#[trigger] mark_at(marks, w, x, y) <==> (
        bi0.spec_owns((x, y)) || pixels.contains((x, y)))) by {
        lemma_row_major_index(w, g.height as int, x as int, y as int);
        lemma_row_major_index(w, g.height as int, p.0 as int, p.1 as int);
        if rm((x, y), w) == rm(p, w) {
            lemma_rm_injective((x, y), p, w);
            assert(pixels[pixels.len() - 1] == p);
            assert(pixels.contains((x, y)));
        } else {
            assert(mark_at(marks, w, x, y) == mark_at(marks0, w, x, y));
            assert(pixels.contains((x, y)) == (pixels0.contains((x, y)) || (x, y) == p)) by {
                if pixels0.contains((x, y)) {
                    let j = choose|j: int| 0 <= j < pixels0.len() && pixels0[j] == (x, y);
                    assert(pixels[j] == (x, y));
                } else if (x, y) == p {
                    assert(pixels[pixels.len() - 1] == (x, y));
                } else if pixels.contains((x, y)) {
                    let j = choose|j: int| 0 <= j < pixels.len() && pixels[j] == (x, y);
                    assert(pixels0[j] == (x, y));
                }
            }
        }
    }
}

/// Collecting one more pixel that touches the region (or is its seed)
/// keeps every collected pixel path-connected to the seed.
proof fn lemma_fill_connected_step(
    pixels0: Seq<(u32, u32)>,
    pixels: Seq<(u32, u32)>,
    p: (u32, u32),
    seed: (u32, u32),
)
    requires
        pixels == pixels0.push(p),
        forall|q: (u32, u32)| #[trigger]
            pixels0.contains(q) ==> connected_in(pixels0, seed, q),
        p == seed || exists|pp: (u32, u32)| pixels0.contains(pp) && adjacent(pp, p),
    ensures
        forall|q: (u32, u32)| #[trigger] pixels.contains(q) ==> connected_in(pixels, seed, q),
{
    assert(pixels[pixels.len() - 1] == p);
    assert forall|r: (u32, u32)| pixels0.contains(r) implies pixels.contains(r) by {
        let jj = choose|jj: int| 0 <= jj < pixels0.len() && pixels0[jj] == r;
        assert(pixels[jj] == r);
    }
    assert forall|q: (u32, u32)| #[trigger]
        pixels.contains(q) implies connected_in(pixels, seed, q) by {
        let j = choose|j: int| 0 <= j < pixels.len() && pixels[j] == q;
        if j < pixels0.len() {
            assert(pixels0.contains(q)) by {
                assert(pixels0[j] == q);
            }
            lemma_connected_monotone(pixels0, pixels, seed, q);
        } else {
            assert(q == p);
            if p == seed {
                let path = seq![p];
                assert(is_path_in(path, pixels, seed, p)) by {
                    assert(path[0] == p && path.last() == p);
                    assert(pixels.contains(p));
                }
            } else {
                let pp = choose|pp: (u32, u32)| pixels0.contains(pp) && adjacent(pp, p);
                assert(connected_in(pixels0, seed, pp));
                let path0 = choose|path0: Seq<(u32, u32)>| is_path_in(path0, pixels0, seed, pp);
                let path = path0.push(p);
                assert(is_path_in(path, pixels, seed, p)) by {
                    assert(path[0] == path0[0] && path.last() == p);
                    assert forall|i: int|
                        0 <= i < path.len() implies pixels.contains(#[trigger] path[i]) by {
                        if i < path0.len() {
                            assert(path[i] == path0[i]);
                            assert(pixels0.contains(path0[i]));
                        } else {
                            assert(path[i] == p);
                        }
                    }
                    assert forall|i: int|
                        0 <= i < path.len() - 1 implies adjacent(#[trigger] path[i], path[i + 1]) by {
                        if i < path0.len() - 1 {
                            assert(path[i] == path0[i] && path[i + 1] == path0[i + 1]);
                        } else {
                            assert(path[i] == path0.last() && path0.last() == pp);
                            assert(path[i + 1] == p);
                        }
                    }
                }
            }
        }
    }
}

/// Flood-fills the maximal 4-connected region of pixels sharing the seed's
/// raw RGB value, starting at an unvisited seed, and appends it as a fresh
/// block.
#[verifier::loop_isolation(false)]
#[verifier::rlimit(100)]
fn fill_region(g: &Grid, bi: &mut BlockImage, marks: &mut Vec<bool>, sx: u32, sy: u32)
    requires
        g.wf(),
        seg_inv(*g, *old(bi), old(marks)@),
        sx < g.width,
        sy < g.height,
        !mark_at(old(marks)@, g.width as int, sx, sy),
        forall|p: (u32, u32)|
            g.in_bounds(p.0 as int, p.1 as int) && rm(p, g.width as int) < rm(
                (sx, sy),
                g.width as int,
            ) ==> #[trigger] old(bi).spec_owns(p),
        forall|i: int|
            0 <= i < old(bi).blocks@.len() ==> rm(
                (#[trigger] old(bi).blocks@[i]).pixels@[0],
                g.width as int,
            ) < rm((sx, sy), g.width as int),
    ensures
        seg_inv(*g, *final(bi), final(marks)@),
        final(marks)@.len() == old(marks)@.len(),
        final(bi).spec_owns((sx, sy)),
        forall|p: (u32, u32)| old(bi).spec_owns(p) ==> #[trigger] final(bi).spec_owns(p),
        final(bi).blocks@.len() == old(bi).blocks@.len() + 1,
        forall|i: int|
            0 <= i < old(bi).blocks@.len() ==> final(bi).blocks@[i] == old(bi).blocks@[i],
        final(bi).blocks@.last().pixels@[0] == (sx, sy),
{
    let w = g.width;
    let h = g.height;
    let rgb = g.rgb(sx, sy);
    let colour = Colour::from_rgb(rgb.0, rgb.1, rgb.2);
    let ghost bi0 = *bi;
    let ghost start_count = count_marked(marks@);
    let mut stack: Vec<(u32, u32)> = Vec::new();
    stack.push((sx, sy));
    let mut pixels: Vec<(u32, u32)> = Vec::new();
    while stack.len() > 0
        invariant
            marks@.len() == g.width * g.height,
            count_marked(marks@) <= marks@.len(),
            count_marked(marks@) == start_count + pixels@.len(),
            pixels@.no_duplicates(),
            forall|x: u32, y: u32|
                x < w && y < h ==> (#[trigger] mark_at(marks@, w as int, x, y) <==> (
                bi0.spec_owns((x, y)) || pixels@.contains((x, y)))),
            forall|q: (u32, u32)| #[trigger]
                pixels@.contains(q) ==> q.0 < w && q.1 < h && g.spec_rgb(q.0 as int, q.1 as int)
                    == rgb && !bi0.spec_owns(q),
            pixels@.len() >= 1 ==> pixels@[0] == (sx, sy),
            forall|q: (u32, u32)| #[trigger]
                stack@.contains(q) ==> q.0 < w && q.1 < h && g.spec_rgb(q.0 as int, q.1 as int)
                    == rgb,
            forall|q: (u32, u32)| #[trigger]
                pixels@.contains(q) ==> connected_in(pixels@, (sx, sy), q),
            forall|q: (u32, u32)| #[trigger]
                stack@.contains(q) ==> (q == (sx, sy) || exists|pp: (u32, u32)|
                    pixels@.contains(pp) && adjacent(pp, q)),
            forall|q1: (u32, u32), q2: (u32, u32)|
                #![trigger pixels@.contains(q1), adjacent(q1, q2)]
                pixels@.contains(q1) && q2.0 < w && q2.1 < h && adjacent(q1, q2) && g.spec_rgb(
                    q2.0 as int,
                    q2.1 as int,
                ) == rgb ==> (mark_at(marks@, w as int, q2.0, q2.1) || stack@.contains(q2)),
            pixels@.len() == 0 ==> stack@ =~= seq![(sx, sy)] && !mark_at(
                marks@,
                w as int,
                sx,
                sy,
            ),
        decreases marks@.len() - count_marked(marks@), stack@.len(),
    {
        let ghost stack_pre = stack@;
        let p = match stack.pop() {
            Some(p) => p,
            None => vstd::pervasive::unreached(),
        };
        proof {
            assert(stack_pre.contains(p)) by {
                assert(stack_pre[stack_pre.len() - 1] == p);
            }
        }
        let ghost stack_mid = stack@;
        proof {
            lemma_row_major_index(w as int, h as int, p.0 as int, p.1 as int);
        }
        let pidx: usize = (p.1 as usize) * (w as usize) + (p.0 as usize);
        if !marks[pidx] {
            proof {
                assert(!mark_at(marks@, w as int, p.0, p.1));
                assert(!pixels@.contains(p));
                assert(!bi0.spec_owns(p));
                lemma_count_marked_update(marks@, pidx as int);
            }
            let ghost marks0 = marks@;
            let ghost pixels0 = pixels@;
            marks.set(pidx, true);
            pixels.push(p);
            proof {
                lemma_count_marked_le_len(marks@);
                assert(pidx as int == rm(p, w as int));
                lemma_fill_sync_step(*g, bi0, marks0, marks@, pixels0, pixels@, p);
                assert(pixels@[0] == pixels0.add(seq![p])[0]);
                assert(pixels@[pixels@.len() - 1] == p);
                assert forall|r: (u32, u32)| pixels0.contains(r) implies pixels@.contains(r) by {
                    let jj = choose|jj: int| 0 <= jj < pixels0.len() && pixels0[jj] == r;
                    assert(pixels@[jj] == r);
                }
                lemma_fill_connected_step(pixels0, pixels@, p, (sx, sy));
                assert forall|q: (u32, u32)| #[trigger]
                    pixels@.contains(q) implies q.0 < w && q.1 < h && g.spec_rgb(
                    q.0 as int,
                    q.1 as int,
                ) == rgb && !bi0.spec_owns(q) by {
                    let j = choose|j: int| 0 <= j < pixels@.len() && pixels@[j] == q;
                    if j < pixels0.len() {
                        assert(pixels0.contains(q)) by {
                            assert(pixels0[j] == q);
                        }
                    } else {
                        assert(q == p);
                    }
                }
            }
            push_neighbours(g, &mut stack, p);
            proof {
                assert forall|q: (u32, u32)| #[trigger]
                    stack@.contains(q) implies q.0 < w && q.1 < h && g.spec_rgb(
                    q.0 as int,
                    q.1 as int,
                ) == rgb && (q == (sx, sy) || exists|pp: (u32, u32)|
                    pixels@.contains(pp) && adjacent(pp, q)) by {
                    if stack_mid.contains(q) {
                        let j = choose|j: int| 0 <= j < stack_mid.len() && stack_mid[j] == q;
                        assert(stack_pre.contains(q)) by {
                            assert(stack_pre[j] == q);
                        }
                        if q != (sx, sy) {
                            let pp = choose|pp: (u32, u32)|
                                pixels0.contains(pp) && adjacent(pp, q);
                            assert(pixels@.contains(pp) && adjacent(pp, q));
                        }
                    } else {
                        assert(pixels@.contains(p) && adjacent(p, q));
                    }
                }
                assert forall|q1: (u32, u32), q2: (u32, u32)|
                    #![trigger pixels@.contains(q1), adjacent(q1, q2)]
                    pixels@.contains(q1) && q2.0 < w && q2.1 < h && adjacent(q1, q2)
                        && g.spec_rgb(q2.0 as int, q2.1 as int) == rgb implies (mark_at(
                    marks@,
                    w as int,
                    q2.0,
                    q2.1,
                ) || stack@.contains(q2)) by {
                    let j = choose|j: int| 0 <= j < pixels@.len() && pixels@[j] == q1;
                    if j < pixels0.len() {
                        assert(pixels0.contains(q1)) by {
                            assert(pixels0[j] == q1);
                        }
                        if mark_at(marks0, w as int, q2.0, q2.1) {
                            lemma_row_major_index(w as int, h as int, q2.0 as int, q2.1 as int);
                            assert(mark_at(marks@, w as int, q2.0, q2.1));
                        } else if stack_pre.contains(q2) {
                            if q2 == p {
                                lemma_row_major_index(
                                    w as int,
                                    h as int,
                                    q2.0 as int,
                                    q2.1 as int,
                                );
                                assert(mark_at(marks@, w as int, q2.0, q2.1));
                            } else {
                                let jj = choose|jj: int|
                                    0 <= jj < stack_pre.len() && stack_pre[jj] == q2;
                                assert(jj < stack_pre.len() - 1);
                                assert(stack_mid[jj] == q2);
                                assert(stack_mid.contains(q2));
                            }
                        }
                    } else {
                        assert(q1 == p);
                        assert(g.in_bounds(q2.0 as int, q2.1 as int));
                    }
                }
            }
        } else {
            proof {
                assert forall|q: (u32, u32)| #[trigger]
                    stack@.contains(q) implies q.0 < w && q.1 < h && g.spec_rgb(
                    q.0 as int,
                    q.1 as int,
                ) == rgb && (q == (sx, sy) || exists|pp: (u32, u32)|
                    pixels@.contains(pp) && adjacent(pp, q)) by {
                    let j = choose|j: int| 0 <= j < stack@.len() && stack@[j] == q;
                    assert(stack_pre.contains(q)) by {
                        assert(stack_pre[j] == q);
                    }
                }
                assert forall|q1: (u32, u32), q2: (u32, u32)|
                    #![trigger pixels@.contains(q1), adjacent(q1, q2)]
                    pixels@.contains(q1) && q2.0 < w && q2.1 < h && adjacent(q1, q2)
                        && g.spec_rgb(q2.0 as int, q2.1 as int) == rgb implies (mark_at(
                    marks@,
                    w as int,
                    q2.0,
                    q2.1,
                ) || stack@.contains(q2)) by {
                    if !mark_at(marks@, w as int, q2.0, q2.1) {
                        assert(stack_pre.contains(q2));
                        if q2 == p {
                            assert(mark_at(marks@, w as int, p.0, p.1));
                        } else {
                            let jj = choose|jj: int|
                                0 <= jj < stack_pre.len() && stack_pre[jj] == q2;
                            assert(jj < stack_pre.len() - 1);
                            assert(stack@[jj] == q2);
                        }
                    }
                }
            }
        }
    }
    proof {
        assert(pixels@.len() >= 1);
        assert(pixels@.contains((sx, sy))) by {
            assert(pixels@[0] == (sx, sy));
        }
    }
    bi.insert_block(&pixels, &colour);
    proof {
        assert forall|x: u32, y: u32|
            x < w && y < h implies (#[trigger] mark_at(marks@, w as int, x, y) <==> bi.spec_owns(
            (x, y),
        )) by {}
        assert forall|i: int|
            0 <= i < bi.blocks@.len() implies block_matches_grid(*g, #[trigger] bi.blocks@[i]) by {
            if i < bi0.blocks@.len() {
                assert(bi.blocks@[i] == bi0.blocks@[i]);
            } else {
                assert(bi.blocks@[i].pixels@ == pixels@);
                assert(pixels@.contains(pixels@[0]));
                assert(bi.blocks@[i].pixels@[0] == (sx, sy));
                assert(pixels@.len() <= g.width * g.height);
            }
        }
        assert forall|i: int|
            0 <= i < bi.blocks@.len() implies block_connected(#[trigger] bi.blocks@[i]) by {
            if i < bi0.blocks@.len() {
                assert(bi.blocks@[i] == bi0.blocks@[i]);
            } else {
                assert(bi.blocks@[i].pixels@ == pixels@);
                assert(bi.blocks@[i].pixels@[0] == (sx, sy));
            }
        }
        assert forall|i: int, q: (u32, u32)|
            0 <= i < bi.blocks@.len() && #[trigger] bi.blocks@[i].pixels@.contains(q) implies rm(
            bi.blocks@[i].pixels@[0],
            g.width as int,
        ) <= rm(q, g.width as int) by {
            if i < bi0.blocks@.len() {
                assert(bi.blocks@[i] == bi0.blocks@[i]);
                assert(bi0.blocks@[i].pixels@.contains(q));
            } else {
                assert(bi.blocks@[i].pixels@ == pixels@);
                assert(pixels@.contains(q));
                assert(!bi0.spec_owns(q));
                assert(g.in_bounds(q.0 as int, q.1 as int));
                assert(bi.blocks@[i].pixels@[0] == (sx, sy));
            }
        }
        assert forall|i: int, j: int|
            #![trigger bi.blocks@[i], bi.blocks@[j]]
            0 <= i < j < bi.blocks@.len() implies rm(bi.blocks@[i].pixels@[0], g.width as int)
            < rm(bi.blocks@[j].pixels@[0], g.width as int) by {
            if j < bi0.blocks@.len() {
                assert(bi.blocks@[i] == bi0.blocks@[i]);
                assert(bi.blocks@[j] == bi0.blocks@[j]);
                assert(rm(bi0.blocks@[i].pixels@[0], g.width as int) < rm(
                    bi0.blocks@[j].pixels@[0],
                    g.width as int,
                ));
            } else {
                assert(bi.blocks@[i] == bi0.blocks@[i]);
                assert(bi.blocks@[j].pixels@[0] == (sx, sy));
                assert(rm((#[trigger] bi0.blocks@[i]).pixels@[0], g.width as int) < rm(
                    (sx, sy),
                    g.width as int,
                ));
            }
        }
        assert forall|i: int, q1: (u32, u32), q2: (u32, u32)|
            #![trigger bi.blocks@[i].pixels@.contains(q1), adjacent(q1, q2)]
            0 <= i < bi.blocks@.len() && bi.blocks@[i].pixels@.contains(q1) && g.in_bounds(
                q2.0 as int,
                q2.1 as int,
            ) && adjacent(q1, q2) && g.spec_rgb(q2.0 as int, q2.1 as int) == g.spec_rgb(
                q1.0 as int,
                q1.1 as int,
            ) implies bi.blocks@[i].pixels@.contains(q2) by {
            if i < bi0.blocks@.len() {
                assert(bi.blocks@[i] == bi0.blocks@[i]);
                assert(bi0.blocks@[i].pixels@.contains(q2));
            } else {
                assert(bi.blocks@[i].pixels@ == pixels@);
                assert(pixels@.contains(q1));
                assert(g.spec_rgb(q1.0 as int, q1.1 as int) == rgb);
                // the fill left no unvisited same-colour neighbour behind
                assert(mark_at(marks@, w as int, q2.0, q2.1) || stack@.contains(q2));
                assert(stack@.len() == 0);
                assert(bi0.spec_owns(q2) || pixels@.contains(q2));
                if bi0.spec_owns(q2) {
                    // an older block owning q2 would already have absorbed q1
                    let jo = choose|jo: int|
                        0 <= jo < bi0.blocks@.len() && #[trigger] bi0.blocks@[jo].pixels@.contains(
                            q2,
                        );
                    assert(adjacent(q2, q1));
                    assert(g.in_bounds(q1.0 as int, q1.1 as int));
                    assert(bi0.blocks@[jo].pixels@.contains(q1));
                    assert(bi0.spec_owns(q1));
                    assert(false);
                }
            }
        }
    }
}


/// The unique exit codel of a pixel set for a (direction, chooser) pair.
pub open spec fn spec_exit_pixel(s: Seq<(u32, u32)>, d: Direction, c: Chooser) -> (u32, u32) {
    choose|p: (u32, u32)| is_exit_pixel(s, d, c, p)
}

/// The grid coordinate one step beyond `p` in direction `d`, or nothing
/// where that coordinate is not representable; a coordinate past the far
/// edge of the grid is representable but owned by no block, so both cases
/// end in a bounce.
pub open spec fn spec_step(p: (u32, u32), d: Direction) -> Option<(u32, u32)> {
    match d {
        Direction::Up => if p.1 == 0 {
            None
        } else {
            Some((p.0, (p.1 - 1) as u32))
        },
        Direction::Down => if p.1 == u32::MAX {
            None
        } else {
            Some((p.0, (p.1 + 1) as u32))
        },
        Direction::Left => if p.0 == 0 {
            None
        } else {
            Some(((p.0 - 1) as u32, p.1))
        },
        Direction::Right => if p.0 == u32::MAX {
            None
        } else {
            Some(((p.0 + 1) as u32, p.1))
        },
    }
}

fn step_exec(p: (u32, u32), d: Direction) -> (r: Option<(u32, u32)>)
    ensures
        r == spec_step(p, d),
{
    match d {
        Direction::Up => if p.1 == 0 {
            None
        } else {
            Some((p.0, p.1 - 1))
        },
        Direction::Down => if p.1 == u32::MAX {
            None
        } else {
            Some((p.0, p.1 + 1))
        },
        Direction::Left => if p.0 == 0 {
            None
        } else {
            Some((p.0 - 1, p.1))
        },
        Direction::Right => if p.0 == u32::MAX {
            None
        } else {
            Some((p.0 + 1, p.1))
        },
    }
}

/// One slot of the built automaton: nothing for a black block's states,
/// the bounce-protocol successor for every other state.
pub open spec fn spec_build_entry(bi: BlockImage, id: int) -> Option<MachineNode> {
    if bi.blocks@[id / 16].colour.is_black() {
        None
    } else {
        let (d, c, f) = spec_index_parts(id % 16);
        Some(
            bi.spec_successor(
                MachineNode { block: (id / 16) as usize, direction: d, chooser: c, flipped: f },
            ),
        )
    }
}

/// The raw automaton built over a segmented image: a successor for each of
/// the 16 pointer states of every block.
pub open spec fn spec_build(bi: BlockImage) -> Seq<Option<MachineNode>> {
    Seq::new(16 * bi.blocks@.len(), |id: int| spec_build_entry(bi, id))
}

impl BlockImage {
    /// The index of the block that owns `q`, read off the pixel map.
    pub open spec fn spec_owner(self, q: (u32, u32)) -> int {
        self.pixel_to_index@[pixel_key(q)] as int
    }

    /// The successor the bounce protocol assigns to pointer state `s`:
    /// step one pixel beyond the exit codel; moving off the grid or into a
    /// black block bounces, anything else enters the block at that pixel.
    pub open spec fn spec_successor(self, s: MachineNode) -> MachineNode {
        let e = spec_exit_pixel(self.blocks@[s.block as int].pixels@, s.direction, s.chooser);
        match spec_step(e, s.direction) {
            None => s.spec_redirect(),
            Some(q) => if self.spec_owns(q) && !self.blocks@[self.spec_owner(q)].colour.is_black() {
                MachineNode {
                    block: self.spec_owner(q) as usize,
                    direction: s.direction,
                    chooser: s.chooser,
                    flipped: false,
                }
            } else {
                s.spec_redirect()
            },
        }
    }

    /// Builds the raw pointer automaton: one successor for each of the 16
    /// pointer states of every non-black block, exactly as `spec_build`
    /// describes. Black blocks get no states of their own and are never
    /// entered, so the decoder downstream never sees a black block.
    #[verifier::loop_isolation(false)]
    pub fn to_protoprogram(self) -> (pp: ProtoProgram)
        requires
            self.wf(),
            16 * self.blocks@.len() <= usize::MAX,
            forall|i: int|
                0 <= i < self.blocks@.len() ==> (#[trigger] self.blocks@[i]).pixels@.len()
                    <= i64::MAX,
        ensures
            pp.wf(),
            pp.blocks@ == self.blocks@,
            pp.next@ == spec_build(self),
    {
        let nblocks = self.blocks.len();
        let total = 16 * nblocks;
        let mut next: Vec<Option<MachineNode>> = Vec::new();
        let mut id: usize = 0;
        while id < total
            invariant
                next@.len() == id,
                id <= total,
                forall|j: int| 0 <= j < id ==> next@[j] == spec_build_entry(self, j),
                forall|j: int|
                    0 <= j < id ==> ((#[trigger] next@[j]) matches Some(m) ==> m.block < nblocks
                        && !self.blocks@[m.block as int].colour.is_black()
                        && !self.blocks@[j / 16].colour.is_black()),
            decreases total - id,
        {
            let b = id / 16;
            let ri = id % 16;
            let (d, c, f) = index_parts(ri);
            if matches!(self.blocks[b].colour, Colour::Black) {
                next.push(None);
            } else {
                let node = MachineNode { block: b, direction: d, chooser: c, flipped: f };
                let e = exit_codel(&self.blocks[b].pixels, d, c);
                let t = step_exec(e, d);
                let succ = match t {
                    None => node.redirect(),
                    Some(q) => match self.block_by_pixel(&q) {
                        None => node.redirect(),
                        Some(tb) => {
                            if matches!(tb.colour, Colour::Black) {
                                node.redirect()
                            } else {
                                MachineNode {
                                    block: tb.id,
                                    direction: d,
                                    chooser: c,
                                    flipped: false,
                                }
                            }
                        },
                    },
                };
                proof {
                    let px = self.blocks@[b as int].pixels@;
                    assert(is_exit_pixel(px, d, c, e));
                    assert(spec_exit_pixel(px, d, c) == e) by {
                        let w = spec_exit_pixel(px, d, c);
                        assert(is_exit_pixel(px, d, c, w));
                    }
                    match t {
                        None => {},
                        Some(q) => {
                            if self.spec_owns(q) {
                                assert(self.pixel_to_index@.contains_key(pixel_key(q))) by {
                                    let i = choose|i: int|
                                        0 <= i < self.blocks@.len()
                                            && #[trigger] self.blocks@[i].pixels@.contains(q);
                                }
                            }
                        },
                    }
                    assert(succ == self.spec_successor(node));
                    assert(spec_build_entry(self, id as int) == Some(succ));
                }
                next.push(Some(succ));
            }
            id += 1;
        }
        proof {
            assert(next@ =~= spec_build(self));
        }
        ProtoProgram { blocks: self.blocks, next }
    }
}

} // verus!
