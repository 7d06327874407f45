//! What a data-parallel run of the subdivision needs to size its passes:
//! workgroup grids, the lengths of a hierarchical scan's levels, and the
//! records that such a run keeps per cell and per block.
use crate::geometry::rect::{Rect, RectView};
use vstd::prelude::*;

verus! {

/// The number of items that one workgroup handles.
pub const WG_SIZE: u32 = 2;

/// `a` divided by `b`, rounded up.
pub open spec fn ceil_div(a: int, b: int) -> int {
    (a + b - 1) / b
}

/// The first extent of the grid for `needed` workgroups: as many as are
/// needed, at most `max_dim`, at least one.
pub open spec fn grid_x(needed: int, max_dim: int) -> int {
    let m = if needed <= max_dim { needed } else { max_dim };
    if m >= 1 {
        m
    } else {
        1
    }
}

/// The second extent: the rows of `grid_x` workgroups that are needed, at
/// most `max_dim`.
pub open spec fn grid_y(needed: int, max_dim: int) -> int {
    let rows = ceil_div(needed, grid_x(needed, max_dim));
    if rows <= max_dim {
        rows
    } else {
        max_dim
    }
}

/// The third extent: the layers of `grid_x` by `grid_y` workgroups that are
/// needed.
pub open spec fn grid_z(needed: int, max_dim: int) -> int {
    ceil_div(needed, grid_x(needed, max_dim) * grid_y(needed, max_dim))
}

/// Splits `workgroups_needed` workgroups over a grid of three extents, none
/// above `max_dim`, that holds them all.
pub fn split_dispatch_3d(workgroups_needed: u32, max_dim: u32) -> (r: [u32; 3])
    requires
        workgroups_needed >= 1,
        max_dim >= 1,
        workgroups_needed + grid_x(workgroups_needed as int, max_dim as int) <= u32::MAX,
        grid_z(workgroups_needed as int, max_dim as int) <= max_dim,
    ensures
        r[0] == grid_x(workgroups_needed as int, max_dim as int),
        r[1] == grid_y(workgroups_needed as int, max_dim as int),
        r[2] == grid_z(workgroups_needed as int, max_dim as int),
        1 <= r[0] <= max_dim,
        1 <= r[1] <= max_dim,
        1 <= r[2] <= max_dim,
        r[0] * r[1] * r[2] >= workgroups_needed,
{
    let m = if workgroups_needed <= max_dim { workgroups_needed } else { max_dim };
    let x = if m >= 1 { m } else { 1 };
    let remaining_after_x = (workgroups_needed + x - 1) / x;
    let y = if remaining_after_x <= max_dim { remaining_after_x } else { max_dim };
    proof {
        lemma_ceil_div(workgroups_needed as int, x as int);
    }
    assert(1 <= x * y <= 0xFFFF_FFFF * 0xFFFF_FFFF) by (nonlinear_arith)
        requires
            1 <= x <= 0xFFFF_FFFF,
            1 <= y <= 0xFFFF_FFFF,
    ;
    let xy = (x as u64) * (y as u64);
    let z = ((workgroups_needed as u64) + xy - 1) / xy;
    proof {
        lemma_ceil_div(workgroups_needed as int, xy as int);
        assert(x * y * z == z * (x * y)) by (nonlinear_arith);
    }
    [x, y, z as u32]
}

/// Rounding up: the quotient is the least number of `b`s that hold `a`.
proof fn lemma_ceil_div(a: int, b: int)
    requires
        a >= 1,
        b >= 1,
    ensures
        ceil_div(a, b) >= 1,
        ceil_div(a, b) * b >= a,
        (ceil_div(a, b) - 1) * b < a,
{
    let q = ceil_div(a, b);
    vstd::arithmetic::div_mod::lemma_fundamental_div_mod(a + b - 1, b);
    vstd::arithmetic::div_mod::lemma_mod_bound(a + b - 1, b);
    assert(b * q == q * b) by (nonlinear_arith);
    assert((q - 1) * b == q * b - b) by (nonlinear_arith);
    if q < 1 {
        assert(q * b <= 0) by (nonlinear_arith)
            requires
                q <= 0,
                b >= 1,
        ;
    }
}

/// The grid for `items` items, `WG_SIZE` to a workgroup; no items still take
/// one workgroup.
pub fn dispatch_for_items(items: u32, max_dim: u32) -> (r: [u32; 3])
    requires
        max_dim >= 1,
        workgroups_for(items as int) + grid_x(workgroups_for(items as int), max_dim as int)
            <= u32::MAX,
        grid_z(workgroups_for(items as int), max_dim as int) <= max_dim,
    ensures
        r[0] == grid_x(workgroups_for(items as int), max_dim as int),
        r[1] == grid_y(workgroups_for(items as int), max_dim as int),
        r[2] == grid_z(workgroups_for(items as int), max_dim as int),
        r[0] * r[1] * r[2] * WG_SIZE >= items,
{
    let at_least_one = if items >= 1 { items } else { 1 };
    let wg = at_least_one / WG_SIZE + at_least_one % WG_SIZE;
    let r = split_dispatch_3d(wg, max_dim);
    assert(r[0] * r[1] * r[2] * 2 >= items) by (nonlinear_arith)
        requires
            r[0] * r[1] * r[2] >= wg,
            wg * 2 >= items,
    ;
    r
}

/// The number of workgroups for `items` items: half of them, rounded up, and
/// one at least.
pub open spec fn workgroups_for(items: int) -> int {
    ceil_div(if items >= 1 { items } else { 1 }, WG_SIZE as int)
}

/// The lengths of the levels of a hierarchical scan over `initial` items, at
/// most `levels` of them: each level is the one before, divided by `WG_SIZE`
/// and rounded up, and a level of one item or none is the last.
pub open spec fn level_counts(initial: int, levels: nat) -> Seq<int>
    decreases levels,
{
    if levels == 0 {
        seq![]
    } else if initial <= 1 {
        seq![initial]
    } else {
        seq![initial] + level_counts(ceil_div(initial, WG_SIZE as int), (levels - 1) as nat)
    }
}

/// Compute the number of elements at each hierarchical scan level.
/// Starting from `initial` elements, each level reduces by WG_SIZE.
pub fn hierarchical_level_counts(initial: u32, levels: usize) -> (out: Vec<u32>)
    ensures
        out@.len() == level_counts(initial as int, levels as nat).len(),
        forall|i: int|
            0 <= i < out@.len() ==> (#[trigger] out@[i]) as int == level_counts(
                initial as int,
                levels as nat,
            )[i],
{
    let mut out: Vec<u32> = Vec::new();
    let mut n = initial;
    let mut done: usize = 0;
    let ghost whole = level_counts(initial as int, levels as nat);
    let mut last = false;
    while done < levels && !last
        invariant
            done <= levels,
            whole == level_counts(initial as int, levels as nat),
            out@.len() == done,
            forall|i: int| 0 <= i < out@.len() ==> (#[trigger] out@[i]) as int == whole[i],
            !last ==> whole == Seq::new(done as nat, |i: int| out@[i] as int) + level_counts(
                n as int,
                (levels - done) as nat,
            ),
            last ==> whole.len() == done,
        decreases levels - done,
    {
        let ghost mapped = Seq::new(done as nat, |i: int| out@[i] as int);
        out.push(n);
        done += 1;
        let ghost mapped2 = Seq::new(done as nat, |i: int| out@[i] as int);
        if n <= 1 {
            proof {
                assert(level_counts(n as int, (levels - done + 1) as nat) =~= seq![n as int]);
                assert(whole =~= mapped + seq![n as int]);
            }
            last = true;
        } else {
            proof {
                let rest = level_counts(ceil_div(n as int, 2), (levels - done) as nat);
                assert(level_counts(n as int, (levels - done + 1) as nat) =~= seq![n as int] + rest);
                assert(whole =~= mapped + (seq![n as int] + rest));
                assert(mapped2 =~= mapped + seq![n as int]);
                assert(whole =~= mapped2 + rest);
            }
            n = n / WG_SIZE + n % WG_SIZE;
        }
    }
    proof {
        if !last {
            assert(level_counts(n as int, 0) =~= Seq::<int>::empty());
        }
    }
    out
}

/// The state that one level of a data-parallel subdivision reads and
/// leaves: the number of entries and the split threshold.
#[derive(Debug, Copy, Clone)]
pub struct SplitResultInfo {
    pub cell_entries_length: u32,
    // Minimum entry count threshold for splitting a cell further.
    pub min_seg: u32,
}

/// The summary of one block of a hierarchical winding scan: the paths of its
/// first and last record, whether all its records share one path, and the
/// running windings at its tail.
#[derive(Debug, Copy, Clone)]
pub struct WindingBlockInfo {
    pub first_path_idx: u32,
    pub last_path_idx: u32,
    pub all_same_path: u32,
    pub tail_winding: [i32; 4],
}

/// What a data-parallel run keeps for each cell: its bounds, its middle, and
/// where its entries are.
#[derive(Debug, Copy, Clone)]
pub struct CellMetadata {
    bbox_ltrb: [i32; 4],
    mid: [i32; 2],
    entry_start: u32,
    entry_count: u32,
    abstract_count: u32,
}

impl CellMetadata {
    /// The bounds were taken from a rectangle, so they are ordered.
    #[verifier::type_invariant]
    pub closed spec fn wf(self) -> bool {
        self.bbox_ltrb[0] <= self.bbox_ltrb[2] && self.bbox_ltrb[1] <= self.bbox_ltrb[3]
    }

    /// The bounds of the cell.
    pub closed spec fn bounds(self) -> RectView {
        RectView {
            left: self.bbox_ltrb[0] as int,
            top: self.bbox_ltrb[1] as int,
            right: self.bbox_ltrb[2] as int,
            bottom: self.bbox_ltrb[3] as int,
        }
    }

    /// The index of the cell's first entry.
    pub closed spec fn spec_entry_start(self) -> u32 {
        self.entry_start
    }

    /// The number of the cell's entries.
    pub closed spec fn spec_entry_count(self) -> u32 {
        self.entry_count
    }

    /// The record of a cell with bounds `rect` whose `entry_count` entries
    /// start at `entry_start`.
    pub fn new(rect: &Rect, entry_start: u32, entry_count: u32) -> (r: Self)
        ensures
            r.bounds() == rect@,
            r.spec_entry_start() == entry_start,
            r.spec_entry_count() == entry_count,
    {
        proof {
            rect.lemma_wf();
        }
        let left = rect.left();
        Self {
            bbox_ltrb: [left, rect.top(), rect.right(), rect.bottom()],
            mid: rect.mid_point(),
            entry_start,
            entry_count,
            // Root starts from abstract entries only; child cells are updated later.
            abstract_count: entry_count,
        }
    }

    /// The bounds of the cell: left, top, right, bottom.
    pub fn bbox_ltrb(&self) -> (r: [i32; 4])
        ensures
            r[0] == self.bounds().left,
            r[1] == self.bounds().top,
            r[2] == self.bounds().right,
            r[3] == self.bounds().bottom,
    {
        self.bbox_ltrb
    }

    /// The index of the cell's first entry.
    pub fn entry_start(&self) -> (r: u32)
        ensures
            r == self.spec_entry_start(),
    {
        self.entry_start
    }

    /// The number of the cell's entries.
    pub fn entry_count(&self) -> (r: u32)
        ensures
            r == self.spec_entry_count(),
    {
        self.entry_count
    }

    /// The bounds of the cell as a rectangle.
    pub fn bbox_rect(&self) -> (r: Rect)
        ensures
            r@ == self.bounds(),
    {
        proof {
            use_type_invariant(self);
        }
        Rect::from_ltrb(
            self.bbox_ltrb[0],
            self.bbox_ltrb[1],
            self.bbox_ltrb[2],
            self.bbox_ltrb[3],
        ).unwrap()
    }
}

} // verus!
