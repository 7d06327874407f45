//! The first pass of a subdivision: one split record per parent entry, which
//! says which children a segment reaches, where it leaves a shortcut, and what
//! winding it adds to each child.
use crate::abstract_segment::AbstractLineSegment;
use crate::cell_entry::{
    down, fill, records, spec_has_down, spec_has_fill, spec_has_up, up, CellEntry, SplitData,
    SplitEntry, SplitRecord, ABSTRACT, BOTTOM_LEFT, BOTTOM_RIGHT, NONE_U32, TOP_LEFT, TOP_RIGHT,
    WINDING_INCREMENT,
};
use crate::classify::EdgeIntersectionInfo;
use crate::geometry::point::Point;
use crate::geometry::rect::{Rect, RectView};
use vstd::prelude::*;

verus! {

/// `+1` for a segment whose end is above its start, else `-1`.
pub open spec fn vertical_step(seg: AbstractLineSegment) -> int {
    if seg.p0.y > seg.p1.y {
        1
    } else {
        -1
    }
}

/// `+1` for a segment whose end is right of its start, else `-1`.
pub open spec fn horizontal_step(seg: AbstractLineSegment) -> int {
    if seg.p0.x < seg.p1.x {
        1
    } else {
        -1
    }
}

/// The child of a cell with middle `mid` that owns the point `p`: points on
/// the middle column belong to the left, points on the middle row to the top.
pub open spec fn child_of(mid: Point, p: Point) -> u32 {
    if p.x <= mid.x {
        if p.y <= mid.y {
            TOP_LEFT
        } else {
            BOTTOM_LEFT
        }
    } else if p.y <= mid.y {
        TOP_RIGHT
    } else {
        BOTTOM_RIGHT
    }
}

/// An endpoint of `seg` lies in the closed cell `bound` and belongs to `cell`.
pub open spec fn endpoint_in(seg: AbstractLineSegment, bound: RectView, mid: Point, cell: u32) -> bool {
    ||| bound.contains(seg.p0.x as int, seg.p0.y as int) && child_of(mid, seg.p0) == cell
    ||| bound.contains(seg.p1.x as int, seg.p1.y as int) && child_of(mid, seg.p1) == cell
}

impl EdgeIntersectionInfo {
    /// A crossed edge borders `cell`.
    pub open spec fn touches(self, cell: u32) -> bool {
        if cell == TOP_LEFT {
            self.cross5 || self.cross7 || self.cross8 || self.cross10
        } else if cell == TOP_RIGHT {
            self.cross6 || self.cross8 || self.cross9 || self.cross11
        } else if cell == BOTTOM_LEFT {
            self.cross0 || self.cross2 || self.cross3 || self.cross5
        } else {
            self.cross1 || self.cross3 || self.cross4 || self.cross6
        }
    }

    /// The edge at the bottom of the column right of `cell` is crossed: the
    /// segment leaves `cell`'s row to the right of `cell`.
    pub open spec fn leaves(self, cell: u32) -> bool {
        if cell == TOP_LEFT {
            self.cross8
        } else if cell == TOP_RIGHT {
            self.cross9
        } else if cell == BOTTOM_LEFT {
            self.cross3
        } else {
            self.cross4
        }
    }

    /// The ray to the far column along the top of `cell`'s row, from `cell`'s
    /// right edge, sees a flip.
    pub open spec fn upper_ray(self, cell: u32) -> bool {
        if cell == TOP_LEFT {
            self.cross15
        } else if cell == TOP_RIGHT {
            self.cross14
        } else if cell == BOTTOM_LEFT {
            self.cross16
        } else {
            self.cross13
        }
    }

    /// The ray to the far column along the bottom of `cell`'s row, from
    /// `cell`'s right edge, sees a flip.
    pub open spec fn lower_ray(self, cell: u32) -> bool {
        if cell == TOP_LEFT {
            self.cross16
        } else if cell == TOP_RIGHT {
            self.cross13
        } else if cell == BOTTOM_LEFT {
            self.cross17
        } else {
            self.cross12
        }
    }

    /// How many crossings right of `cell`, on the bottom of its row, count for
    /// `cell` with the segment's vertical step: the one on the sibling's edge
    /// (left column only) and the one beyond the parent.
    pub open spec fn row_crossings(self, cell: u32) -> int {
        if cell == TOP_LEFT {
            (if self.cross6 { 1int } else { 0 }) + (if self.cross13 { 1int } else { 0 })
        } else if cell == TOP_RIGHT {
            if self.cross13 { 1 } else { 0 }
        } else if cell == BOTTOM_LEFT {
            (if self.cross1 { 1int } else { 0 }) + (if self.cross12 { 1int } else { 0 })
        } else {
            if self.cross12 { 1 } else { 0 }
        }
    }

    /// The segment leaves `cell` and neither ray sees it again: `cell` gets a
    /// shortcut marker.
    pub open spec fn marks(self, cell: u32) -> bool {
        self.leaves(cell) && !self.upper_ray(cell) && !self.lower_ray(cell)
    }

    /// The segment leaves `cell` and only the lower ray sees it again: `cell`
    /// gets the segment's horizontal step as winding.
    pub open spec fn turns(self, cell: u32) -> bool {
        self.leaves(cell) && !self.upper_ray(cell) && self.lower_ray(cell)
    }
}

/// What a shortcut marker on the parent entry adds to the winding of `cell`.
///
/// The marker counts when the shortcut base is at or right of the parent's
/// right edge, below its top, and at or below the middle row; then the top
/// row gets `-1` for a downward marker and `+1` for any other, and the bottom
/// row gets the same when the base is at or below the parent's bottom.
pub open spec fn carried(
    seg: AbstractLineSegment,
    shortcut: int,
    bound: RectView,
    mid: Point,
    cell: u32,
) -> int {
    let base = seg.shortcut_base();
    let reaches_top = shortcut != 0 && !(base.y <= bound.top || base.x < bound.left) && base.x
        >= bound.right && base.y >= mid.y;
    let reaches = if cell == TOP_LEFT || cell == TOP_RIGHT {
        reaches_top
    } else {
        reaches_top && base.y >= bound.bottom
    };
    if !reaches {
        0
    } else if shortcut == -1 {
        -1
    } else {
        1
    }
}

/// Whether the segment is kept in `cell`: an endpoint lies there or a crossed
/// edge borders it.
pub open spec fn split_fill(
    seg: AbstractLineSegment,
    e: EdgeIntersectionInfo,
    bound: RectView,
    mid: Point,
    cell: u32,
) -> bool {
    endpoint_in(seg, bound, mid, cell) || e.touches(cell)
}

/// Whether `cell` gets an upward shortcut marker.
pub open spec fn split_up(seg: AbstractLineSegment, e: EdgeIntersectionInfo, cell: u32) -> bool {
    e.marks(cell) && horizontal_step(seg) > 0
}

/// Whether `cell` gets a downward shortcut marker.
pub open spec fn split_down(seg: AbstractLineSegment, e: EdgeIntersectionInfo, cell: u32) -> bool {
    e.marks(cell) && horizontal_step(seg) < 0
}

/// The winding that the segment adds to `cell`.
pub open spec fn split_winding(
    seg: AbstractLineSegment,
    shortcut: int,
    e: EdgeIntersectionInfo,
    bound: RectView,
    mid: Point,
    cell: u32,
) -> int {
    (if e.turns(cell) { horizontal_step(seg) } else { 0 }) + vertical_step(seg) * e.row_crossings(
        cell,
    ) + carried(seg, shortcut, bound, mid, cell)
}

/// `w` when `b` holds, else no bit.
pub open spec fn bits_if(b: bool, w: u32) -> u32 {
    if b {
        w
    } else {
        0
    }
}

/// The flag field with exactly the given bits set: fill in bits 0 to 3, upward
/// shortcut in bits 4 to 7, downward shortcut in bits 8 to 11, each group in
/// the order of the children.
pub open spec fn pack_flags(
    fill: spec_fn(u32) -> bool,
    up: spec_fn(u32) -> bool,
    down: spec_fn(u32) -> bool,
) -> u32 {
    bits_if(fill(0), 1) | bits_if(fill(1), 2) | bits_if(fill(2), 4) | bits_if(fill(3), 8) | bits_if(
        up(0),
        16,
    ) | bits_if(up(1), 32) | bits_if(up(2), 64) | bits_if(up(3), 128) | bits_if(down(0), 256)
        | bits_if(down(1), 512) | bits_if(down(2), 1024) | bits_if(down(3), 2048)
}

/// The flag field of the segment's split record.
pub open spec fn split_flags(
    seg: AbstractLineSegment,
    e: EdgeIntersectionInfo,
    bound: RectView,
    mid: Point,
) -> u32 {
    pack_flags(
        |c: u32| split_fill(seg, e, bound, mid, c),
        |c: u32| split_up(seg, e, c),
        |c: u32| split_down(seg, e, c),
    )
}

/// A packed flag field answers the three flag tests with the bits it was
/// packed from, and has no other bit set.
pub proof fn lemma_pack_flags(
    fill: spec_fn(u32) -> bool,
    up: spec_fn(u32) -> bool,
    down: spec_fn(u32) -> bool,
    cell: u32,
)
    requires
        cell < 4,
    ensures
        spec_has_fill(pack_flags(fill, up, down), cell) == fill(cell),
        spec_has_up(pack_flags(fill, up, down), cell) == up(cell),
        spec_has_down(pack_flags(fill, up, down), cell) == down(cell),
        pack_flags(fill, up, down) < 4096,
{
    let f0 = fill(0);
    let f1 = fill(1);
    let f2 = fill(2);
    let f3 = fill(3);
    let u0 = up(0);
    let u1 = up(1);
    let u2 = up(2);
    let u3 = up(3);
    let d0 = down(0);
    let d1 = down(1);
    let d2 = down(2);
    let d3 = down(3);
    let w: u32 = pack_flags(fill, up, down);
    assert(w < 4096 && (forall|c: u32|
        c < 4 ==> ((w & ((1u32 << c) << 0u32)) != 0) == (if c == 0 {
            f0
        } else if c == 1 {
            f1
        } else if c == 2 {
            f2
        } else {
            f3
        }) && ((w & ((1u32 << c) << 4u32)) != 0) == (if c == 0 {
            u0
        } else if c == 1 {
            u1
        } else if c == 2 {
            u2
        } else {
            u3
        }) && ((w & ((1u32 << c) << 8u32)) != 0) == (if c == 0 {
            d0
        } else if c == 1 {
            d1
        } else if c == 2 {
            d2
        } else {
            d3
        }))) by (bit_vector)
        requires
            w == (if f0 { 1u32 } else { 0u32 }) | (if f1 { 2u32 } else { 0u32 }) | (if f2 {
                4u32
            } else {
                0u32
            }) | (if f3 { 8u32 } else { 0u32 }) | (if u0 { 16u32 } else { 0u32 }) | (if u1 {
                32u32
            } else {
                0u32
            }) | (if u2 { 64u32 } else { 0u32 }) | (if u3 { 128u32 } else { 0u32 }) | (if d0 {
                256u32
            } else {
                0u32
            }) | (if d1 { 512u32 } else { 0u32 }) | (if d2 { 1024u32 } else { 0u32 }) | (if d3 {
                2048u32
            } else {
                0u32
            }),
    ;
}

/// `w` when `b` holds, else no bit.
fn bits_when(b: bool, w: u32) -> (r: u32)
    ensures
        r == bits_if(b, w),
{
    if b {
        w
    } else {
        0
    }
}

/// The values of the twelve flag bits.
proof fn lemma_flag_values()
    ensures
        fill(0) == 1,
        fill(1) == 2,
        fill(2) == 4,
        fill(3) == 8,
        up(0) == 16,
        up(1) == 32,
        up(2) == 64,
        up(3) == 128,
        down(0) == 256,
        down(1) == 512,
        down(2) == 1024,
        down(3) == 2048,
{
    assert(((1u32 << 0u32) << 0u32) == 1 && ((1u32 << 1u32) << 0u32) == 2 && ((1u32 << 2u32)
        << 0u32) == 4 && ((1u32 << 3u32) << 0u32) == 8 && ((1u32 << 0u32) << 4u32) == 16 && ((1u32
        << 1u32) << 4u32) == 32 && ((1u32 << 2u32) << 4u32) == 64 && ((1u32 << 3u32) << 4u32) == 128
        && ((1u32 << 0u32) << 8u32) == 256 && ((1u32 << 1u32) << 8u32) == 512 && ((1u32 << 2u32)
        << 8u32) == 1024 && ((1u32 << 3u32) << 8u32) == 2048) by (bit_vector);
}

impl EdgeIntersectionInfo {
    /// Whether a crossed edge borders `cell`.
    fn touches_cell(&self, cell: u32) -> (r: bool)
        ensures
            r == self.touches(cell),
    {
        if cell == TOP_LEFT {
            self.cross5 || self.cross7 || self.cross8 || self.cross10
        } else if cell == TOP_RIGHT {
            self.cross6 || self.cross8 || self.cross9 || self.cross11
        } else if cell == BOTTOM_LEFT {
            self.cross0 || self.cross2 || self.cross3 || self.cross5
        } else {
            self.cross1 || self.cross3 || self.cross4 || self.cross6
        }
    }

    /// The three crossings that decide what leaving `cell` means: the exit
    /// edge, the upper ray and the lower ray.
    fn exit_of(&self, cell: u32) -> (r: (bool, bool, bool))
        ensures
            r.0 == self.leaves(cell),
            r.1 == self.upper_ray(cell),
            r.2 == self.lower_ray(cell),
    {
        if cell == TOP_LEFT {
            (self.cross8, self.cross15, self.cross16)
        } else if cell == TOP_RIGHT {
            (self.cross9, self.cross14, self.cross13)
        } else if cell == BOTTOM_LEFT {
            (self.cross3, self.cross16, self.cross17)
        } else {
            (self.cross4, self.cross13, self.cross12)
        }
    }

    /// How many crossings right of `cell`, on the bottom of its row, count for
    /// `cell`.
    fn count_row_crossings(&self, cell: u32) -> (r: i32)
        ensures
            r == self.row_crossings(cell),
            0 <= r <= 2,
    {
        let (inner, outer) = if cell == TOP_LEFT {
            (self.cross6, self.cross13)
        } else if cell == TOP_RIGHT {
            (false, self.cross13)
        } else if cell == BOTTOM_LEFT {
            (self.cross1, self.cross12)
        } else {
            (false, self.cross12)
        };
        let mut n: i32 = 0;
        if inner {
            n += 1;
        }
        if outer {
            n += 1;
        }
        n
    }
}

/// What the parent entry's shortcut marker adds to the winding of `cell`.
fn carried_winding(
    seg: &AbstractLineSegment,
    shortcut: i32,
    bound: &Rect,
    mid_point: &Point,
    cell: u32,
) -> (r: i32)
    ensures
        r == carried(*seg, shortcut as int, bound@, *mid_point, cell),
        -1 <= r <= 1,
{
    if shortcut == 0 {
        return 0;
    }
    let base = seg.get_shortcut_base();
    let x = base.x;
    let y = base.y;
    let is_down_shortcut = shortcut == -1;
    let inc: i32 = if is_down_shortcut { -1 } else { 1 };

    if !(y <= bound.top() || x < bound.left()) && x >= bound.right() && y >= mid_point.y {
        if cell == TOP_LEFT || cell == TOP_RIGHT || y >= bound.bottom() {
            return inc;
        }
    }
    0
}

/// One child's share of a split: whether the segment is kept there, whether
/// it leaves an upward or a downward marker, and the winding it adds.
struct ChildSplit {
    fill: bool,
    up: bool,
    down: bool,
    winding: i32,
}

/// The share of child `cell` in the split of one segment entry.
fn split_child(
    seg: &AbstractLineSegment,
    shortcut: i32,
    einfo: &EdgeIntersectionInfo,
    bound: &Rect,
    mid_point: &Point,
    cell: u32,
) -> (r: ChildSplit)
    requires
        cell < 4,
    ensures
        r.fill == split_fill(*seg, *einfo, bound@, *mid_point, cell),
        r.up == split_up(*seg, *einfo, cell),
        r.down == split_down(*seg, *einfo, cell),
        r.winding == split_winding(*seg, shortcut as int, *einfo, bound@, *mid_point, cell),
{
    let going_up: i32 = if seg.p0.y > seg.p1.y { 1 } else { -1 };
    let going_right: i32 = if seg.p0.x < seg.p1.x { 1 } else { -1 };
    // Endpoints inside the parent quad mark their child cell as occupied.
    let start_here = contains_in_parent(bound, &seg.p0) && classify_child(mid_point, &seg.p0)
        == cell;
    let end_here = contains_in_parent(bound, &seg.p1) && classify_child(mid_point, &seg.p1) == cell;
    let fill = start_here || end_here || einfo.touches_cell(cell);
    let (leaves, upper, lower) = einfo.exit_of(cell);
    let mut up = false;
    let mut down = false;
    let mut winding: i32 = 0;
    if leaves {
        if !upper {
            if !lower {
                if going_right > 0 {
                    up = true;
                } else {
                    down = true;
                }
            } else {
                winding += going_right;
            }
        }
    }
    let rows = einfo.count_row_crossings(cell);
    assert(going_up * rows == vertical_step(*seg) * einfo.row_crossings(cell)) by (nonlinear_arith)
        requires
            going_up == vertical_step(*seg),
            rows == einfo.row_crossings(cell),
    ;
    assert(-2 <= going_up * rows <= 2) by (nonlinear_arith)
        requires
            -1 <= going_up <= 1,
            0 <= rows <= 2,
    ;
    winding += going_up * rows;
    winding += carried_winding(seg, shortcut, bound, mid_point, cell);
    ChildSplit { fill, up, down, winding }
}

impl SplitData {
    /// The split data of a segment entry with shortcut marker `shortcut`,
    /// from the crossings `einfo` of the segment around the parent cell.
    pub fn new(
        seg: &AbstractLineSegment,
        shortcut: i32,
        einfo: &EdgeIntersectionInfo,
        bound: &Rect,
        mid_point: &Point,
    ) -> (r: Self)
        ensures
            r.split_info == split_flags(*seg, *einfo, bound@, *mid_point),
            forall|c: u32|
                c < 4 ==> r.winding[c as int] == #[trigger] split_winding(
                    *seg,
                    shortcut as int,
                    *einfo,
                    bound@,
                    *mid_point,
                    c,
                ),
    {
        let tl = split_child(seg, shortcut, einfo, bound, mid_point, TOP_LEFT);
        let tr = split_child(seg, shortcut, einfo, bound, mid_point, TOP_RIGHT);
        let bl = split_child(seg, shortcut, einfo, bound, mid_point, BOTTOM_LEFT);
        let br = split_child(seg, shortcut, einfo, bound, mid_point, BOTTOM_RIGHT);
        proof {
            lemma_flag_values();
        }
        let split_info: u32 = bits_when(tl.fill, fill(TOP_LEFT)) | bits_when(
            tr.fill,
            fill(TOP_RIGHT),
        ) | bits_when(bl.fill, fill(BOTTOM_LEFT)) | bits_when(br.fill, fill(BOTTOM_RIGHT))
            | bits_when(tl.up, up(TOP_LEFT)) | bits_when(tr.up, up(TOP_RIGHT)) | bits_when(
            bl.up,
            up(BOTTOM_LEFT),
        ) | bits_when(br.up, up(BOTTOM_RIGHT)) | bits_when(tl.down, down(TOP_LEFT)) | bits_when(
            tr.down,
            down(TOP_RIGHT),
        ) | bits_when(bl.down, down(BOTTOM_LEFT)) | bits_when(br.down, down(BOTTOM_RIGHT));
        Self { winding: [tl.winding, tr.winding, bl.winding, br.winding], split_info }
    }
}

/// Whether the closed cell `bound` holds `p`.
fn contains_in_parent(bound: &Rect, p: &Point) -> (r: bool)
    ensures
        r == bound@.contains(p.x as int, p.y as int),
{
    p.x >= bound.left() && p.x <= bound.right() && p.y >= bound.top() && p.y <= bound.bottom()
}

/// The child that owns `p`.
fn classify_child(mid_point: &Point, p: &Point) -> (r: u32)
    ensures
        r == child_of(*mid_point, *p),
        r < 4,
{
    if p.x <= mid_point.x {
        if p.y <= mid_point.y {
            TOP_LEFT
        } else {
            BOTTOM_LEFT
        }
    } else if p.y <= mid_point.y {
        TOP_RIGHT
    } else {
        BOTTOM_RIGHT
    }
}

/// Every segment entry refers to a segment of `segs` whose path index fits
/// the 32 bits that entries and records have for it.
pub open spec fn entries_valid(entries: Seq<CellEntry>, segs: Seq<AbstractLineSegment>) -> bool {
    forall|i: int|
        0 <= i < entries.len() && (#[trigger] entries[i]).is_segment() ==> entries[i].seg_idx
            < segs.len() && segs[entries[i].seg_idx as int].path_idx <= u32::MAX
}

/// The split record of the segment entry `e`, which refers to `seg`.
pub open spec fn segment_record(
    e: CellEntry,
    seg: AbstractLineSegment,
    bound: RectView,
    mid: Point,
) -> SplitRecord {
    let crossings = EdgeIntersectionInfo::of(seg, bound, mid);
    SplitRecord {
        winding: Seq::new(
            4,
            |c: int| split_winding(seg, e.data as int, crossings, bound, mid, c as u32),
        ),
        split_info: split_flags(seg, crossings, bound, mid),
        offsets: Seq::new(4, |c: int| 0int),
        seg_idx: e.seg_idx,
        path_idx: seg.path_idx as u32,
        parent_cell_id: e.cell_id,
    }
}

/// The split record of the winding entry `e`: its increment goes to all four
/// children and it is kept in none.
pub open spec fn winding_record(e: CellEntry) -> SplitRecord {
    SplitRecord {
        winding: Seq::new(4, |c: int| e.data as int),
        split_info: 0,
        offsets: Seq::new(4, |c: int| 0int),
        seg_idx: NONE_U32,
        path_idx: e.path_idx,
        parent_cell_id: e.cell_id,
    }
}

/// The records that one entry gives: a segment record if it refers to a
/// segment, then a winding record if it carries an increment.
pub open spec fn records_of(
    e: CellEntry,
    segs: Seq<AbstractLineSegment>,
    bound: RectView,
    mid: Point,
) -> Seq<SplitRecord> {
    (if e.is_segment() {
        seq![segment_record(e, segs[e.seg_idx as int], bound, mid)]
    } else {
        seq![]
    }) + (if e.is_winding() {
        seq![winding_record(e)]
    } else {
        seq![]
    })
}

/// The split records of a cell's entries, in the order of the entries.
pub open spec fn split_records(
    entries: Seq<CellEntry>,
    segs: Seq<AbstractLineSegment>,
    bound: RectView,
    mid: Point,
) -> Seq<SplitRecord>
    decreases entries.len(),
{
    if entries.len() == 0 {
        seq![]
    } else {
        split_records(entries.drop_last(), segs, bound, mid) + records_of(
            entries.last(),
            segs,
            bound,
            mid,
        )
    }
}

/// Builds the split records of a parent cell's entries: for each entry, in
/// order, the record of its segment and the record of its winding increment.
pub fn build_split_entries(
    parent_bound: &Rect,
    mid_point: &Point,
    cell_entries: &mut [CellEntry],
    abs_segments: &[AbstractLineSegment],
) -> (split_entries: Vec<SplitEntry>)
    requires
        entries_valid(old(cell_entries)@, abs_segments@),
    ensures
        final(cell_entries)@ == old(cell_entries)@,
        records(split_entries@) == split_records(
            old(cell_entries)@,
            abs_segments@,
            parent_bound@,
            *mid_point,
        ),
{
    let mut split_entries: Vec<SplitEntry> = Vec::new();
    let n = cell_entries.len();
    let mut i: usize = 0;
    assert(cell_entries@.subrange(0, 0) =~= seq![]);
    assert(records(split_entries@) =~= seq![]);
    while i < n
        invariant
            i <= n,
            n == cell_entries@.len(),
            cell_entries@ == old(cell_entries)@,
            entries_valid(cell_entries@, abs_segments@),
            records(split_entries@) == split_records(
                cell_entries@.subrange(0, i as int),
                abs_segments@,
                parent_bound@,
                *mid_point,
            ),
        decreases n - i,
    {
        let entry = cell_entries[i];
        let is_abstract_entry = (entry.entry_type & ABSTRACT) != 0;
        let is_winding_inc_entry = (entry.entry_type & WINDING_INCREMENT) != 0;
        let ghost before = records(split_entries@);
        let ghost mut added: Seq<SplitRecord> = seq![];

        if is_abstract_entry {
            let seg_idx = entry.seg_idx;
            let seg = &abs_segments[seg_idx as usize];
            let edge_info = EdgeIntersectionInfo::new(seg, parent_bound, mid_point);
            let split_data = SplitData::new(seg, entry.data, &edge_info, parent_bound, mid_point);
            let record = SplitEntry {
                split_data,
                offsets: [0u32; 4],
                seg_idx,
                path_idx: seg.path_idx as u32,
                parent_cell_id: entry.cell_id,
            };
            assert(record@ =~= segment_record(entry, *seg, parent_bound@, *mid_point));
            split_entries.push(record);
            proof {
                added = added.push(record@);
            }
        }
        if is_winding_inc_entry {
            let parent_winding = entry.data;
            let record = SplitEntry {
                split_data: SplitData { winding: [parent_winding; 4], split_info: 0 },
                offsets: [0u32; 4],
                seg_idx: NONE_U32,
                path_idx: entry.path_idx,
                parent_cell_id: entry.cell_id,
            };
            assert(record@ =~= winding_record(entry));
            split_entries.push(record);
            proof {
                added = added.push(record@);
            }
        }
        proof {
            assert(added =~= records_of(entry, abs_segments@, parent_bound@, *mid_point));
            assert(records(split_entries@) =~= before + added);
            let next = cell_entries@.subrange(0, i + 1);
            assert(next.drop_last() =~= cell_entries@.subrange(0, i as int));
            assert(next.last() == entry);
        }
        i += 1;
    }
    assert(cell_entries@.subrange(0, n as int) =~= cell_entries@);
    split_entries
}

} // verus!
