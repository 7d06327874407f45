//! The records that flow through the subdivision passes: cell entries, split
//! records and the flag field that says which children a segment reaches.
use crate::abstract_segment::AbstractLineSegment;
use vstd::prelude::*;

verus! {

pub const NONE_U32: u32 = 0xFFFF_FFFF;

pub const TOP_LEFT: u32 = 0;

pub const TOP_RIGHT: u32 = 1;

pub const BOTTOM_LEFT: u32 = 2;

pub const BOTTOM_RIGHT: u32 = 3;

pub type EntryFlags = u32;

pub const EMPTY: EntryFlags = 0;

/// The entry refers to a segment.
pub const ABSTRACT: EntryFlags = 1;

/// The entry carries a winding increment.
pub const WINDING_INCREMENT: EntryFlags = 8;

pub type CellId = u32;

/// The bit for child `x` in the group of flags that starts at bit `offset`.
pub open spec fn spec_flag(x: u32, offset: u32) -> u32 {
    (1u32 << x) << offset
}

/// The bit that marks child `x` as reached by the segment.
pub open spec fn spec_fill(x: u32) -> u32 {
    spec_flag(x, 0)
}

/// The bit that marks an upward shortcut in child `x`.
pub open spec fn spec_up(x: u32) -> u32 {
    spec_flag(x, 4)
}

/// The bit that marks a downward shortcut in child `x`.
pub open spec fn spec_down(x: u32) -> u32 {
    spec_flag(x, 8)
}

/// Whether the flag field marks child `cell` as reached by the segment.
pub open spec fn spec_has_fill(split_info: u32, cell: u32) -> bool {
    (split_info & spec_fill(cell)) != 0
}

/// Whether the flag field marks any child as reached by the segment.
pub open spec fn spec_has_any_fill(split_info: u32) -> bool {
    (split_info & FILL_MASK) != 0
}

/// Whether the flag field marks an upward shortcut in child `cell`.
pub open spec fn spec_has_up(split_info: u32, cell: u32) -> bool {
    (split_info & spec_up(cell)) != 0
}

/// Whether the flag field marks a downward shortcut in child `cell`.
pub open spec fn spec_has_down(split_info: u32, cell: u32) -> bool {
    (split_info & spec_down(cell)) != 0
}

/// The bit for child `x` in the group of flags that starts at bit `offset`.
#[verifier::when_used_as_spec(spec_flag)]
pub fn flag(x: u32, offset: u32) -> (r: u32)
    requires
        x < 32,
        offset < 32,
    ensures
        r == spec_flag(x, offset),
{
    (1u32 << x) << offset
}

/// The bit that marks child `x` as reached by the segment.
#[verifier::when_used_as_spec(spec_fill)]
pub fn fill(x: u32) -> (r: u32)
    requires
        x < 32,
    ensures
        r == spec_fill(x),
{
    flag(x, 0)
}

/// Whether the flag field marks child `cell` as reached by the segment.
#[verifier::when_used_as_spec(spec_has_fill)]
pub fn has_fill(split_info: u32, cell: u32) -> (r: bool)
    requires
        cell < 32,
    ensures
        r == spec_has_fill(split_info, cell),
{
    (split_info & fill(cell)) != 0
}

/// The fill bits of the four children.
pub const FILL_MASK: u32 = 15;

/// Whether the flag field marks any child as reached by the segment.
#[verifier::when_used_as_spec(spec_has_any_fill)]
pub fn has_any_fill(split_info: u32) -> (r: bool)
    ensures
        r == spec_has_any_fill(split_info),
        r == (has_fill(split_info, TOP_LEFT) || has_fill(split_info, TOP_RIGHT) || has_fill(
            split_info,
            BOTTOM_LEFT,
        ) || has_fill(split_info, BOTTOM_RIGHT)),
{
    assert((split_info & 15 != 0) == ((split_info & ((1u32 << 0u32) << 0u32)) != 0 || (split_info & (
    (1u32 << 1u32) << 0u32)) != 0 || (split_info & ((1u32 << 2u32) << 0u32)) != 0 || (split_info
        & ((1u32 << 3u32) << 0u32)) != 0)) by (bit_vector);
    (split_info & FILL_MASK) != 0
}

/// The bit that marks an upward shortcut in child `x`.
#[verifier::when_used_as_spec(spec_up)]
pub fn up(x: u32) -> (r: u32)
    requires
        x < 32,
    ensures
        r == spec_up(x),
{
    flag(x, 4)
}

/// Whether the flag field marks an upward shortcut in child `cell`.
#[verifier::when_used_as_spec(spec_has_up)]
pub fn has_up(split_info: u32, cell: u32) -> (r: bool)
    requires
        cell < 32,
    ensures
        r == spec_has_up(split_info, cell),
{
    (split_info & up(cell)) != 0
}

/// The bit that marks a downward shortcut in child `x`.
#[verifier::when_used_as_spec(spec_down)]
pub fn down(x: u32) -> (r: u32)
    requires
        x < 32,
    ensures
        r == spec_down(x),
{
    flag(x, 8)
}

/// Whether the flag field marks a downward shortcut in child `cell`.
#[verifier::when_used_as_spec(spec_has_down)]
pub fn has_down(split_info: u32, cell: u32) -> (r: bool)
    requires
        cell < 32,
    ensures
        r == spec_has_down(split_info, cell),
{
    (split_info & down(cell)) != 0
}

/// What one parent entry contributes to each of the four children: a signed
/// winding per child and the flag field with the children's fill, upward
/// shortcut and downward shortcut bits.
#[derive(Debug, Copy, Clone)]
pub struct SplitData {
    pub winding: [i32; 4],
    pub split_info: u32,
}

/// Per-entry record stored in a quad cell.
#[derive(Debug, Copy, Clone, PartialEq, Eq, Structural)]
pub struct CellEntry {
    pub entry_type: u32,
    pub data: i32,  // WINDING_INCREMENT: increment value; ABSTRACT: shortcut flag
    pub seg_idx: u32,  // Index into abs_segments; only valid for ABSTRACT entries
    pub path_idx: u32,
    pub cell_pos: u32,
    pub cell_id: u32,
}

impl CellEntry {
    /// The entry that fills a slot nothing was written to.
    pub open spec fn spec_default() -> CellEntry {
        CellEntry {
            entry_type: EMPTY,
            seg_idx: NONE_U32,
            path_idx: u32::MAX,
            data: 0,
            cell_pos: 0,
            cell_id: u32::MAX,
        }
    }

    /// The entry refers to a segment.
    pub open spec fn is_segment(self) -> bool {
        (self.entry_type & ABSTRACT) != 0
    }

    /// The entry carries a winding increment.
    pub open spec fn is_winding(self) -> bool {
        (self.entry_type & WINDING_INCREMENT) != 0
    }
}

impl Default for CellEntry {
    fn default() -> (r: Self)
        ensures
            r == CellEntry::spec_default(),
    {
        CellEntry {
            entry_type: EMPTY,
            seg_idx: NONE_U32,
            path_idx: u32::MAX,
            data: 0,
            cell_pos: 0,
            cell_id: u32::MAX,
        }
    }
}

/// Intermediate per-entry state used during subdivision.
#[derive(Debug, Copy, Clone)]
pub struct SplitEntry {
    pub split_data: SplitData,
    pub offsets: [u32; 4],
    pub seg_idx: u32,
    pub path_idx: u32,
    /// cell_id of the parent; carries the parent's identity into child entries.
    pub parent_cell_id: u32,
}

/// A split record as the passes see it: four windings, the flag field, four
/// output offsets, and where it came from.
#[verifier::ext_equal]
pub struct SplitRecord {
    pub winding: Seq<int>,
    pub split_info: u32,
    pub offsets: Seq<int>,
    pub seg_idx: u32,
    pub path_idx: u32,
    pub parent_cell_id: u32,
}

impl View for SplitEntry {
    type V = SplitRecord;

    open spec fn view(&self) -> SplitRecord {
        SplitRecord {
            winding: Seq::new(4, |c: int| self.split_data.winding[c] as int),
            split_info: self.split_data.split_info,
            offsets: Seq::new(4, |c: int| self.offsets[c] as int),
            seg_idx: self.seg_idx,
            path_idx: self.path_idx,
            parent_cell_id: self.parent_cell_id,
        }
    }
}

/// The records that a sequence of split entries stands for.
pub open spec fn records(s: Seq<SplitEntry>) -> Seq<SplitRecord> {
    Seq::new(s.len(), |i: int| s[i]@)
}

/// The root cell's entries: one segment entry per segment, in order, with no
/// shortcut, owned by cell 0.
pub open spec fn root_entries(segs: Seq<AbstractLineSegment>) -> Seq<CellEntry> {
    Seq::new(
        segs.len(),
        |i: int|
            CellEntry {
                entry_type: ABSTRACT,
                seg_idx: i as u32,
                path_idx: segs[i].path_idx as u32,
                data: 0,
                cell_pos: 0,
                cell_id: 0,
            },
    )
}

/// Build the initial flat list of ABSTRACT entries for the root cell (one per segment).
pub fn init_root_cell_entries(abs_segments: &[AbstractLineSegment]) -> (entries: Vec<CellEntry>)
    requires
        abs_segments@.len() <= u32::MAX,
        forall|i: int| 0 <= i < abs_segments@.len() ==> abs_segments@[i].path_idx <= u32::MAX,
    ensures
        entries@ == root_entries(abs_segments@),
{
    let mut entries: Vec<CellEntry> = Vec::new();
    let n = abs_segments.len();
    let mut i: usize = 0;
    while i < n
        invariant
            n == abs_segments@.len(),
            n <= u32::MAX,
            i <= n,
            forall|k: int| 0 <= k < abs_segments@.len() ==> abs_segments@[k].path_idx <= u32::MAX,
            entries@ == root_entries(abs_segments@).subrange(0, i as int),
        decreases n - i,
    {
        let curr = &abs_segments[i];
        entries.push(
            CellEntry {
                entry_type: ABSTRACT,
                seg_idx: i as u32,
                path_idx: curr.path_idx as u32,
                data: 0,
                cell_pos: 0,
                cell_id: 0,
            },
        );
        i += 1;
        assert(entries@ =~= root_entries(abs_segments@).subrange(0, i as int));
    }
    assert(entries@ =~= root_entries(abs_segments@));
    entries
}

/// The two kinds of entry have no bit in common.
pub(crate) proof fn lemma_kinds()
    ensures
        (ABSTRACT & ABSTRACT) != 0,
        (ABSTRACT & WINDING_INCREMENT) == 0,
        (WINDING_INCREMENT & WINDING_INCREMENT) != 0,
        (WINDING_INCREMENT & ABSTRACT) == 0,
{
    assert((1u32 & 1u32) != 0 && (1u32 & 8u32) == 0 && (8u32 & 8u32) != 0 && (8u32 & 1u32) == 0)
        by (bit_vector);
}

/// A flag field with the fill bit of a child has a fill bit.
pub(crate) proof fn lemma_fill_is_any_fill(split_info: u32, c: u32)
    requires
        c < 4,
        spec_has_fill(split_info, c),
    ensures
        spec_has_any_fill(split_info),
{
    assert(c < 4 && (split_info & ((1u32 << c) << 0u32)) != 0 ==> (split_info & 15u32) != 0)
        by (bit_vector);
}

/// The empty flag field has no fill bit.
pub(crate) proof fn lemma_no_fill(c: u32)
    ensures
        !spec_has_fill(0, c),
        !spec_has_any_fill(0),
{
    assert((0u32 & ((1u32 << c) << 0u32)) == 0 && (0u32 & 15u32) == 0) by (bit_vector);
}

} // verus!
