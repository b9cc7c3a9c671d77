//! Regions of an address space and the trees they form.

use vstd::prelude::*;

verus! {

broadcast use vstd::std_specs::vec::group_vec_axioms;

/// What a region stands for.
#[derive(Clone, Copy, Debug, PartialEq, Eq, Structural)]
pub enum SectionType {
    ElfHeader,
    ElfSectionHeader,
    ElfProgramHeader,
    Text,
    SectionContent,
    Root,
}

/// The mathematical value of a [`FileNode`].
pub struct Region {
    pub name: Seq<char>,
    pub start: u64,
    pub end: u64,
    pub ram_start: u64,
    pub ram_end: u64,
    pub file_start: u64,
    pub file_end: u64,
    pub kind: SectionType,
    pub notes: Seq<(Seq<char>, Seq<char>)>,
    pub children: Seq<Region>,
}

impl Region {
    pub open spec fn len(self) -> int {
        self.end - self.start
    }

    /// `self` starts or ends strictly inside `other`.
    pub open spec fn overlaps(self, other: Region) -> bool {
        (other.start < self.start && self.start < other.end) || (other.start < self.end
            && self.end < other.end)
    }

    /// The overlap test in either direction.
    pub open spec fn conflicts(self, other: Region) -> bool {
        self.overlaps(other) || other.overlaps(self)
    }

    /// `self` with `child` appended to its children.
    pub open spec fn adopt(self, child: Region) -> Region {
        Region { children: self.children.push(child), ..self }
    }
}

/// A named byte range with descriptive notes and the regions nested in it.
#[derive(Debug)]
pub struct FileNode {
    pub name: String,
    /// Start of the range in the space of the tree that holds the node.
    pub bytes_start: u64,
    /// End (exclusive) of the range in the space of the tree that holds the node.
    pub bytes_end: u64,
    pub ram_bytes_start: u64,
    pub ram_bytes_end: u64,
    pub file_bytes_start: u64,
    pub file_bytes_end: u64,
    pub ty: SectionType,
    pub notes: Vec<(String, String)>,
    pub children: Vec<FileNode>,
}

pub open spec fn notes_view(notes: Seq<(String, String)>) -> Seq<(Seq<char>, Seq<char>)> {
    notes.map_values(|p: (String, String)| (p.0@, p.1@))
}

pub open spec fn views(nodes: Seq<FileNode>) -> Seq<Region> {
    nodes.map_values(|n: FileNode| n@)
}

/// The region that `n` stands for, children included.
pub open spec fn node_view(n: &FileNode) -> Region
    decreases n,
{
    Region {
        name: n.name@,
        start: n.bytes_start,
        end: n.bytes_end,
        ram_start: n.ram_bytes_start,
        ram_end: n.ram_bytes_end,
        file_start: n.file_bytes_start,
        file_end: n.file_bytes_end,
        kind: n.ty,
        notes: notes_view(n.notes@),
        children: Seq::new(
            n.children@.len(),
            |i: int|
                if 0 <= i < n.children@.len() {
                    node_view(&n.children@[i])
                } else {
                    arbitrary()
                },
        ),
    }
}

impl View for FileNode {
    type V = Region;

    open spec fn view(&self) -> Region {
        node_view(self)
    }
}

impl FileNode {
    pub fn len(&self) -> (r: u64)
        requires
            self.bytes_start <= self.bytes_end,
        ensures
            r == self@.len(),
    {
        self.bytes_end - self.bytes_start
    }

    /// The overlap test: `self` starts or ends strictly inside `other`.
    pub fn overlaps(&self, other: &Self) -> (r: bool)
        ensures
            r == self@.overlaps(other@),
    {
        self.bytes_start > other.bytes_start && self.bytes_start < other.bytes_end
            || self.bytes_end > other.bytes_start && self.bytes_end < other.bytes_end
    }
}

} // verus!

verus! {

/// Every node of the tree `r` satisfies `p` on its own range.
pub open spec fn all_ranges(r: Region, p: spec_fn(u64, u64) -> bool) -> bool
    decreases r,
{
    &&& p(r.start, r.end)
    &&& forall|i: int| 0 <= i < r.children.len() ==> all_ranges(#[trigger] r.children[i], p)
}

/// Each region of `s` is a tree whose every node satisfies `p` on its range.
pub open spec fn all_trees_ranges(s: Seq<Region>, p: spec_fn(u64, u64) -> bool) -> bool {
    forall|i: int| 0 <= i < s.len() ==> all_ranges(#[trigger] s[i], p)
}

/// The regions of `s` ascend by start.
pub open spec fn starts_ascending(s: Seq<Region>) -> bool {
    forall|a: int, b: int| 0 <= a < b < s.len() ==> #[trigger] s[a].start <= #[trigger] s[b].start
}

/// At every node of `r`, the children ascend by start.
pub open spec fn tree_sorted(r: Region) -> bool
    decreases r,
{
    &&& starts_ascending(r.children)
    &&& forall|i: int| 0 <= i < r.children.len() ==> tree_sorted(#[trigger] r.children[i])
}

/// No two regions of `s` overlap either way.
pub open spec fn no_conflicts(s: Seq<Region>) -> bool {
    forall|a: int, b: int| 0 <= a < s.len() && 0 <= b < s.len() && a != b ==> !(#[trigger] s[a].conflicts(#[trigger] s[b]))
}

/// Any two regions of `s` either lie apart, in order, or cover the same range.
pub open spec fn apart_or_same(s: Seq<Region>) -> bool {
    forall|a: int, b: int|
        0 <= a < b < s.len() ==> (#[trigger] s[a].end <= #[trigger] s[b].start || (s[a].start == s[b].start
            && s[a].end == s[b].end))
}

} // verus!

verus! {

pub open spec fn same_range(x: Region, y: Region) -> bool {
    x.start == y.start && x.end == y.end
}

/// No two regions of `s` cover the same range.
pub open spec fn distinct_ranges(s: Seq<Region>) -> bool {
    forall|a: int, b: int| 0 <= a < s.len() && 0 <= b < s.len() && a != b ==> !#[trigger] same_range(s[a], s[b])
}

/// The regions of `s` lie apart and in order: each ends by the start of the next.
pub open spec fn strictly_apart(s: Seq<Region>) -> bool {
    forall|a: int, b: int| 0 <= a < b < s.len() ==> #[trigger] s[a].end <= #[trigger] s[b].start
}

} // verus!

verus! {

/// Ranges that only touch, one ending where the other starts, do not
/// overlap either way.
pub proof fn lemma_touching_ranges_do_not_overlap(a: Region, b: Region)
    requires
        a.start <= a.end,
        a.end == b.start,
        b.start <= b.end,
    ensures
        !a.conflicts(b),
        !b.conflicts(a),
{
}

} // verus!
