//! Overlap resolution: turns a flat list of possibly overlapping regions into
//! a list of top-level regions, nesting each overlapping pair.

use crate::region::{
    all_ranges, all_trees_ranges, distinct_ranges, no_conflicts, same_range, views, FileNode, Region,
};
use vstd::prelude::*;

verus! {

broadcast use vstd::std_specs::vec::group_vec_axioms;

/// `(i, j)` is the first pair, in the order `(0, 1), (0, 2), ..., (1, 2), ...`,
/// of regions of `s` that overlap one way or the other.
pub open spec fn is_first_conflict(s: Seq<Region>, i: int, j: int) -> bool {
    &&& 0 <= i < j < s.len()
    &&& s[i].conflicts(s[j])
    &&& forall|a: int, b: int|
        0 <= a < b < s.len() && (a < i || (a == i && b < j)) ==> !(#[trigger] s[a].conflicts(
            s[b],
        ))
}

pub open spec fn has_conflict(s: Seq<Region>) -> bool {
    exists|a: int, b: int| 0 <= a < b < s.len() && #[trigger] s[a].conflicts(s[b])
}

/// Nests the pair `(i, j)`: the longer region adopts the shorter one, the one
/// at `i` on a tie, and takes the place of the pair at `i`.
pub open spec fn merge_pair(s: Seq<Region>, i: int, j: int) -> Seq<Region> {
    let merged = if s[j].len() > s[i].len() {
        s[j].adopt(s[i])
    } else {
        s[i].adopt(s[j])
    };
    s.update(i, merged).remove(j)
}

/// Repeats merging the first overlapping pair until no pair overlaps.
pub open spec fn resolve(s: Seq<Region>) -> Seq<Region>
    decreases s.len(),
{
    if exists|i: int, j: int| is_first_conflict(s, i, j) {
        let (i, j) = choose|i: int, j: int| is_first_conflict(s, i, j);
        resolve(merge_pair(s, i, j))
    } else {
        s
    }
}

/// Finds the first overlapping pair of `nodes`.
fn find_conflict(nodes: &Vec<FileNode>) -> (r: Option<(usize, usize)>)
    ensures
        match r {
            Some((i, j)) => is_first_conflict(views(nodes@), i as int, j as int),
            None => !has_conflict(views(nodes@)),
        },
{
    let ghost s = views(nodes@);
    let n = nodes.len();
    let mut i: usize = 0;
    while i < n
        invariant
            n == nodes@.len() == s.len(),
            s == views(nodes@),
            i <= n,
            forall|a: int, b: int| 0 <= a < b < n && a < i ==> !(#[trigger] s[a].conflicts(s[b])),
        decreases n - i,
    {
        let mut j: usize = i + 1;
        while j < n
            invariant
                n == nodes@.len() == s.len(),
                s == views(nodes@),
                i < n,
                i < j <= n,
                forall|a: int, b: int|
                    0 <= a < b < n && (a < i || (a == i && b < j)) ==> !(#[trigger] s[a].conflicts(
                        s[b],
                    )),
            decreases n - j,
        {
            if nodes[i].overlaps(&nodes[j]) || nodes[j].overlaps(&nodes[i]) {
                return Some((i, j));
            }
            j = j + 1;
        }
        i = i + 1;
    }
    None
}

proof fn lemma_adopt_view(p: FileNode, c: FileNode, q: FileNode)
    requires
        q.children@ == p.children@.push(c),
        q.name == p.name,
        q.bytes_start == p.bytes_start,
        q.bytes_end == p.bytes_end,
        q.ram_bytes_start == p.ram_bytes_start,
        q.ram_bytes_end == p.ram_bytes_end,
        q.file_bytes_start == p.file_bytes_start,
        q.file_bytes_end == p.file_bytes_end,
        q.ty == p.ty,
        q.notes == p.notes,
    ensures
        q@ == p@.adopt(c@),
{
    assert forall|k: int| 0 <= k < q.children@.len() implies #[trigger] q@.children[k] == p@.children.push(
        c@,
    )[k] by {
        if k < p.children@.len() {
            assert(q.children@[k] == p.children@[k]);
        }
    }
    assert(q@.children =~= p@.children.push(c@));
}

/// Nests the pair `(i, j)` in place, as [`merge_pair`] says.
fn merge(nodes: &mut Vec<FileNode>, i: usize, j: usize)
    requires
        i < j < old(nodes)@.len(),
        forall|k: int| 0 <= k < old(nodes)@.len() ==> #[trigger] old(nodes)@[k].bytes_start <= old(nodes)@[k].bytes_end,
    ensures
        views(final(nodes)@) == merge_pair(views(old(nodes)@), i as int, j as int),
        final(nodes)@.len() == old(nodes)@.len() - 1,
        forall|k: int| 0 <= k < final(nodes)@.len() ==> #[trigger] final(nodes)@[k].bytes_start <= final(nodes)@[k].bytes_end,
{
    let ghost s = views(nodes@);
    let b = nodes.remove(j);
    let a = nodes.remove(i);
    let (mut parent, child) = if b.bytes_end - b.bytes_start > a.bytes_end - a.bytes_start {
        (b, a)
    } else {
        (a, b)
    };
    let ghost p0 = parent;
    let ghost c0 = child;
    parent.children.push(child);
    proof {
        lemma_adopt_view(p0, c0, parent);
    }
    nodes.insert(i, parent);
    assert(views(nodes@) =~= merge_pair(s, i as int, j as int));
}

/// Nests overlapping regions until none overlap, as [`resolve`] says.
pub fn resolve_overlaps(nodes: Vec<FileNode>) -> (r: Vec<FileNode>)
    requires
        forall|k: int| 0 <= k < nodes@.len() ==> #[trigger] nodes@[k].bytes_start <= nodes@[k].bytes_end,
    ensures
        views(r@) == resolve(views(nodes@)),
{
    let mut list = nodes;
    loop
        invariant
            resolve(views(list@)) == resolve(views(nodes@)),
            forall|k: int| 0 <= k < list@.len() ==> #[trigger] list@[k].bytes_start <= list@[k].bytes_end,
        decreases list@.len(),
    {
        match find_conflict(&list) {
            None => {
                assert(!exists|i: int, j: int| is_first_conflict(views(list@), i, j));
                return list;
            },
            Some((i, j)) => {
                let ghost s = views(list@);
                proof {
                    lemma_first_conflict_unique(s, i as int, j as int);
                }
                merge(&mut list, i, j);
            },
        }
    }
}

proof fn lemma_first_conflict_unique(s: Seq<Region>, i: int, j: int)
    requires
        is_first_conflict(s, i, j),
    ensures
        (choose|a: int, b: int| is_first_conflict(s, a, b)) == (i, j),
        resolve(s) == resolve(merge_pair(s, i, j)),
{
    let (a, b) = choose|a: int, b: int| is_first_conflict(s, a, b);
    assert(is_first_conflict(s, a, b));
    if a < i || (a == i && b < j) {
        assert(!s[a].conflicts(s[b]));
    } else if i < a || (i == a && j < b) {
        assert(!s[i].conflicts(s[j]));
    }
}

} // verus!

verus! {

/// Any overlapping pair means there is a first one.
proof fn lemma_first_conflict_exists(s: Seq<Region>, i: int, j: int)
    requires
        0 <= i < j < s.len(),
        s[i].conflicts(s[j]),
    ensures
        exists|a: int, b: int| is_first_conflict(s, a, b),
    decreases i * s.len() + j,
{
    if !is_first_conflict(s, i, j) {
        let (a, b) = choose|a: int, b: int|
            0 <= a < b < s.len() && (a < i || (a == i && b < j)) && s[a].conflicts(s[b]);
        if a < i {
            let n = s.len() as int;
            assert((a + 1) * n <= i * n) by (nonlinear_arith)
                requires
                    a + 1 <= i,
                    0 <= n,
            ;
            assert(a * n + b < i * n + j) by (nonlinear_arith)
                requires
                    (a + 1) * n <= i * n,
                    b < n,
                    0 <= j,
            ;
        }
        lemma_first_conflict_exists(s, a, b);
    }
}

/// A region that adopts another keeps any property that every node range of
/// both trees has.
proof fn lemma_adopt_ranges(parent: Region, child: Region, p: spec_fn(u64, u64) -> bool)
    requires
        all_ranges(parent, p),
        all_ranges(child, p),
    ensures
        all_ranges(parent.adopt(child), p),
{
    let m = parent.adopt(child);
    assert forall|i: int| 0 <= i < m.children.len() implies all_ranges(#[trigger] m.children[i], p) by {
        if i < parent.children.len() {
            assert(m.children[i] == parent.children[i]);
        }
    }
}

/// Resolution leaves no overlapping pair, and keeps any property that every
/// node range of every input tree has.
pub proof fn lemma_resolve(s: Seq<Region>, p: spec_fn(u64, u64) -> bool)
    ensures
        no_conflicts(resolve(s)),
        all_trees_ranges(s, p) ==> all_trees_ranges(resolve(s), p),
    decreases s.len(),
{
    if exists|i: int, j: int| is_first_conflict(s, i, j) {
        let (i, j) = choose|i: int, j: int| is_first_conflict(s, i, j);
        let t = merge_pair(s, i, j);
        if all_trees_ranges(s, p) {
            let merged = if s[j].len() > s[i].len() {
                s[j].adopt(s[i])
            } else {
                s[i].adopt(s[j])
            };
            if s[j].len() > s[i].len() {
                lemma_adopt_ranges(s[j], s[i], p);
            } else {
                lemma_adopt_ranges(s[i], s[j], p);
            }
            assert forall|k: int| 0 <= k < t.len() implies all_ranges(#[trigger] t[k], p) by {
                if k < j {
                    assert(t[k] == s.update(i, merged)[k]);
                } else {
                    assert(t[k] == s[k + 1]);
                }
            }
        }
        lemma_resolve(t, p);
    } else {
        assert forall|a: int, b: int| 0 <= a < s.len() && 0 <= b < s.len() && a != b implies !(#[trigger] s[a].conflicts(#[trigger] s[b])) by {
            if a < b && s[a].conflicts(s[b]) {
                lemma_first_conflict_exists(s, a, b);
            }
            if b < a && s[b].conflicts(s[a]) {
                lemma_first_conflict_exists(s, b, a);
            }
        }
    }
}

} // verus!

verus! {

/// Resolution keeps a list free of regions that cover the same range: each
/// merge keeps the range of one region of the pair and drops the other.
pub proof fn lemma_resolve_distinct(s: Seq<Region>)
    requires
        distinct_ranges(s),
    ensures
        distinct_ranges(resolve(s)),
    decreases s.len(),
{
    if exists|i: int, j: int| is_first_conflict(s, i, j) {
        let (i, j) = choose|i: int, j: int| is_first_conflict(s, i, j);
        let t = merge_pair(s, i, j);
        let merged = if s[j].len() > s[i].len() {
            s[j].adopt(s[i])
        } else {
            s[i].adopt(s[j])
        };
        // the index in `s` of the region whose range `t[k]` has
        let src = |k: int| if k == i { if s[j].len() > s[i].len() { j } else { i } } else if k < j { k } else { k + 1 };
        assert forall|k: int| 0 <= k < t.len() implies same_range(#[trigger] t[k], s[src(k)]) by {
            if k < j {
                assert(t[k] == s.update(i, merged)[k]);
            } else {
                assert(t[k] == s[k + 1]);
            }
        }
        assert forall|a: int, b: int| 0 <= a < t.len() && 0 <= b < t.len() && a != b implies !#[trigger] same_range(t[a], t[b]) by {
            assert(same_range(t[a], s[src(a)]));
            assert(same_range(t[b], s[src(b)]));
            assert(src(a) != src(b));
            assert(!same_range(s[src(a)], s[src(b)]));
        }
        lemma_resolve_distinct(t);
    }
}

} // verus!

verus! {

/// Of two non-empty regions where one lies inside the other without covering
/// the same range, resolution nests the inner one under the outer one,
/// whichever comes first.
pub proof fn lemma_resolve_nests_contained(outer: Region, inner: Region)
    requires
        inner.start < inner.end,
        outer.start <= inner.start,
        inner.end <= outer.end,
        outer.start < inner.start || inner.end < outer.end,
    ensures
        resolve(seq![outer, inner]) == seq![outer.adopt(inner)],
        resolve(seq![inner, outer]) == seq![outer.adopt(inner)],
{
    let s1 = seq![outer, inner];
    let s2 = seq![inner, outer];
    assert(is_first_conflict(s1, 0, 1));
    assert(is_first_conflict(s2, 0, 1));
    lemma_first_conflict_unique(s1, 0, 1);
    lemma_first_conflict_unique(s2, 0, 1);
    let t = seq![outer.adopt(inner)];
    assert(merge_pair(s1, 0, 1) =~= t);
    assert(merge_pair(s2, 0, 1) =~= t);
    assert(!exists|i: int, j: int| is_first_conflict(t, i, j));
}

} // verus!
