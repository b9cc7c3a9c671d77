//! Ordering of a region tree: every node's children ascend by start.

use crate::region::{
    all_ranges, all_trees_ranges, apart_or_same, distinct_ranges, no_conflicts, same_range,
    starts_ascending, strictly_apart, tree_sorted, views, FileNode, Region,
};
use crate::resolve::{lemma_resolve, lemma_resolve_distinct, resolve, resolve_overlaps};
use vstd::prelude::*;

verus! {

broadcast use vstd::std_specs::vec::group_vec_axioms;

/// Where `key` goes in `s`: before the first region that starts after it.
pub open spec fn insertion_point(s: Seq<Region>, key: u64) -> int
    decreases s.len(),
{
    if s.len() == 0 {
        0
    } else if s[0].start > key {
        0
    } else {
        1 + insertion_point(s.drop_first(), key)
    }
}

/// Stable sort of `s` by start, built by inserting each region in turn.
pub open spec fn sort_by_start(s: Seq<Region>) -> Seq<Region>
    decreases s.len(),
{
    if s.len() == 0 {
        s
    } else {
        let r = sort_by_start(s.drop_last());
        r.insert(insertion_point(r, s.last().start), s.last())
    }
}

/// `r` with the children of every node sorted by start.
pub open spec fn sorted_tree(r: Region) -> Region
    decreases r,
{
    Region { children: sort_by_start(sorted_subtrees(r.children)), ..r }
}

/// The regions of `s` with their subtrees sorted, in the order of `s`.
pub open spec fn sorted_subtrees(s: Seq<Region>) -> Seq<Region>
    decreases s,
{
    Seq::new(
        s.len(),
        |i: int|
            if 0 <= i < s.len() {
                sorted_tree(s[i])
            } else {
                arbitrary()
            },
    )
}

proof fn lemma_insertion_point_step(s: Seq<Region>, key: u64, k: int)
    requires
        0 <= k < s.len(),
        s[k].start <= key,
    ensures
        insertion_point(s.subrange(k, s.len() as int), key) == 1 + insertion_point(
            s.subrange(k + 1, s.len() as int),
            key,
        ),
{
    assert(s.subrange(k, s.len() as int).drop_first() =~= s.subrange(k + 1, s.len() as int));
}

/// Finds where a region starting at `key` goes in `nodes`.
fn find_insertion_point(nodes: &Vec<FileNode>, key: u64) -> (r: usize)
    ensures
        r == insertion_point(views(nodes@), key),
        r <= nodes@.len(),
{
    let ghost s = views(nodes@);
    let mut k: usize = 0;
    assert(s.subrange(0, s.len() as int) =~= s);
    while k < nodes.len() && nodes[k].bytes_start <= key
        invariant
            s == views(nodes@),
            k <= nodes@.len(),
            insertion_point(s, key) == k + insertion_point(s.subrange(k as int, s.len() as int), key),
        decreases nodes@.len() - k,
    {
        proof {
            lemma_insertion_point_step(s, key, k as int);
        }
        k = k + 1;
    }
    k
}

/// Sorts `nodes` by start, keeping the order of regions that start together.
fn sort_shallow(nodes: Vec<FileNode>) -> (r: Vec<FileNode>)
    ensures
        views(r@) == sort_by_start(views(nodes@)),
{
    let ghost s = views(nodes@);
    let mut rest = nodes;
    let mut out: Vec<FileNode> = Vec::new();
    let ghost mut k: int = 0;
    while rest.len() > 0
        invariant
            0 <= k <= s.len(),
            views(rest@) == s.subrange(k, s.len() as int),
            rest@.len() == s.len() - k,
            views(out@) == sort_by_start(s.subrange(0, k)),
        decreases rest@.len(),
    {
        let ghost rest0 = rest@;
        assert(views(rest0)[0] == s.subrange(k, s.len() as int)[0]);
        let x = rest.remove(0);
        let p = find_insertion_point(&out, x.bytes_start);
        let ghost before = out@;
        out.insert(p, x);
        proof {
            assert(x == rest0[0]);
            assert(views(rest0)[0] == x@);
            assert(s.subrange(k, s.len() as int)[0] == s[k]);
            assert(x@ == s[k]);
            assert(s.subrange(0, k + 1).drop_last() =~= s.subrange(0, k));
            assert(views(out@) =~= views(before).insert(p as int, x@));
            k = k + 1;
            assert(views(rest@) =~= views(rest0).drop_first());
            assert(views(rest@) =~= s.subrange(k, s.len() as int));
        }
    }
    assert(s.subrange(0, k) =~= s);
    out
}

proof fn lemma_sorted_node_view(c: FileNode, kids: Vec<FileNode>, sorted: Vec<FileNode>, d: FileNode)
    requires
        c.children == kids,
        views(sorted@) == sort_by_start(sorted_subtrees(views(kids@))),
        d.children == sorted,
        d.name == c.name,
        d.bytes_start == c.bytes_start,
        d.bytes_end == c.bytes_end,
        d.ram_bytes_start == c.ram_bytes_start,
        d.ram_bytes_end == c.ram_bytes_end,
        d.file_bytes_start == c.file_bytes_start,
        d.file_bytes_end == c.file_bytes_end,
        d.ty == c.ty,
        d.notes == c.notes,
    ensures
        d@ == sorted_tree(c@),
{
    let cv = c@;
    assert(cv.children =~= views(kids@));
    assert(d@.children =~= views(sorted@));
    assert(sorted_tree(cv).children == d@.children);
    assert(d@ =~= sorted_tree(cv));
}

/// Sorts every subtree of `nodes`, then `nodes` themselves.
fn sort_nodes(nodes: Vec<FileNode>) -> (r: Vec<FileNode>)
    ensures
        views(r@) == sort_by_start(sorted_subtrees(views(nodes@))),
    decreases nodes,
{
    let ghost s = views(nodes@);
    let mut rest = nodes;
    let mut done: Vec<FileNode> = Vec::new();
    while rest.len() > 0
        invariant
            done@.len() <= s.len(),
            rest@ == nodes@.subrange(done@.len() as int, nodes@.len() as int),
            s == views(nodes@),
            views(done@) == sorted_subtrees(s).subrange(0, done@.len() as int),
        decreases rest@.len(),
    {
        let ghost k = done@.len() as int;
        let mut c = rest.remove(0);
        assert(c == nodes@[k]);
        let ghost c0 = c;
        let mut kids: Vec<FileNode> = Vec::new();
        std::mem::swap(&mut c.children, &mut kids);
        proof {
            assert(decreases_to!(nodes => nodes@[k]));
            assert(decreases_to!(nodes@[k] => nodes@[k].children));
        }
        let sorted = sort_nodes(kids);
        c.children = sorted;
        proof {
            lemma_sorted_node_view(c0, kids, sorted, c);
        }
        done.push(c);
        assert(views(done@) =~= sorted_subtrees(s).subrange(0, done@.len() as int));
        assert(rest@ =~= nodes@.subrange(done@.len() as int, nodes@.len() as int));
    }
    assert(sorted_subtrees(s).subrange(0, done@.len() as int) =~= sorted_subtrees(s));
    sort_shallow(done)
}

impl FileNode {
    /// Sorts the children of every node of the tree by start.
    pub fn sort(&mut self)
        ensures
            final(self)@ == sorted_tree(old(self)@),
    {
        let ghost before = *self;
        let mut kids: Vec<FileNode> = Vec::new();
        std::mem::swap(&mut self.children, &mut kids);
        let sorted = sort_nodes(kids);
        self.children = sorted;
        proof {
            lemma_sorted_node_view(before, kids, sorted, *self);
        }
    }
}

} // verus!

verus! {

proof fn lemma_insertion_point(r: Seq<Region>, key: u64)
    ensures
        0 <= insertion_point(r, key) <= r.len(),
        forall|k: int| 0 <= k < insertion_point(r, key) ==> #[trigger] r[k].start <= key,
        insertion_point(r, key) < r.len() ==> r[insertion_point(r, key)].start > key,
    decreases r.len(),
{
    if r.len() > 0 && r[0].start <= key {
        lemma_insertion_point(r.drop_first(), key);
        assert forall|k: int| 0 <= k < insertion_point(r, key) implies #[trigger] r[k].start <= key by {
            if k > 0 {
                assert(r[k] == r.drop_first()[k - 1]);
            }
        }
    }
}

/// Sorting by start yields an ascending permutation-like rearrangement: the same
/// number of regions, each one taken from the input.
pub proof fn lemma_sort_by_start(s: Seq<Region>)
    ensures
        sort_by_start(s).len() == s.len(),
        forall|k: int| 0 <= k < s.len() ==> exists|m: int| 0 <= m < s.len() && #[trigger] sort_by_start(s)[k] == s[m],
        starts_ascending(sort_by_start(s)),
    decreases s.len(),
{
    if s.len() > 0 {
        let d = s.drop_last();
        let x = s.last();
        let r = sort_by_start(d);
        lemma_sort_by_start(d);
        lemma_insertion_point(r, x.start);
        let p = insertion_point(r, x.start);
        let t = r.insert(p, x);
        assert(t == sort_by_start(s));
        assert forall|k: int| 0 <= k < s.len() implies exists|m: int| 0 <= m < s.len() && #[trigger] t[k] == s[m] by {
            if k < p {
                let m = choose|m: int| 0 <= m < d.len() && r[k] == d[m];
                assert(t[k] == s[m]);
            } else if k == p {
                assert(t[k] == s[s.len() - 1]);
            } else {
                let m = choose|m: int| 0 <= m < d.len() && r[k - 1] == d[m];
                assert(t[k] == s[m]);
            }
        }
        assert forall|a: int, b: int| 0 <= a < b < t.len() implies #[trigger] t[a].start <= #[trigger] t[b].start by {
            if b < p {
            } else if b == p {
                assert(r[a].start <= x.start);
            } else if a < p {
                assert(r[a].start <= x.start);
                assert(r[p].start > x.start);
                assert(r[p].start <= r[b - 1].start || p == b - 1);
            } else if a == p {
                assert(r[p].start > x.start);
                assert(r[p].start <= r[b - 1].start || p == b - 1);
            } else {
                assert(r[a - 1].start <= r[b - 1].start);
            }
        }
    }
}

/// Sorting keeps every property that all the input regions have.
pub proof fn lemma_sort_keeps(s: Seq<Region>, q: spec_fn(Region) -> bool)
    requires
        forall|k: int| 0 <= k < s.len() ==> q(#[trigger] s[k]),
    ensures
        forall|k: int| 0 <= k < s.len() ==> q(#[trigger] sort_by_start(s)[k]),
{
    lemma_sort_by_start(s);
    assert forall|k: int| 0 <= k < s.len() implies q(#[trigger] sort_by_start(s)[k]) by {
        let m = choose|m: int| 0 <= m < s.len() && sort_by_start(s)[k] == s[m];
    }
}

/// Sorting keeps a list free of overlapping pairs.
pub proof fn lemma_sort_no_conflicts(s: Seq<Region>)
    requires
        no_conflicts(s),
    ensures
        no_conflicts(sort_by_start(s)),
{
    lemma_sort_by_start(s);
    let t = sort_by_start(s);
    assert forall|a: int, b: int| 0 <= a < t.len() && 0 <= b < t.len() && a != b implies !(#[trigger] t[a].conflicts(#[trigger] t[b])) by {
        let ma = choose|m: int| 0 <= m < s.len() && t[a] == s[m];
        let mb = choose|m: int| 0 <= m < s.len() && t[b] == s[m];
        if ma != mb {
            assert(!s[ma].conflicts(s[mb]));
        }
    }
}

/// A sorted tree is sorted at every node, keeps the range of its root, and
/// keeps any property that every node range of the input has.
pub proof fn lemma_sorted_tree(r: Region, p: spec_fn(u64, u64) -> bool)
    ensures
        tree_sorted(sorted_tree(r)),
        sorted_tree(r).start == r.start,
        sorted_tree(r).end == r.end,
        all_ranges(r, p) ==> all_ranges(sorted_tree(r), p),
    decreases r,
{
    let sub = sorted_subtrees(r.children);
    assert forall|i: int| 0 <= i < sub.len() implies tree_sorted(#[trigger] sub[i]) && (all_ranges(
        r.children[i],
        p,
    ) ==> all_ranges(sub[i], p)) by {
        lemma_sorted_tree(r.children[i], p);
    }
    lemma_sort_by_start(sub);
    lemma_sort_keeps(sub, |x: Region| tree_sorted(x));
    if all_ranges(r, p) {
        assert forall|i: int| 0 <= i < sub.len() implies all_ranges(#[trigger] sub[i], p) by {
            assert(all_ranges(r.children[i], p));
        }
        lemma_sort_keeps(sub, |x: Region| all_ranges(x, p));
    }
}

} // verus!

verus! {

/// The tree under `root` over the flat list `flat`: overlaps resolved, then
/// the children of every node sorted by start.
pub open spec fn region_tree(root: Region, flat: Seq<Region>) -> Region {
    sorted_tree(Region { children: resolve(flat), ..root })
}

/// A non-empty range that ends by `total`.
pub open spec fn inside(total: u64) -> spec_fn(u64, u64) -> bool {
    |s: u64, e: u64| s < e && e <= total
}

/// A range whose end is not before its start.
pub open spec fn ordered() -> spec_fn(u64, u64) -> bool {
    |s: u64, e: u64| s <= e
}

/// Builds the tree under `root` over `flat`, as [`region_tree`] says.
pub fn build_tree(root: FileNode, flat: Vec<FileNode>) -> (r: FileNode)
    requires
        forall|k: int| 0 <= k < flat@.len() ==> #[trigger] flat@[k].bytes_start <= flat@[k].bytes_end,
    ensures
        r@ == region_tree(root@, views(flat@)),
{
    let ghost root0 = root;
    let mut root = root;
    let kids = resolve_overlaps(flat);
    root.children = kids;
    proof {
        assert(root@.children =~= views(kids@));
        assert(root@ =~= Region { children: resolve(views(flat@)), ..root0@ });
    }
    root.sort();
    root
}

proof fn lemma_all_ranges_weaken(r: Region, p: spec_fn(u64, u64) -> bool, q: spec_fn(u64, u64) -> bool)
    requires
        all_ranges(r, p),
        forall|s: u64, e: u64| #[trigger] p(s, e) ==> q(s, e),
    ensures
        all_ranges(r, q),
    decreases r,
{
    assert forall|i: int| 0 <= i < r.children.len() implies all_ranges(#[trigger] r.children[i], q) by {
        lemma_all_ranges_weaken(r.children[i], p, q);
    }
}

/// What holds of every region tree built over non-empty regions that end by
/// `root.end`, under a root that starts at 0: the root keeps its range; every
/// node ends at or after its start; every region below the root is non-empty
/// and ends by the root's end; at every node the children ascend by start; and
/// any two children of the root lie apart, in order, or cover the same range.
pub proof fn lemma_region_tree(root: Region, flat: Seq<Region>)
    requires
        root.start == 0,
        all_trees_ranges(flat, inside(root.end)),
    ensures
        region_tree(root, flat).start == 0,
        region_tree(root, flat).end == root.end,
        all_ranges(region_tree(root, flat), ordered()),
        all_trees_ranges(region_tree(root, flat).children, inside(root.end)),
        tree_sorted(region_tree(root, flat)),
        apart_or_same(region_tree(root, flat).children),
{
    let p = inside(root.end);
    let res = resolve(flat);
    lemma_resolve(flat, p);
    let top = Region { children: res, ..root };
    let t = region_tree(root, flat);
    lemma_sorted_tree(top, ordered());
    let sub = sorted_subtrees(res);
    assert forall|i: int| 0 <= i < sub.len() implies all_ranges(#[trigger] sub[i], p) by {
        lemma_sorted_tree(res[i], p);
    }
    lemma_sort_keeps(sub, |x: Region| all_ranges(x, p));
    lemma_sort_by_start(sub);
    assert forall|a: int, b: int| 0 <= a < sub.len() && 0 <= b < sub.len() && a != b implies !(#[trigger] sub[a].conflicts(#[trigger] sub[b])) by {
        lemma_sorted_tree(res[a], p);
        lemma_sorted_tree(res[b], p);
        assert(!res[a].conflicts(res[b]));
    }
    lemma_sort_no_conflicts(sub);
    let kids = t.children;
    assert(kids == sort_by_start(sub));
    assert forall|a: int, b: int| 0 <= a < b < kids.len() implies (#[trigger] kids[a].end <= #[trigger] kids[b].start || (kids[a].start == kids[b].start
            && kids[a].end == kids[b].end)) by {
        assert(all_ranges(kids[a], p));
        assert(all_ranges(kids[b], p));
        assert(!kids[a].conflicts(kids[b]));
        assert(kids[a].start <= kids[b].start);
    }
    assert forall|i: int| 0 <= i < kids.len() implies all_ranges(#[trigger] kids[i], ordered()) by {
        lemma_all_ranges_weaken(kids[i], p, ordered());
    }
}

} // verus!

verus! {

/// Sorting keeps a list free of regions that cover the same range.
pub proof fn lemma_sort_distinct(s: Seq<Region>)
    requires
        distinct_ranges(s),
    ensures
        distinct_ranges(sort_by_start(s)),
    decreases s.len(),
{
    if s.len() > 0 {
        let d = s.drop_last();
        let x = s.last();
        let r = sort_by_start(d);
        assert(distinct_ranges(d)) by {
            assert forall|a: int, b: int| 0 <= a < d.len() && 0 <= b < d.len() && a != b implies !#[trigger] same_range(d[a], d[b]) by {
                assert(!same_range(s[a], s[b]));
            }
        }
        lemma_sort_distinct(d);
        lemma_sort_by_start(d);
        lemma_insertion_point(r, x.start);
        let p = insertion_point(r, x.start);
        let t = r.insert(p, x);
        assert(t == sort_by_start(s));
        assert forall|k: int| 0 <= k < r.len() implies !same_range(#[trigger] r[k], x) && !same_range(x, r[k]) by {
            let m = choose|m: int| 0 <= m < d.len() && r[k] == d[m];
            assert(!same_range(s[m], s[s.len() - 1]));
        }
        assert forall|a: int, b: int| 0 <= a < t.len() && 0 <= b < t.len() && a != b implies !#[trigger] same_range(t[a], t[b]) by {
            let ra = if a < p { a } else { a - 1 };
            let rb = if b < p { b } else { b - 1 };
            if a == p {
                assert(!same_range(x, r[rb]));
            } else if b == p {
                assert(!same_range(r[ra], x));
            } else {
                assert(ra != rb);
                assert(!same_range(r[ra], r[rb]));
            }
        }
    }
}

/// Children of the root of a region tree lie apart and in order when the flat
/// list holds non-empty regions inside the root and no two of them cover the
/// same range.
pub proof fn lemma_region_tree_apart(root: Region, flat: Seq<Region>)
    requires
        root.start == 0,
        all_trees_ranges(flat, inside(root.end)),
        distinct_ranges(flat),
    ensures
        strictly_apart(region_tree(root, flat).children),
{
    lemma_region_tree(root, flat);
    let p = inside(root.end);
    let res = resolve(flat);
    lemma_resolve_distinct(flat);
    let sub = sorted_subtrees(res);
    assert forall|a: int, b: int| 0 <= a < sub.len() && 0 <= b < sub.len() && a != b implies !#[trigger] same_range(sub[a], sub[b]) by {
        lemma_sorted_tree(res[a], p);
        lemma_sorted_tree(res[b], p);
        assert(!same_range(res[a], res[b]));
    }
    lemma_sort_distinct(sub);
    let kids = region_tree(root, flat).children;
    assert(kids == sort_by_start(sub));
    assert forall|a: int, b: int| 0 <= a < b < kids.len() implies #[trigger] kids[a].end <= #[trigger] kids[b].start by {
        assert(!same_range(kids[a], kids[b]));
        assert(kids[a].end <= kids[b].start || (kids[a].start == kids[b].start && kids[a].end == kids[b].end));
    }
}

} // verus!
