//! The visibility and indexing engine: flattens the tree into the rows a
//! renderer shows, assigning each visible directory a dense ordinal, and
//! toggles a directory's expand flag by that ordinal.

use vstd::prelude::*;

verus! {

use crate::model::{count_seq, lemma_oks_seq_all, lemma_oks_seq_index, sum_sizes, Node, NodeKind};

/// One row of the current visible projection: the node it shows, its
/// depth below the root, and, for a directory, the ordinal assigned in
/// traversal order among directories only.
pub struct ViewItem<'a> {
    pub index: Option<usize>,
    pub node: &'a Node,
    pub depth: usize,
}

/// An abstract row of the visible projection.
pub ghost struct VRow {
    pub node: Node,
    pub depth: nat,
    pub ord: Option<nat>,
}

/// The rows a depth-first pre-order walk of `n` emits, starting at depth
/// `depth` with the directory-ordinal counter at `c`: one row for `n`
/// itself, then, only when `n` is an expanded directory, the rows of its
/// children in their fixed order. Returns the rows and the counter after
/// the walk.
pub open spec fn vitems(n: Node, depth: nat, c: nat) -> (Seq<VRow>, nat)
    decreases n,
{
    let head = VRow {
        node: n,
        depth,
        ord: if n.is_dir() {
            Some(c)
        } else {
            None
        },
    };
    let c1: nat = if n.is_dir() {
        c + 1
    } else {
        c
    };
    if n.is_expanded() {
        let rest = vitems_seq(n.spec_children(), depth + 1, c1);
        (seq![head] + rest.0, rest.1)
    } else {
        (seq![head], c1)
    }
}

/// The rows of a sibling group, walked left to right.
pub open spec fn vitems_seq(s: Seq<Node>, depth: nat, c: nat) -> (Seq<VRow>, nat)
    decreases s,
{
    if s.len() == 0 {
        (Seq::empty(), c)
    } else {
        let first = vitems(s[0], depth, c);
        let rest = vitems_seq(s.drop_first(), depth, first.1);
        (first.0 + rest.0, rest.1)
    }
}

/// The number of directories the visible walk of `n` passes: `n` itself
/// when it is a directory, plus, when `n` is expanded, those of its
/// children.
pub open spec fn vdirs(n: Node) -> nat
    decreases n,
{
    (if n.is_dir() {
        1nat
    } else {
        0nat
    }) + if n.is_expanded() {
        vdirs_seq(n.spec_children())
    } else {
        0nat
    }
}

/// The visible directories of a sibling group.
pub open spec fn vdirs_seq(s: Seq<Node>) -> nat
    decreases s,
{
    if s.len() == 0 {
        0nat
    } else {
        vdirs(s[0]) + vdirs_seq(s.drop_first())
    }
}

/// The concrete rows `items` show exactly the abstract rows `rows`: the
/// same nodes at the same depths, a directory row carrying its ordinal
/// and a file row carrying none.
pub open spec fn rows_match<'a>(items: Seq<ViewItem<'a>>, rows: Seq<VRow>) -> bool {
    &&& items.len() == rows.len()
    &&& forall|k: int|
        0 <= k < rows.len() ==> {
            &&& *(#[trigger] items[k]).node == rows[k].node
            &&& items[k].depth == rows[k].depth
            &&& (rows[k].ord is Some ==> items[k].index == Some(rows[k].ord->0 as usize))
            &&& (rows[k].ord is None ==> items[k].index is None)
        }
}

/// Derives the currently visible rows of the tree under `root`, in
/// traversal order, with dense zero-based ordinals on the directory rows.
/// The precondition only asks that the node count fit a machine word,
/// which holds of any tree that exists in memory.
pub fn build_visible_list<'a>(root: &'a Node) -> (r: Vec<ViewItem<'a>>)
    requires
        root.count() <= usize::MAX,
    ensures
        rows_match(r@, vitems(*root, 0, 0).0),
{
    let mut results: Vec<ViewItem<'a>> = Vec::new();
    let mut counter: usize = 0;
    scan_recursive(root, 0, &mut counter, &mut results);
    proof {
        assert(results@.subrange(0, results@.len() as int) =~= results@);
    }
    results
}

/// Emits the row of `node` and, when it is an expanded directory, the
/// rows of its subtree, appending to `out` and advancing the ordinal
/// counter over the directories passed.
fn scan_recursive<'a>(node: &'a Node, depth: usize, counter: &mut usize, out: &mut Vec<
    ViewItem<'a>,
>)
    requires
        depth + node.count() <= usize::MAX,
        *old(counter) + node.count() <= usize::MAX,
    ensures
        ({
            let r = vitems(*node, depth as nat, *old(counter) as nat);
            &&& final(out)@.len() == old(out)@.len() + r.0.len()
            &&& forall|k: int| 0 <= k < old(out)@.len() ==> final(out)@[k] == old(out)@[k]
            &&& rows_match(
                final(out)@.subrange(old(out)@.len() as int, final(out)@.len() as int),
                r.0,
            )
            &&& *final(counter) == r.1
        }),
    decreases node.count(), 0int,
{
    let ghost c0 = *counter as nat;
    let ghost out0 = out@;
    let is_dir = matches!(&node.kind, NodeKind::Directory(_));
    let index = if is_dir {
        let idx = *counter;
        *counter = *counter + 1;
        Some(idx)
    } else {
        None
    };
    out.push(ViewItem { index, node, depth });
    let ghost r = vitems(*node, depth as nat, c0);
    match &node.kind {
        NodeKind::Directory(dp) => {
            if dp.expanded {
                proof {
                    assert(node.count() == 1 + count_seq(node.spec_children()));
                    assert(dp.children@.skip(0) =~= node.spec_children());
                }
                scan_children(&dp.children, 0, depth + 1, counter, out);
                proof {
                    let rs = vitems_seq(node.spec_children(), (depth + 1) as nat, (c0 + 1) as nat);
                    let seg = out@.subrange(out0.len() as int, out@.len() as int);
                    let sub = out@.subrange(out0.len() as int + 1, out@.len() as int);
                    assert(rows_match(sub, rs.0));
                    assert(r.0 =~= seq![r.0[0]] + rs.0);
                    assert(seg.len() == r.0.len());
                    assert forall|k: int| 0 <= k < r.0.len() implies {
                        &&& *(#[trigger] seg[k]).node == r.0[k].node
                        &&& seg[k].depth == r.0[k].depth
                        &&& (r.0[k].ord is Some ==> seg[k].index == Some(r.0[k].ord->0 as usize))
                        &&& (r.0[k].ord is None ==> seg[k].index is None)
                    } by {
                        if k == 0 {
                            assert(seg[0] == out@[out0.len() as int]);
                        } else {
                            assert(seg[k] == sub[k - 1]);
                            assert(r.0[k] == rs.0[k - 1]);
                        }
                    }
                }
            } else {
                proof {
                    let seg = out@.subrange(out0.len() as int, out@.len() as int);
                    assert(seg =~= seq![out@[out0.len() as int]]);
                }
            }
        },
        NodeKind::File => {
            proof {
                let seg = out@.subrange(out0.len() as int, out@.len() as int);
                assert(seg =~= seq![out@[out0.len() as int]]);
            }
        },
    }
}

/// Walks the tail of a sibling group, from position `i` on, appending
/// each sibling's rows in order.
fn scan_children<'a>(s: &'a Vec<Node>, i: usize, depth: usize, counter: &mut usize, out: &mut Vec<
    ViewItem<'a>,
>)
    requires
        i <= s@.len(),
        depth + count_seq(s@.skip(i as int)) <= usize::MAX,
        *old(counter) + count_seq(s@.skip(i as int)) <= usize::MAX,
    ensures
        ({
            let r = vitems_seq(s@.skip(i as int), depth as nat, *old(counter) as nat);
            &&& final(out)@.len() == old(out)@.len() + r.0.len()
            &&& forall|k: int| 0 <= k < old(out)@.len() ==> final(out)@[k] == old(out)@[k]
            &&& rows_match(
                final(out)@.subrange(old(out)@.len() as int, final(out)@.len() as int),
                r.0,
            )
            &&& *final(counter) == r.1
        }),
    decreases count_seq(s@.skip(i as int)), 1int,
{
    if i < s.len() {
        proof {
            lemma_count_seq_parts(s@, i as int);
        }
        let ghost c0 = *counter as nat;
        let ghost out0 = out@;
        proof {
            lemma_vitems_vdirs(s@[i as int], depth as nat, c0);
            lemma_vdirs_le_count(s@[i as int]);
        }
        scan_recursive(&s[i], depth, counter, out);
        let ghost c1 = *counter as nat;
        let ghost out1 = out@;
        scan_children(s, i + 1, depth, counter, out);
        proof {
            let whole = s@.skip(i as int);
            assert(whole.drop_first() =~= s@.skip(i + 1));
            assert(whole[0] == s@[i as int]);
            let r = vitems_seq(whole, depth as nat, c0);
            let ra = vitems(s@[i as int], depth as nat, c0);
            let rb = vitems_seq(s@.skip(i + 1), depth as nat, ra.1);
            assert(r.0 == ra.0 + rb.0);
            let seg = out@.subrange(out0.len() as int, out@.len() as int);
            let sega = out@.subrange(out0.len() as int, out1.len() as int);
            let segb = out@.subrange(out1.len() as int, out@.len() as int);
            assert(sega =~= out1.subrange(out0.len() as int, out1.len() as int));
            assert(rows_match(sega, ra.0));
            assert(rows_match(segb, rb.0));
            assert(seg =~= sega + segb);
            assert forall|k: int| 0 <= k < r.0.len() implies {
                &&& *(#[trigger] seg[k]).node == r.0[k].node
                &&& seg[k].depth == r.0[k].depth
                &&& (r.0[k].ord is Some ==> seg[k].index == Some(r.0[k].ord->0 as usize))
                &&& (r.0[k].ord is None ==> seg[k].index is None)
            } by {
                if k < ra.0.len() {
                    assert(seg[k] == sega[k]);
                    assert(r.0[k] == ra.0[k]);
                } else {
                    assert(seg[k] == segb[k - ra.0.len()]);
                    assert(r.0[k] == rb.0[k - ra.0.len()]);
                }
            }
        }
    } else {
        proof {
            let seg = out@.subrange(out@.len() as int, out@.len() as int);
            assert(seg =~= Seq::<ViewItem>::empty());
        }
    }
}

/// The walk advances the ordinal counter by exactly the number of
/// visible directories it passes.
pub proof fn lemma_vitems_vdirs(n: Node, depth: nat, c: nat)
    ensures
        vitems(n, depth, c).1 == c + vdirs(n),
    decreases n, 0int,
{
    if n.is_expanded() {
        let c1: nat = if n.is_dir() { (c + 1) as nat } else { c };
        lemma_vitems_seq_vdirs(n.spec_children(), depth + 1, c1);
    }
}

/// The counter advance over a sibling group.
pub proof fn lemma_vitems_seq_vdirs(s: Seq<Node>, depth: nat, c: nat)
    ensures
        vitems_seq(s, depth, c).1 == c + vdirs_seq(s),
    decreases s, 1int,
{
    if s.len() > 0 {
        lemma_vitems_vdirs(s[0], depth, c);
        lemma_vitems_seq_vdirs(s.drop_first(), depth, vitems(s[0], depth, c).1);
    }
}

/// A walk passes no more directories than the subtree has nodes.
pub proof fn lemma_vdirs_le_count(n: Node)
    ensures
        vdirs(n) <= n.count(),
    decreases n, 0int,
{
    if n.is_expanded() {
        lemma_vdirs_seq_le_count(n.spec_children());
    }
}

/// The directory bound over a sibling group.
pub proof fn lemma_vdirs_seq_le_count(s: Seq<Node>)
    ensures
        vdirs_seq(s) <= count_seq(s),
    decreases s, 1int,
{
    if s.len() > 0 {
        lemma_vdirs_le_count(s[0]);
        lemma_vdirs_seq_le_count(s.drop_first());
    }
}

/// Splitting a sibling group's node count at the next element.
proof fn lemma_count_seq_parts(s: Seq<Node>, i: int)
    requires
        0 <= i < s.len(),
    ensures
        count_seq(s.skip(i)) == s[i].count() + count_seq(s.skip(i + 1)),
        s[i].count() >= 1,
        count_seq(s.skip(i + 1)) >= 0,
{
    assert(s.skip(i).drop_first() =~= s.skip(i + 1));
    assert(s.skip(i)[0] == s[i]);
}

/// `n` is `o` with exactly one directory's expand flag flipped: the
/// visible directory whose ordinal is `t` when the walk of `o` starts
/// its counter at `c`. Everything else -- paths, sizes, the shape of the
/// tree and every other expand flag -- is unchanged.
pub open spec fn toggled_tree(o: Node, n: Node, c: nat, t: nat) -> bool
    decreases o, 0int,
{
    if !o.is_dir() {
        false
    } else if c == t {
        n == o.toggled()
    } else if o.is_expanded() && c < t {
        &&& n.is_dir()
        &&& n.is_expanded()
        &&& n.spec_path() == o.spec_path()
        &&& n.spec_size() == o.spec_size()
        &&& toggled_children(o.spec_children(), n.spec_children(), (c + 1) as nat, t)
    } else {
        false
    }
}

/// The sibling-group form of [`toggled_tree`]: the flip happened in the
/// sibling holding ordinal `t`, all other siblings are unchanged.
pub open spec fn toggled_children(os: Seq<Node>, ns: Seq<Node>, c: nat, t: nat) -> bool
    decreases os, 1int,
{
    if os.len() == 0 {
        false
    } else if t < c + vdirs(os[0]) {
        &&& ns.len() == os.len()
        &&& toggled_tree(os[0], ns[0], c, t)
        &&& ns.drop_first() == os.drop_first()
    } else {
        &&& ns.len() == os.len()
        &&& ns[0] == os[0]
        &&& toggled_children(os.drop_first(), ns.drop_first(), (c + vdirs(os[0])) as nat, t)
    }
}

/// Finds the visible directory with ordinal `target_index` -- numbering
/// directories in the same pre-order walk that builds the visible list,
/// skipping collapsed subtrees -- and flips its expand flag. Returns true
/// exactly when such a directory exists; otherwise the tree is left
/// untouched. The tree keeps its node count, and a well-formed tree
/// stays well-formed. The precondition only asks that the node count
/// fit a machine word, which holds of any tree that exists in memory.
pub fn toggle_by_index(root: &mut Node, target_index: usize) -> (r: bool)
    requires
        old(root).count() <= usize::MAX,
    ensures
        r == (target_index < vdirs(*old(root))),
        !r ==> *final(root) == *old(root),
        r ==> toggled_tree(*old(root), *final(root), 0, target_index as nat),
        final(root).count() == old(root).count(),
        old(root).wf() ==> final(root).wf(),
{
    let mut current_index: usize = 0;
    let r = find_and_toggle(root, &mut current_index, target_index);
    proof {
        if r {
            lemma_toggled_tree_preserves(*old(root), *root, 0, target_index as nat);
        }
    }
    r
}

/// The number of directories currently visible in the walk of `node`.
fn vdirs_exec(node: &Node) -> (r: usize)
    requires
        node.count() <= usize::MAX,
    ensures
        r == vdirs(*node),
    decreases node.count(), 0int,
{
    proof {
        lemma_vdirs_le_count(*node);
    }
    match &node.kind {
        NodeKind::File => 0,
        NodeKind::Directory(dp) => {
            if dp.expanded {
                proof {
                    assert(node.count() == 1 + count_seq(node.spec_children()));
                    assert(dp.children@.skip(0) =~= dp.children@);
                    lemma_vdirs_seq_le_count(dp.children@);
                }
                let sub = vdirs_seq_exec(&dp.children, 0);
                1 + sub
            } else {
                1
            }
        },
    }
}

/// The visible directories of the tail of a sibling group.
fn vdirs_seq_exec(s: &Vec<Node>, i: usize) -> (r: usize)
    requires
        i <= s@.len(),
        count_seq(s@.skip(i as int)) <= usize::MAX,
    ensures
        r == vdirs_seq(s@.skip(i as int)),
    decreases count_seq(s@.skip(i as int)), 1int,
{
    if i == s.len() {
        proof {
            assert(s@.skip(i as int) =~= Seq::<Node>::empty());
        }
        0
    } else {
        proof {
            lemma_count_seq_parts(s@, i as int);
            lemma_vdirs_le_count(s@[i as int]);
            lemma_vdirs_seq_le_count(s@.skip(i + 1));
            assert(s@.skip(i as int)[0] == s@[i as int]);
            assert(s@.skip(i as int).drop_first() =~= s@.skip(i + 1));
        }
        let a = vdirs_exec(&s[i]);
        let b = vdirs_seq_exec(s, i + 1);
        a + b
    }
}

/// Walks the visible directories in pre-order; on the one whose ordinal
/// equals `target` the expand flag is flipped and the walk stops. A
/// subtree that cannot hold the target ordinal is passed over whole,
/// untouched, its visible directories added to the counter.
fn find_and_toggle(node: &mut Node, counter: &mut usize, target: usize) -> (r: bool)
    requires
        *old(counter) + old(node).count() <= usize::MAX,
    ensures
        r == (*old(counter) <= target && target < *old(counter) + vdirs(*old(node))),
        !r ==> *final(node) == *old(node) && *final(counter) == *old(counter) + vdirs(
            *old(node),
        ),
        r ==> toggled_tree(*old(node), *final(node), *old(counter) as nat, target as nat),
    decreases old(node).count(), 0int,
{
    proof {
        lemma_vdirs_le_count(*old(node));
    }
    let vd = vdirs_exec(node);
    let end = *counter + vd;
    if !(*counter <= target && target < end) {
        *counter = end;
        return false;
    }
    if *counter == target {
        node.toggle();
        return true;
    }
    let ghost c0 = *old(counter) as nat;
    *counter = *counter + 1;
    assert(node.is_dir() && node.is_expanded());
    match &mut node.kind {
        NodeKind::Directory(dp) => {
            proof {
                assert(old(node).count() == 1 + count_seq(old(node).spec_children()));
                assert(dp.children@ == old(node).spec_children());
                assert(dp.children@.skip(0) =~= dp.children@);
            }
            let found = toggle_in_children(&mut dp.children, 0, counter, target);
            proof {
                assert(found);
                assert(dp.children@.skip(0) =~= dp.children@);
                assert(toggled_children(
                    old(node).spec_children(),
                    dp.children@,
                    (c0 + 1) as nat,
                    target as nat,
                ));
                assert(node.is_dir() && node.is_expanded());
                assert(node.spec_children() == dp.children@);
                assert(node.spec_path() == old(node).spec_path());
                assert(node.spec_size() == old(node).spec_size());
                assert(toggled_tree(*old(node), *node, c0, target as nat));
            }
            found
        },
        NodeKind::File => {
            assert(false);
            false
        },
    }
}

/// Continues the toggling walk through the tail of a sibling group,
/// from position `i` on.
fn toggle_in_children(s: &mut Vec<Node>, i: usize, counter: &mut usize, target: usize) -> (r:
    bool)
    requires
        i <= old(s)@.len(),
        *old(counter) + count_seq(old(s)@.skip(i as int)) <= usize::MAX,
    ensures
        r == (*old(counter) <= target && target < *old(counter) + vdirs_seq(
            old(s)@.skip(i as int),
        )),
        final(s)@.len() == old(s)@.len(),
        !r ==> *final(s) == *old(s) && *final(counter) == *old(counter) + vdirs_seq(
            old(s)@.skip(i as int),
        ),
        r ==> final(s)@.take(i as int) == old(s)@.take(i as int) && toggled_children(
            old(s)@.skip(i as int),
            final(s)@.skip(i as int),
            *old(counter) as nat,
            target as nat,
        ),
    decreases count_seq(old(s)@.skip(i as int)), 1int,
{
    if i == s.len() {
        proof {
            assert(old(s)@.skip(i as int) =~= Seq::<Node>::empty());
        }
        return false;
    }
    let ghost w = old(s)@.skip(i as int);
    let ghost c0 = *counter as nat;
    proof {
        lemma_count_seq_parts(old(s)@, i as int);
        lemma_vdirs_le_count(old(s)@[i as int]);
        assert(w[0] == old(s)@[i as int]);
        assert(w.drop_first() =~= old(s)@.skip(i + 1));
        assert(vdirs_seq(w) == vdirs(w[0]) + vdirs_seq(w.drop_first()));
    }
    let vd = vdirs_exec(&s[i]);
    let end = *counter + vd;
    if *counter <= target && target < end {
        let elem = &mut s[i];
        let found = find_and_toggle(elem, counter, target);
        proof {
            assert(found);
            assert(s@ == old(s)@.update(i as int, s@[i as int]));
            assert(s@.len() == old(s)@.len());
            assert(s@.take(i as int) =~= old(s)@.take(i as int));
            let ns = s@.skip(i as int);
            assert(ns[0] == s@[i as int]);
            assert(ns.drop_first() =~= w.drop_first());
            assert(toggled_tree(w[0], ns[0], c0, target as nat));
            assert(toggled_children(w, ns, c0, target as nat));
        }
        true
    } else {
        *counter = end;
        let r2 = toggle_in_children(s, i + 1, counter, target);
        proof {
            if r2 {
                lemma_toggled_children_len(
                    old(s)@.skip(i + 1),
                    s@.skip(i + 1),
                    (c0 + vdirs(w[0])) as nat,
                    target as nat,
                );
                assert(s@.len() == old(s)@.len());
                assert(s@.take(i + 1) == old(s)@.take(i + 1));
                assert(s@.take(i as int) =~= old(s)@.take(i as int));
                let ns = s@.skip(i as int);
                assert(ns[0] == s@[i as int]);
                assert(s@[i as int] == s@.take(i + 1)[i as int]);
                assert(old(s)@[i as int] == old(s)@.take(i + 1)[i as int]);
                assert(ns[0] == w[0]);
                assert(ns.drop_first() =~= s@.skip(i + 1));
                assert(ns.len() == w.len());
                assert(!(target < c0 + vdirs(w[0])));
                assert(toggled_children(w, ns, c0, target as nat));
            }
        }
        r2
    }
}

/// A toggled sibling group keeps its length.
proof fn lemma_toggled_children_len(os: Seq<Node>, ns: Seq<Node>, c: nat, t: nat)
    requires
        toggled_children(os, ns, c, t),
    ensures
        ns.len() == os.len(),
{
}

/// A toggle changes no path, no size, no node count and no ordering:
/// the aggregate-size and sibling-order invariants survive every toggle.
pub proof fn lemma_toggled_tree_preserves(o: Node, n: Node, c: nat, t: nat)
    requires
        toggled_tree(o, n, c, t),
    ensures
        n.count() == o.count(),
        n.spec_path() == o.spec_path(),
        n.spec_size() == o.spec_size(),
        n.is_dir() == o.is_dir(),
        n.spec_children().len() == o.spec_children().len(),
        o.wf() ==> n.wf(),
    decreases o, 0int,
{
    if c == t {
        lemma_toggled_same(o);
    } else {
        lemma_toggled_children_preserves(o.spec_children(), n.spec_children(), (c + 1) as nat, t);
        assert(sum_sizes(n.spec_children()) == sum_sizes(o.spec_children())) by {
            lemma_sum_sizes_pointwise(o.spec_children(), n.spec_children());
        }
        if o.wf() {
            let oc = o.spec_children();
            let nc = n.spec_children();
            assert(o.size_ok() && o.sorted_ok());
            assert(o.is_dir());
            assert forall|j: int|
                0 <= j < nc.len() implies (#[trigger] nc[j]).size_ok() && nc[j].sorted_ok() by {
                lemma_oks_seq_index(oc, j);
                assert(oc[j].wf());
                assert(nc[j].wf());
            }
            lemma_oks_seq_all(nc);
            assert forall|x: int, y: int|
                0 <= x < y < nc.len() implies crate::model::node_le(
                #[trigger] nc[x],
                #[trigger] nc[y],
            ) by {
                assert(crate::model::node_le(oc[x], oc[y]));
            }
            assert(n.size_ok());
            assert(n.sorted_ok());
        }
    }
}

/// The sibling-group form of [`lemma_toggled_tree_preserves`].
proof fn lemma_toggled_children_preserves(os: Seq<Node>, ns: Seq<Node>, c: nat, t: nat)
    requires
        toggled_children(os, ns, c, t),
    ensures
        ns.len() == os.len(),
        count_seq(ns) == count_seq(os),
        forall|j: int|
            0 <= j < os.len() ==> {
                &&& (#[trigger] ns[j]).spec_path() == os[j].spec_path()
                &&& ns[j].spec_size() == os[j].spec_size()
                &&& ns[j].is_dir() == os[j].is_dir()
                &&& (os[j].wf() ==> ns[j].wf())
            },
    decreases os, 1int,
{
    if t < c + vdirs(os[0]) {
        lemma_toggled_tree_preserves(os[0], ns[0], c, t);
        assert(count_seq(ns) == ns[0].count() + count_seq(ns.drop_first()));
        assert forall|j: int| 1 <= j < os.len() implies ns[j] == os[j] by {
            assert(ns.drop_first()[j - 1] == os.drop_first()[j - 1]);
        }
        assert(count_seq(ns.drop_first()) == count_seq(os.drop_first())) by {
            assert(ns.drop_first() =~= os.drop_first());
        }
    } else {
        lemma_toggled_children_preserves(os.drop_first(), ns.drop_first(), (c + vdirs(os[0])) as nat, t);
        assert(count_seq(ns) == ns[0].count() + count_seq(ns.drop_first()));
        assert forall|j: int| 1 <= j < os.len() implies {
            &&& (#[trigger] ns[j]).spec_path() == os[j].spec_path()
            &&& ns[j].spec_size() == os[j].spec_size()
            &&& ns[j].is_dir() == os[j].is_dir()
            &&& (os[j].wf() ==> ns[j].wf())
        } by {
            assert(ns[j] == ns.drop_first()[j - 1]);
            assert(os[j] == os.drop_first()[j - 1]);
        }
    }
}

/// Flipping one flag twice is the identity, and the flip itself touches
/// nothing but the flag.
proof fn lemma_toggled_same(o: Node)
    ensures
        o.toggled().toggled() == o,
        o.toggled().count() == o.count(),
        o.toggled().spec_path() == o.spec_path(),
        o.toggled().spec_size() == o.spec_size(),
        o.toggled().is_dir() == o.is_dir(),
        o.toggled().spec_children() == o.spec_children(),
        o.wf() ==> o.toggled().wf(),
{
}

/// Sibling groups whose nodes have pointwise equal sizes have equal
/// size sums.
proof fn lemma_sum_sizes_pointwise(a: Seq<Node>, b: Seq<Node>)
    requires
        a.len() == b.len(),
        forall|j: int| 0 <= j < a.len() ==> (#[trigger] a[j]).spec_size() == b[j].spec_size(),
    ensures
        sum_sizes(a) == sum_sizes(b),
    decreases a.len(),
{
    if a.len() > 0 {
        lemma_sum_sizes_pointwise(a.drop_first(), b.drop_first());
    }
}

/// Toggling the same ordinal again undoes the toggle exactly: the tree
/// returns to the very state it had before the first toggle. The ordinal
/// still addresses the same directory, which the bounds on `t` express.
pub proof fn lemma_toggle_roundtrip(o: Node, n: Node, c: nat, t: nat)
    requires
        toggled_tree(o, n, c, t),
    ensures
        toggled_tree(n, o, c, t),
        c <= t,
        t < c + vdirs(o),
        t < c + vdirs(n),
    decreases o, 0int,
{
    if c == t {
        lemma_toggled_same(o);
        assert(n.is_dir());
        assert(vdirs(o) >= 1 && vdirs(n) >= 1);
    } else {
        let os = o.spec_children();
        let ns = n.spec_children();
        lemma_toggle_roundtrip_children(os, ns, (c + 1) as nat, t);
        assert(vdirs(o) == 1 + vdirs_seq(os));
        assert(vdirs(n) == 1 + vdirs_seq(ns));
        assert(toggled_tree(n, o, c, t));
    }
}

/// The sibling-group form of [`lemma_toggle_roundtrip`].
proof fn lemma_toggle_roundtrip_children(os: Seq<Node>, ns: Seq<Node>, c: nat, t: nat)
    requires
        toggled_children(os, ns, c, t),
    ensures
        toggled_children(ns, os, c, t),
        c <= t,
        t < c + vdirs_seq(os),
        t < c + vdirs_seq(ns),
    decreases os, 1int,
{
    if t < c + vdirs(os[0]) {
        lemma_toggle_roundtrip(os[0], ns[0], c, t);
        assert(os.drop_first() == ns.drop_first());
        assert(vdirs_seq(ns) == vdirs(ns[0]) + vdirs_seq(ns.drop_first()));
        assert(vdirs_seq(os) == vdirs(os[0]) + vdirs_seq(os.drop_first()));
        assert(toggled_children(ns, os, c, t));
    } else {
        lemma_toggle_roundtrip_children(
            os.drop_first(),
            ns.drop_first(),
            (c + vdirs(os[0])) as nat,
            t,
        );
        assert(ns[0] == os[0]);
        assert(vdirs_seq(ns) == vdirs(ns[0]) + vdirs_seq(ns.drop_first()));
        assert(vdirs_seq(os) == vdirs(os[0]) + vdirs_seq(os.drop_first()));
        assert(toggled_children(ns, os, c, t));
    }
}

/// With every directory collapsed the visible list is the root row
/// alone; with only the root expanded it is the root row followed by
/// one row per direct child.
pub proof fn lemma_collapsed_visible_len(root: Node, depth: nat, c: nat)
    ensures
        !root.is_expanded() ==> vitems(root, depth, c).0.len() == 1,
        (root.is_expanded() && forall|i: int|
            0 <= i < root.spec_children().len() ==> !(#[trigger] root.spec_children()[i]).is_expanded())
            ==> vitems(root, depth, c).0.len() == 1 + root.spec_children().len(),
{
    if root.is_expanded() && (forall|i: int|
        0 <= i < root.spec_children().len() ==> !(#[trigger] root.spec_children()[i]).is_expanded()) {
        let c1: nat = if root.is_dir() { (c + 1) as nat } else { c };
        lemma_all_collapsed_len(root.spec_children(), depth + 1, c1);
    }
}

/// A sibling group of collapsed (or file) nodes contributes exactly one
/// row per sibling.
proof fn lemma_all_collapsed_len(s: Seq<Node>, depth: nat, c: nat)
    requires
        forall|i: int| 0 <= i < s.len() ==> !(#[trigger] s[i]).is_expanded(),
    ensures
        vitems_seq(s, depth, c).0.len() == s.len(),
    decreases s.len(),
{
    if s.len() > 0 {
        assert(!s[0].is_expanded());
        assert(vitems(s[0], depth, c).0.len() == 1);
        assert forall|j: int| 0 <= j < s.drop_first().len() implies !(
        #[trigger] s.drop_first()[j]).is_expanded() by {
            assert(s.drop_first()[j] == s[j + 1]);
        }
        lemma_all_collapsed_len(s.drop_first(), depth, vitems(s[0], depth, c).1);
    }
}

/// Building the visible list is deterministic: two lists derived from
/// the same tree state agree row for row in node, depth and ordinal, so
/// rebuilding without an intervening toggle changes nothing.
pub proof fn lemma_visible_list_identical<'a, 'b>(
    root: Node,
    a: Seq<ViewItem<'a>>,
    b: Seq<ViewItem<'b>>,
)
    requires
        rows_match(a, vitems(root, 0, 0).0),
        rows_match(b, vitems(root, 0, 0).0),
    ensures
        a.len() == b.len(),
        forall|k: int|
            0 <= k < a.len() ==> *(#[trigger] a[k]).node == *b[k].node && a[k].depth == b[k].depth
                && a[k].index == b[k].index,
{
    let rows = vitems(root, 0, 0).0;
    assert forall|k: int|
        0 <= k < a.len() implies *(#[trigger] a[k]).node == *b[k].node && a[k].depth == b[k].depth
        && a[k].index == b[k].index by {
        assert(*a[k].node == rows[k].node && *b[k].node == rows[k].node);
        if rows[k].ord is Some {
            assert(a[k].index == Some(rows[k].ord->0 as usize));
            assert(b[k].index == Some(rows[k].ord->0 as usize));
        } else {
            assert(a[k].index is None && b[k].index is None);
            assert(a[k].index == None::<usize> && b[k].index == None::<usize>);
        }
    }
}

/// An ordinal taken from the visible list addresses the same directory
/// when handed back to the toggle, although the two are separate walks:
/// in the list built before the toggle the row holding ordinal `t` shows
/// a directory, and in the list built after it the same row shows that
/// directory -- same path, same depth, same ordinal -- with its expand
/// flag flipped.
pub proof fn lemma_ordinal_stable(o: Node, n: Node, depth: nat, c: nat, t: nat)
    requires
        toggled_tree(o, n, c, t),
    ensures
        ({
            let or = vitems(o, depth, c).0;
            let nr = vitems(n, depth, c).0;
            exists|k: int|
                0 <= k < or.len() && 0 <= k < nr.len() && #[trigger] or[k].ord == Some(t)
                    && nr[k].ord == Some(t) && or[k].depth == nr[k].depth && or[k].node.is_dir()
                    && or[k].node.spec_path() == nr[k].node.spec_path()
                    && nr[k].node.is_expanded() == !or[k].node.is_expanded()
        }),
    decreases o, 0int,
{
    let or = vitems(o, depth, c).0;
    let nr = vitems(n, depth, c).0;
    if c == t {
        lemma_toggled_same(o);
        assert(or[0].ord == Some(t) && nr[0].ord == Some(t));
        assert(or[0].node == o && nr[0].node == n);
    } else {
        let os = o.spec_children();
        let ns = n.spec_children();
        lemma_ordinal_stable_children(os, ns, depth + 1, (c + 1) as nat, t);
        let oa = vitems_seq(os, depth + 1, (c + 1) as nat).0;
        let na = vitems_seq(ns, depth + 1, (c + 1) as nat).0;
        let k = choose|k: int|
            0 <= k < oa.len() && 0 <= k < na.len() && #[trigger] oa[k].ord == Some(t)
                && na[k].ord == Some(t) && oa[k].depth == na[k].depth && oa[k].node.is_dir()
                && oa[k].node.spec_path() == na[k].node.spec_path()
                && na[k].node.is_expanded() == !oa[k].node.is_expanded();
        assert(or[k + 1] == oa[k]);
        assert(nr[k + 1] == na[k]);
        assert(or[k + 1].ord == Some(t));
    }
}

/// The sibling-group form of [`lemma_ordinal_stable`].
proof fn lemma_ordinal_stable_children(os: Seq<Node>, ns: Seq<Node>, depth: nat, c: nat, t: nat)
    requires
        toggled_children(os, ns, c, t),
    ensures
        ({
            let or = vitems_seq(os, depth, c).0;
            let nr = vitems_seq(ns, depth, c).0;
            exists|k: int|
                0 <= k < or.len() && 0 <= k < nr.len() && #[trigger] or[k].ord == Some(t)
                    && nr[k].ord == Some(t) && or[k].depth == nr[k].depth && or[k].node.is_dir()
                    && or[k].node.spec_path() == nr[k].node.spec_path()
                    && nr[k].node.is_expanded() == !or[k].node.is_expanded()
        }),
    decreases os, 1int,
{
    let or = vitems_seq(os, depth, c).0;
    let nr = vitems_seq(ns, depth, c).0;
    let oa = vitems(os[0], depth, c).0;
    let na = vitems(ns[0], depth, c).0;
    if t < c + vdirs(os[0]) {
        lemma_ordinal_stable(os[0], ns[0], depth, c, t);
        let k = choose|k: int|
            0 <= k < oa.len() && 0 <= k < na.len() && #[trigger] oa[k].ord == Some(t)
                && na[k].ord == Some(t) && oa[k].depth == na[k].depth && oa[k].node.is_dir()
                && oa[k].node.spec_path() == na[k].node.spec_path()
                && na[k].node.is_expanded() == !oa[k].node.is_expanded();
        assert(ns.drop_first() == os.drop_first());
        assert(or[k] == oa[k]);
        assert(nr[k] == na[k]);
        assert(or[k].ord == Some(t));
    } else {
        assert(ns[0] == os[0]);
        lemma_vitems_vdirs(os[0], depth, c);
        lemma_ordinal_stable_children(
            os.drop_first(),
            ns.drop_first(),
            depth,
            (c + vdirs(os[0])) as nat,
            t,
        );
        let ob = vitems_seq(os.drop_first(), depth, (c + vdirs(os[0])) as nat).0;
        let nb = vitems_seq(ns.drop_first(), depth, (c + vdirs(os[0])) as nat).0;
        let k = choose|k: int|
            0 <= k < ob.len() && 0 <= k < nb.len() && #[trigger] ob[k].ord == Some(t)
                && nb[k].ord == Some(t) && ob[k].depth == nb[k].depth && ob[k].node.is_dir()
                && ob[k].node.spec_path() == nb[k].node.spec_path()
                && nb[k].node.is_expanded() == !ob[k].node.is_expanded();
        assert(or[oa.len() + k] == ob[k]);
        assert(nr[na.len() + k] == nb[k]);
        assert(oa.len() == na.len());
        assert(or[oa.len() + k].ord == Some(t));
    }
}

/// The ordinals a walk hands out, in row order.
pub open spec fn ord_list(rows: Seq<VRow>) -> Seq<nat>
    decreases rows.len(),
{
    if rows.len() == 0 {
        Seq::empty()
    } else {
        (match rows[0].ord {
            Some(v) => seq![v],
            None => Seq::empty(),
        }) + ord_list(rows.drop_first())
    }
}

/// Ordinal extraction distributes over concatenation of row blocks.
proof fn lemma_ord_list_concat(a: Seq<VRow>, b: Seq<VRow>)
    ensures
        ord_list(a + b) == ord_list(a) + ord_list(b),
    decreases a.len(),
{
    if a.len() == 0 {
        assert(a + b =~= b);
        assert(ord_list(a) + ord_list(b) =~= ord_list(b));
    } else {
        assert((a + b).drop_first() =~= a.drop_first() + b);
        lemma_ord_list_concat(a.drop_first(), b);
        assert((a + b)[0] == a[0]);
        assert(ord_list(a + b) =~= ord_list(a) + ord_list(b));
    }
}

/// The ordinals of a single row.
proof fn lemma_ord_list_single(r: VRow)
    ensures
        r.ord is Some ==> ord_list(seq![r]) == seq![r.ord->0],
        r.ord is None ==> ord_list(seq![r]) == Seq::<nat>::empty(),
{
    reveal_with_fuel(ord_list, 2);
    assert(seq![r].drop_first() =~= Seq::<VRow>::empty());
    assert(ord_list(Seq::<VRow>::empty()) =~= Seq::<nat>::empty());
    assert(seq![r][0] == r);
    if r.ord is Some {
        assert(ord_list(seq![r]) =~= seq![r.ord->0]);
    } else {
        assert(ord_list(seq![r]) =~= Seq::<nat>::empty());
    }
}

/// The ordinals of the visible list are dense and in traversal order:
/// a walk started with the counter at `c` over a tree with `vdirs(n)`
/// visible directories hands out exactly `c, c + 1, ...` up to
/// `c + vdirs(n) - 1`, one per directory row, in row order. Started at
/// zero, the ordinals are exactly `0, 1, 2, ...`.
pub proof fn lemma_ordinals_dense(n: Node, depth: nat, c: nat)
    ensures
        ord_list(vitems(n, depth, c).0) =~= Seq::new(vdirs(n), |i: int| (c + i) as nat),
    decreases n, 0int,
{
    let rows = vitems(n, depth, c).0;
    let head = rows[0];
    lemma_ord_list_single(head);
    if n.is_expanded() {
        let c1: nat = (c + 1) as nat;
        lemma_ordinals_dense_seq(n.spec_children(), depth + 1, c1);
        lemma_ord_list_concat(seq![head], vitems_seq(n.spec_children(), depth + 1, c1).0);
        assert(rows =~= seq![head] + vitems_seq(n.spec_children(), depth + 1, c1).0);
        assert(head.ord == Some(c));
        assert(ord_list(rows) =~= Seq::new(vdirs(n), |i: int| (c + i) as nat));
    } else {
        assert(rows =~= seq![head]);
        if n.is_dir() {
            assert(head.ord == Some(c));
            assert(ord_list(rows) =~= Seq::new(vdirs(n), |i: int| (c + i) as nat));
        } else {
            assert(head.ord is None);
            assert(ord_list(rows) =~= Seq::new(vdirs(n), |i: int| (c + i) as nat));
        }
    }
}

/// The sibling-group form of [`lemma_ordinals_dense`].
proof fn lemma_ordinals_dense_seq(s: Seq<Node>, depth: nat, c: nat)
    ensures
        ord_list(vitems_seq(s, depth, c).0) =~= Seq::new(
            vdirs_seq(s),
            |i: int| (c + i) as nat,
        ),
    decreases s, 1int,
{
    if s.len() == 0 {
    } else {
        let a = vitems(s[0], depth, c);
        let b = vitems_seq(s.drop_first(), depth, a.1);
        lemma_vitems_vdirs(s[0], depth, c);
        lemma_ordinals_dense(s[0], depth, c);
        lemma_ordinals_dense_seq(s.drop_first(), depth, a.1);
        lemma_ord_list_concat(a.0, b.0);
        assert(ord_list(vitems_seq(s, depth, c).0) == ord_list(a.0) + ord_list(b.0));
    }
}

} // verus!
