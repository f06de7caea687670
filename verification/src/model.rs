//! The node hierarchy: one entity per filesystem path, with cumulative
//! sizes for directories and a fixed child ordering (directories before
//! files, paths ascending within each group).

use vstd::prelude::*;

verus! {

use vstd::assert_multisets_equal;
use vstd::multiset::Multiset;

/// A single entity in the file system tree (either a file or a directory).
///
/// The path is kept as the raw bytes of its filesystem representation;
/// `size` is the byte length for a file and the sum of all descendant
/// sizes for a directory, fixed at construction time.
pub struct Node {
    pub path: Vec<u8>,
    pub size: u64,
    pub kind: NodeKind,
}

/// Specialized data specific to the type of the [`Node`].
pub enum NodeKind {
    File,
    Directory(DirProperty),
}

/// The directory-only payload: the ordered children and the expand flag,
/// the one field that may change after construction.
pub struct DirProperty {
    pub children: Vec<Node>,
    pub expanded: bool,
}

impl DirProperty {
    /// The children, in the fixed order set at construction.
    pub fn children(&self) -> (r: &Vec<Node>)
        ensures
            r@ == self.children@,
    {
        &self.children
    }
}

impl Node {
    /// True when this node is a directory.
    pub open spec fn is_dir(self) -> bool {
        self.kind is Directory
    }

    /// The children of a directory node.
    pub open spec fn spec_children(self) -> Seq<Node> {
        self.kind->Directory_0.children@
    }

    /// True when this node is a directory whose expand flag is set.
    pub open spec fn is_expanded(self) -> bool {
        self.kind is Directory && self.kind->Directory_0.expanded
    }

    pub open spec fn spec_path(self) -> Seq<u8> {
        self.path@
    }

    pub open spec fn spec_size(self) -> u64 {
        self.size
    }

    pub open spec fn spec_kind(self) -> NodeKind {
        self.kind
    }

    pub fn path(&self) -> (r: &Vec<u8>)
        ensures
            r@ == self.spec_path(),
    {
        &self.path
    }

    pub fn size(&self) -> (r: u64)
        ensures
            r == self.spec_size(),
    {
        self.size
    }

    pub fn kind(&self) -> (r: &NodeKind)
        ensures
            *r == self.spec_kind(),
    {
        &self.kind
    }

    /// Builds a file node of the given path and byte length.
    pub fn file(path: Vec<u8>, size: u64) -> (r: Node)
        ensures
            r.spec_path() == path@,
            r.spec_size() == size,
            !r.is_dir(),
            r.wf(),
    {
        Node { path, size, kind: NodeKind::File }
    }

    /// The size invariant: a directory's size equals the sum of its
    /// children's sizes, recursively down to the leaves.
    pub open spec fn size_ok(self) -> bool
        decreases self, 0int,
    {
        self.is_dir() ==> {
            &&& self.size == sum_sizes(self.spec_children())
            &&& sizes_ok_seq(self.spec_children())
        }
    }

    /// The ordering invariant: in every sibling group directories precede
    /// files and paths are non-decreasing within each group, recursively.
    pub open spec fn sorted_ok(self) -> bool
        decreases self, 0int,
    {
        self.is_dir() ==> {
            &&& sorted_nodes(self.spec_children())
            &&& sorted_oks_seq(self.spec_children())
        }
    }

    /// Well-formedness of a scanned tree: sizes aggregate and siblings are
    /// ordered, at every level.
    pub open spec fn wf(self) -> bool {
        self.size_ok() && self.sorted_ok()
    }

    /// The number of nodes in this subtree (the node itself included).
    pub open spec fn count(self) -> nat
        decreases self,
    {
        1 + if self.is_dir() {
            count_seq(self.spec_children())
        } else {
            0
        }
    }
}

/// The sum of the sizes of the nodes of `s`, as an unbounded integer.
pub open spec fn sum_sizes(s: Seq<Node>) -> int
    decreases s.len(),
{
    if s.len() == 0 {
        0
    } else {
        s[0].spec_size() + sum_sizes(s.drop_first())
    }
}

/// The total node count of a forest.
pub open spec fn count_seq(s: Seq<Node>) -> nat
    decreases s,
{
    if s.len() == 0 {
        0
    } else {
        s[0].count() + count_seq(s.drop_first())
    }
}

/// The size invariant over every node of a sibling group.
pub open spec fn sizes_ok_seq(s: Seq<Node>) -> bool
    decreases s, 1int,
{
    s.len() == 0 || (s[0].size_ok() && sizes_ok_seq(s.drop_first()))
}

/// The ordering invariant over every node of a sibling group.
pub open spec fn sorted_oks_seq(s: Seq<Node>) -> bool
    decreases s, 1int,
{
    s.len() == 0 || (s[0].sorted_ok() && sorted_oks_seq(s.drop_first()))
}

/// The sibling-group invariants hold of each member.
pub proof fn lemma_oks_seq_index(s: Seq<Node>, i: int)
    requires
        0 <= i < s.len(),
    ensures
        sizes_ok_seq(s) ==> s[i].size_ok(),
        sorted_oks_seq(s) ==> s[i].sorted_ok(),
    decreases i,
{
    if i > 0 {
        lemma_oks_seq_index(s.drop_first(), i - 1);
    }
}

/// The sibling-group invariants follow from holding of each member.
pub proof fn lemma_oks_seq_all(s: Seq<Node>)
    requires
        forall|i: int| 0 <= i < s.len() ==> (#[trigger] s[i]).size_ok(),
        forall|i: int| 0 <= i < s.len() ==> (#[trigger] s[i]).sorted_ok(),
    ensures
        sizes_ok_seq(s),
        sorted_oks_seq(s),
    decreases s.len(),
{
    if s.len() > 0 {
        assert(s[0].size_ok() && s[0].sorted_ok());
        assert forall|j: int| 0 <= j < s.drop_first().len() implies (#[trigger] s.drop_first()[j]).size_ok()
            && s.drop_first()[j].sorted_ok() by {
            assert(s.drop_first()[j] == s[j + 1]);
            assert(s[j + 1].size_ok() && s[j + 1].sorted_ok());
        }
        lemma_oks_seq_all(s.drop_first());
    }
}

/// The sibling order fixed by the scanner: directories before files, and
/// byte-wise lexicographic on the path within each group.
pub open spec fn node_le(a: Node, b: Node) -> bool {
    if a.is_dir() != b.is_dir() {
        a.is_dir()
    } else {
        lex_le(a.spec_path(), b.spec_path())
    }
}

/// Byte-wise lexicographic order on paths.
pub open spec fn lex_le(a: Seq<u8>, b: Seq<u8>) -> bool
    decreases a.len(),
{
    if a.len() == 0 {
        true
    } else if b.len() == 0 {
        false
    } else if a[0] < b[0] {
        true
    } else if a[0] > b[0] {
        false
    } else {
        lex_le(a.drop_first(), b.drop_first())
    }
}

/// A sibling group in the scanner's order.
pub open spec fn sorted_nodes(s: Seq<Node>) -> bool {
    forall|i: int, j: int| 0 <= i < j < s.len() ==> node_le(#[trigger] s[i], #[trigger] s[j])
}

proof fn lemma_lex_le_total(a: Seq<u8>, b: Seq<u8>)
    ensures
        lex_le(a, b) || lex_le(b, a),
    decreases a.len(),
{
    if a.len() == 0 || b.len() == 0 {
    } else if a[0] == b[0] {
        lemma_lex_le_total(a.drop_first(), b.drop_first());
    }
}

proof fn lemma_lex_le_trans(a: Seq<u8>, b: Seq<u8>, c: Seq<u8>)
    requires
        lex_le(a, b),
        lex_le(b, c),
    ensures
        lex_le(a, c),
    decreases a.len(),
{
    if a.len() == 0 || b.len() == 0 || c.len() == 0 {
    } else if a[0] == b[0] && b[0] == c[0] {
        lemma_lex_le_trans(a.drop_first(), b.drop_first(), c.drop_first());
    }
}

proof fn lemma_node_le_total(a: Node, b: Node)
    ensures
        node_le(a, b) || node_le(b, a),
{
    lemma_lex_le_total(a.spec_path(), b.spec_path());
}

proof fn lemma_node_le_trans(a: Node, b: Node, c: Node)
    requires
        node_le(a, b),
        node_le(b, c),
    ensures
        node_le(a, c),
{
    if a.is_dir() == b.is_dir() && b.is_dir() == c.is_dir() {
        lemma_lex_le_trans(a.spec_path(), b.spec_path(), c.spec_path());
    }
}

/// Decides the byte-wise lexicographic order on two paths.
fn lex_le_exec(a: &Vec<u8>, b: &Vec<u8>) -> (r: bool)
    ensures
        r == lex_le(a@, b@),
{
    let mut i: usize = 0;
    proof {
        assert(a@.skip(0) =~= a@);
        assert(b@.skip(0) =~= b@);
    }
    loop
        invariant
            i <= a@.len(),
            i <= b@.len(),
            lex_le(a@, b@) == lex_le(a@.skip(i as int), b@.skip(i as int)),
        decreases a@.len() - i,
    {
        if i == a.len() {
            return true;
        }
        if i == b.len() {
            return false;
        }
        let x = a[i];
        let y = b[i];
        if x < y {
            return true;
        }
        if x > y {
            return false;
        }
        proof {
            assert(a@.skip(i as int).drop_first() =~= a@.skip(i + 1));
            assert(b@.skip(i as int).drop_first() =~= b@.skip(i + 1));
        }
        i = i + 1;
    }
}

/// Decides the sibling order: directories first, then paths ascending.
fn node_le_exec(a: &Node, b: &Node) -> (r: bool)
    ensures
        r == node_le(*a, *b),
{
    let a_dir = matches!(&a.kind, NodeKind::Directory(_));
    let b_dir = matches!(&b.kind, NodeKind::Directory(_));
    if a_dir != b_dir {
        a_dir
    } else {
        lex_le_exec(&a.path, &b.path)
    }
}

/// The position of a least element of a non-empty sibling group.
fn min_index(v: &Vec<Node>) -> (m: usize)
    requires
        v@.len() > 0,
    ensures
        m < v@.len(),
        forall|k: int| 0 <= k < v@.len() ==> node_le(v@[m as int], #[trigger] v@[k]),
{
    let mut m: usize = 0;
    let mut j: usize = 1;
    proof {
        lemma_node_le_total(v@[0], v@[0]);
    }
    while j < v.len()
        invariant
            1 <= j <= v@.len(),
            m < j,
            forall|k: int| 0 <= k < j ==> node_le(v@[m as int], #[trigger] v@[k]),
        decreases v@.len() - j,
    {
        if node_le_exec(&v[j], &v[m]) {
            proof {
                assert forall|k: int| 0 <= k <= j implies node_le(v@[j as int], #[trigger] v@[k]) by {
                    if k < j {
                        lemma_node_le_trans(v@[j as int], v@[m as int], v@[k]);
                    } else {
                        lemma_node_le_total(v@[j as int], v@[j as int]);
                    }
                }
            }
            m = j;
        } else {
            proof {
                lemma_node_le_total(v@[m as int], v@[j as int]);
            }
        }
        j = j + 1;
    }
    m
}

/// Sorts a sibling group into the scanner's order, keeping exactly the
/// same nodes.
fn sort_nodes_exec(v: Vec<Node>) -> (r: Vec<Node>)
    ensures
        sorted_nodes(r@),
        r@.to_multiset() == v@.to_multiset(),
        r@.len() == v@.len(),
{
    broadcast use vstd::seq_lib::group_to_multiset_ensures;
    broadcast use vstd::multiset::group_multiset_axioms;

    let mut src = v;
    let mut out: Vec<Node> = Vec::new();
    proof {
        assert(src@ == v@);
        assert forall|x: Node| out@.to_multiset().count(x) == 0 by {
            assert(!out@.contains(x));
        }
        assert_multisets_equal!(out@.to_multiset().add(src@.to_multiset()), v@.to_multiset(), x => {
            assert(out@.to_multiset().count(x) == 0);
        });
    }
    while src.len() > 0
        invariant
            out@.to_multiset().add(src@.to_multiset()) == v@.to_multiset(),
            out@.len() + src@.len() == v@.len(),
            sorted_nodes(out@),
            forall|i: int, j: int|
                0 <= i < out@.len() && 0 <= j < src@.len() ==> node_le(
                    #[trigger] out@[i],
                    #[trigger] src@[j],
                ),
        decreases src@.len(),
    {
        let ghost old_out = out@;
        let ghost old_src = src@;
        let m = min_index(&src);
        let x = src.remove(m);
        let ghost gx = old_src[m as int];
        out.push(x);
        proof {
            assert(out@ =~= old_out.push(x));
            vstd::seq_lib::to_multiset_build::<Node>(old_out, x);
            vstd::seq_lib::to_multiset_remove::<Node>(old_src, m as int);
            assert(out@.to_multiset() == old_out.to_multiset().insert(x));
            assert(src@.to_multiset() == old_src.to_multiset().remove(x));
            assert_multisets_equal!(out@.to_multiset().add(src@.to_multiset()), v@.to_multiset(), y => {
                if y == gx {
                    assert(0 <= m < old_src.len() && old_src[m as int] == gx);
                    assert(old_src.contains(gx));
                    vstd::seq_lib::to_multiset_contains::<Node>(old_src, gx);
                    assert(old_src.to_multiset().count(gx) > 0);
                    assert(Multiset::<Node>::singleton(gx).count(gx) == 1);
                } else {
                    assert(Multiset::<Node>::singleton(gx).count(y) == 0);
                }
                assert(old_out.to_multiset().add(old_src.to_multiset()).count(y) == v@.to_multiset().count(y));
            });
            assert forall|i: int, j: int|
                0 <= i < out@.len() && 0 <= j < src@.len() implies node_le(
                #[trigger] out@[i],
                #[trigger] src@[j],
            ) by {
                if i < old_out.len() {
                } else {
                    assert(out@[i] == old_src[m as int]);
                }
            }
            assert forall|i: int, j: int| 0 <= i < j < out@.len() implies node_le(
                #[trigger] out@[i],
                #[trigger] out@[j],
            ) by {
                if j == out@.len() - 1 {
                    assert(node_le(old_out[i], old_src[m as int]));
                }
            }
        }
    }
    proof {
        assert_multisets_equal!(out@.to_multiset(), v@.to_multiset(), x => {
            assert(!src@.contains(x));
            assert(src@.to_multiset().count(x) == 0);
        });
    }
    out
}

/// The checked sum of the sizes of a sibling group.
fn sum_sizes_exec(v: &Vec<Node>) -> (r: Option<u64>)
    ensures
        r is Some <==> sum_sizes(v@) <= u64::MAX,
        r is Some ==> r->0 == sum_sizes(v@),
{
    let mut acc: u64 = 0;
    let mut i: usize = 0;
    proof {
        assert(v@.take(0) =~= Seq::<Node>::empty());
    }
    while i < v.len()
        invariant
            i <= v@.len(),
            acc == sum_sizes(v@.take(i as int)),
        decreases v@.len() - i,
    {
        proof {
            lemma_sum_split(v@, i as int);
            lemma_sum_split(v@, i + 1);
            assert(v@.skip(i as int).drop_first() =~= v@.skip(i + 1));
            lemma_sum_nonneg(v@.skip(i + 1));
        }
        match acc.checked_add(v[i].size) {
            Some(t) => {
                acc = t;
            },
            None => {
                return None;
            },
        }
        i = i + 1;
    }
    proof {
        assert(v@.take(v@.len() as int) =~= v@);
    }
    Some(acc)
}

proof fn lemma_sum_nonneg(s: Seq<Node>)
    ensures
        sum_sizes(s) >= 0,
    decreases s.len(),
{
    if s.len() > 0 {
        lemma_sum_nonneg(s.drop_first());
    }
}

/// Splits the sum of a sibling group at an index.
proof fn lemma_sum_split(s: Seq<Node>, i: int)
    requires
        0 <= i <= s.len(),
    ensures
        sum_sizes(s) == sum_sizes(s.take(i)) + sum_sizes(s.skip(i)),
    decreases i,
{
    if i == 0 {
        assert(s.take(0) =~= Seq::<Node>::empty());
        assert(s.skip(0) =~= s);
    } else {
        assert(s.take(i).drop_first() =~= s.drop_first().take(i - 1));
        assert(s.skip(i) =~= s.drop_first().skip(i - 1));
        lemma_sum_split(s.drop_first(), i - 1);
    }
}

/// Removing one node takes exactly its size out of the sum.
proof fn lemma_sum_remove(s: Seq<Node>, j: int)
    requires
        0 <= j < s.len(),
    ensures
        sum_sizes(s.remove(j)) == sum_sizes(s) - s[j].spec_size(),
    decreases j,
{
    if j == 0 {
        assert(s.remove(0) =~= s.drop_first());
    } else {
        assert(s.remove(j).drop_first() =~= s.drop_first().remove(j - 1));
        lemma_sum_remove(s.drop_first(), j - 1);
    }
}

/// Sibling groups with the same nodes have the same size sum: reordering
/// children never changes a directory's aggregate size.
pub proof fn lemma_sum_sizes_permutation(a: Seq<Node>, b: Seq<Node>)
    requires
        a.to_multiset() == b.to_multiset(),
    ensures
        sum_sizes(a) == sum_sizes(b),
    decreases a.len(),
{
    broadcast use vstd::seq_lib::group_to_multiset_ensures;

    if a.len() == 0 {
        assert(b.to_multiset().len() == 0);
        assert(b.len() == 0);
    } else {
        let x = a[0];
        assert(a.to_multiset().count(x) > 0);
        assert(b.to_multiset().count(x) > 0);
        assert(b.contains(x));
        let j = choose|j: int| 0 <= j < b.len() && b[j] == x;
        assert(a.drop_first() =~= a.remove(0));
        assert(a.remove(0).to_multiset() == a.to_multiset().remove(x));
        assert(b.remove(j).to_multiset() == b.to_multiset().remove(x));
        lemma_sum_sizes_permutation(a.drop_first(), b.remove(j));
        lemma_sum_remove(b, j);
    }
}

impl Node {
    /// The tree after this node's expand flag is flipped (identity for a
    /// file node).
    pub open spec fn toggled(self) -> Node {
        if self.is_dir() {
            Node {
                kind: NodeKind::Directory(
                    DirProperty {
                        children: self.kind->Directory_0.children,
                        expanded: !self.kind->Directory_0.expanded,
                    },
                ),
                ..self
            }
        } else {
            self
        }
    }

    /// Flips the expand flag of a directory node; a file node is left as
    /// it is.
    pub fn toggle(&mut self)
        ensures
            *final(self) == old(self).toggled(),
    {
        match &mut self.kind {
            NodeKind::Directory(dp) => {
                dp.expanded = !dp.expanded;
            },
            NodeKind::File => {},
        }
    }

    /// Assembles a directory node from its scanned children: the size is
    /// the sum of the children's sizes, the children are brought into the
    /// fixed sibling order, and the node starts collapsed. Returns `None`
    /// only when the size sum does not fit the size field.
    pub fn directory(path: Vec<u8>, children: Vec<Node>) -> (r: Option<Node>)
        ensures
            r is Some <==> sum_sizes(children@) <= u64::MAX,
            r is Some ==> {
                let n = r->0;
                &&& n.spec_path() == path@
                &&& n.spec_size() == sum_sizes(children@)
                &&& n.is_dir()
                &&& !n.is_expanded()
                &&& n.spec_children().to_multiset() == children@.to_multiset()
                &&& n.spec_children().len() == children@.len()
                &&& sorted_nodes(n.spec_children())
                &&& (forall|i: int|
                    0 <= i < children@.len() ==> (#[trigger] children@[i]).wf()) ==> n.wf()
            },
    {
        let total = match sum_sizes_exec(&children) {
            Some(t) => t,
            None => {
                return None;
            },
        };
        let ghost orig = children@;
        let sorted = sort_nodes_exec(children);
        proof {
            lemma_sum_sizes_permutation(orig, sorted@);
        }
        let n = Node {
            path,
            size: total,
            kind: NodeKind::Directory(DirProperty { children: sorted, expanded: false }),
        };
        proof {
            broadcast use vstd::seq_lib::group_to_multiset_ensures;

            if forall|i: int| 0 <= i < orig.len() ==> (#[trigger] orig[i]).wf() {
                assert forall|i: int| 0 <= i < n.spec_children().len() implies (
                #[trigger] n.spec_children()[i]).size_ok() && n.spec_children()[i].sorted_ok() by {
                    let c = n.spec_children()[i];
                    assert(n.spec_children().to_multiset().count(c) > 0);
                    assert(orig.contains(c));
                    let j = choose|j: int| 0 <= j < orig.len() && orig[j] == c;
                    assert(orig[j].wf());
                }
                lemma_oks_seq_all(n.spec_children());
            }
        }
        Some(n)
    }
}

} // verus!
