//! Tree nodes, their paths, and the spec functions that describe them.

use vstd::prelude::*;

verus! {

/// The separator placed between the segments of a node's path.
pub const NAME_SEP: char = '/';

/// One entry of a tree snapshot. Each variant carries its full path relative
/// to the tree root (the parent's path, the separator, and the base name).
#[derive(Debug, PartialEq, Eq)]
pub enum FileNode {
    Directory(String, Vec<FileNode>),
    File(String),
    Link(String, String),
}

/// Number of separators in a path.
pub open spec fn sep_count(p: Seq<char>) -> nat
    decreases p.len(),
{
    if p.len() == 0 {
        0
    } else {
        sep_count(p.drop_last()) + if p.last() == NAME_SEP { 1nat } else { 0nat }
    }
}

/// Number of separator-delimited segments in a path.
pub open spec fn segment_count(p: Seq<char>) -> nat {
    sep_count(p) + 1
}

/// The final segment of a path: everything after its last separator.
pub open spec fn base_name(p: Seq<char>) -> Seq<char>
    decreases p.len(),
{
    if p.len() == 0 {
        p
    } else if p.last() == NAME_SEP {
        Seq::empty()
    } else {
        base_name(p.drop_last()).push(p.last())
    }
}

/// A base name that can stand as one path segment: non-empty, no separator.
pub open spec fn valid_base(b: Seq<char>) -> bool {
    b.len() > 0 && forall|k: int| 0 <= k < b.len() ==> b[k] != NAME_SEP
}

/// The path of a child named `base` under the path `parent`.
pub open spec fn child_path(parent: Seq<char>, base: Seq<char>) -> Seq<char> {
    parent.push(NAME_SEP) + base
}

/// Rank of a variant in the sibling order: directories, then files, then links.
pub open spec fn tag_rank(n: FileNode) -> int {
    match n {
        FileNode::Directory(..) => 0,
        FileNode::File(..) => 1,
        FileNode::Link(..) => 2,
    }
}

/// Lexicographic order on character sequences (by code point).
pub open spec fn seq_le(a: Seq<char>, b: Seq<char>) -> bool
    decreases a.len(),
{
    if a.len() == 0 {
        true
    } else if b.len() == 0 {
        false
    } else if (a[0] as int) != (b[0] as int) {
        (a[0] as int) < (b[0] as int)
    } else {
        seq_le(a.drop_first(), b.drop_first())
    }
}

/// Sibling order: by variant rank first, then by path.
pub open spec fn node_le(a: FileNode, b: FileNode) -> bool {
    tag_rank(a) < tag_rank(b) || (tag_rank(a) == tag_rank(b) && seq_le(
        a.spec_path(),
        b.spec_path(),
    ))
}

/// A sequence of siblings in sibling order.
pub open spec fn sorted_nodes(s: Seq<FileNode>) -> bool {
    forall|i: int| 0 <= i < s.len() - 1 ==> #[trigger] node_le(s[i], s[i + 1])
}

/// The children of a node (empty for files and links).
pub open spec fn children_of(n: FileNode) -> Seq<FileNode> {
    match n {
        FileNode::Directory(_, c) => c@,
        _ => Seq::empty(),
    }
}

/// Path identity below a node: each child's path is the node's path, the
/// separator and the child's own base name, children are in sibling order,
/// and the same holds of every child.
pub open spec fn wf_below(n: FileNode) -> bool
    decreases n,
{
    match n {
        FileNode::Directory(p, c) => {
            &&& sorted_nodes(c@)
            &&& forall|i: int|
                0 <= i < c@.len() ==> {
                    &&& valid_base(base_name(#[trigger] c@[i].spec_path()))
                    &&& c@[i].spec_path() == child_path(p@, base_name(c@[i].spec_path()))
                    &&& wf_below(c@[i])
                }
        },
        _ => true,
    }
}

/// A well-formed tree root: its path is a single valid segment, and path
/// identity holds throughout.
pub open spec fn wf_root(n: FileNode) -> bool {
    valid_base(n.spec_path()) && wf_below(n)
}

impl FileNode {
    /// The full path of the node.
    pub open spec fn spec_path(&self) -> Seq<char> {
        match self {
            FileNode::Directory(p, _) => p@,
            FileNode::File(p) => p@,
            FileNode::Link(p, _) => p@,
        }
    }

    pub open spec fn is_dir(&self) -> bool {
        self is Directory
    }

    /// The full path of the node, relative to the tree root.
    pub fn path(&self) -> (r: &str)
        ensures
            r@ == self.spec_path(),
    {
        match self {
            FileNode::Directory(p, _) => p.as_str(),
            FileNode::File(p) => p.as_str(),
            FileNode::Link(p, _) => p.as_str(),
        }
    }

    /// The base name: the last segment of the path.
    pub fn name(&self) -> (r: &str)
        ensures
            r@ == base_name(self.spec_path()),
    {
        let full = self.path();
        let n = full.unicode_len();
        let mut i: usize = n;
        while i > 0 && full.get_char(i - 1) != NAME_SEP
            invariant
                n == full@.len(),
                i <= n,
                forall|k: int| i <= k < n ==> full@[k] != NAME_SEP,
            decreases i,
        {
            i = i - 1;
        }
        proof {
            lemma_base_name_suffix(full@, i as int);
        }
        full.substring_char(i, n)
    }

    /// Whether the node is a directory (and so may have children).
    pub fn has_children(&self) -> (r: bool)
        ensures
            r == self.is_dir(),
    {
        match self {
            FileNode::Directory(_, _) => true,
            _ => false,
        }
    }

    /// The number of segments of the path, saturating at `u16::MAX`.
    pub fn depth(&self) -> (r: u16)
        ensures
            r as nat == if segment_count(self.spec_path()) <= u16::MAX as nat {
                segment_count(self.spec_path())
            } else {
                u16::MAX as nat
            },
    {
        let seps = count_seps(self.path());
        if seps >= u16::MAX as usize {
            u16::MAX
        } else {
            (seps + 1) as u16
        }
    }
}

proof fn lemma_seq_le_trans(a: Seq<char>, b: Seq<char>, c: Seq<char>)
    requires
        seq_le(a, b),
        seq_le(b, c),
    ensures
        seq_le(a, c),
    decreases a.len(),
{
    if a.len() > 0 && b.len() > 0 && c.len() > 0 && (a[0] as int) == (b[0] as int) && (b[0] as int)
        == (c[0] as int) {
        lemma_seq_le_trans(a.drop_first(), b.drop_first(), c.drop_first());
    }
}

proof fn lemma_seq_le_antisym(a: Seq<char>, b: Seq<char>)
    requires
        seq_le(a, b),
        seq_le(b, a),
    ensures
        a == b,
    decreases a.len(),
{
    if a.len() > 0 {
        lemma_seq_le_antisym(a.drop_first(), b.drop_first());
        assert(a[0] == b[0]);
        assert(a =~= seq![a[0]] + a.drop_first());
        assert(b =~= seq![b[0]] + b.drop_first());
    } else {
        assert(b.len() == 0);
        assert(a =~= b);
    }
}

/// No two nodes of the sequence share a path.
pub open spec fn distinct_paths(s: Seq<FileNode>) -> bool {
    forall|i: int, j: int|
        0 <= i < s.len() && 0 <= j < s.len() && i != j ==> #[trigger] s[i].spec_path()
            != #[trigger] s[j].spec_path()
}

proof fn lemma_sorted_first_least(s: Seq<FileNode>, k: int)
    requires
        sorted_nodes(s),
        0 <= k < s.len(),
    ensures
        node_le(s[0], s[k]),
    decreases k,
{
    if k > 0 {
        lemma_sorted_first_least(s, k - 1);
        let j = k - 1;
        assert(node_le(s[j], s[j + 1]));
        if tag_rank(s[0]) == tag_rank(s[j]) && tag_rank(s[j]) == tag_rank(s[k]) {
            lemma_seq_le_trans(s[0].spec_path(), s[j].spec_path(), s[k].spec_path());
        }
    } else {
        lemma_seq_le_refl(s[0].spec_path());
    }
}

proof fn lemma_seq_le_refl(a: Seq<char>)
    ensures
        seq_le(a, a),
    decreases a.len(),
{
    if a.len() > 0 {
        lemma_seq_le_refl(a.drop_first());
    }
}

/// Sibling order leaves no choice: two sequences in sibling order that hold
/// the same nodes, no two of which share a path, are equal. So the order of
/// a directory's children does not depend on the order its entries were
/// listed in.
pub proof fn lemma_sibling_order_unique(a: Seq<FileNode>, b: Seq<FileNode>)
    requires
        sorted_nodes(a),
        sorted_nodes(b),
        distinct_paths(a),
        distinct_paths(b),
        forall|x: FileNode| a.contains(x) <==> b.contains(x),
    ensures
        a == b,
    decreases a.len(),
{
    if a.len() == 0 {
        if b.len() > 0 {
            assert(b.contains(b[0]));
        }
        assert(a =~= b);
    } else {
        assert(a.contains(a[0]));
        assert(b.len() > 0);
        assert(b.contains(b[0]));
        let k = choose|k: int| 0 <= k < a.len() && a[k] == b[0];
        let m = choose|m: int| 0 <= m < b.len() && b[m] == a[0];
        lemma_sorted_first_least(a, k);
        lemma_sorted_first_least(b, m);
        if tag_rank(a[0]) == tag_rank(b[0]) {
            lemma_seq_le_antisym(a[0].spec_path(), b[0].spec_path());
        }
        assert(a[0].spec_path() == a[k].spec_path());
        assert(k == 0);
        let a1 = a.drop_first();
        let b1 = b.drop_first();
        assert forall|x: FileNode| a1.contains(x) <==> b1.contains(x) by {
            if a1.contains(x) {
                let i = choose|i: int| 0 <= i < a1.len() && a1[i] == x;
                assert(a[i + 1] == x);
                assert(a.contains(x));
                let j = choose|j: int| 0 <= j < b.len() && b[j] == x;
                if j == 0 {
                    assert(a[i + 1].spec_path() == a[0].spec_path());
                }
                assert(b1[j - 1] == x);
            }
            if b1.contains(x) {
                let i = choose|i: int| 0 <= i < b1.len() && b1[i] == x;
                assert(b[i + 1] == x);
                assert(b.contains(x));
                let j = choose|j: int| 0 <= j < a.len() && a[j] == x;
                if j == 0 {
                    assert(b[i + 1].spec_path() == b[0].spec_path());
                }
                assert(a1[j - 1] == x);
            }
        }
        assert forall|i: int| 0 <= i < a1.len() - 1 implies #[trigger] node_le(a1[i], a1[i + 1]) by {
            assert(node_le(a[i + 1], a[i + 1 + 1]));
        }
        assert forall|i: int| 0 <= i < b1.len() - 1 implies #[trigger] node_le(b1[i], b1[i + 1]) by {
            assert(node_le(b[i + 1], b[i + 1 + 1]));
        }
        assert forall|i: int, j: int|
            0 <= i < a1.len() && 0 <= j < a1.len() && i != j implies #[trigger] a1[i].spec_path()
                != #[trigger] a1[j].spec_path() by {
            assert(a[i + 1].spec_path() != a[j + 1].spec_path());
        }
        assert forall|i: int, j: int|
            0 <= i < b1.len() && 0 <= j < b1.len() && i != j implies #[trigger] b1[i].spec_path()
                != #[trigger] b1[j].spec_path() by {
            assert(b[i + 1].spec_path() != b[j + 1].spec_path());
        }
        lemma_sibling_order_unique(a1, b1);
        assert(a =~= seq![a[0]] + a1);
        assert(b =~= seq![b[0]] + b1);
    }
}

/// Scanning back from the end to the last separator finds the base name.
pub(crate) proof fn lemma_base_name_suffix(p: Seq<char>, i: int)
    requires
        0 <= i <= p.len(),
        i == 0 || p[i - 1] == NAME_SEP,
        forall|k: int| i <= k < p.len() ==> p[k] != NAME_SEP,
    ensures
        base_name(p) == p.subrange(i, p.len() as int),
    decreases p.len(),
{
    if p.len() == i {
        assert(p.subrange(i, i) =~= Seq::<char>::empty());
    } else {
        let q = p.drop_last();
        lemma_base_name_suffix(q, i);
        assert(p.subrange(i, p.len() as int) =~= q.subrange(i, q.len() as int).push(p.last()));
    }
}

/// Counting separators over a growing prefix.
proof fn lemma_sep_count_step(p: Seq<char>, i: int)
    requires
        0 <= i < p.len(),
    ensures
        sep_count(p.subrange(0, i + 1)) == sep_count(p.subrange(0, i)) + if p[i] == NAME_SEP {
            1nat
        } else {
            0nat
        },
{
    assert(p.subrange(0, i + 1).drop_last() =~= p.subrange(0, i));
}

/// Number of separators in `s` (one pass of character reads).
fn count_seps(s: &str) -> (r: usize)
    ensures
        r == sep_count(s@),
{
    let n = s.unicode_len();
    let mut i: usize = 0;
    let mut count: usize = 0;
    while i < n
        invariant
            n == s@.len(),
            i <= n,
            count <= i,
            count == sep_count(s@.subrange(0, i as int)),
        decreases n - i,
    {
        proof {
            lemma_sep_count_step(s@, i as int);
        }
        if s.get_char(i) == NAME_SEP {
            count = count + 1;
        }
        i = i + 1;
    }
    assert(s@.subrange(0, n as int) =~= s@);
    count
}

} // verus!
