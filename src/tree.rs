//! The tree view: a snapshot plus expansion state, and the bounded walk that
//! derives the visible rows.

use vstd::prelude::*;
use crate::node::{
    FileNode, NAME_SEP, base_name, child_path, children_of, valid_base, wf_below, wf_root,
};
use crate::state::FileTreeState;
use crate::snapshot::{Listing, TreeError, buildable, built_from, entry_name};

verus! {

/// Processing the node at `i`: an expanded directory appends its children.
pub open spec fn expand_step(nodes: Seq<FileNode>, i: int, expanded: Set<Seq<char>>) -> Seq<
    FileNode,
> {
    if nodes[i].is_dir() && expanded.contains(nodes[i].spec_path()) {
        nodes + children_of(nodes[i])
    } else {
        nodes
    }
}

/// The walk from cursor `i`: nodes are processed in order until the cursor
/// reaches `limit` or passes the end of the accumulated sequence.
pub open spec fn walk(nodes: Seq<FileNode>, i: nat, limit: nat, expanded: Set<Seq<char>>) -> Seq<
    FileNode,
>
    decreases limit - i,
{
    if i < limit && i < nodes.len() {
        walk(expand_step(nodes, i as int, expanded), i + 1, limit, expanded)
    } else {
        nodes
    }
}

/// The visible rows of a tree: the walk that starts from the root alone.
pub open spec fn visible_rows(root: FileNode, expanded: Set<Seq<char>>, limit: nat) -> Seq<
    FileNode,
> {
    walk(seq![root], 0, limit, expanded)
}

/// The nodes behind a sequence of references.
pub open spec fn nodes_of(s: Seq<&FileNode>) -> Seq<FileNode> {
    s.map_values(|n: &FileNode| *n)
}

/// A snapshot of a directory subtree together with its expansion state.
#[derive(Debug)]
pub struct FileTree {
    file_root: String,
    root_node: FileNode,
    state: FileTreeState,
}

impl FileTree {
    /// Opens a tree view on the listing `root` read from the path `open`,
    /// with nothing expanded. Fails when the root entry cannot be built.
    pub fn new(open: &str, root: &Listing) -> (r: Result<FileTree, TreeError>)
        ensures
            r is Ok <==> buildable(*root),
            r is Err ==> r->Err_0 == TreeError::PathError,
            r is Ok ==> built_from(r->Ok_0.root(), *root, entry_name(*root)),
            r is Ok ==> wf_root(r->Ok_0.root()),
            r is Ok ==> r->Ok_0.spec_state()@ == Set::<Seq<char>>::empty(),
            r is Ok ==> r->Ok_0.opened() == open@,
    {
        match FileNode::new_recursive(root, None) {
            Ok(root_node) => Ok(FileTree {
                file_root: open.to_owned(),
                root_node,
                state: FileTreeState::new(),
            }),
            Err(e) => Err(e),
        }
    }

    /// The root node of the snapshot.
    pub closed spec fn root(&self) -> FileNode {
        self.root_node
    }

    /// The path the snapshot was opened from.
    pub closed spec fn opened(&self) -> Seq<char> {
        self.file_root@
    }

    /// The expansion state.
    pub closed spec fn spec_state(&self) -> FileTreeState {
        self.state
    }

    /// The expansion state, for changing which directories are expanded.
    pub fn state(&mut self) -> (r: &mut FileTreeState)
        ensures
            *r == old(self).spec_state(),
            final(self).spec_state() == *final(r),
            final(self).root() == old(self).root(),
            final(self).opened() == old(self).opened(),
    {
        &mut self.state
    }

    /// The rows visible under the current state, processing at most `limit`
    /// nodes.
    pub fn to_list_with_limit<'a>(&'a self, limit: u16) -> (r: Vec<&'a FileNode>)
        ensures
            nodes_of(r@) == visible_rows(self.root(), self.spec_state()@, limit as nat),
    {
        let mut i: u16 = 0;
        let mut nodes: Vec<&'a FileNode> = Vec::new();
        nodes.push(&self.root_node);
        assert(nodes_of(nodes@) =~= seq![self.root_node]);
        while i < limit && (i as usize) < nodes.len()
            invariant
                i <= limit,
                walk(nodes_of(nodes@), i as nat, limit as nat, self.state@) == visible_rows(
                    self.root_node,
                    self.state@,
                    limit as nat,
                ),
            decreases limit - i,
        {
            let next = nodes[i as usize];
            let ghost before = nodes_of(nodes@);
            if next.has_children() && self.state.is_expanded(next.path()) {
                match next {
                    FileNode::Directory(_, c) => {
                        let mut j: usize = 0;
                        while j < c.len()
                            invariant
                                j <= c.len(),
                                nodes_of(nodes@) == before + c@.subrange(0, j as int),
                            decreases c.len() - j,
                        {
                            let ghost prev = nodes@;
                            nodes.push(&c[j]);
                            assert(nodes@ == prev.push(&c[j as int]));
                            assert(nodes_of(prev).len() == prev.len());
                            assert(nodes_of(prev) == before + c@.subrange(0, j as int));
                            assert(nodes_of(nodes@).len() == before.len() + j + 1);
                            assert forall|k: int| 0 <= k < nodes@.len() implies #[trigger] nodes_of(nodes@)[k] == (before + c@.subrange(0, j + 1))[k] by {
                                if k < prev.len() {
                                    assert(nodes_of(prev)[k] == (before + c@.subrange(0, j as int))[k]);
                                }
                            }
                            assert(nodes_of(nodes@) =~= before + c@.subrange(0, j + 1));
                            j = j + 1;
                        }
                        assert(c@.subrange(0, c.len() as int) =~= c@);
                    },
                    _ => {},
                }
            }
            assert(nodes_of(nodes@) == expand_step(before, i as int, self.state@));
            i = i + 1;
        }
        nodes
    }
}

/// A node's path lies under `d`: it starts with `d` and the separator.
pub open spec fn under(d: Seq<char>, p: Seq<char>) -> bool {
    p.len() > d.len() && p.subrange(0, d.len() as int + 1) == d.push(NAME_SEP)
}

/// `c` is a child of the expanded node `p`, by path.
pub open spec fn expanded_child(p: FileNode, c: FileNode, expanded: Set<Seq<char>>) -> bool {
    &&& expanded.contains(p.spec_path())
    &&& valid_base(base_name(c.spec_path()))
    &&& c.spec_path() == child_path(p.spec_path(), base_name(c.spec_path()))
}

/// Every node after the first was reached from an earlier expanded node,
/// and path identity holds below every node.
pub open spec fn reached(nodes: Seq<FileNode>, expanded: Set<Seq<char>>) -> bool {
    &&& forall|k: int| 0 <= k < nodes.len() ==> wf_below(#[trigger] nodes[k])
    &&& forall|k: int| 1 <= k < nodes.len() ==> #[trigger] has_parent(nodes, k, expanded)
}

/// The node at `k` is an expanded child of some earlier node.
pub open spec fn has_parent(nodes: Seq<FileNode>, k: int, expanded: Set<Seq<char>>) -> bool {
    exists|j: int| 0 <= j < k && #[trigger] expanded_child(nodes[j], nodes[k], expanded)
}

proof fn lemma_step_reached(nodes: Seq<FileNode>, i: int, expanded: Set<Seq<char>>)
    requires
        0 <= i < nodes.len(),
        reached(nodes, expanded),
    ensures
        reached(expand_step(nodes, i, expanded), expanded),
        expand_step(nodes, i, expanded).subrange(0, nodes.len() as int) == nodes,
{
    let next = expand_step(nodes, i, expanded);
    assert(next.subrange(0, nodes.len() as int) =~= nodes);
    if nodes[i].is_dir() && expanded.contains(nodes[i].spec_path()) {
        let c = children_of(nodes[i]);
        assert(wf_below(nodes[i]));
        assert forall|k: int| 0 <= k < next.len() implies wf_below(#[trigger] next[k]) by {
            if k >= nodes.len() {
                assert(next[k] == c[k - nodes.len()]);
                let _ = c[k - nodes.len()].spec_path();
            }
        }
        assert forall|k: int| 1 <= k < next.len() implies #[trigger] has_parent(next, k, expanded) by {
            if k >= nodes.len() {
                assert(next[k] == c[k - nodes.len()]);
                let _ = c[k - nodes.len()].spec_path();
                assert(expanded_child(next[i], next[k], expanded));
            } else {
                assert(next[k] == nodes[k]);
                assert(has_parent(nodes, k, expanded));
                let j = choose|j: int| 0 <= j < k && expanded_child(nodes[j], nodes[k], expanded);
                assert(next[j] == nodes[j]);
                assert(expanded_child(next[j], next[k], expanded));
            }
        }
        assert(reached(next, expanded));
    } else {
        assert(next == nodes);
    }
}

proof fn lemma_walk_reached(nodes: Seq<FileNode>, i: nat, limit: nat, expanded: Set<Seq<char>>)
    requires
        reached(nodes, expanded),
    ensures
        reached(walk(nodes, i, limit, expanded), expanded),
        nodes.len() <= walk(nodes, i, limit, expanded).len(),
        walk(nodes, i, limit, expanded).subrange(0, nodes.len() as int) == nodes,
    decreases limit - i,
{
    if i < limit && i < nodes.len() {
        let next = expand_step(nodes, i as int, expanded);
        lemma_step_reached(nodes, i as int, expanded);
        lemma_walk_reached(next, i + 1, limit, expanded);
        let w = walk(next, i + 1, limit, expanded);
        assert(w.subrange(0, nodes.len() as int) =~= w.subrange(0, next.len() as int).subrange(
            0,
            nodes.len() as int,
        ));
    } else {
        assert(nodes.subrange(0, nodes.len() as int) =~= nodes);
    }
}

proof fn lemma_not_under(nodes: Seq<FileNode>, expanded: Set<Seq<char>>, d: Seq<char>, k: int)
    requires
        reached(nodes, expanded),
        nodes.len() > 0,
        valid_base(nodes[0].spec_path()),
        !expanded.contains(d),
        0 <= k < nodes.len(),
    ensures
        !under(d, nodes[k].spec_path()),
    decreases k,
{
    let p = nodes[k].spec_path();
    if under(d, p) {
        if k == 0 {
            assert(p[d.len() as int] == p.subrange(0, d.len() as int + 1)[d.len() as int]);
        } else {
            assert(has_parent(nodes, k, expanded));
            let j = choose|j: int| 0 <= j < k && expanded_child(nodes[j], nodes[k], expanded);
            let q = nodes[j].spec_path();
            let b = base_name(p);
            assert(p == q.push(NAME_SEP) + b);
            if d.len() == q.len() {
                assert(d =~= q) by {
                    assert forall|m: int| 0 <= m < d.len() implies d[m] == q[m] by {
                        assert(p.subrange(0, d.len() as int + 1)[m] == p[m]);
                        assert(d.push(NAME_SEP)[m] == d[m]);
                    }
                }
            } else if d.len() < q.len() {
                assert(q.subrange(0, d.len() as int + 1) =~= p.subrange(0, d.len() as int + 1));
                lemma_not_under(nodes, expanded, d, j);
            } else {
                let m = d.len() - q.len() - 1;
                assert(p[d.len() as int] == b[m]);
                assert(p.subrange(0, d.len() as int + 1)[d.len() as int] == p[d.len() as int]);
            }
        }
    }
}

/// A collapsed directory hides everything beneath it: when `d` is not
/// expanded, no visible row lies under `d`, whatever the limit.
pub proof fn lemma_collapse_containment(
    root: FileNode,
    expanded: Set<Seq<char>>,
    limit: nat,
    d: Seq<char>,
)
    requires
        wf_root(root),
        !expanded.contains(d),
    ensures
        forall|k: int|
            0 <= k < visible_rows(root, expanded, limit).len() ==> !under(
                d,
                #[trigger] visible_rows(root, expanded, limit)[k].spec_path(),
            ),
{
    let start = seq![root];
    assert(reached(start, expanded));
    lemma_walk_reached(start, 0, limit, expanded);
    let rows = visible_rows(root, expanded, limit);
    assert(rows[0] == root) by {
        assert(rows.subrange(0, 1)[0] == rows[0]);
    }
    assert forall|k: int| 0 <= k < rows.len() implies !under(d, #[trigger] rows[k].spec_path()) by {
        lemma_not_under(rows, expanded, d, k);
    }
}

proof fn lemma_walk_idle(nodes: Seq<FileNode>, i: nat, limit: nat, expanded: Set<Seq<char>>)
    requires
        forall|k: int|
            i <= k < nodes.len() ==> !expanded.contains(#[trigger] nodes[k].spec_path()),
    ensures
        walk(nodes, i, limit, expanded) == nodes,
    decreases limit - i,
{
    if i < limit && i < nodes.len() {
        lemma_walk_idle(nodes, i + 1, limit, expanded);
    }
}

/// Expanding the root alone shows the root followed by its immediate
/// children, each of them collapsed.
pub proof fn lemma_expand_root_shows_children(root: FileNode, limit: nat)
    requires
        wf_root(root),
        root.is_dir(),
        limit >= 1,
    ensures
        visible_rows(root, set![root.spec_path()], limit) == seq![root] + children_of(root),
{
    let s = set![root.spec_path()];
    let after = seq![root] + children_of(root);
    assert(expand_step(seq![root], 0, s) == after);
    assert forall|k: int| 1 <= k < after.len() implies !s.contains(
        #[trigger] after[k].spec_path(),
    ) by {
        let c = children_of(root);
        assert(after[k] == c[k - 1]);
        assert(wf_below(root));
        assert(after[k].spec_path().len() > root.spec_path().len());
    }
    lemma_walk_idle(after, 1, limit, s);
}

} // verus!
