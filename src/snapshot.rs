//! Building a tree snapshot from a directory listing: composing each node's
//! path, discarding entries that cannot be built, and ordering siblings.

use vstd::prelude::*;
use crate::node::{
    FileNode, children_of, NAME_SEP, base_name, child_path, node_le, seq_le, sorted_nodes, tag_rank, valid_base,
    wf_below, wf_root,
};

verus! {

/// One entry as read from the filesystem, before paths are composed: its base
/// name and what it is. `Unreadable` stands for an entry that could not be
/// read or classified.
#[derive(Debug)]
pub enum Listing {
    Directory(String, Vec<Listing>),
    File(String),
    Link(String, String),
    Unreadable,
}

/// Why a snapshot could not be built.
#[derive(Debug, PartialEq, Eq)]
pub enum TreeError {
    /// The root could not be read or classified.
    PathError,
}

/// The base name of an entry (empty for an unreadable one).
pub open spec fn entry_name(e: Listing) -> Seq<char> {
    match e {
        Listing::Directory(b, _) => b@,
        Listing::File(b) => b@,
        Listing::Link(b, _) => b@,
        Listing::Unreadable => Seq::empty(),
    }
}

/// An entry that yields a node: readable, with a name that is one segment.
pub open spec fn buildable(e: Listing) -> bool {
    !(e is Unreadable) && valid_base(entry_name(e))
}

/// The path of a node named `base` under `parent` (the root has none).
pub open spec fn node_path(parent: Option<Seq<char>>, base: Seq<char>) -> Seq<char> {
    match parent {
        Some(p) => child_path(p, base),
        None => base,
    }
}

/// `n` has the kind of entry `e`, the path `path`, and for a link the same
/// target.
pub open spec fn same_kind(n: FileNode, e: Listing, path: Seq<char>) -> bool {
    match e {
        Listing::File(_) => match n {
            FileNode::File(p) => p@ == path,
            _ => false,
        },
        Listing::Link(_, t) => match n {
            FileNode::Link(p, t2) => p@ == path && t2@ == t@,
            _ => false,
        },
        Listing::Directory(_, _) => match n {
            FileNode::Directory(p, _) => p@ == path,
            _ => false,
        },
        Listing::Unreadable => false,
    }
}

/// Each child matches, by name and kind, a buildable entry.
pub open spec fn children_from_entries(cs: Seq<FileNode>, es: Seq<Listing>, path: Seq<char>) -> bool {
    forall|i: int|
        0 <= i < cs.len() ==> #[trigger] child_has_entry(cs[i], es, path)
}

/// `c` matches, by name and kind, a buildable entry of `es`.
pub open spec fn child_has_entry(c: FileNode, es: Seq<Listing>, path: Seq<char>) -> bool {
    exists|j: int|
        0 <= j < es.len() && buildable(es[j]) && #[trigger] same_kind(
            c,
            es[j],
            child_path(path, entry_name(es[j])),
        )
}

/// Each buildable entry has a child that matches it by name and kind.
pub open spec fn entries_have_children(cs: Seq<FileNode>, es: Seq<Listing>, path: Seq<char>) -> bool {
    forall|j: int|
        0 <= j < es.len() && #[trigger] buildable(es[j]) ==> exists|i: int|
            0 <= i < cs.len() && #[trigger] same_kind(cs[i], es[j], child_path(path, entry_name(es[j])))
}

/// `n` is the node built from entry `e` at `path`: of the same kind and
/// path, and for a directory, children in sibling order that match its
/// buildable entries by name and kind.
#[verifier::opaque]
pub open spec fn built_from(n: FileNode, e: Listing, path: Seq<char>) -> bool {
    &&& same_kind(n, e, path)
    &&& match e {
        Listing::Directory(_, es) => {
            &&& sorted_nodes(children_of(n))
            &&& children_from_entries(children_of(n), es@, path)
            &&& entries_have_children(children_of(n), es@, path)
        },
        _ => true,
    }
}

proof fn lemma_seq_le_total(a: Seq<char>, b: Seq<char>)
    ensures
        seq_le(a, b) || seq_le(b, a),
    decreases a.len(),
{
    if a.len() > 0 && b.len() > 0 && (a[0] as int) == (b[0] as int) {
        lemma_seq_le_total(a.drop_first(), b.drop_first());
    }
}

proof fn lemma_base_of_child(p: Seq<char>, b: Seq<char>)
    requires
        valid_base(b),
    ensures
        base_name(child_path(p, b)) == b,
{
    let q = child_path(p, b);
    let i = p.len() as int + 1;
    assert(q[i - 1] == NAME_SEP);
    assert forall|k: int| i <= k < q.len() implies q[k] != NAME_SEP by {
        assert(q[k] == b[k - i]);
    }
    crate::node::lemma_base_name_suffix(q, i);
    assert(q.subrange(i, q.len() as int) =~= b);
}

/// Lexicographic comparison of two strings by code point.
fn str_le(a: &str, b: &str) -> (r: bool)
    ensures
        r == seq_le(a@, b@),
{
    let na = a.unicode_len();
    let nb = b.unicode_len();
    let mut k: usize = 0;
    proof {
        assert(a@.subrange(0, na as int) =~= a@);
        assert(b@.subrange(0, nb as int) =~= b@);
    }
    while k < na && k < nb && (a.get_char(k) as u32) == (b.get_char(k) as u32)
        invariant
            na == a@.len(),
            nb == b@.len(),
            k <= na,
            k <= nb,
            seq_le(a@, b@) == seq_le(a@.subrange(k as int, na as int), b@.subrange(k as int, nb as int)),
        decreases na - k,
    {
        proof {
            let sa = a@.subrange(k as int, na as int);
            let sb = b@.subrange(k as int, nb as int);
            assert(sa.drop_first() =~= a@.subrange(k + 1, na as int));
            assert(sb.drop_first() =~= b@.subrange(k + 1, nb as int));
        }
        k = k + 1;
    }
    proof {
        let sa = a@.subrange(k as int, na as int);
        let sb = b@.subrange(k as int, nb as int);
        if k < na && k < nb {
            assert(sa[0] == a@[k as int]);
            assert(sb[0] == b@[k as int]);
        }
    }
    if k == na {
        true
    } else if k == nb {
        false
    } else {
        (a.get_char(k) as u32) < (b.get_char(k) as u32)
    }
}

fn rank(n: &FileNode) -> (r: u8)
    ensures
        r as int == tag_rank(*n),
{
    match n {
        FileNode::Directory(..) => 0,
        FileNode::File(..) => 1,
        FileNode::Link(..) => 2,
    }
}

/// Sibling order: variant rank first, then path.
fn le_nodes(a: &FileNode, b: &FileNode) -> (r: bool)
    ensures
        r == node_le(*a, *b),
{
    let ra = rank(a);
    let rb = rank(b);
    ra < rb || (ra == rb && str_le(a.path(), b.path()))
}

/// Whether `s` is a single path segment: non-empty, no separator.
fn is_valid_base(s: &str) -> (r: bool)
    ensures
        r == valid_base(s@),
{
    let n = s.unicode_len();
    if n == 0 {
        return false;
    }
    let mut i: usize = 0;
    while i < n
        invariant
            n == s@.len(),
            i <= n,
            forall|k: int| 0 <= k < i ==> s@[k] != NAME_SEP,
        decreases n - i,
    {
        if s.get_char(i) == NAME_SEP {
            return false;
        }
        i = i + 1;
    }
    true
}

/// Inserts `n` into the sorted `v` before the first element it does not
/// follow.
fn insert_sorted(v: &mut Vec<FileNode>, n: FileNode) -> (idx: usize)
    requires
        sorted_nodes(old(v)@),
    ensures
        sorted_nodes(final(v)@),
        idx <= old(v)@.len(),
        final(v)@ == old(v)@.insert(idx as int, n),
{
    let mut idx: usize = 0;
    while idx < v.len() && !le_nodes(&n, &v[idx])
        invariant
            idx <= v.len(),
            forall|k: int| 0 <= k < idx ==> !node_le(n, #[trigger] v@[k]),
        decreases v.len() - idx,
    {
        idx = idx + 1;
    }
    let ghost pre = v@;
    proof {
        if idx > 0 {
            assert(!node_le(n, pre[idx - 1]));
            lemma_seq_le_total(n.spec_path(), pre[idx - 1].spec_path());
        }
    }
    v.insert(idx, n);
    proof {
        let post = v@;
        assert(post == pre.insert(idx as int, n));
        assert forall|k: int| 0 <= k < post.len() - 1 implies #[trigger] node_le(post[k], post[k + 1]) by {
            if k + 1 < idx {
                assert(node_le(pre[k], pre[k + 1]));
            } else if k + 1 == idx {
            } else if k == idx {
            } else {
                let j = k - 1;
                assert(node_le(pre[j], pre[j + 1]));
            }
        }
    }
    idx
}

/// The view of an optional parent path.
pub open spec fn parent_path(parent: Option<&str>) -> Option<Seq<char>> {
    match parent {
        Some(p) => Some(p@),
        None => None,
    }
}

/// What holds of each child collected so far for a directory at `path`
/// whose first `j` entries have been processed.
#[verifier::opaque]
pub open spec fn collected(nodes: Seq<FileNode>, es: Seq<Listing>, j: int, path: Seq<char>) -> bool {
    &&& sorted_nodes(nodes)
    &&& forall|i: int|
        #![trigger nodes[i]]
        0 <= i < nodes.len() ==> {
            &&& wf_below(nodes[i])
            &&& valid_base(base_name(nodes[i].spec_path()))
            &&& nodes[i].spec_path() == child_path(path, base_name(nodes[i].spec_path()))
            &&& exists|k: int|
                0 <= k < j && buildable(es[k]) && #[trigger] built_from(
                    nodes[i],
                    es[k],
                    child_path(path, entry_name(es[k])),
                )
        }
    &&& forall|k: int|
        0 <= k < j && #[trigger] buildable(es[k]) ==> exists|i: int|
            0 <= i < nodes.len() && #[trigger] built_from(
                nodes[i],
                es[k],
                child_path(path, entry_name(es[k])),
            )
}

#[verifier::rlimit(40)]
proof fn lemma_collect_ok(
    pre: Seq<FileNode>,
    idx: int,
    n: FileNode,
    es: Seq<Listing>,
    j: int,
    path: Seq<char>,
)
    requires
        0 <= j < es.len(),
        0 <= idx <= pre.len(),
        collected(pre, es, j, path),
        sorted_nodes(pre.insert(idx, n)),
        buildable(es[j]),
        built_from(n, es[j], child_path(path, entry_name(es[j]))),
        wf_below(n),
        n.spec_path() == child_path(path, entry_name(es[j])),
    ensures
        collected(pre.insert(idx, n), es, j + 1, path),
{
    reveal(collected);
    let post = pre.insert(idx, n);
    lemma_base_of_child(path, entry_name(es[j]));
    assert forall|i: int| #![trigger post[i]] 0 <= i < post.len() implies {
        &&& wf_below(post[i])
        &&& valid_base(base_name(post[i].spec_path()))
        &&& post[i].spec_path() == child_path(path, base_name(post[i].spec_path()))
        &&& exists|k: int|
            0 <= k < j + 1 && buildable(es[k]) && #[trigger] built_from(
                post[i],
                es[k],
                child_path(path, entry_name(es[k])),
            )
    } by {
        if i == idx {
            assert(built_from(post[i], es[j], child_path(path, entry_name(es[j]))));
        } else {
            let i0 = if i < idx { i } else { i - 1 };
            assert(post[i] == pre[i0]);
            let k = choose|k: int|
                0 <= k < j && buildable(es[k]) && #[trigger] built_from(
                    pre[i0],
                    es[k],
                    child_path(path, entry_name(es[k])),
                );
            assert(built_from(post[i], es[k], child_path(path, entry_name(es[k]))));
        }
    }
    assert forall|k: int| 0 <= k < j + 1 && #[trigger] buildable(es[k]) implies exists|i: int|
        0 <= i < post.len() && #[trigger] built_from(
            post[i],
            es[k],
            child_path(path, entry_name(es[k])),
        ) by {
        if k == j {
            assert(built_from(post[idx], es[k], child_path(path, entry_name(es[k]))));
        } else {
            let i0 = choose|i0: int|
                0 <= i0 < pre.len() && #[trigger] built_from(
                    pre[i0],
                    es[k],
                    child_path(path, entry_name(es[k])),
                );
            let i = if i0 < idx { i0 } else { i0 + 1 };
            assert(post[i] == pre[i0]);
            assert(built_from(post[i], es[k], child_path(path, entry_name(es[k]))));
        }
    }
}

proof fn lemma_collect_skip(nodes: Seq<FileNode>, es: Seq<Listing>, j: int, path: Seq<char>)
    requires
        0 <= j < es.len(),
        collected(nodes, es, j, path),
        !buildable(es[j]),
    ensures
        collected(nodes, es, j + 1, path),
{
    reveal(collected);
    assert forall|i: int| #![trigger nodes[i]] 0 <= i < nodes.len() implies exists|k: int|
        0 <= k < j + 1 && buildable(es[k]) && #[trigger] built_from(
            nodes[i],
            es[k],
            child_path(path, entry_name(es[k])),
        ) by {
        let k = choose|k: int|
            0 <= k < j && buildable(es[k]) && #[trigger] built_from(
                nodes[i],
                es[k],
                child_path(path, entry_name(es[k])),
            );
    }
}

proof fn lemma_collect_start(es: Seq<Listing>, path: Seq<char>)
    ensures
        collected(Seq::empty(), es, 0, path),
{
    reveal(collected);
}

proof fn lemma_directory_wf(p: String, nodes: Vec<FileNode>, e: Listing)
    requires
        e is Directory,
        collected(nodes@, e->Directory_1@, e->Directory_1@.len() as int, p@),
    ensures
        wf_below(FileNode::Directory(p, nodes)),
{
    reveal(collected);
    assert forall|i: int| 0 <= i < nodes@.len() implies {
        &&& valid_base(base_name(#[trigger] nodes@[i].spec_path()))
        &&& nodes@[i].spec_path() == child_path(p@, base_name(nodes@[i].spec_path()))
        &&& wf_below(nodes@[i])
    } by {
        assert(wf_below(nodes@[i]));
    }
}

proof fn lemma_directory_built(p: String, nodes: Vec<FileNode>, e: Listing)
    requires
        e is Directory,
        collected(nodes@, e->Directory_1@, e->Directory_1@.len() as int, p@),
    ensures
        built_from(FileNode::Directory(p, nodes), e, p@),
{
    reveal(collected);
    reveal(built_from);
    let es = e->Directory_1@;
    let cs = nodes@;
    assert(children_of(FileNode::Directory(p, nodes)) == cs);
    assert(children_from_entries(cs, es, p@)) by {
        assert forall|i: int| 0 <= i < cs.len() implies #[trigger] child_has_entry(cs[i], es, p@) by {
            let k = choose|k: int|
                0 <= k < es.len() && buildable(es[k]) && #[trigger] built_from(
                    cs[i],
                    es[k],
                    child_path(p@, entry_name(es[k])),
                );
            assert(same_kind(cs[i], es[k], child_path(p@, entry_name(es[k]))));
            assert(child_has_entry(cs[i], es, p@));
        }
    }
    assert(entries_have_children(cs, es, p@)) by {
        assert forall|j: int| 0 <= j < es.len() && #[trigger] buildable(es[j]) implies exists|i: int|
            0 <= i < cs.len() && #[trigger] same_kind(cs[i], es[j], child_path(p@, entry_name(es[j]))) by {
            let i = choose|i: int|
                0 <= i < cs.len() && #[trigger] built_from(
                    cs[i],
                    es[j],
                    child_path(p@, entry_name(es[j])),
                );
            assert(same_kind(cs[i], es[j], child_path(p@, entry_name(es[j]))));
        }
    }
}

impl FileNode {
    /// Builds the node for the entry `e` under the path `parent` (`None` for
    /// the root). An unreadable entry, or one whose name is not a single
    /// segment, fails; inside a directory such entries are left out. Children
    /// come in sibling order.
    pub fn new_recursive(e: &Listing, parent: Option<&str>) -> (r: Result<FileNode, TreeError>)
        ensures
            r is Ok <==> buildable(*e),
            r is Ok ==> built_from(r->Ok_0, *e, node_path(parent_path(parent), entry_name(*e))),
            r is Ok ==> wf_below(r->Ok_0),
            r is Ok ==> r->Ok_0.spec_path() == node_path(parent_path(parent), entry_name(*e)),
            r is Err ==> r->Err_0 == TreeError::PathError,
        decreases e,
    {
        let name: &str = match e {
            Listing::Directory(b, _) => b.as_str(),
            Listing::File(b) => b.as_str(),
            Listing::Link(b, _) => b.as_str(),
            Listing::Unreadable => {
                return Err(TreeError::PathError);
            },
        };
        if !is_valid_base(name) {
            return Err(TreeError::PathError);
        }
        let path_name: String = match parent {
            Some(p) => {
                let sep = "/";
                proof {
                    reveal_strlit("/");
                }
                let r = p.to_owned().concat(sep).concat(name);
                assert(r@ =~= child_path(p@, name@));
                r
            },
            None => name.to_owned(),
        };
        let ghost path = path_name@;
        assert(path == node_path(parent_path(parent), entry_name(*e)));
        match e {
            Listing::File(_) => {
                let r = FileNode::File(path_name);
                proof {
                    reveal(built_from);
                }
                assert(built_from(r, *e, path));
                Ok(r)
            },
            Listing::Link(_, t) => {
                let r = FileNode::Link(path_name, t.clone());
                proof {
                    reveal(built_from);
                }
                assert(built_from(r, *e, path));
                Ok(r)
            },
            Listing::Directory(_, es) => {
                let mut nodes: Vec<FileNode> = Vec::new();
                proof {
                    lemma_collect_start(es@, path);
                    assert(nodes@ =~= Seq::<FileNode>::empty());
                }
                let mut j: usize = 0;
                while j < es.len()
                    invariant
                        j <= es.len(),
                        path_name@ == path,
                        e is Directory,
                        *es == e->Directory_1,
                        sorted_nodes(nodes@),
                        collected(nodes@, es@, j as int, path),
                    decreases es.len() - j,
                {
                    proof {
                        assert(decreases_to!(*e => e->Directory_1));
                        vstd::std_specs::vec::axiom_vec_index_decreases(*es, j as int);
                    }
                    let built = FileNode::new_recursive(&es[j], Some(path_name.as_str()));
                    let ghost pre = nodes@;
                    match built {
                        Ok(n) => {
                            let idx = insert_sorted(&mut nodes, n);
                            proof {
                                lemma_collect_ok(pre, idx as int, n, es@, j as int, path);
                            }
                        },
                        Err(_) => {
                            proof {
                                lemma_collect_skip(pre, es@, j as int, path);
                            }
                        },
                    }
                    j = j + 1;
                }
                proof {
                    lemma_directory_wf(path_name, nodes, *e);
                    lemma_directory_built(path_name, nodes, *e);
                }
                let r = FileNode::Directory(path_name, nodes);
                Ok(r)
            },
            Listing::Unreadable => Err(TreeError::PathError),
        }
    }
}

} // verus!
