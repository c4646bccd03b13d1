//! Expansion state: which directory paths are expanded, and its JSON form.

use vstd::prelude::*;

verus! {

#[verifier::external_type_specification]
#[verifier::external_body]
pub struct ExJsonError(serde_json::Error);

/// The JSON text that serde_json writes for a list of strings.
pub uninterp spec fn json_of_paths(paths: Seq<Seq<char>>) -> Seq<char>;

/// The character sequences held by a list of strings.
pub open spec fn string_views(v: Seq<String>) -> Seq<Seq<char>> {
    v.map_values(|s: String| s@)
}

/// The set of paths listed in a sequence.
pub open spec fn path_set(p: Seq<Seq<char>>) -> Set<Seq<char>> {
    Set::new(|x: Seq<char>| p.contains(x))
}

/// Relies on serde_json::to_string on a `Vec<String>`: it writes the JSON
/// array of the strings, and does not fail (it fails only for a `Serialize`
/// impl that fails or a map with non-string keys).
#[verifier::external_body]
fn paths_to_json(paths: &Vec<String>) -> (r: Result<String, serde_json::Error>)
    ensures
        r is Ok,
        r->Ok_0@ == json_of_paths(string_views(paths@)),
{
    serde_json::to_string(paths)
}

/// Relies on serde_json::from_str into a `Vec<String>`: the JSON text that
/// serde_json wrote for a list of strings reads back as that list.
#[verifier::external_body]
fn paths_from_json(text: &str) -> (r: Result<Vec<String>, serde_json::Error>)
    ensures
        forall|p: Seq<Seq<char>>|
            text@ == #[trigger] json_of_paths(p) ==> r is Ok && string_views(r->Ok_0@) == p,
{
    serde_json::from_str(text)
}

/// Expansion state could not be read back from its text form.
#[derive(Debug, PartialEq, Eq)]
pub enum SerializationError {
    Malformed,
}

/// The set of `name_path`s of the expanded directories.
#[derive(Debug)]
pub struct FileTreeState {
    expanded_nodes: Vec<String>,
}

impl View for FileTreeState {
    type V = Set<Seq<char>>;

    closed spec fn view(&self) -> Set<Seq<char>> {
        path_set(string_views(self.expanded_nodes@))
    }
}

impl Default for FileTreeState {
    fn default() -> (r: FileTreeState)
        ensures
            r@ == Set::<Seq<char>>::empty(),
    {
        FileTreeState::new()
    }
}

impl FileTreeState {
    /// The empty state: nothing expanded.
    pub fn new() -> (r: FileTreeState)
        ensures
            r@ == Set::<Seq<char>>::empty(),
    {
        let r = FileTreeState { expanded_nodes: Vec::new() };
        assert(r@ =~= Set::<Seq<char>>::empty());
        r
    }

    /// A state with exactly the listed paths expanded.
    pub fn from_paths(paths: Vec<String>) -> (r: FileTreeState)
        ensures
            r@ == path_set(string_views(paths@)),
    {
        let mut r = FileTreeState::new();
        let mut i: usize = 0;
        while i < paths.len()
            invariant
                i <= paths.len(),
                r@ == path_set(string_views(paths@.subrange(0, i as int))),
            decreases paths.len() - i,
        {
            r.expand(paths[i].as_str());
            proof {
                let pre = string_views(paths@.subrange(0, i as int));
                let post = string_views(paths@.subrange(0, i + 1));
                assert(post =~= pre.push(paths@[i as int]@));
                assert(path_set(post) =~= path_set(pre).insert(paths@[i as int]@)) by {
                    assert forall|x: Seq<char>| path_set(post).contains(x) implies path_set(
                        pre,
                    ).insert(paths@[i as int]@).contains(x) by {
                        let k = choose|k: int| 0 <= k < post.len() && post[k] == x;
                        if k < pre.len() {
                            assert(pre[k] == x);
                        }
                    }
                    assert forall|x: Seq<char>| path_set(pre).insert(
                        paths@[i as int]@,
                    ).contains(x) implies path_set(post).contains(x) by {
                        if x == paths@[i as int]@ {
                            assert(post[pre.len() as int] == x);
                        } else {
                            let k = choose|k: int| 0 <= k < pre.len() && pre[k] == x;
                            assert(post[k] == x);
                        }
                    }
                }
            }
            i = i + 1;
        }
        assert(paths@.subrange(0, paths.len() as int) =~= paths@);
        r
    }

    /// Whether `path` is expanded.
    pub fn is_expanded(&self, path: &str) -> (r: bool)
        ensures
            r == self@.contains(path@),
    {
        let target = path.to_owned();
        let mut i: usize = 0;
        while i < self.expanded_nodes.len()
            invariant
                i <= self.expanded_nodes.len(),
                target@ == path@,
                forall|k: int| 0 <= k < i ==> self.expanded_nodes@[k]@ != path@,
            decreases self.expanded_nodes.len() - i,
        {
            if self.expanded_nodes[i] == target {
                assert(string_views(self.expanded_nodes@)[i as int] == path@);
                return true;
            }
            i = i + 1;
        }
        proof {
            if string_views(self.expanded_nodes@).contains(path@) {
                let k = choose|k: int|
                    0 <= k < self.expanded_nodes@.len() && string_views(self.expanded_nodes@)[k]
                        == path@;
                assert(self.expanded_nodes@[k]@ == path@);
            }
        }
        false
    }

    /// Marks `path` as expanded.
    pub fn expand(&mut self, path: &str)
        ensures
            final(self)@ == old(self)@.insert(path@),
    {
        if self.is_expanded(path) {
            assert(self@.insert(path@) =~= self@);
        } else {
            let ghost pre = string_views(self.expanded_nodes@);
            self.expanded_nodes.push(path.to_owned());
            proof {
                let post = string_views(self.expanded_nodes@);
                assert(post =~= pre.push(path@));
                assert forall|x: Seq<char>| path_set(post).contains(x) implies path_set(
                    pre,
                ).insert(path@).contains(x) by {
                    let k = choose|k: int| 0 <= k < post.len() && post[k] == x;
                    if k < pre.len() {
                        assert(pre[k] == x);
                    }
                }
                assert forall|x: Seq<char>| path_set(pre).insert(path@).contains(x) implies path_set(
                    post,
                ).contains(x) by {
                    if x == path@ {
                        assert(post[pre.len() as int] == x);
                    } else {
                        let k = choose|k: int| 0 <= k < pre.len() && pre[k] == x;
                        assert(post[k] == x);
                    }
                }
                assert(path_set(post) =~= path_set(pre).insert(path@));
            }
        }
    }

    /// Marks `path` as collapsed.
    pub fn collapse(&mut self, path: &str)
        ensures
            final(self)@ == old(self)@.remove(path@),
    {
        let ghost pre = string_views(self.expanded_nodes@);
        let mut kept: Vec<String> = Vec::new();
        let mut i: usize = 0;
        while i < self.expanded_nodes.len()
            invariant
                i <= self.expanded_nodes.len(),
                pre == string_views(self.expanded_nodes@),
                forall|k: int| 0 <= k < kept.len() ==> kept@[k]@ != path@,
                forall|x: Seq<char>|
                    string_views(kept@).contains(x) <==> (x != path@ && string_views(
                        self.expanded_nodes@.subrange(0, i as int),
                    ).contains(x)),
            decreases self.expanded_nodes.len() - i,
        {
            let item = &self.expanded_nodes[i];
            let ghost before = string_views(kept@);
            let ghost seen = string_views(self.expanded_nodes@.subrange(0, i as int));
            let ghost seen2 = string_views(self.expanded_nodes@.subrange(0, i + 1));
            assert(seen2 =~= seen.push(item@));
            if *item == path.to_owned() {
                assert(item@ == path@);
            } else {
                kept.push(item.clone());
            }
            proof {
                let after = string_views(kept@);
                assert forall|x: Seq<char>|
                    after.contains(x) <==> (x != path@ && seen2.contains(x)) by {
                    if after.contains(x) {
                        let k = choose|k: int| 0 <= k < after.len() && after[k] == x;
                        if k < before.len() {
                            assert(before[k] == x);
                            assert(before.contains(x));
                            assert(seen.contains(x));
                            let m = choose|m: int| 0 <= m < seen.len() && seen[m] == x;
                            assert(seen2[m] == x);
                        } else {
                            assert(seen2[i as int] == x);
                        }
                    }
                    if x != path@ && seen2.contains(x) {
                        let m = choose|m: int| 0 <= m < seen2.len() && seen2[m] == x;
                        if m < i {
                            assert(seen[m] == x);
                            assert(seen.contains(x));
                            assert(before.contains(x));
                            let k = choose|k: int| 0 <= k < before.len() && before[k] == x;
                            assert(after[k] == x);
                        } else {
                            assert(after[after.len() - 1] == x);
                        }
                    }
                }
            }
            i = i + 1;
        }
        assert(self.expanded_nodes@.subrange(0, i as int) =~= self.expanded_nodes@);
        self.expanded_nodes = kept;
        assert(self@ =~= path_set(pre).remove(path@));
    }

    /// The expanded paths, in the order they were first expanded.
    pub closed spec fn paths(&self) -> Seq<Seq<char>> {
        string_views(self.expanded_nodes@)
    }

    /// The JSON text of the state: an array of the expanded paths.
    pub fn serialize(&self) -> (r: String)
        ensures
            r@ == json_of_paths(self.paths()),
            path_set(self.paths()) == self@,
    {
        match paths_to_json(&self.expanded_nodes) {
            Ok(text) => text,
            Err(_) => String::new(),
        }
    }

    /// Reads a state back from its JSON text.
    pub fn deserialize(text: &str) -> (r: Result<FileTreeState, SerializationError>)
        ensures
            reads_back(text@, r),
    {
        match paths_from_json(text) {
            Ok(paths) => Ok(FileTreeState::from_paths(paths)),
            Err(_) => Err(SerializationError::Malformed),
        }
    }
}

/// What reading state text gives: text that was written for a list of paths
/// reads back as a state with exactly those paths expanded.
pub open spec fn reads_back(text: Seq<char>, r: Result<FileTreeState, SerializationError>) -> bool {
    forall|p: Seq<Seq<char>>|
        text == #[trigger] json_of_paths(p) ==> r is Ok && r->Ok_0@ == path_set(p)
}

/// Writing a state out and reading the text back gives the same set of
/// expanded paths.
pub proof fn lemma_state_round_trip(s: FileTreeState, back: Result<FileTreeState, SerializationError>)
    requires
        reads_back(json_of_paths(s.paths()), back),
    ensures
        back is Ok,
        back->Ok_0@ == s@,
{
    assert(json_of_paths(s.paths()) == json_of_paths(s.paths()));
}

} // verus!
