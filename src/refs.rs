//! Resolving the reference that a subpath advertises: a stored one, or one
//! for a synthetic commit found by walking the root tree down the path.
use vstd::prelude::*;

use crate::commit::{commit_bytes, synthetic_message, Commit};
use crate::hash::SHA1;
use crate::object::{loose_bytes, sha1_of};
use crate::signature::Signature;
use crate::tree::ObjectType;
use crate::text::{ascii_chars, bytes_eq, find_byte, first_index_of, lemma_first_index_of};
use crate::tree::{ItemModel, Tree, TreeItemMode};

verus! {

/// A named pointer to a commit, as advertised to a client.
#[derive(Debug, Clone)]
pub struct Refs {
    pub ref_name: String,
    pub ref_hash: SHA1,
    pub default_branch: bool,
}

/// The branch name under which a synthetic commit is advertised.
pub open spec fn main_branch() -> Seq<u8> {
    seq![114u8, 101, 102, 115, 47, 104, 101, 97, 100, 115, 47, 109, 97, 105, 110]
}

/// The non-empty parts of a slash-separated path, in order.
pub open spec fn path_parts(p: Seq<u8>) -> Seq<Seq<u8>>
    decreases p.len(),
{
    match first_index_of(p, 47) {
        None => if p.len() == 0 {
            Seq::empty()
        } else {
            seq![p]
        },
        Some(i) => if 0 <= i < p.len() {
            let head: Seq<Seq<u8>> = if i == 0 {
                Seq::empty()
            } else {
                seq![p.subrange(0, i)]
            };
            head + path_parts(p.subrange(i + 1, p.len() as int))
        } else {
            Seq::empty()
        },
    }
}

/// The parts of the path `p`: the pieces between slashes, empty ones left out.
pub fn split_path(p: &[u8]) -> (r: Vec<Vec<u8>>)
    ensures
        r@.map_values(|v: Vec<u8>| v@) == path_parts(p@),
{
    let mut r: Vec<Vec<u8>> = Vec::new();
    let n = p.len();
    let mut i: usize = 0;
    assert(p@.subrange(0, n as int) =~= p@);
    assert(r@.map_values(|v: Vec<u8>| v@) + path_parts(p@) =~= path_parts(p@));
    while i < n
        invariant
            i <= n,
            n == p@.len(),
            path_parts(p@) == r@.map_values(|v: Vec<u8>| v@) + path_parts(p@.subrange(i as int, n as int)),
        decreases n - i,
    {
        let rest = vstd::slice::slice_subrange(p, i, n);
        let ghost before = r@.map_values(|v: Vec<u8>| v@);
        proof {
            lemma_first_index_of(rest@, 47);
        }
        match find_byte(rest, 47) {
            None => {
                r.push(vstd::slice::slice_to_vec(rest));
                assert(r@.map_values(|v: Vec<u8>| v@) =~= before + seq![rest@]);
                assert(p@.subrange(n as int, n as int) =~= Seq::<u8>::empty());
                assert(path_parts(Seq::<u8>::empty()) =~= Seq::<Seq<u8>>::empty());
                assert(before + seq![rest@] + Seq::<Seq<u8>>::empty() =~= before + seq![rest@]);
                i = n;
            },
            Some(k) => {
                assert(p@.subrange(i + k + 1, n as int) =~= rest@.subrange(k + 1, rest@.len() as int));
                if k > 0 {
                    let part = vstd::slice::slice_subrange(rest, 0, k);
                    r.push(vstd::slice::slice_to_vec(part));
                    assert(r@.map_values(|v: Vec<u8>| v@) =~= before + seq![part@]);
                    assert(before + (seq![part@] + path_parts(rest@.subrange(k + 1, rest@.len() as int)))
                        =~= before + seq![part@] + path_parts(rest@.subrange(k + 1, rest@.len() as int)));
                } else {
                    assert(Seq::<Seq<u8>>::empty() + path_parts(rest@.subrange(k + 1, rest@.len() as int))
                        =~= path_parts(rest@.subrange(k + 1, rest@.len() as int)));
                }
                i = i + k + 1;
            },
        }
    }
    assert(p@.subrange(n as int, n as int) =~= Seq::<u8>::empty());
    assert(path_parts(Seq::<u8>::empty()) =~= Seq::<Seq<u8>>::empty());
    assert(r@.map_values(|v: Vec<u8>| v@) + Seq::<Seq<u8>>::empty() =~= r@.map_values(|v: Vec<u8>| v@));
    r
}

/// Whether a push to `path` writes the whole repository (the path `/`)
/// rather than a subpath, which goes through a merge request.
pub fn is_root_path(path: &str) -> (r: bool)
    ensures
        r == (vstd::utf8::encode_utf8(path@) == seq![47u8]),
{
    let root = vec![47u8];
    assert(root@ =~= seq![47u8]);
    bytes_eq(path.as_bytes(), root.as_slice())
}

/// The position of the first directory entry named `name`, if any.
pub open spec fn subtree_index(items: Seq<ItemModel>, name: Seq<u8>) -> Option<int>
    decreases items.len(),
{
    if items.len() == 0 {
        None
    } else if items[0].0 == TreeItemMode::Tree && items[0].1 == name {
        Some(0)
    } else {
        match subtree_index(items.drop_first(), name) {
            Some(i) => Some(i + 1),
            None => None,
        }
    }
}

proof fn lemma_subtree_index(items: Seq<ItemModel>, name: Seq<u8>, i: int)
    requires
        0 <= i <= items.len(),
        forall|j: int| 0 <= j < i ==> !(items[j].0 == TreeItemMode::Tree && items[j].1 == name),
    ensures
        subtree_index(items, name) == match subtree_index(items.subrange(i, items.len() as int), name) {
            Some(x) => Some(x + i),
            None => None::<int>,
        },
    decreases i,
{
    if i > 0 {
        lemma_subtree_index(items.drop_first(), name, i - 1);
        assert(items.drop_first().subrange(i - 1, items.len() - 1) =~= items.subrange(i, items.len() as int));
    } else {
        assert(items.subrange(0, items.len() as int) =~= items);
    }
}

/// The identifier of the subtree called `name` in `tree`, if it has one.
pub fn find_subtree(tree: &Tree, name: &[u8]) -> (r: Option<SHA1>)
    ensures
        match subtree_index(tree@, name@) {
            Some(i) => r == Some(tree.tree_items@[i].id),
            None => r is None,
        },
{
    let mut i: usize = 0;
    while i < tree.tree_items.len()
        invariant
            i <= tree.tree_items@.len(),
            tree@.len() == tree.tree_items@.len(),
            forall|j: int| 0 <= j < i ==> !(tree@[j].0 == TreeItemMode::Tree && tree@[j].1 == name@),
        decreases tree.tree_items@.len() - i,
    {
        let item = &tree.tree_items[i];
        assert(tree@[i as int] == item@);
        if item.mode == TreeItemMode::Tree && bytes_eq(item.name.as_str().as_bytes(), name) {
            proof {
                lemma_subtree_index(tree@, name@, i as int);
            }
            return Some(item.id);
        }
        i = i + 1;
    }
    proof {
        lemma_subtree_index(tree@, name@, i as int);
    }
    None
}

/// What to do after loading a tree during the walk down a path.
#[derive(Debug, Clone, Copy)]
pub enum WalkStep {
    /// Load this tree and go on with the next part.
    Descend(SHA1),
    /// The whole path was walked: this tree stands at its end.
    Found(SHA1),
    /// The path names no subtree: nothing is advertised.
    Missing,
}

/// Given the tree reached after the first `i` parts of the path, decides
/// the next step of the walk.
pub fn walk_step(parts: &Vec<Vec<u8>>, i: usize, tree: &Tree) -> (r: WalkStep)
    requires
        i <= parts@.len(),
    ensures
        i == parts@.len() ==> r == WalkStep::Found(tree.meta.id),
        i < parts@.len() ==> match subtree_index(tree@, parts@[i as int]@) {
            Some(x) => r == WalkStep::Descend(tree.tree_items@[x].id),
            None => r == WalkStep::Missing,
        },
{
    if i == parts.len() {
        WalkStep::Found(tree.meta.id)
    } else {
        match find_subtree(tree, parts[i].as_slice()) {
            Some(h) => WalkStep::Descend(h),
            None => WalkStep::Missing,
        }
    }
}

/// The reference under which a synthetic commit is advertised.
pub fn synthetic_ref(commit_id: SHA1) -> (r: Refs)
    ensures
        r.ref_name@ == ascii_chars(main_branch()),
        r.ref_hash == commit_id,
        r.default_branch,
{
    let b = vec![114u8, 101, 102, 115, 47, 104, 101, 97, 100, 115, 47, 109, 97, 105, 110];
    assert(b@ =~= main_branch());
    Refs { ref_name: crate::text::ascii_string(b.as_slice()), ref_hash: commit_id, default_branch: true }
}

/// What resolving a subpath that has no stored reference writes, once the
/// walk found its subtree: the synthetic commit, and the reference of the
/// path to it.
#[derive(Debug, Clone)]
pub struct HeadWrites {
    pub commit: Commit,
    pub reference: Refs,
}

/// The writes that make `tree_id`, found at the end of a subpath's walk,
/// the head of that subpath.
pub fn synthetic_head(tree_id: SHA1, author: Signature, committer: Signature) -> (r: HeadWrites)
    ensures
        r.commit.tree_id == tree_id,
        r.commit.parent_commit_ids@.len() == 0,
        r.commit.author@ == author@,
        r.commit.committer@ == committer@,
        vstd::utf8::encode_utf8(r.commit.message@) == synthetic_message(),
        r.commit.id@ == sha1_of(loose_bytes(ObjectType::Commit, commit_bytes(
            tree_id,
            Seq::empty(),
            author@,
            committer@,
            synthetic_message(),
        ))),
        r.reference.ref_hash == r.commit.id,
        r.reference.default_branch,
        r.reference.ref_name@ == ascii_chars(main_branch()),
{
    let commit = Commit::synthetic(tree_id, author, committer);
    let reference = synthetic_ref(commit.id);
    HeadWrites { commit, reference }
}

/// The commit that a subpath advertises: its stored reference's, else the
/// synthetic one's, if any.
pub open spec fn advertised_hash(stored: Option<Refs>, synthetic: Option<SHA1>) -> Option<SHA1> {
    match stored {
        Some(s) => Some(s.ref_hash),
        None => synthetic,
    }
}

/// The advertisement of a subpath: its stored reference if it has one;
/// else the reference of the synthetic commit made for it, if the walk
/// found its subtree; else nothing.
pub fn head_hash(stored: Option<Refs>, synthetic: Option<SHA1>) -> (r: Vec<Refs>)
    ensures
        match advertised_hash(stored, synthetic) {
            Some(c) => r@.len() == 1 && r@[0].ref_hash == c,
            None => r@.len() == 0,
        },
        stored matches Some(s) ==> r@ == seq![s],
        stored is None && synthetic is Some ==> r@[0].default_branch
            && r@[0].ref_name@ == ascii_chars(main_branch()),
{
    match stored {
        Some(s) => vec![s],
        None => match synthetic {
            Some(c) => vec![synthetic_ref(c)],
            None => Vec::new(),
        },
    }
}

/// Resolving a subpath twice gives the same commit: the first resolution
/// stores a reference to the commit it advertises, and the second finds it,
/// whatever its own walk would make.
pub proof fn lemma_head_hash_stable(
    first_stored: Option<Refs>,
    first_synthetic: Option<SHA1>,
    saved: Refs,
    second_synthetic: Option<SHA1>,
)
    requires
        advertised_hash(first_stored, first_synthetic) == Some(saved.ref_hash),
    ensures
        advertised_hash(Some(saved), second_synthetic) == advertised_hash(first_stored, first_synthetic),
{
}

} // verus!
