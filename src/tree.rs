//! Tree objects: ordered entries of `mode SP name NUL hash20`.
use vstd::prelude::*;
use vstd::utf8::{encode_utf8, valid_utf8};

use crate::errors::GitError;
use crate::hash::SHA1;
use crate::text::{append_bytes, bytes_eq, find_byte, first_index_of, lemma_first_index_at, lemma_first_index_of, utf8_string};

verus! {

/// The kind of object that a tree entry points at.
#[derive(PartialEq, Eq, Structural, Hash, Ord, PartialOrd, Debug, Clone, Copy)]
pub enum TreeItemMode {
    Blob,
    BlobExecutable,
    Tree,
    Commit,
    Link,
}

/// The canonical mode token of each kind of entry.
pub open spec fn mode_bytes(m: TreeItemMode) -> Seq<u8> {
    match m {
        TreeItemMode::Blob => seq![49u8, 48, 48, 54, 52, 52],
        TreeItemMode::BlobExecutable => seq![49u8, 48, 48, 55, 53, 53],
        TreeItemMode::Link => seq![49u8, 50, 48, 48, 48, 48],
        TreeItemMode::Tree => seq![52u8, 48, 48, 48, 48],
        TreeItemMode::Commit => seq![49u8, 54, 48, 48, 48, 48],
    }
}

/// The kind that a mode token stands for; the group-writable tokens
/// `100664` and `100640` are read as a regular file.
pub open spec fn mode_from(s: Seq<u8>) -> Option<TreeItemMode> {
    if s == seq![52u8, 48, 48, 48, 48] {
        Some(TreeItemMode::Tree)
    } else if s == seq![49u8, 48, 48, 54, 52, 52] {
        Some(TreeItemMode::Blob)
    } else if s == seq![49u8, 48, 48, 55, 53, 53] {
        Some(TreeItemMode::BlobExecutable)
    } else if s == seq![49u8, 50, 48, 48, 48, 48] {
        Some(TreeItemMode::Link)
    } else if s == seq![49u8, 54, 48, 48, 48, 48] {
        Some(TreeItemMode::Commit)
    } else if s == seq![49u8, 48, 48, 54, 54, 52] {
        Some(TreeItemMode::Blob)
    } else if s == seq![49u8, 48, 48, 54, 52, 48] {
        Some(TreeItemMode::Blob)
    } else {
        None
    }
}

/// An entry as plain values: its kind, the bytes of its name, and the bytes
/// of the identifier it points at.
pub type ItemModel = (TreeItemMode, Seq<u8>, Seq<u8>);

/// The wire form of one entry.
pub open spec fn item_bytes(it: ItemModel) -> Seq<u8> {
    mode_bytes(it.0) + seq![32u8] + it.1 + seq![0u8] + it.2
}

/// What one entry's bytes stand for: split at the first space, then at the
/// first NUL after it; the rest must be a 20-byte identifier.
pub open spec fn parse_item(b: Seq<u8>) -> Option<ItemModel> {
    match first_index_of(b, 32) {
        None => None,
        Some(sp) => {
            let rest = b.subrange(sp + 1, b.len() as int);
            match first_index_of(rest, 0) {
                None => None,
                Some(nul) => {
                    let raw = b.subrange(0, sp);
                    let name = rest.subrange(0, nul);
                    let id = rest.subrange(nul + 1, rest.len() as int);
                    if mode_from(raw) is Some && valid_utf8(name) && id.len() == 20 {
                        Some((mode_from(raw)->0, name, id))
                    } else {
                        None
                    }
                },
            }
        },
    }
}

/// An entry that its wire form can carry: a name that is text and holds no
/// NUL byte, and a 20-byte identifier.
pub open spec fn item_ok(it: ItemModel) -> bool {
    &&& valid_utf8(it.1)
    &&& forall|j: int| 0 <= j < it.1.len() ==> it.1[j] != 0u8
    &&& it.2.len() == 20
}

impl TreeItemMode {
    /// The mode token written for this kind.
    pub fn to_bytes(self) -> (r: Vec<u8>)
        ensures
            r@ == mode_bytes(self),
    {
        let r = match self {
            TreeItemMode::Blob => vec![49u8, 48, 48, 54, 52, 52],
            TreeItemMode::BlobExecutable => vec![49u8, 48, 48, 55, 53, 53],
            TreeItemMode::Link => vec![49u8, 50, 48, 48, 48, 48],
            TreeItemMode::Tree => vec![52u8, 48, 48, 48, 48],
            TreeItemMode::Commit => vec![49u8, 54, 48, 48, 48, 48],
        };
        assert(r@ =~= mode_bytes(self));
        r
    }

    /// The kind that the mode token `mode` stands for.
    pub fn tree_item_type_from(mode: &[u8]) -> (r: Result<TreeItemMode, GitError>)
        ensures
            match mode_from(mode@) {
                Some(m) => r == Ok::<TreeItemMode, GitError>(m),
                None => r == Err::<TreeItemMode, GitError>(GitError::MalformedObject),
            },
    {
        let tree = vec![52u8, 48, 48, 48, 48];
        let blob = vec![49u8, 48, 48, 54, 52, 52];
        let exec = vec![49u8, 48, 48, 55, 53, 53];
        let link = vec![49u8, 50, 48, 48, 48, 48];
        let gitlink = vec![49u8, 54, 48, 48, 48, 48];
        let group_rw = vec![49u8, 48, 48, 54, 54, 52];
        let group_r = vec![49u8, 48, 48, 54, 52, 48];
        proof {
            assert(tree@ =~= seq![52u8, 48, 48, 48, 48]);
            assert(blob@ =~= seq![49u8, 48, 48, 54, 52, 52]);
            assert(exec@ =~= seq![49u8, 48, 48, 55, 53, 53]);
            assert(link@ =~= seq![49u8, 50, 48, 48, 48, 48]);
            assert(gitlink@ =~= seq![49u8, 54, 48, 48, 48, 48]);
            assert(group_rw@ =~= seq![49u8, 48, 48, 54, 54, 52]);
            assert(group_r@ =~= seq![49u8, 48, 48, 54, 52, 48]);
        }
        if bytes_eq(mode, tree.as_slice()) {
            Ok(TreeItemMode::Tree)
        } else if bytes_eq(mode, blob.as_slice()) {
            Ok(TreeItemMode::Blob)
        } else if bytes_eq(mode, exec.as_slice()) {
            Ok(TreeItemMode::BlobExecutable)
        } else if bytes_eq(mode, link.as_slice()) {
            Ok(TreeItemMode::Link)
        } else if bytes_eq(mode, gitlink.as_slice()) {
            Ok(TreeItemMode::Commit)
        } else if bytes_eq(mode, group_rw.as_slice()) {
            Ok(TreeItemMode::Blob)
        } else if bytes_eq(mode, group_r.as_slice()) {
            Ok(TreeItemMode::Blob)
        } else {
            Err(GitError::MalformedObject)
        }
    }
}

/// One entry of a tree: what it points at, and under which name.
#[derive(Debug, Clone)]
pub struct TreeItem {
    pub mode: TreeItemMode,
    pub id: SHA1,
    pub name: String,
}

impl View for TreeItem {
    type V = ItemModel;

    open spec fn view(&self) -> ItemModel {
        (self.mode, encode_utf8(self.name@), self.id@)
    }
}

impl TreeItem {
    /// The entry `name` of kind `mode` that points at `id`.
    pub fn new(mode: TreeItemMode, id: SHA1, name: String) -> (r: Self)
        ensures
            r.mode == mode,
            r.id == id,
            r.name == name,
    {
        TreeItem { mode, id, name }
    }

    /// Reads one entry from its wire form.
    pub fn new_from_bytes(bytes: &[u8]) -> (r: Result<Self, GitError>)
        ensures
            match parse_item(bytes@) {
                Some(it) => r is Ok && r->Ok_0@ == it,
                None => r == Err::<TreeItem, GitError>(GitError::MalformedObject),
            },
    {
        let sp = match find_byte(bytes, 32) {
            Some(sp) => sp,
            None => return Err(GitError::MalformedObject),
        };
        proof {
            lemma_first_index_of(bytes@, 32);
        }
        let n = bytes.len();
        let rest = vstd::slice::slice_subrange(bytes, sp + 1, n);
        let nul = match find_byte(rest, 0) {
            Some(nul) => nul,
            None => return Err(GitError::MalformedObject),
        };
        proof {
            lemma_first_index_of(rest@, 0);
        }
        let raw = vstd::slice::slice_subrange(bytes, 0, sp);
        let name = vstd::slice::slice_subrange(rest, 0, nul);
        let id = vstd::slice::slice_subrange(rest, nul + 1, rest.len());
        let mode = TreeItemMode::tree_item_type_from(raw)?;
        if id.len() != 20 {
            return Err(GitError::MalformedObject);
        }
        let name = match utf8_string(name) {
            Some(s) => s,
            None => return Err(GitError::MalformedObject),
        };
        proof {
            vstd::utf8::decode_utf8_encode_utf8(rest@.subrange(0, nul as int));
        }
        Ok(TreeItem { mode, id: SHA1::from_bytes(id), name })
    }

    /// The wire form of this entry.
    pub fn to_bytes(&self) -> (r: Vec<u8>)
        ensures
            r@ == item_bytes(self@),
    {
        let mut bytes = self.mode.to_bytes();
        bytes.push(32u8);
        append_bytes(&mut bytes, self.name.as_str().as_bytes());
        bytes.push(0u8);
        let id = self.id.to_bytes();
        append_bytes(&mut bytes, id.as_slice());
        assert(bytes@ =~= item_bytes(self@));
        bytes
    }
}

/// Reading the wire form of an entry gives the entry back.
pub proof fn lemma_item_round_trip(it: ItemModel)
    requires
        item_ok(it),
    ensures
        parse_item(item_bytes(it)) == Some(it),
{
    let b = item_bytes(it);
    let m = mode_bytes(it.0);
    assert(forall|j: int| 0 <= j < m.len() ==> m[j] != 32u8);
    lemma_first_index_at(b, 32, m.len() as int);
    let rest = b.subrange(m.len() as int + 1, b.len() as int);
    assert(rest =~= it.1 + seq![0u8] + it.2);
    lemma_first_index_at(rest, 0, it.1.len() as int);
    assert(b.subrange(0, m.len() as int) =~= m);
    assert(rest.subrange(0, it.1.len() as int) =~= it.1);
    assert(rest.subrange(it.1.len() as int + 1, rest.len() as int) =~= it.2);
    assert(mode_from(m) == Some(it.0));
}

} // verus!

verus! {

/// The four kinds of stored object.
#[derive(PartialEq, Eq, Structural, Hash, Ord, PartialOrd, Debug, Clone, Copy)]
pub enum ObjectType {
    Commit,
    Tree,
    Blob,
    Tag,
}

/// A stored object as its identifier, its kind and its payload bytes.
#[derive(Debug, Clone)]
pub struct Meta {
    pub object_type: ObjectType,
    pub id: SHA1,
    pub data: Vec<u8>,
}

/// The entries that a tree payload holds, in the order written: each runs to
/// 20 bytes past its first NUL.
pub open spec fn parse_items(b: Seq<u8>) -> Option<Seq<ItemModel>>
    decreases b.len(),
{
    if b.len() == 0 {
        Some(Seq::empty())
    } else {
        match first_index_of(b, 0) {
            None => None,
            Some(k) => if 0 <= k && k + 21 <= b.len() {
                match parse_item(b.subrange(0, k + 21)) {
                    None => None,
                    Some(it) => match parse_items(b.subrange(k + 21, b.len() as int)) {
                        None => None,
                        Some(rest) => Some(seq![it] + rest),
                    },
                }
            } else {
                None
            },
        }
    }
}

/// The payload of a tree with the entries `items`, in that order.
pub open spec fn items_bytes(items: Seq<ItemModel>) -> Seq<u8>
    decreases items.len(),
{
    if items.len() == 0 {
        Seq::empty()
    } else {
        item_bytes(items[0]) + items_bytes(items.drop_first())
    }
}

/// No two entries share a name.
pub open spec fn names_distinct(items: Seq<ItemModel>) -> bool {
    forall|i: int, j: int| 0 <= i < j < items.len() ==> items[i].1 != items[j].1
}

/// The plain values of a list of entries.
pub open spec fn items_view(items: Seq<TreeItem>) -> Seq<ItemModel> {
    items.map_values(|t: TreeItem| t@)
}

/// A directory: its stored form and the entries read from it.
#[derive(Debug, Clone)]
pub struct Tree {
    pub meta: Meta,
    pub tree_items: Vec<TreeItem>,
}

impl View for Tree {
    type V = Seq<ItemModel>;

    open spec fn view(&self) -> Seq<ItemModel> {
        items_view(self.tree_items@)
    }
}

impl Tree {
    /// The zero identifier, used for a tree that does not exist yet.
    pub fn empty_tree_hash() -> (r: SHA1)
        ensures
            r@ == Seq::new(20, |i: int| 0u8),
    {
        SHA1::default()
    }

    /// The entry under which this tree is listed in its parent, as `name`.
    pub fn generate_self_2tree_item(&self, name: String) -> (r: Result<TreeItem, GitError>)
        ensures
            r is Ok,
            r->Ok_0.mode == TreeItemMode::Tree,
            r->Ok_0.id == self.meta.id,
            r->Ok_0.name == name,
    {
        Ok(TreeItem::new(TreeItemMode::Tree, self.meta.id, name))
    }

    /// Reads the entries of a stored tree. Fails where the payload is not a
    /// sequence of well-formed entries, or where two entries share a name.
    #[verifier::rlimit(40)]
    pub fn new_from_meta(meta: Meta) -> (r: Result<Self, GitError>)
        ensures
            match parse_items(meta.data@) {
                Some(items) => if names_distinct(items) {
                    r is Ok && r->Ok_0@ == items && r->Ok_0.meta.data@ == meta.data@
                        && r->Ok_0.meta.id == meta.id && r->Ok_0.meta.object_type == meta.object_type
                } else {
                    r == Err::<Tree, GitError>(GitError::MalformedObject)
                },
                None => r == Err::<Tree, GitError>(GitError::MalformedObject),
            },
    {
        let mut tree_items: Vec<TreeItem> = Vec::new();
        let n = meta.data.len();
        let mut i: usize = 0;
        assert(meta.data@.subrange(0, n as int) =~= meta.data@);
        assert(items_view(tree_items@) =~= Seq::<ItemModel>::empty());
        proof {
            match parse_items(meta.data@) {
                Some(r) => {
                    assert(Seq::<ItemModel>::empty() + r =~= r);
                },
                None => {},
            }
        }
        while i < n
            invariant
                i <= n,
                n == meta.data@.len(),
                parse_items(meta.data@) == match parse_items(meta.data@.subrange(i as int, n as int)) {
                    Some(r) => Some(items_view(tree_items@) + r),
                    None => None::<Seq<ItemModel>>,
                },
            decreases n - i,
        {
            let ghost cur = meta.data@.subrange(i as int, n as int);
            let rest = vstd::slice::slice_subrange(meta.data.as_slice(), i, n);
            let index = match find_byte(rest, 0) {
                Some(k) => k,
                None => return Err(GitError::MalformedObject),
            };
            proof {
                lemma_first_index_of(rest@, 0);
            }
            if index >= n - i || n - i - index < 21 {
                return Err(GitError::MalformedObject);
            }
            let next = i + index + 21;
            let chunk = vstd::slice::slice_subrange(meta.data.as_slice(), i, next);
            assert(chunk@ =~= cur.subrange(0, index + 21));
            let item = TreeItem::new_from_bytes(chunk)?;
            assert(meta.data@.subrange(next as int, n as int) =~= cur.subrange(index + 21, cur.len() as int));
            let ghost before = items_view(tree_items@);
            tree_items.push(item);
            assert(items_view(tree_items@) =~= before + seq![item@]);
            proof {
                match parse_items(meta.data@.subrange(next as int, n as int)) {
                    Some(r) => {
                        assert(before + seq![item@] + r =~= before + (seq![item@] + r));
                    },
                    None => {},
                }
            }
            i = next;
        }
        assert(meta.data@.subrange(n as int, n as int) =~= Seq::<u8>::empty());
        assert(items_view(tree_items@) + Seq::<ItemModel>::empty() =~= items_view(tree_items@));
        let mut a: usize = 0;
        while a < tree_items.len()
            invariant
                parse_items(meta.data@) == Some(items_view(tree_items@)),
                forall|x: int, y: int| 0 <= x < a && x < y < tree_items@.len() ==> items_view(tree_items@)[x].1 != items_view(tree_items@)[y].1,
            decreases tree_items@.len() - a,
        {
            let mut b: usize = a + 1;
            while b < tree_items.len()
                invariant
                    a < tree_items@.len(),
                    a < b,
                    parse_items(meta.data@) == Some(items_view(tree_items@)),
                    forall|x: int, y: int| 0 <= x < a && x < y < tree_items@.len() ==> items_view(tree_items@)[x].1 != items_view(tree_items@)[y].1,
                    forall|y: int| a < y < b ==> items_view(tree_items@)[a as int].1 != items_view(tree_items@)[y].1,
                decreases tree_items@.len() - b,
            {
                if tree_items[a].name == tree_items[b].name {
                    assert(items_view(tree_items@)[a as int].1 == items_view(tree_items@)[b as int].1);
                    return Err(GitError::MalformedObject);
                }
                proof {
                    let x = tree_items@[a as int].name@;
                    let y = tree_items@[b as int].name@;
                    lemma_encode_injective(x, y);
                }
                b = b + 1;
            }
            a = a + 1;
        }
        Ok(Tree { meta, tree_items })
    }

    /// The tree with the entries `items`, in that order, stored under the
    /// identifier of its payload.
    pub fn new_from_items(items: Vec<TreeItem>) -> (r: Tree)
        ensures
            r@ == items_view(items@),
            r.meta.object_type == ObjectType::Tree,
            r.meta.data@ == items_bytes(items_view(items@)),
            r.meta.id@ == crate::object::sha1_of(crate::object::loose_bytes(ObjectType::Tree, r.meta.data@)),
    {
        let shell = Tree { meta: Meta { object_type: ObjectType::Tree, id: SHA1::default(), data: Vec::new() }, tree_items: items };
        let data = shell.to_data();
        let meta = Meta::new(ObjectType::Tree, data);
        Tree { meta, tree_items: shell.tree_items }
    }

    /// The payload of this tree: its entries' wire forms, in order.
    pub fn to_data(&self) -> (r: Vec<u8>)
        ensures
            r@ == items_bytes(self@),
    {
        let mut r: Vec<u8> = Vec::new();
        let mut i: usize = self.tree_items.len();
        let mut suffix: Vec<u8> = Vec::new();
        while i > 0
            invariant
                i <= self.tree_items@.len(),
                suffix@ == items_bytes(self@.subrange(i as int, self@.len() as int)),
            decreases i,
        {
            i = i - 1;
            let mut b = self.tree_items[i].to_bytes();
            append_bytes(&mut b, suffix.as_slice());
            proof {
                let s = self@.subrange(i as int, self@.len() as int);
                assert(s.drop_first() =~= self@.subrange(i + 1, self@.len() as int));
            }
            suffix = b;
        }
        assert(self@.subrange(0, self@.len() as int) =~= self@);
        suffix
    }
}

/// Two strings with the same encoding are the same string.
proof fn lemma_encode_injective(x: Seq<char>, y: Seq<char>)
    ensures
        encode_utf8(x) == encode_utf8(y) ==> x == y,
{
    vstd::utf8::encode_utf8_decode_utf8(x);
    vstd::utf8::encode_utf8_decode_utf8(y);
}

/// Reading a payload written from `items` gives back `items`, in the same order.
pub proof fn lemma_tree_round_trip(items: Seq<ItemModel>)
    requires
        forall|i: int| 0 <= i < items.len() ==> item_ok(#[trigger] items[i]),
    ensures
        parse_items(items_bytes(items)) == Some(items),
    decreases items.len(),
{
    if items.len() > 0 {
        let it = items[0];
        let rest = items.drop_first();
        assert forall|i: int| 0 <= i < rest.len() implies item_ok(#[trigger] rest[i]) by {
            assert(rest[i] == items[i + 1]);
        }
        lemma_tree_round_trip(rest);
        lemma_item_round_trip(it);
        let b = items_bytes(items);
        let ib = item_bytes(it);
        let m = mode_bytes(it.0);
        let k: int = m.len() as int + 1 + it.1.len() as int;
        assert(forall|j: int| 0 <= j < m.len() ==> m[j] != 0u8);
        assert(ib.len() == k + 21);
        assert forall|j: int| 0 <= j < k implies b[j] != 0u8 by {
            assert(b[j] == ib[j]);
            if j < m.len() {
                assert(ib[j] == m[j]);
            } else if j > m.len() {
                assert(ib[j] == it.1[j - m.len() - 1]);
            }
        }
        assert(b[k] == ib[k]);
        lemma_first_index_at(b, 0, k);
        assert(b.subrange(0, k + 21) =~= ib);
        assert(b.subrange(k + 21, b.len() as int) =~= items_bytes(rest));
        assert(seq![it] + rest =~= items);
    }
}

/// Writing back what was read from a tree's payload gives the same bytes,
/// and so the same identifier.
pub proof fn lemma_tree_reserialize(items: Seq<ItemModel>)
    requires
        forall|i: int| 0 <= i < items.len() ==> item_ok(#[trigger] items[i]),
    ensures
        parse_items(items_bytes(items)) matches Some(p) && items_bytes(p) == items_bytes(items)
            && crate::object::sha1_of(crate::object::loose_bytes(ObjectType::Tree, items_bytes(p)))
            == crate::object::sha1_of(crate::object::loose_bytes(ObjectType::Tree, items_bytes(items))),
{
    lemma_tree_round_trip(items);
}

} // verus!
