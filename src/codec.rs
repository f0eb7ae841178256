//! Objects of all four kinds: reading a payload of a given kind, and writing
//! an object back to its payload and identifier.
use vstd::prelude::*;
use vstd::utf8::encode_utf8;

use crate::commit::{commit_bytes, parse_commit, Commit};
use crate::errors::GitError;
use crate::hash::SHA1;
use crate::object::{loose_bytes, object_hash, sha1_of};
use crate::tree::{items_bytes, names_distinct, parse_items, Meta, ObjectType, Tree};

verus! {

/// A stored object. Blobs and annotated tags are kept as their payload.
#[derive(Debug, Clone)]
pub enum Object {
    Blob(Vec<u8>),
    Tree(Tree),
    Commit(Commit),
    Tag(Vec<u8>),
}

/// The kind of an object.
pub open spec fn kind_of(o: Object) -> ObjectType {
    match o {
        Object::Blob(_) => ObjectType::Blob,
        Object::Tree(_) => ObjectType::Tree,
        Object::Commit(_) => ObjectType::Commit,
        Object::Tag(_) => ObjectType::Tag,
    }
}

/// The payload that an object is written as.
pub open spec fn payload(o: Object) -> Seq<u8> {
    match o {
        Object::Blob(b) => b@,
        Object::Tree(t) => items_bytes(t@),
        Object::Commit(c) => commit_bytes(
            c.tree_id,
            c.parent_commit_ids@,
            c.author@,
            c.committer@,
            encode_utf8(c.message@),
        ),
        Object::Tag(b) => b@,
    }
}

/// Reads the payload `data` of an object of kind `kind`.
pub fn parse_object(kind: ObjectType, data: &[u8]) -> (r: Result<Object, GitError>)
    ensures
        r matches Ok(o) ==> kind_of(o) == kind,
        kind == ObjectType::Blob ==> (r matches Ok(Object::Blob(b)) && b@ == data@),
        kind == ObjectType::Tag ==> (r matches Ok(Object::Tag(b)) && b@ == data@),
        kind == ObjectType::Tree ==> match parse_items(data@) {
            Some(items) => if names_distinct(items) {
                r matches Ok(Object::Tree(t)) && t@ == items && t.meta.data@ == data@
            } else {
                r == Err::<Object, GitError>(GitError::MalformedObject)
            },
            None => r == Err::<Object, GitError>(GitError::MalformedObject),
        },
        kind == ObjectType::Commit ==> match parse_commit(data@) {
            Some(m) => r matches Ok(Object::Commit(c)) && c.tree_id@ == m.0
                && c.parent_commit_ids@.map_values(|p: SHA1| p@) == m.1 && c.author@ == m.2
                && c.committer@ == m.3 && encode_utf8(c.message@) == m.4,
            None => r == Err::<Object, GitError>(GitError::MalformedObject),
        },
{
    match kind {
        ObjectType::Blob => Ok(Object::Blob(vstd::slice::slice_to_vec(data))),
        ObjectType::Tag => Ok(Object::Tag(vstd::slice::slice_to_vec(data))),
        ObjectType::Tree => {
            let meta = Meta::new(ObjectType::Tree, vstd::slice::slice_to_vec(data));
            let t = Tree::new_from_meta(meta)?;
            Ok(Object::Tree(t))
        },
        ObjectType::Commit => {
            let c = Commit::new_from_data(data)?;
            Ok(Object::Commit(c))
        },
    }
}

/// Writes an object: its payload, and the identifier of that payload.
pub fn serialize(o: &Object) -> (r: (Vec<u8>, SHA1))
    ensures
        r.0@ == payload(*o),
        r.1@ == sha1_of(loose_bytes(kind_of(*o), r.0@)),
{
    let (kind, data) = match o {
        Object::Blob(b) => (ObjectType::Blob, b.clone()),
        Object::Tree(t) => (ObjectType::Tree, t.to_data()),
        Object::Commit(c) => (ObjectType::Commit, c.to_data()),
        Object::Tag(b) => (ObjectType::Tag, b.clone()),
    };
    let id = object_hash(kind, data.as_slice());
    (data, id)
}

} // verus!
