//! The stored form of an object, `kind SP size NUL payload`, and its
//! identifier, the SHA-1 digest of that form.
use sha1::Digest;
use vstd::prelude::*;

use crate::errors::GitError;
use crate::hash::SHA1;
use crate::text::{
    append_bytes, bytes_eq, decimal_digits, decimal_value, all_digits, find_byte, first_index_of,
    lemma_decimal_round_trip, lemma_first_index_at, lemma_first_index_of, parse_decimal, to_decimal,
};
use crate::tree::{Meta, ObjectType};

verus! {

/// The SHA-1 digest of `b`.
pub uninterp spec fn sha1_of(b: Seq<u8>) -> Seq<u8>;

/// Relies on the `sha1` crate's `Sha1::digest`: the 20-byte SHA-1 digest of
/// the input.
#[verifier::external_body]
fn sha1_digest(b: &[u8]) -> (r: SHA1)
    ensures
        r@ == sha1_of(b@),
{
    SHA1 { bytes: sha1::Sha1::digest(b).into() }
}

/// The SHA-1 digest of `b`, as its 20 bytes.
pub fn sha1_bytes(b: &[u8]) -> (r: Vec<u8>)
    ensures
        r@ == sha1_of(b@),
        r@.len() == 20,
{
    let d = sha1_digest(b);
    assert(d@.len() == 20);
    d.to_bytes()
}

/// The word that names each kind of object.
pub open spec fn kind_word(t: ObjectType) -> Seq<u8> {
    match t {
        ObjectType::Commit => seq![99u8, 111, 109, 109, 105, 116],
        ObjectType::Tree => seq![116u8, 114, 101, 101],
        ObjectType::Blob => seq![98u8, 108, 111, 98],
        ObjectType::Tag => seq![116u8, 97, 103],
    }
}

/// The kind that a word names, if any.
pub open spec fn kind_of_word(b: Seq<u8>) -> Option<ObjectType> {
    if b == kind_word(ObjectType::Commit) {
        Some(ObjectType::Commit)
    } else if b == kind_word(ObjectType::Tree) {
        Some(ObjectType::Tree)
    } else if b == kind_word(ObjectType::Blob) {
        Some(ObjectType::Blob)
    } else if b == kind_word(ObjectType::Tag) {
        Some(ObjectType::Tag)
    } else {
        None
    }
}

/// The stored form of an object of kind `t` with payload `data`.
pub open spec fn loose_bytes(t: ObjectType, data: Seq<u8>) -> Seq<u8> {
    kind_word(t) + seq![32u8] + decimal_digits(data.len()) + seq![0u8] + data
}

/// What a stored form stands for: the kind up to the first space, the size
/// up to the first NUL, and a payload of exactly that size.
pub open spec fn parse_loose_spec(b: Seq<u8>) -> Option<(ObjectType, Seq<u8>)> {
    match (first_index_of(b, 32), first_index_of(b, 0)) {
        (Some(sp), Some(nul)) => {
            let digits = b.subrange(sp + 1, nul);
            let data = b.subrange(nul + 1, b.len() as int);
            if sp < nul && kind_of_word(b.subrange(0, sp)) is Some && digits.len() > 0
                && all_digits(digits) && decimal_value(digits) == data.len() {
                Some((kind_of_word(b.subrange(0, sp))->0, data))
            } else {
                None
            }
        },
        _ => None,
    }
}

/// The word that names the kind `t`.
pub fn type_bytes(t: ObjectType) -> (r: Vec<u8>)
    ensures
        r@ == kind_word(t),
{
    let r = match t {
        ObjectType::Commit => vec![99u8, 111, 109, 109, 105, 116],
        ObjectType::Tree => vec![116u8, 114, 101, 101],
        ObjectType::Blob => vec![98u8, 108, 111, 98],
        ObjectType::Tag => vec![116u8, 97, 103],
    };
    assert(r@ =~= kind_word(t));
    r
}

/// The stored form of an object of kind `t` with payload `data`.
pub fn loose_form(t: ObjectType, data: &[u8]) -> (r: Vec<u8>)
    ensures
        r@ == loose_bytes(t, data@),
{
    let mut r = type_bytes(t);
    r.push(32u8);
    let size = to_decimal(data.len());
    append_bytes(&mut r, size.as_slice());
    r.push(0u8);
    append_bytes(&mut r, data);
    assert(r@ =~= loose_bytes(t, data@));
    r
}

/// The identifier of an object of kind `t` with payload `data`.
pub fn object_hash(t: ObjectType, data: &[u8]) -> (r: SHA1)
    ensures
        r@ == sha1_of(loose_bytes(t, data@)),
{
    let form = loose_form(t, data);
    sha1_digest(form.as_slice())
}

/// Reads a stored form into its kind and payload.
pub fn parse_loose(b: &[u8]) -> (r: Result<(ObjectType, Vec<u8>), GitError>)
    ensures
        match parse_loose_spec(b@) {
            Some((t, data)) => r is Ok && r->Ok_0.0 == t && r->Ok_0.1@ == data,
            None => r == Err::<(ObjectType, Vec<u8>), GitError>(GitError::MalformedObject),
        },
{
    let sp = match find_byte(b, 32) {
        Some(i) => i,
        None => return Err(GitError::MalformedObject),
    };
    let nul = match find_byte(b, 0) {
        Some(i) => i,
        None => return Err(GitError::MalformedObject),
    };
    proof {
        lemma_first_index_of(b@, 32);
        lemma_first_index_of(b@, 0);
    }
    if sp >= nul {
        return Err(GitError::MalformedObject);
    }
    let word = vstd::slice::slice_subrange(b, 0, sp);
    let commit = type_bytes(ObjectType::Commit);
    let tree = type_bytes(ObjectType::Tree);
    let blob = type_bytes(ObjectType::Blob);
    let tag = type_bytes(ObjectType::Tag);
    let t = if bytes_eq(word, commit.as_slice()) {
        ObjectType::Commit
    } else if bytes_eq(word, tree.as_slice()) {
        ObjectType::Tree
    } else if bytes_eq(word, blob.as_slice()) {
        ObjectType::Blob
    } else if bytes_eq(word, tag.as_slice()) {
        ObjectType::Tag
    } else {
        return Err(GitError::MalformedObject);
    };
    let n = b.len();
    let size = match parse_decimal(vstd::slice::slice_subrange(b, sp + 1, nul)) {
        Some(v) => v,
        None => return Err(GitError::MalformedObject),
    };
    if size != n - nul - 1 {
        return Err(GitError::MalformedObject);
    }
    let data = vstd::slice::slice_to_vec(vstd::slice::slice_subrange(b, nul + 1, n));
    Ok((t, data))
}

/// Reading a stored form gives back the kind and payload it was made from.
pub proof fn lemma_loose_round_trip(t: ObjectType, data: Seq<u8>)
    ensures
        parse_loose_spec(loose_bytes(t, data)) == Some((t, data)),
{
    let b = loose_bytes(t, data);
    let w = kind_word(t);
    let d = decimal_digits(data.len());
    lemma_decimal_round_trip(data.len());
    let sp = w.len() as int;
    let nul = sp + 1 + d.len();
    assert forall|j: int| 0 <= j < sp implies b[j] != 32u8 && b[j] != 0u8 by {
        assert(b[j] == w[j]);
    }
    assert forall|j: int| sp < j < nul implies b[j] != 0u8 by {
        assert(b[j] == d[j - sp - 1]);
    }
    assert(b[sp] == 32u8);
    assert(b[nul] == 0u8);
    lemma_first_index_at(b, 32, sp);
    lemma_first_index_at(b, 0, nul);
    assert(b.subrange(0, sp) =~= w);
    assert(b.subrange(sp + 1, nul) =~= d);
    assert(b.subrange(nul + 1, b.len() as int) =~= data);
}

impl Meta {
    /// The stored object of kind `t` with payload `data`, under its identifier.
    pub fn new(t: ObjectType, data: Vec<u8>) -> (r: Meta)
        ensures
            r.object_type == t,
            r.data@ == data@,
            r.id@ == sha1_of(loose_bytes(t, data@)),
    {
        let id = object_hash(t, data.as_slice());
        Meta { object_type: t, id, data }
    }

    /// The stored form of this object.
    pub fn to_loose(&self) -> (r: Vec<u8>)
        ensures
            r@ == loose_bytes(self.object_type, self.data@),
    {
        loose_form(self.object_type, self.data.as_slice())
    }
}

} // verus!
