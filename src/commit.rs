//! Commit objects and the synthetic commits that stand for a subpath.
use vstd::prelude::*;
use vstd::utf8::encode_utf8;

use crate::errors::GitError;
use crate::hash::{hex_ascii, hex_digit, hex_value, SHA1};
use crate::object::{loose_bytes, object_hash, sha1_of};
use crate::signature::{parse_signature, signature_bytes, SigModel, Signature, SignatureType};
use crate::text::{append_bytes, bytes_eq, find_byte, first_index_of, lemma_first_index_of, utf8_string};
use crate::tree::ObjectType;

verus! {

/// A commit: its root tree, its parents, who wrote and who committed it,
/// and its message.
#[derive(Debug, Clone)]
pub struct Commit {
    pub id: SHA1,
    pub tree_id: SHA1,
    pub parent_commit_ids: Vec<SHA1>,
    pub author: Signature,
    pub committer: Signature,
    pub message: String,
}

/// The `parent <hex>` lines of a commit.
pub open spec fn parent_lines(parents: Seq<SHA1>) -> Seq<u8>
    decreases parents.len(),
{
    if parents.len() == 0 {
        Seq::empty()
    } else {
        parent_lines(parents.drop_last()) + seq![112u8, 97, 114, 101, 110, 116, 32]
            + hex_ascii(parents.last()@) + seq![10u8]
    }
}

/// The payload of a commit.
pub open spec fn commit_bytes(
    tree: SHA1,
    parents: Seq<SHA1>,
    author: SigModel,
    committer: SigModel,
    message: Seq<u8>,
) -> Seq<u8> {
    seq![116u8, 114, 101, 101, 32] + hex_ascii(tree@) + seq![10u8] + parent_lines(parents)
        + signature_bytes(author) + seq![10u8] + signature_bytes(committer) + seq![10u8, 10u8]
        + message
}

/// The message of every synthetic commit.
pub open spec fn synthetic_message() -> Seq<u8> {
    seq![
        84u8, 104, 105, 115, 32, 99, 111, 109, 109, 105, 116, 32, 119, 97, 115, 32, 103, 101, 110,
        101, 114, 97, 116, 101, 100, 32, 98, 121, 32, 109, 101, 103, 97, 32, 102, 111, 114, 32,
        109, 97, 105, 110, 116, 97, 105, 110, 32, 114, 101, 102, 115,
    ]
}

impl Commit {
    /// The payload of this commit.
    pub fn to_data(&self) -> (r: Vec<u8>)
        ensures
            r@ == commit_bytes(
                self.tree_id,
                self.parent_commit_ids@,
                self.author@,
                self.committer@,
                encode_utf8(self.message@),
            ),
    {
        let mut r: Vec<u8> = vec![116u8, 114, 101, 101, 32];
        let t = self.tree_id.hex_digits();
        append_bytes(&mut r, t.as_slice());
        r.push(10u8);
        let mut i: usize = 0;
        while i < self.parent_commit_ids.len()
            invariant
                i <= self.parent_commit_ids@.len(),
                r@ == seq![116u8, 114, 101, 101, 32] + hex_ascii(self.tree_id@) + seq![10u8]
                    + parent_lines(self.parent_commit_ids@.subrange(0, i as int)),
            decreases self.parent_commit_ids@.len() - i,
        {
            let ghost before = r@;
            append_bytes(&mut r, &[112u8, 97, 114, 101, 110, 116, 32]);
            let p = self.parent_commit_ids[i].hex_digits();
            append_bytes(&mut r, p.as_slice());
            r.push(10u8);
            assert(self.parent_commit_ids@.subrange(0, i + 1).drop_last()
                =~= self.parent_commit_ids@.subrange(0, i as int));
            assert(r@ =~= before + seq![112u8, 97, 114, 101, 110, 116, 32]
                + hex_ascii(self.parent_commit_ids@[i as int]@) + seq![10u8]);
            i = i + 1;
        }
        assert(self.parent_commit_ids@.subrange(0, i as int) =~= self.parent_commit_ids@);
        let a = self.author.to_data().unwrap();
        append_bytes(&mut r, a.as_slice());
        r.push(10u8);
        let c = self.committer.to_data().unwrap();
        append_bytes(&mut r, c.as_slice());
        r.push(10u8);
        r.push(10u8);
        append_bytes(&mut r, self.message.as_str().as_bytes());
        assert(r@ =~= commit_bytes(
            self.tree_id,
            self.parent_commit_ids@,
            self.author@,
            self.committer@,
            encode_utf8(self.message@),
        ));
        r
    }

    /// The commit of `tree_id` with the given parents, signatures and
    /// message, under the identifier of its payload.
    pub fn from_tree_id(
        tree_id: SHA1,
        parent_commit_ids: Vec<SHA1>,
        author: Signature,
        committer: Signature,
        message: String,
    ) -> (r: Commit)
        ensures
            r.tree_id == tree_id,
            r.parent_commit_ids@ == parent_commit_ids@,
            r.author@ == author@,
            r.committer@ == committer@,
            r.message@ == message@,
            r.id@ == sha1_of(loose_bytes(ObjectType::Commit, commit_bytes(
                tree_id,
                parent_commit_ids@,
                author@,
                committer@,
                encode_utf8(message@),
            ))),
    {
        let mut c = Commit {
            id: SHA1::default(),
            tree_id,
            parent_commit_ids,
            author,
            committer,
            message,
        };
        let data = c.to_data();
        c.id = object_hash(ObjectType::Commit, data.as_slice());
        c
    }

    /// The commit that advertises the subtree `tree_id` as a repository of
    /// its own: no parents and the canonical message.
    pub fn synthetic(tree_id: SHA1, author: Signature, committer: Signature) -> (r: Commit)
        ensures
            r.tree_id == tree_id,
            r.parent_commit_ids@.len() == 0,
            r.author@ == author@,
            r.committer@ == committer@,
            encode_utf8(r.message@) == synthetic_message(),
            r.id@ == sha1_of(loose_bytes(ObjectType::Commit, commit_bytes(
                tree_id,
                Seq::empty(),
                author@,
                committer@,
                synthetic_message(),
            ))),
    {
        let b = vec![
            84u8, 104, 105, 115, 32, 99, 111, 109, 109, 105, 116, 32, 119, 97, 115, 32, 103, 101,
            110, 101, 114, 97, 116, 101, 100, 32, 98, 121, 32, 109, 101, 103, 97, 32, 102, 111,
            114, 32, 109, 97, 105, 110, 116, 97, 105, 110, 32, 114, 101, 102, 115,
        ];
        assert(b@ =~= synthetic_message());
        assert forall|i: int| 0 <= i < b@.len() implies #[trigger] b@[i] < 128 by {}
        let message = crate::text::ascii_string(b.as_slice());
        proof {
            let chars = crate::text::ascii_chars(b@);
            assert(vstd::utf8::is_ascii_chars(chars));
            vstd::utf8::is_ascii_chars_encode_utf8(chars);
            assert(encode_utf8(chars) =~= b@);
        }
        let parents: Vec<SHA1> = Vec::new();
        assert(parents@ =~= Seq::<SHA1>::empty());
        Commit::from_tree_id(tree_id, parents, author, committer, message)
    }
}

/// A hexadecimal digit, as an ASCII byte.
pub open spec fn is_hex_byte(c: u8) -> bool {
    (48 <= c <= 57) || (97 <= c <= 102) || (65 <= c <= 70)
}

/// The bytes that the hexadecimal ASCII digits `s` stand for.
pub open spec fn unhex(s: Seq<u8>) -> Seq<u8> {
    Seq::new(s.len() / 2, |i: int| (hex_value(s[2 * i]) * 16 + hex_value(s[2 * i + 1])) as u8)
}

/// A line `prefix`, 40 hexadecimal digits and a newline at `pos`: the
/// identifier it names.
pub open spec fn hex_line(b: Seq<u8>, pos: int, prefix: Seq<u8>) -> Option<Seq<u8>> {
    let start = pos + prefix.len();
    if 0 <= pos && start + 41 <= b.len() && b.subrange(pos, start) == prefix
        && (forall|i: int| start <= i < start + 40 ==> is_hex_byte(#[trigger] b[i]))
        && b[start + 40] == 10u8 {
        Some(unhex(b.subrange(start, start + 40)))
    } else {
        None
    }
}

/// `parent `.
pub open spec fn parent_word() -> Seq<u8> {
    seq![112u8, 97, 114, 101, 110, 116, 32]
}

/// `tree `.
pub open spec fn tree_word() -> Seq<u8> {
    seq![116u8, 114, 101, 101, 32]
}

/// The parent lines from `pos` on, and the position after them.
pub open spec fn parents_from(b: Seq<u8>, pos: int) -> (Seq<Seq<u8>>, int)
    decreases b.len() - pos,
{
    match hex_line(b, pos, parent_word()) {
        Some(id) => if pos + 48 <= b.len() {
            let (rest, e) = parents_from(b, pos + 48);
            (seq![id] + rest, e)
        } else {
            (Seq::empty(), pos)
        },
        None => (Seq::empty(), pos),
    }
}

/// A commit as plain values: root tree, parents, author, committer and
/// message bytes.
pub type CommitModel = (Seq<u8>, Seq<Seq<u8>>, SigModel, SigModel, Seq<u8>);

/// The signature line at `pos`, up to its newline, of the kind `t`, and
/// the position after the newline.
pub open spec fn sig_line(b: Seq<u8>, pos: int, t: SignatureType) -> Option<(SigModel, int)> {
    if 0 <= pos <= b.len() {
        match first_index_of(b.subrange(pos, b.len() as int), 10) {
            Some(k) => match parse_signature(b.subrange(pos, pos + k)) {
                Some(sm) => if sm.0 == t {
                    Some((sm, pos + k + 1))
                } else {
                    None
                },
                None => None,
            },
            None => None,
        }
    } else {
        None
    }
}

/// What a commit payload stands for: the tree line, the parent lines, the
/// author and committer lines, a blank line, and the message.
pub open spec fn parse_commit(b: Seq<u8>) -> Option<CommitModel> {
    match hex_line(b, 0, tree_word()) {
        None => None,
        Some(tree) => {
            let (parents, p1) = parents_from(b, 46);
            match sig_line(b, p1, SignatureType::Author) {
                None => None,
                Some((a, p2)) => match sig_line(b, p2, SignatureType::Committer) {
                    None => None,
                    Some((c, p3)) => if p3 < b.len() && b[p3] == 10u8
                        && vstd::utf8::valid_utf8(b.subrange(p3 + 1, b.len() as int)) {
                        Some((tree, parents, a, c, b.subrange(p3 + 1, b.len() as int)))
                    } else {
                        None
                    },
                },
            }
        },
    }
}

fn hex_byte_value(c: u8) -> (r: u8)
    requires
        is_hex_byte(c),
    ensures
        r as int == hex_value(c),
        r < 16,
{
    if 48 <= c && c <= 57 {
        c - 48
    } else if 97 <= c && c <= 102 {
        c - 87
    } else {
        c - 55
    }
}

fn read_hex_line(b: &[u8], pos: usize, prefix: &[u8]) -> (r: Option<SHA1>)
    requires
        prefix@.len() < 16,
    ensures
        match hex_line(b@, pos as int, prefix@) {
            Some(id) => r is Some && r->0@ == id,
            None => r is None,
        },
{
    let n = b.len();
    let pl = prefix.len();
    if pos > n || n - pos < pl + 41 {
        return None;
    }
    if !bytes_eq(vstd::slice::slice_subrange(b, pos, pos + pl), prefix) {
        return None;
    }
    let start = pos + pl;
    let mut i: usize = 0;
    while i < 40
        invariant
            i <= 40,
            n == b@.len(),
            start + 41 <= n,
            start == pos + prefix@.len(),
            b@.subrange(pos as int, start as int) == prefix@,
            forall|j: int| start <= j < start + i ==> is_hex_byte(#[trigger] b@[j]),
        decreases 40 - i,
    {
        let c = b[start + i];
        if !((48 <= c && c <= 57) || (97 <= c && c <= 102) || (65 <= c && c <= 70)) {
            assert(!is_hex_byte(b@[start + i]));
            return None;
        }
        i = i + 1;
    }
    if b[start + 40] != 10 {
        return None;
    }
    let ghost digits = b@.subrange(start as int, start + 40);
    let mut bytes = [0u8; 20];
    let mut k: usize = 0;
    while k < 20
        invariant
            k <= 20,
            n == b@.len(),
            start + 41 <= n,
            start == pos + prefix@.len(),
            b@.subrange(pos as int, start as int) == prefix@,
            b@[start + 40] == 10u8,
            digits == b@.subrange(start as int, start + 40),
            forall|j: int| start <= j < start + 40 ==> is_hex_byte(#[trigger] b@[j]),
            forall|j: int| 0 <= j < k ==> bytes@[j] == unhex(digits)[j],
        decreases 20 - k,
    {
        let hi = hex_byte_value(b[start + 2 * k]);
        let lo = hex_byte_value(b[start + 2 * k + 1]);
        bytes[k] = hi * 16 + lo;
        k = k + 1;
    }
    let r = SHA1 { bytes };
    assert(r@ =~= unhex(digits));
    Some(r)
}

fn read_sig_line(b: &[u8], pos: usize, t: SignatureType) -> (r: Option<(Signature, usize)>)
    ensures
        match sig_line(b@, pos as int, t) {
            Some((sm, e)) => r matches Some((sg, x)) && sg@ == sm && x as int == e,
            None => r is None,
        },
{
    let n = b.len();
    if pos > n {
        return None;
    }
    let rest = vstd::slice::slice_subrange(b, pos, n);
    let k = match find_byte(rest, 10) {
        Some(k) => k,
        None => return None,
    };
    proof {
        lemma_first_index_of(rest@, 10);
    }
    let line = vstd::slice::slice_subrange(b, pos, pos + k);
    let mut sg = Signature {
        signature_type: t,
        name: String::new(),
        email: String::new(),
        timestamp: 0,
        timezone: String::new(),
    };
    match sg.new_from_data(vstd::slice::slice_to_vec(line)) {
        Ok(()) => {},
        Err(_) => return None,
    }
    if sg.signature_type != t {
        return None;
    }
    Some((sg, pos + k + 1))
}

impl Commit {
    /// Reads a commit from its payload; its identifier is that of the
    /// payload.
    pub fn new_from_data(data: &[u8]) -> (r: Result<Commit, GitError>)
        ensures
            match parse_commit(data@) {
                Some(m) => r matches Ok(c) && c.tree_id@ == m.0
                    && c.parent_commit_ids@.map_values(|p: SHA1| p@) == m.1 && c.author@ == m.2
                    && c.committer@ == m.3 && encode_utf8(c.message@) == m.4
                    && c.id@ == sha1_of(loose_bytes(ObjectType::Commit, data@)),
                None => r == Err::<Commit, GitError>(GitError::MalformedObject),
            },
    {
        let n = data.len();
        let tw = vec![116u8, 114, 101, 101, 32];
        assert(tw@ =~= tree_word());
        let tree_id = match read_hex_line(data, 0, tw.as_slice()) {
            Some(h) => h,
            None => return Err(GitError::MalformedObject),
        };
        let pw = vec![112u8, 97, 114, 101, 110, 116, 32];
        assert(pw@ =~= parent_word());
        let mut parents: Vec<SHA1> = Vec::new();
        let mut pos: usize = 46;
        assert(parents@.map_values(|p: SHA1| p@) =~= Seq::<Seq<u8>>::empty());
        loop
            invariant
                n == data@.len(),
                pos <= n,
                pw@ == parent_word(),
                parents_from(data@, 46) == (
                    parents@.map_values(|p: SHA1| p@) + parents_from(data@, pos as int).0,
                    parents_from(data@, pos as int).1,
                ),
            ensures
                n == data@.len(),
                pos <= n,
                parents_from(data@, 46) == (
                    parents@.map_values(|p: SHA1| p@) + parents_from(data@, pos as int).0,
                    parents_from(data@, pos as int).1,
                ),
                parents_from(data@, pos as int).0 == Seq::<Seq<u8>>::empty(),
                parents_from(data@, pos as int).1 == pos as int,
            decreases n - pos,
        {
            let ghost before = parents@.map_values(|p: SHA1| p@);
            match read_hex_line(data, pos, pw.as_slice()) {
                Some(h) => {
                    if n - pos < 48 {
                        break;
                    }
                    parents.push(h);
                    assert(parents@.map_values(|p: SHA1| p@) =~= before.push(h@));
                    let ghost tail = parents_from(data@, pos + 48);
                    assert(before + (seq![h@] + tail.0) =~= before.push(h@) + tail.0);
                    pos = pos + 48;
                },
                None => {
                    break;
                },
            }
        }
        assert(parents@.map_values(|p: SHA1| p@) + Seq::<Seq<u8>>::empty() =~= parents@.map_values(|p: SHA1| p@));
        let (author, p2) = match read_sig_line(data, pos, SignatureType::Author) {
            Some(x) => x,
            None => return Err(GitError::MalformedObject),
        };
        let (committer, p3) = match read_sig_line(data, p2, SignatureType::Committer) {
            Some(x) => x,
            None => return Err(GitError::MalformedObject),
        };
        if p3 >= n || data[p3] != 10 {
            return Err(GitError::MalformedObject);
        }
        let msg = vstd::slice::slice_subrange(data, p3 + 1, n);
        let message = match utf8_string(msg) {
            Some(m) => m,
            None => return Err(GitError::MalformedObject),
        };
        proof {
            vstd::utf8::decode_utf8_encode_utf8(msg@);
        }
        let id = object_hash(ObjectType::Commit, data);
        Ok(Commit { id, tree_id, parent_commit_ids: parents, author, committer, message })
    }
}

proof fn lemma_hex_round_trip(h: Seq<u8>)
    requires
        h.len() == 20,
    ensures
        hex_ascii(h).len() == 40,
        forall|i: int| 0 <= i < 40 ==> is_hex_byte(#[trigger] hex_ascii(h)[i]),
        unhex(hex_ascii(h)) == h,
{
    let a = hex_ascii(h);
    assert forall|i: int| 0 <= i < 40 implies is_hex_byte(#[trigger] a[i]) by {
        let x = h[i / 2] as int;
        assert(0 <= x / 16 < 16 && 0 <= x % 16 < 16);
    }
    assert forall|k: int| 0 <= k < 20 implies #[trigger] unhex(a)[k] == h[k] by {
        let x = h[k] as int;
        assert((2 * k) / 2 == k && (2 * k + 1) / 2 == k && (2 * k) % 2 == 0 && (2 * k + 1) % 2 == 1);
        assert(0 <= x / 16 < 16 && 0 <= x % 16 < 16);
        assert(hex_value(hex_digit(x / 16)) == x / 16);
        assert(hex_value(hex_digit(x % 16)) == x % 16);
        assert(x == (x / 16) * 16 + x % 16);
    }
    assert(unhex(a) =~= h);
}

proof fn lemma_parent_lines_front(ps: Seq<SHA1>)
    requires
        ps.len() > 0,
    ensures
        parent_lines(ps) == parent_word() + hex_ascii(ps[0]@) + seq![10u8] + parent_lines(ps.drop_first()),
    decreases ps.len(),
{
    if ps.len() > 1 {
        lemma_parent_lines_front(ps.drop_last());
        assert(ps.drop_last().drop_first() =~= ps.drop_first().drop_last());
        assert(ps.drop_first().last() == ps.last());
        assert(ps.drop_last()[0] == ps[0]);
    } else {
        assert(ps.drop_last() =~= Seq::<SHA1>::empty());
        assert(ps.drop_first() =~= Seq::<SHA1>::empty());
    }
}

#[verifier::rlimit(40)]
proof fn lemma_hex_line_at(b: Seq<u8>, pos: int, prefix: Seq<u8>, h: Seq<u8>)
    requires
        h.len() == 20,
        0 <= pos,
        pos + prefix.len() + 41 <= b.len(),
        b.subrange(pos, pos + prefix.len() + 41) == prefix + hex_ascii(h) + seq![10u8],
    ensures
        hex_line(b, pos, prefix) == Some(h),
{
    lemma_hex_round_trip(h);
    let w = prefix + hex_ascii(h) + seq![10u8];
    let start = pos + prefix.len();
    assert(b.subrange(pos, start) =~= prefix) by {
        assert forall|j: int| 0 <= j < prefix.len() implies b.subrange(pos, start)[j] == prefix[j] by {
            assert(b[pos + j] == w[j]);
        }
    }
    assert forall|i: int| start <= i < start + 40 implies is_hex_byte(#[trigger] b[i]) by {
        assert(b[i] == w[i - pos]);
    }
    assert(b[start + 40] == w[prefix.len() as int + 40]);
    assert(b.subrange(start, start + 40) =~= hex_ascii(h)) by {
        assert forall|j: int| 0 <= j < 40 implies b.subrange(start, start + 40)[j] == hex_ascii(h)[j] by {
            assert(b[start + j] == w[prefix.len() as int + j]);
        }
    }
}

#[verifier::rlimit(40)]
proof fn lemma_parents_parse(b: Seq<u8>, pos: int, ps: Seq<SHA1>)
    requires
        0 <= pos,
        pos + parent_lines(ps).len() + 1 <= b.len(),
        b.subrange(pos, pos + parent_lines(ps).len()) == parent_lines(ps),
        b[pos + parent_lines(ps).len()] != 112u8,
    ensures
        parent_lines(ps).len() == 48 * ps.len(),
        parents_from(b, pos) == (ps.map_values(|p: SHA1| p@), pos + 48 * ps.len()),
    decreases ps.len(),
{
    let pl = parent_lines(ps);
    if ps.len() == 0 {
        assert(hex_line(b, pos, parent_word()) is None) by {
            if pos + 48 <= b.len() {
                assert(b.subrange(pos, pos + 7)[0] == b[pos]);
            }
        }
        assert(ps.map_values(|p: SHA1| p@) =~= Seq::<Seq<u8>>::empty());
    } else {
        lemma_parent_lines_front(ps);
        let rest = ps.drop_first();
        let line = parent_word() + hex_ascii(ps[0]@) + seq![10u8];
        lemma_hex_round_trip(ps[0]@);
        assert(line.len() == 48);
        assert(b.subrange(pos + 48, pos + 48 + parent_lines(rest).len()) =~= parent_lines(rest)) by {
            assert forall|j: int| 0 <= j < parent_lines(rest).len() implies
                b.subrange(pos + 48, pos + 48 + parent_lines(rest).len())[j] == parent_lines(rest)[j] by {
                assert(b[pos + 48 + j] == pl[48 + j]);
            }
        }
        lemma_parents_parse(b, pos + 48, rest);
        assert(b.subrange(pos, pos + 48) =~= line) by {
            assert forall|j: int| 0 <= j < 48 implies b.subrange(pos, pos + 48)[j] == line[j] by {
                assert(b[pos + j] == pl[j]);
            }
        }
        lemma_hex_line_at(b, pos, parent_word(), ps[0]@);
        assert(hex_line(b, pos, parent_word()) == Some(ps[0]@));
        assert(ps.map_values(|p: SHA1| p@) =~= seq![ps[0]@] + rest.map_values(|p: SHA1| p@));
    }
}

#[verifier::rlimit(40)]
proof fn lemma_sig_line(b: Seq<u8>, pos: int, s: SigModel)
    requires
        crate::signature::signature_ok(s),
        forall|j: int| 0 <= j < signature_bytes(s).len() ==> signature_bytes(s)[j] != 10u8,
        0 <= pos,
        pos + signature_bytes(s).len() + 1 <= b.len(),
        b.subrange(pos, pos + signature_bytes(s).len() + 1) == signature_bytes(s) + seq![10u8],
    ensures
        sig_line(b, pos, s.0) == Some((s, pos + signature_bytes(s).len() + 1)),
{
    let sb = signature_bytes(s);
    let rest = b.subrange(pos, b.len() as int);
    assert forall|j: int| 0 <= j < sb.len() implies rest[j] != 10u8 by {
        assert(rest[j] == b.subrange(pos, pos + sb.len() + 1)[j]);
    }
    assert(rest[sb.len() as int] == b.subrange(pos, pos + sb.len() + 1)[sb.len() as int]);
    crate::text::lemma_first_index_at(rest, 10, sb.len() as int);
    assert(b.subrange(pos, pos + sb.len()) =~= sb) by {
        assert forall|j: int| 0 <= j < sb.len() implies b.subrange(pos, pos + sb.len())[j] == sb[j] by {
            assert(b[pos + j] == b.subrange(pos, pos + sb.len() + 1)[j]);
        }
    }
    crate::signature::lemma_signature_round_trip(s);
}

/// Reading the payload of a commit gives back its tree, parents,
/// signatures and message, where neither signature line holds a newline.
#[verifier::rlimit(100)]
pub proof fn lemma_commit_round_trip(tree: SHA1, parents: Seq<SHA1>, a: SigModel, c: SigModel, msg: Seq<u8>)
    requires
        a.0 == SignatureType::Author,
        c.0 == SignatureType::Committer,
        crate::signature::signature_ok(a),
        crate::signature::signature_ok(c),
        forall|j: int| 0 <= j < signature_bytes(a).len() ==> signature_bytes(a)[j] != 10u8,
        forall|j: int| 0 <= j < signature_bytes(c).len() ==> signature_bytes(c)[j] != 10u8,
        vstd::utf8::valid_utf8(msg),
    ensures
        parse_commit(commit_bytes(tree, parents, a, c, msg)) == Some(
            (tree@, parents.map_values(|p: SHA1| p@), a, c, msg),
        ),
{
    let b = commit_bytes(tree, parents, a, c, msg);
    let pl = parent_lines(parents);
    let sa = signature_bytes(a);
    let sc = signature_bytes(c);
    let head = tree_word() + hex_ascii(tree@) + seq![10u8];
    assert(tree@.len() == 20);
    lemma_hex_round_trip(tree@);
    assert(b =~= head + pl + (sa + seq![10u8]) + (sc + seq![10u8]) + (seq![10u8] + msg));
    assert(b.subrange(0, 46) =~= head);
    lemma_hex_line_at(b, 0, tree_word(), tree@);
    let p1: int = 46 + pl.len() as int;
    assert(b.subrange(46, p1) =~= pl);
    assert(b[p1] == sa[0]);
    assert(sa[0] == 97u8);
    lemma_parents_parse(b, 46, parents);
    let p2: int = p1 + sa.len() as int + 1;
    assert(b.subrange(p1, p2) =~= sa + seq![10u8]);
    lemma_sig_line(b, p1, a);
    let p3: int = p2 + sc.len() as int + 1;
    assert(b.subrange(p2, p3) =~= sc + seq![10u8]);
    lemma_sig_line(b, p2, c);
    assert(b[p3] == 10u8);
    assert(b.subrange(p3 + 1, b.len() as int) =~= msg);
}

} // verus!
