//! Merge requests that pushes to a subpath of the monorepo go through.
use vstd::prelude::*;

use crate::errors::GitError;
use crate::hash::{hex_ascii, SHA1};
use crate::text::{append_bytes, ascii_chars, ascii_string};
use crate::tree::ObjectType;

verus! {

/// Where a merge request stands.
#[derive(PartialEq, Eq, Structural, Debug, Clone, Copy)]
pub enum MrStatus {
    Open,
    Closed,
    Merged,
}

impl MrStatus {
    /// The name under which outside tools see the state.
    pub fn as_str(&self) -> (r: String)
        ensures
            r@ == ascii_chars(status_word(*self)),
    {
        let b = match self {
            MrStatus::Open => vec![111u8, 112, 101, 110],
            MrStatus::Closed => vec![99u8, 108, 111, 115, 101, 100],
            MrStatus::Merged => vec![109u8, 101, 114, 103, 101, 100],
        };
        assert(b@ =~= status_word(*self));
        ascii_string(b.as_slice())
    }
}

/// `open`, `closed` or `merged`.
pub open spec fn status_word(s: MrStatus) -> Seq<u8> {
    match s {
        MrStatus::Open => seq![111u8, 112, 101, 110],
        MrStatus::Closed => seq![99u8, 108, 111, 115, 101, 100],
        MrStatus::Merged => seq![109u8, 101, 114, 103, 101, 100],
    }
}

/// A proposal to move the reference of `path` from `from_hash` to `to_hash`.
#[derive(Debug, Clone)]
pub struct MergeRequest {
    pub id: u64,
    pub path: String,
    pub from_hash: SHA1,
    pub to_hash: SHA1,
    pub status: MrStatus,
}

impl MergeRequest {
    /// Marks the request closed.
    pub fn close(&mut self)
        ensures
            final(self).status == MrStatus::Closed,
            final(self).id == old(self).id,
            final(self).path == old(self).path,
            final(self).from_hash == old(self).from_hash,
            final(self).to_hash == old(self).to_hash,
    {
        self.status = MrStatus::Closed;
    }
}

/// A note recorded on a merge request while a push is handled.
#[derive(Debug, Clone, Copy)]
pub enum MrComment {
    /// The push moved the request's target: from the base to the new target.
    ForceUpdate(SHA1, SHA1),
    /// The push started from another base; the request was closed.
    Conflict,
    /// The push brought more than one commit; the request was closed.
    MultiCommit,
}

/// The text of a comment, as ASCII bytes.
pub open spec fn comment_bytes(c: MrComment) -> Seq<u8> {
    match c {
        MrComment::ForceUpdate(from, to) => seq![
            97u8, 117, 116, 111, 45, 117, 112, 100, 97, 116, 101, 100, 32, 102, 114, 111, 109, 32,
        ] + hex_ascii(from@).subrange(0, 6) + seq![32u8, 116, 111, 32] + hex_ascii(to@).subrange(0, 6),
        MrComment::Conflict => seq![
            99u8, 108, 111, 115, 101, 100, 32, 100, 117, 101, 32, 116, 111, 32, 99, 111, 110, 102,
            108, 105, 99, 116,
        ],
        MrComment::MultiCommit => seq![
            99u8, 108, 111, 115, 101, 100, 32, 100, 117, 101, 32, 116, 111, 32, 109, 117, 108, 116,
            105, 45, 99, 111, 109, 109, 105, 116, 32, 100, 101, 116, 101, 99, 116, 101, 100,
        ],
    }
}

impl MrComment {
    /// The comment as text.
    pub fn text(&self) -> (r: String)
        ensures
            r@ == ascii_chars(comment_bytes(*self)),
    {
        let b = match self {
            MrComment::ForceUpdate(from, to) => {
                let mut b = vec![
                    97u8, 117, 116, 111, 45, 117, 112, 100, 97, 116, 101, 100, 32, 102, 114, 111,
                    109, 32,
                ];
                let f = from.hex_digits();
                append_bytes(&mut b, vstd::slice::slice_subrange(f.as_slice(), 0, 6));
                append_bytes(&mut b, &[32u8, 116, 111, 32]);
                let t = to.hex_digits();
                append_bytes(&mut b, vstd::slice::slice_subrange(t.as_slice(), 0, 6));
                b
            },
            MrComment::Conflict => vec![
                99u8, 108, 111, 115, 101, 100, 32, 100, 117, 101, 32, 116, 111, 32, 99, 111, 110,
                102, 108, 105, 99, 116,
            ],
            MrComment::MultiCommit => vec![
                99u8, 108, 111, 115, 101, 100, 32, 100, 117, 101, 32, 116, 111, 32, 109, 117, 108,
                116, 105, 45, 99, 111, 109, 109, 105, 116, 32, 100, 101, 116, 101, 99, 116, 101,
                100,
            ],
        };
        assert(b@ =~= comment_bytes(*self));
        proof {
            lemma_comment_ascii(*self);
        }
        ascii_string(b.as_slice())
    }
}

proof fn lemma_hex_ascii_small(b: Seq<u8>)
    ensures
        forall|i: int| 0 <= i < hex_ascii(b).len() ==> #[trigger] hex_ascii(b)[i] < 128,
{
    assert forall|i: int| 0 <= i < hex_ascii(b).len() implies #[trigger] hex_ascii(b)[i] < 128 by {
        let x = b[i / 2] as int;
        assert(0 <= x / 16 < 16);
        assert(0 <= x % 16 < 16);
    }
}

proof fn lemma_comment_ascii(c: MrComment)
    ensures
        forall|i: int| 0 <= i < comment_bytes(c).len() ==> #[trigger] comment_bytes(c)[i] < 128,
{
    match c {
        MrComment::ForceUpdate(from, to) => {
            lemma_hex_ascii_small(from@);
            lemma_hex_ascii_small(to@);
            let b = comment_bytes(c);
            assert forall|i: int| 0 <= i < b.len() implies #[trigger] b[i] < 128 by {
                if 18 <= i < 24 {
                    assert(b[i] == hex_ascii(from@)[i - 18]);
                } else if 28 <= i {
                    assert(b[i] == hex_ascii(to@)[i - 28]);
                }
            }
        },
        _ => {},
    }
}

/// An inflated object on its way through the pack codec.
#[derive(Debug, Clone)]
pub struct Entry {
    pub obj_type: ObjectType,
    pub hash: SHA1,
    pub data: Vec<u8>,
}

/// How many of `kinds` are commits.
pub open spec fn commit_count(kinds: Seq<ObjectType>) -> nat
    decreases kinds.len(),
{
    if kinds.len() == 0 {
        0
    } else {
        commit_count(kinds.drop_last()) + if kinds.last() == ObjectType::Commit {
            1nat
        } else {
            0nat
        }
    }
}

/// The kinds of a list of entries, in order.
pub open spec fn entry_kinds(entries: Seq<Entry>) -> Seq<ObjectType> {
    entries.map_values(|e: Entry| e.obj_type)
}

/// The number of commits among `entries`.
pub fn count_commits(entries: &Vec<Entry>) -> (r: usize)
    ensures
        r == commit_count(entry_kinds(entries@)),
{
    let mut n: usize = 0;
    let mut i: usize = 0;
    while i < entries.len()
        invariant
            i <= entries@.len(),
            n <= i,
            n == commit_count(entry_kinds(entries@).subrange(0, i as int)),
        decreases entries@.len() - i,
    {
        assert(entry_kinds(entries@).subrange(0, i + 1).drop_last()
            =~= entry_kinds(entries@).subrange(0, i as int));
        if entries[i].obj_type == ObjectType::Commit {
            n = n + 1;
        }
        i = i + 1;
    }
    assert(entry_kinds(entries@).subrange(0, i as int) =~= entry_kinds(entries@));
    n
}

/// What handling a push did to the merge request of its path.
#[derive(Debug, Clone)]
pub struct PushOutcome {
    /// The request as it stands afterwards.
    pub mr: MergeRequest,
    /// The request was made by this push (else it was there and is updated).
    pub created: bool,
    /// The pushed objects are to be stored.
    pub persist: bool,
    /// The comments added to the request, in order.
    pub comments: Vec<MrComment>,
}

/// The request, whether it is new, whether the objects are stored, and the
/// comments added, when `from`..`to` bringing `n` commits is pushed to
/// `path`, whose open request, if any, is `open`.
pub open spec fn push_model(
    open: Option<MergeRequest>,
    path: String,
    from: SHA1,
    to: SHA1,
    n: nat,
) -> (MergeRequest, bool, bool, Seq<MrComment>) {
    match open {
        None => {
            let mr = MergeRequest { id: 0, path, from_hash: from, to_hash: to, status: MrStatus::Open };
            if n > 1 {
                (MergeRequest { status: MrStatus::Closed, ..mr }, true, true, seq![MrComment::MultiCommit])
            } else {
                (mr, true, true, Seq::empty())
            }
        },
        Some(m) => if m.from_hash@ == from@ {
            if m.to_hash@ != to@ {
                let moved = MergeRequest { to_hash: to, ..m };
                if n > 1 {
                    (
                        MergeRequest { status: MrStatus::Closed, ..moved },
                        false,
                        true,
                        seq![MrComment::ForceUpdate(from, to), MrComment::MultiCommit],
                    )
                } else {
                    (moved, false, true, seq![MrComment::ForceUpdate(from, to)])
                }
            } else {
                (m, false, false, Seq::empty())
            }
        } else {
            (MergeRequest { status: MrStatus::Closed, ..m }, false, false, seq![MrComment::Conflict])
        },
    }
}

/// A push to a subpath of the monorepo, with the base and target commits
/// that the client announced.
#[derive(Debug, Clone)]
pub struct MonoRepo {
    pub path: String,
    pub from_hash: SHA1,
    pub to_hash: SHA1,
}

impl MonoRepo {
    /// The request that this push works on: the open one of the path, or a
    /// new one from the push's base to its target. The flag tells which.
    pub fn get_mr(&self, open: Option<MergeRequest>) -> (r: (MergeRequest, bool))
        ensures
            match open {
                Some(m) => r == (m, true),
                None => r == (
                    MergeRequest {
                        id: 0,
                        path: self.path,
                        from_hash: self.from_hash,
                        to_hash: self.to_hash,
                        status: MrStatus::Open,
                    },
                    false,
                ),
            },
    {
        match open {
            Some(m) => (m, true),
            None => (
                MergeRequest {
                    id: 0,
                    path: self.path.clone(),
                    from_hash: self.from_hash,
                    to_hash: self.to_hash,
                    status: MrStatus::Open,
                },
                false,
            ),
        }
    }

    /// The comment recorded when a push moves a request's target.
    pub fn comment_for_force_update(&self, from: &SHA1, to: &SHA1) -> (r: String)
        ensures
            r@ == ascii_chars(comment_bytes(MrComment::ForceUpdate(*from, *to))),
    {
        MrComment::ForceUpdate(*from, *to).text()
    }

    /// Decides what a push of `entries` does to the open request `open` of
    /// the path: open a request, move its target, or close it on a conflict
    /// or when more than one commit came.
    pub fn unpack(&self, open: Option<MergeRequest>, entries: &Vec<Entry>) -> (r: PushOutcome)
        ensures
            (r.mr, r.created, r.persist, r.comments@) == push_model(
                open,
                self.path,
                self.from_hash,
                self.to_hash,
                commit_count(entry_kinds(entries@)),
            ),
    {
        let (mut mr, exists) = self.get_mr(open);
        let mut comments: Vec<MrComment> = Vec::new();
        let mut persist = false;
        if exists {
            if mr.from_hash == self.from_hash {
                if !(mr.to_hash == self.to_hash) {
                    comments.push(MrComment::ForceUpdate(self.from_hash, self.to_hash));
                    mr.to_hash = self.to_hash;
                    persist = true;
                }
            } else {
                mr.close();
                comments.push(MrComment::Conflict);
            }
        } else {
            persist = true;
        }
        if persist && count_commits(entries) > 1 {
            mr.close();
            comments.push(MrComment::MultiCommit);
        }
        assert(comments@ =~= push_model(
            open,
            self.path,
            self.from_hash,
            self.to_hash,
            commit_count(entry_kinds(entries@)),
        ).3);
        PushOutcome { mr, created: !exists, persist, comments }
    }
}

impl MonoRepo {
    /// Handles a pushed pack: decodes it, then decides what the push does
    /// to the open request `open`. A pack that does not decode is refused
    /// and no request changes. The decoded objects come back with the
    /// outcome, to be stored where the outcome says so.
    pub fn receive(&self, open: Option<MergeRequest>, pack: &[u8]) -> (r: Result<(PushOutcome, Vec<Entry>), GitError>)
        ensures
            match crate::pack::decode_spec(pack@) {
                None => r == Err::<(PushOutcome, Vec<Entry>), GitError>(GitError::MalformedPack),
                Some(d) => r matches Ok((o, e)) && crate::pack::entries_view(e@) == crate::pack::decoded_objects(d)
                    && (o.mr, o.created, o.persist, o.comments@) == push_model(
                        open,
                        self.path,
                        self.from_hash,
                        self.to_hash,
                        commit_count(crate::pack::decoded_objects(d).map_values(|x: (ObjectType, Seq<u8>)| x.0)),
                    ),
            },
    {
        let entries = crate::pack::decode(pack)?;
        let ghost d = crate::pack::decode_spec(pack@)->0;
        assert(entry_kinds(entries@) =~= crate::pack::decoded_objects(d).map_values(|x: (ObjectType, Seq<u8>)| x.0)) by {
            assert forall|i: int| 0 <= i < entries@.len() implies entry_kinds(entries@)[i]
                == crate::pack::decoded_objects(d).map_values(|x: (ObjectType, Seq<u8>)| x.0)[i] by {
                assert(crate::pack::entries_view(entries@)[i] == crate::pack::decoded_objects(d)[i]);
            }
        }
        let outcome = self.unpack(open, &entries);
        Ok((outcome, entries))
    }
}

/// A push that brings more than one commit and whose objects are stored
/// leaves its merge request closed, with the multi-commit comment last.
pub proof fn lemma_multi_commit_closes(
    open: Option<MergeRequest>,
    path: String,
    from: SHA1,
    to: SHA1,
    n: nat,
)
    requires
        n > 1,
        push_model(open, path, from, to, n).2,
    ensures
        push_model(open, path, from, to, n).0.status == MrStatus::Closed,
        push_model(open, path, from, to, n).3.last() == MrComment::MultiCommit,
{
}

/// The objects of a push are stored exactly when no request is open, or
/// the open one has the push's base and another target.
pub proof fn lemma_push_persists(
    open: Option<MergeRequest>,
    path: String,
    from: SHA1,
    to: SHA1,
    n: nat,
)
    ensures
        push_model(open, path, from, to, n).2 <==> match open {
            None => true,
            Some(m) => m.from_hash@ == from@ && m.to_hash@ != to@,
        },
{
}

/// A request keeps its base: no push changes the `from_hash` of an open
/// request, nor its identity or path.
pub proof fn lemma_base_kept(open: MergeRequest, path: String, from: SHA1, to: SHA1, n: nat)
    ensures
        push_model(Some(open), path, from, to, n).0.from_hash == open.from_hash,
        push_model(Some(open), path, from, to, n).0.id == open.id,
        push_model(Some(open), path, from, to, n).0.path == open.path,
{
}

/// How many pushed entries are written to the store at once, at most.
pub const FLUSH_SIZE: usize = 1000;

/// The groups in which `n` pushed entries are written: consecutive ranges
/// of `FLUSH_SIZE` entries, the last one holding the rest.
pub fn flush_ranges(n: usize) -> (r: Vec<(usize, usize)>)
    ensures
        r@.len() == (n + FLUSH_SIZE - 1) / FLUSH_SIZE as int,
        forall|i: int| 0 <= i < r@.len() ==> (#[trigger] r@[i]).0 == i * FLUSH_SIZE && r@[i].1 == if (i + 1)
            * FLUSH_SIZE <= n {
            (i + 1) * FLUSH_SIZE
        } else {
            n as int
        },
{
    let mut r: Vec<(usize, usize)> = Vec::new();
    let mut start: usize = 0;
    while start < n
        invariant
            start <= n,
            r@.len() * FLUSH_SIZE <= n ==> start == r@.len() * FLUSH_SIZE,
            r@.len() * FLUSH_SIZE > n ==> start == n,
            r@.len() > 0 ==> (r@.len() - 1) * FLUSH_SIZE < n,
            forall|i: int| 0 <= i < r@.len() ==> (#[trigger] r@[i]).0 == i * FLUSH_SIZE && r@[i].1 == if (i + 1)
                * FLUSH_SIZE <= n {
                (i + 1) * FLUSH_SIZE
            } else {
                n as int
            },
        decreases n - start,
    {
        let end = if n - start > FLUSH_SIZE { start + FLUSH_SIZE } else { n };
        r.push((start, end));
        start = end;
    }
    assert(r@.len() == (n + FLUSH_SIZE - 1) / FLUSH_SIZE as int) by (nonlinear_arith)
        requires
            r@.len() * 1000 <= n ==> start == r@.len() * 1000,
            n <= start,
            r@.len() > 0 ==> (r@.len() - 1) * 1000 < n,
            start <= n,
    ;
    r
}

/// The position of the first entry whose identifier is `h`.
pub open spec fn entry_index(e: Seq<Entry>, h: Seq<u8>) -> Option<int>
    decreases e.len(),
{
    if e.len() == 0 {
        None
    } else if e[0].hash@ == h {
        Some(0)
    } else {
        match entry_index(e.drop_first(), h) {
            Some(i) => Some(i + 1),
            None => None,
        }
    }
}

proof fn lemma_entry_index(e: Seq<Entry>, h: Seq<u8>, i: int)
    requires
        0 <= i <= e.len(),
        forall|j: int| 0 <= j < i ==> e[j].hash@ != h,
    ensures
        entry_index(e, h) == match entry_index(e.subrange(i, e.len() as int), h) {
            Some(x) => Some(x + i),
            None => None::<int>,
        },
    decreases i,
{
    if i > 0 {
        lemma_entry_index(e.drop_first(), h, i - 1);
        assert(e.drop_first().subrange(i - 1, e.len() - 1) =~= e.subrange(i, e.len() as int));
    } else {
        assert(e.subrange(0, e.len() as int) =~= e);
    }
}

/// The root tree that the reference of a whole-repository push moves to:
/// that of the pushed target commit `to`, read from the pushed entries.
/// Nothing moves where the pack does not hold `to`; an entry under that
/// identifier that is not a readable commit is an error.
pub fn pushed_root_tree(entries: &Vec<Entry>, to: &SHA1) -> (r: Result<Option<SHA1>, GitError>)
    ensures
        match entry_index(entries@, to@) {
            None => r == Ok::<Option<SHA1>, GitError>(None),
            Some(i) => match crate::commit::parse_commit(entries@[i].data@) {
                Some(m) => if entries@[i].obj_type == ObjectType::Commit {
                    r matches Ok(Some(t)) && t@ == m.0
                } else {
                    r == Err::<Option<SHA1>, GitError>(GitError::MalformedObject)
                },
                None => r == Err::<Option<SHA1>, GitError>(GitError::MalformedObject),
            },
        },
{
    let mut i: usize = 0;
    while i < entries.len()
        invariant
            i <= entries@.len(),
            forall|j: int| 0 <= j < i ==> entries@[j].hash@ != to@,
        decreases entries@.len() - i,
    {
        if entries[i].hash == *to {
            proof {
                lemma_entry_index(entries@, to@, i as int);
            }
            let c = crate::commit::Commit::new_from_data(entries[i].data.as_slice())?;
            if entries[i].obj_type != ObjectType::Commit {
                return Err(GitError::MalformedObject);
            }
            return Ok(Some(c.tree_id));
        }
        i = i + 1;
    }
    proof {
        lemma_entry_index(entries@, to@, i as int);
    }
    Ok(None)
}

} // verus!
