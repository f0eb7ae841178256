//! Reachability over the object graph: which commits a fetch must send,
//! which trees and blobs the client already has, and which it lacks.
use vstd::prelude::*;

use crate::hash::SHA1;
use crate::tree::ObjectType;

verus! {

/// An object and the identifiers it points at: a commit's parents, or a
/// tree's subtrees and blobs. A blob points at nothing.
#[derive(Debug, Clone)]
pub struct Node {
    pub id: SHA1,
    pub children: Vec<SHA1>,
}

/// `h` is among the identifiers `v`.
pub open spec fn in_ids(v: Seq<SHA1>, h: Seq<u8>) -> bool {
    exists|i: int| 0 <= i < v.len() && (#[trigger] v[i])@ == h
}

/// `j` is pointed at by a marked node of lower rank.
pub open spec fn has_marked_parent(nodes: Seq<Node>, m: Seq<bool>, rank: Seq<nat>, j: int) -> bool {
    exists|i: int, k: int|
        0 <= i < nodes.len() && m[i] && 0 <= k < nodes[i].children@.len()
            && (#[trigger] nodes[i].children@[k])@ == nodes[j].id@ && rank[i] < rank[j]
}

/// Every node that a marked node points at is marked, unless it is blocked.
pub open spec fn closed(nodes: Seq<Node>, m: Seq<bool>, blocked: Seq<SHA1>) -> bool {
    forall|i: int, k: int, j: int|
        0 <= i < nodes.len() && m[i] && 0 <= k < nodes[i].children@.len() && 0 <= j < nodes.len()
            && (#[trigger] nodes[i].children@[k])@ == (#[trigger] nodes[j].id)@ && !in_ids(
            blocked,
            nodes[j].id@,
        ) ==> m[j]
}

/// Under the ranks `rank`, every marked node is a seed, or is not blocked
/// and is pointed at by a marked node of lower rank.
pub open spec fn ranked(nodes: Seq<Node>, m: Seq<bool>, seeds: Seq<SHA1>, blocked: Seq<SHA1>, rank: Seq<nat>) -> bool {
    &&& rank.len() == nodes.len()
    &&& forall|j: int|
        0 <= j < nodes.len() && #[trigger] m[j] ==> in_ids(seeds, nodes[j].id@) || (!in_ids(
            blocked,
            nodes[j].id@,
        ) && has_marked_parent(nodes, m, rank, j))
}

/// Every marked node is reached from a seed by a path of marked, unblocked
/// nodes: ranks that fall along each node's marked parent exist.
pub open spec fn justified(nodes: Seq<Node>, m: Seq<bool>, seeds: Seq<SHA1>, blocked: Seq<SHA1>) -> bool {
    exists|rank: Seq<nat>| ranked(nodes, m, seeds, blocked, rank)
}

/// Every node that is a seed is marked.
pub open spec fn seeded(nodes: Seq<Node>, m: Seq<bool>, seeds: Seq<SHA1>) -> bool {
    forall|j: int| 0 <= j < nodes.len() && in_ids(seeds, (#[trigger] nodes[j]).id@) ==> m[j]
}

/// The number of marks that are set.
pub open spec fn marked_count(m: Seq<bool>) -> nat
    decreases m.len(),
{
    if m.len() == 0 {
        0
    } else {
        marked_count(m.drop_last()) + if m.last() {
            1nat
        } else {
            0nat
        }
    }
}

proof fn lemma_marked_count_bound(m: Seq<bool>)
    ensures
        marked_count(m) <= m.len(),
    decreases m.len(),
{
    if m.len() > 0 {
        lemma_marked_count_bound(m.drop_last());
    }
}

proof fn lemma_marked_count_set(m: Seq<bool>, j: int)
    requires
        0 <= j < m.len(),
        !m[j],
    ensures
        marked_count(m.update(j, true)) == marked_count(m) + 1,
    decreases m.len(),
{
    let u = m.update(j, true);
    if j == m.len() - 1 {
        assert(u.drop_last() =~= m.drop_last());
    } else {
        lemma_marked_count_set(m.drop_last(), j);
        assert(u.drop_last() =~= m.drop_last().update(j, true));
    }
}

/// Whether `h` is among `v`.
pub fn contains_id(v: &Vec<SHA1>, h: &SHA1) -> (r: bool)
    ensures
        r == in_ids(v@, h@),
{
    let mut i: usize = 0;
    while i < v.len()
        invariant
            i <= v@.len(),
            forall|x: int| 0 <= x < i ==> (#[trigger] v@[x])@ != h@,
        decreases v@.len() - i,
    {
        if v[i] == *h {
            assert(v@[i as int]@ == h@);
            return true;
        }
        i = i + 1;
    }
    false
}

/// Marks the nodes reachable from `seeds` through nodes that are not
/// `blocked`: the seeds themselves, then, again and again, every node that
/// a marked node points at and that is not blocked.
#[verifier::rlimit(40)]
pub fn reach(nodes: &Vec<Node>, seeds: &Vec<SHA1>, blocked: &Vec<SHA1>) -> (m: Vec<bool>)
    ensures
        m@.len() == nodes@.len(),
        seeded(nodes@, m@, seeds@),
        closed(nodes@, m@, blocked@),
        justified(nodes@, m@, seeds@, blocked@),
{
    let n = nodes.len();
    let mut m: Vec<bool> = Vec::new();
    let mut j: usize = 0;
    while j < n
        invariant
            n == nodes@.len(),
            j <= n,
            m@.len() == j,
            forall|x: int| 0 <= x < j ==> m@[x] == in_ids(seeds@, (#[trigger] nodes@[x]).id@),
        decreases n - j,
    {
        let s = contains_id(seeds, &nodes[j].id);
        m.push(s);
        j = j + 1;
    }
    let ghost count: nat = marked_count(m@);
    let ghost mut rank: Seq<nat> = Seq::new(n as nat, |x: int| 0nat);
    assert(ranked(nodes@, m@, seeds@, blocked@, rank));
    proof {
        lemma_marked_count_bound(m@);
    }
    loop
        invariant
            n == nodes@.len(),
            m@.len() == n,
            count == marked_count(m@),
            count <= n,
            seeded(nodes@, m@, seeds@),
            ranked(nodes@, m@, seeds@, blocked@, rank),
            forall|x: int| 0 <= x < n && #[trigger] m@[x] ==> rank[x] <= count,
        ensures
            m@.len() == n,
            seeded(nodes@, m@, seeds@),
            justified(nodes@, m@, seeds@, blocked@),
            closed(nodes@, m@, blocked@),
        decreases n - count,
    {
        let ghost start = count;
        let mut changed = false;
        let mut i: usize = 0;
        while i < n
            invariant
                n == nodes@.len(),
                m@.len() == n,
                i <= n,
                count == marked_count(m@),
                count <= n,
                start <= count,
                changed ==> start < count,
                seeded(nodes@, m@, seeds@),
                ranked(nodes@, m@, seeds@, blocked@, rank),
                forall|x: int| 0 <= x < n && #[trigger] m@[x] ==> rank[x] <= count,
                !changed ==> forall|a: int, k: int, b: int|
                    0 <= a < i && m@[a] && 0 <= k < nodes@[a].children@.len() && 0 <= b < n
                        && (#[trigger] nodes@[a].children@[k])@ == (#[trigger] nodes@[b].id)@
                        && !in_ids(blocked@, nodes@[b].id@) ==> m@[b],
            decreases n - i,
        {
            if m[i] {
                let kids = &nodes[i].children;
                let mut k: usize = 0;
                while k < kids.len()
                    invariant
                        n == nodes@.len(),
                        m@.len() == n,
                        i < n,
                        m@[i as int],
                        kids == &nodes@[i as int].children,
                        k <= kids@.len(),
                        count == marked_count(m@),
                        count <= n,
                        start <= count,
                        changed ==> start < count,
                        seeded(nodes@, m@, seeds@),
                        ranked(nodes@, m@, seeds@, blocked@, rank),
                forall|x: int| 0 <= x < n && #[trigger] m@[x] ==> rank[x] <= count,
                        !changed ==> forall|a: int, kk: int, b: int|
                            0 <= a < i && m@[a] && 0 <= kk < nodes@[a].children@.len() && 0 <= b < n
                                && (#[trigger] nodes@[a].children@[kk])@ == (#[trigger] nodes@[b].id)@
                                && !in_ids(blocked@, nodes@[b].id@) ==> m@[b],
                        !changed ==> forall|kk: int, b: int|
                            0 <= kk < k && 0 <= b < n
                                && (#[trigger] nodes@[i as int].children@[kk])@ == (#[trigger] nodes@[b].id)@
                                && !in_ids(blocked@, nodes@[b].id@) ==> m@[b],
                    decreases kids@.len() - k,
                {
                    let c = &kids[k];
                    if !contains_id(blocked, c) {
                        let mut b: usize = 0;
                        while b < n
                            invariant
                                n == nodes@.len(),
                                m@.len() == n,
                                i < n,
                                m@[i as int],
                                kids == &nodes@[i as int].children,
                                k < kids@.len(),
                                *c == kids@[k as int],
                                !in_ids(blocked@, c@),
                                b <= n,
                                count == marked_count(m@),
                                count <= n,
                                start <= count,
                                changed ==> start < count,
                                seeded(nodes@, m@, seeds@),
                                ranked(nodes@, m@, seeds@, blocked@, rank),
                forall|x: int| 0 <= x < n && #[trigger] m@[x] ==> rank[x] <= count,
                                !changed ==> forall|a: int, kk: int, bb: int|
                                    0 <= a < i && m@[a] && 0 <= kk < nodes@[a].children@.len() && 0 <= bb < n
                                        && (#[trigger] nodes@[a].children@[kk])@ == (#[trigger] nodes@[bb].id)@
                                        && !in_ids(blocked@, nodes@[bb].id@) ==> m@[bb],
                                !changed ==> forall|kk: int, bb: int|
                                    0 <= kk < k && 0 <= bb < n
                                        && (#[trigger] nodes@[i as int].children@[kk])@ == (#[trigger] nodes@[bb].id)@
                                        && !in_ids(blocked@, nodes@[bb].id@) ==> m@[bb],
                                !changed ==> forall|bb: int|
                                    0 <= bb < b && (#[trigger] nodes@[bb].id)@ == c@ ==> m@[bb],
                            decreases n - b,
                        {
                            if !m[b] && nodes[b].id == *c {
                                proof {
                                    lemma_marked_count_set(m@, b as int);
                                    lemma_marked_count_bound(m@.update(b as int, true));
                                }
                                let ghost old_m = m@;
                                let ghost old_rank = rank;
                                m.set(b, true);
                                proof {
                                    rank = rank.update(b as int, count + 1);
                                    assert(has_marked_parent(nodes@, m@, rank, b as int)) by {
                                        assert(nodes@[i as int].children@[k as int]@ == nodes@[b as int].id@);
                                        assert(old_rank[i as int] <= count);
                                    }
                                    assert forall|x: int| 0 <= x < nodes@.len() && #[trigger] m@[x] implies
                                        in_ids(seeds@, nodes@[x].id@) || (!in_ids(blocked@, nodes@[x].id@)
                                        && has_marked_parent(nodes@, m@, rank, x)) by {
                                        if x != b {
                                            assert(old_m[x]);
                                            if !in_ids(seeds@, nodes@[x].id@) {
                                                let (pi, pk) = choose|pi: int, pk: int|
                                                    0 <= pi < nodes@.len() && old_m[pi] && 0 <= pk < nodes@[pi].children@.len()
                                                        && (#[trigger] nodes@[pi].children@[pk])@ == nodes@[x].id@
                                                        && old_rank[pi] < old_rank[x];
                                                assert(m@[pi]);
                                                assert(pi != b);
                                                assert(rank[pi] == old_rank[pi] && rank[x] == old_rank[x]);
                                            }
                                        }
                                    }
                                    count = count + 1;
                                }
                                changed = true;
                            }
                            b = b + 1;
                        }
                    }
                    k = k + 1;
                }
            }
            i = i + 1;
        }
        if !changed {
            break;
        }
    }
    m
}

/// A snapshot of the store: commits, each pointing at its parents, with the
/// root tree of each; trees and blobs, each tree pointing at its entries and
/// each flagged as a tree or a blob; and annotated tags, each pointing at
/// the object it tags.
#[derive(Debug, Clone)]
pub struct ObjectGraph {
    pub commits: Vec<Node>,
    pub commit_trees: Vec<SHA1>,
    pub objects: Vec<Node>,
    pub object_is_tree: Vec<bool>,
    pub tags: Vec<Node>,
}

/// No two nodes share an identifier.
pub open spec fn distinct_ids(nodes: Seq<Node>) -> bool {
    forall|a: int, b: int| 0 <= a < b < nodes.len() ==> nodes[a].id@ != nodes[b].id@
}

impl ObjectGraph {
    /// Each commit has one root tree, each object one kind, and no
    /// identifier is stored twice among the commits, among the trees and
    /// blobs, or among the tags.
    pub open spec fn wf(&self) -> bool {
        &&& self.commits@.len() == self.commit_trees@.len()
        &&& self.objects@.len() == self.object_is_tree@.len()
        &&& distinct_ids(self.commits@)
        &&& distinct_ids(self.objects@)
        &&& distinct_ids(self.tags@)
    }

    /// Whether the snapshot is well formed.
    pub fn is_wf(&self) -> (r: bool)
        ensures
            r == self.wf(),
    {
        if self.commits.len() != self.commit_trees.len() || self.objects.len() != self.object_is_tree.len() {
            return false;
        }
        all_distinct(&self.commits) && all_distinct(&self.objects) && all_distinct(&self.tags)
    }
}

/// Whether no two of `nodes` share an identifier.
pub fn all_distinct(nodes: &Vec<Node>) -> (r: bool)
    ensures
        r == distinct_ids(nodes@),
{
    let n = nodes.len();
    let mut a: usize = 0;
    while a < n
        invariant
            n == nodes@.len(),
            a <= n,
            forall|x: int, y: int| 0 <= x < a && x < y < n ==> nodes@[x].id@ != nodes@[y].id@,
        decreases n - a,
    {
        let mut b: usize = a + 1;
        while b < n
            invariant
                n == nodes@.len(),
                a < n,
                a < b,
                forall|x: int, y: int| 0 <= x < a && x < y < n ==> nodes@[x].id@ != nodes@[y].id@,
                forall|y: int| a < y < b ==> nodes@[a as int].id@ != nodes@[y].id@,
            decreases n - b,
        {
            if nodes[a].id == nodes[b].id {
                return false;
            }
            b = b + 1;
        }
        a = a + 1;
    }
    true
}

/// What a fetch sends, as marks over the snapshot's commits and objects,
/// and the objects found to be known to the client already.
#[derive(Debug, Clone)]
pub struct FetchPlan {
    pub have_commits: Vec<bool>,
    pub send_commits: Vec<bool>,
    pub known_objects: Vec<bool>,
    pub send_objects: Vec<bool>,
}

/// The ids of the marked nodes.
pub open spec fn marked_ids(nodes: Seq<Node>, m: Seq<bool>) -> Seq<SHA1>
    decreases nodes.len(),
{
    if nodes.len() == 0 || m.len() != nodes.len() {
        Seq::empty()
    } else if m.last() {
        marked_ids(nodes.drop_last(), m.drop_last()).push(nodes.last().id)
    } else {
        marked_ids(nodes.drop_last(), m.drop_last())
    }
}

/// The root trees of the marked commits.
pub open spec fn marked_trees(trees: Seq<SHA1>, m: Seq<bool>) -> Seq<SHA1>
    decreases trees.len(),
{
    if trees.len() == 0 || m.len() != trees.len() {
        Seq::empty()
    } else if m.last() {
        marked_trees(trees.drop_last(), m.drop_last()).push(trees.last())
    } else {
        marked_trees(trees.drop_last(), m.drop_last())
    }
}

/// The ids that `m` marks among `nodes`, in order.
pub fn selected_ids(nodes: &Vec<Node>, m: &Vec<bool>) -> (r: Vec<SHA1>)
    requires
        m@.len() == nodes@.len(),
    ensures
        r@ == marked_ids(nodes@, m@),
{
    let mut r: Vec<SHA1> = Vec::new();
    let mut i: usize = 0;
    while i < nodes.len()
        invariant
            i <= nodes@.len(),
            m@.len() == nodes@.len(),
            r@ == marked_ids(nodes@.subrange(0, i as int), m@.subrange(0, i as int)),
        decreases nodes@.len() - i,
    {
        assert(nodes@.subrange(0, i + 1).drop_last() =~= nodes@.subrange(0, i as int));
        assert(m@.subrange(0, i + 1).drop_last() =~= m@.subrange(0, i as int));
        if m[i] {
            r.push(nodes[i].id);
        }
        i = i + 1;
    }
    assert(nodes@.subrange(0, i as int) =~= nodes@);
    assert(m@.subrange(0, i as int) =~= m@);
    r
}

fn selected_trees(trees: &Vec<SHA1>, m: &Vec<bool>) -> (r: Vec<SHA1>)
    requires
        m@.len() == trees@.len(),
    ensures
        r@ == marked_trees(trees@, m@),
{
    let mut r: Vec<SHA1> = Vec::new();
    let mut i: usize = 0;
    while i < trees.len()
        invariant
            i <= trees@.len(),
            m@.len() == trees@.len(),
            r@ == marked_trees(trees@.subrange(0, i as int), m@.subrange(0, i as int)),
        decreases trees@.len() - i,
    {
        assert(trees@.subrange(0, i + 1).drop_last() =~= trees@.subrange(0, i as int));
        assert(m@.subrange(0, i + 1).drop_last() =~= m@.subrange(0, i as int));
        if m[i] {
            r.push(trees[i]);
        }
        i = i + 1;
    }
    assert(trees@.subrange(0, i as int) =~= trees@);
    assert(m@.subrange(0, i as int) =~= m@);
    r
}

/// The ids of `v` that are not among `drop`, in order.
pub open spec fn without(v: Seq<SHA1>, drop: Seq<SHA1>) -> Seq<SHA1>
    decreases v.len(),
{
    if v.len() == 0 {
        Seq::empty()
    } else if in_ids(drop, v.last()@) {
        without(v.drop_last(), drop)
    } else {
        without(v.drop_last(), drop).push(v.last())
    }
}

fn remove_ids(v: &Vec<SHA1>, drop: &Vec<SHA1>) -> (r: Vec<SHA1>)
    ensures
        r@ == without(v@, drop@),
{
    let mut r: Vec<SHA1> = Vec::new();
    let mut i: usize = 0;
    while i < v.len()
        invariant
            i <= v@.len(),
            r@ == without(v@.subrange(0, i as int), drop@),
        decreases v@.len() - i,
    {
        assert(v@.subrange(0, i + 1).drop_last() =~= v@.subrange(0, i as int));
        if !contains_id(drop, &v[i]) {
            r.push(v[i]);
        }
        i = i + 1;
    }
    assert(v@.subrange(0, i as int) =~= v@);
    r
}

/// The client has the commits `have` and asks for `want`. The commits it
/// has are `have` and every ancestor of them in the snapshot (a `have` hash
/// that names no commit of the snapshot is ignored). The commits to send
/// are the wanted ones it does not have, and every ancestor reached from
/// them without passing through a commit it has. The objects it has are
/// those reached from the root trees of the commits it has; the objects to
/// send are those reached from the root trees of the commits to send
/// without passing through an object it has.
pub open spec fn fetch_plan_ok(g: ObjectGraph, want: Seq<SHA1>, have: Seq<SHA1>, p: FetchPlan) -> bool {
    let had = marked_ids(g.commits@, p.have_commits@);
    let wanted = without(want, had);
    let known_seeds = marked_trees(g.commit_trees@, p.have_commits@);
    let known = marked_ids(g.objects@, p.known_objects@);
    let want_trees = without(marked_trees(g.commit_trees@, p.send_commits@), known);
    &&& p.have_commits@.len() == g.commits@.len()
    &&& p.send_commits@.len() == g.commits@.len()
    &&& p.known_objects@.len() == g.objects@.len()
    &&& p.send_objects@.len() == g.objects@.len()
    &&& seeded(g.commits@, p.have_commits@, have)
    &&& closed(g.commits@, p.have_commits@, Seq::empty())
    &&& justified(g.commits@, p.have_commits@, have, Seq::empty())
    &&& seeded(g.commits@, p.send_commits@, wanted)
    &&& closed(g.commits@, p.send_commits@, had)
    &&& justified(g.commits@, p.send_commits@, wanted, had)
    &&& seeded(g.objects@, p.known_objects@, known_seeds)
    &&& closed(g.objects@, p.known_objects@, Seq::empty())
    &&& justified(g.objects@, p.known_objects@, known_seeds, Seq::empty())
    &&& seeded(g.objects@, p.send_objects@, want_trees)
    &&& closed(g.objects@, p.send_objects@, known)
    &&& justified(g.objects@, p.send_objects@, want_trees, known)
}

/// Plans an incremental fetch of `want` for a client that has `have`.
pub fn incremental_pack(g: &ObjectGraph, want: &Vec<SHA1>, have: &Vec<SHA1>) -> (r: FetchPlan)
    requires
        g.wf(),
    ensures
        fetch_plan_ok(*g, want@, have@, r),
{
    let empty: Vec<SHA1> = Vec::new();
    assert(empty@ =~= Seq::<SHA1>::empty());
    let have_commits = reach(&g.commits, have, &empty);
    let had = selected_ids(&g.commits, &have_commits);
    let wanted = remove_ids(want, &had);
    let send_commits = reach(&g.commits, &wanted, &had);
    let known_seeds = selected_trees(&g.commit_trees, &have_commits);
    let known_objects = reach(&g.objects, &known_seeds, &empty);
    let known = selected_ids(&g.objects, &known_objects);
    let all_trees = selected_trees(&g.commit_trees, &send_commits);
    let want_trees = remove_ids(&all_trees, &known);
    let send_objects = reach(&g.objects, &want_trees, &known);
    FetchPlan { have_commits, send_commits, known_objects, send_objects }
}

/// The identifiers `ids`, each with the kind `k`.
pub open spec fn with_kind(ids: Seq<SHA1>, k: ObjectType) -> Seq<(ObjectType, SHA1)> {
    ids.map_values(|h: SHA1| (k, h))
}

/// The marks `m` kept only where the tree flag is `tree`.
pub open spec fn of_kind(flags: Seq<bool>, tree: bool, m: Seq<bool>) -> Seq<bool> {
    Seq::new(m.len(), |i: int| m[i] && flags[i] == tree)
}

/// Every mark set.
pub open spec fn all_marks(n: nat) -> Seq<bool> {
    Seq::new(n, |i: int| true)
}

fn tag_ids(ids: Vec<SHA1>, k: ObjectType) -> (r: Vec<(ObjectType, SHA1)>)
    ensures
        r@ == with_kind(ids@, k),
{
    let mut r: Vec<(ObjectType, SHA1)> = Vec::new();
    let mut i: usize = 0;
    while i < ids.len()
        invariant
            i <= ids@.len(),
            r@ == with_kind(ids@.subrange(0, i as int), k),
        decreases ids@.len() - i,
    {
        r.push((k, ids[i]));
        assert(with_kind(ids@.subrange(0, i + 1), k) =~= with_kind(ids@.subrange(0, i as int), k).push((k, ids@[i as int])));
        i = i + 1;
    }
    assert(ids@.subrange(0, i as int) =~= ids@);
    r
}

fn select_kind(flags: &Vec<bool>, tree: bool, m: &Vec<bool>) -> (r: Vec<bool>)
    requires
        flags@.len() == m@.len(),
    ensures
        r@ == of_kind(flags@, tree, m@),
{
    let mut r: Vec<bool> = Vec::new();
    let mut i: usize = 0;
    while i < m.len()
        invariant
            i <= m@.len(),
            flags@.len() == m@.len(),
            r@ == of_kind(flags@, tree, m@).subrange(0, i as int),
        decreases m@.len() - i,
    {
        r.push(m[i] && flags[i] == tree);
        assert(of_kind(flags@, tree, m@).subrange(0, i + 1) =~= of_kind(flags@, tree, m@).subrange(0, i as int).push(m@[i as int] && flags@[i as int] == tree));
        i = i + 1;
    }
    assert(of_kind(flags@, tree, m@).subrange(0, i as int) =~= of_kind(flags@, tree, m@));
    r
}

fn every(n: usize) -> (r: Vec<bool>)
    ensures
        r@ == all_marks(n as nat),
{
    let mut r: Vec<bool> = Vec::new();
    let mut j: usize = 0;
    while j < n
        invariant
            j <= n,
            r@ =~= all_marks(j as nat),
        decreases n - j,
    {
        r.push(true);
        j = j + 1;
    }
    r
}

/// Plans a full fetch: every commit, then every tree, then every blob, then
/// every tag of the snapshot, each with its kind.
pub fn full_pack(g: &ObjectGraph) -> (r: Vec<(ObjectType, SHA1)>)
    requires
        g.wf(),
    ensures
        r@ == with_kind(marked_ids(g.commits@, all_marks(g.commits@.len())), ObjectType::Commit)
            + with_kind(marked_ids(g.objects@, of_kind(g.object_is_tree@, true, all_marks(g.objects@.len()))), ObjectType::Tree)
            + with_kind(marked_ids(g.objects@, of_kind(g.object_is_tree@, false, all_marks(g.objects@.len()))), ObjectType::Blob)
            + with_kind(marked_ids(g.tags@, all_marks(g.tags@.len())), ObjectType::Tag),
{
    let all_c = every(g.commits.len());
    let all_o = every(g.objects.len());
    let all_t = every(g.tags.len());
    emit(g, &all_c, &all_o, &all_t)
}

/// Lists the marked objects for a pack: the marked commits, then trees,
/// then blobs, then tags, each with its kind.
fn emit(g: &ObjectGraph, commits: &Vec<bool>, objects: &Vec<bool>, tags: &Vec<bool>) -> (r: Vec<(ObjectType, SHA1)>)
    requires
        g.wf(),
        commits@.len() == g.commits@.len(),
        objects@.len() == g.objects@.len(),
        tags@.len() == g.tags@.len(),
    ensures
        r@ == with_kind(marked_ids(g.commits@, commits@), ObjectType::Commit)
            + with_kind(marked_ids(g.objects@, of_kind(g.object_is_tree@, true, objects@)), ObjectType::Tree)
            + with_kind(marked_ids(g.objects@, of_kind(g.object_is_tree@, false, objects@)), ObjectType::Blob)
            + with_kind(marked_ids(g.tags@, tags@), ObjectType::Tag),
{
    let trees = select_kind(&g.object_is_tree, true, objects);
    let blobs = select_kind(&g.object_is_tree, false, objects);
    let mut r = tag_ids(selected_ids(&g.commits, commits), ObjectType::Commit);
    let mut t = tag_ids(selected_ids(&g.objects, &trees), ObjectType::Tree);
    let mut b = tag_ids(selected_ids(&g.objects, &blobs), ObjectType::Blob);
    let mut a = tag_ids(selected_ids(&g.tags, tags), ObjectType::Tag);
    r.append(&mut t);
    r.append(&mut b);
    r.append(&mut a);
    r
}

/// Lists the marked objects in the order a fetch sends them: trees, then
/// blobs, so that every commit comes after its whole tree; then commits;
/// then tags.
fn emit_fetch(g: &ObjectGraph, commits: &Vec<bool>, objects: &Vec<bool>, tags: &Vec<bool>) -> (r: Vec<(ObjectType, SHA1)>)
    requires
        g.wf(),
        commits@.len() == g.commits@.len(),
        objects@.len() == g.objects@.len(),
        tags@.len() == g.tags@.len(),
    ensures
        r@ == with_kind(marked_ids(g.objects@, of_kind(g.object_is_tree@, true, objects@)), ObjectType::Tree)
            + with_kind(marked_ids(g.objects@, of_kind(g.object_is_tree@, false, objects@)), ObjectType::Blob)
            + with_kind(marked_ids(g.commits@, commits@), ObjectType::Commit)
            + with_kind(marked_ids(g.tags@, tags@), ObjectType::Tag),
{
    let trees = select_kind(&g.object_is_tree, true, objects);
    let blobs = select_kind(&g.object_is_tree, false, objects);
    let mut r = tag_ids(selected_ids(&g.objects, &trees), ObjectType::Tree);
    let mut b = tag_ids(selected_ids(&g.objects, &blobs), ObjectType::Blob);
    let mut c = tag_ids(selected_ids(&g.commits, commits), ObjectType::Commit);
    let mut a = tag_ids(selected_ids(&g.tags, tags), ObjectType::Tag);
    r.append(&mut b);
    r.append(&mut c);
    r.append(&mut a);
    r
}

/// A tag goes with a fetch when it points at a commit that is sent.
pub open spec fn tag_sent(tag: Node, sent: Seq<SHA1>) -> bool {
    exists|k: int| 0 <= k < tag.children@.len() && in_ids(sent, (#[trigger] tag.children@[k])@)
}

fn mark_tags(tags: &Vec<Node>, sent: &Vec<SHA1>) -> (r: Vec<bool>)
    ensures
        r@.len() == tags@.len(),
        forall|i: int| 0 <= i < tags@.len() ==> r@[i] == tag_sent(#[trigger] tags@[i], sent@),
{
    let mut r: Vec<bool> = Vec::new();
    let mut i: usize = 0;
    while i < tags.len()
        invariant
            i <= tags@.len(),
            r@.len() == i,
            forall|x: int| 0 <= x < i ==> r@[x] == tag_sent(#[trigger] tags@[x], sent@),
        decreases tags@.len() - i,
    {
        let kids = &tags[i].children;
        let mut found = false;
        let mut k: usize = 0;
        while k < kids.len()
            invariant
                k <= kids@.len(),
                kids == &tags@[i as int].children,
                found == exists|y: int| 0 <= y < k && in_ids(sent@, (#[trigger] kids@[y])@),
            decreases kids@.len() - k,
        {
            if contains_id(sent, &kids[k]) {
                found = true;
            }
            k = k + 1;
        }
        r.push(found);
        i = i + 1;
    }
    r
}

/// The objects an incremental fetch sends, in order: the trees and blobs of
/// `plan` (trees first, each group in snapshot order), then its commits,
/// then the tags that point at a sent commit.
///
/// Every commit thus follows the whole closure of its tree, and tags come
/// last. Entries are written whole, never as deltas, so a receiver needs no
/// particular order among the trees and blobs themselves; grouping by kind
/// keeps the order a plain function of the snapshot instead of the
/// depth-first walk of each commit's tree.
pub fn fetch_order(g: &ObjectGraph, plan: &FetchPlan) -> (r: Vec<(ObjectType, SHA1)>)
    requires
        g.wf(),
        plan.send_commits@.len() == g.commits@.len(),
        plan.send_objects@.len() == g.objects@.len(),
    ensures
        exists|tags: Seq<bool>|
            tags.len() == g.tags@.len() && (forall|i: int| 0 <= i < tags.len() ==> tags[i] == tag_sent(
                #[trigger] g.tags@[i],
                marked_ids(g.commits@, plan.send_commits@),
            )) && r@ == with_kind(marked_ids(g.objects@, of_kind(g.object_is_tree@, true, plan.send_objects@)), ObjectType::Tree)
                + with_kind(marked_ids(g.objects@, of_kind(g.object_is_tree@, false, plan.send_objects@)), ObjectType::Blob)
                + with_kind(marked_ids(g.commits@, plan.send_commits@), ObjectType::Commit)
                + with_kind(marked_ids(g.tags@, tags), ObjectType::Tag),
{
    let sent = selected_ids(&g.commits, &plan.send_commits);
    let tags = mark_tags(&g.tags, &sent);
    emit_fetch(g, &plan.send_commits, &plan.send_objects, &tags)
}

/// `h` is the identifier of a marked node.
pub open spec fn is_marked_id(nodes: Seq<Node>, m: Seq<bool>, h: SHA1) -> bool {
    exists|j: int| 0 <= j < nodes.len() && m[j] && h == #[trigger] nodes[j].id
}

proof fn lemma_marked_ids_from_nodes(nodes: Seq<Node>, m: Seq<bool>)
    ensures
        forall|x: int| 0 <= x < marked_ids(nodes, m).len() ==> is_marked_id(nodes, m, #[trigger] marked_ids(nodes, m)[x]),
    decreases nodes.len(),
{
    if nodes.len() > 0 && m.len() == nodes.len() {
        let n2 = nodes.drop_last();
        let m2 = m.drop_last();
        lemma_marked_ids_from_nodes(n2, m2);
        let r = marked_ids(nodes, m);
        let r2 = marked_ids(n2, m2);
        assert forall|x: int| 0 <= x < r.len() implies is_marked_id(nodes, m, #[trigger] r[x]) by {
            if x < r2.len() {
                assert(r[x] == r2[x]);
                assert(is_marked_id(n2, m2, r2[x]));
                let j = choose|j: int| 0 <= j < n2.len() && m2[j] && r2[x] == #[trigger] n2[j].id;
                assert(nodes[j] == n2[j] && m[j] == m2[j]);
            } else {
                let j = nodes.len() - 1;
                assert(r[x] == nodes[j].id);
                assert(m[j]);
            }
        }
    }
}

/// Where no two nodes share an identifier, no identifier is listed twice:
/// each object goes into a pack at most once.
pub proof fn lemma_marked_ids_distinct(nodes: Seq<Node>, m: Seq<bool>)
    requires
        forall|a: int, b: int| 0 <= a < b < nodes.len() ==> nodes[a].id@ != nodes[b].id@,
    ensures
        forall|a: int, b: int|
            0 <= a < b < marked_ids(nodes, m).len() ==> marked_ids(nodes, m)[a]@ != marked_ids(nodes, m)[b]@,
    decreases nodes.len(),
{
    if nodes.len() > 0 && m.len() == nodes.len() {
        let n2 = nodes.drop_last();
        let m2 = m.drop_last();
        assert forall|a: int, b: int| 0 <= a < b < n2.len() implies n2[a].id@ != n2[b].id@ by {
            assert(n2[a] == nodes[a] && n2[b] == nodes[b]);
        }
        lemma_marked_ids_distinct(n2, m2);
        lemma_marked_ids_from_nodes(n2, m2);
        let r = marked_ids(nodes, m);
        let r2 = marked_ids(n2, m2);
        if m.last() {
            assert forall|a: int, b: int| 0 <= a < b < r.len() implies r[a]@ != r[b]@ by {
                if b == r.len() - 1 {
                    assert(is_marked_id(n2, m2, r2[a]));
                    let j = choose|j: int| 0 <= j < n2.len() && m2[j] && r2[a] == #[trigger] n2[j].id;
                    assert(r[a] == r2[a]);
                    assert(n2[j] == nodes[j]);
                    assert(r[b] == nodes[nodes.len() - 1].id);
                } else {
                    assert(r[a] == r2[a] && r[b] == r2[b]);
                }
            }
        }
    }
}

/// A `have` hash that names no commit of the snapshot changes nothing: the
/// plans that meet the contract are the same with it and without it.
pub proof fn lemma_unknown_have_ignored(g: ObjectGraph, want: Seq<SHA1>, have: Seq<SHA1>, x: SHA1, p: FetchPlan)
    requires
        forall|j: int| 0 <= j < g.commits@.len() ==> (#[trigger] g.commits@[j]).id@ != x@,
    ensures
        fetch_plan_ok(g, want, have.push(x), p) == fetch_plan_ok(g, want, have, p),
{
    let h2 = have.push(x);
    let hc = p.have_commits@;
    assert forall|j: int| 0 <= j < g.commits@.len() implies in_ids(h2, (#[trigger] g.commits@[j]).id@) == in_ids(have, g.commits@[j].id@) by {
        if in_ids(h2, g.commits@[j].id@) {
            let i = choose|i: int| 0 <= i < h2.len() && (#[trigger] h2[i])@ == g.commits@[j].id@;
            assert(i < have.len());
            assert(have[i] == h2[i]);
        }
        if in_ids(have, g.commits@[j].id@) {
            let i = choose|i: int| 0 <= i < have.len() && (#[trigger] have[i])@ == g.commits@[j].id@;
            assert(h2[i] == have[i]);
        }
    }
    assert(seeded(g.commits@, hc, h2) == seeded(g.commits@, hc, have));
    assert(justified(g.commits@, hc, h2, Seq::empty()) == justified(g.commits@, hc, have, Seq::empty())) by {
        if justified(g.commits@, hc, h2, Seq::empty()) {
            let rank = choose|rank: Seq<nat>| ranked(g.commits@, hc, h2, Seq::empty(), rank);
            assert(ranked(g.commits@, hc, have, Seq::empty(), rank));
        }
        if justified(g.commits@, hc, have, Seq::empty()) {
            let rank = choose|rank: Seq<nat>| ranked(g.commits@, hc, have, Seq::empty(), rank);
            assert(ranked(g.commits@, hc, h2, Seq::empty(), rank));
        }
    }
}

proof fn lemma_marked_in_ids(nodes: Seq<Node>, m: Seq<bool>, j: int)
    requires
        m.len() == nodes.len(),
        0 <= j < nodes.len(),
        m[j],
    ensures
        in_ids(marked_ids(nodes, m), nodes[j].id@),
    decreases nodes.len(),
{
    let r = marked_ids(nodes, m);
    if j == nodes.len() - 1 {
        assert(r.last() == nodes[j].id);
    } else {
        let n2 = nodes.drop_last();
        let m2 = m.drop_last();
        assert(n2[j] == nodes[j] && m2[j] == m[j]);
        lemma_marked_in_ids(n2, m2, j);
        let r2 = marked_ids(n2, m2);
        let i = choose|i: int| 0 <= i < r2.len() && (#[trigger] r2[i])@ == n2[j].id@;
        assert(r[i] == r2[i]);
    }
}

proof fn lemma_without(v: Seq<SHA1>, drop: Seq<SHA1>, h: Seq<u8>)
    ensures
        in_ids(without(v, drop), h) ==> !in_ids(drop, h),
    decreases v.len(),
{
    if v.len() > 0 {
        lemma_without(v.drop_last(), drop, h);
        let w = without(v, drop);
        let w2 = without(v.drop_last(), drop);
        if in_ids(w, h) {
            let i = choose|i: int| 0 <= i < w.len() && (#[trigger] w[i])@ == h;
            if !in_ids(drop, v.last()@) && i == w.len() - 1 {
                assert(w[i] == v.last());
            } else {
                assert(w[i] == w2[i]);
            }
        }
    }
}

/// Nothing the client has is sent: no commit it has (ancestors of `have`
/// included), and no object reached from the trees of those commits.
pub proof fn lemma_plan_sends_nothing_known(g: ObjectGraph, want: Seq<SHA1>, have: Seq<SHA1>, p: FetchPlan)
    requires
        fetch_plan_ok(g, want, have, p),
    ensures
        forall|j: int| 0 <= j < g.commits@.len() && p.send_commits@[j] ==> !(#[trigger] p.have_commits@[j]),
        forall|j: int| 0 <= j < g.objects@.len() && p.send_objects@[j] ==> !(#[trigger] p.known_objects@[j]),
{
    let had = marked_ids(g.commits@, p.have_commits@);
    let wanted = without(want, had);
    let known = marked_ids(g.objects@, p.known_objects@);
    let want_trees = without(marked_trees(g.commit_trees@, p.send_commits@), known);
    assert forall|j: int| 0 <= j < g.commits@.len() && p.send_commits@[j] implies !(#[trigger] p.have_commits@[j]) by {
        if p.have_commits@[j] {
            lemma_marked_in_ids(g.commits@, p.have_commits@, j);
            lemma_without(want, had, g.commits@[j].id@);
            let rank = choose|rank: Seq<nat>| ranked(g.commits@, p.send_commits@, wanted, had, rank);
            assert(p.send_commits@[j]);
        }
    }
    assert forall|j: int| 0 <= j < g.objects@.len() && p.send_objects@[j] implies !(#[trigger] p.known_objects@[j]) by {
        if p.known_objects@[j] {
            lemma_marked_in_ids(g.objects@, p.known_objects@, j);
            lemma_without(marked_trees(g.commit_trees@, p.send_commits@), known, g.objects@[j].id@);
            let rank = choose|rank: Seq<nat>| ranked(g.objects@, p.send_objects@, want_trees, known, rank);
            assert(p.send_objects@[j]);
        }
    }
}

/// Node `j` is reached from `seeds` in at most `n` steps from a node to
/// one it points at.
pub open spec fn reaches(nodes: Seq<Node>, seeds: Seq<SHA1>, j: int, n: nat) -> bool
    decreases n,
{
    0 <= j < nodes.len() && (in_ids(seeds, nodes[j].id@) || (n > 0 && exists|i: int, k: int|
        0 <= i < nodes.len() && 0 <= k < nodes[i].children@.len()
            && (#[trigger] nodes[i].children@[k])@ == nodes[j].id@ && reaches(nodes, seeds, i, (n - 1) as nat)))
}

/// Marks that hold their seeds and are closed hold everything the seeds
/// reach.
pub proof fn lemma_closed_holds_reach(nodes: Seq<Node>, m: Seq<bool>, seeds: Seq<SHA1>, j: int, n: nat)
    requires
        m.len() == nodes.len(),
        seeded(nodes, m, seeds),
        closed(nodes, m, Seq::empty()),
        reaches(nodes, seeds, j, n),
    ensures
        m[j],
    decreases n,
{
    if !in_ids(seeds, nodes[j].id@) {
        let (i, k) = choose|i: int, k: int|
            0 <= i < nodes.len() && 0 <= k < nodes[i].children@.len()
                && (#[trigger] nodes[i].children@[k])@ == nodes[j].id@ && reaches(nodes, seeds, i, (n - 1) as nat);
        lemma_closed_holds_reach(nodes, m, seeds, i, (n - 1) as nat);
        assert(!in_ids(Seq::<SHA1>::empty(), nodes[j].id@));
    }
}

proof fn lemma_in_ids_marked(nodes: Seq<Node>, m: Seq<bool>, j: int)
    requires
        distinct_ids(nodes),
        m.len() == nodes.len(),
        0 <= j < nodes.len(),
        in_ids(marked_ids(nodes, m), nodes[j].id@),
    ensures
        m[j],
{
    lemma_marked_ids_from_nodes(nodes, m);
    let r = marked_ids(nodes, m);
    let x = choose|x: int| 0 <= x < r.len() && (#[trigger] r[x])@ == nodes[j].id@;
    assert(is_marked_id(nodes, m, r[x]));
    let y = choose|y: int| 0 <= y < nodes.len() && m[y] && r[x] == #[trigger] nodes[y].id;
    assert(y == j);
}

/// Marks `m` that are closed except at the nodes marked `k` hold every
/// node outside `k` that is reached from `raw`, where `k` is itself closed
/// and `m` holds every node of `raw` outside `k`.
pub proof fn lemma_blocked_holds_reach(
    nodes: Seq<Node>,
    m: Seq<bool>,
    k: Seq<bool>,
    raw: Seq<SHA1>,
    j: int,
    n: nat,
)
    requires
        distinct_ids(nodes),
        m.len() == nodes.len(),
        k.len() == nodes.len(),
        closed(nodes, k, Seq::empty()),
        closed(nodes, m, marked_ids(nodes, k)),
        forall|x: int| 0 <= x < nodes.len() && in_ids(raw, (#[trigger] nodes[x]).id@) && !k[x] ==> m[x],
        reaches(nodes, raw, j, n),
        !k[j],
    ensures
        m[j],
    decreases n,
{
    if !in_ids(raw, nodes[j].id@) {
        let (i, c) = choose|i: int, c: int|
            0 <= i < nodes.len() && 0 <= c < nodes[i].children@.len()
                && (#[trigger] nodes[i].children@[c])@ == nodes[j].id@ && reaches(nodes, raw, i, (n - 1) as nat);
        assert(!in_ids(Seq::<SHA1>::empty(), nodes[j].id@));
        if k[i] {
            assert(k[j]);
        }
        lemma_blocked_holds_reach(nodes, m, k, raw, i, (n - 1) as nat);
        if in_ids(marked_ids(nodes, k), nodes[j].id@) {
            lemma_in_ids_marked(nodes, k, j);
        }
    }
}

proof fn lemma_without_keeps(v: Seq<SHA1>, drop: Seq<SHA1>, h: Seq<u8>)
    requires
        in_ids(v, h),
        !in_ids(drop, h),
    ensures
        in_ids(without(v, drop), h),
    decreases v.len(),
{
    let i = choose|i: int| 0 <= i < v.len() && (#[trigger] v[i])@ == h;
    let w = without(v, drop);
    if i == v.len() - 1 {
        assert(v.last()@ == h);
        assert(w.last() == v.last());
    } else {
        assert(v.drop_last()[i] == v[i]);
        lemma_without_keeps(v.drop_last(), drop, h);
        let w2 = without(v.drop_last(), drop);
        let x = choose|x: int| 0 <= x < w2.len() && (#[trigger] w2[x])@ == h;
        assert(w[x] == w2[x]);
    }
}

/// Every commit that `want` reaches and that the client does not have is
/// sent; every commit that `have` reaches is one the client has.
pub proof fn lemma_plan_covers_commits(g: ObjectGraph, want: Seq<SHA1>, have: Seq<SHA1>, p: FetchPlan, j: int, n: nat)
    requires
        g.wf(),
        fetch_plan_ok(g, want, have, p),
    ensures
        reaches(g.commits@, have, j, n) ==> p.have_commits@[j],
        reaches(g.commits@, want, j, n) && !p.have_commits@[j] ==> p.send_commits@[j],
{
    let had = marked_ids(g.commits@, p.have_commits@);
    let wanted = without(want, had);
    if reaches(g.commits@, have, j, n) {
        lemma_closed_holds_reach(g.commits@, p.have_commits@, have, j, n);
    }
    if reaches(g.commits@, want, j, n) && !p.have_commits@[j] {
        assert forall|x: int| 0 <= x < g.commits@.len() && in_ids(want, (#[trigger] g.commits@[x]).id@)
            && !p.have_commits@[x] implies p.send_commits@[x] by {
            if in_ids(had, g.commits@[x].id@) {
                lemma_in_ids_marked(g.commits@, p.have_commits@, x);
            }
            lemma_without_keeps(want, had, g.commits@[x].id@);
        }
        lemma_blocked_holds_reach(g.commits@, p.send_commits@, p.have_commits@, want, j, n);
    }
}

proof fn lemma_marked_trees_in(trees: Seq<SHA1>, m: Seq<bool>, c: int)
    requires
        m.len() == trees.len(),
        0 <= c < trees.len(),
        m[c],
    ensures
        in_ids(marked_trees(trees, m), trees[c]@),
    decreases trees.len(),
{
    let r = marked_trees(trees, m);
    if c == trees.len() - 1 {
        assert(r.last() == trees[c]);
    } else {
        let t2 = trees.drop_last();
        let m2 = m.drop_last();
        assert(t2[c] == trees[c] && m2[c] == m[c]);
        lemma_marked_trees_in(t2, m2, c);
        let r2 = marked_trees(t2, m2);
        let i = choose|i: int| 0 <= i < r2.len() && (#[trigger] r2[i])@ == t2[c]@;
        assert(r[i] == r2[i]);
    }
}

proof fn lemma_reaches_more_seeds(nodes: Seq<Node>, s1: Seq<SHA1>, s2: Seq<SHA1>, j: int, n: nat)
    requires
        forall|x: int| 0 <= x < nodes.len() && in_ids(s1, (#[trigger] nodes[x]).id@) ==> in_ids(s2, nodes[x].id@),
        reaches(nodes, s1, j, n),
    ensures
        reaches(nodes, s2, j, n),
    decreases n,
{
    if !in_ids(s1, nodes[j].id@) {
        let (i, k) = choose|i: int, k: int|
            0 <= i < nodes.len() && 0 <= k < nodes[i].children@.len()
                && (#[trigger] nodes[i].children@[k])@ == nodes[j].id@ && reaches(nodes, s1, i, (n - 1) as nat);
        lemma_reaches_more_seeds(nodes, s1, s2, i, (n - 1) as nat);
    }
}

/// Of the trees and blobs that the root tree of a commit `c` reaches: if
/// `have` reaches `c`, the client has them all; if `want` reaches `c`, each
/// one the client does not have is sent.
pub proof fn lemma_plan_covers_objects(
    g: ObjectGraph,
    want: Seq<SHA1>,
    have: Seq<SHA1>,
    p: FetchPlan,
    c: int,
    n: nat,
    j: int,
    n2: nat,
)
    requires
        g.wf(),
        fetch_plan_ok(g, want, have, p),
        0 <= c < g.commits@.len(),
        reaches(g.objects@, seq![g.commit_trees@[c]], j, n2),
    ensures
        reaches(g.commits@, have, c, n) ==> p.known_objects@[j],
        reaches(g.commits@, want, c, n) && !p.known_objects@[j] ==> p.send_objects@[j],
{
    let t = g.commit_trees@[c];
    let raw = seq![t];
    let known_seeds = marked_trees(g.commit_trees@, p.have_commits@);
    let known = marked_ids(g.objects@, p.known_objects@);
    let want_trees = without(marked_trees(g.commit_trees@, p.send_commits@), known);
    assert forall|h: Seq<u8>| in_ids(raw, h) implies h == t@ by {
        let i = choose|i: int| 0 <= i < raw.len() && (#[trigger] raw[i])@ == h;
    }
    lemma_plan_covers_commits(g, want, have, p, c, n);
    if p.have_commits@[c] {
        lemma_marked_trees_in(g.commit_trees@, p.have_commits@, c);
        lemma_reaches_more_seeds(g.objects@, raw, known_seeds, j, n2);
        lemma_closed_holds_reach(g.objects@, p.known_objects@, known_seeds, j, n2);
    }
    if reaches(g.commits@, want, c, n) && !p.known_objects@[j] {
        if !p.have_commits@[c] {
            lemma_marked_trees_in(g.commit_trees@, p.send_commits@, c);
            assert forall|x: int| 0 <= x < g.objects@.len() && in_ids(raw, (#[trigger] g.objects@[x]).id@)
                && !p.known_objects@[x] implies p.send_objects@[x] by {
                assert(g.objects@[x].id@ == t@);
                if in_ids(known, t@) {
                    lemma_in_ids_marked(g.objects@, p.known_objects@, x);
                }
                lemma_without_keeps(marked_trees(g.commit_trees@, p.send_commits@), known, t@);
            }
            lemma_blocked_holds_reach(g.objects@, p.send_objects@, p.known_objects@, raw, j, n2);
        }
    }
}

proof fn lemma_reaches_mono(nodes: Seq<Node>, s: Seq<SHA1>, j: int, n: nat, m: nat)
    requires
        n <= m,
        reaches(nodes, s, j, n),
    ensures
        reaches(nodes, s, j, m),
    decreases n,
{
    if !in_ids(s, nodes[j].id@) {
        let (i, k) = choose|i: int, k: int|
            0 <= i < nodes.len() && 0 <= k < nodes[i].children@.len()
                && (#[trigger] nodes[i].children@[k])@ == nodes[j].id@ && reaches(nodes, s, i, (n - 1) as nat);
        lemma_reaches_mono(nodes, s, i, (n - 1) as nat, (m - 1) as nat);
    }
}

proof fn lemma_ranked_reaches(
    nodes: Seq<Node>,
    mk: Seq<bool>,
    seeds: Seq<SHA1>,
    blocked: Seq<SHA1>,
    rank: Seq<nat>,
    j: int,
)
    requires
        ranked(nodes, mk, seeds, blocked, rank),
        0 <= j < nodes.len(),
        mk[j],
    ensures
        reaches(nodes, seeds, j, rank[j]),
    decreases rank[j],
{
    if !in_ids(seeds, nodes[j].id@) {
        assert(has_marked_parent(nodes, mk, rank, j));
        let (i, k) = choose|i: int, k: int|
            0 <= i < nodes.len() && mk[i] && 0 <= k < nodes[i].children@.len()
                && (#[trigger] nodes[i].children@[k])@ == nodes[j].id@ && rank[i] < rank[j];
        lemma_ranked_reaches(nodes, mk, seeds, blocked, rank, i);
        lemma_reaches_mono(nodes, seeds, i, rank[i], (rank[j] - 1) as nat);
    }
}

proof fn lemma_without_sub(v: Seq<SHA1>, drop: Seq<SHA1>, h: Seq<u8>)
    ensures
        in_ids(without(v, drop), h) ==> in_ids(v, h),
    decreases v.len(),
{
    if v.len() > 0 {
        lemma_without_sub(v.drop_last(), drop, h);
        let w = without(v, drop);
        let w2 = without(v.drop_last(), drop);
        if in_ids(w, h) {
            let i = choose|i: int| 0 <= i < w.len() && (#[trigger] w[i])@ == h;
            if !in_ids(drop, v.last()@) && i == w.len() - 1 {
                assert(v[v.len() - 1] == w[i]);
            } else {
                assert(w[i] == w2[i]);
                let x = choose|x: int| 0 <= x < v.drop_last().len() && (#[trigger] v.drop_last()[x])@ == h;
                assert(v[x] == v.drop_last()[x]);
            }
        }
    }
}

proof fn lemma_marked_trees_from(trees: Seq<SHA1>, m: Seq<bool>, h: Seq<u8>)
    requires
        in_ids(marked_trees(trees, m), h),
    ensures
        exists|c: int| 0 <= c < trees.len() && m[c] && (#[trigger] trees[c])@ == h,
    decreases trees.len(),
{
    let r = marked_trees(trees, m);
    let t2 = trees.drop_last();
    let m2 = m.drop_last();
    let r2 = marked_trees(t2, m2);
    let i = choose|i: int| 0 <= i < r.len() && (#[trigger] r[i])@ == h;
    if m.last() && i == r.len() - 1 {
        assert(trees[trees.len() - 1] == r[i]);
    } else {
        assert(r[i] == r2[i]);
        lemma_marked_trees_from(t2, m2, h);
        let c = choose|c: int| 0 <= c < t2.len() && m2[c] && (#[trigger] t2[c])@ == h;
        assert(trees[c] == t2[c] && m[c] == m2[c]);
    }
}

proof fn lemma_reaches_split(nodes: Seq<Node>, s: Seq<SHA1>, j: int, n: nat)
    requires
        reaches(nodes, s, j, n),
    ensures
        exists|x: int| 0 <= x < s.len() && reaches(nodes, seq![#[trigger] s[x]], j, n),
    decreases n,
{
    if in_ids(s, nodes[j].id@) {
        let x = choose|x: int| 0 <= x < s.len() && (#[trigger] s[x])@ == nodes[j].id@;
        assert(seq![s[x]][0] == s[x]);
        assert(reaches(nodes, seq![s[x]], j, n));
    } else {
        let (i, k) = choose|i: int, k: int|
            0 <= i < nodes.len() && 0 <= k < nodes[i].children@.len()
                && (#[trigger] nodes[i].children@[k])@ == nodes[j].id@ && reaches(nodes, s, i, (n - 1) as nat);
        lemma_reaches_split(nodes, s, i, (n - 1) as nat);
        let x = choose|x: int| 0 <= x < s.len() && reaches(nodes, seq![#[trigger] s[x]], i, (n - 1) as nat);
        assert(reaches(nodes, seq![s[x]], j, n));
    }
}

/// What a plan marks is what the walks reach: a commit the client has is
/// reached from `have`; a commit sent is reached from `want`; an object
/// the client has, or that is sent, is reached from the root tree of such
/// a commit.
pub proof fn lemma_plan_sound(g: ObjectGraph, want: Seq<SHA1>, have: Seq<SHA1>, p: FetchPlan, j: int)
    requires
        g.wf(),
        fetch_plan_ok(g, want, have, p),
    ensures
        0 <= j < g.commits@.len() && p.have_commits@[j] ==> exists|n: nat| reaches(g.commits@, have, j, n),
        0 <= j < g.commits@.len() && p.send_commits@[j] ==> exists|n: nat| reaches(g.commits@, want, j, n),
        0 <= j < g.objects@.len() && p.known_objects@[j] ==> exists|c: int, n: nat, n2: nat|
            #![trigger reaches(g.commits@, have, c, n), reaches(g.objects@, seq![g.commit_trees@[c]], j, n2)]
            0 <= c < g.commits@.len() && reaches(g.commits@, have, c, n)
                && reaches(g.objects@, seq![g.commit_trees@[c]], j, n2),
        0 <= j < g.objects@.len() && p.send_objects@[j] ==> exists|c: int, n: nat, n2: nat|
            #![trigger reaches(g.commits@, want, c, n), reaches(g.objects@, seq![g.commit_trees@[c]], j, n2)]
            0 <= c < g.commits@.len() && reaches(g.commits@, want, c, n)
                && reaches(g.objects@, seq![g.commit_trees@[c]], j, n2),
{
    let had = marked_ids(g.commits@, p.have_commits@);
    let wanted = without(want, had);
    let known_seeds = marked_trees(g.commit_trees@, p.have_commits@);
    let known = marked_ids(g.objects@, p.known_objects@);
    let sent_trees = marked_trees(g.commit_trees@, p.send_commits@);
    let want_trees = without(sent_trees, known);
    let hrank = choose|rank: Seq<nat>| ranked(g.commits@, p.have_commits@, have, Seq::empty(), rank);
    let srank = choose|rank: Seq<nat>| ranked(g.commits@, p.send_commits@, wanted, had, rank);
    assert forall|c: int| 0 <= c < g.commits@.len() && #[trigger] p.have_commits@[c] implies reaches(g.commits@, have, c, hrank[c]) by {
        lemma_ranked_reaches(g.commits@, p.have_commits@, have, Seq::empty(), hrank, c);
    }
    assert forall|c: int| 0 <= c < g.commits@.len() && #[trigger] p.send_commits@[c] implies reaches(g.commits@, want, c, srank[c]) by {
        let rank = srank;
        lemma_ranked_reaches(g.commits@, p.send_commits@, wanted, had, rank, c);
        assert forall|h: Seq<u8>| in_ids(wanted, h) implies in_ids(want, h) by {
            lemma_without_sub(want, had, h);
        }
        lemma_reaches_more_seeds(g.commits@, wanted, want, c, rank[c]);
    }
    if 0 <= j < g.objects@.len() && p.known_objects@[j] {
        let rank = choose|rank: Seq<nat>| ranked(g.objects@, p.known_objects@, known_seeds, Seq::empty(), rank);
        lemma_ranked_reaches(g.objects@, p.known_objects@, known_seeds, Seq::empty(), rank, j);
        lemma_reaches_split(g.objects@, known_seeds, j, rank[j]);
        let x = choose|x: int| 0 <= x < known_seeds.len() && reaches(g.objects@, seq![#[trigger] known_seeds[x]], j, rank[j]);
        lemma_marked_trees_from(g.commit_trees@, p.have_commits@, known_seeds[x]@);
        let c = choose|c: int| 0 <= c < g.commit_trees@.len() && p.have_commits@[c] && (#[trigger] g.commit_trees@[c])@ == known_seeds[x]@;
        assert forall|h: Seq<u8>| in_ids(seq![known_seeds[x]], h) implies in_ids(seq![g.commit_trees@[c]], h) by {
            let i = choose|i: int| 0 <= i < 1 && (#[trigger] seq![known_seeds[x]][i])@ == h;
            assert(seq![g.commit_trees@[c]][0] == g.commit_trees@[c]);
        }
        lemma_reaches_more_seeds(g.objects@, seq![known_seeds[x]], seq![g.commit_trees@[c]], j, rank[j]);
        assert(p.have_commits@[c]);
    }
    if 0 <= j < g.objects@.len() && p.send_objects@[j] {
        let rank = choose|rank: Seq<nat>| ranked(g.objects@, p.send_objects@, want_trees, known, rank);
        lemma_ranked_reaches(g.objects@, p.send_objects@, want_trees, known, rank, j);
        assert forall|h: Seq<u8>| in_ids(want_trees, h) implies in_ids(sent_trees, h) by {
            lemma_without_sub(sent_trees, known, h);
        }
        lemma_reaches_more_seeds(g.objects@, want_trees, sent_trees, j, rank[j]);
        lemma_reaches_split(g.objects@, sent_trees, j, rank[j]);
        let x = choose|x: int| 0 <= x < sent_trees.len() && reaches(g.objects@, seq![#[trigger] sent_trees[x]], j, rank[j]);
        lemma_marked_trees_from(g.commit_trees@, p.send_commits@, sent_trees[x]@);
        let c = choose|c: int| 0 <= c < g.commit_trees@.len() && p.send_commits@[c] && (#[trigger] g.commit_trees@[c])@ == sent_trees[x]@;
        assert forall|h: Seq<u8>| in_ids(seq![sent_trees[x]], h) implies in_ids(seq![g.commit_trees@[c]], h) by {
            let i = choose|i: int| 0 <= i < 1 && (#[trigger] seq![sent_trees[x]][i])@ == h;
            assert(seq![g.commit_trees@[c]][0] == g.commit_trees@[c]);
        }
        lemma_reaches_more_seeds(g.objects@, seq![sent_trees[x]], seq![g.commit_trees@[c]], j, rank[j]);
        assert(p.send_commits@[c]);
    }
}

/// Commit `j` is reached from the commits `seeds`.
pub open spec fn reach_commit(g: ObjectGraph, seeds: Seq<SHA1>, j: int) -> bool {
    exists|n: nat| reaches(g.commits@, seeds, j, n)
}

/// Object `j` is reached from the root tree of a commit reached from the
/// commits `seeds`.
pub open spec fn reach_object(g: ObjectGraph, seeds: Seq<SHA1>, j: int) -> bool {
    exists|c: int, n: nat, n2: nat|
        #![trigger reaches(g.commits@, seeds, c, n), reaches(g.objects@, seq![g.commit_trees@[c]], j, n2)]
        0 <= c < g.commits@.len() && reaches(g.commits@, seeds, c, n)
            && reaches(g.objects@, seq![g.commit_trees@[c]], j, n2)
}

/// A fetch sends exactly what `want` reaches and `have` does not: a commit
/// is sent if and only if it is reached from `want` and not from `have`,
/// and likewise a tree or blob, reached through the root trees of those
/// commits.
pub proof fn lemma_fetch_is_difference(g: ObjectGraph, want: Seq<SHA1>, have: Seq<SHA1>, p: FetchPlan, j: int)
    requires
        g.wf(),
        fetch_plan_ok(g, want, have, p),
    ensures
        0 <= j < g.commits@.len() ==> (p.send_commits@[j] <==> reach_commit(g, want, j) && !reach_commit(g, have, j)),
        0 <= j < g.objects@.len() ==> (p.send_objects@[j] <==> reach_object(g, want, j) && !reach_object(g, have, j)),
{
    lemma_plan_sound(g, want, have, p, j);
    lemma_plan_sends_nothing_known(g, want, have, p);
    if 0 <= j < g.commits@.len() {
        if reach_commit(g, have, j) {
            let n = choose|n: nat| reaches(g.commits@, have, j, n);
            lemma_plan_covers_commits(g, want, have, p, j, n);
        }
        if reach_commit(g, want, j) && !reach_commit(g, have, j) {
            let n = choose|n: nat| reaches(g.commits@, want, j, n);
            lemma_plan_covers_commits(g, want, have, p, j, n);
        }
    }
    if 0 <= j < g.objects@.len() {
        if reach_object(g, have, j) {
            let (c, n, n2) = choose|c: int, n: nat, n2: nat|
                #![trigger reaches(g.commits@, have, c, n), reaches(g.objects@, seq![g.commit_trees@[c]], j, n2)]
                0 <= c < g.commits@.len() && reaches(g.commits@, have, c, n)
                    && reaches(g.objects@, seq![g.commit_trees@[c]], j, n2);
            lemma_plan_covers_objects(g, want, have, p, c, n, j, n2);
        }
        if reach_object(g, want, j) && !reach_object(g, have, j) {
            let (c, n, n2) = choose|c: int, n: nat, n2: nat|
                #![trigger reaches(g.commits@, want, c, n), reaches(g.objects@, seq![g.commit_trees@[c]], j, n2)]
                0 <= c < g.commits@.len() && reaches(g.commits@, want, c, n)
                    && reaches(g.objects@, seq![g.commit_trees@[c]], j, n2);
            lemma_plan_covers_objects(g, want, have, p, c, n, j, n2);
        }
    }
}

proof fn lemma_have_push_same_reach(g: ObjectGraph, have: Seq<SHA1>, x: SHA1)
    requires
        forall|j: int| 0 <= j < g.commits@.len() ==> (#[trigger] g.commits@[j]).id@ != x@,
    ensures
        forall|j: int| #[trigger] reach_commit(g, have.push(x), j) == reach_commit(g, have, j),
        forall|j: int| #[trigger] reach_object(g, have.push(x), j) == reach_object(g, have, j),
{
    let h2 = have.push(x);
    assert forall|y: int| 0 <= y < g.commits@.len() && in_ids(h2, (#[trigger] g.commits@[y]).id@) implies in_ids(have, g.commits@[y].id@) by {
        let i = choose|i: int| 0 <= i < h2.len() && (#[trigger] h2[i])@ == g.commits@[y].id@;
        assert(i < have.len());
        assert(have[i] == h2[i]);
    }
    assert forall|y: int| 0 <= y < g.commits@.len() && in_ids(have, (#[trigger] g.commits@[y]).id@) implies in_ids(h2, g.commits@[y].id@) by {
        let i = choose|i: int| 0 <= i < have.len() && (#[trigger] have[i])@ == g.commits@[y].id@;
        assert(h2[i] == have[i]);
    }
    assert forall|j: int| #[trigger] reach_commit(g, h2, j) == reach_commit(g, have, j) by {
        if reach_commit(g, h2, j) {
            let n = choose|n: nat| reaches(g.commits@, h2, j, n);
            lemma_reaches_more_seeds(g.commits@, h2, have, j, n);
        }
        if reach_commit(g, have, j) {
            let n = choose|n: nat| reaches(g.commits@, have, j, n);
            lemma_reaches_more_seeds(g.commits@, have, h2, j, n);
        }
    }
    assert forall|j: int| #[trigger] reach_object(g, h2, j) == reach_object(g, have, j) by {
        if reach_object(g, h2, j) {
            let (c, n, n2) = choose|c: int, n: nat, n2: nat|
                #![trigger reaches(g.commits@, h2, c, n), reaches(g.objects@, seq![g.commit_trees@[c]], j, n2)]
                0 <= c < g.commits@.len() && reaches(g.commits@, h2, c, n)
                    && reaches(g.objects@, seq![g.commit_trees@[c]], j, n2);
            lemma_reaches_more_seeds(g.commits@, h2, have, c, n);
        }
        if reach_object(g, have, j) {
            let (c, n, n2) = choose|c: int, n: nat, n2: nat|
                #![trigger reaches(g.commits@, have, c, n), reaches(g.objects@, seq![g.commit_trees@[c]], j, n2)]
                0 <= c < g.commits@.len() && reaches(g.commits@, have, c, n)
                    && reaches(g.objects@, seq![g.commit_trees@[c]], j, n2);
            lemma_reaches_more_seeds(g.commits@, have, h2, c, n);
        }
    }
}

/// Two fetches that differ only by a `have` hash naming no commit of the
/// snapshot send the same commits and the same objects.
pub proof fn lemma_unknown_have_same_pack(
    g: ObjectGraph,
    want: Seq<SHA1>,
    have: Seq<SHA1>,
    x: SHA1,
    p1: FetchPlan,
    p2: FetchPlan,
)
    requires
        g.wf(),
        forall|j: int| 0 <= j < g.commits@.len() ==> (#[trigger] g.commits@[j]).id@ != x@,
        fetch_plan_ok(g, want, have, p1),
        fetch_plan_ok(g, want, have.push(x), p2),
    ensures
        p1.send_commits@ == p2.send_commits@,
        p1.send_objects@ == p2.send_objects@,
{
    lemma_have_push_same_reach(g, have, x);
    assert forall|j: int| 0 <= j < g.commits@.len() implies p1.send_commits@[j] == p2.send_commits@[j] by {
        lemma_fetch_is_difference(g, want, have, p1, j);
        lemma_fetch_is_difference(g, want, have.push(x), p2, j);
    }
    assert forall|j: int| 0 <= j < g.objects@.len() implies p1.send_objects@[j] == p2.send_objects@[j] by {
        lemma_fetch_is_difference(g, want, have, p1, j);
        lemma_fetch_is_difference(g, want, have.push(x), p2, j);
    }
    assert(p1.send_commits@ =~= p2.send_commits@);
    assert(p1.send_objects@ =~= p2.send_objects@);
}

} // verus!
