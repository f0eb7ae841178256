use mega::codec::{parse_object, serialize, Object};
use mega::commit::Commit;
use mega::graph::{fetch_order, full_pack, incremental_pack, selected_ids, Node, ObjectGraph};
use mega::hash::SHA1;
use mega::refs::{find_subtree, head_hash, split_path, walk_step, WalkStep};
use mega::signature::{Signature, SignatureType};
use mega::mr::Entry;
use mega::object::object_hash;
use mega::pack::{decode, encode};
use mega::tree::{ObjectType, Tree, TreeItem, TreeItemMode};

fn h(c: char) -> SHA1 {
    SHA1::new_from_str(&c.to_string().repeat(40))
}

fn node(id: char, children: &[char]) -> Node {
    Node { id: h(id), children: children.iter().map(|c| h(*c)).collect() }
}

fn hexes(v: &[SHA1]) -> Vec<String> {
    let mut out: Vec<String> = v.iter().map(|x| x.to_plain_str()[..1].to_string()).collect();
    out.sort();
    out
}

fn sig(kind: SignatureType) -> Signature {
    Signature {
        signature_type: kind,
        name: "mega".to_string(),
        email: "mega@example.org".to_string(),
        timestamp: 0,
        timezone: "+0000".to_string(),
    }
}

// Commits a <- b <- c with root trees 1, 2, 3; tree 1 holds blob 7,
// tree 2 holds blob 7 and 8, tree 3 holds tree 1 and blob 9.
fn chain() -> ObjectGraph {
    ObjectGraph {
        commits: vec![node('a', &[]), node('b', &['a']), node('c', &['b'])],
        commit_trees: vec![h('1'), h('2'), h('3')],
        objects: vec![
            node('1', &['7']),
            node('2', &['7', '8']),
            node('3', &['1', '9']),
            node('7', &[]),
            node('8', &[]),
            node('9', &[]),
        ],
        object_is_tree: vec![true, true, true, false, false, false],
        tags: vec![node('d', &['c']), node('e', &['a'])],
    }
}

fn kinds(v: &[(ObjectType, SHA1)]) -> Vec<(ObjectType, String)> {
    v.iter().map(|(k, x)| (*k, x.to_plain_str()[..1].to_string())).collect()
}

#[test]
fn fetch_sends_trees_and_blobs_before_commits_and_tags_last() {
    let g = chain();
    assert!(g.is_wf());
    let plan = incremental_pack(&g, &vec![h('c')], &vec![h('a')]);
    let order = kinds(&fetch_order(&g, &plan));
    let s = |k: ObjectType, c: &str| (k, c.to_string());
    assert_eq!(
        order,
        vec![
            s(ObjectType::Tree, "2"),
            s(ObjectType::Tree, "3"),
            s(ObjectType::Blob, "8"),
            s(ObjectType::Blob, "9"),
            s(ObjectType::Commit, "b"),
            s(ObjectType::Commit, "c"),
            s(ObjectType::Tag, "d"),
        ]
    );
}

#[test]
fn duplicate_ids_make_snapshot_ill_formed() {
    let mut g = chain();
    g.objects.push(node('7', &[]));
    g.object_is_tree.push(false);
    assert!(!g.is_wf());
}

#[test]
fn incremental_fetch_sends_missing_history() {
    let g = chain();
    let plan = incremental_pack(&g, &vec![h('c')], &vec![h('a')]);
    assert_eq!(hexes(&selected_ids(&g.commits, &plan.send_commits)), vec!["b", "c"]);
    assert_eq!(hexes(&selected_ids(&g.objects, &plan.known_objects)), vec!["1", "7"]);
    assert_eq!(hexes(&selected_ids(&g.objects, &plan.send_objects)), vec!["2", "3", "8", "9"]);
}

#[test]
fn unknown_have_is_ignored() {
    let g = chain();
    let plan = incremental_pack(&g, &vec![h('b')], &vec![h('a'), h('e')]);
    assert_eq!(hexes(&selected_ids(&g.commits, &plan.send_commits)), vec!["b"]);
    assert_eq!(hexes(&selected_ids(&g.objects, &plan.send_objects)), vec!["2", "8"]);
}

#[test]
fn fetch_without_have_sends_everything_reachable() {
    let g = chain();
    let plan = incremental_pack(&g, &vec![h('b')], &vec![]);
    assert_eq!(hexes(&selected_ids(&g.commits, &plan.send_commits)), vec!["a", "b"]);
    assert_eq!(hexes(&selected_ids(&g.objects, &plan.send_objects)), vec!["1", "2", "7", "8"]);
}

#[test]
fn full_pack_lists_all_objects() {
    let g = ObjectGraph {
        commits: vec![node('c', &[])],
        commit_trees: vec![h('1')],
        objects: vec![node('7', &[]), node('1', &['7'])],
        object_is_tree: vec![false, true],
        tags: vec![node('d', &['c'])],
    };
    let s = |k: ObjectType, c: &str| (k, c.to_string());
    assert_eq!(
        kinds(&full_pack(&g)),
        vec![s(ObjectType::Commit, "c"), s(ObjectType::Tree, "1"), s(ObjectType::Blob, "7"), s(ObjectType::Tag, "d")]
    );
}

#[test]
fn path_parts_skip_empty_pieces() {
    assert_eq!(split_path(b"/lib"), vec![b"lib".to_vec()]);
    assert_eq!(split_path(b"/a//b/"), vec![b"a".to_vec(), b"b".to_vec()]);
    assert!(split_path(b"/").is_empty());
}

#[test]
fn fresh_subpath_gets_synthetic_commit() {
    let lib = Tree::new_from_items(vec![TreeItem::new(TreeItemMode::Blob, h('7'), "a.rs".to_string())]);
    let root = Tree::new_from_items(vec![
        TreeItem::new(TreeItemMode::Blob, h('8'), "lib".to_string()),
        TreeItem::new(TreeItemMode::Tree, lib.meta.id, "lib".to_string()),
    ]);
    assert!(find_subtree(&root, b"lib").unwrap() == lib.meta.id);
    assert!(find_subtree(&root, b"src").is_none());
    let parts = split_path(b"/lib");
    let first = walk_step(&parts, 0, &root);
    assert!(matches!(first, WalkStep::Descend(id) if id == lib.meta.id));
    let end = walk_step(&parts, 1, &lib);
    let tree_id = match end {
        WalkStep::Found(id) => id,
        _ => panic!("walk did not end"),
    };
    let c = Commit::synthetic(tree_id, sig(SignatureType::Author), sig(SignatureType::Committer));
    assert!(c.tree_id == lib.meta.id);
    assert!(c.parent_commit_ids.is_empty());
    assert_eq!(c.message, "This commit was generated by mega for maintain refs");

    let refs = head_hash(None, Some(c.id));
    assert_eq!(refs.len(), 1);
    assert!(refs[0].default_branch);
    assert_eq!(refs[0].ref_name, "refs/heads/main");
    let saved = refs[0].clone();
    let other = Commit::synthetic(tree_id, sig(SignatureType::Author), sig(SignatureType::Committer));
    let again = head_hash(Some(saved), Some(other.id));
    assert!(again[0].ref_hash == c.id);
}

#[test]
fn unknown_subpath_advertises_nothing() {
    let root = Tree::new_from_items(Vec::new());
    let parts = split_path(b"/missing");
    assert!(matches!(walk_step(&parts, 0, &root), WalkStep::Missing));
    assert!(head_hash(None, None).is_empty());
}

#[test]
fn commit_payload_layout() {
    let c = Commit::from_tree_id(
        h('1'),
        vec![h('a')],
        sig(SignatureType::Author),
        sig(SignatureType::Committer),
        "msg".to_string(),
    );
    let text = String::from_utf8(c.to_data()).unwrap();
    assert_eq!(
        text,
        format!(
            "tree {}\nparent {}\nauthor mega <mega@example.org> 0 +0000\ncommitter mega <mega@example.org> 0 +0000\n\nmsg",
            "1".repeat(40),
            "a".repeat(40)
        )
    );
}

#[test]
fn full_pack_of_two_object_repo_round_trips() {
    let blob_data = b"fn main() {}\n".to_vec();
    let blob_id = object_hash(ObjectType::Blob, &blob_data);
    let tree = Tree::new_from_items(vec![TreeItem::new(TreeItemMode::Blob, blob_id, "main.rs".to_string())]);
    let commit = Commit::from_tree_id(
        tree.meta.id,
        Vec::new(),
        sig(SignatureType::Author),
        sig(SignatureType::Committer),
        "init".to_string(),
    );
    let g = ObjectGraph {
        commits: vec![Node { id: commit.id, children: Vec::new() }],
        commit_trees: vec![tree.meta.id],
        objects: vec![Node { id: tree.meta.id, children: vec![blob_id] }, Node { id: blob_id, children: Vec::new() }],
        object_is_tree: vec![true, false],
        tags: Vec::new(),
    };
    let listed = full_pack(&g);
    assert_eq!(listed.len(), 3);
    let entries = vec![
        Entry { obj_type: ObjectType::Commit, hash: commit.id, data: commit.to_data() },
        Entry { obj_type: ObjectType::Tree, hash: tree.meta.id, data: tree.to_data() },
        Entry { obj_type: ObjectType::Blob, hash: blob_id, data: blob_data },
    ];
    let packed = encode(&entries);
    assert_eq!(&packed[8..12], &[0, 0, 0, 3]);
    let back = decode(&packed).unwrap();
    let mut got: Vec<String> = back.iter().map(|e| e.hash.to_plain_str()).collect();
    let mut want: Vec<String> = vec![commit.id.to_plain_str(), tree.meta.id.to_plain_str(), blob_id.to_plain_str()];
    got.sort();
    want.sort();
    assert_eq!(got, want);
}

#[test]
fn root_path_is_whole_repository() {
    assert!(mega::refs::is_root_path("/"));
    assert!(!mega::refs::is_root_path("/lib"));
    assert!(!mega::refs::is_root_path(""));
}

#[test]
fn commit_payload_reads_back() {
    let c = Commit::from_tree_id(
        h('1'),
        vec![h('a'), h('b')],
        sig(SignatureType::Author),
        sig(SignatureType::Committer),
        "two parents\n".to_string(),
    );
    let data = c.to_data();
    let back = Commit::new_from_data(&data).unwrap();
    assert!(back.tree_id == h('1'));
    assert_eq!(back.parent_commit_ids.len(), 2);
    assert!(back.parent_commit_ids[1] == h('b'));
    assert_eq!(back.author.email, "mega@example.org");
    assert_eq!(back.committer.signature_type, SignatureType::Committer);
    assert_eq!(back.message, "two parents\n");
    assert!(back.id == c.id);
    assert_eq!(back.to_data(), data);
    assert!(Commit::new_from_data(b"tree xyz\n").is_err());
}

#[test]
fn objects_reserialize_to_same_bytes_and_hash() {
    let blob = b"some bytes".to_vec();
    let tree = Tree::new_from_items(vec![
        TreeItem::new(TreeItemMode::Blob, h('7'), "a b".to_string()),
        TreeItem::new(TreeItemMode::Tree, h('8'), "z".to_string()),
    ]);
    let commit = Commit::from_tree_id(h('1'), vec![h('a')], sig(SignatureType::Author), sig(SignatureType::Committer), "m".to_string());
    let cases = vec![
        (ObjectType::Blob, blob.clone(), object_hash(ObjectType::Blob, &blob)),
        (ObjectType::Tree, tree.to_data(), tree.meta.id),
        (ObjectType::Commit, commit.to_data(), commit.id),
        (ObjectType::Tag, b"object x\ntype commit\n".to_vec(), object_hash(ObjectType::Tag, b"object x\ntype commit\n")),
    ];
    for (kind, bytes, id) in cases {
        let parsed = parse_object(kind, &bytes).unwrap();
        let (again, again_id) = serialize(&parsed);
        assert_eq!(again, bytes);
        assert!(again_id == id);
    }
    assert!(matches!(parse_object(ObjectType::Blob, b"x").unwrap(), Object::Blob(_)));
    assert!(parse_object(ObjectType::Tree, b"bad").is_err());
}

// Commits a <- b <- c; blob 7 is in the trees of a and c but not of b.
#[test]
fn ancestors_of_have_count_as_known() {
    let g = ObjectGraph {
        commits: vec![node('a', &[]), node('b', &['a']), node('c', &['b'])],
        commit_trees: vec![h('1'), h('2'), h('3')],
        objects: vec![node('1', &['7']), node('2', &['8']), node('3', &['7', '9']), node('7', &[]), node('8', &[]), node('9', &[])],
        object_is_tree: vec![true, true, true, false, false, false],
        tags: Vec::new(),
    };
    let plan = incremental_pack(&g, &vec![h('c')], &vec![h('b')]);
    assert_eq!(hexes(&selected_ids(&g.commits, &plan.have_commits)), vec!["a", "b"]);
    assert_eq!(hexes(&selected_ids(&g.commits, &plan.send_commits)), vec!["c"]);
    assert_eq!(hexes(&selected_ids(&g.objects, &plan.send_objects)), vec!["3", "9"]);
    let plan = incremental_pack(&g, &vec![h('a'), h('c')], &vec![h('b')]);
    assert_eq!(hexes(&selected_ids(&g.commits, &plan.send_commits)), vec!["c"]);
}

#[test]
fn pushed_root_tree_reads_target_commit() {
    let c = Commit::from_tree_id(h('1'), Vec::new(), sig(SignatureType::Author), sig(SignatureType::Committer), "m".to_string());
    let entries = vec![
        Entry { obj_type: ObjectType::Blob, hash: h('9'), data: b"x".to_vec() },
        Entry { obj_type: ObjectType::Commit, hash: c.id, data: c.to_data() },
    ];
    assert!(mega::mr::pushed_root_tree(&entries, &c.id).unwrap().unwrap() == h('1'));
    assert!(mega::mr::pushed_root_tree(&entries, &h('8')).unwrap().is_none());
    assert!(mega::mr::pushed_root_tree(&entries, &h('9')).is_err());
}
