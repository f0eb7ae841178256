use mega::hash::SHA1;
use mega::object::{loose_form, object_hash, parse_loose};
use mega::tree::{Meta, ObjectType, Tree, TreeItem, TreeItemMode};

fn item(mode: TreeItemMode, hex: &str, name: &str) -> TreeItem {
    TreeItem::new(mode, SHA1::new_from_str(hex), name.to_string())
}

fn meta_of(data: Vec<u8>) -> Meta {
    Meta { object_type: ObjectType::Tree, id: SHA1::default(), data }
}

#[test]
fn test_tree_item_new() {
    let tree_item = item(TreeItemMode::Blob, "8ab686eafeb1f44702738c8b0f24f2567c36da6d", "hello-world");
    assert_eq!(tree_item.mode, TreeItemMode::Blob);
    assert_eq!(tree_item.id.to_plain_str(), "8ab686eafeb1f44702738c8b0f24f2567c36da6d");
}

#[test]
fn test_tree_item_to_bytes() {
    let tree_item = item(TreeItemMode::Blob, "8ab686eafeb1f44702738c8b0f24f2567c36da6d", "hello-world");
    let bytes = tree_item.to_bytes();
    assert_eq!(
        bytes,
        vec![
            49, 48, 48, 54, 52, 52, 32, 104, 101, 108, 108, 111, 45, 119, 111, 114, 108, 100, 0, 138,
            182, 134, 234, 254, 177, 244, 71, 2, 115, 140, 139, 15, 36, 242, 86, 124, 54, 218, 109
        ]
    );
}

#[test]
fn test_tree_item_from_bytes() {
    let it = item(TreeItemMode::Blob, "8ab686eafeb1f44702738c8b0f24f2567c36da6d", "hello-world");
    let bytes = it.to_bytes();
    let tree_item = TreeItem::new_from_bytes(bytes.as_slice()).unwrap();
    assert_eq!(tree_item.mode, TreeItemMode::Blob);
    assert_eq!(tree_item.id.to_plain_str(), it.id.to_plain_str());
}

#[test]
fn test_empty_tree_hash() {
    let hash = Tree::empty_tree_hash();
    assert_eq!(hash.to_plain_str(), "0000000000000000000000000000000000000000");
}

#[test]
fn mode_tokens_are_read_and_normalized() {
    assert_eq!(TreeItemMode::tree_item_type_from(b"40000").unwrap(), TreeItemMode::Tree);
    assert_eq!(TreeItemMode::tree_item_type_from(b"100755").unwrap(), TreeItemMode::BlobExecutable);
    assert_eq!(TreeItemMode::tree_item_type_from(b"120000").unwrap(), TreeItemMode::Link);
    assert_eq!(TreeItemMode::tree_item_type_from(b"160000").unwrap(), TreeItemMode::Commit);
    assert_eq!(TreeItemMode::tree_item_type_from(b"100664").unwrap(), TreeItemMode::Blob);
    assert_eq!(TreeItemMode::tree_item_type_from(b"100640").unwrap(), TreeItemMode::Blob);
    assert!(TreeItemMode::tree_item_type_from(b"100600").is_err());
    assert_eq!(TreeItemMode::Tree.to_bytes(), b"40000".to_vec());
}

#[test]
fn tree_with_spaced_name_parses() {
    let it = item(TreeItemMode::Blob, "8ab686eafeb1f44702738c8b0f24f2567c36da6d", "my file.txt");
    let tree = Tree::new_from_meta(meta_of(it.to_bytes())).unwrap();
    assert_eq!(tree.tree_items.len(), 1);
    assert_eq!(tree.tree_items[0].name, "my file.txt");
    assert_eq!(tree.tree_items[0].mode, TreeItemMode::Blob);
    assert_eq!(tree.tree_items[0].id.to_plain_str(), "8ab686eafeb1f44702738c8b0f24f2567c36da6d");
}

#[test]
fn tree_keeps_entry_order_on_round_trip() {
    let items = vec![
        item(TreeItemMode::Blob, "8ab686eafeb1f44702738c8b0f24f2567c36da6d", "hello-world"),
        item(TreeItemMode::Tree, "c44c09a88097e5fb0c833d4178b2df78055ad2e9", "rust"),
        item(TreeItemMode::BlobExecutable, "0123456789abcdef0123456789abcdef01234567", "run.sh"),
    ];
    let tree = Tree::new_from_items(items);
    let data = tree.to_data();
    let back = Tree::new_from_meta(meta_of(data.clone())).unwrap();
    let names: Vec<&str> = back.tree_items.iter().map(|i| i.name.as_str()).collect();
    assert_eq!(names, vec!["hello-world", "rust", "run.sh"]);
    assert_eq!(back.to_data(), data);
}

#[test]
fn tree_with_duplicate_names_is_rejected() {
    let mut data = item(TreeItemMode::Blob, "8ab686eafeb1f44702738c8b0f24f2567c36da6d", "a").to_bytes();
    data.extend(item(TreeItemMode::Tree, "c44c09a88097e5fb0c833d4178b2df78055ad2e9", "a").to_bytes());
    assert!(Tree::new_from_meta(meta_of(data)).is_err());
}

#[test]
fn truncated_tree_is_rejected() {
    let mut data = item(TreeItemMode::Blob, "8ab686eafeb1f44702738c8b0f24f2567c36da6d", "a").to_bytes();
    data.pop();
    assert!(Tree::new_from_meta(meta_of(data)).is_err());
    assert!(TreeItem::new_from_bytes(b"100644 no-nul").is_err());
}

#[test]
fn empty_tree_has_the_well_known_identifier() {
    let tree = Tree::new_from_items(Vec::new());
    assert_eq!(tree.meta.id.to_plain_str(), "4b825dc642cb6eb9a060e54bf8d69288fbee4904");
}

#[test]
fn blob_identifier_matches_the_protocol() {
    let id = object_hash(ObjectType::Blob, b"hello world\n");
    assert_eq!(id.to_plain_str(), "3b18e512dba79e4c8300dd08aeb37f8e728b8dad");
}

#[test]
fn loose_form_round_trips() {
    let form = loose_form(ObjectType::Blob, b"abc");
    assert_eq!(form, b"blob 3\0abc".to_vec());
    let (kind, data) = parse_loose(&form).unwrap();
    assert_eq!(kind, ObjectType::Blob);
    assert_eq!(data, b"abc".to_vec());
    assert!(parse_loose(b"blob 4\0abc").is_err());
    assert!(parse_loose(b"twig 3\0abc").is_err());
}

#[test]
fn self_entry_points_at_the_tree() {
    let tree = Tree::new_from_items(Vec::new());
    let entry = tree.generate_self_2tree_item("sub".to_string()).unwrap();
    assert_eq!(entry.mode, TreeItemMode::Tree);
    assert_eq!(entry.id.to_plain_str(), tree.meta.id.to_plain_str());
    assert_eq!(entry.name, "sub");
}

#[test]
fn hash_bytes_round_trip() {
    let h = SHA1::new_from_str("8AB686eafeb1f44702738c8b0f24f2567c36da6d");
    let again = SHA1::from_bytes(&h.to_bytes());
    assert!(h == again);
    assert_eq!(again.to_plain_str(), "8ab686eafeb1f44702738c8b0f24f2567c36da6d");
    assert!(!h.is_zero());
    assert!(SHA1::default().is_zero());
}
