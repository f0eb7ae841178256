use mega::hash::SHA1;
use mega::mr::{count_commits, flush_ranges, Entry, MergeRequest, MonoRepo, MrComment, MrStatus};
use mega::tree::ObjectType;

fn h(c: char) -> SHA1 {
    SHA1::new_from_str(&c.to_string().repeat(40))
}

fn entry(kind: ObjectType, c: char) -> Entry {
    Entry { obj_type: kind, hash: h(c), data: Vec::new() }
}

fn push(from: char, to: char) -> MonoRepo {
    MonoRepo { path: "/lib".to_string(), from_hash: h(from), to_hash: h(to) }
}

fn open_mr(from: char, to: char) -> MergeRequest {
    MergeRequest { id: 7, path: "/lib".to_string(), from_hash: h(from), to_hash: h(to), status: MrStatus::Open }
}

#[test]
fn force_update_moves_target() {
    let out = push('f', 'b').unpack(Some(open_mr('f', 'a')), &vec![entry(ObjectType::Commit, '1')]);
    assert!(!out.created);
    assert!(out.persist);
    assert_eq!(out.mr.to_hash.to_plain_str(), "b".repeat(40));
    assert_eq!(out.mr.status, MrStatus::Open);
    assert_eq!(out.comments.len(), 1);
    assert!(matches!(out.comments[0], MrComment::ForceUpdate(_, _)));
    assert_eq!(out.comments[0].text(), "auto-updated from ffffff to bbbbbb");
}

#[test]
fn conflicting_base_closes_without_storing() {
    let out = push('e', 'b').unpack(Some(open_mr('f', 'a')), &vec![entry(ObjectType::Commit, '1')]);
    assert!(!out.persist);
    assert_eq!(out.mr.status, MrStatus::Closed);
    assert_eq!(out.mr.to_hash.to_plain_str(), "a".repeat(40));
    assert_eq!(out.comments.len(), 1);
    assert!(out.comments[0].text().contains("conflict"));
}

#[test]
fn multi_commit_push_is_closed() {
    let entries = vec![
        entry(ObjectType::Commit, '1'),
        entry(ObjectType::Tree, '2'),
        entry(ObjectType::Commit, '3'),
    ];
    assert_eq!(count_commits(&entries), 2);
    let out = push('f', 'b').unpack(None, &entries);
    assert!(out.created);
    assert!(out.persist);
    assert_eq!(out.mr.status, MrStatus::Closed);
    assert_eq!(out.mr.from_hash.to_plain_str(), "f".repeat(40));
    assert_eq!(out.comments.len(), 1);
    assert!(out.comments[0].text().contains("multi-commit"));
}

#[test]
fn single_commit_push_opens_request() {
    let out = push('f', 'b').unpack(None, &vec![entry(ObjectType::Commit, '1'), entry(ObjectType::Blob, '2')]);
    assert!(out.created && out.persist);
    assert_eq!(out.mr.status, MrStatus::Open);
    assert_eq!(out.mr.path, "/lib");
    assert!(out.comments.is_empty());
}

#[test]
fn same_target_changes_nothing() {
    let out = push('f', 'a').unpack(Some(open_mr('f', 'a')), &vec![entry(ObjectType::Commit, '1')]);
    assert!(!out.persist);
    assert_eq!(out.mr.status, MrStatus::Open);
    assert!(out.comments.is_empty());
}

#[test]
fn status_words() {
    assert_eq!(MrStatus::Open.as_str(), "open");
    assert_eq!(MrStatus::Closed.as_str(), "closed");
    assert_eq!(MrStatus::Merged.as_str(), "merged");
}

#[test]
fn force_update_comment_text() {
    let repo = push('f', 'b');
    let from = SHA1::new_from_str("0123456789abcdef0123456789abcdef01234567");
    let to = SHA1::new_from_str("fedcba9876543210fedcba9876543210fedcba98");
    assert_eq!(repo.comment_for_force_update(&from, &to), "auto-updated from 012345 to fedcba");
}

#[test]
fn get_mr_prefers_open_request() {
    let repo = push('f', 'b');
    let (mr, existed) = repo.get_mr(Some(open_mr('c', 'd')));
    assert!(existed);
    assert_eq!(mr.id, 7);
    let (mr, existed) = repo.get_mr(None);
    assert!(!existed);
    assert_eq!(mr.to_hash.to_plain_str(), "b".repeat(40));
}

#[test]
fn entries_are_flushed_in_thousands() {
    assert!(flush_ranges(0).is_empty());
    assert_eq!(flush_ranges(999), vec![(0, 999)]);
    assert_eq!(flush_ranges(1000), vec![(0, 1000)]);
    assert_eq!(flush_ranges(2500), vec![(0, 1000), (1000, 2000), (2000, 2500)]);
}
