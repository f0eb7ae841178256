use std::io::Write;

use mega::delta::apply_delta;
use mega::errors::GitError;
use mega::hash::SHA1;
use mega::mr::{Entry, MonoRepo};
use mega::object::{object_hash, sha1_bytes};
use mega::pack::{decode, encode};
use mega::tree::ObjectType;

fn zlib(data: &[u8]) -> Vec<u8> {
    let mut e = flate2::write::ZlibEncoder::new(Vec::new(), flate2::Compression::default());
    e.write_all(data).unwrap();
    e.finish().unwrap()
}

fn header(count: u32) -> Vec<u8> {
    let mut h = b"PACK".to_vec();
    h.extend_from_slice(&2u32.to_be_bytes());
    h.extend_from_slice(&count.to_be_bytes());
    h
}

fn entry_header(code: u8, size: usize) -> Vec<u8> {
    assert!(size < 16);
    vec![code * 16 + size as u8]
}

fn finish(mut body: Vec<u8>) -> Vec<u8> {
    let digest = sha1_bytes(&body);
    body.extend_from_slice(&digest);
    body
}

fn blob_entry(data: &[u8]) -> Vec<u8> {
    let mut e = entry_header(3, data.len());
    e.extend(zlib(data));
    e
}

fn entry(kind: ObjectType, data: &[u8]) -> Entry {
    Entry { obj_type: kind, hash: object_hash(kind, data), data: data.to_vec() }
}

#[test]
fn empty_pack_round_trips() {
    let packed = encode(&Vec::new());
    assert_eq!(packed.len(), 32);
    assert_eq!(&packed[..12], &header(0)[..]);
    assert!(decode(&packed).unwrap().is_empty());
}

#[test]
fn encode_then_decode_keeps_objects() {
    let objects = vec![
        entry(ObjectType::Commit, b"tree 4b825dc642cb6eb9a060e54bf8d69288fbee4904\n\nmsg"),
        entry(ObjectType::Tree, b""),
        entry(ObjectType::Blob, b"hello world, this blob is longer than sixteen bytes\n"),
        entry(ObjectType::Tag, b"object x"),
    ];
    let packed = encode(&objects);
    let back = decode(&packed).unwrap();
    assert_eq!(back.len(), objects.len());
    for (a, b) in objects.iter().zip(back.iter()) {
        assert_eq!(a.obj_type, b.obj_type);
        assert_eq!(a.data, b.data);
        assert!(a.hash == b.hash);
    }
}

#[test]
fn blob_hash_in_decoded_pack() {
    let packed = finish([header(1), blob_entry(b"hello world\n")].concat());
    let back = decode(&packed).unwrap();
    assert_eq!(back[0].hash.to_plain_str(), "3b18e512dba79e4c8300dd08aeb37f8e728b8dad");
}

#[test]
fn declared_count_above_entries_is_rejected() {
    let mut body = header(5);
    for i in 0..4u8 {
        body.extend(blob_entry(&[b'a' + i]));
    }
    assert!(matches!(decode(&finish(body)), Err(GitError::MalformedPack)));
}

#[test]
fn bad_checksum_is_rejected() {
    let mut packed = finish([header(1), blob_entry(b"abc")].concat());
    let last = packed.len() - 1;
    packed[last] ^= 1;
    assert!(matches!(decode(&packed), Err(GitError::MalformedPack)));
    let mut bad_magic = finish([header(0)].concat());
    bad_magic[0] = b'K';
    assert!(decode(&bad_magic).is_err());
}

#[test]
fn ref_delta_onto_itself_is_rejected() {
    let base = b"hello";
    let base_id = object_hash(ObjectType::Blob, base);
    let delta = vec![5u8, 5, 0x91, 0x00, 0x05];
    let mut body = header(2);
    body.extend(blob_entry(base));
    body.extend(entry_header(7, delta.len()));
    body.extend(base_id.to_bytes());
    body.extend(zlib(&delta));
    assert!(matches!(decode(&finish(body)), Err(GitError::MalformedPack)));
}

#[test]
fn ref_delta_builds_new_object() {
    let base = b"hello";
    let base_id = object_hash(ObjectType::Blob, base);
    let delta = vec![5u8, 11, 0x91, 0x00, 0x05, 6, b' ', b'w', b'o', b'r', b'l', b'd'];
    let mut body = header(2);
    body.extend(blob_entry(base));
    body.extend(entry_header(7, delta.len()));
    body.extend(base_id.to_bytes());
    body.extend(zlib(&delta));
    let back = decode(&finish(body)).unwrap();
    assert_eq!(back[1].data, b"hello world".to_vec());
    assert_eq!(back[1].obj_type, ObjectType::Blob);
}

#[test]
fn ofs_delta_builds_new_object() {
    let base = b"abcdef";
    let delta = vec![6u8, 4, 0x91, 0x02, 0x03, 1, b'!'];
    let mut body = header(2);
    body.extend(blob_entry(base));
    let start = body.len();
    body.extend(entry_header(6, delta.len()));
    body.push((start - 12) as u8);
    body.extend(zlib(&delta));
    let back = decode(&finish(body)).unwrap();
    assert_eq!(back[1].data, b"cde!".to_vec());
}

#[test]
fn delta_scripts() {
    assert_eq!(apply_delta(b"abcdef", &[6, 3, 0x91, 0x01, 0x03]).unwrap(), b"bcd".to_vec());
    assert_eq!(apply_delta(b"abc", &[3, 2, 2, b'x', b'y']).unwrap(), b"xy".to_vec());
    assert!(apply_delta(b"abc", &[4, 2, 2, b'x', b'y']).is_none());
    assert!(apply_delta(b"abc", &[3, 2, 0]).is_none());
    assert!(apply_delta(b"abc", &[3, 5, 0x91, 0x02, 0x05]).is_none());
    assert!(apply_delta(b"abc", &[3, 3, 2, b'x', b'y']).is_none());
}

#[test]
fn zero_hash_default() {
    assert!(SHA1::default().is_zero());
}

fn subpath_push() -> MonoRepo {
    MonoRepo { path: "/lib".to_string(), from_hash: SHA1::new_from_str(&"f".repeat(40)), to_hash: SHA1::new_from_str(&"b".repeat(40)) }
}

#[test]
fn subpath_push_refuses_self_based_delta() {
    let base = b"hello";
    let base_id = object_hash(ObjectType::Blob, base);
    let delta = vec![5u8, 5, 0x91, 0x00, 0x05];
    let mut body = header(2);
    body.extend(blob_entry(base));
    body.extend(entry_header(7, delta.len()));
    body.extend(base_id.to_bytes());
    body.extend(zlib(&delta));
    assert!(matches!(subpath_push().receive(None, &finish(body)), Err(GitError::MalformedPack)));
}

#[test]
fn subpath_push_refuses_short_count() {
    let mut body = header(5);
    for i in 0..4u8 {
        body.extend(blob_entry(&[b'a' + i]));
    }
    assert!(matches!(subpath_push().receive(None, &finish(body)), Err(GitError::MalformedPack)));
}

#[test]
fn subpath_push_of_good_pack_opens_request() {
    let objects = vec![entry(ObjectType::Commit, b"c"), entry(ObjectType::Blob, b"b")];
    let (outcome, entries) = subpath_push().receive(None, &encode(&objects)).unwrap();
    assert!(outcome.created && outcome.persist);
    assert_eq!(entries.len(), 2);
}

#[test]
fn loose_file_round_trips() {
    use_loose();
}

fn use_loose() {
    let meta = mega::tree::Meta::new(ObjectType::Blob, b"abc".to_vec());
    let file = mega::pack::compress_loose(&meta);
    let (kind, data) = mega::pack::read_loose_file(&file).unwrap();
    assert_eq!(kind, ObjectType::Blob);
    assert_eq!(data, b"abc".to_vec());
    let mut longer = file.clone();
    longer.push(0);
    assert!(mega::pack::read_loose_file(&longer).is_err());
    assert!(mega::pack::read_loose_file(b"not zlib").is_err());
}
