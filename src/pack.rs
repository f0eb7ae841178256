//! Packs: a 12-byte header, one compressed entry per object, and a SHA-1
//! trailer over everything before it.
use std::io::{Read, Write};
use vstd::prelude::*;

use crate::delta::{apply_delta, apply_delta_spec, varint_from, varint_cap};
use crate::errors::GitError;
use crate::hash::SHA1;
use crate::object::{loose_bytes, object_hash, sha1_of};
use crate::text::{append_bytes, bytes_eq};
use crate::tree::ObjectType;

verus! {

/// What inflating the zlib stream at the start of `b` gives: the inflated
/// bytes and how many bytes of `b` the stream took.
pub uninterp spec fn zlib_prefix(b: Seq<u8>) -> Option<(Seq<u8>, nat)>;

/// Relies on flate2's `bufread::ZlibDecoder`: it inflates the stream that
/// starts `b`, stops at the stream's end, and `total_in` counts the bytes
/// it took.
#[verifier::external_body]
fn inflate_prefix(b: &[u8]) -> (r: Option<(Vec<u8>, usize)>)
    ensures
        match zlib_prefix(b@) {
            Some((data, used)) => r matches Some((x, n)) && x@ == data && n as nat == used
                && used <= b@.len(),
            None => r is None,
        },
{
    let mut decoder = flate2::bufread::ZlibDecoder::new(b);
    let mut out = Vec::new();
    match decoder.read_to_end(&mut out) {
        Ok(_) => Some((out, decoder.total_in() as usize)),
        Err(_) => None,
    }
}

/// Relies on flate2's `write::ZlibEncoder`: its output is one complete zlib
/// stream of `b`, which inflates back to `b` whatever follows it.
#[verifier::external_body]
fn deflate(b: &[u8]) -> (r: Vec<u8>)
    ensures
        r@.len() > 0,
        forall|tail: Seq<u8>| #[trigger] zlib_prefix(r@ + tail) == Some((b@, r@.len())),
{
    let mut encoder = flate2::write::ZlibEncoder::new(Vec::new(), flate2::Compression::default());
    encoder.write_all(b).unwrap();
    encoder.finish().unwrap()
}

/// The entry-type code of each kind of object.
pub open spec fn kind_code(t: ObjectType) -> nat {
    match t {
        ObjectType::Commit => 1,
        ObjectType::Tree => 2,
        ObjectType::Blob => 3,
        ObjectType::Tag => 4,
    }
}

/// The kind that an entry-type code stands for, if it is not a delta.
pub open spec fn kind_of_code(c: nat) -> Option<ObjectType> {
    if c == 1 {
        Some(ObjectType::Commit)
    } else if c == 2 {
        Some(ObjectType::Tree)
    } else if c == 3 {
        Some(ObjectType::Blob)
    } else if c == 4 {
        Some(ObjectType::Tag)
    } else {
        None
    }
}

/// A big-endian 32-bit number at `pos`.
pub open spec fn be32(b: Seq<u8>, pos: int) -> nat {
    (b[pos] as nat) * 16777216 + (b[pos + 1] as nat) * 65536 + (b[pos + 2] as nat) * 256
        + (b[pos + 3] as nat)
}

/// The 12-byte header of a pack of `count` objects.
pub open spec fn pack_header(count: nat) -> Seq<u8> {
    seq![
        80u8, 65, 67, 75, 0, 0, 0, 2,
        (count / 16777216 % 256) as u8, (count / 65536 % 256) as u8, (count / 256 % 256) as u8,
        (count % 256) as u8,
    ]
}

/// An entry header at `pos`: the type code and the size, packed as four
/// bits of size and three of type in the first byte, then seven bits of
/// size a byte; and the position after it.
pub open spec fn entry_header(b: Seq<u8>, pos: int) -> Option<(nat, nat, int)> {
    if 0 <= pos < b.len() {
        let c = b[pos];
        let code = ((c / 16) % 8) as nat;
        let low = (c % 16) as nat;
        if c < 128 {
            Some((code, low, pos + 1))
        } else {
            match varint_from(b, pos + 1, 1) {
                Some((v, e)) => Some((code, low + 16 * v, e)),
                None => None,
            }
        }
    } else {
        None
    }
}

/// The seven-bit groups of `v`, lowest first, high bit set on all but the
/// last.
pub open spec fn varint_bytes(v: nat) -> Seq<u8>
    decreases v,
{
    if v < 128 {
        seq![v as u8]
    } else {
        seq![(v % 128 + 128) as u8] + varint_bytes(v / 128)
    }
}

/// The header of an entry of type `code` and size `size`.
pub open spec fn entry_header_bytes(code: nat, size: nat) -> Seq<u8> {
    if size < 16 {
        seq![(code * 16 + size) as u8]
    } else {
        seq![(128 + code * 16 + size % 16) as u8] + varint_bytes(size / 16)
    }
}

/// A decoded object: where its entry starts, its kind and its payload.
pub type Decoded = (int, ObjectType, Seq<u8>);

/// The first earlier object whose entry starts at `start`.
pub open spec fn find_start(prior: Seq<Decoded>, start: int) -> Option<int>
    decreases prior.len(),
{
    if prior.len() == 0 {
        None
    } else if prior[0].0 == start {
        Some(0)
    } else {
        match find_start(prior.drop_first(), start) {
            Some(i) => Some(i + 1),
            None => None,
        }
    }
}

/// The first earlier object whose identifier is `id`.
pub open spec fn find_id(prior: Seq<Decoded>, id: Seq<u8>) -> Option<int>
    decreases prior.len(),
{
    if prior.len() == 0 {
        None
    } else if sha1_of(loose_bytes(prior[0].1, prior[0].2)) == id {
        Some(0)
    } else {
        match find_id(prior.drop_first(), id) {
            Some(i) => Some(i + 1),
            None => None,
        }
    }
}

/// The backward distance of an offset delta at `pos`: seven bits a byte,
/// highest first, each continuation adding one before the shift; none of
/// the steps may pass the 64-bit range.
pub open spec fn ofs_from(b: Seq<u8>, pos: int, acc: nat, k: nat) -> Option<(nat, int)>
    decreases 10 - k,
{
    if k >= 10 || pos < 0 || pos >= b.len() {
        None
    } else {
        let v = if k == 0 {
            (b[pos] % 128) as nat
        } else {
            (acc + 1) * 128 + (b[pos] % 128) as nat
        };
        if v > u64::MAX {
            None
        } else if b[pos] < 128 {
            Some((v, pos + 1))
        } else {
            ofs_from(b, pos + 1, v, k + 1)
        }
    }
}

/// The object of a base entry of kind `kind` and size `size` whose data starts at `h`.
pub open spec fn base_step(b: Seq<u8>, pos: int, h: int, kind: ObjectType, size: nat) -> Option<(Decoded, int)> {
    match zlib_prefix(b.subrange(h, b.len() as int)) {
        Some((data, used)) => if data.len() == size && used > 0 {
            Some(((pos, kind, data), h + used))
        } else {
            None
        },
        None => None,
    }
}

/// The object of an offset delta whose distance starts at `h`.
pub open spec fn ofs_step(b: Seq<u8>, pos: int, h: int, size: nat, prior: Seq<Decoded>) -> Option<(Decoded, int)> {
    match ofs_from(b, h, 0, 0) {
        None => None,
        Some((ofs, h2)) => match find_start(prior, pos - ofs) {
            None => None,
            Some(i) => match zlib_prefix(b.subrange(h2, b.len() as int)) {
                Some((d, used)) => if d.len() == size && used > 0 {
                    match apply_delta_spec(prior[i].2, d) {
                        Some(data) => Some(((pos, prior[i].1, data), h2 + used)),
                        None => None,
                    }
                } else {
                    None
                },
                None => None,
            },
        },
    }
}

/// The object of a delta against the object named at `h`; an object cannot
/// be its own base.
pub open spec fn ref_step(b: Seq<u8>, pos: int, h: int, size: nat, prior: Seq<Decoded>) -> Option<(Decoded, int)> {
    if h + 20 <= b.len() {
        let base_id = b.subrange(h, h + 20);
        match find_id(prior, base_id) {
            None => None,
            Some(i) => match zlib_prefix(b.subrange(h + 20, b.len() as int)) {
                Some((d, used)) => if d.len() == size && used > 0 {
                    match apply_delta_spec(prior[i].2, d) {
                        Some(data) => if sha1_of(loose_bytes(prior[i].1, data)) != base_id {
                            Some(((pos, prior[i].1, data), h + 20 + used))
                        } else {
                            None
                        },
                        None => None,
                    }
                } else {
                    None
                },
                None => None,
            },
        }
    } else {
        None
    }
}

/// The object of the entry at `pos`, after the objects `prior`, and the
/// position after the entry.
#[verifier::opaque]
pub open spec fn step(b: Seq<u8>, pos: int, prior: Seq<Decoded>) -> Option<(Decoded, int)> {
    match entry_header(b, pos) {
        None => None,
        Some((code, size, h)) => if kind_of_code(code) is Some {
            base_step(b, pos, h, kind_of_code(code)->0, size)
        } else if code == 6 {
            ofs_step(b, pos, h, size, prior)
        } else if code == 7 {
            ref_step(b, pos, h, size, prior)
        } else {
            None
        },
    }
}

/// The objects of the `k` entries from `pos` on in the body `b`, after the
/// objects `prior`; the body must end with the last entry.
pub open spec fn entries_from(b: Seq<u8>, pos: int, k: nat, prior: Seq<Decoded>) -> Option<Seq<Decoded>>
    decreases k,
{
    if k == 0 {
        if pos == b.len() {
            Some(prior)
        } else {
            None
        }
    } else {
        match step(b, pos, prior) {
            None => None,
            Some((o, e)) => entries_from(b, e, (k - 1) as nat, prior.push(o)),
        }
    }
}

/// The objects of a pack, in order: the header must read `PACK`, version 2
/// and a count; the entries must be exactly that many and fill the body;
/// the last 20 bytes must be the SHA-1 digest of the rest.
pub open spec fn decode_spec(p: Seq<u8>) -> Option<Seq<Decoded>> {
    if p.len() >= 32 && p.subrange(0, 4) == seq![80u8, 65, 67, 75] && be32(p, 4) == 2
        && sha1_of(p.subrange(0, p.len() - 20)) == p.subrange(p.len() - 20, p.len() as int) {
        entries_from(p.subrange(0, p.len() - 20), 12, be32(p, 8), Seq::empty())
    } else {
        None
    }
}

proof fn lemma_cap_one()
    ensures
        varint_cap(1) == 0x100_0000_0000_0000,
{
    reveal_with_fuel(varint_cap, 10);
}

/// Reads an entry header at `pos`.
fn read_entry_header(b: &[u8], pos: usize) -> (r: Option<(u64, u64, usize)>)
    ensures
        match entry_header(b@, pos as int) {
            Some((code, size, e)) => code < 8 && size <= u64::MAX && pos < e <= b@.len()
                && r == Some((code as u64, size as u64, e as usize)),
            None => r is None,
        },
{
    let n = b.len();
    if pos >= n {
        return None;
    }
    let c = b[pos];
    let code = ((c / 16) % 8) as u64;
    let low = (c % 16) as u64;
    if c < 128 {
        Some((code, low, pos + 1))
    } else {
        proof {
            lemma_cap_one();
        }
        match crate::delta::read_varint(b, pos + 1, 1) {
            Some((v, e)) => {
                proof {
                    crate::delta::lemma_varint_bound(b@, pos as int + 1, 1);
                }
                assert(low + 16 * v <= u64::MAX);
                Some((code, low + 16 * v, e))
            },
            None => None,
        }
    }
}

/// Reads the backward distance of an offset delta.
fn read_ofs(b: &[u8], pos: usize, acc: u64, k: u64) -> (r: Option<(u64, usize)>)
    requires
        k <= 10,
    ensures
        match ofs_from(b@, pos as int, acc as nat, k as nat) {
            Some((v, e)) => v <= u64::MAX && pos < e <= b@.len() && r == Some((v as u64, e as usize)),
            None => r is None,
        },
    decreases 10 - k,
{
    let n = b.len();
    if k >= 10 || pos >= n {
        return None;
    }
    let c = b[pos];
    let v: u64 = if k == 0 {
        (c % 128) as u64
    } else {
        if acc >= 0x1ff_ffff_ffff_ffff {
            return None;
        }
        (acc + 1) * 128 + (c % 128) as u64
    };
    if c < 128 {
        Some((v, pos + 1))
    } else {
        read_ofs(b, pos + 1, v, k + 1)
    }
}

/// A decoded object as the decoder keeps it.
struct Slot {
    start: usize,
    kind: ObjectType,
    data: Vec<u8>,
    id: SHA1,
}

spec fn slots_view(s: Seq<Slot>) -> Seq<Decoded> {
    s.map_values(|x: Slot| (x.start as int, x.kind, x.data@))
}

spec fn slots_ok(s: Seq<Slot>) -> bool {
    forall|i: int| 0 <= i < s.len() ==> (#[trigger] s[i]).id@ == sha1_of(loose_bytes(s[i].kind, s[i].data@))
}

proof fn lemma_find_start(prior: Seq<Decoded>, start: int, i: int)
    requires
        0 <= i <= prior.len(),
        forall|j: int| 0 <= j < i ==> prior[j].0 != start,
    ensures
        find_start(prior, start) == match find_start(prior.subrange(i, prior.len() as int), start) {
            Some(x) => Some(x + i),
            None => None::<int>,
        },
    decreases i,
{
    if i > 0 {
        lemma_find_start(prior.drop_first(), start, i - 1);
        assert(prior.drop_first().subrange(i - 1, prior.len() - 1) =~= prior.subrange(i, prior.len() as int));
    } else {
        assert(prior.subrange(0, prior.len() as int) =~= prior);
    }
}

proof fn lemma_find_id(prior: Seq<Decoded>, id: Seq<u8>, i: int)
    requires
        0 <= i <= prior.len(),
        forall|j: int| 0 <= j < i ==> sha1_of(loose_bytes(prior[j].1, prior[j].2)) != id,
    ensures
        find_id(prior, id) == match find_id(prior.subrange(i, prior.len() as int), id) {
            Some(x) => Some(x + i),
            None => None::<int>,
        },
    decreases i,
{
    if i > 0 {
        lemma_find_id(prior.drop_first(), id, i - 1);
        assert(prior.drop_first().subrange(i - 1, prior.len() - 1) =~= prior.subrange(i, prior.len() as int));
    } else {
        assert(prior.subrange(0, prior.len() as int) =~= prior);
    }
}

fn slot_at_start(slots: &Vec<Slot>, start: usize) -> (r: Option<usize>)
    ensures
        match find_start(slots_view(slots@), start as int) {
            Some(i) => r == Some(i as usize),
            None => r is None,
        },
{
    let mut i: usize = 0;
    while i < slots.len()
        invariant
            i <= slots@.len(),
            forall|j: int| 0 <= j < i ==> slots_view(slots@)[j].0 != start as int,
        decreases slots@.len() - i,
    {
        if slots[i].start == start {
            proof {
                lemma_find_start(slots_view(slots@), start as int, i as int);
            }
            return Some(i);
        }
        i = i + 1;
    }
    proof {
        lemma_find_start(slots_view(slots@), start as int, i as int);
    }
    None
}

fn slot_with_id(slots: &Vec<Slot>, id: &[u8]) -> (r: Option<usize>)
    requires
        slots_ok(slots@),
    ensures
        match find_id(slots_view(slots@), id@) {
            Some(i) => r == Some(i as usize),
            None => r is None,
        },
{
    let mut i: usize = 0;
    while i < slots.len()
        invariant
            i <= slots@.len(),
            slots_ok(slots@),
            forall|j: int| 0 <= j < i ==> sha1_of(loose_bytes(slots_view(slots@)[j].1, slots_view(slots@)[j].2)) != id@,
        decreases slots@.len() - i,
    {
        let own = slots[i].id.to_bytes();
        assert(slots@[i as int].id@ == sha1_of(loose_bytes(slots@[i as int].kind, slots@[i as int].data@)));
        if bytes_eq(own.as_slice(), id) {
            proof {
                lemma_find_id(slots_view(slots@), id@, i as int);
            }
            return Some(i);
        }
        i = i + 1;
    }
    proof {
        lemma_find_id(slots_view(slots@), id@, i as int);
    }
    None
}

spec fn starts_ok(slots: Seq<Slot>, bn: int) -> bool {
    forall|j: int| 0 <= j < slots.len() ==> (#[trigger] slots[j]).start < bn
}

fn push_slot(slots: &mut Vec<Slot>, start: usize, kind: ObjectType, data: Vec<u8>)
    requires
        slots_ok(old(slots)@),
    ensures
        slots_ok(final(slots)@),
        slots_view(final(slots)@) == slots_view(old(slots)@).push((start as int, kind, data@)),
        final(slots)@.len() == old(slots)@.len() + 1,
        forall|j: int| 0 <= j < old(slots)@.len() ==> final(slots)@[j] == old(slots)@[j],
        final(slots)@.last().start == start,
{
    let id = object_hash(kind, data.as_slice());
    let ghost d = data@;
    slots.push(Slot { start, kind, data, id });
    assert(slots_view(slots@) =~= slots_view(old(slots)@).push((start as int, kind, d)));
}

fn decode_base(b: &[u8], pos: usize, h: usize, kind: ObjectType, size: u64, slots: &mut Vec<Slot>) -> (r: Option<usize>)
    requires
        slots_ok(old(slots)@),
        starts_ok(old(slots)@, b@.len() as int),
        pos < h <= b@.len(),
    ensures
        match base_step(b@, pos as int, h as int, kind, size as nat) {
            Some((o, e)) => pos < e <= b@.len() && r == Some(e as usize)
                && slots_view(final(slots)@) == slots_view(old(slots)@).push(o),
            None => r is None,
        },
        slots_ok(final(slots)@),
        starts_ok(final(slots)@, b@.len() as int),
{
    let n = b.len();
    let (data, used) = match inflate_prefix(vstd::slice::slice_subrange(b, h, n)) {
        Some(x) => x,
        None => return None,
    };
    if data.len() as u64 != size || used == 0 {
        return None;
    }
    push_slot(slots, pos, kind, data);
    Some(h + used)
}

fn decode_ofs(b: &[u8], pos: usize, h: usize, size: u64, slots: &mut Vec<Slot>) -> (r: Option<usize>)
    requires
        slots_ok(old(slots)@),
        starts_ok(old(slots)@, b@.len() as int),
        pos < h <= b@.len(),
    ensures
        match ofs_step(b@, pos as int, h as int, size as nat, slots_view(old(slots)@)) {
            Some((o, e)) => pos < e <= b@.len() && r == Some(e as usize)
                && slots_view(final(slots)@) == slots_view(old(slots)@).push(o),
            None => r is None,
        },
        slots_ok(final(slots)@),
        starts_ok(final(slots)@, b@.len() as int),
{
    let n = b.len();
    let ghost prior = slots_view(slots@);
    let (ofs, h2) = match read_ofs(b, h, 0, 0) {
        Some(x) => x,
        None => return None,
    };
    if ofs > pos as u64 {
        proof {
            assert forall|j: int| 0 <= j < prior.len() implies prior[j].0 != pos - ofs by {
                assert(prior[j].0 == slots@[j].start as int);
            }
            lemma_find_start(prior, pos - ofs, prior.len() as int);
            assert(prior.subrange(prior.len() as int, prior.len() as int) =~= Seq::<Decoded>::empty());
        }
        return None;
    }
    let count = slots.len();
    let back = pos - ofs as usize;
    assert(back as int == pos as int - ofs as int);
    let bi = match slot_at_start(slots, back) {
        Some(x) => x,
        None => return None,
    };
    proof {
        lemma_find_start_bound(prior, pos - ofs);
        assert(prior[bi as int] == (slots@[bi as int].start as int, slots@[bi as int].kind, slots@[bi as int].data@));
    }
    let (d, used) = match inflate_prefix(vstd::slice::slice_subrange(b, h2, n)) {
        Some(x) => x,
        None => return None,
    };
    if d.len() as u64 != size || used == 0 {
        return None;
    }
    let ghost i = find_start(prior, pos - ofs)->0;
    assert(i == bi as int);
    assert(prior[i].2 == slots@[bi as int].data@);
    let data = match apply_delta(slots[bi].data.as_slice(), d.as_slice()) {
        Some(x) => x,
        None => return None,
    };
    let kind = slots[bi].kind;
    push_slot(slots, pos, kind, data);
    Some(h2 + used)
}

fn decode_ref(b: &[u8], pos: usize, h: usize, size: u64, slots: &mut Vec<Slot>) -> (r: Option<usize>)
    requires
        slots_ok(old(slots)@),
        starts_ok(old(slots)@, b@.len() as int),
        pos < h <= b@.len(),
    ensures
        match ref_step(b@, pos as int, h as int, size as nat, slots_view(old(slots)@)) {
            Some((o, e)) => pos < e <= b@.len() && r == Some(e as usize)
                && slots_view(final(slots)@) == slots_view(old(slots)@).push(o),
            None => r is None,
        },
        slots_ok(final(slots)@),
        starts_ok(final(slots)@, b@.len() as int),
{
    let n = b.len();
    let ghost prior = slots_view(slots@);
    if n - h < 20 {
        return None;
    }
    let count = slots.len();
    let base_id = vstd::slice::slice_subrange(b, h, h + 20);
    let bi = match slot_with_id(slots, base_id) {
        Some(x) => x,
        None => return None,
    };
    proof {
        lemma_find_id_bound(prior, base_id@);
        assert(prior[bi as int] == (slots@[bi as int].start as int, slots@[bi as int].kind, slots@[bi as int].data@));
    }
    let (d, used) = match inflate_prefix(vstd::slice::slice_subrange(b, h + 20, n)) {
        Some(x) => x,
        None => return None,
    };
    if d.len() as u64 != size || used == 0 {
        return None;
    }
    let data = match apply_delta(slots[bi].data.as_slice(), d.as_slice()) {
        Some(x) => x,
        None => return None,
    };
    let kind = slots[bi].kind;
    let id = object_hash(kind, data.as_slice());
    let own = id.to_bytes();
    if bytes_eq(own.as_slice(), base_id) {
        return None;
    }
    push_slot(slots, pos, kind, data);
    Some(h + 20 + used)
}

proof fn lemma_find_start_bound(prior: Seq<Decoded>, start: int)
    ensures
        find_start(prior, start) matches Some(i) ==> 0 <= i < prior.len() && prior[i].0 == start,
    decreases prior.len(),
{
    if prior.len() > 0 {
        lemma_find_start_bound(prior.drop_first(), start);
    }
}

proof fn lemma_find_id_bound(prior: Seq<Decoded>, id: Seq<u8>)
    ensures
        find_id(prior, id) matches Some(i) ==> 0 <= i < prior.len(),
    decreases prior.len(),
{
    if prior.len() > 0 {
        lemma_find_id_bound(prior.drop_first(), id);
    }
}

fn decode_step(b: &[u8], pos: usize, slots: &mut Vec<Slot>) -> (r: Option<usize>)
    requires
        slots_ok(old(slots)@),
        starts_ok(old(slots)@, b@.len() as int),
    ensures
        match step(b@, pos as int, slots_view(old(slots)@)) {
            Some((o, e)) => pos < e <= b@.len() && r == Some(e as usize)
                && slots_view(final(slots)@) == slots_view(old(slots)@).push(o),
            None => r is None,
        },
        slots_ok(final(slots)@),
        starts_ok(final(slots)@, b@.len() as int),
{
    reveal(step);
    let n = b.len();
    let (code, size, h) = match read_entry_header(b, pos) {
        Some(x) => x,
        None => return None,
    };
    if code == 1 {
        decode_base(b, pos, h, ObjectType::Commit, size, slots)
    } else if code == 2 {
        decode_base(b, pos, h, ObjectType::Tree, size, slots)
    } else if code == 3 {
        decode_base(b, pos, h, ObjectType::Blob, size, slots)
    } else if code == 4 {
        decode_base(b, pos, h, ObjectType::Tag, size, slots)
    } else if code == 6 {
        decode_ofs(b, pos, h, size, slots)
    } else if code == 7 {
        decode_ref(b, pos, h, size, slots)
    } else {
        None
    }
}

/// The entries of an object as the pack codec hands them on.
pub open spec fn entries_view(e: Seq<crate::mr::Entry>) -> Seq<(ObjectType, Seq<u8>)> {
    e.map_values(|x: crate::mr::Entry| (x.obj_type, x.data@))
}

/// The kinds and payloads of decoded objects.
pub open spec fn decoded_objects(d: Seq<Decoded>) -> Seq<(ObjectType, Seq<u8>)> {
    d.map_values(|x: Decoded| (x.1, x.2))
}

/// Reads a pack into its objects, in the order of their entries; deltas
/// are resolved against the objects before them.
#[verifier::rlimit(40)]
pub fn decode(p: &[u8]) -> (r: Result<Vec<crate::mr::Entry>, GitError>)
    ensures
        match decode_spec(p@) {
            Some(d) => r is Ok && entries_view(r->Ok_0@) == decoded_objects(d)
                && forall|i: int| 0 <= i < r->Ok_0@.len() ==> (#[trigger] r->Ok_0@[i]).hash@
                    == sha1_of(loose_bytes(d[i].1, d[i].2)),
            None => r == Err::<Vec<crate::mr::Entry>, GitError>(GitError::MalformedPack),
        },
{
    let n = p.len();
    if n < 32 {
        return Err(GitError::MalformedPack);
    }
    let m = vstd::slice::slice_subrange(p, 0, 4);
    let mv = vec![80u8, 65, 67, 75];
    assert(mv@ =~= seq![80u8, 65, 67, 75]);
    if !bytes_eq(m, mv.as_slice()) {
        return Err(GitError::MalformedPack);
    }
    let version = (p[4] as u64) * 16777216 + (p[5] as u64) * 65536 + (p[6] as u64) * 256 + (p[7] as u64);
    if version != 2 {
        return Err(GitError::MalformedPack);
    }
    let count = (p[8] as u64) * 16777216 + (p[9] as u64) * 65536 + (p[10] as u64) * 256 + (p[11] as u64);
    let body = vstd::slice::slice_subrange(p, 0, n - 20);
    let trailer = vstd::slice::slice_subrange(p, n - 20, n);
    let digest = crate::object::sha1_bytes(body);
    if !bytes_eq(digest.as_slice(), trailer) {
        return Err(GitError::MalformedPack);
    }
    let bn = body.len();
    let mut slots: Vec<Slot> = Vec::new();
    let mut pos: usize = 12;
    let mut i: u64 = 0;
    assert(slots_view(slots@) =~= Seq::<Decoded>::empty());
    let ghost target = entries_from(body@, 12, count as nat, Seq::empty());
    assert(decode_spec(p@) == target);
    while i < count
        invariant
            bn == body@.len(),
            i <= count,
            pos <= bn,
            slots_ok(slots@),
            starts_ok(slots@, bn as int),
            target == entries_from(body@, pos as int, (count - i) as nat, slots_view(slots@)),
            decode_spec(p@) == target,
        decreases count - i,
    {
        let ghost k = (count - i) as nat;
        let ghost prior = slots_view(slots@);
        assert(entries_from(body@, pos as int, k, prior) == match step(body@, pos as int, prior) {
            None => None,
            Some((o, e)) => entries_from(body@, e, (k - 1) as nat, prior.push(o)),
        });
        pos = match decode_step(body, pos, &mut slots) {
            Some(e) => e,
            None => return Err(GitError::MalformedPack),
        };
        assert((count - (i + 1)) as nat == (k - 1) as nat);
        i = i + 1;
    }
    if pos != bn {
        return Err(GitError::MalformedPack);
    }
    let mut out: Vec<crate::mr::Entry> = Vec::new();
    let mut j: usize = 0;
    while j < slots.len()
        invariant
            j <= slots@.len(),
            slots_ok(slots@),
            out@.len() == j,
            forall|x: int| 0 <= x < j ==> (#[trigger] out@[x]).obj_type == slots@[x].kind
                && out@[x].data@ == slots@[x].data@ && out@[x].hash == slots@[x].id,
        decreases slots@.len() - j,
    {
        out.push(crate::mr::Entry { obj_type: slots[j].kind, hash: slots[j].id, data: slots[j].data.clone() });
        j = j + 1;
    }
    assert(entries_view(out@) =~= decoded_objects(slots_view(slots@)));
    Ok(out)
}

/// The concatenation of `segs`.
pub open spec fn concat(segs: Seq<Seq<u8>>) -> Seq<u8>
    decreases segs.len(),
{
    if segs.len() == 0 {
        Seq::empty()
    } else {
        segs[0] + concat(segs.drop_first())
    }
}

/// `seg` is an entry that holds the object `o` without a delta.
pub open spec fn seg_ok(seg: Seq<u8>, o: (ObjectType, Seq<u8>)) -> bool {
    exists|z: Seq<u8>|
        #![trigger entry_header_bytes(kind_code(o.0), o.1.len()) + z]
        seg == entry_header_bytes(kind_code(o.0), o.1.len()) + z && z.len() > 0 && forall|tail: Seq<u8>|
            #[trigger] zlib_prefix(z + tail) == Some((o.1, z.len()))
}

proof fn lemma_varint_round_trip(b: Seq<u8>, pos: int, k: nat, v: nat)
    requires
        k < 9,
        v < varint_cap(k),
        0 <= pos,
        pos + varint_bytes(v).len() <= b.len(),
        b.subrange(pos, pos + varint_bytes(v).len()) == varint_bytes(v),
    ensures
        varint_from(b, pos, k) == Some((v, pos + varint_bytes(v).len())),
    decreases v,
{
    let vb = varint_bytes(v);
    assert(b[pos] == b.subrange(pos, pos + vb.len())[0]);
    if v < 128 {
    } else {
        let rest = varint_bytes(v / 128);
        assert(vb == seq![(v % 128 + 128) as u8] + rest);
        if k + 1 >= 9 {
            assert(varint_cap(k) == 128) by {
                reveal_with_fuel(varint_cap, 2);
            }
        }
        assert(v / 128 < varint_cap(k + 1)) by (nonlinear_arith)
            requires
                v < varint_cap(k),
                varint_cap(k) == 128 * varint_cap(k + 1),
        ;
        assert(b.subrange(pos + 1, pos + 1 + rest.len()) =~= rest) by {
            assert forall|j: int| 0 <= j < rest.len() implies b.subrange(pos + 1, pos + 1 + rest.len())[j] == rest[j] by {
                assert(b[pos + 1 + j] == b.subrange(pos, pos + vb.len())[1 + j]);
            }
        }
        lemma_varint_round_trip(b, pos + 1, k + 1, v / 128);
        assert(v == v % 128 + 128 * (v / 128)) by (nonlinear_arith);
    }
}

proof fn lemma_entry_header_round_trip(b: Seq<u8>, pos: int, code: nat, size: nat)
    requires
        1 <= code <= 4,
        size < 0x1000_0000_0000_0000,
        0 <= pos,
        pos + entry_header_bytes(code, size).len() <= b.len(),
        b.subrange(pos, pos + entry_header_bytes(code, size).len()) == entry_header_bytes(code, size),
    ensures
        entry_header(b, pos) == Some((code, size, pos + entry_header_bytes(code, size).len())),
{
    let hb = entry_header_bytes(code, size);
    assert(b[pos] == hb[0]);
    if size < 16 {
        let c = (code * 16 + size) as u8;
        assert(c as nat == code * 16 + size);
        assert((c / 16) % 8 == code) by (nonlinear_arith)
            requires
                c as nat == code * 16 + size,
                size < 16,
                code <= 4,
        ;
        assert(c % 16 == size) by (nonlinear_arith)
            requires
                c as nat == code * 16 + size,
                size < 16,
        ;
    } else {
        let c = (128 + code * 16 + size % 16) as u8;
        assert(c as nat == 128 + code * 16 + size % 16);
        assert((c / 16) % 8 == code) by (nonlinear_arith)
            requires
                c as nat == 128 + code * 16 + size % 16,
                code <= 4,
        ;
        assert(c % 16 == size % 16) by (nonlinear_arith)
            requires
                c as nat == 128 + code * 16 + size % 16,
        ;
        let vb = varint_bytes(size / 16);
        lemma_cap_one();
        assert(b.subrange(pos + 1, pos + 1 + vb.len()) =~= vb) by {
            assert forall|j: int| 0 <= j < vb.len() implies b.subrange(pos + 1, pos + 1 + vb.len())[j] == vb[j] by {
                assert(b[pos + 1 + j] == b.subrange(pos, pos + hb.len())[1 + j]);
            }
        }
        lemma_varint_round_trip(b, pos + 1, 1, size / 16);
        assert(size == size % 16 + 16 * (size / 16)) by (nonlinear_arith);
    }
}

/// Reading entries that were written without deltas gives their objects.
#[verifier::rlimit(40)]
proof fn lemma_entries_round_trip(
    b: Seq<u8>,
    pos: int,
    segs: Seq<Seq<u8>>,
    objs: Seq<(ObjectType, Seq<u8>)>,
    prior: Seq<Decoded>,
)
    requires
        0 <= pos <= b.len(),
        b.subrange(pos, b.len() as int) == concat(segs),
        segs.len() == objs.len(),
        forall|i: int| 0 <= i < segs.len() ==> seg_ok(#[trigger] segs[i], objs[i]),
        forall|i: int| 0 <= i < objs.len() ==> (#[trigger] objs[i]).1.len() < 0x1000_0000_0000_0000,
    ensures
        entries_from(b, pos, segs.len(), prior) matches Some(d) && decoded_objects(d)
            == decoded_objects(prior) + objs,
    decreases segs.len(),
{
    reveal(step);
    if segs.len() == 0 {
        assert(b.subrange(pos, b.len() as int).len() == 0);
        assert(decoded_objects(prior) + objs =~= decoded_objects(prior));
    } else {
        let o = objs[0];
        assert(seg_ok(segs[0], o));
        let hb = entry_header_bytes(kind_code(o.0), o.1.len());
        let z = choose|z: Seq<u8>|
            #![trigger entry_header_bytes(kind_code(o.0), o.1.len()) + z]
            segs[0] == entry_header_bytes(kind_code(o.0), o.1.len()) + z && z.len() > 0 && forall|tail: Seq<u8>|
                #[trigger] zlib_prefix(z + tail) == Some((o.1, z.len()));
        let rest = concat(segs.drop_first());
        let tail = b.subrange(pos, b.len() as int);
        assert(tail == hb + z + rest);
        assert(b.subrange(pos, pos + hb.len()) =~= hb) by {
            assert forall|j: int| 0 <= j < hb.len() implies b.subrange(pos, pos + hb.len())[j] == hb[j] by {
                assert(b[pos + j] == tail[j]);
            }
        }
        lemma_entry_header_round_trip(b, pos, kind_code(o.0), o.1.len());
        let h = pos + hb.len();
        assert(b.subrange(h, b.len() as int) =~= tail.subrange(hb.len() as int, tail.len() as int));
        assert(tail.subrange(hb.len() as int, tail.len() as int) =~= z + rest);
        assert(zlib_prefix(z + rest) == Some((o.1, z.len())));
        assert(kind_of_code(kind_code(o.0)) == Some(o.0));
        let e = h + z.len();
        assert(b.subrange(e, b.len() as int) =~= tail.subrange((hb.len() + z.len()) as int, tail.len() as int));
        assert(tail.subrange((hb.len() + z.len()) as int, tail.len() as int) =~= rest);
        let o2 = (pos, o.0, o.1);
        assert forall|i: int| 0 <= i < segs.drop_first().len() implies seg_ok(#[trigger] segs.drop_first()[i], objs.drop_first()[i]) by {
            assert(segs.drop_first()[i] == segs[i + 1]);
            assert(objs.drop_first()[i] == objs[i + 1]);
        }
        assert forall|i: int| 0 <= i < objs.drop_first().len() implies (#[trigger] objs.drop_first()[i]).1.len() < 0x1000_0000_0000_0000 by {
            assert(objs.drop_first()[i] == objs[i + 1]);
        }
        lemma_entries_round_trip(b, e, segs.drop_first(), objs.drop_first(), prior.push(o2));
        assert(decoded_objects(prior.push(o2)) =~= decoded_objects(prior).push((o.0, o.1)));
        assert(decoded_objects(prior).push((o.0, o.1)) + objs.drop_first() =~= decoded_objects(prior) + objs);
    }
}

proof fn lemma_concat_push(segs: Seq<Seq<u8>>, x: Seq<u8>)
    ensures
        concat(segs.push(x)) == concat(segs) + x,
    decreases segs.len(),
{
    if segs.len() == 0 {
        assert(segs.push(x).drop_first() =~= Seq::<Seq<u8>>::empty());
        assert(concat(Seq::<Seq<u8>>::empty()) =~= Seq::<u8>::empty());
        assert(concat(segs) =~= Seq::<u8>::empty());
        assert(concat(segs.push(x)) == x + concat(segs.push(x).drop_first()));
        assert(concat(segs.push(x)) =~= concat(segs) + x);
    } else {
        lemma_concat_push(segs.drop_first(), x);
        assert(segs.push(x).drop_first() =~= segs.drop_first().push(x));
        assert(concat(segs.push(x)) =~= concat(segs) + x);
    }
}

fn write_varint(v: u64) -> (r: Vec<u8>)
    ensures
        r@ == varint_bytes(v as nat),
    decreases v,
{
    if v < 128 {
        let r = vec![v as u8];
        assert(r@ =~= varint_bytes(v as nat));
        r
    } else {
        let mut r = vec![(v % 128 + 128) as u8];
        let rest = write_varint(v / 128);
        append_bytes(&mut r, rest.as_slice());
        assert(r@ =~= varint_bytes(v as nat));
        r
    }
}

fn write_entry_header(code: u64, size: u64) -> (r: Vec<u8>)
    requires
        1 <= code <= 4,
    ensures
        r@ == entry_header_bytes(code as nat, size as nat),
{
    if size < 16 {
        let r = vec![(code * 16 + size) as u8];
        assert(r@ =~= entry_header_bytes(code as nat, size as nat));
        r
    } else {
        let mut r = vec![(128 + code * 16 + size % 16) as u8];
        let rest = write_varint(size / 16);
        append_bytes(&mut r, rest.as_slice());
        assert(r@ =~= entry_header_bytes(code as nat, size as nat));
        r
    }
}

/// One entry that holds the object `e` whole.
fn write_entry(e: &crate::mr::Entry) -> (r: Vec<u8>)
    ensures
        seg_ok(r@, (e.obj_type, e.data@)),
{
    let code: u64 = match e.obj_type {
        ObjectType::Commit => 1,
        ObjectType::Tree => 2,
        ObjectType::Blob => 3,
        ObjectType::Tag => 4,
    };
    let mut r = write_entry_header(code, e.data.len() as u64);
    let z = deflate(e.data.as_slice());
    let ghost hb = r@;
    append_bytes(&mut r, z.as_slice());
    assert(r@ == entry_header_bytes(kind_code(e.obj_type), e.data@.len()) + z@);
    let ghost o = (e.obj_type, e.data@);
    assert(r@ == entry_header_bytes(kind_code(o.0), o.1.len()) + z@);
    assert(forall|tail: Seq<u8>| #[trigger] zlib_prefix(z@ + tail) == Some((o.1, z@.len())));
    assert(z@.len() > 0);
    assert(seg_ok(r@, o));
    r
}

/// Writes a pack of the objects `entries`, each whole, in that order.
#[verifier::rlimit(40)]
pub fn encode(entries: &Vec<crate::mr::Entry>) -> (r: Vec<u8>)
    requires
        entries@.len() < 0x1_0000_0000,
        forall|i: int| 0 <= i < entries@.len() ==> (#[trigger] entries@[i]).data@.len() < 0x1000_0000_0000_0000,
    ensures
        decode_spec(r@) matches Some(d) && decoded_objects(d) == entries_view(entries@),
        r@.len() >= 32,
        r@.subrange(0, 12) == pack_header(entries@.len()),
        r@.subrange(r@.len() - 20, r@.len() as int) == sha1_of(r@.subrange(0, r@.len() - 20)),
        entries@.len() == 0 ==> r@.len() == 32,
{
    let count = entries.len() as u64;
    let mut out: Vec<u8> = vec![
        80u8, 65, 67, 75, 0, 0, 0, 2,
        (count / 16777216 % 256) as u8, (count / 65536 % 256) as u8, (count / 256 % 256) as u8,
        (count % 256) as u8,
    ];
    assert(out@ =~= pack_header(count as nat));
    let ghost segs: Seq<Seq<u8>> = Seq::empty();
    let mut i: usize = 0;
    while i < entries.len()
        invariant
            i <= entries@.len(),
            segs.len() == i,
            out@ == pack_header(count as nat) + concat(segs),
            forall|j: int| 0 <= j < i ==> seg_ok(#[trigger] segs[j], entries_view(entries@)[j]),
        decreases entries@.len() - i,
    {
        let seg = write_entry(&entries[i]);
        append_bytes(&mut out, seg.as_slice());
        proof {
            lemma_concat_push(segs, seg@);
            segs = segs.push(seg@);
        }
        i = i + 1;
    }
    let ghost body = out@;
    let digest = crate::object::sha1_bytes(out.as_slice());
    append_bytes(&mut out, digest.as_slice());
    proof {
        let r = out@;
        assert(r.subrange(0, 12) =~= body.subrange(0, 12));
        assert(body.subrange(0, 12) =~= pack_header(count as nat));
        if entries@.len() == 0 {
            assert(concat(segs) =~= Seq::<u8>::empty());
        }
        assert(r.subrange(0, r.len() - 20) =~= body);
        assert(r.subrange(r.len() - 20, r.len() as int) =~= digest@);
        assert(r.subrange(0, 4) =~= seq![80u8, 65, 67, 75]);
        assert(r[8] == body[8] && r[9] == body[9] && r[10] == body[10] && r[11] == body[11]);
        let c = count as nat;
        assert(be32(r, 8) == c) by (nonlinear_arith)
            requires
                r[8] as nat == c / 16777216 % 256,
                r[9] as nat == c / 65536 % 256,
                r[10] as nat == c / 256 % 256,
                r[11] as nat == c % 256,
                c < 0x1_0000_0000,
        ;
        assert(body.subrange(12, body.len() as int) =~= concat(segs));
        let objs = entries_view(entries@);
        assert forall|j: int| 0 <= j < objs.len() implies (#[trigger] objs[j]).1.len() < 0x1000_0000_0000_0000 by {
            assert(objs[j].1 == entries@[j].data@);
        }
        lemma_entries_round_trip(body, 12, segs, objs, Seq::empty());
        assert(decoded_objects(Seq::<Decoded>::empty()) + objs =~= objs);
    }
    out
}

/// The compressed file form of a stored object.
pub fn compress_loose(meta: &crate::tree::Meta) -> (r: Vec<u8>)
    ensures
        zlib_prefix(r@) == Some((loose_bytes(meta.object_type, meta.data@), r@.len())),
{
    let form = meta.to_loose();
    let z = deflate(form.as_slice());
    assert(z@ + Seq::<u8>::empty() =~= z@);
    assert(zlib_prefix(z@ + Seq::<u8>::empty()) == Some((form@, z@.len())));
    z
}

/// Reads a compressed object file into its kind and payload: the file must
/// be one zlib stream holding the stored form.
pub fn read_loose_file(raw: &[u8]) -> (r: Result<(ObjectType, Vec<u8>), GitError>)
    ensures
        match zlib_prefix(raw@) {
            Some((form, used)) => if used == raw@.len() {
                match crate::object::parse_loose_spec(form) {
                    Some((t, d)) => r matches Ok((t2, d2)) && t2 == t && d2@ == d,
                    None => r == Err::<(ObjectType, Vec<u8>), GitError>(GitError::MalformedObject),
                }
            } else {
                r == Err::<(ObjectType, Vec<u8>), GitError>(GitError::MalformedObject)
            },
            None => r == Err::<(ObjectType, Vec<u8>), GitError>(GitError::MalformedObject),
        },
{
    let (form, used) = match inflate_prefix(raw) {
        Some(x) => x,
        None => return Err(GitError::MalformedObject),
    };
    if used != raw.len() {
        return Err(GitError::MalformedObject);
    }
    crate::object::parse_loose(form.as_slice())
}

} // verus!
