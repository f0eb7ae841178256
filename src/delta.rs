//! Delta scripts: rebuilding an object from a base by copy and insert
//! instructions.
use vstd::prelude::*;

use crate::text::append_bytes;

verus! {

/// The largest value, plus one, of a size field that starts with its
/// `k`-th byte: nine bytes of seven bits at most.
pub open spec fn varint_cap(k: nat) -> nat
    decreases 9 - k,
{
    if k >= 9 {
        1
    } else {
        128 * varint_cap(k + 1)
    }
}

/// A size field at `pos`: seven bits a byte, lowest first, high bit set on
/// every byte but the last; at most nine bytes. The value and the position
/// after it.
pub open spec fn varint_from(b: Seq<u8>, pos: int, k: nat) -> Option<(nat, int)>
    decreases 9 - k,
{
    if k >= 9 || pos < 0 || pos >= b.len() {
        None
    } else if b[pos] < 128 {
        Some((b[pos] as nat, pos + 1))
    } else {
        match varint_from(b, pos + 1, k + 1) {
            Some((v, e)) => Some(((b[pos] - 128) as nat + 128 * v, e)),
            None => None,
        }
    }
}

pub(crate) proof fn lemma_varint_bound(b: Seq<u8>, pos: int, k: nat)
    ensures
        varint_from(b, pos, k) matches Some((v, e)) ==> v < varint_cap(k) && pos < e <= b.len(),
    decreases 9 - k,
{
    if k < 9 && 0 <= pos < b.len() && b[pos] >= 128 {
        lemma_varint_bound(b, pos + 1, k + 1);
        if let Some((v, e)) = varint_from(b, pos + 1, k + 1) {
            let x = (b[pos] - 128) as nat;
            let c = varint_cap(k + 1);
            assert(x + 128 * v < 128 * c) by (nonlinear_arith)
                requires
                    v < c,
                    x < 128,
            ;
        }
    } else if k < 9 && 0 <= pos < b.len() {
        assert(varint_cap(k) >= 128) by {
            reveal_with_fuel(varint_cap, 2);
            lemma_cap_positive(k + 1);
        }
    }
}

proof fn lemma_cap_positive(k: nat)
    ensures
        varint_cap(k) >= 1,
    decreases 9 - k,
{
    if k < 9 {
        lemma_cap_positive(k + 1);
    }
}

pub(crate) proof fn lemma_cap_max(k: nat)
    ensures
        varint_cap(k) <= 0x8000_0000_0000_0000,
{
    assert(varint_cap(0) == 0x8000_0000_0000_0000) by {
        reveal_with_fuel(varint_cap, 10);
    }
    lemma_cap_mono(0, k);
}

proof fn lemma_cap_mono(a: nat, k: nat)
    requires
        a <= k,
    ensures
        varint_cap(k) <= varint_cap(a),
    decreases k - a,
{
    if a < k {
        lemma_cap_mono(a + 1, k);
        lemma_cap_positive(a + 1);
        if a < 9 {
            assert(varint_cap(a + 1) <= varint_cap(a));
        }
    }
}

/// Reads a size field at `pos`.
pub fn read_varint(b: &[u8], pos: usize, k: u64) -> (r: Option<(u64, usize)>)
    requires
        k <= 9,
    ensures
        match varint_from(b@, pos as int, k as nat) {
            Some((v, e)) => r == Some((v as u64, e as usize)) && v < varint_cap(k as nat),
            None => r is None,
        },
    decreases 9 - k,
{
    proof {
        lemma_varint_bound(b@, pos as int, k as nat);
        lemma_cap_max(k as nat);
    }
    if k >= 9 || pos >= b.len() {
        None
    } else if b[pos] < 128 {
        Some((b[pos] as u64, pos + 1))
    } else {
        match read_varint(b, pos + 1, k + 1) {
            Some((v, e)) => {
                proof {
                    lemma_cap_max(k as nat + 1);
                    assert(128 * v < 128 * varint_cap(k as nat + 1)) by (nonlinear_arith)
                        requires
                            v < varint_cap(k as nat + 1),
                    ;
                }
                Some(((b[pos] - 128) as u64 + 128 * v, e))
            },
            None => None,
        }
    }
}

/// `256` to the power `n`.
pub open spec fn pow256(n: nat) -> nat
    decreases n,
{
    if n == 0 {
        1
    } else {
        256 * pow256((n - 1) as nat)
    }
}

/// The little-endian field of a copy instruction at `pos`: of its `n`
/// possible bytes, those whose bit is set in `flags` are present, lowest
/// first; absent ones count as zero. The value and the position after it.
pub open spec fn le_fields(b: Seq<u8>, pos: int, flags: nat, n: nat) -> Option<(nat, int)>
    decreases n,
{
    if n == 0 {
        Some((0, pos))
    } else if flags % 2 == 1 {
        if 0 <= pos < b.len() {
            match le_fields(b, pos + 1, flags / 2, (n - 1) as nat) {
                Some((v, e)) => Some((b[pos] as nat + 256 * v, e)),
                None => None,
            }
        } else {
            None
        }
    } else {
        match le_fields(b, pos, flags / 2, (n - 1) as nat) {
            Some((v, e)) => Some((256 * v, e)),
            None => None,
        }
    }
}

proof fn lemma_le_fields(b: Seq<u8>, pos: int, flags: nat, n: nat)
    ensures
        le_fields(b, pos, flags, n) matches Some((v, e)) ==> v < pow256(n) && pos <= e && (pos <= b.len() ==> e <= b.len()),
    decreases n,
{
    if n > 0 {
        lemma_le_fields(b, pos + 1, flags / 2, (n - 1) as nat);
        lemma_le_fields(b, pos, flags / 2, (n - 1) as nat);
        let p = pow256((n - 1) as nat);
        if flags % 2 == 1 && 0 <= pos < b.len() {
            if let Some((v, e)) = le_fields(b, pos + 1, flags / 2, (n - 1) as nat) {
                let x = b[pos] as nat;
                assert(x + 256 * v < 256 * p) by (nonlinear_arith)
                    requires
                        v < p,
                        x < 256,
                ;
            }
        } else if flags % 2 != 1 {
            if let Some((v, e)) = le_fields(b, pos, flags / 2, (n - 1) as nat) {
                assert(256 * v < 256 * p) by (nonlinear_arith)
                    requires
                        v < p,
                ;
            }
        }
    }
}

/// Reads a field of a copy instruction.
fn read_le(b: &[u8], pos: usize, flags: u8, n: u8) -> (r: Option<(u64, usize)>)
    requires
        n <= 4,
    ensures
        match le_fields(b@, pos as int, flags as nat, n as nat) {
            Some((v, e)) => r == Some((v as u64, e as usize)) && v < pow256(n as nat),
            None => r is None,
        },
    decreases n,
{
    proof {
        lemma_le_fields(b@, pos as int, flags as nat, n as nat);
        lemma_le_fields(b@, pos as int + 1, (flags / 2) as nat, (n - 1) as nat);
        lemma_le_fields(b@, pos as int, (flags / 2) as nat, (n - 1) as nat);
        reveal_with_fuel(pow256, 5);
    }
    if n == 0 {
        Some((0, pos))
    } else if flags % 2 == 1 {
        if pos < b.len() {
            match read_le(b, pos + 1, flags / 2, n - 1) {
                Some((v, e)) => Some((b[pos] as u64 + 256 * v, e)),
                None => None,
            }
        } else {
            None
        }
    } else {
        match read_le(b, pos, flags / 2, n - 1) {
            Some((v, e)) => Some((256 * v, e)),
            None => None,
        }
    }
}

/// The result of running the instructions of `d` from `pos` on, after
/// `acc` was produced so far: a byte with the high bit set copies a range
/// of the base (offset in up to four bytes, size in up to three, a size of
/// zero meaning 65536); a byte from 1 to 127 inserts that many bytes that
/// follow it; a zero byte is an error.
pub open spec fn apply_from(base: Seq<u8>, d: Seq<u8>, pos: int, acc: Seq<u8>) -> Option<Seq<u8>>
    decreases d.len() - pos,
{
    if pos < 0 {
        None
    } else if pos >= d.len() {
        Some(acc)
    } else {
        let c = d[pos];
        if c >= 128 {
            match le_fields(d, pos + 1, (c % 16) as nat, 4) {
                None => None,
                Some((off, e1)) => match le_fields(d, e1, ((c / 16) % 8) as nat, 3) {
                    None => None,
                    Some((sz0, e2)) => {
                        let sz = if sz0 == 0 {
                            65536
                        } else {
                            sz0
                        };
                        if off + sz <= base.len() && pos < e2 <= d.len() {
                            apply_from(base, d, e2, acc + base.subrange(off as int, (off + sz) as int))
                        } else {
                            None
                        }
                    },
                },
            }
        } else if c == 0 {
            None
        } else if pos + 1 + c <= d.len() {
            apply_from(base, d, pos + 1 + c, acc + d.subrange(pos + 1, pos + 1 + c))
        } else {
            None
        }
    }
}

/// The object that the delta script `d` rebuilds from `base`: the script
/// starts with the base's size and the result's size, and both must match.
pub open spec fn apply_delta_spec(base: Seq<u8>, d: Seq<u8>) -> Option<Seq<u8>> {
    match varint_from(d, 0, 0) {
        None => None,
        Some((src, p1)) => match varint_from(d, p1, 0) {
            None => None,
            Some((dst, p2)) => if src == base.len() {
                match apply_from(base, d, p2, Seq::empty()) {
                    Some(r) => if r.len() == dst {
                        Some(r)
                    } else {
                        None
                    },
                    None => None,
                }
            } else {
                None
            },
        },
    }
}

/// Rebuilds an object from `base` with the delta script `d`.
#[verifier::rlimit(40)]
pub fn apply_delta(base: &[u8], d: &[u8]) -> (r: Option<Vec<u8>>)
    ensures
        match apply_delta_spec(base@, d@) {
            Some(x) => r is Some && r->0@ == x,
            None => r is None,
        },
{
    let n = d.len();
    let bn = base.len();
    proof {
        lemma_varint_bound(d@, 0, 0);
        lemma_cap_max(0);
    }
    let (src, p1) = match read_varint(d, 0, 0) {
        Some(x) => x,
        None => return None,
    };
    proof {
        lemma_varint_bound(d@, p1 as int, 0);
    }
    let (dst, p2) = match read_varint(d, p1, 0) {
        Some(x) => x,
        None => return None,
    };
    if src != base.len() as u64 {
        return None;
    }
    let mut out: Vec<u8> = Vec::new();
    let mut pos: usize = p2;
    while pos < n
        invariant
            n == d@.len(),
            pos <= n,
            apply_from(base@, d@, p2 as int, Seq::empty()) == apply_from(base@, d@, pos as int, out@),
            varint_from(d@, 0, 0) == Some((src as nat, p1 as int)),
            varint_from(d@, p1 as int, 0) == Some((dst as nat, p2 as int)),
            src as nat == base@.len(),
        decreases n - pos,
    {
        let c = d[pos];
        proof {
            lemma_le_fields(d@, pos as int + 1, (c % 16) as nat, 4);
        }
        if c >= 128 {
            let (off, e1) = match read_le(d, pos + 1, c % 16, 4) {
                Some(x) => x,
                None => {
                    assert(apply_from(base@, d@, pos as int, out@) is None);
                    return None;
                },
            };
            proof {
                lemma_le_fields(d@, e1 as int, ((c / 16) % 8) as nat, 3);
            }
            let (sz0, e2) = match read_le(d, e1, (c / 16) % 8, 3) {
                Some(x) => x,
                None => {
                    assert(apply_from(base@, d@, pos as int, out@) is None);
                    return None;
                },
            };
            proof {
                reveal_with_fuel(pow256, 5);
                lemma_le_fields(d@, pos as int + 1, (c % 16) as nat, 4);
                lemma_le_fields(d@, e1 as int, ((c / 16) % 8) as nat, 3);
            }
            let sz: u64 = if sz0 == 0 { 65536 } else { sz0 };
            if off + sz > base.len() as u64 || e2 > n {
                return None;
            }
            let piece = vstd::slice::slice_subrange(base, off as usize, (off + sz) as usize);
            append_bytes(&mut out, piece);
            pos = e2;
        } else if c == 0 {
            return None;
        } else {
            if n - pos - 1 < c as usize {
                return None;
            }
            let piece = vstd::slice::slice_subrange(d, pos + 1, pos + 1 + c as usize);
            append_bytes(&mut out, piece);
            pos = pos + 1 + c as usize;
        }
    }
    if out.len() as u64 != dst {
        return None;
    }
    Some(out)
}

} // verus!
