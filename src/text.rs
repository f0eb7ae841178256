//! Byte-level text helpers shared by the object codecs.
use bstr::ByteSlice;
use vstd::prelude::*;
use vstd::utf8::{decode_utf8, valid_utf8};

verus! {

/// Relies on bstr's `ByteSlice::to_str`: it succeeds exactly on valid UTF-8,
/// and the string then holds the characters that the bytes encode.
#[verifier::external_body]
pub(crate) fn utf8_string(b: &[u8]) -> (r: Option<String>)
    ensures
        r is Some <==> valid_utf8(b@),
        r is Some ==> r->0@ == decode_utf8(b@),
{
    b.to_str().ok().map(|s| s.to_string())
}

/// The position of the first `byte` in `s`, if any.
pub open spec fn first_index_of(s: Seq<u8>, byte: u8) -> Option<int>
    decreases s.len(),
{
    if s.len() == 0 {
        None
    } else if s[0] == byte {
        Some(0)
    } else {
        match first_index_of(s.drop_first(), byte) {
            Some(i) => Some(i + 1),
            None => None,
        }
    }
}

/// `first_index_of` finds the earliest occurrence, and finds none only where
/// there is none.
pub proof fn lemma_first_index_of(s: Seq<u8>, byte: u8)
    ensures
        match first_index_of(s, byte) {
            Some(i) => 0 <= i < s.len() && s[i] == byte && forall|j: int| 0 <= j < i ==> s[j] != byte,
            None => forall|j: int| 0 <= j < s.len() ==> s[j] != byte,
        },
    decreases s.len(),
{
    if s.len() > 0 {
        lemma_first_index_of(s.drop_first(), byte);
        if s[0] != byte {
            assert forall|j: int| 1 <= j < s.len() implies s[j] == s.drop_first()[j - 1] by {}
        }
    }
}

/// A position where `byte` first occurs is the one that `first_index_of` gives.
pub proof fn lemma_first_index_at(s: Seq<u8>, byte: u8, i: int)
    requires
        0 <= i < s.len(),
        s[i] == byte,
        forall|j: int| 0 <= j < i ==> s[j] != byte,
    ensures
        first_index_of(s, byte) == Some(i),
{
    lemma_first_index_of(s, byte);
}

/// Appends the bytes of `s` to `v`.
pub fn append_bytes(v: &mut Vec<u8>, s: &[u8])
    ensures
        final(v)@ == old(v)@ + s@,
{
    let mut i: usize = 0;
    while i < s.len()
        invariant
            i <= s@.len(),
            v@ == old(v)@ + s@.subrange(0, i as int),
        decreases s@.len() - i,
    {
        v.push(s[i]);
        assert(s@.subrange(0, i + 1) =~= s@.subrange(0, i as int).push(s@[i as int]));
        i = i + 1;
    }
    assert(s@ =~= s@.subrange(0, s@.len() as int));
}

/// Whether `a` and `b` hold the same bytes.
pub fn bytes_eq(a: &[u8], b: &[u8]) -> (r: bool)
    ensures
        r == (a@ == b@),
{
    if a.len() != b.len() {
        return false;
    }
    let mut i: usize = 0;
    while i < a.len()
        invariant
            i <= a@.len(),
            a@.len() == b@.len(),
            forall|j: int| 0 <= j < i ==> a@[j] == b@[j],
        decreases a@.len() - i,
    {
        if a[i] != b[i] {
            return false;
        }
        i = i + 1;
    }
    assert(a@ =~= b@);
    true
}

/// Relies on bstr's `ByteSlice::find_byte`: the index of the first
/// occurrence of `byte`, or `None` where it does not occur.
#[verifier::external_body]
pub(crate) fn find_byte(s: &[u8], byte: u8) -> (r: Option<usize>)
    ensures
        match r {
            Some(i) => first_index_of(s@, byte) == Some(i as int),
            None => first_index_of(s@, byte) is None,
        },
{
    s.find_byte(byte)
}

} // verus!

verus! {

/// Every byte is an ASCII decimal digit.
pub open spec fn all_digits(d: Seq<u8>) -> bool {
    forall|i: int| 0 <= i < d.len() ==> 48 <= #[trigger] d[i] <= 57
}

/// The number that the decimal digits `d` write.
pub open spec fn decimal_value(d: Seq<u8>) -> nat
    decreases d.len(),
{
    if d.len() == 0 {
        0
    } else {
        decimal_value(d.drop_last()) * 10 + (d.last() - 48) as nat
    }
}

/// The shortest decimal form of `n`.
pub open spec fn decimal_digits(n: nat) -> Seq<u8>
    decreases n,
{
    if n < 10 {
        seq![(48 + n) as u8]
    } else {
        decimal_digits(n / 10).push((48 + n % 10) as u8)
    }
}

/// The decimal form of `n` is made of digits and reads back as `n`.
pub proof fn lemma_decimal_round_trip(n: nat)
    ensures
        all_digits(decimal_digits(n)),
        decimal_digits(n).len() > 0,
        decimal_value(decimal_digits(n)) == n,
    decreases n,
{
    let d = decimal_digits(n);
    if n >= 10 {
        lemma_decimal_round_trip(n / 10);
        assert(d.drop_last() =~= decimal_digits(n / 10));
        assert(n == (n / 10) * 10 + n % 10) by (nonlinear_arith);
        assert(d.last() == (48 + n % 10) as u8);
        assert((d.last() - 48) as nat == n % 10);
        assert(decimal_value(d) == decimal_value(d.drop_last()) * 10 + (d.last() - 48) as nat);
    } else {
        assert(d.drop_last() =~= Seq::<u8>::empty());
        assert(decimal_value(d.drop_last()) == 0);
        assert(d.last() == (48 + n) as u8);
        assert(decimal_value(d) == decimal_value(d.drop_last()) * 10 + (d.last() - 48) as nat);
    }
}

proof fn lemma_decimal_prefix_le(d: Seq<u8>, i: int)
    requires
        0 <= i <= d.len(),
        all_digits(d),
    ensures
        decimal_value(d.subrange(0, i)) <= decimal_value(d),
    decreases d.len() - i,
{
    if i < d.len() {
        lemma_decimal_prefix_le(d, i + 1);
        let p = d.subrange(0, i + 1);
        assert(48 <= d[i] <= 57);
        assert(p.drop_last() =~= d.subrange(0, i));
        let a = decimal_value(d.subrange(0, i));
        assert(a <= a * 10 + (p.last() - 48) as nat) by (nonlinear_arith)
            requires
                p.last() >= 48,
        ;
        assert(decimal_value(p) == a * 10 + (p.last() - 48) as nat);
    } else {
        assert(d.subrange(0, i) =~= d);
    }
}

/// The decimal form of `n`.
pub fn to_decimal(n: usize) -> (r: Vec<u8>)
    ensures
        r@ == decimal_digits(n as nat),
    decreases n,
{
    if n < 10 {
        let r = vec![48 + n as u8];
        assert(r@ =~= decimal_digits(n as nat));
        r
    } else {
        let mut r = to_decimal(n / 10);
        r.push(48 + (n % 10) as u8);
        r
    }
}

/// The number that `d` writes in decimal, where it is a non-empty run of
/// digits whose value fits in `usize`.
pub fn parse_decimal(d: &[u8]) -> (r: Option<usize>)
    ensures
        r is Some <==> (d@.len() > 0 && all_digits(d@) && decimal_value(d@) <= usize::MAX),
        r is Some ==> r->0 as nat == decimal_value(d@),
{
    if d.len() == 0 {
        return None;
    }
    let mut acc: usize = 0;
    let mut i: usize = 0;
    while i < d.len()
        invariant
            i <= d@.len(),
            forall|j: int| 0 <= j < i ==> 48 <= #[trigger] d@[j] <= 57,
            acc as nat == decimal_value(d@.subrange(0, i as int)),
        decreases d@.len() - i,
    {
        let c = d[i];
        if c < 48 || c > 57 {
            return None;
        }
        assert(d@.subrange(0, i + 1).drop_last() =~= d@.subrange(0, i as int));
        let next = match acc.checked_mul(10) {
            Some(v) => v.checked_add((c - 48) as usize),
            None => None,
        };
        match next {
            Some(v) => {
                acc = v;
            },
            None => {
                proof {
                    if all_digits(d@) {
                        lemma_decimal_prefix_le(d@, i + 1);
                    }
                }
                return None;
            },
        }
        i = i + 1;
    }
    assert(d@.subrange(0, i as int) =~= d@);
    Some(acc)
}

/// The characters that the ASCII bytes `b` stand for.
pub open spec fn ascii_chars(b: Seq<u8>) -> Seq<char> {
    b.map_values(|x: u8| x as char)
}

/// The string whose characters are the ASCII bytes `b`.
pub fn ascii_string(b: &[u8]) -> (r: String)
    requires
        forall|i: int| 0 <= i < b@.len() ==> #[trigger] b@[i] < 128,
    ensures
        r@ == ascii_chars(b@),
{
    let ghost chars = ascii_chars(b@);
    proof {
        assert(vstd::utf8::is_ascii_chars(chars));
        vstd::utf8::is_ascii_chars_encode_utf8(chars);
        assert(b@ =~= vstd::utf8::encode_utf8(chars));
        vstd::utf8::encode_utf8_valid_utf8(chars);
        vstd::utf8::encode_utf8_decode_utf8(chars);
    }
    let r = utf8_string(b);
    r.unwrap()
}

} // verus!
