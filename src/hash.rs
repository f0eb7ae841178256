//! Object identifiers: 20 raw bytes, shown as 40 lowercase hexadecimal digits.
use vstd::prelude::*;

verus! {

/// The ASCII digit that shows the nibble `n` in lowercase hexadecimal.
pub open spec fn hex_digit(n: int) -> u8 {
    if n < 10 {
        (48 + n) as u8
    } else {
        (87 + n) as u8
    }
}

/// The value of a lowercase or uppercase hexadecimal ASCII digit.
pub open spec fn hex_value(c: u8) -> int {
    if 48 <= c <= 57 {
        c - 48
    } else if 97 <= c <= 102 {
        c - 87
    } else {
        c - 55
    }
}

pub open spec fn is_hex_char(c: char) -> bool {
    ('0' <= c <= '9') || ('a' <= c <= 'f') || ('A' <= c <= 'F')
}

/// The 40 characters that show the bytes `b`, two per byte, high nibble first.
pub open spec fn hex_chars(b: Seq<u8>) -> Seq<char> {
    Seq::new(
        2 * b.len(),
        |i: int|
            if i % 2 == 0 {
                hex_digit(b[i / 2] as int / 16) as char
            } else {
                hex_digit(b[i / 2] as int % 16) as char
            },
    )
}

/// The ASCII bytes of the 40 characters that show the bytes `b`.
pub open spec fn hex_ascii(b: Seq<u8>) -> Seq<u8> {
    Seq::new(
        2 * b.len(),
        |i: int|
            if i % 2 == 0 {
                hex_digit(b[i / 2] as int / 16)
            } else {
                hex_digit(b[i / 2] as int % 16)
            },
    )
}

/// The bytes that a string of hexadecimal characters stands for.
pub open spec fn bytes_of_hex(s: Seq<char>) -> Seq<u8> {
    Seq::new(
        s.len() / 2,
        |i: int| (hex_value(s[2 * i] as u8) * 16 + hex_value(s[2 * i + 1] as u8)) as u8,
    )
}

/// An object identifier.
#[derive(Clone, Copy, Debug, Hash, PartialOrd, Ord)]
pub struct SHA1 {
    pub bytes: [u8; 20],
}

impl View for SHA1 {
    type V = Seq<u8>;

    open spec fn view(&self) -> Seq<u8> {
        self.bytes@
    }
}

impl PartialEq for SHA1 {
    fn eq(&self, o: &SHA1) -> (r: bool)
        ensures
            r == (self@ == o@),
    {
        let mut i: usize = 0;
        while i < 20
            invariant
                i <= 20,
                self@.len() == 20,
                o@.len() == 20,
                self@.subrange(0, i as int) == o@.subrange(0, i as int),
            decreases 20 - i,
        {
            if self.bytes[i] != o.bytes[i] {
                assert(self@[i as int] != o@[i as int]);
                return false;
            }
            assert(self@.subrange(0, i + 1) =~= self@.subrange(0, i as int).push(self@[i as int]));
            assert(o@.subrange(0, i + 1) =~= o@.subrange(0, i as int).push(o@[i as int]));
            i = i + 1;
        }
        assert(self@ =~= self@.subrange(0, 20));
        assert(o@ =~= o@.subrange(0, 20));
        true
    }
}

impl vstd::std_specs::cmp::PartialEqSpecImpl for SHA1 {
    open spec fn obeys_eq_spec() -> bool {
        true
    }

    open spec fn eq_spec(&self, o: &SHA1) -> bool {
        self@ == o@
    }
}

impl Eq for SHA1 {
}

impl Default for SHA1 {
    /// The zero hash, which stands for the absence of an object.
    fn default() -> (r: SHA1)
        ensures
            r@ == Seq::new(20, |i: int| 0u8),
    {
        let r = SHA1 { bytes: [0u8; 20] };
        assert(r@ =~= Seq::new(20, |i: int| 0u8));
        r
    }
}

fn nibble_digit(n: u8) -> (r: u8)
    requires
        n < 16,
    ensures
        r == hex_digit(n as int),
{
    if n < 10 {
        48 + n
    } else {
        87 + n
    }
}

fn digit_value(c: u8) -> (r: u8)
    requires
        is_hex_char(c as char),
    ensures
        r as int == hex_value(c),
        r < 16,
{
    if 48 <= c && c <= 57 {
        c - 48
    } else if 97 <= c && c <= 102 {
        c - 87
    } else {
        c - 55
    }
}

impl SHA1 {
    /// The identifier whose bytes are `b`.
    pub fn from_bytes(b: &[u8]) -> (r: SHA1)
        requires
            b@.len() == 20,
        ensures
            r@ == b@,
    {
        let mut bytes = [0u8; 20];
        let mut i: usize = 0;
        while i < 20
            invariant
                i <= 20,
                b@.len() == 20,
                forall|j: int| 0 <= j < i ==> bytes@[j] == b@[j],
            decreases 20 - i,
        {
            bytes[i] = b[i];
            i = i + 1;
        }
        let r = SHA1 { bytes };
        assert(r@ =~= b@);
        r
    }

    /// The identifier written as 40 hexadecimal digits in `s`.
    pub fn new_from_str(s: &str) -> (r: SHA1)
        requires
            s@.len() == 40,
            forall|i: int| 0 <= i < 40 ==> is_hex_char(#[trigger] s@[i]),
        ensures
            r@ == bytes_of_hex(s@),
    {
        let raw = s.as_bytes();
        proof {
            assert(vstd::utf8::is_ascii_chars(s@));
            vstd::utf8::is_ascii_chars_encode_utf8(s@);
        }
        let mut bytes = [0u8; 20];
        let mut i: usize = 0;
        while i < 20
            invariant
                i <= 20,
                raw@.len() == 40,
                s@.len() == 40,
                forall|j: int| 0 <= j < 40 ==> is_hex_char(#[trigger] s@[j]),
                forall|j: int| 0 <= j < 40 ==> #[trigger] raw@[j] == s@[j] as u8,
                forall|j: int| 0 <= j < i ==> bytes@[j] == bytes_of_hex(s@)[j],
            decreases 20 - i,
        {
            let hi = digit_value(raw[2 * i]);
            let lo = digit_value(raw[2 * i + 1]);
            bytes[i] = hi * 16 + lo;
            i = i + 1;
        }
        let r = SHA1 { bytes };
        assert(r@ =~= bytes_of_hex(s@));
        r
    }

    /// The 20 bytes of the identifier.
    pub fn to_bytes(&self) -> (r: Vec<u8>)
        ensures
            r@ == self@,
    {
        let mut r: Vec<u8> = Vec::new();
        let mut i: usize = 0;
        while i < 20
            invariant
                i <= 20,
                self@.len() == 20,
                r@ == self@.subrange(0, i as int),
            decreases 20 - i,
        {
            r.push(self.bytes[i]);
            assert(r@ =~= self@.subrange(0, i + 1));
            i = i + 1;
        }
        assert(self@ =~= self@.subrange(0, 20));
        r
    }

    /// The ASCII bytes of the identifier's 40 hexadecimal digits.
    pub fn hex_digits(&self) -> (r: Vec<u8>)
        ensures
            r@ == hex_ascii(self@),
    {
        let mut digits: Vec<u8> = Vec::new();
        let mut i: usize = 0;
        while i < 20
            invariant
                i <= 20,
                self@.len() == 20,
                digits@.len() == 2 * i,
                forall|j: int| 0 <= j < 2 * i ==> digits@[j] == hex_ascii(self@)[j],
            decreases 20 - i,
        {
            let b = self.bytes[i];
            digits.push(nibble_digit(b / 16));
            digits.push(nibble_digit(b % 16));
            i = i + 1;
        }
        assert(digits@ =~= hex_ascii(self@));
        digits
    }

    /// The identifier as 40 lowercase hexadecimal digits.
    pub fn to_plain_str(&self) -> (r: String)
        ensures
            r@ == hex_chars(self@),
    {
        let mut digits: Vec<u8> = Vec::new();
        let mut i: usize = 0;
        while i < 20
            invariant
                i <= 20,
                self@.len() == 20,
                digits@.len() == 2 * i,
                forall|j: int| 0 <= j < 2 * i ==> digits@[j] == hex_chars(self@)[j] as u8,
            decreases 20 - i,
        {
            let b = self.bytes[i];
            digits.push(nibble_digit(b / 16));
            digits.push(nibble_digit(b % 16));
            i = i + 1;
        }
        let ghost chars = hex_chars(self@);
        proof {
            assert(vstd::utf8::is_ascii_chars(chars));
            vstd::utf8::is_ascii_chars_encode_utf8(chars);
            assert(digits@ =~= vstd::utf8::encode_utf8(chars));
            vstd::utf8::encode_utf8_valid_utf8(chars);
            vstd::utf8::encode_utf8_decode_utf8(chars);
        }
        let r = crate::text::utf8_string(digits.as_slice());
        r.unwrap()
    }

    /// Whether this is the zero hash.
    pub fn is_zero(&self) -> (r: bool)
        ensures
            r == (self@ == Seq::new(20, |i: int| 0u8)),
    {
        let z = SHA1::default();
        self.eq(&z)
    }
}

} // verus!
