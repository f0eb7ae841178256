//! The author and committer lines of a commit:
//! `kind SP name SP "<" email ">" SP seconds SP timezone`.
use vstd::prelude::*;
use vstd::utf8::{encode_utf8, valid_utf8};

use crate::errors::GitError;
use crate::text::{
    all_digits, append_bytes, bytes_eq, decimal_digits, decimal_value, find_byte, first_index_of,
    lemma_decimal_round_trip, lemma_first_index_at, lemma_first_index_of, parse_decimal,
    to_decimal, utf8_string,
};

verus! {

/// Whether a signature names the author or the committer.
#[derive(PartialEq, Eq, Structural, Debug, Hash, Ord, PartialOrd, Clone, Copy)]
pub enum SignatureType {
    Author,
    Committer,
}

/// The word that starts a signature line of each kind.
pub open spec fn type_word(t: SignatureType) -> Seq<u8> {
    match t {
        SignatureType::Author => seq![97u8, 117, 116, 104, 111, 114],
        SignatureType::Committer => seq![99u8, 111, 109, 109, 105, 116, 116, 101, 114],
    }
}

/// The kind that a word names, if any.
pub open spec fn type_from(b: Seq<u8>) -> Option<SignatureType> {
    if b == type_word(SignatureType::Author) {
        Some(SignatureType::Author)
    } else if b == type_word(SignatureType::Committer) {
        Some(SignatureType::Committer)
    } else {
        None
    }
}

/// The timezone that a signature without one is read with: `+0000`.
pub open spec fn default_timezone() -> Seq<u8> {
    seq![43u8, 48, 48, 48, 48]
}

/// A signature as plain values: kind, name bytes, email bytes, seconds since
/// the epoch, timezone bytes.
pub type SigModel = (SignatureType, Seq<u8>, Seq<u8>, nat, Seq<u8>);

/// The name part: the bytes before `<`, without one trailing space.
pub open spec fn trim_one_space(b: Seq<u8>) -> Seq<u8> {
    if b.len() > 0 && b.last() == 32u8 {
        b.drop_last()
    } else {
        b
    }
}

/// What a signature line stands for. The kind runs to the first space, the
/// name to the first `<`, the email to the first `>`; one byte after `>` is
/// skipped, the seconds run to the next space and the timezone is the rest.
pub open spec fn parse_signature(b: Seq<u8>) -> Option<SigModel> {
    match (first_index_of(b, 32), first_index_of(b, 60), first_index_of(b, 62)) {
        (Some(sp), Some(lt), Some(gt)) => {
            if sp < lt && lt < gt && gt + 2 <= b.len() {
                let tail = b.subrange(gt + 2, b.len() as int);
                let name = trim_one_space(b.subrange(sp + 1, lt));
                let email = b.subrange(lt + 1, gt);
                let (digits, tz) = match first_index_of(tail, 32) {
                    Some(k) => (tail.subrange(0, k), tail.subrange(k + 1, tail.len() as int)),
                    None => (tail, default_timezone()),
                };
                if type_from(b.subrange(0, sp)) is Some && valid_utf8(name) && valid_utf8(email)
                    && valid_utf8(tz) && digits.len() > 0 && all_digits(digits)
                    && decimal_value(digits) <= usize::MAX {
                    Some((type_from(b.subrange(0, sp))->0, name, email, decimal_value(digits), tz))
                } else {
                    None
                }
            } else {
                None
            }
        },
        _ => None,
    }
}

/// The wire form of a signature.
pub open spec fn signature_bytes(s: SigModel) -> Seq<u8> {
    type_word(s.0) + seq![32u8] + s.1 + seq![32u8, 60u8] + s.2 + seq![62u8, 32u8]
        + decimal_digits(s.3) + seq![32u8] + s.4
}

/// A signature that its wire form carries unchanged: text parts, no `<` or
/// `>` in the name, and no `>` in the email.
pub open spec fn signature_ok(s: SigModel) -> bool {
    &&& valid_utf8(s.1) && valid_utf8(s.2) && valid_utf8(s.4)
    &&& forall|j: int| 0 <= j < s.1.len() ==> s.1[j] != 60u8 && s.1[j] != 62u8
    &&& forall|j: int| 0 <= j < s.2.len() ==> s.2[j] != 62u8
    &&& s.3 <= usize::MAX
}

impl SignatureType {
    /// The kind that the word `s` names.
    pub fn from_str(s: &str) -> (r: Result<Self, GitError>)
        ensures
            match type_from(encode_utf8(s@)) {
                Some(t) => r == Ok::<SignatureType, GitError>(t),
                None => r matches Err(GitError::InvalidSignatureType(v)) && v@ == encode_utf8(s@),
            },
    {
        let b = s.as_bytes();
        SignatureType::from_bytes(b)
    }

    fn from_bytes(b: &[u8]) -> (r: Result<Self, GitError>)
        ensures
            match type_from(b@) {
                Some(t) => r == Ok::<SignatureType, GitError>(t),
                None => r matches Err(GitError::InvalidSignatureType(v)) && v@ == b@,
            },
    {
        let author = SignatureType::Author.to_bytes();
        let committer = SignatureType::Committer.to_bytes();
        if bytes_eq(b, author.as_slice()) {
            Ok(SignatureType::Author)
        } else if bytes_eq(b, committer.as_slice()) {
            Ok(SignatureType::Committer)
        } else {
            Err(GitError::InvalidSignatureType(vstd::slice::slice_to_vec(b)))
        }
    }

    /// The kind that the bytes `data` name.
    pub fn from_data(data: Vec<u8>) -> (r: Result<Self, GitError>)
        ensures
            match type_from(data@) {
                Some(t) => r == Ok::<SignatureType, GitError>(t),
                None => r matches Err(GitError::InvalidSignatureType(v)) && v@ == data@,
            },
    {
        SignatureType::from_bytes(data.as_slice())
    }

    /// The word that starts a signature line of this kind.
    pub fn to_bytes(&self) -> (r: Vec<u8>)
        ensures
            r@ == type_word(*self),
    {
        let r = match self {
            SignatureType::Author => vec![97u8, 117, 116, 104, 111, 114],
            SignatureType::Committer => vec![99u8, 111, 109, 109, 105, 116, 116, 101, 114],
        };
        assert(r@ =~= type_word(*self));
        r
    }
}

/// Who signed a commit, and when.
#[derive(Debug, Clone)]
pub struct Signature {
    pub signature_type: SignatureType,
    pub name: String,
    pub email: String,
    pub timestamp: usize,
    pub timezone: String,
}

impl View for Signature {
    type V = SigModel;

    open spec fn view(&self) -> SigModel {
        (
            self.signature_type,
            encode_utf8(self.name@),
            encode_utf8(self.email@),
            self.timestamp as nat,
            encode_utf8(self.timezone@),
        )
    }
}

fn text_of(b: &[u8]) -> (r: Result<String, GitError>)
    ensures
        valid_utf8(b@) ==> r is Ok && encode_utf8(r->Ok_0@) == b@,
        !valid_utf8(b@) ==> r == Err::<String, GitError>(GitError::MalformedObject),
{
    match utf8_string(b) {
        Some(s) => {
            proof {
                vstd::utf8::decode_utf8_encode_utf8(b@);
            }
            Ok(s)
        },
        None => Err(GitError::MalformedObject),
    }
}

impl Signature {
    /// Reads a signature line into `self`. On success every field is
    /// replaced; on failure `self` is left as it was.
    pub fn new_from_data(&mut self, data: Vec<u8>) -> (r: Result<(), GitError>)
        ensures
            match parse_signature(data@) {
                Some(m) => r is Ok && final(self)@ == m,
                None => r == Err::<(), GitError>(GitError::MalformedObject) && *final(self) == *old(self),
            },
    {
        let b = data.as_slice();
        let n = b.len();
        let sp = match find_byte(b, 32) {
            Some(i) => i,
            None => return Err(GitError::MalformedObject),
        };
        let lt = match find_byte(b, 60) {
            Some(i) => i,
            None => return Err(GitError::MalformedObject),
        };
        let gt = match find_byte(b, 62) {
            Some(i) => i,
            None => return Err(GitError::MalformedObject),
        };
        proof {
            lemma_first_index_of(b@, 32);
            lemma_first_index_of(b@, 60);
            lemma_first_index_of(b@, 62);
        }
        if !(sp < lt && lt < gt && n - gt >= 2) {
            return Err(GitError::MalformedObject);
        }
        let signature_type = match SignatureType::from_bytes(vstd::slice::slice_subrange(b, 0, sp)) {
            Ok(t) => t,
            Err(_) => return Err(GitError::MalformedObject),
        };
        let raw_name = vstd::slice::slice_subrange(b, sp + 1, lt);
        let name_bytes = if raw_name.len() > 0 && raw_name[raw_name.len() - 1] == 32 {
            vstd::slice::slice_subrange(raw_name, 0, raw_name.len() - 1)
        } else {
            raw_name
        };
        assert(name_bytes@ =~= trim_one_space(b@.subrange(sp + 1, lt as int)));
        let email_bytes = vstd::slice::slice_subrange(b, lt + 1, gt);
        let tail = vstd::slice::slice_subrange(b, gt + 2, n);
        let (digits, tz_bytes): (&[u8], Vec<u8>) = match find_byte(tail, 32) {
            Some(k) => {
                proof {
                    lemma_first_index_of(tail@, 32);
                }
                let t = vstd::slice::slice_subrange(tail, k + 1, tail.len());
                (vstd::slice::slice_subrange(tail, 0, k), vstd::slice::slice_to_vec(t))
            },
            None => {
                let d = vec![43u8, 48, 48, 48, 48];
                assert(d@ =~= default_timezone());
                (tail, d)
            },
        };
        let name = text_of(name_bytes)?;
        let email = text_of(email_bytes)?;
        let timezone = text_of(tz_bytes.as_slice())?;
        let timestamp = match parse_decimal(digits) {
            Some(v) => v,
            None => return Err(GitError::MalformedObject),
        };
        self.signature_type = signature_type;
        self.name = name;
        self.email = email;
        self.timestamp = timestamp;
        self.timezone = timezone;
        Ok(())
    }

    /// The wire form of this signature.
    pub fn to_data(&self) -> (r: Result<Vec<u8>, GitError>)
        ensures
            r is Ok,
            r->Ok_0@ == signature_bytes(self@),
    {
        let mut sign = self.signature_type.to_bytes();
        sign.push(32u8);
        append_bytes(&mut sign, self.name.as_str().as_bytes());
        sign.push(32u8);
        sign.push(60u8);
        append_bytes(&mut sign, self.email.as_str().as_bytes());
        sign.push(62u8);
        sign.push(32u8);
        let ts = to_decimal(self.timestamp);
        append_bytes(&mut sign, ts.as_slice());
        sign.push(32u8);
        append_bytes(&mut sign, self.timezone.as_str().as_bytes());
        assert(sign@ =~= signature_bytes(self@));
        Ok(sign)
    }
}

/// Reading the wire form of a signature gives the signature back.
pub proof fn lemma_signature_round_trip(s: SigModel)
    requires
        signature_ok(s),
    ensures
        parse_signature(signature_bytes(s)) == Some(s),
{
    let b = signature_bytes(s);
    let w = type_word(s.0);
    let d = decimal_digits(s.3);
    lemma_decimal_round_trip(s.3);
    let sp = w.len() as int;
    let lt = sp + 1 + s.1.len() + 1;
    let gt = lt + 1 + s.2.len();
    assert(b.len() == gt + 2 + d.len() + 1 + s.4.len());
    assert forall|j: int| 0 <= j < sp implies b[j] == w[j] && w[j] != 32u8 && w[j] != 60u8 && w[j] != 62u8 by {}
    assert forall|j: int| sp + 1 <= j < lt - 1 implies b[j] == s.1[j - sp - 1] by {}
    assert forall|j: int| lt + 1 <= j < gt implies b[j] == s.2[j - lt - 1] by {}
    assert(b[sp] == 32u8);
    assert(b[lt - 1] == 32u8);
    assert(b[lt] == 60u8);
    assert(b[gt] == 62u8);
    lemma_first_index_at(b, 32, sp);
    lemma_first_index_at(b, 60, lt);
    lemma_first_index_at(b, 62, gt);
    let tail = b.subrange(gt + 2, b.len() as int);
    assert(tail =~= d + seq![32u8] + s.4);
    assert forall|j: int| 0 <= j < d.len() implies tail[j] != 32u8 by {
        assert(tail[j] == d[j]);
    }
    lemma_first_index_at(tail, 32, d.len() as int);
    assert(tail.subrange(0, d.len() as int) =~= d);
    assert(tail.subrange(d.len() as int + 1, tail.len() as int) =~= s.4);
    assert(b.subrange(sp + 1, lt) =~= s.1.push(32u8));
    assert(s.1.push(32u8).drop_last() =~= s.1);
    assert(b.subrange(lt + 1, gt) =~= s.2);
    assert(b.subrange(0, sp) =~= w);
}

} // verus!
