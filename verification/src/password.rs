//! Password bit-strength scoring.
//!
//! A password arrives as a UTF-8 byte buffer.  Every byte of a valid buffer
//! falls in exactly one class: the ASCII space, an ASCII lowercase letter, an
//! ASCII uppercase letter, an ASCII digit, an ASCII punctuation character, or
//! anything else (ASCII control bytes and all bytes of non-ASCII characters).
//! The policy demands at least one uppercase letter, lowercase letter, digit
//! and punctuation character, in that order of report, and at least 256 bits
//! of estimated entropy.  The buffer is zeroed before any call returns.

use vstd::prelude::*;
use crate::entropy::{entropy_bits, entropy_bits_u32, sat_u32};
use crate::Util;

verus! {

/// The six mutually exclusive classes a password byte can fall in.
#[derive(Clone, Copy, Debug, PartialEq, Eq, Structural)]
pub enum ByteClass {
    Space,
    Lower,
    Upper,
    Digit,
    Punct,
    Other,
}

/// Why a password was rejected.
#[derive(Clone, Copy, Debug, PartialEq, Eq, Structural)]
pub enum PasswordError {
    /// The buffer is not valid UTF-8.
    InvalidEncoding,
    /// No ASCII uppercase letter is present.
    MissingUppercase,
    /// No ASCII lowercase letter is present.
    MissingLowercase,
    /// No ASCII digit is present.
    MissingDigit,
    /// No ASCII punctuation character is present.
    MissingPunctuation,
    /// The estimated entropy falls below the 256-bit floor.
    InsufficientEntropy,
}

/// The class of a single byte, following the precedence space, lowercase,
/// uppercase, digit, punctuation, other.
pub open spec fn classify(b: u8) -> ByteClass {
    if b == 32 {
        ByteClass::Space
    } else if 97 <= b && b <= 122 {
        ByteClass::Lower
    } else if 65 <= b && b <= 90 {
        ByteClass::Upper
    } else if 48 <= b && b <= 57 {
        ByteClass::Digit
    } else if (33 <= b && b <= 47) || (58 <= b && b <= 64) || (91 <= b && b <= 96) || (123 <= b
        && b <= 126) {
        ByteClass::Punct
    } else {
        ByteClass::Other
    }
}

/// Some byte of `s` falls in class `c`.
pub open spec fn has_class(s: Seq<u8>, c: ByteClass) -> bool {
    exists|j: int| 0 <= j < s.len() && classify(s[j]) == c
}

/// A byte that may follow a lead byte inside one UTF-8 character.
pub open spec fn is_continuation(b: u8) -> bool {
    0x80 <= b && b <= 0xBF
}

/// The buffer is well-formed UTF-8 (RFC 3629: no overlong forms, no
/// surrogates, nothing above U+10FFFF).
pub open spec fn valid_utf8(s: Seq<u8>) -> bool
    decreases s.len(),
{
    if s.len() == 0 {
        true
    } else {
        let b0 = s[0];
        if b0 <= 0x7F {
            valid_utf8(s.skip(1))
        } else if 0xC2 <= b0 && b0 <= 0xDF {
            s.len() >= 2 && is_continuation(s[1]) && valid_utf8(s.skip(2))
        } else if b0 == 0xE0 {
            s.len() >= 3 && 0xA0 <= s[1] && s[1] <= 0xBF && is_continuation(s[2]) && valid_utf8(
                s.skip(3),
            )
        } else if (0xE1 <= b0 && b0 <= 0xEC) || b0 == 0xEE || b0 == 0xEF {
            s.len() >= 3 && is_continuation(s[1]) && is_continuation(s[2]) && valid_utf8(s.skip(3))
        } else if b0 == 0xED {
            s.len() >= 3 && 0x80 <= s[1] && s[1] <= 0x9F && is_continuation(s[2]) && valid_utf8(
                s.skip(3),
            )
        } else if b0 == 0xF0 {
            s.len() >= 4 && 0x90 <= s[1] && s[1] <= 0xBF && is_continuation(s[2])
                && is_continuation(s[3]) && valid_utf8(s.skip(4))
        } else if 0xF1 <= b0 && b0 <= 0xF3 {
            s.len() >= 4 && is_continuation(s[1]) && is_continuation(s[2]) && is_continuation(s[3])
                && valid_utf8(s.skip(4))
        } else if b0 == 0xF4 {
            s.len() >= 4 && 0x80 <= s[1] && s[1] <= 0x8F && is_continuation(s[2])
                && is_continuation(s[3]) && valid_utf8(s.skip(4))
        } else {
            false
        }
    }
}

/// Size of the alphabet a guesser must cover, from the classes present.
/// Any byte outside the five ASCII classes forces the full byte alphabet.
pub open spec fn keyspace_size(s: Seq<u8>) -> nat {
    if has_class(s, ByteClass::Other) {
        256
    } else {
        (if has_class(s, ByteClass::Lower) { 26nat } else { 0nat })
            + (if has_class(s, ByteClass::Upper) { 26nat } else { 0nat })
            + (if has_class(s, ByteClass::Digit) { 10nat } else { 0nat })
            + (if has_class(s, ByteClass::Punct) { 32nat } else { 0nat })
            + (if has_class(s, ByteClass::Space) { 1nat } else { 0nat })
    }
}

/// The exact outcome of scoring a password buffer: the rounded entropy
/// `len * log2(keyspace)` on success, and the first applicable failure
/// otherwise.
pub open spec fn password_score(s: Seq<u8>) -> Result<u32, PasswordError> {
    if !valid_utf8(s) {
        Err(PasswordError::InvalidEncoding)
    } else if s.len() == 0 {
        Ok(0u32)
    } else if !has_class(s, ByteClass::Upper) {
        Err(PasswordError::MissingUppercase)
    } else if !has_class(s, ByteClass::Lower) {
        Err(PasswordError::MissingLowercase)
    } else if !has_class(s, ByteClass::Digit) {
        Err(PasswordError::MissingDigit)
    } else if !has_class(s, ByteClass::Punct) {
        Err(PasswordError::MissingPunctuation)
    } else if keyspace_size(s) == 0 {
        Ok(0u32)
    } else if sat_u32(entropy_bits(s.len(), keyspace_size(s))) < 256 {
        Err(PasswordError::InsufficientEntropy)
    } else {
        Ok(sat_u32(entropy_bits(s.len(), keyspace_size(s))) as u32)
    }
}

/// A buffer with an out-of-class byte is scored over the full byte alphabet,
/// whatever other classes appear in it.
pub proof fn lemma_other_byte_forces_full_keyspace(s: Seq<u8>)
    requires
        has_class(s, ByteClass::Other),
    ensures
        keyspace_size(s) == 256,
{
}

/// A non-empty password that passes scoring covers the four mandatory
/// classes and its score meets the 256-bit entropy floor.
pub proof fn lemma_success_meets_policy(s: Seq<u8>)
    requires
        s.len() > 0,
        password_score(s) is Ok,
    ensures
        valid_utf8(s),
        has_class(s, ByteClass::Upper),
        has_class(s, ByteClass::Lower),
        has_class(s, ByteClass::Digit),
        has_class(s, ByteClass::Punct),
        password_score(s)->Ok_0 >= 256,
{
    assert(keyspace_size(s) >= 26);
}

/// The class of one byte.
fn classify_byte(b: u8) -> (r: ByteClass)
    ensures
        r == classify(b),
{
    if b == 32 {
        ByteClass::Space
    } else if 97 <= b && b <= 122 {
        ByteClass::Lower
    } else if 65 <= b && b <= 90 {
        ByteClass::Upper
    } else if 48 <= b && b <= 57 {
        ByteClass::Digit
    } else if (33 <= b && b <= 47) || (58 <= b && b <= 64) || (91 <= b && b <= 96) || (123 <= b
        && b <= 126) {
        ByteClass::Punct
    } else {
        ByteClass::Other
    }
}

proof fn lemma_has_class_extend(s: Seq<u8>, i: int, c: ByteClass)
    requires
        0 <= i < s.len(),
    ensures
        has_class(s.subrange(0, i + 1), c) == (has_class(s.subrange(0, i), c) || classify(s[i])
            == c),
{
    let pre = s.subrange(0, i);
    let ext = s.subrange(0, i + 1);
    if has_class(pre, c) {
        let j = choose|j: int| 0 <= j < pre.len() && classify(pre[j]) == c;
        assert(classify(ext[j]) == c);
    }
    if classify(s[i]) == c {
        assert(classify(ext[i]) == c);
    }
    if has_class(ext, c) {
        let j = choose|j: int| 0 <= j < ext.len() && classify(ext[j]) == c;
        if j < i {
            assert(classify(pre[j]) == c);
        }
    }
}

/// Checks that the buffer is well-formed UTF-8.
fn check_utf8(bytes: &Vec<u8>) -> (r: bool)
    ensures
        r == valid_utf8(bytes@),
{
    let n = bytes.len();
    let mut i: usize = 0;
    proof {
        assert(bytes@.skip(0) =~= bytes@);
    }
    while i < n
        invariant
            i <= n,
            n == bytes@.len(),
            valid_utf8(bytes@) == valid_utf8(bytes@.skip(i as int)),
        decreases n - i,
    {
        let ghost rest = bytes@.skip(i as int);
        proof {
            assert(rest[0] == bytes@[i as int]);
        }
        let b0 = bytes[i];
        let width: usize;
        if b0 <= 0x7F {
            width = 1;
        } else if 0xC2 <= b0 && b0 <= 0xDF {
            if !(n - i >= 2 && 0x80 <= bytes[i + 1] && bytes[i + 1] <= 0xBF) {
                return false;
            }
            width = 2;
        } else if b0 == 0xE0 {
            if !(n - i >= 3 && 0xA0 <= bytes[i + 1] && bytes[i + 1] <= 0xBF && 0x80 <= bytes[i + 2]
                && bytes[i + 2] <= 0xBF) {
                return false;
            }
            width = 3;
        } else if (0xE1 <= b0 && b0 <= 0xEC) || b0 == 0xEE || b0 == 0xEF {
            if !(n - i >= 3 && 0x80 <= bytes[i + 1] && bytes[i + 1] <= 0xBF && 0x80 <= bytes[i + 2]
                && bytes[i + 2] <= 0xBF) {
                return false;
            }
            width = 3;
        } else if b0 == 0xED {
            if !(n - i >= 3 && 0x80 <= bytes[i + 1] && bytes[i + 1] <= 0x9F && 0x80 <= bytes[i + 2]
                && bytes[i + 2] <= 0xBF) {
                return false;
            }
            width = 3;
        } else if b0 == 0xF0 {
            if !(n - i >= 4 && 0x90 <= bytes[i + 1] && bytes[i + 1] <= 0xBF && 0x80 <= bytes[i + 2]
                && bytes[i + 2] <= 0xBF && 0x80 <= bytes[i + 3] && bytes[i + 3] <= 0xBF) {
                return false;
            }
            width = 4;
        } else if 0xF1 <= b0 && b0 <= 0xF3 {
            if !(n - i >= 4 && 0x80 <= bytes[i + 1] && bytes[i + 1] <= 0xBF && 0x80 <= bytes[i + 2]
                && bytes[i + 2] <= 0xBF && 0x80 <= bytes[i + 3] && bytes[i + 3] <= 0xBF) {
                return false;
            }
            width = 4;
        } else if b0 == 0xF4 {
            if !(n - i >= 4 && 0x80 <= bytes[i + 1] && bytes[i + 1] <= 0x8F && 0x80 <= bytes[i + 2]
                && bytes[i + 2] <= 0xBF && 0x80 <= bytes[i + 3] && bytes[i + 3] <= 0xBF) {
                return false;
            }
            width = 4;
        } else {
            return false;
        }
        proof {
            assert(forall|j: int| 1 <= j < rest.len() ==> rest[j] == bytes@[i + j]);
            assert(rest.skip(width as int) =~= bytes@.skip(i + width as int));
        }
        i = i + width;
    }
    proof {
        assert(bytes@.skip(n as int) =~= Seq::<u8>::empty());
    }
    true
}

/// Scores the buffer without touching it.
fn score_bytes(bytes: &Vec<u8>) -> (r: Result<u32, PasswordError>)
    ensures
        r == password_score(bytes@),
{
    if !check_utf8(bytes) {
        return Err(PasswordError::InvalidEncoding);
    }
    let n = bytes.len();
    if n == 0 {
        return Ok(0);
    }
    let mut has_space = false;
    let mut has_lower = false;
    let mut has_upper = false;
    let mut has_digit = false;
    let mut has_punct = false;
    let mut has_other = false;
    let mut i: usize = 0;
    proof {
        assert(bytes@.subrange(0, 0) =~= Seq::<u8>::empty());
    }
    while i < n
        invariant
            i <= n,
            n == bytes@.len(),
            has_space == has_class(bytes@.subrange(0, i as int), ByteClass::Space),
            has_lower == has_class(bytes@.subrange(0, i as int), ByteClass::Lower),
            has_upper == has_class(bytes@.subrange(0, i as int), ByteClass::Upper),
            has_digit == has_class(bytes@.subrange(0, i as int), ByteClass::Digit),
            has_punct == has_class(bytes@.subrange(0, i as int), ByteClass::Punct),
            has_other == has_class(bytes@.subrange(0, i as int), ByteClass::Other),
        decreases n - i,
    {
        proof {
            lemma_has_class_extend(bytes@, i as int, ByteClass::Space);
            lemma_has_class_extend(bytes@, i as int, ByteClass::Lower);
            lemma_has_class_extend(bytes@, i as int, ByteClass::Upper);
            lemma_has_class_extend(bytes@, i as int, ByteClass::Digit);
            lemma_has_class_extend(bytes@, i as int, ByteClass::Punct);
            lemma_has_class_extend(bytes@, i as int, ByteClass::Other);
        }
        match classify_byte(bytes[i]) {
            ByteClass::Space => has_space = true,
            ByteClass::Lower => has_lower = true,
            ByteClass::Upper => has_upper = true,
            ByteClass::Digit => has_digit = true,
            ByteClass::Punct => has_punct = true,
            ByteClass::Other => has_other = true,
        }
        i = i + 1;
    }
    proof {
        assert(bytes@.subrange(0, n as int) =~= bytes@);
    }
    if !has_upper {
        return Err(PasswordError::MissingUppercase);
    }
    if !has_lower {
        return Err(PasswordError::MissingLowercase);
    }
    if !has_digit {
        return Err(PasswordError::MissingDigit);
    }
    if !has_punct {
        return Err(PasswordError::MissingPunctuation);
    }
    let keyspace: u32 = if has_other {
        256
    } else {
        let mut size: u32 = 0;
        if has_lower {
            size = size + 26;
        }
        if has_upper {
            size = size + 26;
        }
        if has_digit {
            size = size + 10;
        }
        if has_punct {
            size = size + 32;
        }
        if has_space {
            size = size + 1;
        }
        size
    };
    assert(keyspace == keyspace_size(bytes@));
    if keyspace == 0 {
        return Ok(0);
    }
    let score = entropy_bits_u32(n, keyspace);
    if score < 256 {
        Err(PasswordError::InsufficientEntropy)
    } else {
        Ok(score)
    }
}

/// Overwrites every byte of the buffer with zero, keeping its length.
fn zeroize(buffer: &mut Vec<u8>)
    ensures
        final(buffer)@ == Seq::new(old(buffer)@.len(), |j: int| 0u8),
{
    let n = buffer.len();
    buffer.clear();
    let mut i: usize = 0;
    while i < n
        invariant
            i <= n,
            buffer@ =~= Seq::new(i as nat, |j: int| 0u8),
        decreases n - i,
    {
        buffer.push(0u8);
        i = i + 1;
    }
    proof {
        assert(buffer@ =~= Seq::new(n as nat, |j: int| 0u8));
    }
}

impl Util {
    /// Measures the bit strength of a UTF-8 encoded password.
    ///
    /// Returns the rounded entropy `length * log2(keyspace)` in bits when the
    /// buffer is valid UTF-8, covers the four mandatory character classes and
    /// reaches 256 bits; otherwise reports the first applicable failure.  An
    /// empty password scores 0 without being a policy violation.  On every
    /// exit path the buffer is zeroed before the call returns, so the secret
    /// bytes are no longer recoverable from it.
    pub fn password_checker(password: &mut Vec<u8>) -> (r: Result<u32, PasswordError>)
        ensures
            r == password_score(old(password)@),
            final(password)@ == Seq::new(old(password)@.len(), |j: int| 0u8),
    {
        let score = score_bytes(password);
        zeroize(password);
        score
    }
}

impl PasswordError {
    /// The fixed message that describes this failure to a caller.
    pub fn message(&self) -> (r: &'static str)
        ensures
            self is InvalidEncoding ==> r@ == "Password is not a valid UTF-8 string!"@,
            self is MissingUppercase ==> r@
                == "Password must contain at least one uppercase letter!"@,
            self is MissingLowercase ==> r@
                == "Password must contain at least one lowercase letter!"@,
            self is MissingDigit ==> r@ == "Password must contain at least one digit!"@,
            self is MissingPunctuation ==> r@ == "Password must contain at least one symbol!"@,
            self is InsufficientEntropy ==> r@
                == "Password entropy must be at least 256 bit. Consider lengthening your password!"@,
    {
        match self {
            PasswordError::InvalidEncoding => "Password is not a valid UTF-8 string!",
            PasswordError::MissingUppercase => "Password must contain at least one uppercase letter!",
            PasswordError::MissingLowercase => "Password must contain at least one lowercase letter!",
            PasswordError::MissingDigit => "Password must contain at least one digit!",
            PasswordError::MissingPunctuation => "Password must contain at least one symbol!",
            PasswordError::InsufficientEntropy => "Password entropy must be at least 256 bit. Consider lengthening your password!",
        }
    }
}

} // verus!

