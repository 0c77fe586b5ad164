use key_vault::Util;
use key_vault::password::PasswordError;

fn run(bytes: &[u8]) -> (Result<u32, PasswordError>, Vec<u8>) {
    let mut buf = bytes.to_vec();
    let r = Util::password_checker(&mut buf);
    (r, buf)
}

#[test]
fn empty_password_scores_zero() {
    let (r, _) = run(b"");
    assert_eq!(r, Ok(0));
}

#[test]
fn all_lowercase_reports_missing_uppercase_first() {
    let (r, _) = run(b"alllowercase");
    assert_eq!(r, Err(PasswordError::MissingUppercase));
}

#[test]
fn missing_lowercase_reported_second() {
    let (r, _) = run(b"ALLUPPERCASE1!");
    assert_eq!(r, Err(PasswordError::MissingLowercase));
}

#[test]
fn missing_digit_reported_third() {
    let (r, _) = run(b"Aa!!aaaa");
    assert_eq!(r, Err(PasswordError::MissingDigit));
}

#[test]
fn missing_punctuation_reported_fourth() {
    let (r, _) = run(b"Aa1aaaaa");
    assert_eq!(r, Err(PasswordError::MissingPunctuation));
}

#[test]
fn four_classes_but_short_fails_entropy_floor() {
    // 4 characters over the 94-symbol alphabet: 4 * log2(94) rounds to 26.
    let (r, _) = run(b"Aa1!");
    assert_eq!(r, Err(PasswordError::InsufficientEntropy));
}

#[test]
fn long_password_with_four_classes_passes() {
    // 61 characters over 94 symbols: 61 * log2(94) rounds to 400.
    let pw = format!("Aa1!{}", "a".repeat(57));
    let (r, _) = run(pw.as_bytes());
    let score = r.expect("strong password should pass");
    assert_eq!(score, 400);
    assert!(score >= 256);
}

#[test]
fn entropy_boundary_just_above_floor() {
    // 39 characters over 94 symbols round to exactly 256 bits.
    let pw = format!("Aa1!{}", "a".repeat(35));
    let (r, _) = run(pw.as_bytes());
    assert_eq!(r, Ok(256));
}

#[test]
fn entropy_boundary_just_below_floor() {
    // 38 characters over 94 symbols round to 249 bits.
    let pw = format!("Aa1!{}", "a".repeat(34));
    let (r, _) = run(pw.as_bytes());
    assert_eq!(r, Err(PasswordError::InsufficientEntropy));
}

#[test]
fn space_enlarges_keyspace_to_95() {
    // 40 characters: over 95 symbols (space present) they round to 263 bits,
    // over 94 symbols to 262.
    let with_space = format!("Aa1! {}", "a".repeat(35));
    let (r, _) = run(with_space.as_bytes());
    assert_eq!(r, Ok(263));

    let without_space = format!("Aa1!{}", "a".repeat(36));
    let (r2, _) = run(without_space.as_bytes());
    assert_eq!(r2, Ok(262));
}

#[test]
fn non_ascii_forces_256_keyspace() {
    // 32 bytes including a two-byte non-ASCII character: scored over the
    // full byte alphabet, 32 * log2(256) = 256 bits exactly.
    let pw = format!("Aa1!\u{e9}{}", "a".repeat(26));
    assert_eq!(pw.as_bytes().len(), 32);
    let (r, _) = run(pw.as_bytes());
    assert_eq!(r, Ok(256));

    // The same byte length without the non-ASCII character stays on the
    // additive 94-symbol alphabet and falls short of the floor.
    let ascii_pw = format!("Aa1!{}", "a".repeat(28));
    assert_eq!(ascii_pw.as_bytes().len(), 32);
    let (r2, _) = run(ascii_pw.as_bytes());
    assert_eq!(r2, Err(PasswordError::InsufficientEntropy));
}

#[test]
fn ascii_control_byte_counts_as_other() {
    // A tab is neither space nor any mandatory class: full byte alphabet.
    let pw = format!("Aa1!\t{}", "a".repeat(27));
    assert_eq!(pw.as_bytes().len(), 32);
    let (r, _) = run(pw.as_bytes());
    assert_eq!(r, Ok(256));
}

#[test]
fn invalid_utf8_is_an_encoding_error() {
    let (r, _) = run(&[0xFF, 0x41, 0x61, 0x31, 0x21]);
    assert_eq!(r, Err(PasswordError::InvalidEncoding));
}

#[test]
fn overlong_encoding_is_rejected() {
    let (r, _) = run(&[0x41, 0xC0, 0xAF]);
    assert_eq!(r, Err(PasswordError::InvalidEncoding));
}

#[test]
fn utf16_surrogate_bytes_are_rejected() {
    let (r, _) = run(&[0xED, 0xA0, 0x80]);
    assert_eq!(r, Err(PasswordError::InvalidEncoding));
}

#[test]
fn truncated_multibyte_character_is_rejected() {
    let (r, _) = run(&[0x41, 0xC3]);
    assert_eq!(r, Err(PasswordError::InvalidEncoding));
}

#[test]
fn four_byte_character_is_accepted_as_other() {
    let pw = format!("Aa1!\u{1F600}{}", "a".repeat(24));
    assert_eq!(pw.as_bytes().len(), 32);
    let (r, _) = run(pw.as_bytes());
    assert_eq!(r, Ok(256));
}

#[test]
fn buffer_is_zeroed_after_success() {
    let pw = format!("Aa1!{}", "a".repeat(57));
    let (r, buf) = run(pw.as_bytes());
    assert!(r.is_ok());
    assert_eq!(buf.len(), pw.as_bytes().len());
    assert!(buf.iter().all(|&b| b == 0));
}

#[test]
fn buffer_is_zeroed_after_policy_failure() {
    let (r, buf) = run(b"alllowercase");
    assert!(r.is_err());
    assert_eq!(buf.len(), b"alllowercase".len());
    assert!(buf.iter().all(|&b| b == 0));
}

#[test]
fn buffer_is_zeroed_after_encoding_failure() {
    let input: Vec<u8> = vec![0xFF, 0x41, 0x61];
    let (r, buf) = run(&input);
    assert!(r.is_err());
    assert_eq!(buf.len(), input.len());
    assert!(buf.iter().all(|&b| b == 0));
}

#[test]
fn exact_entropy_of_short_password() {
    // The value behind the short-password failure: 4 * log2(94) rounds to 26.
    assert_eq!(key_vault::entropy::entropy_bits_u32(4, 94), 26);
    assert_eq!(key_vault::entropy::entropy_bits_u32(61, 94), 400);
    assert_eq!(key_vault::entropy::entropy_bits_u32(32, 256), 256);
    assert_eq!(key_vault::entropy::entropy_bits_u32(0, 94), 0);
}

#[test]
fn error_messages_are_fixed() {
    assert_eq!(
        PasswordError::MissingUppercase.message(),
        "Password must contain at least one uppercase letter!"
    );
    assert_eq!(
        PasswordError::MissingLowercase.message(),
        "Password must contain at least one lowercase letter!"
    );
    assert_eq!(
        PasswordError::MissingDigit.message(),
        "Password must contain at least one digit!"
    );
    assert_eq!(
        PasswordError::MissingPunctuation.message(),
        "Password must contain at least one symbol!"
    );
    assert_eq!(
        PasswordError::InsufficientEntropy.message(),
        "Password entropy must be at least 256 bit. Consider lengthening your password!"
    );
}
