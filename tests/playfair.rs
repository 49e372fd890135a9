use rsa_core::playfair::{Playfair, Text};

#[test]
fn test_create_key() {
    let primary_key = "krypto";
    let expected = vec![
        'k', 'r', 'y', 'p', 't', 'o', 'a', 'b', 'c', 'd', 'e', 'f', 'g', 'h', 'i', 'l', 'm',
        'n', 'q', 's', 'u', 'v', 'w', 'x', 'z',
    ];
    let actual = Playfair::generate_key(primary_key).expect("Unexpected NonAsciiKey error.");

    assert_eq!(expected, actual);

    let primary_key = "kryptografia";
    let expected = vec![
        'k', 'r', 'y', 'p', 't', 'o', 'g', 'a', 'f', 'i', 'b', 'c', 'd', 'e', 'h', 'l', 'm',
        'n', 'q', 's', 'u', 'v', 'w', 'x', 'z',
    ];
    let actual = Playfair::generate_key(primary_key).expect("Unexpected NonAsciiKey error.");

    assert_eq!(expected, actual);

    let primary_key = "Juxtaposition";
    let expected = vec![
        'i', 'u', 'x', 't', 'a', 'p', 'o', 's', 'n', 'b', 'c', 'd', 'e', 'f', 'g', 'h', 'k',
        'l', 'm', 'q', 'r', 'v', 'w', 'y', 'z',
    ];
    let actual = Playfair::generate_key(primary_key).expect("Unexpected NonAsciiKey error.");

    assert_eq!(expected, actual);
}

#[test]
#[should_panic]
fn test_incorrect_keyword() {
    let _ = Playfair::generate_key("r??sum??").unwrap();
}

// A pair of two equal letters is split by the filler `x`, and a pair of two
// `x`s by the filler `a`, so "xxx" becomes "xaxaxa".
#[test]
fn test_sanitize_message() {
    let message = "aabbaa kanna, xxx:";
    let expected = vec![
        Text::Word("axabbaax".to_owned()),
        Text::Punctuation(" ".to_owned()),
        Text::Word("kanxna".to_owned()),
        Text::Punctuation(", ".to_owned()),
        Text::Word("xaxaxa".to_owned()),
        Text::Punctuation(":".to_owned()),
    ];

    assert_eq!(expected, Playfair::sanitize_message(message));
}

#[test]
fn test_encrypt_message() {
    let encryptor = Playfair::new("kryptografia").expect("Unexpected non-ASCII keyword error.");
    let message = "Faramir caught Gollum";
    let encrypted = "ifgygsvp gdovsi aguqukvq";

    let actual = encryptor.encrypt(message);

    assert_eq!(encrypted, &actual);

    let message = "résumé";
    let encrypted = "cpzlcq";

    let actual = encryptor.encrypt(message);

    assert_eq!(encrypted, &actual);
}

#[test]
fn test_decrypt_message() {
    let decryptor = Playfair::new("kryptografia").expect("Unexpected non-ASCII keyword error.");
    let encrypted = "ifgygsvp gdovsi aguqukvq";
    let decrypted = "faramirx caught golxlumx";

    let actual = decryptor.decrypt(encrypted);

    assert_eq!(decrypted, &actual);

    let encrypted = "cpzlcq";
    let decrypted = "resume";

    let actual = decryptor.decrypt(encrypted);

    assert_eq!(decrypted, &actual);
}

#[test]
fn keyword_with_digit_is_refused() {
    assert!(Playfair::new("key1").is_err());
    assert!(Playfair::generate_key("").is_ok());
}

#[test]
fn single_letter_words_are_padded() {
    let actual = Playfair::sanitize_message("a x");
    assert_eq!(
        actual,
        vec![
            Text::Word("ax".to_owned()),
            Text::Punctuation(" ".to_owned()),
            Text::Word("xa".to_owned()),
        ]
    );
}

#[test]
fn j_is_read_as_i_and_symbols_dropped() {
    let actual = Playfair::sanitize_message("Jo!");
    assert_eq!(actual, vec![Text::Word("io".to_owned())]);
}

#[test]
fn transliteration_feeds_the_cipher() {
    let cipher = Playfair::new("kryptografia").unwrap();
    assert_eq!(cipher.encrypt("résumé"), cipher.encrypt("resume"));
    assert_ne!(cipher.encrypt("résumé"), "resume");
}

#[test]
fn message_must_begin_with_a_letter() {
    let cipher = Playfair::new("kryptografia").unwrap();
    assert!(!Playfair::pairs_up(", caught"));
    assert!(!Playfair::pairs_up(""));
    assert!(Playfair::pairs_up("Faramir, caught"));
    assert_eq!(cipher.try_encrypt(", caught"), None);
    assert_eq!(cipher.try_decrypt(""), None);
    assert_eq!(cipher.try_encrypt("Faramir caught Gollum"), Some("ifgygsvp gdovsi aguqukvq".to_string()));
    assert_eq!(cipher.try_decrypt("cpzlcq"), Some("resume".to_string()));
}

#[test]
fn delete_character_is_dropped_by_transliteration() {
    assert_eq!(Playfair::sanitize_message("ab\u{7f}cd"), vec![Text::Word("abcd".to_owned())]);
}
