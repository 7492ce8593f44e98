use playfair::{generate_playfair_table, playfair_cipher, CipherMode};

#[test]
fn test_generate_playfair_table() {
    let key: &str = "KEYWORD";
    let table: Vec<Vec<char>> = generate_playfair_table(key);
    assert_eq!(table.len(), 5);
    assert_eq!(table[0].len(), 5);
    assert!(table.iter().flatten().all(|&c| c != 'J'));
}

#[test]
fn test_playfair_encrypt() {
    let key: &str = "KEYWORD";
    let table: Vec<Vec<char>> = generate_playfair_table(key);
    let plaintext: &str = "HELLO";
    let encrypted: String = playfair_cipher(plaintext, &table, CipherMode::Encrypt);
    assert_eq!(encrypted, "GYIZSC");
}

#[test]
fn test_playfair_decrypt() {
    let key: &str = "KEYWORD";
    let table: Vec<Vec<char>> = generate_playfair_table(key);
    let encrypted: &str = "GYIZSC";
    let decrypted: String = playfair_cipher(encrypted, &table, CipherMode::Decrypt);
    assert_eq!(decrypted, "HELXLO");
}

#[test]
fn test_playfair_with_repeated_characters() {
    let key: &str = "KEYWORD";
    let table: Vec<Vec<char>> = generate_playfair_table(key);
    let plaintext: &str = "BALLOON";
    let encrypted: String = playfair_cipher(plaintext, &table, CipherMode::Encrypt);
    assert_eq!(encrypted, "CBIZSCES");
}

#[test]
fn test_playfair_with_odd_length() {
    let key: &str = "KEYWORD";
    let table: Vec<Vec<char>> = generate_playfair_table(key);
    let plaintext: &str = "TEST";
    let encrypted: String = playfair_cipher(plaintext, &table, CipherMode::Encrypt);
    assert!(encrypted.len() % 2 == 0);
}

#[test]
fn test_keyword_table_rows() {
    let table = generate_playfair_table("KEYWORD");
    let expected: Vec<Vec<char>> = vec![
        vec!['K', 'E', 'Y', 'W', 'O'],
        vec!['R', 'D', 'A', 'B', 'C'],
        vec!['F', 'G', 'H', 'I', 'L'],
        vec!['M', 'N', 'P', 'Q', 'S'],
        vec!['T', 'U', 'V', 'X', 'Z'],
    ];
    assert_eq!(table, expected);
}

fn assert_table_well_formed(table: &Vec<Vec<char>>) {
    assert_eq!(table.len(), 5);
    let mut letters: Vec<char> = Vec::new();
    for row in table {
        assert_eq!(row.len(), 5);
        for &c in row {
            assert!(c.is_ascii_uppercase());
            assert_ne!(c, 'J');
            assert!(!letters.contains(&c));
            letters.push(c);
        }
    }
    assert_eq!(letters.len(), 25);
}

#[test]
fn test_table_well_formed_for_any_key() {
    assert_table_well_formed(&generate_playfair_table(""));
    assert_table_well_formed(&generate_playfair_table("12345!?"));
    assert_table_well_formed(&generate_playfair_table("MiXeD CaSe KeY"));
    assert_table_well_formed(&generate_playfair_table("AAAABBBB"));
    assert_table_well_formed(&generate_playfair_table("jjjj"));
    assert_table_well_formed(&generate_playfair_table("the quick brown fox jumps over the lazy dog"));
}

#[test]
fn test_empty_key_gives_alphabet_table() {
    let table = generate_playfair_table("");
    let expected: Vec<Vec<char>> = vec![
        vec!['A', 'B', 'C', 'D', 'E'],
        vec!['F', 'G', 'H', 'I', 'K'],
        vec!['L', 'M', 'N', 'O', 'P'],
        vec!['Q', 'R', 'S', 'T', 'U'],
        vec!['V', 'W', 'X', 'Y', 'Z'],
    ];
    assert_eq!(table, expected);
}

#[test]
fn test_find_position_is_a_bijection() {
    let table = generate_playfair_table("KEYWORD");
    for i in 0..5 {
        for j in 0..5 {
            let (r, c) = playfair::find_position(&table, table[i][j]);
            assert_eq!((r, c), (i, j));
        }
    }
}

#[test]
fn test_round_trip_restores_normalized_text() {
    let table = generate_playfair_table("KEYWORD");
    for text in ["TEST", "ride", "CRYPTOGAM", "playfair"] {
        let encrypted = playfair_cipher(text, &table, CipherMode::Encrypt);
        let decrypted = playfair_cipher(&encrypted, &table, CipherMode::Decrypt);
        let normalized: String = text
            .chars()
            .filter(|c| c.is_ascii_alphabetic())
            .map(|c| c.to_ascii_uppercase())
            .collect();
        let padded = if normalized.len() % 2 == 0 {
            normalized
        } else {
            format!("{}X", normalized)
        };
        assert_eq!(decrypted, padded);
    }
}

#[test]
fn test_double_encrypt_is_not_identity() {
    let table = generate_playfair_table("KEYWORD");
    let once = playfair_cipher("HELLO", &table, CipherMode::Encrypt);
    let twice = playfair_cipher(&once, &table, CipherMode::Encrypt);
    assert_eq!(twice, "HELXZL");
    assert_ne!(twice, "HELXLO");
}

#[test]
fn test_output_length_matches_padded_input() {
    let table = generate_playfair_table("KEYWORD");
    let cases = [
        ("", 0),
        ("A", 2),
        ("AB", 2),
        ("ODD", 4),
        ("HELLO", 6),
        ("BALLOON", 8),
        ("hi there!", 8),
    ];
    for (text, expected_len) in cases {
        let encrypted = playfair_cipher(text, &table, CipherMode::Encrypt);
        assert_eq!(encrypted.len(), expected_len);
        assert!(encrypted.len() % 2 == 0);
    }
}

#[test]
fn test_encrypt_differs_from_plaintext() {
    let table = generate_playfair_table("KEYWORD");
    let encrypted = playfair_cipher("TEST", &table, CipherMode::Encrypt);
    assert_eq!(encrypted.len(), 4);
    for (e, p) in encrypted.chars().zip("TEST".chars()) {
        assert_ne!(e, p);
    }
}

#[test]
fn test_cipher_filters_and_uppercases() {
    let table = generate_playfair_table("KEYWORD");
    let from_noisy = playfair_cipher("h-e l?l o9", &table, CipherMode::Encrypt);
    let from_clean = playfair_cipher("HELLO", &table, CipherMode::Encrypt);
    assert_eq!(from_noisy, from_clean);
}
