use lib::keymap::{is_cyrillic_first, latin_to_cyrillic};

#[test]
fn maps_home_row_keys() {
    // f -> а (U+0430), j -> о (U+043E)
    assert_eq!(latin_to_cyrillic(b'f'), (0xD0, 0xB0));
    assert_eq!(latin_to_cyrillic(b'j'), (0xD0, 0xBE));
    assert_eq!(latin_to_cyrillic(b'a'), (0xD1, 0x84));
}

#[test]
fn maps_punctuation_keys() {
    assert_eq!(latin_to_cyrillic(b'['), (0xD1, 0x85));
    assert_eq!(latin_to_cyrillic(b']'), (0xD1, 0x8A));
    assert_eq!(latin_to_cyrillic(b';'), (0xD0, 0xB6));
    assert_eq!(latin_to_cyrillic(b'\''), (0xD1, 0x8D));
    assert_eq!(latin_to_cyrillic(b','), (0xD0, 0xB1));
    assert_eq!(latin_to_cyrillic(b'.'), (0xD1, 0x8E));
    assert_eq!(latin_to_cyrillic(b'`'), (0xD1, 0x91));
}

#[test]
fn unmapped_keys_give_zero() {
    assert_eq!(latin_to_cyrillic(b'Q'), (0, 0));
    assert_eq!(latin_to_cyrillic(b'1'), (0, 0));
    assert_eq!(latin_to_cyrillic(b' '), (0, 0));
    assert_eq!(latin_to_cyrillic(0xD0), (0, 0));
}

#[test]
fn every_mapping_is_utf8_of_a_russian_letter() {
    let keys = b"qwertyuiop[]asdfghjkl;'zxcvbnm,.`";
    let mut seen: Vec<char> = Vec::new();
    for &k in keys.iter() {
        let (a, b) = latin_to_cyrillic(k);
        assert!(is_cyrillic_first(a));
        let s = std::str::from_utf8(&[a, b]).unwrap().to_string();
        let ch = s.chars().next().unwrap();
        assert!(('\u{0430}'..='\u{044F}').contains(&ch) || ch == '\u{0451}');
        assert!(!seen.contains(&ch));
        seen.push(ch);
    }
    assert_eq!(seen.len(), 33);
}

#[test]
fn cyrillic_first_bytes() {
    assert!(is_cyrillic_first(0xD0));
    assert!(is_cyrillic_first(0xD1));
    assert!(!is_cyrillic_first(0xCF));
    assert!(!is_cyrillic_first(0xD2));
    assert!(!is_cyrillic_first(b'a'));
    assert!(!is_cyrillic_first(0));
}
