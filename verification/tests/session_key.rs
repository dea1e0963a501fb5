use dev_manager_mcp::session_key::{
    generate_session_key, session_key_from_indices, CHARSET_LENGTH, KEY_LENGTH,
};

#[test]
fn key_from_indices_maps_letters_then_digits() {
    assert_eq!(session_key_from_indices(0, 25, 26, 35), "AZ09");
    assert_eq!(session_key_from_indices(1, 2, 3, 4), "BCDE");
    assert_eq!(session_key_from_indices(35, 35, 35, 35), "9999");
    assert_eq!(session_key_from_indices(0, 0, 0, 0), "AAAA");
}

#[test]
fn key_constants() {
    assert_eq!(KEY_LENGTH, 4);
    assert_eq!(CHARSET_LENGTH, 36);
}

#[test]
fn generated_keys_have_four_characters_of_the_set() {
    for _ in 0..500 {
        let key = generate_session_key();
        assert_eq!(key.chars().count(), 4);
        assert!(key
            .chars()
            .all(|c| c.is_ascii_uppercase() || c.is_ascii_digit()));
    }
}

#[test]
fn generated_keys_vary() {
    let first = generate_session_key();
    let mut different = false;
    for _ in 0..200 {
        if generate_session_key() != first {
            different = true;
        }
    }
    assert!(different);
}
