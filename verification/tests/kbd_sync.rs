use vibeos::kbd::{DecodedKey, NamedKey};
use vibeos::sync::UNLOCKED;

#[test]
fn unlocked_owner_is_zero() {
    assert_eq!(UNLOCKED, 0);
}

#[test]
fn decoded_keys_compare_by_value() {
    assert_eq!(DecodedKey::Char(b'a'), DecodedKey::Char(b'a'));
    assert_ne!(DecodedKey::Char(b'a'), DecodedKey::Named(NamedKey::Enter));
}
