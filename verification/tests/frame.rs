use simcore::frame::{pressed, Key};

const ALL: [Key; 7] = [Key::W, Key::A, Key::S, Key::D, Key::Q, Key::E, Key::Space];

#[test]
fn keys_take_bits_zero_to_six() {
    for (n, key) in ALL.iter().enumerate() {
        assert_eq!(key.bit() as usize, n);
    }
}

#[test]
fn one_bit_presses_one_key() {
    for (n, key) in ALL.iter().enumerate() {
        let keys = 1u8 << n;
        for other in ALL.iter() {
            assert_eq!(pressed(keys, *other), *other == *key);
        }
    }
}

#[test]
fn no_bit_no_key_and_all_bits_all_keys() {
    for key in ALL.iter() {
        assert!(!pressed(0, *key));
        assert!(pressed(0x7f, *key));
        assert!(pressed(0xff, *key));
    }
}

#[test]
fn top_bit_is_no_key() {
    for key in ALL.iter() {
        assert!(!pressed(0x80, *key));
    }
}

#[test]
fn w_and_space_together() {
    let keys = 0b0100_0001;
    assert!(pressed(keys, Key::W));
    assert!(pressed(keys, Key::Space));
    assert!(!pressed(keys, Key::A));
    assert!(!pressed(keys, Key::S));
    assert!(!pressed(keys, Key::D));
    assert!(!pressed(keys, Key::Q));
    assert!(!pressed(keys, Key::E));
}
