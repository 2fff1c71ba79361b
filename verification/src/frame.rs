//! The input of one tick: a bitmask with one bit per key.

use vstd::prelude::*;

verus! {

/// The keys that a tick reports, in the order of their bits.
#[derive(Clone, Copy, Debug, PartialEq, Eq, Structural)]
pub enum Key {
    W,
    A,
    S,
    D,
    Q,
    E,
    Space,
}

impl Key {
    /// The number of the bit that stands for this key.
    pub open spec fn bit_index(self) -> nat {
        match self {
            Key::W => 0,
            Key::A => 1,
            Key::S => 2,
            Key::D => 3,
            Key::Q => 4,
            Key::E => 5,
            Key::Space => 6,
        }
    }

    /// The mask with only this key's bit set: two to the power of its number.
    pub open spec fn mask(self) -> u8 {
        match self {
            Key::W => 1,
            Key::A => 2,
            Key::S => 4,
            Key::D => 8,
            Key::Q => 16,
            Key::E => 32,
            Key::Space => 64,
        }
    }

    /// The number of the bit that stands for this key.
    pub fn bit(self) -> (n: u8)
        ensures
            n == self.bit_index(),
            n < 7,
            1u8 << n == self.mask(),
    {
        let n: u8 = match self {
            Key::W => 0,
            Key::A => 1,
            Key::S => 2,
            Key::D => 3,
            Key::Q => 4,
            Key::E => 5,
            Key::Space => 6,
        };
        assert(1u8 << 0u8 == 1 && 1u8 << 1u8 == 2 && 1u8 << 2u8 == 4 && 1u8 << 3u8 == 8 && 1u8
            << 4u8 == 16 && 1u8 << 5u8 == 32 && 1u8 << 6u8 == 64) by (bit_vector);
        n
    }
}

/// Whether `key` is down in the bitmask `keys`.
pub open spec fn is_pressed(keys: u8, key: Key) -> bool {
    (keys as nat / key.mask() as nat) % 2 == 1
}

/// Whether `key` is down in the bitmask `keys`: whether the bit of `key` is set.
pub fn pressed(keys: u8, key: Key) -> (down: bool)
    ensures
        down == is_pressed(keys, key),
        down == (keys & key.mask() != 0),
{
    let n = key.bit();
    let mask: u8 = 1u8 << n;
    assert(forall|k: u8|
        (k & 1 != 0) == ((k as nat / 1) % 2 == 1) && (k & 2 != 0) == ((k as nat / 2) % 2 == 1) && (
        k & 4 != 0) == ((k as nat / 4) % 2 == 1) && (k & 8 != 0) == ((k as nat / 8) % 2 == 1) && (k
            & 16 != 0) == ((k as nat / 16) % 2 == 1) && (k & 32 != 0) == ((k as nat / 32) % 2 == 1)
            && (k & 64 != 0) == ((k as nat / 64) % 2 == 1)) by (bit_vector);
    keys & mask > 0
}

} // verus!
