use simcore::prng::{Xoroshiro128Plus, JUMP_HIGH, JUMP_LOW};

#[test]
fn seeded_generator_gives_the_known_stream() {
    let mut prng = Xoroshiro128Plus::new(2, 4);
    assert_eq!(prng.random_u64(), 0x6ed4af55d88ec14a);
    assert_eq!(prng.random_u64(), 0x4ea6bdf6a1f7324c);
    assert_eq!(prng.random_u64(), 0x54fbb2eac9e4dd18);
    assert_eq!(prng.random_u64(), 0x28758ed74eca16d0);
}

#[test]
fn another_seed_gives_another_stream() {
    let mut prng = Xoroshiro128Plus::new(1, 2);
    assert_eq!(prng.random_u64(), 16863749256561482023);
    assert_eq!(prng.random_u64(), 15988492901402843592);
    assert_eq!(prng.random_u64(), 16860311396414380700);
}

#[test]
fn same_seed_same_stream() {
    let mut a = Xoroshiro128Plus::new(77, 99);
    let mut b = Xoroshiro128Plus::new(77, 99);
    for _ in 0..100 {
        assert_eq!(a.random_u64(), b.random_u64());
    }
}

#[test]
fn zero_seed_stays_at_zero() {
    let mut prng = Xoroshiro128Plus::new(0, 0);
    assert_eq!(prng.random_u64(), 0);
    assert_eq!(prng.random_u64(), 0);
}

#[test]
fn jump_moves_to_the_known_state() {
    let mut prng = Xoroshiro128Plus::new(2, 4);
    prng.jump();
    assert_eq!(prng.random_u64(), 3143040711035993563);
}

#[test]
fn jump_polynomial_words() {
    assert_eq!(JUMP_LOW, 0xdf900294d8f554a5);
    assert_eq!(JUMP_HIGH, 0x170865df4b3201fc);
}
