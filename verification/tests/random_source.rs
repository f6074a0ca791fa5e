use draw_lots::random_number::{RandomNumber, RandomSource, Replay};

#[test]
fn a_new_random_number_reads_zero() {
    let source = RandomNumber::new();
    assert_eq!(source.random_number(), 0);
}

#[test]
fn seed_is_the_mix_in_little_endian_bytes() {
    let source = RandomNumber::new();
    // (0x0a0b0c0d ^ 0x00000101) | (0 + 0x10000000) = 0x1a0b0d0c
    let seed = source.seed_for(0x1000_0000, 0x0a0b_0c0d, 0x0000_0101);
    assert_eq!(seed, Some(vec![0x0c, 0x0d, 0x0b, 0x1a]));
}

#[test]
fn seed_uses_only_the_low_half_of_the_clock() {
    let source = RandomNumber::new();
    let seed = source.seed_for(0, 0xffff_ffff_0000_0002, 4);
    assert_eq!(seed, Some(vec![6, 0, 0, 0]));
}

#[test]
fn absorb_reads_the_first_four_bytes() {
    let mut source = RandomNumber::new();
    let mut hash = [0u8; 32];
    hash[0] = 0x78;
    hash[1] = 0x56;
    hash[2] = 0x34;
    hash[3] = 0x12;
    hash[4] = 0xff;
    assert_eq!(source.absorb(&hash), 0x1234_5678);
    assert_eq!(source.random_number(), 0x1234_5678);
}

#[test]
fn seed_mixes_in_the_last_value() {
    let mut source = RandomNumber::new();
    let mut hash = [0u8; 32];
    hash[1] = 1;
    assert_eq!(source.absorb(&hash), 256);
    let seed = source.seed_for(3, 0, 0);
    assert_eq!(seed, Some(vec![3, 1, 0, 0]));
}

#[test]
fn no_seed_when_last_value_and_salt_overflow() {
    let mut source = RandomNumber::new();
    let hash = [0xffu8; 32];
    assert_eq!(source.absorb(&hash), u32::MAX);
    assert_eq!(source.seed_for(1, 0, 0), None);
    assert_eq!(source.seed_for(0, 0, 0), Some(vec![0xff, 0xff, 0xff, 0xff]));
    assert_eq!(source.random(1), None);
    assert_eq!(source.random_number(), u32::MAX);
}

#[test]
fn random_keeps_the_value_it_hands_out() {
    let mut source = RandomNumber::new();
    for _ in 0..20 {
        match source.random(0) {
            Some(value) => assert_eq!(source.random_number(), value),
            None => panic!("the environment handed out no value"),
        }
    }
}

#[test]
fn random_through_the_trait_is_the_same_call() {
    let mut source = RandomNumber::new();
    let value = source.next(0);
    assert!(value.is_some());
    assert_eq!(Some(source.random_number()), value);
}

#[test]
fn replay_hands_out_its_values_in_order() {
    let mut source = Replay::new(vec![5, 6, 7]);
    assert_eq!(source.remaining(), 3);
    assert_eq!(source.next(0), Some(5));
    assert_eq!(source.next(99), Some(6));
    assert_eq!(source.remaining(), 1);
    assert_eq!(source.next(0), Some(7));
    assert_eq!(source.next(0), None);
    assert_eq!(source.next(0), None);
    assert_eq!(source.remaining(), 0);
}

#[test]
fn a_resumed_source_goes_on_from_its_value() {
    let source = RandomNumber::resume(256);
    assert_eq!(source.random_number(), 256);
    assert_eq!(source.seed_for(3, 0, 0), Some(vec![3, 1, 0, 0]));
}
