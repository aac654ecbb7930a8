use fast_estimate::linear_counter::{pop_count, LinearCounter, LinearCounterError, MAX_BUFFER_SIZE};

/// The linear counting estimate `m * ln(m / (m - set bits))`, rounded, with
/// `m` the number of words of the counter.
fn estimate(lc: &LinearCounter) -> u32 {
    let l: f64 = lc.size() as f64;
    let nf: f64 = l - lc.population_count() as f64;
    (l * (l / nf).ln()).round() as u32
}

fn digest_of(first: [u8; 4]) -> [u8; 16] {
    let mut digest = [0u8; 16];
    digest[0] = first[0];
    digest[1] = first[1];
    digest[2] = first[2];
    digest[3] = first[3];
    digest
}

#[test]
#[allow(non_snake_case)]
fn LinearCounter_population_count() {
    for i in 1..10 {
        let mut lc = LinearCounter::new(1000).unwrap();
        for j in 0..i {
            let mut s = "str".to_string();
            s.push_str(&j.to_string());
            lc.offer(&s);
        }
        assert_eq!(lc.population_count(), i);
    }
}

#[test]
#[allow(non_snake_case)]
fn LinearCounter_estimate() {
    for i in 1..10 {
        let mut lc = LinearCounter::new(1000000).unwrap();
        for j in 0..i {
            let mut s = "str".to_string();
            s.push_str(&j.to_string());
            lc.offer(&s);
        }
        assert_eq!(estimate(&lc), i);
    }
}

#[test]
#[allow(non_snake_case)]
fn LinearCounter_zero_lc() {
    let lc = LinearCounter::new(1000).unwrap();
    assert_eq!(lc.population_count(), 0)
}

#[test]
#[allow(non_snake_case)]
fn LinearCounter_new_pop_count() {
    let _lc = LinearCounter::new(1000).unwrap();
    assert_eq!(pop_count(0xFF0F0F00), 16)
}

#[test]
fn linear_counter_population_count() {
    for i in 1..10 {
        let mut lc = LinearCounter::new(1000).unwrap();
        for j in 0..i {
            let mut s = "str".to_string();
            s.push_str(&j.to_string());
            lc.offer(&s);
        }
        assert_eq!(lc.population_count(), i);
    }
}

#[test]
fn linear_counter_estimate() {
    for i in 1..10 {
        let mut lc = LinearCounter::new(1000000).unwrap();
        for j in 0..i {
            let mut s = "str".to_string();
            s.push_str(&j.to_string());
            lc.offer(&s);
        }
        assert_eq!(estimate(&lc), i);
    }
}

#[test]
fn linear_counter_zero_lc() {
    let lc = LinearCounter::new(1000).unwrap();
    assert_eq!(lc.population_count(), 0)
}

#[test]
fn linear_counter_new_pop_count() {
    assert_eq!(pop_count(0x00000000), 0);
    assert_eq!(pop_count(0xFFFFFFFF), 32);
    assert_eq!(pop_count(0xFF0F0F00), 16);
}

#[test]
fn empty_counter_estimates_zero() {
    let lc = LinearCounter::new(1000).unwrap();
    assert_eq!(estimate(&lc), 0);
}

#[test]
fn pop_count_of_single_bits() {
    for j in 0..32 {
        assert_eq!(pop_count(1u32 << j), 1);
        assert_eq!(pop_count(!(1u32 << j)), 31);
    }
    assert_eq!(pop_count(0x8000_0001), 2);
    assert_eq!(pop_count(0x5555_5555), 16);
}

#[test]
fn new_counter_has_the_size_asked_for() {
    let lc = LinearCounter::new(3).unwrap();
    assert_eq!(lc.size(), 3);
    for i in 0..96 {
        assert!(!lc.bit(i));
    }
    let none = LinearCounter::new(0).unwrap();
    assert_eq!(none.size(), 0);
    assert_eq!(none.population_count(), 0);
}

#[test]
fn oversize_bitmap_is_refused() {
    assert_eq!(MAX_BUFFER_SIZE, 134_217_728);
    assert_eq!(
        LinearCounter::new(MAX_BUFFER_SIZE + 1).err(),
        Some(LinearCounterError::OversizeBitmap)
    );
    assert_eq!(LinearCounter::new(usize::MAX).err(), Some(LinearCounterError::OversizeBitmap));
}

#[test]
fn digest_selects_bit_by_its_first_four_bytes() {
    // 0x00000025 = 37; 37 mod 64 = 37: word 1, bit 5
    let mut lc = LinearCounter::new(2).unwrap();
    lc.offer_digest(&digest_of([0, 0, 0, 0x25]));
    assert!(lc.bit(37));
    assert!(!lc.bit(5));
    assert_eq!(lc.population_count(), 1);

    // 0x01020304 = 16909060; 16909060 mod 96 = 4
    let mut lc = LinearCounter::new(3).unwrap();
    lc.offer_digest(&digest_of([1, 2, 3, 4]));
    assert_eq!(16909060 % 96, 4);
    assert!(lc.bit(4));
    assert_eq!(lc.population_count(), 1);

    // 0xFFFFFFFF = 4294967295; 4294967295 mod 32000 = 23295
    let mut lc = LinearCounter::new(1000).unwrap();
    lc.offer_digest(&digest_of([0xFF, 0xFF, 0xFF, 0xFF]));
    assert!(lc.bit(23295));
    assert_eq!(lc.population_count(), 1);
}

#[test]
fn bytes_after_the_fourth_do_not_matter() {
    let mut a = LinearCounter::new(4).unwrap();
    let mut b = LinearCounter::new(4).unwrap();
    let mut digest = digest_of([9, 8, 7, 6]);
    a.offer_digest(&digest);
    digest[4] = 0xAA;
    digest[15] = 0x55;
    b.offer_digest(&digest);
    for i in 0..128 {
        assert_eq!(a.bit(i), b.bit(i));
    }
}

#[test]
fn offer_goes_by_the_md5_digest_of_the_string() {
    // MD5("") starts d4 1d 8c d9: 0xd41d8cd9 mod 32 = 25
    let mut lc = LinearCounter::new(1).unwrap();
    lc.offer("");
    assert!(lc.bit(25));
    assert_eq!(lc.population_count(), 1);

    // MD5("abc") starts 90 01 50 98: 0x90015098 mod 32 = 24
    let mut lc = LinearCounter::new(1).unwrap();
    lc.offer("abc");
    assert!(lc.bit(24));
    assert_eq!(lc.population_count(), 1);

    // 0x90015098 = 2416005272; 2416005272 mod 320 = 152
    let mut lc = LinearCounter::new(10).unwrap();
    lc.offer("abc");
    assert_eq!(2416005272u64 % 320, 152);
    assert!(lc.bit(152));
    for i in 0..320 {
        assert_eq!(lc.bit(i), i == 152);
    }
}

#[test]
fn offer_and_offer_digest_agree() {
    let mut by_string = LinearCounter::new(100).unwrap();
    let mut by_digest = LinearCounter::new(100).unwrap();
    by_string.offer("abc");
    let mut digest = [0u8; 16];
    digest[0] = 0x90;
    digest[1] = 0x01;
    digest[2] = 0x50;
    digest[3] = 0x98;
    by_digest.offer_digest(&digest);
    for i in 0..3200 {
        assert_eq!(by_string.bit(i), by_digest.bit(i));
    }
}

#[test]
fn population_count_never_decreases() {
    let mut lc = LinearCounter::new(2).unwrap();
    let mut last = lc.population_count();
    for i in 0..500 {
        lc.offer(&i.to_string());
        let now = lc.population_count();
        assert!(now >= last);
        assert!(now <= last + 1);
        assert!(now <= 64);
        last = now;
    }
}

#[test]
fn offering_twice_is_offering_once() {
    let mut once = LinearCounter::new(50).unwrap();
    let mut twice = LinearCounter::new(50).unwrap();
    once.offer("Hello");
    twice.offer("Hello");
    twice.offer("Hello");
    assert_eq!(once.population_count(), 1);
    assert_eq!(twice.population_count(), 1);
    for i in 0..1600 {
        assert_eq!(once.bit(i), twice.bit(i));
    }
}

#[test]
fn population_count_counts_every_word() {
    let mut lc = LinearCounter::new(4).unwrap();
    // bit 0 of the first word, bit 31 of the last
    lc.offer_digest(&digest_of([0, 0, 0, 0]));
    lc.offer_digest(&digest_of([0, 0, 0, 127]));
    lc.offer_digest(&digest_of([0, 0, 0, 64]));
    assert!(lc.bit(0));
    assert!(lc.bit(127));
    assert!(lc.bit(64));
    assert_eq!(lc.population_count(), 3);
}
