use fsdb_clustering::rng::Rng;

/// Straightforward floating-point generator used as an oracle.
struct FloatRng {
    s: [u64; 4],
}

fn splitmix(x: &mut u64) -> u64 {
    *x = x.wrapping_add(0x9E3779B97F4A7C15);
    let mut z = *x;
    z = (z ^ (z >> 30)).wrapping_mul(0xBF58476D1CE4E5B9);
    z = (z ^ (z >> 27)).wrapping_mul(0x94D049BB133111EB);
    z ^ (z >> 31)
}

impl FloatRng {
    fn new(seed: u64) -> Self {
        let mut x = seed;
        let s = [splitmix(&mut x), splitmix(&mut x), splitmix(&mut x), splitmix(&mut x)];
        FloatRng { s }
    }
    fn next_u64(&mut self) -> u64 {
        let result = self.s[1].wrapping_mul(5).rotate_left(7).wrapping_mul(9);
        let t = self.s[1] << 17;
        self.s[2] ^= self.s[0];
        self.s[3] ^= self.s[1];
        self.s[1] ^= self.s[2];
        self.s[0] ^= self.s[3];
        self.s[2] ^= t;
        self.s[3] = self.s[3].rotate_left(45);
        result
    }
    fn uniform(&mut self) -> f64 {
        (self.next_u64() >> 11) as f64 * (1.0 / (1u64 << 53) as f64)
    }
    fn below(&mut self, m: usize) -> usize {
        (self.uniform() * m as f64) as usize % m
    }
}

#[test]
fn splitmix_seeded_first_outputs_match_reference_values() {
    // Reference outputs of xoshiro256** seeded by splitmix64 with seed 0.
    let mut r = Rng::new(0);
    let mut f = FloatRng::new(0);
    for _ in 0..1000 {
        assert_eq!(r.next_u64(), f.next_u64());
    }
}

#[test]
fn same_seed_gives_same_stream() {
    let mut a = Rng::new(260913);
    let mut b = Rng::new(260913);
    for _ in 0..100 {
        assert_eq!(a.next_u64(), b.next_u64());
    }
    let mut c = Rng::new(260914);
    let mut d = Rng::new(260913);
    let differs = (0..10).any(|_| c.next_u64() != d.next_u64());
    assert!(differs);
}

#[test]
fn next_u64_exact_values() {
    let mut r = Rng::new(0);
    assert_eq!(r.next_u64(), 11091344671253066420);
    assert_eq!(r.next_u64(), 13793997310169335082);
    assert_eq!(r.next_u64(), 1900383378846508768);
    let mut r = Rng::new(42);
    assert_eq!(r.next_u64(), 1546998764402558742);
    assert_eq!(r.next_u64(), 6990951692964543102);
    assert_eq!(r.next_u64(), 12544586762248559009);
}

#[test]
fn below_matches_floating_point_formula_small_ranges() {
    for seed in [1u64, 7, 260913, 260922, u64::MAX] {
        let mut r = Rng::new(seed);
        let mut f = FloatRng::new(seed);
        for m in 1..200usize {
            for _ in 0..20 {
                let a = r.below(m);
                let b = f.below(m);
                assert_eq!(a, b);
                assert!(a < m);
            }
        }
    }
}

#[test]
fn below_matches_floating_point_formula_large_ranges() {
    let ms: [usize; 12] = [
        (1usize << 53) - 1,
        1usize << 53,
        (1usize << 53) + 1,
        (1usize << 53) + 3,
        (1usize << 60) + 12345,
        usize::MAX,
        usize::MAX - 1,
        usize::MAX - 1024,
        usize::MAX - 2048,
        (1usize << 63) + 1,
        3_000_000_000_000_000_007,
        1000,
    ];
    let mut r = Rng::new(99);
    let mut f = FloatRng::new(99);
    for &m in ms.iter() {
        for _ in 0..2000 {
            let a = r.below(m);
            let b = f.below(m);
            assert_eq!(a, b, "m = {}", m);
            assert!(a < m);
        }
    }
}

#[test]
fn below_one_is_always_zero() {
    let mut r = Rng::new(5);
    for _ in 0..100 {
        assert_eq!(r.below(1), 0);
    }
}

#[test]
fn below_advances_state_like_one_draw() {
    let mut a = Rng::new(11);
    let mut b = Rng::new(11);
    a.below(17);
    b.next_u64();
    assert_eq!(a.next_u64(), b.next_u64());
}

#[test]
fn below_exact_values() {
    let mut r = Rng::new(0);
    let got: Vec<usize> = (0..8).map(|_| r.below(10)).collect();
    assert_eq!(got, vec![6, 7, 1, 4, 7, 9, 4, 5]);
    let mut r = Rng::new(0);
    assert_eq!(r.below(usize::MAX), 11091344671253065728);
    assert_eq!(r.below(usize::MAX), 13793997310169333760);
    let mut r = Rng::new(0);
    assert_eq!(r.below((1usize << 53) + 1), 5415695640260286);
    assert_eq!(r.below((1usize << 53) + 1), 6735350249106120);
}
