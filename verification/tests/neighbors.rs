use hwt::Hwt;

#[test]
fn test_neighbors() {
    let features = [
        0b1001,
        0b1010,
        0b1100,
        0b1000,
        0xAAAA_AAAA_AAAA_AAAA_AAAA_AAAA_AAAA_AAAA,
    ];
    let mut hwt = Hwt::new();
    for &feature in &features {
        hwt.insert(feature);
    }

    for &feature in &features {
        let neighbors = hwt.nearest(feature, 1);
        assert_eq!(neighbors[0], feature);
    }

    let mut neighbors = hwt.search_radius(1, 0b1000);
    neighbors.sort_unstable();
    assert_eq!(&neighbors, &[0b1000, 0b1001, 0b1010, 0b1100]);

    let mut neighbors = hwt.search_radius(1, 0b1001);
    neighbors.sort_unstable();
    assert_eq!(&neighbors, &[0b1000, 0b1001]);

    let mut neighbors = hwt.search_radius(1, 0b1010);
    neighbors.sort_unstable();
    assert_eq!(&neighbors, &[0b1000, 0b1010]);

    let mut neighbors = hwt.search_radius(1, 0b1100);
    neighbors.sort_unstable();
    assert_eq!(&neighbors, &[0b1000, 0b1100]);

    let range = (0..).take(1 << 4);
    let mut hwt = Hwt::new();
    for i in range.clone() {
        hwt.insert(i);
    }
    for feature in range.clone() {
        assert!(hwt.search_radius(2, feature).len() < 8128);
    }
}

#[test]
fn insert_then_contains() {
    let mut hwt = Hwt::new();
    let features = [0u128, 1, 2, 3, u128::MAX, 0x8000_0000_0000_0000_0000_0000_0000_0000];
    for &f in &features {
        hwt.insert(f);
    }
    for &f in &features {
        assert!(hwt.contains(f));
    }
    assert!(!hwt.contains(4));
    assert!(!hwt.contains(u128::MAX - 1));
}

#[test]
fn len_counts_duplicates() {
    let mut hwt = Hwt::new();
    assert!(hwt.is_empty());
    assert_eq!(hwt.len(), 0);
    for _ in 0..3 {
        hwt.insert(0b101);
    }
    hwt.insert(0b010);
    assert_eq!(hwt.len(), 4);
    assert!(!hwt.is_empty());
    let hits = hwt.search_radius(0, 0b101);
    assert_eq!(hits.len(), 3);
    assert!(hits.iter().all(|&f| f == 0b101));
}

#[test]
fn radius_full_and_zero() {
    let mut hwt = Hwt::new();
    let features = [5u128, 5, 9, 1 << 100, u128::MAX, 0];
    for &f in &features {
        hwt.insert(f);
    }
    for &q in &[0u128, 5, u128::MAX, 1 << 77] {
        assert_eq!(hwt.search_radius(128, q).len(), features.len());
    }
    let only_fives = hwt.search_radius(0, 5);
    assert_eq!(only_fives.len(), 2);
    assert!(only_fives.iter().all(|&f| f == 5));
    assert!(hwt.search_radius(0, 6).is_empty());
}

#[test]
fn nearest_is_sorted_by_distance() {
    let mut hwt = Hwt::new();
    let features = [0u128, 0b1, 0b11, 0b111, 0b1111, u128::MAX, 0xF0F0];
    for &f in &features {
        hwt.insert(f);
    }
    let q = 0b101u128;
    let got = hwt.nearest(q, features.len() + 3);
    assert_eq!(got.len(), features.len());
    for w in got.windows(2) {
        assert!((w[0] ^ q).count_ones() <= (w[1] ^ q).count_ones());
    }
    let one = hwt.nearest(q, 1);
    let best = features
        .iter()
        .map(|&f| (f ^ q).count_ones())
        .min()
        .unwrap();
    assert_eq!((one[0] ^ q).count_ones(), best);
    assert!(hwt.nearest(q, 0).is_empty());
}

#[test]
fn conversion_preserves_contents() {
    // More inserts than the leaf threshold, so the root splits into a
    // branch and features are redistributed to child leaves.
    let mut hwt = Hwt::new();
    let n = 1100u128;
    for i in 0..n {
        hwt.insert(i * i + 1);
    }
    assert_eq!(hwt.len(), n as usize);
    assert_eq!(hwt.search_radius(128, 0).len(), n as usize);
    for i in 0..n {
        assert!(hwt.contains(i * i + 1));
        }
    for i in [0u128, 17, 999] {
        assert_eq!(hwt.nearest(i * i + 1, 1)[0], i * i + 1);
    }
}

fn lcg(state: &mut u64) -> u64 {
    *state = state
        .wrapping_mul(6364136223846793005)
        .wrapping_add(1442695040888963407);
    *state
}

fn random_u128(state: &mut u64) -> u128 {
    let hi = lcg(state) as u128;
    let lo = lcg(state) as u128;
    (hi << 64) | lo
}

#[test]
fn compare_to_linear() {
    let mut state = 5u64;
    let space: Vec<u128> = (0..100_000).map(|_| random_u128(&mut state)).collect();
    let search: Vec<u128> = (0..10).map(|_| random_u128(&mut state)).collect();

    let mut hwt = Hwt::new();
    for &f in &space {
        hwt.insert(f);
    }

    for &f0 in &search {
        let neighbors = hwt.nearest(f0, 1);
        assert_eq!(
            space.iter().map(|&f1| (f0 ^ f1).count_ones()).min().unwrap(),
            (neighbors[0] ^ f0).count_ones()
        );

        let mut got = hwt.search_radius(48, f0);
        got.sort_unstable();
        let mut expected: Vec<u128> = space
            .iter()
            .copied()
            .filter(|&f1| (f0 ^ f1).count_ones() <= 48)
            .collect();
        expected.sort_unstable();
        assert_eq!(got, expected);
    }
}

#[test]
fn nearest_returns_duplicates() {
    let mut hwt = Hwt::new();
    hwt.insert(7);
    hwt.insert(7);
    hwt.insert(1 << 90);
    let got = hwt.nearest(7, 2);
    assert_eq!(got, vec![7, 7]);
    let all = hwt.nearest(7, 10);
    assert_eq!(all.len(), 3);
    assert_eq!(all[2], 1 << 90);
}

#[test]
fn default_is_empty() {
    let hwt = Hwt::default();
    assert!(hwt.is_empty());
    assert!(!hwt.contains(0));
}
