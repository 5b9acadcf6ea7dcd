use flat_hash_map::FlatHashMap;

#[test]
fn insert_empty() {
    let mut m = FlatHashMap::<i64, &str>::new();
    assert_eq!(m.len(), 0);
    m.insert(5, "five");
    assert_eq!(m.len(), 1);
}

#[test]
fn fresh_table_shape() {
    let m = FlatHashMap::<i64, &str>::new();
    assert_eq!(m.len(), 0);
    assert_eq!(m.capacity(), 1);
    assert_eq!(m.get(0), None);
}

#[test]
fn scenario_eleven_keys() {
    let mut m = FlatHashMap::<i64, &str>::new();
    m.insert(5, "five");
    assert_eq!(m.len(), 1);
    assert_eq!(m.get(5), Some("five"));
    assert_eq!(m.get(6), None);
    let names: [&str; 10] = [
        "zero", "one", "two", "three", "four", "cinq", "six", "seven", "eight", "nine",
    ];
    let mut i: usize = 0;
    while i < 10 {
        m.insert(i as i64, names[i]);
        i += 1;
    }
    assert_eq!(m.len(), 11);
    assert!(m.capacity() >= 16);
    assert!(m.capacity().is_power_of_two());
    // Key 5 was inserted twice; the earliest entry wins.
    assert_eq!(m.get(5), Some("five"));
    let mut j: usize = 0;
    while j < 10 {
        if j != 5 {
            assert_eq!(m.get(j as i64), Some(names[j]));
        }
        j += 1;
    }
}

#[test]
fn round_trip_across_growth() {
    let mut m = FlatHashMap::<i64, i64>::new();
    let mut k: i64 = 0;
    while k < 200 {
        m.insert(k, 1000 + k);
        // Every previously inserted key must still resolve, whatever growth
        // the insertion just triggered.
        let mut back: i64 = 0;
        while back <= k {
            assert_eq!(m.get(back), Some(1000 + back));
            back += 17;
        }
        k += 1;
    }
    assert_eq!(m.len(), 200);
    let mut q: i64 = 0;
    while q < 200 {
        assert_eq!(m.get(q), Some(1000 + q));
        q += 1;
    }
}

#[test]
fn duplicates_counted_and_first_wins() {
    let mut m = FlatHashMap::<i64, u32>::new();
    m.insert(42, 1);
    m.insert(42, 2);
    m.insert(42, 3);
    assert_eq!(m.len(), 3);
    assert_eq!(m.get(42), Some(1));
}

#[test]
fn absent_keys_stay_absent() {
    let mut m = FlatHashMap::<i64, u32>::new();
    let mut k: i64 = 0;
    while k < 64 {
        m.insert(2 * k, k as u32);
        k += 1;
    }
    let mut odd: i64 = 1;
    while odd < 128 {
        assert_eq!(m.get(odd), None);
        odd += 2;
    }
    assert_eq!(m.get(-2), None);
    assert_eq!(m.get(1_000_000), None);
}

#[test]
fn capacity_is_always_a_power_of_two() {
    let mut m = FlatHashMap::<i64, u8>::new();
    assert_eq!(m.capacity(), 1);
    let mut k: i64 = 0;
    while k < 60 {
        m.insert(k, 0);
        assert!(m.capacity().is_power_of_two());
        assert_eq!(m.len(), (k + 1) as usize);
        k += 1;
    }
}

#[test]
fn negative_and_extreme_i64_keys() {
    let mut m = FlatHashMap::<i64, i32>::new();
    m.insert(-1, 10);
    m.insert(-5_000_000_000, 20);
    m.insert(i64::MIN, 30);
    m.insert(i64::MAX, 40);
    m.insert(0, 50);
    assert_eq!(m.get(-1), Some(10));
    assert_eq!(m.get(-5_000_000_000), Some(20));
    assert_eq!(m.get(i64::MIN), Some(30));
    assert_eq!(m.get(i64::MAX), Some(40));
    assert_eq!(m.get(0), Some(50));
    assert_eq!(m.get(1), None);
}

#[test]
fn i32_keys_work_too() {
    let mut m = FlatHashMap::<i32, &str>::new();
    m.insert(7, "seven");
    m.insert(-7, "minus seven");
    m.insert(i32::MIN, "smallest");
    m.insert(i32::MAX, "largest");
    assert_eq!(m.get(7), Some("seven"));
    assert_eq!(m.get(-7), Some("minus seven"));
    assert_eq!(m.get(i32::MIN), Some("smallest"));
    assert_eq!(m.get(i32::MAX), Some("largest"));
    assert_eq!(m.get(8), None);
    assert_eq!(m.len(), 4);
}

#[test]
fn bucket_lengths_sum_to_len() {
    let mut m = FlatHashMap::<i64, u8>::new();
    let mut k: i64 = 0;
    while k < 100 {
        m.insert(3 * k + 1, 0);
        k += 1;
    }
    let mut total: usize = 0;
    let mut j: usize = 0;
    while j < m.capacity() {
        total += m.bucket_len(j);
        j += 1;
    }
    assert_eq!(total, m.len());
}

#[test]
fn sequential_keys_spread_over_buckets() {
    let mut m = FlatHashMap::<i64, u16>::new();
    let mut k: i64 = 0;
    while k < 256 {
        m.insert(k, k as u16);
        k += 1;
    }
    let mut longest: usize = 0;
    let mut occupied: usize = 0;
    let mut j: usize = 0;
    while j < m.capacity() {
        let chain: usize = m.bucket_len(j);
        if chain > longest {
            longest = chain;
        }
        if chain > 0 {
            occupied += 1;
        }
        j += 1;
    }
    // The multiplicative spreading step must not pile sequential keys into
    // a single chain.
    assert!(occupied > 1);
    assert!(longest < 256);
    assert!(longest <= 8);
}
