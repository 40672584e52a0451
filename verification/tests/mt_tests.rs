use cryptopals::mt19937::{init, next};

#[test]
fn same_seed_same_stream() {
    let mut a = init(5489);
    let mut b = init(5489);
    for _ in 0..700 {
        assert_eq!(next(&mut a), next(&mut b));
    }
}

#[test]
fn different_seeds_diverge() {
    let mut a = init(1);
    let mut b = init(2);
    let mut differs = false;
    for _ in 0..10 {
        if next(&mut a) != next(&mut b) {
            differs = true;
        }
    }
    assert!(differs);
}

#[test]
fn stream_survives_the_twist() {
    let mut a = init(0);
    let mut last = 0u32;
    let mut all_same = true;
    for _ in 0..1300 {
        let v = next(&mut a);
        if v != last {
            all_same = false;
        }
        last = v;
    }
    assert!(!all_same);
}
