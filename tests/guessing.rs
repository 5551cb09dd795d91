use exercises::guessing::{judge, scramble, secret_number, Verdict};

#[test]
fn scramble_of_one() {
    assert_eq!(scramble(1), 35651601);
    assert_eq!(scramble(0), 0);
}

#[test]
fn secret_is_in_range() {
    assert_eq!(secret_number(1), 2);
    for seed in [0u64, 7, 1 << 40, u64::MAX] {
        let n = secret_number(seed);
        assert!((1..=100).contains(&n));
    }
}

#[test]
fn judge_compares() {
    assert_eq!(judge(5, 5), Verdict::Correct);
    assert_eq!(judge(6, 5), Verdict::Greater);
    assert_eq!(judge(4, 5), Verdict::Lesser);
}
