use docparse::greedy::best_score;
use docparse::pixels::{normalized_bits, to_planes};
use docparse::size::target_size;

#[test]
fn target_size_matches_reference() {
    assert_eq!(target_size(1247, 520), (960, 384));
    assert_eq!(target_size(100, 100), (64, 64));
    assert_eq!(target_size(960, 1408), (960, 1408));
    assert_eq!(target_size(2000, 4000), (704, 1408));
}

fn fitted(w: usize, h: usize) -> (usize, usize) {
    let (x, y) = (w as u128, h as u128);
    let (nw, nh) = if w <= 960 && h <= 1408 {
        (x, y)
    } else if h == 0 {
        (960, 0)
    } else if 1408 * x <= 960 * y {
        (1408 * x / y, 1408)
    } else {
        (960, 960 * y / x)
    };
    (
        ((nw as usize) / 64 * 64).max(64),
        ((nh as usize) / 64 * 64).max(64),
    )
}

#[test]
fn multiples_of_the_canvas_fill_it() {
    assert_eq!(target_size(1920, 2816), (960, 1408));
    for k in 1..5000usize {
        assert_eq!(target_size(960 * k, 1408 * k), (960, 1408), "{k}");
        assert_eq!(target_size(15 * k, 22 * k), fitted(15 * k, 22 * k), "{k}");
    }
}

#[test]
fn exact_ratios_give_exact_sizes() {
    for k in 1..500usize {
        for n in 1..=15usize {
            assert_eq!(target_size(960 * k, 64 * n * k), (960, 64 * n), "{n} {k}");
        }
        for n in 1..=15usize {
            let (w, h) = (64 * n * k, 1408 * k);
            assert_eq!(target_size(w, h), (64 * n, 1408), "{n} {k}");
        }
    }
    assert_eq!(target_size(959 * 2, 2816), (896, 1408));
}

#[test]
fn target_size_of_small_regions() {
    let mut w = 0;
    while w < 3000 {
        let mut h = 0;
        while h < 3000 {
            assert_eq!(target_size(w, h), fitted(w, h), "{w} x {h}");
            h += 7;
        }
        w += 5;
    }
}

#[test]
fn target_size_of_huge_regions() {
    let mut x: u64 = 0x9e37_79b9_7f4a_7c15;
    for _ in 0..20000 {
        x ^= x << 13;
        x ^= x >> 7;
        x ^= x << 17;
        let w = (x >> (x % 61)) as usize;
        x ^= x << 13;
        x ^= x >> 7;
        x ^= x << 17;
        let h = (x >> (x % 59)) as usize;
        assert_eq!(target_size(w, h), fitted(w, h), "{w} x {h}");
    }
    for w in [0, 1, 959, 960, 961, usize::MAX - 1, usize::MAX] {
        for h in [0, 1, 1407, 1408, 1409, usize::MAX - 1, usize::MAX] {
            assert_eq!(target_size(w, h), fitted(w, h), "{w} x {h}");
        }
    }
}

#[test]
fn target_size_of_empty_regions() {
    assert_eq!(target_size(0, 0), (64, 64));
    assert_eq!(target_size(961, 0), (960, 64));
    assert_eq!(target_size(0, 1409), (64, 1408));
}

#[test]
fn target_stays_within_limits_and_aligned() {
    for (w, h) in [(1, 100000), (100000, 1), (5000, 5000), (961, 1409)] {
        let (tw, th) = target_size(w, h);
        assert!(64 <= tw && tw <= 960 && tw % 64 == 0);
        assert!(64 <= th && th <= 1408 && th % 64 == 0);
    }
    assert_eq!(target_size(5000, 5000), (960, 960));
    assert_eq!(target_size(700, 900), (640, 896));
}

#[test]
fn normalized_values_are_those_of_single_precision() {
    for v in 0..=255u8 {
        let x = v as f32 / 255.0;
        let expected = (x - 0.5) / 0.5;
        assert_eq!(normalized_bits(v), expected.to_bits(), "{v}");
    }
    assert_eq!(f32::from_bits(normalized_bits(0)), -1.0);
    assert_eq!(f32::from_bits(normalized_bits(255)), 1.0);
}

#[test]
fn normalized_values_increase() {
    for v in 0..255u8 {
        assert!(f32::from_bits(normalized_bits(v)) < f32::from_bits(normalized_bits(v + 1)));
    }
}

#[test]
fn planes_hold_one_color_each() {
    let rgb: Vec<u8> = (0..18).map(|i| (i * 13) as u8).collect();
    let planes = to_planes(&rgb, 3, 2);
    assert_eq!(planes.len(), 18);
    for c in 0..3 {
        for y in 0..2 {
            for x in 0..3 {
                assert_eq!(
                    planes[c * 6 + y * 3 + x],
                    normalized_bits(rgb[(y * 3 + x) * 3 + c])
                );
            }
        }
    }
}

#[test]
fn planes_of_nothing_are_empty() {
    assert!(to_planes(&[], 0, 5).is_empty());
    assert_eq!(to_planes(&[255, 0, 255, 9, 9], 1, 1).len(), 3);
}

fn best_of(scores: &[f32]) -> usize {
    let bits: Vec<u32> = scores.iter().map(|s| s.to_bits()).collect();
    best_score(&bits)
}

#[test]
fn first_of_the_highest_scores_wins() {
    assert_eq!(best_of(&[0.5, 2.0, -1.0, 2.0]), 1);
    assert_eq!(best_of(&[-3.0, -2.0, -2.5]), 1);
    assert_eq!(best_of(&[-0.0, 0.0]), 0);
    assert_eq!(best_of(&[1.0, f32::INFINITY, f32::INFINITY]), 1);
}

#[test]
fn scores_that_are_no_numbers_never_win() {
    assert_eq!(best_of(&[f32::NAN, 1.0, f32::NAN]), 1);
    assert_eq!(best_of(&[f32::NAN, f32::NAN]), 0);
    assert_eq!(best_of(&[f32::NEG_INFINITY, f32::MIN, -f32::NAN]), 0);
    assert_eq!(best_of(&[]), 0);
}

#[test]
fn best_score_agrees_with_comparing_numbers() {
    let mut x: u32 = 0x1234_5678;
    for _ in 0..3000 {
        let mut scores: Vec<f32> = Vec::new();
        for _ in 0..6 {
            x ^= x << 13;
            x ^= x >> 17;
            x ^= x << 5;
            scores.push(f32::from_bits(x));
        }
        let mut best = 0usize;
        let mut highest = f32::MIN;
        for (i, &v) in scores.iter().enumerate() {
            if v > highest {
                highest = v;
                best = i;
            }
        }
        assert_eq!(best_of(&scores), best);
    }
}
