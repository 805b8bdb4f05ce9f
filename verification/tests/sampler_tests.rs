use deqp_runner::{Sampler, Suite};
use rand::SeedableRng;

const FP_ONE: u64 = 1u64 << 32;

#[test]
fn sampler_draw_boundaries() {
    // two top-level tests with fresh names: each has weight exactly 1.0 in
    // fixed point, so the cumulative array is [2^32, 2^33]
    let mut suite = Suite::new(".".to_string());
    let tx = suite.put("x").unwrap();
    let ty = suite.put("y").unwrap();
    let mut sampler = Sampler::new(&suite).unwrap();
    let first = sampler.sample_given(&suite, 0, 0);
    assert_eq!(first, tx);
    // x has now been drawn once; a tie in the weighted draw goes to y
    let second = sampler.sample_given(&suite, 0, FP_ONE);
    assert_eq!(second, ty);
}

#[test]
fn sampler_weights_are_clamped() {
    // both tests share the name "a": the reciprocal sum for each test is
    // 1/2 + 1/1 = 1.5, clamped to 1.0; a draw at exactly 2^32 must land on
    // the second test (it would stay on the first if unclamped)
    let mut suite = Suite::new(".".to_string());
    suite.put("a.b").unwrap();
    let t2 = suite.put("a.c").unwrap();
    let mut sampler = Sampler::new(&suite).unwrap();
    let got = sampler.sample_given(&suite, FP_ONE, FP_ONE);
    assert_eq!(got, t2);
}

#[test]
fn sampler_less_sampled_candidate_wins() {
    let mut suite = Suite::new(".".to_string());
    let tx = suite.put("x").unwrap();
    let ty = suite.put("y").unwrap();
    let mut sampler = Sampler::new(&suite).unwrap();
    // draw x three times
    assert_eq!(sampler.sample_given(&suite, 0, 0), tx);
    assert_eq!(sampler.sample_given(&suite, 0, 0), tx);
    assert_eq!(sampler.sample_given(&suite, 0, 0), tx);
    // now a pair (x, y) must pick y, which has fewer draws
    assert_eq!(sampler.sample_given(&suite, 0, FP_ONE), ty);
    // and a pair (y, x) as well
    assert_eq!(sampler.sample_given(&suite, FP_ONE, 0), ty);
}

#[test]
fn sampler_with_rng() {
    let mut suite = Suite::new(".".to_string());
    suite.put("g.a").unwrap();
    suite.put("g.b").unwrap();
    suite.put("h.c").unwrap();
    let all = suite.tests();
    let mut sampler = Sampler::new(&suite).unwrap();
    let mut rng = rand::rngs::StdRng::seed_from_u64(7);
    for _ in 0..50 {
        let t = sampler.sample(&suite, &mut rng);
        assert!(all.contains(&t));
    }
}

#[test]
fn sampler_spreads_over_equal_weights() {
    // with the power of two choices, 40 draws over two equal tests can
    // never let the counts drift apart by more than one whenever the two
    // candidates differ; just check both tests are visited
    let mut suite = Suite::new(".".to_string());
    let tx = suite.put("x").unwrap();
    let ty = suite.put("y").unwrap();
    let mut sampler = Sampler::new(&suite).unwrap();
    let mut seen_x = 0;
    let mut seen_y = 0;
    let mut rng = rand::rngs::StdRng::seed_from_u64(99);
    for _ in 0..40 {
        let t = sampler.sample(&suite, &mut rng);
        if t == tx {
            seen_x += 1;
        } else {
            assert_eq!(t, ty);
            seen_y += 1;
        }
    }
    assert!(seen_x > 0 && seen_y > 0);
}
