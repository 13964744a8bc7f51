use watch_index::Lit;
use watch_index::Rel;
use watch_index::Watches;

/// Plain-text restatement of the entailment relation, kept independent of the
/// library so the brute-force comparison does not lean on the code under test.
fn plain_entails(a: Lit, b: Lit) -> bool {
    a.var == b.var
        && a.rel == b.rel
        && match a.rel {
            Rel::Leq => a.threshold <= b.threshold,
            Rel::Geq => a.threshold >= b.threshold,
        }
}

fn brute_force(regs: &[(Lit, u64)], q: Lit) -> Vec<u64> {
    regs.iter()
        .filter(|(l, _)| plain_entails(q, *l))
        .map(|(_, w)| *w)
        .collect()
}

#[test]
fn concrete_scenario() {
    let mut w: Watches<u64> = Watches::new();
    let x = 0usize;
    w.add_watch(7, Lit::leq(x, 5));
    w.add_watch(9, Lit::leq(x, 10));
    w.add_watch(3, Lit::geq(x, 2));
    // `x <= 5` entails itself and the looser `x <= 10`.
    assert_eq!(w.watches_on(Lit::leq(x, 5)), vec![7, 9]);
    // `x <= 10` does not entail the tighter `x <= 5`.
    assert_eq!(w.watches_on(Lit::leq(x, 10)), vec![9]);
    assert_eq!(w.watches_on(Lit::geq(x, 2)), vec![3]);
    // A looser `>=` bound does not entail that the tighter one was met.
    assert_eq!(w.watches_on(Lit::geq(x, 1)), Vec::<u64>::new());
    // The tighter `x >= 3` entails `x >= 2`.
    assert_eq!(w.watches_on(Lit::geq(x, 3)), vec![3]);
}

#[test]
fn empty_index_yields_empty() {
    let w: Watches<u32> = Watches::new();
    assert_eq!(w.watches_on(Lit::leq(0, 0)), Vec::<u32>::new());
    assert_eq!(w.watches_on(Lit::geq(0, 0)), Vec::<u32>::new());
    assert_eq!(w.watches_on(Lit::leq(123456, -5)), Vec::<u32>::new());
    assert_eq!(w.watches_on(Lit::geq(3, i64::MIN)), Vec::<u32>::new());
    assert_eq!(w.watches_on(Lit::leq(3, i64::MAX)), Vec::<u32>::new());
}

#[test]
fn relations_do_not_interfere() {
    let mut w: Watches<u32> = Watches::new();
    w.add_watch(1, Lit::leq(4, 0));
    w.add_watch(2, Lit::geq(4, 0));
    for t in -3..4 {
        assert!(!w.watches_on(Lit::geq(4, t)).contains(&1));
        assert!(!w.watches_on(Lit::leq(4, t)).contains(&2));
    }
    assert_eq!(w.watches_on(Lit::leq(4, 0)), vec![1]);
    assert_eq!(w.watches_on(Lit::geq(4, 0)), vec![2]);
}

#[test]
fn variables_do_not_interfere() {
    let mut w: Watches<u32> = Watches::new();
    w.add_watch(11, Lit::leq(0, 2));
    w.add_watch(22, Lit::leq(1, 2));
    w.add_watch(33, Lit::geq(2, 2));
    for v in 0..6usize {
        for t in -4..5 {
            let up = w.watches_on(Lit::leq(v, t));
            let down = w.watches_on(Lit::geq(v, t));
            assert_eq!(up.contains(&11), v == 0 && t <= 2);
            assert_eq!(up.contains(&22), v == 1 && t <= 2);
            assert!(!up.contains(&33));
            assert_eq!(down.contains(&33), v == 2 && t >= 2);
            assert!(!down.contains(&11));
            assert!(!down.contains(&22));
        }
    }
}

#[test]
fn boundary_threshold_is_included() {
    let mut w: Watches<u32> = Watches::new();
    w.add_watch(5, Lit::leq(7, -3));
    w.add_watch(6, Lit::geq(7, -3));
    assert!(w.watches_on(Lit::leq(7, -3)).contains(&5));
    assert!(w.watches_on(Lit::geq(7, -3)).contains(&6));
}

#[test]
fn registration_order_within_bucket() {
    let mut w: Watches<u32> = Watches::new();
    w.add_watch(30, Lit::leq(2, 8));
    w.add_watch(10, Lit::leq(2, 8));
    w.add_watch(20, Lit::leq(2, 8));
    assert_eq!(w.watches_on(Lit::leq(2, 8)), vec![30, 10, 20]);
}

#[test]
fn duplicate_registrations_both_returned() {
    let mut w: Watches<u32> = Watches::new();
    w.add_watch(9, Lit::geq(1, 4));
    w.add_watch(9, Lit::geq(1, 4));
    assert_eq!(w.watches_on(Lit::geq(1, 4)), vec![9, 9]);
}

#[test]
fn leq_queries_walk_thresholds_upward() {
    let mut w: Watches<u32> = Watches::new();
    w.add_watch(100, Lit::leq(0, 10));
    w.add_watch(50, Lit::leq(0, 5));
    w.add_watch(70, Lit::leq(0, 7));
    assert_eq!(w.watches_on(Lit::leq(0, 4)), vec![50, 70, 100]);
    assert_eq!(w.watches_on(Lit::leq(0, 6)), vec![70, 100]);
    assert_eq!(w.watches_on(Lit::leq(0, 10)), vec![100]);
    assert_eq!(w.watches_on(Lit::leq(0, 11)), Vec::<u32>::new());
}

#[test]
fn geq_queries_walk_thresholds_downward() {
    let mut w: Watches<u32> = Watches::new();
    w.add_watch(100, Lit::geq(0, 10));
    w.add_watch(50, Lit::geq(0, 5));
    w.add_watch(70, Lit::geq(0, 7));
    assert_eq!(w.watches_on(Lit::geq(0, 11)), vec![100, 70, 50]);
    assert_eq!(w.watches_on(Lit::geq(0, 7)), vec![70, 50]);
    assert_eq!(w.watches_on(Lit::geq(0, 5)), vec![50]);
    assert_eq!(w.watches_on(Lit::geq(0, 4)), Vec::<u32>::new());
}

/// Checks that `inner` is `outer` with exactly one occurrence of `extra`
/// inserted at some position.
fn is_one_insertion(prior: &[u32], now: &[u32], extra: u32) -> bool {
    (0..=prior.len()).any(|k| {
        now.len() == prior.len() + 1
            && now[..k] == prior[..k]
            && now[k] == extra
            && now[k + 1..] == prior[k..]
    })
}

#[test]
fn insertion_extends_prior_answers() {
    let mut w: Watches<u32> = Watches::new();
    w.add_watch(50, Lit::leq(0, 5));
    w.add_watch(90, Lit::leq(0, 9));
    w.add_watch(70, Lit::leq(0, 7));
    let prior = w.watches_on(Lit::leq(0, 4));
    // A new registration that the query entails shows up as one insertion
    // into the prior answer; nothing else moves.
    w.add_watch(71, Lit::leq(0, 7));
    let now = w.watches_on(Lit::leq(0, 4));
    assert!(is_one_insertion(&prior, &now, 71));
    // One that the query does not entail changes nothing.
    let before = w.watches_on(Lit::leq(0, 8));
    w.add_watch(60, Lit::leq(0, 6));
    assert_eq!(w.watches_on(Lit::leq(0, 8)), before);
}

/// A small deterministic generator, so the brute-force comparison covers many
/// interleavings without depending on an outside source of randomness.
struct Lcg(u64);

impl Lcg {
    fn next(&mut self) -> u64 {
        self.0 = self.0.wrapping_mul(6364136223846793005).wrapping_add(1442695040888963407);
        self.0 >> 33
    }
}

#[test]
fn matches_brute_force_scan() {
    let mut rng = Lcg(0xdecafbad);
    let mut w: Watches<u64> = Watches::new();
    let mut regs: Vec<(Lit, u64)> = Vec::new();
    for i in 0..400u64 {
        let var = (rng.next() % 5) as usize;
        let rel = if rng.next() % 2 == 0 { Rel::Leq } else { Rel::Geq };
        let threshold = (rng.next() % 21) as i64 - 10;
        let lit = Lit { var, rel, threshold };
        w.add_watch(i, lit);
        regs.push((lit, i));
    }
    for v in 0..6usize {
        for t in -12..13 {
            for q in [Lit::leq(v, t), Lit::geq(v, t)] {
                let mut got = w.watches_on(q);
                let mut want = brute_force(&regs, q);
                got.sort_unstable();
                want.sort_unstable();
                assert_eq!(got, want, "query {:?}", q);
            }
        }
    }
}

#[test]
fn queries_are_deterministic_and_read_only() {
    let mut rng = Lcg(42);
    let mut w: Watches<u64> = Watches::new();
    for i in 0..200u64 {
        let var = (rng.next() % 3) as usize;
        let rel = if rng.next() % 2 == 0 { Rel::Leq } else { Rel::Geq };
        let threshold = (rng.next() % 9) as i64 - 4;
        w.add_watch(i, Lit { var, rel, threshold });
    }
    let queries: Vec<Lit> = (0..4usize)
        .flat_map(|v| (-6..7).flat_map(move |t| [Lit::leq(v, t), Lit::geq(v, t)]))
        .collect();
    let first: Vec<Vec<u64>> = queries.iter().map(|q| w.watches_on(*q)).collect();
    // Repeated rounds, in different orders, answer identically: the query
    // neither mutates the index nor depends on anything but state and literal.
    for _ in 0..3 {
        for (q, expect) in queries.iter().zip(first.iter()).rev() {
            assert_eq!(w.watches_on(*q), *expect);
        }
        for (q, expect) in queries.iter().zip(first.iter()) {
            assert_eq!(w.watches_on(*q), *expect);
        }
    }
}

#[test]
fn bulk_insertion_then_bulk_query() {
    // The benchmark regime: build once in bulk, then query repeatedly.
    let mut w: Watches<u64> = Watches::new();
    let mut count_inserted = 0u64;
    for var in 0..50usize {
        for t in -20..20 {
            w.add_watch(count_inserted, Lit::leq(var, t));
            count_inserted += 1;
            w.add_watch(count_inserted, Lit::geq(var, t));
            count_inserted += 1;
        }
    }
    assert_eq!(count_inserted, 50 * 40 * 2);
    for var in 0..50usize {
        // The tightest `<=` query entails every `<=` registration of the
        // variable; one step below the loosest entails nothing.
        assert_eq!(w.watches_on(Lit::leq(var, -20)).len(), 40);
        assert_eq!(w.watches_on(Lit::leq(var, 20)).len(), 0);
        assert_eq!(w.watches_on(Lit::geq(var, 19)).len(), 40);
        assert_eq!(w.watches_on(Lit::geq(var, -21)).len(), 0);
        assert_eq!(w.watches_on(Lit::leq(var, 0)).len(), 20);
        assert_eq!(w.watches_on(Lit::geq(var, 0)).len(), 21);
    }
}
