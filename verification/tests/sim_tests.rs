use bubblesim::sim::{Sim, Step, ITEM_COUNT};

fn counts_of(items: &[u8]) -> [usize; 256] {
    let mut counts = [0usize; 256];
    for &v in items {
        counts[v as usize] += 1;
    }
    counts
}

fn is_sorted(items: &[u8]) -> bool {
    items.windows(2).all(|w| w[0] <= w[1])
}

#[test]
fn three_items_full_scenario() {
    let mut sim = Sim::new(vec![3, 1, 2]);
    assert_eq!(sim.step(), Step::Mark);
    assert_eq!(sim.cursor(), 0);
    assert_eq!(sim.pass(), 0);
    assert_eq!(sim.items(), &vec![3, 1, 2]);

    sim.advance();
    assert_eq!(sim.step(), Step::Compare);
    sim.advance();
    assert_eq!(sim.step(), Step::SwapHappened);
    assert_eq!(sim.items(), &vec![1, 3, 2]);
    sim.advance();
    assert_eq!(sim.step(), Step::Next);
    sim.advance();
    assert_eq!(sim.step(), Step::Mark);
    assert_eq!(sim.cursor(), 1);
    assert_eq!(sim.pass(), 0);

    sim.advance();
    assert_eq!(sim.step(), Step::Compare);
    sim.advance();
    assert_eq!(sim.step(), Step::SwapHappened);
    assert_eq!(sim.items(), &vec![1, 2, 3]);
    sim.advance();
    assert_eq!(sim.step(), Step::Next);
    sim.advance();
    assert_eq!(sim.step(), Step::Mark);
    assert_eq!(sim.cursor(), 0);
    assert_eq!(sim.pass(), 1);

    sim.advance();
    assert_eq!(sim.step(), Step::Compare);
    sim.advance();
    assert_eq!(sim.step(), Step::Next);
    sim.advance();
    assert_eq!(sim.step(), Step::Finished);
    assert_eq!(sim.items(), &vec![1, 2, 3]);
    assert_eq!(sim.cursor(), 0);
    assert_eq!(sim.pass(), 1);
}

#[test]
fn finished_state_is_inert() {
    let mut sim = Sim::new(vec![2, 1]);
    let mut calls = 0usize;
    while sim.step() != Step::Finished {
        sim.advance();
        calls += 1;
        assert!(calls < 1000, "did not finish");
    }
    let items = sim.items().clone();
    let cursor = sim.cursor();
    let pass = sim.pass();
    for _ in 0..10 {
        sim.advance();
        assert_eq!(sim.step(), Step::Finished);
        assert_eq!(sim.items(), &items);
        assert_eq!(sim.cursor(), cursor);
        assert_eq!(sim.pass(), pass);
    }
}

#[test]
fn multiset_kept_by_every_call() {
    let mut sim = Sim::new(vec![5, 3, 5, 1, 0, 255, 3]);
    let original = counts_of(sim.items());
    let mut calls = 0usize;
    while sim.step() != Step::Finished {
        sim.advance();
        assert_eq!(counts_of(sim.items()), original);
        calls += 1;
        assert!(calls < 10000, "did not finish");
    }
    assert!(is_sorted(sim.items()));
}

#[test]
fn terminates_within_quadratic_bound() {
    let n = ITEM_COUNT;
    let items: Vec<u8> = (0..n).map(|i| 255 - i as u8).collect();
    let bound = 4 * n * n;
    let mut sim = Sim::new(items);
    let mut calls = 0usize;
    while sim.step() != Step::Finished {
        sim.advance();
        calls += 1;
        assert!(calls <= bound, "exceeded the quadratic bound");
    }
    assert!(is_sorted(sim.items()));
}

#[test]
fn sorted_pairwise_at_finished() {
    let mut sim = Sim::new(vec![9, 0, 4, 4, 200, 17, 17, 3]);
    while sim.step() != Step::Finished {
        sim.advance();
    }
    let items = sim.items();
    for i in 0..items.len() - 1 {
        assert!(items[i] <= items[i + 1]);
    }
}

#[test]
fn pass_rises_by_one_only_out_of_next() {
    let mut sim = Sim::new(vec![4, 2, 9, 1]);
    loop {
        let pass_before = sim.pass();
        let step_before = sim.step();
        sim.advance();
        let pass_after = sim.pass();
        assert!(pass_after == pass_before || pass_after == pass_before + 1);
        if pass_after == pass_before + 1 {
            assert_eq!(step_before, Step::Next);
            assert_eq!(sim.step(), Step::Mark);
            assert_eq!(sim.cursor(), 0);
        }
        if sim.step() == Step::Finished {
            break;
        }
    }
}

#[test]
fn cursor_stays_within_unsorted_prefix() {
    let mut sim = Sim::new(vec![8, 6, 7, 5, 3, 0, 9]);
    let n = sim.items().len();
    let mut calls = 0usize;
    while sim.step() != Step::Finished {
        sim.advance();
        assert!(sim.cursor() + sim.pass() + 1 <= n);
        calls += 1;
        assert!(calls < 10000, "did not finish");
    }
    assert!(sim.cursor() + sim.pass() + 1 <= n);
}

#[test]
fn sorted_input_finishes_in_one_pass() {
    let mut sim = Sim::new(vec![1, 2, 3, 4]);
    while sim.step() != Step::Finished {
        sim.advance();
        assert_eq!(sim.pass(), 0);
    }
    assert_eq!(sim.items(), &vec![1, 2, 3, 4]);
}

#[test]
fn equal_items_never_swap() {
    let mut sim = Sim::new(vec![7, 7]);
    sim.advance();
    assert_eq!(sim.step(), Step::Compare);
    sim.advance();
    assert_eq!(sim.step(), Step::Next);
    sim.advance();
    assert_eq!(sim.step(), Step::Finished);
    assert_eq!(sim.items(), &vec![7, 7]);
    assert_eq!(sim.pass(), 0);
    assert_eq!(sim.cursor(), 0);
}

#[test]
fn two_items_out_of_order() {
    let mut sim = Sim::new(vec![9, 4]);
    while sim.step() != Step::Finished {
        sim.advance();
    }
    assert_eq!(sim.items(), &vec![4, 9]);
    assert_eq!(sim.pass(), 1);
    assert_eq!(sim.cursor(), 0);
}

#[test]
fn randomized_start_has_item_count_values() {
    let sim = Sim::new_randomized().expect("random source unavailable");
    assert_eq!(sim.items().len(), ITEM_COUNT);
    assert_eq!(sim.step(), Step::Mark);
    assert_eq!(sim.cursor(), 0);
    assert_eq!(sim.pass(), 0);
}

#[test]
fn randomized_start_sorts_to_finished() {
    let mut sim = Sim::new_randomized().expect("random source unavailable");
    let original = counts_of(sim.items());
    let bound = 4 * ITEM_COUNT * ITEM_COUNT;
    let mut calls = 0usize;
    while sim.step() != Step::Finished {
        sim.advance();
        calls += 1;
        assert!(calls <= bound, "exceeded the quadratic bound");
    }
    assert!(is_sorted(sim.items()));
    assert_eq!(counts_of(sim.items()), original);
}
