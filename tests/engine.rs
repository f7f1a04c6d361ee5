use decider::countdown::{Countdown, Verdicts};
use decider::engine::{Engine, Evaluation, Mode, Ratio, SearchError};

// Piles of stones, a move takes one or two: 3 -> {2, 1}, 2 -> {1, 0}, 1 -> {0}.
// The pile of one is reached along two paths.
fn sample() -> Vec<Evaluation> {
    vec![
        Evaluation::Value(-1),
        Evaluation::Value(5),
        Evaluation::Mode(Mode::Minimize),
        Evaluation::Mode(Mode::Maximize),
    ]
}

fn engine(table: Vec<Evaluation>, num: u32, den: u32) -> Engine<Countdown, Verdicts> {
    Engine::new(Verdicts { table }, Ratio::new(num, den).unwrap())
}

fn pile(left: u32) -> Countdown {
    Countdown { left }
}

#[test]
fn ratio_one_is_minimax() {
    let mut e = engine(sample(), 1, 1);
    // min(5, -1) = -1, max(-1, 5) = 5
    assert_eq!(e.evaluate(&pile(2)), Ok(-1));
    assert_eq!(e.evaluate(&pile(3)), Ok(5));
    assert_eq!(e.select(&pile(3)), Ok(Some((2, 5))));
}

#[test]
fn ratio_zero_is_summed_successors() {
    let mut e = engine(sample(), 0, 1);
    // 5 - 1 = 4, 4 + 5 = 9
    assert_eq!(e.evaluate(&pile(2)), Ok(4));
    assert_eq!(e.evaluate(&pile(3)), Ok(9));
    assert_eq!(e.select(&pile(3)), Ok(Some((2, 5))));
}

#[test]
fn half_ratio_blends_and_rounds_toward_zero() {
    let mut e = engine(sample(), 1, 2);
    // pile 2: (-1 + 4) / 2 = 1.5, to 1; pile 3: (5 + 6) / 2 = 5.5, to 5
    assert_eq!(e.evaluate(&pile(2)), Ok(1));
    assert_eq!(e.evaluate(&pile(3)), Ok(5));
}

#[test]
fn negative_blend_rounds_toward_zero() {
    let mut t = sample();
    t[1] = Evaluation::Value(-4);
    t[0] = Evaluation::Value(-3);
    let mut e = engine(t, 1, 2);
    // min = -4, sum = -7: (-4 - 7) / 2 = -5.5, to -5
    assert_eq!(e.evaluate(&pile(2)), Ok(-5));
}

#[test]
fn each_state_is_memoized_once() {
    let mut e = engine(sample(), 1, 1);
    assert_eq!(e.memo_len(), 0);
    assert_eq!(e.select(&pile(3)), Ok(Some((2, 5))));
    // piles 2, 1 and 0; the pile of one only once
    assert_eq!(e.memo_len(), 3);
    assert_eq!(e.select(&pile(3)), Ok(Some((2, 5))));
    assert_eq!(e.memo_len(), 3);
    assert_eq!(e.evaluate(&pile(3)), Ok(5));
    assert_eq!(e.memo_len(), 4);
}

#[test]
fn repeated_select_is_deterministic() {
    let mut e = engine(sample(), 1, 2);
    let first = e.select(&pile(3));
    let second = e.select(&pile(3));
    assert_eq!(first, second);
    // take one: pile 2 scores 1; take two: pile 1 scores 5
    assert_eq!(first, Ok(Some((2, 5))));
}

#[test]
fn select_without_decisions_is_none() {
    let mut e = engine(sample(), 1, 1);
    assert_eq!(e.select(&pile(0)), Ok(None));
}

#[test]
fn ties_go_to_the_first_decision() {
    let mut t = sample();
    t[1] = Evaluation::Value(7);
    t[2] = Evaluation::Value(7);
    let mut e = engine(t, 1, 1);
    assert_eq!(e.select(&pile(3)), Ok(Some((1, 7))));
}

#[test]
fn two_state_process_at_half_ratio() {
    let mut e = engine(vec![Evaluation::Value(10), Evaluation::Mode(Mode::Maximize)], 1, 2);
    // 0.5 * 10 + 0.5 * 10
    assert_eq!(e.evaluate(&pile(1)), Ok(10));
    assert_eq!(e.select(&pile(1)), Ok(Some((1, 10))));
}

#[test]
fn offset_is_added_after_the_blend() {
    let mut t = sample();
    t[2] = Evaluation::ModeWithValue(Mode::Minimize, 4);
    let mut e = engine(t, 1, 1);
    assert_eq!(e.evaluate(&pile(2)), Ok(3));
}

#[test]
fn dead_end_is_reported() {
    let mut t = sample();
    t[0] = Evaluation::Mode(Mode::Maximize);
    let mut e = engine(t, 1, 1);
    assert_eq!(e.evaluate(&pile(0)), Err(SearchError::DeadEnd));
    assert_eq!(e.select(&pile(1)), Err(SearchError::DeadEnd));
    assert_eq!(e.memo_len(), 0);
}

#[test]
fn overflow_is_reported() {
    let mut t = sample();
    t[1] = Evaluation::Value(i64::MAX);
    t[0] = Evaluation::Value(1);
    let mut e = engine(t, 1, 1);
    assert_eq!(e.evaluate(&pile(2)), Err(SearchError::Overflow));
}

#[test]
fn offset_overflow_is_reported() {
    let mut t = sample();
    t[2] = Evaluation::ModeWithValue(Mode::Minimize, i64::MAX);
    t[0] = Evaluation::Value(1);
    let mut e = engine(t, 1, 1);
    assert_eq!(e.evaluate(&pile(2)), Err(SearchError::Overflow));
}

#[test]
fn past_the_table_scores_zero() {
    let mut e = engine(sample(), 1, 1);
    assert_eq!(e.evaluate(&pile(9)), Ok(0));
}

#[test]
fn invalid_ratios_are_refused() {
    assert_eq!(Ratio::new(1, 0), Err(SearchError::InvalidRatio));
    assert_eq!(Ratio::new(3, 2), Err(SearchError::InvalidRatio));
    let q = Ratio::new(2, 2).unwrap();
    assert_eq!((q.num(), q.den()), (2, 2));
    let e = engine(sample(), 0, 5);
    assert_eq!(e.ratio(), Ratio::new(0, 5).unwrap());
    assert_eq!(e.oracle().table.len(), 4);
}
