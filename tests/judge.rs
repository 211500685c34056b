use rail_judge::{
    compute_score, compute_score_details, judge, parse_input, parse_output, score, Action, Failure,
    Phase, Replay, Shape, Violation, STATION_COST, TRACK_COST,
};

fn waits(n: usize) -> String {
    let mut s = String::new();
    for _ in 0..n {
        s.push_str("-1\n");
    }
    s
}

fn one_commuter(budget: i64) -> String {
    format!("50 1 {} 800\n10 10 10 15\n", budget)
}

fn line_actions() -> String {
    let mut s = String::from("0 10 11\n1 10 12\n0 10 13\n");
    s.push_str(&waits(797));
    s
}

#[test]
fn station_track_station_earns_the_fare() {
    let (sc, err) = score(one_commuter(10000), line_actions());
    assert_eq!(err, "");
    assert_eq!(sc, 10000 - 2 * STATION_COST - TRACK_COST + 5);
    assert_eq!(sc, 1905);
}

#[test]
fn fare_is_paid_once() {
    let input = parse_input(&one_commuter(10000)).unwrap();
    let out = parse_output(&input, &line_actions()).unwrap();
    let (sc, failure, snaps) = compute_score_details(&input, &out.out);
    assert_eq!(failure, None);
    assert_eq!(sc, 1905);
    assert_eq!(snaps.len(), 801);
    assert_eq!(snaps[0].money, 10000);
    assert_eq!(snaps[1].money, 6000);
    assert_eq!(snaps[2].money, 5900);
    assert_eq!(snaps[3].money, 1905);
    assert_eq!(snaps[3].income, 5);
    assert_eq!(snaps[4].income, 0);
    assert_eq!(snaps[800].money, 1905);
    assert_eq!(snaps[800].turn, 800);
    assert_eq!(snaps[3].cells[10 * 50 + 11], 7);
    assert_eq!(snaps[3].cells[10 * 50 + 12], 1);
}

#[test]
fn track_without_money_is_insufficient_funds() {
    let input = parse_input(&one_commuter(4050)).unwrap();
    let mut text = String::from("0 10 11\n1 10 12\n");
    text.push_str(&waits(798));
    let out = parse_output(&input, &text).unwrap();
    assert_eq!(
        judge(&input, &out.out),
        Err(Failure { turn: 1, violation: Violation::InsufficientFunds })
    );
    let (sc, err) = compute_score(&input, &out);
    assert_eq!(sc, 0);
    assert_eq!(err, "insufficient funds at turn 1");
}

#[test]
fn short_sequence_is_too_few_actions() {
    let input = parse_input(&one_commuter(10000)).unwrap();
    let out = parse_output(&input, "0 10 11\n1 10 12\n0 10 13\n").unwrap();
    assert_eq!(
        judge(&input, &out.out),
        Err(Failure { turn: 3, violation: Violation::TooFewActions })
    );
    let (sc, err) = score(one_commuter(10000), "0 10 11\n".to_string());
    assert_eq!(sc, 0);
    assert_eq!(err, "too few actions at turn 1");
}

#[test]
fn long_sequence_is_too_many_actions() {
    let input = parse_input(&one_commuter(10000)).unwrap();
    let out = parse_output(&input, &waits(801)).unwrap();
    assert_eq!(
        judge(&input, &out.out),
        Err(Failure { turn: 800, violation: Violation::TooManyActions })
    );
}

#[test]
fn waits_keep_the_budget() {
    for budget in [1i64, 777, 10000, 1000000] {
        let (sc, err) = score(one_commuter(budget), waits(800));
        assert_eq!(err, "");
        assert_eq!(sc, budget);
    }
}

#[test]
fn second_station_is_cell_occupied() {
    // Enough money for a second station.
    let input = parse_input(&one_commuter(20000)).unwrap();
    let mut text = String::from("0 5 5\n0 5 5\n");
    text.push_str(&waits(798));
    let out = parse_output(&input, &text).unwrap();
    assert_eq!(
        judge(&input, &out.out),
        Err(Failure { turn: 1, violation: Violation::CellOccupied })
    );
    // No money left at all.
    let input = parse_input(&one_commuter(4000)).unwrap();
    let out = parse_output(&input, &text).unwrap();
    assert_eq!(
        judge(&input, &out.out),
        Err(Failure { turn: 1, violation: Violation::CellOccupied })
    );
}

#[test]
fn station_on_track_is_cell_occupied() {
    let input = parse_input(&one_commuter(20000)).unwrap();
    let mut text = String::from("2 5 5\n0 5 5\n");
    text.push_str(&waits(798));
    let out = parse_output(&input, &text).unwrap();
    assert_eq!(
        judge(&input, &out.out),
        Err(Failure { turn: 1, violation: Violation::CellOccupied })
    );
}

#[test]
fn connectivity_stays_once_made() {
    let input = parse_input(&one_commuter(10000)).unwrap();
    let mut rep = Replay::new(&input);
    assert_eq!(rep.phase(), Phase::Ready);
    rep.step(&input, Action::Station { r: 10, c: 11 }).unwrap();
    assert_eq!(rep.phase(), Phase::InProgress);
    rep.step(&input, Action::Track { shape: Shape::Horizontal, r: 10, c: 12 }).unwrap();
    rep.step(&input, Action::Station { r: 10, c: 13 }).unwrap();
    assert!(rep.connected(&input, 10 * 50 + 11, 10 * 50 + 13));
    for _ in 0..10 {
        rep.step(&input, Action::Wait).unwrap();
    }
    assert!(rep.connected(&input, 10 * 50 + 11, 10 * 50 + 13));
    assert!(!rep.connected(&input, 10 * 50 + 11, 0));
    assert_eq!(rep.money(), 1905);
    assert_eq!(rep.turn(), 13);
}

#[test]
fn snapshots_stop_at_the_failing_turn() {
    let input = parse_input(&one_commuter(20000)).unwrap();
    let mut text = String::from("-1\n0 5 5\n0 5 5\n");
    text.push_str(&waits(797));
    let out = parse_output(&input, &text).unwrap();
    let (sc, failure, snaps) = compute_score_details(&input, &out.out);
    assert_eq!(sc, 0);
    assert_eq!(failure, Some(Failure { turn: 2, violation: Violation::CellOccupied }));
    assert_eq!(snaps.len(), 3);
    let (sc, err) = score(one_commuter(20000), text);
    assert_eq!(sc, 0);
    assert_eq!(err, "cell occupied at turn 2");
}

#[test]
fn messages_through_score() {
    let (sc, err) = score(one_commuter(10000), "-1\n".to_string());
    assert_eq!((sc, err.as_str()), (0, "too few actions at turn 1"));
    let (sc, err) = score(one_commuter(10000), waits(801));
    assert_eq!((sc, err.as_str()), (0, "too many actions at turn 800"));
    let (sc, err) = score(one_commuter(10000), "-1\n0 1 1 1\n".to_string());
    assert_eq!((sc, err.as_str()), (0, "trailing token in the actions on line 2"));
    let (sc, err) = score("50 1 10000 800\n10 10 10 50\n".to_string(), waits(800));
    assert_eq!((sc, err.as_str()), (0, "value out of range in the instance at byte 24"));
    let (sc, err) = score("50 1 +10000 800\n10 10 10 15\n".to_string(), waits(800));
    assert_eq!((sc, err.as_str()), (10000, ""));
}
