use rail_judge::{
    accept_pair, choose_component, draw_mixture, format_input, parse_action, parse_input,
    parse_output, pick_component, read, Action, BuildError, Failure, Generation, GridState,
    JudgeError, ParseError, ParseErrorKind, Shape, UnionFind, Violation,
};
use rand::rngs::StdRng;
use rand::SeedableRng;

#[test]
fn union_find_merges_and_keeps() {
    let mut uf = UnionFind::new(6);
    assert_eq!(uf.len(), 6);
    assert!(!uf.same(0, 1));
    assert!(uf.union(0, 1));
    assert!(uf.same(0, 1));
    assert!(!uf.union(1, 0));
    assert!(uf.union(2, 3));
    assert!(uf.union(1, 3));
    assert!(uf.same(0, 2));
    assert_eq!(uf.find(0), uf.find(3));
    assert!(!uf.same(0, 4));
    assert!(!uf.same(4, 5));
}

#[test]
fn corner_track_joins_open_sides_only() {
    let mut g = GridState::new(100000);
    g.place_station(0, 0).unwrap();
    g.place_track(0, 1, Shape::LeftDown).unwrap();
    g.place_station(1, 1).unwrap();
    g.place_station(0, 2).unwrap();
    assert!(g.connected(0, 51));
    assert!(!g.connected(0, 2));
    assert_eq!(g.money(), 100000 - 3 * 4000 - 100);
    assert_eq!(g.cell(0, 1), 3);
    assert_eq!(g.place_track(0, 1, Shape::Vertical), Err(BuildError::CellOccupied));
    // A track asks for the money before the cell; a station asks for the cell first.
    let mut low = GridState::new(4050);
    low.place_station(2, 2).unwrap();
    assert_eq!(low.place_track(2, 2, Shape::Vertical), Err(BuildError::InsufficientFunds));
    assert_eq!(low.place_station(2, 2), Err(BuildError::CellOccupied));
    let mut poor = GridState::new(99);
    assert_eq!(poor.place_track(3, 3, Shape::Vertical), Err(BuildError::InsufficientFunds));
    assert_eq!(poor.place_station(3, 3), Err(BuildError::InsufficientFunds));
    assert_eq!(poor.cell(3, 3), 0);
}

#[test]
fn instance_round_trip() {
    let text = "50 3 12345 800\n0 0 49 49\n1 2 3 4\n10 20 30 40\n";
    let a = parse_input(text).unwrap();
    let formatted = format_input(&a);
    assert_eq!(formatted, text);
    let b = parse_input(&formatted).unwrap();
    assert_eq!((a.n, a.m, a.k, a.t), (b.n, b.m, b.k, b.t));
    assert_eq!(a.commuters, b.commuters);
    assert_eq!(b.commuters[2].c1, 40);
}

#[test]
fn instance_errors() {
    assert_eq!(
        parse_input("49 1 100 800\n0 0 0 9\n").unwrap_err(),
        ParseError { at: 0, kind: ParseErrorKind::OutOfRange }
    );
    assert_eq!(
        parse_input("50 2 100 800\n0 0 0 9\n").unwrap_err(),
        ParseError { at: 21, kind: ParseErrorKind::UnexpectedEof }
    );
    assert_eq!(
        parse_input("50 1 abc 800\n").unwrap_err(),
        ParseError { at: 5, kind: ParseErrorKind::NotAnInteger }
    );
    assert_eq!(
        parse_input("50 1 100 800\n0 0 0 50\n").unwrap_err(),
        ParseError { at: 19, kind: ParseErrorKind::OutOfRange }
    );
}

#[test]
fn action_lines_and_notes() {
    let input = parse_input("50 1 100 800\n0 0 0 9\n").unwrap();
    let out = parse_output(&input, "# first\n# second\n0 1 2\n\n  -1  \n6 3 4\n").unwrap();
    assert_eq!(
        out.out,
        vec![
            Action::Station { r: 1, c: 2 },
            Action::Wait,
            Action::Track { shape: Shape::RightDown, r: 3, c: 4 }
        ]
    );
    assert_eq!(out.notes[0], b" first\n second".to_vec());
    assert!(out.notes[1].is_empty());
}

#[test]
fn action_errors() {
    let input = parse_input("50 1 100 800\n0 0 0 9\n").unwrap();
    let err = |t: &str| parse_output(&input, t).unwrap_err();
    assert_eq!(err("-1\n-1 5\n"), ParseError { at: 2, kind: ParseErrorKind::TrailingToken });
    assert_eq!(err("7 1 1\n"), ParseError { at: 1, kind: ParseErrorKind::OutOfRange });
    assert_eq!(err("0 50 1\n"), ParseError { at: 1, kind: ParseErrorKind::OutOfRange });
    assert_eq!(err("\nx\n"), ParseError { at: 2, kind: ParseErrorKind::NotAnInteger });
    assert_eq!(err("0 1\n"), ParseError { at: 1, kind: ParseErrorKind::UnexpectedEof });
    assert_eq!(err("1 1 1 1\n"), ParseError { at: 1, kind: ParseErrorKind::TrailingToken });
    assert_eq!(parse_action(b"3 7 8"), Ok(Action::Track { shape: Shape::LeftDown, r: 7, c: 8 }));
}

#[test]
fn read_token_values() {
    assert_eq!(read(b"  42 x", 0, 0, 100), Ok((42, 4)));
    assert_eq!(read(b"-7", 0, -10, 10), Ok((-7, 2)));
    assert_eq!(read(b"-", 0, -10, 10), Err(ParseErrorKind::NotAnInteger));
    assert_eq!(read(b"   ", 0, 0, 1), Err(ParseErrorKind::UnexpectedEof));
    assert_eq!(read(b"99999999999999999999", 0, 0, 1000), Err(ParseErrorKind::NotAnInteger));
    assert_eq!(read(b"9223372036854775808", 0, 0, 1000), Err(ParseErrorKind::NotAnInteger));
    assert_eq!(read(b"9223372036854775807", 0, 0, 1000), Err(ParseErrorKind::OutOfRange));
    assert_eq!(read(b"-9223372036854775808", 0, 0, 1000), Err(ParseErrorKind::OutOfRange));
    assert_eq!(read(b"-9223372036854775809", 0, 0, 1000), Err(ParseErrorKind::NotAnInteger));
    assert_eq!(read(b"+3", 0, 0, 10), Ok((3, 2)));
    assert_eq!(read(b" +0 ", 0, -5, 5), Ok((0, 3)));
    assert_eq!(read(b"+", 0, 0, 10), Err(ParseErrorKind::NotAnInteger));
    assert_eq!(read(b"+-3", 0, -10, 10), Err(ParseErrorKind::NotAnInteger));
    assert_eq!(read(b"12", 0, 0, 10), Err(ParseErrorKind::OutOfRange));
}

#[test]
fn messages_name_the_place() {
    let m = JudgeError::Rule(Failure { turn: 3, violation: Violation::CellOccupied }).message();
    assert_eq!(m, "cell occupied at turn 3");
    let m = JudgeError::Actions(ParseError { at: 12, kind: ParseErrorKind::TrailingToken }).message();
    assert_eq!(m, "trailing token in the actions on line 12");
    let m = JudgeError::Instance(ParseError { at: 0, kind: ParseErrorKind::OutOfRange }).message();
    assert_eq!(m, "value out of range in the instance at byte 0");
}

#[test]
fn component_pick_by_weight() {
    let w = vec![3u64, 5, 2];
    assert_eq!(pick_component(&w, 0), 0);
    assert_eq!(pick_component(&w, 2), 0);
    assert_eq!(pick_component(&w, 3), 1);
    assert_eq!(pick_component(&w, 7), 1);
    assert_eq!(pick_component(&w, 8), 2);
    assert_eq!(pick_component(&w, 9), 2);
}

#[test]
fn rejection_rules() {
    assert!(!accept_pair(0, 0, 0, 4));
    assert!(accept_pair(0, 0, 0, 5));
    assert!(accept_pair(0, 0, 3, 2));
    assert!(!accept_pair(-1, 0, 10, 10));
    assert!(!accept_pair(0, 0, 50, 10));
}

#[test]
fn generation_gathers_and_budgets() {
    let mut g = Generation::new(2);
    assert!(!g.offer(0, 0, 0, 3));
    assert!(g.offer(0, 0, 0, 9));
    assert!(!g.is_done());
    assert!(g.offer(5, 5, 5, 11));
    assert!(g.is_done());
    assert!(!g.offer(1, 1, 20, 20));
    assert_eq!(g.budget_floor(), 2 * 4000 + 100 * 6);
    let mut rng = StdRng::seed_from_u64(7);
    let inst = g.finish(&mut rng);
    assert_eq!(inst.m, 2);
    assert_eq!(inst.t, 800);
    assert!(inst.k >= 8600 + 1000 && inst.k <= 20000 + 1000);
    assert_eq!(inst.commuters[1].c1, 11);
}

#[test]
fn generation_is_deterministic() {
    let mut a = StdRng::seed_from_u64(42);
    let mut b = StdRng::seed_from_u64(42);
    let ma = draw_mixture(&mut a);
    let mb = draw_mixture(&mut b);
    assert_eq!(ma.weights, mb.weights);
    assert_eq!(ma.centers, mb.centers);
    assert_eq!(ma.spreads, mb.spreads);
    assert!(ma.weights.len() >= 1 && ma.weights.len() <= 5);
    for _ in 0..20 {
        let i = choose_component(&ma, &mut a);
        assert_eq!(i, choose_component(&mb, &mut b));
        assert!(i < ma.weights.len());
    }
}
