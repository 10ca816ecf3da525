use perftree::engine::{FixedEngine, QueryError};
use perftree::state::State;

#[test]
fn child_and_parent_walk_the_path() {
    let mut s = State::new("./count.sh".to_string());
    assert_eq!(s.depth(), 1);
    assert!(s.moves().is_empty());
    s.set_depth(0);
    s.goto_child("e2e4".to_string());
    s.goto_child("e7e5".to_string());
    assert_eq!(s.moves(), &["e2e4".to_string(), "e7e5".to_string()]);
    s.goto_parent();
    assert_eq!(s.moves(), &["e2e4".to_string()]);
    s.goto_parent();
    assert!(s.moves().is_empty());
    // removing from an empty path is a silent no-op
    s.goto_parent();
    assert!(s.moves().is_empty());
}

#[test]
fn new_session_starts_at_the_standard_position() {
    let s = State::new("./count.sh".to_string());
    assert_eq!(s.fen(), "rnbqkbnr/pppppppp/8/8/8/8/PPPPPPPP/RNBQKBNR w KQkq - 0 1");
    assert_eq!(s.depth(), 1);
    assert!(!s.chess960());
    assert_eq!(s.cmd(), "./count.sh");
}

#[test]
fn set_fen_always_clears_the_path() {
    let mut s = State::new("./count.sh".to_string());
    s.goto_child("e2e4".to_string());
    s.goto_child("e7e5".to_string());
    s.set_fen("8/8/8/8/8/8/8/K6k w - - 0 1".to_string());
    assert!(s.moves().is_empty());
    assert_eq!(s.fen(), "8/8/8/8/8/8/8/K6k w - - 0 1");

    // also when the path is already empty
    let mut t = State::new("./count.sh".to_string());
    t.set_fen("4k3/8/8/8/8/8/8/4K3 b - - 0 1".to_string());
    assert!(t.moves().is_empty());
}

#[test]
fn set_moves_replaces_the_path_wholesale() {
    let mut s = State::new("./count.sh".to_string());
    s.goto_child("a2a3".to_string());
    s.set_moves(vec!["d2d4".to_string(), "d7d5".to_string()]);
    assert_eq!(s.moves(), &["d2d4".to_string(), "d7d5".to_string()]);
}

#[test]
fn goto_root_clears_the_path_and_keeps_the_rest() {
    let mut s = State::new("./count.sh".to_string());
    s.set_depth(4);
    s.set_chess960(true);
    s.goto_child("e2e4".to_string());
    s.goto_root();
    assert!(s.moves().is_empty());
    assert_eq!(s.depth(), 4);
    assert!(s.chess960());
}

#[test]
fn relative_depth_subtracts_the_path_length() {
    let mut s = State::new("./count.sh".to_string());
    s.set_depth(3);
    assert_eq!(s.relative_depth(), Some(3));
    s.goto_child("e2e4".to_string());
    s.goto_child("e7e5".to_string());
    assert_eq!(s.relative_depth(), Some(1));
    s.goto_child("g1f3".to_string());
    assert_eq!(s.relative_depth(), Some(0));
    s.goto_child("b8c6".to_string());
    assert_eq!(s.relative_depth(), None);
}

#[test]
fn diff_queries_both_backends_and_merges() {
    let s = State::new("./count.sh".to_string());
    let mut lhs = FixedEngine::new(20, vec![("e2e4".to_string(), 20)]);
    let mut rhs = FixedEngine::new(19, vec![("e2e3".to_string(), 19)]);
    let d = s.diff(&mut lhs, &mut rhs).unwrap();
    assert_eq!(d.total_count(), (20, 19));
    let rows = d.child_count();
    assert_eq!(rows.len(), 2);
    assert_eq!(rows[0], ("e2e3".to_string(), (None, Some(19))));
    assert_eq!(rows[1], ("e2e4".to_string(), (Some(20), None)));
}

#[test]
fn diff_refuses_a_path_deeper_than_the_target_depth() {
    let mut s = State::new("./count.sh".to_string());
    s.set_depth(1);
    s.set_moves(vec!["e2e4".to_string(), "e7e5".to_string()]);
    let mut lhs = FixedEngine::new(0, Vec::new());
    let mut rhs = FixedEngine::new(0, Vec::new());
    let r = s.diff(&mut lhs, &mut rhs);
    assert!(matches!(r, Err(QueryError::DepthUnderflow)));
    // the failed query left the navigation state unchanged
    assert_eq!(s.moves().len(), 2);
    assert_eq!(s.depth(), 1);
}

#[test]
fn query_error_messages_name_the_cause() {
    let e = QueryError::Transport("broken pipe".to_string());
    assert_eq!(e.message(), "broken pipe");
    let p = QueryError::Protocol("bad line".to_string());
    assert_eq!(p.message(), "bad line");
    let d = QueryError::DepthUnderflow;
    assert_eq!(d.message(), "navigated path is deeper than the target depth");
}
