use puzzle_solvers::dirs::{day7, day7_dir_size, DirError, DirTable, Folder};
use puzzle_solvers::rope::{
    day9, day9_pos_diff, day9_string_touching, parse_move, tail_step, Direction, Position,
    RopeError, RopeState,
};

fn bytes(s: &str) -> Vec<u8> {
    s.as_bytes().to_vec()
}

#[test]
fn touching_overlap_and_diagonal() {
    let origin = Position { x: 0, y: 0 };
    assert!(day9_string_touching(origin, origin));
    assert!(day9_string_touching(Position { x: 1, y: 1 }, origin));
    assert!(day9_string_touching(Position { x: -1, y: 1 }, origin));
    assert!(!day9_string_touching(Position { x: 2, y: 0 }, origin));
    assert!(!day9_string_touching(Position { x: 2, y: 2 }, origin));
}

#[test]
fn touching_at_extremes() {
    let a = Position { x: i64::MAX, y: i64::MIN };
    let b = Position { x: i64::MIN, y: i64::MAX };
    assert!(!day9_string_touching(a, b));
    assert!(day9_string_touching(a, a));
}

#[test]
fn pos_diff_components() {
    let a = Position { x: 5, y: -3 };
    let b = Position { x: 3, y: -2 };
    assert_eq!(day9_pos_diff(a, b), (2, -1));
    assert_eq!(day9_pos_diff(b, a), (-2, 1));
}

#[test]
fn tail_step_table_entries() {
    assert_eq!(tail_step(2, 0), Some((1, 0)));
    assert_eq!(tail_step(-2, 0), Some((-1, 0)));
    assert_eq!(tail_step(0, 2), Some((0, 1)));
    assert_eq!(tail_step(0, -2), Some((0, -1)));
    assert_eq!(tail_step(2, 1), Some((1, 1)));
    assert_eq!(tail_step(1, 2), Some((1, 1)));
    assert_eq!(tail_step(-1, -2), Some((-1, -1)));
    assert_eq!(tail_step(-2, 1), Some((-1, 1)));
}

#[test]
fn tail_step_unmapped_displacements() {
    assert_eq!(tail_step(0, 0), None);
    assert_eq!(tail_step(1, 1), None);
    assert_eq!(tail_step(2, 2), None);
    assert_eq!(tail_step(3, 0), None);
}

#[test]
fn parse_move_reads_direction_and_count() {
    let m = parse_move(&bytes("R 12")).unwrap();
    assert_eq!(m.dir, Direction::Right);
    assert_eq!(m.count, 12);
    assert!(parse_move(&bytes("X 3")).is_none());
    assert!(parse_move(&bytes("R")).is_none());
    assert!(parse_move(&bytes("R  3")).is_none());
    assert!(parse_move(&bytes("R 3x")).is_none());
}

#[test]
fn rope_example_right_then_up() {
    // R 4 then U 4 from the origin: the tail follows straight, then
    // catches up diagonally; seven distinct positions are visited.
    assert_eq!(day9(&bytes("R 4\nU 4")), Ok(7));
}

#[test]
fn rope_trace_right_then_up() {
    // the same replay step by step: the tail lags one behind on the
    // straight run, then catches up diagonally; head and tail stay
    // adjacent throughout
    let mut st = RopeState::new();
    for _ in 0..4 {
        st.step(Direction::Right);
        assert!(day9_string_touching(st.head, st.tail));
    }
    assert_eq!(st.head, Position { x: 4, y: 0 });
    assert_eq!(st.tail, Position { x: 3, y: 0 });
    for _ in 0..4 {
        st.step(Direction::Up);
        assert!(day9_string_touching(st.head, st.tail));
    }
    assert_eq!(st.head, Position { x: 4, y: 4 });
    assert_eq!(st.tail, Position { x: 4, y: 3 });
    assert_eq!(st.visited_count(), 7);
}

#[test]
fn rope_revisited_positions_count_once() {
    // the tail returns to already-visited positions; the count does
    // not grow on the revisits
    assert_eq!(day9(&bytes("R 2\nL 2\nR 2")), Ok(2));
}

#[test]
fn rope_tail_stays_within_touching_distance() {
    // a single move never detaches the tail: it visits nothing new
    assert_eq!(day9(&bytes("R 1")), Ok(1));
    assert_eq!(day9(&bytes("U 1\nD 1")), Ok(1));
}

#[test]
fn rope_zero_count_moves_nothing() {
    assert_eq!(day9(&bytes("R 0")), Ok(1));
}

#[test]
fn rope_surrounding_whitespace_is_trimmed() {
    assert_eq!(day9(&bytes("\nR 4\nU 4\n")), Ok(7));
}

#[test]
fn rope_malformed_inputs() {
    assert_eq!(day9(&bytes("")), Err(RopeError::MalformedMove));
    assert_eq!(day9(&bytes("X 3")), Err(RopeError::MalformedMove));
    assert_eq!(day9(&bytes("R three")), Err(RopeError::MalformedMove));
    assert_eq!(day9(&bytes("R 4\n\nU 4")), Err(RopeError::MalformedMove));
    // a count above the 31-bit range is rejected as the original's
    // numeric parse would
    assert_eq!(day9(&bytes("R 2147483648")), Err(RopeError::MalformedMove));
}

#[test]
fn rope_reruns_agree() {
    let input = bytes("R 4\nU 4\nL 3\nD 1\nR 4\nD 1\nL 5\nR 2");
    let first = day9(&input);
    let second = day9(&input);
    assert_eq!(first, second);
    assert_eq!(first, Ok(13));
}

#[test]
fn dir_example_root_and_one_subdirectory() {
    // a root with one file of size 100 and one subdirectory holding
    // one file of size 50: root totals 150, the subdirectory 50, and
    // both fall under the first query's threshold
    let input = bytes("$ cd /\n$ ls\ndir a\n100 f.txt\n$ cd a\n$ ls\n50 g.txt\n");
    assert_eq!(day7(&input), Ok((200, 50)));
}

#[test]
fn dir_sizes_three_levels() {
    let input = bytes(
        "$ cd /\n$ ls\ndir a\n5 f\n$ cd a\n$ ls\ndir b\n3 g\n$ cd b\n$ ls\n2 h\n",
    );
    // sizes: b = 2, a = 5, root = 10; all are small, so the first
    // answer sums them; the second finds the smallest candidate
    assert_eq!(day7(&input), Ok((17, 2)));
}

#[test]
fn dir_threshold_is_inclusive() {
    let input = bytes("$ cd /\n$ ls\n100000 f\n");
    assert_eq!(day7(&input), Ok((100000, 100000)));
}

#[test]
fn dir_above_threshold_not_counted() {
    let input = bytes("$ cd /\n$ ls\ndir a\n100000 f\n$ cd a\n$ ls\n1 g\n");
    // the root totals 100001 and is excluded from the first sum
    assert_eq!(day7(&input), Ok((1, 1)));
}

#[test]
fn dir_relisting_replaces_the_record() {
    let input = bytes("$ cd /\n$ ls\n100 a\n$ ls\n7 b\n");
    assert_eq!(day7(&input), Ok((7, 7)));
}

#[test]
fn dir_freeing_query_picks_a_large_directory() {
    // the root holds 50000000 directly, so only deleting the root
    // itself frees enough; the subdirectory is too small
    let input = bytes("$ cd /\n$ ls\ndir a\n50000000 f\n$ cd a\n$ ls\n10 g\n");
    assert_eq!(day7(&input), Ok((10, 50000010)));
}

#[test]
fn dir_missing_record_is_fatal() {
    let input = bytes("$ cd /\n$ ls\ndir a\n100 f\n");
    assert_eq!(day7(&input), Err(DirError::MissingDir));
}

#[test]
fn dir_missing_root_is_fatal() {
    assert_eq!(day7(&bytes("")), Err(DirError::MissingDir));
}

#[test]
fn dir_navigating_above_root_is_fatal() {
    assert_eq!(day7(&bytes("$ cd ..\n")), Err(DirError::RootEscape));
}

#[test]
fn dir_malformed_listing_line_is_fatal() {
    let input = bytes("$ cd /\n$ ls\nxyz abc\n");
    assert_eq!(day7(&input), Err(DirError::MalformedLine));
    let input2 = bytes("$ cd /\n$ ls\ndir \n");
    assert_eq!(day7(&input2), Err(DirError::MalformedLine));
}

#[test]
fn dir_reruns_agree() {
    let input = bytes("$ cd /\n$ ls\ndir a\n100 f.txt\n$ cd a\n$ ls\n50 g.txt\n");
    assert_eq!(day7(&input), day7(&input));
}

#[test]
fn dir_size_recurses_over_the_table() {
    let root = Folder {
        path: vec![],
        files_size: 100,
        subfolders: vec![vec![bytes("a")]],
    };
    let sub = Folder {
        path: vec![bytes("a")],
        files_size: 50,
        subfolders: vec![],
    };
    let table = DirTable { records: vec![root, sub] };
    assert_eq!(day7_dir_size(&table.records[0], &table), Ok(150));
    assert_eq!(day7_dir_size(&table.records[1], &table), Ok(50));
}

#[test]
fn dir_size_reports_a_missing_subfolder() {
    let root = Folder {
        path: vec![],
        files_size: 100,
        subfolders: vec![vec![bytes("a")]],
    };
    let table = DirTable { records: vec![root] };
    assert_eq!(day7_dir_size(&table.records[0], &table), Err(DirError::MissingDir));
}
