use turtle::{Command, Line, Point, Scope, Script, Triangle, Turtle};

fn p(x: i32, y: i32) -> Point {
    Point::new(x, y)
}

fn seg(ax: i32, ay: i32, bx: i32, by: i32) -> Line {
    Line::new(p(ax, ay), p(bx, by))
}

#[test]
fn end_to_end_square_half() {
    // script `move 50 / turn 90 / move 50 / turn 90` from (0,0) heading 0
    let cmds = Script::parse(b"move 50\nturn 90\nmove 50\nturn 90").unwrap();
    let mut t = Turtle::new(p(0, 0));
    t.apply_commands(&cmds).unwrap();
    assert_eq!(t.path, vec![seg(0, 0, 50, 0), seg(50, 0, 50, 50)]);
    assert_eq!(t.position, p(50, 50));
    assert_eq!(t.rotation, 180);
}

#[test]
fn move_then_move_back_returns_to_start() {
    // Move(d) then Move(-d) with heading unchanged, at a heading where
    // displacements are rounded
    let mut t = Turtle::new(p(0, 0));
    t.apply_command(Command::Turn(Scope(0), 30));
    t.apply_command(Command::Move(Scope(0), 7));
    t.apply_command(Command::Move(Scope(0), -7));
    assert_eq!(t.position, p(0, 0));
    assert_eq!(t.rotation, 30);
    assert_eq!(t.path.len(), 2);
}

#[test]
fn two_turns_equal_their_sum_mod_360() {
    let mut a = Turtle::new(p(0, 0));
    a.apply_command(Command::Turn(Scope(0), 270));
    a.apply_command(Command::Turn(Scope(0), 180));
    let mut b = Turtle::new(p(0, 0));
    b.apply_command(Command::Turn(Scope(0), (270 + 180) % 360));
    assert_eq!(a.rotation, b.rotation);
    assert_eq!(a.rotation, 90);
}

#[test]
fn turn_normalizes_into_0_360() {
    let mut t = Turtle::new(p(0, 0));
    t.apply_command(Command::Turn(Scope(0), -90));
    assert_eq!(t.rotation, 270);
    t.apply_command(Command::Turn(Scope(0), 3700));
    assert_eq!(t.rotation, 10);
    t.apply_command(Command::Turn(Scope(0), -370));
    assert_eq!(t.rotation, 0);
}

#[test]
fn repeat_equals_manual_applications() {
    // Repeat(n) over a sibling block B: the same path as n further manual
    // applications of B
    let block = [Command::Move(Scope(0), 10), Command::Turn(Scope(0), 90)];
    let mut with_repeat = Turtle::new(p(0, 0));
    with_repeat
        .apply_commands(&[block[0], block[1], Command::Repeat(Scope(0), 2)])
        .unwrap();
    let mut manual = Turtle::new(p(0, 0));
    for _ in 0..3 {
        manual.apply_commands(&block).unwrap();
    }
    assert_eq!(with_repeat.path, manual.path);
    assert_eq!(with_repeat.position, manual.position);
    assert_eq!(with_repeat.rotation, manual.rotation);
}

#[test]
fn repeat_closes_the_square() {
    let cmds = Script::parse(b"move 50\nturn 90\nrepeat 3").unwrap();
    let mut t = Turtle::new(p(0, 0));
    t.apply_commands(&cmds).unwrap();
    assert_eq!(
        t.path,
        vec![seg(0, 0, 50, 0), seg(50, 0, 50, 50), seg(50, 50, 0, 50), seg(0, 50, 0, 0)]
    );
    assert_eq!(t.position, p(0, 0));
    assert_eq!(t.rotation, 0);
}

#[test]
fn repeat_with_no_preceding_run_is_an_error() {
    // structural misuse: a repeat as the very first command
    let mut t = Turtle::new(p(0, 0));
    assert!(t.apply_commands(&[Command::Repeat(Scope(0), 5)]).is_err());
}

#[test]
fn repeat_after_deeper_block_is_flagged() {
    // the adopted policy for the ambiguous case: a repeat directly after a
    // block at another scope than its own is flagged as an execution
    // error, never silently resolved
    let cmds = Script::parse(b"move 10\n\tmove 5\nrepeat 2").unwrap();
    let mut t = Turtle::new(p(0, 0));
    assert!(t.apply_commands(&cmds).is_err());
}

#[test]
fn repeat_zero_or_negative_repeats_nothing() {
    let mut t = Turtle::new(p(0, 0));
    t.apply_commands(&Script::parse(b"move 10\nrepeat 0").unwrap()).unwrap();
    assert_eq!(t.path, vec![seg(0, 0, 10, 0)]);
    let mut t = Turtle::new(p(0, 0));
    t.apply_commands(&Script::parse(b"move 10\nrepeat -3").unwrap()).unwrap();
    assert_eq!(t.path, vec![seg(0, 0, 10, 0)]);
}

#[test]
fn nested_repeat_runs_at_its_own_scope() {
    let cmds = Script::parse(b"\tmove 1\n\trepeat 1\nmove 100").unwrap();
    let mut t = Turtle::new(p(0, 0));
    t.apply_commands(&cmds).unwrap();
    assert_eq!(t.path, vec![seg(0, 0, 1, 0), seg(1, 0, 2, 0), seg(2, 0, 102, 0)]);
}

#[test]
fn sibling_run_resets_on_scope_change() {
    // after returning to scope 0, the run holds only the scope-0 commands
    let cmds = Script::parse(b"\tmove 1\nmove 10\nrepeat 1").unwrap();
    let mut t = Turtle::new(p(0, 0));
    t.apply_commands(&cmds).unwrap();
    // the repeat re-executes only `move 10`
    assert_eq!(t.path, vec![seg(0, 0, 1, 0), seg(1, 0, 11, 0), seg(11, 0, 21, 0)]);
}

#[test]
fn reset_restores_the_initial_state() {
    let mut t = Turtle::new(p(3, 4));
    t.apply_commands(&Script::parse(b"move 5\nturn 45").unwrap()).unwrap();
    assert!(!t.path.is_empty());
    t.reset();
    assert_eq!(t.position, p(3, 4));
    assert_eq!(t.rotation, 0);
    assert!(t.path.is_empty());
    assert_eq!(t.starting_position, p(3, 4));
}

#[test]
fn diagonal_move_rounds_to_nearest_pixel() {
    let mut t = Turtle::new(p(0, 0));
    t.apply_command(Command::Turn(Scope(0), 45));
    t.apply_command(Command::Move(Scope(0), 10));
    // 10 * sin 45 = 7.07107, rounded to 7
    assert_eq!(t.position, p(7, 7));
}

#[test]
fn move_saturates_at_the_coordinate_limit() {
    let mut t = Turtle::new(p(i32::MAX - 3, 0));
    t.apply_command(Command::Move(Scope(0), 10));
    assert_eq!(t.position, p(i32::MAX, 0));
}

#[test]
fn turtle_triangle_points_along_the_heading() {
    let t = Turtle::new(p(0, 0));
    let tri = t.turtle_triangle();
    assert_eq!(tri, Triangle::new(p(5, 0), p(0, 5), p(0, -5)));
    let mut east = Turtle::new(p(10, 10));
    east.apply_command(Command::Turn(Scope(0), 90));
    let tri = east.turtle_triangle();
    assert_eq!(tri, Triangle::new(p(10, 15), p(5, 10), p(15, 10)));
}

#[test]
fn command_scope_returns_the_tag() {
    assert_eq!(Command::Move(Scope(2), 5).scope(), Scope(2));
    assert_eq!(Command::Turn(Scope(0), 5).scope(), Scope(0));
    assert_eq!(Command::Repeat(Scope(1), 5).scope(), Scope(1));
}

#[test]
fn draw_emits_path_points_then_indicator() {
    let mut t = Turtle::new(p(0, 0));
    t.apply_command(Command::Move(Scope(0), 2));
    let pts = t.draw();
    assert_eq!(&pts[0..3], &[p(0, 0), p(1, 0), p(2, 0)]);
    // the indicator triangle contributes further points
    assert!(pts.len() > 3);
    assert!(pts.contains(&p(7, 0)));
}

#[test]
fn failed_execution_leaves_earlier_trace() {
    // the error aborts only the current pass; commands before the bad
    // repeat have executed
    let cmds = Script::parse(b"move 10\n\tturn 90\nrepeat 2").unwrap();
    let mut t = Turtle::new(p(0, 0));
    assert!(t.apply_commands(&cmds).is_err());
    assert_eq!(t.path, vec![seg(0, 0, 10, 0)]);
}
