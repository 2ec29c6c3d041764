use icfp2019::action::Action;
use icfp2019::bot::{Bot, Manipulator, Order};
use icfp2019::geometry::{Angle, Pos, PosAngle, PosDiff};
use icfp2019::grid::{Cell, Grid};
use icfp2019::plot::plot;
use icfp2019::task::Task;

fn grid_of(text: &str) -> Grid {
    Grid::new(Task::parse(1, text).unwrap()).unwrap()
}

fn room() -> Grid {
    // Six by four, with a block of two by two walls in the middle.
    grid_of("(0,0),(6,0),(6,4),(0,4)#(0,0)#(2,1),(4,1),(4,3),(2,3)#")
}

fn offsets(points: &[(i32, i32)]) -> Vec<PosDiff> {
    points.iter().map(|p| PosDiff::new(p.0, p.1)).collect()
}

#[test]
fn plot_is_negated_with_its_offset() {
    for dx in -7..=7 {
        for dy in -7..=7 {
            let there = plot(PosDiff::new(dx, dy));
            let back = plot(PosDiff::new(-dx, -dy));
            let negated: Vec<PosDiff> = there.iter().map(|p| PosDiff::new(-p.dx, -p.dy)).collect();
            assert_eq!(back, negated, "({}, {})", dx, dy);
            // Seen from the far end the walk is the same.
            let from_far_end: Vec<PosDiff> = there
                .iter()
                .rev()
                .map(|p| PosDiff::new(p.dx - dx, p.dy - dy))
                .collect();
            assert_eq!(back, from_far_end, "({}, {})", dx, dy);
        }
    }
}

#[test]
fn plot_walks_by_single_steps_between_its_ends() {
    for dx in -9..=9 {
        for dy in -9..=9 {
            let line = plot(PosDiff::new(dx, dy));
            assert_eq!(line[0], PosDiff::new(0, 0));
            assert_eq!(*line.last().unwrap(), PosDiff::new(dx, dy));
            for w in line.windows(2) {
                let (sx, sy) = ((w[1].dx - w[0].dx).abs(), (w[1].dy - w[0].dy).abs());
                assert!(sx <= 1 && sy <= 1 && sx + sy >= 1);
            }
            for p in line.iter() {
                assert!(p.dx.abs() <= dx.abs() && p.dy.abs() <= dy.abs());
            }
        }
    }
}

#[test]
fn plot_of_steep_and_far_offsets() {
    assert_eq!(
        plot(PosDiff::new(1, 3)),
        offsets(&[(0, 0), (0, 1), (1, 2), (1, 3)])
    );
    assert_eq!(
        plot(PosDiff::new(1, -4)),
        offsets(&[(0, 0), (0, -1), (0, -2), (1, -2), (1, -3), (1, -4)])
    );
    assert_eq!(plot(PosDiff::new(-3, -3)), offsets(&[(0, 0), (-1, -1), (-2, -2), (-3, -3)]));
    assert_eq!(plot(PosDiff::new(-100000, 3)).len(), 100001 + 3);
}

#[test]
fn turning_offsets() {
    let d = PosDiff::new(2, 1);
    assert_eq!(d.turn(Angle::A0), PosDiff::new(2, 1));
    assert_eq!(d.turn(Angle::A90), PosDiff::new(1, -2));
    assert_eq!(d.turn(Angle::A180), PosDiff::new(-2, -1));
    assert_eq!(d.turn(Angle::A270), PosDiff::new(-1, 2));
    assert_eq!(d.turn_wide(Angle::A90), (1, -2));
    assert_eq!(PosDiff::new(i32::MIN, i32::MAX).turn_wide(Angle::A180), (1i64 << 31, -(i32::MAX as i64)));
    assert_eq!(
        PosDiff::gen_all_diff(),
        [PosDiff::new(1, 0), PosDiff::new(0, 1), PosDiff::new(-1, 0), PosDiff::new(0, -1)]
    );
    let mut a = Angle::A0;
    for expected in [Angle::A90, Angle::A180, Angle::A270, Angle::A0] {
        a = a.turn_clock_wise();
        assert_eq!(a, expected);
        assert_eq!(a.turn_counter_clock_wise().turn_clock_wise(), a);
    }
    assert_eq!(Angle::A0.turn_counter_clock_wise(), Angle::A270);
    assert_eq!(Angle::A180.ordinal(), 2);
    assert_eq!(Pos::new(3, 4) + PosDiff::new(-1, 2), Pos::new(2, 6));
    assert_eq!(PosAngle::new(Pos::new(3, 4), Angle::A90) + PosDiff::new(1, 1), Pos::new(4, 3));
    assert_eq!(PosAngle::new(Pos::new(3, 4), Angle::A270).reach_wide(PosDiff::new(1, 0)), (3, 5));
}

#[test]
fn poses_after_actions() {
    let p = PosAngle::new(Pos::new(2, 2), Angle::A0);
    assert_eq!(p.apply_action(Action::MoveUp), PosAngle::new(Pos::new(2, 3), Angle::A0));
    assert_eq!(p.apply_action(Action::MoveDown), PosAngle::new(Pos::new(2, 1), Angle::A0));
    assert_eq!(p.apply_action(Action::MoveLeft), PosAngle::new(Pos::new(1, 2), Angle::A0));
    assert_eq!(p.apply_action(Action::MoveRight), PosAngle::new(Pos::new(3, 2), Angle::A0));
    assert_eq!(p.apply_action(Action::TurnClockWise), PosAngle::new(Pos::new(2, 2), Angle::A90));
    assert_eq!(
        p.apply_action(Action::TurnCounterClockWise),
        PosAngle::new(Pos::new(2, 2), Angle::A270)
    );
}

#[test]
fn action_texts() {
    let texts = [
        (Action::MoveUp, "W"),
        (Action::MoveDown, "S"),
        (Action::MoveLeft, "A"),
        (Action::MoveRight, "D"),
        (Action::DoNothing, "Z"),
        (Action::TurnClockWise, "E"),
        (Action::TurnCounterClockWise, "Q"),
        (Action::AttachFastWheels, "F"),
        (Action::AttachDrill, "L"),
        (Action::Cloning, "C"),
        (Action::ExtendManipulator(PosDiff::new(1, 2)), "B(1,2)"),
        (Action::ExtendManipulator(PosDiff::new(-10, 0)), "B(-10,0)"),
        (Action::ExtendManipulator(PosDiff::new(i32::MAX, i32::MIN)), "B(2147483647,-2147483648)"),
    ];
    for (action, text) in texts.iter() {
        assert_eq!(action.to_string(), *text);
    }
    assert!(Action::MoveUp.is_move() && Action::MoveLeft.is_move());
    assert!(!Action::TurnClockWise.is_move() && !Action::DoNothing.is_move());
}

#[test]
fn a_fresh_agent() {
    let bot = Bot::new(Pos::new(3, 5));
    assert_eq!(bot.pos_angle, PosAngle::new(Pos::new(3, 5), Angle::A0));
    let arms: Vec<PosDiff> = bot.manipulators.iter().map(|m| m.posdiff).collect();
    assert_eq!(arms, offsets(&[(0, 0), (1, 0), (1, 1), (1, -1)]));
    assert_eq!(bot.manipulators[2].reachable_cell, offsets(&[(0, 0), (1, 1)]));
    assert_eq!(bot.fast_wheel_timer, 0);
    assert_eq!(bot.drill_timer, 0);
    assert_eq!(bot.order, None);
    assert!(bot.record.is_empty());
}

#[test]
fn arms_need_a_clear_line_of_sight() {
    let map = room();
    let at = |x, y, angle| PosAngle::new(Pos::new(x, y), angle);
    let arm = Manipulator::new(PosDiff::new(1, 1));
    assert!(arm.can_mark(at(0, 0, Angle::A0), &map));
    // The tip is on a wall.
    assert!(!arm.can_mark(at(1, 0, Angle::A0), &map));
    // The tip is off the grid.
    assert!(!arm.can_mark(at(5, 3, Angle::A0), &map));
    let long = Manipulator::new(PosDiff::new(4, 0));
    // The wall block stands between body and tip.
    assert!(!long.can_mark(at(1, 1, Angle::A0), &map));
    assert!(long.can_mark(at(1, 0, Angle::A0), &map));
    // Turned by a quarter the arm points down.
    assert!(!long.can_mark(at(1, 0, Angle::A90), &map));
    assert!(long.can_mark(at(1, 3, Angle::A270), &map) == false);
    let up = Manipulator::new(PosDiff::new(3, 0));
    assert!(up.can_mark(at(0, 0, Angle::A270), &map));
    let knight = Manipulator::new(PosDiff::new(2, 1));
    // (0,0) -> (1,0) -> (1,1) -> (2,1): the tip is a wall.
    assert!(!knight.can_mark(at(0, 0, Angle::A0), &map));
    // (4,0) -> (5,0) -> (5,1) -> (6,1): the tip is off the grid.
    assert!(!knight.can_mark(at(4, 0, Angle::A0), &map));
    // (1,3) -> (2,3) -> (2,4) -> (3,4) leaves the grid; what lies outside is no wall.
    assert!(!knight.can_mark(at(1, 3, Angle::A0), &map));
    // (4,3) -> ... turned to (3,1): tip on a wall.
    assert!(!knight.can_mark(at(4, 3, Angle::A180), &map));
}

#[test]
fn an_agent_paints_what_its_arms_reach() {
    let mut map = room();
    let bot = Bot::new(Pos::new(0, 1));
    bot.mark_map(&mut map);
    // Body, front and front-left are painted; front-right is seen through no wall.
    assert_eq!(map.cells[0][1], Cell::Marked);
    assert_eq!(map.cells[1][1], Cell::Marked);
    assert_eq!(map.cells[1][2], Cell::Marked);
    assert_eq!(map.cells[1][0], Cell::Marked);
    assert_eq!(map.empty_cell_count, 20 - 4);
    bot.mark_map(&mut map);
    assert_eq!(map.empty_cell_count, 20 - 4);
    assert_eq!(
        Bot::number_of_possible_mark_with_this_pos(bot.pos_angle, &bot.manipulators, &map),
        0
    );
    let fresh = room();
    assert_eq!(
        Bot::number_of_possible_mark_with_this_pos(bot.pos_angle, &bot.manipulators, &fresh),
        4
    );
    let corner = PosAngle::new(Pos::new(1, 0), Angle::A0);
    // Front-left of (1,0) is the wall at (2,1).
    assert_eq!(
        Bot::number_of_possible_mark_with_this_pos(corner, &bot.manipulators, &fresh),
        2
    );
}

#[test]
fn open_cells_around_the_arms() {
    let fresh = room();
    let bot = Bot::new(Pos::new(0, 1));
    // Tips: (0,1) (1,1) (1,2) (1,0). Open neighbours that carry no tip: (0,0) (0,2) (1,3) (2,0).
    assert_eq!(
        Bot::number_of_ajd_empty_cells_of_manipulators_with_this_pos(
            bot.pos_angle,
            &bot.manipulators,
            &fresh
        ),
        4
    );
    let mut painted = room();
    painted.mark_pos(Pos::new(0, 0));
    painted.mark_pos(Pos::new(1, 3));
    assert_eq!(
        Bot::number_of_ajd_empty_cells_of_manipulators_with_this_pos(
            bot.pos_angle,
            &bot.manipulators,
            &painted
        ),
        2
    );
}

#[test]
fn arms_with_an_open_side() {
    let fresh = room();
    let bot = Bot::new(Pos::new(0, 1));
    // Of the tips (0,1) (1,1) (1,2) (1,0), every one has an open neighbour without a tip
    // but (1,1), whose neighbours are tips, the body and a wall.
    assert_eq!(
        Bot::number_of_manipulators_which_has_empty_adj_cell_with_this_pos(
            bot.pos_angle,
            &bot.manipulators,
            &fresh
        ),
        3
    );
    let mut painted = room();
    painted.mark_pos(Pos::new(0, 0));
    painted.mark_pos(Pos::new(0, 2));
    painted.mark_pos(Pos::new(2, 0));
    assert_eq!(
        Bot::number_of_manipulators_which_has_empty_adj_cell_with_this_pos(
            bot.pos_angle,
            &bot.manipulators,
            &painted
        ),
        1
    );
}

#[test]
fn next_arm_alternates_sides() {
    let mut map = room();
    let mut bot = Bot::new(Pos::new(0, 0));
    let mut seen = vec![];
    for _ in 0..4 {
        let arm = bot.find_extend_manipulator_position();
        seen.push(arm);
        bot.apply_action(Action::ExtendManipulator(arm), &mut map, false);
    }
    assert_eq!(seen, offsets(&[(1, 2), (1, -2), (1, 3), (1, -3)]));
    assert_eq!(bot.manipulators.len(), 8);
    assert_eq!(bot.manipulators[4].reachable_cell, plot(PosDiff::new(1, 2)));
}

#[test]
fn an_arm_is_logged_as_the_body_sees_it() {
    let logged = |turns: usize, arm: PosDiff| {
        let mut map = room();
        let mut bot = Bot::new(Pos::new(0, 0));
        for _ in 0..turns {
            bot.apply_action(Action::TurnClockWise, &mut map, false);
        }
        bot.apply_action(Action::ExtendManipulator(arm), &mut map, false);
        assert_eq!(bot.manipulators[4].posdiff, arm);
        assert_eq!(bot.record.len(), turns + 1);
        match bot.record[turns] {
            Action::ExtendManipulator(e) => {
                assert_eq!(e.turn(bot.pos_angle.angle), arm);
                e
            }
            other => panic!("logged {:?}", other),
        }
    };
    assert_eq!(logged(0, PosDiff::new(1, 2)), PosDiff::new(1, 2));
    assert_eq!(logged(1, PosDiff::new(1, 2)), PosDiff::new(-2, 1));
    assert_eq!(logged(2, PosDiff::new(1, 2)), PosDiff::new(-1, -2));
    assert_eq!(logged(3, PosDiff::new(1, 2)), PosDiff::new(2, -1));
    assert_eq!(logged(1, PosDiff::new(1, -2)), PosDiff::new(2, 1));
    assert_eq!(PosDiff::new(1, 2).unturn(Angle::A90), PosDiff::new(-2, 1));
    assert_eq!(Angle::A90.turn_back(), Angle::A270);
    assert_eq!(Angle::A180.turn_back(), Angle::A180);
}

#[test]
fn timers_start_with_their_ticks() {
    let mut map = room();
    let mut bot = Bot::new(Pos::new(0, 0));
    bot.apply_action(Action::AttachFastWheels, &mut map, false);
    assert_eq!(bot.fast_wheel_timer, 50);
    bot.apply_action(Action::AttachFastWheels, &mut map, false);
    assert_eq!(bot.fast_wheel_timer, 100);
    bot.apply_action(Action::AttachDrill, &mut map, false);
    assert_eq!(bot.drill_timer, 30);
    bot.apply_action(Action::Cloning, &mut map, false);
    bot.apply_action(Action::DoNothing, &mut map, false);
    assert_eq!(bot.pos_angle, PosAngle::new(Pos::new(0, 0), Angle::A0));
    assert_eq!(bot.record.len(), 5);
    assert_eq!(bot.manipulators.len(), 4);
}

#[test]
fn moves_and_the_second_half_of_a_boosted_move() {
    let mut map = room();
    let mut bot = Bot::new(Pos::new(0, 1));
    bot.apply_action(Action::MoveRight, &mut map, false);
    assert_eq!(bot.pos_angle.pos, Pos::new(1, 1));
    // The second half stops before the wall at (2,1) and is not logged.
    bot.apply_action(Action::MoveRight, &mut map, true);
    assert_eq!(bot.pos_angle.pos, Pos::new(1, 1));
    assert_eq!(bot.record, vec![Action::MoveRight]);
    bot.apply_action(Action::MoveDown, &mut map, false);
    // The second half stops before the edge of the grid.
    bot.apply_action(Action::MoveDown, &mut map, true);
    assert_eq!(bot.pos_angle.pos, Pos::new(1, 0));
    bot.apply_action(Action::MoveRight, &mut map, false);
    bot.apply_action(Action::MoveRight, &mut map, true);
    assert_eq!(bot.pos_angle.pos, Pos::new(3, 0));
    assert_eq!(bot.record.len(), 3);
    assert_eq!(map.empty_cell_count, 20);
}

#[test]
fn a_drill_opens_walls_on_the_way() {
    let mut map = room();
    let mut bot = Bot::new(Pos::new(1, 1));
    bot.apply_action(Action::AttachDrill, &mut map, false);
    bot.apply_action(Action::MoveRight, &mut map, false);
    assert_eq!(bot.pos_angle.pos, Pos::new(2, 1));
    assert_eq!(map.cells[2][1], Cell::Marked);
    bot.apply_action(Action::MoveRight, &mut map, true);
    assert_eq!(bot.pos_angle.pos, Pos::new(3, 1));
    assert_eq!(map.cells[3][1], Cell::Marked);
    // Into a free cell the second half goes on as without a drill.
    bot.apply_action(Action::MoveRight, &mut map, true);
    assert_eq!(bot.pos_angle.pos, Pos::new(4, 1));
    bot.apply_action(Action::MoveRight, &mut map, true);
    bot.apply_action(Action::MoveRight, &mut map, true);
    assert_eq!(bot.pos_angle.pos, Pos::new(5, 1));
    assert_eq!(map.empty_cell_count, 20);
}

#[test]
fn orders_run_through_their_stages() {
    let mut map = room();
    let target = Pos::new(1, 0);
    let cases = [
        (Order::MoveToExtendManipulator(target), Order::DoExtendManipulator),
        (Order::MoveToFastWheel(target), Order::DoFastWheels),
        (Order::MoveToDrill(target), Order::DoDrill),
        (Order::MoveToMysterious(target), Order::DoClone),
    ];
    for (walk, perform) in cases.iter() {
        let mut bot = Bot::new(Pos::new(0, 1));
        bot.order = Some(*walk);
        bot.apply_action(Action::MoveDown, &mut map, false);
        assert_eq!(bot.order, Some(*walk));
        bot.apply_action(Action::TurnClockWise, &mut map, false);
        assert_eq!(bot.order, Some(*walk));
        bot.apply_action(Action::MoveRight, &mut map, false);
        assert_eq!(bot.order, Some(*perform));
        bot.apply_action(Action::DoNothing, &mut map, false);
        assert_eq!(bot.order, None);
        bot.apply_action(Action::MoveLeft, &mut map, false);
        assert_eq!(bot.order, None);
    }
    let mut bot = Bot::new(Pos::new(0, 0));
    bot.order = Some(Order::MoveToClone(target));
    bot.apply_action(Action::MoveRight, &mut map, false);
    assert_eq!(bot.order, Some(Order::FindMysterious));
    bot.apply_action(Action::MoveRight, &mut map, true);
    assert_eq!(bot.order, Some(Order::FindMysterious));
}
