use icfp2019::action::Action;
use icfp2019::bot::{Bot, Order};
use icfp2019::geometry::{Angle, Pos, PosAngle, PosDiff};
use icfp2019::grid::{Cell, GridError};
use icfp2019::pickups::Pool;
use icfp2019::search::{find_mark_move, find_move_to, try_hop, Goal, MoveStep};
use icfp2019::system::{PickupError, SolveError, System};
use icfp2019::task::{BoosterKind, Task};

const ARENA_1: &str = "(0,0),(6,0),(6,1),(8,1),(8,2),(6,2),(6,3),(0,3)#(0,0)##";

const ARENA_2: &str = "(0,21),(2,21),(2,0),(16,0),(16,11),(20,11),(20,23),(21,23),(21,17),(24,17),(24,14),(29,14),(29,15),(34,15),(34,16),(36,16),(36,21),(35,21),(35,24),(34,24),(34,25),(36,25),(36,22),(39,22),(39,23),(42,23),(42,26),(39,26),(39,25),(38,25),(38,31),(36,31),(36,34),(33,34),(33,31),(34,31),(34,28),(30,28),(30,24),(32,24),(32,21),(33,21),(33,19),(34,19),(34,18),(31,18),(31,22),(28,22),(28,18),(29,18),(29,17),(27,17),(27,23),(26,23),(26,43),(14,43),(14,23),(16,23),(16,21),(6,21),(6,31),(0,31)#(0,21)#(6,11),(6,10),(8,10),(8,1),(11,1),(11,10),(12,10),(12,14),(15,14),(15,15),(12,15),(12,16),(10,16),(10,17),(9,17),(9,16),(6,16),(6,14),(5,14),(5,15),(4,15),(4,14),(3,14),(3,13),(6,13),(6,12),(3,12),(3,11);(16,27),(16,24),(17,24),(17,27),(18,27),(18,26),(19,26),(19,24),(21,24),(21,26),(24,26),(24,29),(25,29),(25,30),(24,30),(24,32),(22,32),(22,33),(25,33),(25,34),(24,34),(24,40),(23,40),(23,34),(22,34),(22,35),(21,35),(21,38),(20,38),(20,37),(16,37),(16,36),(20,36),(20,35),(19,35),(19,32),(18,32),(18,30),(17,30),(17,29),(18,29),(18,28),(15,28),(15,27)#F(5,6);B(5,8);X(9,19);F(13,19);F(14,4);B(16,18);L(17,13)";

// The arena with the identifier 21 is not among the arenas kept here. Where its description
// is filled in, solving it must give the score 1313 and the log below.
const ARENA_21: Option<&str> = None;

const ARENA_21_LOG: &str = "DDDDDDDDDWWWWDDWWWWDDDDDDWWWWDDDDDDDDDWDDB(1,2)WWWWWAB(1,-2)AWWQWWWWWWWWWAWWWWWWSSAQAAAAAWAEWSSAAAQDDDDDSQDWDDDDSSSSAASSSSSSSSSSSSAAEAASQDDWDDWWWAAEWAAAAAAAAAAAAAAAWDDWEWSSSEWDDDWWDWAWWQWWWASQAASQDDDDDDDDDDDAAAESAAASSSSSDDDDWEWASSSSQSSSQSWWQWWWAAAAASSSSESSWWWWWWDDDDDDDDDDWWEWWWWDDDDDDEDEDSSSSSDDDDDDDDDDDDDDDDDDAAAWAWQWWWWWWAAQAAAASSQSSDWWAWASAAADDDSSSSSSSSSSSSSSSSSSSSSSDDFSSSSSAEWWAAWDWDDDDDDDWASSAAWWWDDAAAAAAWADWDDDDWEAAWWWWWDDDDDEDDDAAAAAAAAWWAAAAAAAQAAAASQSSSQDSSSSSSSSSSSSAFSSSAEAASWWADFDWDWWAAAWEDDWAAAAWDDWSAAASZZZZZZZZZZZZZZZZZZZZZZZZZZZZZZZZZZZZZZZZZZZZZZZZZZZZZZZZZZWSQWDDSDSSAAASAAAAAAAAAAADDWDWWEWWWAQAWWWWEWWAWWWWWWWWWWWWWWWWAWWWWWQQSDDDDDDDWDDDQDDDDDDDDDDDDDDSDDDDDDDDDDDDDDDDDDWDDSSESWWWAAEAWWWSSAASSSQSSAWWWAWEAWWWSSAAAASSAAASQSDDSQDWDAAAASEASSWWAEWWWAAAAAAWWEWSSSSQSSWWWWAAAASAAASASQSAAAAAASEAWDDDDDDDWWAAWAWDDSAAAAAAAASAAAASSSASSSSSSSSSSSSDSSDSSASSDQDSDDQDAAASSSDDSSDDDDAAAASAAADDDSSSSDDDDDDSSSSESSSSSWWWEWDDDDAAAWAAAAADSSAASQSAAWWAASSWWDWWWSSSAAAWWWSSSDDDDDDDDWWDDDDWWWWDDDDWWWWDDDDDDDDDDDDSSSSDDAASSSSSSSSSAAAAAAAAAEWAAASQDWDDDDDDDDDDDWWWWWWWWWWWWWWWWDQDWWWSSSAAWWWWWWWWWWWWDWWWAAAWWWSSSSSSSSSSDDDDDDDDDWWWWWWWWWDDWWSSSDDDDDDDSASSSSSSSSSAAAAAASSSSSSSSSSSSSSSSSSSSSDDDDDDDDDSASSSWWWAAAASSSWWWAAAAAAESAASAAADDDWWWWWWWWWWWWWWWWWWWWWWWWAAAAAAAASSSSSSSSAAAAAAAAASSSSAAAAAAAAAAAWWWWWAAWWWWAWWWWWWWWWWWWWWWWW";

fn system_of(text: &str) -> System {
    System::new(Task::parse(9, text).unwrap()).unwrap()
}

fn replay(text: &str, solution: &str) -> usize {
    // Runs the log of a single agent without abilities over a fresh grid and reports how
    // many cells stay unpainted.
    let mut system = system_of(text);
    system.bots[0].mark_map(&mut system.map);
    for c in solution.chars() {
        let action = match c {
            'W' => Action::MoveUp,
            'S' => Action::MoveDown,
            'A' => Action::MoveLeft,
            'D' => Action::MoveRight,
            'E' => Action::TurnClockWise,
            'Q' => Action::TurnCounterClockWise,
            'Z' => Action::DoNothing,
            other => panic!("unexpected action {}", other),
        };
        if action.is_move() {
            let next = system.bots[0].pos_angle.apply_action(action);
            assert!(system.map.is_free(next.pos), "the log walks into a wall");
        }
        system.perform(0, action);
    }
    system.map.empty_cell_count
}

#[test]
fn system_test() {
    let mut system = System::new(Task::parse(1, ARENA_1).unwrap()).unwrap();
    assert_eq!(system.solve(), Ok(()));
    assert_eq!(system.map.empty_cell_count, 0);

    let mut system = System::new(Task::parse(2, ARENA_2).unwrap()).unwrap();
    assert_eq!(system.solve(), Ok(()));
    assert_eq!(system.map.empty_cell_count, 0);

    if let Some(text) = ARENA_21 {
        let mut system = System::new(Task::parse(21, text).unwrap()).unwrap();
        assert_eq!(system.solve(), Ok(()));
        assert_eq!(system.solution().score, 1313);
        assert_eq!(system.solution().solution, ARENA_21_LOG);
    }
}

#[test]
fn solving_paints_every_cell() {
    let mut system = system_of(ARENA_1);
    assert_eq!(system.map.empty_cell_count, 20);
    assert_eq!(system.solve(), Ok(()));
    assert_eq!(system.map.empty_cell_count, 0);
    for column in system.map.cells.iter() {
        for cell in column.iter() {
            assert!(*cell != Cell::Empty);
        }
    }
    let solution = system.solution();
    assert_eq!(solution.id, 9);
    assert_eq!(solution.score, system.bots[0].record.len());
    assert_eq!(solution.solution.len(), solution.score);
    assert_eq!(solution.solution, system.dump_record());
    assert_eq!(
        solution.filename,
        format!("prob-009-score-{:08}-ai-drill.sol", solution.score)
    );
    assert_eq!(replay(ARENA_1, &solution.solution), 0);
    // Solving is a function of the arena.
    let mut again = system_of(ARENA_1);
    assert_eq!(again.solve(), Ok(()));
    assert_eq!(again.solution().solution, solution.solution);
}

#[test]
fn solving_an_arena_with_obstacles_and_pickups() {
    let mut system = system_of(ARENA_2);
    let open_cells = system.map.empty_cell_count;
    assert_eq!(open_cells, 661);
    assert_eq!(system.solve(), Ok(()));
    assert_eq!(system.map.empty_cell_count, 0);
    for column in system.map.cells.iter() {
        for cell in column.iter() {
            assert!(*cell != Cell::Empty);
        }
    }
    let solution = system.solution();
    assert_eq!(solution.score, system.bots[0].record.len());
    assert!(solution.score > 100 && solution.score < open_cells);
    // The arms and the speed boosts are claimed; the drill is left alone, and without a
    // clone pickup so is the mystery cell.
    assert_eq!(system.booster_pos.entries.len(), 1);
    assert_eq!(system.booster_pos.get(Pos::new(17, 13)), Some(BoosterKind::Drill));
    assert!(!solution.solution.contains('L') && !solution.solution.contains('C'));
    assert_eq!(
        system.bots[0].manipulators.len(),
        4 + solution.solution.matches("B(").count()
    );
    assert_eq!(system.bots.len(), 1);
    let mut again = system_of(ARENA_2);
    assert_eq!(again.solve(), Ok(()));
    assert_eq!(again.dump_record(), solution.solution);
}

#[test]
fn solving_a_painted_grid_takes_no_turn() {
    let mut system = system_of("(0,0),(2,0),(2,1),(0,1)#(0,0)##");
    assert_eq!(system.solve(), Ok(()));
    assert_eq!(system.solution().score, 0);
    assert_eq!(system.solution().solution, "");
    assert_eq!(system.solution().filename, "prob-009-score-00000000-ai-drill.sol");
}

#[test]
fn the_count_never_grows_during_a_solve() {
    let mut system = system_of(ARENA_1);
    system.bots[0].mark_map(&mut system.map);
    let mut last = system.map.empty_cell_count;
    let mut turns = 0;
    while system.map.empty_cell_count != 0 {
        system.rebalance();
        let action = system.decide(0).unwrap();
        system.perform(0, action);
        let live = system
            .map
            .cells
            .iter()
            .map(|column| column.iter().filter(|c| **c == Cell::Empty).count())
            .sum::<usize>();
        assert_eq!(system.map.empty_cell_count, live);
        assert!(live <= last);
        last = live;
        turns += 1;
        assert_eq!(system.bots[0].record.len(), turns);
    }
}

#[test]
fn pickups_are_claimed_once() {
    let mut pool = Pool::new();
    pool.insert(Pos::new(1, 2), BoosterKind::Drill);
    pool.insert(Pos::new(3, 4), BoosterKind::Cloning);
    pool.insert(Pos::new(1, 2), BoosterKind::FastWheels);
    assert_eq!(pool.entries.len(), 2);
    assert_eq!(pool.get(Pos::new(1, 2)), Some(BoosterKind::FastWheels));
    assert!(pool.has_booster(BoosterKind::FastWheels));
    assert!(!pool.has_booster(BoosterKind::Drill));
    assert_eq!(pool.remove(Pos::new(1, 2)), Some(BoosterKind::FastWheels));
    assert_eq!(pool.remove(Pos::new(1, 2)), None);
    assert_eq!(pool.get(Pos::new(1, 2)), None);
    assert!(!pool.has_booster(BoosterKind::FastWheels));
    assert_eq!(pool.get(Pos::new(3, 4)), Some(BoosterKind::Cloning));
    assert_eq!(pool.remove(Pos::new(9, 9)), None);
    assert_eq!(pool.entries.len(), 1);
}

#[test]
fn the_engine_sorts_pickups() {
    let system = system_of("(0,0),(6,0),(6,3),(0,3)#(1,1)##B(0,0);X(5,2);F(3,1);X(4,0);C(3,1);R(2,2)");
    assert_eq!(system.bots.len(), 1);
    assert_eq!(system.bots[0].pos_angle, PosAngle::new(Pos::new(1, 1), Angle::A0));
    assert_eq!(system.mysterious_pos, vec![Pos::new(5, 2), Pos::new(4, 0)]);
    assert_eq!(system.booster_pos.get(Pos::new(0, 0)), Some(BoosterKind::ExtendManipulator));
    assert_eq!(system.booster_pos.get(Pos::new(3, 1)), Some(BoosterKind::Cloning));
    assert_eq!(system.booster_pos.get(Pos::new(2, 2)), Some(BoosterKind::Teleport));
    assert_eq!(system.booster_pos.get(Pos::new(5, 2)), None);
    assert!(system.has_booster(BoosterKind::Cloning));
    assert!(!system.has_booster(BoosterKind::FastWheels));
    assert!(!system.has_booster(BoosterKind::Mysterious));
}

#[test]
fn the_start_must_be_an_open_cell() {
    let made = |text: &str| System::new(Task::parse(1, text).unwrap()).err();
    assert_eq!(made("(0,0),(2,0),(2,2),(0,2)#(2,0)##"), Some(GridError::BadStart));
    assert_eq!(made("(0,0),(2,0),(2,2),(0,2)#(-1,0)##"), Some(GridError::BadStart));
    assert_eq!(
        made("(0,0),(3,0),(3,3),(0,3)#(1,1)#(1,1),(2,1),(2,2),(1,2)#"),
        Some(GridError::BadStart)
    );
    assert_eq!(made("(0,0),(2,2)#(0,0)##"), Some(GridError::BadEdge));
    assert_eq!(made("(0,0),(2,0),(2,2),(0,2)#(1,1)##"), None);
}

#[test]
fn a_clone_puts_a_fresh_agent_on_the_cell() {
    let mut system = system_of("(0,0),(6,0),(6,3),(0,3)#(1,1)##");
    system.perform(0, Action::MoveRight);
    system.perform(0, Action::AttachFastWheels);
    system.perform(0, Action::Cloning);
    assert_eq!(system.bots.len(), 2);
    let made = &system.bots[1];
    assert_eq!(made.pos_angle, PosAngle::new(Pos::new(2, 1), Angle::A0));
    assert_eq!(made.manipulators.len(), 4);
    let arms: Vec<PosDiff> = made.manipulators.iter().map(|m| m.posdiff).collect();
    assert_eq!(
        arms,
        vec![PosDiff::new(0, 0), PosDiff::new(1, 0), PosDiff::new(1, 1), PosDiff::new(1, -1)]
    );
    assert_eq!(made.fast_wheel_timer, 0);
    assert_eq!(made.drill_timer, 0);
    assert_eq!(made.order, None);
    assert!(made.record.is_empty());
    assert_eq!(
        system.bots[0].record,
        vec![Action::MoveRight, Action::AttachFastWheels, Action::Cloning]
    );
    assert_eq!(system.bots[0].fast_wheel_timer, 49);
    assert_eq!(system.dump_record(), "DFC#");
    system.perform(1, Action::MoveUp);
    assert_eq!(system.dump_record(), "DFC#W");
    assert_eq!(system.solution().score, 3);
}

#[test]
fn timers_run_down_and_speed_moves_twice() {
    let mut system = system_of("(0,0),(8,0),(8,1),(0,1)#(0,0)##");
    system.perform(0, Action::AttachFastWheels);
    assert_eq!(system.bots[0].fast_wheel_timer, 50);
    system.perform(0, Action::MoveRight);
    assert_eq!(system.bots[0].pos_angle.pos, Pos::new(2, 0));
    assert_eq!(system.bots[0].fast_wheel_timer, 49);
    system.perform(0, Action::AttachDrill);
    assert_eq!(system.bots[0].drill_timer, 30);
    assert_eq!(system.bots[0].fast_wheel_timer, 48);
    system.perform(0, Action::TurnClockWise);
    assert_eq!(system.bots[0].drill_timer, 29);
    assert_eq!(system.bots[0].fast_wheel_timer, 47);
    for _ in 0..47 {
        system.perform(0, Action::DoNothing);
    }
    assert_eq!(system.bots[0].fast_wheel_timer, 0);
    assert_eq!(system.bots[0].drill_timer, 0);
    system.perform(0, Action::MoveRight);
    assert_eq!(system.bots[0].pos_angle.pos, Pos::new(3, 0));
    // Under speed the cells on the way are painted too.
    assert_eq!(system.map.cells[1][0], Cell::Marked);
    assert_eq!(system.bots[0].record.len(), 52);
}

#[test]
fn an_agent_picks_up_speed() {
    let mut system = system_of("(0,0),(9,0),(9,2),(0,2)#(0,0)##F(2,0)");
    assert_eq!(system.solve(), Ok(()));
    assert_eq!(system.map.empty_cell_count, 0);
    let text = system.dump_record();
    assert!(text.starts_with("DDF"), "{}", text);
    assert_eq!(system.booster_pos.entries.len(), 0);
    assert_eq!(system.bots.len(), 1);
    assert!(system.bots[0].fast_wheel_timer > 0);
    assert_eq!(system.bots[0].fast_wheel_timer, 50 - (text.len() - 3));
}

#[test]
fn an_agent_picks_up_an_arm() {
    let mut system = system_of("(0,0),(9,0),(9,5),(0,5)#(0,2)##B(2,2)");
    assert_eq!(system.solve(), Ok(()));
    assert_eq!(system.map.empty_cell_count, 0);
    let text = system.dump_record();
    assert!(text.starts_with("DDB(1,2)"), "{}", text);
    assert_eq!(system.bots[0].manipulators.len(), 5);
    assert_eq!(system.bots[0].manipulators[4].posdiff, PosDiff::new(1, 2));
    assert_eq!(system.booster_pos.entries.len(), 0);
    assert_eq!(system.solution().score, system.bots[0].record.len());
    assert!(system.solution().solution.len() > system.solution().score);
}

#[test]
fn an_agent_clones_on_a_mystery_cell() {
    let mut system = system_of("(0,0),(12,0),(12,6),(0,6)#(0,0)##C(3,0);X(6,0)");
    assert_eq!(system.solve(), Ok(()));
    assert_eq!(system.map.empty_cell_count, 0);
    assert_eq!(system.bots.len(), 2);
    let text = system.dump_record();
    let logs: Vec<&str> = text.split('#').collect();
    assert_eq!(logs.len(), 2);
    assert!(logs[0].starts_with("DDDDDDC"), "{}", text);
    assert!(!logs[1].is_empty());
    assert_eq!(system.solution().score, logs[0].len().max(logs[1].len()));
    assert_eq!(system.mysterious_pos, vec![Pos::new(6, 0)]);
}

#[test]
fn every_agent_but_the_first_is_a_clone_that_was_logged() {
    let mut system = system_of("(0,0),(12,0),(12,6),(0,6)#(0,0)##C(3,0);X(6,0);C(0,3);C(9,5)");
    assert_eq!(system.solve(), Ok(()));
    let clones = system
        .bots
        .iter()
        .map(|bot| bot.record.iter().filter(|a| **a == Action::Cloning).count())
        .sum::<usize>();
    assert!(clones >= 1);
    assert_eq!(system.bots.len(), 1 + clones);
    assert_eq!(system.dump_record().matches('C').count(), clones);

    let mut plain = system_of(ARENA_1);
    assert_eq!(plain.solve(), Ok(()));
    assert_eq!(plain.bots.len(), 1);
    assert!(!plain.dump_record().contains('C'));
}

#[test]
fn a_claim_takes_one_pickup_and_sets_the_target() {
    let mut system = system_of("(0,0),(9,0),(9,5),(0,5)#(0,2)##B(2,2);L(1,2);B(7,4)");
    assert_eq!(system.bots[0].order, None);
    assert_eq!(system.decide(0), Ok(Action::MoveRight));
    assert_eq!(system.bots[0].order, Some(Order::MoveToExtendManipulator(Pos::new(2, 2))));
    assert_eq!(system.booster_pos.get(Pos::new(2, 2)), None);
    assert_eq!(system.booster_pos.get(Pos::new(1, 2)), Some(BoosterKind::Drill));
    assert_eq!(system.booster_pos.get(Pos::new(7, 4)), Some(BoosterKind::ExtendManipulator));
    assert_eq!(system.booster_pos.entries.len(), 2);
    // An agent with an order claims nothing more.
    assert_eq!(system.decide(0), Ok(Action::MoveRight));
    assert_eq!(system.booster_pos.entries.len(), 2);
    assert_eq!(system.bots[0].order, Some(Order::MoveToExtendManipulator(Pos::new(2, 2))));
}

#[test]
fn performing_clears_the_order_and_logs_one_action() {
    let mut system = system_of("(0,0),(9,0),(9,5),(0,5)#(0,2)##");
    let mut bot = Bot::new(Pos::new(0, 2));
    bot.order = Some(Order::DoFastWheels);
    bot.apply_action(Action::AttachFastWheels, &mut system.map, false);
    assert_eq!(bot.order, None);
    assert_eq!(bot.record, vec![Action::AttachFastWheels]);
    bot.order = Some(Order::DoDrill);
    bot.apply_action(Action::AttachDrill, &mut system.map, false);
    assert_eq!(bot.order, None);
    assert_eq!(bot.record.len(), 2);
    bot.order = Some(Order::DoClone);
    bot.apply_action(Action::Cloning, &mut system.map, false);
    assert_eq!(bot.order, None);
    bot.order = Some(Order::DoExtendManipulator);
    bot.apply_action(Action::ExtendManipulator(PosDiff::new(1, 2)), &mut system.map, false);
    assert_eq!(bot.order, None);
    assert_eq!(bot.record.len(), 4);
    // An idle agent stays idle, and the second half of a boosted move is not logged.
    bot.apply_action(Action::MoveRight, &mut system.map, false);
    assert_eq!(bot.order, None);
    assert_eq!(bot.record.len(), 5);
    bot.apply_action(Action::MoveRight, &mut system.map, true);
    assert_eq!(bot.order, None);
    assert_eq!(bot.record.len(), 5);
    assert_eq!(bot.pos_angle.pos, Pos::new(2, 2));
    // An agent on its way keeps its order until it arrives.
    bot.order = Some(Order::MoveToClone(Pos::new(4, 2)));
    bot.apply_action(Action::MoveRight, &mut system.map, false);
    assert_eq!(bot.order, Some(Order::MoveToClone(Pos::new(4, 2))));
    bot.apply_action(Action::MoveRight, &mut system.map, false);
    assert_eq!(bot.order, Some(Order::FindMysterious));
    bot.apply_action(Action::MoveRight, &mut system.map, false);
    assert_eq!(bot.order, Some(Order::FindMysterious));
}

#[test]
fn an_agent_without_a_way_is_stuck() {
    // A wall cuts the corridor in two, and no arm reaches over it.
    let mut system = system_of("(0,0),(6,0),(6,1),(0,1)#(0,0)#(2,0),(4,0),(4,1),(2,1)#");
    assert_eq!(system.solve(), Err(SolveError::Stuck));
    assert!(system.map.empty_cell_count > 0);
    assert_eq!(system.decide(0), Err(SolveError::Stuck));
    let mut ordered = system_of("(0,0),(6,0),(6,1),(0,1)#(0,0)#(2,0),(4,0),(4,1),(2,1)#");
    ordered.bots[0].order = Some(Order::MoveToDrill(Pos::new(5, 0)));
    assert_eq!(ordered.decide(0), Err(SolveError::NoRoute));
    ordered.bots[0].order = Some(Order::FindMysterious);
    assert_eq!(ordered.decide(0), Err(SolveError::NoRoute));
    ordered.bots[0].order = Some(Order::DoDrill);
    ordered.bots[0].drill_timer = usize::MAX - 29;
    assert_eq!(ordered.decide(0), Err(SolveError::Limit));
    ordered.bots[0].drill_timer = usize::MAX - 30;
    assert_eq!(ordered.decide(0), Ok(Action::AttachDrill));
    ordered.bots[0].order = Some(Order::DoFastWheels);
    ordered.bots[0].fast_wheel_timer = usize::MAX - 49;
    assert_eq!(ordered.decide(0), Err(SolveError::Limit));
    ordered.bots[0].order = Some(Order::DoClone);
    assert_eq!(ordered.decide(0), Ok(Action::Cloning));
    ordered.bots[0].order = Some(Order::DoExtendManipulator);
    assert_eq!(ordered.decide(0), Ok(Action::ExtendManipulator(PosDiff::new(1, 2))));
    // An idle agent that can reach nothing waits while its speed boost runs.
    ordered.bots[0].order = None;
    ordered.bots[0].drill_timer = 0;
    ordered.bots[0].fast_wheel_timer = 1;
    ordered.bots[0].mark_map(&mut ordered.map);
    assert_eq!(ordered.decide(0), Ok(Action::DoNothing));
}

#[test]
fn a_pickup_behind_a_wall_is_not_found() {
    let system = system_of("(0,0),(6,0),(6,1),(0,1)#(0,0)#(2,0),(4,0),(4,1),(2,1)#B(5,0)");
    let bot = Bot::new(Pos::new(0, 0));
    assert_eq!(
        system.find_booster(&bot, vec![BoosterKind::ExtendManipulator]).err(),
        Some(PickupError::NoRoute)
    );
    assert_eq!(
        system
            .find_booster_near(&bot, vec![BoosterKind::ExtendManipulator], 100)
            .err(),
        Some(PickupError::NoRoute)
    );
    assert_eq!(
        system.find_booster(&bot, vec![BoosterKind::Drill]).err(),
        Some(PickupError::Unavailable)
    );
    assert_eq!(system.find_booster(&bot, vec![]).err(), Some(PickupError::Unavailable));
}

#[test]
fn drills_and_teleports_stay_where_they_lie() {
    let mut system = system_of("(0,0),(7,0),(7,3),(0,3)#(0,0)##L(2,1);R(4,1);L(5,2)");
    assert_eq!(system.solve(), Ok(()));
    assert_eq!(system.map.empty_cell_count, 0);
    assert_eq!(system.booster_pos.entries.len(), 3);
    assert_eq!(system.booster_pos.get(Pos::new(2, 1)), Some(BoosterKind::Drill));
    assert_eq!(system.booster_pos.get(Pos::new(4, 1)), Some(BoosterKind::Teleport));
    assert_eq!(system.bots[0].drill_timer, 0);
    let text = system.dump_record();
    assert!(!text.contains('L') && !text.contains('R'), "{}", text);
}

#[test]
fn the_nearest_pose_to_paint_from_is_the_best_at_its_distance() {
    // From the middle of a painted cross, the four arms of the cross end at unpainted
    // cells; facing right, most arms can paint after a move to the right.
    let mut system = system_of("(0,0),(7,0),(7,7),(0,7)#(3,3)##");
    for x in 1..6 {
        for y in 1..6 {
            system.map.mark_pos(Pos::new(x, y));
        }
    }
    let bot = Bot::new(Pos::new(3, 3));
    let plan = find_mark_move(&system.map, &bot).unwrap();
    assert_eq!(plan.len, 2);
    assert_eq!(plan.first_action, Action::MoveRight);
    assert_eq!(plan.pos_angle, PosAngle::new(Pos::new(5, 3), Angle::A0));
    assert_eq!(plan.mark_number, 3);
    // No pose at distance one paints, and none at distance two paints more.
    for first in [
        Action::MoveUp,
        Action::MoveDown,
        Action::MoveLeft,
        Action::MoveRight,
        Action::TurnClockWise,
        Action::TurnCounterClockWise,
    ] {
        let one = bot.pos_angle.apply_action(first);
        assert_eq!(
            Bot::number_of_possible_mark_with_this_pos(one, &bot.manipulators, &system.map),
            0
        );
        for second in [
            Action::MoveUp,
            Action::MoveDown,
            Action::MoveLeft,
            Action::MoveRight,
            Action::TurnClockWise,
            Action::TurnCounterClockWise,
        ] {
            let two = one.apply_action(second);
            let marks = Bot::number_of_possible_mark_with_this_pos(two, &bot.manipulators, &system.map);
            let around = Bot::number_of_ajd_empty_cells_of_manipulators_with_this_pos(
                two,
                &bot.manipulators,
                &system.map,
            );
            assert!(
                marks < plan.mark_number
                    || (marks == plan.mark_number && around <= plan.adj_empty_number)
            );
        }
    }
}

#[test]
fn orders_go_to_the_nearer_idle_agent() {
    let mut system = system_of("(0,0),(9,0),(9,3),(0,3)#(0,0)##");
    system.bots.push(Bot::new(Pos::new(7, 1)));
    system.bots.push(Bot::new(Pos::new(4, 1)));
    system.bots[0].order = Some(Order::MoveToMysterious(Pos::new(8, 2)));
    assert_eq!(system.distance(Pos::new(0, 0), Pos::new(8, 2)), 10);
    assert_eq!(system.distance(Pos::new(8, 2), Pos::new(7, 1)), 2);
    assert_eq!(system.distance(Pos::new(-5, 3), Pos::new(-5, 3)), 0);
    assert_eq!(
        system.distance(Pos::new(i32::MIN, i32::MIN), Pos::new(i32::MAX, i32::MAX)),
        2 * (u32::MAX as u64)
    );
    // Not to an agent that is as far.
    system.order_swap(0, 0);
    assert_eq!(system.bots[0].order, Some(Order::MoveToMysterious(Pos::new(8, 2))));
    system.order_swap(1, 0);
    assert_eq!(system.bots[0].order, Some(Order::MoveToMysterious(Pos::new(8, 2))));
    system.order_swap(0, 2);
    assert_eq!(system.bots[0].order, None);
    assert_eq!(system.bots[2].order, Some(Order::MoveToMysterious(Pos::new(8, 2))));
    system.rebalance();
    assert_eq!(system.bots[2].order, None);
    assert_eq!(system.bots[1].order, Some(Order::MoveToMysterious(Pos::new(8, 2))));
    // Other orders stay where they are.
    system.bots[1].order = Some(Order::MoveToFastWheel(Pos::new(0, 0)));
    system.rebalance();
    assert_eq!(system.bots[1].order, Some(Order::MoveToFastWheel(Pos::new(0, 0))));
    assert_eq!(system.bots[0].order, None);
    system.bots[1].order = Some(Order::MoveToClone(Pos::new(0, 0)));
    system.rebalance();
    assert_eq!(system.bots[1].order, None);
    assert_eq!(system.bots[0].order, Some(Order::MoveToClone(Pos::new(0, 0))));
}

#[test]
fn the_distance_of_a_handover_ignores_walls() {
    // A wall stands between the idle agent and the target; it still counts as nearer.
    let mut system = system_of("(0,0),(7,0),(7,3),(0,3)#(0,0)#(3,0),(4,0),(4,2),(3,2)#");
    system.bots.push(Bot::new(Pos::new(2, 0)));
    system.bots[0].pos_angle = PosAngle::new(Pos::new(6, 2), Angle::A0);
    system.bots[0].order = Some(Order::MoveToMysterious(Pos::new(4, 0)));
    system.rebalance();
    assert_eq!(system.bots[0].order, None);
    assert_eq!(system.bots[1].order, Some(Order::MoveToMysterious(Pos::new(4, 0))));
}

#[test]
fn searches_for_cells() {
    // A wall of two cells stands in column 3, with a gap above it.
    let system = system_of("(0,0),(7,0),(7,3),(0,3)#(0,0)#(3,0),(4,0),(4,2),(3,2)#L(6,0);X(5,0)");
    let start = PosAngle::new(Pos::new(0, 0), Angle::A0);
    let find = |goal: Goal, drill: usize, fast: usize| {
        find_move_to(
            &system.map,
            &system.booster_pos,
            &system.mysterious_pos,
            start,
            drill,
            fast,
            &goal,
        )
    };
    let plan = find(Goal::At(Pos::new(4, 0)), 0, 0).unwrap();
    assert_eq!(plan.pos_angle.pos, Pos::new(4, 0));
    assert_eq!(plan.len, 8);
    assert_eq!(plan.first_action, Action::MoveUp);
    // With a drill the way leads through the wall.
    let plan = find(Goal::At(Pos::new(4, 0)), 4, 0).unwrap();
    assert_eq!(plan.len, 4);
    assert_eq!(plan.first_action, Action::MoveRight);
    let plan = find(Goal::At(Pos::new(4, 0)), 3, 0).unwrap();
    assert_eq!(plan.len, 4);
    // A drill of two turns has run out when the agent stands before the wall.
    let plan = find(Goal::At(Pos::new(4, 0)), 2, 0).unwrap();
    assert_eq!(plan.len, 8);
    // Under speed a move covers two cells.
    let plan = find(Goal::At(Pos::new(2, 0)), 0, 1).unwrap();
    assert_eq!((plan.len, plan.first_action), (1, Action::MoveRight));
    let plan = find(Goal::At(Pos::new(1, 0)), 0, 1).unwrap();
    assert_eq!((plan.len, plan.first_action), (2, Action::MoveRight));
    // An agent on its goal is sent away and back.
    let plan = find(Goal::At(Pos::new(0, 0)), 0, 0).unwrap();
    assert_eq!((plan.len, plan.first_action), (2, Action::MoveUp));
    assert_eq!(find(Goal::At(Pos::new(3, 0)), 0, 0), None);
    assert_eq!(find(Goal::At(Pos::new(9, 9)), 5, 5), None);
    let plan = find(Goal::Mystery, 0, 0).unwrap();
    assert_eq!((plan.pos_angle.pos, plan.len), (Pos::new(5, 0), 9));
    let plan = find(Goal::Pickup(vec![BoosterKind::Drill]), 0, 0).unwrap();
    assert_eq!((plan.pos_angle.pos, plan.len), (Pos::new(6, 0), 10));
    assert_eq!(find(Goal::Pickup(vec![BoosterKind::Cloning]), 0, 0), None);
    assert_eq!(find(Goal::Pickup(vec![]), 0, 0), None);

    let bot = Bot::new(Pos::new(0, 0));
    assert_eq!(
        system.find_booster(&bot, vec![BoosterKind::Cloning]).err(),
        Some(PickupError::Unavailable)
    );
    assert_eq!(
        system.find_booster_near(&bot, vec![BoosterKind::Drill], 9).err(),
        Some(PickupError::TooFar)
    );
    assert_eq!(system.find_booster_near(&bot, vec![BoosterKind::Drill], 10).unwrap().len, 10);
    assert_eq!(system.find_mysterious(&bot).unwrap().len, 9);
    assert_eq!(system.move_to_action(&bot, Pos::new(0, 2)), Some(Action::MoveUp));
    assert_eq!(system.move_to_action(&bot, Pos::new(3, 1)), None);
}

#[test]
fn a_drill_that_ends_under_speed_hides_a_nearer_cell() {
    // A corridor with a wall on cell 2. With speed and one turn of drilling the first move
    // to the right carries the agent over cell 1 and into the wall. Cell 1 is where the
    // agent stops once the drill is out: right, left, right. The search looks at each pose
    // once, at the depth at which it first comes to it, and so it does not find that way.
    let system = system_of("(0,0),(12,0),(12,1),(0,1)#(0,0)#(2,0),(3,0),(3,1),(2,1)#X(1,0);X(9,0)");
    let map = &system.map;
    let at = |x| PosAngle::new(Pos::new(x, 0), Angle::A0);
    assert_eq!(try_hop(map, 1, 50, at(0), 0, Action::MoveRight), Some(at(2)));
    assert_eq!(try_hop(map, 1, 50, at(2), 1, Action::MoveLeft), Some(at(0)));
    assert_eq!(try_hop(map, 1, 50, at(0), 2, Action::MoveRight), Some(at(1)));
    let find = |goal: Goal, drill: usize, fast: usize| {
        find_move_to(map, &system.booster_pos, &system.mysterious_pos, at(0), drill, fast, &goal)
    };
    assert_eq!(find(Goal::At(Pos::new(1, 0)), 1, 50), None);
    let plan = find(Goal::Mystery, 1, 50).unwrap();
    assert_eq!((plan.pos_angle.pos, plan.len), (Pos::new(9, 0), 6));
    // Without speed the drill changes nothing in this: the nearest cell is found.
    let plan = find(Goal::Mystery, 1, 0).unwrap();
    assert_eq!((plan.pos_angle.pos, plan.len, plan.first_action), (Pos::new(1, 0), 1, Action::MoveRight));
    // With a drill that outlasts the plan the search is exact under speed too: every move
    // then covers two cells, and the agent comes to cell 1 only by way of the far end.
    let plan = find(Goal::At(Pos::new(1, 0)), 50, 50).unwrap();
    assert_eq!((plan.len, plan.first_action), (11, Action::MoveRight));
}

#[test]
fn hops() {
    let system = system_of("(0,0),(7,0),(7,3),(0,3)#(0,0)#(3,0),(4,0),(4,2),(3,2)#");
    let map = &system.map;
    let at = |x, y| PosAngle::new(Pos::new(x, y), Angle::A0);
    assert_eq!(try_hop(map, 0, 0, at(1, 0), 0, Action::MoveRight), Some(at(2, 0)));
    assert_eq!(try_hop(map, 0, 0, at(2, 0), 0, Action::MoveRight), None);
    assert_eq!(try_hop(map, 1, 0, at(2, 0), 0, Action::MoveRight), Some(at(3, 0)));
    assert_eq!(try_hop(map, 1, 0, at(2, 0), 1, Action::MoveRight), None);
    assert_eq!(try_hop(map, 0, 1, at(0, 0), 0, Action::MoveRight), Some(at(2, 0)));
    assert_eq!(try_hop(map, 0, 1, at(0, 0), 1, Action::MoveRight), Some(at(1, 0)));
    assert_eq!(try_hop(map, 0, 1, at(1, 0), 0, Action::MoveRight), Some(at(2, 0)));
    assert_eq!(try_hop(map, 1, 1, at(1, 0), 0, Action::MoveRight), Some(at(3, 0)));
    assert_eq!(try_hop(map, 1, 1, at(5, 0), 0, Action::MoveRight), Some(at(6, 0)));
    assert_eq!(try_hop(map, 9, 9, at(6, 0), 0, Action::MoveRight), None);
    assert_eq!(try_hop(map, 0, 0, at(0, 0), 0, Action::MoveDown), None);
    assert_eq!(
        try_hop(map, 0, 9, at(0, 0), 0, Action::TurnClockWise),
        Some(PosAngle::new(Pos::new(0, 0), Angle::A90))
    );
}

#[test]
fn searches_for_a_pose_to_paint_from() {
    let mut system = system_of("(0,0),(7,0),(7,3),(0,3)#(0,0)#(3,0),(4,0),(4,2),(3,2)#");
    let bot = Bot::new(Pos::new(0, 0));
    // On a fresh grid the first move already finds cells to paint.
    let plan = find_mark_move(&system.map, &bot).unwrap();
    assert_eq!(plan.len, 1);
    assert!(plan.mark_number > 0);
    bot.mark_map(&mut system.map);
    let plan = find_mark_move(&system.map, &bot).unwrap();
    assert_eq!(plan.len, 1);
    assert_eq!(plan.first_action, Action::MoveUp);
    assert_eq!(plan.pos_angle, PosAngle::new(Pos::new(0, 1), Angle::A0));
    assert_eq!(plan.mark_number, 2);
    assert_eq!(plan.adj_empty_number, 4);
    // Paint all but the far corner: the agent has to walk around the wall.
    for x in 0..7 {
        for y in 0..3 {
            if !(x == 6 && y == 0) {
                system.map.mark_pos(Pos::new(x, y));
            }
        }
    }
    let plan = find_mark_move(&system.map, &bot).unwrap();
    assert_eq!(plan.first_action, Action::MoveUp);
    assert_eq!(plan.mark_number, 1);
    assert_eq!(plan.adj_empty_number, 0);
    assert_eq!(plan.len, 8);
    system.map.mark_pos(Pos::new(6, 0));
    assert_eq!(find_mark_move(&system.map, &bot), None);
}

#[test]
fn the_first_action_of_a_step() {
    let step = |x, y, len, prev_action, prev| MoveStep {
        pos_angle: PosAngle::new(Pos::new(x, y), Angle::A0),
        len,
        mark_number: 0,
        adj_empty_number: 0,
        prev_action,
        prev,
    };
    let nodes = vec![
        step(0, 0, 0, None, None),
        step(1, 0, 1, Some(Action::MoveRight), Some(0)),
        step(0, 1, 1, Some(Action::MoveUp), Some(0)),
        step(1, 1, 2, Some(Action::MoveUp), Some(1)),
        step(2, 1, 3, Some(Action::MoveRight), Some(3)),
        step(0, 2, 2, Some(Action::MoveUp), Some(2)),
    ];
    assert_eq!(MoveStep::first_action(&nodes, 1), Action::MoveRight);
    assert_eq!(MoveStep::first_action(&nodes, 2), Action::MoveUp);
    assert_eq!(MoveStep::first_action(&nodes, 3), Action::MoveRight);
    assert_eq!(MoveStep::first_action(&nodes, 4), Action::MoveRight);
    assert_eq!(MoveStep::first_action(&nodes, 5), Action::MoveUp);
}
