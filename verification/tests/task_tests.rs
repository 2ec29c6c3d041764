use icfp2019::geometry::Pos;
use icfp2019::task::{Booster, BoosterKind, ParseError, Task};

#[test]
fn pase_tour_test() {
    assert_eq!(
        Task::parse_tour("(0,0),(10,0),(10,10),(0,10)"),
        Ok(vec![
            Pos::new(0, 0),
            Pos::new(10, 0),
            Pos::new(10, 10),
            Pos::new(0, 10)
        ])
    );
}

#[test]
fn pase_pos_test() {
    assert_eq!(Task::parse_pos("(0,1)"), Ok(Pos::new(0, 1)),);
}

#[test]
fn pase_obstables_test() {
    assert_eq!(
        Task::parse_obstacles("(4,2),(6,2);(0,1)"),
        Ok(vec![vec![Pos::new(4, 2), Pos::new(6, 2)], vec![Pos::new(0, 1)]])
    );
}

#[test]
fn pase_booster_test() {
    assert_eq!(
        Task::parse_booster("F(4,2)"),
        Ok(Booster {
            pos: Pos::new(4, 2),
            kind: BoosterKind::FastWheels,
        })
    );
}

#[test]
fn pase_boosters_test() {
    assert_eq!(
        Task::parse_boosters("F(4,2);B(0,1)"),
        Ok(vec![
            Booster {
                pos: Pos::new(4, 2),
                kind: BoosterKind::FastWheels,
            },
            Booster {
                pos: Pos::new(0, 1),
                kind: BoosterKind::ExtendManipulator,
            }
        ])
    );

    assert_eq!(Task::parse_boosters(""), Ok(vec![]));
}

const ARENA_1: &str = "(0,0),(6,0),(6,1),(8,1),(8,2),(6,2),(6,3),(0,3)#(0,0)##";

#[test]
fn read_task_1_test() {
    let task = Task::parse(1, ARENA_1).unwrap();
    assert_eq!(task.max_x(), 8);
    assert_eq!(task.max_y(), 3);
}

#[test]
fn parse_task_fields() {
    let task = Task::parse(
        7,
        "(0,0),(10,0),(10,10),(0,10)#(0,0)#(4,2),(6,2),(6,7),(4,7);(5,8),(6,8),(6,9),(5,9)#B(0,1);B(1,1);F(0,2);F(1,2);L(0,3);X(0,9)",
    )
    .unwrap();
    assert_eq!(task.id, 7);
    assert_eq!(task.map.len(), 4);
    assert_eq!(task.bot, Pos::new(0, 0));
    assert_eq!(task.obstacles.len(), 2);
    assert_eq!(task.obstacles[1][2], Pos::new(6, 9));
    assert_eq!(task.boosters.len(), 6);
    assert_eq!(
        task.boosters[5],
        Booster {
            pos: Pos::new(0, 9),
            kind: BoosterKind::Mysterious
        }
    );
    assert_eq!(task.boosters[4].kind, BoosterKind::Drill);
}

#[test]
fn parse_signed_numbers() {
    assert_eq!(Task::parse_pos("(-3,+4)"), Ok(Pos::new(-3, 4)));
    assert_eq!(Task::parse_pos("(007,-0)"), Ok(Pos::new(7, 0)));
    assert_eq!(
        Task::parse_pos("(2147483647,-2147483648)"),
        Ok(Pos::new(i32::MAX, i32::MIN))
    );
    assert_eq!(Task::parse_pos("(2147483648,0)"), Err(ParseError::Position));
    assert_eq!(Task::parse_pos("(0,-2147483649)"), Err(ParseError::Position));
    assert_eq!(
        Task::parse_pos("(99999999999999999999999,0)"),
        Err(ParseError::Position)
    );
}

#[test]
fn parse_rejects_malformed_text() {
    assert_eq!(Task::parse_pos(""), Err(ParseError::Position));
    assert_eq!(Task::parse_pos("(1,2"), Err(ParseError::Position));
    assert_eq!(Task::parse_pos("[1,2]"), Err(ParseError::Position));
    assert_eq!(Task::parse_pos("(1,2,3)"), Err(ParseError::Position));
    assert_eq!(Task::parse_pos("(1, 2)"), Err(ParseError::Position));
    assert_eq!(Task::parse_pos("(,2)"), Err(ParseError::Position));
    assert_eq!(Task::parse_pos("(-,2)"), Err(ParseError::Position));
    assert_eq!(Task::parse_tour("(1,2),"), Err(ParseError::Tour));
    assert_eq!(Task::parse_tour("(1,2)(3,4)"), Err(ParseError::Tour));
    assert_eq!(Task::parse_tour("(1,2);(3,4)"), Err(ParseError::Tour));
    assert_eq!(Task::parse_tour(""), Ok(vec![]));
    assert_eq!(Task::parse_obstacles(""), Ok(vec![]));
    assert_eq!(Task::parse_obstacles("(1,2);;(3,4)"), Ok(vec![vec![Pos::new(1, 2)], vec![], vec![Pos::new(3, 4)]]));
    assert_eq!(Task::parse_obstacles("(1,2);x"), Err(ParseError::Obstacles));
    assert_eq!(Task::parse_booster(""), Err(ParseError::Boosters));
    assert_eq!(Task::parse_booster("Q(1,2)"), Err(ParseError::Boosters));
    assert_eq!(Task::parse_booster("F1,2"), Err(ParseError::Boosters));
    assert_eq!(Task::parse_boosters("F(1,2);"), Err(ParseError::Boosters));
}

#[test]
fn parse_task_errors_by_field() {
    assert_eq!(Task::parse(1, "").err(), Some(ParseError::FieldCount));
    assert_eq!(Task::parse(1, "(0,0)#(0,0)#").err(), Some(ParseError::FieldCount));
    assert_eq!(Task::parse(1, "a#b#c#d#e").err(), Some(ParseError::FieldCount));
    assert_eq!(Task::parse(1, "(0,0#(0,0)##").err(), Some(ParseError::Tour));
    assert_eq!(Task::parse(1, "(0,0),(1,0)#0,0##").err(), Some(ParseError::Position));
    assert_eq!(Task::parse(1, "(0,0),(1,0)#(0,0)#(1#").err(), Some(ParseError::Obstacles));
    assert_eq!(Task::parse(1, "(0,0),(1,0)#(0,0)##Z(1,1)").err(), Some(ParseError::Boosters));
    assert!(Task::parse(1, "#(0,0)##").is_ok());
}

#[test]
fn booster_letters() {
    let kinds = [
        (BoosterKind::ExtendManipulator, 'B'),
        (BoosterKind::FastWheels, 'F'),
        (BoosterKind::Drill, 'L'),
        (BoosterKind::Mysterious, 'X'),
        (BoosterKind::Teleport, 'R'),
        (BoosterKind::Cloning, 'C'),
    ];
    for (kind, letter) in kinds.iter() {
        assert_eq!(BoosterKind::from_char(*letter), Some(*kind));
        assert_eq!(kind.to_char(), *letter);
        assert_eq!(kind.to_string(), format!("{}\n", letter));
    }
    assert_eq!(BoosterKind::from_char('b'), None);
    assert_eq!(BoosterKind::from_char('#'), None);
}
