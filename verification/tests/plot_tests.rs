use icfp2019::bot::Manipulator;
use icfp2019::geometry::PosDiff;

#[test]
fn plot_test() {
    assert_eq!(
        Manipulator::plot(PosDiff::new(0, 0)),
        vec![PosDiff::new(0, 0)]
    );
    assert_eq!(
        Manipulator::plot(PosDiff::new(1, 0)),
        vec![PosDiff::new(0, 0), PosDiff::new(1, 0)]
    );
    assert_eq!(
        Manipulator::plot(PosDiff::new(1, 0)),
        vec![PosDiff::new(0, 0), PosDiff::new(1, 0)]
    );
    assert_eq!(
        Manipulator::plot(PosDiff::new(-1, 0)),
        vec![PosDiff::new(0, 0), PosDiff::new(-1, 0)]
    );
    assert_eq!(
        Manipulator::plot(PosDiff::new(0, 1)),
        vec![PosDiff::new(0, 0), PosDiff::new(0, 1)]
    );
    assert_eq!(
        Manipulator::plot(PosDiff::new(0, -1)),
        vec![PosDiff::new(0, 0), PosDiff::new(0, -1)]
    );

    assert_eq!(
        Manipulator::plot(PosDiff::new(1, 1)),
        vec![PosDiff::new(0, 0), PosDiff::new(1, 1)]
    );

    assert_eq!(
        Manipulator::plot(PosDiff::new(3, 0)),
        vec![
            PosDiff::new(0, 0),
            PosDiff::new(1, 0),
            PosDiff::new(2, 0),
            PosDiff::new(3, 0)
        ]
    );

    assert_eq!(
        Manipulator::plot(PosDiff::new(2, 1)),
        vec![
            PosDiff::new(0, 0),
            PosDiff::new(1, 0),
            PosDiff::new(1, 1),
            PosDiff::new(2, 1)
        ]
    );

    assert_eq!(
        Manipulator::plot(PosDiff::new(3, 1)),
        vec![
            PosDiff::new(0, 0),
            PosDiff::new(1, 0),
            PosDiff::new(2, 1),
            PosDiff::new(3, 1)
        ]
    );
    assert_eq!(
        Manipulator::plot(PosDiff::new(4, 1)),
        vec![
            PosDiff::new(0, 0),
            PosDiff::new(1, 0),
            PosDiff::new(2, 0),
            PosDiff::new(2, 1),
            PosDiff::new(3, 1),
            PosDiff::new(4, 1)
        ]
    );

    assert_eq!(
        Manipulator::plot(PosDiff::new(2, -1)),
        vec![
            PosDiff::new(0, 0),
            PosDiff::new(1, 0),
            PosDiff::new(1, -1),
            PosDiff::new(2, -1)
        ]
    );

    assert_eq!(
        Manipulator::plot(PosDiff::new(-2, -1)),
        vec![
            PosDiff::new(0, 0),
            PosDiff::new(-1, 0),
            PosDiff::new(-1, -1),
            PosDiff::new(-2, -1)
        ]
    );

    assert_eq!(
        Manipulator::plot(PosDiff::new(-2, 1)),
        vec![
            PosDiff::new(0, 0),
            PosDiff::new(-1, 0),
            PosDiff::new(-1, 1),
            PosDiff::new(-2, 1)
        ]
    );

    assert_eq!(
        Manipulator::plot(PosDiff::new(2, 2)),
        vec![PosDiff::new(0, 0), PosDiff::new(1, 1), PosDiff::new(2, 2),]
    );
    assert_eq!(
        Manipulator::plot(PosDiff::new(3, 2)),
        vec![
            PosDiff::new(0, 0),
            PosDiff::new(1, 0),
            PosDiff::new(1, 1),
            PosDiff::new(2, 1),
            PosDiff::new(2, 2),
            PosDiff::new(3, 2)
        ]
    );
    assert_eq!(
        Manipulator::plot(PosDiff::new(6, 2)),
        vec![
            PosDiff::new(0, 0),
            PosDiff::new(1, 0),
            PosDiff::new(2, 1),
            PosDiff::new(3, 1),
            PosDiff::new(4, 1),
            PosDiff::new(5, 2),
            PosDiff::new(6, 2)
        ]
    );
    assert_eq!(
        Manipulator::plot(PosDiff::new(4, 3)),
        vec![
            PosDiff::new(0, 0),
            PosDiff::new(1, 0),
            PosDiff::new(1, 1),
            PosDiff::new(2, 1),
            PosDiff::new(2, 2),
            PosDiff::new(3, 2),
            PosDiff::new(3, 3),
            PosDiff::new(4, 3),
        ]
    );

    assert_eq!(
        Manipulator::plot(PosDiff::new(-3, 4)),
        vec![
            PosDiff::new(0, 0),
            PosDiff::new(0, 1),
            PosDiff::new(-1, 1),
            PosDiff::new(-1, 2),
            PosDiff::new(-2, 2),
            PosDiff::new(-2, 3),
            PosDiff::new(-3, 3),
            PosDiff::new(-3, 4),
        ]
    );
}
