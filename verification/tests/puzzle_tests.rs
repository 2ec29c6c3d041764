use icfp2019::geometry::Pos;
use icfp2019::puzzle::Puzzle;
use icfp2019::task::ParseError;

#[test]
fn puzzle_dump_test() {
    let puzzle = "1,1,150,400,1200,6,10,5,1,3,4#(73,61),(49,125),(73,110),(98,49),(126,89),(68,102),(51,132),(101,123),(22,132),(71,120),(97,129),(118,76),(85,100),(88,22),(84,144),(93,110),(96,93),(113,138),(91,52),(27,128),(84,140),(93,143),(83,17),(123,85),(50,74),(139,97),(101,110),(77,56),(86,23),(117,59),(133,126),(83,135),(76,90),(70,12),(12,141),(116,87),(102,76),(19,138),(86,129),(86,128),(83,60),(100,98),(60,105),(61,103),(94,99),(130,124),(141,132),(68,84),(86,143),(72,119)#(145,82),(20,65),(138,99),(38,137),(85,8),(125,104),(117,48),(57,48),(64,119),(3,25),(40,22),(82,54),(121,119),(1,34),(43,98),(97,120),(10,90),(15,32),(41,13),(86,40),(3,83),(2,127),(4,40),(139,18),(96,49),(53,22),(5,103),(112,33),(38,47),(16,121),(133,99),(113,45),(50,5),(94,144),(16,0),(93,113),(18,141),(36,25),(56,120),(3,126),(143,144),(99,62),(144,117),(48,97),(69,9),(0,9),(141,16),(55,68),(81,3),(47,53)";

    let _a = Puzzle::parse(puzzle).unwrap().dump_map();
}

#[test]
fn puzzle_extent_and_squares() {
    let p = Puzzle::parse("1,2,3#(1,2),(5,0)#(3,7)").unwrap();
    assert_eq!(p.i_sqs, vec![Pos::new(1, 2), Pos::new(5, 0)]);
    assert_eq!(p.o_sqs, vec![Pos::new(3, 7)]);
    assert_eq!(p.max_x, 6);
    assert_eq!(p.max_y, 8);
    assert_eq!(p.b_num, 0);
    assert_eq!(p.x_num, 0);
}

#[test]
fn puzzle_picture() {
    let p = Puzzle::parse("#(0,0),(2,1)#(1,1),(2,1)").unwrap();
    assert_eq!(p.max_x, 3);
    assert_eq!(p.max_y, 2);
    assert_eq!(p.dump_map(), " xx\no  ");
}

#[test]
fn puzzle_errors() {
    assert_eq!(Puzzle::parse("1,2,3").err(), Some(ParseError::FieldCount));
    assert_eq!(Puzzle::parse("1#(1,2)").err(), Some(ParseError::FieldCount));
    assert_eq!(Puzzle::parse("1#(1,2#").err(), Some(ParseError::Tour));
    assert_eq!(Puzzle::parse("1##(1;2)").err(), Some(ParseError::Tour));
    assert_eq!(Puzzle::parse("1##").err(), Some(ParseError::NoPoints));
    assert_eq!(Puzzle::parse("1#(2147483647,0)#").err(), Some(ParseError::Overflow));
    assert_eq!(Puzzle::parse("1##(0,2147483647)").err(), Some(ParseError::Overflow));
    assert!(Puzzle::parse("1#(2147483646,0)##ignored").is_ok());
}
