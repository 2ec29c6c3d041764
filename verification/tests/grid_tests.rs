use icfp2019::fill::{check_tour, fill_tour, FillError};
use icfp2019::geometry::Pos;
use icfp2019::grid::{Cell, Grid, GridError};
use icfp2019::task::Task;

const ARENA_1: &str = "(0,0),(6,0),(6,1),(8,1),(8,2),(6,2),(6,3),(0,3)#(0,0)##";

const ARENA_2: &str = "(0,21),(2,21),(2,0),(16,0),(16,11),(20,11),(20,23),(21,23),(21,17),(24,17),(24,14),(29,14),(29,15),(34,15),(34,16),(36,16),(36,21),(35,21),(35,24),(34,24),(34,25),(36,25),(36,22),(39,22),(39,23),(42,23),(42,26),(39,26),(39,25),(38,25),(38,31),(36,31),(36,34),(33,34),(33,31),(34,31),(34,28),(30,28),(30,24),(32,24),(32,21),(33,21),(33,19),(34,19),(34,18),(31,18),(31,22),(28,22),(28,18),(29,18),(29,17),(27,17),(27,23),(26,23),(26,43),(14,43),(14,23),(16,23),(16,21),(6,21),(6,31),(0,31)#(0,21)#(6,11),(6,10),(8,10),(8,1),(11,1),(11,10),(12,10),(12,14),(15,14),(15,15),(12,15),(12,16),(10,16),(10,17),(9,17),(9,16),(6,16),(6,14),(5,14),(5,15),(4,15),(4,14),(3,14),(3,13),(6,13),(6,12),(3,12),(3,11);(16,27),(16,24),(17,24),(17,27),(18,27),(18,26),(19,26),(19,24),(21,24),(21,26),(24,26),(24,29),(25,29),(25,30),(24,30),(24,32),(22,32),(22,33),(25,33),(25,34),(24,34),(24,40),(23,40),(23,34),(22,34),(22,35),(21,35),(21,38),(20,38),(20,37),(16,37),(16,36),(20,36),(20,35),(19,35),(19,32),(18,32),(18,30),(17,30),(17,29),(18,29),(18,28),(15,28),(15,27)#F(5,6);B(5,8);X(9,19);F(13,19);F(14,4);B(16,18);L(17,13)";

fn grid_of(text: &str) -> Grid {
    Grid::new(Task::parse(2, text).unwrap()).unwrap()
}

fn count(map: &Grid, cell: Cell) -> usize {
    map.cells
        .iter()
        .map(|column| column.iter().filter(|c| **c == cell).count())
        .sum()
}

#[test]
fn map_test() {
    let task = Task::parse(2, ARENA_2).unwrap();
    let map = Grid::new(task).unwrap();
    assert_eq!(
        map.dump_map(),
        "##############............################
##############............################
##############............################
##############.........#..################
##############.........#..################
##############......#..#..################
##############..#####..#..################
##############......#..#..################
##############.....###.#..################
##############.....######.#######...######
##############.....###....#######...######
##############....######..#######...######
......########....######..########....####
......########...########.########....####
......########....######..########....####
......########.#########..####........####
......########..#.######..####........####
......########..#..##.....####........#...
......########..#..##.....####....##......
......########............######...#......
......##########....#......#####...#...###
O.....##########....#......#...#...#######
##..................#......#...##...######
##.......X...F......#......#...##...######
##..............B...#......#...###..######
##..................#......##.......######
##.......#..........####............######
##....######........####..........########
##..#.#########.....####.....#############
##.#########.....L..######################
##....######........######################
##.#########........######################
##....######....##########################
##......###.....##########################
##...B..###.....##########################
##......###.....##########################
##...F..###.....##########################
##......###.....##########################
##......###...F.##########################
##......###.....##########################
##......###.....##########################
##......###.....##########################
##..............##########################"
    );
}

#[test]
fn square_is_all_open() {
    let map = grid_of("(0,0),(4,0),(4,4),(0,4)#(0,0)##");
    assert_eq!(map.max_x, 4);
    assert_eq!(map.max_y, 4);
    assert_eq!(map.empty_cell_count, 16);
    assert_eq!(count(&map, Cell::Empty), 16);
    assert_eq!(count(&map, Cell::Wall), 0);
    for x in 0..4 {
        for y in 0..4 {
            assert!(map.is_empty(Pos::new(x, y)));
            assert!(map.is_free(Pos::new(x, y)));
            assert!(!map.is_wall(Pos::new(x, y)));
        }
    }
}

#[test]
fn arena_1_shape() {
    let map = grid_of(ARENA_1);
    assert_eq!(map.dump_map(), "......##\n........\nO.....##");
    assert_eq!(map.empty_cell_count, 20);
    assert_eq!(count(&map, Cell::Empty), 20);
    assert_eq!(count(&map, Cell::Wall), 4);
}

#[test]
fn obstacles_subtract() {
    let map = grid_of("(0,0),(5,0),(5,4),(0,4)#(0,0)#(1,1),(3,1),(3,3),(1,3);(4,0),(5,0),(5,1),(4,1)#");
    assert_eq!(map.dump_map(), ".....\n.##..\n.##..\nO...#");
    assert_eq!(map.empty_cell_count, 15);
    assert!(map.is_wall(Pos::new(1, 1)));
    assert!(map.is_wall(Pos::new(4, 0)));
    assert!(map.is_empty(Pos::new(3, 1)));
}

#[test]
fn count_matches_cells_on_arena_2() {
    let map = grid_of(ARENA_2);
    assert_eq!(map.max_x, 42);
    assert_eq!(map.max_y, 43);
    assert_eq!(map.empty_cell_count, count(&map, Cell::Empty));
    assert_eq!(count(&map, Cell::Marked), 0);
    assert_eq!(map.boosters.len(), 7);
    assert_eq!(map.bot_start_pos, Pos::new(0, 21));
}

#[test]
fn range_and_cell_queries() {
    let map = grid_of(ARENA_1);
    assert!(map.is_in_range(Pos::new(0, 0)));
    assert!(map.is_in_range(Pos::new(7, 2)));
    assert!(!map.is_in_range(Pos::new(8, 0)));
    assert!(!map.is_in_range(Pos::new(0, 3)));
    assert!(!map.is_in_range(Pos::new(-1, 0)));
    assert!(!map.is_in_range(Pos::new(0, -1)));
    assert!(map.is_wall(Pos::new(6, 0)));
    assert!(!map.is_wall(Pos::new(8, 0)));
    assert!(!map.is_free(Pos::new(8, 0)));
    assert!(!map.is_empty(Pos::new(-1, 1)));
    assert_eq!(map.probe(7, 1), Some(Cell::Empty));
    assert_eq!(map.probe(7, 0), Some(Cell::Wall));
    assert_eq!(map.probe(8, 1), None);
    assert_eq!(map.probe(i64::MAX, i64::MIN), None);
}

#[test]
fn marking_counts_each_cell_once() {
    let mut map = grid_of(ARENA_1);
    map.mark_pos(Pos::new(1, 1));
    assert_eq!(map.empty_cell_count, 19);
    assert!(!map.is_empty(Pos::new(1, 1)));
    assert!(map.is_free(Pos::new(1, 1)));
    map.mark_pos(Pos::new(1, 1));
    assert_eq!(map.empty_cell_count, 19);
    map.mark_pos(Pos::new(6, 0));
    assert!(map.is_wall(Pos::new(6, 0)));
    assert_eq!(map.empty_cell_count, 19);
    map.mark_pos(Pos::new(100, 100));
    map.mark_pos(Pos::new(-1, 0));
    assert_eq!(map.empty_cell_count, 19);
    assert_eq!(count(&map, Cell::Empty), 19);
    assert_eq!(count(&map, Cell::Marked), 1);
}

#[test]
fn drilling_opens_a_wall_without_counting() {
    let mut map = grid_of(ARENA_1);
    map.do_drill(Pos::new(6, 0));
    assert!(!map.is_wall(Pos::new(6, 0)));
    assert!(map.is_free(Pos::new(6, 0)));
    assert!(!map.is_empty(Pos::new(6, 0)));
    assert_eq!(map.empty_cell_count, 20);
    assert_eq!(map.cells[6][0], Cell::Marked);
}

#[test]
fn picture_shows_start_and_pickups() {
    let map = grid_of("(0,0),(4,0),(4,2),(0,2)#(1,0)##B(0,0);F(3,1);X(2,1);C(2,1)");
    assert_eq!(map.dump_map(), "..CF\nBO..");
    let mut map = map;
    map.mark_pos(Pos::new(3, 0));
    assert_eq!(map.dump_map(), "..CF\nBO.-");
}

#[test]
fn grid_errors() {
    let bad = |text: &str| Grid::new(Task::parse(1, text).unwrap()).err();
    assert_eq!(bad("#(0,0)##"), Some(GridError::EmptyBoundary));
    assert_eq!(bad("(0,0),(2,2),(0,2)#(0,0)##"), Some(GridError::BadEdge));
    assert_eq!(bad("(0,0)#(0,0)##"), Some(GridError::BadEdge));
    assert_eq!(bad("(0,0),(2,0),(2,0),(2,2),(0,2)#(0,0)##"), Some(GridError::BadEdge));
    assert_eq!(
        bad("(0,0),(2,0),(2,2),(0,2)#(0,0)#(0,0),(1,1)#"),
        Some(GridError::BadEdge)
    );
    // A boundary that runs clockwise has its inner side outside.
    assert_eq!(bad("(0,0),(0,2),(2,2),(2,0)#(0,0)##"), Some(GridError::OutOfBounds));
    // A boundary that is not closed by its last edge leaks.
    assert_eq!(bad("(0,0),(3,0),(3,3)#(0,0)##"), Some(GridError::BadEdge));
    assert_eq!(bad("(-1,0),(2,0),(2,2),(-1,2)#(0,0)##"), Some(GridError::OutOfBounds));
    assert_eq!(
        bad("(0,0),(2,0),(2,2),(0,2)#(0,0)#(1,1),(3,1),(3,2),(1,2)#"),
        Some(GridError::OutOfBounds)
    );
}

#[test]
fn fill_of_a_tour() {
    let tour = vec![Pos::new(1, 1), Pos::new(3, 1), Pos::new(3, 2), Pos::new(1, 2)];
    assert!(check_tour(&tour));
    let filled = fill_tour(&tour, 4, 3).ok().unwrap();
    for x in 0..4usize {
        for y in 0..3usize {
            assert_eq!(filled.get(x, y), (x == 1 || x == 2) && y == 1, "({}, {})", x, y);
        }
    }
    assert_eq!(fill_tour(&tour, 2, 3).err(), Some(FillError::OutOfBounds));
    assert_eq!(fill_tour(&tour, -1, 3).err(), Some(FillError::OutOfBounds));
    let empty: Vec<Pos> = vec![];
    assert!(fill_tour(&empty, 0, 0).is_ok());
    let diagonal = vec![Pos::new(0, 0), Pos::new(1, 1)];
    assert!(!check_tour(&diagonal));
    assert_eq!(fill_tour(&diagonal, 4, 4).err(), Some(FillError::BadEdge));
}

#[test]
fn fill_of_a_ring_shaped_tour() {
    // A corridor of width one around a block: the block stays outside.
    let tour = vec![
        Pos::new(0, 0),
        Pos::new(3, 0),
        Pos::new(3, 3),
        Pos::new(0, 3),
        Pos::new(0, 1),
        Pos::new(1, 1),
        Pos::new(1, 2),
        Pos::new(2, 2),
        Pos::new(2, 1),
        Pos::new(0, 1),
    ];
    let filled = fill_tour(&tour, 3, 3).ok().unwrap();
    for x in 0..3usize {
        for y in 0..3usize {
            assert_eq!(filled.get(x, y), !(x == 1 && y == 1), "({}, {})", x, y);
        }
    }
}
