use rust_life::board::Cell;
use rust_life::loader::RleLoader;
use rust_life::point::Point;

#[test]
fn test_parsing_simple_file() {
    let string = "x = 3, y = 4\nbo$2bo$3o!";
    let loader = RleLoader::from_string(string).unwrap();
    assert_eq!(loader.width, 3);
    assert_eq!(loader.height, 4);
    let board = loader.board;
    assert_eq!(board.num_living(), 5);
    assert_eq!(board.get_cell(Point::new(0, 2)), Cell::Alive);
    assert_eq!(board.get_cell(Point::new(1, 2)), Cell::Alive);
    assert_eq!(board.get_cell(Point::new(2, 2)), Cell::Alive);
    assert_eq!(board.get_cell(Point::new(1, 0)), Cell::Alive);
    assert_eq!(board.get_cell(Point::new(2, 1)), Cell::Alive);
}

#[test]
fn test_parsing_gosper_gun() {
    let string = "
#N Gosper glider gun
#O Bill Gosper
#C A true period 30 glider gun.
#C The first known gun and the first known finite pattern with unbounded growth.
#C www.conwaylife.com/wiki/index.php?title=Gosper_glider_gun
x = 36, y = 9, rule = B3/S23
24bo11b$22bobo11b$12b2o6b2o12b2o$11bo3bo4b2o12b2o$2o8bo5bo3b2o14b$2o8b
o3bob2o4bobo11b$10bo5bo7bo11b$11bo3bo20b$12b2o!";
    let loader = RleLoader::from_string(string).unwrap();
    assert_eq!(loader.board.num_living(), 36);
}
