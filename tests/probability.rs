use sudoku::probability::{ProbabilyMap, ValueMap};
use sudoku::rulers::init;

#[test]
fn test_probabily() {
    let map = ValueMap {
        value: [
            [0, 0, 0, 0, 1, 0, 0, 0, 0],
            [0, 0, 0, 0, 1, 0, 0, 0, 0],
            [0, 0, 0, 0, 1, 0, 0, 0, 0],
            [0, 0, 0, 0, 1, 0, 0, 0, 0],
            [0, 0, 0, 1, 1, 0, 0, 0, 0],
            [1, 1, 1, 1, 1, 1, 1, 0, 0],
            [0, 0, 0, 0, 1, 0, 0, 0, 0],
            [0, 0, 0, 0, 1, 0, 0, 0, 0],
            [0, 0, 0, 0, 1, 0, 0, 0, 0],
        ],
    };

    init();
    let pmap: ProbabilyMap = map.into();
    assert_eq!(
        pmap,
        ProbabilyMap {
            value: [
                [2, 2, 2, 6, 0, 5, 2, 1, 1],
                [2, 2, 2, 6, 0, 5, 2, 1, 1],
                [2, 2, 2, 6, 0, 5, 2, 1, 1],
                [5, 5, 5, 9, 0, 8, 3, 2, 2],
                [6, 6, 6, 0, 0, 9, 4, 3, 3],
                [0, 0, 0, 0, 0, 0, 0, 8, 8],
                [2, 2, 2, 6, 0, 5, 2, 1, 1],
                [2, 2, 2, 6, 0, 5, 2, 1, 1],
                [2, 2, 2, 6, 0, 5, 2, 1, 1],
            ]
        }
    );

    let (x, y) = pmap.find_most_probabily();
    assert_eq!(x, 3);
    assert_eq!(y, 3);
}

#[test]
fn test_xx() {
    let map = ValueMap {
        value: [
            [0, 0, 0, 1, 0, 4, 0, 0, 0],
            [0, 0, 1, 0, 0, 0, 9, 0, 0],
            [0, 9, 0, 7, 0, 3, 0, 6, 0],
            [8, 0, 7, 0, 0, 0, 1, 0, 6],
            [0, 0, 0, 0, 0, 0, 0, 0, 0],
            [3, 0, 4, 0, 0, 0, 5, 0, 9],
            [0, 5, 0, 4, 0, 2, 0, 3, 0],
            [0, 0, 8, 0, 0, 0, 6, 0, 0],
            [0, 0, 0, 8, 0, 6, 0, 0, 0],
        ],
    };

    init();
    let pmap: ProbabilyMap = map.into();
    for ll in pmap.value.iter() {
        println!("{:?}", ll);
    }

    println!("{:?}", pmap.find_most_probabily());
}
