use sudoku::entity::SudokuMatrixValue;
use sudoku::rulers::gen_ruler_loop;

#[test]
fn test() {
    let sudoku_loop = gen_ruler_loop();

    println!("========= >>>>>> row <<<<<< =========");
    let row_ruler = sudoku_loop[0];
    for l in row_ruler.partitions.iter() {
        println!("{:?}", l);
    }

    println!("========= >>>>>> col <<<<<< =========");
    let col_ruler = sudoku_loop[1];
    for l in col_ruler.partitions.iter() {
        println!("{:?}", l);
    }

    println!("========= >>>>>> matrix <<<<<< =========");
    let mut matrix_value = SudokuMatrixValue::new();
    let matrix_ruler = sudoku_loop[2];
    for (i, l) in matrix_ruler.partitions.iter().enumerate() {
        for (x, y) in l {
            matrix_value.matrix[*x][*y] = i;
        }
    }
    for l in matrix_value.matrix.iter() {
        println!("{:?}", l);
    }
}
