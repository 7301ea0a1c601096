use automata::alphabet::Segmentation;
use automata::alphabet::EOF;
use automata::matrix::Matrix;
use automata::matrix::INVALID;

#[test]
fn splitting_and_lookup() {
    let mut alphabet = Segmentation::new();
    assert_eq!(alphabet.len(), 1);
    alphabet.insert(10, 20);
    alphabet.insert(15, 15);
    alphabet.insert(10, 20);
    let sealed = alphabet.seal();
    assert_eq!(sealed.len(), 5);
    assert_eq!(sealed.ranges(), vec![(0, 9), (10, 14), (15, 15), (16, 20), (21, EOF)]);
    assert_eq!(sealed.index_of_symbol(0), 0);
    assert_eq!(sealed.index_of_symbol(9), 0);
    assert_eq!(sealed.index_of_symbol(10), 1);
    assert_eq!(sealed.index_of_symbol(15), 2);
    assert_eq!(sealed.index_of_symbol(20), 3);
    assert_eq!(sealed.index_of_symbol(21), 4);
    assert_eq!(sealed.index_of_symbol(EOF), 4);
}

#[test]
fn range_up_to_the_largest_symbol() {
    let mut alphabet = Segmentation::new();
    alphabet.insert(5, EOF);
    let sealed = alphabet.seal();
    assert_eq!(sealed.ranges(), vec![(0, 4), (5, EOF)]);
    assert_eq!(sealed.index_of_symbol(EOF), 1);
    assert_eq!(sealed.division(1), 5);
}

#[test]
fn matrix_rows_grow_and_reads_outside_are_invalid() {
    let mut m = Matrix::new(0, 3);
    assert_eq!(m.rows(), 0);
    m.new_row();
    m.new_row();
    m.set(1, 2, 7);
    assert_eq!(m.rows(), 2);
    assert_eq!(m.columns(), 3);
    assert_eq!(m.get(1, 2), 7);
    assert_eq!(m.get(0, 2), INVALID);
    assert_eq!(m.get(2, 0), INVALID);
    assert_eq!(m.get(0, 3), INVALID);
    assert_eq!(Matrix::from_rows(vec![vec![1, 2], vec![3]]), None);
    assert_eq!(Matrix::from_rows(vec![vec![1, 2], vec![3, 4]]).unwrap().get(1, 0), 3);
}
