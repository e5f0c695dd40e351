use std::cell::Cell;

use kollaps::matrix::{Matrix, SymMatrix};

#[derive(Copy, Clone, Debug)]
struct DataTest(bool);

impl DataTest {
    fn new(_: usize, _: usize) -> Self {
        DataTest(false)
    }
    fn set(&mut self, val: bool) {
        self.0 = val;
    }
}

fn create_matrix_with(size: usize, val: i32) -> SymMatrix<i32> {
    SymMatrix::new_fn(size, |_, _| val)
}

#[test]
fn matrix_create_matrix() {
    let m1 = create_matrix_with(4, 4);
    assert_eq!(m1.size(), 4);
    for i in 0..m1.size() {
        for j in 0..m1.size() {
            assert_eq!(m1.get(i, j), 4)
        }
    }
}

#[test]
fn matrix_grow_matrix() {
    let ori_val = 4;
    let new_val = 3;
    if ori_val == new_val {
        panic!("Must not have the same value")
    }
    let m1 = create_matrix_with(4, ori_val);
    let m2 = m1.grow_fn(2, |_, _| new_val);
    for i in 0..m2.size() {
        for j in 0..m2.size() {
            if i >= m1.size() || j >= m1.size() {
                assert_eq!(m2.get(i, j), new_val)
            } else {
                assert_eq!(m2.get(i, j), ori_val)
            }
        }
    }
}

#[test]
fn matrix_modify_matrix() {
    let mut m1 = SymMatrix::new_fn(4, DataTest::new);
    let mut cell = m1.get(2, 2);
    cell.set(true);
    m1.set(2, 2, cell);
    assert_eq!(m1.get(2, 2).0, true)
}

#[test]
fn matrix_remove_id() {
    let val = Cell::new(0);
    let m1 = SymMatrix::new_fn(4, |_, _| {
        val.set(val.get() + 1);
        val.get()
    });
    println!("Original {:?}", m1);

    let m2 = m1.remove_id(1);
    println!("Second {:?}", m2);
}

#[test]
fn integration_test_create_matrix() {
    let m1 = create_matrix_with(4, 4);
    assert_eq!(m1.size(), 4);
    for i in 0..m1.size() {
        for j in 0..m1.size() {
            assert_eq!(m1.get(i, j), 4)
        }
    }
}

#[test]
fn integration_test_grow_matrix() {
    let ori_val = 4;
    let new_val = 3;
    if ori_val == new_val {
        panic!("Must not have the same value")
    }
    let m1 = create_matrix_with(4, ori_val);
    let m2 = m1.grow_fn(2, |_, _| new_val);
    for i in 0..m2.size() {
        for j in 0..m2.size() {
            if i >= m1.size() || j >= m1.size() {
                assert_eq!(m2.get(i, j), new_val)
            } else {
                assert_eq!(m2.get(i, j), ori_val)
            }
        }
    }
}

#[test]
fn integration_test_modify_matrix() {
    let mut m1 = SymMatrix::new_fn(4, DataTest::new);
    let mut cell = m1.get(2, 2);
    cell.set(true);
    m1.set(2, 2, cell);
    assert_eq!(m1.get(2, 2).0, true)
}

#[test]
fn integration_test_remove_id() {
    let val = Cell::new(0);
    let m1 = SymMatrix::new_fn(4, |_, _| {
        val.set(val.get() + 1);
        val.get()
    });
    println!("Original {:?}", m1);

    let m2 = m1.remove_id(1);
    println!("Second {:?}", m2);
}

#[test]
fn symmatrix_fills_upper_triangle_row_by_row() {
    let val = Cell::new(0);
    let m = SymMatrix::new_fn(3, |_, _| {
        val.set(val.get() + 1);
        val.get()
    });
    // cells (0,0) (0,1) (0,2) (1,1) (1,2) (2,2) in that order
    assert_eq!(m.get(0, 0), 1);
    assert_eq!(m.get(0, 2), 3);
    assert_eq!(m.get(2, 0), 3);
    assert_eq!(m.get(1, 1), 4);
    assert_eq!(m.get(2, 1), 5);
    assert_eq!(m.get(2, 2), 6);
}

#[test]
fn symmatrix_set_is_symmetric() {
    let mut m = create_matrix_with(3, 0);
    m.set(0, 2, 7);
    assert_eq!(m.get(2, 0), 7);
    assert_eq!(m.get(0, 2), 7);
    assert_eq!(m.get(1, 2), 0);
}

#[test]
fn symmatrix_remove_id_drops_row_and_column() {
    let m = SymMatrix::new_fn(3, |r, c| (10 * r + c) as i32);
    let m2 = m.remove_id(1);
    assert_eq!(m2.size(), 2);
    assert_eq!(m2.get(0, 0), 0);
    assert_eq!(m2.get(0, 1), 2);
    assert_eq!(m2.get(1, 1), 22);
}

#[test]
fn matrix_set_and_grow() {
    let mut m = Matrix::new_fn(2, |r, c| (r * 2 + c) as u32);
    // a cell below the diagonal is read from its mirror above it
    assert_eq!(m.get(1, 0), 1);
    assert_eq!(m.get(1, 1), 3);
    m.set(1, 0, 9);
    assert_eq!(m.get(1, 0), 9);
    assert_eq!(m.get(0, 1), 9);
    let g = m.grow_fn(1, |_, _| 5);
    assert_eq!(g.size(), 3);
    assert_eq!(g.get(1, 0), 9);
    assert_eq!(g.get(2, 2), 5);
    assert_eq!(g.get(0, 2), 5);
}

#[test]
fn symmatrix_grow_then_remove_last_gives_it_back() {
    let m = SymMatrix::new_fn(3, |r, c| (10 * r + c) as i32);
    let g = m.grow_fn(1, |_, _| -1);
    assert_eq!(g.size(), 4);
    let back = g.remove_id(3);
    assert_eq!(back.size(), 3);
    for r in 0..3 {
        for c in 0..3 {
            assert_eq!(back.get(r, c), m.get(r, c));
        }
    }
}
