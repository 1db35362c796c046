use ksq::{Matrix, Tree};

#[test]
fn matrix_dimensions() {
    let mut mat = Matrix::new();
    assert_eq!(16, mat.bits());
    assert_eq!(4, mat.side());

    mat.grow();
    assert_eq!(256, mat.bits());
    assert_eq!(16, mat.side());

    mat.grow();
    assert_eq!(4096, mat.bits());
    assert_eq!(64, mat.side());
}

#[test]
fn matrix_get_set_xy() {
    let mut mat = Matrix::new();
    mat.grow();
    mat.grow();
    mat.grow();

    let side = mat.side();

    for y in 0..side {
        for x in 0..side {
            assert!(!mat.get(x, y));
            mat.set(x, y);
            assert!(mat.get(x, y));
            mat.unset(x, y);
            assert!(!mat.get(x, y));
        }
    }
}

#[test]
fn matrix_get_set_xy_dirty() {
    let mut mat = Matrix::new();
    mat.grow();
    mat.grow();
    mat.grow();

    let side = mat.side();

    for y in 0..side {
        for x in 0..side {
            assert!(!mat.get(x, y));
            mat.set(x, y);
            assert!(mat.get(x, y));
        }
    }
}

#[test]
fn matrix_rows_follow_each_other_in_the_tree() {
    let mut mat = Matrix::new();
    mat.grow();
    mat.set(1, 2);
    mat.set(15, 15);
    let tree = mat.into_inner();
    assert!(tree.get(33));
    assert!(tree.get(255));
    assert_eq!(vec![33, 255], tree.iter_ones().collect());
}

#[test]
fn matrix_from_tree() {
    let mut mat = Matrix::from(Tree::from(&[2, 10]).unwrap());
    assert_eq!(256, mat.bits());
    assert_eq!(16, mat.side());
    assert!(mat.get(1, 1));
    assert!(mat.get(3, 1));
    assert!(!mat.get(1, 0));
    assert!(!mat.get(2, 1));
    mat.unset(1, 1);
    assert!(!mat.get(1, 1));
    assert_eq!(vec![2, 8], mat.into_inner().to_vec());
}
