use tiny_renderer::geometry::Array;
use tiny_renderer::geometry::Matrix;

#[test]
fn test_mul() {
    let a1 = Array::from(vec![1., 2., 3.]);
    let rhs = Array::from(vec![3., 2., 1.]);
    let result = &a1 * &rhs;
    assert!(result.eq(&10.));
}

fn elems(a: &Array<i32>) -> Vec<i32> {
    (0..a.len()).map(|i| a.get(i)).collect()
}

#[test]
fn dot_of_integers() {
    let a = Array::from(vec![1i32, -2, 3]);
    let b = Array::from(vec![4i32, 5, 6]);
    assert_eq!(a.dot(&b), 12);
    assert_eq!(&a * &b, 12);
}

#[test]
fn dot_uses_left_length() {
    let a = Array::from(vec![2i32, 3]);
    let b = Array::from(vec![4i32, 5, 100]);
    assert_eq!(a.dot(&b), 23);
}

#[test]
fn elementwise_operators() {
    let a = Array::from(vec![1i32, 2, 3]);
    let b = Array::from(vec![10i32, 20, 30]);
    assert_eq!(elems(&(&a + &b)), vec![11, 22, 33]);
    assert_eq!(elems(&(&b - &a)), vec![9, 18, 27]);
    assert_eq!(elems(&(&a + 5)), vec![6, 7, 8]);
    assert_eq!(elems(&(&b / 10)), vec![1, 2, 3]);
    assert_eq!(elems(&a.add_elementwise(&b)), vec![11, 22, 33]);
    assert_eq!(elems(&b.sub_elementwise(&a)), vec![9, 18, 27]);
    assert_eq!(elems(&a.add_scalar(-1)), vec![0, 1, 2]);
    assert_eq!(elems(&Array::from(vec![7i32, -7]).div_scalar(2)), vec![3, -3]);
}

#[test]
fn cross_of_axes() {
    let x = Array::from(vec![1i32, 0, 0]);
    let y = Array::from(vec![0i32, 1, 0]);
    assert_eq!(elems(&x.cross(&y)), vec![0, 0, 1]);
    assert_eq!(elems(&y.cross(&x)), vec![0, 0, -1]);
    let a = Array::from(vec![1i32, 2, 3]);
    let b = Array::from(vec![3i32, 2, 1]);
    assert_eq!(elems(&a.cross(&b)), vec![-4, 8, -4]);
}

#[test]
fn new_is_default_filled() {
    let a: Array<i32> = Array::new(4);
    assert_eq!(elems(&a), vec![0, 0, 0, 0]);
    let e: Array<i32> = Array::with_capacity(10);
    assert_eq!(e.len(), 0);
}

#[test]
fn embed_pads_with_fill() {
    let shape: Array<i32> = Array::new(4);
    let v = Array::from(vec![5i32, 6]);
    assert_eq!(elems(&shape.embed(&v, 1)), vec![5, 6, 1, 1]);
    let short: Array<i32> = Array::new(1);
    assert_eq!(elems(&short.embed(&v, 1)), vec![5]);
}

#[test]
fn proj_takes_prefix() {
    let shape: Array<i32> = Array::new(2);
    let v = Array::from(vec![5i32, 6, 7]);
    assert_eq!(elems(&shape.proj(&v)), vec![5, 6]);
}

#[test]
fn set_and_get() {
    let mut a = Array::from(vec![1i32, 2, 3]);
    a.set(1, 9);
    assert_eq!(elems(&a), vec![1, 9, 3]);
    assert_eq!(a.get(2), 3);
    let c = a.clone();
    assert_eq!(elems(&c), vec![1, 9, 3]);
}

fn matrix(rows: &[&[i32]]) -> Matrix<i32> {
    let mut m = Matrix::new(rows.len(), rows[0].len());
    for (i, r) in rows.iter().enumerate() {
        for (j, v) in r.iter().enumerate() {
            m.set(i, j, *v);
        }
    }
    m
}

#[test]
fn matrix_identity_and_get() {
    let m: Matrix<i32> = Matrix::identity(4, 3, 7);
    for i in 0..4 {
        for j in 0..3 {
            assert_eq!(m.get(i, j), if i == j { 7 } else { 0 });
        }
    }
}

#[test]
fn matrix_columns() {
    let mut m = matrix(&[&[1, 2], &[3, 4], &[5, 6]]);
    assert_eq!(elems(&m.get_col(1)), vec![2, 4, 6]);
    m.set_col(0, Array::from(vec![7, 8, 9, 10]));
    assert_eq!(elems(&m.get_col(0)), vec![7, 8, 9]);
    assert_eq!(elems(&m.get_col(1)), vec![2, 4, 6]);
}

#[test]
fn matrix_product() {
    let a = matrix(&[&[1, 2], &[3, 4]]);
    let b = matrix(&[&[5, 6], &[7, 8]]);
    let p = &a * &b;
    assert_eq!(p.get(0, 0), 19);
    assert_eq!(p.get(0, 1), 22);
    assert_eq!(p.get(1, 0), 43);
    assert_eq!(p.get(1, 1), 50);
    let i: Matrix<i32> = Matrix::identity(2, 2, 1);
    let q = i.multiply(&a);
    assert_eq!((q.get(0, 0), q.get(0, 1), q.get(1, 0), q.get(1, 1)), (1, 2, 3, 4));
}

#[test]
fn matrix_product_non_square() {
    let a = matrix(&[&[1, 2, 3]]);
    let b = matrix(&[&[1], &[1], &[1]]);
    let p = a.multiply(&b);
    assert_eq!(p.get(0, 0), 6);
}

#[test]
fn matrix_to_array_divides_by_w() {
    let m = matrix(&[&[8], &[-4], &[6], &[2]]);
    assert_eq!(elems(&Matrix::to_array(m)), vec![4, -2, 3]);
}

#[test]
fn float_array_operators() {
    let a = Array::from(vec![1.5f32, 2.0]);
    let b = Array::from(vec![0.5f32, 1.0]);
    let s = &a + &b;
    assert_eq!((s.get(0), s.get(1)), (2.0, 3.0));
    assert_eq!(&a * &b, 2.75);
}
