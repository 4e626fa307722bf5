use candle::tensor::error::TensorError;
use candle::tensor::Tensor;

fn values(t: &Tensor<f32>) -> Vec<f32> {
    t.to_values()
}

#[test]
fn test_scalar_and_from() {
    let s = Tensor::scalar(5.0f32);
    assert_eq!(s.layout().shape().len(), 0);
    assert_eq!(values(&s), vec![5.0]);

    let v = Tensor::from(vec![1.0f32, 2.0, 3.0]);
    assert_eq!(v.layout().shape(), &[3]);
    assert_eq!(values(&v), vec![1.0, 2.0, 3.0]);
}

#[test]
fn test_shaped_mismatch() {
    let r = Tensor::<f32>::shaped(&[2, 3], &[1.0, 2.0, 3.0, 4.0]);
    match r {
        Err(TensorError::IncompatibleShapes(a, b)) => {
            assert_eq!(a, vec![2, 3]);
            assert_eq!(b, vec![4]);
        },
        _ => panic!("expected a shape error"),
    }
}

#[test]
fn test_get_and_at() {
    let t = Tensor::<f32>::shaped(&[2, 3], &[1.0, 2.0, 3.0, 4.0, 5.0, 6.0]).unwrap();
    assert_eq!(t.get(&[0, 0]), 1.0);
    assert_eq!(t.get(&[1, 2]), 6.0);
    assert_eq!(t.at(3), 4.0);
}

#[test]
fn test_map() {
    let t = Tensor::<f32>::shaped(&[2, 2], &[1.0, 2.0, 3.0, 4.0]).unwrap();
    let d = t.map(|x| x * 2.0);
    assert_eq!(d.layout().shape(), &[2, 2]);
    assert_eq!(values(&d), vec![2.0, 4.0, 6.0, 8.0]);
}

#[test]
fn test_broadcast_add() {
    let a = Tensor::<f32>::shaped(&[3, 1], &[1.0, 2.0, 3.0]).unwrap();
    let b = Tensor::<f32>::shaped(&[1, 4], &[10.0, 20.0, 30.0, 40.0]).unwrap();
    let c = a.zip(&b, |x, y| x + y).unwrap();
    assert_eq!(c.layout().shape(), &[3, 4]);
    assert_eq!(
        values(&c),
        vec![11.0, 21.0, 31.0, 41.0, 12.0, 22.0, 32.0, 42.0, 13.0, 23.0, 33.0, 43.0]
    );
}

#[test]
fn test_zip_shape_mismatch() {
    let a = Tensor::<f32>::shaped(&[2, 3], &[0.0; 6]).unwrap();
    let b = Tensor::<f32>::shaped(&[4, 5], &[0.0; 20]).unwrap();
    match a.zip(&b, |x, y| x + y) {
        Err(TensorError::IncompatibleShapes(x, y)) => {
            assert_eq!(x, vec![2, 3]);
            assert_eq!(y, vec![4, 5]);
        },
        _ => panic!("expected a shape error"),
    }
}

#[test]
fn test_sum_product_all_dims() {
    let t = Tensor::<f32>::shaped(&[2, 2], &[1.0, 2.0, 3.0, 4.0]).unwrap();
    let s = t.reduce(&[0, 1], 0.0, |x, y| x + y).unwrap();
    assert_eq!(s.layout().shape(), &[1, 1]);
    let s0 = s.squeeze();
    assert_eq!(s0.layout().shape().len(), 0);
    assert_eq!(values(&s0), vec![10.0]);

    let p = t.reduce(&[0, 1], 1.0, |x, y| x * y).unwrap();
    let p0 = p.squeeze();
    assert_eq!(p0.layout().shape().len(), 0);
    assert_eq!(values(&p0), vec![24.0]);
}

#[test]
fn test_reduce_one_dim() {
    let t = Tensor::<f32>::shaped(&[2, 3], &[1.0, 2.0, 3.0, 4.0, 5.0, 6.0]).unwrap();
    let s = t.reduce(&[0], 0.0, |x, y| x + y).unwrap();
    assert_eq!(s.layout().shape(), &[1, 3]);
    assert_eq!(values(&s), vec![5.0, 7.0, 9.0]);
    let s = t.reduce(&[1], 0.0, |x, y| x + y).unwrap();
    assert_eq!(s.layout().shape(), &[2, 1]);
    assert_eq!(values(&s), vec![6.0, 15.0]);
    assert!(t.reduce(&[2], 0.0, |x, y| x + y).is_err());
}

#[test]
fn test_transpose_twice_is_identity() {
    let t = Tensor::<f32>::shaped(&[2, 3], &[1.0, 2.0, 3.0, 4.0, 5.0, 6.0]).unwrap();
    let once = t.transpose(0, 1).unwrap();
    assert_eq!(once.layout().shape(), &[3, 2]);
    assert_eq!(values(&once), vec![1.0, 4.0, 2.0, 5.0, 3.0, 6.0]);
    let twice = once.transpose(0, 1).unwrap();
    assert_eq!(twice.layout().shape(), t.layout().shape());
    assert_eq!(twice.layout().strides(), t.layout().strides());
    assert_eq!(values(&twice), values(&t));
}

#[test]
fn test_permute_tensor() {
    let t = Tensor::<f32>::shaped(&[2, 3], &[1.0, 2.0, 3.0, 4.0, 5.0, 6.0]).unwrap();
    let p = t.permute(&[1, 0]).unwrap();
    assert_eq!(p.layout().shape(), &[3, 2]);
    assert_eq!(values(&p), vec![1.0, 4.0, 2.0, 5.0, 3.0, 6.0]);
    assert!(t.permute(&[1, 1]).is_err());
}

#[test]
fn test_reshape_round_trip() {
    let t = Tensor::<f32>::shaped(&[2, 3], &[1.0, 2.0, 3.0, 4.0, 5.0, 6.0]).unwrap();
    let back = t.reshape(&[3, 2]).unwrap().reshape(&[2, 3]).unwrap();
    assert_eq!(back.layout().shape(), &[2, 3]);
    assert_eq!(values(&back), values(&t));

    // A transposed view is not contiguous, so the first reshape must copy;
    // the logical elements still survive the round trip.
    let v = t.transpose(0, 1).unwrap();
    let back = v.reshape(&[6]).unwrap().reshape(&[3, 2]).unwrap();
    assert_eq!(back.layout().shape(), &[3, 2]);
    assert_eq!(values(&back), values(&v));

    match t.reshape(&[7]) {
        Err(TensorError::IncompatibleShapes(a, b)) => {
            assert_eq!(a, vec![2, 3]);
            assert_eq!(b, vec![7]);
        },
        _ => panic!("expected a shape error"),
    }
}

#[test]
fn test_matmul_two_by_three() {
    let a = Tensor::<f32>::shaped(&[2, 3], &[1.0, 2.0, 3.0, 4.0, 5.0, 6.0]).unwrap();
    let b = Tensor::<f32>::shaped(&[3, 2], &[7.0, 8.0, 9.0, 10.0, 11.0, 12.0]).unwrap();
    let c = a.matmul(&b, 0.0, |x, y| x + y, |x, y| x * y).unwrap();
    assert_eq!(c.layout().shape(), &[2, 2]);
    assert_eq!(values(&c), vec![58.0, 64.0, 139.0, 154.0]);
}

#[test]
fn test_matmul_vector_promotion() {
    let v = Tensor::from(vec![1.0f32, 2.0, 3.0]);
    let m = Tensor::<f32>::shaped(&[3, 2], &[4.0, 5.0, 6.0, 7.0, 8.0, 9.0]).unwrap();
    let r = v.matmul(&m, 0.0, |x, y| x + y, |x, y| x * y).unwrap();
    assert_eq!(r.layout().shape(), &[2]);
    assert_eq!(values(&r), vec![40.0, 46.0]);

    let w = Tensor::from(vec![1.0f32, 1.0]);
    let r = m.matmul(&w, 0.0, |x, y| x + y, |x, y| x * y).unwrap();
    assert_eq!(r.layout().shape(), &[3]);
    assert_eq!(values(&r), vec![9.0, 13.0, 17.0]);
}

#[test]
fn test_matmul_inner_mismatch() {
    let a = Tensor::<f32>::shaped(&[2, 3], &[0.0; 6]).unwrap();
    let b = Tensor::<f32>::shaped(&[2, 2], &[0.0; 4]).unwrap();
    assert!(a.matmul(&b, 0.0, |x, y| x + y, |x, y| x * y).is_err());
    let s = Tensor::scalar(1.0f32);
    assert!(s.matmul(&a, 0.0, |x, y| x + y, |x, y| x * y).is_err());
}

#[test]
fn test_squeeze_tensor() {
    let t = Tensor::<f32>::shaped(&[1, 2, 1], &[1.0, 2.0]).unwrap();
    let s = t.squeeze();
    assert_eq!(s.layout().shape(), &[2]);
    assert_eq!(values(&s), vec![1.0, 2.0]);
}

#[test]
fn test_row_iterator() {
    let t = Tensor::<f32>::shaped(&[2, 2], &[1.0, 2.0, 3.0, 4.0]).unwrap();
    let v = t.transpose(0, 1).unwrap();
    let mut it = v.into_iter();
    assert_eq!(it.next(), Some(1.0));
    assert_eq!(it.next(), Some(3.0));
    assert_eq!(it.next(), Some(2.0));
    assert_eq!(it.next(), Some(4.0));
    assert_eq!(it.next(), None);
    it.restart();
    assert_eq!(it.next(), Some(1.0));
}

#[test]
fn test_expand_does_not_copy_values() {
    let t = Tensor::<f32>::shaped(&[1, 2], &[1.0, 2.0]).unwrap();
    let u = Tensor::<f32>::shaped(&[3, 2], &[0.0; 6]).unwrap();
    let c = t.zip(&u, |x, y| x + y).unwrap();
    assert_eq!(c.layout().shape(), &[3, 2]);
    assert_eq!(values(&c), vec![1.0, 2.0, 1.0, 2.0, 1.0, 2.0]);
}

#[test]
fn test_empty_tensor() {
    let t = Tensor::<f32>::from(vec![]);
    assert_eq!(t.layout().shape(), &[0]);
    assert_eq!(t.layout().elems(), 0);
    assert_eq!(values(&t), Vec::<f32>::new());
    let d = t.map(|x| x + 1.0);
    assert_eq!(values(&d), Vec::<f32>::new());
}

#[test]
fn test_matmul_batched() {
    // A stack of two 2x2 matrices times a single 2x2 matrix broadcasts the
    // single matrix across the batch.
    let a = Tensor::<f32>::shaped(&[2, 2, 2], &[1.0, 2.0, 3.0, 4.0, 5.0, 6.0, 7.0, 8.0]).unwrap();
    let b = Tensor::<f32>::shaped(&[2, 2], &[1.0, 0.0, 0.0, 1.0]).unwrap();
    let c = a.matmul(&b, 0.0, |x, y| x + y, |x, y| x * y).unwrap();
    assert_eq!(c.layout().shape(), &[2, 2, 2]);
    assert_eq!(values(&c), vec![1.0, 2.0, 3.0, 4.0, 5.0, 6.0, 7.0, 8.0]);
}

#[test]
fn test_scalar_get() {
    let s = Tensor::scalar(42.0f32);
    assert_eq!(s.get(&[]), 42.0);
}
