use candle::tensor::layout::Layout;

#[test]
fn test_layout_create() {
    let l = Layout::from(&[2, 3, 4]);
    assert_eq!(l.shape(), &[2, 3, 4]);
    assert_eq!(l.strides(), &[12, 4, 1]);
    assert_eq!(l.elems(), 24);
}

#[test]
fn test_layout_index_to_position() {
    let l = Layout::from(&[2, 2, 2]);

    let pos = l.index_to_position(&[0, 0, 0]);
    assert_eq!(pos, 0);

    let pos = l.index_to_position(&[0, 0, 1]);
    assert_eq!(pos, 1);

    let pos = l.index_to_position(&[0, 1, 0]);
    assert_eq!(pos, 2);

    let pos = l.index_to_position(&[0, 1, 1]);
    assert_eq!(pos, 3);

    let pos = l.index_to_position(&[1, 0, 0]);
    assert_eq!(pos, 4);

    let pos = l.index_to_position(&[1, 0, 1]);
    assert_eq!(pos, 5);

    let pos = l.index_to_position(&[1, 1, 0]);
    assert_eq!(pos, 6);

    let pos = l.index_to_position(&[1, 1, 1]);
    assert_eq!(pos, 7);
}

#[test]
fn test_layout_position_to_index() {
    let l = Layout::from(&[2, 2, 2]);

    let pos = l.position_to_index(0);
    assert_eq!(pos, &[0, 0, 0]);

    let pos = l.position_to_index(1);
    assert_eq!(pos, &[0, 0, 1]);

    let pos = l.position_to_index(2);
    assert_eq!(pos, &[0, 1, 0]);

    let pos = l.position_to_index(3);
    assert_eq!(pos, &[0, 1, 1]);

    let pos = l.position_to_index(4);
    assert_eq!(pos, &[1, 0, 0]);

    let pos = l.position_to_index(5);
    assert_eq!(pos, &[1, 0, 1]);

    let pos = l.position_to_index(6);
    assert_eq!(pos, &[1, 1, 0]);

    let pos = l.position_to_index(7);
    assert_eq!(pos, &[1, 1, 1]);
}

#[test]
fn test_layout_expand() {
    let l1 = Layout::from(&[1]);
    let l2 = l1.expand(&[3]).unwrap();
    assert_eq!(l2.shape(), &[3]);
    assert_eq!(l2.strides(), &[0]);

    let l1 = Layout::from(&[1]);
    let l2 = l1.expand(&[3, 2]).unwrap();
    assert_eq!(l2.shape(), &[3, 2]);
    assert_eq!(l2.strides(), &[0, 0]);

    let l1 = Layout::from(&[2, 1, 1]);
    let l2 = l1.expand(&[7, 2, 4, 5]).unwrap();
    assert_eq!(l2.shape(), &[7, 2, 4, 5]);
    assert_eq!(l2.strides(), &[0, 1, 0, 0]);
}

#[test]
fn test_layout_scalar_elems() {
    let l = Layout::from(&[]);
    assert_eq!(l.elems(), 1);
    let l = Layout::scalar();
    assert_eq!(l.elems(), 1);
    let l = Layout::from(&[3, 0, 4]);
    assert_eq!(l.elems(), 0);
}

#[test]
fn test_layout_round_trip_all_positions() {
    let l = Layout::from(&[3, 4, 5]);
    for pos in 0..60 {
        let ix = l.position_to_index(pos);
        assert_eq!(l.index_to_position(ix.as_slice()), pos);
    }
}

#[test]
fn test_layout_transpose() {
    let l = Layout::from(&[2, 3, 4]);
    let t = l.transpose(0, 2).unwrap();
    assert_eq!(t.shape(), &[4, 3, 2]);
    assert_eq!(t.strides(), &[1, 4, 12]);
    assert!(l.transpose(0, 3).is_err());
}

#[test]
fn test_layout_permute() {
    let l = Layout::from(&[2, 3, 4]);
    let p = l.permute(&[2, 0, 1]).unwrap();
    assert_eq!(p.shape(), &[4, 2, 3]);
    assert_eq!(p.strides(), &[1, 12, 4]);
    assert!(l.permute(&[0, 1]).is_err());
    assert!(l.permute(&[0, 1, 1]).is_err());
    assert!(l.permute(&[0, 1, 3]).is_err());
}

#[test]
fn test_layout_squeeze() {
    let l = Layout::from(&[1, 2, 1, 3, 1]);
    let s = l.squeeze();
    assert_eq!(s.shape(), &[2, 3]);
    assert_eq!(s.elems(), 6);
    let all_ones = Layout::from(&[1, 1]).squeeze();
    assert_eq!(all_ones.shape().len(), 0);
}

#[test]
fn test_layout_broadcast() {
    let a = Layout::from(&[3, 1]);
    let b = Layout::from(&[1, 4]);
    let (ea, eb) = a.broadcast(&b).unwrap();
    assert_eq!(ea.shape(), &[3, 4]);
    assert_eq!(eb.shape(), &[3, 4]);
    assert_eq!(ea.strides(), &[1, 0]);
    assert_eq!(eb.strides(), &[0, 1]);

    let a = Layout::from(&[2, 3]);
    let b = Layout::from(&[4, 5]);
    assert!(a.broadcast(&b).is_err());
}

#[test]
fn test_layout_reshape() {
    let l = Layout::from(&[2, 3]);
    let r = l.reshape(&[3, 2]).unwrap();
    assert!(r.is_some());
    assert_eq!(r.unwrap().shape(), &[3, 2]);

    let t = l.transpose(0, 1).unwrap();
    let r = t.reshape(&[6]).unwrap();
    assert!(r.is_none());

    assert!(l.reshape(&[7]).is_err());
}

#[test]
fn test_layout_reshape_views_through_unit_dims() {
    // A size-1 dimension is never stepped, so its stride does not affect the
    // traversal order: transposing [1, 2] still reshapes as a view.
    let l = Layout::from(&[1, 2]);
    let t = l.transpose(0, 1).unwrap();
    assert_eq!(t.shape(), &[2, 1]);
    assert_eq!(t.strides(), &[1, 2]);
    let r = t.reshape(&[2]).unwrap();
    assert!(r.is_some());
    assert_eq!(r.unwrap().shape(), &[2]);
}

#[test]
fn test_layout_reduce() {
    let l = Layout::from(&[2, 3, 4]);
    let (res, reducer) = l.reduce(&[1]).unwrap();
    assert_eq!(res.shape(), &[2, 1, 4]);
    assert_eq!(res.strides(), &[4, 4, 1]);
    assert_eq!(reducer.shape(), &[2, 1, 4]);
    assert_eq!(reducer.strides(), &[4, 0, 1]);
    assert!(l.reduce(&[3]).is_err());
    assert!(l.reduce(&[1, 1]).is_err());
}

#[test]
fn test_layout_iterators() {
    let l = Layout::from(&[2, 2]);
    let mut it = l.iter_index();
    assert_eq!(it.next(), Some(vec![0, 0]));
    assert_eq!(it.next(), Some(vec![0, 1]));
    assert_eq!(it.next(), Some(vec![1, 0]));
    assert_eq!(it.next(), Some(vec![1, 1]));
    assert_eq!(it.next(), None);
    it.restart();
    assert_eq!(it.next(), Some(vec![0, 0]));

    let t = l.transpose(0, 1).unwrap();
    let mut pit = t.iter_position();
    assert_eq!(pit.next(), Some(0));
    assert_eq!(pit.next(), Some(2));
    assert_eq!(pit.next(), Some(1));
    assert_eq!(pit.next(), Some(3));
    assert_eq!(pit.next(), None);
}
