use biguint::refs::{f1, f2, f3, f4};

#[test]
fn test_f1() {
    let mut pair = (1, 2);
    assert_eq!(*f1(&mut pair, false), 1);
    *f1(&mut pair, true) = 3;
    assert_eq!(pair, (1, 3));
}

#[test]
fn test_f2() {
    let mut slice = vec![1, 2, 3, 4];
    assert_eq!(*f2(&mut slice, 2), 3);
    *f2(&mut slice, 1) = 5;
    assert_eq!(slice, [1, 5, 3, 4]);
}

#[test]
fn test_f3() {
    let mut slice = vec![1, 2, 3, 4];
    assert_eq!(*f3(&mut slice, 1), 3);
    *f3(&mut slice, 0) = 5;
    assert_eq!(slice, [1, 2, 3, 5]);
}

#[test]
fn test_f4() {
    let slice = [1, 2, 3, 4, 5, 6, 7, 8];
    let (a, b, c, d) = f4(&slice);
    assert_eq!(a.len(), 2);
    assert_eq!(b.len(), 2);
    assert_eq!(c.len(), 2);
    assert_eq!(d.len(), 2);
    let slice = [1, 2, 3, 4, 5, 6, 7, 8, 9, 10];
    let (a, b, c, d) = f4(&slice);
    assert_eq!(a.len(), 3);
    assert_eq!(b.len(), 3);
    assert_eq!(c.len(), 2);
    assert_eq!(d.len(), 2);
}
