use notnow::ops::Op;
use notnow::ops::Ops;

enum ArithOp {
    Add(usize),
    Mul(usize),
}

impl Op<usize, ()> for ArithOp {
    fn exec(&mut self, data: &mut usize) {
        match self {
            ArithOp::Add(x) => *data += *x,
            ArithOp::Mul(x) => *data *= *x,
        }
    }

    fn undo(&mut self, data: &mut usize) {
        match self {
            ArithOp::Add(x) => *data -= *x,
            ArithOp::Mul(x) => *data /= *x,
        }
    }
}

#[test]
fn exec_undo_redo() {
    let mut data = 0;
    let mut ops = Ops::<ArithOp, usize, ()>::new(3);

    ops.exec(ArithOp::Add(4), &mut data);
    assert_eq!(data, 4);

    ops.exec(ArithOp::Mul(3), &mut data);
    assert_eq!(data, 12);

    ops.exec(ArithOp::Mul(7), &mut data);
    assert_eq!(data, 84);

    assert!(ops.undo(&mut data).is_some());
    assert_eq!(data, 12);

    assert!(ops.redo(&mut data).is_some());
    assert_eq!(data, 84);

    assert!(ops.undo(&mut data).is_some());
    assert_eq!(data, 12);

    assert!(ops.undo(&mut data).is_some());
    assert_eq!(data, 4);

    assert!(ops.redo(&mut data).is_some());
    assert_eq!(data, 12);

    assert!(ops.undo(&mut data).is_some());
    assert_eq!(data, 4);

    assert!(ops.undo(&mut data).is_some());
    assert_eq!(data, 0);
}

#[test]
fn undo_limit() {
    let mut data = 0;
    let mut ops = Ops::<ArithOp, usize, ()>::new(2);

    ops.exec(ArithOp::Add(2), &mut data);
    assert_eq!(data, 2);

    ops.exec(ArithOp::Mul(3), &mut data);
    assert_eq!(data, 6);

    // Only two operations fit, so this one evicts the first.
    ops.exec(ArithOp::Mul(5), &mut data);
    assert_eq!(data, 30);

    assert!(ops.undo(&mut data).is_some());
    assert_eq!(data, 6);

    assert!(ops.undo(&mut data).is_some());
    assert_eq!(data, 2);

    for _ in 0..5 {
        assert!(ops.undo(&mut data).is_none());
        assert_eq!(data, 2);
    }

    assert!(ops.redo(&mut data).is_some());
    assert_eq!(data, 6);

    assert!(ops.redo(&mut data).is_some());
    assert_eq!(data, 30);

    for _ in 0..5 {
        assert!(ops.redo(&mut data).is_none());
        assert_eq!(data, 30);
    }

    assert!(ops.undo(&mut data).is_some());
    assert_eq!(data, 6);

    assert!(ops.undo(&mut data).is_some());
    assert_eq!(data, 2);

    for _ in 0..5 {
        assert!(ops.undo(&mut data).is_none());
        assert_eq!(data, 2);
    }
}

#[test]
fn exec_drops_what_could_be_redone() {
    let mut data = 1;
    let mut ops = Ops::<ArithOp, usize, ()>::new(4);

    ops.exec(ArithOp::Add(1), &mut data);
    ops.exec(ArithOp::Mul(5), &mut data);
    assert_eq!(data, 10);
    assert!(ops.undo(&mut data).is_some());
    assert_eq!(data, 2);

    ops.exec(ArithOp::Add(7), &mut data);
    assert_eq!(data, 9);
    assert!(ops.redo(&mut data).is_none());
    assert_eq!(data, 9);

    assert!(ops.undo(&mut data).is_some());
    assert_eq!(data, 2);
    assert!(ops.undo(&mut data).is_some());
    assert_eq!(data, 1);
    assert!(ops.undo(&mut data).is_none());
}

#[test]
fn single_slot_record_undoes_nothing() {
    let mut data = 3;
    let mut ops = Ops::<ArithOp, usize, ()>::new(0);
    ops.exec(ArithOp::Add(1), &mut data);
    assert_eq!(data, 4);
    assert!(ops.undo(&mut data).is_none());
    assert!(ops.redo(&mut data).is_none());
    assert_eq!(data, 4);
}
