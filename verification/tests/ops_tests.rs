use rough_wasm::ops::{OpSetType, OpType, OP_STRIDE};

#[test]
fn op_codes() {
    assert_eq!(OpType::Move.code(), 0);
    assert_eq!(OpType::BCurveTo.code(), 1);
    assert_eq!(OpType::LineTo.code(), 2);
    assert_eq!(OP_STRIDE, 7);
}

#[test]
fn op_set_codes() {
    assert_eq!(OpSetType::Path.code(), 0);
    assert_eq!(OpSetType::FillPath.code(), 1);
    assert_eq!(OpSetType::FillSketch.code(), 2);
}

#[test]
fn op_codes_distinct() {
    let all = [OpType::Move, OpType::BCurveTo, OpType::LineTo];
    for a in all {
        for b in all {
            assert_eq!(a.code() == b.code(), a == b);
        }
    }
}
