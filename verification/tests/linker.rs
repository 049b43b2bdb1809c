use sexpvm::patch::{LinkFault, Patch};
use sexpvm::runtime::{ByteOp, Program};
use sexpvm::table::IdMap;

fn link(code: Vec<ByteOp>) -> Result<Vec<ByteOp>, LinkFault> {
    let p = Patch::new().run(Program { code })?;
    Ok(p.code)
}

#[test]
fn patch_rewrites_targets_and_strips_markers() {
    assert_eq!(
        link(vec![
            ByteOp::Label(7),
            ByteOp::PushTrue,
            ByteOp::Jump(7),
            ByteOp::BrFalse(7),
        ]),
        Ok(vec![ByteOp::PushTrue, ByteOp::Jump(0), ByteOp::BrFalse(0)])
    );
}

#[test]
fn patch_counts_only_real_instructions() {
    assert_eq!(
        link(vec![
            ByteOp::PushTrue,
            ByteOp::Label(1),
            ByteOp::PushFalse,
            ByteOp::Jump(1),
        ]),
        Ok(vec![ByteOp::PushTrue, ByteOp::PushFalse, ByteOp::Jump(1)])
    );
}

#[test]
fn unknown_label_fault() {
    assert_eq!(link(vec![ByteOp::Jump(3)]), Err(LinkFault::UnknownLabel));
    assert_eq!(
        link(vec![ByteOp::Label(1), ByteOp::BrFalse(2)]),
        Err(LinkFault::UnknownLabel)
    );
}

#[test]
fn later_marker_wins_for_a_repeated_label() {
    assert_eq!(
        link(vec![
            ByteOp::Label(0),
            ByteOp::PushTrue,
            ByteOp::Label(0),
            ByteOp::Jump(0),
        ]),
        Ok(vec![ByteOp::PushTrue, ByteOp::Jump(1)])
    );
}

#[test]
fn marker_only_stream_patches_to_nothing() {
    assert_eq!(link(vec![ByteOp::Label(0), ByteOp::Label(1)]), Ok(vec![]));
}

#[test]
fn id_map_insert_and_get() {
    let mut m = IdMap::new();
    assert_eq!(m.get(1), None);
    m.insert(1, 10);
    m.insert(2, 20);
    assert_eq!(m.get(1), Some(10));
    assert_eq!(m.get(2), Some(20));
    m.insert(1, 11);
    assert_eq!(m.get(1), Some(11));
}
