use swisstable::{AFHS, Instr, Interpretable, Op};

#[test]
fn scripted_add_and_remove() {
    let mut s: AFHS<i32> = AFHS::new();
    let instructions = [
        Instr::new(Op::ADD, (0..20).collect()),
        Instr::new(Op::REMOVE, (4..14).collect()),
    ];
    s.interpret(&instructions);
    assert_eq!(s.size(), 10);
    for k in 0..4 {
        assert!(s.has(k));
    }
    for k in 4..14 {
        assert!(!s.has(k));
    }
    for k in 14..20 {
        assert!(s.has(k));
    }
}

#[test]
fn empty_script_changes_nothing() {
    let mut s: AFHS<i32> = AFHS::new();
    s.add(1);
    let instructions: [Instr; 0] = [];
    s.interpret(&instructions);
    assert_eq!(s.size(), 1);
    assert!(s.has(1));
}

#[test]
fn removing_absent_keys_by_script_is_a_noop() {
    let mut s: AFHS<i32> = AFHS::new();
    let instructions = [Instr::new(Op::REMOVE, (0..50).collect())];
    s.interpret(&instructions);
    assert_eq!(s.size(), 0);
}

#[test]
fn instr_new_keeps_its_parts() {
    let i = Instr::new(Op::ADD, vec![1, 2, 3]);
    assert!(matches!(i.op, Op::ADD));
    assert_eq!(i.nums, vec![1, 2, 3]);
}

#[test]
fn single_ops_through_the_trait() {
    let mut s: AFHS<i32> = AFHS::new();
    s.add_op(5);
    assert!(s.has(5));
    s.remove_op(5);
    assert!(!s.has(5));
}
