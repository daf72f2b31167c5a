use evm_bytecode::op_codes::{DUP1, EQ, JUMPI, PUSH2, PUSH4};
use evm_bytecode::selectors_from_bytecode;

#[test]
fn lib_empty_input() {
    selectors_from_bytecode(&[]);
}

#[test]
fn selectors_as_words() {
    let code = [
        DUP1, PUSH4, 0x12, 0x34, 0x56, 0x78, EQ, PUSH2, 0x00, 0x10, JUMPI,
    ];
    let selectors = selectors_from_bytecode(&code);
    assert_eq!(selectors, vec![0x12345678u32]);
}
