use evm_bytecode::heuristic::{events_from_bytecode, selectors_from_bytecode};
use evm_bytecode::op_codes::{
    DUP1, EQ, ISZERO, JUMPI, LOG0, MLOAD, PUSH1, PUSH2, PUSH32, PUSH4,
};

// One complete occurrence of the first idiom's dispatch sequence, with the
// given 4-byte selector.
fn idiom_a(selector: [u8; 4]) -> Vec<u8> {
    let mut code = vec![DUP1, PUSH4];
    code.extend_from_slice(&selector);
    code.extend_from_slice(&[EQ, PUSH2, 0x00, 0x10, JUMPI]);
    code
}

// One complete occurrence of the second idiom's dispatch sequence, with the
// given 4-byte selector.
fn idiom_b(selector: [u8; 4]) -> Vec<u8> {
    let mut code = vec![PUSH4];
    code.extend_from_slice(&selector);
    code.extend_from_slice(&[PUSH1, 0x00, MLOAD, EQ, ISZERO, PUSH2, 0x00, 0x10, JUMPI]);
    code
}

#[test]
fn heuristic_empty_input() {
    selectors_from_bytecode(&[]);
    events_from_bytecode(&[]);
}

#[test]
fn selector_end_to_end() {
    let code = idiom_a([0x12, 0x34, 0x56, 0x78]);
    let selectors = selectors_from_bytecode(&code);
    assert_eq!(selectors, vec![[0x12, 0x34, 0x56, 0x78]]);
}

#[test]
fn event_end_to_end() {
    // A push-32 of all zero bytes, three plain instructions, then a log
    // opcode: exactly one signature, the 32-byte zero value.
    let mut code = vec![PUSH32];
    code.extend_from_slice(&[0u8; 32]);
    code.extend_from_slice(&[0x01, 0x01, 0x01, LOG0]);
    let events = events_from_bytecode(&code);
    assert_eq!(events, vec![[0u8; 32]]);
}

#[test]
fn event_not_reported_twice() {
    // The same signature recorded by two windows appears once in the
    // deduplicated output.
    let mut code = vec![PUSH32];
    code.extend_from_slice(&[0u8; 32]);
    code.push(LOG0);
    code.push(PUSH32);
    code.extend_from_slice(&[0u8; 32]);
    code.push(LOG0);
    let events = events_from_bytecode(&code);
    assert_eq!(events, vec![[0u8; 32]]);
}

#[test]
fn event_window_expires() {
    // Sixteen instructions between the push-32 and the log: the candidate
    // is dropped before the log is reached.
    let mut code = vec![PUSH32];
    code.extend_from_slice(&[0u8; 32]);
    code.extend_from_slice(&[0x01; 16]);
    code.push(LOG0);
    let events = events_from_bytecode(&code);
    assert!(events.is_empty());
}

#[test]
fn events_sorted_ascending() {
    let mut code = vec![PUSH32];
    code.extend_from_slice(&[0x02; 32]);
    code.push(LOG0);
    code.push(PUSH32);
    code.extend_from_slice(&[0x01; 32]);
    code.push(LOG0);
    let events = events_from_bytecode(&code);
    assert_eq!(events, vec![[0x01; 32], [0x02; 32]]);
}

#[test]
fn majority_vote_single_idiom() {
    // One match of the first idiom and none of the second: the first
    // idiom's single selector is returned.
    let code = idiom_a([0xde, 0xad, 0xbe, 0xef]);
    let selectors = selectors_from_bytecode(&code);
    assert_eq!(selectors, vec![[0xde, 0xad, 0xbe, 0xef]]);
}

#[test]
fn majority_vote_tie_prefers_first_idiom() {
    // One match of each idiom: the tie goes to the first idiom, whose
    // selector is returned.
    let mut code = idiom_a([0x12, 0x34, 0x56, 0x78]);
    code.extend_from_slice(&idiom_b([0xaa, 0xbb, 0xcc, 0xdd]));
    let selectors = selectors_from_bytecode(&code);
    assert_eq!(selectors, vec![[0x12, 0x34, 0x56, 0x78]]);
}

#[test]
fn majority_vote_second_idiom_wins() {
    // Two matches of the second idiom against one of the first.
    let mut code = idiom_a([0x12, 0x34, 0x56, 0x78]);
    code.extend_from_slice(&idiom_b([0xaa, 0xbb, 0xcc, 0xdd]));
    code.extend_from_slice(&idiom_b([0x01, 0x02, 0x03, 0x04]));
    let selectors = selectors_from_bytecode(&code);
    assert_eq!(
        selectors,
        vec![[0xaa, 0xbb, 0xcc, 0xdd], [0x01, 0x02, 0x03, 0x04]]
    );
}

#[test]
fn extraction_is_idempotent() {
    let mut code = idiom_a([0x12, 0x34, 0x56, 0x78]);
    code.push(PUSH32);
    code.extend_from_slice(&[0x07; 32]);
    code.push(LOG0);
    assert_eq!(selectors_from_bytecode(&code), selectors_from_bytecode(&code));
    assert_eq!(events_from_bytecode(&code), events_from_bytecode(&code));
}

#[test]
fn truncated_selector_capture_is_skipped() {
    // A buffer that ends inside the push-4 immediate cannot complete a
    // match, so no selector is reported.
    let code = [DUP1, PUSH4, 0x12, 0x34];
    let selectors = selectors_from_bytecode(&code);
    assert!(selectors.is_empty());
}
