use evm_bytecode::bytecode::{Bytecode, Pattern};
use evm_bytecode::op_codes::{PUSH2, PUSH3, STOP};

#[test]
fn empty_bytecode() {
    let b = Bytecode::new(&[]);

    assert_eq!(b.extract_pattern(&[Pattern::OpAny]).len(), 0);
    assert!(!b.has_pattern(&[Pattern::OpAny]));

    let mut it = b.iter();
    while let Some(_) = it.next() {
        assert!(false)
    }
}

#[test]
fn push_aware_iterator() {
    let s = hex::decode("61ffff000062ffff").unwrap();
    let b = Bytecode::new(&s);

    let mut count = 0;
    let mut it = b.iter();
    while let Some(_) = it.next() {
        count += 1;
    }
    assert_eq!(count, 4);

    let mut it = b.iter();
    while let Some((offset, op, data)) = it.next() {
        if offset == 0 {
            assert_eq!(op, PUSH2);
            assert_ne!(data, None);
        } else if offset == 5 {
            assert_eq!(op, PUSH3);
            assert_eq!(data, None);
        } else {
            assert_eq!(op, STOP);
        }
    }
}

#[test]
fn decoder_round_trip() {
    // A push-2 opcode, its two immediate bytes, then one plain opcode.
    let code = [PUSH2, 0xab, 0xcd, 0x01];
    let b = Bytecode::new(&code);
    let mut it = b.iter();

    let (offset, op, data) = it.next().unwrap();
    assert_eq!(offset, 0);
    assert_eq!(op, PUSH2);
    assert_eq!(data, Some(&code[1..3]));

    let (offset, op, data) = it.next().unwrap();
    assert_eq!(offset, 3);
    assert_eq!(op, 0x01);
    assert_eq!(data, None);

    assert_eq!(it.next(), None);
}

#[test]
fn truncated_push() {
    // A push-3 opcode with only one trailing byte: one instruction, no
    // immediate, and decoding terminates.
    let code = [PUSH3, 0xff];
    let b = Bytecode::new(&code);
    let mut it = b.iter();

    let (offset, op, data) = it.next().unwrap();
    assert_eq!(offset, 0);
    assert_eq!(op, PUSH3);
    assert_eq!(data, None);

    assert_eq!(it.next(), None);
}

#[test]
fn pattern_reset() {
    // A mismatch discards progress and the mismatching instruction is not
    // retried at the pattern's start: with pattern [0x01, 0x02] the stream
    // 0x01, 0x01, 0x02 completes no match.
    let pattern = [Pattern::Op(0x01), Pattern::Op(0x02)];
    let b = Bytecode::new(&[0x01, 0x01, 0x02]);
    assert_eq!(b.extract_pattern(&pattern).len(), 0);
    assert!(!b.has_pattern(&pattern));

    // The stream 0x01, 0x02 completes exactly one match.
    let b = Bytecode::new(&[0x01, 0x02]);
    assert_eq!(b.extract_pattern(&pattern).len(), 1);
    assert!(b.has_pattern(&pattern));
}

#[test]
fn one_of_combines_predicates() {
    let p = Pattern::Op(0x01).one_of(Pattern::Op(0x02));
    assert!(p.matches(0x01));
    assert!(p.matches(0x02));
    assert!(!p.matches(0x03));

    let q = p.one_of(Pattern::Op(0x03));
    assert!(q.matches(0x01));
    assert!(q.matches(0x02));
    assert!(q.matches(0x03));
    assert!(!q.matches(0x04));

    let any = Pattern::Op(0x01).one_of(Pattern::OpAny);
    assert!(any.matches(0x00));
    assert!(any.matches(0xff));
}

#[test]
fn extract_pattern_captures_immediates() {
    // push-2 xx yy, plain, push-2 zz ww: pattern [push-2, any, push-2]
    // captures both immediates of the one match.
    let code = [PUSH2, 0x11, 0x22, 0x01, PUSH2, 0x33, 0x44];
    let b = Bytecode::new(&code);
    let pattern = [Pattern::Op(PUSH2), Pattern::Op(0x01), Pattern::Op(PUSH2)];
    let records = b.extract_pattern(&pattern);
    assert_eq!(records.len(), 1);
    assert_eq!(records[0].len(), 2);
    assert_eq!(records[0][0], &[0x11u8, 0x22][..]);
    assert_eq!(records[0][1], &[0x33u8, 0x44][..]);
}
