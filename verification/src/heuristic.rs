//! The two heuristics built on the decoder and the pattern matcher:
//! dispatch-selector extraction (two fixed compiler idioms, majority vote)
//! and event-signature extraction (a windowed push-then-log scan).
use crate::bytecode::{
    decode_from, decoded, extracted, instr_at, Bytecode, BytecodeIterator, Instr, Pattern,
    PatternView,
};
use crate::lex::{insert_sorted, lemma_strictly_sorted_unique, strictly_sorted};
use crate::op_codes::{DUP1, EQ, ISZERO, JUMPI, LOG0, LOG4, MLOAD, PUSH1, PUSH2, PUSH32, PUSH4};
use vstd::prelude::*;
use vstd::slice::slice_index_get;
use vstd::std_specs::vec::vec_index;

verus! {

broadcast use vstd::seq_lib::group_seq_properties;

/// The five log opcodes form one contiguous range.
pub open spec fn is_log(op: u8) -> bool {
    LOG0 <= op <= LOG4
}

/// State of the event scan: the candidate 32-byte value of the most recent
/// push-32, the number of instructions seen since it, and the signatures
/// recorded so far.
pub struct EventScan {
    pub cand: Option<Seq<u8>>,
    pub count: int,
    pub found: Seq<Seq<u8>>,
}

/// The scan before any instruction has been consumed.
pub open spec fn initial_event_scan() -> EventScan {
    EventScan { cand: None, count: 0, found: Seq::empty() }
}

/// One step of the event scan. A push-32 with a present immediate makes that
/// immediate the candidate, overwriting any unconsumed one, and resets the
/// window counter. While a candidate is active: a counter over 15 drops the
/// candidate without recording; otherwise a log opcode records it and drops
/// it, and any other instruction counts against the window.
pub open spec fn event_step(st: EventScan, ins: Instr) -> EventScan {
    if ins.op == PUSH32 && ins.imm is Some {
        EventScan { cand: Some(ins.imm->0), count: 0, found: st.found }
    } else if st.cand is Some {
        if st.count > 15 {
            EventScan { cand: None, count: st.count, found: st.found }
        } else if is_log(ins.op) {
            EventScan { cand: None, count: st.count, found: st.found.push(st.cand->0) }
        } else {
            EventScan { cand: st.cand, count: st.count + 1, found: st.found }
        }
    } else {
        st
    }
}

/// The event scan run over a whole instruction sequence from a given state.
pub open spec fn event_scan_from(instrs: Seq<Instr>, st: EventScan) -> EventScan
    decreases instrs.len(),
{
    if instrs.len() == 0 {
        st
    } else {
        event_scan_from(instrs.drop_first(), event_step(st, instrs[0]))
    }
}

/// The signatures recorded by the event scan over a buffer's instruction
/// stream, in the order they were recorded, duplicates included.
pub open spec fn event_signatures(code: Seq<u8>) -> Seq<Seq<u8>> {
    event_scan_from(decoded(code), initial_event_scan()).found
}

/// Scanning a sequence extended by one instruction is one step after
/// scanning the sequence.
pub proof fn lemma_event_scan_snoc(instrs: Seq<Instr>, ins: Instr, st: EventScan)
    ensures
        event_scan_from(instrs.push(ins), st) == event_step(event_scan_from(instrs, st), ins),
    decreases instrs.len(),
{
    let s1 = instrs.push(ins);
    if instrs.len() == 0 {
        assert(s1.len() == 1);
        assert(s1[0] == ins);
        assert(s1.drop_first() =~= Seq::<Instr>::empty());
        assert(event_scan_from(s1, st) == event_scan_from(s1.drop_first(), event_step(st, ins)));
    } else {
        assert(s1[0] == instrs[0]);
        assert(s1.drop_first() =~= instrs.drop_first().push(ins));
        lemma_event_scan_snoc(instrs.drop_first(), ins, event_step(st, instrs[0]));
        assert(event_scan_from(s1, st) == event_scan_from(
            s1.drop_first(),
            event_step(st, instrs[0]),
        ));
    }
}

/// Copy a slice of exactly `N` bytes into an owned array.
fn copy_arr<const N: usize>(s: &[u8]) -> (r: [u8; N])
    requires
        s@.len() == N,
    ensures
        r@ == s@,
{
    let mut r = [0u8; N];
    let mut i: usize = 0;
    while i < N
        invariant
            i <= N,
            s@.len() == N,
            r@.len() == N,
            forall|j: int| 0 <= j < i ==> r@[j] == s@[j],
        decreases N - i,
    {
        let v = *slice_index_get(s, i);
        r[i] = v;
        i = i + 1;
    }
    proof {
        assert(r@ =~= s@);
    }
    r
}

/// Get event signatures from the bytecode: every 32-byte value recorded by
/// the windowed push-then-log scan, deduplicated and sorted ascending by
/// byte value.
pub fn events_from_bytecode(input: &[u8]) -> (r: Vec<[u8; 32]>)
    ensures
        strictly_sorted(r.deep_view()),
        forall|s: Seq<u8>|
            #[trigger] r.deep_view().contains(s) <==> event_signatures(input@).contains(s),
        forall|i: int| 0 <= i < r.deep_view().len() ==> #[trigger] r.deep_view()[i].len() == 32,
{
    let ghost instrs = decoded(input@);
    let ghost mut done: Seq<Instr> = Seq::empty();
    let mut it = BytecodeIterator::new(input);
    let mut found: Vec<[u8; 32]> = Vec::new();
    let mut cand: Option<[u8; 32]> = None;
    let mut count: u8 = 0;
    proof {
        assert(found.deep_view() =~= Seq::<Seq<u8>>::empty());
        assert(done =~= instrs.take(0));
        assert(instrs.skip(0) =~= instrs);
    }
    while it.offset < it.code.len()
        invariant
            it.code@ == input@,
            instrs == decoded(input@),
            decode_from(input@, it.offset as int) == instrs.skip(done.len() as int),
            0 <= done.len() <= instrs.len(),
            done == instrs.take(done.len() as int),
            (event_scan_from(done, initial_event_scan()).cand is Some) == (cand is Some),
            cand is Some ==> event_scan_from(done, initial_event_scan()).cand->0 == cand->0@,
            event_scan_from(done, initial_event_scan()).count == count as int,
            count <= 16,
            found.deep_view() == event_scan_from(done, initial_event_scan()).found,
        decreases instrs.len() - done.len(),
    {
        let ghost prev = event_scan_from(done, initial_event_scan());
        let ghost k = done.len() as int;
        let ghost ins = instr_at(input@, it.offset as int);
        proof {
            assert(decode_from(input@, it.offset as int)[0] == ins);
            assert(decode_from(input@, it.offset as int).len() > 0);
            assert(instrs.skip(k).len() == instrs.len() - k);
            assert(k < instrs.len());
            assert(instrs.skip(k)[0] == instrs[k]);
            assert(instrs[k] == ins);
            assert(instrs.skip(k).drop_first() =~= instrs.skip(k + 1));
            lemma_event_scan_snoc(done, ins, initial_event_scan());
            assert(done.push(ins) =~= instrs.take(k + 1));
        }
        if let Some((_offset, op, data)) = it.next() {
            let ghost st = event_step(prev, ins);
            let mut took_candidate = false;
            if op == PUSH32 {
                if let Some(value) = data {
                    proof {
                        assert(ins.imm->0.len() == 32);
                    }
                    cand = Some(copy_arr::<32>(value));
                    count = 0;
                    took_candidate = true;
                }
            }
            if !took_candidate {
                if cand.is_some() {
                    if count > 15 {
                        cand = None;
                    } else if LOG0 <= op && op <= LOG4 {
                        if let Some(c) = cand {
                            found.push(c);
                            proof {
                                assert(found.deep_view() =~~= prev.found.push(prev.cand->0));
                            }
                        }
                        cand = None;
                    } else {
                        count = count + 1;
                    }
                }
            }
            proof {
                done = done.push(ins);
                assert(event_scan_from(done, initial_event_scan()) == st);
                assert(found.deep_view() =~~= st.found);
            }
        }
    }
    proof {
        assert(decode_from(input@, it.offset as int) =~= Seq::<Instr>::empty());
        assert(done.len() == instrs.len());
        assert(done =~= instrs);
        assert(found.deep_view() == event_signatures(input@));
    }
    let ghost fdv = found.deep_view();
    let mut out: Vec<[u8; 32]> = Vec::new();
    let mut i: usize = 0;
    proof {
        assert(out.deep_view() =~= Seq::<Seq<u8>>::empty());
        assert(fdv.take(0) =~= Seq::<Seq<u8>>::empty());
    }
    while i < found.len()
        invariant
            i <= found@.len(),
            fdv == found.deep_view(),
            fdv == event_signatures(input@),
            fdv.len() == found@.len(),
            strictly_sorted(out.deep_view()),
            forall|s: Seq<u8>|
                #[trigger] out.deep_view().contains(s) <==> fdv.take(i as int).contains(s),
        decreases found@.len() - i,
    {
        let x = found[i];
        proof {
            assert(found@[i as int].deep_view() == fdv[i as int]);
            assert(x@ =~= x.deep_view());
            assert(fdv.take(i as int + 1) =~= fdv.take(i as int).push(fdv[i as int]));
        }
        let ghost before = out.deep_view();
        out = insert_sorted(out, x);
        proof {
            assert forall|s: Seq<u8>| #[trigger] out.deep_view().contains(s) implies fdv.take(
                i as int + 1,
            ).contains(s) by {
                assert(before.contains(s) || s == x@);
            }
            assert forall|s: Seq<u8>| fdv.take(i as int + 1).contains(s) implies #[trigger] out.deep_view().contains(s) by {
                assert(fdv.take(i as int).contains(s) || s == fdv[i as int]);
            }
        }
        i = i + 1;
    }
    proof {
        assert(fdv.take(found@.len() as int) =~= fdv);
    }
    out
}

/// The dispatch-table idiom of the first compiler family: duplicate the
/// selector word, push the 4-byte selector, test equality, push a 1- or
/// 2-byte jump target, jump conditionally.
pub open spec fn solidity_pattern() -> Seq<PatternView> {
    seq![
        PatternView::Op(DUP1),
        PatternView::Op(PUSH4),
        PatternView::Op(EQ),
        PatternView::Ops(seq![PUSH1, PUSH2]),
        PatternView::Op(JUMPI),
    ]
}

/// The dispatch-table idiom of the second compiler family: push the 4-byte
/// selector, push a 1-byte offset, load from memory, test equality, negate,
/// push a 2-byte jump target, jump conditionally.
pub open spec fn vyper_pattern() -> Seq<PatternView> {
    seq![
        PatternView::Op(PUSH4),
        PatternView::Op(PUSH1),
        PatternView::Op(MLOAD),
        PatternView::Op(EQ),
        PatternView::Op(ISZERO),
        PatternView::Op(PUSH2),
        PatternView::Op(JUMPI),
    ]
}

/// Of each match record keep the first captured immediate, and only when it
/// is exactly 4 bytes; record order is kept.
pub open spec fn selector_captures(records: Seq<Seq<Seq<u8>>>) -> Seq<Seq<u8>>
    decreases records.len(),
{
    if records.len() == 0 {
        Seq::empty()
    } else {
        let rest = selector_captures(records.drop_last());
        let rec = records.last();
        if rec.len() > 0 && rec[0].len() == 4 {
            rest.push(rec[0])
        } else {
            rest
        }
    }
}

/// The 4-byte selectors the first idiom finds in a buffer, in match order.
pub open spec fn solidity_selectors(code: Seq<u8>) -> Seq<Seq<u8>> {
    selector_captures(extracted(code, solidity_pattern()))
}

/// The 4-byte selectors the second idiom finds in a buffer, in match order.
pub open spec fn vyper_selectors(code: Seq<u8>) -> Seq<Seq<u8>> {
    selector_captures(extracted(code, vyper_pattern()))
}

/// Majority vote between the two idioms: the idiom with strictly more
/// matches wins; a tie goes to the first.
pub open spec fn chosen_selectors(code: Seq<u8>) -> Seq<Seq<u8>> {
    if vyper_selectors(code).len() > solidity_selectors(code).len() {
        vyper_selectors(code)
    } else {
        solidity_selectors(code)
    }
}

/// The first idiom's pattern as an exec value.
fn solidity_pattern_exec() -> (r: Vec<Pattern>)
    ensures
        r.deep_view() == solidity_pattern(),
        r@.len() == 5,
{
    let mut v: Vec<Pattern> = Vec::new();
    v.push(Pattern::Op(DUP1));
    v.push(Pattern::Op(PUSH4));
    v.push(Pattern::Op(EQ));
    v.push(Pattern::Op(PUSH1).one_of(Pattern::Op(PUSH2)));
    v.push(Pattern::Op(JUMPI));
    proof {
        assert(v.deep_view() =~= solidity_pattern());
    }
    v
}

/// The second idiom's pattern as an exec value.
fn vyper_pattern_exec() -> (r: Vec<Pattern>)
    ensures
        r.deep_view() == vyper_pattern(),
        r@.len() == 7,
{
    let mut v: Vec<Pattern> = Vec::new();
    v.push(Pattern::Op(PUSH4));
    v.push(Pattern::Op(PUSH1));
    v.push(Pattern::Op(MLOAD));
    v.push(Pattern::Op(EQ));
    v.push(Pattern::Op(ISZERO));
    v.push(Pattern::Op(PUSH2));
    v.push(Pattern::Op(JUMPI));
    proof {
        assert(v.deep_view() =~= vyper_pattern());
    }
    v
}

/// Keep, of each match record, its first capture when that capture is
/// exactly 4 bytes, as an owned 4-byte value.
fn keep_four_byte_captures(records: &Vec<Vec<&[u8]>>) -> (r: Vec<[u8; 4]>)
    ensures
        r.deep_view() == selector_captures(records.deep_view()),
{
    let ghost rdv = records.deep_view();
    let mut r: Vec<[u8; 4]> = Vec::new();
    let mut i: usize = 0;
    proof {
        assert(r.deep_view() =~= Seq::<Seq<u8>>::empty());
        assert(rdv.take(0) =~= Seq::<Seq<Seq<u8>>>::empty());
        assert(selector_captures(rdv.take(0)) =~= Seq::<Seq<u8>>::empty());
    }
    while i < records.len()
        invariant
            i <= records@.len(),
            rdv == records.deep_view(),
            rdv.len() == records@.len(),
            r.deep_view() == selector_captures(rdv.take(i as int)),
        decreases records@.len() - i,
    {
        let ghost before = r.deep_view();
        proof {
            assert(rdv.take(i as int + 1).drop_last() =~= rdv.take(i as int));
            assert(rdv.take(i as int + 1).last() == rdv[i as int]);
            assert(records@[i as int].deep_view() == rdv[i as int]);
        }
        let rec = vec_index(records, i);
        proof {
            assert(rec.deep_view() == rdv[i as int]);
            assert(rec.deep_view().len() == rec@.len());
        }
        if rec.len() > 0 {
            let first: &[u8] = *vec_index(rec, 0);
            proof {
                assert(first.deep_view() == rdv[i as int][0]);
                assert(first.deep_view() =~= first@);
            }
            if first.len() == 4 {
                r.push(copy_arr::<4>(first));
                proof {
                    assert(r.deep_view() =~~= before.push(rdv[i as int][0]));
                }
            }
        }
        i = i + 1;
    }
    proof {
        assert(rdv.take(records@.len() as int) =~= rdv);
    }
    r
}

/// Get 4-byte dispatch selectors from the bytecode. Both idiom patterns are
/// matched over the whole instruction stream; the idiom with strictly more
/// matches wins, and a tie goes to the first idiom. Selectors are returned
/// in match order, not deduplicated.
pub fn selectors_from_bytecode(input: &[u8]) -> (r: Vec<[u8; 4]>)
    ensures
        r.deep_view() == chosen_selectors(input@),
{
    let b = Bytecode::new(input);
    let pat_a = solidity_pattern_exec();
    let sl_a = pat_a.as_slice();
    let recs_a = b.extract_pattern(sl_a);
    proof {
        assert(sl_a.deep_view() =~= pat_a.deep_view());
    }
    let solidity = keep_four_byte_captures(&recs_a);
    let pat_b = vyper_pattern_exec();
    let sl_b = pat_b.as_slice();
    let recs_b = b.extract_pattern(sl_b);
    proof {
        assert(sl_b.deep_view() =~= pat_b.deep_view());
    }
    let vyper = keep_four_byte_captures(&recs_b);
    proof {
        assert(solidity.deep_view() == solidity_selectors(input@));
        assert(vyper.deep_view() == vyper_selectors(input@));
        assert(solidity.deep_view().len() == solidity@.len());
        assert(vyper.deep_view().len() == vyper@.len());
    }
    if vyper.len() > solidity.len() {
        vyper
    } else {
        solidity
    }
}

/// Every kept selector capture is exactly 4 bytes.
pub proof fn lemma_selector_captures_len(records: Seq<Seq<Seq<u8>>>)
    ensures
        forall|i: int|
            0 <= i < selector_captures(records).len() ==> #[trigger] selector_captures(
                records,
            )[i].len() == 4,
    decreases records.len(),
{
    if records.len() > 0 {
        lemma_selector_captures_len(records.drop_last());
        let rest = selector_captures(records.drop_last());
        let rec = records.last();
        if rec.len() > 0 && rec[0].len() == 4 {
            assert forall|i: int|
                0 <= i < selector_captures(records).len() implies #[trigger] selector_captures(
                records,
            )[i].len() == 4 by {
                if i < rest.len() {
                    assert(selector_captures(records)[i] == rest[i]);
                } else {
                    assert(selector_captures(records)[i] == rec[0]);
                }
            }
        }
    }
}

/// The scan records 32-byte values only: every candidate comes from the
/// immediate of a push-32 instruction.
proof fn lemma_event_scan_len(instrs: Seq<Instr>, st: EventScan, code: Seq<u8>)
    requires
        forall|k: int|
            0 <= k < instrs.len() ==> crate::bytecode::well_formed_instr(
                code,
                #[trigger] instrs[k],
            ),
        forall|i: int| 0 <= i < st.found.len() ==> #[trigger] st.found[i].len() == 32,
        st.cand is Some ==> st.cand->0.len() == 32,
    ensures
        forall|i: int|
            0 <= i < event_scan_from(instrs, st).found.len() ==> #[trigger] event_scan_from(
                instrs,
                st,
            ).found[i].len() == 32,
    decreases instrs.len(),
{
    if instrs.len() > 0 {
        let ins = instrs[0];
        let st1 = event_step(st, ins);
        assert(crate::bytecode::well_formed_instr(code, ins));
        if ins.op == PUSH32 && ins.imm is Some {
            assert(crate::bytecode::push_size(PUSH32) == 32);
            assert(st1.cand->0.len() == 32);
        }
        assert forall|i: int| 0 <= i < st1.found.len() implies #[trigger] st1.found[i].len()
            == 32 by {
            if i < st.found.len() {
                assert(st1.found[i] == st.found[i]);
            }
        }
        assert(forall|k: int|
            0 <= k < instrs.drop_first().len() ==> crate::bytecode::well_formed_instr(
                code,
                #[trigger] instrs.drop_first()[k],
            ));
        lemma_event_scan_len(instrs.drop_first(), st1, code);
    }
}

/// Every recorded event signature is exactly 32 bytes.
pub proof fn lemma_event_signatures_len(code: Seq<u8>)
    ensures
        forall|i: int|
            0 <= i < event_signatures(code).len() ==> #[trigger] event_signatures(code)[i].len()
                == 32,
{
    crate::bytecode::lemma_decode_from_well_formed(code, 0);
    lemma_event_scan_len(decoded(code), initial_event_scan(), code);
}

/// An empty buffer yields no selectors for either idiom and no event
/// signatures.
pub proof fn lemma_empty_buffer_heuristics()
    ensures
        solidity_selectors(Seq::<u8>::empty()).len() == 0,
        vyper_selectors(Seq::<u8>::empty()).len() == 0,
        chosen_selectors(Seq::<u8>::empty()).len() == 0,
        event_signatures(Seq::<u8>::empty()).len() == 0,
{
    crate::bytecode::lemma_empty_buffer(solidity_pattern());
    crate::bytecode::lemma_empty_buffer(vyper_pattern());
    assert(decoded(Seq::<u8>::empty()) =~= Seq::<Instr>::empty());
}

/// Selector extraction is a pure function of the buffer: two results of its
/// contract on the same buffer are identical.
pub proof fn lemma_selectors_deterministic(code: Seq<u8>, r1: Seq<Seq<u8>>, r2: Seq<Seq<u8>>)
    requires
        r1 == chosen_selectors(code),
        r2 == chosen_selectors(code),
    ensures
        r1 == r2,
{
}

/// Event extraction is a pure function of the buffer: any two strictly
/// sorted sequences of 32-byte values whose members are exactly the
/// signatures recorded over the buffer are identical.
pub proof fn lemma_events_deterministic(code: Seq<u8>, r1: Seq<Seq<u8>>, r2: Seq<Seq<u8>>)
    requires
        strictly_sorted(r1),
        strictly_sorted(r2),
        forall|s: Seq<u8>| #[trigger] r1.contains(s) <==> event_signatures(code).contains(s),
        forall|s: Seq<u8>| #[trigger] r2.contains(s) <==> event_signatures(code).contains(s),
        forall|i: int| 0 <= i < r1.len() ==> r1[i].len() == 32,
        forall|i: int| 0 <= i < r2.len() ==> r2[i].len() == 32,
    ensures
        r1 == r2,
{
    assert(forall|s: Seq<u8>| #[trigger] r1.contains(s) <==> r2.contains(s));
    lemma_strictly_sorted_unique(r1, r2);
}

/// Majority vote between the two idioms: strictly more matches win, and a
/// tie goes to the first idiom.
pub proof fn lemma_majority_vote(code: Seq<u8>)
    ensures
        vyper_selectors(code).len() > solidity_selectors(code).len() ==> chosen_selectors(code)
            == vyper_selectors(code),
        vyper_selectors(code).len() <= solidity_selectors(code).len() ==> chosen_selectors(code)
            == solidity_selectors(code),
{
}

} // verus!
