//! Instruction decoder and pattern-matching engine.
//!
//! A byte buffer is decoded into a sequence of instructions; push opcodes
//! carry a variable-length immediate operand that the decoder skips over.
//! A linear single-state automaton matches a sequence of opcode predicates
//! against the instruction stream and captures the immediates seen along
//! the way.
use crate::op_codes::{PUSH1, PUSH32};
use vstd::prelude::*;
use vstd::slice::slice_subrange;

verus! {

broadcast use vstd::seq_lib::group_seq_properties;

/// One decoded instruction: the offset of its opcode in the buffer, the
/// opcode byte, and the immediate operand that follows a push opcode.
/// The immediate is `None` for non-push opcodes and for a trailing push
/// whose declared operand runs past the end of the buffer.
pub struct Instr {
    pub offset: int,
    pub op: u8,
    pub imm: Option<Seq<u8>>,
}

/// A push opcode declares, in its value, how many immediate bytes follow it.
pub open spec fn is_push(op: u8) -> bool {
    PUSH1 <= op <= PUSH32
}

/// Number of immediate bytes a push opcode declares (1 through 32).
pub open spec fn push_size(op: u8) -> int
    recommends
        is_push(op),
{
    op - (PUSH1 - 1)
}

/// The instruction whose opcode sits at offset `i` of the buffer.
pub open spec fn instr_at(code: Seq<u8>, i: int) -> Instr
    recommends
        0 <= i < code.len(),
{
    let op = code[i];
    if is_push(op) && i + push_size(op) < code.len() {
        Instr { offset: i, op, imm: Some(code.subrange(i + 1, i + 1 + push_size(op))) }
    } else {
        Instr { offset: i, op, imm: None }
    }
}

/// Offset of the instruction that follows the one at offset `i`.
pub open spec fn next_offset(code: Seq<u8>, i: int) -> int
    recommends
        0 <= i < code.len(),
{
    if is_push(code[i]) {
        i + 1 + push_size(code[i])
    } else {
        i + 1
    }
}

/// The instructions decoded from offset `i` to the end of the buffer.
pub open spec fn decode_from(code: Seq<u8>, i: int) -> Seq<Instr>
    decreases (if 0 <= i < code.len() {
        code.len() - i
    } else {
        0int
    }),
{
    if i < 0 || i >= code.len() {
        Seq::empty()
    } else {
        seq![instr_at(code, i)] + decode_from(code, next_offset(code, i))
    }
}

/// The full instruction sequence of a buffer.
pub open spec fn decoded(code: Seq<u8>) -> Seq<Instr> {
    decode_from(code, 0)
}

/// What holds of every decoded instruction: its opcode sits at its offset
/// inside the buffer, and a present immediate belongs to a push opcode, has
/// exactly the declared length, and lies fully within the buffer.
pub open spec fn well_formed_instr(code: Seq<u8>, ins: Instr) -> bool {
    &&& 0 <= ins.offset < code.len()
    &&& ins.op == code[ins.offset]
    &&& ins.imm is Some ==> {
        &&& is_push(ins.op)
        &&& ins.offset + push_size(ins.op) < code.len()
        &&& ins.imm->0 == code.subrange(ins.offset + 1, ins.offset + 1 + push_size(ins.op))
        &&& ins.imm->0.len() == push_size(ins.op)
    }
}

/// Every instruction decoded from offset `i` on is well formed and sits at
/// or after `i`.
pub proof fn lemma_decode_from_well_formed(code: Seq<u8>, i: int)
    ensures
        forall|k: int|
            0 <= k < decode_from(code, i).len() ==> well_formed_instr(
                code,
                #[trigger] decode_from(code, i)[k],
            ) && i <= decode_from(code, i)[k].offset,
    decreases (if 0 <= i < code.len() {
        code.len() - i
    } else {
        0int
    }),
{
    if 0 <= i < code.len() {
        let next = next_offset(code, i);
        lemma_decode_from_well_formed(code, next);
        let d = decode_from(code, i);
        let tail = decode_from(code, next);
        assert(d == seq![instr_at(code, i)] + tail);
        assert(well_formed_instr(code, instr_at(code, i)));
        assert forall|k: int|
            0 <= k < d.len() implies well_formed_instr(code, #[trigger] d[k]) && i
            <= d[k].offset by {
            if k == 0 {
                assert(d[k] == instr_at(code, i));
            } else {
                assert(d[k] == tail[k - 1]);
                assert(next > i);
            }
        }
    }
}

/// The decoder never backtracks: instruction offsets strictly increase
/// along the decoded sequence.
pub proof fn lemma_decode_offsets_increase(code: Seq<u8>, i: int)
    ensures
        forall|k: int, l: int|
            0 <= k < l < decode_from(code, i).len() ==> #[trigger] decode_from(code, i)[k].offset
                < #[trigger] decode_from(code, i)[l].offset,
    decreases (if 0 <= i < code.len() {
        code.len() - i
    } else {
        0int
    }),
{
    if 0 <= i < code.len() {
        let next = next_offset(code, i);
        lemma_decode_offsets_increase(code, next);
        lemma_decode_from_well_formed(code, next);
        let d = decode_from(code, i);
        let tail = decode_from(code, next);
        assert(d == seq![instr_at(code, i)] + tail);
        assert forall|k: int, l: int|
            0 <= k < l < d.len() implies #[trigger] d[k].offset < #[trigger] d[l].offset by {
            assert(d[l] == tail[l - 1]);
            if k == 0 {
                assert(d[k] == instr_at(code, i));
                assert(next <= tail[l - 1].offset);
                assert(next > i);
            } else {
                assert(d[k] == tail[k - 1]);
            }
        }
    }
}

/// Mathematical value of a pattern element: a predicate over one opcode byte.
pub enum PatternView {
    Op(u8),
    Ops(Seq<u8>),
    OpAny,
}

/// Whether an opcode satisfies a pattern element.
pub open spec fn pat_matches(p: PatternView, op: u8) -> bool {
    match p {
        PatternView::Op(v) => op == v,
        PatternView::Ops(vs) => vs.contains(op),
        PatternView::OpAny => true,
    }
}

/// A predicate over a single opcode byte: an exact value, a set of values,
/// or a wildcard that matches every opcode.
pub enum Pattern {
    Op(u8),
    Ops(Vec<u8>),
    OpAny,
}

impl View for Pattern {
    type V = PatternView;

    open spec fn view(&self) -> PatternView {
        match self {
            Pattern::Op(v) => PatternView::Op(*v),
            Pattern::Ops(vs) => PatternView::Ops(vs@),
            Pattern::OpAny => PatternView::OpAny,
        }
    }
}

impl DeepView for Pattern {
    type V = PatternView;

    open spec fn deep_view(&self) -> PatternView {
        self@
    }
}

/// Result of combining two pattern elements into one that matches the union
/// of what the two match. Combining with the wildcard yields the wildcard.
pub open spec fn combined(a: PatternView, b: PatternView) -> PatternView {
    match (a, b) {
        (PatternView::Op(x), PatternView::Op(y)) => PatternView::Ops(seq![x, y]),
        (PatternView::Op(x), PatternView::Ops(ys)) => PatternView::Ops(seq![x] + ys),
        (PatternView::Ops(xs), PatternView::Op(y)) => PatternView::Ops(xs.push(y)),
        (PatternView::Ops(xs), PatternView::Ops(ys)) => PatternView::Ops(xs + ys),
        _ => PatternView::OpAny,
    }
}

/// A combined element matches exactly the opcodes that either part matches.
pub proof fn lemma_combined_matches_union(a: PatternView, b: PatternView, op: u8)
    ensures
        pat_matches(combined(a, b), op) == (pat_matches(a, op) || pat_matches(b, op)),
{
    match (a, b) {
        (PatternView::Op(x), PatternView::Op(y)) => {
            let vs = seq![x, y];
            assert(vs[0] == x && vs[1] == y);
            assert(vs.contains(op) == (op == x || op == y)) by {
                if op == x {
                    assert(vs.contains(op));
                } else if op == y {
                    assert(vs.contains(op));
                }
            }
        },
        (PatternView::Op(x), PatternView::Ops(ys)) => {
            let vs = seq![x] + ys;
            assert(vs[0] == x);
            assert forall|j: int| 0 <= j < ys.len() implies vs[j + 1] == ys[j] by {}
            assert(vs.contains(op) == (op == x || ys.contains(op))) by {
                if vs.contains(op) {
                    let j = choose|j: int| 0 <= j < vs.len() && vs[j] == op;
                    if j > 0 {
                        assert(ys[j - 1] == op);
                        assert(ys.contains(op));
                    }
                } else {
                    assert(vs[0] != op);
                    if ys.contains(op) {
                        let j = choose|j: int| 0 <= j < ys.len() && ys[j] == op;
                        assert(vs[j + 1] == op);
                        assert(vs.contains(op));
                    }
                }
            }
        },
        (PatternView::Ops(xs), PatternView::Op(y)) => {
            let vs = xs.push(y);
            assert(vs[xs.len() as int] == y);
            assert(vs.contains(op) == (xs.contains(op) || op == y)) by {
                if vs.contains(op) {
                    let j = choose|j: int| 0 <= j < vs.len() && vs[j] == op;
                    if j < xs.len() {
                        assert(xs[j] == op);
                        assert(xs.contains(op));
                    }
                } else if xs.contains(op) {
                    let j = choose|j: int| 0 <= j < xs.len() && xs[j] == op;
                    assert(vs[j] == op);
                    assert(vs.contains(op));
                }
            }
        },
        (PatternView::Ops(xs), PatternView::Ops(ys)) => {
            let vs = xs + ys;
            assert(vs.contains(op) == (xs.contains(op) || ys.contains(op))) by {
                if vs.contains(op) {
                    let j = choose|j: int| 0 <= j < vs.len() && vs[j] == op;
                    if j < xs.len() {
                        assert(xs[j] == op);
                        assert(xs.contains(op));
                    } else {
                        assert(ys[j - xs.len()] == op);
                        assert(ys.contains(op));
                    }
                } else {
                    if xs.contains(op) {
                        let j = choose|j: int| 0 <= j < xs.len() && xs[j] == op;
                        assert(vs[j] == op);
                    }
                    if ys.contains(op) {
                        let j = choose|j: int| 0 <= j < ys.len() && ys[j] == op;
                        assert(vs[j + xs.len()] == op);
                    }
                }
            }
        },
        _ => {},
    }
}

impl Pattern {
    /// Whether an opcode satisfies this pattern element.
    pub fn matches(&self, op: u8) -> (r: bool)
        ensures
            r == pat_matches(self@, op),
    {
        match self {
            Pattern::Op(v) => *v == op,
            Pattern::Ops(vs) => {
                let mut i: usize = 0;
                let mut found = false;
                while i < vs.len()
                    invariant
                        i <= vs@.len(),
                        found == exists|j: int| 0 <= j < i && vs@[j] == op,
                    decreases vs@.len() - i,
                {
                    if vs[i] == op {
                        found = true;
                    }
                    i = i + 1;
                }
                found
            },
            Pattern::OpAny => true,
        }
    }

    /// Combine two pattern elements into one that matches an opcode exactly
    /// when either of the two does. Two exact or set elements form a set;
    /// the wildcard absorbs everything it is combined with.
    pub fn one_of(self, other: Pattern) -> (r: Pattern)
        ensures
            r@ == combined(self@, other@),
            forall|op: u8|
                pat_matches(r@, op) == (pat_matches(self@, op) || pat_matches(other@, op)),
    {
        proof {
            assert forall|op: u8|
                pat_matches(combined(self@, other@), op) == (pat_matches(self@, op) || pat_matches(
                    other@,
                    op,
                )) by {
                lemma_combined_matches_union(self@, other@, op);
            }
        }
        match (self, other) {
            (Pattern::Op(a), Pattern::Op(b)) => {
                let mut vs: Vec<u8> = Vec::new();
                vs.push(a);
                vs.push(b);
                proof {
                    assert(vs@ =~= seq![a, b]);
                }
                Pattern::Ops(vs)
            },
            (Pattern::Op(a), Pattern::Ops(bs)) => {
                let ghost obs = bs@;
                let mut bs = bs;
                bs.insert(0, a);
                proof {
                    assert(bs@ =~= seq![a] + obs);
                }
                Pattern::Ops(bs)
            },
            (Pattern::Ops(as_), Pattern::Op(b)) => {
                let ghost oas = as_@;
                let mut as_ = as_;
                as_.push(b);
                proof {
                    assert(as_@ =~= oas.push(b));
                }
                Pattern::Ops(as_)
            },
            (Pattern::Ops(as_), Pattern::Ops(bs)) => {
                let ghost oas = as_@;
                let ghost obs = bs@;
                let mut as_ = as_;
                let mut bs = bs;
                as_.append(&mut bs);
                proof {
                    assert(as_@ =~= oas + obs);
                }
                Pattern::Ops(as_)
            },
            (Pattern::OpAny, _) => Pattern::OpAny,
            (_, Pattern::OpAny) => Pattern::OpAny,
        }
    }
}

/// State of the matching automaton: the progress index into the pattern,
/// the immediates captured by the match in progress, and the records of
/// the complete matches found so far.
pub struct MatchState {
    pub pc: int,
    pub buf: Seq<Seq<u8>>,
    pub out: Seq<Seq<Seq<u8>>>,
}

/// The automaton before any instruction has been consumed.
pub open spec fn initial_match_state() -> MatchState {
    MatchState { pc: 0, buf: Seq::empty(), out: Seq::empty() }
}

/// One automaton step. A matching instruction contributes its immediate (if
/// present) to the in-progress captures and advances the progress index;
/// completing the pattern flushes the captures as one record and restarts.
/// A mismatch with progress discards that progress; the mismatching
/// instruction is consumed and is not retried against the pattern's start.
pub open spec fn match_step(pattern: Seq<PatternView>, st: MatchState, ins: Instr) -> MatchState
    recommends
        0 <= st.pc < pattern.len(),
{
    if pat_matches(pattern[st.pc], ins.op) {
        let buf = if ins.imm is Some {
            st.buf.push(ins.imm->0)
        } else {
            st.buf
        };
        if st.pc + 1 == pattern.len() {
            MatchState { pc: 0, buf: Seq::empty(), out: st.out.push(buf) }
        } else {
            MatchState { pc: st.pc + 1, buf, out: st.out }
        }
    } else if st.pc > 0 {
        MatchState { pc: 0, buf: Seq::empty(), out: st.out }
    } else {
        st
    }
}

/// The automaton run over a whole instruction sequence from a given state.
pub open spec fn match_from(pattern: Seq<PatternView>, instrs: Seq<Instr>, st: MatchState) -> MatchState
    decreases instrs.len(),
{
    if instrs.len() == 0 {
        st
    } else {
        match_from(pattern, instrs.drop_first(), match_step(pattern, st, instrs[0]))
    }
}

/// The records of all complete, non-overlapping matches of a pattern over
/// the instruction stream of a buffer, in the order they were completed.
pub open spec fn extracted(code: Seq<u8>, pattern: Seq<PatternView>) -> Seq<Seq<Seq<u8>>> {
    match_from(pattern, decoded(code), initial_match_state()).out
}

/// Running the automaton over a sequence extended by one instruction is one
/// step after running it over the sequence.
pub proof fn lemma_match_from_snoc(
    pattern: Seq<PatternView>,
    instrs: Seq<Instr>,
    ins: Instr,
    st: MatchState,
)
    ensures
        match_from(pattern, instrs.push(ins), st) == match_step(
            pattern,
            match_from(pattern, instrs, st),
            ins,
        ),
    decreases instrs.len(),
{
    let s1 = instrs.push(ins);
    if instrs.len() == 0 {
        assert(s1.len() == 1);
        assert(s1[0] == ins);
        assert(s1.drop_first() =~= Seq::<Instr>::empty());
        assert(match_from(pattern, instrs, st) == st);
        assert(match_from(pattern, s1, st) == match_from(
            pattern,
            s1.drop_first(),
            match_step(pattern, st, ins),
        ));
        assert(match_from(pattern, s1.drop_first(), match_step(pattern, st, ins)) == match_step(
            pattern,
            st,
            ins,
        ));
    } else {
        assert(s1.len() == instrs.len() + 1);
        assert(s1[0] == instrs[0]);
        assert(s1.drop_first() =~= instrs.drop_first().push(ins));
        lemma_match_from_snoc(pattern, instrs.drop_first(), ins, match_step(pattern, st, instrs[0]));
        assert(match_from(pattern, s1, st) == match_from(
            pattern,
            s1.drop_first(),
            match_step(pattern, st, instrs[0]),
        ));
        assert(match_from(pattern, instrs, st) == match_from(
            pattern,
            instrs.drop_first(),
            match_step(pattern, st, instrs[0]),
        ));
    }
}

/// The automaton's progress index stays within the pattern, and the record
/// list never shrinks.
pub proof fn lemma_match_from_invariants(
    pattern: Seq<PatternView>,
    instrs: Seq<Instr>,
    st: MatchState,
)
    requires
        pattern.len() > 0,
        0 <= st.pc < pattern.len(),
    ensures
        0 <= match_from(pattern, instrs, st).pc < pattern.len(),
        match_from(pattern, instrs, st).out.len() >= st.out.len(),
    decreases instrs.len(),
{
    if instrs.len() > 0 {
        lemma_match_from_invariants(pattern, instrs.drop_first(), match_step(pattern, st, instrs[0]));
    }
}

/// A cursor over a byte buffer that yields one instruction per step:
/// its offset, its opcode, and its immediate operand when one is fully
/// present. It never backtracks; offsets strictly increase.
pub struct BytecodeIterator<'a> {
    pub offset: usize,
    pub code: &'a [u8],
}

impl<'a> BytecodeIterator<'a> {
    pub fn new(code: &'a [u8]) -> (r: Self)
        ensures
            r.code@ == code@,
            r.offset == 0,
    {
        BytecodeIterator { offset: 0, code }
    }

    /// Decode the instruction at the cursor and advance past it, or report
    /// the end of the buffer.
    pub fn next(&mut self) -> (r: Option<(usize, u8, Option<&'a [u8]>)>)
        ensures
            final(self).code == old(self).code,
            old(self).offset >= old(self).code@.len() ==> r is None && final(self).offset == old(
                self,
            ).offset,
            old(self).offset < old(self).code@.len() ==> {
                let ins = instr_at(old(self).code@, old(self).offset as int);
                let t = r->0;
                &&& r is Some
                &&& t.0 == old(self).offset
                &&& t.1 == ins.op
                &&& (t.2 is Some <==> ins.imm is Some)
                &&& (t.2 is Some ==> (t.2)->0@ == ins.imm->0)
                &&& decode_from(old(self).code@, final(self).offset as int) == decode_from(
                    old(self).code@,
                    old(self).offset as int,
                ).drop_first()
            },
    {
        let ghost code = self.code@;
        if self.offset < self.code.len() {
            let offset = self.offset;
            let op = *vstd::slice::slice_index_get(self.code, offset);
            let ghost ins = instr_at(code, offset as int);
            let ghost next = next_offset(code, offset as int);
            proof {
                assert(decode_from(code, offset as int) == seq![ins] + decode_from(code, next));
                assert((seq![ins] + decode_from(code, next)).drop_first() =~= decode_from(
                    code,
                    next,
                ));
            }
            if PUSH1 <= op && op <= PUSH32 {
                let size = (op - (PUSH1 - 1)) as usize;
                let rem = self.code.len() - offset - 1;
                if size <= rem {
                    let imm = slice_subrange(self.code, offset + 1, offset + 1 + size);
                    self.offset = offset + 1 + size;
                    Some((offset, op, Some(imm)))
                } else {
                    self.offset = self.code.len();
                    proof {
                        assert(next >= code.len());
                        assert(decode_from(code, code.len() as int) =~= decode_from(code, next));
                    }
                    Some((offset, op, None))
                }
            } else {
                self.offset = offset + 1;
                Some((offset, op, None))
            }
        } else {
            None
        }
    }
}

/// A read-only byte buffer together with the pattern-matching operations
/// over its instruction stream.
pub struct Bytecode<'a> {
    pub code: &'a [u8],
}

impl<'a> Bytecode<'a> {
    pub fn new(code: &'a [u8]) -> (r: Self)
        ensures
            r.code@ == code@,
    {
        Bytecode { code }
    }

    /// A fresh cursor over the buffer, starting at its first instruction.
    pub fn iter(&self) -> (r: BytecodeIterator<'a>)
        ensures
            r.code@ == self.code@,
            r.offset == 0,
    {
        BytecodeIterator::new(self.code)
    }

    /// Scan the instruction stream once and return, for every complete,
    /// non-overlapping match of the pattern, the immediates captured along
    /// the way, in pattern order. The captured slices borrow from the
    /// buffer.
    pub fn extract_pattern(&self, pattern: &[Pattern]) -> (r: Vec<Vec<&'a [u8]>>)
        requires
            pattern@.len() > 0,
        ensures
            r.deep_view() == extracted(self.code@, pattern.deep_view()),
    {
        let ghost pat = pattern.deep_view();
        let ghost instrs = decoded(self.code@);
        let ghost mut done: Seq<Instr> = Seq::empty();
        let plen = pattern.len();
        let mut it = BytecodeIterator::new(self.code);
        let mut output: Vec<Vec<&'a [u8]>> = Vec::new();
        let mut buf: Vec<&'a [u8]> = Vec::new();
        let mut pc: usize = 0;
        proof {
            assert(buf.deep_view() =~= Seq::<Seq<u8>>::empty());
            assert(output.deep_view() =~= Seq::<Seq<Seq<u8>>>::empty());
            assert(done =~= instrs.take(0));
            assert(instrs.skip(0) =~= instrs);
        }
        while it.offset < it.code.len()
            invariant
                it.code@ == self.code@,
                pat == pattern.deep_view(),
                pat.len() == plen,
                pat.len() > 0,
                instrs == decoded(self.code@),
                decode_from(self.code@, it.offset as int) == instrs.skip(done.len() as int),
                0 <= done.len() <= instrs.len(),
                done == instrs.take(done.len() as int),
                match_from(pat, done, initial_match_state()) == (MatchState {
                    pc: pc as int,
                    buf: buf.deep_view(),
                    out: output.deep_view(),
                }),
                0 <= pc < pat.len(),
            decreases instrs.len() - done.len(),
        {
            let ghost prev = match_from(pat, done, initial_match_state());
            let ghost k = done.len() as int;
            let ghost ins = instr_at(self.code@, it.offset as int);
            proof {
                assert(decode_from(self.code@, it.offset as int)[0] == ins);
                assert(decode_from(self.code@, it.offset as int).len() > 0);
                assert(instrs.skip(k).len() == instrs.len() - k);
                assert(k < instrs.len());
                assert(instrs.skip(k)[0] == instrs[k]);
                assert(instrs[k] == ins);
                assert(instrs.skip(k).drop_first() =~= instrs.skip(k + 1));
                lemma_match_from_snoc(pat, done, ins, initial_match_state());
                assert(done.push(ins) =~= instrs.take(k + 1));
            }
            if let Some((_offset, op, data)) = it.next() {
                let ghost st = match_step(pat, prev, ins);
                proof {
                    assert(pattern@[pc as int].deep_view() == pat[pc as int]);
                }
                if vstd::slice::slice_index_get(pattern, pc).matches(op) {
                    if let Some(value) = data {
                        buf.push(value);
                        proof {
                            assert(buf.deep_view() =~~= prev.buf.push(ins.imm->0));
                        }
                    }
                    pc = pc + 1;
                    if pc == plen {
                        let flushed = buf;
                        buf = Vec::new();
                        output.push(flushed);
                        pc = 0;
                        proof {
                            assert(buf.deep_view() =~= Seq::<Seq<u8>>::empty());
                            assert(output.deep_view() =~~= st.out);
                        }
                    }
                } else if pc > 0 {
                    pc = 0;
                    buf.clear();
                    proof {
                        assert(buf.deep_view() =~= Seq::<Seq<u8>>::empty());
                    }
                }
                proof {
                    done = done.push(ins);
                    assert(match_from(pat, done, initial_match_state()) == st);
                    assert(buf.deep_view() =~~= st.buf);
                    assert(output.deep_view() =~~= st.out);
                }
            }
        }
        proof {
            assert(decode_from(self.code@, it.offset as int) =~= Seq::<Instr>::empty());
            assert(done.len() == instrs.len());
            assert(done =~= instrs);
        }
        output
    }

    /// Whether at least one complete match of the pattern exists in the
    /// instruction stream; stops scanning at the first one.
    pub fn has_pattern(&self, pattern: &[Pattern]) -> (r: bool)
        requires
            pattern@.len() > 0,
        ensures
            r == (extracted(self.code@, pattern.deep_view()).len() > 0),
    {
        let ghost pat = pattern.deep_view();
        let ghost instrs = decoded(self.code@);
        let ghost mut done: Seq<Instr> = Seq::empty();
        let plen = pattern.len();
        let mut it = BytecodeIterator::new(self.code);
        let mut pc: usize = 0;
        proof {
            assert(done =~= instrs.take(0));
            assert(instrs.skip(0) =~= instrs);
        }
        while it.offset < it.code.len()
            invariant
                it.code@ == self.code@,
                pat == pattern.deep_view(),
                pat.len() == plen,
                pat.len() > 0,
                instrs == decoded(self.code@),
                decode_from(self.code@, it.offset as int) == instrs.skip(done.len() as int),
                0 <= done.len() <= instrs.len(),
                done == instrs.take(done.len() as int),
                match_from(pat, done, initial_match_state()).pc == pc as int,
                match_from(pat, done, initial_match_state()).out.len() == 0,
                0 <= pc < pat.len(),
            decreases instrs.len() - done.len(),
        {
            let ghost prev = match_from(pat, done, initial_match_state());
            let ghost k = done.len() as int;
            let ghost ins = instr_at(self.code@, it.offset as int);
            proof {
                assert(decode_from(self.code@, it.offset as int)[0] == ins);
                assert(decode_from(self.code@, it.offset as int).len() > 0);
                assert(instrs.skip(k).len() == instrs.len() - k);
                assert(k < instrs.len());
                assert(instrs.skip(k)[0] == instrs[k]);
                assert(instrs[k] == ins);
                assert(instrs.skip(k).drop_first() =~= instrs.skip(k + 1));
                lemma_match_from_snoc(pat, done, ins, initial_match_state());
                assert(done.push(ins) =~= instrs.take(k + 1));
            }
            if let Some((_offset, op, _data)) = it.next() {
                proof {
                    assert(pattern@[pc as int].deep_view() == pat[pc as int]);
                }
                if vstd::slice::slice_index_get(pattern, pc).matches(op) {
                    pc = pc + 1;
                    if pc == plen {
                        proof {
                            let st = match_step(pat, prev, ins);
                            assert(st.out.len() == 1);
                            assert(match_from(pat, done.push(ins), initial_match_state()) == st);
                            assert(instrs =~= done.push(ins) + instrs.skip(k + 1));
                            lemma_match_from_split(
                                pat,
                                done.push(ins),
                                instrs.skip(k + 1),
                                initial_match_state(),
                            );
                            lemma_match_from_invariants(pat, instrs.skip(k + 1), st);
                        }
                        return true;
                    }
                } else if pc > 0 {
                    pc = 0;
                }
                proof {
                    done = done.push(ins);
                }
            }
        }
        proof {
            assert(decode_from(self.code@, it.offset as int) =~= Seq::<Instr>::empty());
            assert(done.len() == instrs.len());
            assert(done =~= instrs);
        }
        false
    }
}

/// An empty buffer decodes to no instructions, so no pattern can be matched
/// in it: extraction yields no records, and so no match exists.
pub proof fn lemma_empty_buffer(pat: Seq<PatternView>)
    ensures
        decoded(Seq::<u8>::empty()).len() == 0,
        extracted(Seq::<u8>::empty(), pat).len() == 0,
{
    assert(decode_from(Seq::<u8>::empty(), 0) =~= Seq::<Instr>::empty());
}

/// A buffer that holds a push-2 opcode, two immediate bytes and one plain
/// opcode decodes to exactly two instructions: one at offset 0 carrying the
/// two bytes, and one at offset 3 with no immediate.
pub proof fn lemma_decode_push_then_plain(x: u8, y: u8, op: u8)
    requires
        !is_push(op),
    ensures
        decoded(seq![crate::op_codes::PUSH2, x, y, op]) == seq![
            Instr { offset: 0, op: crate::op_codes::PUSH2, imm: Some(seq![x, y]) },
            Instr { offset: 3, op: op, imm: None },
        ],
{
    let code = seq![crate::op_codes::PUSH2, x, y, op];
    assert(code.len() == 4);
    assert(code[0] == crate::op_codes::PUSH2);
    assert(code[3] == op);
    assert(is_push(crate::op_codes::PUSH2));
    assert(push_size(crate::op_codes::PUSH2) == 2);
    assert(decode_from(code, 4) =~= Seq::<Instr>::empty());
    assert(instr_at(code, 3) == Instr { offset: 3, op: op, imm: None });
    assert(next_offset(code, 3) == 4);
    assert(decode_from(code, 3) == seq![instr_at(code, 3)] + decode_from(code, 4));
    assert(instr_at(code, 0) == Instr {
        offset: 0,
        op: crate::op_codes::PUSH2,
        imm: Some(seq![x, y]),
    }) by {
        assert(code.subrange(1, 3) =~= seq![x, y]);
    }
    assert(next_offset(code, 0) == 3);
    assert(decode_from(code, 0) == seq![instr_at(code, 0)] + decode_from(code, 3));
    assert(decode_from(code, 0) =~= seq![
        Instr { offset: 0, op: crate::op_codes::PUSH2, imm: Some(seq![x, y]) },
        Instr { offset: 3, op: op, imm: None },
    ]);
}

/// A push-3 opcode with only one trailing byte decodes to a single
/// instruction with no immediate, and decoding terminates there.
pub proof fn lemma_decode_truncated_push(x: u8)
    ensures
        decoded(seq![crate::op_codes::PUSH3, x]) == seq![
            Instr { offset: 0, op: crate::op_codes::PUSH3, imm: None },
        ],
{
    let code = seq![crate::op_codes::PUSH3, x];
    assert(code.len() == 2);
    assert(code[0] == crate::op_codes::PUSH3);
    assert(is_push(crate::op_codes::PUSH3));
    assert(push_size(crate::op_codes::PUSH3) == 3);
    assert(instr_at(code, 0) == Instr { offset: 0, op: crate::op_codes::PUSH3, imm: None });
    assert(next_offset(code, 0) == 4);
    assert(decode_from(code, 4) =~= Seq::<Instr>::empty());
    assert(decode_from(code, 0) =~= seq![
        Instr { offset: 0, op: crate::op_codes::PUSH3, imm: None },
    ]);
}

/// After a mismatch the automaton discards its progress; the mismatching
/// instruction is consumed, not retried against the pattern's start. With
/// the pattern `a, b` (for distinct opcodes) the instruction stream
/// `a, a, b` therefore completes no match, while the stream `a, b`
/// completes exactly one.
pub proof fn lemma_mismatch_discards_progress(a: u8, b: u8, i1: Instr, i2: Instr, i3: Instr)
    requires
        a != b,
        i1.op == a,
        i2.op == a,
        i3.op == b,
    ensures
        match_from(
            seq![PatternView::Op(a), PatternView::Op(b)],
            seq![i1, i2, i3],
            initial_match_state(),
        ).out.len() == 0,
        match_from(
            seq![PatternView::Op(a), PatternView::Op(b)],
            seq![i1, i3],
            initial_match_state(),
        ).out.len() == 1,
{
    let pat = seq![PatternView::Op(a), PatternView::Op(b)];
    let st0 = initial_match_state();
    assert(pat[0] == PatternView::Op(a));
    assert(pat[1] == PatternView::Op(b));
    let st1 = match_step(pat, st0, i1);
    assert(st1.pc == 1 && st1.out.len() == 0);
    let st2 = match_step(pat, st1, i2);
    assert(st2.pc == 0 && st2.out.len() == 0);
    let st3 = match_step(pat, st2, i3);
    assert(st3.out.len() == 0);
    let s3 = seq![i1, i2, i3];
    assert(s3[0] == i1);
    assert(s3.drop_first() =~= seq![i2, i3]);
    assert(seq![i2, i3][0] == i2);
    assert(seq![i2, i3].drop_first() =~= seq![i3]);
    assert(seq![i3][0] == i3);
    assert(seq![i3].drop_first() =~= Seq::<Instr>::empty());
    assert(match_from(pat, s3, st0) == match_from(pat, seq![i2, i3], st1));
    assert(match_from(pat, seq![i2, i3], st1) == match_from(pat, seq![i3], st2));
    assert(match_from(pat, seq![i3], st2) == match_from(pat, Seq::<Instr>::empty(), st3));
    assert(match_from(pat, Seq::<Instr>::empty(), st3) == st3);
    let stb = match_step(pat, st1, i3);
    assert(stb.out.len() == 1);
    let s2 = seq![i1, i3];
    assert(s2[0] == i1);
    assert(s2.drop_first() =~= seq![i3]);
    assert(match_from(pat, s2, st0) == match_from(pat, seq![i3], st1));
    assert(match_from(pat, seq![i3], st1) == match_from(pat, Seq::<Instr>::empty(), stb));
    assert(match_from(pat, Seq::<Instr>::empty(), stb) == stb);
}

/// Running the automaton over a concatenation is running it over the first
/// part and then over the second from the state reached.
pub proof fn lemma_match_from_split(
    pattern: Seq<PatternView>,
    a: Seq<Instr>,
    b: Seq<Instr>,
    st: MatchState,
)
    ensures
        match_from(pattern, a + b, st) == match_from(pattern, b, match_from(pattern, a, st)),
    decreases a.len(),
{
    if a.len() == 0 {
        assert(a + b =~= b);
    } else {
        assert((a + b)[0] == a[0]);
        assert((a + b).drop_first() =~= a.drop_first() + b);
        lemma_match_from_split(pattern, a.drop_first(), b, match_step(pattern, st, a[0]));
    }
}

} // verus!
