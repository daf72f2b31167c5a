//! Lexicographic (big-endian byte-value) order on byte sequences, the exec
//! comparison of two 32-byte values under it, and sorted insertion without
//! duplicates, used to normalise the event-signature output.
use vstd::prelude::*;
use vstd::array::array_index_get;

verus! {

broadcast use vstd::seq_lib::group_seq_properties;

/// Strict lexicographic order on byte sequences: the first differing byte
/// decides; a proper prefix comes before every extension of it.
pub open spec fn lex_lt(a: Seq<u8>, b: Seq<u8>) -> bool
    decreases a.len(),
{
    if b.len() == 0 {
        false
    } else if a.len() == 0 {
        true
    } else if a[0] < b[0] {
        true
    } else if a[0] > b[0] {
        false
    } else {
        lex_lt(a.drop_first(), b.drop_first())
    }
}

/// The order is irreflexive.
pub proof fn lemma_lex_lt_irreflexive(a: Seq<u8>)
    ensures
        !lex_lt(a, a),
    decreases a.len(),
{
    if a.len() > 0 {
        lemma_lex_lt_irreflexive(a.drop_first());
    }
}

/// The order is transitive.
pub proof fn lemma_lex_lt_transitive(a: Seq<u8>, b: Seq<u8>, c: Seq<u8>)
    requires
        lex_lt(a, b),
        lex_lt(b, c),
    ensures
        lex_lt(a, c),
    decreases a.len(),
{
    if a.len() > 0 && b.len() > 0 && c.len() > 0 {
        if a[0] == b[0] && b[0] == c[0] {
            lemma_lex_lt_transitive(a.drop_first(), b.drop_first(), c.drop_first());
        }
    }
}

/// The order is asymmetric.
pub proof fn lemma_lex_lt_asymmetric(a: Seq<u8>, b: Seq<u8>)
    requires
        lex_lt(a, b),
    ensures
        !lex_lt(b, a),
{
    if lex_lt(b, a) {
        lemma_lex_lt_transitive(a, b, a);
        lemma_lex_lt_irreflexive(a);
    }
}

/// On sequences of one length the order is total: two sequences are ordered
/// one way or the other, or they are equal.
pub proof fn lemma_lex_lt_total(a: Seq<u8>, b: Seq<u8>)
    requires
        a.len() == b.len(),
    ensures
        lex_lt(a, b) || lex_lt(b, a) || a == b,
    decreases a.len(),
{
    if a.len() == 0 {
        assert(a =~= b);
    } else if a[0] == b[0] {
        lemma_lex_lt_total(a.drop_first(), b.drop_first());
        if !lex_lt(a, b) && !lex_lt(b, a) {
            assert(a.drop_first() == b.drop_first());
            assert(a =~= b) by {
                assert forall|i: int| 0 <= i < a.len() implies a[i] == b[i] by {
                    if i > 0 {
                        assert(a[i] == a.drop_first()[i - 1]);
                        assert(b[i] == b.drop_first()[i - 1]);
                    }
                }
            }
        }
    }
}

/// A difference at position `i`, after a common prefix, decides the order.
proof fn lemma_lex_lt_from_prefix(a: Seq<u8>, b: Seq<u8>, i: int)
    requires
        0 <= i < a.len(),
        i < b.len(),
        forall|j: int| 0 <= j < i ==> a[j] == b[j],
        a[i] < b[i],
    ensures
        lex_lt(a, b),
    decreases i,
{
    if i == 0 {
        assert(a[0] < b[0]);
    } else {
        assert(a[0] == b[0]);
        let at = a.drop_first();
        let bt = b.drop_first();
        assert(forall|j: int| 0 <= j < i - 1 ==> at[j] == a[j + 1] && bt[j] == b[j + 1]);
        assert(at[i - 1] == a[i] && bt[i - 1] == b[i]);
        lemma_lex_lt_from_prefix(at, bt, i - 1);
    }
}

/// Three-way comparison of two 32-byte values under the lexicographic order.
pub fn lex_cmp32(a: [u8; 32], b: [u8; 32]) -> (r: i8)
    ensures
        r == -1 || r == 0 || r == 1,
        r == -1 ==> lex_lt(a@, b@),
        r == 0 ==> a@ == b@,
        r == 1 ==> lex_lt(b@, a@),
{
    let mut i: usize = 0;
    while i < 32
        invariant
            i <= 32,
            forall|j: int| 0 <= j < i ==> a@[j] == b@[j],
        decreases 32 - i,
    {
        let x = *array_index_get(&a, i);
        let y = *array_index_get(&b, i);
        if x < y {
            proof {
                lemma_lex_lt_from_prefix(a@, b@, i as int);
            }
            return -1;
        }
        if y < x {
            proof {
                lemma_lex_lt_from_prefix(b@, a@, i as int);
            }
            return 1;
        }
        i = i + 1;
    }
    proof {
        assert(a@ =~= b@);
    }
    0
}

/// A sequence of byte sequences in strictly ascending lexicographic order;
/// such a sequence holds no duplicates.
pub open spec fn strictly_sorted(s: Seq<Seq<u8>>) -> bool {
    forall|i: int, j: int| 0 <= i < j < s.len() ==> lex_lt(s[i], s[j])
}

/// Two strictly sorted sequences of 32-byte values with the same members are
/// equal: the sorted, duplicate-free form of a collection is unique.
pub proof fn lemma_strictly_sorted_unique(a: Seq<Seq<u8>>, b: Seq<Seq<u8>>)
    requires
        strictly_sorted(a),
        strictly_sorted(b),
        forall|x: Seq<u8>| a.contains(x) <==> b.contains(x),
        forall|i: int| 0 <= i < a.len() ==> a[i].len() == 32,
        forall|i: int| 0 <= i < b.len() ==> b[i].len() == 32,
    ensures
        a == b,
    decreases a.len(),
{
    if a.len() == 0 {
        if b.len() > 0 {
            assert(b.contains(b[0]));
            assert(a.contains(b[0]));
        }
        assert(a =~= b);
    } else {
        assert(a.contains(a[0]));
        assert(b.contains(a[0]));
        assert(b.len() > 0);
        assert(b.contains(b[0]));
        assert(a.contains(b[0]));
        let j = choose|j: int| 0 <= j < b.len() && b[j] == a[0];
        let i = choose|i: int| 0 <= i < a.len() && a[i] == b[0];
        if i > 0 && j > 0 {
            assert(lex_lt(a[0], a[i]));
            assert(lex_lt(b[0], b[j]));
            lemma_lex_lt_transitive(a[0], b[0], a[0]);
            lemma_lex_lt_irreflexive(a[0]);
        }
        assert(a[0] == b[0]);
        let at = a.drop_first();
        let bt = b.drop_first();
        assert(forall|k: int| 0 <= k < at.len() ==> at[k] == a[k + 1]);
        assert(forall|k: int| 0 <= k < bt.len() ==> bt[k] == b[k + 1]);
        assert forall|x: Seq<u8>| at.contains(x) implies bt.contains(x) by {
            let k = choose|k: int| 0 <= k < at.len() && at[k] == x;
            assert(a[k + 1] == x);
            assert(a.contains(x));
            assert(b.contains(x));
            let m = choose|m: int| 0 <= m < b.len() && b[m] == x;
            if m == 0 {
                assert(x == a[0]);
                assert(lex_lt(a[0], a[k + 1]));
                lemma_lex_lt_irreflexive(a[0]);
            }
            assert(bt[m - 1] == x);
            assert(bt.contains(x));
        }
        assert forall|x: Seq<u8>| bt.contains(x) implies at.contains(x) by {
            let k = choose|k: int| 0 <= k < bt.len() && bt[k] == x;
            assert(b[k + 1] == x);
            assert(b.contains(x));
            assert(a.contains(x));
            let m = choose|m: int| 0 <= m < a.len() && a[m] == x;
            if m == 0 {
                assert(x == b[0]);
                assert(lex_lt(b[0], b[k + 1]));
                lemma_lex_lt_irreflexive(b[0]);
            }
            assert(at[m - 1] == x);
            assert(at.contains(x));
        }
        lemma_strictly_sorted_unique(at, bt);
        assert(a =~= b) by {
            assert forall|i: int| 0 <= i < a.len() implies a[i] == b[i] by {
                if i > 0 {
                    assert(at[i - 1] == a[i]);
                    assert(bt[i - 1] == b[i]);
                }
            }
        }
    }
}

/// Position of the first element of a strictly sorted vector that is not
/// below `x`; the vector's length if every element is below it.
fn lower_bound(out: &Vec<[u8; 32]>, x: [u8; 32]) -> (j: usize)
    requires
        strictly_sorted(out.deep_view()),
    ensures
        j <= out@.len(),
        forall|k: int| 0 <= k < j ==> lex_lt(out.deep_view()[k], x@),
        j < out@.len() ==> !lex_lt(out.deep_view()[j as int], x@),
{
    let mut j: usize = 0;
    loop
        invariant
            j <= out@.len(),
            strictly_sorted(out.deep_view()),
            forall|k: int| 0 <= k < j ==> lex_lt(out.deep_view()[k], x@),
        ensures
            j <= out@.len(),
            forall|k: int| 0 <= k < j ==> lex_lt(out.deep_view()[k], x@),
            j < out@.len() ==> !lex_lt(out.deep_view()[j as int], x@),
        decreases out@.len() - j,
    {
        if j == out.len() {
            break;
        }
        let c = lex_cmp32(out[j], x);
        proof {
            assert(out@[j as int].deep_view() == out.deep_view()[j as int]);
            assert(out@[j as int].deep_view() =~= out@[j as int]@);
        }
        if c == 0 {
            proof {
                lemma_lex_lt_irreflexive(x@);
            }
            break;
        }
        if c == 1 {
            proof {
                lemma_lex_lt_asymmetric(x@, out.deep_view()[j as int]);
            }
            break;
        }
        j = j + 1;
    }
    j
}

/// Insert a 32-byte value into a strictly sorted vector, keeping it sorted;
/// a value already present is not inserted again.
pub fn insert_sorted(out: Vec<[u8; 32]>, x: [u8; 32]) -> (r: Vec<[u8; 32]>)
    requires
        strictly_sorted(out.deep_view()),
    ensures
        strictly_sorted(r.deep_view()),
        forall|s: Seq<u8>|
            r.deep_view().contains(s) <==> (out.deep_view().contains(s) || s == x@),
{
    let ghost dv = out.deep_view();
    let j = lower_bound(&out, x);
    proof {
        assert(x.deep_view() =~= x@);
    }
    if j < out.len() && lex_cmp32(out[j], x) == 0 {
        proof {
            assert(dv[j as int] =~= x@);
            assert(dv.contains(x@));
        }
        out
    } else {
        let ghost present_above = j < dv.len() && dv[j as int] == x@;
        proof {
            if j < dv.len() {
                assert(out@[j as int].deep_view() == dv[j as int]);
                assert(out@[j as int].deep_view() =~= out@[j as int]@);
                if dv[j as int] == x@ {
                    lemma_lex_lt_irreflexive(x@);
                }
                assert(!lex_lt(dv[j as int], x@));
                assert(dv[j as int].len() == 32) by {
                    assert(dv[j as int] =~= out@[j as int]@);
                }
                lemma_lex_lt_total(dv[j as int], x@);
                assert(lex_lt(x@, dv[j as int]));
            }
        }
        let ghost ov = out@;
        let mut out = out;
        out.insert(j, x);
        let ghost ndv = out.deep_view();
        proof {
            ov.insert_ensures(j as int, x);
            assert(ndv.len() == dv.len() + 1);
            assert forall|k: int| 0 <= k < j implies ndv[k] == dv[k] by {
                assert(out@[k] == ov[k]);
            }
            assert(out@[j as int] == x);
            assert(ndv[j as int] =~= x@);
            assert(ndv[j as int] == x@);
            assert forall|k: int| j < k < ndv.len() implies ndv[k] == dv[k - 1] by {
                assert(out@[k] == ov[k - 1]);
            }
            assert forall|p: int, q: int| 0 <= p < q < ndv.len() implies lex_lt(
                ndv[p],
                ndv[q],
            ) by {
                if q < j {
                } else if p < j && q == j {
                    assert(lex_lt(dv[p], x@));
                    assert(ndv[q] == x@);
                } else if p < j && q > j {
                    assert(lex_lt(dv[p], dv[q - 1]) || p == q - 1);
                    if p == q - 1 {
                        assert(lex_lt(dv[p], x@));
                        assert(lex_lt(x@, dv[q - 1]));
                        lemma_lex_lt_transitive(dv[p], x@, dv[q - 1]);
                    }
                } else if p == j {
                    assert(lex_lt(x@, dv[j as int]));
                    if q - 1 > j {
                        lemma_lex_lt_transitive(x@, dv[j as int], dv[q - 1]);
                    }
                } else {
                    assert(lex_lt(dv[p - 1], dv[q - 1]));
                }
            }
            assert forall|s: Seq<u8>| ndv.contains(s) implies (dv.contains(s) || s == x@) by {
                let k = choose|k: int| 0 <= k < ndv.len() && ndv[k] == s;
                if k < j {
                    assert(dv[k] == s);
                } else if k > j {
                    assert(dv[k - 1] == s);
                }
            }
            assert forall|s: Seq<u8>| (dv.contains(s) || s == x@) implies ndv.contains(s) by {
                if dv.contains(s) {
                    let k = choose|k: int| 0 <= k < dv.len() && dv[k] == s;
                    if k < j {
                        assert(ndv[k] == s);
                    } else {
                        assert(ndv[k + 1] == s);
                    }
                } else {
                    assert(ndv[j as int] == s);
                }
            }
        }
        out
    }
}

} // verus!
