//! Laws that hold of the monitor's query model.

use vstd::prelude::*;

use crate::monitor::check_describes;
use crate::monitor::matched_idents;
use crate::monitor::reports;
use crate::monitor::ThreadRecordView;

verus! {

/// Exactness: a query over watch list `w` against the recorded map `m`
/// reports identity `x` exactly when `x` is watched and recorded — no false
/// positives, no false negatives.
pub proof fn lemma_matched_exact(m: Map<u64, Option<Seq<char>>>, w: Seq<u64>, x: u64)
    ensures
        matched_idents(m, w).contains(x) <==> w.contains(x) && m.dom().contains(x),
    decreases w.len(),
{
    if w.len() == 0 {
    } else {
        lemma_matched_exact(m, w.drop_last(), x);
        let rest = matched_idents(m, w.drop_last());
        if w.last() == x && m.dom().contains(x) && !rest.contains(x) {
            assert(rest.push(x)[rest.len() as int] == x);
            assert(w[w.len() - 1] == x);
        } else {
            if rest.contains(x) {
                let k = choose|k: int| 0 <= k < rest.len() && rest[k] == x;
                if m.dom().contains(w.last()) && !rest.contains(w.last()) {
                    assert(rest.push(w.last())[k] == x);
                }
                let j = choose|j: int| 0 <= j < w.drop_last().len() && w.drop_last()[j] == x;
                assert(w[j] == x);
            }
            if matched_idents(m, w).contains(x) && !rest.contains(x) {
                let k = choose|k: int|
                    0 <= k < matched_idents(m, w).len() && matched_idents(m, w)[k] == x;
                assert(m.dom().contains(w.last()) && !rest.contains(w.last()));
                assert(k == rest.len());
                assert(x == w.last());
                assert(w[w.len() - 1] == x);
            }
            if w.contains(x) && m.dom().contains(x) && w.last() != x {
                let j = choose|j: int| 0 <= j < w.len() && w[j] == x;
                assert(j < w.len() - 1);
                assert(w.drop_last()[j] == x);
                assert(rest.contains(x));
                if m.dom().contains(w.last()) && !rest.contains(w.last()) {
                    let k = choose|k: int| 0 <= k < rest.len() && rest[k] == x;
                    assert(rest.push(w.last())[k] == x);
                }
            }
        }
    }
}

/// Idempotence: the description that `PanicMonitor::check` gives of its
/// result pins the result down, so repeated queries with the same watch
/// list against the same recorded map return the same result.
pub proof fn lemma_check_deterministic(
    m: Map<u64, Option<Seq<char>>>,
    w: Seq<u64>,
    r1: Seq<ThreadRecordView>,
    r2: Seq<ThreadRecordView>,
)
    requires
        check_describes(m, w, r1),
        check_describes(m, w, r2),
    ensures
        r1 == r2,
{
    let ms = matched_idents(m, w);
    assert forall|i: int| 0 <= i < r1.len() implies r1[i] == r2[i] by {
        assert(r1[i].ident == ms[i] && r1[i].name == m[ms[i]]);
        assert(r2[i].ident == ms[i] && r2[i].name == m[ms[i]]);
    }
    assert(r1 =~= r2);
}

/// Level-triggering: a watched identity that is already recorded makes the
/// query result non-empty, so a wait over such a watch list finishes on its
/// first poll, without any further panic.
pub proof fn lemma_level_triggered(m: Map<u64, Option<Seq<char>>>, w: Seq<u64>, x: u64)
    requires
        w.contains(x),
        m.dom().contains(x),
    ensures
        matched_idents(m, w).len() > 0,
{
    lemma_matched_exact(m, w, x);
    assert(matched_idents(m, w).contains(x));
}

/// Monotonicity: once an identity appears in the result set of a query over
/// some watch list, it appears in the result set of every later query over
/// any watch list containing it, since the recorded map only grows.
pub proof fn lemma_monotonic(
    m1: Map<u64, Option<Seq<char>>>,
    m2: Map<u64, Option<Seq<char>>>,
    w1: Seq<u64>,
    w2: Seq<u64>,
    r1: Seq<ThreadRecordView>,
    r2: Seq<ThreadRecordView>,
    x: u64,
)
    requires
        m1.dom().subset_of(m2.dom()),
        check_describes(m1, w1, r1),
        check_describes(m2, w2, r2),
        reports(r1, x),
        w2.contains(x),
    ensures
        reports(r2, x),
{
    let ms1 = matched_idents(m1, w1);
    let ms2 = matched_idents(m2, w2);
    let k1 = choose|k: int| 0 <= k < r1.len() && r1[k].ident == x;
    assert(ms1[k1] == x);
    assert(ms1.contains(x));
    lemma_matched_exact(m1, w1, x);
    lemma_matched_exact(m2, w2, x);
    let k2 = choose|k: int| 0 <= k < ms2.len() && ms2[k] == x;
    assert(r2[k2].ident == x);
}

} // verus!
