//! The monitor's state: which threads have panicked, and what a query over a
//! watch list returns.

use vstd::prelude::*;

use crate::laws::lemma_matched_exact;

verus! {

/// Describes a thread that has panicked: its identity and, where the thread
/// had one, its name.
pub struct ThreadRecord {
    pub ident: u64,
    pub name: Option<String>,
}

/// The mathematical image of a [`ThreadRecord`]: the identity together with
/// the name as a character sequence.
pub ghost struct ThreadRecordView {
    pub ident: u64,
    pub name: Option<Seq<char>>,
}

/// The view of an optional thread name.
pub open spec fn name_view(name: Option<String>) -> Option<Seq<char>> {
    match name {
        Some(s) => Some(s@),
        None => None,
    }
}

impl View for ThreadRecord {
    type V = ThreadRecordView;

    open spec fn view(&self) -> ThreadRecordView {
        ThreadRecordView { ident: self.ident, name: name_view(self.name) }
    }
}

/// A list of all threads which have historically panicked, keyed by identity.
///
/// Its view is the map from each recorded identity to the recorded name.
pub struct PanicMonitor {
    records: Vec<ThreadRecord>,
}

/// No identity occurs twice in `s`.
pub open spec fn distinct_idents(s: Seq<ThreadRecord>) -> bool {
    forall|i: int, j: int| 0 <= i < j < s.len() ==> s[i].ident != s[j].ident
}

/// The map recorded by a sequence of thread records: each identity maps to
/// its name.  A later record of the same identity shadows an earlier one,
/// which never arises under [`distinct_idents`].
pub open spec fn map_of(s: Seq<ThreadRecord>) -> Map<u64, Option<Seq<char>>>
    decreases s.len(),
{
    if s.len() == 0 {
        Map::empty()
    } else {
        map_of(s.drop_last()).insert(s.last()@.ident, s.last()@.name)
    }
}

/// The identities that a query over watch list `w` reports against the
/// recorded map `m`: the members of `w` that are recorded, in the order of
/// their first occurrence in `w`, each reported once.
pub open spec fn matched_idents(m: Map<u64, Option<Seq<char>>>, w: Seq<u64>) -> Seq<u64>
    decreases w.len(),
{
    if w.len() == 0 {
        Seq::empty()
    } else {
        let rest = matched_idents(m, w.drop_last());
        if m.dom().contains(w.last()) && !rest.contains(w.last()) {
            rest.push(w.last())
        } else {
            rest
        }
    }
}

/// The views of a sequence of thread records.
pub open spec fn seq_views(s: Seq<ThreadRecord>) -> Seq<ThreadRecordView> {
    Seq::new(s.len(), |i: int| s[i]@)
}

/// `r` reports identity `x`: some returned record carries it.
pub open spec fn reports(r: Seq<ThreadRecordView>, x: u64) -> bool {
    exists|k: int| 0 <= k < r.len() && r[k].ident == x
}

/// What a query over watch list `w` against the recorded map `m` returns:
/// `r` holds exactly the records of the matched identities, in match order.
pub open spec fn check_describes(
    m: Map<u64, Option<Seq<char>>>,
    w: Seq<u64>,
    r: Seq<ThreadRecordView>,
) -> bool {
    let ms = matched_idents(m, w);
    &&& r.len() == ms.len()
    &&& forall|i: int|
        0 <= i < r.len() ==> (#[trigger] r[i]).ident == ms[i] && m.dom().contains(ms[i])
            && r[i].name == m[ms[i]]
}

/// An identity `x` is recorded by `s` exactly when some record of `s`
/// carries it.
proof fn lemma_map_of_contains(s: Seq<ThreadRecord>, x: u64)
    ensures
        map_of(s).dom().contains(x) <==> exists|j: int| 0 <= j < s.len() && s[j].ident == x,
    decreases s.len(),
{
    if s.len() == 0 {
    } else {
        lemma_map_of_contains(s.drop_last(), x);
        if s.last().ident == x {
            assert(s[s.len() - 1].ident == x);
        } else {
            if map_of(s).dom().contains(x) {
                let j = choose|j: int| 0 <= j < s.drop_last().len() && s.drop_last()[j].ident == x;
                assert(s[j].ident == x);
            }
            if exists|j: int| 0 <= j < s.len() && s[j].ident == x {
                let j = choose|j: int| 0 <= j < s.len() && s[j].ident == x;
                assert(j < s.len() - 1);
                assert(s.drop_last()[j].ident == x);
            }
        }
    }
}

/// Under distinct identities, the map recorded by `s` sends the identity of
/// record `j` to that record's name.
proof fn lemma_map_of_value(s: Seq<ThreadRecord>, j: int)
    requires
        distinct_idents(s),
        0 <= j < s.len(),
    ensures
        map_of(s).dom().contains(s[j].ident),
        map_of(s)[s[j].ident] == s[j]@.name,
    decreases s.len(),
{
    if j == s.len() - 1 {
    } else {
        assert(distinct_idents(s.drop_last())) by {
            assert(forall|a: int, b: int|
                0 <= a < b < s.drop_last().len() ==> s.drop_last()[a].ident != s.drop_last()[b].ident)
                by {
                assert(forall|a: int, b: int| 0 <= a < b < s.len() - 1 ==> s[a].ident != s[b].ident);
            }
        }
        lemma_map_of_value(s.drop_last(), j);
        assert(s.drop_last()[j] == s[j]);
        assert(s.last().ident != s[j].ident);
    }
}

impl View for PanicMonitor {
    type V = Map<u64, Option<Seq<char>>>;

    closed spec fn view(&self) -> Map<u64, Option<Seq<char>>> {
        map_of(self.records@)
    }
}

impl PanicMonitor {
    /// The monitor's internal invariant: no identity is recorded twice.
    pub closed spec fn wf(&self) -> bool {
        distinct_idents(self.records@)
    }

    /// Create a new `PanicMonitor` that has seen no panics.
    pub fn new() -> (m: PanicMonitor)
        ensures
            m.wf(),
            m@ == Map::<u64, Option<Seq<char>>>::empty(),
    {
        let m = PanicMonitor { records: Vec::new() };
        proof {
            assert(m.records@.len() == 0);
        }
        m
    }

    /// Record that the thread with identity `ident` and name `name` has
    /// panicked.  The record is monotonic: an identity that is already
    /// recorded keeps its original entry, so recording is idempotent in
    /// effect and entries are never removed or overwritten.
    pub fn record(&mut self, ident: u64, name: Option<String>)
        requires
            old(self).wf(),
        ensures
            final(self).wf(),
            final(self)@ == (if old(self)@.dom().contains(ident) {
                old(self)@
            } else {
                old(self)@.insert(ident, name_view(name))
            }),
            final(self)@.dom() == old(self)@.dom().insert(ident),
    {
        let found = position_of(&self.records, ident);
        proof {
            lemma_map_of_contains(self.records@, ident);
        }
        match found {
            Some(_) => {
                proof {
                    assert(self@.dom() =~= self@.dom().insert(ident));
                }
            }
            None => {
                let ghost before = self.records@;
                self.records.push(ThreadRecord { ident, name });
                proof {
                    assert(self.records@.drop_last() =~= before);
                    assert(self.records@.last() == (ThreadRecord { ident, name }));
                    assert(self@ == map_of(before).insert(ident, name_view(name)));
                    assert(self@.dom() =~= map_of(before).dom().insert(ident));
                    assert(distinct_idents(self.records@)) by {
                        assert(forall|k: int|
                            0 <= k < before.len() ==> (#[trigger] before[k]).ident != ident);
                        assert(forall|k: int|
                            0 <= k < before.len() ==> self.records@[k] == before[k]);
                    }
                }
            }
        }
    }

    /// Check which of the watched threads have panicked.  The returned
    /// vector holds, for each identity of `watch_list` that is recorded as
    /// panicked, that identity's record — each reported once, in the order
    /// of first occurrence in `watch_list`.  It is empty exactly when no
    /// watched identity is recorded.
    pub fn check(&self, watch_list: &[u64]) -> (r: Vec<ThreadRecord>)
        requires
            self.wf(),
        ensures
            check_describes(self@, watch_list@, seq_views(r@)),
            forall|x: u64|
                #[trigger] reports(seq_views(r@), x) <==> watch_list@.contains(x)
                    && self@.dom().contains(x),
            r@.len() > 0 <==> exists|i: int|
                0 <= i < watch_list@.len() && self@.dom().contains(#[trigger] watch_list@[i]),
    {
        let ghost m = self@;
        let ghost w = watch_list@;
        let mut out: Vec<ThreadRecord> = Vec::new();
        let mut i: usize = 0;
        while i < watch_list.len()
            invariant
                self.wf(),
                m == self@,
                w == watch_list@,
                i <= w.len(),
                check_describes(m, w.take(i as int), seq_views(out@)),
            decreases w.len() - i,
        {
            let tid = watch_list[i];
            let ghost ms = matched_idents(m, w.take(i as int));
            proof {
                assert(w.take(i + 1).drop_last() =~= w.take(i as int));
                assert(w.take(i + 1).last() == w[i as int]);
            }
            match position_of(&out, tid) {
                Some(k) => {
                    proof {
                        assert(seq_views(out@)[k as int].ident == out@[k as int].ident);
                        assert(ms[k as int] == tid);
                        assert(ms.contains(tid));
                        assert(matched_idents(m, w.take(i + 1)) == ms);
                    }
                }
                None => {
                    proof {
                        assert forall|k: int| 0 <= k < ms.len() implies ms[k] != tid by {
                            assert(seq_views(out@)[k].ident == out@[k].ident);
                        }
                        assert(!ms.contains(tid));
                    }
                    match position_of(&self.records, tid) {
                        Some(j) => {
                            proof {
                                lemma_map_of_value(self.records@, j as int);
                            }
                            let rec = &self.records[j];
                            let name_copy: Option<String> = match &rec.name {
                                Some(s) => Some(s.clone()),
                                None => None,
                            };
                            let ghost out_before = out@;
                            out.push(ThreadRecord { ident: rec.ident, name: name_copy });
                            proof {
                                let ms_next = matched_idents(m, w.take(i + 1));
                                assert(ms_next == ms.push(tid));
                                assert(seq_views(out@) =~= seq_views(out_before).push(
                                    out@.last()@,
                                ));
                                assert(out@.last()@.ident == tid);
                                assert(name_view(name_copy) == self.records@[j as int]@.name);
                                assert(out@.last()@.name == m[tid]);
                                assert forall|q: int| 0 <= q < seq_views(out@).len() implies {
                                    &&& (#[trigger] seq_views(out@)[q]).ident == ms_next[q]
                                    &&& m.dom().contains(ms_next[q])
                                    &&& seq_views(out@)[q].name == m[ms_next[q]]
                                } by {
                                    if q < out_before.len() {
                                        assert(seq_views(out@)[q] == seq_views(out_before)[q]);
                                        assert(ms_next[q] == ms[q]);
                                    } else {
                                        assert(seq_views(out@)[q] == out@.last()@);
                                        assert(ms_next[q] == tid);
                                    }
                                }
                            }
                        }
                        None => {
                            proof {
                                lemma_map_of_contains(self.records@, tid);
                                assert(matched_idents(m, w.take(i + 1)) == ms);
                            }
                        }
                    }
                }
            }
            i += 1;
        }
        proof {
            assert(w.take(w.len() as int) =~= w);
            let ms = matched_idents(m, w);
            assert forall|x: u64|
                #[trigger] reports(seq_views(out@), x) <==> w.contains(x) && m.dom().contains(
                    x,
                ) by {
                lemma_matched_exact(m, w, x);
                if reports(seq_views(out@), x) {
                    let k = choose|k: int|
                        0 <= k < seq_views(out@).len() && seq_views(out@)[k].ident == x;
                    assert(ms[k] == x);
                    assert(ms.contains(x));
                }
                if ms.contains(x) {
                    let k = choose|k: int| 0 <= k < ms.len() && ms[k] == x;
                    assert(seq_views(out@)[k].ident == x);
                    assert(reports(seq_views(out@), x));
                }
            }
            if out@.len() > 0 {
                assert(ms.contains(ms[0]));
                lemma_matched_exact(m, w, ms[0]);
                let wi = choose|wi: int| 0 <= wi < w.len() && w[wi] == ms[0];
                assert(m.dom().contains(w[wi]));
            }
            if exists|i: int| 0 <= i < w.len() && m.dom().contains(#[trigger] w[i]) {
                let wi = choose|wi: int| 0 <= wi < w.len() && m.dom().contains(#[trigger] w[wi]);
                assert(w.contains(w[wi]));
                lemma_matched_exact(m, w, w[wi]);
                assert(ms.contains(w[wi]));
            }
        }
        out
    }
}

/// The index of the record carrying identity `ident`, if any.
fn position_of(records: &Vec<ThreadRecord>, ident: u64) -> (r: Option<usize>)
    ensures
        match r {
            Some(j) => j < records@.len() && records@[j as int].ident == ident,
            None => forall|k: int| 0 <= k < records@.len() ==> records@[k].ident != ident,
        },
{
    let mut j: usize = 0;
    while j < records.len()
        invariant
            j <= records@.len(),
            forall|k: int| 0 <= k < j ==> records@[k].ident != ident,
        decreases records@.len() - j,
    {
        if records[j].ident == ident {
            return Some(j);
        }
        j += 1;
    }
    None
}

/// Remaining wait budget after one wake-up, for the bounded wait: `dur` was
/// the budget before suspending, `elapsed` the time measured asleep, and
/// `timed_out` whether the wake-up reported expiry.  `None` means the budget
/// is exhausted and the bounded wait must give up.
pub fn remaining_after(dur: u64, elapsed: u64, timed_out: bool) -> (r: Option<u64>)
    ensures
        r == (if timed_out || elapsed >= dur {
            None::<u64>
        } else {
            Some((dur - elapsed) as u64)
        }),
{
    if timed_out || elapsed >= dur {
        None
    } else {
        Some(dur - elapsed)
    }
}

} // verus!
