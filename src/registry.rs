//! The progress table shared by the running jobs: one entry per job label
//! with the total duration and the position reached, both in seconds.
use vstd::prelude::*;

verus! {

/// One job's progress: its label, its total (0 where unknown) and the
/// position reached.
pub struct ProgressEntry {
    pub label: String,
    pub total: u64,
    pub current: u64,
}

impl View for ProgressEntry {
    type V = (Seq<char>, u64, u64);

    open spec fn view(&self) -> (Seq<char>, u64, u64) {
        (self.label@, self.total, self.current)
    }
}

/// Percentage done, where the total is known.
pub open spec fn percent_of(total: u64, current: u64) -> Option<u128> {
    if total == 0 {
        None
    } else {
        Some(((current as nat * 100) / total as nat) as u128)
    }
}

impl ProgressEntry {
    /// A copy of this entry.
    pub fn copy(&self) -> (r: ProgressEntry)
        ensures
            r@ == self@,
    {
        ProgressEntry { label: self.label.clone(), total: self.total, current: self.current }
    }

    /// `current * 100 / total`, or `None` while the total is 0.
    pub fn percent(&self) -> (r: Option<u128>)
        ensures
            r == percent_of(self.total, self.current),
    {
        if self.total == 0 {
            None
        } else {
            assert(self.current as nat * 100 <= u64::MAX as nat * 100);
            Some((self.current as u128 * 100) / self.total as u128)
        }
    }
}

/// Some entry of `v` has `label`.
pub open spec fn has_label(v: Seq<(Seq<char>, u64, u64)>, label: Seq<char>) -> bool {
    exists|i: int| 0 <= i < v.len() && (#[trigger] v[i]).0 == label
}

/// No two entries share a label.
pub open spec fn labels_unique(v: Seq<(Seq<char>, u64, u64)>) -> bool {
    forall|i: int, j: int| 0 <= i < j < v.len() ==> (#[trigger] v[i]).0 != (#[trigger] v[j]).0
}

/// The table after a total for `label`: a fresh entry with position 0 where
/// the label has none; else unchanged, the first total staying.
pub open spec fn upserted(v: Seq<(Seq<char>, u64, u64)>, label: Seq<char>, total: u64) -> Seq<
    (Seq<char>, u64, u64),
> {
    if has_label(v, label) {
        v
    } else {
        v.push((label, total, 0))
    }
}

/// The table after position `current` for `label`: the entry of that label
/// moves forward to `current` and never back; the others stay.
pub open spec fn advanced(v: Seq<(Seq<char>, u64, u64)>, label: Seq<char>, current: u64) -> Seq<
    (Seq<char>, u64, u64),
> {
    Seq::new(
        v.len(),
        |i: int|
            if v[i].0 == label {
                (v[i].0, v[i].1, if current > v[i].2 {
                    current
                } else {
                    v[i].2
                })
            } else {
                v[i]
            },
    )
}

/// The progress table.
pub struct Registry {
    entries: Vec<ProgressEntry>,
}

impl View for Registry {
    type V = Seq<(Seq<char>, u64, u64)>;

    closed spec fn view(&self) -> Seq<(Seq<char>, u64, u64)> {
        self.entries@.map_values(|e: ProgressEntry| e@)
    }
}

impl Registry {
    /// At most one entry per label.
    pub open spec fn wf(&self) -> bool {
        labels_unique(self@)
    }

    /// An empty table.
    pub fn new() -> (r: Registry)
        ensures
            r@ == Seq::<(Seq<char>, u64, u64)>::empty(),
            r.wf(),
    {
        let r = Registry { entries: Vec::new() };
        assert(r@ =~= Seq::<(Seq<char>, u64, u64)>::empty());
        r
    }

    /// The index of the entry with `label`.
    fn find(&self, label: &String) -> (r: Option<usize>)
        ensures
            match r {
                Some(i) => i < self@.len() && self@[i as int].0 == label@,
                None => !has_label(self@, label@),
            },
    {
        let mut i: usize = 0;
        while i < self.entries.len()
            invariant
                i <= self@.len(),
                self@.len() == self.entries@.len(),
                forall|j: int| 0 <= j < i ==> (#[trigger] self@[j]).0 != label@,
            decreases self@.len() - i,
        {
            assert(self@[i as int] == self.entries@[i as int]@);
            if self.entries[i].label.eq(label) {
                return Some(i);
            }
            i = i + 1;
        }
        None
    }
    /// Records the total of `label`: a fresh entry `(label, total, 0)` where
    /// the label has none; else nothing changes, the first total staying.
    pub fn upsert_total(&mut self, label: &String, total: u64)
        requires
            old(self).wf(),
        ensures
            final(self)@ == upserted(old(self)@, label@, total),
            final(self).wf(),
    {
        match self.find(label) {
            Some(_) => {},
            None => {
                let ghost before = self@;
                self.entries.push(ProgressEntry { label: label.clone(), total, current: 0 });
                assert(self@ =~= before.push((label@, total, 0)));
                assert forall|i: int, j: int| 0 <= i < j < self@.len() implies (
                #[trigger] self@[i]).0 != (#[trigger] self@[j]).0 by {
                    if j == before.len() {
                        assert(before[i] == self@[i]);
                    }
                }
            },
        }
    }

    /// Moves the entry of `label` forward to position `current`; a smaller
    /// position leaves it where it is. Without an entry for `label` nothing
    /// changes: no entry is created.
    pub fn advance(&mut self, label: &String, current: u64)
        requires
            old(self).wf(),
        ensures
            final(self)@ == advanced(old(self)@, label@, current),
            final(self).wf(),
    {
        let ghost before = self@;
        match self.find(label) {
            Some(i) => {
                assert(self.entries@[i as int]@ == before[i as int]);
                if current > self.entries[i].current {
                    let total = self.entries[i].total;
                    let l = self.entries[i].label.clone();
                    self.entries.set(i, ProgressEntry { label: l, total, current });
                }
                assert forall|k: int| 0 <= k < before.len() && k != i implies before[k].0
                    != label@ by {
                    if k < i {
                        assert(before[k].0 != before[i as int].0);
                    } else {
                        assert(before[i as int].0 != before[k].0);
                    }
                }
                assert(self@ =~= advanced(before, label@, current));
            },
            None => {
                assert(self@ =~= advanced(before, label@, current));
            },
        }
    }

    /// Total and position of the entry of `label`, where there is one.
    pub fn entry(&self, label: &String) -> (r: Option<(u64, u64)>)
        ensures
            match r {
                Some(tc) => exists|i: int|
                    0 <= i < self@.len() && (#[trigger] self@[i]) == (label@, tc.0, tc.1),
                None => !has_label(self@, label@),
            },
    {
        match self.find(label) {
            Some(i) => {
                assert(self@[i as int] == self.entries@[i as int]@);
                Some((self.entries[i].total, self.entries[i].current))
            },
            None => None,
        }
    }

    /// A copy of all entries, in the order they were created.
    pub fn snapshot(&self) -> (r: Vec<ProgressEntry>)
        ensures
            r@.map_values(|e: ProgressEntry| e@) == self@,
    {
        let mut out: Vec<ProgressEntry> = Vec::new();
        let mut i: usize = 0;
        while i < self.entries.len()
            invariant
                i <= self.entries@.len(),
                out@.len() == i,
                out@.map_values(|e: ProgressEntry| e@) == self@.subrange(0, i as int),
            decreases self.entries@.len() - i,
        {
            let ghost prev = out@;
            assert(self@[i as int] == self.entries@[i as int]@);
            let e = self.entries[i].copy();
            out.push(e);
            assert(out@ == prev.push(e));
            assert(out@.map_values(|e: ProgressEntry| e@) =~= self@.subrange(0, i + 1));
            i = i + 1;
        }
        assert(self@.subrange(0, i as int) =~= self@);
        out
    }
}

/// Advancing or recording a total for one label leaves the entries of every
/// other label as they were.
pub proof fn lemma_labels_independent(
    v: Seq<(Seq<char>, u64, u64)>,
    a: Seq<char>,
    b: Seq<char>,
    n: u64,
)
    requires
        a != b,
    ensures
        forall|i: int|
            0 <= i < v.len() && v[i].0 == b ==> #[trigger] advanced(v, a, n)[i] == v[i],
        forall|i: int|
            0 <= i < v.len() && v[i].0 == b ==> #[trigger] upserted(v, a, n)[i] == v[i],
        has_label(advanced(v, a, n), b) == has_label(v, b),
        has_label(upserted(v, a, n), b) == has_label(v, b),
{
    let w = advanced(v, a, n);
    let u = upserted(v, a, n);
    if has_label(v, b) {
        let i = choose|i: int| 0 <= i < v.len() && (#[trigger] v[i]).0 == b;
        assert(w[i].0 == b);
        assert(u[i] == v[i]);
    }
    if has_label(w, b) {
        let i = choose|i: int| 0 <= i < w.len() && (#[trigger] w[i]).0 == b;
        assert(v[i].0 == b);
    }
    if has_label(u, b) {
        let i = choose|i: int| 0 <= i < u.len() && (#[trigger] u[i]).0 == b;
        if i < v.len() {
            assert(v[i] == u[i]);
        }
    }
}

/// Entries only move forward: every entry keeps its label and its total, and
/// its position never decreases, whatever total or position arrives; a total
/// adds at most one entry, at the end.
pub proof fn lemma_entries_only_advance(v: Seq<(Seq<char>, u64, u64)>, label: Seq<char>, n: u64)
    ensures
        advanced(v, label, n).len() == v.len(),
        upserted(v, label, n).len() == v.len() || upserted(v, label, n).len() == v.len() + 1,
        forall|i: int|
            0 <= i < v.len() ==> {
                let w = #[trigger] advanced(v, label, n)[i];
                w.0 == v[i].0 && w.1 == v[i].1 && w.2 >= v[i].2
            },
        forall|i: int| 0 <= i < v.len() ==> #[trigger] upserted(v, label, n)[i] == v[i],
{
}

/// A position for a label without an entry creates none and changes nothing.
pub proof fn lemma_advance_without_entry(v: Seq<(Seq<char>, u64, u64)>, label: Seq<char>, n: u64)
    requires
        !has_label(v, label),
    ensures
        advanced(v, label, n) == v,
{
    assert forall|i: int| 0 <= i < v.len() implies v[i].0 != label by {
        if v[i].0 == label {
            assert(has_label(v, label));
        }
    }
    assert(advanced(v, label, n) =~= v);
}


} // verus!
