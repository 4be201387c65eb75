use vstd::prelude::*;

verus! {

/// Term or index that stands for "no entry".
pub const NO_ENTRY: u64 = 0;

/// One command in the replicated log.
#[derive(Debug, PartialEq, Eq)]
pub struct Entry {
    pub index: u64,
    pub term: u64,
    pub data: Vec<u8>,
}

/// Mathematical value of an [`Entry`].
pub struct EntryView {
    pub index: u64,
    pub term: u64,
    pub data: Seq<u8>,
}

impl View for Entry {
    type V = EntryView;

    open spec fn view(&self) -> EntryView {
        EntryView { index: self.index, term: self.term, data: self.data@ }
    }
}

impl Clone for Entry {
    fn clone(&self) -> (res: Self)
        ensures
            res@ == self@,
    {
        let data = self.data.clone();
        assert(data@ =~= self.data@);
        Entry { index: self.index, term: self.term, data }
    }
}

/// The views of a sequence of entries.
pub open spec fn entries_view(es: Seq<Entry>) -> Seq<EntryView> {
    es.map_values(|e: Entry| e@)
}


/// Index of the last entry of `es`, or 0 when there is none.
pub open spec fn last_index_of(es: Seq<EntryView>) -> u64 {
    if es.len() == 0 { 0 } else { es.last().index }
}

/// Entries are numbered 1, 2, 3, ... in the order they are stored.
pub open spec fn contiguous(es: Seq<EntryView>) -> bool {
    forall|i: int| 0 <= i < es.len() ==> #[trigger] es[i].index == i + 1
}

/// One entry of a leader's batch taken into a contiguous log `es`: an entry
/// the log already holds with the same term changes nothing; one whose term
/// differs replaces the entry at its index and everything after it; one right
/// behind the last entry is appended. Any other entry does not fit (`None`).
pub open spec fn absorb(es: Seq<EntryView>, e: EntryView) -> Option<Seq<EntryView>> {
    if 1 <= e.index && e.index <= es.len() {
        if es[e.index - 1].term == e.term {
            Some(es)
        } else {
            Some(es.take(e.index - 1).push(e))
        }
    } else if e.index == es.len() + 1 {
        Some(es.push(e))
    } else {
        None
    }
}

/// A batch taken into `es` entry by entry, stopping at the first entry that
/// does not fit; the flag tells whether it stopped.
pub open spec fn merge(es: Seq<EntryView>, new: Seq<EntryView>) -> (Seq<EntryView>, bool)
    decreases new.len(),
{
    if new.len() == 0 {
        (es, false)
    } else {
        let (p, stopped) = merge(es, new.drop_last());
        if stopped {
            (p, true)
        } else {
            match absorb(p, new.last()) {
                Some(q) => (q, false),
                None => (p, true),
            }
        }
    }
}

/// The replicated log of one node together with its commit and apply marks.
#[derive(Debug, PartialEq, Eq, Clone)]
pub struct Log {
    pub entries: Vec<Entry>,
    pub committed: u64,
    pub applied: u64,
}

/// Mathematical value of a [`Log`].
pub struct LogView {
    pub entries: Seq<EntryView>,
    pub committed: u64,
    pub applied: u64,
}

impl LogView {
    /// Entries are numbered from 1 without gaps, and one more index still fits in a `u64`.
    pub open spec fn wf(self) -> bool {
        &&& contiguous(self.entries)
        &&& self.entries.len() < u64::MAX
    }

    pub open spec fn first_index(self) -> u64 {
        1
    }

    pub open spec fn last_index(self) -> u64 {
        last_index_of(self.entries)
    }

    /// Term of the entry at `index`; `NO_ENTRY` outside `first_index..=last_index`.
    pub open spec fn term_at(self, index: u64) -> u64 {
        if index < 1 || index > self.last_index() {
            NO_ENTRY
        } else {
            self.entries[index - 1].term
        }
    }

    /// The entries from `from_index` to the end; none when `from_index` lies
    /// beyond the slot after the last entry.
    pub open spec fn entries_from(self, from_index: u64) -> Seq<EntryView> {
        if from_index > self.last_index() + 1 {
            Seq::empty()
        } else {
            self.entries.subrange(from_index - 1, self.entries.len() as int)
        }
    }

    /// The log after appending a new entry with `term` and `data` behind the last one.
    pub open spec fn append(self, term: u64, data: Seq<u8>) -> LogView {
        LogView {
            entries: self.entries.push(
                EntryView { index: (self.last_index() + 1) as u64, term, data },
            ),
            ..self
        }
    }

    /// The log after taking in a batch of entries from a leader: entries it
    /// already holds are kept, a conflicting entry (same index, other term)
    /// is deleted with all that follow it, and the new entries are appended;
    /// the batch is taken in order up to the first entry that does not fit.
    pub open spec fn append_entries(self, new: Seq<EntryView>) -> LogView {
        LogView { entries: merge(self.entries, new).0, ..self }
    }

    /// The applied entries with index above `from`, in log order; the apply
    /// mark and `from` are taken no further than the last entry.
    pub open spec fn applied_since(self, from: u64) -> Seq<EntryView> {
        let hi = if self.applied <= self.entries.len() { self.applied as int } else { self.entries.len() as int };
        let lo = if from <= hi { from as int } else { hi };
        self.entries.subrange(lo, hi)
    }

    /// The log after applying every committed entry not applied yet.
    pub open spec fn apply_committed(self) -> LogView {
        if self.applied < self.committed {
            LogView { applied: self.committed, ..self }
        } else {
            self
        }
    }
}

impl View for Log {
    type V = LogView;

    open spec fn view(&self) -> LogView {
        LogView {
            entries: entries_view(self.entries@),
            committed: self.committed,
            applied: self.applied,
        }
    }
}

/// A contiguous log is numbered by position: its last index is its length.
pub proof fn lemma_contiguous_last_index(es: Seq<EntryView>)
    requires
        contiguous(es),
    ensures
        last_index_of(es) == es.len(),
{
    if es.len() > 0 {
        assert(es[es.len() - 1].index == es.len());
    }
}

impl Log {
    pub fn new() -> (log: Self)
        ensures
            log@ == (LogView { entries: Seq::empty(), committed: 0, applied: 0 }),
            log@.wf(),
    {
        let log = Log { entries: Vec::new(), committed: 0, applied: 0 };
        assert(log@.entries =~= Seq::empty());
        log
    }

    /// The index of the first entry; this log always starts at 1.
    pub fn first_index(&self) -> (r: u64)
        ensures
            r == self@.first_index(),
    {
        1
    }

    /// The index of the last entry, or 0 when the log is empty.
    pub fn last_index(&self) -> (r: u64)
        ensures
            r == self@.last_index(),
    {
        if self.entries.len() == 0 {
            0
        } else {
            self.entries[self.entries.len() - 1].index
        }
    }

    /// The term of the entry at `index`, or `NO_ENTRY` when there is none.
    pub fn term(&self, index: u64) -> (r: u64)
        requires
            1 <= index <= self@.last_index() ==> index <= self@.entries.len(),
        ensures
            r == self@.term_at(index),
    {
        if index < self.first_index() || index > self.last_index() {
            return NO_ENTRY;
        }
        let len = self.entries.len();
        let pos = (index - self.first_index()) as usize;
        assert(self@.entries[pos as int] == self.entries@[pos as int]@);
        self.entries[pos].term
    }

    /// Appends a new entry with `term` and `data` behind the last one.
    pub fn append(&mut self, term: u64, data: Vec<u8>)
        requires
            old(self)@.last_index() < u64::MAX,
        ensures
            final(self)@ == old(self)@.append(term, data@),
            old(self)@.wf() && old(self)@.entries.len() + 1 < u64::MAX ==> final(self)@.wf(),
    {
        let new_index = self.last_index() + 1;
        self.entries.push(Entry { index: new_index, term, data });
        assert(final(self)@.entries =~= old(self)@.append(term, data@).entries);
    }
}


impl Log {
    /// Takes in a batch of entries sent by a leader, in order: an entry the
    /// log already holds with the same term is skipped; one that conflicts
    /// with an existing entry (same index, other term) deletes that entry and
    /// all that follow it, and is appended; one right behind the last entry is
    /// appended; at the first entry that fits none of these the rest of the
    /// batch is dropped.
    pub fn append_entries(&mut self, new_entries: &[Entry])
        requires
            old(self)@.wf(),
            old(self)@.entries.len() + new_entries@.len() < u64::MAX,
        ensures
            final(self)@ == old(self)@.append_entries(entries_view(new_entries@)),
            final(self)@.wf(),
    {
        let ghost newv = entries_view(new_entries@);
        let ghost base = old(self)@.entries;
        let n = new_entries.len();
        assert(newv.take(n as int) =~= newv);
        assert(newv.take(0) =~= Seq::<EntryView>::empty());
        let mut i: usize = 0;
        while i < n
            invariant
                n == new_entries@.len(),
                newv == entries_view(new_entries@),
                newv.take(n as int) == newv,
                base == old(self)@.entries,
                0 <= i <= n,
                self@.entries == merge(base, newv.take(i as int)).0,
                !merge(base, newv.take(i as int)).1,
                contiguous(self@.entries),
                self@.entries.len() <= base.len() + i,
                self.committed == old(self).committed,
                self.applied == old(self).applied,
                base.len() + n < u64::MAX,
            ensures
                self@.entries == merge(base, newv).0,
                contiguous(self@.entries),
                self@.entries.len() <= base.len() + n,
                self.committed == old(self).committed,
                self.applied == old(self).applied,
            decreases n - i,
        {
            let entry = &new_entries[i];
            assert(newv[i as int] == entry@);
            assert(newv.take(i as int + 1).drop_last() =~= newv.take(i as int));
            assert(newv.take(i as int + 1).last() == entry@);
            let ghost cur = self@.entries;
            proof {
                lemma_contiguous_last_index(cur);
            }
            let last = self.last_index();
            if entry.index >= 1 && entry.index <= last {
                if self.term(entry.index) != entry.term {
                    self.entries.truncate((entry.index - 1) as usize);
                    let ghost cut = self.entries@;
                    let copy = entry.clone();
                    self.entries.push(copy);
                    proof {
                        assert(self.entries@ =~= cut.push(copy));
                        assert(self@.entries =~= cur.take(entry.index - 1).push(entry@));
                    }
                }
            } else if entry.index == last + 1 {
                let ghost before = self.entries@;
                let copy = entry.clone();
                self.entries.push(copy);
                proof {
                    assert(self.entries@ =~= before.push(copy));
                    assert(self@.entries =~= cur.push(entry@));
                }
            } else {
                proof {
                    lemma_merge_stays_stopped(base, newv, i as int + 1, n as int);
                }
                break;
            }
            proof {
                assert(contiguous(self@.entries)) by {
                    assert forall|k: int| 0 <= k < self@.entries.len() implies #[trigger] self@.entries[k].index == k + 1 by {
                        if k < cur.len() && (k < entry.index - 1 || entry.index > last) {
                            assert(self@.entries[k] == cur[k]);
                        }
                    }
                }
            }
            i = i + 1;
        }
    }

    /// The entries from `from_index` to the end of the log.
    pub fn entries_from(&self, from_index: u64) -> (r: &[Entry])
        requires
            from_index >= 1,
            self@.last_index() < u64::MAX,
            from_index <= self@.last_index() + 1 ==> from_index - 1 <= self@.entries.len(),
        ensures
            entries_view(r@) == self@.entries_from(from_index),
    {
        if from_index > self.last_index() + 1 {
            let r: &[Entry] = &[];
            assert(entries_view(r@) =~= Seq::<EntryView>::empty());
            return r;
        }
        let len = self.entries.len();
        let start = (from_index - self.first_index()) as usize;
        let r = vstd::slice::slice_subrange(self.entries.as_slice(), start, len);
        assert(entries_view(r@) =~= self@.entries_from(from_index));
        r
    }

    /// Marks every committed entry as applied.
    pub fn apply_committed(&mut self)
        requires
            old(self).applied < old(self).committed ==> old(self).committed <= old(self)@.entries.len(),
        ensures
            final(self)@ == old(self)@.apply_committed(),
    {
        if self.applied < self.committed {
            self.applied = self.committed;
        }
    }
}

impl Log {
    /// Copies of the applied entries with index above `from`, in log order:
    /// after `apply_committed`, with `from` the apply mark before it, these
    /// are the entries handed to the state machine.
    pub fn applied_since(&self, from: u64) -> (r: Vec<Entry>)
        ensures
            entries_view(r@) == self@.applied_since(from),
    {
        let len = self.entries.len();
        let hi: usize = if self.applied <= len as u64 { self.applied as usize } else { len };
        let lo: usize = if from <= hi as u64 { from as usize } else { hi };
        let part = vstd::slice::slice_subrange(self.entries.as_slice(), lo, hi);
        let r = clone_entries(part);
        assert(entries_view(part@) =~= self@.applied_since(from));
        r
    }
}

/// A copy of a slice of entries.
pub fn clone_entries(es: &[Entry]) -> (v: Vec<Entry>)
    ensures
        entries_view(v@) == entries_view(es@),
{
    let mut v: Vec<Entry> = Vec::new();
    let n = es.len();
    let mut i: usize = 0;
    while i < n
        invariant
            n == es@.len(),
            0 <= i <= n,
            entries_view(v@) == entries_view(es@.take(i as int)),
        decreases n - i,
    {
        let e = es[i].clone();
        let ghost before = v@;
        v.push(e);
        proof {
            assert(v@ =~= before.push(e));
            assert(e@ == es@[i as int]@);
            assert(entries_view(before).len() == before.len());
            assert(before.len() == i);
            assert(es@.take(i as int + 1) =~= es@.take(i as int).push(es@[i as int]));
            assert forall|k: int| 0 <= k < i implies #[trigger] entries_view(v@)[k] == entries_view(es@.take(i as int + 1))[k] by {
                assert(entries_view(before)[k] == entries_view(es@.take(i as int))[k]);
                assert(v@[k] == before[k]);
                assert(es@.take(i as int + 1)[k] == es@.take(i as int)[k]);
            }
            assert(v@[i as int] == e);
            assert(entries_view(v@) =~= entries_view(es@.take(i as int + 1)));
        }
        i = i + 1;
    }
    assert(es@.take(n as int) =~= es@);
    v
}

/// Once taking a batch in has stopped, the rest of the batch changes nothing.
proof fn lemma_merge_stays_stopped(es: Seq<EntryView>, new: Seq<EntryView>, k: int, j: int)
    requires
        0 <= k <= j <= new.len(),
        merge(es, new.take(k)).1,
    ensures
        merge(es, new.take(j)) == merge(es, new.take(k)),
    decreases j - k,
{
    if j > k {
        lemma_merge_stays_stopped(es, new, k, j - 1);
        assert(new.take(j).drop_last() =~= new.take(j - 1));
    }
}

} // verus!
