//! What the map and reduce worker pools decide: which item a worker takes
//! next, what a map worker writes for its slot, what a reduce worker adds to
//! the total, and which records exist to be removed afterwards.

use vstd::prelude::*;
use vstd::string::StringExecFns;
use crate::counts::WordCounts;
use crate::merge::{merge_into, merged, overflows, MergeError};
use crate::record::{decode_record, encode_record, record_counts, record_text};
use crate::text::{decimal_of, decimal_text, push_char};
use crate::words::{count_words, word_counts_of};

verus! {

/// The pending items of one pool, shared by its workers. Items are handed
/// out from the end; callers must not rely on any particular order.
pub struct WorkQueue<T> {
    items: Vec<T>,
}

impl<T> View for WorkQueue<T> {
    type V = Seq<T>;

    closed spec fn view(&self) -> Seq<T> {
        self.items@
    }
}

impl<T> WorkQueue<T> {
    /// A queue holding `items`, all known before any worker starts.
    pub fn new(items: Vec<T>) -> (q: WorkQueue<T>)
        ensures
            q@ == items@,
    {
        WorkQueue { items }
    }

    /// The number of items still pending.
    pub fn len(&self) -> (r: usize)
        ensures
            r == self@.len(),
    {
        self.items.len()
    }

    /// Removes one pending item, or gives `None` when the queue is drained.
    pub fn take(&mut self) -> (r: Option<T>)
        ensures
            old(self)@.len() == 0 ==> r is None && final(self)@ == old(self)@,
            old(self)@.len() > 0 ==> r == Some(old(self)@.last()) && final(self)@ == old(self)@.drop_last(),
    {
        self.items.pop()
    }
}

/// The name of the record that the map worker in `slot` writes.
pub open spec fn record_name_of(slot: nat) -> Seq<char> {
    seq!['m', 'a', 'p', '_'] + decimal_of(slot) + seq!['.', 't', 'x', 't']
}

/// The name of the record that the map worker in `slot` writes.
pub fn record_name(slot: usize) -> (r: String)
    ensures
        r@ == record_name_of(slot as nat),
{
    let mut name = String::new();
    push_char(&mut name, 'm');
    push_char(&mut name, 'a');
    push_char(&mut name, 'p');
    push_char(&mut name, '_');
    let num = decimal_text(slot);
    name.append(num.as_str());
    push_char(&mut name, '.');
    push_char(&mut name, 't');
    push_char(&mut name, 'x');
    push_char(&mut name, 't');
    proof {
        assert(name@ =~= record_name_of(slot as nat));
    }
    name
}

/// `name` is the record name of a slot in `slots`.
pub open spec fn name_of_written(slots: Set<usize>, name: Seq<char>) -> bool {
    exists|s: usize| #[trigger] slots.contains(s) && name == record_name_of(s as nat)
}

/// The worker slots of a map pool that have written a record, each once.
pub struct WrittenSlots {
    slots: Vec<usize>,
}

impl View for WrittenSlots {
    type V = Set<usize>;

    closed spec fn view(&self) -> Set<usize> {
        self.slots@.to_set()
    }
}

impl WrittenSlots {
    pub closed spec fn wf(&self) -> bool {
        self.slots@.no_duplicates()
    }

    /// No slot has written yet.
    pub fn new() -> (r: WrittenSlots)
        ensures
            r.wf(),
            r@ == Set::<usize>::empty(),
    {
        let r = WrittenSlots { slots: Vec::new() };
        proof {
            assert(r.slots@.to_set() =~= Set::<usize>::empty());
        }
        r
    }

    /// Notes that `slot` has written (or rewritten) its record.
    pub fn note(&mut self, slot: usize)
        requires
            old(self).wf(),
        ensures
            final(self).wf(),
            final(self)@ == old(self)@.insert(slot),
    {
        let ghost before = self.slots@;
        let mut i: usize = 0;
        while i < self.slots.len()
            invariant
                self.slots@ == before,
                before.no_duplicates(),
                i <= self.slots.len(),
                forall|j: int| 0 <= j < i ==> self.slots@[j] != slot,
            decreases self.slots.len() - i,
        {
            if self.slots[i] == slot {
                proof {
                    assert(before[i as int] == slot);
                    assert(before.contains(slot));
                    assert(before.to_set().contains(slot));
                    assert(before.to_set().insert(slot) =~= before.to_set());
                }
                return;
            }
            i = i + 1;
        }
        self.slots.push(slot);
        proof {
            let now = self.slots@;
            assert(now =~= before.push(slot));
            assert forall|x: usize| now.contains(x) <==> before.contains(x) || x == slot by {
                if now.contains(x) {
                    let j = choose|j: int| 0 <= j < now.len() && now[j] == x;
                    if j < before.len() {
                        assert(before[j] == x);
                    }
                }
                if before.contains(x) {
                    let j = choose|j: int| 0 <= j < before.len() && before[j] == x;
                    assert(now[j] == x);
                }
                if x == slot {
                    assert(now[before.len() as int] == x);
                }
            }
            assert(now.to_set() =~= before.to_set().insert(slot));
            assert forall|a: int, b: int| 0 <= a < now.len() && 0 <= b < now.len() && a != b implies now[a] != now[b] by {
                if a < before.len() && b < before.len() {
                    assert(now[a] == before[a] && now[b] == before[b]);
                } else if a < before.len() {
                    assert(now[a] == before[a]);
                } else {
                    assert(now[b] == before[b]);
                }
            }
        }
    }

    /// The names of the records written, one per slot: exactly the records
    /// that must be removed once the reduce phase is over.
    pub fn record_names(&self) -> (r: Vec<String>)
        requires
            self.wf(),
        ensures
            r.len() == self@.len(),
            forall|i: int| 0 <= i < r.len() ==> #[trigger] name_of_written(self@, r[i]@),
            forall|s: usize|
                #[trigger] self@.contains(s) ==> exists|i: int| 0 <= i < r.len() && r[i]@ == record_name_of(s as nat),
    {
        let mut names: Vec<String> = Vec::new();
        let mut i: usize = 0;
        while i < self.slots.len()
            invariant
                i <= self.slots.len(),
                names.len() == i,
                forall|j: int| 0 <= j < i ==> (#[trigger] names@[j])@ == record_name_of(self.slots@[j] as nat),
            decreases self.slots.len() - i,
        {
            let name = record_name(self.slots[i]);
            names.push(name);
            i = i + 1;
        }
        proof {
            self.slots@.unique_seq_to_set();
            assert forall|j: int| 0 <= j < names.len() implies #[trigger] name_of_written(self@, names[j]@) by {
                assert(self.slots@.to_set().contains(self.slots@[j]));
            }
            assert forall|s: usize| #[trigger] self@.contains(s) implies exists|j: int| 0 <= j < names.len() && names[j]@ == record_name_of(s as nat) by {
                let j = choose|j: int| 0 <= j < self.slots@.len() && self.slots@[j] == s;
                assert(names[j]@ == record_name_of(s as nat));
            }
        }
        names
    }
}

/// One step of a map worker: counts `chunk`, adds those counts to what the
/// worker's slot has counted so far, and returns the record text to write
/// for the slot, replacing its previous record.
///
/// Records are named by worker slot, so a worker that handles several
/// chunks rewrites one record. The record holds everything the slot has
/// counted so far, so no chunk's counts are lost when there are more chunks
/// than workers.
pub fn map_step(acc: &mut WordCounts, chunk: &str) -> (r: Result<String, MergeError>)
    requires
        old(acc).wf(),
    ensures
        final(acc).wf(),
        r is Ok <==> !overflows(old(acc)@, word_counts_of(chunk@)),
        match r {
            Ok(text) => final(acc)@ == merged(old(acc)@, word_counts_of(chunk@)) && text@ == record_text(
                final(acc).pairs(),
            ),
            Err(_) => final(acc)@ == old(acc)@,
        },
{
    let counts = count_words(chunk);
    match merge_into(acc, &counts) {
        Ok(()) => Ok(encode_record(acc)),
        Err(e) => Err(e),
    }
}

/// One step of a reduce worker: reads a record text and adds its counts to
/// the shared total.
pub fn reduce_step(total: &mut WordCounts, text: &str) -> (r: Result<(), MergeError>)
    requires
        old(total).wf(),
    ensures
        final(total).wf(),
        r is Ok <==> !overflows(old(total)@, record_counts(text@)),
        r is Ok ==> final(total)@ == merged(old(total)@, record_counts(text@)),
        r is Err ==> final(total)@ == old(total)@,
{
    let record = decode_record(text);
    merge_into(total, &record)
}

} // verus!
