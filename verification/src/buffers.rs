use vstd::prelude::*;

verus! {

/// A buffer of slots that workers fill, each its own chunk of indices; a slot
/// holds nothing until it is written.
pub struct ChunkBuffer<T> {
    data: Vec<Option<T>>,
}

impl<T> ChunkBuffer<T> {
    pub closed spec fn spec_slots(&self) -> Seq<Option<T>> {
        self.data@
    }

    /// `len` empty slots.
    pub fn new_uninit(len: usize) -> (r: Self)
        ensures
            r.spec_slots().len() == len,
            forall|i: int| 0 <= i < len ==> #[trigger] r.spec_slots()[i] is None,
    {
        let mut data: Vec<Option<T>> = Vec::new();
        let mut i: usize = 0;
        while i < len
            invariant
                i <= len,
                data@.len() == i,
                forall|k: int| 0 <= k < i ==> #[trigger] data@[k] is None,
            decreases len - i,
        {
            data.push(None);
            i = i + 1;
        }
        ChunkBuffer { data }
    }

    /// `len` slots, each holding a clone of `value`.
    pub fn new(len: usize, value: T) -> (r: Self)
        where T: Clone,
        ensures
            r.spec_slots().len() == len,
            forall|i: int| 0 <= i < len ==> ((#[trigger] r.spec_slots()[i]) matches Some(x) && cloned(value, x)),
    {
        let mut data: Vec<Option<T>> = Vec::new();
        let mut i: usize = 0;
        while i < len
            invariant
                i <= len,
                data@.len() == i,
                forall|k: int| 0 <= k < i ==> ((#[trigger] data@[k]) matches Some(x) && cloned(value, x)),
            decreases len - i,
        {
            data.push(Some(value.clone()));
            i = i + 1;
        }
        ChunkBuffer { data }
    }

    pub fn len(&self) -> (r: usize)
        ensures
            r == self.spec_slots().len(),
    {
        self.data.len()
    }

    pub fn is_empty(&self) -> (r: bool)
        ensures
            r == (self.spec_slots().len() == 0),
    {
        self.data.len() == 0
    }

    /// Stores a value in a slot.
    pub fn write(&mut self, index: usize, value: T)
        requires
            index < old(self).spec_slots().len(),
        ensures
            final(self).spec_slots() == old(self).spec_slots().update(index as int, Some(value)),
    {
        self.data.set(index, Some(value));
    }

    /// A clone of the value in a written slot.
    pub fn read(&self, index: usize) -> (r: T)
        where T: Clone,
        requires
            index < self.spec_slots().len(),
            self.spec_slots()[index as int] is Some,
        ensures
            cloned(self.spec_slots()[index as int]->Some_0, r),
    {
        self.data[index].as_ref().unwrap().clone()
    }

    /// The slots, written or not.
    pub fn into_inner(self) -> (r: Vec<Option<T>>)
        ensures
            r@ == self.spec_slots(),
    {
        self.data
    }

    /// The values of a buffer whose every slot was written.
    pub fn into_inner_assume_init(self) -> (r: Vec<T>)
        requires
            forall|i: int| 0 <= i < self.spec_slots().len() ==> #[trigger] self.spec_slots()[i] is Some,
        ensures
            r@.len() == self.spec_slots().len(),
            forall|i: int| 0 <= i < r@.len() ==> self.spec_slots()[i] == Some(#[trigger] r@[i]),
    {
        proof {
            assert forall|i: int| 0 <= i < self.data@.len() implies #[trigger] self.data@[i] is Some by {
                assert(self.spec_slots()[i] is Some);
            }
        }
        unwrap_all(self.data)
    }
}

/// The values of a list of filled slots, in order.
pub fn unwrap_all<T>(data: Vec<Option<T>>) -> (r: Vec<T>)
    requires
        forall|i: int| 0 <= i < data@.len() ==> #[trigger] data@[i] is Some,
    ensures
        r@.len() == data@.len(),
        forall|i: int| 0 <= i < r@.len() ==> data@[i] == Some(#[trigger] r@[i]),
{
    let ghost slots = data@;
    let mut data = data;
    let mut reversed: Vec<T> = Vec::new();
    while data.len() > 0
        invariant
            data@ == slots.subrange(0, data@.len() as int),
            data@.len() + reversed@.len() == slots.len(),
            forall|i: int| 0 <= i < slots.len() ==> #[trigger] slots[i] is Some,
            forall|k: int| 0 <= k < reversed@.len() ==> slots[slots.len() - 1 - k] == Some(#[trigger] reversed@[k]),
        decreases data@.len(),
    {
        let x = data.pop().unwrap();
        reversed.push(x.unwrap());
    }
    let mut out: Vec<T> = Vec::new();
    while reversed.len() > 0
        invariant
            out@.len() + reversed@.len() == slots.len(),
            forall|k: int| 0 <= k < reversed@.len() ==> slots[slots.len() - 1 - k] == Some(#[trigger] reversed@[k]),
            forall|i: int| 0 <= i < out@.len() ==> slots[i] == Some(#[trigger] out@[i]),
        decreases reversed@.len(),
    {
        let x = reversed.pop().unwrap();
        proof {
            assert(slots[slots.len() - 1 - (reversed@.len() as int)] == Some(x));
        }
        out.push(x);
    }
    out
}

/// A buffer of slots written once each and then taken once each.
pub struct WriteOnceBuffer<T> {
    slots: Vec<Option<T>>,
}

impl<T> WriteOnceBuffer<T> {
    pub closed spec fn spec_slots(&self) -> Seq<Option<T>> {
        self.slots@
    }

    pub fn new(len: usize) -> (r: Self)
        ensures
            r.spec_slots().len() == len,
            forall|i: int| 0 <= i < len ==> #[trigger] r.spec_slots()[i] is None,
    {
        let b = ChunkBuffer::<T>::new_uninit(len);
        WriteOnceBuffer { slots: b.into_inner() }
    }

    /// Fills an empty slot (a slot is assigned at most once).
    pub fn write(&mut self, index: usize, value: T)
        requires
            index < old(self).spec_slots().len(),
            old(self).spec_slots()[index as int] is None,
        ensures
            final(self).spec_slots() == old(self).spec_slots().update(index as int, Some(value)),
    {
        self.slots.set(index, Some(value));
    }

    /// Takes the value out of a filled slot, leaving it empty.
    pub fn take(&mut self, index: usize) -> (r: T)
        requires
            index < old(self).spec_slots().len(),
            old(self).spec_slots()[index as int] is Some,
        ensures
            old(self).spec_slots()[index as int] == Some(r),
            final(self).spec_slots() == old(self).spec_slots().update(index as int, None),
    {
        let mut tmp: Option<T> = None;
        self.slots.set_and_swap(index, &mut tmp);
        tmp.unwrap()
    }
}

/// The per-line value slots between two data-pipeline stages: a stage writes a
/// line's slot, the next stage takes it.
pub struct LineSlot<T> {
    values: Vec<Option<T>>,
}

impl<T> LineSlot<T> {
    pub closed spec fn spec_values(&self) -> Seq<Option<T>> {
        self.values@
    }

    pub fn new(num_lines: usize) -> (r: Self)
        ensures
            r.spec_values().len() == num_lines,
            forall|i: int| 0 <= i < num_lines ==> #[trigger] r.spec_values()[i] is None,
    {
        let b = ChunkBuffer::<T>::new_uninit(num_lines);
        LineSlot { values: b.into_inner() }
    }

    /// Stores the line's value; the previous one must have been consumed.
    pub fn write(&mut self, line: usize, value: T)
        requires
            line < old(self).spec_values().len(),
            old(self).spec_values()[line as int] is None,
        ensures
            final(self).spec_values() == old(self).spec_values().update(line as int, Some(value)),
    {
        self.values.set(line, Some(value));
    }

    /// Takes the line's value, which must have been written.
    pub fn take(&mut self, line: usize) -> (r: T)
        requires
            line < old(self).spec_values().len(),
            old(self).spec_values()[line as int] is Some,
        ensures
            old(self).spec_values()[line as int] == Some(r),
            final(self).spec_values() == old(self).spec_values().update(line as int, None),
    {
        let mut tmp: Option<T> = None;
        self.values.set_and_swap(line, &mut tmp);
        tmp.unwrap()
    }

    /// Whether the line's slot holds a value.
    pub fn is_filled(&self, line: usize) -> (r: bool)
        requires
            line < self.spec_values().len(),
        ensures
            r == (self.spec_values()[line as int] is Some),
    {
        self.values[line].is_some()
    }
}

/// The output buffer of a parallel scan: every slot holds a value from the start.
pub struct ScanBuffer<T> {
    data: Vec<T>,
}

impl<T> ScanBuffer<T> {
    pub closed spec fn spec_data(&self) -> Seq<T> {
        self.data@
    }

    /// `len` clones of `default`.
    pub fn new(len: usize, default: T) -> (r: Self)
        where T: Clone,
        ensures
            r.spec_data().len() == len,
            forall|i: int| 0 <= i < len ==> cloned(default, #[trigger] r.spec_data()[i]),
    {
        let mut data: Vec<T> = Vec::new();
        let mut i: usize = 0;
        while i < len
            invariant
                i <= len,
                data@.len() == i,
                forall|k: int| 0 <= k < i ==> cloned(default, #[trigger] data@[k]),
            decreases len - i,
        {
            data.push(default.clone());
            i = i + 1;
        }
        ScanBuffer { data }
    }

    pub fn write(&mut self, index: usize, value: T)
        requires
            index < old(self).spec_data().len(),
        ensures
            final(self).spec_data() == old(self).spec_data().update(index as int, value),
    {
        self.data.set(index, value);
    }

    pub fn read(&self, index: usize) -> (r: T)
        where T: Clone,
        requires
            index < self.spec_data().len(),
        ensures
            cloned(self.spec_data()[index as int], r),
    {
        self.data[index].clone()
    }

    pub fn into_inner(self) -> (r: Vec<T>)
        ensures
            r@ == self.spec_data(),
    {
        self.data
    }
}

/// The slots after the writes `writes` (index and value, in order), as
/// `ChunkBuffer::write` states each of them.
pub open spec fn slots_after<T>(slots: Seq<Option<T>>, writes: Seq<(nat, T)>) -> Seq<Option<T>>
    decreases writes.len(),
{
    if writes.len() == 0 {
        slots
    } else {
        let before = slots_after(slots, writes.drop_last());
        let (i, x) = writes.last();
        if i < before.len() {
            before.update(i as int, Some(x))
        } else {
            before
        }
    }
}

/// The value last written to slot `i` by `writes`, if any.
pub open spec fn last_write<T>(writes: Seq<(nat, T)>, i: nat) -> Option<T>
    decreases writes.len(),
{
    if writes.len() == 0 {
        None
    } else if writes.last().0 == i {
        Some(writes.last().1)
    } else {
        last_write(writes.drop_last(), i)
    }
}

/// Law: after any writes, a slot holds the value last written to it, and a
/// slot never written holds what it held at first (a clone of the initial
/// value, or nothing); the number of slots does not change.
pub proof fn lemma_slots_after_writes<T>(slots: Seq<Option<T>>, writes: Seq<(nat, T)>, i: nat)
    requires
        i < slots.len(),
    ensures
        slots_after(slots, writes).len() == slots.len(),
        slots_after(slots, writes)[i as int] == match last_write(writes, i) {
            Some(x) => Some(x),
            None => slots[i as int],
        },
    decreases writes.len(),
{
    if writes.len() > 0 {
        lemma_slots_after_writes(slots, writes.drop_last(), i);
    }
}

/// A value padded to its own cache line, so that neighbours do not share one.
pub struct CachelineAligned<T> {
    pub data: T,
}

impl<T> CachelineAligned<T> {
    pub fn new(data: T) -> (r: Self)
        ensures
            r.data == data,
    {
        CachelineAligned { data }
    }
}

} // verus!
