//! The interner: a table of texts without repetition, the arenas that hold
//! their bytes, and an index from each text to its identifier.

use crate::arena::{
    arenas_extend, lemma_slot_of_appended, lemma_slots_kept, slots_fit, texts_of, Slot,
};
use crate::encoding::{byte_len, byte_length, lemma_boundary_in_prefix, lemma_encode_concat};
use crate::growth::{
    arena_is_full, checked_grown_capacity, grown_capacity, lemma_next_power_of_two_fits,
    max_capacity, max_reserved_entries, round_up_to_power_of_two,
};
use crate::model::InternerView;
use vstd::hash_map::StringHashMap;
use vstd::prelude::*;
use vstd::string::{StringExecFns, StringSliceAdditionalSpecFns};
use vstd::utf8::{encode_utf8_decode_utf8, encode_utf8_valid_utf8};

verus! {

/// `String::with_capacity` of the standard library. The contract claims that
/// the string it returns is empty. The standard library panics where the
/// capacity is above `isize::MAX` bytes, so such a capacity is not accepted.
pub assume_specification[ String::with_capacity ](capacity: usize) -> (s: String)
    requires
        capacity <= isize::MAX,
    ensures
        s@ == Seq::<char>::empty(),
;

/// Identifier of an interned text: its position in the table of the interner
/// that issued it.
#[derive(Copy, Clone, Debug, PartialEq, Eq, Structural)]
pub struct StringId(pub usize);

/// A string interner. Each distinct text is copied once into an arena and is
/// named from then on by a `StringId`, which `get` turns back into the text.
///
/// Texts are appended to the active arena. An arena never grows beyond the
/// capacity it was created with: when a text does not fit, the active arena
/// is retired as it is and a larger one takes its place. So the bytes of a
/// text stay where they were written for as long as the interner lives.
pub struct StringInternal {
    strings: StringHashMap<StringId>,
    buffer: String,
    capacity: usize,
    buffers: Vec<String>,
    interned: Vec<Slot>,
}

/// The arenas as texts: the retired ones, oldest first, then the active one.
spec fn arenas_of(retired: Seq<String>, active: String) -> Seq<Seq<char>> {
    Seq::new(
        retired.len() + 1,
        |k: int|
            if k < retired.len() {
                retired[k]@
            } else {
                active@
            },
    )
}

impl View for StringInternal {
    type V = InternerView;

    closed spec fn view(&self) -> InternerView {
        InternerView {
            table: texts_of(self.interned@, arenas_of(self.buffers@, self.buffer)),
            arenas: arenas_of(self.buffers@, self.buffer),
            capacity: self.capacity as nat,
        }
    }
}

impl StringInternal {
    /// The arenas hold what the slots say, within the capacity.
    spec fn store_wf(&self) -> bool {
        &&& slots_fit(self.interned@, self@.arenas)
        &&& self@.used() <= self.capacity <= max_capacity()
    }

    /// The index knows each text of the table by its position, and nothing
    /// else.
    spec fn index_wf(&self) -> bool {
        &&& forall|i: int|
            0 <= i < self@.table.len() ==> self.strings@.contains_key(#[trigger] self@.table[i])
                && self.strings@[self@.table[i]].0 == i
        &&& forall|text: Seq<char>| #[trigger]
            self.strings@.contains_key(text) ==> self.strings@[text].0 < self@.table.len()
                && self@.table[self.strings@[text].0 as int] == text
    }

    /// The interner is well formed: table, arenas and index agree.
    pub closed spec fn wf(&self) -> bool {
        &&& self@.valid()
        &&& self.store_wf()
        &&& self.index_wf()
    }

    /// A well-formed interner has a valid view: in particular no text is in
    /// its table twice.
    pub proof fn lemma_view_valid(&self)
        requires
            self.wf(),
        ensures
            self@.valid(),
    {
    }

    /// Returns an empty interner whose first arena has a capacity of 100
    /// bytes.
    pub fn new() -> (interner: Self)
        ensures
            interner.wf(),
            interner@ == InternerView::empty(100),
    {
        let interner = Self {
            strings: StringHashMap::new(),
            buffer: String::with_capacity(100),
            capacity: 100,
            buffers: Vec::new(),
            interned: Vec::with_capacity(4096),
        };
        proof {
            assert(interner@.arenas =~= seq![Seq::<char>::empty()]);
            assert(interner@.table =~= Seq::<Seq<char>>::empty());
            InternerView::lemma_empty_valid(100);
        }
        interner
    }

    /// Returns an empty interner whose first arena has the given capacity in
    /// bytes.
    pub fn with_capacity(capacity: usize) -> (interner: Self)
        requires
            capacity <= max_capacity(),
        ensures
            interner.wf(),
            interner@ == InternerView::empty(capacity as nat),
    {
        Self::with_capacity_for_internals(capacity, 4096)
    }

    /// Returns an empty interner whose first arena has the given capacity in
    /// bytes, and whose table has room for `capacity_internal_strings` texts
    /// before it has to grow.
    pub fn with_capacity_for_internals(
        capacity: usize,
        capacity_internal_strings: usize,
    ) -> (interner: Self)
        requires
            capacity <= max_capacity(),
            capacity_internal_strings <= max_reserved_entries(),
        ensures
            interner.wf(),
            interner@ == InternerView::empty(capacity as nat),
    {
        let interner = Self {
            strings: StringHashMap::new(),
            buffer: String::with_capacity(capacity),
            capacity,
            buffers: Vec::new(),
            interned: Vec::with_capacity(capacity_internal_strings),
        };
        proof {
            assert(interner@.arenas =~= seq![Seq::<char>::empty()]);
            assert(interner@.table =~= Seq::<Seq<char>>::empty());
            InternerView::lemma_empty_valid(capacity as nat);
        }
        interner
    }

    /// Stores `string` as a new entry of the table and returns its
    /// identifier. Where the active arena is full for it, the arena is
    /// retired first and a larger one takes its place. The index is left as
    /// it is.
    fn intern(&mut self, string: &str) -> (id: StringId)
        requires
            old(self).store_wf(),
            !old(self)@.is_full_for(string@) || grown_capacity(
                old(self)@.capacity,
                byte_len(string@),
            ) <= max_capacity(),
        ensures
            final(self).store_wf(),
            final(self)@ == old(self)@.stored(string@),
            final(self).strings == old(self).strings,
            id.0 == old(self)@.table.len(),
    {
        let ghost before = self@.arenas;
        let len = byte_length(string);
        if arena_is_full(byte_length(self.buffer.as_str()), self.capacity, len) {
            proof {
                lemma_next_power_of_two_fits(self.capacity as nat);
            }
            let new_capacity = round_up_to_power_of_two(self.capacity) + len;
            let mut retired = String::with_capacity(new_capacity);
            std::mem::swap(&mut self.buffer, &mut retired);
            self.buffers.push(retired);
            self.capacity = new_capacity;
            proof {
                assert(self@.arenas =~= before.push(Seq::<char>::empty()));
            }
        }
        let ghost opened = self@.arenas;
        let ghost head = self.buffer@;
        let start = byte_length(self.buffer.as_str());
        self.buffer.append(string);
        let end = start + len;
        let slot = Slot { arena: self.buffers.len(), start, end };
        proof {
            let after = self@.arenas;
            assert(after =~= opened.update(opened.len() - 1, head + string@));
            assert(arenas_extend(before, after)) by {
                assert forall|k: int| 0 <= k < before.len() implies (#[trigger] before[k])
                    .is_prefix_of(after[k]) by {
                    if k == opened.len() - 1 {
                        assert(before[k] == head);
                        assert((head + string@).subrange(0, head.len() as int) =~= head);
                    }
                }
            }
            lemma_slots_kept(self.interned@, before, after);
            lemma_slot_of_appended(slot, after, head, string@);
            lemma_encode_concat(head, string@);
            assert(texts_of(self.interned@.push(slot), after) =~= texts_of(
                self.interned@,
                before,
            ).push(string@));
            assert(after =~= old(self)@.stored(string@).arenas);
        }
        self.interned.push(slot);
        StringId(self.interned.len() - 1)
    }

    /// Looks `string` up in the index.
    fn lookup(&self, string: &str) -> (found: Option<StringId>)
        requires
            self.wf(),
        ensures
            (match found {
                Some(id) => self@.holds(string@) && id.0 == self@.id_of(string@),
                None => !self@.holds(string@),
            }),
    {
        match self.strings.get(string) {
            Some(id) => Some(*id),
            None => None,
        }
    }

    /// Stores a text that is not held yet, and enters it into the index.
    fn insert(&mut self, string: &str) -> (id: StringId)
        requires
            old(self).wf(),
            !old(self)@.holds(string@),
            old(self)@.admits(string@),
        ensures
            final(self).wf(),
            final(self)@ == old(self)@.stored(string@),
            id.0 == old(self)@.table.len(),
    {
        proof {
            self@.lemma_interned_valid(string@);
        }
        let id = self.intern(string);
        self.strings.insert(string.to_owned(), id);
        id
    }

    /// Interns `string`: returns the identifier that the text has had since
    /// it was first added, or stores it and returns the next identifier.
    ///
    /// The text must be one that the interner admits: where it has to be
    /// stored and the active arena is full for it, the arena that takes its
    /// place must be one that can be created.
    pub fn add(&mut self, string: &str) -> (id: StringId)
        requires
            old(self).wf(),
            old(self)@.admits(string@),
        ensures
            final(self).wf(),
            final(self)@ == old(self)@.interned(string@),
            id.0 == old(self)@.id_of(string@),
            id.0 < final(self)@.table.len(),
            final(self)@.table[id.0 as int] == string@,
            old(self)@.table.is_prefix_of(final(self)@.table),
    {
        proof {
            let table = self@.table;
            assert(table.subrange(0, table.len() as int) =~= table);
            assert(table.push(string@).subrange(0, table.len() as int) =~= table);
        }
        match self.lookup(string) {
            Some(id) => id,
            None => self.insert(string),
        }
    }

    /// Interns `string` as `add` does where the interner admits it; returns
    /// `None` and changes nothing where it does not.
    pub fn try_add(&mut self, string: &str) -> (id: Option<StringId>)
        requires
            old(self).wf(),
        ensures
            final(self).wf(),
            (match id {
                Some(id) => {
                    &&& old(self)@.admits(string@)
                    &&& final(self)@ == old(self)@.interned(string@)
                    &&& id.0 == old(self)@.id_of(string@)
                    &&& id.0 < final(self)@.table.len()
                    &&& final(self)@.table[id.0 as int] == string@
                    &&& old(self)@.table.is_prefix_of(final(self)@.table)
                },
                None => !old(self)@.admits(string@) && final(self)@ == old(self)@,
            }),
    {
        proof {
            let table = self@.table;
            assert(table.subrange(0, table.len() as int) =~= table);
            assert(table.push(string@).subrange(0, table.len() as int) =~= table);
        }
        match self.lookup(string) {
            Some(id) => Some(id),
            None => {
                let len = byte_length(string);
                let full = arena_is_full(byte_length(self.buffer.as_str()), self.capacity, len);
                assert(self@.arenas.last() == self.buffer@);
                if !full || checked_grown_capacity(self.capacity, len).is_some() {
                    Some(self.insert(string))
                } else {
                    None
                }
            },
        }
    }

    /// Number of texts that have been interned. The identifiers below it are
    /// the valid ones.
    pub fn len(&self) -> (len: usize)
        ensures
            len == self@.table.len(),
    {
        self.interned.len()
    }

    /// Capacity of the active arena in bytes.
    pub fn capacity(&self) -> (capacity: usize)
        ensures
            capacity == self@.capacity,
    {
        self.capacity
    }

    /// Returns the text that was interned under `string_id`, which must be an
    /// identifier that this interner has issued.
    pub fn get(&self, string_id: StringId) -> (text: &str)
        requires
            self.wf(),
            string_id.0 < self@.table.len(),
        ensures
            text@ == self@.table[string_id.0 as int],
    {
        let slot = &self.interned[string_id.0];
        let arena: &str = if slot.arena < self.buffers.len() {
            self.buffers[slot.arena].as_str()
        } else {
            self.buffer.as_str()
        };
        proof {
            assert(slot.fits(self@.arenas));
            assert(arena@ == self@.arenas[slot.arena as int]);
            encode_utf8_valid_utf8(arena@);
            lemma_boundary_in_prefix(arena.spec_bytes(), slot.start as int, slot.end as int);
        }
        let (head, _) = arena.split_at(slot.end);
        let (_, text) = head.split_at(slot.start);
        proof {
            assert(text.spec_bytes() =~= slot.bytes(self@.arenas));
            encode_utf8_decode_utf8(text@);
        }
        text
    }

    /// Returns the text that was interned under `string_id`, or `None` where
    /// the interner has issued no such identifier.
    pub fn try_get(&self, string_id: StringId) -> (text: Option<&str>)
        requires
            self.wf(),
        ensures
            (match text {
                Some(text) => string_id.0 < self@.table.len() && text@
                    == self@.table[string_id.0 as int],
                None => string_id.0 >= self@.table.len(),
            }),
    {
        if string_id.0 < self.interned.len() {
            Some(self.get(string_id))
        } else {
            None
        }
    }
}

} // verus!
