//! The interner as a mathematical value, the steps it takes, and the laws
//! that hold of them.

use crate::encoding::{byte_len, lemma_encode_concat};
use crate::growth::{grown_capacity, is_full, max_capacity};
use vstd::prelude::*;
use vstd::seq_lib::seq_to_set_is_finite;

verus! {

/// What an interner holds, apart from how it is laid out in memory.
pub struct InternerView {
    /// The interned texts; the text at position `i` has the identifier `i`.
    pub table: Seq<Seq<char>>,
    /// The arenas in the order they were created, each as the text written
    /// into it so far. The last one is active, the others are retired.
    pub arenas: Seq<Seq<char>>,
    /// The capacity of the active arena, in bytes.
    pub capacity: nat,
}

impl InternerView {
    /// An interner that holds no text, with one empty arena of the given
    /// capacity.
    pub open spec fn empty(capacity: nat) -> InternerView {
        InternerView { table: Seq::empty(), arenas: seq![Seq::<char>::empty()], capacity }
    }

    /// Bytes taken in the active arena.
    pub open spec fn used(self) -> nat {
        byte_len(self.arenas.last())
    }

    /// No text is in the table twice; the arenas, read one after another,
    /// hold the texts of the table in the order of their identifiers and
    /// nothing else; there is an active arena, and what it holds is within
    /// its capacity, which is one that an arena can have.
    pub open spec fn valid(self) -> bool {
        &&& self.table.no_duplicates()
        &&& self.arenas.flatten() == self.table.flatten()
        &&& self.arenas.len() >= 1
        &&& self.used() <= self.capacity <= max_capacity()
    }

    /// `text` has been interned.
    pub open spec fn holds(self, text: Seq<char>) -> bool {
        self.table.contains(text)
    }

    /// The active arena has to be retired before `text` can be stored.
    pub open spec fn is_full_for(self, text: Seq<char>) -> bool {
        is_full(self.used(), self.capacity, byte_len(text))
    }

    /// `text` can be interned: it is already held, or the active arena takes
    /// it, or an arena large enough for it can be created.
    pub open spec fn admits(self, text: Seq<char>) -> bool {
        ||| self.holds(text)
        ||| !self.is_full_for(text)
        ||| grown_capacity(self.capacity, byte_len(text)) <= max_capacity()
    }

    /// The identifier that interning `text` gives: the position of the text
    /// where it is held, the next free position where it is not.
    pub open spec fn id_of(self, text: Seq<char>) -> int {
        if self.holds(text) {
            self.table.index_of(text)
        } else {
            self.table.len() as int
        }
    }

    /// The interner after `text` has been stored as a new entry. A full
    /// active arena retires unchanged and a fresh one, which starts with
    /// `text`, takes its place; otherwise `text` is appended to the active
    /// arena.
    pub open spec fn stored(self, text: Seq<char>) -> InternerView {
        if self.is_full_for(text) {
            InternerView {
                table: self.table.push(text),
                arenas: self.arenas.push(text),
                capacity: grown_capacity(self.capacity, byte_len(text)),
            }
        } else {
            InternerView {
                table: self.table.push(text),
                arenas: self.arenas.update(self.arenas.len() - 1, self.arenas.last() + text),
                capacity: self.capacity,
            }
        }
    }

    /// The interner after `text` has been interned: unchanged where the text
    /// is held already, with the text stored where it is not.
    pub open spec fn interned(self, text: Seq<char>) -> InternerView {
        if self.holds(text) {
            self
        } else {
            self.stored(text)
        }
    }

    /// The interner after each of `texts` has been interned, first to last.
    pub open spec fn interned_all(self, texts: Seq<Seq<char>>) -> InternerView
        decreases texts.len(),
    {
        if texts.len() == 0 {
            self
        } else {
            self.interned_all(texts.drop_last()).interned(texts.last())
        }
    }
}

impl InternerView {
    /// An empty interner is valid whenever its capacity is one that an arena
    /// can have.
    pub proof fn lemma_empty_valid(capacity: nat)
        requires
            capacity <= max_capacity(),
        ensures
            Self::empty(capacity).valid(),
    {
        let none = Seq::<Seq<char>>::empty();
        assert(Self::empty(capacity).arenas =~= none.push(Seq::<char>::empty()));
        none.lemma_flatten_push(Seq::<char>::empty());
        assert(none.flatten() + Seq::<char>::empty() =~= none.flatten());
    }

    /// Interning a text that the interner admits keeps the interner valid.
    pub proof fn lemma_interned_valid(self, text: Seq<char>)
        requires
            self.valid(),
            self.admits(text),
        ensures
            self.interned(text).valid(),
    {
        self.lemma_table_distinct(text);
        if !self.holds(text) {
            self.lemma_stored_in_order(text);
            if !self.is_full_for(text) {
                lemma_encode_concat(self.arenas.last(), text);
            }
        }
    }

    /// Storing a text writes it behind all that the arenas held, and enters
    /// it behind all that the table held.
    pub proof fn lemma_stored_in_order(self, text: Seq<char>)
        requires
            self.arenas.len() >= 1,
        ensures
            self.stored(text).arenas.flatten() == self.arenas.flatten() + text,
            self.stored(text).table.flatten() == self.table.flatten() + text,
    {
        self.table.lemma_flatten_push(text);
        if self.is_full_for(text) {
            self.arenas.lemma_flatten_push(text);
        } else {
            let retired = self.arenas.drop_last();
            let active = self.arenas.last();
            assert(self.arenas =~= retired.push(active));
            assert(self.stored(text).arenas =~= retired.push(active + text));
            retired.lemma_flatten_push(active);
            retired.lemma_flatten_push(active + text);
            assert(retired.flatten() + (active + text) =~= (retired.flatten() + active) + text);
        }
    }

    /// Interning a text puts no text into the table twice.
    pub proof fn lemma_table_distinct(self, text: Seq<char>)
        requires
            self.table.no_duplicates(),
        ensures
            self.interned(text).table.no_duplicates(),
    {
        let after = self.interned(text).table;
        assert forall|i: int, j: int|
            0 <= i < after.len() && 0 <= j < after.len() && i != j implies after[i]
            != after[j] by {
            if i < self.table.len() {
                assert(self.table.contains(after[i]));
            }
            if j < self.table.len() {
                assert(self.table.contains(after[j]));
            }
        }
    }

    /// A text is held once it has been interned, and from then on interning
    /// it again gives the same identifier and changes nothing.
    pub proof fn lemma_interned_again(self, text: Seq<char>)
        ensures
            self.interned(text).holds(text),
            self.interned(text).id_of(text) == self.id_of(text),
            self.interned(text).interned(text) == self.interned(text),
    {
        let after = self.interned(text);
        if !self.holds(text) {
            assert(after.table[self.table.len() as int] == text);
            let at = after.table.index_of(text);
            if at < self.table.len() {
                assert(self.table[at] == text);
            }
        }
    }

    /// The identifier that interning a text gives names that text: looking
    /// it up in the table afterwards gives the text back.
    pub proof fn lemma_round_trip(self, text: Seq<char>)
        ensures
            0 <= self.id_of(text) < self.interned(text).table.len(),
            self.interned(text).table[self.id_of(text)] == text,
    {
    }

    /// A text that is not held yet gets the next free identifier, and the
    /// table grows by that one entry; a text that is held leaves the table as
    /// long as it was.
    pub proof fn lemma_next_identifier(self, text: Seq<char>)
        ensures
            !self.holds(text) ==> self.id_of(text) == self.table.len() && self.interned(
                text,
            ).table.len() == self.table.len() + 1,
            self.holds(text) ==> self.id_of(text) < self.table.len() && self.interned(
                text,
            ).table.len() == self.table.len(),
    {
    }

    /// Interning a text, whether or not an arena has to be retired for it,
    /// leaves every earlier identifier with its text.
    pub proof fn lemma_texts_kept(self, text: Seq<char>, i: int)
        requires
            0 <= i < self.table.len(),
        ensures
            i < self.interned(text).table.len(),
            self.interned(text).table[i] == self.table[i],
    {
    }

    /// Interning a text does not change the identifier of a text that is
    /// held.
    pub proof fn lemma_identifier_kept(self, held: Seq<char>, text: Seq<char>)
        requires
            self.table.no_duplicates(),
            self.holds(held),
        ensures
            self.interned(text).holds(held),
            self.interned(text).id_of(held) == self.id_of(held),
    {
        let after = self.interned(text);
        let at = self.table.index_of(held);
        assert(after.table[at] == held);
        let found = after.table.index_of(held);
        if found != at {
            if found < self.table.len() {
                assert(self.table[found] == held);
            } else {
                assert(after.table[found] == text);
            }
        }
    }

    /// Interning a text takes nothing back from an arena: no arena goes away,
    /// the retired ones stay exactly as they were, and the arena that was
    /// active keeps what it held as its beginning.
    pub proof fn lemma_arenas_kept(self, text: Seq<char>, k: int)
        requires
            self.arenas.len() >= 1,
            0 <= k < self.arenas.len(),
        ensures
            k < self.interned(text).arenas.len(),
            self.arenas[k].is_prefix_of(self.interned(text).arenas[k]),
            k < self.arenas.len() - 1 ==> self.interned(text).arenas[k] == self.arenas[k],
    {
        let after = self.interned(text);
        if !self.holds(text) && !self.is_full_for(text) && k == self.arenas.len() - 1 {
            assert((self.arenas[k] + text).subrange(0, self.arenas[k].len() as int)
                =~= self.arenas[k]);
        }
        assert(self.arenas[k].subrange(0, self.arenas[k].len() as int) =~= self.arenas[k]);
    }

    /// Interning texts one after another puts no text into the table twice,
    /// keeps the table that was there as the beginning of the new one, and
    /// makes the interner hold the texts it held and those interned, and no
    /// others.
    pub proof fn lemma_interned_all(self, texts: Seq<Seq<char>>)
        requires
            self.table.no_duplicates(),
        ensures
            self.interned_all(texts).table.no_duplicates(),
            self.table.is_prefix_of(self.interned_all(texts).table),
            forall|text: Seq<char>| #[trigger]
                self.interned_all(texts).holds(text) <==> self.holds(text) || texts.contains(
                    text,
                ),
        decreases texts.len(),
    {
        let after = self.interned_all(texts);
        if texts.len() == 0 {
            assert(self.table.subrange(0, self.table.len() as int) =~= self.table);
        } else {
            let front = texts.drop_last();
            let last = texts.last();
            let mid = self.interned_all(front);
            self.lemma_interned_all(front);
            mid.lemma_table_distinct(last);
            assert(after.table.subrange(0, self.table.len() as int) =~= self.table);
            assert forall|text: Seq<char>| #[trigger]
                after.holds(text) <==> self.holds(text) || texts.contains(text) by {
                if after.holds(text) {
                    let at = after.table.index_of(text);
                    if at < mid.table.len() {
                        assert(mid.table[at] == text);
                        assert(mid.holds(text));
                        if front.contains(text) {
                            let i = front.index_of(text);
                            assert(texts[i] == text);
                        }
                    } else {
                        assert(text == last);
                        assert(texts[texts.len() - 1] == text);
                    }
                }
                if self.holds(text) {
                    assert(mid.holds(text));
                    let at = mid.table.index_of(text);
                    assert(after.table[at] == text);
                }
                if texts.contains(text) {
                    let i = texts.index_of(text);
                    if i < front.len() {
                        assert(front[i] == text);
                        assert(mid.holds(text));
                        let at = mid.table.index_of(text);
                        assert(after.table[at] == text);
                    } else {
                        assert(text == last);
                        mid.lemma_interned_again(last);
                    }
                }
            }
        }
    }

    /// Interning further texts does not change the identifier of a text that
    /// is held.
    pub proof fn lemma_identifier_kept_all(self, held: Seq<char>, texts: Seq<Seq<char>>)
        requires
            self.table.no_duplicates(),
            self.holds(held),
        ensures
            self.interned_all(texts).holds(held),
            self.interned_all(texts).id_of(held) == self.id_of(held),
        decreases texts.len(),
    {
        if texts.len() > 0 {
            let front = texts.drop_last();
            self.lemma_identifier_kept_all(held, front);
            self.lemma_interned_all(front);
            self.interned_all(front).lemma_identifier_kept(held, texts.last());
        }
    }

    /// Identifiers are issued densely and in the order in which texts are
    /// first seen. When the texts `texts` are interned one after another into
    /// an interner with an empty table, then at the time `texts[j]` is
    /// interned the table holds one entry for each distinct text among those
    /// before it; if `texts[j]` is not among them, its identifier is their
    /// number, and if it is, its identifier is below their number.
    pub proof fn lemma_identifiers_dense(self, texts: Seq<Seq<char>>, j: int)
        requires
            self.table.len() == 0,
            0 <= j < texts.len(),
        ensures
            ({
                let before = self.interned_all(texts.take(j));
                let seen = texts.take(j).to_set();
                &&& seen.finite()
                &&& before.table.len() == seen.len()
                &&& !seen.contains(texts[j]) ==> before.id_of(texts[j]) == seen.len()
                &&& seen.contains(texts[j]) ==> 0 <= before.id_of(texts[j]) < seen.len()
            }),
    {
        let earlier = texts.take(j);
        let before = self.interned_all(earlier);
        self.lemma_interned_all(earlier);
        assert(before.table.to_set() =~= earlier.to_set()) by {
            assert forall|text: Seq<char>|
                before.table.to_set().contains(text) <==> earlier.to_set().contains(text) by {
                assert(before.holds(text) <==> self.holds(text) || earlier.contains(text));
                assert(!self.holds(text));
            }
        }
        before.table.unique_seq_to_set();
        seq_to_set_is_finite(earlier);
    }

    /// Texts that are all different, interned one after another into an
    /// interner with an empty table, are numbered as they come: the table is
    /// the sequence of the texts, so the text at position `k` has the
    /// identifier `k`.
    pub proof fn lemma_distinct_texts_numbered(self, texts: Seq<Seq<char>>)
        requires
            self.table.len() == 0,
            texts.no_duplicates(),
        ensures
            self.interned_all(texts).table == texts,
        decreases texts.len(),
    {
        if texts.len() == 0 {
            assert(self.table =~= texts);
        } else {
            let front = texts.drop_last();
            let last = texts.last();
            self.lemma_distinct_texts_numbered(front);
            let mid = self.interned_all(front);
            if mid.holds(last) {
                let i = front.index_of(last);
                assert(texts[i] == texts[texts.len() - 1]);
            }
            assert(mid.table.push(last) =~= texts);
        }
    }
}

} // verus!
