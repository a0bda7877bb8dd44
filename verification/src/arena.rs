//! Where an interned text lies: a slot names an arena and a range of bytes in
//! it. Arenas only ever grow at their end, so a slot that was handed out once
//! keeps its text.

use crate::encoding::{
    byte_len, lemma_appended_decodes, lemma_boundary_survives_append, lemma_encode_concat,
    lemma_joint_is_boundary,
};
use vstd::prelude::*;
use vstd::utf8::{
    decode_utf8, encode_utf8, encode_utf8_valid_utf8, is_char_boundary,
    is_char_boundary_start_end_of_seq,
};

verus! {

/// The place of one interned text: the arena that holds it, counted from the
/// oldest, and the bytes `start..end` of that arena.
pub struct Slot {
    pub arena: usize,
    pub start: usize,
    pub end: usize,
}

impl Slot {
    /// The slot lies inside its arena and begins and ends between characters.
    pub open spec fn fits(self, arenas: Seq<Seq<char>>) -> bool {
        let bytes = encode_utf8(arenas[self.arena as int]);
        &&& self.arena < arenas.len()
        &&& self.start <= self.end <= bytes.len()
        &&& is_char_boundary(bytes, self.start as int)
        &&& is_char_boundary(bytes, self.end as int)
    }

    /// The bytes of the slot.
    pub open spec fn bytes(self, arenas: Seq<Seq<char>>) -> Seq<u8> {
        encode_utf8(arenas[self.arena as int]).subrange(self.start as int, self.end as int)
    }

    /// The text of the slot.
    pub open spec fn text(self, arenas: Seq<Seq<char>>) -> Seq<char> {
        decode_utf8(self.bytes(arenas))
    }
}

/// Every slot fits the arenas.
pub open spec fn slots_fit(slots: Seq<Slot>, arenas: Seq<Seq<char>>) -> bool {
    forall|i: int| 0 <= i < slots.len() ==> (#[trigger] slots[i]).fits(arenas)
}

/// The texts of the slots, in their order.
pub open spec fn texts_of(slots: Seq<Slot>, arenas: Seq<Seq<char>>) -> Seq<Seq<char>> {
    Seq::new(slots.len(), |i: int| slots[i].text(arenas))
}

/// The arenas `after` keep what `before` held: there are at least as many,
/// and each arena of `before` is the beginning of the arena in its place.
pub open spec fn arenas_extend(before: Seq<Seq<char>>, after: Seq<Seq<char>>) -> bool {
    &&& before.len() <= after.len()
    &&& forall|k: int| 0 <= k < before.len() ==> (#[trigger] before[k]).is_prefix_of(after[k])
}

/// A slot keeps its place and its text when its arena grows at the end.
pub proof fn lemma_slot_kept(slot: Slot, before: Seq<Seq<char>>, after: Seq<Seq<char>>)
    requires
        slot.fits(before),
        arenas_extend(before, after),
    ensures
        slot.fits(after),
        slot.bytes(after) == slot.bytes(before),
        slot.text(after) == slot.text(before),
{
    let k = slot.arena as int;
    let old_text = before[k];
    let new_text = after[k];
    assert(old_text.is_prefix_of(new_text));
    let extra = new_text.subrange(old_text.len() as int, new_text.len() as int);
    assert(new_text =~= old_text + extra);
    lemma_encode_concat(old_text, extra);
    encode_utf8_valid_utf8(old_text);
    encode_utf8_valid_utf8(extra);
    lemma_boundary_survives_append(encode_utf8(old_text), encode_utf8(extra), slot.start as int);
    lemma_boundary_survives_append(encode_utf8(old_text), encode_utf8(extra), slot.end as int);
    assert(slot.bytes(after) =~= slot.bytes(before));
}

/// All slots keep their places and their texts when arenas grow at the end
/// and new arenas are added.
pub proof fn lemma_slots_kept(slots: Seq<Slot>, before: Seq<Seq<char>>, after: Seq<Seq<char>>)
    requires
        slots_fit(slots, before),
        arenas_extend(before, after),
    ensures
        slots_fit(slots, after),
        texts_of(slots, after) == texts_of(slots, before),
{
    assert forall|i: int| 0 <= i < slots.len() implies (#[trigger] slots[i]).fits(after)
        && slots[i].text(after) == slots[i].text(before) by {
        lemma_slot_kept(slots[i], before, after);
    }
    assert(texts_of(slots, after) =~= texts_of(slots, before));
}

/// The slot of a text that was appended to the last arena fits, and its text
/// is the one appended.
pub proof fn lemma_slot_of_appended(
    slot: Slot,
    arenas: Seq<Seq<char>>,
    head: Seq<char>,
    text: Seq<char>,
)
    requires
        arenas.len() >= 1,
        slot.arena == arenas.len() - 1,
        arenas.last() == head + text,
        slot.start == byte_len(head),
        slot.end == byte_len(head) + byte_len(text),
    ensures
        slot.fits(arenas),
        slot.text(arenas) == text,
{
    lemma_encode_concat(head, text);
    encode_utf8_valid_utf8(head);
    encode_utf8_valid_utf8(text);
    lemma_joint_is_boundary(encode_utf8(head), encode_utf8(text));
    is_char_boundary_start_end_of_seq(encode_utf8(head) + encode_utf8(text));
    lemma_appended_decodes(head, text);
}

} // verus!
