//! In-place edits of the file buffer.
//!
//! Edits overwrite single bytes and never change the buffer's length, so
//! every offset the parsed model refers to stays valid.

use vstd::prelude::*;

verus! {

/// The buffer after writing `value` at `offset`; unchanged when the offset
/// is out of range.
pub open spec fn overwritten(bytes: Seq<u8>, offset: int, value: u8) -> Seq<u8> {
    if 0 <= offset < bytes.len() { bytes.update(offset, value) } else { bytes }
}

/// Whether writing `value` at `offset` changes the buffer.
pub open spec fn changes(bytes: Seq<u8>, offset: int, value: u8) -> bool {
    0 <= offset < bytes.len() && bytes[offset] != value
}

/// Overwrite the byte at `offset` with `value`, returning whether the buffer
/// actually changed (false when the offset is out of range or already equal).
pub fn overwrite_byte(bytes: &mut Vec<u8>, offset: usize, value: u8) -> (changed: bool)
    ensures
        changed == changes(old(bytes)@, offset as int, value),
        final(bytes)@ == overwritten(old(bytes)@, offset as int, value),
{
    if offset < bytes.len() && bytes[offset] != value {
        bytes.set(offset, value);
        true
    } else {
        if offset < bytes.len() {
            assert(old(bytes)@.update(offset as int, value) =~= old(bytes)@);
        }
        false
    }
}

/// An overwrite keeps the buffer's length, changes at most the byte at its
/// offset, and repeating it changes nothing more.
pub proof fn lemma_overwrite_once(bytes: Seq<u8>, offset: int, value: u8)
    ensures
        overwritten(bytes, offset, value).len() == bytes.len(),
        forall|i: int| 0 <= i < bytes.len() && i != offset ==> #[trigger] overwritten(bytes, offset, value)[i] == bytes[i],
        !changes(overwritten(bytes, offset, value), offset, value),
        overwritten(overwritten(bytes, offset, value), offset, value) == overwritten(bytes, offset, value),
        changes(bytes, offset, value) <==> overwritten(bytes, offset, value) != bytes,
{
    let once = overwritten(bytes, offset, value);
    if 0 <= offset < bytes.len() {
        assert(once.update(offset, value) =~= once);
        if !changes(bytes, offset, value) {
            assert(once =~= bytes);
        } else {
            assert(once[offset] != bytes[offset]);
        }
    }
}

/// Writing back the byte an overwrite replaced restores the buffer.
pub proof fn lemma_overwrite_undo(bytes: Seq<u8>, offset: int, value: u8)
    requires
        0 <= offset < bytes.len(),
    ensures
        overwritten(overwritten(bytes, offset, value), offset, bytes[offset]) == bytes,
{
    assert(overwritten(overwritten(bytes, offset, value), offset, bytes[offset]) =~= bytes);
}

} // verus!
