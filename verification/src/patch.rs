//! Patches and their application to the decompressed image.

use crate::error::Error;
use vstd::prelude::*;

verus! {

/// The logical address at which the image's own address space begins.
pub const LOGICAL_BASE: u32 = 0x2000000;

/// The offset in the image of the byte at `LOGICAL_BASE`.
pub const PHYSICAL_BIAS: u32 = 0x48B5E0;

/// Four bytes to be written at a logical address.
#[derive(Debug, Clone, Copy, PartialEq, Eq)]
pub struct Patch {
    pub address: u32,
    pub opcode: [u8; 4],
}

/// A `Patch` as a mathematical value.
pub struct PatchView {
    pub address: u32,
    pub opcode: Seq<u8>,
}

impl View for Patch {
    type V = PatchView;

    open spec fn view(&self) -> PatchView {
        PatchView { address: self.address, opcode: self.opcode@ }
    }
}

/// The patches as mathematical values.
pub open spec fn patches_view(patches: Seq<Patch>) -> Seq<PatchView> {
    patches.map_values(|p: Patch| p@)
}

/// The offset in the image of the byte at a logical address. It is
/// negative for an address too far below the base.
pub open spec fn physical_offset(address: u32) -> int {
    address - LOGICAL_BASE + PHYSICAL_BIAS
}

/// The four bytes for the address lie within an image of `len` bytes.
pub open spec fn in_bounds(len: nat, address: u32) -> bool {
    0 <= physical_offset(address) && physical_offset(address) + 4 <= len
}

/// The image with the patch written over the four bytes at its offset.
pub open spec fn written(image: Seq<u8>, p: PatchView) -> Seq<u8> {
    Seq::new(
        image.len(),
        |i: int|
            if physical_offset(p.address) <= i < physical_offset(p.address) + 4 {
                p.opcode[i - physical_offset(p.address)]
            } else {
                image[i]
            },
    )
}

/// The image with the patches written in the order of the list.
pub open spec fn applied(image: Seq<u8>, patches: Seq<PatchView>) -> Seq<u8>
    decreases patches.len(),
{
    if patches.len() == 0 {
        image
    } else {
        written(applied(image, patches.drop_last()), patches.last())
    }
}

/// `i` is the index of the first patch of the list that does not lie
/// within an image of `len` bytes.
pub open spec fn first_outside(len: nat, patches: Seq<PatchView>, i: int) -> bool {
    &&& 0 <= i < patches.len()
    &&& !in_bounds(len, patches[i].address)
    &&& forall|j: int| 0 <= j < i ==> in_bounds(len, patches[j].address)
}

/// Every patch of the list lies within an image of `len` bytes.
pub open spec fn all_in_bounds(len: nat, patches: Seq<PatchView>) -> bool {
    forall|j: int| 0 <= j < patches.len() ==> in_bounds(len, patches[j].address)
}

/// The offset in the image for a logical address, where the four bytes at
/// it lie within an image of `len` bytes.
pub fn offset_within(len: usize, address: u32) -> (r: Option<usize>)
    ensures
        match r {
            Some(offset) => in_bounds(len as nat, address) && offset == physical_offset(address),
            None => !in_bounds(len as nat, address),
        },
{
    let raised: u64 = address as u64 + PHYSICAL_BIAS as u64;
    if raised < LOGICAL_BASE as u64 {
        return None;
    }
    let offset: u64 = raised - LOGICAL_BASE as u64;
    if offset + 4 > len as u64 {
        return None;
    }
    Some(offset as usize)
}

/// Writes one patch over the four bytes at its offset.
pub fn apply_patch(image: &mut Vec<u8>, patch: &Patch) -> (r: Result<(), Error>)
    ensures
        final(image)@.len() == old(image)@.len(),
        match r {
            Ok(()) => in_bounds(old(image)@.len(), patch.address) && final(image)@ == written(
                old(image)@,
                patch@,
            ),
            Err(e) => !in_bounds(old(image)@.len(), patch.address) && final(image)@ == old(image)@
                && e == (Error::OutOfBounds { index: 0 }),
        },
{
    match offset_within(image.len(), patch.address) {
        None => Err(Error::OutOfBounds { index: 0 }),
        Some(offset) => {
            image.set(offset, patch.opcode[0]);
            image.set(offset + 1, patch.opcode[1]);
            image.set(offset + 2, patch.opcode[2]);
            image.set(offset + 3, patch.opcode[3]);
            assert(image@ == written(old(image)@, patch@));
            Ok(())
        },
    }
}

/// Writes the patches into the image in the order of the list, so that
/// of two patches for the same bytes the later one stays. At the first
/// patch that does not lie within the image the work ends: the image
/// then holds the patches before that one.
pub fn apply_patches(image: &mut Vec<u8>, patches: &Vec<Patch>) -> (r: Result<(), Error>)
    ensures
        final(image)@.len() == old(image)@.len(),
        match r {
            Ok(()) => all_in_bounds(old(image)@.len(), patches_view(patches@)) && final(image)@
                == applied(old(image)@, patches_view(patches@)),
            Err(e) => exists|i: int|
                first_outside(old(image)@.len(), patches_view(patches@), i) && e
                    == (Error::OutOfBounds { index: i as usize }) && final(image)@ == applied(
                    old(image)@,
                    patches_view(patches@).take(i),
                ),
        },
{
    let ghost views = patches_view(patches@);
    let mut i: usize = 0;
    assert(views.take(0) == Seq::<PatchView>::empty());
    while i < patches.len()
        invariant
            i <= patches.len(),
            views == patches_view(patches@),
            image@.len() == old(image)@.len(),
            image@ == applied(old(image)@, views.take(i as int)),
            forall|j: int| 0 <= j < i ==> in_bounds(old(image)@.len(), views[j].address),
        decreases patches.len() - i,
    {
        match apply_patch(image, &patches[i]) {
            Err(_) => {
                assert(first_outside(old(image)@.len(), views, i as int));
                return Err(Error::OutOfBounds { index: i });
            },
            Ok(()) => {
                assert(views.take(i + 1).drop_last() == views.take(i as int));
                assert(views.take(i + 1).last() == patches@[i as int]@);
            },
        }
        i += 1;
    }
    assert(views.take(views.len() as int) == views);
    Ok(())
}

/// Of two patches with the same offset, written one after the other, the
/// later one stays: the image is as if only it had been written.
pub proof fn lemma_later_patch_wins(image: Seq<u8>, earlier: PatchView, later: PatchView)
    requires
        physical_offset(earlier.address) == physical_offset(later.address),
        earlier.opcode.len() == 4,
        later.opcode.len() == 4,
    ensures
        applied(image, seq![earlier, later]) == written(image, later),
        in_bounds(image.len(), later.address) ==> applied(image, seq![earlier, later]).subrange(
            physical_offset(later.address),
            physical_offset(later.address) + 4,
        ) == later.opcode,
{
    let both = seq![earlier, later];
    assert(both.drop_last() == seq![earlier]);
    assert(seq![earlier].drop_last() == Seq::<PatchView>::empty());
    assert(applied(image, Seq::<PatchView>::empty()) == image);
    assert(applied(image, seq![earlier]) == written(image, earlier));
    assert(applied(image, both) == written(written(image, earlier), later));
    assert(written(written(image, earlier), later) == written(image, later));
}

/// After a list of patches is written, the bytes at the offset of the
/// last one are its opcode, whatever came before.
pub proof fn lemma_last_patch_holds(image: Seq<u8>, patches: Seq<PatchView>)
    requires
        patches.len() > 0,
        patches.last().opcode.len() == 4,
        in_bounds(image.len(), patches.last().address),
    ensures
        applied(image, patches).len() == image.len(),
        applied(image, patches).subrange(
            physical_offset(patches.last().address),
            physical_offset(patches.last().address) + 4,
        ) == patches.last().opcode,
{
    lemma_applied_len(image, patches);
    lemma_applied_len(image, patches.drop_last());
}

/// Writing patches keeps the length of the image.
pub proof fn lemma_applied_len(image: Seq<u8>, patches: Seq<PatchView>)
    ensures
        applied(image, patches).len() == image.len(),
    decreases patches.len(),
{
    if patches.len() > 0 {
        lemma_applied_len(image, patches.drop_last());
    }
}

} // verus!
