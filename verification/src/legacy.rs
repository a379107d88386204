//! The legacy patch list: a count of 16 bits, then for each patch a size
//! of 16 bits that must be four, an address of 32 bits in the legacy base
//! and four bytes; all numbers with the most significant byte first.

use crate::error::Error;
use crate::patch::{patches_view, Patch, PatchView};
use vstd::prelude::*;

verus! {

/// What a legacy address is above the logical address that it stands
/// for.
pub const LEGACY_ADDRESS_BIAS: u32 = 0xA900000;

/// The number of 16 bits at index `at`.
pub open spec fn be16(bytes: Seq<u8>, at: int) -> int {
    bytes[at] * 0x100 + bytes[at + 1]
}

/// The number of 32 bits at index `at`.
pub open spec fn be32(bytes: Seq<u8>, at: int) -> int {
    bytes[at] * 0x1000000 + bytes[at + 1] * 0x10000 + bytes[at + 2] * 0x100 + bytes[at + 3]
}

/// The number of records that the list announces.
pub open spec fn record_count(bytes: Seq<u8>) -> int {
    be16(bytes, 0)
}

/// The index at which record `k` begins.
pub open spec fn record_start(k: int) -> int {
    2 + 10 * k
}

/// Record `k` is a patch of four bytes at an address of the legacy base.
pub open spec fn record_ok(bytes: Seq<u8>, k: int) -> bool {
    be16(bytes, record_start(k)) == 4 && be32(bytes, record_start(k) + 2) >= LEGACY_ADDRESS_BIAS
}

/// The list is whole and each of its records is a patch.
pub open spec fn well_formed(bytes: Seq<u8>) -> bool {
    &&& bytes.len() >= 2
    &&& bytes.len() >= record_start(record_count(bytes))
    &&& forall|k: int| 0 <= k < record_count(bytes) ==> record_ok(bytes, k)
}

/// The patch of record `k`, at its logical address.
pub open spec fn record_patch(bytes: Seq<u8>, k: int) -> PatchView {
    PatchView {
        address: (be32(bytes, record_start(k) + 2) - LEGACY_ADDRESS_BIAS) as u32,
        opcode: bytes.subrange(record_start(k) + 6, record_start(k) + 10),
    }
}

/// The patches of a list, in the order of its records.
pub open spec fn decoded(bytes: Seq<u8>) -> Seq<PatchView> {
    Seq::new(record_count(bytes) as nat, |k: int| record_patch(bytes, k))
}

/// The two bytes of a number of 16 bits.
pub open spec fn be16_bytes(x: int) -> Seq<u8> {
    seq![(x / 0x100) as u8, (x % 0x100) as u8]
}

/// The four bytes of a number of 32 bits.
pub open spec fn be32_bytes(x: int) -> Seq<u8> {
    seq![
        (x / 0x1000000) as u8,
        ((x / 0x10000) % 0x100) as u8,
        ((x / 0x100) % 0x100) as u8,
        (x % 0x100) as u8,
    ]
}

/// The record of a patch.
pub open spec fn record(p: PatchView) -> Seq<u8> {
    be16_bytes(4) + be32_bytes(p.address + LEGACY_ADDRESS_BIAS) + p.opcode
}

/// The records of the patches, one after the other.
pub open spec fn records(patches: Seq<PatchView>) -> Seq<u8>
    decreases patches.len(),
{
    if patches.len() == 0 {
        Seq::empty()
    } else {
        records(patches.drop_last()) + record(patches.last())
    }
}

/// The legacy list of the patches.
pub open spec fn encoded(patches: Seq<PatchView>) -> Seq<u8> {
    be16_bytes(patches.len() as int) + records(patches)
}

/// The patches can be written as a legacy list: their number fits in 16
/// bits, and each legacy address in 32.
pub open spec fn encodable(patches: Seq<PatchView>) -> bool {
    &&& patches.len() <= 0xFFFF
    &&& forall|k: int|
        0 <= k < patches.len() ==> (#[trigger] patches[k]).address + LEGACY_ADDRESS_BIAS
            <= u32::MAX
}

/// Every opcode has four bytes, as that of a `Patch` has.
pub open spec fn four_byte_opcodes(patches: Seq<PatchView>) -> bool {
    forall|k: int| 0 <= k < patches.len() ==> (#[trigger] patches[k]).opcode.len() == 4
}

/// Reads the number of 16 bits at index `at`.
fn read_be16(bytes: &Vec<u8>, at: usize) -> (x: u16)
    requires
        at + 2 <= bytes.len(),
    ensures
        x == be16(bytes@, at as int),
{
    (bytes[at] as u16) * 0x100 + bytes[at + 1] as u16
}

/// Reads the number of 32 bits at index `at`.
fn read_be32(bytes: &Vec<u8>, at: usize) -> (x: u32)
    requires
        at + 4 <= bytes.len(),
    ensures
        x == be32(bytes@, at as int),
{
    (bytes[at] as u32) * 0x1000000 + (bytes[at + 1] as u32) * 0x10000 + (bytes[at + 2] as u32)
        * 0x100 + bytes[at + 3] as u32
}

/// Decodes a legacy patch list. The list is malformed where it is
/// shorter than its count says, where a record does not have the size
/// four, and where a legacy address lies below the legacy base; bytes
/// after the last record are passed over.
pub fn decode_patch_list(bytes: &Vec<u8>) -> (r: Result<Vec<Patch>, Error>)
    ensures
        match r {
            Ok(patches) => well_formed(bytes@) && patches_view(patches@) == decoded(bytes@),
            Err(e) => e == Error::MalformedRecord && !well_formed(bytes@),
        },
{
    if bytes.len() < 2 {
        return Err(Error::MalformedRecord);
    }
    let count: usize = read_be16(bytes, 0) as usize;
    if bytes.len() < 2 + 10 * count {
        return Err(Error::MalformedRecord);
    }
    let mut patches: Vec<Patch> = Vec::new();
    let mut k: usize = 0;
    while k < count
        invariant
            k <= count,
            count == record_count(bytes@),
            bytes.len() >= 2 + 10 * count,
            patches@.len() == k,
            forall|j: int| 0 <= j < k ==> record_ok(bytes@, j),
            forall|j: int| 0 <= j < k ==> (#[trigger] patches@[j])@ == record_patch(bytes@, j),
        decreases count - k,
    {
        let at: usize = 2 + 10 * k;
        let size = read_be16(bytes, at);
        let legacy = read_be32(bytes, at + 2);
        if size != 4 || legacy < LEGACY_ADDRESS_BIAS {
            assert(!record_ok(bytes@, k as int));
            return Err(Error::MalformedRecord);
        }
        let opcode: [u8; 4] = [bytes[at + 6], bytes[at + 7], bytes[at + 8], bytes[at + 9]];
        assert(opcode@ == bytes@.subrange(at + 6, at + 10));
        patches.push(Patch { address: legacy - LEGACY_ADDRESS_BIAS, opcode });
        k += 1;
    }
    assert(patches_view(patches@) == decoded(bytes@));
    Ok(patches)
}

/// Encodes the patches as a legacy patch list. They cannot be encoded
/// where they are more than the count can say, or where a legacy address
/// does not fit in 32 bits.
pub fn encode_patch_list(patches: &Vec<Patch>) -> (r: Result<Vec<u8>, Error>)
    ensures
        match r {
            Ok(bytes) => encodable(patches_view(patches@)) && bytes@ == encoded(
                patches_view(patches@),
            ),
            Err(e) => e == Error::Unencodable && !encodable(patches_view(patches@)),
        },
{
    let ghost views = patches_view(patches@);
    if patches.len() > 0xFFFF {
        return Err(Error::Unencodable);
    }
    let count: usize = patches.len();
    let mut bytes: Vec<u8> = Vec::new();
    bytes.push((count / 0x100) as u8);
    bytes.push((count % 0x100) as u8);
    assert(bytes@ == be16_bytes(count as int));
    let mut k: usize = 0;
    assert(views.take(0) == Seq::<PatchView>::empty());
    while k < patches.len()
        invariant
            k <= patches.len(),
            count == patches.len(),
            views == patches_view(patches@),
            bytes@ == be16_bytes(count as int) + records(views.take(k as int)),
            forall|j: int| 0 <= j < k ==> (#[trigger] views[j]).address + LEGACY_ADDRESS_BIAS
                <= u32::MAX,
        decreases patches.len() - k,
    {
        let patch = &patches[k];
        assert(views[k as int] == patch@);
        if patch.address > u32::MAX - LEGACY_ADDRESS_BIAS {
            return Err(Error::Unencodable);
        }
        let legacy: u32 = patch.address + LEGACY_ADDRESS_BIAS;
        let ghost before = bytes@;
        bytes.push(0);
        bytes.push(4);
        bytes.push((legacy / 0x1000000) as u8);
        bytes.push(((legacy / 0x10000) % 0x100) as u8);
        bytes.push(((legacy / 0x100) % 0x100) as u8);
        bytes.push((legacy % 0x100) as u8);
        bytes.push(patch.opcode[0]);
        bytes.push(patch.opcode[1]);
        bytes.push(patch.opcode[2]);
        bytes.push(patch.opcode[3]);
        assert(bytes@ == before + record(patch@));
        assert(views.take(k + 1).drop_last() == views.take(k as int));
        assert(views.take(k + 1).last() == patch@);
        assert(bytes@ == be16_bytes(count as int) + records(views.take(k + 1)));
        k += 1;
    }
    assert(views.take(views.len() as int) == views);
    Ok(bytes)
}

/// The records of patches with opcodes of four bytes take ten bytes
/// each, and the bytes of record `k` are those of patch `k`.
pub proof fn lemma_records_layout(patches: Seq<PatchView>, k: int)
    requires
        four_byte_opcodes(patches),
        0 <= k < patches.len(),
    ensures
        records(patches).len() == 10 * patches.len(),
        records(patches).subrange(10 * k, 10 * k + 10) == record(patches[k]),
    decreases patches.len(),
{
    let shorter = patches.drop_last();
    assert(four_byte_opcodes(shorter)) by {
        assert forall|j: int| 0 <= j < shorter.len() implies (#[trigger] shorter[j]).opcode.len()
            == 4 by {
            assert(shorter[j] == patches[j]);
        }
    }
    lemma_records_len(shorter);
    assert(record(patches.last()).len() == 10);
    if k == patches.len() - 1 {
        assert(records(patches).subrange(10 * k, 10 * k + 10) == record(patches[k]));
    } else {
        lemma_records_layout(shorter, k);
        assert(records(patches).subrange(10 * k, 10 * k + 10) == records(shorter).subrange(
            10 * k,
            10 * k + 10,
        ));
    }
}

/// The records of patches with opcodes of four bytes take ten bytes
/// each.
pub proof fn lemma_records_len(patches: Seq<PatchView>)
    requires
        four_byte_opcodes(patches),
    ensures
        records(patches).len() == 10 * patches.len(),
    decreases patches.len(),
{
    if patches.len() > 0 {
        let shorter = patches.drop_last();
        assert(four_byte_opcodes(shorter)) by {
            assert forall|j: int| 0 <= j < shorter.len() implies (
            #[trigger] shorter[j]).opcode.len() == 4 by {
                assert(shorter[j] == patches[j]);
            }
        }
        lemma_records_len(shorter);
        assert(record(patches.last()).len() == 10);
    }
}

/// A list of patches that is encoded and decoded again is the same list.
pub proof fn lemma_round_trip(patches: Seq<PatchView>)
    requires
        encodable(patches),
        four_byte_opcodes(patches),
    ensures
        well_formed(encoded(patches)),
        decoded(encoded(patches)) == patches,
{
    let bytes = encoded(patches);
    let n = patches.len() as int;
    lemma_records_len(patches);
    assert(bytes.len() == 2 + 10 * n);
    assert(bytes[0] == (n / 0x100) as u8);
    assert(bytes[1] == (n % 0x100) as u8);
    assert(record_count(bytes) == n);
    assert forall|k: int| 0 <= k < n implies record_ok(bytes, k) && record_patch(bytes, k)
        == patches[k] by {
        lemma_records_layout(patches, k);
        let r = record(patches[k]);
        let x = patches[k].address + LEGACY_ADDRESS_BIAS;
        assert(bytes.subrange(record_start(k), record_start(k) + 10) == r);
        assert forall|j: int| 0 <= j < 10 implies bytes[record_start(k) + j] == r[j] by {
            assert(bytes.subrange(record_start(k), record_start(k) + 10)[j] == bytes[record_start(
                k,
            ) + j]);
        }
        assert(bytes[record_start(k)] == r[0]);
        assert(bytes[record_start(k) + 1] == r[1]);
        assert(bytes[record_start(k) + 2] == r[2]);
        assert(bytes[record_start(k) + 3] == r[3]);
        assert(bytes[record_start(k) + 4] == r[4]);
        assert(bytes[record_start(k) + 5] == r[5]);
        assert(r[0] == 0u8 && r[1] == 4u8);
        assert(r[2] == (x / 0x1000000) as u8);
        assert(r[3] == ((x / 0x10000) % 0x100) as u8);
        assert(r[4] == ((x / 0x100) % 0x100) as u8);
        assert(r[5] == (x % 0x100) as u8);
        assert(be32(bytes, record_start(k) + 2) == x);
        assert(bytes.subrange(record_start(k) + 6, record_start(k) + 10) == patches[k].opcode) by {
            assert forall|j: int| 0 <= j < 4 implies bytes.subrange(
                record_start(k) + 6,
                record_start(k) + 10,
            )[j] == patches[k].opcode[j] by {
                assert(bytes[record_start(k) + 6 + j] == r[6 + j]);
            }
        }
    }
    assert(decoded(bytes) == patches);
}

} // verus!
