use rpx_patch::error::Error;
use rpx_patch::patch::{
    apply_patch, apply_patches, offset_within, Patch, LOGICAL_BASE, PHYSICAL_BIAS,
};

#[test]
fn constants_of_the_image() {
    assert_eq!(LOGICAL_BASE, 0x2000000);
    assert_eq!(PHYSICAL_BIAS, 0x48B5E0);
}

#[test]
fn logical_address_translates_to_physical_offset() {
    assert_eq!(offset_within(0x48B5F4, 0x2000010), Some(0x48B5F0));
    assert_eq!(offset_within(0x48B5E4, 0x2000000), Some(0x48B5E0));
    assert_eq!(offset_within(4, 0x2000000 - 0x48B5E0), Some(0));
}

#[test]
fn offsets_outside_the_image_are_refused() {
    assert_eq!(offset_within(0x48B5F3, 0x2000010), None);
    assert_eq!(offset_within(0, 0x2000010), None);
    assert_eq!(offset_within(usize::MAX, 0x2000000 - 0x48B5E0 - 1), None);
    assert_eq!(offset_within(3, 0x2000000 - 0x48B5E0), None);
    assert_eq!(offset_within(1000, 0), None);
}

#[test]
fn patch_overwrites_four_bytes_at_its_offset() {
    let mut image = vec![0u8; 0x48B5F8];
    let patch = Patch { address: 0x2000010, opcode: [0x11, 0x22, 0x33, 0x44] };
    assert_eq!(apply_patch(&mut image, &patch), Ok(()));
    assert_eq!(image.len(), 0x48B5F8);
    assert_eq!(&image[0x48B5F0..0x48B5F4], &[0x11, 0x22, 0x33, 0x44]);
    assert!(image[..0x48B5F0].iter().all(|b| *b == 0));
    assert!(image[0x48B5F4..].iter().all(|b| *b == 0));
}

#[test]
fn later_patch_at_the_same_offset_wins() {
    let mut image = vec![0xAAu8; 0x48B5F4];
    let patches = vec![
        Patch { address: 0x2000010, opcode: [1, 2, 3, 4] },
        Patch { address: 0x2000010, opcode: [5, 6, 7, 8] },
    ];
    assert_eq!(apply_patches(&mut image, &patches), Ok(()));
    assert_eq!(&image[0x48B5F0..0x48B5F4], &[5, 6, 7, 8]);
}

#[test]
fn overlapping_patches_are_written_in_list_order() {
    let mut image = vec![0u8; 0x48B5F8];
    let patches = vec![
        Patch { address: 0x2000012, opcode: [1, 2, 3, 4] },
        Patch { address: 0x2000010, opcode: [5, 6, 7, 8] },
    ];
    assert_eq!(apply_patches(&mut image, &patches), Ok(()));
    assert_eq!(&image[0x48B5F0..0x48B5F6], &[5, 6, 7, 8, 3, 4]);
}

#[test]
fn no_patches_leave_the_image_as_it_is() {
    let mut image = vec![1u8, 2, 3];
    assert_eq!(apply_patches(&mut image, &vec![]), Ok(()));
    assert_eq!(image, vec![1u8, 2, 3]);
}

#[test]
fn first_patch_outside_the_image_ends_the_work() {
    let mut image = vec![0u8; 0x48B5F4];
    let patches = vec![
        Patch { address: 0x2000010, opcode: [1, 2, 3, 4] },
        Patch { address: 0x2000011, opcode: [5, 6, 7, 8] },
        Patch { address: 0x200000C, opcode: [9, 9, 9, 9] },
    ];
    assert_eq!(
        apply_patches(&mut image, &patches),
        Err(Error::OutOfBounds { index: 1 })
    );
    assert_eq!(image.len(), 0x48B5F4);
    assert_eq!(&image[0x48B5EC..0x48B5F4], &[0, 0, 0, 0, 1, 2, 3, 4]);
}

#[test]
fn address_below_the_image_is_out_of_bounds() {
    let mut image = vec![0u8; 16];
    let patch = Patch { address: 0, opcode: [1, 2, 3, 4] };
    assert_eq!(
        apply_patch(&mut image, &patch),
        Err(Error::OutOfBounds { index: 0 })
    );
    assert_eq!(image, vec![0u8; 16]);
}
