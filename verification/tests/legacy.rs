use rpx_patch::error::Error;
use rpx_patch::legacy::{decode_patch_list, encode_patch_list, LEGACY_ADDRESS_BIAS};
use rpx_patch::patch::Patch;

#[test]
fn bias_is_the_legacy_base() {
    assert_eq!(LEGACY_ADDRESS_BIAS, 0xA900000);
}

#[test]
fn one_record_decodes_to_one_patch() {
    let bytes = vec![
        0x00, 0x01, 0x00, 0x04, 0x0A, 0x90, 0x00, 0x05, 0x11, 0x22, 0x33, 0x44,
    ];
    assert_eq!(
        decode_patch_list(&bytes),
        Ok(vec![Patch { address: 5, opcode: [0x11, 0x22, 0x33, 0x44] }])
    );
}

#[test]
fn legacy_address_loses_the_bias() {
    let mut bytes = vec![0x00, 0x01, 0x00, 0x04];
    bytes.extend_from_slice(&(0x2000010u32 + 0xA900000).to_be_bytes());
    bytes.extend_from_slice(&[0x60, 0x00, 0x00, 0x00]);
    let patches = decode_patch_list(&bytes).unwrap();
    assert_eq!(patches.len(), 1);
    assert_eq!(patches[0].address, 0x2000010);
}

#[test]
fn records_keep_their_order() {
    let bytes = vec![
        0x00, 0x02, 0x00, 0x04, 0x0A, 0x90, 0x00, 0x09, 1, 2, 3, 4, 0x00, 0x04, 0x0A, 0x90, 0x00,
        0x01, 5, 6, 7, 8,
    ];
    assert_eq!(
        decode_patch_list(&bytes),
        Ok(vec![
            Patch { address: 9, opcode: [1, 2, 3, 4] },
            Patch { address: 1, opcode: [5, 6, 7, 8] },
        ])
    );
}

#[test]
fn empty_list_decodes_to_no_patches() {
    assert_eq!(decode_patch_list(&vec![0x00, 0x00]), Ok(vec![]));
    assert_eq!(decode_patch_list(&vec![0x00, 0x00, 0xFF]), Ok(vec![]));
}

#[test]
fn truncated_list_is_malformed() {
    assert_eq!(decode_patch_list(&vec![]), Err(Error::MalformedRecord));
    assert_eq!(decode_patch_list(&vec![0x00]), Err(Error::MalformedRecord));
    assert_eq!(decode_patch_list(&vec![0x00, 0x01]), Err(Error::MalformedRecord));
    let bytes = vec![
        0x00, 0x01, 0x00, 0x04, 0x0A, 0x90, 0x00, 0x05, 0x11, 0x22, 0x33,
    ];
    assert_eq!(decode_patch_list(&bytes), Err(Error::MalformedRecord));
    let bytes = vec![
        0x00, 0x02, 0x00, 0x04, 0x0A, 0x90, 0x00, 0x05, 0x11, 0x22, 0x33, 0x44,
    ];
    assert_eq!(decode_patch_list(&bytes), Err(Error::MalformedRecord));
}

#[test]
fn record_of_another_size_is_malformed() {
    let bytes = vec![
        0x00, 0x01, 0x00, 0x08, 0x0A, 0x90, 0x00, 0x05, 0x11, 0x22, 0x33, 0x44,
    ];
    assert_eq!(decode_patch_list(&bytes), Err(Error::MalformedRecord));
    let bytes = vec![
        0x00, 0x01, 0x04, 0x00, 0x0A, 0x90, 0x00, 0x05, 0x11, 0x22, 0x33, 0x44,
    ];
    assert_eq!(decode_patch_list(&bytes), Err(Error::MalformedRecord));
}

#[test]
fn address_below_the_legacy_base_is_malformed() {
    let bytes = vec![
        0x00, 0x01, 0x00, 0x04, 0x0A, 0x8F, 0xFF, 0xFF, 0x11, 0x22, 0x33, 0x44,
    ];
    assert_eq!(decode_patch_list(&bytes), Err(Error::MalformedRecord));
}

#[test]
fn patches_encode_to_the_legacy_list() {
    let patches = vec![Patch { address: 5, opcode: [0x11, 0x22, 0x33, 0x44] }];
    assert_eq!(
        encode_patch_list(&patches),
        Ok(vec![
            0x00, 0x01, 0x00, 0x04, 0x0A, 0x90, 0x00, 0x05, 0x11, 0x22, 0x33, 0x44
        ])
    );
    assert_eq!(encode_patch_list(&vec![]), Ok(vec![0x00, 0x00]));
}

#[test]
fn encoding_then_decoding_gives_the_patches_back() {
    let patches = vec![
        Patch { address: 0x2000010, opcode: [0x60, 0, 0, 0] },
        Patch { address: 0, opcode: [1, 2, 3, 4] },
        Patch { address: u32::MAX - 0xA900000, opcode: [0xFF, 0xFE, 0xFD, 0xFC] },
        Patch { address: 0x2000010, opcode: [0x38, 0x60, 0, 1] },
    ];
    let bytes = encode_patch_list(&patches).unwrap();
    assert_eq!(bytes.len(), 2 + 10 * patches.len());
    assert_eq!(decode_patch_list(&bytes), Ok(patches));
}

#[test]
fn patches_that_do_not_fit_cannot_be_encoded() {
    let high = vec![Patch { address: u32::MAX - 0xA900000 + 1, opcode: [0; 4] }];
    assert_eq!(encode_patch_list(&high), Err(Error::Unencodable));
    let many = vec![Patch { address: 0, opcode: [0; 4] }; 0x10000];
    assert_eq!(encode_patch_list(&many), Err(Error::Unencodable));
    let most = vec![Patch { address: 0, opcode: [0; 4] }; 0xFFFF];
    assert_eq!(encode_patch_list(&most).map(|b| b.len()), Ok(2 + 10 * 0xFFFF));
}
