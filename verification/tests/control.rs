//! The control block: its bytes, and what is refused.

use vauban_storage::disk::data::Data;
use vauban_storage::disk::control::{CONTROL_LEN, CONTROL_VERSION};
use vauban_storage::disk::crc::crc32;
use vauban_storage::disk::page::{Lsn, PageId};
use vauban_storage::error::{Corruption, InternalError};
use vauban_storage::{Control, DiskOptions, DiskStorage};

/// Counters that are distinct, none of them the default.
fn moved() -> Control {
    Control {
        next_page_id: PageId(7),
        next_db_id: 12,
        next_table_id: 34,
        next_index_id: 56,
        next_row_id: 78,
        latest_checkpoint_lsn: Lsn(90),
        durable_lsn: Lsn(91),
    }
}

/// Seals a block whose fields were changed by hand.
fn seal(bytes: &mut [u8]) {
    let sum = crc32(&bytes[..124]);
    bytes[124..].copy_from_slice(&sum.to_le_bytes());
}

#[test]
fn a_control_block_is_128_bytes_under_the_magic() {
    let bytes = Control::default().to_bytes();
    assert_eq!(bytes.len(), 128);
    assert_eq!(bytes.len(), CONTROL_LEN);
    assert_eq!(&bytes[0..8], b"VAUBANDB");
    assert_eq!(
        u32::from_le_bytes([bytes[8], bytes[9], bytes[10], bytes[11]]),
        2,
        "format_version"
    );
    assert_eq!(CONTROL_VERSION, 2);
    assert_eq!(
        Control::from_bytes(&bytes).expect("read back"),
        Control::default()
    );
}

#[test]
fn open_returns_the_counters_of_the_ctl_it_read() {
    let bytes = moved().to_bytes();
    assert_eq!(&bytes[16..24], &7u64.to_le_bytes());
    assert_eq!(&bytes[24..32], &12u64.to_le_bytes());
    assert_eq!(&bytes[64..72], &91u64.to_le_bytes());
    let control = Control::from_bytes(&bytes).expect("read back");
    assert_eq!(control, moved());
    let reopened =
        DiskStorage::open(DiskOptions::default(), control, Data::empty(), Vec::new()).expect("reopen");
    let read_back = reopened.control;
    assert_eq!(read_back, moved());
    // Field by field as well, so that a failure names the counter that was lost.
    assert_eq!(read_back.next_page_id, PageId(7));
    assert_eq!(read_back.next_db_id, 12);
    assert_eq!(read_back.next_table_id, 34);
    assert_eq!(read_back.next_index_id, 56);
    assert_eq!(read_back.next_row_id, 78);
    assert_eq!(read_back.latest_checkpoint_lsn, Lsn(90));
    assert_eq!(read_back.durable_lsn, Lsn(91));
}

#[test]
fn open_rejects_unknown_version() {
    let mut bytes = Control::default().to_bytes();
    bytes[8..12].copy_from_slice(&3u32.to_le_bytes());
    seal(&mut bytes);
    let err = Control::from_bytes(&bytes).expect_err("version 3 is not read by this build");
    assert!(matches!(err, InternalError::Corruption(_)), "{err:?}");
    assert!(err.to_string().contains("format version 3"), "{err:?}");
}

#[test]
fn a_damaged_control_block_is_corruption() {
    let bytes = moved().to_bytes();
    let err = Control::from_bytes(&bytes[..127]).expect_err("127 bytes");
    assert!(matches!(
        err,
        InternalError::Corruption(Corruption::ControlLength(127))
    ));

    let mut magic = bytes.clone();
    magic[0] = b'W';
    seal(&mut magic);
    let err = Control::from_bytes(&magic).expect_err("another magic");
    assert!(matches!(
        err,
        InternalError::Corruption(Corruption::ControlMagic)
    ));

    for at in 12..128 {
        let mut torn = bytes.clone();
        torn[at] ^= 0x10;
        let err = Control::from_bytes(&torn).expect_err("a flipped bit");
        assert!(
            matches!(
                err,
                InternalError::Corruption(Corruption::ControlChecksum { .. })
            ),
            "byte {at}: {err:?}"
        );
    }
}
