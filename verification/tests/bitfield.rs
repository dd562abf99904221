use tau_supervisor::llfree::bitfield::{first_zeros_aligned as fza, Bitfield};
use tau_supervisor::llfree::bitfield::SmallOrder::{O0, O1, O2, O3, O4, O5, O6};
use tau_supervisor::llfree::id::{FrameId, RowId};

fn rows_all(bitfield: &Bitfield, rows: std::ops::Range<usize>, value: u64) -> bool {
    rows.into_iter().all(|r| bitfield.get_row(RowId(r)) == value)
}

#[test]
fn multirow_contention_rolls_back_before_trying_next_candidate() {
    let mut bitfield = Bitfield::default();
    bitfield.toggle(FrameId(64), 6, false).unwrap();
    assert!(bitfield.toggle(FrameId(0), 7, false).is_err());
    assert_eq!(bitfield.get_row(RowId(0)), 0);
    assert_eq!(bitfield.get_row(RowId(1)), u64::MAX);
    assert_eq!(bitfield.set_first_zeros(RowId(0), 7), Ok(FrameId(128)));
}

#[test]
fn bit_set() {
    let mut bitfield = Bitfield::default();
    bitfield.set(FrameId(0)..FrameId(0), true);
    assert_eq!(bitfield.get_row(RowId(0)), 0);
    assert_eq!(bitfield.get_row(RowId(1)), 0);
    bitfield.set(FrameId(0)..FrameId(1), true);
    assert_eq!(bitfield.get_row(RowId(0)), 0b1);
    assert_eq!(bitfield.get_row(RowId(1)), 0b0);
    bitfield.set(FrameId(0)..FrameId(1), false);
    assert_eq!(bitfield.get_row(RowId(0)), 0b0);
    assert_eq!(bitfield.get_row(RowId(1)), 0b0);
    bitfield.set(FrameId(0)..FrameId(2), true);
    assert_eq!(bitfield.get_row(RowId(0)), 0b11);
    assert_eq!(bitfield.get_row(RowId(1)), 0b0);
    bitfield.set(FrameId(2)..FrameId(56), true);
    assert_eq!(bitfield.get_row(RowId(0)), 0x00ff_ffff_ffff_ffff);
    assert_eq!(bitfield.get_row(RowId(1)), 0b0);
    bitfield.set(FrameId(60)..FrameId(73), true);
    assert_eq!(bitfield.get_row(RowId(0)), 0xf0ff_ffff_ffff_ffff);
    assert_eq!(bitfield.get_row(RowId(1)), 0x01ff);
    bitfield.set(FrameId(96)..FrameId(128), true);
    assert_eq!(bitfield.get_row(RowId(0)), 0xf0ff_ffff_ffff_ffff);
    assert_eq!(bitfield.get_row(RowId(1)), 0xffff_ffff_0000_01ff);
    bitfield.set(FrameId(0)..FrameId(128), false);
    assert_eq!(bitfield.get_row(RowId(0)), 0);
    assert_eq!(bitfield.get_row(RowId(1)), 0);
}

#[test]
fn bit_toggle() {
    let mut bitfield = Bitfield::default();

    assert!(bitfield.is_zero(FrameId(8), 3));
    bitfield.toggle(FrameId(8), 3, false).unwrap();
    assert_eq!(bitfield.get_row(RowId(0)), 0xff00);
    assert_eq!(bitfield.get_row(RowId(1)), 0);
    assert!(!bitfield.is_zero(FrameId(8), 3));

    assert!(bitfield.is_zero(FrameId(16), 2));
    bitfield.toggle(FrameId(16), 2, false).unwrap();
    assert_eq!(bitfield.get_row(RowId(0)), 0xf_ff00);
    assert_eq!(bitfield.get_row(RowId(1)), 0);
    assert!(!bitfield.is_zero(FrameId(16), 2));

    assert!(bitfield.is_zero(FrameId(20), 2));
    bitfield.toggle(FrameId(20), 2, false).unwrap();
    assert_eq!(bitfield.get_row(RowId(0)), 0xff_ff00);
    assert_eq!(bitfield.get_row(RowId(1)), 0);
    assert!(!bitfield.is_zero(FrameId(16), 2));

    assert!(!bitfield.is_zero(FrameId(8), 3));
    bitfield.toggle(FrameId(8), 3, false).expect_err("");
    bitfield.toggle(FrameId(8), 3, true).unwrap();
    bitfield.toggle(FrameId(16), 3, true).unwrap();
    assert_eq!(bitfield.get_row(RowId(0)), 0);
    assert_eq!(bitfield.get_row(RowId(1)), 0);
    assert!(bitfield.is_zero(FrameId(0), Bitfield::ORDER));

    bitfield.toggle(FrameId(0), 6, false).unwrap();
    assert_eq!(bitfield.get_row(RowId(0)), u64::MAX);
    assert_eq!(bitfield.get_row(RowId(1)), 0);
    bitfield.toggle(FrameId(64), 6, false).unwrap();
    assert_eq!(bitfield.get_row(RowId(0)), u64::MAX);
    assert_eq!(bitfield.get_row(RowId(1)), u64::MAX);
    bitfield.toggle(FrameId(0), 7, true).unwrap();
    assert_eq!(bitfield.get_row(RowId(0)), 0);
    assert_eq!(bitfield.get_row(RowId(1)), 0);
}

#[test]
fn first_zeros_aligned() {

    assert_eq!(fza(0b0, O0), Some((0b1, 0)));
    assert_eq!(fza(0b0, O1), Some((0b11, 0)));
    assert_eq!(fza(0b0, O2), Some((0b1111, 0)));
    assert_eq!(fza(0b0, O3), Some((0xff, 0)));
    assert_eq!(fza(0b0, O4), Some((0xffff, 0)));
    assert_eq!(fza(0b0, O5), Some((0xffff_ffff, 0)));
    assert_eq!(fza(0b0, O6), Some((0xffff_ffff_ffff_ffff, 0)));

    assert_eq!(fza(0b1, O0), Some((0b11, 1)));
    assert_eq!(fza(0b1, O1), Some((0b1101, 2)));
    assert_eq!(fza(0b1, O2), Some((0xf1, 4)));
    assert_eq!(fza(0b1, O3), Some((0xff01, 8)));
    assert_eq!(fza(0b1, O4), Some((0xffff_0001, 16)));
    assert_eq!(fza(0b1, O5), Some((0xffff_ffff_0000_0001, 32)));
    assert_eq!(fza(0b1, O6), None);

    assert_eq!(fza(0b101, O0), Some((0b111, 1)));
    assert_eq!(fza(0b10011, O1), Some((0b1_1111, 2)));
    assert_eq!(fza(0x10f, O2), Some((0x1ff, 4)));
    assert_eq!(fza(0x100ff, O3), Some((0x1_ffff, 8)));
    assert_eq!(fza(0x0001_0000_ffff, O4), Some((0x0001_ffff_ffff, 16)));
    assert_eq!(
        fza(0x0000_0000_ff00_ff0f, O5),
        Some((0xffff_ffff_ff00_ff0f, 32))
    );
    assert_eq!(
        fza(0b1111_0000_1100_0011_1000_1111, O2),
        Some((0b1111_1111_1100_0011_1000_1111, 16))
    );

    // Upper bound
    assert_eq!(
        fza(0x7fff_ffff_ffff_ffff, O0),
        Some((0xffff_ffff_ffff_ffff, 63))
    );
    assert_eq!(fza(0xffff_ffff_ffff_ffff, O0), None);

    assert_eq!(
        fza(0x3fff_ffff_ffff_ffff, O1),
        Some((0xffff_ffff_ffff_ffff, 62))
    );
    assert_eq!(fza(0x7fff_ffff_ffff_ffff, O1), None);

    assert_eq!(
        fza(0x0fff_ffff_ffff_ffff, O2),
        Some((0xffff_ffff_ffff_ffff, 60))
    );
    assert_eq!(fza(0x1fff_ffff_ffff_ffff, O2), None);
    assert_eq!(fza(0x3fff_ffff_ffff_ffff, O2), None);

    assert_eq!(
        fza(0x00ff_ffff_ffff_ffff, O3),
        Some((0xffff_ffff_ffff_ffff, 56))
    );
    assert_eq!(fza(0x0fff_ffff_ffff_ffff, O3), None);
    assert_eq!(fza(0x1fff_ffff_ffff_ffff, O3), None);

    assert_eq!(
        fza(0x0000_ffff_ffff_ffff, O4),
        Some((0xffff_ffff_ffff_ffff, 48))
    );
    assert_eq!(fza(0x0001_ffff_ffff_ffff, O4), None);
    assert_eq!(fza(0x00ff_ffff_ffff_ffff, O4), None);

    assert_eq!(
        fza(0x0000_0000_ffff_ffff, O5),
        Some((0xffff_ffff_ffff_ffff, 32))
    );
    assert_eq!(fza(0x0000_0001_ffff_ffff, O5), None);
    assert_eq!(fza(0x0000_ffff_ffff_ffff, O5), None);

    assert_eq!(fza(0, O6), Some((0xffff_ffff_ffff_ffff, 0)));
    assert_eq!(fza(1, O6), None);
    assert_eq!(fza(0xa000_0000_0000_0000, O6), None);
}

#[test]
fn first_zero_rows() {
    let mut bitfield = Bitfield::default();

    // 9
    assert!(rows_all(&bitfield, 0..8, 0));
    assert_eq!(FrameId(0), bitfield.set_first_zeros(RowId(0), 9).unwrap());
    assert!(rows_all(&bitfield, 0..8, u64::MAX));
    bitfield.toggle(FrameId(0), 9, true).unwrap();
    assert!(rows_all(&bitfield, 0..8, 0));

    assert_eq!(FrameId(0), bitfield.set_first_zeros(RowId(0), 7).unwrap());
    assert!(rows_all(&bitfield, 0..2, u64::MAX));

    assert_eq!(
        FrameId(4 * 64),
        bitfield.set_first_zeros(RowId(0), 8).unwrap()
    );
    assert!(rows_all(&bitfield, 4..8, u64::MAX));

    assert_eq!(
        FrameId(2 * 64),
        bitfield.set_first_zeros(RowId(0), 6).unwrap()
    );
    assert!(bitfield.get_row(RowId(2)) == u64::MAX);
    assert_eq!(
        FrameId(3 * 64),
        bitfield.set_first_zeros(RowId(0), 6).unwrap()
    );
    assert!(bitfield.get_row(RowId(3)) == u64::MAX);

    bitfield.set_first_zeros(RowId(0), 9).expect_err("no mem");
    bitfield.set_first_zeros(RowId(0), 8).expect_err("no mem");
    bitfield.set_first_zeros(RowId(0), 7).expect_err("no mem");
    bitfield.set_first_zeros(RowId(0), 6).expect_err("no mem");
}
