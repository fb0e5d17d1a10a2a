use c2rust_bitfields::FieldType;
use r3malloc::apf::Xyz;
use r3malloc::heap::Anchor;

/// The anchor as a struct of bit fields lays it out: state in bits 0 to 1,
/// the index in bits 2 to 32, the count in bits 33 to 63.
fn anchor_bytes(state: u32, avail: u32, count: u32) -> [u8; 8] {
    let mut bytes = [0u8; 8];
    state.set_field(&mut bytes, (0, 1));
    avail.set_field(&mut bytes, (2, 32));
    count.set_field(&mut bytes, (33, 63));
    bytes
}

/// The memo entry as a struct of bit fields lays it out.
fn xyz_bytes(init: bool, x: u32, y: u32, z: u32) -> [u8; 8] {
    let mut bytes = [0u8; 8];
    init.set_field(&mut bytes, (0, 0));
    x.set_field(&mut bytes, (1, 21));
    y.set_field(&mut bytes, (22, 42));
    z.set_field(&mut bytes, (43, 63));
    bytes
}

const SAMPLES: [u32; 8] = [0, 1, 2, 3, 0x55_5555, 0x1F_FFFF, 0x7FFF_FFFF, 0xFFFF_FFFF];

#[test]
fn the_anchor_word_is_laid_out_as_bit_fields() {
    for state in SAMPLES {
        for avail in SAMPLES {
            for count in SAMPLES {
                let mut anchor = Anchor::new();
                anchor.set_count(count);
                anchor.set_state(state);
                anchor.set_avail(avail);
                let bytes = anchor_bytes(state, avail, count);
                assert_eq!(anchor.to_bits().to_le_bytes(), bytes);
                assert_eq!(anchor.state(), <u32 as FieldType>::get_field(&bytes, (0, 1)));
                assert_eq!(anchor.avail(), <u32 as FieldType>::get_field(&bytes, (2, 32)));
                assert_eq!(anchor.count(), <u32 as FieldType>::get_field(&bytes, (33, 63)));
                assert_eq!(Anchor::from_bits(u64::from_le_bytes(bytes)), anchor);
            }
        }
    }
}

#[test]
fn the_memo_word_is_laid_out_as_bit_fields() {
    for init in [false, true] {
        for x in SAMPLES {
            for y in SAMPLES {
                for z in SAMPLES {
                    let mut e = Xyz::new();
                    e.set_z(z);
                    e.set_x(x);
                    e.set_init(init);
                    e.set_y(y);
                    let bytes = xyz_bytes(init, x, y, z);
                    assert_eq!(e.to_bits().to_le_bytes(), bytes);
                    assert_eq!(e.init(), <bool as FieldType>::get_field(&bytes, (0, 0)));
                    assert_eq!(e.x(), <u32 as FieldType>::get_field(&bytes, (1, 21)));
                    assert_eq!(e.y(), <u32 as FieldType>::get_field(&bytes, (22, 42)));
                    assert_eq!(e.z(), <u32 as FieldType>::get_field(&bytes, (43, 63)));
                }
            }
        }
    }
}
