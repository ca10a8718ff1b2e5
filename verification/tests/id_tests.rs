use hexencer::clip::ClipId;
use hexencer::common::DataId;
use hexencer::event::EventId;
use hexencer::track::TrackId;

fn is_version_4(v: u128) -> bool {
    let bytes = DataId(v).as_bytes();
    bytes[6] >> 4 == 4 && bytes[8] >> 6 == 0b10
}

#[test]
fn new_ids_are_random_version_4() {
    let a = DataId::new();
    let b = DataId::new();
    assert!(is_version_4(a.0));
    assert!(is_version_4(b.0));
    assert_ne!(a, b);
    assert!(is_version_4(TrackId::new().0 .0));
    assert!(is_version_4(ClipId::new().0 .0));
    assert!(is_version_4(EventId::new().0 .0));
}

#[test]
fn id_bytes_are_big_endian() {
    let id = DataId(0x0011_2233_4455_6677_8899_aabb_ccdd_eeff);
    assert_eq!(
        id.as_bytes(),
        [
            0x00, 0x11, 0x22, 0x33, 0x44, 0x55, 0x66, 0x77, 0x88, 0x99, 0xaa, 0xbb, 0xcc, 0xdd,
            0xee, 0xff
        ]
    );
    assert_eq!(DataId(1).as_bytes()[15], 1);
}

#[test]
fn id_text_is_hyphenated_lowercase_hex() {
    let id = DataId(0x0011_2233_4455_6677_8899_aabb_ccdd_eeff);
    assert_eq!(id.to_string(), "00112233-4455-6677-8899-aabbccddeeff");
    assert_eq!(DataId::default().to_string(), "00000000-0000-0000-0000-000000000000");
    assert_eq!(TrackId(DataId(u128::MAX)).to_string(), "ffffffff-ffff-ffff-ffff-ffffffffffff");
    assert_eq!(TrackId::default(), TrackId(DataId(0)));
}
