use scroll::{Pread, Pwrite, LE};
use utz::common::{
    CellTag, Codec, Dataset, GeomEncoding, QuantBits, SimplifyAlgorithm, NO_ZONE, PAYLOAD_HEADER_LEN,
};
use utz::error::Error;
use utz::format::{check_tables, outer, parse, read_fixed, read_u16, read_u32, read_varint, unzigzag};
use utz::header::{HeaderFault, PayloadHeader};

/// A minimal consistent varint-arcs header: one feature with an empty tzid, no
/// arcs, no polys, a 1x1 grid whose cell is `NO_ZONE`, and a 20-byte section
/// blob.
fn tiny_header() -> PayloadHeader {
    PayloadHeader {
        arcs_off: 8,
        rings_off: 12,
        grid_off: 16,
        release_off: 20,
        eager_coords: 0,
        eager_rings: 0,
        eager_polys: 0,
        n_arcs: 0,
        raw_len: 20,
        grid_deg: 360.0f32.to_bits(),
        epsilon_m: 500.0f32.to_bits(),
        n_features: 1,
        ncols: 1,
        nrows: 1,
        uniq: 0,
        release_len: 0,
        flags: 0,
        dataset: Dataset::Now,
        quant_bits: QuantBits::Bits24,
        simplify_algorithm: SimplifyAlgorithm::Rdp,
        geom: GeomEncoding::VarintArcs,
        codec: Codec::Uncompressed,
        density_weight_floor_e4: 10,
        reserved: 0,
    }
}

/// The matching 20-byte section blob.
fn tiny_payload() -> [u8; 20] {
    let mut payload = [0u8; 20];
    payload[16..18].copy_from_slice(&NO_ZONE.to_le_bytes());
    payload
}

#[test]
fn valid_synthetic_header_parses() {
    let layout = parse(&tiny_header().write()).expect("valid header");
    assert_eq!(layout.density_weight_floor_e4, 10);
    check_tables(&tiny_payload(), &layout).expect("valid tables");
}

#[test]
fn header_field_rejections() {
    for (name, header) in [
        ("density weight floor over 1.0", {
            let mut header = tiny_header();
            header.density_weight_floor_e4 = 10_001;
            header
        }),
        ("reserved nonzero", {
            let mut header = tiny_header();
            header.reserved = 1;
            header
        }),
        ("zero grid columns", {
            let mut header = tiny_header();
            header.ncols = 0;
            header
        }),
        ("non-positive grid_deg", {
            let mut header = tiny_header();
            header.grid_deg = 0.0f32.to_bits();
            header
        }),
    ] {
        assert!(
            matches!(parse(&header.write()), Err(Error::InvalidHeaderField)),
            "{name}"
        );
    }
}

#[test]
fn table_cross_reference_rejections() {
    let layout = parse(&tiny_header().write()).expect("valid header");
    // interior cell naming a feature that doesn't exist
    let mut payload = tiny_payload();
    payload[16..18].copy_from_slice(&5u16.to_le_bytes());
    assert_eq!(check_tables(&payload, &layout), Err(Error::TableOutOfRange));
    // border cell naming a candidate list that doesn't exist
    let mut payload = tiny_payload();
    payload[16..18].copy_from_slice(&0x8000u16.to_le_bytes());
    assert_eq!(check_tables(&payload, &layout), Err(Error::TableOutOfRange));
    // zone-string offset running past the pool
    let mut payload = tiny_payload();
    payload[2..4].copy_from_slice(&u16::MAX.to_le_bytes());
    assert_eq!(check_tables(&payload, &layout), Err(Error::TableOutOfRange));
}

fn sample_header() -> PayloadHeader {
    PayloadHeader {
        arcs_off: 1,
        rings_off: 2,
        grid_off: 3,
        release_off: 4,
        eager_coords: 5,
        eager_rings: 6,
        eager_polys: 7,
        n_arcs: 8,
        raw_len: 14,
        grid_deg: 0.5f32.to_bits(),
        epsilon_m: 50.0f32.to_bits(),
        n_features: 9,
        ncols: 10,
        nrows: 11,
        uniq: 12,
        release_len: 13,
        flags: 0,
        dataset: Dataset::Now,
        quant_bits: QuantBits::Bits24,
        simplify_algorithm: SimplifyAlgorithm::Rdp,
        geom: GeomEncoding::FixedWidthArcs,
        codec: Codec::Brotli,
        density_weight_floor_e4: 200,
        reserved: 0,
    }
}

#[test]
fn payload_header_round_trips_at_declared_length() {
    let header = sample_header();
    let bytes = header.write();
    assert_eq!(bytes.len(), PAYLOAD_HEADER_LEN);
    let read = PayloadHeader::read(&bytes).expect("round-trip read of a full buffer");
    assert_eq!(read, header);
}

#[test]
fn invalid_header_byte_fails_the_read() {
    let header = PayloadHeader {
        arcs_off: 0,
        rings_off: 0,
        grid_off: 0,
        release_off: 0,
        eager_coords: 0,
        eager_rings: 0,
        eager_polys: 0,
        n_arcs: 0,
        raw_len: 0,
        grid_deg: 1.0f32.to_bits(),
        epsilon_m: 0.0f32.to_bits(),
        n_features: 0,
        ncols: 0,
        nrows: 0,
        uniq: 0,
        release_len: 0,
        flags: 0,
        dataset: Dataset::Now,
        quant_bits: QuantBits::Bits16,
        simplify_algorithm: SimplifyAlgorithm::Unsimplified,
        geom: GeomEncoding::VarintArcs,
        codec: Codec::Uncompressed,
        density_weight_floor_e4: 0,
        reserved: 0,
    };
    let mut bytes = header.write();
    bytes[57] = 17; // quant_bits: no such width
    assert!(PayloadHeader::read(&bytes).is_err());
    bytes[57] = 16;
    bytes[56] = 3; // dataset: zone-set code 3 is unassigned
    assert!(PayloadHeader::read(&bytes).is_err());
    bytes[56] = 0;
    bytes[60] = 9; // codec: no such codec
    assert!(PayloadHeader::read(&bytes).is_err());
}

/// The record's fields stand where scroll's little-endian reads of the
/// declared types find them.
#[test]
fn header_bytes_are_plain_little_endian_fields() {
    let bytes = sample_header().write();
    let mut at = 0usize;
    for expected in [1u32, 2, 3, 4, 5, 6, 7, 8, 14] {
        let value: u32 = bytes.gread_with(&mut at, LE).expect("in range");
        assert_eq!(value, expected);
    }
    let grid_deg: f32 = bytes.gread_with(&mut at, LE).expect("in range");
    let epsilon_m: f32 = bytes.gread_with(&mut at, LE).expect("in range");
    assert_eq!((grid_deg, epsilon_m), (0.5, 50.0));
    for expected in [9u16, 10, 11, 12, 13, 0] {
        let value: u16 = bytes.gread_with(&mut at, LE).expect("in range");
        assert_eq!(value, expected);
    }
    assert_eq!(&bytes[at..at + 5], &[0, 24, 1, 1, 3]);
    at += 5;
    let floor: u16 = bytes.pread_with(at, LE).expect("in range");
    assert_eq!(floor, 200);
    assert_eq!(bytes[63], 0);
    let mut rewritten = [0u8; 4];
    rewritten.pwrite_with(14u32, 0, LE).expect("fits");
    assert_eq!(&bytes[32..36], &rewritten);
}

#[test]
fn short_records_are_short_unless_a_byte_is_bad() {
    let bytes = sample_header().write();
    assert_eq!(PayloadHeader::read(&bytes[..63]), Err(HeaderFault::Short));
    let mut bad = bytes.clone();
    bad[59] = 200;
    assert_eq!(PayloadHeader::read(&bad[..60]), Err(HeaderFault::BadByte));
    assert_eq!(PayloadHeader::read(&bad[..59]), Err(HeaderFault::Short));
}

#[test]
fn prologue_rejections() {
    assert_eq!(outer(b"uTZ"), Err(Error::Truncated));
    assert_eq!(outer(b"nope\x0b\0\0\0"), Err(Error::BadMagic));
    assert_eq!(outer(b"uTZ1\x07\0\0\0"), Err(Error::UnsupportedVersion(7)));
    assert_eq!(outer(b"uTZ1\x0b\0\0\0"), Ok(8));
}

#[test]
fn scalars_read_little_endian() {
    let bytes = [0x01, 0x02, 0x03, 0xFF, 0xAC, 0x02];
    assert_eq!(read_u16(&bytes, 0), 0x0201);
    assert_eq!(read_u32(&bytes, 0), 0xFF03_0201);
    assert_eq!(read_fixed(&bytes, 2, QuantBits::Bits16), -253);
    assert_eq!(read_fixed(&bytes, 1, QuantBits::Bits24), -64766);
    assert_eq!(read_varint(&bytes, 4), (300, 6));
    assert_eq!((unzigzag(0), unzigzag(1), unzigzag(2), unzigzag(3)), (0, -1, 1, -2));
}

#[test]
fn cells_read_as_zone_border_or_nothing() {
    assert_eq!(CellTag::from_cell(NO_ZONE), CellTag::Empty);
    assert_eq!(CellTag::from_cell(12), CellTag::Zone(12));
    assert_eq!(CellTag::from_cell(0x8003), CellTag::Border(3));
}
