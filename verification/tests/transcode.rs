use tap2tzx::tap2tzx;
use tap2tzx::read_le_u16;
use tap2tzx::write_tzx_block;
use tap2tzx::write_tzx_header;
use tap2tzx::ConversionError;

const FILE_HEADER: [u8; 10] = [b'Z', b'X', b'T', b'a', b'p', b'e', b'!', 0x1A, 1, 20];

#[test]
fn single_block() {
    let tap = [
        0x13, 0x00, 0x00, 0x00, 0x4D, 0x61, 0x6E, 0x69, 0x63, 0x4D, 0x69, 0x6E, 0x65, 0x72, 0x45,
        0x00, 0x0A, 0x00, 0x45, 0x00, 0x1F,
    ];
    let mut out = Vec::with_capacity(10 + 3 + tap.len()); // file header + block header + data
    let block_count = tap2tzx(&tap, &mut out).unwrap();

    assert_eq!(1, block_count, "We expect to have created a single block");

    // We expect to have the TZX file header, plus a single TZX block with header and data
    let file_header = [b'Z', b'X', b'T', b'a', b'p', b'e', b'!', 0x1A, 1, 20];
    let block_header = [0x10, 0xE8, 0x03]; // Standard speed data block with a pause of 1000ms
    let expected: Vec<u8> = file_header
        .iter()
        .chain(block_header.iter())
        .chain(tap.iter())
        .map(|v| *v)
        .collect();

    assert_eq!(expected, out, "unexpected tzx byte stream");
}

#[test]
fn empty_input_writes_header_only() {
    let tap: [u8; 0] = [];
    let mut out: Vec<u8> = Vec::new();
    let block_count = tap2tzx(&tap, &mut out).unwrap();
    assert_eq!(0, block_count);
    assert_eq!(FILE_HEADER.to_vec(), out);
}

#[test]
fn single_empty_block_counted_but_not_emitted() {
    let tap = [0x00, 0x00];
    let mut out: Vec<u8> = Vec::new();
    let block_count = tap2tzx(&tap, &mut out).unwrap();
    assert_eq!(1, block_count);
    assert_eq!(FILE_HEADER.to_vec(), out, "an empty block must emit no output block");
}

#[test]
fn empty_blocks_all_counted() {
    let tap = [0x00, 0x00, 0x00, 0x00, 0x00, 0x00];
    let mut out: Vec<u8> = Vec::new();
    let block_count = tap2tzx(&tap, &mut out).unwrap();
    assert_eq!(3, block_count);
    assert_eq!(FILE_HEADER.to_vec(), out);
}

#[test]
fn two_blocks_in_order() {
    let tap = [0x02, 0x00, 0xAB, 0xCD, 0x01, 0x00, 0xEE];
    let mut out: Vec<u8> = Vec::new();
    let block_count = tap2tzx(&tap, &mut out).unwrap();
    assert_eq!(2, block_count);
    let mut expected = FILE_HEADER.to_vec();
    expected.extend_from_slice(&[0x10, 0xE8, 0x03, 0x02, 0x00, 0xAB, 0xCD]);
    expected.extend_from_slice(&[0x10, 0xE8, 0x03, 0x01, 0x00, 0xEE]);
    assert_eq!(expected, out);
}

#[test]
fn mixed_empty_and_data_blocks() {
    // An empty block between two data blocks: counted, no bytes emitted.
    let tap = [0x01, 0x00, 0x7F, 0x00, 0x00, 0x01, 0x00, 0x80];
    let mut out: Vec<u8> = Vec::new();
    let block_count = tap2tzx(&tap, &mut out).unwrap();
    assert_eq!(3, block_count);
    let mut expected = FILE_HEADER.to_vec();
    expected.extend_from_slice(&[0x10, 0xE8, 0x03, 0x01, 0x00, 0x7F]);
    expected.extend_from_slice(&[0x10, 0xE8, 0x03, 0x01, 0x00, 0x80]);
    assert_eq!(expected, out);
}

#[test]
fn output_length_formula() {
    // 10 header bytes + (3 + 2 + L) per non-empty source block.
    let tap = [0x02, 0x00, 0xAB, 0xCD, 0x00, 0x00, 0x03, 0x00, 0x01, 0x02, 0x03];
    let mut out: Vec<u8> = Vec::new();
    let block_count = tap2tzx(&tap, &mut out).unwrap();
    assert_eq!(3, block_count);
    assert_eq!(10 + (3 + 2 + 2) + (3 + 2 + 3), out.len());
}

#[test]
fn largest_block_converts() {
    // A single block with the largest expressible payload length, 0xFFFF.
    let mut tap = vec![0xFF, 0xFF];
    for i in 0..0xFFFFusize {
        tap.push((i % 251) as u8);
    }
    let mut out: Vec<u8> = Vec::new();
    let block_count = tap2tzx(&tap, &mut out).unwrap();
    assert_eq!(1, block_count);
    assert_eq!(10 + 3 + 2 + 0xFFFF, out.len());
    assert_eq!(&FILE_HEADER, &out[..10]);
    assert_eq!(&[0x10, 0xE8, 0x03, 0xFF, 0xFF], &out[10..15]);
    assert_eq!(&tap[2..], &out[15..]);
}

#[test]
fn converting_twice_is_byte_identical() {
    let tap = [0x02, 0x00, 0xAB, 0xCD, 0x00, 0x00, 0x01, 0x00, 0x42];
    let mut first: Vec<u8> = Vec::new();
    let mut second: Vec<u8> = Vec::new();
    let count_first = tap2tzx(&tap, &mut first).unwrap();
    let count_second = tap2tzx(&tap, &mut second).unwrap();
    assert_eq!(count_first, count_second);
    assert_eq!(first, second);
}

#[test]
fn truncated_payload_fails() {
    // The length prefix claims 5 payload bytes; only 1 remains.
    let tap = [0x05, 0x00, 0xAA];
    let mut out: Vec<u8> = Vec::new();
    let r = tap2tzx(&tap, &mut out);
    assert_eq!(Err(ConversionError::MalformedInput { offset: 0 }), r);
}

#[test]
fn truncated_payload_after_good_block_fails() {
    let tap = [0x01, 0x00, 0xAA, 0x05, 0x00, 0xBB];
    let mut out: Vec<u8> = Vec::new();
    let r = tap2tzx(&tap, &mut out);
    assert_eq!(Err(ConversionError::MalformedInput { offset: 3 }), r);
    // Everything up to the failure was already written.
    let mut expected = FILE_HEADER.to_vec();
    expected.extend_from_slice(&[0x10, 0xE8, 0x03, 0x01, 0x00, 0xAA]);
    assert_eq!(expected, out);
}

#[test]
fn trailing_single_byte_fails() {
    // A single byte where a 2-byte length prefix is expected.
    let tap = [0xAA];
    let mut out: Vec<u8> = Vec::new();
    let r = tap2tzx(&tap, &mut out);
    assert_eq!(Err(ConversionError::MalformedInput { offset: 0 }), r);
    assert_eq!(FILE_HEADER.to_vec(), out);
}

#[test]
fn trailing_byte_after_good_block_fails() {
    let tap = [0x01, 0x00, 0xAA, 0x00];
    let mut out: Vec<u8> = Vec::new();
    let r = tap2tzx(&tap, &mut out);
    assert_eq!(Err(ConversionError::MalformedInput { offset: 3 }), r);
}

#[test]
fn read_le_u16_reads_little_endian() {
    let bytes = [0x34, 0x12, 0xE8, 0x03];
    assert_eq!(Ok(0x1234), read_le_u16(&bytes, 0));
    assert_eq!(Ok(0xE812), read_le_u16(&bytes, 1));
    assert_eq!(Ok(0x03E8), read_le_u16(&bytes, 2));
}

#[test]
fn read_le_u16_fails_when_short() {
    let bytes = [0x34, 0x12, 0xE8];
    assert_eq!(Err(ConversionError::MalformedInput { offset: 2 }), read_le_u16(&bytes, 2));
    assert_eq!(Err(ConversionError::MalformedInput { offset: 7 }), read_le_u16(&bytes, 7));
}

#[test]
fn header_appends_magic_and_version() {
    let mut out: Vec<u8> = vec![0x99];
    write_tzx_header(&mut out);
    let mut expected = vec![0x99];
    expected.extend_from_slice(&FILE_HEADER);
    assert_eq!(expected, out);
}

#[test]
fn block_appends_header_length_and_payload() {
    let mem = [0x02, 0x00, 0xAB, 0xCD];
    let mut out: Vec<u8> = vec![0x99];
    write_tzx_block(&mem, 2, 2, &mut out);
    assert_eq!(vec![0x99, 0x10, 0xE8, 0x03, 0x02, 0x00, 0xAB, 0xCD], out);
}
