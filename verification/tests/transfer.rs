//! Tests for the paged transfer path: request framing, response
//! confirmation, and stream reassembly against a synthetic device image.

use looking_glass::assemble::StreamAssembler;
use looking_glass::errors::Error;
use looking_glass::protocol::{confirm_write, page_request, ResponseBuffer};
use looking_glass::record::decode_document;

/// The device memory image for a document: a big-endian length header,
/// the document bytes, and arbitrary padding out to a page boundary.
fn eeprom_for(doc: &[u8]) -> Vec<u8> {
    let mut mem = (doc.len() as u32).to_be_bytes().to_vec();
    mem.extend_from_slice(doc);
    while mem.len() % 64 != 0 {
        mem.push(0xAA);
    }
    mem
}

/// One page transaction against the image, with the response delivered
/// in chunks of the given size.
fn transact(mem: &[u8], addr: u16, chunk: usize) -> Vec<u8> {
    let frame = page_request(addr);
    assert_eq!(frame.len(), 68);
    assert_eq!(frame[0], 0);
    assert_eq!(frame[1], 0);
    assert_eq!(frame[2], (addr >> 8) as u8);
    assert_eq!(frame[3], (addr & 0xFF) as u8);
    assert!(frame[4..].iter().all(|b| *b == 0));
    let start = 64 * addr as usize;
    let mut resp = vec![0u8, 0u8, (addr >> 8) as u8, (addr & 0xFF) as u8];
    resp.extend_from_slice(&mem[start..start + 64]);
    let mut rb = ResponseBuffer::new();
    for c in resp.chunks(chunk) {
        rb.add_chunk(c);
    }
    rb.into_payload(addr).unwrap()
}

/// Runs the whole assembly loop against the image.
fn assemble(doc: &[u8], chunk: usize) -> Vec<u8> {
    let mem = eeprom_for(doc);
    let mut sa = StreamAssembler::start(transact(&mem, 0, chunk)).unwrap();
    while sa.needs_more() {
        let addr = sa.next_addr();
        let payload = transact(&mem, addr, chunk);
        sa.feed(&payload);
    }
    sa.finish()
}

#[test]
fn round_trip_across_chunk_splits() {
    for &len in &[0usize, 1, 63, 64, 65, 1000] {
        let doc: Vec<u8> = (0..len).map(|i| (i % 251) as u8).collect();
        for &chunk in &[1usize, 7, 50, 64, 68, 130] {
            assert_eq!(assemble(&doc, chunk), doc, "length {} chunk {}", len, chunk);
        }
    }
}

#[test]
fn confirmation_mismatch_is_rejected() {
    let mut rb = ResponseBuffer::new();
    rb.add_chunk(&[0, 0, 9, 9, 1, 2, 3]);
    match rb.into_payload(0x0102) {
        Err(Error::ConfirmationMismatch) => {}
        _ => assert!(false),
    }
}

#[test]
fn short_response_is_rejected() {
    let mut rb = ResponseBuffer::new();
    rb.add_chunk(&[0, 0, 0, 5]);
    assert!(matches!(
        rb.into_payload(5),
        Err(Error::ConfirmationMismatch)
    ));
}

#[test]
fn echo_only_counts_for_its_own_address() {
    let mut rb = ResponseBuffer::new();
    rb.add_chunk(&[0, 0, 0, 5, 42]);
    assert_eq!(rb.into_payload(5).unwrap(), vec![42]);
}

#[test]
fn write_count_is_checked() {
    assert!(confirm_write(68).is_ok());
    match confirm_write(60) {
        Err(Error::WriteMismatch { expected, written }) => {
            assert_eq!(expected, 68);
            assert_eq!(written, 60);
        }
        _ => assert!(false),
    }
}

#[test]
fn short_page_zero_payload_is_rejected() {
    match StreamAssembler::start(vec![0, 0, 3]) {
        Err(Error::ConfirmationMismatch) => {}
        _ => assert!(false),
    }
}

#[test]
fn declared_length_is_big_endian() {
    let mut payload = vec![0u8, 0, 1, 4];
    payload.extend_from_slice(&[9u8; 60]);
    let sa = StreamAssembler::start(payload).unwrap();
    assert!(sa.needs_more());
    assert_eq!(sa.next_addr(), 1);
}

#[test]
fn end_to_end_document_read() {
    let mut doc = String::new();
    doc.push_str(r#"{"configVersion":"1.0","serial":"00297","pitch":{"value":49.81804275512695},"#);
    doc.push_str(r#""slope":{"value":5.044347763061523},"center":{"value":0.176902174949646},"#);
    doc.push_str(r#""viewCone":{"value":40.0},"invView":{"value":1.0},"verticalAngle":{"value":0.0},"#);
    doc.push_str(r#""DPI":{"value":338.0},"screenW":{"value":2560.0},"screenH":{"value":1600.0},"#);
    doc.push_str(r#""flipImageX":{"value":0.0},"flipImageY":{"value":0.0},"flipSubp":{"value":0.0}}"#);
    let bytes = assemble(doc.as_bytes(), 64);
    let glass = decode_document(bytes).unwrap();
    assert_eq!(glass.serial, "00297");
    assert_eq!(glass.pitch.parse::<f32>().unwrap(), 49.81804275512695);
    assert_eq!(glass.slope.parse::<f32>().unwrap(), 5.044347763061523);
    assert_eq!(glass.center.parse::<f32>().unwrap(), 0.176902174949646);
    assert_eq!(glass.dpi.parse::<f32>().unwrap(), 338.0);
    assert_eq!(glass.screen_w, 2560);
    assert_eq!(glass.screen_h, 1600);
}

#[test]
fn invalid_utf8_is_an_encoding_error() {
    let doc = vec![0xFFu8, 0xFE, 0x41];
    let bytes = assemble(&doc, 50);
    assert!(matches!(decode_document(bytes), Err(Error::Encoding)));
}
