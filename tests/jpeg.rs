use jpeg_decoder::jpeg::{Markers, JPEG};
use jpeg_decoder::{jpeg_to_raw_image, DecodeError};

fn sample_container() -> Vec<u8> {
    let mut d: Vec<u8> = vec![0xff, 0xd8];
    d.extend_from_slice(&[0xff, 0xe0, 0x00, 0x04, 0x4a, 0x46]);
    d.extend_from_slice(&[0xff, 0xdb, 0x00, 0x43, 0x00]);
    d.extend((1..=64).map(|x| x as u8));
    d.extend_from_slice(&[0xff, 0xc0, 0x00, 0x0b, 0x08, 0x00, 0x10, 0x00, 0x20, 0x01, 0x01, 0x21, 0x00]);
    d.extend_from_slice(&[0xff, 0xc4, 0x00, 0x15, 0x10, 0x00, 0x02]);
    d.extend_from_slice(&[0u8; 14]);
    d.extend_from_slice(&[0x03, 0x04]);
    d.extend_from_slice(&[0xff, 0xda, 0x00, 0x08, 0x01, 0x01, 0x10, 0x00, 0x3f, 0x00]);
    d.extend_from_slice(&[0xab, 0xcd, 0xff, 0xd9]);
    d
}

#[test]
fn parses_every_segment() {
    let jpeg = JPEG::new(sample_container()).unwrap();
    assert_eq!(jpeg.qtables.len(), 1);
    assert_eq!(jpeg.qtables[0].class_destination, 0);
    assert_eq!(jpeg.qtables[0].coefficients, (1..=64).map(|x| x as u8).collect::<Vec<u8>>());
    assert_eq!(jpeg.sof.precision, 8);
    assert_eq!(jpeg.sof.height, 16);
    assert_eq!(jpeg.sof.width, 32);
    assert_eq!(jpeg.sof.component_count, 1);
    assert_eq!(jpeg.sof.components.len(), 1);
    assert_eq!(jpeg.sof.components[0].id, 1);
    assert_eq!(jpeg.sof.components[0].h_sample, 2);
    assert_eq!(jpeg.sof.components[0].v_sample, 1);
    assert_eq!(jpeg.sof.components[0].quant_table_id, 0);
    assert_eq!(jpeg.htables.len(), 1);
    let dht = &jpeg.htables[0];
    assert_eq!(dht.p, 1);
    assert_eq!(dht.t, 0);
    assert_eq!(dht.code_lengths, {
        let mut c = vec![0u8; 16];
        c[1] = 2;
        c
    });
    assert_eq!(dht.total_symbols, 2);
    assert_eq!(dht.symbols, vec![3, 4]);
    assert_eq!(dht.elements_lengths, vec![2, 2]);
    assert_eq!(jpeg.sos.components.len(), 1);
    assert_eq!(jpeg.sos.components[0].id, 1);
    assert_eq!(jpeg.sos.components[0].dc_table_id, 1);
    assert_eq!(jpeg.sos.components[0].ac_table_id, 0);
    assert_eq!(jpeg.sos.spectral_lower, 0);
    assert_eq!(jpeg.sos.spectral_upper, 63);
    assert_eq!(jpeg.sos.successive_approx, 0);
    assert_eq!(jpeg.raw_data, vec![0xab, 0xcd]);
}

#[test]
fn bitstream_is_most_significant_bit_first() {
    let jpeg = JPEG::new(sample_container()).unwrap();
    let bits: Vec<u8> = jpeg.bitstream().into_iter().collect();
    assert_eq!(bits, vec![1, 0, 1, 0, 1, 0, 1, 1, 1, 1, 0, 0, 1, 1, 0, 1]);
}

#[test]
fn payload_runs_to_end_of_input_without_end_marker() {
    let mut d = sample_container();
    d.truncate(d.len() - 2);
    let jpeg = JPEG::new(d).unwrap();
    assert_eq!(jpeg.raw_data, vec![0xab, 0xcd]);
}

#[test]
fn unknown_marker_is_rejected() {
    let d = vec![0xff, 0xd8, 0xff, 0xf1, 0x00, 0x02];
    assert_eq!(JPEG::new(d).unwrap_err(), DecodeError::UnknownMarker);
    assert_eq!(Markers::from_u16(0xfff1), Err(DecodeError::UnknownMarker));
    assert_eq!(Markers::from_u16(0xffc4), Ok(Markers::DefineHuffmanTable));
}

#[test]
fn truncated_segment_is_rejected() {
    let d = vec![0xff, 0xd8, 0xff, 0xdb, 0x00, 0x43, 0x00, 0x01];
    assert_eq!(JPEG::new(d).unwrap_err(), DecodeError::TruncatedSegment);
    let short_body = vec![0xff, 0xdb, 0x00, 0x04, 0x00, 0x01];
    assert_eq!(JPEG::new(short_body).unwrap_err(), DecodeError::TruncatedSegment);
    let no_length = vec![0xff, 0xc0, 0x00];
    assert_eq!(JPEG::new(no_length).unwrap_err(), DecodeError::TruncatedSegment);
}

#[test]
fn short_buffer_ends_cleanly() {
    let jpeg = JPEG::new(vec![0xff]).unwrap();
    assert!(jpeg.qtables.is_empty());
    assert!(jpeg.htables.is_empty());
    assert!(jpeg.raw_data.is_empty());
    let jpeg = JPEG::new(vec![0xff, 0xd8, 0xff]).unwrap();
    assert!(jpeg.raw_data.is_empty());
    let jpeg = JPEG::new(vec![]).unwrap();
    assert_eq!(jpeg.sof.components.len(), 0);
    assert_eq!(jpeg_to_raw_image(jpeg), Vec::<u8>::new());
}

#[test]
fn end_of_image_stops_the_scan() {
    let d = vec![0xff, 0xd8, 0xff, 0xd9, 0xff, 0xf1];
    let jpeg = JPEG::new(d).unwrap();
    assert!(jpeg.qtables.is_empty());
}

#[test]
fn marker_descriptions() {
    assert_eq!(Markers::StartOfImage.description(), "Start of Image");
    assert_eq!(Markers::DefineHuffmanTable.description(), "Define Huffman Table");
    assert_eq!(Markers::EndOfImage.description(), "End of Image");
}
