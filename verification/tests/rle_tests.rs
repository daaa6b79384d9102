use dicom_codec::rle_lossless::{
    decode_frames, decode_rle_segment, AttributeName, PackBitsReader, PixelDataObject,
    RLELosslessAdapter, RleError, SegmentError,
};

#[test]
fn test_packbits() {
    let encoded = vec![
        0xFE, 0xAA, 0x02, 0x80, 0x00, 0x2A, 0xFD, 0xAA, 0x03, 0x80, 0x00, 0x2A, 0x22, 0xF7,
        0xAA,
    ];
    let encoded_len = encoded.len();

    let (_, mut decoder) = PackBitsReader::new(&encoded, encoded_len).unwrap();

    let mut decoded = Vec::new();
    decoder.read_to_end(&mut decoded);

    let expected = vec![
        0xAA, 0xAA, 0xAA, 0x80, 0x00, 0x2A, 0xAA, 0xAA, 0xAA, 0xAA, 0x80, 0x00, 0x2A, 0x22,
        0xAA, 0xAA, 0xAA, 0xAA, 0xAA, 0xAA, 0xAA, 0xAA, 0xAA, 0xAA,
    ];
    assert_eq!(decoded, expected);
}

#[test]
fn test_packbits_truncated_run() {
    // a replicate run without its data byte ends the input early
    assert!(matches!(
        PackBitsReader::new(&[0xFE], 1),
        Err(SegmentError::UnexpectedEndOfInput)
    ));
    // a literal run shorter than announced does too
    assert!(matches!(
        PackBitsReader::new(&[0x02, 0x01, 0x02], 3),
        Err(SegmentError::UnexpectedEndOfInput)
    ));
}

#[test]
fn test_decode_segment_runs() {
    // literal, replicate and no-op control bytes, ending exactly full
    let src = [0x80, 0x01, 0x10, 0x20, 0xFE, 0xAA];
    let mut target = vec![0u8; 5];
    assert_eq!(decode_rle_segment(&src, &mut target).unwrap(), 5);
    assert_eq!(target, vec![0x10, 0x20, 0xAA, 0xAA, 0xAA]);
}

#[test]
fn test_decode_segment_stops_when_full() {
    // decoding ends once the plane is full; later input bytes stay unread
    let src = [0x00, 0x11, 0xFF];
    let mut target = vec![0u8; 1];
    assert_eq!(decode_rle_segment(&src, &mut target).unwrap(), 1);
    assert_eq!(target, vec![0x11]);
}

#[test]
fn test_decode_segment_errors() {
    // underflow: input exhausted before the plane is full
    let mut target = vec![0u8; 2];
    assert!(matches!(
        decode_rle_segment(&[], &mut target),
        Err(SegmentError::SegmentUnderflow)
    ));
    let mut target = vec![0u8; 4];
    assert!(matches!(
        decode_rle_segment(&[0x01, 0x10, 0x20], &mut target),
        Err(SegmentError::SegmentUnderflow)
    ));
    // overflow: a run would write past the end of the plane
    let mut target = vec![0u8; 2];
    assert!(matches!(
        decode_rle_segment(&[0xFE, 0xAA], &mut target),
        Err(SegmentError::SegmentOverflow)
    ));
    let mut target = vec![0u8; 2];
    assert!(matches!(
        decode_rle_segment(&[0x03, 0x01, 0x02, 0x03, 0x04], &mut target),
        Err(SegmentError::SegmentOverflow)
    ));
    // truncated input: a run announced more bytes than remain
    let mut target = vec![0u8; 3];
    assert!(matches!(
        decode_rle_segment(&[0x02, 0x01, 0x02], &mut target),
        Err(SegmentError::UnexpectedEndOfInput)
    ));
    let mut target = vec![0u8; 3];
    assert!(matches!(
        decode_rle_segment(&[0xFE], &mut target),
        Err(SegmentError::UnexpectedEndOfInput)
    ));
}

#[test]
fn test_decode_segment_round_trip() {
    // decoding a canonical literal-block encoding gives the bytes back
    let plain: Vec<u8> = (0..300u32).map(|v| (v % 251) as u8).collect();
    let mut encoded = Vec::new();
    encoded.push(127);
    encoded.extend_from_slice(&plain[0..128]);
    encoded.push(127);
    encoded.extend_from_slice(&plain[128..256]);
    encoded.push(43);
    encoded.extend_from_slice(&plain[256..300]);
    let mut target = vec![0u8; 300];
    assert_eq!(decode_rle_segment(&encoded, &mut target).unwrap(), 300);
    assert_eq!(target, plain);
}

fn header(offsets: &[u32]) -> Vec<u8> {
    let mut frag = Vec::new();
    frag.extend_from_slice(&(offsets.len() as u32).to_le_bytes());
    for off in offsets {
        frag.extend_from_slice(&off.to_le_bytes());
    }
    frag.resize(64, 0);
    frag
}

#[test]
fn test_decode_frames_single_plane() {
    // two 2x2 frames of one 8-bit sample, each a single replicate run
    let mut frag_a = header(&[64]);
    frag_a.extend_from_slice(&[0xFD, 0xAA]);
    let mut frag_b = header(&[64]);
    frag_b.extend_from_slice(&[0xFD, 0xBB]);
    let fragments = vec![frag_a, frag_b];
    let mut dst = Vec::new();
    decode_frames(2, 2, 1, 8, &fragments, &mut dst).unwrap();
    // exactly frame size x number of frames bytes are written
    assert_eq!(dst.len(), 2 * 2 * 1 * 1 * 2);
    assert_eq!(dst, vec![0xAA, 0xAA, 0xAA, 0xAA, 0xBB, 0xBB, 0xBB, 0xBB]);
}

#[test]
fn test_decode_frames_16bit_little_endian() {
    // one 2x1 frame of one 16-bit sample: the MSB segment comes first,
    // the output interleaves each sample little-endian
    let mut frag = header(&[64, 67]);
    frag.extend_from_slice(&[0x01, 0x01, 0x03]); // MSB plane: 01 03
    frag.extend_from_slice(&[0x01, 0x02, 0x04]); // LSB plane: 02 04
    let fragments = vec![frag];
    let mut dst = Vec::new();
    decode_frames(2, 1, 1, 16, &fragments, &mut dst).unwrap();
    // pixels 0x0102 and 0x0304, little-endian
    assert_eq!(dst, vec![0x02, 0x01, 0x04, 0x03]);
}

#[test]
fn test_decode_frames_rgb_interleave() {
    // one 2x1 frame of three 8-bit samples: planes come back per pixel
    let mut frag = header(&[64, 67, 70]);
    frag.extend_from_slice(&[0x01, 1, 4]); // red plane
    frag.extend_from_slice(&[0x01, 2, 5]); // green plane
    frag.extend_from_slice(&[0x01, 3, 6]); // blue plane
    let fragments = vec![frag];
    let mut dst = Vec::new();
    decode_frames(2, 1, 3, 8, &fragments, &mut dst).unwrap();
    assert_eq!(dst, vec![1, 2, 3, 4, 5, 6]);
}

#[test]
fn test_decode_frames_header_errors() {
    let mut dst = Vec::new();
    // fragment shorter than the 64-byte header
    let fragments = vec![vec![0u8; 10]];
    assert!(matches!(
        decode_frames(2, 2, 1, 8, &fragments, &mut dst),
        Err(RleError::InvalidFragmentHeader)
    ));
    // segment count zero
    let fragments = vec![vec![0u8; 64]];
    assert!(matches!(
        decode_frames(2, 2, 1, 8, &fragments, &mut dst),
        Err(RleError::InvalidFragmentHeader)
    ));
    // segment count above fifteen
    let mut frag = vec![0u8; 64];
    frag[0] = 16;
    let fragments = vec![frag];
    assert!(matches!(
        decode_frames(2, 2, 1, 8, &fragments, &mut dst),
        Err(RleError::InvalidFragmentHeader)
    ));
    // fewer segments than the planes need
    let mut frag = header(&[64]);
    frag.extend_from_slice(&[0xFD, 0xAA]);
    let fragments = vec![frag];
    assert!(matches!(
        decode_frames(2, 2, 3, 8, &fragments, &mut dst),
        Err(RleError::InvalidFragmentHeader)
    ));
    // offsets pointing past the fragment end
    let frag = header(&[200]);
    let fragments = vec![frag];
    assert!(matches!(
        decode_frames(2, 2, 1, 8, &fragments, &mut dst),
        Err(RleError::InvalidFragmentHeader)
    ));
}

#[test]
fn test_decode_frames_bit_depth_and_segment_errors() {
    let mut dst = Vec::new();
    let fragments: Vec<Vec<u8>> = Vec::new();
    assert!(matches!(
        decode_frames(2, 2, 1, 12, &fragments, &mut dst),
        Err(RleError::UnsupportedBitDepth { bits_allocated: 12 })
    ));
    // a truncated segment surfaces as a wrapped segment failure
    let mut frag = header(&[64]);
    frag.extend_from_slice(&[0x01, 0xAA]); // literal of 2 announced, 1 given
    let fragments = vec![frag];
    assert!(matches!(
        decode_frames(2, 2, 1, 8, &fragments, &mut dst),
        Err(RleError::SegmentDecodeFailure { kind: SegmentError::UnexpectedEndOfInput })
    ));
    // an empty segment before the plane is full underflows
    let frag = header(&[64]);
    let fragments = vec![frag];
    assert!(matches!(
        decode_frames(2, 2, 1, 8, &fragments, &mut dst),
        Err(RleError::SegmentDecodeFailure { kind: SegmentError::SegmentUnderflow })
    ));
}

struct MockObject {
    cols: Option<u16>,
    rows: Option<u16>,
    samples_per_pixel: Option<u16>,
    bits_allocated: Option<u16>,
    fragments: Option<Vec<Vec<u8>>>,
}

impl PixelDataObject for MockObject {
    fn cols(&self) -> Option<u16> {
        self.cols
    }

    fn rows(&self) -> Option<u16> {
        self.rows
    }

    fn samples_per_pixel(&self) -> Option<u16> {
        self.samples_per_pixel
    }

    fn bits_allocated(&self) -> Option<u16> {
        self.bits_allocated
    }

    fn number_of_fragments(&self) -> Option<u32> {
        self.fragments.as_ref().map(|f| f.len() as u32)
    }

    fn fragment(&self, i: usize) -> Option<Vec<u8>> {
        self.fragments.as_ref().and_then(|f| f.get(i).cloned())
    }
}

fn full_mock() -> MockObject {
    let mut frag = header(&[64]);
    frag.extend_from_slice(&[0xFD, 0x55]);
    MockObject {
        cols: Some(2),
        rows: Some(2),
        samples_per_pixel: Some(1),
        bits_allocated: Some(8),
        fragments: Some(vec![frag]),
    }
}

#[test]
fn test_adapter_decode() {
    let adapter = RLELosslessAdapter;
    let mut dst = Vec::new();
    adapter.decode(&full_mock(), &mut dst).unwrap();
    assert_eq!(dst, vec![0x55, 0x55, 0x55, 0x55]);
}

#[test]
fn test_adapter_missing_attributes() {
    let adapter = RLELosslessAdapter;
    let mut dst = Vec::new();

    let mut src = full_mock();
    src.cols = None;
    assert!(matches!(
        adapter.decode(&src, &mut dst),
        Err(RleError::MissingAttribute { name: AttributeName::Columns })
    ));

    let mut src = full_mock();
    src.rows = None;
    assert!(matches!(
        adapter.decode(&src, &mut dst),
        Err(RleError::MissingAttribute { name: AttributeName::Rows })
    ));

    let mut src = full_mock();
    src.samples_per_pixel = None;
    assert!(matches!(
        adapter.decode(&src, &mut dst),
        Err(RleError::MissingAttribute { name: AttributeName::SamplesPerPixel })
    ));

    let mut src = full_mock();
    src.bits_allocated = None;
    assert!(matches!(
        adapter.decode(&src, &mut dst),
        Err(RleError::MissingAttribute { name: AttributeName::BitsAllocated })
    ));

    let mut src = full_mock();
    src.bits_allocated = Some(32);
    assert!(matches!(
        adapter.decode(&src, &mut dst),
        Err(RleError::UnsupportedBitDepth { bits_allocated: 32 })
    ));

    let mut src = full_mock();
    src.fragments = None;
    assert!(matches!(
        adapter.decode(&src, &mut dst),
        Err(RleError::MissingPixelData)
    ));
}
