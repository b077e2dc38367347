use mio_websocket::frame::{Frame, FrameReader, OpCode, ParseError, ReadResult};

fn masked(b0: u8, key: [u8; 4], payload: &[u8]) -> Vec<u8> {
    let mut out = vec![b0];
    let len = payload.len();
    if len <= 125 {
        out.push(0x80 | len as u8);
    } else if len <= 65535 {
        out.push(0x80 | 126);
        out.extend_from_slice(&(len as u16).to_be_bytes());
    } else {
        out.push(0x80 | 127);
        out.extend_from_slice(&(len as u64).to_be_bytes());
    }
    out.extend_from_slice(&key);
    for (i, b) in payload.iter().enumerate() {
        out.push(b ^ key[i % 4]);
    }
    out
}

fn frame(fin: bool, opcode: OpCode, payload: &[u8]) -> Frame {
    Frame { fin, opcode, payload: payload.to_vec() }
}

#[test]
fn minimal_masked_text_frame() {
    let bytes = [0x81, 0x85, 0x37, 0xfa, 0x21, 0x3d, 0x7f, 0x9f, 0x4d, 0x51, 0x58];
    let mut r = FrameReader::new();
    let (res, pos) = r.read(&bytes, 0);
    assert_eq!(pos, bytes.len());
    match res {
        ReadResult::Frame(f) => assert_eq!(f, frame(true, OpCode::Text, b"Hello")),
        other => panic!("unexpected {:?}", other),
    }
}

#[test]
fn server_text_frame_bytes() {
    let f = frame(true, OpCode::Text, b"Hello");
    assert_eq!(f.to_bytes(), vec![0x81, 0x05, 0x48, 0x65, 0x6c, 0x6c, 0x6f]);
}

#[test]
fn length_encoding_branches_round_trip() {
    for &len in &[0usize, 1, 125, 126, 65535, 65536] {
        let payload: Vec<u8> = (0..len).map(|i| (i % 251) as u8).collect();
        let f = frame(true, OpCode::Binary, &payload);
        let bytes = f.to_bytes();
        let head = if len <= 125 { 2 } else if len <= 65535 { 4 } else { 10 };
        assert_eq!(bytes.len(), head + len);
        if len == 126 {
            assert_eq!(&bytes[..4], &[0x82, 126, 0x00, 0x7e]);
        }
        if len == 65535 {
            assert_eq!(&bytes[..4], &[0x82, 126, 0xff, 0xff]);
        }
        if len == 65536 {
            assert_eq!(&bytes[..10], &[0x82, 127, 0, 0, 0, 0, 0, 1, 0, 0]);
        }
        let mut r = FrameReader::new_unmasked();
        let (res, pos) = r.read(&bytes, 0);
        assert_eq!(pos, bytes.len());
        match res {
            ReadResult::Frame(g) => {
                assert_eq!(g, f);
                assert_eq!(g.to_bytes(), bytes);
            },
            other => panic!("length {}: unexpected {:?}", len, other),
        }
    }
}

#[test]
fn masked_lengths_round_trip() {
    for &len in &[125usize, 126, 65535, 65536] {
        let payload: Vec<u8> = (0..len).map(|i| (i * 7 % 256) as u8).collect();
        let bytes = masked(0x82, [1, 2, 3, 4], &payload);
        let mut r = FrameReader::new();
        let (frames, err) = r.read_frames(&bytes);
        assert_eq!(err, None);
        assert_eq!(frames, vec![frame(true, OpCode::Binary, &payload)]);
    }
}

#[test]
fn zero_length_frames_in_every_opcode() {
    let ops = [
        (OpCode::Continuation, 0x80u8),
        (OpCode::Text, 0x81),
        (OpCode::Binary, 0x82),
        (OpCode::Close, 0x88),
        (OpCode::Ping, 0x89),
        (OpCode::Pong, 0x8a),
    ];
    for &(op, b0) in &ops {
        let f = frame(true, op, b"");
        assert_eq!(f.to_bytes(), vec![b0, 0]);
        let mut r = FrameReader::new_unmasked();
        let (res, _) = r.read(&[b0, 0], 0);
        assert!(matches!(res, ReadResult::Frame(ref g) if *g == f));
        let mut r = FrameReader::new();
        let (frames, err) = r.read_frames(&masked(b0, [9, 8, 7, 6], b""));
        assert_eq!(err, None);
        assert_eq!(frames, vec![f]);
    }
}

#[test]
fn any_chunking_gives_the_same_frames() {
    let mut stream = Vec::new();
    stream.extend(masked(0x81, [1, 2, 3, 4], b"first"));
    stream.extend(masked(0x89, [5, 6, 7, 8], b"ping"));
    stream.extend(masked(0x82, [0, 0, 0, 0], &vec![42u8; 300]));
    stream.extend(masked(0x01, [9, 9, 9, 9], b"frag"));
    let expected = vec![
        frame(true, OpCode::Text, b"first"),
        frame(true, OpCode::Ping, b"ping"),
        frame(true, OpCode::Binary, &vec![42u8; 300]),
        frame(false, OpCode::Text, b"frag"),
    ];
    for chunk in 1..stream.len() + 1 {
        let mut r = FrameReader::new();
        let mut got = Vec::new();
        for piece in stream.chunks(chunk) {
            let (frames, err) = r.read_frames(piece);
            assert_eq!(err, None);
            got.extend(frames);
        }
        assert_eq!(got, expected, "chunk size {}", chunk);
    }
}

#[test]
fn partial_frame_needs_more() {
    let bytes = masked(0x81, [1, 2, 3, 4], b"Hello");
    let mut r = FrameReader::new();
    let (res, pos) = r.read(&bytes[..3], 0);
    assert!(matches!(res, ReadResult::NeedMore));
    assert_eq!(pos, 3);
    let (res, pos) = r.read(&bytes, 3);
    assert_eq!(pos, bytes.len());
    assert!(matches!(res, ReadResult::Frame(ref f) if f.payload == b"Hello".to_vec()));
}

#[test]
fn bytes_after_a_frame_stay_in_the_input() {
    let mut bytes = masked(0x81, [1, 2, 3, 4], b"ab");
    let first = bytes.len();
    bytes.extend(masked(0x82, [1, 2, 3, 4], b"cd"));
    let mut r = FrameReader::new();
    let (res, pos) = r.read(&bytes, 0);
    assert_eq!(pos, first);
    assert!(matches!(res, ReadResult::Frame(ref f) if f.payload == b"ab".to_vec()));
    let (res, pos) = r.read(&bytes, pos);
    assert_eq!(pos, bytes.len());
    assert!(matches!(res, ReadResult::Frame(ref f) if f.opcode == OpCode::Binary));
}

fn error_of(bytes: &[u8]) -> ParseError {
    let mut r = FrameReader::new();
    match r.read(bytes, 0).0 {
        ReadResult::Error(e) => e,
        other => panic!("unexpected {:?}", other),
    }
}

#[test]
fn parse_errors() {
    assert_eq!(error_of(&[0x83, 0x80]), ParseError::InvalidOpCode);
    assert_eq!(error_of(&[0x8b, 0x80]), ParseError::InvalidOpCode);
    assert_eq!(error_of(&[0xc1, 0x80]), ParseError::ReservedBits);
    assert_eq!(error_of(&[0x81, 0x00]), ParseError::MaskMismatch);
    assert_eq!(error_of(&[0x09, 0x80]), ParseError::FragmentedControl);
    assert_eq!(error_of(&[0x89, 0xfe]), ParseError::OversizedControl);
    assert_eq!(error_of(&[0x82, 0xff, 0x80, 0, 0, 0, 0, 0, 0, 0]), ParseError::LengthOverflow);
    let mut r = FrameReader::new_unmasked();
    assert!(matches!(r.read(&[0x81, 0x80], 0).0, ReadResult::Error(ParseError::MaskMismatch)));
}
