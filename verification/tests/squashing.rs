use blob_wrangler::error::ErrorKind;
use blob_wrangler::squash::{plan_segments, squash_file, Origin, Placement, Segment};

const MDT_HASH: u32 = 0x0220_0000;
const LOADED: u32 = 0x8000_0005;

fn elf32(headers: &[(u32, u32, u32)]) -> Vec<u8> {
    let mut image = vec![0x7f, b'E', b'L', b'F', 1, 1, 1, 0, 0, 0, 0, 0, 0, 0, 0, 0];
    let half = |image: &mut Vec<u8>, n: u16| image.extend_from_slice(&n.to_le_bytes());
    let word = |image: &mut Vec<u8>, n: u32| image.extend_from_slice(&n.to_le_bytes());
    half(&mut image, 2);
    half(&mut image, 164);
    word(&mut image, 1);
    word(&mut image, 0);
    word(&mut image, 52);
    word(&mut image, 0);
    word(&mut image, 0);
    half(&mut image, 52);
    half(&mut image, 32);
    half(&mut image, headers.len() as u16);
    half(&mut image, 0);
    half(&mut image, 0);
    half(&mut image, 0);
    for (size, flags, offset) in headers {
        word(&mut image, 1);
        word(&mut image, *offset);
        word(&mut image, 0);
        word(&mut image, 0);
        word(&mut image, *size);
        word(&mut image, *size);
        word(&mut image, *flags);
        word(&mut image, 4);
    }
    image
}

fn blob(path: &str, size: u64, offset: u64) -> Segment {
    Segment { origin: Origin::Blob { path: path.to_string() }, size, offset }
}

#[test]
fn mdt_image_is_laid_out() {
    let image = elf32(&[
        (0xd4, 0x0700_0000, 0),
        (0x1000, MDT_HASH, 0x1000),
        (0, LOADED, 0x2000),
        (0x20, LOADED, 0x3000),
    ]);
    let segments = squash_file("/fw/adsp.mdt", &image).unwrap();
    assert_eq!(
        segments,
        [
            blob("/fw/adsp.b00", 0xd4, 0),
            Segment { origin: Origin::Metadata { at: 0xd4 }, size: 0x1000, offset: 0x1000 },
            blob("/fw/adsp.b03", 0x20, 0x3000),
        ]
    );
}

#[test]
fn image_without_headers_has_no_segments() {
    assert_eq!(squash_file("/fw/x.mdt", &elf32(&[])).unwrap(), []);
}

#[test]
fn other_files_are_invalid() {
    let bytes = vec![1u8; 64];
    let error = squash_file("/fw/x.mdt", &bytes).unwrap_err();
    assert_eq!(error.kind, ErrorKind::InvalidData);
    let expected = goblin::elf::Elf::parse(&bytes).unwrap_err().to_string();
    assert_eq!(error.message(), expected);
    assert!(squash_file("/fw/x.mdt", &[]).is_err());
}

#[test]
fn blob_files_are_numbered_by_header() {
    let headers: Vec<(u64, u32, u64)> = (0..120u64).map(|n| (1, LOADED, n)).collect();
    let segments = plan_segments("a.b/modem.mdt", &headers);
    assert_eq!(segments.len(), 120);
    assert_eq!(segments[7], blob("a.b/modem.b07", 1, 7));
    assert_eq!(segments[42], blob("a.b/modem.b42", 1, 42));
    assert_eq!(segments[100], blob("a.b/modem.b100", 1, 100));
    for i in 0..120 {
        for j in 0..i {
            assert_ne!(segments[i].origin, segments[j].origin);
        }
    }
}

#[test]
fn empty_first_header_still_gives_the_offset() {
    let headers = vec![(0, LOADED, 0), (8, MDT_HASH, 16)];
    assert_eq!(
        plan_segments("x.mdt", &headers),
        [Segment { origin: Origin::Metadata { at: 0 }, size: 8, offset: 16 }]
    );
}

#[test]
fn segments_must_have_their_size() {
    let segment = blob("x.b00", 3, 16);
    assert_eq!(
        segment.place(vec![1, 2, 3]).unwrap(),
        Placement { offset: 16, contents: vec![1, 2, 3] }
    );
    for contents in [vec![], vec![1, 2], vec![0; 40]] {
        let read = contents.len();
        let error = segment.place(contents).unwrap_err();
        assert_eq!(error.kind, ErrorKind::UnexpectedEof);
        assert_eq!(error.message(), format!("Read {read} bytes (!= 3)"));
    }
}

#[test]
fn squashed_contents_stand_at_their_offsets() {
    let image = elf32(&[(4, LOADED, 2), (0, LOADED, 0), (3, LOADED, 9)]);
    let segments = squash_file("/fw/a.mdt", &image).unwrap();
    let mut file: Vec<u8> = Vec::new();
    for segment in &segments {
        let placement = segment.place(vec![7; segment.size as usize]).unwrap();
        let start = placement.offset as usize;
        let end = start + placement.contents.len();
        if file.len() < end {
            file.resize(end, 0);
        }
        file[start..end].copy_from_slice(&placement.contents);
    }
    assert_eq!(file, [0, 0, 7, 7, 7, 7, 0, 0, 0, 7, 7, 7]);
}
