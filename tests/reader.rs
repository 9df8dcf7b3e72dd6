use textscan::reader::{
    ByteSource, BytesSource, FillError, ReadError, Utf8CharReader, Utf8ChunkReader,
};

/// Replies to each fill with the next scripted answer: some bytes, an
/// interruption or a failure; then reports the end.
struct Scripted {
    replies: Vec<Result<Vec<u8>, FillError<&'static str>>>,
    next: usize,
}

impl Scripted {
    fn new(replies: Vec<Result<Vec<u8>, FillError<&'static str>>>) -> Self {
        Scripted { replies, next: 0 }
    }
}

impl ByteSource for Scripted {
    type Error = &'static str;

    fn fill(&mut self, buf: &mut [u8]) -> Result<usize, FillError<&'static str>> {
        assert!(!buf.is_empty());
        if self.next == self.replies.len() {
            return Ok(0);
        }
        let reply = std::mem::replace(&mut self.replies[self.next], Ok(Vec::new()));
        self.next += 1;
        match reply {
            Ok(bytes) => {
                assert!(bytes.len() <= buf.len());
                buf[..bytes.len()].copy_from_slice(&bytes);
                Ok(bytes.len())
            }
            Err(err) => Err(err),
        }
    }
}

fn chunks_of(data: &[u8], cap: usize) -> Result<Vec<String>, ReadError<()>> {
    let mut r = Utf8ChunkReader::new(vec![0u8; cap], BytesSource::new(data.to_vec()));
    let mut out = Vec::new();
    while r.read_chunk()? {
        out.push(r.chunk().to_string());
    }
    Ok(out)
}

#[test]
fn small_buffer_keeps_split_code_point_whole() {
    let text = "héllo\n";
    assert_eq!(text.len(), 7);
    let chunks = chunks_of(text.as_bytes(), 3).unwrap();
    assert_eq!(chunks, vec!["hé", "llo", "\n"]);
    assert_eq!(chunks.concat(), text);
}

#[test]
fn code_point_split_across_fills_is_carried_over() {
    let chunks = chunks_of("hé".as_bytes(), 2).unwrap();
    assert_eq!(chunks, vec!["h", "é"]);
}

#[test]
fn chunks_reproduce_input_for_many_capacities() {
    let text = "añ€😀 mixed\nlines 😀😀 and ascii €€ ok";
    for cap in 4..40 {
        let chunks = chunks_of(text.as_bytes(), cap).unwrap();
        assert_eq!(chunks.concat(), text, "capacity {}", cap);
        for c in &chunks {
            assert!(!c.is_empty());
            assert!(c.len() <= cap);
        }
    }
}

#[test]
fn invalid_first_byte_is_reported() {
    let mut r = Utf8ChunkReader::new(vec![0u8; 8], BytesSource::new(vec![0xFF, b'a']));
    assert_eq!(r.read_chunk(), Err(ReadError::InvalidData));
    assert_eq!(r.chunk(), "");
}

#[test]
fn truncated_code_point_at_end_is_invalid() {
    let mut r = Utf8ChunkReader::new(vec![0u8; 8], BytesSource::new(vec![b'a', 0xC3]));
    assert_eq!(r.read_chunk(), Ok(true));
    assert_eq!(r.chunk(), "a");
    assert_eq!(r.read_chunk(), Err(ReadError::InvalidData));
}

#[test]
fn invalid_byte_after_valid_prefix() {
    let mut r = Utf8ChunkReader::new(vec![0u8; 8], BytesSource::new(vec![b'o', b'k', 0xFF, b'z']));
    assert_eq!(r.read_chunk(), Ok(true));
    assert_eq!(r.chunk(), "ok");
    assert_eq!(r.read_chunk(), Err(ReadError::InvalidData));
}

#[test]
fn four_byte_code_point_needs_four_bytes() {
    assert_eq!(chunks_of("😀".as_bytes(), 4).unwrap(), vec!["😀"]);
    assert_eq!(chunks_of("😀".as_bytes(), 3), Err(ReadError::InvalidData));
}

#[test]
fn empty_input_has_no_data() {
    let mut r = Utf8ChunkReader::new(vec![0u8; 8], BytesSource::new(Vec::new()));
    assert_eq!(r.read_chunk(), Ok(false));
    assert_eq!(r.chunk(), "");
    assert_eq!(r.read_chunk(), Ok(false));
}

#[test]
fn chunk_is_empty_before_first_read() {
    let r = Utf8ChunkReader::new(vec![0u8; 8], BytesSource::new(b"abc".to_vec()));
    assert_eq!(r.chunk(), "");
}

#[test]
fn char_reader_yields_every_code_point() {
    let text = "héllo 😀 wörld\n";
    for cap in 4..12 {
        let mut r = Utf8CharReader::new(vec![0u8; cap], BytesSource::new(text.as_bytes().to_vec()));
        let mut got = String::new();
        while let Some(c) = r.read_char().unwrap() {
            got.push(c);
        }
        assert_eq!(got, text);
        assert_eq!(r.read_char(), Ok(None));
    }
}

#[test]
fn char_reader_reports_invalid_data() {
    let mut r = Utf8CharReader::new(vec![0u8; 4], BytesSource::new(vec![b'a', 0x80]));
    assert_eq!(r.read_char(), Ok(Some('a')));
    assert_eq!(r.read_char(), Err(ReadError::InvalidData));
}

#[test]
fn char_reader_on_empty_input() {
    let mut r = Utf8CharReader::new(vec![0u8; 4], BytesSource::new(Vec::new()));
    assert_eq!(r.read_char(), Ok(None));
}

#[test]
fn splits_across_fills_are_joined() {
    let source = Scripted::new(vec![Ok(vec![b'h', 0xC3]), Ok(vec![0xA9]), Ok(vec![b'!'])]);
    let mut r = Utf8ChunkReader::new(vec![0u8; 4], source);
    assert_eq!(r.read_chunk(), Ok(true));
    assert_eq!(r.chunk(), "hé!");
    assert_eq!(r.read_chunk(), Ok(false));
    assert_eq!(r.chunk(), "");
}

#[test]
fn source_error_is_passed_on_unchanged() {
    let source = Scripted::new(vec![Ok(vec![b'a']), Err(FillError::Other("disk gone"))]);
    let mut r = Utf8ChunkReader::new(vec![0u8; 8], source);
    assert_eq!(r.read_chunk(), Err(ReadError::Source("disk gone")));
    assert_eq!(r.chunk(), "");
    assert_eq!(r.read_chunk(), Ok(true));
    assert_eq!(r.chunk(), "a");
}

#[test]
fn fill_stops_at_end_of_source() {
    let source = Scripted::new(vec![Ok(vec![b'x'])]);
    let mut r = Utf8ChunkReader::new(vec![0u8; 8], source);
    assert_eq!(r.read_chunk(), Ok(true));
    assert_eq!(r.chunk(), "x");
}

#[test]
fn zero_capacity_reads_nothing() {
    let source = Scripted::new(vec![Err(FillError::Other("never asked"))]);
    let mut r = Utf8ChunkReader::new(Vec::new(), source);
    assert_eq!(r.read_chunk(), Ok(false));
    assert_eq!(r.chunk(), "");
}

#[test]
fn char_reader_passes_on_source_error() {
    let source = Scripted::new(vec![Ok(vec![b'a']), Err(FillError::Other("gone"))]);
    let mut r = Utf8CharReader::new(vec![0u8; 1], source);
    assert_eq!(r.read_char(), Ok(Some('a')));
    assert_eq!(r.read_char(), Err(ReadError::Source("gone")));
}

#[test]
fn into_parts_gives_back_buffer() {
    let mut r = Utf8ChunkReader::new(vec![0u8; 5], BytesSource::new(b"abc".to_vec()));
    assert_eq!(r.read_chunk(), Ok(true));
    let (buf, _source) = r.into_parts();
    assert_eq!(buf.len(), 5);
    assert_eq!(&buf[..3], b"abc");
}
