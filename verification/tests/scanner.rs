use revlines::reader::{FetchStep, ReverseLineReader};

fn drain(data: &Vec<u8>, buf_size: usize) -> Vec<Vec<u8>> {
    let mut reader = ReverseLineReader::new(data.len() as u64, buf_size);
    let mut out: Vec<Vec<u8>> = Vec::new();
    loop {
        match reader.read_next_rev_line_from(data) {
            Some(line) => out.push(line.as_ref().to_vec()),
            None => return out,
        }
    }
}

#[test]
fn read_test() {
    for buf_size in 1..=10 {
        let data = b"a\nb\nc\nd\ne\nf".to_vec();
        let mut reader = ReverseLineReader::new(data.len() as u64, buf_size);
        assert_eq!(reader.read_next_rev_line_from(&data).unwrap().as_ref(), b"f");
        assert_eq!(reader.read_next_rev_line_from(&data).unwrap().as_ref(), b"e");
        assert_eq!(reader.read_next_rev_line_from(&data).unwrap().as_ref(), b"d");
        assert_eq!(reader.read_next_rev_line_from(&data).unwrap().as_ref(), b"c");
        assert_eq!(reader.read_next_rev_line_from(&data).unwrap().as_ref(), b"b");
        assert_eq!(reader.read_next_rev_line_from(&data).unwrap().as_ref(), b"a");
        assert!(reader.read_next_rev_line_from(&data).is_none());
    }

    for buf_size in 1..=10 {
        let data = b"aaaaa\nbbbb\nccc\ndd\ne".to_vec();
        let mut reader = ReverseLineReader::new(data.len() as u64, buf_size);
        assert_eq!(reader.read_next_rev_line_from(&data).unwrap().as_ref(), b"e");
        assert_eq!(reader.read_next_rev_line_from(&data).unwrap().as_ref(), b"dd");
        assert_eq!(reader.read_next_rev_line_from(&data).unwrap().as_ref(), b"ccc");
        assert_eq!(reader.read_next_rev_line_from(&data).unwrap().as_ref(), b"bbbb");
        assert_eq!(reader.read_next_rev_line_from(&data).unwrap().as_ref(), b"aaaaa");
        assert!(reader.read_next_rev_line_from(&data).is_none());
    }
}

#[test]
fn file_truncate_test() {
    // After each emitted line, truncate the resource at the consumed-through
    // offset and reopen it from scratch: the remaining lines come out
    // unchanged, so truncation removed only already-emitted bytes.
    for buf_size in 1..=10 {
        let mut data = b"a\nb\nc\nd\ne\nf".to_vec();
        let expected: [&[u8]; 6] = [b"f", b"e", b"d", b"c", b"b", b"a"];
        for want in expected {
            let mut reader = ReverseLineReader::new(data.len() as u64, buf_size);
            let line = reader.read_next_rev_line_from(&data).unwrap();
            assert_eq!(line.as_ref(), want);
            data.truncate(reader.current_cursor() as usize);
        }
        let mut reader = ReverseLineReader::new(data.len() as u64, buf_size);
        assert!(reader.read_next_rev_line_from(&data).is_none());
    }

    for buf_size in 1..=10 {
        let mut data = b"aaaaa\nbbbb\nccc\ndd\ne".to_vec();
        let expected: [&[u8]; 5] = [b"e", b"dd", b"ccc", b"bbbb", b"aaaaa"];
        for want in expected {
            let mut reader = ReverseLineReader::new(data.len() as u64, buf_size);
            let line = reader.read_next_rev_line_from(&data).unwrap();
            assert_eq!(line.as_ref(), want);
            data.truncate(reader.current_cursor() as usize);
        }
        let mut reader = ReverseLineReader::new(data.len() as u64, buf_size);
        assert!(reader.read_next_rev_line_from(&data).is_none());
    }
}

#[test]
fn empty_file_is_end_of_stream() {
    let data: Vec<u8> = Vec::new();
    let mut reader = ReverseLineReader::new(0, 4);
    assert!(reader.read_next_rev_line_from(&data).is_none());
    // And asking again stays at end of stream.
    assert!(reader.read_next_rev_line_from(&data).is_none());
}

#[test]
fn round_trip_every_chunk_size() {
    let data = b"first\nsecond\nthird\nlast".to_vec();
    let expected: Vec<Vec<u8>> = vec![
        b"last".to_vec(),
        b"third".to_vec(),
        b"second".to_vec(),
        b"first".to_vec(),
    ];
    for buf_size in 1..=data.len() {
        assert_eq!(drain(&data, buf_size), expected);
    }
}

#[test]
fn crlf_terminators_are_stripped() {
    let data = b"one\r\ntwo\r\nthree".to_vec();
    for buf_size in 1..=data.len() {
        let lines = drain(&data, buf_size);
        assert_eq!(lines, vec![b"three".to_vec(), b"two".to_vec(), b"one".to_vec()]);
    }
}

#[test]
fn mixed_terminators() {
    let data = b"lf\ncrlf\r\nplain".to_vec();
    for buf_size in 1..=data.len() {
        let lines = drain(&data, buf_size);
        assert_eq!(lines, vec![b"plain".to_vec(), b"crlf".to_vec(), b"lf".to_vec()]);
    }
}

#[test]
fn trailing_terminator_yields_leading_empty_line() {
    // A file that ends in a terminator is read as if it had a final empty
    // line: the byte after the last `\n` is the file's end.
    let data = b"a\nb\n".to_vec();
    for buf_size in 1..=data.len() {
        let lines = drain(&data, buf_size);
        assert_eq!(lines, vec![b"".to_vec(), b"b".to_vec(), b"a".to_vec()]);
    }
}

#[test]
fn empty_lines_between_terminators() {
    let data = b"a\n\nb".to_vec();
    for buf_size in 1..=data.len() {
        let lines = drain(&data, buf_size);
        assert_eq!(lines, vec![b"b".to_vec(), b"".to_vec(), b"a".to_vec()]);
    }
}

#[test]
fn line_length_on_chunk_boundary() {
    // Lines whose length is an exact multiple of the chunk size, and lines
    // straddling a chunk boundary, are emitted whole and unsplit.
    let data = b"abcd\nefgh".to_vec();
    assert_eq!(drain(&data, 4), vec![b"efgh".to_vec(), b"abcd".to_vec()]);
    let data = b"abcdefgh\nij".to_vec();
    for buf_size in [2, 4, 8] {
        assert_eq!(drain(&data, buf_size), vec![b"ij".to_vec(), b"abcdefgh".to_vec()]);
    }
}

#[test]
fn single_line_no_terminator() {
    let data = b"lonely".to_vec();
    for buf_size in 1..=10 {
        assert_eq!(drain(&data, buf_size), vec![b"lonely".to_vec()]);
    }
}

#[test]
fn read_all_rev_lines_drains_everything() {
    let data = b"x\nyy\nzzz".to_vec();
    for buf_size in 1..=9 {
        let lines = revlines::reader::read_all_rev_lines(&data, buf_size);
        let got: Vec<Vec<u8>> = lines.iter().map(|l| l.as_ref().to_vec()).collect();
        assert_eq!(got, vec![b"zzz".to_vec(), b"yy".to_vec(), b"x".to_vec()]);
    }
}

#[test]
fn advance_feed_protocol() {
    // Drive the scanner by hand, the way an I/O caller would: every `Need`
    // names a range just below the cursor, and feeding it resolves lines.
    let data = b"hi\nthere".to_vec();
    let mut reader = ReverseLineReader::new(data.len() as u64, 3);
    let mut lines: Vec<Vec<u8>> = Vec::new();
    loop {
        match reader.advance() {
            FetchStep::Line(l) => lines.push(l.as_ref().to_vec()),
            FetchStep::Need { offset, len } => {
                let start = offset as usize;
                assert!(start + len <= data.len());
                reader.feed(data[start..start + len].to_vec());
            }
            FetchStep::End => break,
        }
    }
    assert_eq!(lines, vec![b"there".to_vec(), b"hi".to_vec()]);
}

#[test]
fn current_cursor_tracks_unemitted_bytes() {
    let data = b"aa\nbb\ncc".to_vec();
    let mut reader = ReverseLineReader::new(data.len() as u64, 4);
    assert_eq!(reader.current_cursor(), 8);
    let l = reader.read_next_rev_line_from(&data).unwrap();
    assert_eq!(l.as_ref(), b"cc");
    // "aa\nbb" remains unemitted: offsets 0..5.
    assert_eq!(reader.current_cursor(), 5);
    let l = reader.read_next_rev_line_from(&data).unwrap();
    assert_eq!(l.as_ref(), b"bb");
    assert_eq!(reader.current_cursor(), 2);
    let l = reader.read_next_rev_line_from(&data).unwrap();
    assert_eq!(l.as_ref(), b"aa");
    assert_eq!(reader.current_cursor(), 0);
}
