use near_git_storage::pktline::{encode, flush, read_until_flush};

#[test]
fn test_encode() {
    let line = encode(b"hello\n");
    assert_eq!(line, b"000ahello\n");
}

#[test]
fn test_flush() {
    assert_eq!(flush(), b"0000");
}

#[test]
fn test_read_until_flush() {
    let mut data = Vec::new();
    data.extend_from_slice(&encode(b"line1\n"));
    data.extend_from_slice(&encode(b"line2\n"));
    data.extend_from_slice(&flush());
    data.extend_from_slice(b"remaining");

    let (lines, rest) = read_until_flush(&data);
    assert_eq!(lines.len(), 2);
    assert_eq!(lines[0], b"line1\n");
    assert_eq!(lines[1], b"line2\n");
    assert_eq!(rest, b"remaining");
}

#[test]
fn lengths_are_hexadecimal() {
    assert_eq!(encode(b""), b"0004");
    assert_eq!(&encode(&[b'x'; 252])[..4], b"0100");
    assert_eq!(&encode(&[b'x'; 65531])[..4], b"ffff");
    assert_eq!(&encode(&[b'x'; 65532])[..5], b"10000");
}

#[test]
fn what_is_framed_reads_back() {
    let lines: [&[u8]; 4] = [b"", b"a", &[0; 65531], b"last"];
    let mut data = Vec::new();
    for line in lines {
        data.extend_from_slice(&encode(line));
    }
    data.extend_from_slice(&flush());
    data.extend_from_slice(b"0005x");
    let (read, rest) = read_until_flush(&data);
    assert_eq!(read, lines);
    assert_eq!(rest, b"0005x");
}

#[test]
fn reading_stops_at_what_is_no_line() {
    assert_eq!(read_until_flush(b"00").1, b"00");
    assert_eq!(read_until_flush(b"0003abc").1, b"0003abc");
    assert_eq!(read_until_flush(b"0009abc").1, b"0009abc");
    assert_eq!(read_until_flush(b"zzzzabc").1, b"abc");
    let (lines, rest) = read_until_flush(b"000Aupper!0006hi\xff\xff\xff\xffrest");
    assert_eq!(lines, [b"upper!".to_vec(), b"hi".to_vec()]);
    assert_eq!(rest, b"rest");
    assert_eq!(read_until_flush(b"+006hi").1, b"hi");
}
