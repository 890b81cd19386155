use fast_server::framing::{
    chunk_end, chunk_size_line, payload, response_headers, terminal_chunk, RESPONSE_HEADERS,
};
use fast_server::hex::encode_hex;

#[test]
fn hex_of_zero_is_a_single_digit() {
    assert_eq!(encode_hex(0), b"0".to_vec());
}

#[test]
fn hex_of_single_digits() {
    assert_eq!(encode_hex(1), b"1".to_vec());
    assert_eq!(encode_hex(9), b"9".to_vec());
    assert_eq!(encode_hex(10), b"a".to_vec());
    assert_eq!(encode_hex(15), b"f".to_vec());
}

#[test]
fn hex_has_no_leading_zero() {
    assert_eq!(encode_hex(16), b"10".to_vec());
    assert_eq!(encode_hex(255), b"ff".to_vec());
    assert_eq!(encode_hex(256), b"100".to_vec());
    assert_eq!(encode_hex(4096), b"1000".to_vec());
}

#[test]
fn hex_is_lower_case() {
    assert_eq!(encode_hex(0xabcdef), b"abcdef".to_vec());
    assert_eq!(encode_hex(0xDEADBEEF), b"deadbeef".to_vec());
}

#[test]
fn hex_of_one_mebibyte() {
    assert_eq!(encode_hex(1024 * 1024), b"100000".to_vec());
}

#[test]
fn hex_of_the_largest_size() {
    let digits: Vec<u8> = encode_hex(usize::MAX);
    assert_eq!(digits, format!("{:x}", usize::MAX).into_bytes());
    assert!(digits.iter().all(|b| *b == b'f'));
}

#[test]
fn hex_agrees_with_the_standard_formatter() {
    let samples: Vec<usize> = vec![0, 1, 7, 15, 16, 17, 31, 32, 99, 100, 1000, 65535, 65536, 123456789];
    for n in samples {
        assert_eq!(encode_hex(n), format!("{:x}", n).into_bytes());
    }
}

#[test]
fn hex_reads_back_as_the_same_number() {
    let samples: Vec<usize> = vec![0, 1, 15, 16, 255, 4095, 4096, 1048576, usize::MAX];
    for n in samples {
        let text: String = String::from_utf8(encode_hex(n)).unwrap();
        assert_eq!(usize::from_str_radix(&text, 16).unwrap(), n);
    }
}

#[test]
fn header_block_is_the_fixed_text() {
    let expected: &str = "HTTP/1.1 200 OK\r\nConnection: keep-alive\r\nContent-Type: application/octet-stream\r\nTransfer-Encoding: chunked\r\n\r\n";
    assert_eq!(response_headers(), expected.as_bytes().to_vec());
    assert_eq!(RESPONSE_HEADERS, expected);
}

#[test]
fn header_block_ends_with_a_blank_line() {
    let bytes: Vec<u8> = response_headers();
    assert!(bytes.ends_with(b"\r\n\r\n"));
    assert!(bytes.starts_with(b"HTTP/1.1 200 OK\r\n"));
}

#[test]
fn size_line_of_one_mebibyte() {
    assert_eq!(chunk_size_line(1024 * 1024), b"100000\r\n".to_vec());
}

#[test]
fn size_line_of_small_sizes() {
    assert_eq!(chunk_size_line(1), b"1\r\n".to_vec());
    assert_eq!(chunk_size_line(26), b"1a\r\n".to_vec());
    assert_eq!(chunk_size_line(0), b"0\r\n".to_vec());
}

#[test]
fn chunk_end_is_crlf() {
    assert_eq!(chunk_end(), b"\r\n".to_vec());
}

#[test]
fn terminal_chunk_is_zero_and_a_blank_line() {
    assert_eq!(terminal_chunk(), b"0\r\n\r\n".to_vec());
}

#[test]
fn terminal_chunk_is_the_frame_of_nothing() {
    let mut frame: Vec<u8> = chunk_size_line(0);
    frame.extend(payload(0));
    frame.extend(chunk_end());
    assert_eq!(frame, terminal_chunk());
}

#[test]
fn payload_has_exactly_the_size_asked_for() {
    assert_eq!(payload(0).len(), 0);
    assert_eq!(payload(1).len(), 1);
    assert_eq!(payload(4096).len(), 4096);
    assert_eq!(payload(1024 * 1024).len(), 1048576);
}

#[test]
fn payload_is_all_zero() {
    assert_eq!(payload(5), vec![0u8, 0, 0, 0, 0]);
    assert!(payload(70000).iter().all(|b| *b == 0));
}

#[test]
fn declared_size_matches_the_payload() {
    let sizes: Vec<usize> = vec![1, 2, 9, 10, 15, 16, 255, 256, 1000, 65536];
    for size in sizes {
        let line: Vec<u8> = chunk_size_line(size);
        let digits: &[u8] = &line[..line.len() - 2];
        let text: &str = std::str::from_utf8(digits).unwrap();
        let declared: usize = usize::from_str_radix(text, 16).unwrap();
        assert_eq!(declared, payload(size).len());
        assert_eq!(&line[line.len() - 2..], b"\r\n");
    }
}
