use std::io::Read;

use mp_http_server::compression::{compress, Encoding};

#[test]
fn accept_encoding_parsing() {
    assert_eq!(Encoding::parse_accept_encoding("gzip"), Some(Encoding::Gzip));
    assert_eq!(Encoding::parse_accept_encoding(" br ,\tGzIp\n"), Some(Encoding::Gzip));
    assert_eq!(Encoding::parse_accept_encoding("deflate, br"), None);
    assert_eq!(Encoding::parse_accept_encoding("gzip;q=1.0"), None);
    assert_eq!(Encoding::parse_accept_encoding(""), None);
    assert_eq!(Encoding::parse_accept_encoding(Encoding::Gzip.as_str()), Some(Encoding::Gzip));
}

#[test]
fn compress_produces_gzip() {
    let data = b"abcabcabcabcabcabc";
    let out = compress(data, Encoding::Gzip);
    assert_ne!(out, data.to_vec());
    let mut back = Vec::new();
    flate2::read::GzDecoder::new(&out[..]).read_to_end(&mut back).unwrap();
    assert_eq!(back, data);
}

#[test]
fn gzip_output_is_framed() {
    let data = vec![7u8; 300];
    let out = compress(&data, Encoding::Gzip);
    assert!(out.len() >= 18);
    assert_eq!(&out[..10], &[0x1f, 0x8b, 8, 0, 0, 0, 0, 0, 0, 255]);
    assert_eq!(&out[out.len() - 4..], &[44, 1, 0, 0]);
    let empty = compress(&[], Encoding::Gzip);
    assert_eq!(&empty[..10], &[0x1f, 0x8b, 8, 0, 0, 0, 0, 0, 0, 255]);
    assert_eq!(&empty[empty.len() - 4..], &[0, 0, 0, 0]);
}
