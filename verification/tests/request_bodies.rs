use registry_proxy::body::{plain_body, read_body};

fn packed(bytes: &[u8]) -> Vec<u8> {
    let mut encoder = flate2::write::GzEncoder::new(Vec::new(), flate2::Compression::default());
    std::io::Write::write_all(&mut encoder, bytes).unwrap();
    encoder.finish().unwrap()
}

#[test]
fn unpacks_a_gzip_body() {
    let body = packed(b"{\"requires\":{}}");
    assert_ne!(body, b"{\"requires\":{}}".to_vec());
    assert_eq!(
        read_body(Some(b"gzip"), body),
        b"{\"requires\":{}}".to_vec()
    );
}

#[test]
fn leaves_a_body_that_cannot_be_unpacked() {
    assert_eq!(read_body(Some(b"gzip"), b"{}".to_vec()), b"{}".to_vec());
    let mut cut = packed(b"some text that is long enough");
    cut.truncate(15);
    assert_eq!(read_body(Some(b"gzip"), cut.clone()), cut);
}

#[test]
fn leaves_a_body_of_another_encoding() {
    let body = packed(b"{}");
    assert_eq!(read_body(None, body.clone()), body);
    assert_eq!(read_body(Some(b"br"), body.clone()), body);
    assert_eq!(read_body(Some(b"GZIP"), body.clone()), body);
    assert_eq!(read_body(Some(b"gzip, gzip"), body.clone()), body);
}

#[test]
fn takes_what_was_unpacked() {
    assert_eq!(plain_body(vec![1], Some(vec![2, 3])), vec![2, 3]);
    assert_eq!(plain_body(vec![1], Some(vec![])), Vec::<u8>::new());
    assert_eq!(plain_body(vec![1], None), vec![1]);
}
