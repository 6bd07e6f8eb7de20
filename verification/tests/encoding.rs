use zeroclaw::encoding::decode_base64;
use zeroclaw::media_pipeline::{inline_image, ImagePayload};

fn encoded(data: &[u8]) -> String {
    let payload = ImagePayload {
        mime: "m".to_string(),
        data: data.to_vec(),
    };
    let text = inline_image("n", &payload);
    let start = text.find(";base64,").unwrap() + ";base64,".len();
    text[start..text.len() - 1].to_string()
}

#[test]
fn base64_of_known_bytes() {
    assert_eq!(encoded(b""), "");
    assert_eq!(encoded(b"f"), "Zg==");
    assert_eq!(encoded(b"fo"), "Zm8=");
    assert_eq!(encoded(b"foo"), "Zm9v");
    assert_eq!(encoded(b"foob"), "Zm9vYg==");
    assert_eq!(encoded(b"fooba"), "Zm9vYmE=");
    assert_eq!(encoded(b"foobar"), "Zm9vYmFy");
    assert_eq!(encoded(&[0xfb, 0xff, 0xbf]), "+/+/");
}

#[test]
fn base64_reads_back_what_it_wrote() {
    let bytes: Vec<u8> = (0..=255u8).collect();
    for n in 0..bytes.len() {
        assert_eq!(decode_base64(&encoded(&bytes[..n])).unwrap(), &bytes[..n]);
    }
}

#[test]
fn only_canonical_base64_is_read() {
    assert_eq!(decode_base64("Zg==").unwrap(), b"f");
    for text in ["Zg", "Zg=", "Zh==", "Zm9=", "Z", "Zg==\n", " Zg==", "Zg==Zg==", "Zm9_", "===="] {
        assert!(decode_base64(text).is_none(), "{text:?}");
    }
}
