use ankimarkable::data_uri::{
    base64_decode, base64_encode, bytes_of, decode_data_uri, is_image_file, is_image_name,
    media_source, pct_encode, png_data_uri, MediaSource,
};

#[test]
fn base64_known_values() {
    assert_eq!(base64_encode(b""), "");
    assert_eq!(base64_encode(b"f"), "Zg==");
    assert_eq!(base64_encode(b"fo"), "Zm8=");
    assert_eq!(base64_encode(b"foo"), "Zm9v");
    assert_eq!(base64_encode(&[255, 239, 190, 0]), "/+++AA==");
    assert_eq!(base64_decode("Zm9v"), Some(b"foo".to_vec()));
    assert_eq!(base64_decode("Zm 8=\r\n"), Some(b"fo".to_vec()));
    assert_eq!(base64_decode("Zm8\t\u{c}"), Some(b"fo".to_vec()));
    assert_eq!(base64_decode("Zm9vZ"), Some(b"foo".to_vec()));
    assert_eq!(base64_decode("Zm9*"), None);
    assert_eq!(base64_decode("Zmé="), None);
}

#[test]
fn base64_round_trip() {
    let mut d: Vec<u8> = Vec::new();
    for i in 0..600usize {
        assert_eq!(base64_decode(&base64_encode(&d)), Some(d.clone()));
        d.push((i * 37 % 256) as u8);
    }
}

#[test]
fn data_uris() {
    assert_eq!(png_data_uri(b"foo"), "data:image/png;base64,Zm9v");
    assert_eq!(decode_data_uri("data:image/png;base64,Zm9v"), Some(b"foo".to_vec()));
    assert_eq!(decode_data_uri("data:text/plain,a,é"), Some("a,é".as_bytes().to_vec()));
    assert_eq!(decode_data_uri("data:;base64,?"), None);
    assert_eq!(decode_data_uri("data:nothing"), None);
    let png: Vec<u8> = (0..=255).collect();
    assert_eq!(decode_data_uri(&png_data_uri(&png)), Some(png));
    assert_eq!(bytes_of("aß€😀"), "aß€😀".as_bytes().to_vec());
}

#[test]
fn percent_encoding() {
    assert_eq!(pct_encode("a-Z_0.9~/x"), "a-Z_0.9~/x");
    assert_eq!(pct_encode("my pic (1).jpg"), "my%20pic%20%281%29.jpg");
    assert_eq!(pct_encode("é%"), "%C3%A9%25");
}

#[test]
fn media_sources() {
    assert_eq!(media_source("file"), MediaSource::File);
    assert_eq!(media_source("data"), MediaSource::Data);
    assert_eq!(media_source("https"), MediaSource::Unavailable);
}

#[test]
fn image_files() {
    assert!(is_image_file("Photo.JPG"));
    assert!(is_image_file("a.jpeg"));
    assert!(is_image_file(".png"));
    assert!(!is_image_file("jpg"));
    assert!(!is_image_file("a.gif.txt"));
    assert!(is_image_name("x.gif"));
    assert!(!is_image_name("x.GIF"));
}
