use lazy_find::error::LazyError;
use lazy_find::persistence::{decode_outcome, decode_paths, encode_outcome, encode_paths};

fn strings(items: &[&str]) -> Vec<String> {
    items.iter().map(|p| String::from(*p)).collect()
}

#[test]
fn encoding_is_length_prefixed() {
    let bytes = encode_paths(&strings(&["a", "bc"])).unwrap();
    assert_eq!(bytes, vec![2, 1, b'a', 2, b'b', b'c']);
    assert_eq!(encode_paths(&Vec::new()).unwrap(), vec![0]);
}

#[test]
fn decoding_gives_back_what_was_encoded() {
    let paths = strings(&["/a/report.txt", "", "/b/\u{e9}t\u{e9}.csv", "/c d/e"]);
    let bytes = encode_paths(&paths).unwrap();
    assert_eq!(decode_paths(&bytes).unwrap(), paths);
}

#[test]
fn large_corpus_survives_the_round_trip() {
    let paths: Vec<String> = (0..20000).map(|i| format!("/data/{}/file-{}.bin", i % 300, i)).collect();
    let bytes = encode_paths(&paths).unwrap();
    assert_eq!(decode_paths(&bytes).unwrap(), paths);
}

#[test]
fn truncated_buffer_is_a_decode_error() {
    let bytes = encode_paths(&strings(&["/a/report.txt", "/b/data.csv"])).unwrap();
    for cut in 0..bytes.len() {
        assert!(matches!(decode_paths(&bytes[..cut]), Err(LazyError::Decode(_))));
    }
}

#[test]
fn empty_buffer_is_a_decode_error() {
    assert!(matches!(decode_paths(&[]), Err(LazyError::Decode(_))));
}

#[test]
fn text_that_is_not_utf8_is_a_decode_error() {
    assert!(matches!(decode_paths(&[1, 2, 0xff, 0xfe]), Err(LazyError::Decode(_))));
}

#[test]
fn absurd_length_prefix_is_a_decode_error() {
    let hostile = [0xfd, 0xff, 0xff, 0xff, 0xff, 0xff, 0xff, 0xff, 0x7f];
    assert!(matches!(decode_paths(&hostile), Err(LazyError::Decode(_))));
    let hostile_text = [1, 0xfd, 0xff, 0xff, 0xff, 0xff, 0xff, 0xff, 0xff, 0x7f];
    assert!(matches!(decode_paths(&hostile_text), Err(LazyError::Decode(_))));
}

#[test]
fn bytes_behind_the_list_are_not_looked_at() {
    let mut bytes = encode_paths(&strings(&["/a"])).unwrap();
    bytes.extend_from_slice(&[9, 9, 9]);
    assert_eq!(decode_paths(&bytes).unwrap(), strings(&["/a"]));
}

#[test]
fn outcome_of_the_coders_keeps_values_and_wraps_errors() {
    assert_eq!(encode_outcome(Ok(vec![1, 2, 3])).unwrap(), vec![1, 2, 3]);
    assert!(matches!(
        encode_outcome(Err(bincode::error::EncodeError::UnexpectedEnd)),
        Err(LazyError::Encode(bincode::error::EncodeError::UnexpectedEnd))
    ));
    assert_eq!(decode_outcome(Ok(strings(&["/a"]))).unwrap(), strings(&["/a"]));
    assert!(matches!(
        decode_outcome(Err(bincode::error::DecodeError::LimitExceeded)),
        Err(LazyError::Decode(bincode::error::DecodeError::LimitExceeded))
    ));
}

#[test]
fn errors_of_each_layer_become_their_own_kind() {
    let io = std::io::Error::new(std::io::ErrorKind::NotFound, "paths.bincode");
    assert!(matches!(LazyError::from(io), LazyError::Io(_)));
    assert!(matches!(
        LazyError::from(bincode::error::DecodeError::UnexpectedEnd { additional: 3 }),
        LazyError::Decode(bincode::error::DecodeError::UnexpectedEnd { additional: 3 })
    ));
    assert!(matches!(
        LazyError::from(bincode::error::EncodeError::UnexpectedEnd),
        LazyError::Encode(_)
    ));
}

#[test]
fn failed_worker_becomes_a_join_error() {
    let runtime = tokio::runtime::Builder::new_current_thread().build().unwrap();
    let joined = runtime.block_on(async {
        let handle = tokio::spawn(async { std::future::pending::<()>().await });
        handle.abort();
        handle.await
    });
    let error = LazyError::from(joined.unwrap_err());
    assert!(matches!(error, LazyError::Join(_)));
    assert!(format!("{:?}", error).starts_with("Join("));
}

#[test]
fn every_list_of_paths_has_an_encoding() {
    let long = "x".repeat(70000);
    let lists: Vec<Vec<String>> = vec![
        Vec::new(),
        strings(&[""]),
        strings(&["", "", ""]),
        vec![long.clone()],
        (0..300).map(|i| format!("/p/{}", i)).collect(),
    ];
    for paths in lists {
        let bytes = encode_paths(&paths).unwrap();
        assert_eq!(decode_paths(&bytes).unwrap(), paths);
    }
    let bytes = encode_paths(&vec![long]).unwrap();
    assert_eq!(&bytes[..6], &[1, 0xfc, 0x70, 0x11, 0x01, 0x00]);
}
