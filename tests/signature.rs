use mega::signature::{Signature, SignatureType};

fn blank(kind: SignatureType) -> Signature {
    Signature {
        signature_type: kind,
        name: String::new(),
        email: String::new(),
        timestamp: 0,
        timezone: String::new(),
    }
}

#[test]
fn test_signature_type_from_str() {
    assert_eq!(SignatureType::from_str("author").unwrap(), SignatureType::Author);
    assert_eq!(SignatureType::from_str("committer").unwrap(), SignatureType::Committer);
}

#[test]
fn test_signature_type_from_data() {
    assert_eq!(
        SignatureType::from_data("author".to_string().into_bytes()).unwrap(),
        SignatureType::Author
    );
    assert_eq!(
        SignatureType::from_data("committer".to_string().into_bytes()).unwrap(),
        SignatureType::Committer
    );
}

#[test]
fn test_signature_type_to_bytes() {
    assert_eq!(SignatureType::Author.to_bytes(), "author".to_string().into_bytes());
    assert_eq!(SignatureType::Committer.to_bytes(), "committer".to_string().into_bytes());
}

#[test]
fn test_signature_new_from_data() {
    let mut sign = blank(SignatureType::Author);
    sign.new_from_data("author Quanyi Ma <eli@patch.sh> 1678101573 +0800".to_string().into_bytes())
        .unwrap();
    assert_eq!(sign.signature_type, SignatureType::Author);
    assert_eq!(sign.name, "Quanyi Ma");
    assert_eq!(sign.email, "eli@patch.sh");
    assert_eq!(sign.timestamp, 1678101573);
    assert_eq!(sign.timezone, "+0800");
}

#[test]
fn test_signature_to_data() {
    let mut sign = blank(SignatureType::Author);
    sign.new_from_data(
        "committer Quanyi Ma <eli@patch.sh> 1678101573 +0800".to_string().into_bytes(),
    )
    .unwrap();
    let dest = sign.to_data().unwrap();
    assert_eq!(
        dest,
        "committer Quanyi Ma <eli@patch.sh> 1678101573 +0800".to_string().into_bytes()
    );
}

#[test]
fn signature_type_rejects_other_words() {
    assert!(SignatureType::from_str("tagger").is_err());
    assert!(SignatureType::from_data(vec![0xff, 0xfe]).is_err());
}

#[test]
fn signature_without_timezone_reads_as_utc() {
    let mut sign = blank(SignatureType::Author);
    sign.new_from_data(b"author A B <a@b.c> 42".to_vec()).unwrap();
    assert_eq!(sign.name, "A B");
    assert_eq!(sign.email, "a@b.c");
    assert_eq!(sign.timestamp, 42);
    assert_eq!(sign.timezone, "+0000");
}

#[test]
fn signature_failure_leaves_value_unchanged() {
    let mut sign = blank(SignatureType::Committer);
    sign.name = "kept".to_string();
    assert!(sign.new_from_data(b"author no email here 1 +0000".to_vec()).is_err());
    assert!(sign.new_from_data(b"author A <a@b.c> 12x +0000".to_vec()).is_err());
    assert!(sign.new_from_data(b"writer A <a@b.c> 12 +0000".to_vec()).is_err());
    assert_eq!(sign.name, "kept");
    assert_eq!(sign.signature_type, SignatureType::Committer);
}

#[test]
fn signature_timestamp_overflow_is_rejected() {
    let mut sign = blank(SignatureType::Author);
    let line = b"author A <a@b.c> 99999999999999999999999 +0000".to_vec();
    assert!(sign.new_from_data(line).is_err());
}

#[test]
fn signature_round_trip_keeps_bytes() {
    let line = "author Zoë Q. <z@q.org> 0 -0130".to_string().into_bytes();
    let mut sign = blank(SignatureType::Committer);
    sign.new_from_data(line.clone()).unwrap();
    assert_eq!(sign.name, "Zoë Q.");
    assert_eq!(sign.timestamp, 0);
    assert_eq!(sign.to_data().unwrap(), line);
}
