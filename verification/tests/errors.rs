use hush_vani::error::Error;

#[test]
fn rejects_short_audio() {
    let e = Error::TooShort { samples: 3, needed: 160 };
    assert!(e.message().contains("too short"));
}

#[test]
fn messages_are_exact() {
    let e = Error::TooShort { samples: 3, needed: 160 };
    assert_eq!(e.message(), "audio too short: 3 samples, need at least 160");
    assert_eq!(Error::Io("no such file".to_string()).message(), "io error: no such file");
    assert_eq!(Error::Weights("bad".to_string()).message(), "invalid weights: bad");
    assert_eq!(
        Error::MissingTensor("enc/\"x\"".to_string()).message(),
        "weights are missing tensor \"enc/\\\"x\\\"\""
    );
    assert_eq!(Error::Io("x".to_string()).source(), Some(&"x".to_string()));
    assert_eq!(e.source(), None);
}
