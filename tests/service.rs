use corpus_gen::{fname_from_id, Cors, Error, NamedBinary};

#[test]
fn corpus_file_name() {
    assert_eq!(fname_from_id("public/corpus", "p1_train"), "public/corpus/p1_train.txt");
}

#[test]
fn download_header_names_the_file() {
    let nb = NamedBinary::new("application/bzip2", "corpus.bz2".to_string(), vec![1, 2, 3]);
    assert_eq!(nb.content_disposition(), "attachment; filename=\"corpus.bz2\"");
    assert_eq!(nb.content_type(), "application/bzip2");
    assert_eq!(nb.download_name(), "corpus.bz2");
    assert_eq!(nb.payload(), &vec![1u8, 2, 3]);
    let (ct, name, bytes) = nb.into_parts();
    assert_eq!((ct, name.as_str(), bytes), ("application/bzip2", "corpus.bz2", vec![1u8, 2, 3]));
}

#[test]
fn cors_headers() {
    let h = Cors.headers();
    assert_eq!(
        h,
        vec![
            ("Access-Control-Allow-Origin", "*"),
            ("Access-Control-Allow-Methods", "POST, GET, PATCH, OPTIONS"),
            ("Access-Control-Allow-Headers", "*"),
            ("Access-Control-Allow-Credentials", "true"),
        ]
    );
    assert_eq!(Cors.name(), "Attaching CORS headers to responses");
}

#[test]
fn error_kinds() {
    assert!(Error::EmptySelection.is_empty_selection());
    assert!(!Error::Io("gone".to_string()).is_empty_selection());
    assert!(!Error::TooMayPrivateKeys(2).is_empty_selection());
}
