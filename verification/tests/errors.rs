use vulhunt_engine::CheckerError;

#[test]
fn messages_name_what_failed() {
    let text = || "why".to_string();
    let cases = vec![
        (CheckerError::Decompiler(text()), "why"),
        (CheckerError::Io(text()), "cannot load checker: why"),
        (CheckerError::Load(text()), "cannot parse and load checker: why"),
        (CheckerError::Malformed(text()), "malformed rule: why"),
        (CheckerError::MalformedCondition(text()), "malformed condition: why"),
        (CheckerError::ModuleLoader(text()), "cannot register module loader: why"),
        (CheckerError::Pattern(text()), "cannot parse pattern: why"),
        (CheckerError::Preprocess(text()), "cannot preprocess rule: why"),
        (CheckerError::Run(text()), "cannot run checker: why"),
        (CheckerError::Signatures(text()), "cannot load required signatures: why"),
        (
            CheckerError::SignatureArch(text()),
            "cannot parse signature path, invalid signature arch: why",
        ),
        (
            CheckerError::SignaturePathFormat(text()),
            "cannot parse signature path, invalid signature path: why",
        ),
        (CheckerError::SignatureVersionFormat(text()), "cannot parse signature versions: why"),
        (CheckerError::Types(text()), "cannot load required type database: why"),
        (CheckerError::FunctionQuery(text()), "invalid query: why"),
    ];
    for (error, message) in cases {
        assert_eq!(error.message(), message);
    }
}

#[test]
fn constructors_keep_the_text() {
    assert_eq!(CheckerError::decompiler_with("no file".to_string()).message(), "no file");
    assert_eq!(
        CheckerError::malformed_with("missing `name`".to_string()).message(),
        "malformed rule: missing `name`"
    );
    assert_eq!(
        CheckerError::malformed_condition_with("odd".to_string()).message(),
        "malformed condition: odd"
    );
}

#[test]
fn constructors_show_the_cause() {
    let cause = || "x".parse::<u8>().unwrap_err();
    let shown = cause().to_string();
    assert_eq!(CheckerError::decompiler(cause()).message(), shown);
    assert_eq!(
        CheckerError::malformed(cause()).message(),
        format!("malformed rule: {shown}")
    );
    assert_eq!(
        CheckerError::malformed_condition(cause()).message(),
        format!("malformed condition: {shown}")
    );
}
