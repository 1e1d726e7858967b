use hintkit::shell_integration::{integration_for, SUPPORTED_SHELLS};

#[test]
fn supported_shells_have_integration() {
    for shell in SUPPORTED_SHELLS {
        let script = integration_for(shell);
        assert!(script.is_some(), "no integration bundled for {shell}");
        let body = script.unwrap();
        assert!(
            body.contains("HINTKIT_WRAPPED"),
            "{shell} integration missing HINTKIT_WRAPPED guard"
        );
        assert!(
            body.contains("\\e]133;"),
            "{shell} integration missing OSC 133 emission"
        );
    }
}

#[test]
fn unknown_shell_returns_none() {
    assert!(integration_for("fish").is_none());
    assert!(integration_for("").is_none());
    assert!(integration_for("powershell").is_none());
}
