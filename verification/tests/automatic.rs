//! Terminal applications that may trigger restoration.

use termcopy::automatic::{
    is_allowed_terminal, parse_frontmost_application, terminal_filters, FrontmostApplication,
};

#[test]
fn parses_frontmost_application_name_and_bundle() {
    assert_eq!(
        parse_frontmost_application("Ghostty\tcom.mitchellh.ghostty\n").unwrap(),
        FrontmostApplication {
            name: "Ghostty".to_string(),
            bundle_id: "com.mitchellh.ghostty".to_string(),
        }
    );
}

#[test]
fn terminal_filter_accepts_defaults_and_rejects_browser() {
    let ghostty = FrontmostApplication {
        name: "Ghostty".to_string(),
        bundle_id: "com.mitchellh.ghostty".to_string(),
    };
    let chrome = FrontmostApplication {
        name: "Google Chrome".to_string(),
        bundle_id: "com.google.Chrome".to_string(),
    };
    assert!(is_allowed_terminal(&ghostty, &[]));
    assert!(!is_allowed_terminal(&chrome, &[]));
}

#[test]
fn custom_terminal_filter_can_match_bundle_id() {
    let app = FrontmostApplication {
        name: "My Terminal Preview".to_string(),
        bundle_id: "dev.example.custom-terminal".to_string(),
    };
    assert!(is_allowed_terminal(&app, &["custom-terminal".to_string()]));
}

#[test]
fn empty_configuration_uses_the_application_that_launched_the_wrapper() {
    let app = FrontmostApplication {
        name: "My Terminal Preview".to_string(),
        bundle_id: "dev.example.custom-terminal".to_string(),
    };
    assert_eq!(
        terminal_filters(&[], Some(&app)),
        vec![
            "My Terminal Preview".to_string(),
            "dev.example.custom-terminal".to_string()
        ]
    );
}

#[test]
fn explicit_terminal_filters_override_detected_application() {
    let app = FrontmostApplication {
        name: "My Terminal Preview".to_string(),
        bundle_id: "dev.example.custom-terminal".to_string(),
    };
    let configured = vec!["WezTerm".to_string()];
    assert_eq!(terminal_filters(&configured, Some(&app)), configured);
}
