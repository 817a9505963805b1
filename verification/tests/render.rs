use argus::color::{bold, dim, fg, severity_style};
use argus::log::Severity;
use argus::topology::{color_for, error_message};

#[test]
fn colors_wrap_text_in_escape_codes() {
    assert_eq!(fg("hi", (1, 22, 255)), "\x1b[38;2;1;22;255mhi\x1b[39m");
    assert_eq!(bold("b"), "\x1b[1mb\x1b[22m");
    assert_eq!(dim("d"), "\x1b[2md\x1b[22m");
}

#[test]
fn known_services_have_their_colors() {
    assert_eq!(color_for("payments"), (251, 191, 36));
    assert_eq!(color_for("api-gateway"), (94, 234, 212));
    assert_eq!(color_for("nope"), (148, 148, 148));
}

#[test]
fn services_fail_with_their_own_messages() {
    assert_eq!(error_message("postgres"), "connection pool exhausted");
    assert_eq!(error_message("cart"), "cart snapshot is stale");
    assert_eq!(error_message("api-gateway"), "internal error");
}

#[test]
fn severities_have_symbols() {
    assert_eq!(severity_style(Severity::Error), ("✖", (251, 113, 133)));
    assert_eq!(severity_style(Severity::Info).0, "ⓘ");
}
