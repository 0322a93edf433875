use bundle_builder::cli::{BundleFormat, BundleJob, LogLevel};

#[test]
fn jobs_say_what_they_do() {
    assert!(BundleJob::All.do_select());
    assert!(BundleJob::All.do_pack());
    assert!(BundleJob::Select.do_select());
    assert!(!BundleJob::Select.do_pack());
    assert!(!BundleJob::Pack.do_select());
    assert!(BundleJob::Pack.do_pack());
}

#[test]
fn names_are_those_of_the_command_line() {
    assert_eq!(BundleJob::All.name(), "all");
    assert_eq!(BundleJob::Select.name(), "select");
    assert_eq!(BundleJob::Pack.name(), "pack");
    assert_eq!(LogLevel::Debug.name(), "debug");
    assert_eq!(LogLevel::Info.name(), "info");
    assert_eq!(LogLevel::Warn.name(), "warn");
    assert_eq!(LogLevel::Error.name(), "error");
    assert_eq!(BundleFormat::BundleV1.name(), "v1");
}
