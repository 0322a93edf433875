use bundle_builder::config::{
    same_text, BundleConfig, BundleInput, BundleSearchOrder, BundleSpec, InputKind, NamedInput,
};
use bundle_builder::error::BuildError;

fn input(name: &str) -> NamedInput {
    NamedInput {
        name: name.to_string(),
        input: BundleInput {
            kind: InputKind::Dir,
            location: "here".to_string(),
            root: None,
            patch_dir: None,
            ignore: None,
            search_order: None,
        },
    }
}

fn spec_of(inputs: &[&str], order: Vec<BundleSearchOrder>) -> BundleSpec {
    BundleSpec {
        bundle: BundleConfig {
            name: "b".to_string(),
            expected_hash: "".to_string(),
            ignore: None,
            search_order: order,
        },
        inputs: inputs.iter().map(|n| input(n)).collect(),
    }
}

fn plain(s: &str) -> BundleSearchOrder {
    BundleSearchOrder::Plain(s.to_string())
}

fn refer(s: &str) -> BundleSearchOrder {
    BundleSearchOrder::Input { input: s.to_string() }
}

#[test]
fn same_text_compares_texts() {
    assert!(same_text("", ""));
    assert!(same_text("aé", "aé"));
    assert!(!same_text("a", "A"));
    assert!(!same_text("a", "a "));
}

#[test]
fn find_input_gives_the_first_of_a_name() {
    let spec = spec_of(&["a", "b", "a"], vec![]);
    assert_eq!(spec.find_input("a"), Some(0));
    assert_eq!(spec.find_input("b"), Some(1));
    assert_eq!(spec.find_input("c"), None);
    assert_eq!(spec_of(&[], vec![]).find_input("a"), None);
}

#[test]
fn validate_accepts_a_sound_specification() {
    assert_eq!(spec_of(&[], vec![]).validate(), Ok(()));
    assert_eq!(spec_of(&["a", "b"], vec![]).validate(), Ok(()));
    assert_eq!(
        spec_of(&["a", "b"], vec![plain("/x"), refer("b"), plain("/x"), refer("a")]).validate(),
        Ok(())
    );
    assert_eq!(spec_of(&[], vec![plain("{bad"), plain("{bad")]).validate(), Ok(()));
}

#[test]
fn validate_refuses_an_undefined_input() {
    assert_eq!(spec_of(&[], vec![refer("a")]).validate(), Err(BuildError::SpecInvalid));
    assert_eq!(
        spec_of(&["a"], vec![refer("a"), plain("x"), refer("b")]).validate(),
        Err(BuildError::SpecInvalid)
    );
}

#[test]
fn validate_refuses_a_second_reference() {
    assert_eq!(
        spec_of(&["a", "b"], vec![refer("a"), refer("b"), refer("a")]).validate(),
        Err(BuildError::SpecInvalid)
    );
    assert_eq!(
        spec_of(&["a"], vec![refer("a"), refer("a")]).validate(),
        Err(BuildError::SpecInvalid)
    );
}

#[test]
fn target_name_adds_the_extension() {
    assert_eq!(spec_of(&[], vec![]).bundle.target_name(), "b.ttb");
    let mut spec = spec_of(&[], vec![]);
    spec.bundle.name = "texlive2023".to_string();
    assert_eq!(spec.bundle.target_name(), "texlive2023.ttb");
    spec.bundle.name = String::new();
    assert_eq!(spec.bundle.target_name(), ".ttb");
}
