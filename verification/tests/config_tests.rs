use mc_screenshot_copy::config::{Config, DestinationCheck, SourceError, parse_confirmation};

#[test]
fn valid_source_accepted_without_reprompt() {
    let r = Config::validate_multimc_folder("/srv/multimc", true, true, 2);
    assert_eq!(r, Ok(()));
    let r = Config::validate_multimc_folder("relative/root", true, true, 1);
    assert_eq!(r, Ok(()));
}

#[test]
fn empty_source_rejected_regardless_of_observations() {
    for &path_exists in &[false, true] {
        for &instances_exists in &[false, true] {
            for &count in &[0usize, 1, 7] {
                let r = Config::validate_multimc_folder("", path_exists, instances_exists, count);
                assert_eq!(r, Err(SourceError::EmptySourcePath));
            }
        }
    }
}

#[test]
fn missing_source_rejected() {
    let r = Config::validate_multimc_folder("/no/such/dir", false, false, 0);
    assert_eq!(r, Err(SourceError::SourceNotFound));
}

#[test]
fn source_without_instances_dir_rejected() {
    let r = Config::validate_multimc_folder("/srv/multimc", true, false, 0);
    assert_eq!(r, Err(SourceError::MissingInstancesDirectory));
}

#[test]
fn source_with_empty_instances_dir_rejected() {
    let r = Config::validate_multimc_folder("/srv/multimc", true, true, 0);
    assert_eq!(r, Err(SourceError::NoInstancesPresent));
}

#[test]
fn empty_destination_rejected() {
    assert_eq!(Config::validate_output_folder("", false), DestinationCheck::EmptyDestinationPath);
    assert_eq!(Config::validate_output_folder("", true), DestinationCheck::EmptyDestinationPath);
}

#[test]
fn missing_destination_is_created() {
    assert_eq!(Config::validate_output_folder("/tmp/shots", false), DestinationCheck::NeedsCreation);
}

#[test]
fn existing_destination_used_as_is() {
    assert_eq!(Config::validate_output_folder("/tmp/shots", true), DestinationCheck::UseExisting);
}

#[test]
fn config_taken_from_three_arguments() {
    let args = vec![
        "tool".to_string(),
        "/srv/multimc".to_string(),
        "/tmp/out".to_string(),
    ];
    let c = Config::new(&args);
    assert_eq!(c.multimc_folder, "/srv/multimc");
    assert_eq!(c.output_folder, "/tmp/out");
}

#[test]
fn config_empty_without_three_arguments() {
    let none = vec!["tool".to_string()];
    let c = Config::new(&none);
    assert_eq!(c.multimc_folder, "");
    assert_eq!(c.output_folder, "");

    let four = vec![
        "tool".to_string(),
        "a".to_string(),
        "b".to_string(),
        "c".to_string(),
    ];
    let c = Config::new(&four);
    assert_eq!(c.multimc_folder, "");
    assert_eq!(c.output_folder, "");
}

fn confirm(s: &str) -> Option<bool> {
    parse_confirmation(&s.as_bytes().to_vec())
}

#[test]
fn confirmation_accepts_yes_case_insensitively() {
    assert_eq!(confirm("y"), Some(true));
    assert_eq!(confirm("Y"), Some(true));
    assert_eq!(confirm("yes"), Some(true));
    assert_eq!(confirm("YES"), Some(true));
    assert_eq!(confirm("Yes"), Some(true));
}

#[test]
fn confirmation_accepts_no_case_insensitively() {
    assert_eq!(confirm("n"), Some(false));
    assert_eq!(confirm("N"), Some(false));
    assert_eq!(confirm("no"), Some(false));
    assert_eq!(confirm("NO"), Some(false));
    assert_eq!(confirm("No"), Some(false));
}

#[test]
fn confirmation_reprompts_on_anything_else() {
    assert_eq!(confirm(""), None);
    assert_eq!(confirm("maybe"), None);
    assert_eq!(confirm("ye"), None);
    assert_eq!(confirm("yess"), None);
    assert_eq!(confirm("nope"), None);
    assert_eq!(confirm("y e s"), None);
}
