use wca_odds::events::{calculate_average, str_equals, EventType, DNF_VALUE};
use wca_odds::request::{
    clean_and_validate_wca_id, validate_competitor_ids, validate_request_constraints, RequestError,
};

const DNF: i32 = DNF_VALUE;

#[test]
fn event_ids_map_to_formats() {
    assert_eq!(EventType::from_id("333"), Some(EventType::Ao5));
    assert_eq!(EventType::from_id("sq1"), Some(EventType::Ao5));
    assert_eq!(EventType::from_id("333bf"), Some(EventType::Bo5));
    assert_eq!(EventType::from_id("777"), Some(EventType::Mo3));
    assert_eq!(EventType::from_id("333fm"), Some(EventType::Fmc));
    assert_eq!(EventType::from_id("555bf"), Some(EventType::Bo3));
    assert_eq!(EventType::from_id("333FM"), None);
    assert_eq!(EventType::from_id(""), None);
    assert_eq!(EventType::from_id("3333"), None);
}

#[test]
fn formats_have_solve_counts() {
    assert_eq!(EventType::Ao5.num_solves(), 5);
    assert_eq!(EventType::Bo5.num_solves(), 5);
    assert_eq!(EventType::Mo3.num_solves(), 3);
    assert_eq!(EventType::Bo3.num_solves(), 3);
    assert_eq!(EventType::Fmc.num_solves(), 3);
    assert!(EventType::Fmc.is_fmc());
    assert!(!EventType::Mo3.is_fmc());
}

#[test]
fn strings_compare_by_characters() {
    assert!(str_equals("minx", "minx"));
    assert!(!str_equals("minx", "mini"));
    assert!(!str_equals("minx", "min"));
}

#[test]
fn average_of_5_drops_best_and_worst() {
    assert_eq!(calculate_average(&[1000, 1100, 900, 1200, 1300], EventType::Ao5), 1100);
    assert_eq!(calculate_average(&[1000, 1001, 1003, 1200, 800], EventType::Ao5), 1001);
}

#[test]
fn average_of_5_with_one_dnf_counts_it_as_worst() {
    assert_eq!(calculate_average(&[1000, DNF, 900, 1200, 1300], EventType::Ao5), 1166);
}

#[test]
fn average_of_5_with_two_dnfs_is_dnf() {
    assert_eq!(calculate_average(&[1000, DNF, 900, DNF, 1300], EventType::Ao5), DNF);
    assert_eq!(calculate_average(&[DNF, DNF, DNF, 1000, 1300], EventType::Ao5), DNF);
}

#[test]
fn mean_of_3_is_truncated_mean() {
    assert_eq!(calculate_average(&[1000, 1001, 1001, DNF, DNF], EventType::Mo3), 1000);
    assert_eq!(calculate_average(&[1000, DNF, 1001, DNF, DNF], EventType::Mo3), DNF);
}

#[test]
fn move_count_mean_ending_in_66_is_raised() {
    // 30 + 30 + 32 moves: 92 / 3 = 30.666...
    assert_eq!(calculate_average(&[3000, 3000, 3200, DNF, DNF], EventType::Fmc), 3067);
    // 30 + 31 + 31 moves: 30.666... too
    assert_eq!(calculate_average(&[3000, 3100, 3100, DNF, DNF], EventType::Fmc), 3067);
    // 30 + 30 + 31: 30.333...
    assert_eq!(calculate_average(&[3000, 3000, 3100, DNF, DNF], EventType::Fmc), 3033);
    // The plain mean of three has no such correction.
    assert_eq!(calculate_average(&[3000, 3000, 3200, DNF, DNF], EventType::Mo3), 3066);
}

#[test]
fn best_of_is_dnf_only_when_all_are() {
    assert_eq!(calculate_average(&[DNF, DNF, DNF, 10, 10], EventType::Bo3), DNF);
    assert_eq!(calculate_average(&[DNF, 5000, DNF, 10, 10], EventType::Bo3), 5000);
    assert_eq!(calculate_average(&[DNF, DNF, DNF, DNF, DNF], EventType::Bo5), DNF);
    assert_eq!(calculate_average(&[DNF, DNF, DNF, DNF, 7000], EventType::Bo5), 7000);
}

#[test]
fn competitor_ids_are_upper_cased_and_checked() {
    assert_eq!(clean_and_validate_wca_id("2019smit01"), Some("2019SMIT01".to_string()));
    assert_eq!(clean_and_validate_wca_id("2019SMIT01"), Some("2019SMIT01".to_string()));
    assert_eq!(clean_and_validate_wca_id("2019SMIT1"), None);
    assert_eq!(clean_and_validate_wca_id("2019SM1T01"), None);
    assert_eq!(clean_and_validate_wca_id("201XSMIT01"), None);
    assert_eq!(clean_and_validate_wca_id("2019SMIT0A"), None);
    assert_eq!(clean_and_validate_wca_id("2019SMÏT01"), None);
}

#[test]
fn id_lists_report_the_first_invalid_id() {
    let ids = vec!["2019smit01".to_string(), "bad".to_string(), "worse".to_string()];
    assert_eq!(validate_competitor_ids(&ids), Err(RequestError::InvalidId("bad".to_string())));
    let ids = vec!["2019smit01".to_string(), "2020ABCD02".to_string()];
    assert_eq!(
        validate_competitor_ids(&ids),
        Ok(vec!["2019SMIT01".to_string(), "2020ABCD02".to_string()])
    );
}

#[test]
fn request_constraints() {
    assert_eq!(validate_request_constraints(33, 0, 100), Err(RequestError::TooManyCompetitors));
    assert_eq!(validate_request_constraints(32, 0, 27), Err(RequestError::WindowTooShort));
    assert_eq!(validate_request_constraints(32, 0, 28), Ok(()));
    assert_eq!(validate_request_constraints(0, 738000, 738100), Ok(()));
}

#[test]
fn a_valid_id_validates_to_itself() {
    let once = clean_and_validate_wca_id("2019smit01").unwrap();
    assert_eq!(clean_and_validate_wca_id(&once), Some(once.clone()));
}
