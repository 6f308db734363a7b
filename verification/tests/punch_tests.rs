use kiho_puncher::punch::{
    ask_costcentre, create_punch_request, desc_column_width, latest_punch_params,
    punch_list_header, sort_punches_by_time, PunchError, PunchType,
};

#[test]
fn punch_type_labels() {
    assert_eq!(PunchType::Break.label(), "BREAK");
    assert_eq!(PunchType::Login.label(), "LOGIN");
    assert_eq!(PunchType::Logout.label(), "LOGOUT");
}

#[test]
fn costcentre_of_security_work() {
    assert_eq!(ask_costcentre("ISO27001 2024"), 892621);
    assert_eq!(ask_costcentre("Audit for ISO27001"), 892621);
}

#[test]
fn costcentre_of_general_work() {
    assert_eq!(ask_costcentre("Rusting it out"), 901184);
    assert_eq!(ask_costcentre(""), 901184);
    assert_eq!(ask_costcentre("iso27 in lower case"), 901184);
}

#[test]
fn break_punch_is_unsupported() {
    let r = create_punch_request(PunchType::Break, None, None);
    assert_eq!(r.unwrap_err(), PunchError::BreakUnsupported);
}

#[test]
fn login_punch_needs_description() {
    let r = create_punch_request(PunchType::Login, None, Some(901184));
    assert_eq!(r.unwrap_err(), PunchError::MissingDescription);
}

#[test]
fn login_punch_needs_cost_centre() {
    let r = create_punch_request(PunchType::Login, Some("work".to_string()), None);
    assert_eq!(r.unwrap_err(), PunchError::MissingCostCentre);
}

#[test]
fn login_punch_carries_its_fields() {
    let q = create_punch_request(
        PunchType::Login,
        Some("Rusting it out".to_string()),
        Some(901184),
    )
    .unwrap();
    assert_eq!(q.punch_type, PunchType::Login);
    assert_eq!(q.description, Some("Rusting it out".to_string()));
    assert_eq!(q.cost_centre, Some(901184));
}

#[test]
fn logout_punch_carries_nothing() {
    let q = create_punch_request(PunchType::Logout, Some("ignored".to_string()), Some(1)).unwrap();
    assert_eq!(q.punch_type, PunchType::Logout);
    assert_eq!(q.description, None);
    assert_eq!(q.cost_centre, None);
}

#[test]
fn listing_params_without_type() {
    let params = latest_punch_params(10, None);
    assert_eq!(params.len(), 2);
    assert_eq!(params[0], ("orderBy".to_string(), "timestamp DESC".to_string()));
    assert_eq!(params[1], ("pageSize".to_string(), "10".to_string()));
}

#[test]
fn listing_params_with_type() {
    let params = latest_punch_params(3, Some(PunchType::Login));
    assert_eq!(params.len(), 3);
    assert_eq!(params[2], ("type".to_string(), "LOGIN".to_string()));
}

#[test]
fn listing_header_without_type() {
    assert_eq!(
        punch_list_header(5, None),
        "Latest 5 worktime punch line(s) in ascending order",
    );
}

#[test]
fn listing_header_with_type() {
    assert_eq!(
        punch_list_header(12, Some(PunchType::Logout)),
        "Latest 12 worktime LOGOUT punch line(s) in ascending order",
    );
}

#[test]
fn column_width_defaults_to_forty() {
    assert_eq!(desc_column_width(&Vec::new()), 40);
    assert_eq!(desc_column_width(&vec![None, None]), 40);
}

#[test]
fn column_width_is_the_longest_description() {
    let descs = vec![
        Some("short".to_string()),
        None,
        Some("a rather longer description".to_string()),
        Some("mid-sized one".to_string()),
    ];
    assert_eq!(desc_column_width(&descs), "a rather longer description".len());
}

#[test]
fn sort_orders_timestamps_ascending() {
    let stamps = vec![
        "2023-08-24T09:44:40+03:00".to_string(),
        "2023-08-22T14:09:09+03:00".to_string(),
        "not a timestamp".to_string(),
        "2023-08-24T08:02:12+03:00".to_string(),
    ];
    let order = sort_punches_by_time(&stamps);
    assert_eq!(order, vec![2, 1, 3, 0]);
}

#[test]
fn sort_compares_instants_not_strings() {
    // 12:00+05:00 is 07:00Z and comes before 10:00+01:00, which is 09:00Z,
    // although the strings compare the other way round
    let stamps = vec![
        "2023-01-01T10:00:00+01:00".to_string(),
        "2023-01-01T12:00:00+05:00".to_string(),
    ];
    let order = sort_punches_by_time(&stamps);
    assert_eq!(order, vec![1, 0]);
}

#[test]
fn sort_of_empty_listing() {
    let stamps: Vec<String> = Vec::new();
    assert_eq!(sort_punches_by_time(&stamps), Vec::<usize>::new());
}
