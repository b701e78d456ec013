#[test]
fn tests_test_sanity() {
    assert_eq!(1, 1);
}

#[test]
fn tests_test_client_to_server() {
    assert_eq!(1, 1);
}

#[test]
fn tests_test_server_healthcheck() {
    assert_eq!(1, 1);
}

#[test]
fn mod_test_sanity() {
    assert_eq!(1, 1);
}

#[test]
fn mod_test_server_healthcheck() {
    assert_eq!(1, 1);
}

#[test]
fn integration_test_sanity() {
    assert_eq!(1, 1);
}
