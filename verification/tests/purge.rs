use dns_test::network::{Allocation, Step, PROJECT};
use dns_test::purge::{
    filter_command_output, Kind, Listed, Output, Purge, PurgeError, ID_LEN,
};

fn output(success: bool, stdout: &str, stderr: &str) -> Output {
    Output {
        program: "\"docker\"".to_string(),
        success,
        status: if success { "ExitStatus(unix_wait_status(0))" } else { "ExitStatus(unix_wait_status(256))" }
            .to_string(),
        stdout: stdout.as_bytes().to_vec(),
        stderr: stderr.to_string(),
    }
}

const PS: &str = "CONTAINER ID   IMAGE                 COMMAND       NAMES
0123456789ab   dns-test-client       \"sleep\"       dns-test-client-1-1
ffffffffffff   postgres              \"postgres\"    db
ba9876543210   dns-test-unbound      \"sleep\"       dns-test-unbound-1-2
";

#[test]
fn filter_picks_the_ids_of_the_marked_lines() {
    assert_eq!(ID_LEN, 12);
    let ids = filter_command_output(PS.as_bytes()).unwrap();
    assert_eq!(ids, vec!["0123456789ab", "ba9876543210"]);
    assert_eq!(filter_command_output(b"").unwrap(), Vec::<String>::new());
    assert_eq!(filter_command_output(b"\n\n").unwrap(), Vec::<String>::new());
    assert_eq!(filter_command_output(b"short\nno marker here").unwrap(), Vec::<String>::new());
    assert_eq!(
        filter_command_output(b"aaaaaaaaaaaa dns-test").unwrap(),
        vec!["aaaaaaaaaaaa"]
    );
    assert_eq!(
        filter_command_output(b"dns-test-123\r\ndns-test-4567").unwrap(),
        vec!["dns-test-123", "dns-test-456"]
    );
}

#[test]
fn filter_fails_on_a_marked_line_without_id() {
    assert!(matches!(
        filter_command_output(b"0123456789ab dns-test\ndns-test\n"),
        Err(PurgeError::MalformedLine { line: 1 })
    ));
    // the carriage return belongs to the line ending
    assert!(matches!(
        filter_command_output(b"dns-test123\r\n"),
        Err(PurgeError::MalformedLine { line: 0 })
    ));
    // half a character at the end of the id
    assert!(matches!(
        filter_command_output("x\ny\ndns-test123\u{e9} x".as_bytes()),
        Err(PurgeError::MalformedLine { line: 2 })
    ));
}

#[test]
fn filter_fails_on_output_that_is_no_text() {
    assert!(matches!(
        filter_command_output(b"0123456789ab dns-test\n\xff\n"),
        Err(PurgeError::InvalidUtf8)
    ));
}

#[test]
fn purge_takes_one_argument_or_none() {
    let purge = Purge::new(None).unwrap();
    assert!(purge.clean_container && purge.clean_network);
    let purge = Purge::new(Some("network")).unwrap();
    assert!(!purge.clean_container && purge.clean_network);
    let purge = Purge::new(Some("container")).unwrap();
    assert!(purge.clean_container && !purge.clean_network);
    let error = Purge::new(Some("containers")).err().unwrap();
    assert!(matches!(&error, PurgeError::UnexpectedArgument { argument } if argument == "containers"));
    assert_eq!(error.message(), "Unexpected argument `containers`");
}

#[test]
fn purge_cleans_containers_then_networks() {
    let purge = Purge::new(None).unwrap();

    let listing = purge.next().unwrap();
    assert_eq!(listing.kind, Kind::Container);
    assert_eq!(listing.arguments(), vec!["ps"]);
    let Listed::Remove(removal) = listing.listed(&output(true, PS, "")).unwrap() else {
        panic!("nothing to remove");
    };
    assert_eq!(removal.arguments(), vec!["rm", "-f", "0123456789ab", "ba9876543210"]);
    let removed = removal.removed(&output(true, "0123456789ab\nba9876543210\n", "")).unwrap();
    assert_eq!(removed.heading, "Removed containers:");

    let listing = removed.rest.next().unwrap();
    assert_eq!(listing.kind, Kind::Network);
    assert_eq!(listing.arguments(), vec!["network", "ls"]);
    let listed = listing
        .listed(&output(true, "NETWORK ID     NAME      DRIVER    SCOPE\n0f0f0f0f0f0f   bridge    bridge    local\n", ""))
        .unwrap();
    let Listed::Nothing { message, rest } = listed else {
        panic!("something to remove");
    };
    assert_eq!(message, "No networks to be removed");
    assert!(rest.next().is_none());
}

#[test]
fn purge_of_networks_removes_by_network_command() {
    let listing = Purge::new(Some("network")).unwrap().next().unwrap();
    assert_eq!(listing.kind, Kind::Network);
    let listed = listing
        .listed(&output(true, "0f0f0f0f0f0f   dns-test-7-1   bridge   local\n", ""))
        .unwrap();
    let Listed::Remove(removal) = listed else {
        panic!("nothing to remove");
    };
    assert_eq!(removal.arguments(), vec!["network", "rm", "0f0f0f0f0f0f"]);
    let removed = removal.removed(&output(true, "0f0f0f0f0f0f\n", "")).unwrap();
    assert_eq!(removed.heading, "Removed networks:");
    assert!(removed.rest.next().is_none());
}

#[test]
fn purge_of_containers_reports_when_there_are_none() {
    let listing = Purge::new(Some("container")).unwrap().next().unwrap();
    let Listed::Nothing { message, rest } = listing.listed(&output(true, "", "")).unwrap() else {
        panic!("something to remove");
    };
    assert_eq!(message, "No containers to be removed");
    assert!(rest.next().is_none());
}

#[test]
fn purge_stops_at_a_command_that_fails() {
    let listing = Purge::new(None).unwrap().next().unwrap();
    let error = listing.listed(&output(false, PS, "Cannot connect to the Docker daemon\n")).err().unwrap();
    assert_eq!(
        error.message(),
        "command \"docker\" exited with status-code ExitStatus(unix_wait_status(256)), stderr:\nCannot connect to the Docker daemon\n"
    );

    let listing = Purge::new(None).unwrap().next().unwrap();
    let Listed::Remove(removal) = listing.listed(&output(true, PS, "")).unwrap() else {
        panic!("nothing to remove");
    };
    let error = removal.removed(&output(false, "", "no such container")).err().unwrap();
    assert!(matches!(&error, PurgeError::CommandFailed { stderr, .. } if stderr == "no such container"));
}

#[test]
fn purge_errors_have_a_text_each() {
    assert_eq!(PurgeError::InvalidUtf8.message(), "stream did not contain valid UTF-8");
    assert_eq!(PurgeError::MalformedLine { line: 12 }.message(), "no identifier in line 12");
    let listing = Purge::new(None).unwrap().next().unwrap();
    assert!(matches!(
        listing.listed(&output(true, "dns-test\n", "")),
        Err(PurgeError::MalformedLine { line: 0 })
    ));
    let listing = Purge::new(None).unwrap().next().unwrap();
    let mut bad = output(true, "", "");
    bad.stdout = vec![0xc3];
    assert!(matches!(listing.listed(&bad), Err(PurgeError::InvalidUtf8)));
}

#[test]
fn purge_finds_the_networks_that_an_allocation_names() {
    assert_eq!(PROJECT, "dns-test");
    let Step::Try(attempt) = Allocation::new(31337, PROJECT, 2).next_with(0) else {
        panic!("no try left");
    };
    let listing = format!(
        "NETWORK ID     NAME      DRIVER    SCOPE\n0f0f0f0f0f0f   bridge    bridge    local\n1e1e1e1e1e1e   {}   bridge    local\n",
        attempt.network_name()
    );
    assert_eq!(filter_command_output(listing.as_bytes()).unwrap(), vec!["1e1e1e1e1e1e"]);
}
