use rpkg::packages::async_fns::{
    build_request_url, judge, FetchOutcome, Verdict, VerifyError,
};
use rpkg::debversion::DebianVersionNum;
use rpkg::Packages;

fn catalog() -> Packages {
    let mut p = Packages::new();
    let num = p.get_package_num_inserting("p");
    p.insert_md5sum(num, "abc123");
    p.insert_available_debver(num, DebianVersionNum::parse("1.2").unwrap());
    let other = p.get_package_num_inserting("q+x");
    p.insert_md5sum(other, "0f0f");
    p.get_package_num_inserting("bare");
    p
}

fn answer(status: u32, body: &str) -> FetchOutcome {
    FetchOutcome::Response { status, body: body.to_string() }
}

#[test]
fn default_server_is_asked() {
    let mut p = catalog();
    assert_eq!(p.server(), "ece459.patricklam.ca:4590");
    let url = p.enq_verify_with_version("p", "1.2").unwrap();
    assert_eq!(url, "http://ece459.patricklam.ca:4590/rest/v1/checksums/p/1.2");
}

#[test]
fn set_server_changes_later_addresses() {
    let mut p = catalog();
    p.set_server("localhost:4590");
    assert_eq!(p.server(), "localhost:4590");
    let url = p.enq_verify("p").unwrap();
    assert_eq!(url, "http://localhost:4590/rest/v1/checksums/p/1.2");
}

#[test]
fn name_and_version_are_percent_encoded() {
    let mut p = catalog();
    p.set_server("h:1");
    let url = p.enq_verify_with_version("q+x", "1:2.0~rc1-3 b/é").unwrap();
    assert_eq!(url, "http://h:1/rest/v1/checksums/q%2Bx/1%3A2.0~rc1-3%20b%2F%C3%A9");
    assert_eq!(
        build_request_url("s", "a_b.c-d~e", "AZaz09"),
        "http://s/rest/v1/checksums/a_b.c-d~e/AZaz09"
    );
    assert_eq!(build_request_url("s", "\u{0}\u{7f}", "%"), "http://s/rest/v1/checksums/%00%7F/%25");
}

#[test]
fn matching_checksum_gives_match() {
    let mut p = catalog();
    p.enq_verify_with_version("p", "1.2").unwrap();
    let reports = p.execute(&vec![answer(200, "abc123")]).unwrap();
    assert_eq!(reports.len(), 1);
    assert_eq!(reports[0].package_name, "p");
    assert_eq!(reports[0].version, "1.2");
    assert_eq!(reports[0].verdict, Verdict::Match);
}

#[test]
fn other_checksum_gives_mismatch() {
    let mut p = catalog();
    p.enq_verify_with_version("p", "1.2").unwrap();
    let reports = p.execute(&vec![answer(200, "def456")]).unwrap();
    assert_eq!(reports[0].verdict, Verdict::Mismatch);
}

#[test]
fn checksums_are_compared_as_they_are() {
    assert_eq!(judge("abc123", &answer(200, "ABC123")), Verdict::Mismatch);
    assert_eq!(judge("abc123", &answer(200, "abc123\n")), Verdict::Mismatch);
    assert_eq!(judge("", &answer(200, "")), Verdict::Match);
}

#[test]
fn error_status_does_not_spoil_a_sibling() {
    let mut p = catalog();
    p.enq_verify_with_version("p", "1.2").unwrap();
    p.enq_verify_with_version("q+x", "3").unwrap();
    p.enq_verify_with_version("p", "1.3").unwrap();
    assert_eq!(p.pending_len(), 3);
    let outcomes = vec![answer(404, "abc123"), answer(200, "0f0f"), FetchOutcome::TransportFailure];
    let reports = p.execute(&outcomes).unwrap();
    assert_eq!(reports.len(), 3);
    assert_eq!(reports[0].verdict, Verdict::HttpError(404));
    assert_eq!(reports[1].verdict, Verdict::Match);
    assert_eq!(reports[1].package_name, "q+x");
    assert_eq!(reports[1].version, "3");
    assert_eq!(reports[2].verdict, Verdict::TransportFailure);
    assert_eq!(reports[2].version, "1.3");
}

#[test]
fn any_status_but_200_is_an_error() {
    assert_eq!(judge("abc123", &answer(500, "abc123")), Verdict::HttpError(500));
    assert_eq!(judge("abc123", &answer(204, "abc123")), Verdict::HttpError(204));
    assert_eq!(judge("abc123", &answer(0, "abc123")), Verdict::HttpError(0));
}

#[test]
fn a_closed_batch_leaves_nothing_waiting() {
    let mut p = catalog();
    p.enq_verify_with_version("p", "1.2").unwrap();
    p.execute(&vec![answer(200, "abc123")]).unwrap();
    assert_eq!(p.pending_len(), 0);
    assert_eq!(p.execute(&vec![]).unwrap().len(), 0);
    p.enq_verify_with_version("p", "1.2").unwrap();
    let reports = p.execute(&vec![answer(200, "zzz")]).unwrap();
    assert_eq!(reports[0].verdict, Verdict::Mismatch);
}

#[test]
fn the_checksum_at_enqueue_time_is_the_one_compared() {
    let mut p = catalog();
    p.enq_verify_with_version("p", "1.2").unwrap();
    let num = p.get_package_num("p").unwrap();
    p.insert_md5sum(num, "changed");
    let reports = p.execute(&vec![answer(200, "abc123")]).unwrap();
    assert_eq!(reports[0].verdict, Verdict::Match);
}

#[test]
fn enqueue_without_checksum_is_an_error() {
    let mut p = catalog();
    assert_eq!(p.enq_verify_with_version("bare", "1"), Err(VerifyError::NoChecksum));
    assert_eq!(p.enq_verify_with_version("nowhere", "1"), Err(VerifyError::NoChecksum));
    assert_eq!(p.pending_len(), 0);
}

#[test]
fn enqueue_without_available_version_is_an_error() {
    let mut p = catalog();
    assert_eq!(p.enq_verify("q+x"), Err(VerifyError::PackageNotDefined));
    assert_eq!(p.enq_verify("nowhere"), Err(VerifyError::PackageNotDefined));
    assert_eq!(p.pending_len(), 0);
}

#[test]
fn outcomes_must_be_as_many_as_requests() {
    let mut p = catalog();
    p.enq_verify_with_version("p", "1.2").unwrap();
    assert_eq!(p.execute(&vec![]).err(), Some(VerifyError::OutcomeCount));
    assert_eq!(p.pending_len(), 1);
    let two = vec![answer(200, "abc123"), answer(200, "abc123")];
    assert_eq!(p.execute(&two).err(), Some(VerifyError::OutcomeCount));
    assert_eq!(p.pending_len(), 1);
}
