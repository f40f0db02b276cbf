use repo_stats::cursor::page_path;
use repo_stats::pager::{FetchError, PageResponse, RepoPager, Step};
use repo_stats::repo::Repo;

fn repo(name: &str, archived: bool) -> Repo {
    Repo {
        name: name.to_string(),
        topics: vec![],
        archived,
        language: None,
        size: 1,
    }
}

fn ok_page(link: Option<&str>, repos: Vec<Repo>) -> PageResponse {
    PageResponse {
        status: 200,
        body: String::new(),
        link: link.map(|l| l.to_string()),
        repos: Some(repos),
    }
}

fn expect_fetch(pager: &mut RepoPager) -> u32 {
    match pager.step() {
        Step::Fetch(p) => p,
        other => panic!("expected a fetch, got {:?}", other),
    }
}

fn expect_record(pager: &mut RepoPager) -> Repo {
    match pager.step() {
        Step::Record(r) => r,
        other => panic!("expected a record, got {:?}", other),
    }
}

fn expect_finished(pager: &mut RepoPager) {
    match pager.step() {
        Step::Finished => {}
        other => panic!("expected the end, got {:?}", other),
    }
}

#[test]
fn retrieve() {
    let mut repos = RepoPager::new(true);
    let page = expect_fetch(&mut repos);
    assert_eq!(page, 1);
    assert_eq!(page_path("some-org", page), "/orgs/some-org/repos?per_page=25&page=1");
    repos
        .accept_page(ok_page(None, vec![repo("some-name", false)]))
        .unwrap();
    let repo = expect_record(&mut repos);
    assert_eq!(repo.name, "some-name");
}

#[test]
fn retrieve_paginated() {
    let link = r#"<https://api.github.com/orgs/some-org/repos?per_page=25&page=2>; rel="next""#;
    let mut repos = RepoPager::new(true);
    let page = expect_fetch(&mut repos);
    assert_eq!(page_path("some-org", page), "/orgs/some-org/repos?per_page=25&page=1");
    repos
        .accept_page(ok_page(Some(link), vec![repo("some-name", false)]))
        .unwrap();
    let _ = expect_record(&mut repos);
    let page = expect_fetch(&mut repos);
    assert_eq!(page_path("some-org", page), "/orgs/some-org/repos?per_page=25&page=2");
    repos
        .accept_page(ok_page(None, vec![repo("other-name", false)]))
        .unwrap();
    let repo = expect_record(&mut repos);
    assert_eq!(repo.name, "other-name");
    expect_finished(&mut repos);
}

#[test]
fn single_page_yields_one_record_then_ends() {
    let mut pager = RepoPager::new(false);
    assert_eq!(expect_fetch(&mut pager), 1);
    pager
        .accept_page(ok_page(None, vec![repo("some-name", false)]))
        .unwrap();
    assert_eq!(expect_record(&mut pager).name, "some-name");
    expect_finished(&mut pager);
    expect_finished(&mut pager);
}

#[test]
fn two_pages_fetch_each_page_once_in_order() {
    let link = r#"<https://api.github.com/orgs/some-org/repos?per_page=25&page=2>; rel="next""#;
    let mut pager = RepoPager::new(false);
    let mut fetched = vec![];
    let mut names = vec![];
    loop {
        match pager.step() {
            Step::Fetch(p) => {
                fetched.push(p);
                let resp = if p == 1 {
                    ok_page(Some(link), vec![repo("some-name", false)])
                } else {
                    ok_page(None, vec![repo("other-name", false)])
                };
                pager.accept_page(resp).unwrap();
            }
            Step::Record(r) => names.push(r.name),
            Step::Finished => break,
        }
    }
    assert_eq!(fetched, vec![1, 2]);
    assert_eq!(names, vec!["some-name".to_string(), "other-name".to_string()]);
}

#[test]
fn not_found_status_is_fatal() {
    let mut pager = RepoPager::new(true);
    expect_fetch(&mut pager);
    let resp = PageResponse {
        status: 404,
        body: "Not Found".to_string(),
        link: None,
        repos: None,
    };
    match pager.accept_page(resp) {
        Err(FetchError::Status { status, body }) => {
            assert_eq!(status, 404);
            assert_eq!(body, "Not Found");
        }
        other => panic!("expected a status error, got {:?}", other),
    }
    expect_finished(&mut pager);
}

#[test]
fn undecodable_body_is_fatal() {
    let mut pager = RepoPager::new(true);
    expect_fetch(&mut pager);
    let resp = PageResponse {
        status: 200,
        body: "not json".to_string(),
        link: None,
        repos: None,
    };
    assert!(matches!(pager.accept_page(resp), Err(FetchError::Decode)));
    expect_finished(&mut pager);
}

#[test]
fn archived_only_page_still_leads_to_next_page() {
    let link = r#"<https://api.github.com/orgs/some-org/repos?per_page=25&page=2>; rel="next""#;
    let mut pager = RepoPager::new(false);
    expect_fetch(&mut pager);
    pager
        .accept_page(ok_page(Some(link), vec![repo("old-a", true), repo("old-b", true)]))
        .unwrap();
    assert_eq!(expect_fetch(&mut pager), 2);
    pager
        .accept_page(ok_page(None, vec![repo("live", false)]))
        .unwrap();
    assert_eq!(expect_record(&mut pager).name, "live");
    expect_finished(&mut pager);
}

#[test]
fn archived_records_filtered_unless_included() {
    let page = || vec![repo("a", false), repo("b", true), repo("c", false)];
    let mut without = RepoPager::new(false);
    expect_fetch(&mut without);
    without.accept_page(ok_page(None, page())).unwrap();
    assert_eq!(expect_record(&mut without).name, "a");
    assert_eq!(expect_record(&mut without).name, "c");
    expect_finished(&mut without);

    let mut with = RepoPager::new(true);
    expect_fetch(&mut with);
    with.accept_page(ok_page(None, page())).unwrap();
    assert_eq!(expect_record(&mut with).name, "a");
    assert_eq!(expect_record(&mut with).name, "b");
    assert_eq!(expect_record(&mut with).name, "c");
    expect_finished(&mut with);
}

#[test]
fn record_order_and_duplicates_kept() {
    let mut pager = RepoPager::new(true);
    expect_fetch(&mut pager);
    pager
        .accept_page(ok_page(None, vec![repo("z", false), repo("a", false), repo("z", false)]))
        .unwrap();
    assert_eq!(expect_record(&mut pager).name, "z");
    assert_eq!(expect_record(&mut pager).name, "a");
    assert_eq!(expect_record(&mut pager).name, "z");
    expect_finished(&mut pager);
}

#[test]
fn link_without_next_rel_ends_listing() {
    let link = r#"<https://api.github.com/orgs/some-org/repos?per_page=25&page=1>; rel="first""#;
    let mut pager = RepoPager::new(true);
    expect_fetch(&mut pager);
    pager
        .accept_page(ok_page(Some(link), vec![repo("only", false)]))
        .unwrap();
    assert_eq!(pager.awaiting(), None);
    assert_eq!(expect_record(&mut pager).name, "only");
    expect_finished(&mut pager);
}

#[test]
fn awaiting_reports_requested_page() {
    let mut pager = RepoPager::new(true);
    assert_eq!(pager.awaiting(), None);
    expect_fetch(&mut pager);
    assert_eq!(pager.awaiting(), Some(1));
}
