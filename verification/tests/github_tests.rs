use traffic::github::{
    collect_repo_details, next_page, repos_page_url, traffic_url, Repository, FIRST_PAGE, MAX_PAGES,
    MAX_REPOS_PER_PAGE,
};
use traffic::views::ViewsForTwoWeeks;

fn repository(name: &str) -> Repository {
    Repository { name: String::from(name), full_name: format!("user/{}", name) }
}

fn traffic(uniques: u32) -> ViewsForTwoWeeks {
    ViewsForTwoWeeks { uniques, count: uniques, views: vec![] }
}

#[test]
fn page_urls() {
    assert_eq!(
        "https://api.github.com/user/repos?sort=updated&affiliation=owner&per_page=100&page=1",
        repos_page_url(FIRST_PAGE)
    );
    assert_eq!(
        "https://api.github.com/user/repos?sort=updated&affiliation=owner&per_page=100&page=15",
        repos_page_url(15)
    );
    assert_eq!(
        "https://api.github.com/repos/user/test-project/traffic/views",
        traffic_url("user/test-project")
    );
}

#[test]
fn paging_stops_at_a_page_that_is_not_full() {
    assert_eq!(Some(2), next_page(1, MAX_REPOS_PER_PAGE));
    assert_eq!(None, next_page(1, 99));
    assert_eq!(None, next_page(4, 0));
    assert_eq!(Some(15), next_page(14, 100));
    assert_eq!(None, next_page(MAX_PAGES, 100));
}

#[test]
fn paging_asks_for_at_most_fifteen_pages() {
    let mut page = FIRST_PAGE;
    let mut pages = 1;
    while let Some(next) = next_page(page, MAX_REPOS_PER_PAGE) {
        page = next;
        pages += 1;
    }
    assert_eq!(15, pages);
    assert_eq!(MAX_PAGES, page);
}

#[test]
fn answers_are_paired_with_their_repositories() {
    let answers: Vec<Result<ViewsForTwoWeeks, String>> =
        vec![Ok(traffic(1)), Err(String::from("timeout")), Ok(traffic(3))];
    let repos = vec![repository("a"), repository("b"), repository("c")];
    let (details, failures) = collect_repo_details(answers, repos);
    assert_eq!(2, details.len());
    assert_eq!("a", details[0].repository.name);
    assert_eq!(1, details[0].views.uniques);
    assert_eq!("c", details[1].repository.name);
    assert_eq!(3, details[1].views.uniques);
    assert_eq!(1, failures.len());
    assert_eq!("b", failures[0].0.name);
    assert_eq!("timeout", failures[0].1);
}

#[test]
fn pairing_stops_at_the_shorter_list() {
    let answers: Vec<Result<ViewsForTwoWeeks, String>> = vec![Ok(traffic(1)), Ok(traffic(2))];
    let (details, failures) = collect_repo_details(answers, vec![repository("only")]);
    assert_eq!(1, details.len());
    assert_eq!("only", details[0].repository.full_name.trim_start_matches("user/"));
    assert!(failures.is_empty());

    let (details, failures) =
        collect_repo_details(Vec::<Result<ViewsForTwoWeeks, String>>::new(), vec![repository("x")]);
    assert!(details.is_empty());
    assert!(failures.is_empty());
}
