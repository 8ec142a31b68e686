use traffic::github::{RepoDetails, Repository};
use traffic::output::{
    format_report, get_formatted_output, get_formatted_output_with_style, report_order_of,
    NO_REPOS_FOUND, NO_TRAFFIC, STYLE_BOLD, STYLE_RESET,
};
use traffic::views::{ViewsForDay, ViewsForTwoWeeks};

const DAY: i64 = 86_400;
const EPOCH_DAY: i64 = 719_163;

fn repo(name: &str, uniques: u32, days: Vec<ViewsForDay>) -> RepoDetails {
    RepoDetails {
        repository: Repository { name: String::from(name), full_name: format!("user/{}", name) },
        views: ViewsForTwoWeeks { uniques, count: uniques, views: days },
    }
}

fn header(set: &str, clear: &str) -> String {
    format!(
        "\n{}{:<38}{:^30}{:<}\n{:<38}{:^30}\n{}\n",
        set, "Repository Name", "Unique Visits", "Trend", "", "(last 14 days)", clear
    )
}

#[test]
fn handles_empty_repo_vec() {
    let repo_details: Vec<RepoDetails> = vec![];
    let result = get_formatted_output(repo_details);

    assert_eq!(NO_REPOS_FOUND, result);
}

#[test]
fn handles_all_repos_have_zero_views() {
    let repository = Repository { name: String::from("test-project"), full_name: String::from("user/test-project") };
    let views = ViewsForTwoWeeks { uniques: 0, count: 0, views: vec![] };
    let repo_details: Vec<RepoDetails> = vec![RepoDetails { repository, views }];
    let result = get_formatted_output(repo_details);

    assert_eq!(NO_TRAFFIC, result);
}

#[test]
fn hides_warnings_if_repos_exist_with_traffic() {
    let repository = Repository { name: String::from("test-project"), full_name: String::from("user/test-project") };
    let views = ViewsForTwoWeeks { uniques: 1, count: 1, views: vec![] };
    let repo_details: Vec<RepoDetails> = vec![RepoDetails { repository, views }];
    let result = get_formatted_output(repo_details);

    assert!(!result.contains(NO_REPOS_FOUND));
    assert!(!result.contains(NO_TRAFFIC));
}

#[test]
fn report_layout_and_order() {
    let today: i64 = 740_000;
    // "beta" had 3 visitors yesterday and 1 the day before and none before that: up for two days.
    let beta_days = vec![
        ViewsForDay { timestamp: (today - 1 - EPOCH_DAY) * DAY, uniques: 3, count: 3 },
        ViewsForDay { timestamp: (today - 2 - EPOCH_DAY) * DAY, uniques: 1, count: 1 },
    ];
    let details = vec![
        repo("alpha", 5, vec![]),
        repo("quiet", 0, vec![]),
        repo("beta", 12, beta_days),
        repo("gamma", 5, vec![]),
    ];
    let out = format_report(&details, Some(today as i32), true);
    let expected = format!(
        "{}{:<38}{:^30}{}\n{:<38}{:^30}{}\n{:<38}{:^30}{}\n\n",
        header(STYLE_BOLD, STYLE_RESET),
        "beta", 12, "Up 2 Days",
        "alpha", 5, "None",
        "gamma", 5, "None",
    );
    assert_eq!(expected, out);
    assert_eq!(vec![2, 0, 3], report_order_of(&details));
}

#[test]
fn report_without_styles() {
    let details = vec![repo("only", 1, vec![])];
    let out = format_report(&details, Some(740_000), false);
    let expected = format!("{}{:<38}{:^30}{}\n\n", header("", ""), "only", 1, "None");
    assert_eq!(expected, out);
    assert!(!out.contains(STYLE_BOLD));
}

#[test]
fn report_long_name_is_not_cut() {
    let name = "a-very-long-repository-name-that-is-wider-than-its-column";
    let details = vec![repo(name, 123456, vec![])];
    let out = format_report(&details, Some(740_000), false);
    let expected = format!("{}{}{:^30}None\n\n", header("", ""), name, 123456);
    assert_eq!(expected, out);
}

#[test]
fn report_with_style_choice() {
    let plain = get_formatted_output_with_style(vec![repo("x", 2, vec![])], false);
    assert!(plain.starts_with(&header("", "")));
    let styled = get_formatted_output_with_style(vec![repo("x", 2, vec![])], true);
    assert!(styled.starts_with(&header(STYLE_BOLD, STYLE_RESET)));
}

#[test]
fn report_order_keeps_list_order_among_equals() {
    let details = vec![
        repo("a", 1, vec![]),
        repo("b", 0, vec![]),
        repo("c", 1, vec![]),
        repo("d", 2, vec![]),
        repo("e", 1, vec![]),
    ];
    assert_eq!(vec![3, 0, 2, 4], report_order_of(&details));
    let none = vec![repo("a", 0, vec![])];
    assert_eq!(Vec::<usize>::new(), report_order_of(&none));
}

#[test]
fn report_without_a_day_shows_no_trend() {
    let today: i64 = 740_000;
    let days = vec![ViewsForDay { timestamp: (today - 1 - EPOCH_DAY) * DAY, uniques: 3, count: 3 }];
    let details = vec![repo("beta", 3, days)];
    let with_day = format_report(&details, Some(today as i32), false);
    assert!(with_day.ends_with("Up 1 Day\n\n"));
    let without_day = format_report(&details, None, false);
    let expected = format!("{}{:<38}{:^30}None\n\n", header("", ""), "beta", 3);
    assert_eq!(expected, without_day);
}

#[test]
fn report_same_for_reordered_list() {
    let today = Some(740_000);
    let a = vec![repo("a", 3, vec![]), repo("b", 7, vec![]), repo("c", 5, vec![])];
    let b = vec![repo("c", 5, vec![]), repo("a", 3, vec![]), repo("b", 7, vec![])];
    assert_eq!(format_report(&a, today, true), format_report(&b, today, true));
}

#[test]
fn report_ignores_repo_without_visitors() {
    let today = Some(740_000);
    let a = vec![repo("a", 3, vec![]), repo("b", 7, vec![])];
    let mut b = vec![repo("a", 3, vec![]), repo("b", 7, vec![])];
    b.push(repo("z", 0, vec![]));
    assert_eq!(format_report(&a, today, true), format_report(&b, today, true));
}

#[test]
fn report_ignores_full_names_and_view_counts() {
    let today = Some(740_000);
    let a = vec![repo("a", 3, vec![])];
    let mut b = vec![repo("a", 3, vec![])];
    b[0].repository.full_name = String::from("someone-else/a");
    b[0].views.count = 999;
    assert_eq!(format_report(&a, today, false), format_report(&b, today, false));
}
