//! What the program asks the GitHub API for, when it stops asking for more
//! pages of repositories, and how the answers about each repository's
//! traffic are paired with the repositories.

use vstd::prelude::*;
use crate::text::{decimal, push_decimal_u64};
use crate::views::ViewsForTwoWeeks;

verus! {

/// The most repositories the GitHub API puts on one page.
pub const MAX_REPOS_PER_PAGE: usize = 100;

/// The most pages of repositories that are asked for (GitHub limits the
/// requests a user may make in an hour).
pub const MAX_PAGES: u32 = 15;

/// The first page of repositories.
pub const FIRST_PAGE: u32 = 1;

/// A repository of the user, as the API lists it.
#[derive(Debug)]
pub struct Repository {
    pub full_name: String,
    pub name: String,
}

/// A repository together with its traffic.
#[derive(Debug)]
pub struct RepoDetails {
    pub repository: Repository,
    pub views: ViewsForTwoWeeks,
}

/// The address of page `page` of the user's own repositories, most
/// recently updated first, `MAX_REPOS_PER_PAGE` to a page.
pub open spec fn repos_page_url_text(page: u32) -> Seq<char> {
    "https://api.github.com/user/repos?sort=updated&affiliation=owner&per_page="@ + decimal(
        MAX_REPOS_PER_PAGE as int,
    ) + "&page="@ + decimal(page as int)
}

/// The address of the traffic of the repository named `full_name`
/// (`owner/name`).
pub open spec fn traffic_url_text(full_name: Seq<char>) -> Seq<char> {
    "https://api.github.com/repos/"@ + full_name + "/traffic/views"@
}

/// The page to ask for after page `page` held `repos_on_page`
/// repositories: the next one while the page was full and the limit of
/// pages is not reached, none otherwise.
pub open spec fn next_page_after(page: u32, repos_on_page: nat) -> Option<u32> {
    if repos_on_page < MAX_REPOS_PER_PAGE || page >= MAX_PAGES {
        None
    } else {
        Some((page + 1) as u32)
    }
}

/// The repositories whose traffic came back, each with its traffic, in the
/// order of the repositories; the answers are paired with the repositories
/// one by one, as far as both lists go.
pub open spec fn paired_details<E>(
    answers: Seq<Result<ViewsForTwoWeeks, E>>,
    repos: Seq<Repository>,
) -> Seq<RepoDetails>
    decreases repos.len(),
{
    if answers.len() == 0 || repos.len() == 0 {
        Seq::empty()
    } else {
        let rest = paired_details(answers.drop_first(), repos.drop_first());
        match answers[0] {
            Ok(v) => seq![RepoDetails { repository: repos[0], views: v }] + rest,
            Err(_) => rest,
        }
    }
}

/// The repositories whose traffic could not be had, each with its error, in
/// the order of the repositories, paired as in `paired_details`.
pub open spec fn failed_fetches<E>(
    answers: Seq<Result<ViewsForTwoWeeks, E>>,
    repos: Seq<Repository>,
) -> Seq<(Repository, E)>
    decreases repos.len(),
{
    if answers.len() == 0 || repos.len() == 0 {
        Seq::empty()
    } else {
        let rest = failed_fetches(answers.drop_first(), repos.drop_first());
        match answers[0] {
            Ok(_) => rest,
            Err(e) => seq![(repos[0], e)] + rest,
        }
    }
}

/// `details` holds, in the order of the list, each repository whose answer
/// came back with its traffic, paired with that traffic: `at[k]` is the
/// position in the lists of the `k`-th of them, the positions rise, and
/// every position that both lists reach and whose answer is a success is
/// among them.
pub open spec fn successes_in_order<E>(
    answers: Seq<Result<ViewsForTwoWeeks, E>>,
    repos: Seq<Repository>,
    details: Seq<RepoDetails>,
    at: Seq<int>,
) -> bool {
    &&& at.len() == details.len()
    &&& forall|k: int|
        0 <= k < at.len() ==> 0 <= #[trigger] at[k] < answers.len() && at[k] < repos.len()
            && answers[at[k]] is Ok && details[k] == (RepoDetails {
            repository: repos[at[k]],
            views: answers[at[k]]->Ok_0,
        })
    &&& forall|a: int, b: int| 0 <= a < b < at.len() ==> #[trigger] at[a] < #[trigger] at[b]
    &&& forall|i: int| 0 <= i < answers.len() && i < repos.len() && (#[trigger] answers[i]) is Ok ==> at.contains(i)
}

/// `failures` holds, in the order of the list, each repository whose answer
/// is an error, paired with that error, positioned as in
/// `successes_in_order`.
pub open spec fn failures_in_order<E>(
    answers: Seq<Result<ViewsForTwoWeeks, E>>,
    repos: Seq<Repository>,
    failures: Seq<(Repository, E)>,
    at: Seq<int>,
) -> bool {
    &&& at.len() == failures.len()
    &&& forall|k: int|
        0 <= k < at.len() ==> 0 <= #[trigger] at[k] < answers.len() && at[k] < repos.len()
            && answers[at[k]] is Err && failures[k] == (repos[at[k]], answers[at[k]]->Err_0)
    &&& forall|a: int, b: int| 0 <= a < b < at.len() ==> #[trigger] at[a] < #[trigger] at[b]
    &&& forall|i: int| 0 <= i < answers.len() && i < repos.len() && (#[trigger] answers[i]) is Err ==> at.contains(i)
}

/// The repositories whose traffic came back are those of the list, in its
/// order, each with its own answer.
pub proof fn lemma_details_follow_the_list<E>(
    answers: Seq<Result<ViewsForTwoWeeks, E>>,
    repos: Seq<Repository>,
) -> (at: Seq<int>)
    ensures
        successes_in_order(answers, repos, paired_details(answers, repos), at),
    decreases repos.len(),
{
    if answers.len() == 0 || repos.len() == 0 {
        Seq::empty()
    } else {
        let ra = answers.drop_first();
        let rr = repos.drop_first();
        let rest_at = lemma_details_follow_the_list(ra, rr);
        let rest = paired_details(ra, rr);
        let shifted = rest_at.map_values(|i: int| i + 1);
        let d = paired_details(answers, repos);
        let at = if answers[0] is Ok { seq![0int] + shifted } else { shifted };
        let off: int = if answers[0] is Ok { 1 } else { 0 };
        assert forall|k: int| 0 <= k < at.len() implies 0 <= #[trigger] at[k] < answers.len() && at[k]
            < repos.len() && answers[at[k]] is Ok && d[k] == (RepoDetails {
            repository: repos[at[k]],
            views: answers[at[k]]->Ok_0,
        }) by {
            if k >= off {
                assert(at[k] == rest_at[k - off] + 1);
                assert(ra[rest_at[k - off]] == answers[at[k]]);
                assert(rr[rest_at[k - off]] == repos[at[k]]);
                assert(d[k] == rest[k - off]);
            }
        }
        assert forall|a: int, b: int| 0 <= a < b < at.len() implies #[trigger] at[a] < #[trigger] at[b] by {
            if a >= off {
                assert(rest_at[a - off] < rest_at[b - off]);
            } else {
                assert(at[b] == rest_at[b - off] + 1);
            }
        }
        assert forall|i: int| 0 <= i < answers.len() && i < repos.len() && (#[trigger] answers[i]) is Ok implies at.contains(i) by {
            if i == 0 {
                assert(at[0] == 0);
            } else {
                assert(ra[i - 1] == answers[i]);
                assert(rest_at.contains(i - 1));
                let w = choose|w: int| 0 <= w < rest_at.len() && rest_at[w] == i - 1;
                assert(at[w + off] == i);
            }
        }
        at
    }
}

/// The repositories whose request failed are those of the list, in its
/// order, each with its own error.
pub proof fn lemma_failures_follow_the_list<E>(
    answers: Seq<Result<ViewsForTwoWeeks, E>>,
    repos: Seq<Repository>,
) -> (at: Seq<int>)
    ensures
        failures_in_order(answers, repos, failed_fetches(answers, repos), at),
    decreases repos.len(),
{
    if answers.len() == 0 || repos.len() == 0 {
        Seq::empty()
    } else {
        let ra = answers.drop_first();
        let rr = repos.drop_first();
        let rest_at = lemma_failures_follow_the_list(ra, rr);
        let rest = failed_fetches(ra, rr);
        let shifted = rest_at.map_values(|i: int| i + 1);
        let f = failed_fetches(answers, repos);
        let at = if answers[0] is Err { seq![0int] + shifted } else { shifted };
        let off: int = if answers[0] is Err { 1 } else { 0 };
        assert forall|k: int| 0 <= k < at.len() implies 0 <= #[trigger] at[k] < answers.len() && at[k]
            < repos.len() && answers[at[k]] is Err && f[k] == (repos[at[k]], answers[at[k]]->Err_0) by {
            if k >= off {
                assert(at[k] == rest_at[k - off] + 1);
                assert(ra[rest_at[k - off]] == answers[at[k]]);
                assert(rr[rest_at[k - off]] == repos[at[k]]);
                assert(f[k] == rest[k - off]);
            }
        }
        assert forall|a: int, b: int| 0 <= a < b < at.len() implies #[trigger] at[a] < #[trigger] at[b] by {
            if a >= off {
                assert(rest_at[a - off] < rest_at[b - off]);
            } else {
                assert(at[b] == rest_at[b - off] + 1);
            }
        }
        assert forall|i: int| 0 <= i < answers.len() && i < repos.len() && (#[trigger] answers[i]) is Err implies at.contains(i) by {
            if i == 0 {
                assert(at[0] == 0);
            } else {
                assert(ra[i - 1] == answers[i]);
                assert(rest_at.contains(i - 1));
                let w = choose|w: int| 0 <= w < rest_at.len() && rest_at[w] == i - 1;
                assert(at[w + off] == i);
            }
        }
        at
    }
}

/// The address of page `page` of the user's own repositories.
pub fn repos_page_url(page: u32) -> (url: String)
    ensures
        url@ == repos_page_url_text(page),
{
    let mut url = String::from_str(
        "https://api.github.com/user/repos?sort=updated&affiliation=owner&per_page=",
    );
    push_decimal_u64(&mut url, MAX_REPOS_PER_PAGE as u64);
    url.append("&page=");
    push_decimal_u64(&mut url, page as u64);
    url
}

/// The address of the traffic of the repository named `full_name`.
pub fn traffic_url(full_name: &str) -> (url: String)
    ensures
        url@ == traffic_url_text(full_name@),
{
    let mut url = String::from_str("https://api.github.com/repos/");
    url.append(full_name);
    url.append("/traffic/views");
    url
}

/// The page to ask for after page `page` held `repos_on_page`
/// repositories, if any.
pub fn next_page(page: u32, repos_on_page: usize) -> (next: Option<u32>)
    ensures
        next == next_page_after(page, repos_on_page as nat),
{
    if repos_on_page < MAX_REPOS_PER_PAGE || page >= MAX_PAGES {
        None
    } else {
        Some(page + 1)
    }
}

/// Pairs the answers about the repositories' traffic with the repositories,
/// one by one: the repositories whose traffic came back, with it, and those
/// whose request failed, with the error.
pub fn collect_repo_details<E>(
    answers: Vec<Result<ViewsForTwoWeeks, E>>,
    repos: Vec<Repository>,
) -> (r: (Vec<RepoDetails>, Vec<(Repository, E)>))
    ensures
        r.0@ == paired_details(answers@, repos@),
        r.1@ == failed_fetches(answers@, repos@),
        exists|at: Seq<int>| #[trigger] successes_in_order(answers@, repos@, r.0@, at),
        exists|at: Seq<int>| #[trigger] failures_in_order(answers@, repos@, r.1@, at),
{
    let ghost all_answers = answers@;
    let ghost all_repos = repos@;
    let mut answers_left = answers;
    let mut repos_left = repos;
    let mut details: Vec<RepoDetails> = Vec::new();
    let mut failures: Vec<(Repository, E)> = Vec::new();
    while answers_left.len() > 0 && repos_left.len() > 0
        invariant
            paired_details(all_answers, all_repos) == details@ + paired_details(answers_left@, repos_left@),
            failed_fetches(all_answers, all_repos) == failures@ + failed_fetches(answers_left@, repos_left@),
        decreases repos_left@.len(),
    {
        let answer = answers_left.remove(0);
        let repository = repos_left.remove(0);
        match answer {
            Ok(views) => {
                details.push(RepoDetails { repository, views });
            },
            Err(e) => {
                failures.push((repository, e));
            },
        }
    }
    let r = (details, failures);
    proof {
        let s_at = lemma_details_follow_the_list(all_answers, all_repos);
        let f_at = lemma_failures_follow_the_list(all_answers, all_repos);
        assert(successes_in_order(all_answers, all_repos, r.0@, s_at));
        assert(failures_in_order(all_answers, all_repos, r.1@, f_at));
    }
    r
}

/// Every repository that has an answer is accounted for once: either with
/// its traffic or with its error.
pub proof fn lemma_every_answer_accounted_for<E>(
    answers: Seq<Result<ViewsForTwoWeeks, E>>,
    repos: Seq<Repository>,
)
    ensures
        paired_details(answers, repos).len() + failed_fetches(answers, repos).len() == if answers.len()
            < repos.len() {
            answers.len()
        } else {
            repos.len()
        },
    decreases repos.len(),
{
    if answers.len() > 0 && repos.len() > 0 {
        lemma_every_answer_accounted_for(answers.drop_first(), repos.drop_first());
    }
}

} // verus!
