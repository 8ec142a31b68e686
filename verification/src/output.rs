//! The traffic report: the repositories that had visitors, most unique
//! visitors first, each with its trend, laid out in columns.

use vstd::prelude::*;
use crate::github::RepoDetails;
use crate::text::{
    align_center, align_left, decimal, push_centered, push_char, push_decimal_u64,
    push_left_aligned, spaces,
};
use crate::clock::{reading_day, today_from_ce};
use crate::views::{
    is_streak_length, lemma_trend_shape, trend_on, trend_text, uniques_days_ago, Direction, Trend,
};

verus! {

/// Whether repository `a` comes before repository `b` in the report: it had
/// more unique visitors, or as many and it came first in the list.
pub open spec fn ranks_before(s: Seq<RepoDetails>, a: int, b: int) -> bool {
    s[a].views.uniques > s[b].views.uniques || (s[a].views.uniques == s[b].views.uniques && a < b)
}

/// Whether repository `i` had any unique visitor.
pub open spec fn has_traffic(s: Seq<RepoDetails>, i: int) -> bool {
    s[i].views.uniques > 0
}

/// `order` lists the positions in `s` of the repositories that had unique
/// visitors, each of them, in the order of `ranks_before`: by unique
/// visitors, most first, keeping the list's order among equals.
pub open spec fn is_report_order(s: Seq<RepoDetails>, order: Seq<usize>) -> bool {
    &&& forall|i: int| 0 <= i < order.len() ==> #[trigger] order[i] < s.len() && has_traffic(s, order[i] as int)
    &&& forall|j: int| 0 <= j < s.len() && has_traffic(s, j) ==> order.contains(j as usize)
    &&& forall|i: int, k: int|
        0 <= i < k < order.len() ==> ranks_before(s, #[trigger] order[i] as int, #[trigger] order[k] as int)
}

/// The order of the repositories in the report.
pub open spec fn report_order(s: Seq<RepoDetails>) -> Seq<usize> {
    choose|order: Seq<usize>| is_report_order(s, order)
}

proof fn lemma_sorted_unique(s: Seq<RepoDetails>, o1: Seq<usize>, o2: Seq<usize>)
    requires
        forall|i: int| 0 <= i < o1.len() ==> #[trigger] o1[i] < s.len(),
        forall|i: int| 0 <= i < o2.len() ==> #[trigger] o2[i] < s.len(),
        forall|i: int| 0 <= i < o1.len() ==> o2.contains(#[trigger] o1[i]),
        forall|i: int| 0 <= i < o2.len() ==> o1.contains(#[trigger] o2[i]),
        forall|i: int, k: int|
            0 <= i < k < o1.len() ==> ranks_before(s, #[trigger] o1[i] as int, #[trigger] o1[k] as int),
        forall|i: int, k: int|
            0 <= i < k < o2.len() ==> ranks_before(s, #[trigger] o2[i] as int, #[trigger] o2[k] as int),
    ensures
        o1 == o2,
    decreases o1.len() + o2.len(),
{
    if o1.len() == 0 {
        if o2.len() > 0 {
            assert(o1.contains(o2[0]));
        }
        assert(o1 =~= o2);
    } else if o2.len() == 0 {
        assert(o2.contains(o1[0]));
    } else {
        let p = choose|p: int| 0 <= p < o2.len() && o2[p] == o1[0];
        assert(o2.contains(o1[0]));
        let q = choose|q: int| 0 <= q < o1.len() && o1[q] == o2[0];
        assert(o1.contains(o2[0]));
        if p > 0 && q > 0 {
            assert(ranks_before(s, o2[0] as int, o2[p] as int));
            assert(ranks_before(s, o1[0] as int, o1[q] as int));
            assert(false);
        } else if p > 0 {
            assert(ranks_before(s, o2[0] as int, o2[p] as int));
        } else if q > 0 {
            assert(ranks_before(s, o1[0] as int, o1[q] as int));
        }
        assert(o1[0] == o2[0]);
        let r1 = o1.drop_first();
        let r2 = o2.drop_first();
        assert forall|i: int| 0 <= i < r1.len() implies r2.contains(#[trigger] r1[i]) by {
            assert(o1[0] != o1[i + 1]) by {
                assert(ranks_before(s, o1[0] as int, o1[i + 1] as int));
            }
            assert(o2.contains(o1[i + 1]));
            let m = choose|m: int| 0 <= m < o2.len() && o2[m] == o1[i + 1];
            assert(r2[m - 1] == r1[i]);
        }
        assert forall|i: int| 0 <= i < r2.len() implies r1.contains(#[trigger] r2[i]) by {
            assert(o2[0] != o2[i + 1]) by {
                assert(ranks_before(s, o2[0] as int, o2[i + 1] as int));
            }
            assert(o1.contains(o2[i + 1]));
            let m = choose|m: int| 0 <= m < o1.len() && o1[m] == o2[i + 1];
            assert(r1[m - 1] == r2[i]);
        }
        assert forall|i: int, k: int| 0 <= i < k < r1.len() implies ranks_before(
            s,
            #[trigger] r1[i] as int,
            #[trigger] r1[k] as int,
        ) by {
            assert(ranks_before(s, o1[i + 1] as int, o1[k + 1] as int));
        }
        assert forall|i: int, k: int| 0 <= i < k < r2.len() implies ranks_before(
            s,
            #[trigger] r2[i] as int,
            #[trigger] r2[k] as int,
        ) by {
            assert(ranks_before(s, o2[i + 1] as int, o2[k + 1] as int));
        }
        lemma_sorted_unique(s, r1, r2);
        assert(o1 =~= seq![o1[0]] + r1);
        assert(o2 =~= seq![o2[0]] + r2);
    }
}

/// The report lists its repositories in one order only.
pub proof fn lemma_report_order_unique(s: Seq<RepoDetails>, o1: Seq<usize>, o2: Seq<usize>)
    requires
        is_report_order(s, o1),
        is_report_order(s, o2),
    ensures
        o1 == o2,
{
    assert forall|i: int| 0 <= i < o1.len() implies o2.contains(#[trigger] o1[i]) by {
        assert(o1[i] < s.len() && has_traffic(s, o1[i] as int));
    }
    assert forall|i: int| 0 <= i < o2.len() implies o1.contains(#[trigger] o2[i]) by {
        assert(o2[i] < s.len() && has_traffic(s, o2[i] as int));
    }
    lemma_sorted_unique(s, o1, o2);
}

/// `order` is the report order of the first `n` repositories of `s`.
spec fn is_report_order_upto(s: Seq<RepoDetails>, n: int, order: Seq<usize>) -> bool {
    &&& forall|i: int| 0 <= i < order.len() ==> #[trigger] order[i] < n && has_traffic(s, order[i] as int)
    &&& forall|j: int| 0 <= j < n && has_traffic(s, j) ==> order.contains(j as usize)
    &&& forall|i: int, k: int|
        0 <= i < k < order.len() ==> ranks_before(s, #[trigger] order[i] as int, #[trigger] order[k] as int)
}

/// Past position `p` of a report order, where the unique visitors first
/// drop below `u`, they stay below it.
proof fn lemma_below_after(s: Seq<RepoDetails>, order: Seq<usize>, u: u32, p: int)
    requires
        0 <= p <= order.len(),
        forall|i: int, k: int|
            0 <= i < k < order.len() ==> ranks_before(s, #[trigger] order[i] as int, #[trigger] order[k] as int),
        p == order.len() || s[order[p] as int].views.uniques < u,
    ensures
        forall|r: int| p <= r < order.len() ==> s[#[trigger] order[r] as int].views.uniques < u,
{
    assert forall|r: int| p <= r < order.len() implies s[#[trigger] order[r] as int].views.uniques < u by {
        if r > p {
            assert(ranks_before(s, order[p] as int, order[r] as int));
        }
    }
}

/// Inserting repository `j`, which has unique visitors, where the unique
/// visitors of the order first drop below its own, turns the report order of
/// the first `j` repositories into that of the first `j + 1`.
proof fn lemma_insert_into_report_order(s: Seq<RepoDetails>, order: Seq<usize>, j: int, p: int)
    requires
        0 <= j < s.len(),
        j <= usize::MAX,
        has_traffic(s, j),
        is_report_order_upto(s, j, order),
        0 <= p <= order.len(),
        forall|r: int| 0 <= r < p ==> s[#[trigger] order[r] as int].views.uniques >= s[j].views.uniques,
        forall|r: int| p <= r < order.len() ==> s[#[trigger] order[r] as int].views.uniques < s[j].views.uniques,
    ensures
        is_report_order_upto(s, j + 1, order.insert(p, j as usize)),
{
    let u = s[j].views.uniques;
    let o = order.insert(p, j as usize);
    assert forall|i: int| 0 <= i < o.len() implies #[trigger] o[i] < j + 1 && has_traffic(s, o[i] as int) by {
        if i < p {
            assert(o[i] == order[i]);
        } else if i > p {
            assert(o[i] == order[i - 1]);
        }
    }
    assert forall|i: int, k: int| 0 <= i < k < o.len() implies ranks_before(s, #[trigger] o[i] as int, #[trigger] o[k] as int) by {
        if k < p {
            assert(ranks_before(s, order[i] as int, order[k] as int));
        } else if k == p {
            assert(o[i] == order[i]);
            assert(s[order[i] as int].views.uniques >= u);
            assert(order[i] < j);
        } else if i < p {
            assert(o[k] == order[k - 1]);
            assert(ranks_before(s, order[i] as int, order[k - 1] as int));
        } else if i == p {
            assert(o[k] == order[k - 1]);
            assert(s[order[k - 1] as int].views.uniques < u);
        } else {
            assert(ranks_before(s, order[i - 1] as int, order[k - 1] as int));
        }
    }
    assert forall|m: int| 0 <= m < j + 1 && has_traffic(s, m) implies o.contains(m as usize) by {
        if m == j {
            assert(o[p] == j as usize);
        } else {
            assert(order.contains(m as usize));
            let w = choose|w: int| 0 <= w < order.len() && order[w] == m as usize;
            if w < p {
                assert(o[w] == m as usize);
            } else {
                assert(o[w + 1] == m as usize);
            }
        }
    }
}

proof fn lemma_insert_position(s: Seq<RepoDetails>, order: Seq<usize>, u: u32, p: int) -> (q: int)
    requires
        0 <= p <= order.len(),
        forall|i: int| 0 <= i < order.len() ==> #[trigger] order[i] < s.len(),
        forall|i: int, k: int|
            0 <= i < k < order.len() ==> ranks_before(s, #[trigger] order[i] as int, #[trigger] order[k] as int),
        forall|r: int| 0 <= r < p ==> s[#[trigger] order[r] as int].views.uniques >= u,
    ensures
        p <= q <= order.len(),
        forall|r: int| 0 <= r < q ==> s[#[trigger] order[r] as int].views.uniques >= u,
        forall|r: int| q <= r < order.len() ==> s[#[trigger] order[r] as int].views.uniques < u,
    decreases order.len() - p,
{
    if p == order.len() || s[order[p] as int].views.uniques < u {
        lemma_below_after(s, order, u, p);
        p
    } else {
        lemma_insert_position(s, order, u, p + 1)
    }
}

proof fn lemma_report_order_upto(s: Seq<RepoDetails>, n: int) -> (order: Seq<usize>)
    requires
        0 <= n <= s.len(),
        s.len() <= usize::MAX,
    ensures
        is_report_order_upto(s, n, order),
    decreases n,
{
    if n == 0 {
        Seq::empty()
    } else {
        let old_order = lemma_report_order_upto(s, n - 1);
        let j = n - 1;
        if !has_traffic(s, j) {
            old_order
        } else {
            let p = lemma_insert_position(s, old_order, s[j].views.uniques, 0);
            lemma_insert_into_report_order(s, old_order, j, p);
            old_order.insert(p, j as usize)
        }
    }
}

/// Every list of repositories has a report order.
pub proof fn lemma_report_order_exists(s: Seq<RepoDetails>)
    requires
        s.len() <= usize::MAX,
    ensures
        is_report_order(s, report_order(s)),
{
    let o = lemma_report_order_upto(s, s.len() as int);
    assert(is_report_order(s, o));
}

proof fn lemma_rows_text_same_rows(
    s1: Seq<RepoDetails>,
    s2: Seq<RepoDetails>,
    order: Seq<usize>,
    today: Option<i32>,
)
    requires
        forall|i: int|
            0 <= i < order.len() ==> report_row(s1[#[trigger] order[i] as int], today) == report_row(
                s2[order[i] as int],
                today,
            ),
    ensures
        rows_text(s1, order, today) == rows_text(s2, order, today),
    decreases order.len(),
{
    if order.len() > 0 {
        let shorter = order.drop_last();
        assert forall|i: int| 0 <= i < shorter.len() implies report_row(
            s1[#[trigger] shorter[i] as int],
            today,
        ) == report_row(s2[shorter[i] as int], today) by {
            assert(shorter[i] == order[i]);
        }
        lemma_rows_text_same_rows(s1, s2, shorter, today);
        assert(report_row(s1[order[order.len() - 1] as int], today) == report_row(
            s2[order[order.len() - 1] as int],
            today,
        ));
    }
}

/// The report reads of each repository only its name, its unique visitors
/// and its daily views: changing its full name or its counts of views
/// changes nothing.
pub proof fn lemma_report_reads_names_visitors_and_days(
    s: Seq<RepoDetails>,
    q: Seq<RepoDetails>,
    today: Option<i32>,
    styled: bool,
)
    requires
        s.len() == q.len(),
        s.len() <= usize::MAX,
        forall|i: int|
            0 <= i < s.len() ==> (#[trigger] s[i]).repository.name@ == q[i].repository.name@
                && s[i].views.uniques == q[i].views.uniques && s[i].views.views@ == q[i].views.views@,
    ensures
        report_text(q, today, styled) == report_text(s, today, styled),
{
    lemma_report_order_exists(s);
    lemma_report_order_exists(q);
    let o = report_order(s);
    assert forall|i: int| 0 <= i < o.len() implies #[trigger] o[i] < q.len() && has_traffic(q, o[i] as int) by {
        assert(o[i] < s.len() && has_traffic(s, o[i] as int));
        assert(s[o[i] as int].views.uniques == q[o[i] as int].views.uniques);
    }
    assert forall|j: int| 0 <= j < q.len() && has_traffic(q, j) implies o.contains(j as usize) by {
        assert(s[j].views.uniques == q[j].views.uniques);
        assert(has_traffic(s, j));
    }
    assert forall|i: int, k: int| 0 <= i < k < o.len() implies ranks_before(q, #[trigger] o[i] as int, #[trigger] o[k] as int) by {
        assert(ranks_before(s, o[i] as int, o[k] as int));
        assert(o[i] < s.len() && o[k] < s.len());
        assert(s[o[i] as int].views.uniques == q[o[i] as int].views.uniques);
        assert(s[o[k] as int].views.uniques == q[o[k] as int].views.uniques);
    }
    lemma_report_order_unique(q, o, report_order(q));
    assert forall|i: int| 0 <= i < o.len() implies report_row(q[#[trigger] o[i] as int], today) == report_row(
        s[o[i] as int],
        today,
    ) by {
        assert(o[i] < s.len());
        let a = q[o[i] as int];
        let b = s[o[i] as int];
        assert(a.repository.name@ == b.repository.name@);
        assert(a.views.views@ == b.views.views@);
        assert(trend_cell(a, today) == trend_cell(b, today));
    }
    lemma_rows_text_same_rows(q, s, o, today);
}

/// A repository without unique visitors adds nothing to a report that
/// already has repositories.
pub proof fn lemma_report_ignores_repos_without_visitors(
    s: Seq<RepoDetails>,
    z: RepoDetails,
    today: Option<i32>,
    styled: bool,
)
    requires
        s.len() > 0,
        s.len() < usize::MAX,
        z.views.uniques == 0,
    ensures
        report_text(s.push(z), today, styled) == report_text(s, today, styled),
{
    let t = s.push(z);
    lemma_report_order_exists(s);
    lemma_report_order_exists(t);
    let o = report_order(s);
    assert forall|i: int| 0 <= i < o.len() implies #[trigger] o[i] < t.len() && has_traffic(t, o[i] as int) by {
        assert(o[i] < s.len() && has_traffic(s, o[i] as int));
        assert(t[o[i] as int] == s[o[i] as int]);
    }
    assert forall|j: int| 0 <= j < t.len() && has_traffic(t, j) implies o.contains(j as usize) by {
        if j < s.len() {
            assert(t[j] == s[j]);
            assert(has_traffic(s, j));
        } else {
            assert(t[j] == z);
        }
    }
    assert forall|i: int, k: int| 0 <= i < k < o.len() implies ranks_before(t, #[trigger] o[i] as int, #[trigger] o[k] as int) by {
        assert(ranks_before(s, o[i] as int, o[k] as int));
        assert(o[i] < s.len() && o[k] < s.len());
        assert(t[o[i] as int] == s[o[i] as int]);
        assert(t[o[k] as int] == s[o[k] as int]);
    }
    lemma_report_order_unique(t, o, report_order(t));
    assert forall|i: int| 0 <= i < o.len() implies report_row(t[#[trigger] o[i] as int], today) == report_row(
        s[o[i] as int],
        today,
    ) by {
        assert(o[i] < s.len());
        assert(t[o[i] as int] == s[o[i] as int]);
    }
    lemma_rows_text_same_rows(t, s, o, today);
}

/// The repositories at the positions `order`, in that order.
pub open spec fn reported(s: Seq<RepoDetails>, order: Seq<usize>) -> Seq<RepoDetails> {
    order.map_values(|i: usize| s[i as int])
}

/// The lines of the repositories `e`, in their order.
pub open spec fn rows_of(e: Seq<RepoDetails>, today: Option<i32>) -> Seq<char>
    decreases e.len(),
{
    if e.len() == 0 {
        Seq::empty()
    } else {
        rows_of(e.drop_last(), today) + report_row(e.last(), today)
    }
}

proof fn lemma_rows_text_is_rows_of(s: Seq<RepoDetails>, order: Seq<usize>, today: Option<i32>)
    ensures
        rows_text(s, order, today) == rows_of(reported(s, order), today),
    decreases order.len(),
{
    if order.len() > 0 {
        lemma_rows_text_is_rows_of(s, order.drop_last(), today);
        assert(reported(s, order.drop_last()) =~= reported(s, order).drop_last());
    }
}

proof fn lemma_strictly_sorted_unique(e1: Seq<RepoDetails>, e2: Seq<RepoDetails>)
    requires
        forall|i: int, k: int|
            0 <= i < k < e1.len() ==> (#[trigger] e1[i]).views.uniques > (#[trigger] e1[k]).views.uniques,
        forall|i: int, k: int|
            0 <= i < k < e2.len() ==> (#[trigger] e2[i]).views.uniques > (#[trigger] e2[k]).views.uniques,
        forall|i: int| 0 <= i < e1.len() ==> e2.contains(#[trigger] e1[i]),
        forall|i: int| 0 <= i < e2.len() ==> e1.contains(#[trigger] e2[i]),
    ensures
        e1 == e2,
    decreases e1.len() + e2.len(),
{
    if e1.len() == 0 {
        if e2.len() > 0 {
            assert(e1.contains(e2[0]));
        }
        assert(e1 =~= e2);
    } else if e2.len() == 0 {
        assert(e2.contains(e1[0]));
    } else {
        assert(e2.contains(e1[0]));
        assert(e1.contains(e2[0]));
        let p = choose|p: int| 0 <= p < e2.len() && e2[p] == e1[0];
        let q = choose|q: int| 0 <= q < e1.len() && e1[q] == e2[0];
        if p > 0 {
            assert(e2[0].views.uniques > e2[p].views.uniques);
            if q > 0 {
                assert(e1[0].views.uniques > e1[q].views.uniques);
            }
            assert(false);
        }
        let r1 = e1.drop_first();
        let r2 = e2.drop_first();
        assert forall|i: int| 0 <= i < r1.len() implies r2.contains(#[trigger] r1[i]) by {
            assert(e1[0].views.uniques > e1[i + 1].views.uniques);
            assert(e2.contains(e1[i + 1]));
            let m = choose|m: int| 0 <= m < e2.len() && e2[m] == e1[i + 1];
            assert(m != 0);
            assert(r2[m - 1] == r1[i]);
        }
        assert forall|i: int| 0 <= i < r2.len() implies r1.contains(#[trigger] r2[i]) by {
            assert(e2[0].views.uniques > e2[i + 1].views.uniques);
            assert(e1.contains(e2[i + 1]));
            let m = choose|m: int| 0 <= m < e1.len() && e1[m] == e2[i + 1];
            assert(m != 0);
            assert(r1[m - 1] == r2[i]);
        }
        assert forall|i: int, k: int| 0 <= i < k < r1.len() implies (#[trigger] r1[i]).views.uniques > (
        #[trigger] r1[k]).views.uniques by {
            assert(e1[i + 1].views.uniques > e1[k + 1].views.uniques);
        }
        assert forall|i: int, k: int| 0 <= i < k < r2.len() implies (#[trigger] r2[i]).views.uniques > (
        #[trigger] r2[k]).views.uniques by {
            assert(e2[i + 1].views.uniques > e2[k + 1].views.uniques);
        }
        lemma_strictly_sorted_unique(r1, r2);
        assert(e1 =~= seq![e1[0]] + r1);
        assert(e2 =~= seq![e2[0]] + r2);
    }
}

proof fn lemma_reported_strictly_sorted(s: Seq<RepoDetails>, o: Seq<usize>)
    requires
        is_report_order(s, o),
        forall|a: int, b: int|
            0 <= a < s.len() && 0 <= b < s.len() && a != b ==> (#[trigger] s[a]).views.uniques != (
            #[trigger] s[b]).views.uniques,
    ensures
        forall|i: int, k: int|
            0 <= i < k < reported(s, o).len() ==> (#[trigger] reported(s, o)[i]).views.uniques > (
            #[trigger] reported(s, o)[k]).views.uniques,
{
    let e = reported(s, o);
    assert forall|i: int, k: int| 0 <= i < k < e.len() implies (#[trigger] e[i]).views.uniques > (
    #[trigger] e[k]).views.uniques by {
        assert(ranks_before(s, o[i] as int, o[k] as int));
        assert(o[i] < s.len() && o[k] < s.len());
        assert(o[i] != o[k]);
        assert(s[o[i] as int].views.uniques != s[o[k] as int].views.uniques);
    }
}

/// Reordering repositories whose unique visitor counts all differ leaves
/// the report as it is: `p` holds the repositories of `s`, `p[i]` being
/// `s[perm[i]]`, with `perm` a permutation of the positions.
pub proof fn lemma_report_same_for_reordered(
    s: Seq<RepoDetails>,
    p: Seq<RepoDetails>,
    perm: Seq<usize>,
    today: Option<i32>,
    styled: bool,
)
    requires
        s.len() <= usize::MAX,
        p.len() == s.len(),
        perm.len() == s.len(),
        forall|i: int| 0 <= i < perm.len() ==> #[trigger] perm[i] < s.len() && p[i] == s[perm[i] as int],
        forall|a: int, b: int| 0 <= a < b < perm.len() ==> #[trigger] perm[a] != #[trigger] perm[b],
        forall|j: usize| j < s.len() ==> #[trigger] perm.contains(j),
        forall|a: int, b: int|
            0 <= a < s.len() && 0 <= b < s.len() && a != b ==> (#[trigger] s[a]).views.uniques != (
            #[trigger] s[b]).views.uniques,
    ensures
        report_text(p, today, styled) == report_text(s, today, styled),
{
    lemma_report_order_exists(s);
    lemma_report_order_exists(p);
    let os = report_order(s);
    let op = report_order(p);
    let es = reported(s, os);
    let ep = reported(p, op);
    assert forall|a: int, b: int|
        0 <= a < p.len() && 0 <= b < p.len() && a != b implies (#[trigger] p[a]).views.uniques != (
        #[trigger] p[b]).views.uniques by {
        if a < b {
            assert(perm[a] != perm[b]);
        } else {
            assert(perm[b] != perm[a]);
        }
        assert(s[perm[a] as int].views.uniques != s[perm[b] as int].views.uniques);
    }
    lemma_reported_strictly_sorted(s, os);
    lemma_reported_strictly_sorted(p, op);
    assert forall|i: int| 0 <= i < es.len() implies ep.contains(#[trigger] es[i]) by {
        let j = os[i];
        assert(j < s.len() && has_traffic(s, j as int));
        assert(perm.contains(j));
        let w = choose|w: int| 0 <= w < perm.len() && perm[w] == j;
        assert(p[w] == s[j as int]);
        assert(has_traffic(p, w));
        assert(op.contains(w as usize));
        let m = choose|m: int| 0 <= m < op.len() && op[m] == w as usize;
        assert(ep[m] == p[w]);
    }
    assert forall|i: int| 0 <= i < ep.len() implies es.contains(#[trigger] ep[i]) by {
        let w = op[i];
        assert(w < p.len() && has_traffic(p, w as int));
        let j = perm[w as int];
        assert(p[w as int] == s[j as int]);
        assert(has_traffic(s, j as int));
        assert(os.contains(j));
        let m = choose|m: int| 0 <= m < os.len() && os[m] == j;
        assert(es[m] == s[j as int]);
    }
    lemma_strictly_sorted_unique(es, ep);
    lemma_rows_text_is_rows_of(s, os, today);
    lemma_rows_text_is_rows_of(p, op, today);
    assert(os.len() == es.len());
    assert(op.len() == ep.len());
}

/// The positions of the repositories that had unique visitors, in the order
/// of the report.
pub fn report_order_of(details: &Vec<RepoDetails>) -> (order: Vec<usize>)
    ensures
        is_report_order(details@, order@),
        order@ == report_order(details@),
{
    let ghost s = details@;
    let mut order: Vec<usize> = Vec::new();
    let n = details.len();
    let mut j: usize = 0;
    while j < n
        invariant
            n == s.len(),
            s == details@,
            j <= n,
            is_report_order_upto(s, j as int, order@),
        decreases n - j,
    {
        let u = details[j].views.uniques;
        if u > 0 {
            let mut p: usize = 0;
            while p < order.len() && details[order[p]].views.uniques >= u
                invariant
                    s == details@,
                    j < n,
                    n == s.len(),
                    u == s[j as int].views.uniques,
                    p <= order@.len(),
                    is_report_order_upto(s, j as int, order@),
                    forall|q: int| 0 <= q < p ==> s[#[trigger] order@[q] as int].views.uniques >= u,
                decreases order@.len() - p,
            {
                p = p + 1;
            }
            proof {
                lemma_below_after(s, order@, u, p as int);
                lemma_insert_into_report_order(s, order@, j as int, p as int);
            }
            order.insert(p, j);
        }
        j = j + 1;
    }
    proof {
        let c = choose|o: Seq<usize>| is_report_order(s, o);
        assert(is_report_order(s, order@));
        lemma_report_order_unique(s, c, order@);
    }
    order
}

/// The report when there are no repositories at all.
pub const NO_REPOS_FOUND: &'static str = "\nNo Github repositories were found :(\n";

/// The report when no repository had a unique visitor.
pub const NO_TRAFFIC: &'static str = "\nLooks like your repos haven't had any traffic lately. Go spread the word and check back later!\n";

/// The ANSI escape sequence that turns on bold text.
pub const STYLE_BOLD: &'static str = "\x1B[1m";

/// The ANSI escape sequence that turns text styles off.
pub const STYLE_RESET: &'static str = "\x1B[0m";

/// The width of the column of repository names.
pub const REPO_NAME_WIDTH: usize = 38;

/// The width of the column of unique visitors.
pub const UNIQUE_VISITS_WIDTH: usize = 30;

/// The escape sequence that starts the header, when styles are used.
pub open spec fn style_on(styled: bool) -> Seq<char> {
    if styled {
        STYLE_BOLD@
    } else {
        Seq::empty()
    }
}

/// The escape sequence that ends the header, when styles are used.
pub open spec fn style_off(styled: bool) -> Seq<char> {
    if styled {
        STYLE_RESET@
    } else {
        Seq::empty()
    }
}

/// The header of the report: an empty line, then (in bold, where styles are
/// used) the titles of the three columns and, under the second one, the
/// period it covers, then an empty line.
pub open spec fn header_text(styled: bool) -> Seq<char> {
    seq!['\n'] + style_on(styled) + align_left("Repository Name"@, REPO_NAME_WIDTH as nat)
        + align_center("Unique Visits"@, UNIQUE_VISITS_WIDTH as nat) + "Trend"@ + seq!['\n']
        + spaces(REPO_NAME_WIDTH as nat) + align_center(
        "(last 14 days)"@,
        UNIQUE_VISITS_WIDTH as nat,
    ) + seq!['\n'] + style_off(styled) + seq!['\n']
}

/// The trend column of a repository as seen on day `today`: the trend's
/// text, or `None` when there is no trend or no day to see it from.
pub open spec fn trend_cell(d: RepoDetails, today: Option<i32>) -> Seq<char> {
    match today {
        Some(t) => match trend_on(d.views.views@, t as int) {
            Some(trend) => trend_text(trend),
            None => "None"@,
        },
        None => "None"@,
    }
}

/// The line of one repository: its name, its unique visitors centered, its
/// trend.
pub open spec fn report_row(d: RepoDetails, today: Option<i32>) -> Seq<char> {
    align_left(d.repository.name@, REPO_NAME_WIDTH as nat) + align_center(
        decimal(d.views.uniques as int),
        UNIQUE_VISITS_WIDTH as nat,
    ) + trend_cell(d, today) + seq!['\n']
}

/// The lines of the repositories at the positions `order`, in that order.
pub open spec fn rows_text(s: Seq<RepoDetails>, order: Seq<usize>, today: Option<i32>) -> Seq<char>
    decreases order.len(),
{
    if order.len() == 0 {
        Seq::empty()
    } else {
        rows_text(s, order.drop_last(), today) + report_row(s[order.last() as int], today)
    }
}

/// The report on the repositories `s` as seen on day `today`: a message of
/// its own when there are no repositories, another when none had unique
/// visitors, and otherwise the header, the line of each repository that had
/// some in the report's order, and an empty line.
pub open spec fn report_text(s: Seq<RepoDetails>, today: Option<i32>, styled: bool) -> Seq<char> {
    if s.len() == 0 {
        NO_REPOS_FOUND@
    } else if report_order(s).len() == 0 {
        NO_TRAFFIC@
    } else {
        header_text(styled) + rows_text(s, report_order(s), today) + seq!['\n']
    }
}

/// On a day when a repository's unique visitors yesterday differ from those
/// of the day before (a fall to none counts), its line shows a trend: the
/// name, the unique visitors, then the text of a trend that goes up exactly
/// when yesterday had more, and lasts as long as the visitors kept moving
/// that way.
pub proof fn lemma_row_shows_trend(d: RepoDetails, today: i32)
    requires
        uniques_days_ago(d.views.views@, today as int, 1) != uniques_days_ago(d.views.views@, today as int, 2),
    ensures
        exists|t: Trend|
            {
                &&& (t.direction == Direction::UP <==> uniques_days_ago(d.views.views@, today as int, 1)
                    > uniques_days_ago(d.views.views@, today as int, 2))
                &&& is_streak_length(
                    d.views.views@,
                    today as int,
                    t.direction == Direction::UP,
                    t.duration_days as int,
                )
                &&& report_row(d, Some(today)) == align_left(d.repository.name@, REPO_NAME_WIDTH as nat)
                    + align_center(decimal(d.views.uniques as int), UNIQUE_VISITS_WIDTH as nat)
                    + #[trigger] trend_text(t) + seq!['\n']
            },
{
    lemma_trend_shape(d.views.views@, today as int);
    let t = trend_on(d.views.views@, today as int)->0;
    assert(trend_cell(d, Some(today)) == trend_text(t));
}

/// On a day when a repository's unique visitors yesterday equal those of the
/// day before, or when there is no day, its line ends with `None`.
pub proof fn lemma_row_without_trend(d: RepoDetails, today: Option<i32>)
    requires
        today matches Some(t) ==> uniques_days_ago(d.views.views@, t as int, 1) == uniques_days_ago(
            d.views.views@,
            t as int,
            2,
        ),
    ensures
        report_row(d, today) == align_left(d.repository.name@, REPO_NAME_WIDTH as nat) + align_center(
            decimal(d.views.uniques as int),
            UNIQUE_VISITS_WIDTH as nat,
        ) + "None"@ + seq!['\n'],
{
    if let Some(t) = today {
        lemma_trend_shape(d.views.views@, t as int);
    }
}

/// Appends the header of the report.
fn push_header(out: &mut String, styled: bool)
    ensures
        final(out)@ == old(out)@ + header_text(styled),
{
    push_char(out, '\n');
    if styled {
        out.append(STYLE_BOLD);
    }
    push_left_aligned(out, "Repository Name", REPO_NAME_WIDTH);
    push_centered(out, "Unique Visits", UNIQUE_VISITS_WIDTH);
    out.append("Trend");
    push_char(out, '\n');
    push_left_aligned(out, "", REPO_NAME_WIDTH);
    push_centered(out, "(last 14 days)", UNIQUE_VISITS_WIDTH);
    push_char(out, '\n');
    if styled {
        out.append(STYLE_RESET);
    }
    push_char(out, '\n');
    proof {
        reveal_strlit("");
        assert(align_left(""@, REPO_NAME_WIDTH as nat) =~= spaces(REPO_NAME_WIDTH as nat));
    }
    assert(final(out)@ =~= old(out)@ + header_text(styled));
}

/// Appends the line of one repository as seen on day `today`.
fn push_row(out: &mut String, d: &RepoDetails, today: Option<i32>)
    ensures
        final(out)@ == old(out)@ + report_row(*d, today),
{
    push_left_aligned(out, d.repository.name.as_str(), REPO_NAME_WIDTH);
    let mut number = String::new();
    push_decimal_u64(&mut number, d.views.uniques as u64);
    push_centered(out, number.as_str(), UNIQUE_VISITS_WIDTH);
    let trend = match today {
        Some(t) => d.views.trend_uniques_on(t),
        None => None,
    };
    match trend {
        Some(t) => {
            let text = t.display_text();
            out.append(text.as_str());
        },
        None => {
            out.append("None");
        },
    }
    push_char(out, '\n');
}

/// The report on `repo_details` as seen on day `today` (a day number from
/// the start of the era; with no day, no trend is shown), with the header in
/// bold when `styled`.
pub fn format_report(repo_details: &Vec<RepoDetails>, today: Option<i32>, styled: bool) -> (out: String)
    ensures
        out@ == report_text(repo_details@, today, styled),
{
    if repo_details.len() == 0 {
        return String::from_str(NO_REPOS_FOUND);
    }
    let order = report_order_of(repo_details);
    if order.len() == 0 {
        return String::from_str(NO_TRAFFIC);
    }
    let ghost s = repo_details@;
    let mut out = String::new();
    push_header(&mut out, styled);
    let ghost head = out@;
    let mut k: usize = 0;
    while k < order.len()
        invariant
            s == repo_details@,
            order@ == report_order(s),
            is_report_order(s, order@),
            k <= order@.len(),
            out@ == head + rows_text(s, order@.take(k as int), today),
        decreases order@.len() - k,
    {
        let i = order[k];
        push_row(&mut out, &repo_details[i], today);
        assert(order@.take(k as int + 1).drop_last() =~= order@.take(k as int));
        k = k + 1;
    }
    assert(order@.take(order@.len() as int) =~= order@);
    push_char(&mut out, '\n');
    out
}

/// The report on `repo_details` as seen today, with the header in bold
/// when `styled` (ANSI escape sequences, which not every terminal shows).
/// When the system clock gives no day that the calendar holds, the report
/// shows no trends.
pub fn get_formatted_output_with_style(repo_details: Vec<RepoDetails>, styled: bool) -> (out: String)
    ensures
        exists|today: Option<i32>| out@ == #[trigger] report_text(repo_details@, today, styled),
        exists|after: bool, secs: u64, nanos: u32|
            nanos < 1_000_000_000 && out@ == report_text(
                repo_details@,
                #[trigger] reading_day(after, secs, nanos),
                styled,
            ),
{
    let today = today_from_ce();
    format_report(&repo_details, today, styled)
}

/// The report on `repo_details` as seen today, with its header in bold:
/// the form for terminals that show ANSI escape sequences (not the Windows
/// console, for which `get_formatted_output_with_style` with `styled` false
/// gives the plain form).
pub fn get_formatted_output(repo_details: Vec<RepoDetails>) -> (out: String)
    ensures
        exists|today: Option<i32>| out@ == #[trigger] report_text(repo_details@, today, true),
        exists|after: bool, secs: u64, nanos: u32|
            nanos < 1_000_000_000 && out@ == report_text(
                repo_details@,
                #[trigger] reading_day(after, secs, nanos),
                true,
            ),
{
    get_formatted_output_with_style(repo_details, true)
}

} // verus!
