//! The history inference engine: scores candidate owners for a file from
//! blame or commit-log attribution, filters them by activity and share
//! thresholds, and derives a confidence for the leading candidate.
//!
//! Scores and the confidence are exact integers in thousandths, so the
//! scoring model is arithmetic the verifier checks: the line strategy
//! scores a thousand per attributed line, the commit strategy a thousand
//! per touching commit, and the recency strategy decays line scores by
//! `30 / (30 + days)` with a floor of one tenth.

use vstd::prelude::*;

use crate::types::Owner;
use crate::types::OwnerV;

verus! {

/// Which files inference considers.
#[derive(Clone, Copy, Debug, PartialEq, Eq, Structural)]
pub enum InferScope {
    All,
    Unowned,
}

/// How contributions are scored.
#[derive(Clone, Copy, Debug, PartialEq, Eq, Structural)]
pub enum InferAlgorithm {
    Commits,
    Lines,
    Recent,
}

/// Mathematical value of a [`Contribution`].
#[verifier::ext_equal]
pub ghost struct ContributionV {
    pub email: Seq<char>,
    pub lines: u32,
    pub days_ago: u32,
}

/// One unit of attribution from history: a blame hunk (with its line
/// count) or a touching commit (with zero lines), by author email, with
/// the commit's age in days.
pub struct Contribution {
    pub email: String,
    pub lines: u32,
    pub days_ago: u32,
}

impl View for Contribution {
    type V = ContributionV;

    open spec fn view(&self) -> ContributionV {
        ContributionV { email: self.email@, lines: self.lines, days_ago: self.days_ago }
    }
}

impl DeepView for Contribution {
    type V = ContributionV;

    open spec fn deep_view(&self) -> ContributionV {
        self.view()
    }
}

/// Mathematical value of an [`InferredOwner`].
#[verifier::ext_equal]
pub ghost struct InferredOwnerV {
    pub email: Seq<char>,
    pub username: Option<Seq<char>>,
    pub score_milli: u64,
    pub commits: u64,
    pub lines: u64,
    pub last_commit_days_ago: u32,
}

/// One candidate owner of a file, with its score in thousandths.
pub struct InferredOwner {
    pub email: String,
    pub username: Option<String>,
    pub score_milli: u64,
    pub commits: u64,
    pub lines: u64,
    pub last_commit_days_ago: u32,
}

impl View for InferredOwner {
    type V = InferredOwnerV;

    open spec fn view(&self) -> InferredOwnerV {
        InferredOwnerV {
            email: self.email@,
            username: match self.username {
                Some(ref u) => Some(u@),
                None => None,
            },
            score_milli: self.score_milli,
            commits: self.commits,
            lines: self.lines,
            last_commit_days_ago: self.last_commit_days_ago,
        }
    }
}

impl DeepView for InferredOwner {
    type V = InferredOwnerV;

    open spec fn deep_view(&self) -> InferredOwnerV {
        self.view()
    }
}

impl Clone for InferredOwner {
    fn clone(&self) -> (r: InferredOwner)
        ensures
            r@ == self@,
    {
        let username = match &self.username {
            Some(u) => Some(u.clone()),
            None => None,
        };
        InferredOwner {
            email: self.email.clone(),
            username,
            score_milli: self.score_milli,
            commits: self.commits,
            lines: self.lines,
            last_commit_days_ago: self.last_commit_days_ago,
        }
    }
}

/// Mathematical value of a [`FileOwnershipInference`].
#[verifier::ext_equal]
pub ghost struct FileInferenceV {
    pub file_path: Seq<char>,
    pub inferred_owners: Seq<InferredOwnerV>,
    pub confidence_milli: u32,
    pub existing_owners: Seq<OwnerV>,
}

/// The inference result for one file: its surviving candidates sorted by
/// score, a confidence in thousandths, and the owners the rules already
/// assign it.
pub struct FileOwnershipInference {
    pub file_path: String,
    pub inferred_owners: Vec<InferredOwner>,
    pub confidence_milli: u32,
    pub existing_owners: Vec<Owner>,
}

impl View for FileOwnershipInference {
    type V = FileInferenceV;

    open spec fn view(&self) -> FileInferenceV {
        FileInferenceV {
            file_path: self.file_path@,
            inferred_owners: self.inferred_owners.deep_view(),
            confidence_milli: self.confidence_milli,
            existing_owners: self.existing_owners.deep_view(),
        }
    }
}

impl DeepView for FileOwnershipInference {
    type V = FileInferenceV;

    open spec fn deep_view(&self) -> FileInferenceV {
        self.view()
    }
}

/// Total line count of all contributions.
pub open spec fn total_lines(items: Seq<ContributionV>) -> int
    decreases items.len(),
{
    if items.len() == 0 {
        0
    } else {
        items[0].lines + total_lines(items.drop_first())
    }
}

/// Line count attributed to one email.
pub open spec fn sum_lines(items: Seq<ContributionV>, email: Seq<char>) -> int
    decreases items.len(),
{
    if items.len() == 0 {
        0
    } else {
        (if items[0].email == email {
            items[0].lines as int
        } else {
            0
        }) + sum_lines(items.drop_first(), email)
    }
}

/// Number of contributions by one email.
pub open spec fn count_items(items: Seq<ContributionV>, email: Seq<char>) -> int
    decreases items.len(),
{
    if items.len() == 0 {
        0
    } else {
        (if items[0].email == email {
            1int
        } else {
            0int
        }) + count_items(items.drop_first(), email)
    }
}

/// Days since the most recent contribution by one email (the maximum
/// value when there is none).
pub open spec fn min_days(items: Seq<ContributionV>, email: Seq<char>) -> int
    decreases items.len(),
{
    if items.len() == 0 {
        u32::MAX as int
    } else {
        let rest = min_days(items.drop_first(), email);
        if items[0].email == email && items[0].days_ago < rest {
            items[0].days_ago as int
        } else {
            rest
        }
    }
}

/// One contribution more changes each email's totals by exactly its own
/// share.
proof fn lemma_agg_snoc(items: Seq<ContributionV>, x: ContributionV, email: Seq<char>)
    ensures
        sum_lines(items.push(x), email) == sum_lines(items, email) + (if x.email == email {
            x.lines as int
        } else {
            0
        }),
        count_items(items.push(x), email) == count_items(items, email) + (if x.email == email {
            1int
        } else {
            0int
        }),
        min_days(items.push(x), email) == (if x.email == email && (x.days_ago as int) < min_days(
            items,
            email,
        ) {
            x.days_ago as int
        } else {
            min_days(items, email)
        }),
        total_lines(items.push(x)) == total_lines(items) + x.lines,
    decreases items.len(),
{
    if items.len() == 0 {
        assert(items.push(x).drop_first() =~= Seq::<ContributionV>::empty());
        assert(items.push(x)[0] == x);
        assert(sum_lines(Seq::<ContributionV>::empty(), email) == 0);
        assert(count_items(Seq::<ContributionV>::empty(), email) == 0);
        assert(min_days(Seq::<ContributionV>::empty(), email) == u32::MAX as int);
        assert(total_lines(Seq::<ContributionV>::empty()) == 0);
    } else {
        lemma_agg_snoc(items.drop_first(), x, email);
        assert(items.push(x).drop_first() =~= items.drop_first().push(x));
        assert(items.push(x)[0] == items[0]);
    }
}

/// A single email's lines never exceed the total, and its count never
/// exceeds the number of contributions.
proof fn lemma_agg_bounds(items: Seq<ContributionV>, email: Seq<char>)
    ensures
        0 <= sum_lines(items, email) <= total_lines(items),
        0 <= count_items(items, email) <= items.len(),
        0 <= min_days(items, email) <= u32::MAX,
    decreases items.len(),
{
    if items.len() > 0 {
        lemma_agg_bounds(items.drop_first(), email);
    }
}

/// The aggregated record of one email over a list of contributions.
pub open spec fn aggregated_entry(
    items: Seq<ContributionV>,
    email: Seq<char>,
    o: InferredOwnerV,
) -> bool {
    &&& o.email == email
    &&& o.username is None
    &&& o.score_milli == 0
    &&& o.lines == sum_lines(items, email)
    &&& o.commits == count_items(items, email)
    &&& o.last_commit_days_ago == min_days(items, email)
}

/// What aggregation yields: one record per contributing email, exact.
pub open spec fn aggregation_exact(items: Seq<ContributionV>, out: Seq<InferredOwnerV>) -> bool {
    &&& forall|a: int, b: int|
        0 <= a < b < out.len() ==> (#[trigger] out[a]).email != (#[trigger] out[b]).email
    &&& forall|k: int| 0 <= k < out.len() ==> aggregated_entry(items, (#[trigger] out[k]).email, out[k])
    &&& forall|k: int| 0 <= k < out.len() ==> count_items(items, (#[trigger] out[k]).email) >= 1
    &&& forall|e: Seq<char>|
        count_items(items, e) >= 1 ==> exists|k: int|
            0 <= k < out.len() && (#[trigger] out[k]).email == e
}

/// Aggregates contributions per author email: the attributed lines, the
/// number of contributions and the most recent age, exactly. Scores are
/// assigned afterwards by the chosen strategy.
pub fn aggregate_contributions(items: &Vec<Contribution>) -> (out: Vec<InferredOwner>)
    requires
        total_lines(items.deep_view()) <= u64::MAX,
    ensures
        aggregation_exact(items.deep_view(), out.deep_view()),
        out.deep_view().len() <= items.deep_view().len(),
{
    let ghost iv = items.deep_view();
    let mut out: Vec<InferredOwner> = Vec::new();
    let mut i: usize = 0;
    proof {
        assert(iv.take(0) =~= Seq::<ContributionV>::empty());
    }
    while i < items.len()
        invariant
            i <= iv.len(),
            iv == items.deep_view(),
            total_lines(iv) <= u64::MAX,
            aggregation_exact(iv.take(i as int), out.deep_view()),
            out.deep_view().len() <= i,
        decreases iv.len() - i,
    {
        let ghost pre = iv.take(i as int);
        let ghost ov0 = out.deep_view();
        proof {
            assert(iv.take(i as int + 1) =~= pre.push(iv[i as int]));
            assert(iv[i as int] == items@[i as int]@);
        }
        let item = &items[i];
        let ghost x = iv[i as int];
        let mut found = false;
        let mut idx: usize = 0;
        let n = out.len();
        while idx < n
            invariant_except_break
                idx <= n,
                n == out@.len(),
                out.deep_view() == ov0,
                !found,
                iv == items.deep_view(),
                i < iv.len(),
                i < items@.len(),
                x == iv[i as int],
                forall|j: int| 0 <= j < idx ==> (#[trigger] ov0[j]).email != x.email,
            ensures
                n == out@.len(),
                out.deep_view() == ov0,
                iv == items.deep_view(),
                i < iv.len(),
                x == iv[i as int],
                found ==> idx < n && ov0[idx as int].email == x.email,
                !found ==> forall|j: int| 0 <= j < n ==> (#[trigger] ov0[j]).email != x.email,
            decreases n - idx,
        {
            proof {
                assert(ov0[idx as int].email == out@[idx as int]@.email);
                assert(out@[idx as int]@.email == out@[idx as int].email@);
                assert(x == items@[i as int]@);
                assert(x.email == items@[i as int].email@);
            }
            let same = crate::strutil::string_eq_str(&out[idx].email, items[i].email.as_str());
            proof {
                assert(same == (out@[idx as int].email@ == items@[i as int].email@));
                assert(same == (ov0[idx as int].email == x.email));
            }
            if same {
                found = true;
                break ;
            }
            idx = idx + 1;
        }
        proof {
            lemma_agg_bounds(pre, x.email);
            lemma_agg_snoc(pre, x, x.email);
        }
        if found {
            let old_entry = &out[idx];
            proof {
                assert(ov0[idx as int] == out@[idx as int]@);
                assert(aggregated_entry(pre, ov0[idx as int].email, ov0[idx as int]));
                assert(sum_lines(pre, x.email) <= total_lines(pre));
                lemma_total_lines_prefix(iv, i as int);
                lemma_total_lines_prefix(iv, i as int + 1);
                lemma_total_lines_bound(iv);
                assert(total_lines(iv.take(i as int + 1)) == total_lines(pre) + x.lines);
                lemma_total_lines_suffix_step(iv, i as int + 1);
                assert(count_items(pre, x.email) <= pre.len());
            }
            let new_entry = InferredOwner {
                email: old_entry.email.clone(),
                username: None,
                score_milli: 0,
                commits: old_entry.commits + 1,
                lines: old_entry.lines + (item.lines as u64),
                last_commit_days_ago: if item.days_ago < old_entry.last_commit_days_ago {
                    item.days_ago
                } else {
                    old_entry.last_commit_days_ago
                },
            };
            vstd::pervasive::VecAdditionalExecFns::set(&mut out, idx, new_entry);
            proof {
                let ov1 = out.deep_view();
                assert(ov1 =~= ov0.update(
                    idx as int,
                    InferredOwnerV {
                        email: x.email,
                        username: None,
                        score_milli: 0,
                        commits: (count_items(pre, x.email) + 1) as u64,
                        lines: (sum_lines(pre, x.email) + x.lines) as u64,
                        last_commit_days_ago: (if (x.days_ago as int) < min_days(pre, x.email) {
                            x.days_ago as int
                        } else {
                            min_days(pre, x.email)
                        }) as u32,
                    },
                ));
                let post = iv.take(i as int + 1);
                assert forall|k: int| 0 <= k < ov1.len() implies aggregated_entry(
                    post,
                    (#[trigger] ov1[k]).email,
                    ov1[k],
                ) by {
                    lemma_agg_snoc(pre, x, ov1[k].email);
                    if k != idx {
                        assert(ov1[k] == ov0[k]);
                        assert(ov0[k].email != x.email);
                    }
                }
                assert forall|k: int| 0 <= k < ov1.len() implies count_items(
                    post,
                    (#[trigger] ov1[k]).email,
                ) >= 1 by {
                    lemma_agg_snoc(pre, x, ov1[k].email);
                    if k != idx {
                        assert(ov1[k] == ov0[k]);
                    }
                }
                assert forall|e: Seq<char>| count_items(post, e) >= 1 implies exists|k: int|
                    0 <= k < ov1.len() && (#[trigger] ov1[k]).email == e by {
                    lemma_agg_snoc(pre, x, e);
                    if e == x.email {
                        assert(ov1[idx as int].email == e);
                    } else {
                        assert(count_items(pre, e) >= 1);
                        let w = choose|k: int|
                            0 <= k < ov0.len() && (#[trigger] ov0[k]).email == e;
                        assert(ov1[w].email == e);
                    }
                }
                assert forall|a: int, b: int| 0 <= a < b < ov1.len() implies (
                #[trigger] ov1[a]).email != (#[trigger] ov1[b]).email by {
                    assert(ov1[a].email == ov0[a].email);
                    assert(ov1[b].email == ov0[b].email);
                }
            }
        } else {
            let new_entry = InferredOwner {
                email: item.email.clone(),
                username: None,
                score_milli: 0,
                commits: 1,
                lines: item.lines as u64,
                last_commit_days_ago: item.days_ago,
            };
            out.push(new_entry);
            proof {
                let ov1 = out.deep_view();
                assert(count_items(pre, x.email) == 0) by {
                    if count_items(pre, x.email) >= 1 {
                        let w = choose|k: int|
                            0 <= k < ov0.len() && (#[trigger] ov0[k]).email == x.email;
                    }
                }
                assert(sum_lines(pre, x.email) == 0) by {
                    lemma_sum_zero_when_absent(pre, x.email);
                }
                assert(min_days(pre, x.email) == u32::MAX as int) by {
                    lemma_min_days_when_absent(pre, x.email);
                }
                assert(ov1 =~= ov0.push(
                    InferredOwnerV {
                        email: x.email,
                        username: None,
                        score_milli: 0,
                        commits: 1,
                        lines: x.lines as u64,
                        last_commit_days_ago: x.days_ago,
                    },
                ));
                let post = iv.take(i as int + 1);
                assert forall|k: int| 0 <= k < ov1.len() implies aggregated_entry(
                    post,
                    (#[trigger] ov1[k]).email,
                    ov1[k],
                ) by {
                    lemma_agg_snoc(pre, x, ov1[k].email);
                    if k < ov0.len() {
                        assert(ov1[k] == ov0[k]);
                        assert(ov0[k].email != x.email);
                    } else {
                        assert(ov1[k].email == x.email);
                    }
                }
                assert forall|k: int| 0 <= k < ov1.len() implies count_items(
                    post,
                    (#[trigger] ov1[k]).email,
                ) >= 1 by {
                    lemma_agg_snoc(pre, x, ov1[k].email);
                    if k < ov0.len() {
                        assert(ov1[k] == ov0[k]);
                    }
                }
                assert forall|e: Seq<char>| count_items(post, e) >= 1 implies exists|k: int|
                    0 <= k < ov1.len() && (#[trigger] ov1[k]).email == e by {
                    lemma_agg_snoc(pre, x, e);
                    if e == x.email {
                        assert(ov1[ov1.len() - 1].email == e);
                    } else {
                        assert(count_items(pre, e) >= 1);
                        let w = choose|k: int|
                            0 <= k < ov0.len() && (#[trigger] ov0[k]).email == e;
                        assert(ov1[w].email == e);
                    }
                }
                assert forall|a: int, b: int| 0 <= a < b < ov1.len() implies (
                #[trigger] ov1[a]).email != (#[trigger] ov1[b]).email by {
                    if b < ov0.len() {
                        assert(ov1[a] == ov0[a]);
                        assert(ov1[b] == ov0[b]);
                    } else {
                        assert(ov1[a] == ov0[a]);
                        assert(ov1[b].email == x.email);
                        assert(ov0[a].email != x.email);
                    }
                }
            }
        }
        i = i + 1;
    }
    proof {
        assert(iv.take(iv.len() as int) =~= iv);
    }
    out
}

/// An aggregated record scored by the chosen strategy: the line strategy
/// scores a thousand per attributed line, the commit strategy a thousand
/// per contribution.
pub open spec fn scored_entry(
    items: Seq<ContributionV>,
    email: Seq<char>,
    o: InferredOwnerV,
    by_lines: bool,
) -> bool {
    &&& o.email == email
    &&& o.username is None
    &&& o.lines == sum_lines(items, email)
    &&& o.commits == count_items(items, email)
    &&& o.last_commit_days_ago == min_days(items, email)
    &&& o.score_milli == (if by_lines {
        1000 * sum_lines(items, email)
    } else {
        1000 * count_items(items, email)
    })
}

/// What a scoring pass yields: one exact record per email with at least
/// `min_commits` contributions, and no other.
pub open spec fn scored_exact(
    items: Seq<ContributionV>,
    out: Seq<InferredOwnerV>,
    min_commits: u64,
    by_lines: bool,
) -> bool {
    &&& forall|a: int, b: int|
        0 <= a < b < out.len() ==> (#[trigger] out[a]).email != (#[trigger] out[b]).email
    &&& forall|k: int|
        0 <= k < out.len() ==> scored_entry(items, (#[trigger] out[k]).email, out[k], by_lines)
    &&& forall|k: int|
        0 <= k < out.len() ==> count_items(items, (#[trigger] out[k]).email) >= 1 && count_items(
            items,
            (#[trigger] out[k]).email,
        ) >= min_commits
    &&& forall|e: Seq<char>|
        count_items(items, e) >= 1 && count_items(items, e) >= min_commits ==> exists|k: int|
            0 <= k < out.len() && (#[trigger] out[k]).email == e
}

/// Scores aggregated contributions and keeps the contributors with at
/// least `min_commits` contributions.
fn score_and_retain(items: &Vec<Contribution>, min_commits: u64, by_lines: bool) -> (out: Vec<
    InferredOwner,
>)
    requires
        1000 * total_lines(items.deep_view()) <= u64::MAX,
        1000 * items.deep_view().len() <= u64::MAX,
    ensures
        scored_exact(items.deep_view(), out.deep_view(), min_commits, by_lines),
{
    let ghost iv = items.deep_view();
    let agg = aggregate_contributions(items);
    let ghost av = agg.deep_view();
    let mut out: Vec<InferredOwner> = Vec::new();
    let mut i: usize = 0;
    while i < agg.len()
        invariant
            i <= av.len(),
            av == agg.deep_view(),
            iv == items.deep_view(),
            1000 * total_lines(iv) <= u64::MAX,
            1000 * iv.len() <= u64::MAX,
            aggregation_exact(iv, av),
            forall|a: int, b: int|
                0 <= a < b < out.deep_view().len() ==> (#[trigger] out.deep_view()[a]).email != (
                #[trigger] out.deep_view()[b]).email,
            forall|k: int|
                0 <= k < out.deep_view().len() ==> scored_entry(
                    iv,
                    (#[trigger] out.deep_view()[k]).email,
                    out.deep_view()[k],
                    by_lines,
                ),
            forall|k: int|
                0 <= k < out.deep_view().len() ==> count_items(
                    iv,
                    (#[trigger] out.deep_view()[k]).email,
                ) >= 1 && count_items(iv, (#[trigger] out.deep_view()[k]).email) >= min_commits,
            forall|k: int|
                0 <= k < out.deep_view().len() ==> exists|j: int|
                    0 <= j < i && (#[trigger] out.deep_view()[k]).email == av[j].email,
            forall|j: int|
                0 <= j < i ==> ((#[trigger] av[j]).commits >= min_commits ==> exists|k: int|
                    0 <= k < out.deep_view().len() && (#[trigger] out.deep_view()[k]).email
                        == av[j].email),
        decreases av.len() - i,
    {
        let ghost o0 = out.deep_view();
        proof {
            assert(av[i as int] == agg@[i as int]@);
            assert(aggregated_entry(iv, av[i as int].email, av[i as int]));
            lemma_agg_bounds(iv, av[i as int].email);
            lemma_total_lines_bound(iv);
        }
        if agg[i].commits >= min_commits {
            let score: u64 = if by_lines {
                1000 * agg[i].lines
            } else {
                1000 * agg[i].commits
            };
            let entry = InferredOwner {
                email: agg[i].email.clone(),
                username: None,
                score_milli: score,
                commits: agg[i].commits,
                lines: agg[i].lines,
                last_commit_days_ago: agg[i].last_commit_days_ago,
            };
            out.push(entry);
            proof {
                let o1 = out.deep_view();
                assert(o1 =~= o0.push(entry@));
                assert(entry@.email == av[i as int].email);
                assert(scored_entry(iv, entry@.email, entry@, by_lines));
                assert forall|a: int, b: int| 0 <= a < b < o1.len() implies (
                #[trigger] o1[a]).email != (#[trigger] o1[b]).email by {
                    if b < o0.len() {
                        assert(o1[a] == o0[a]);
                        assert(o1[b] == o0[b]);
                    } else {
                        assert(o1[a] == o0[a]);
                        let w = choose|j: int|
                            0 <= j < i && (#[trigger] o0[a]).email == av[j].email;
                        assert(o1[b].email == av[i as int].email);
                        assert(av[w].email != av[i as int].email);
                    }
                }
                assert forall|k: int| 0 <= k < o1.len() implies exists|j: int|
                    0 <= j < i + 1 && (#[trigger] o1[k]).email == av[j].email by {
                    if k < o0.len() {
                        assert(o1[k] == o0[k]);
                        let w = choose|j: int|
                            0 <= j < i && (#[trigger] o0[k]).email == av[j].email;
                        assert(0 <= w < i + 1 && o1[k].email == av[w].email);
                    } else {
                        assert(o1[k].email == av[i as int].email);
                    }
                }
                assert forall|j: int|
                    0 <= j < i + 1 && (#[trigger] av[j]).commits >= min_commits implies exists|
                        k: int,
                    |
                        0 <= k < o1.len() && (#[trigger] o1[k]).email == av[j].email by {
                    if j < i {
                        let w = choose|k: int|
                            0 <= k < o0.len() && (#[trigger] o0[k]).email == av[j].email;
                        assert(o1[w].email == av[j].email);
                    } else {
                        assert(o1[o1.len() - 1].email == av[i as int].email);
                    }
                }
            }
        } else {
            proof {
                assert(av[i as int].commits < min_commits);
            }
        }
        i = i + 1;
    }
    proof {
        assert forall|e: Seq<char>|
            count_items(iv, e) >= 1 && count_items(iv, e) >= min_commits implies exists|k: int|
            0 <= k < out.deep_view().len() && (#[trigger] out.deep_view()[k]).email == e by {
            let j = choose|j: int| 0 <= j < av.len() && (#[trigger] av[j]).email == e;
            assert(aggregated_entry(iv, av[j].email, av[j]));
            assert(av[j].commits == count_items(iv, e));
        }
    }
    out
}

/// Lines attributed to an absent email are zero.
proof fn lemma_sum_zero_when_absent(items: Seq<ContributionV>, email: Seq<char>)
    requires
        count_items(items, email) == 0,
    ensures
        sum_lines(items, email) == 0,
    decreases items.len(),
{
    if items.len() > 0 {
        lemma_agg_bounds(items.drop_first(), email);
        lemma_sum_zero_when_absent(items.drop_first(), email);
    }
}

/// The age for an absent email is the maximum.
proof fn lemma_min_days_when_absent(items: Seq<ContributionV>, email: Seq<char>)
    requires
        count_items(items, email) == 0,
    ensures
        min_days(items, email) == u32::MAX as int,
    decreases items.len(),
{
    if items.len() > 0 {
        lemma_agg_bounds(items.drop_first(), email);
        lemma_min_days_when_absent(items.drop_first(), email);
    }
}

/// The total over a prefix never exceeds the total over the whole.
proof fn lemma_total_lines_prefix(items: Seq<ContributionV>, i: int)
    requires
        0 <= i <= items.len(),
    ensures
        0 <= total_lines(items.take(i)) <= total_lines(items),
{
    lemma_total_lines_bound(items.take(i));
    lemma_total_lines_suffix_step(items, i);
}

/// Totals are non-negative.
proof fn lemma_total_lines_bound(items: Seq<ContributionV>)
    ensures
        total_lines(items) >= 0,
    decreases items.len(),
{
    if items.len() > 0 {
        lemma_total_lines_bound(items.drop_first());
    }
}

/// Extending a prefix by one item adds that item's lines to its total,
/// and the whole is at least any prefix.
proof fn lemma_total_lines_suffix_step(items: Seq<ContributionV>, i: int)
    requires
        0 <= i <= items.len(),
    ensures
        total_lines(items.take(i)) <= total_lines(items),
    decreases items.len() - i,
{
    if i == items.len() {
        assert(items.take(i) =~= items);
    } else {
        lemma_total_lines_suffix_step(items, i + 1);
        lemma_agg_snoc(items.take(i), items[i], items[i].email);
        assert(items.take(i + 1) =~= items.take(i).push(items[i]));
        assert(total_lines(items.take(i)) <= total_lines(items.take(i + 1)));
    }
}

/// Scores contributors by attributed line counts from blame: a thousand
/// per line, keeping contributors with at least `min_commits` hunks.
pub fn analyze_by_lines(hunks: &Vec<Contribution>, min_commits: u64) -> (out: Vec<InferredOwner>)
    requires
        1000 * total_lines(hunks.deep_view()) <= u64::MAX,
        1000 * hunks.deep_view().len() <= u64::MAX,
    ensures
        scored_exact(hunks.deep_view(), out.deep_view(), min_commits, true),
{
    score_and_retain(hunks, min_commits, true)
}

/// Mathematical value of a [`CommitRecord`].
#[verifier::ext_equal]
pub ghost struct CommitRecordV {
    pub email: Seq<char>,
    pub seconds: i64,
    pub touches_file: bool,
}

/// One commit from the log walk, newest first: its author email, its time
/// in seconds, and whether its diff touches the analyzed file.
pub struct CommitRecord {
    pub email: String,
    pub seconds: i64,
    pub touches_file: bool,
}

impl View for CommitRecord {
    type V = CommitRecordV;

    open spec fn view(&self) -> CommitRecordV {
        CommitRecordV { email: self.email@, seconds: self.seconds, touches_file: self.touches_file }
    }
}

impl DeepView for CommitRecord {
    type V = CommitRecordV;

    open spec fn deep_view(&self) -> CommitRecordV {
        self.view()
    }
}

/// Whole days between two times, clamped to the representable range.
pub open spec fn days_between(now: i64, secs: i64) -> u32 {
    if secs > now {
        0
    } else if (now - secs) / 86400 > u32::MAX {
        u32::MAX
    } else {
        ((now - secs) / 86400) as u32
    }
}

/// The contributions a commit walk yields: one zero-line contribution per
/// touching commit, stopping at the first commit older than the cutoff —
/// the walk hands commits over newest first, so the stop is sound.
pub open spec fn walk_contributions(
    cs: Seq<CommitRecordV>,
    now: i64,
    cutoff: i64,
    use_cutoff: bool,
) -> Seq<ContributionV>
    decreases cs.len(),
{
    if cs.len() == 0 {
        Seq::empty()
    } else if use_cutoff && cs[0].seconds < cutoff {
        Seq::empty()
    } else {
        (if cs[0].touches_file {
            seq![
                ContributionV {
                    email: cs[0].email,
                    lines: 0,
                    days_ago: days_between(now, cs[0].seconds),
                },
            ]
        } else {
            Seq::empty()
        }) + walk_contributions(cs.drop_first(), now, cutoff, use_cutoff)
    }
}

/// A walk attributes no lines.
pub proof fn lemma_walk_no_lines(cs: Seq<CommitRecordV>, now: i64, cutoff: i64, use_cutoff: bool)
    ensures
        total_lines(walk_contributions(cs, now, cutoff, use_cutoff)) == 0,
        walk_contributions(cs, now, cutoff, use_cutoff).len() <= cs.len(),
    decreases cs.len(),
{
    if cs.len() > 0 && !(use_cutoff && cs[0].seconds < cutoff) {
        lemma_walk_no_lines(cs.drop_first(), now, cutoff, use_cutoff);
        let w = walk_contributions(cs, now, cutoff, use_cutoff);
        let tail = walk_contributions(cs.drop_first(), now, cutoff, use_cutoff);
        if cs[0].touches_file {
            assert(w.drop_first() =~= tail);
            assert(w[0].lines == 0);
        } else {
            assert(w =~= tail);
        }
    }
}

/// Turns a commit walk into contributions: one per touching commit within
/// the lookback window, stopping at the cutoff.
pub fn commit_contributions(
    commits: &Vec<CommitRecord>,
    now_seconds: i64,
    cutoff_seconds: i64,
    use_cutoff: bool,
) -> (out: Vec<Contribution>)
    ensures
        out.deep_view() == walk_contributions(
            commits.deep_view(),
            now_seconds,
            cutoff_seconds,
            use_cutoff,
        ),
{
    let ghost cv = commits.deep_view();
    let mut out: Vec<Contribution> = Vec::new();
    let mut i: usize = 0;
    proof {
        assert(cv.skip(0) =~= cv);
        assert(out.deep_view() + walk_contributions(cv, now_seconds, cutoff_seconds, use_cutoff)
            =~= walk_contributions(cv, now_seconds, cutoff_seconds, use_cutoff));
    }
    while i < commits.len()
        invariant_except_break
            i <= cv.len(),
            cv == commits.deep_view(),
            out.deep_view() + walk_contributions(
                cv.skip(i as int),
                now_seconds,
                cutoff_seconds,
                use_cutoff,
            ) =~= walk_contributions(cv, now_seconds, cutoff_seconds, use_cutoff),
        ensures
            out.deep_view() =~= walk_contributions(cv, now_seconds, cutoff_seconds, use_cutoff),
        decreases cv.len() - i,
    {
        let ghost rem = cv.skip(i as int);
        let ghost o0 = out.deep_view();
        proof {
            assert(rem[0] == cv[i as int]);
            assert(rem.drop_first() =~= cv.skip(i as int + 1));
            assert(cv[i as int] == commits@[i as int]@);
        }
        if use_cutoff && commits[i].seconds < cutoff_seconds {
            proof {
                assert(walk_contributions(rem, now_seconds, cutoff_seconds, use_cutoff)
                    =~= Seq::<ContributionV>::empty());
            }
            break ;
        }
        if commits[i].touches_file {
            let secs = commits[i].seconds;
            let days: u32 = if secs > now_seconds {
                0
            } else {
                let diff = ((now_seconds as i128) - (secs as i128)) / 86400;
                if diff > (u32::MAX as i128) {
                    u32::MAX
                } else {
                    diff as u32
                }
            };
            proof {
                assert(days == days_between(now_seconds, secs));
            }
            let c = Contribution { email: commits[i].email.clone(), lines: 0, days_ago: days };
            proof {
                assert(c@ == ContributionV {
                    email: cv[i as int].email,
                    lines: 0,
                    days_ago: days_between(now_seconds, cv[i as int].seconds),
                });
            }
            out.push(c);
            proof {
                assert(out.deep_view() =~= o0.push(c@));
                assert(o0.push(c@) + walk_contributions(
                    cv.skip(i as int + 1),
                    now_seconds,
                    cutoff_seconds,
                    use_cutoff,
                ) =~= o0 + (seq![c@] + walk_contributions(
                    cv.skip(i as int + 1),
                    now_seconds,
                    cutoff_seconds,
                    use_cutoff,
                )));
            }
        }
        i = i + 1;
    }
    proof {
        if i == cv.len() {
            assert(cv.skip(cv.len() as int) =~= Seq::<CommitRecordV>::empty());
        }
    }
    out
}

/// Scores contributors by touching commits from the log walk: a thousand
/// per commit, keeping contributors with at least `min_commits` commits.
pub fn analyze_by_commits(
    commits: &Vec<CommitRecord>,
    now_seconds: i64,
    cutoff_seconds: i64,
    use_cutoff: bool,
    min_commits: u64,
) -> (out: Vec<InferredOwner>)
    requires
        1000 * commits.deep_view().len() <= u64::MAX,
    ensures
        scored_exact(
            walk_contributions(commits.deep_view(), now_seconds, cutoff_seconds, use_cutoff),
            out.deep_view(),
            min_commits,
            false,
        ),
{
    let contribs = commit_contributions(commits, now_seconds, cutoff_seconds, use_cutoff);
    proof {
        lemma_walk_no_lines(commits.deep_view(), now_seconds, cutoff_seconds, use_cutoff);
    }
    score_and_retain(&contribs, min_commits, false)
}

/// The recency weight in thousandths: `30 / (30 + days)` with a floor of
/// one tenth.
pub open spec fn decay_milli(days: u32) -> int {
    if 30000int / (30 + days as int) < 100 {
        100
    } else {
        30000int / (30 + days as int)
    }
}

/// A line-scored record decayed by recency.
pub open spec fn recent_entry(items: Seq<ContributionV>, email: Seq<char>, o: InferredOwnerV) -> bool {
    &&& o.email == email
    &&& o.username is None
    &&& o.lines == sum_lines(items, email)
    &&& o.commits == count_items(items, email)
    &&& o.last_commit_days_ago == min_days(items, email)
    &&& o.score_milli == 1000 * sum_lines(items, email) * decay_milli(
        min_days(items, email) as u32,
    ) / 1000
}

/// What the recency strategy yields: the line scoring, with each score
/// decayed by the contributor's most recent activity.
pub open spec fn recent_exact(
    items: Seq<ContributionV>,
    out: Seq<InferredOwnerV>,
    min_commits: u64,
) -> bool {
    &&& forall|a: int, b: int|
        0 <= a < b < out.len() ==> (#[trigger] out[a]).email != (#[trigger] out[b]).email
    &&& forall|k: int| 0 <= k < out.len() ==> recent_entry(items, (#[trigger] out[k]).email, out[k])
    &&& forall|k: int|
        0 <= k < out.len() ==> count_items(items, (#[trigger] out[k]).email) >= 1 && count_items(
            items,
            (#[trigger] out[k]).email,
        ) >= min_commits
    &&& forall|e: Seq<char>|
        count_items(items, e) >= 1 && count_items(items, e) >= min_commits ==> exists|k: int|
            0 <= k < out.len() && (#[trigger] out[k]).email == e
}

/// A candidate after recency decay: the same record with its score
/// scaled by the decay weight.
pub open spec fn decayed_of(b: InferredOwnerV, o: InferredOwnerV) -> bool {
    o == InferredOwnerV {
        score_milli: (b.score_milli * decay_milli(b.last_commit_days_ago) / 1000) as u64,
        ..b
    }
}

/// Scores contributors by lines, then biases toward recent activity: each
/// score is decayed by the contributor's days since last commit.
pub fn analyze_by_recent_activity(hunks: &Vec<Contribution>, min_commits: u64) -> (out: Vec<
    InferredOwner,
>)
    requires
        1000 * total_lines(hunks.deep_view()) <= u64::MAX,
        1000 * hunks.deep_view().len() <= u64::MAX,
    ensures
        recent_exact(hunks.deep_view(), out.deep_view(), min_commits),
{
    let ghost iv = hunks.deep_view();
    let base = analyze_by_lines(hunks, min_commits);
    let ghost bv0 = base.deep_view();
    let mut out: Vec<InferredOwner> = Vec::new();
    let mut i: usize = 0;
    while i < base.len()
        invariant
            i <= bv0.len(),
            bv0 == base.deep_view(),
            scored_exact(iv, bv0, min_commits, true),
            out.deep_view().len() == i,
            forall|k: int| 0 <= k < i ==> decayed_of(bv0[k], #[trigger] out.deep_view()[k]),
        decreases bv0.len() - i,
    {
        proof {
            assert(bv0[i as int] == base@[i as int]@);
        }
        let days = base[i].last_commit_days_ago;
        let denom: u64 = 30 + (days as u64);
        let w0: u64 = 30000 / denom;
        let weight: u64 = if w0 < 100 {
            100
        } else {
            w0
        };
        proof {
            assert(weight == decay_milli(days));
            assert(weight <= 1000) by {
                assert(30000int / (30 + days as int) <= 1000) by (nonlinear_arith)
                    requires
                        days >= 0,
                ;
            }
        }
        let old_score = base[i].score_milli;
        proof {
            assert((old_score as int) * (weight as int) < 0x1_0000_0000_0000_0000_0000)
                by (nonlinear_arith)
                requires
                    0 <= old_score < 0x1_0000_0000_0000_0000,
                    0 <= weight <= 1000,
            ;
            assert((old_score as int) * (weight as int) / 1000 <= old_score) by (nonlinear_arith)
                requires
                    0 <= weight <= 1000,
                    0 <= old_score,
            ;
        }
        let new_score: u64 = (((old_score as u128) * (weight as u128)) / 1000) as u64;
        let entry = InferredOwner {
            email: base[i].email.clone(),
            username: None,
            score_milli: new_score,
            commits: base[i].commits,
            lines: base[i].lines,
            last_commit_days_ago: days,
        };
        let ghost o0 = out.deep_view();
        out.push(entry);
        i = i + 1;
        proof {
            assert(out.deep_view() =~= o0.push(entry@));
            assert(bv0[i - 1].username is None);
            assert(decayed_of(bv0[i - 1], entry@));
        }
    }
    proof {
        let ov = out.deep_view();
        assert forall|k: int| 0 <= k < ov.len() implies recent_entry(
            iv,
            (#[trigger] ov[k]).email,
            ov[k],
        ) by {
            assert(decayed_of(bv0[k], ov[k]));
            assert(scored_entry(iv, bv0[k].email, bv0[k], true));
            let b = bv0[k];
            let d = b.last_commit_days_ago;
            assert(0 <= decay_milli(d) <= 1000) by (nonlinear_arith)
                requires
                    d >= 0,
            ;
            assert(b.score_milli * decay_milli(d) / 1000 <= b.score_milli) by (nonlinear_arith)
                requires
                    0 <= decay_milli(d) <= 1000,
                    0 <= b.score_milli,
            ;
        }
        assert forall|a: int, b: int| 0 <= a < b < ov.len() implies (#[trigger] ov[a]).email != (
        #[trigger] ov[b]).email by {
            assert(decayed_of(bv0[a], ov[a]));
            assert(decayed_of(bv0[b], ov[b]));
        }
        assert forall|k: int| 0 <= k < ov.len() implies count_items(
            iv,
            (#[trigger] ov[k]).email,
        ) >= 1 && count_items(iv, (#[trigger] ov[k]).email) >= min_commits by {
            assert(decayed_of(bv0[k], ov[k]));
        }
        assert forall|e: Seq<char>|
            count_items(iv, e) >= 1 && count_items(iv, e) >= min_commits implies exists|k: int|
            0 <= k < ov.len() && (#[trigger] ov[k]).email == e by {
            let w = choose|k: int| 0 <= k < bv0.len() && (#[trigger] bv0[k]).email == e;
            assert(decayed_of(bv0[w], ov[w]));
            assert(ov[w].email == e);
        }
    }
    out
}

/// The summed score of a candidate list.
pub open spec fn total_score(s: Seq<InferredOwnerV>) -> int
    decreases s.len(),
{
    if s.len() == 0 {
        0
    } else {
        s[0].score_milli + total_score(s.drop_first())
    }
}

/// The candidates whose score is at least `min_percentage` percent of the
/// summed score, in order.
pub open spec fn keep_share(
    s: Seq<InferredOwnerV>,
    rest: Seq<InferredOwnerV>,
    min_percentage: u32,
) -> Seq<InferredOwnerV>
    decreases rest.len(),
{
    if rest.len() == 0 {
        Seq::empty()
    } else {
        (if 100 * rest[0].score_milli >= min_percentage * total_score(s) {
            seq![rest[0]]
        } else {
            Seq::empty()
        }) + keep_share(s, rest.drop_first(), min_percentage)
    }
}

/// Candidates in non-increasing score order.
pub open spec fn sorted_desc(s: Seq<InferredOwnerV>) -> bool {
    forall|a: int, b: int| 0 <= a <= b < s.len() ==> (#[trigger] s[a]).score_milli >= (
    #[trigger] s[b]).score_milli
}

/// Sums candidate scores.
fn sum_scores(v: &Vec<InferredOwner>) -> (t: u128)
    ensures
        t == total_score(v.deep_view()),
        t >= 0,
{
    let ghost dv = v.deep_view();
    let mut t: u128 = 0;
    let mut i: usize = 0;
    proof {
        assert(dv.skip(0) =~= dv);
        lemma_total_score_nonneg(dv);
    }
    while i < v.len()
        invariant
            i <= dv.len(),
            dv == v.deep_view(),
            t + total_score(dv.skip(i as int)) == total_score(dv),
            0 <= t <= total_score(dv),
        decreases dv.len() - i,
    {
        let ghost rem = dv.skip(i as int);
        proof {
            assert(rem[0] == dv[i as int]);
            assert(rem.drop_first() =~= dv.skip(i as int + 1));
            assert(dv[i as int] == v@[i as int]@);
            lemma_total_score_nonneg(dv.skip(i as int + 1));
            lemma_total_score_bound(dv);
        }
        t = t + (v[i].score_milli as u128);
        i = i + 1;
    }
    proof {
        assert(dv.skip(dv.len() as int) =~= Seq::<InferredOwnerV>::empty());
    }
    t
}

/// Total scores are non-negative.
proof fn lemma_total_score_nonneg(s: Seq<InferredOwnerV>)
    ensures
        total_score(s) >= 0,
    decreases s.len(),
{
    if s.len() > 0 {
        lemma_total_score_nonneg(s.drop_first());
    }
}

/// A total score is bounded by the candidate count times the largest
/// score.
proof fn lemma_total_score_bound(s: Seq<InferredOwnerV>)
    ensures
        total_score(s) <= s.len() * (u64::MAX as int),
    decreases s.len(),
{
    if s.len() > 0 {
        lemma_total_score_bound(s.drop_first());
        assert((s.len() - 1) * (u64::MAX as int) + (u64::MAX as int) == s.len() * (
        u64::MAX as int)) by (nonlinear_arith);
    }
}

/// Keeps the candidates whose score reaches `min_percentage` percent of
/// the summed score, in order.
fn filter_by_share(v: &Vec<InferredOwner>, min_percentage: u32) -> (out: Vec<InferredOwner>)
    requires
        total_score(v.deep_view()) <= u64::MAX,
    ensures
        out.deep_view() == keep_share(v.deep_view(), v.deep_view(), min_percentage),
{
    let ghost dv = v.deep_view();
    let total = sum_scores(v);
    let mut out: Vec<InferredOwner> = Vec::new();
    let mut i: usize = 0;
    proof {
        assert(dv.skip(0) =~= dv);
        assert(out.deep_view() + keep_share(dv, dv, min_percentage) =~= keep_share(
            dv,
            dv,
            min_percentage,
        ));
    }
    while i < v.len()
        invariant
            i <= dv.len(),
            dv == v.deep_view(),
            total == total_score(dv),
            total <= u64::MAX,
            out.deep_view() + keep_share(dv, dv.skip(i as int), min_percentage) =~= keep_share(
                dv,
                dv,
                min_percentage,
            ),
        decreases dv.len() - i,
    {
        let ghost rem = dv.skip(i as int);
        let ghost o0 = out.deep_view();
        proof {
            assert(rem[0] == dv[i as int]);
            assert(rem.drop_first() =~= dv.skip(i as int + 1));
            assert(dv[i as int] == v@[i as int]@);
        }
        let score = v[i].score_milli;
        proof {
            assert((min_percentage as int) * (total as int) < 0x1_0000_0000_0000_0000_0000_0000)
                by (nonlinear_arith)
                requires
                    0 <= min_percentage < 0x1_0000_0000,
                    0 <= total < 0x1_0000_0000_0000_0000,
            ;
        }
        let keeps = (100u128 * (score as u128)) >= ((min_percentage as u128) * total);
        proof {
            assert(keeps == (100 * dv[i as int].score_milli >= min_percentage * total_score(dv)));
        }
        if keeps {
            let kept = v[i].clone();
            out.push(kept);
            proof {
                assert(out.deep_view() =~= o0.push(dv[i as int]));
                assert(o0.push(dv[i as int]) + keep_share(
                    dv,
                    dv.skip(i as int + 1),
                    min_percentage,
                ) =~= o0 + (seq![dv[i as int]] + keep_share(
                    dv,
                    dv.skip(i as int + 1),
                    min_percentage,
                )));
            }
        }
        i = i + 1;
    }
    proof {
        assert(dv.skip(dv.len() as int) =~= Seq::<InferredOwnerV>::empty());
        assert(out.deep_view() =~= keep_share(dv, dv, min_percentage));
    }
    out
}

/// Sorts candidates by score, highest first: the result is a
/// rearrangement of the input in non-increasing score order.
fn sort_by_score_desc(v: Vec<InferredOwner>) -> (r: Vec<InferredOwner>)
    ensures
        sorted_desc(r.deep_view()),
        r.deep_view().to_multiset() == v.deep_view().to_multiset(),
        r.deep_view().len() == v.deep_view().len(),
{
    broadcast use vstd::seq_lib::group_to_multiset_ensures;
    broadcast use vstd::multiset::group_multiset_axioms;

    let ghost orig = v.deep_view();
    let mut pending = v;
    let mut r: Vec<InferredOwner> = Vec::new();
    while pending.len() > 0
        invariant
            r.deep_view().to_multiset().add(pending.deep_view().to_multiset())
                =~= orig.to_multiset(),
            r.deep_view().len() + pending.deep_view().len() == orig.len(),
            sorted_desc(r.deep_view()),
            forall|a: int, b: int|
                0 <= a < r.deep_view().len() && 0 <= b < pending.deep_view().len() ==> (
                #[trigger] r.deep_view()[a]).score_milli >= (
                #[trigger] pending.deep_view()[b]).score_milli,
        decreases pending@.len(),
    {
        let ghost pv = pending.deep_view();
        let ghost r0 = r.deep_view();
        let mut mi: usize = 0;
        let mut j: usize = 1;
        let n = pending.len();
        while j < n
            invariant
                mi < j <= n,
                n == pending@.len(),
                pv == pending.deep_view(),
                forall|k: int| 0 <= k < j ==> (#[trigger] pv[k]).score_milli <= pv[mi as int].score_milli,
            decreases n - j,
        {
            proof {
                assert(pv[j as int] == pending@[j as int]@);
                assert(pv[mi as int] == pending@[mi as int]@);
            }
            if pending[j].score_milli > pending[mi].score_milli {
                mi = j;
            }
            j = j + 1;
        }
        let x = pending.remove(mi);
        proof {
            broadcast use vstd::seq_lib::group_to_multiset_ensures;
            broadcast use vstd::multiset::group_multiset_axioms;

            assert(pv.len() == n);
            assert(0 <= mi < pv.len());
            assert(x@ == pv[mi as int]);
            assert(pending.deep_view() =~= pv.remove(mi as int));
            assert(pv.contains(pv[mi as int])) by {
                let ghost w: int = mi as int;
                assert(0 <= w < pv.len() && pv[w] == pv[mi as int]);
            }
            assert(pv.to_multiset().count(pv[mi as int]) > 0);
            assert(pv.remove(mi as int).to_multiset() == pv.to_multiset().remove(pv[mi as int]));
            assert(pending.deep_view().to_multiset() == pv.to_multiset().remove(x@));
        }
        let ghost x_v = x@;
        r.push(x);
        proof {
            broadcast use vstd::seq_lib::group_to_multiset_ensures;
            broadcast use vstd::multiset::group_multiset_axioms;

            assert(r.deep_view() =~= r0.push(x_v));
            assert(r.deep_view().to_multiset() =~= r0.to_multiset().insert(x_v));
            assert(r0.to_multiset().insert(x_v).add(pv.to_multiset().remove(x_v)) =~= r0
                .to_multiset().add(pv.to_multiset()));
            assert(r.deep_view().to_multiset().add(pending.deep_view().to_multiset())
                =~= orig.to_multiset());
            assert forall|a: int, b: int|
                0 <= a < r.deep_view().len() && 0 <= b < pending.deep_view().len() implies (
            #[trigger] r.deep_view()[a]).score_milli >= (
            #[trigger] pending.deep_view()[b]).score_milli by {
                assert(pending.deep_view()[b] == pv.remove(mi as int)[b]);
                if b < mi {
                    assert(pv.remove(mi as int)[b] == pv[b]);
                } else {
                    assert(pv.remove(mi as int)[b] == pv[b + 1]);
                }
                if a < r0.len() {
                    assert(r.deep_view()[a] == r0[a]);
                } else {
                    assert(r.deep_view()[a] == x_v);
                }
            }
            assert forall|a: int, b: int| 0 <= a <= b < r.deep_view().len() implies (
            #[trigger] r.deep_view()[a]).score_milli >= (
            #[trigger] r.deep_view()[b]).score_milli by {
                if b < r0.len() {
                    assert(r.deep_view()[a] == r0[a]);
                    assert(r.deep_view()[b] == r0[b]);
                } else if a < r0.len() {
                    assert(r.deep_view()[a] == r0[a]);
                    assert(r.deep_view()[b] == x_v);
                }
            }
        }
    }
    proof {
        broadcast use vstd::seq_lib::group_to_multiset_ensures;
        broadcast use vstd::multiset::group_multiset_axioms;

        assert(pending.deep_view().to_multiset() =~= Seq::<InferredOwnerV>::empty().to_multiset());
        assert(r.deep_view().to_multiset() =~= orig.to_multiset());
    }
    r
}

/// The confidence a sorted candidate list yields, in thousandths: the
/// top survivor's share of `total` — the summed score of every candidate
/// that reached the share filter, not only of the survivors — damped by a
/// tenth per surviving candidate up to five, clamped to the unit range;
/// no candidates mean no confidence.
pub open spec fn confidence_spec(s: Seq<InferredOwnerV>, total: int) -> int {
    if s.len() == 0 {
        0
    } else {
        let ratio = if total > 0 {
            1000 * s[0].score_milli / total
        } else {
            0
        };
        let penalty = 1000 - 100 * (if s.len() < 5 {
            s.len() as int
        } else {
            5
        });
        let c = ratio * penalty / 1000;
        if c < 0 {
            0
        } else if c > 1000 {
            1000
        } else {
            c
        }
    }
}

/// Computes [`confidence_spec`] of a survivor list against the candidate
/// total.
fn confidence_of(v: &Vec<InferredOwner>, total: u128) -> (c: u32)
    requires
        total <= u64::MAX,
    ensures
        c == confidence_spec(v.deep_view(), total as int),
        c <= 1000,
{
    let ghost dv = v.deep_view();
    if v.len() == 0 {
        return 0;
    }
    proof {
        assert(dv[0] == v@[0]@);
    }
    let top = v[0].score_milli;
    let ratio: u128 = if total > 0 {
        (1000u128 * (top as u128)) / total
    } else {
        0
    };
    let count: u64 = if v.len() < 5 {
        v.len() as u64
    } else {
        5
    };
    let penalty: u128 = (1000 - 100 * count) as u128;
    proof {
        assert(ratio <= 1000 * 0xFFFF_FFFF_FFFF_FFFFu128) by {
            if total > 0 {
                assert(1000 * (top as int) / (total as int) <= 1000 * (top as int))
                    by (nonlinear_arith)
                    requires
                        (total as int) >= 1,
                        0 <= top,
                ;
            }
        }
        assert((ratio as int) * (penalty as int) <= (ratio as int) * 1000) by (nonlinear_arith)
            requires
                penalty <= 1000,
                0 <= ratio,
        ;
    }
    let c128: u128 = (ratio * penalty) / 1000;
    let c: u32 = if c128 > 1000 {
        1000
    } else {
        c128 as u32
    };
    proof {
        assert(c == confidence_spec(dv, total as int));
    }
    c
}

/// What a file's inference holds: the surviving candidates are exactly the
/// share-filtered ones (as a collection), sorted by score, with the
/// confidence derived from the top survivor against the candidate total.
pub open spec fn inference_assembled(
    candidates: Seq<InferredOwnerV>,
    min_percentage: u32,
    file_path: Seq<char>,
    existing: Seq<OwnerV>,
    r: FileInferenceV,
) -> bool {
    &&& r.file_path == file_path
    &&& r.existing_owners == existing
    &&& sorted_desc(r.inferred_owners)
    &&& r.inferred_owners.to_multiset() == keep_share(
        candidates,
        candidates,
        min_percentage,
    ).to_multiset()
    &&& r.confidence_milli == confidence_spec(r.inferred_owners, total_score(candidates))
}

/// Assembles the inference for one file: filters the scored candidates by
/// their share of the summed score, sorts the survivors by score, and
/// derives the confidence from the top survivor against that same total.
pub fn analyze_file_ownership(
    file_path: String,
    existing_owners: Vec<Owner>,
    candidates: Vec<InferredOwner>,
    min_percentage: u32,
) -> (r: FileOwnershipInference)
    requires
        total_score(candidates.deep_view()) <= u64::MAX,
    ensures
        inference_assembled(
            candidates.deep_view(),
            min_percentage,
            file_path@,
            existing_owners.deep_view(),
            r@,
        ),
{
    let ghost cv = candidates.deep_view();
    let total = sum_scores(&candidates);
    let surviving = filter_by_share(&candidates, min_percentage);
    let sorted = sort_by_score_desc(surviving);
    let confidence_milli = confidence_of(&sorted, total);
    FileOwnershipInference {
        file_path,
        inferred_owners: sorted,
        confidence_milli,
        existing_owners,
    }
}

/// Whether a diff delta touches the analyzed file: its old or its new
/// path equals the file's path. This is the per-delta decision of the
/// commit-touches test; callers walk the diff and hand the paths in.
pub fn paths_touch_file(
    new_path: Option<&String>,
    old_path: Option<&String>,
    file: &str,
) -> (r: bool)
    ensures
        r == ((match new_path {
            Some(p) => p@ == file@,
            None => false,
        }) || (match old_path {
            Some(p) => p@ == file@,
            None => false,
        })),
{
    let new_hit = match new_path {
        Some(p) => crate::strutil::string_eq_str(p, file),
        None => false,
    };
    let old_hit = match old_path {
        Some(p) => crate::strutil::string_eq_str(p, file),
        None => false,
    };
    new_hit || old_hit
}

/// One `pattern owner` line per file with an inferred owner: the file's
/// path, a space, and the top candidate's email.
pub open spec fn output_lines_spec(s: Seq<FileInferenceV>) -> Seq<Seq<char>>
    decreases s.len(),
{
    if s.len() == 0 {
        Seq::empty()
    } else {
        (if s[0].inferred_owners.len() > 0 {
            seq![s[0].file_path + seq![' '] + s[0].inferred_owners[0].email]
        } else {
            Seq::empty()
        }) + output_lines_spec(s.drop_first())
    }
}

/// Renders the `pattern owner` lines to append to a rule file: one line
/// per file with at least one inferred owner, naming its top candidate.
pub fn codeowners_output_lines(inferences: &Vec<FileOwnershipInference>) -> (out: Vec<String>)
    ensures
        out.deep_view() == output_lines_spec(inferences.deep_view()),
{
    let ghost iv = inferences.deep_view();
    let mut out: Vec<String> = Vec::new();
    let mut i: usize = 0;
    proof {
        assert(iv.skip(0) =~= iv);
        assert(out.deep_view() + output_lines_spec(iv) =~= output_lines_spec(iv));
    }
    while i < inferences.len()
        invariant
            i <= iv.len(),
            iv == inferences.deep_view(),
            out.deep_view() + output_lines_spec(iv.skip(i as int)) =~= output_lines_spec(iv),
        decreases iv.len() - i,
    {
        let ghost rem = iv.skip(i as int);
        let ghost o0 = out.deep_view();
        proof {
            assert(rem[0] == iv[i as int]);
            assert(rem.drop_first() =~= iv.skip(i as int + 1));
            assert(iv[i as int] == inferences@[i as int]@);
        }
        if inferences[i].inferred_owners.len() > 0 {
            proof {
                assert(iv[i as int].inferred_owners[0] == inferences@[i as int].inferred_owners@[0]@);
            }
            let mut line = inferences[i].file_path.clone();
            line.append(" ");
            line.append(inferences[i].inferred_owners[0].email.as_str());
            proof {
                reveal_strlit(" ");
                assert(line@ =~= iv[i as int].file_path + seq![' ']
                    + iv[i as int].inferred_owners[0].email);
            }
            out.push(line);
            proof {
                assert(out.deep_view() =~= o0.push(
                    iv[i as int].file_path + seq![' '] + iv[i as int].inferred_owners[0].email,
                ));
                assert(o0.push(
                    iv[i as int].file_path + seq![' '] + iv[i as int].inferred_owners[0].email,
                ) + output_lines_spec(iv.skip(i as int + 1)) =~= o0 + (seq![
                    iv[i as int].file_path + seq![' '] + iv[i as int].inferred_owners[0].email,
                ] + output_lines_spec(iv.skip(i as int + 1))));
            }
        }
        i = i + 1;
    }
    proof {
        assert(iv.skip(iv.len() as int) =~= Seq::<FileInferenceV>::empty());
        assert(out.deep_view() =~= output_lines_spec(iv));
    }
    out
}

} // verus!
