//! Reading a week of posts page by page, and ranking a finished leaderboard.

use vstd::prelude::*;
use crate::post::Post;
use crate::time_utils::{
    DISCORD_EPOCH,
    IsoWeek,
    MILLIS_PER_WEEK,
    SNOWFLAKE_LOW,
    UNIX_EPOCH_DAY,
    MILLIS_PER_DAY,
    iso_week_to_datetime,
    time_snowflake,
};

verus! {

/// Where to start reading a week, and when it ends.
#[derive(PartialEq, Eq, Structural, Debug, Clone, Copy)]
pub struct Window {
    /// Read the posts after this snowflake.
    pub first_after: u64,
    /// Posts later than this millisecond lie past the week.
    pub end_millis: i64,
}

/// The window of `week`, or `None` when the week does not start after the
/// snowflake epoch or lies past the snowflakes' range.
pub fn scan_window(week: &IsoWeek) -> (r: Option<Window>)
    ensures
        ({
            let start = (week.spec_monday() - UNIX_EPOCH_DAY) * MILLIS_PER_DAY;
            if DISCORD_EPOCH < start && start - DISCORD_EPOCH < 4_398_046_511_104 {
                r == Some(
                    Window {
                        first_after: ((start - DISCORD_EPOCH) * SNOWFLAKE_LOW - 1) as u64,
                        end_millis: (start + MILLIS_PER_WEEK) as i64,
                    },
                )
            } else {
                r is None
            }
        }),
{
    let start = iso_week_to_datetime(week);
    if start <= DISCORD_EPOCH as i64 || start - DISCORD_EPOCH as i64 >= 4_398_046_511_104 {
        return None;
    }
    let first = time_snowflake(start, false);
    Some(Window { first_after: first - 1, end_millis: start + MILLIS_PER_WEEK })
}

/// What to do with one page of posts.
pub struct PagePlan {
    /// The positions of the posts to append, in order.
    pub ingest: Vec<usize>,
    /// The snowflake to read the next page after, or `None` when reading is
    /// over.
    pub next_after: Option<u64>,
}

/// Some post of `page` lies past the window.
pub open spec fn reaches_past(page: Seq<Post>, end_millis: i64) -> bool {
    exists|i: int| 0 <= i < page.len() && (#[trigger] page[i]).timestamp_millis > end_millis
}

/// The post is appended: it lies within the window and has reactions.
pub open spec fn to_ingest(p: Post, end_millis: i64) -> bool {
    p.timestamp_millis <= end_millis && p.reactions@.len() > 0
}

/// Plans one page: every post of it within the window (not later than
/// `end_millis`) that has reactions is appended, in page order; reading
/// goes on after the page's first post unless the page is empty or holds a
/// post past the window.
pub fn plan_page(page: &Vec<Post>, end_millis: i64) -> (r: PagePlan)
    ensures
        forall|k: int| 0 <= k < r.ingest@.len() ==> (#[trigger] r.ingest@[k]) < page@.len(),
        forall|k: int, m: int| 0 <= k < m < r.ingest@.len() ==> r.ingest@[k] < r.ingest@[m],
        forall|i: int|
            0 <= i < page@.len() ==> (to_ingest(#[trigger] page@[i], end_millis) <==> r.ingest@.contains(
                i as usize,
            )),
        r.next_after == if page@.len() > 0 && !reaches_past(page@, end_millis) {
            Some(page@[0].id)
        } else {
            None::<u64>
        },
{
    let mut ingest: Vec<usize> = Vec::new();
    let mut past = false;
    let mut i: usize = 0;
    while i < page.len()
        invariant
            i <= page@.len(),
            past == exists|j: int| 0 <= j < i && (#[trigger] page@[j]).timestamp_millis > end_millis,
            forall|k: int| 0 <= k < ingest@.len() ==> (#[trigger] ingest@[k]) < i,
            forall|k: int, m: int| 0 <= k < m < ingest@.len() ==> ingest@[k] < ingest@[m],
            forall|j: int|
                0 <= j < i ==> (to_ingest(#[trigger] page@[j], end_millis) <==> ingest@.contains(
                    j as usize,
                )),
        decreases page@.len() - i,
    {
        let ghost prev = ingest@;
        if page[i].timestamp_millis > end_millis {
            past = true;
        } else if page[i].reactions.len() > 0 {
            ingest.push(i);
        }
        proof {
            assert forall|j: int| 0 <= j <= i implies (to_ingest(#[trigger] page@[j], end_millis)
                <==> ingest@.contains(j as usize)) by {
                if ingest@.contains(j as usize) {
                    let k = choose|k: int| 0 <= k < ingest@.len() && ingest@[k] == j as usize;
                    if k < prev.len() {
                        assert(prev[k] == j as usize);
                        assert(prev.contains(j as usize));
                    }
                }
                if j < i && prev.contains(j as usize) {
                    let k = choose|k: int| 0 <= k < prev.len() && prev[k] == j as usize;
                    assert(ingest@[k] == j as usize);
                }
                if j == i && to_ingest(page@[j], end_millis) {
                    assert(ingest@[prev.len() as int] == i);
                }
                if j < i && !to_ingest(page@[j], end_millis) && ingest@.contains(j as usize) {
                    let k = choose|k: int| 0 <= k < ingest@.len() && ingest@[k] == j as usize;
                    if k == prev.len() {
                        assert(ingest@[k] == i);
                    }
                }
            }
        }
        i = i + 1;
    }
    let next_after = if page.len() > 0 && !past {
        Some(page[0].id)
    } else {
        None
    };
    PagePlan { ingest, next_after }
}

/// The rank shown beside the entry at `i` of a best-first list of scores:
/// one more than its position, shared by a run of equal scores.
pub open spec fn rank_at(scores: Seq<u64>, i: int) -> nat
    decreases i,
{
    if i <= 0 {
        1
    } else if scores[i] != scores[i - 1] {
        (i + 1) as nat
    } else {
        rank_at(scores, i - 1)
    }
}

/// The ranks of a best-first list of scores.
pub fn competition_ranks(scores: &Vec<u64>) -> (r: Vec<usize>)
    ensures
        r@.len() == scores@.len(),
        forall|i: int| 0 <= i < r@.len() ==> (#[trigger] r@[i]) as nat == rank_at(scores@, i),
{
    let mut r: Vec<usize> = Vec::new();
    let mut rank: usize = 0;
    let mut prev: u64 = 0;
    let mut i: usize = 0;
    while i < scores.len()
        invariant
            i <= scores@.len(),
            r@.len() == i,
            forall|k: int| 0 <= k < i ==> (#[trigger] r@[k]) as nat == rank_at(scores@, k),
            i > 0 ==> rank as nat == rank_at(scores@, i - 1) && prev == scores@[i - 1],
            rank <= i,
        decreases scores@.len() - i,
    {
        if i == 0 || scores[i] != prev {
            rank = i + 1;
        }
        prev = scores[i];
        r.push(rank);
        i = i + 1;
    }
    r
}

} // verus!
