//! Posts as the engine sees them, and the scores derived from their reaction
//! tallies.

use vstd::prelude::*;
use crate::config::{Emoji, same_emoji, same_kind};

verus! {

/// The tally of one reaction kind on a post.
pub struct Reaction {
    pub kind: Emoji,
    pub count: u64,
    /// Whether the acting identity is among those who reacted.
    pub me: bool,
}

impl Clone for Reaction {
    fn clone(&self) -> (r: Self)
        ensures
            r == *self,
    {
        Reaction { kind: self.kind.clone(), count: self.count, me: self.me }
    }
}

/// A post that stands in for another one.
#[derive(PartialEq, Eq, Structural, Debug, Clone, Copy)]
pub struct ForwardRef {
    pub channel_id: u64,
    pub post_id: u64,
}

pub struct Post {
    pub id: u64,
    pub channel_id: u64,
    pub guild_id: Option<u64>,
    pub timestamp_millis: i64,
    pub author_id: u64,
    pub author_name: String,
    pub reactions: Vec<Reaction>,
    /// The URLs of the attachments.
    pub attachments: Vec<String>,
    pub body: String,
    pub forward: Option<ForwardRef>,
}

/// A tally less the acting identity's own reaction.
pub open spec fn net_count(r: Reaction) -> u64 {
    if r.me && r.count > 0 {
        (r.count - 1) as u64
    } else {
        r.count
    }
}

/// The score of the first tally of `kind`, if the post has one.
pub open spec fn category_score(reactions: Seq<Reaction>, kind: Emoji) -> Option<u64>
    decreases reactions.len(),
{
    if reactions.len() == 0 {
        None
    } else if same_kind(reactions[0].kind, kind) {
        Some(net_count(reactions[0]))
    } else {
        category_score(reactions.drop_first(), kind)
    }
}

/// `kind` is one of `kinds`.
pub open spec fn kind_listed(kinds: Seq<Emoji>, kind: Emoji) -> bool {
    exists|i: int| 0 <= i < kinds.len() && same_kind(#[trigger] kinds[i], kind)
}

/// The tallies whose kind is not among `excluded`, in their order.
pub open spec fn counted_reactions(reactions: Seq<Reaction>, excluded: Seq<Emoji>) -> Seq<Reaction> {
    reactions.filter(|r: Reaction| !kind_listed(excluded, r.kind))
}

/// The sum of the net tallies.
pub open spec fn total_net(reactions: Seq<Reaction>) -> int
    decreases reactions.len(),
{
    if reactions.len() == 0 {
        0
    } else {
        total_net(reactions.drop_last()) + net_count(reactions.last())
    }
}

/// The cheap score of the residual leaderboard: the net tallies of the kinds
/// not excluded, summed, and held at `u64::MAX`.
pub open spec fn approx_score(reactions: Seq<Reaction>, excluded: Seq<Emoji>) -> u64 {
    let t = total_net(counted_reactions(reactions, excluded));
    if t > u64::MAX {
        u64::MAX
    } else {
        t as u64
    }
}

/// Everyone in any of the lists.
pub open spec fn listed_users(lists: Seq<Seq<u64>>) -> Set<u64>
    decreases lists.len(),
{
    if lists.len() == 0 {
        Set::empty()
    } else {
        listed_users(lists.drop_last()).union(lists.last().to_set())
    }
}

/// The exact score: how many distinct users other than `me` are listed.
pub open spec fn exact_score(lists: Seq<Seq<u64>>, me: u64) -> nat {
    listed_users(lists).remove(me).len()
}

pub open spec fn list_views(lists: Seq<Vec<u64>>) -> Seq<Seq<u64>> {
    lists.map_values(|v: Vec<u64>| v@)
}

pub fn is_same_emoji(r: &Reaction, emoji: &Emoji) -> (b: bool)
    ensures
        b == same_kind(r.kind, *emoji),
{
    same_emoji(&r.kind, emoji)
}

pub fn reaction_score(r: &Reaction) -> (s: u64)
    ensures
        s == net_count(*r),
{
    if r.me && r.count > 0 {
        r.count - 1
    } else {
        r.count
    }
}

/// The score of `post` in the category of `kind`: the net tally of that
/// kind, or `None` when the post has no such reaction.
pub fn match_category(post: &Post, kind: &Emoji) -> (r: Option<u64>)
    ensures
        r == category_score(post.reactions@, *kind),
{
    let rs = &post.reactions;
    let mut i: usize = 0;
    assert(rs@.skip(0) =~= rs@);
    while i < rs.len()
        invariant
            rs@ == post.reactions@,
            i <= rs@.len(),
            category_score(rs@, *kind) == category_score(rs@.skip(i as int), *kind),
        decreases rs@.len() - i,
    {
        assert(rs@.skip(i as int).drop_first() =~= rs@.skip(i + 1));
        if is_same_emoji(&rs[i], kind) {
            return Some(reaction_score(&rs[i]));
        }
        i = i + 1;
    }
    None
}

pub fn kind_in(kinds: &Vec<Emoji>, kind: &Emoji) -> (r: bool)
    ensures
        r == kind_listed(kinds@, *kind),
{
    let mut i: usize = 0;
    while i < kinds.len()
        invariant
            i <= kinds@.len(),
            forall|j: int| 0 <= j < i ==> !same_kind(#[trigger] kinds@[j], *kind),
        decreases kinds@.len() - i,
    {
        if same_emoji(&kinds[i], kind) {
            return true;
        }
        i = i + 1;
    }
    false
}

/// The tallies of `reactions` that count towards the residual leaderboard.
pub fn strip_reactions(reactions: &Vec<Reaction>, excluded: &Vec<Emoji>) -> (r: Vec<Reaction>)
    ensures
        r@ == counted_reactions(reactions@, excluded@),
{
    let mut out: Vec<Reaction> = Vec::new();
    let mut i: usize = 0;
    while i < reactions.len()
        invariant
            i <= reactions@.len(),
            out@ == counted_reactions(reactions@.take(i as int), excluded@),
        decreases reactions@.len() - i,
    {
        proof {
            reveal(Seq::filter);
            assert(reactions@.take(i + 1).drop_last() =~= reactions@.take(i as int));
            assert(reactions@.take(i + 1).last() == reactions@[i as int]);
        }
        if !kind_in(excluded, &reactions[i].kind) {
            out.push(reactions[i].clone());
        }
        i = i + 1;
    }
    assert(reactions@.take(reactions@.len() as int) =~= reactions@);
    out
}

/// The cheap score of a post for the residual leaderboard.
pub fn approximate_score(reactions: &Vec<Reaction>, excluded: &Vec<Emoji>) -> (s: u64)
    ensures
        s == approx_score(reactions@, excluded@),
{
    let counted = strip_reactions(reactions, excluded);
    let mut sum: u64 = 0;
    let mut i: usize = 0;
    while i < counted.len()
        invariant
            i <= counted@.len(),
            sum == if total_net(counted@.take(i as int)) > u64::MAX {
                u64::MAX as int
            } else {
                total_net(counted@.take(i as int))
            },
        decreases counted@.len() - i,
    {
        proof {
            assert(counted@.take(i + 1).drop_last() =~= counted@.take(i as int));
            lemma_total_net_nonneg(counted@.take(i as int));
        }
        let add = reaction_score(&counted[i]);
        if sum > u64::MAX - add {
            sum = u64::MAX;
        } else {
            sum = sum + add;
        }
        i = i + 1;
    }
    assert(counted@.take(counted@.len() as int) =~= counted@);
    sum
}

proof fn lemma_total_net_nonneg(s: Seq<Reaction>)
    ensures
        total_net(s) >= 0,
    decreases s.len(),
{
    if s.len() > 0 {
        lemma_total_net_nonneg(s.drop_last());
    }
}

/// The cheap score never undercounts: when each counted kind's list of
/// users, less the acting identity `me`, holds no more distinct users than
/// the kind's net tally, then the distinct users other than `me` are at most
/// the sum of the net tallies, and at most the cheap score whenever they fit
/// in a `u64`.
pub proof fn lemma_approx_bounds_exact(
    reactions: Seq<Reaction>,
    excluded: Seq<Emoji>,
    lists: Seq<Seq<u64>>,
    me: u64,
)
    requires
        lists.len() == counted_reactions(reactions, excluded).len(),
        forall|k: int|
            0 <= k < lists.len() ==> lists[k].to_set().remove(me).len() <= net_count(
                #[trigger] counted_reactions(reactions, excluded)[k],
            ),
    ensures
        exact_score(lists, me) <= total_net(counted_reactions(reactions, excluded)),
        exact_score(lists, me) <= u64::MAX ==> exact_score(lists, me) <= approx_score(
            reactions,
            excluded,
        ),
{
    lemma_lists_bound(counted_reactions(reactions, excluded), lists, me);
}

proof fn lemma_lists_bound(counted: Seq<Reaction>, lists: Seq<Seq<u64>>, me: u64)
    requires
        lists.len() == counted.len(),
        forall|k: int|
            0 <= k < lists.len() ==> lists[k].to_set().remove(me).len() <= net_count(
                #[trigger] counted[k],
            ),
    ensures
        listed_users(lists).finite(),
        exact_score(lists, me) <= total_net(counted),
    decreases lists.len(),
{
    broadcast use vstd::seq_lib::seq_to_set_is_finite;

    if lists.len() > 0 {
        let prev = lists.drop_last();
        let cprev = counted.drop_last();
        assert forall|k: int| 0 <= k < prev.len() implies prev[k].to_set().remove(me).len()
            <= net_count(#[trigger] cprev[k]) by {
            assert(cprev[k] == counted[k]);
            assert(prev[k] == lists[k]);
        }
        lemma_lists_bound(cprev, prev, me);
        let a = listed_users(prev);
        let b = lists.last().to_set();
        assert(counted.last() == counted[counted.len() - 1]);
        assert(listed_users(lists).remove(me) =~= a.remove(me).union(b.remove(me)));
        vstd::set_lib::lemma_len_union(a.remove(me), b.remove(me));
    }
}

pub(crate) fn list_holds(v: &Vec<u64>, x: u64) -> (r: bool)
    ensures
        r == v@.contains(x),
{
    let mut i: usize = 0;
    while i < v.len()
        invariant
            i <= v@.len(),
            forall|j: int| 0 <= j < i ==> v@[j] != x,
        decreases v@.len() - i,
    {
        if v[i] == x {
            return true;
        }
        i = i + 1;
    }
    false
}

/// The exact score of a candidate: the number of distinct users in `lists`,
/// one list per reaction kind, other than `me`.
pub fn count_distinct_users(lists: &Vec<Vec<u64>>, me: u64) -> (r: u64)
    ensures
        r == exact_score(list_views(lists@), me),
{
    let ghost views = list_views(lists@);
    let mut seen: Vec<u64> = Vec::new();
    let mut k: usize = 0;
    while k < lists.len()
        invariant
            views == list_views(lists@),
            k <= lists@.len(),
            seen@.no_duplicates(),
            seen@.to_set() == listed_users(views.take(k as int)).remove(me),
        decreases lists@.len() - k,
    {
        let list = &lists[k];
        let ghost before = listed_users(views.take(k as int));
        proof {
            assert(views.take(k + 1).drop_last() =~= views.take(k as int));
            assert(views.take(k + 1).last() == list@);
        }
        let mut j: usize = 0;
        while j < list.len()
            invariant
                list@ == views[k as int],
                j <= list@.len(),
                seen@.no_duplicates(),
                seen@.to_set() == before.union(list@.take(j as int).to_set()).remove(me),
            decreases list@.len() - j,
        {
            let u = list[j];
            proof {
                assert(list@.take(j + 1).to_set() =~= list@.take(j as int).to_set().insert(u)) by {
                    assert forall|x: u64| list@.take(j + 1).contains(x) implies list@.take(
                        j as int,
                    ).to_set().insert(u).contains(x) by {
                        let m = choose|m: int| 0 <= m < j + 1 && #[trigger] list@.take(j + 1)[m] == x;
                        if m < j {
                            assert(list@.take(j as int)[m] == x);
                        }
                    }
                    assert forall|x: u64| list@.take(j as int).contains(x) implies list@.take(
                        j + 1,
                    ).contains(x) by {
                        let m = choose|m: int| 0 <= m < j && #[trigger] list@.take(j as int)[m] == x;
                        assert(list@.take(j + 1)[m] == x);
                    }
                    assert(list@.take(j + 1)[j as int] == u);
                }
            }
            if u != me && !list_holds(&seen, u) {
                let ghost old_seen = seen@;
                seen.push(u);
                proof {
                    assert(seen@.to_set() =~= old_seen.to_set().insert(u)) by {
                        assert forall|x: u64| seen@.contains(x) implies old_seen.to_set().insert(u).contains(x) by {
                            let m = choose|m: int| 0 <= m < seen@.len() && #[trigger] seen@[m] == x;
                            if m < old_seen.len() {
                                assert(old_seen[m] == x);
                            }
                        }
                        assert forall|x: u64| old_seen.contains(x) implies seen@.contains(x) by {
                            let m = choose|m: int| 0 <= m < old_seen.len() && #[trigger] old_seen[m] == x;
                            assert(seen@[m] == x);
                        }
                        assert(seen@[seen@.len() - 1] == u);
                    }
                    assert(seen@.to_set() =~= before.union(list@.take(j + 1).to_set()).remove(me));
                }
            } else {
                proof {
                    assert(seen@.to_set() =~= before.union(list@.take(j + 1).to_set()).remove(me));
                }
            }
            j = j + 1;
        }
        proof {
            assert(list@.take(list@.len() as int) =~= list@);
        }
        k = k + 1;
    }
    proof {
        assert(views.take(lists@.len() as int) =~= views);
        seen@.unique_seq_to_set();
    }
    seen.len() as u64
}

} // verus!
