//! The leaderboard engine: posts are appended one at a time during a window;
//! then the residual leaderboard is refined, one exact lookup per candidate,
//! with the lookups made by the caller.

use vstd::prelude::*;
use crate::config::{Config, ConfigError, Emoji, Toplist as Category, config_sound, fault_matches};
use crate::post::{
    Post,
    Reaction,
    approx_score,
    approximate_score,
    category_score,
    count_distinct_users,
    counted_reactions,
    exact_score,
    list_holds,
    list_views,
    match_category,
    strip_reactions,
};
use crate::topk::{
    Ranked,
    TopKSet,
    admit_all,
    admitted,
    count_positive,
    floor_of,
    lemma_admit_all_keeps_top,
    lemma_admitted_from,
    lemma_floor_never_drops,
    valid_entries,
};

verus! {

/// A post and what it shows.
pub struct MsgWrap {
    pub content: Option<String>,
    pub message: Post,
}

/// Where a run stands.
#[derive(PartialEq, Eq, Structural, Debug, Clone, Copy)]
pub enum Phase {
    /// Posts are being appended.
    Ingesting,
    /// The residual leaderboard is being refined; an exact lookup is owed.
    Refining,
    /// All leaderboards are final.
    Finalized,
    /// A lookup failed; the residual leaderboard was dropped.
    Failed,
}

/// What the refinement needs next.
#[derive(PartialEq, Eq, Structural, Debug, Clone, Copy)]
pub enum RefineStep {
    /// The users who reacted to this candidate, for each kind that counts
    /// (see [`Toplist::stripped_reactions`]).
    Query { candidate: usize },
    /// Nothing: the refinement is over.
    Done,
}

/// The reaction kinds that never count towards the residual leaderboard:
/// those ignored, and those of the named categories.
pub open spec fn excluded_of(c: Config) -> Seq<Emoji> {
    c.other.ignore@ + c.toplist@.map_values(|t: Category| t.emoji)
}

/// The post has a reaction of some named category.
pub open spec fn matched_any(c: Config, p: Post) -> bool {
    exists|i: int|
        0 <= i < c.toplist@.len() && #[trigger] category_score(p.reactions@, c.toplist@[i].emoji) is Some
}

/// The post is offered to the residual pre-selection.
pub open spec fn preselectable(c: Config, p: Post) -> bool {
    c.other.enabled && !(c.other.exclusive && matched_any(c, p))
}

/// A category's entries after the post at `idx` is appended.
pub open spec fn category_after(old: Seq<Ranked<usize>>, cat: Category, p: Post, idx: usize) -> Seq<
    Ranked<usize>,
> {
    match category_score(p.reactions@, cat.emoji) {
        Some(s) => admitted(old, cat.max as nat, Ranked { score: s, id: p.id, item: idx }),
        None => old,
    }
}

/// What each appended post offers the category of `kind`, in order: its
/// score there, its id, and its position.
pub open spec fn category_candidates(posts: Seq<MsgWrap>, kind: Emoji) -> Seq<Ranked<usize>>
    decreases posts.len(),
{
    if posts.len() == 0 {
        Seq::empty()
    } else {
        let prev = category_candidates(posts.drop_last(), kind);
        match category_score(posts.last().message.reactions@, kind) {
            Some(s) => prev.push(
                Ranked { score: s, id: posts.last().message.id, item: (posts.len() - 1) as usize },
            ),
            None => prev,
        }
    }
}

/// No two posts share an id.
pub open spec fn distinct_posts(posts: Seq<MsgWrap>) -> bool {
    forall|a: int, b: int|
        0 <= a < posts.len() && 0 <= b < posts.len() && a != b ==> #[trigger] posts[a].message.id
            != #[trigger] posts[b].message.id
}

/// Some named leaderboard holds `id`.
pub open spec fn listed_in(named: Seq<Seq<Ranked<usize>>>, id: u64) -> bool {
    exists|i: int, j: int|
        0 <= i < named.len() && 0 <= j < named[i].len() && #[trigger] named[i][j].id == id
}

/// The next candidate to look up, scanning `bf` (best first) from `i`: the
/// scan ends at the first candidate whose cheap score does not beat `floor`,
/// and passes over candidates whose id is in `skip`.
pub open spec fn next_query(bf: Seq<Ranked<usize>>, i: int, floor: u64, skip: Seq<u64>) -> Option<int>
    decreases bf.len() - i,
{
    if i < 0 || i >= bf.len() || bf[i].score <= floor {
        None
    } else if skip.contains(bf[i].id) {
        next_query(bf, i + 1, floor, skip)
    } else {
        Some(i)
    }
}

/// The leaderboards of one window: one per named category, and the
/// residual one, first pre-selected by cheap score and then refined by
/// exact score.
pub struct Toplist {
    config: Config,
    current_user_id: u64,
    excluded: Vec<Emoji>,
    candidates: Vec<MsgWrap>,
    top: Vec<TopKSet<usize>>,
    other_prep: TopKSet<usize>,
    other: TopKSet<usize>,
    phase: Phase,
    cursor: usize,
    named_ids: Vec<u64>,
}

pub open spec fn refers_within(s: Seq<Ranked<usize>>, posts: Seq<MsgWrap>) -> bool {
    forall|j: int|
        0 <= j < s.len() ==> (#[trigger] s[j]).item < posts.len() && posts[s[j].item as int].message.id
            == s[j].id
}

/// Offering an entry that refers to its post keeps every entry referring to
/// its post, also after more posts are appended.
proof fn lemma_refers_after(
    s: Seq<Ranked<usize>>,
    cap: nat,
    c: Ranked<usize>,
    before: Seq<MsgWrap>,
    after: Seq<MsgWrap>,
)
    requires
        cap > 0,
        valid_entries(s, cap),
        refers_within(s, before),
        before.len() <= after.len(),
        forall|k: int| 0 <= k < before.len() ==> #[trigger] after[k] == before[k],
        c.item < after.len(),
        after[c.item as int].message.id == c.id,
    ensures
        refers_within(admitted(s, cap, c), after),
{
    lemma_admitted_from(s, cap, c);
    let r = admitted(s, cap, c);
    assert forall|j: int| 0 <= j < r.len() implies (#[trigger] r[j]).item < after.len()
        && after[r[j].item as int].message.id == r[j].id by {
        if r[j] != c {
            let k = choose|k: int| 0 <= k < s.len() && s[k] == r[j];
            assert(s[k].item < before.len());
            assert(after[s[k].item as int] == before[s[k].item as int]);
        }
    }
}

/// One more post extends a category's candidates by what it offers.
proof fn lemma_category_step(posts: Seq<MsgWrap>, m: MsgWrap, kind: Emoji, cap: nat)
    ensures
        admit_all(category_candidates(posts.push(m), kind), cap) == match category_score(
            m.message.reactions@,
            kind,
        ) {
            Some(s) => admitted(
                admit_all(category_candidates(posts, kind), cap),
                cap,
                Ranked { score: s, id: m.message.id, item: posts.len() as usize },
            ),
            None => admit_all(category_candidates(posts, kind), cap),
        },
{
    let next = posts.push(m);
    assert(next.drop_last() =~= posts);
    let prev = category_candidates(posts, kind);
    match category_score(m.message.reactions@, kind) {
        Some(s) => {
            let c = Ranked { score: s, id: m.message.id, item: posts.len() as usize };
            assert(prev.push(c).drop_last() =~= prev);
        },
        None => {},
    }
}

/// Each candidate of a category is the post at its position.
proof fn lemma_candidates_refer(posts: Seq<MsgWrap>, kind: Emoji)
    requires
        posts.len() <= usize::MAX,
    ensures
        forall|k: int|
            0 <= k < category_candidates(posts, kind).len() ==> {
                let c = #[trigger] category_candidates(posts, kind)[k];
                &&& c.item < posts.len()
                &&& posts[c.item as int].message.id == c.id
                &&& category_score(posts[c.item as int].message.reactions@, kind) == Some(c.score)
            },
        forall|k: int, l: int|
            0 <= k < l < category_candidates(posts, kind).len() ==> #[trigger] category_candidates(
                posts,
                kind,
            )[k].item < #[trigger] category_candidates(posts, kind)[l].item,
    decreases posts.len(),
{
    if posts.len() > 0 {
        let prev = posts.drop_last();
        lemma_candidates_refer(prev, kind);
        let cp = category_candidates(prev, kind);
        let cc = category_candidates(posts, kind);
        let last = posts.last();
        let c = Ranked {
            score: category_score(last.message.reactions@, kind).unwrap_or(0),
            id: last.message.id,
            item: (posts.len() - 1) as usize,
        };
        if category_score(last.message.reactions@, kind) is Some {
            assert(cc == cp.push(c));
        } else {
            assert(cc == cp);
        }
        assert forall|k: int| 0 <= k < cp.len() implies cc[k] == cp[k] && posts[cp[k].item as int]
            == prev[cp[k].item as int] by {
            assert(cp[k].item < prev.len());
        }
        assert forall|k: int|
            0 <= k < cc.len() implies {
                let c = #[trigger] cc[k];
                &&& c.item < posts.len()
                &&& posts[c.item as int].message.id == c.id
                &&& category_score(posts[c.item as int].message.reactions@, kind) == Some(c.score)
            } by {
            if k < cp.len() {
                assert(cc[k] == cp[k]);
            } else {
                assert(cc[k] == c);
                assert(posts[posts.len() - 1] == last);
            }
        }
        assert forall|k: int, l: int| 0 <= k < l < cc.len() implies #[trigger] cc[k].item
            < #[trigger] cc[l].item by {
            assert(cc[k] == cp[k]);
            if l < cp.len() {
                assert(cc[l] == cp[l]);
            } else {
                assert(cc[l] == c);
                assert(cp[k].item < prev.len());
            }
        }
    }
}

/// Whatever posts with distinct ids were appended, each named leaderboard
/// holds the highest-scoring posts that have its reaction kind: exactly the
/// result of offering them in order, sorted by `(score, id)`, each entry one
/// of those posts, and a post with a positive score left out only when the
/// leaderboard is full and each entry scores at least as much. It holds
/// its capacity of entries, or every post with a positive score there when
/// there are fewer; each entry's score is its post's score in the category.
pub proof fn lemma_named_keeps_top(t: &Toplist, i: int)
    requires
        t.wf(),
        0 <= i < t.named().len(),
        distinct_posts(t.posts()),
    ensures
        ({
            let cat = t.settings().toplist@[i];
            let cands = category_candidates(t.posts(), cat.emoji);
            let s = t.named()[i];
            &&& s == admit_all(cands, cat.max as nat)
            &&& valid_entries(s, cat.max as nat)
            &&& forall|k: int| 0 <= k < s.len() ==> cands.contains(#[trigger] s[k])
            &&& forall|c: Ranked<usize>|
                #[trigger] cands.contains(c) && c.score > 0 && !s.contains(c) ==> s.len() == cat.max
                    && forall|k: int| 0 <= k < s.len() ==> c.score <= #[trigger] s[k].score
            &&& s.len() == if count_positive(cands) < cat.max {
                count_positive(cands)
            } else {
                cat.max as nat
            }
            &&& forall|k: int|
                0 <= k < s.len() ==> {
                    let e = #[trigger] s[k];
                    &&& e.item < t.posts().len()
                    &&& t.posts()[e.item as int].message.id == e.id
                    &&& category_score(t.posts()[e.item as int].message.reactions@, cat.emoji) == Some(
                        e.score,
                    )
                }
        }),
{
    let cat = t.config.toplist@[i];
    let cands = category_candidates(t.candidates@, cat.emoji);
    assert(t.candidates@.len() == t.candidates.len());
    lemma_candidates_refer(t.candidates@, cat.emoji);
    assert(!crate::config::category_faulty(t.config.toplist@, i));
    assert forall|a: int, b: int|
        0 <= a < cands.len() && 0 <= b < cands.len() && a != b implies #[trigger] cands[a].id
        != #[trigger] cands[b].id by {
        if a < b {
            assert(cands[a].item < cands[b].item);
        } else {
            assert(cands[b].item < cands[a].item);
        }
    }
    lemma_admit_all_keeps_top(cands, cat.max as nat);
    let s = t.named()[i];
    assert(s == t.top@[i]@);
    assert forall|k: int| 0 <= k < s.len() implies {
        let e = #[trigger] s[k];
        &&& e.item < t.posts().len()
        &&& t.posts()[e.item as int].message.id == e.id
        &&& category_score(t.posts()[e.item as int].message.reactions@, cat.emoji) == Some(e.score)
    } by {
        assert(cands.contains(s[k]));
        let j = choose|j: int| 0 <= j < cands.len() && cands[j] == s[k];
        assert(cands[j] == s[k]);
    }
}

/// No leaderboard of the engine, nor its pre-selection, holds an entry of
/// score 0.
pub proof fn lemma_no_zero_in_toplist(t: &Toplist)
    requires
        t.wf(),
    ensures
        forall|i: int, k: int|
            0 <= i < t.named().len() && 0 <= k < t.named()[i].len() ==> #[trigger] t.named()[i][k].score
                > 0,
        forall|k: int| 0 <= k < t.prepared().len() ==> #[trigger] t.prepared()[k].score > 0,
        forall|k: int| 0 <= k < t.overflow().len() ==> #[trigger] t.overflow()[k].score > 0,
{
    assert forall|i: int, k: int|
        0 <= i < t.named().len() && 0 <= k < t.named()[i].len() implies #[trigger] t.named()[i][k].score
        > 0 by {
        assert(t.named()[i] == t.top@[i]@);
        assert(t.top@[i].wf());
    }
}

/// Appending posts keeps entries referring to their posts.
proof fn lemma_refers_grow(s: Seq<Ranked<usize>>, before: Seq<MsgWrap>, after: Seq<MsgWrap>)
    requires
        refers_within(s, before),
        before.len() <= after.len(),
        forall|k: int| 0 <= k < before.len() ==> #[trigger] after[k] == before[k],
    ensures
        refers_within(s, after),
{
    assert forall|j: int| 0 <= j < s.len() implies (#[trigger] s[j]).item < after.len()
        && after[s[j].item as int].message.id == s[j].id by {
        assert(after[s[j].item as int] == before[s[j].item as int]);
    }
}

impl Toplist {
    pub closed spec fn settings(&self) -> Config {
        self.config
    }

    /// The acting identity.
    pub closed spec fn me(&self) -> u64 {
        self.current_user_id
    }

    /// Every post appended, in order.
    pub closed spec fn posts(&self) -> Seq<MsgWrap> {
        self.candidates@
    }

    /// The entries of each named category, lowest first; an entry's item is
    /// the index of its post.
    pub closed spec fn named(&self) -> Seq<Seq<Ranked<usize>>> {
        self.top@.map_values(|t: TopKSet<usize>| t@)
    }

    /// The residual candidates by cheap score, lowest first.
    pub closed spec fn prepared(&self) -> Seq<Ranked<usize>> {
        self.other_prep@
    }

    /// The residual leaderboard by exact score, lowest first.
    pub closed spec fn overflow(&self) -> Seq<Ranked<usize>> {
        self.other@
    }

    pub closed spec fn state(&self) -> Phase {
        self.phase
    }

    /// While refining: the position, best first among the prepared
    /// candidates, of the one whose lookup is owed.
    pub closed spec fn next_index(&self) -> int {
        self.cursor as int
    }

    /// The ids held by the named leaderboards when refinement began.
    pub closed spec fn listed_ids(&self) -> Seq<u64> {
        self.named_ids@
    }

    pub open spec fn other_cap(&self) -> nat {
        self.settings().other.max as nat
    }

    pub closed spec fn wf(&self) -> bool {
        &&& config_sound(self.config)
        &&& self.excluded@ == excluded_of(self.config)
        &&& self.top@.len() == self.config.toplist@.len()
        &&& forall|i: int|
            0 <= i < self.top@.len() ==> {
                &&& (#[trigger] self.top@[i]).wf()
                &&& self.top@[i].cap() == self.config.toplist@[i].max
                &&& refers_within(self.top@[i]@, self.candidates@)
            }
        &&& self.other_prep.wf()
        &&& self.other_prep.cap() == usize::MAX
        &&& refers_within(self.other_prep@, self.candidates@)
        &&& self.other.wf()
        &&& self.other.cap() == self.config.other.max
        &&& refers_within(self.other@, self.candidates@)
        &&& self.phase == Phase::Refining ==> self.cursor < self.other_prep@.len()
        &&& forall|i: int|
            0 <= i < self.top@.len() ==> (#[trigger] self.top@[i])@ == admit_all(
                category_candidates(self.candidates@, self.config.toplist@[i].emoji),
                self.config.toplist@[i].max as nat,
            )
    }

    /// The refinement stands where `r` says, having scanned from `from`.
    pub open spec fn refined_to(&self, r: RefineStep, from: int) -> bool {
        let bf = self.prepared().reverse();
        match next_query(bf, from, floor_of(self.overflow(), self.other_cap()), self.listed_ids()) {
            None => self.state() == Phase::Finalized && r == RefineStep::Done,
            Some(i) => self.state() == Phase::Refining && self.next_index() == i && r
                == RefineStep::Query { candidate: bf[i].item },
        }
    }

    /// An engine for `config`, acting as `current_user_id`; settings that
    /// cannot be run are refused here.
    pub fn new(config: Config, current_user_id: u64) -> (r: Result<Toplist, ConfigError>)
        ensures
            r is Ok <==> config_sound(config),
            r matches Err(e) ==> fault_matches(config, e),
            r matches Ok(t) ==> {
                &&& t.wf()
                &&& t.settings() == config
                &&& t.me() == current_user_id
                &&& t.state() == Phase::Ingesting
                &&& t.posts().len() == 0
                &&& t.named().len() == config.toplist@.len()
                &&& forall|i: int| 0 <= i < t.named().len() ==> (#[trigger] t.named()[i]).len() == 0
                &&& t.prepared().len() == 0
                &&& t.overflow().len() == 0
            },
    {
        match config.validate() {
            Err(e) => {
                return Err(e);
            },
            Ok(()) => {},
        }
        let mut excluded: Vec<Emoji> = Vec::new();
        let mut i: usize = 0;
        while i < config.other.ignore.len()
            invariant
                i <= config.other.ignore@.len(),
                excluded@ == config.other.ignore@.take(i as int),
            decreases config.other.ignore@.len() - i,
        {
            excluded.push(config.other.ignore[i].clone());
            assert(config.other.ignore@.take(i + 1) =~= config.other.ignore@.take(i as int).push(
                config.other.ignore@[i as int],
            ));
            i = i + 1;
        }
        assert(config.other.ignore@.take(i as int) =~= config.other.ignore@);
        let mut top: Vec<TopKSet<usize>> = Vec::new();
        let mut k: usize = 0;
        while k < config.toplist.len()
            invariant
                config_sound(config),
                k <= config.toplist@.len(),
                excluded@ == config.other.ignore@ + config.toplist@.take(k as int).map_values(
                    |t: Category| t.emoji,
                ),
                top@.len() == k,
                forall|j: int|
                    0 <= j < k ==> {
                        &&& (#[trigger] top@[j]).wf()
                        &&& top@[j].cap() == config.toplist@[j].max
                        &&& top@[j]@.len() == 0
                    },
            decreases config.toplist@.len() - k,
        {
            assert(!crate::config::category_faulty(config.toplist@, k as int));
            excluded.push(config.toplist[k].emoji.clone());
            top.push(TopKSet::new(config.toplist[k].max));
            assert(config.toplist@.take(k + 1).map_values(|t: Category| t.emoji) =~= config.toplist@.take(
                k as int,
            ).map_values(|t: Category| t.emoji).push(config.toplist@[k as int].emoji));
            k = k + 1;
        }
        assert(config.toplist@.take(k as int) =~= config.toplist@);
        let other_max = config.other.max;
        let t = Toplist {
            config,
            current_user_id,
            excluded,
            candidates: Vec::new(),
            top,
            other_prep: TopKSet::new(usize::MAX),
            other: TopKSet::new(other_max),
            phase: Phase::Ingesting,
            cursor: 0,
            named_ids: Vec::new(),
        };
        assert(t.named() =~= t.top@.map_values(|s: TopKSet<usize>| s@));
        proof {
            assert(t.candidates@ =~= Seq::<MsgWrap>::empty());
            assert forall|j: int| 0 <= j < t.top@.len() implies (#[trigger] t.top@[j])@ == admit_all(
                category_candidates(t.candidates@, t.config.toplist@[j].emoji),
                t.config.toplist@[j].max as nat,
            ) by {
                assert(t.top@[j]@ =~= Seq::<Ranked<usize>>::empty());
            }
        }
        Ok(t)
    }

    /// Ingests one post, with the content it shows: each named category
    /// whose kind the post has is offered it, scored by the net tally of that
    /// kind; the residual pre-selection is offered it, scored by its cheap
    /// score, when enabled (and, if exclusive, when no category matched).
    pub fn append(&mut self, post: Post, content: Option<String>)
        requires
            old(self).wf(),
            old(self).state() == Phase::Ingesting,
        ensures
            final(self).wf(),
            final(self).state() == Phase::Ingesting,
            final(self).settings() == old(self).settings(),
            final(self).me() == old(self).me(),
            final(self).overflow() == old(self).overflow(),
            final(self).posts() == old(self).posts().push(MsgWrap { content, message: post }),
            final(self).named().len() == old(self).named().len(),
            forall|i: int|
                0 <= i < old(self).named().len() ==> #[trigger] final(self).named()[i]
                    == category_after(
                    old(self).named()[i],
                    old(self).settings().toplist@[i],
                    post,
                    old(self).posts().len() as usize,
                ),
            final(self).prepared() == if preselectable(old(self).settings(), post) {
                admitted(
                    old(self).prepared(),
                    usize::MAX as nat,
                    Ranked {
                        score: approx_score(post.reactions@, excluded_of(old(self).settings())),
                        id: post.id,
                        item: old(self).posts().len() as usize,
                    },
                )
            } else {
                old(self).prepared()
            },
            approx_score(post.reactions@, excluded_of(old(self).settings())) == 0
                ==> final(self).prepared() == old(self).prepared(),
    {
        let idx = self.candidates.len();
        let ghost old_top = self.top@;
        let ghost before = self.candidates@;
        let ghost after = self.candidates@.push(MsgWrap { content, message: post });
        let mut matched = false;
        let mut i: usize = 0;
        while i < self.top.len()
            invariant
                old(self).wf(),
                self.config == old(self).config,
                self.current_user_id == old(self).current_user_id,
                self.excluded == old(self).excluded,
                self.other_prep == old(self).other_prep,
                self.other == old(self).other,
                self.phase == old(self).phase,
                self.cursor == old(self).cursor,
                self.named_ids == old(self).named_ids,
                old_top == old(self).top@,
                before == old(self).candidates@,
                config_sound(self.config),
                self.top@.len() == old_top.len(),
                old_top.len() == self.config.toplist@.len(),
                self.candidates@ == before,
                idx == before.len(),
                after == before.push(MsgWrap { content, message: post }),
                i <= old_top.len(),
                forall|j: int|
                    0 <= j < old_top.len() ==> {
                        &&& (#[trigger] old_top[j]).wf()
                        &&& old_top[j].cap() == self.config.toplist@[j].max
                        &&& refers_within(old_top[j]@, before)
                    },
                forall|j: int|
                    0 <= j < i ==> {
                        &&& (#[trigger] self.top@[j]).wf()
                        &&& self.top@[j].cap() == self.config.toplist@[j].max
                        &&& self.top@[j]@ == category_after(
                            old_top[j]@,
                            self.config.toplist@[j],
                            post,
                            idx,
                        )
                        &&& refers_within(self.top@[j]@, after)
                        &&& self.top@[j]@ == admit_all(
                            category_candidates(after, self.config.toplist@[j].emoji),
                            self.config.toplist@[j].max as nat,
                        )
                    },
                forall|j: int| i <= j < old_top.len() ==> #[trigger] self.top@[j] == old_top[j],
                matched == exists|j: int|
                    0 <= j < i && #[trigger] category_score(post.reactions@, self.config.toplist@[j].emoji) is Some,
            decreases old_top.len() - i,
        {
            proof {
                lemma_category_step(
                    before,
                    MsgWrap { content, message: post },
                    self.config.toplist@[i as int].emoji,
                    self.config.toplist@[i as int].max as nat,
                );
            }
            match match_category(&post, &self.config.toplist[i].emoji) {
                Some(score) => {
                    let c = Ranked { score, id: post.id, item: idx };
                    proof {
                        lemma_refers_after(old_top[i as int]@, old_top[i as int].cap(), c, before, after);
                    }
                    self.top[i].offer(c);
                    matched = true;
                },
                None => {
                    proof {
                        lemma_refers_grow(old_top[i as int]@, before, after);
                    }
                },
            }
            i = i + 1;
        }
        if self.config.other.enabled && !(self.config.other.exclusive && matched) {
            let score = approximate_score(&post.reactions, &self.excluded);
            let c = Ranked { score, id: post.id, item: idx };
            proof {
                lemma_refers_after(self.other_prep@, self.other_prep.cap(), c, before, after);
            }
            self.other_prep.offer(c);
        } else {
            proof {
                lemma_refers_grow(self.other_prep@, before, after);
            }
        }
        proof {
            lemma_refers_grow(self.other@, before, after);
        }
        self.candidates.push(MsgWrap { content, message: post });
        assert(self.named().len() == old_top.len());
    }

    /// Scans the prepared candidates, best first, from position `from`, and
    /// stops at the first one whose lookup is owed, or ends the refinement.
    fn advance(&mut self, from: usize) -> (r: RefineStep)
        requires
            old(self).wf(),
            from <= old(self).prepared().len(),
        ensures
            final(self).wf(),
            final(self).settings() == old(self).settings(),
            final(self).me() == old(self).me(),
            final(self).posts() == old(self).posts(),
            final(self).named() == old(self).named(),
            final(self).prepared() == old(self).prepared(),
            final(self).overflow() == old(self).overflow(),
            final(self).listed_ids() == old(self).listed_ids(),
            final(self).refined_to(r, from as int),
    {
        let n = self.other_prep.len();
        let floor = self.other.admission_floor();
        let ghost bf = self.other_prep@.reverse();
        let ghost ids = self.named_ids@;
        let mut i: usize = from;
        while i < n && self.other_prep.get(n - 1 - i).score > floor && list_holds(
            &self.named_ids,
            self.other_prep.get(n - 1 - i).id,
        )
            invariant
                n == self.other_prep@.len(),
                bf == self.other_prep@.reverse(),
                ids == self.named_ids@,
                from <= i <= n,
                floor == floor_of(self.other@, self.other.cap()),
                next_query(bf, from as int, floor, ids) == next_query(bf, i as int, floor, ids),
            decreases n - i,
        {
            assert(bf[i as int] == self.other_prep@[n - 1 - i]);
            i = i + 1;
        }
        if i < n && self.other_prep.get(n - 1 - i).score > floor {
            assert(bf[i as int] == self.other_prep@[n - 1 - i]);
            self.cursor = i;
            self.phase = Phase::Refining;
            RefineStep::Query { candidate: self.other_prep.get(n - 1 - i).item }
        } else {
            if i < n {
                assert(bf[i as int] == self.other_prep@[n - 1 - i]);
            }
            self.phase = Phase::Finalized;
            RefineStep::Done
        }
    }

    /// Ends ingestion and starts the refinement of the residual leaderboard.
    /// When it is disabled, nothing is looked up and all is final. Else the
    /// ids held by the named leaderboards are noted (those posts are passed
    /// over), and the prepared candidates are scanned best first.
    pub fn finalize(&mut self) -> (r: RefineStep)
        requires
            old(self).wf(),
            old(self).state() == Phase::Ingesting,
        ensures
            final(self).wf(),
            final(self).settings() == old(self).settings(),
            final(self).me() == old(self).me(),
            final(self).posts() == old(self).posts(),
            final(self).named() == old(self).named(),
            final(self).prepared() == old(self).prepared(),
            final(self).overflow() == old(self).overflow(),
            !old(self).settings().other.enabled ==> final(self).state() == Phase::Finalized && r
                == RefineStep::Done,
            old(self).settings().other.enabled ==> {
                &&& forall|id: u64|
                    #[trigger] final(self).listed_ids().contains(id) <==> listed_in(
                        old(self).named(),
                        id,
                    )
                &&& final(self).refined_to(r, 0)
            },
    {
        if !self.config.other.enabled {
            self.phase = Phase::Finalized;
            return RefineStep::Done;
        }
        let ghost named = self.named();
        let mut ids: Vec<u64> = Vec::new();
        let mut i: usize = 0;
        while i < self.top.len()
            invariant
                named == self.top@.map_values(|t: TopKSet<usize>| t@),
                i <= self.top@.len(),
                forall|id: u64|
                    #[trigger] ids@.contains(id) <==> exists|a: int, b: int|
                        0 <= a < i && 0 <= b < named[a].len() && #[trigger] named[a][b].id == id,
            decreases self.top@.len() - i,
        {
            let set = &self.top[i];
            let mut j: usize = 0;
            while j < set.len()
                invariant
                    named == self.top@.map_values(|t: TopKSet<usize>| t@),
                    i < self.top@.len(),
                    *set == self.top@[i as int],
                    j <= set@.len(),
                    forall|id: u64|
                        #[trigger] ids@.contains(id) <==> exists|a: int, b: int|
                            ((0 <= a < i && 0 <= b < named[a].len()) || (a == i && 0 <= b < j))
                                && #[trigger] named[a][b].id == id,
                decreases set@.len() - j,
            {
                let x = set.get(j).id;
                let ghost prev = ids@;
                ids.push(x);
                proof {
                    assert(named[i as int][j as int].id == x);
                    assert forall|id: u64| #[trigger] ids@.contains(id) <==> (prev.contains(id) || id == x) by {
                        if ids@.contains(id) {
                            let k = choose|k: int| 0 <= k < ids@.len() && ids@[k] == id;
                            if k < prev.len() {
                                assert(prev[k] == id);
                            }
                        }
                        if prev.contains(id) {
                            let k = choose|k: int| 0 <= k < prev.len() && prev[k] == id;
                            assert(ids@[k] == id);
                        }
                        if id == x {
                            assert(ids@[prev.len() as int] == id);
                        }
                    }
                }
                j = j + 1;
            }
            i = i + 1;
        }
        self.named_ids = ids;
        proof {
            assert forall|id: u64| #[trigger] self.named_ids@.contains(id) <==> listed_in(named, id) by {
                if listed_in(named, id) {
                    let (a, b) = choose|a: int, b: int|
                        0 <= a < named.len() && 0 <= b < named[a].len() && #[trigger] named[a][b].id == id;
                    assert(named[a][b].id == id);
                }
            }
        }
        self.advance(0)
    }

    /// Records the lookup owed: `lists` holds, for each kind that counts
    /// towards the residual leaderboard, the users who reacted with it. The
    /// candidate is offered to the residual leaderboard, scored by the
    /// distinct users other than the acting identity, and the scan goes on.
    pub fn submit_exact(&mut self, lists: &Vec<Vec<u64>>) -> (r: RefineStep)
        requires
            old(self).wf(),
            old(self).state() == Phase::Refining,
        ensures
            final(self).wf(),
            final(self).settings() == old(self).settings(),
            final(self).me() == old(self).me(),
            final(self).posts() == old(self).posts(),
            final(self).named() == old(self).named(),
            final(self).prepared() == old(self).prepared(),
            final(self).listed_ids() == old(self).listed_ids(),
            ({
                let c = old(self).prepared().reverse()[old(self).next_index()];
                final(self).overflow() == admitted(
                    old(self).overflow(),
                    old(self).other_cap(),
                    Ranked {
                        score: exact_score(list_views(lists@), old(self).me()) as u64,
                        id: c.id,
                        item: c.item,
                    },
                )
            }),
            floor_of(final(self).overflow(), final(self).other_cap()) >= floor_of(
                old(self).overflow(),
                old(self).other_cap(),
            ),
            final(self).refined_to(r, old(self).next_index() + 1),
    {
        let n = self.other_prep.len();
        let k = self.cursor;
        let e = self.other_prep.get(n - 1 - k);
        let score = count_distinct_users(lists, self.current_user_id);
        let c = Ranked { score, id: e.id, item: e.item };
        proof {
            assert(self.other_prep@.reverse()[k as int] == self.other_prep@[n - 1 - k]);
            assert(refers_within(self.other_prep@, self.candidates@));
            assert(self.other_prep@[n - 1 - k] == self.other_prep@[(n - 1 - k) as int]);
            lemma_floor_never_drops(self.other@, self.other.cap(), c);
            lemma_refers_after(self.other@, self.other.cap(), c, self.candidates@, self.candidates@);
        }
        self.other.offer(c);
        self.advance(k + 1)
    }

    /// Gives up the refinement after a failed lookup: the residual
    /// leaderboard is emptied, so that no partial ranking is left; the named
    /// leaderboards stay as they are.
    pub fn fail_refinement(&mut self)
        requires
            old(self).wf(),
            old(self).state() == Phase::Refining,
        ensures
            final(self).wf(),
            final(self).state() == Phase::Failed,
            final(self).settings() == old(self).settings(),
            final(self).me() == old(self).me(),
            final(self).posts() == old(self).posts(),
            final(self).named() == old(self).named(),
            final(self).prepared() == old(self).prepared(),
            final(self).overflow().len() == 0,
    {
        self.other = TopKSet::new(self.config.other.max);
        self.phase = Phase::Failed;
    }

    pub fn phase(&self) -> (r: Phase)
        ensures
            r == self.state(),
    {
        self.phase
    }

    pub fn config(&self) -> (r: &Config)
        ensures
            *r == self.settings(),
    {
        &self.config
    }

    pub fn category_count(&self) -> (r: usize)
        requires
            self.wf(),
        ensures
            r == self.named().len(),
            r == self.settings().toplist@.len(),
    {
        self.top.len()
    }

    /// The leaderboard of the named category at `i`.
    pub fn top(&self, i: usize) -> (r: &TopKSet<usize>)
        requires
            self.wf(),
            i < self.named().len(),
        ensures
            r@ == self.named()[i as int],
            r.wf(),
    {
        &self.top[i]
    }

    /// Whether some appended post has the reaction kind of the category at
    /// `i`, whatever its score.
    pub fn matched(&self, i: usize) -> (r: bool)
        requires
            self.wf(),
            i < self.named().len(),
        ensures
            r == exists|j: int|
                0 <= j < self.posts().len() && #[trigger] category_score(
                    self.posts()[j].message.reactions@,
                    self.settings().toplist@[i as int].emoji,
                ) is Some,
    {
        let kind = &self.config.toplist[i].emoji;
        let mut j: usize = 0;
        while j < self.candidates.len()
            invariant
                *kind == self.config.toplist@[i as int].emoji,
                j <= self.candidates@.len(),
                forall|k: int|
                    0 <= k < j ==> #[trigger] category_score(
                        self.candidates@[k].message.reactions@,
                        *kind,
                    ) is None,
            decreases self.candidates@.len() - j,
        {
            if match_category(&self.candidates[j].message, kind).is_some() {
                return true;
            }
            j = j + 1;
        }
        false
    }

    /// The residual candidates by cheap score.
    pub fn other_prep(&self) -> (r: &TopKSet<usize>)
        requires
            self.wf(),
        ensures
            r@ == self.prepared(),
            r.wf(),
    {
        &self.other_prep
    }

    /// The residual leaderboard by exact score.
    pub fn other(&self) -> (r: &TopKSet<usize>)
        requires
            self.wf(),
        ensures
            r@ == self.overflow(),
            r.wf(),
    {
        &self.other
    }

    /// The post appended at `idx`, with what it shows.
    pub fn candidate(&self, idx: usize) -> (r: &MsgWrap)
        requires
            idx < self.posts().len(),
        ensures
            *r == self.posts()[idx as int],
    {
        &self.candidates[idx]
    }

    /// The tallies of the post at `idx` that count towards the residual
    /// leaderboard: the kinds to look up when it is refined.
    pub fn stripped_reactions(&self, idx: usize) -> (r: Vec<Reaction>)
        requires
            self.wf(),
            idx < self.posts().len(),
        ensures
            r@ == counted_reactions(
                self.posts()[idx as int].message.reactions@,
                excluded_of(self.settings()),
            ),
    {
        strip_reactions(&self.candidates[idx].message.reactions, &self.excluded)
    }
}

} // verus!
