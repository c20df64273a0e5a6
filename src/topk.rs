//! A capacity-bounded set of ranked entries, ordered ascending by
//! `(score, id)`, that keeps the highest-scoring entries it is offered.

use vstd::prelude::*;

verus! {

/// An entry of a [`TopKSet`]: a score, the identity of the ranked thing, and
/// the thing itself.
pub struct Ranked<T> {
    pub score: u64,
    pub id: u64,
    pub item: T,
}

/// `a` sorts before `b`: lower score, or equal score and lower id.
pub open spec fn ranks_below<T>(a: Ranked<T>, b: Ranked<T>) -> bool {
    a.score < b.score || (a.score == b.score && a.id < b.id)
}

/// Strictly ascending by `(score, id)`.
pub open spec fn ascending<T>(s: Seq<Ranked<T>>) -> bool {
    forall|i: int, j: int| 0 <= i < j < s.len() ==> ranks_below(#[trigger] s[i], #[trigger] s[j])
}

/// No two entries share an id.
pub open spec fn distinct_ids<T>(s: Seq<Ranked<T>>) -> bool {
    forall|i: int, j: int|
        0 <= i < s.len() && 0 <= j < s.len() && i != j ==> #[trigger] s[i].id != #[trigger] s[j].id
}

pub open spec fn holds_id<T>(s: Seq<Ranked<T>>, id: u64) -> bool {
    exists|i: int| 0 <= i < s.len() && #[trigger] s[i].id == id
}

/// The shape every set keeps: sorted, one entry per id, within capacity, and
/// no entry with score 0.
pub open spec fn valid_entries<T>(s: Seq<Ranked<T>>, cap: nat) -> bool {
    &&& ascending(s)
    &&& distinct_ids(s)
    &&& s.len() <= cap
    &&& forall|i: int| 0 <= i < s.len() ==> #[trigger] s[i].score > 0
}

/// The score a newcomer must exceed: 0 while there is room, else the lowest
/// score held.
pub open spec fn floor_of<T>(s: Seq<Ranked<T>>, cap: nat) -> u64 {
    if s.len() < cap {
        0
    } else {
        s[0].score
    }
}

/// Whether `c` gets in: a positive score above the floor (ties favour the
/// entries already held) and an id not held yet.
pub open spec fn accepts<T>(s: Seq<Ranked<T>>, cap: nat, c: Ranked<T>) -> bool {
    &&& c.score > 0
    &&& c.score > floor_of(s, cap)
    &&& !holds_id(s, c.id)
}

/// How many entries of `s` sort before `c`.
pub open spec fn count_below<T>(s: Seq<Ranked<T>>, c: Ranked<T>) -> nat
    decreases s.len(),
{
    if s.len() == 0 {
        0
    } else {
        count_below(s.drop_last(), c) + if ranks_below(s.last(), c) {
            1nat
        } else {
            0nat
        }
    }
}

/// `c` put in its sorted place.
pub open spec fn insert_ranked<T>(s: Seq<Ranked<T>>, c: Ranked<T>) -> Seq<Ranked<T>> {
    s.insert(count_below(s, c) as int, c)
}

/// The entries after offering `c`: unchanged when refused; else `c` in its
/// place, and the lowest entry evicted when the set was full.
pub open spec fn admitted<T>(s: Seq<Ranked<T>>, cap: nat, c: Ranked<T>) -> Seq<Ranked<T>> {
    if !accepts(s, cap, c) {
        s
    } else if s.len() < cap {
        insert_ranked(s, c)
    } else {
        insert_ranked(s.drop_first(), c)
    }
}

/// The entries after offering each of `cands`, in order, to an empty set.
pub open spec fn admit_all<T>(cands: Seq<Ranked<T>>, cap: nat) -> Seq<Ranked<T>>
    decreases cands.len(),
{
    if cands.len() == 0 {
        Seq::empty()
    } else {
        admitted(admit_all(cands.drop_last(), cap), cap, cands.last())
    }
}

/// How many of `cands` have a positive score.
pub open spec fn count_positive<T>(cands: Seq<Ranked<T>>) -> nat
    decreases cands.len(),
{
    if cands.len() == 0 {
        0
    } else {
        count_positive(cands.drop_last()) + if cands.last().score > 0 {
            1nat
        } else {
            0nat
        }
    }
}

/// A bounded set that holds the highest-scoring entries offered to it.
pub struct TopKSet<T> {
    entries: Vec<Ranked<T>>,
    capacity: usize,
}

impl<T> View for TopKSet<T> {
    type V = Seq<Ranked<T>>;

    /// The entries, lowest first.
    closed spec fn view(&self) -> Seq<Ranked<T>> {
        self.entries@
    }
}

impl<T> TopKSet<T> {
    /// The most entries the set holds.
    pub closed spec fn cap(&self) -> nat {
        self.capacity as nat
    }

    pub open spec fn wf(&self) -> bool {
        &&& self.cap() > 0
        &&& valid_entries(self@, self.cap())
    }

    /// An empty set that holds at most `capacity` entries.
    pub fn new(capacity: usize) -> (r: TopKSet<T>)
        requires
            capacity > 0,
        ensures
            r.wf(),
            r@ == Seq::<Ranked<T>>::empty(),
            r.cap() == capacity,
    {
        TopKSet { entries: Vec::new(), capacity }
    }

    pub fn len(&self) -> (r: usize)
        ensures
            r == self@.len(),
    {
        self.entries.len()
    }

    pub fn capacity(&self) -> (r: usize)
        ensures
            r == self.cap(),
    {
        self.capacity
    }

    /// The score a newcomer must exceed.
    pub fn admission_floor(&self) -> (r: u64)
        requires
            self.wf(),
        ensures
            r == floor_of(self@, self.cap()),
    {
        if self.entries.len() < self.capacity {
            0
        } else {
            self.entries[0].score
        }
    }

    pub fn contains_id(&self, id: u64) -> (r: bool)
        ensures
            r == holds_id(self@, id),
    {
        let mut i: usize = 0;
        while i < self.entries.len()
            invariant
                i <= self.entries.len(),
                forall|j: int| 0 <= j < i ==> self.entries@[j].id != id,
            decreases self.entries.len() - i,
        {
            if self.entries[i].id == id {
                return true;
            }
            i = i + 1;
        }
        false
    }

    /// The entry at position `i`, lowest first.
    pub fn get(&self, i: usize) -> (r: &Ranked<T>)
        requires
            i < self@.len(),
        ensures
            *r == self@[i as int],
    {
        &self.entries[i]
    }

    /// The entries, highest first.
    pub fn best_first(&self) -> (r: Vec<&Ranked<T>>)
        ensures
            r@.len() == self@.len(),
            forall|i: int| 0 <= i < r@.len() ==> *r@[i] == self@[self@.len() - 1 - i],
    {
        let mut r: Vec<&Ranked<T>> = Vec::new();
        let n = self.entries.len();
        let mut k: usize = 0;
        while k < n
            invariant
                n == self.entries@.len(),
                k <= n,
                r@.len() == k,
                forall|i: int| 0 <= i < k ==> *r@[i] == self.entries@[n - 1 - i],
            decreases n - k,
        {
            r.push(&self.entries[n - 1 - k]);
            k = k + 1;
        }
        r
    }

    /// Offers `c`; returns whether it was taken in.
    pub fn offer(&mut self, c: Ranked<T>) -> (accepted: bool)
        requires
            old(self).wf(),
        ensures
            final(self).wf(),
            final(self).cap() == old(self).cap(),
            accepted == accepts(old(self)@, old(self).cap(), c),
            final(self)@ == admitted(old(self)@, old(self).cap(), c),
    {
        let floor = self.admission_floor();
        if c.score == 0 || c.score <= floor || self.contains_id(c.id) {
            return false;
        }
        let ghost before = self.entries@;
        if self.entries.len() >= self.capacity {
            self.entries.remove(0);
            assert(self.entries@ =~= before.drop_first());
        }
        let ghost base = self.entries@;
        proof {
            lemma_sub_valid(before, self.cap(), base);
        }
        let mut p: usize = 0;
        while p < self.entries.len() && (self.entries[p].score < c.score || (
        self.entries[p].score == c.score && self.entries[p].id < c.id))
            invariant
                self.entries@ == base,
                p <= base.len(),
                forall|j: int| 0 <= j < p ==> ranks_below(#[trigger] base[j], c),
            decreases base.len() - p,
        {
            p = p + 1;
        }
        proof {
            lemma_count_below_split(base, c);
            let q = count_below(base, c) as int;
            if p < q {
                assert(ranks_below(base[p as int], c));
            } else if q < p {
                assert(ranks_below(base[q], c));
            }
            lemma_insert_ranked(base, c);
        }
        self.entries.insert(p, c);
        true
    }
}

/// No set holds an entry of score 0, and offering one changes nothing.
pub proof fn lemma_no_zero_scores<T>(set: TopKSet<T>, c: Ranked<T>)
    requires
        set.wf(),
        c.score == 0,
    ensures
        forall|i: int| 0 <= i < set@.len() ==> #[trigger] set@[i].score > 0,
        admitted(set@, set.cap(), c) == set@,
{
}

/// Offering an entry never lowers the admission floor.
pub proof fn lemma_floor_never_drops<T>(s: Seq<Ranked<T>>, cap: nat, c: Ranked<T>)
    requires
        cap > 0,
        valid_entries(s, cap),
    ensures
        floor_of(admitted(s, cap, c), cap) >= floor_of(s, cap),
{
    if accepts(s, cap, c) && s.len() == cap {
        let d = s.drop_first();
        lemma_sub_valid(s, cap, d);
        lemma_insert_ranked(d, c);
        let r = insert_ranked(d, c);
        assert(r.len() == cap);
        if r[0] != c {
            assert(d.contains(r[0]));
            let k = choose|k: int| 0 <= k < d.len() && d[k] == r[0];
            assert(ranks_below(s[0], s[k + 1]));
        }
    }
}

/// Offering a stream of candidates with distinct ids, one at a time, to an
/// empty set leaves it holding the highest-scoring of them: it is sorted by
/// `(score, id)`, each entry is one of the candidates, and a candidate with a
/// positive score is left out only when the set is full and every entry
/// scores at least as much as that candidate. It holds `cap` entries, or
/// every candidate with a positive score when there are fewer.
pub proof fn lemma_admit_all_keeps_top<T>(cands: Seq<Ranked<T>>, cap: nat)
    requires
        cap > 0,
        distinct_ids(cands),
    ensures
        valid_entries(admit_all(cands, cap), cap),
        admit_all(cands, cap).len() == if count_positive(cands) < cap {
            count_positive(cands)
        } else {
            cap
        },
        forall|i: int|
            0 <= i < admit_all(cands, cap).len() ==> cands.contains(
                #[trigger] admit_all(cands, cap)[i],
            ),
        forall|c: Ranked<T>|
            #[trigger] cands.contains(c) && c.score > 0 && !admit_all(cands, cap).contains(c)
                ==> admit_all(cands, cap).len() == cap && forall|i: int|
                0 <= i < admit_all(cands, cap).len() ==> c.score <= #[trigger] admit_all(
                    cands,
                    cap,
                )[i].score,
    decreases cands.len(),
{
    if cands.len() > 0 {
        let prev = cands.drop_last();
        let c = cands.last();
        assert forall|i: int, j: int|
            0 <= i < prev.len() && 0 <= j < prev.len() && i != j implies #[trigger] prev[i].id
            != #[trigger] prev[j].id by {
            assert(prev[i] == cands[i] && prev[j] == cands[j]);
        }
        lemma_admit_all_keeps_top(prev, cap);
        let s0 = admit_all(prev, cap);
        let s = admit_all(cands, cap);
        assert(s == admitted(s0, cap, c));
        assert forall|e: Ranked<T>| prev.contains(e) implies #[trigger] cands.contains(e) by {
            let k = choose|k: int| 0 <= k < prev.len() && prev[k] == e;
            assert(cands[k] == e);
        }
        assert(!holds_id(s0, c.id)) by {
            if holds_id(s0, c.id) {
                let i = choose|i: int| 0 <= i < s0.len() && #[trigger] s0[i].id == c.id;
                assert(prev.contains(s0[i]));
                let k = choose|k: int| 0 <= k < prev.len() && prev[k] == s0[i];
                assert(cands[k].id == cands[cands.len() - 1].id);
            }
        }
        assert(!s0.contains(c)) by {
            if s0.contains(c) {
                let k = choose|k: int| 0 <= k < s0.len() && s0[k] == c;
                assert(s0[k].id == c.id);
            }
        }
        if c.score > 0 && !accepts(s0, cap, c) {
            assert(s0.len() == cap);
        }
        if !accepts(s0, cap, c) {
            assert forall|e: Ranked<T>|
                #[trigger] cands.contains(e) && e.score > 0 && !s.contains(e) implies s.len() == cap
                && forall|i: int| 0 <= i < s.len() ==> e.score <= #[trigger] s[i].score by {
                let k = choose|k: int| 0 <= k < cands.len() && cands[k] == e;
                if k < cands.len() - 1 {
                    assert(prev[k] == e);
                    assert(prev.contains(e));
                } else {
                    assert forall|i: int| 0 <= i < s.len() implies e.score <= #[trigger] s[i].score by {
                        if i > 0 {
                            assert(ranks_below(s[0], s[i]));
                        }
                    }
                }
            }
        } else if s0.len() < cap {
            lemma_insert_ranked(s0, c);
            assert forall|e: Ranked<T>|
                #[trigger] cands.contains(e) && e.score > 0 && !s.contains(e) implies s.len() == cap
                && forall|i: int| 0 <= i < s.len() ==> e.score <= #[trigger] s[i].score by {
                let k = choose|k: int| 0 <= k < cands.len() && cands[k] == e;
                if k < cands.len() - 1 {
                    assert(prev[k] == e);
                    assert(prev.contains(e));
                    assert(s0.len() == cap);
                }
            }
        } else {
            let d = s0.drop_first();
            lemma_sub_valid(s0, cap, d);
            lemma_insert_ranked(d, c);
            assert forall|i: int| 0 <= i < s.len() implies s0[0].score <= #[trigger] s[i].score by {
                if s[i] != c {
                    let k = choose|k: int| 0 <= k < d.len() && d[k] == s[i];
                    assert(ranks_below(s0[0], s0[k + 1]));
                }
            }
            assert forall|i: int| 0 <= i < s.len() implies cands.contains(#[trigger] s[i]) by {
                if s[i] != c {
                    let k = choose|k: int| 0 <= k < d.len() && d[k] == s[i];
                    assert(s0[k + 1] == s[i]);
                    assert(prev.contains(s0[k + 1]));
                } else {
                    assert(cands[cands.len() - 1] == c);
                }
            }
            assert forall|e: Ranked<T>|
                #[trigger] cands.contains(e) && e.score > 0 && !s.contains(e) implies s.len() == cap
                && forall|i: int| 0 <= i < s.len() ==> e.score <= #[trigger] s[i].score by {
                let k = choose|k: int| 0 <= k < cands.len() && cands[k] == e;
                if k == cands.len() - 1 {
                    assert(s.contains(c));
                } else {
                    assert(prev[k] == e);
                    assert(prev.contains(e));
                    if s0.contains(e) {
                        let m = choose|m: int| 0 <= m < s0.len() && s0[m] == e;
                        if m > 0 {
                            assert(d[m - 1] == e);
                            assert(d.contains(e));
                        }
                    }
                }
            }
        }
    }
}

/// Every entry after an offer was held before or is the one offered.
pub proof fn lemma_admitted_from<T>(s: Seq<Ranked<T>>, cap: nat, c: Ranked<T>)
    requires
        cap > 0,
        valid_entries(s, cap),
    ensures
        forall|i: int|
            0 <= i < admitted(s, cap, c).len() ==> #[trigger] admitted(s, cap, c)[i] == c
                || s.contains(admitted(s, cap, c)[i]),
{
    if accepts(s, cap, c) {
        if s.len() < cap {
            lemma_insert_ranked(s, c);
        } else {
            let d = s.drop_first();
            lemma_sub_valid(s, cap, d);
            lemma_insert_ranked(d, c);
            assert forall|e: Ranked<T>| d.contains(e) implies s.contains(e) by {
                let k = choose|k: int| 0 <= k < d.len() && d[k] == e;
                assert(s[k + 1] == e);
            }
        }
    } else {
        assert forall|i: int| 0 <= i < s.len() implies s.contains(#[trigger] s[i]) by {
        }
    }
}

/// Dropping the lowest entry keeps a valid set valid.
proof fn lemma_sub_valid<T>(s: Seq<Ranked<T>>, cap: nat, t: Seq<Ranked<T>>)
    requires
        valid_entries(s, cap),
        t == s || (s.len() > 0 && t == s.drop_first()),
    ensures
        valid_entries(t, cap),
        forall|id: u64| holds_id(t, id) ==> holds_id(s, id),
{
    if t != s {
        assert forall|id: u64| holds_id(t, id) implies holds_id(s, id) by {
            let i = choose|i: int| 0 <= i < t.len() && #[trigger] t[i].id == id;
            assert(s[i + 1].id == id);
        }
    }
}

/// In an ascending sequence, the entries below `c` are exactly the first
/// `count_below(s, c)`.
proof fn lemma_count_below_split<T>(s: Seq<Ranked<T>>, c: Ranked<T>)
    requires
        ascending(s),
    ensures
        count_below(s, c) <= s.len(),
        forall|j: int| 0 <= j < count_below(s, c) ==> ranks_below(#[trigger] s[j], c),
        forall|j: int| count_below(s, c) <= j < s.len() ==> !ranks_below(#[trigger] s[j], c),
    decreases s.len(),
{
    if s.len() > 0 {
        let t = s.drop_last();
        assert(ascending(t));
        lemma_count_below_split(t, c);
        if ranks_below(s.last(), c) {
            assert forall|j: int| 0 <= j < s.len() implies ranks_below(#[trigger] s[j], c) by {
                if j < s.len() - 1 {
                    assert(ranks_below(s[j], s[s.len() - 1]));
                }
            }
            if count_below(t, c) < t.len() {
                assert(ranks_below(t[count_below(t, c) as int], c));
            }
        } else {
            assert forall|j: int| count_below(s, c) <= j < s.len() implies !ranks_below(
                #[trigger] s[j],
                c,
            ) by {
                if j < s.len() - 1 {
                    assert(s[j] == t[j]);
                }
            }
            assert forall|j: int| 0 <= j < count_below(s, c) implies ranks_below(
                #[trigger] s[j],
                c,
            ) by {
                assert(s[j] == t[j]);
            }
        }
    }
}

/// What putting `c` in its place does to a valid sequence.
proof fn lemma_insert_ranked<T>(s: Seq<Ranked<T>>, c: Ranked<T>)
    requires
        ascending(s),
        distinct_ids(s),
        !holds_id(s, c.id),
    ensures
        ascending(insert_ranked(s, c)),
        distinct_ids(insert_ranked(s, c)),
        insert_ranked(s, c).len() == s.len() + 1,
        forall|i: int|
            0 <= i < insert_ranked(s, c).len() ==> (#[trigger] insert_ranked(s, c)[i] == c
                || s.contains(insert_ranked(s, c)[i])),
        insert_ranked(s, c).contains(c),
        forall|e: Ranked<T>| s.contains(e) ==> insert_ranked(s, c).contains(e),
        forall|id: u64| #[trigger] holds_id(insert_ranked(s, c), id) ==> (holds_id(s, id) || id == c.id),
{
    lemma_count_below_split(s, c);
    let p = count_below(s, c) as int;
    let r = insert_ranked(s, c);
    s.insert_ensures(p, c);
    assert forall|j: int| p <= j < s.len() implies ranks_below(c, #[trigger] s[j]) by {
        assert(s[j].id != c.id);
    }
    assert forall|i: int, j: int| 0 <= i < j < r.len() implies ranks_below(#[trigger] r[i], #[trigger] r[j]) by {
        if j < p {
            assert(ranks_below(s[i], s[j]));
        } else if j == p {
        } else if i < p {
            assert(ranks_below(s[i], c));
            assert(ranks_below(c, s[j - 1]));
        } else if i == p {
        } else {
            assert(ranks_below(s[i - 1], s[j - 1]));
        }
    }
    assert forall|i: int| 0 <= i < r.len() implies (#[trigger] r[i] == c || s.contains(r[i])) by {
        if i < p {
            assert(r[i] == s[i]);
        } else if i > p {
            assert(r[i] == s[i - 1]);
        }
    }
    assert forall|i: int, j: int|
        0 <= i < r.len() && 0 <= j < r.len() && i != j implies #[trigger] r[i].id != #[trigger] r[j].id by {
        if i < p && j < p {
        } else if i < p && j > p {
            assert(r[j] == s[j - 1]);
        } else if i > p && j < p {
            assert(r[i] == s[i - 1]);
        } else if i > p && j > p {
            assert(r[i] == s[i - 1]);
            assert(r[j] == s[j - 1]);
        } else if i == p {
            if j < p {
                assert(s[j].id != c.id);
            } else {
                assert(s[j - 1].id != c.id);
            }
        } else {
            if i < p {
                assert(s[i].id != c.id);
            } else {
                assert(s[i - 1].id != c.id);
            }
        }
    }
    assert(r[p] == c);
    assert forall|e: Ranked<T>| s.contains(e) implies r.contains(e) by {
        let k = choose|k: int| 0 <= k < s.len() && s[k] == e;
        if k < p {
            assert(r[k] == e);
        } else {
            assert(r[k + 1] == e);
        }
    }
    assert forall|id: u64| #[trigger] holds_id(r, id) implies (holds_id(s, id) || id == c.id) by {
        let k = choose|k: int| 0 <= k < r.len() && #[trigger] r[k].id == id;
        if k < p {
            assert(s[k].id == id);
        } else if k > p {
            assert(s[k - 1].id == id);
        }
    }
}

} // verus!
