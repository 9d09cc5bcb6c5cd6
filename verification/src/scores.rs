//! The high-score table: entries kept sorted from the highest score down,
//! at most ten of them. Reading and writing the table file is done by the
//! program around the library.

use vstd::prelude::*;

verus! {

broadcast use vstd::seq_lib::group_to_multiset_ensures;

/// The most entries the table keeps.
pub const MAX_ENTRIES: usize = 10;

/// One finished run. The run time is carried as the bit pattern of its
/// seconds (`f32::to_bits`); the table never reads it.
pub struct ScoreEntry {
    pub score: u32,
    pub time_bits: u32,
    pub level: u32,
    pub map: String,
    pub won: bool,
}

/// The table.
pub struct ScoreTable {
    pub entries: Vec<ScoreEntry>,
}

/// Scores never increase along `s`.
pub open spec fn sorted_desc(s: Seq<ScoreEntry>) -> bool {
    forall|i: int, j: int| 0 <= i <= j < s.len() ==> #[trigger] s[i].score >= #[trigger] s[j].score
}

/// Where an entry scoring `score` goes in `t`: before the first entry that
/// scores strictly less, else at the end. Equal scores keep arrival order.
pub open spec fn insert_pos(t: Seq<ScoreEntry>, score: u32) -> int
    decreases t.len(),
{
    if t.len() == 0 {
        0
    } else if t[0].score < score {
        0
    } else {
        1 + insert_pos(t.drop_first(), score)
    }
}

/// `t` with `e` placed at its sorted position.
pub open spec fn insert_sorted(t: Seq<ScoreEntry>, e: ScoreEntry) -> Seq<ScoreEntry> {
    t.insert(insert_pos(t, e.score), e)
}

/// The stable descending sort of `s` by score: each entry, in order, placed
/// after every earlier one scoring at least as much.
pub open spec fn sort_by_score(s: Seq<ScoreEntry>) -> Seq<ScoreEntry>
    decreases s.len(),
{
    if s.len() == 0 {
        s
    } else {
        insert_sorted(sort_by_score(s.drop_last()), s.last())
    }
}

/// The first `MAX_ENTRIES` of `s`.
pub open spec fn trimmed(s: Seq<ScoreEntry>) -> Seq<ScoreEntry> {
    if s.len() > MAX_ENTRIES {
        s.take(MAX_ENTRIES as int)
    } else {
        s
    }
}

proof fn lemma_insert_pos_bounds(t: Seq<ScoreEntry>, score: u32)
    ensures
        0 <= insert_pos(t, score) <= t.len(),
        forall|i: int| 0 <= i < insert_pos(t, score) ==> #[trigger] t[i].score >= score,
        insert_pos(t, score) < t.len() ==> t[insert_pos(t, score)].score < score,
    decreases t.len(),
{
    if t.len() > 0 && t[0].score >= score {
        lemma_insert_pos_bounds(t.drop_first(), score);
        assert forall|i: int| 0 <= i < insert_pos(t, score) implies #[trigger] t[i].score >= score by {
            if i > 0 {
                assert(t[i] == t.drop_first()[i - 1]);
            }
        }
    }
}

/// Inserting at the sorted position keeps a sorted table sorted.
proof fn lemma_insert_sorted_sorted(t: Seq<ScoreEntry>, e: ScoreEntry)
    requires
        sorted_desc(t),
    ensures
        sorted_desc(insert_sorted(t, e)),
{
    let p = insert_pos(t, e.score);
    lemma_insert_pos_bounds(t, e.score);
    t.insert_ensures(p, e);
    let r = insert_sorted(t, e);
    assert forall|i: int, j: int| 0 <= i <= j < r.len() implies #[trigger] r[i].score >= #[trigger] r[j].score by {
        if i < p && j < p {
            assert(r[i] == t[i] && r[j] == t[j]);
        } else if i < p && j == p {
            assert(r[i] == t[i]);
        } else if i < p {
            assert(r[i] == t[i] && r[j] == t[j - 1]);
        } else if i == p && j == p {
        } else if i == p {
            assert(r[j] == t[j - 1]);
            assert(t[p].score < e.score);
            assert(t[p].score >= t[j - 1].score);
        } else {
            assert(r[i] == t[i - 1] && r[j] == t[j - 1]);
        }
    }
}

proof fn lemma_insert_multiset(t: Seq<ScoreEntry>, p: int, e: ScoreEntry)
    requires
        0 <= p <= t.len(),
    ensures
        t.insert(p, e).to_multiset() == t.to_multiset().insert(e),
{
    let r = t.insert(p, e);
    t.insert_ensures(p, e);
    assert(r.remove(p) == t);
    assert(r.remove(p).to_multiset() == r.to_multiset().remove(r[p]));
    assert(r.to_multiset().count(e) > 0) by {
        assert(r.contains(e)) by {
            assert(r[p] == e);
        }
    }
    assert(r.to_multiset() =~= r.to_multiset().remove(e).insert(e));
}

/// The sort yields a sorted sequence holding exactly the entries it was given.
pub proof fn lemma_sort_by_score(s: Seq<ScoreEntry>)
    ensures
        sorted_desc(sort_by_score(s)),
        sort_by_score(s).to_multiset() == s.to_multiset(),
        sort_by_score(s).len() == s.len(),
    decreases s.len(),
{
    if s.len() > 0 {
        let prev = sort_by_score(s.drop_last());
        lemma_sort_by_score(s.drop_last());
        lemma_insert_sorted_sorted(prev, s.last());
        lemma_insert_pos_bounds(prev, s.last().score);
        lemma_insert_multiset(prev, insert_pos(prev, s.last().score), s.last());
        assert(s.drop_last().push(s.last()) == s);
        prev.insert_ensures(insert_pos(prev, s.last().score), s.last());
    }
}

/// Sorting a sequence that is already sorted leaves it as it is.
pub proof fn lemma_sorted_is_fixed(s: Seq<ScoreEntry>)
    requires
        sorted_desc(s),
    ensures
        sort_by_score(s) == s,
    decreases s.len(),
{
    if s.len() > 0 {
        let init = s.drop_last();
        assert(sorted_desc(init)) by {
            assert forall|i: int, j: int| 0 <= i <= j < init.len() implies #[trigger] init[i].score >= #[trigger] init[j].score by {
                assert(init[i] == s[i] && init[j] == s[j]);
            }
        }
        lemma_sorted_is_fixed(init);
        lemma_insert_pos_bounds(init, s.last().score);
        let p = insert_pos(init, s.last().score);
        if p < init.len() {
            assert(init[p] == s[p]);
            assert(s[p].score >= s[s.len() - 1].score);
        }
        assert(p == init.len());
        assert(init.insert(p, s.last()) =~= s);
    }
}

/// How many entries of `s` score at least `score`.
pub open spec fn count_at_least(s: Seq<ScoreEntry>, score: u32) -> nat
    decreases s.len(),
{
    if s.len() == 0 {
        0
    } else {
        (if s[0].score >= score { 1nat } else { 0nat }) + count_at_least(s.drop_first(), score)
    }
}

proof fn lemma_count_insert(t: Seq<ScoreEntry>, p: int, x: ScoreEntry, score: u32)
    requires
        0 <= p <= t.len(),
    ensures
        count_at_least(t.insert(p, x), score) == count_at_least(t, score) + (if x.score
            >= score {
            1nat
        } else {
            0nat
        }),
    decreases t.len(),
{
    let r = t.insert(p, x);
    t.insert_ensures(p, x);
    if p == 0 {
        assert(r.drop_first() =~= t);
    } else {
        assert(r[0] == t[0]);
        assert(r.drop_first() =~= t.drop_first().insert(p - 1, x));
        lemma_count_insert(t.drop_first(), p - 1, x, score);
    }
}

proof fn lemma_count_sorted_is_pos(t: Seq<ScoreEntry>, score: u32)
    requires
        sorted_desc(t),
    ensures
        insert_pos(t, score) == count_at_least(t, score),
    decreases t.len(),
{
    if t.len() > 0 {
        let rest = t.drop_first();
        assert(sorted_desc(rest)) by {
            assert forall|i: int, j: int| 0 <= i <= j < rest.len() implies #[trigger] rest[i].score
                >= #[trigger] rest[j].score by {
                assert(rest[i] == t[i + 1] && rest[j] == t[j + 1]);
            }
        }
        lemma_count_sorted_is_pos(rest, score);
        if t[0].score < score {
            lemma_count_none(t, score);
        }
    }
}

proof fn lemma_count_none(t: Seq<ScoreEntry>, score: u32)
    requires
        forall|i: int| 0 <= i < t.len() ==> #[trigger] t[i].score < score,
    ensures
        count_at_least(t, score) == 0,
    decreases t.len(),
{
    if t.len() > 0 {
        let rest = t.drop_first();
        assert forall|i: int| 0 <= i < rest.len() implies #[trigger] rest[i].score < score by {
            assert(rest[i] == t[i + 1]);
        }
        lemma_count_none(rest, score);
    }
}

/// Sorting keeps how many entries reach a given score.
proof fn lemma_count_sort(s: Seq<ScoreEntry>, score: u32)
    ensures
        count_at_least(sort_by_score(s), score) == count_at_least(s, score),
    decreases s.len(),
{
    if s.len() > 0 {
        let init = s.drop_last();
        lemma_count_sort(init, score);
        let prev = sort_by_score(init);
        lemma_insert_pos_bounds(prev, s.last().score);
        lemma_count_insert(prev, insert_pos(prev, s.last().score), s.last(), score);
        lemma_count_insert(init, init.len() as int, s.last(), score);
        assert(init.insert(init.len() as int, s.last()) =~= s);
    }
}

/// Where the entry inserted last lands: after every earlier entry that
/// scores at least as much.
proof fn lemma_new_entry_rank(before: Seq<ScoreEntry>, e: ScoreEntry)
    ensures
        ({
            let k = count_at_least(before, e.score) as int;
            &&& 0 <= k <= before.len()
            &&& sort_by_score(before.push(e))[k] == e
            &&& k < MAX_ENTRIES ==> trimmed(sort_by_score(before.push(e)))[k] == e
        }),
{
    let prev = sort_by_score(before);
    lemma_sort_by_score(before);
    lemma_count_sorted_is_pos(prev, e.score);
    lemma_count_sort(before, e.score);
    lemma_insert_pos_bounds(prev, e.score);
    assert(before.push(e).drop_last() == before);
    let p = insert_pos(prev, e.score);
    prev.insert_ensures(p, e);
    let s = sort_by_score(before.push(e));
    if p < MAX_ENTRIES && s.len() > MAX_ENTRIES {
        assert(s.take(MAX_ENTRIES as int)[p] == s[p]);
    }
}

fn count_scoring_at_least(t: &Vec<ScoreEntry>, score: u32) -> (k: usize)
    ensures
        k == count_at_least(t@, score),
{
    let mut k: usize = 0;
    let mut i: usize = 0;
    while i < t.len()
        invariant
            i <= t@.len(),
            k == count_at_least(t@.take(i as int), score),
            k <= i,
        decreases t.len() - i,
    {
        proof {
            lemma_count_insert(t@.take(i as int), i as int, t@[i as int], score);
            assert(t@.take(i as int).insert(i as int, t@[i as int]) =~= t@.take(i + 1));
        }
        if t[i].score >= score {
            k = k + 1;
        }
        i = i + 1;
    }
    proof {
        assert(t@.take(i as int) =~= t@);
    }
    k
}

fn insert_position(t: &Vec<ScoreEntry>, score: u32) -> (p: usize)
    ensures
        p == insert_pos(t@, score),
{
    let mut i: usize = 0;
    proof {
        lemma_insert_pos_bounds(t@, score);
    }
    while i < t.len()
        invariant
            i <= t@.len(),
            forall|k: int| 0 <= k < i ==> #[trigger] t@[k].score >= score,
            0 <= insert_pos(t@, score) <= t@.len(),
            forall|k: int| 0 <= k < insert_pos(t@, score) ==> #[trigger] t@[k].score >= score,
            insert_pos(t@, score) < t@.len() ==> t@[insert_pos(t@, score)].score < score,
        decreases t.len() - i,
    {
        if t[i].score < score {
            return i;
        }
        i = i + 1;
    }
    i
}

impl ScoreTable {
    /// An empty table.
    pub fn new() -> (t: ScoreTable)
        ensures
            t.entries@.len() == 0,
    {
        ScoreTable { entries: Vec::new() }
    }

    /// Insert an entry, keep the table sorted from the highest score down
    /// (equal scores in arrival order), and trim it to `MAX_ENTRIES`.
    /// Answers the 0-based rank of the new entry if it made the table: it
    /// lands after every earlier entry scoring at least as much.
    pub fn insert(&mut self, entry: ScoreEntry) -> (rank: Option<usize>)
        ensures
            final(self).entries@ == trimmed(sort_by_score(old(self).entries@.push(entry))),
            rank == (if count_at_least(old(self).entries@, entry.score) < MAX_ENTRIES {
                Some(count_at_least(old(self).entries@, entry.score) as usize)
            } else {
                None
            }),
            rank matches Some(r) ==> final(self).entries@[r as int] == entry,
    {
        let rank_pos = count_scoring_at_least(&self.entries, entry.score);
        proof {
            lemma_new_entry_rank(self.entries@, entry);
        }
        let mut src: Vec<ScoreEntry> = Vec::new();
        std::mem::swap(&mut src, &mut self.entries);
        src.push(entry);
        let ghost all = src@;
        let mut out: Vec<ScoreEntry> = Vec::new();
        let ghost mut k: int = 0;
        while src.len() > 0
            invariant
                0 <= k <= all.len(),
                src@ == all.subrange(k, all.len() as int),
                out@ == sort_by_score(all.take(k)),
            decreases src.len(),
        {
            let e = src.remove(0);
            let p = insert_position(&out, e.score);
            proof {
                lemma_insert_pos_bounds(out@, e.score);
                assert(all.take(k + 1).drop_last() == all.take(k));
                assert(all.take(k + 1).last() == e);
            }
            out.insert(p, e);
            proof {
                k = k + 1;
            }
        }
        proof {
            assert(all.take(k) == all);
        }
        if out.len() > MAX_ENTRIES {
            out.truncate(MAX_ENTRIES);
        }
        self.entries = out;
        if rank_pos < MAX_ENTRIES {
            Some(rank_pos)
        } else {
            None
        }
    }

    /// The top score, or 0 for an empty table.
    pub fn best(&self) -> (r: u32)
        ensures
            r == (if self.entries@.len() > 0 { self.entries@[0].score } else { 0 }),
    {
        if self.entries.len() > 0 {
            self.entries[0].score
        } else {
            0
        }
    }

    /// Whether `score` would earn a place: the table has room, or it beats
    /// the last entry.
    pub fn is_high_score(&self, score: u32) -> (r: bool)
        ensures
            r == (self.entries@.len() < MAX_ENTRIES || score > (if self.entries@.len() > 0 {
                self.entries@.last().score
            } else {
                0
            })),
    {
        let n = self.entries.len();
        if n < MAX_ENTRIES {
            return true;
        }
        let last: u32 = if n > 0 { self.entries[n - 1].score } else { 0 };
        score > last
    }
}

/// After an insertion the table is sorted from the highest score down and
/// holds at most `MAX_ENTRIES` entries.
pub proof fn lemma_insert_keeps_table_sorted(before: Seq<ScoreEntry>, e: ScoreEntry)
    ensures
        sorted_desc(trimmed(sort_by_score(before.push(e)))),
        trimmed(sort_by_score(before.push(e))).len() <= MAX_ENTRIES,
        trimmed(sort_by_score(before.push(e))).len() == (if before.len() + 1 > MAX_ENTRIES { MAX_ENTRIES as int } else { before.len() + 1int }),
{
    lemma_sort_by_score(before.push(e));
    let s = sort_by_score(before.push(e));
    if s.len() > MAX_ENTRIES {
        let t = s.take(MAX_ENTRIES as int);
        assert forall|i: int, j: int| 0 <= i <= j < t.len() implies #[trigger] t[i].score >= #[trigger] t[j].score by {
            assert(t[i] == s[i] && t[j] == s[j]);
        }
    }
}

/// The best score of a sorted table is at least every score in it.
pub proof fn lemma_best_is_max(t: Seq<ScoreEntry>, i: int)
    requires
        sorted_desc(t),
        0 <= i < t.len(),
    ensures
        t[0].score >= t[i].score,
{
}

/// On a sorted table of at most `MAX_ENTRIES` entries, a score counts as a
/// high score exactly when an entry with that score survives the trim after
/// insertion, and then it sits at its sorted position.
pub proof fn lemma_high_score_iff_kept(before: Seq<ScoreEntry>, e: ScoreEntry)
    requires
        sorted_desc(before),
        before.len() <= MAX_ENTRIES,
    ensures
        ({
            let hs = before.len() < MAX_ENTRIES || e.score > (if before.len() > 0 { before.last().score } else { 0 });
            let p = insert_pos(before, e.score);
            &&& hs <==> p < MAX_ENTRIES
            &&& hs ==> trimmed(sort_by_score(before.push(e)))[p] == e
        }),
{
    let p = insert_pos(before, e.score);
    lemma_insert_pos_bounds(before, e.score);
    lemma_sorted_is_fixed(before);
    assert(before.push(e).drop_last() == before);
    assert(sort_by_score(before.push(e)) == insert_sorted(before, e));
    before.insert_ensures(p, e);
    if before.len() == MAX_ENTRIES {
        let last = before.last();
        if e.score > last.score {
            if p == before.len() {
                assert(before[before.len() - 1].score >= e.score);
            }
        } else {
            if p < before.len() {
                assert(before[p].score >= last.score);
            }
        }
    }
    let s = insert_sorted(before, e);
    if p < MAX_ENTRIES && s.len() > MAX_ENTRIES {
        assert(s.take(MAX_ENTRIES as int)[p] == s[p]);
    }
}

} // verus!
