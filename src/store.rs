use vstd::prelude::*;

verus! {

/// Seconds since the UNIX epoch.
pub type Epoch = u64;

/// A rank or an amount of rank, in whole visits.
pub type Rank = u64;

/// How finely weights divide a rank in a fresh store: a fresh store's scale
/// is `1 / WEIGHT_PER_RANK`.
pub const WEIGHT_PER_RANK: u64 = 1000;

/// Entries whose rank falls below this after aging are dropped.
pub const PRUNE_BELOW: Rank = 1;

/// Aging brings the weights back to a total of about this much per entry.
pub const RENORM_TARGET: u64 = 4294967296;

/// The most entries a store holds.
pub const MAX_ENTRIES: u64 = 1048576;

/// The largest sum of weights, and the largest scale denominator, of a store:
/// far enough below `u64::MAX` that a visit always has room after aging.
pub const WEIGHT_LIMIT: u64 = 4611686018427387904;

/// One recorded directory. Its rank is `weight * scale_num / scale_den`,
/// with the scale of the store that holds it.
pub struct Entry {
    pub path: String,
    pub weight: u64,
    pub last_accessed: Epoch,
}

/// What an entry holds, as plain values.
pub ghost struct EntryView {
    pub path: Seq<char>,
    pub weight: u64,
    pub last_accessed: Epoch,
}

impl View for Entry {
    type V = EntryView;

    open spec fn view(&self) -> EntryView {
        EntryView { path: self.path@, weight: self.weight, last_accessed: self.last_accessed }
    }
}

/// The recorded directories, in the order they were first visited, with one
/// scale for all of them. Aging changes the scale and renormalizes the
/// weights by a map that keeps heavier entries strictly heavier, so it keeps
/// every comparison between ranks.
pub struct Store {
    pub entries: Vec<Entry>,
    pub scale_num: u64,
    pub scale_den: u64,
}

impl View for Store {
    type V = Seq<EntryView>;

    open spec fn view(&self) -> Seq<EntryView> {
        self.entries@.map_values(|e: Entry| e@)
    }
}

/// No path is recorded twice.
pub open spec fn unique_paths(es: Seq<EntryView>) -> bool {
    forall|i: int, j: int|
        0 <= i < es.len() && 0 <= j < es.len() && i != j ==> #[trigger] es[i].path != #[trigger] es[j].path
}

/// Index of the entry for `p`, or -1 where there is none.
pub open spec fn index_of(es: Seq<EntryView>, p: Seq<char>) -> int
    decreases es.len(),
{
    if es.len() == 0 {
        -1
    } else if es.last().path == p {
        es.len() - 1
    } else {
        index_of(es.drop_last(), p)
    }
}

/// `a + b`, held at `u64::MAX`.
pub open spec fn saturating_add(a: u64, b: u64) -> u64 {
    if a + b > u64::MAX {
        u64::MAX
    } else {
        (a + b) as u64
    }
}

/// The entries after a visit of `p` at `now` that adds `weight`: an existing
/// entry gains it and takes `now`; a new path is appended with it.
pub open spec fn added(es: Seq<EntryView>, p: Seq<char>, now: Epoch, weight: u64) -> Seq<EntryView> {
    let i = index_of(es, p);
    if i >= 0 {
        es.update(i, EntryView { path: p, weight: saturating_add(es[i].weight, weight), last_accessed: now })
    } else {
        es.push(EntryView { path: p, weight: weight, last_accessed: now })
    }
}

/// The sum of all weights.
pub open spec fn total_weight(es: Seq<EntryView>) -> int
    decreases es.len(),
{
    if es.len() == 0 {
        0
    } else {
        total_weight(es.drop_last()) + es.last().weight
    }
}

/// The weight that stands for `increment` ranks at scale `num / den`,
/// rounded up.
pub open spec fn increment_weight(increment: Rank, num: u64, den: u64) -> int {
    (increment * den + num - 1) as int / num as int
}

/// A visit of `p` fits in the store: the weights stay within `WEIGHT_LIMIT`,
/// and a new path finds the store below `MAX_ENTRIES`.
pub open spec fn visit_fits(es: Seq<EntryView>, p: Seq<char>, increment: Rank, num: u64, den: u64) -> bool {
    &&& total_weight(es) + increment_weight(increment, num, den) <= WEIGHT_LIMIT
    &&& (index_of(es, p) >= 0 || es.len() < MAX_ENTRIES)
}

/// How many entries weigh less than `x`.
pub open spec fn count_lighter(es: Seq<EntryView>, x: u64) -> int
    decreases es.len(),
{
    if es.len() == 0 {
        0
    } else {
        count_lighter(es.drop_last(), x) + if es.last().weight < x {
            1int
        } else {
            0int
        }
    }
}

/// The weight that aging gives an entry of weight `w`, among the entries
/// `all` whose weights sum to `total`: `w` scaled to a total of about
/// `RENORM_TARGET`, rounded down, times the number of entries, plus the
/// number of lighter entries. Heavier entries thus stay strictly heavier.
pub open spec fn renormalized(all: Seq<EntryView>, w: u64, total: int) -> int {
    (w * RENORM_TARGET) as int / total * all.len() + count_lighter(all, w)
}

/// The denominator of the scale after aging `n` entries.
pub open spec fn renormalized_den(n: int) -> int {
    n * (RENORM_TARGET + n)
}

/// The entries of `es` whose renormalized rank, at scale
/// `max_total / renormalized_den`, is at least `PRUNE_BELOW`, in their order
/// and with their renormalized weights.
pub open spec fn kept(all: Seq<EntryView>, es: Seq<EntryView>, max_total: int, total: int) -> Seq<EntryView>
    decreases es.len(),
{
    if es.len() == 0 {
        es
    } else {
        let prev = kept(all, es.drop_last(), max_total, total);
        let e = es.last();
        let w = renormalized(all, e.weight, total);
        if w * max_total >= PRUNE_BELOW * renormalized_den(all.len() as int) {
            prev.push(EntryView { weight: w as u64, ..e })
        } else {
            prev
        }
    }
}

/// The ranks at scale `num / den` sum to more than `max_total`.
pub open spec fn over_bound(es: Seq<EntryView>, num: u64, den: u64, max_total: Rank) -> bool {
    total_weight(es) * num > max_total * den
}

/// The entries after aging: unchanged while the ranks sum to at most
/// `max_total`; otherwise renormalized, keeping those whose rank at the new
/// scale is at least `PRUNE_BELOW`.
pub open spec fn aged(es: Seq<EntryView>, num: u64, den: u64, max_total: Rank) -> Seq<EntryView> {
    if over_bound(es, num, den, max_total) {
        kept(es, es, max_total as int, total_weight(es))
    } else {
        es
    }
}

/// The scale after aging: `max_total / renormalized_den` where the ranks
/// were over the bound (a fresh scale where that bound is 0), the old one
/// otherwise.
pub open spec fn aged_scale(es: Seq<EntryView>, num: u64, den: u64, max_total: Rank) -> (u64, u64) {
    if !over_bound(es, num, den, max_total) {
        (num, den)
    } else if max_total == 0 {
        (1, WEIGHT_PER_RANK)
    } else {
        (max_total, renormalized_den(es.len() as int) as u64)
    }
}

/// The entries without the one for `p`.
pub open spec fn removed(es: Seq<EntryView>, p: Seq<char>) -> Seq<EntryView> {
    let i = index_of(es, p);
    if i >= 0 {
        es.remove(i)
    } else {
        es
    }
}

/// What `index_of` finds: the entry for `p` if there is one, and with
/// unique paths the only one.
pub proof fn lemma_index_of(es: Seq<EntryView>, p: Seq<char>)
    ensures
        -1 <= index_of(es, p) < es.len(),
        index_of(es, p) >= 0 ==> es[index_of(es, p)].path == p,
        index_of(es, p) == -1 ==> forall|k: int| 0 <= k < es.len() ==> #[trigger] es[k].path != p,
        unique_paths(es) ==> forall|k: int| 0 <= k < es.len() && #[trigger] es[k].path == p ==> index_of(es, p) == k,
    decreases es.len(),
{
    if es.len() > 0 {
        lemma_index_of(es.drop_last(), p);
        if es.last().path != p {
            assert forall|k: int| 0 <= k < es.len() && #[trigger] es[k].path == p implies k < es.len() - 1 by {}
            assert forall|k: int| 0 <= k < es.len() - 1 implies #[trigger] es[k] == es.drop_last()[k] by {}
        }
    }
}

/// The weights sum to a non-negative total of at most one `u64` per entry.
pub proof fn lemma_total_weight_bound(es: Seq<EntryView>)
    ensures
        0 <= total_weight(es) <= es.len() * (u64::MAX as int),
    decreases es.len(),
{
    if es.len() > 0 {
        lemma_total_weight_bound(es.drop_last());
    }
}

/// The total after one entry is replaced.
proof fn lemma_total_update(es: Seq<EntryView>, i: int, e: EntryView)
    requires
        0 <= i < es.len(),
    ensures
        total_weight(es.update(i, e)) == total_weight(es) - es[i].weight + e.weight,
        es[i].weight <= total_weight(es),
    decreases es.len(),
{
    lemma_total_weight_bound(es.drop_last());
    if i == es.len() - 1 {
        assert(es.update(i, e).drop_last() =~= es.drop_last());
    } else {
        assert(es.update(i, e).drop_last() =~= es.drop_last().update(i, e));
        lemma_total_update(es.drop_last(), i, e);
    }
}

/// The total after one entry is removed.
proof fn lemma_total_remove(es: Seq<EntryView>, i: int)
    requires
        0 <= i < es.len(),
    ensures
        total_weight(es.remove(i)) == total_weight(es) - es[i].weight,
    decreases es.len(),
{
    if i == es.len() - 1 {
        assert(es.remove(i) =~= es.drop_last());
    } else {
        assert(es.remove(i).drop_last() =~= es.drop_last().remove(i));
        lemma_total_remove(es.drop_last(), i);
    }
}

impl Store {
    /// The store with no entries, at the fresh scale `1 / WEIGHT_PER_RANK`.
    pub fn new() -> (r: Store)
        ensures
            r@ == Seq::<EntryView>::empty(),
            r.scale_num == 1,
            r.scale_den == WEIGHT_PER_RANK,
            r.wf(),
    {
        let r = Store { entries: Vec::new(), scale_num: 1, scale_den: WEIGHT_PER_RANK };
        assert(r@ =~= Seq::<EntryView>::empty());
        r
    }

    /// The store's invariant: no path is recorded twice, the scale is a
    /// positive fraction with a denominator of at most `WEIGHT_LIMIT`, the
    /// weights sum to at most `WEIGHT_LIMIT`, and there are at most
    /// `MAX_ENTRIES` entries.
    pub open spec fn wf(&self) -> bool {
        &&& unique_paths(self@)
        &&& self.scale_num >= 1
        &&& 1 <= self.scale_den <= WEIGHT_LIMIT
        &&& total_weight(self@) <= WEIGHT_LIMIT
        &&& self@.len() <= MAX_ENTRIES
    }

    /// Number of entries.
    pub fn len(&self) -> (r: usize)
        ensures
            r == self@.len(),
    {
        self.entries.len()
    }

    /// Position of the entry for `path`, if there is one.
    pub fn find(&self, path: &String) -> (r: Option<usize>)
        requires
            unique_paths(self@),
        ensures
            r matches Some(i) ==> i == index_of(self@, path@),
            r is None <==> index_of(self@, path@) == -1,
    {
        proof {
            lemma_index_of(self@, path@);
        }
        let mut i: usize = 0;
        while i < self.entries.len()
            invariant
                i <= self@.len(),
                self@.len() == self.entries@.len(),
                unique_paths(self@),
                forall|k: int| 0 <= k < i ==> #[trigger] self@[k].path != path@,
            decreases self@.len() - i,
        {
            if self.entries[i].path == *path {
                assert(self@[i as int].path == path@);
                proof {
                    lemma_index_of(self@, path@);
                }
                return Some(i);
            }
            i = i + 1;
        }
        proof {
            lemma_index_of(self@, path@);
        }
        None
    }

    /// Records a visit of `path` at `now` that adds `increment` ranks: the
    /// weight for them at the store's scale, rounded up, so the rank rises by
    /// at least `increment` and by less than `increment` plus the rank of one
    /// unit of weight. An existing entry gains that weight and takes `now` as
    /// its last access; a new path is appended with it. Where the visit does
    /// not fit (`visit_fits`), nothing changes and `StoreFull` comes back.
    pub fn add(&mut self, path: String, now: Epoch, increment: Rank) -> (r: Result<(), StoreFull>)
        requires
            old(self).wf(),
        ensures
            final(self).wf(),
            final(self).scale_num == old(self).scale_num,
            final(self).scale_den == old(self).scale_den,
            r is Ok <==> visit_fits(old(self)@, path@, increment, old(self).scale_num, old(self).scale_den),
            r is Ok ==> final(self)@ == added(
                old(self)@,
                path@,
                now,
                increment_weight(increment, old(self).scale_num, old(self).scale_den) as u64,
            ),
            r is Err ==> *final(self) == *old(self),
    {
        let total = self.total();
        let num = self.scale_num as u128;
        assert(increment * self.scale_den <= u64::MAX * u64::MAX) by (nonlinear_arith)
            requires increment <= u64::MAX, self.scale_den <= u64::MAX;
        let w = (increment as u128 * self.scale_den as u128 + (num - 1)) / num;
        assert(w == increment_weight(increment, self.scale_num, self.scale_den));
        proof {
            lemma_index_of(self@, path@);
            lemma_total_weight_bound(self@);
        }
        if w > (WEIGHT_LIMIT as u128) - total {
            return Err(StoreFull);
        }
        let d = w as u64;
        match self.find(&path) {
            Some(i) => {
                proof {
                    lemma_total_update(self@, i as int, self@[i as int]);
                }
                let weight = self.entries[i].weight + d;
                let ghost e = EntryView { path: path@, weight, last_accessed: now };
                self.entries.set(i, Entry { path, weight, last_accessed: now });
                assert(self@ =~= added(old(self)@, e.path, now, d));
                proof {
                    lemma_total_update(old(self)@, i as int, e);
                    lemma_added_entry(old(self)@, e.path, now, d);
                }
            },
            None => {
                if self.entries.len() as u64 >= MAX_ENTRIES {
                    return Err(StoreFull);
                }
                self.entries.push(Entry { path, weight: d, last_accessed: now });
                let ghost p = self@.last().path;
                assert(self@ =~= added(old(self)@, p, now, d));
                assert(self@.drop_last() =~= old(self)@);
                proof {
                    lemma_added_entry(old(self)@, p, now, d);
                }
            },
        }
        Ok(())
    }

    /// The sum of all weights.
    pub fn total(&self) -> (r: u128)
        ensures
            r == total_weight(self@),
    {
        let mut total: u128 = 0;
        let mut i: usize = 0;
        while i < self.entries.len()
            invariant
                i <= self@.len(),
                self@.len() == self.entries@.len(),
                total == total_weight(self@.subrange(0, i as int)),
            decreases self@.len() - i,
        {
            proof {
                assert(self@.subrange(0, i + 1).drop_last() =~= self@.subrange(0, i as int));
                lemma_total_weight_bound(self@.subrange(0, i as int));
                assert(i * (u64::MAX as int) <= usize::MAX * (u64::MAX as int)) by (nonlinear_arith)
                    requires i <= usize::MAX;
            }
            total = total + self.entries[i].weight as u128;
            i = i + 1;
        }
        assert(self@.subrange(0, i as int) =~= self@);
        total
    }

    /// Ages the store. Where the ranks sum to more than `max_total`, every
    /// rank is scaled by `max_total / total` at once: the weights are
    /// renormalized (`renormalized`), the scale becomes `max_total` over
    /// `renormalized_den`, and the entries whose rank then falls below
    /// `PRUNE_BELOW` are dropped. Otherwise nothing changes. Renormalizing
    /// keeps heavier entries strictly heavier, and it rounds each rank by less
    /// than `max_total / RENORM_TARGET`.
    pub fn age(&mut self, max_total: Rank)
        requires
            old(self).wf(),
        ensures
            final(self).wf(),
            final(self)@ == aged(old(self)@, old(self).scale_num, old(self).scale_den, max_total),
            (final(self).scale_num, final(self).scale_den) == aged_scale(
                old(self)@,
                old(self).scale_num,
                old(self).scale_den,
                max_total,
            ),
    {
        let total = self.total();
        assert(total * self.scale_num <= u64::MAX * u64::MAX) by (nonlinear_arith)
            requires total <= u64::MAX, self.scale_num <= u64::MAX;
        assert(max_total * self.scale_den <= u64::MAX * u64::MAX) by (nonlinear_arith)
            requires max_total <= u64::MAX, self.scale_den <= u64::MAX;
        assert(max_total * self.scale_den >= 0) by (nonlinear_arith)
            requires max_total >= 0, self.scale_den >= 0;
        if total * (self.scale_num as u128) <= (max_total as u128) * (self.scale_den as u128) {
            return;
        }
        let ghost es = self@;
        let num0 = self.scale_num;
        let den0 = self.scale_den;
        assert(total > 0) by (nonlinear_arith)
            requires total * num0 > max_total * den0, max_total * den0 >= 0;
        let n = self.entries.len();
        let n64 = n as u64;
        assert(n64 * (RENORM_TARGET + n64) <= MAX_ENTRIES * (RENORM_TARGET + MAX_ENTRIES)) by (nonlinear_arith)
            requires n64 <= MAX_ENTRIES;
        let den = n64 * (RENORM_TARGET + n64);
        let mut keep: Vec<Entry> = Vec::new();
        let mut i: usize = 0;
        while i < n
            invariant
                i <= n == es.len() == self.entries@.len(),
                n64 == n,
                n <= MAX_ENTRIES,
                den == renormalized_den(n as int),
                self@ == es,
                total == total_weight(es),
                0 < total <= WEIGHT_LIMIT,
                keep@.map_values(|e: Entry| e@) == kept(es, es.subrange(0, i as int), max_total as int, total as int),
            decreases n - i,
        {
            let e = &self.entries[i];
            let mut lighter: u64 = 0;
            let mut j: usize = 0;
            while j < n
                invariant
                    j <= n == es.len() == self.entries@.len(),
                    n <= MAX_ENTRIES,
                    self@ == es,
                    lighter == count_lighter(es.subrange(0, j as int), e.weight),
                    lighter <= j,
                decreases n - j,
            {
                assert(es.subrange(0, j + 1).drop_last() =~= es.subrange(0, j as int));
                if self.entries[j].weight < e.weight {
                    lighter = lighter + 1;
                }
                j = j + 1;
            }
            assert(es.subrange(0, n as int) =~= es);
            proof {
                assert(es.subrange(0, i + 1).drop_last() =~= es.subrange(0, i as int));
                assert(es.subrange(0, i + 1).last() == es[i as int]);
                lemma_weight_le_total(es, i as int);
                lemma_floor_le(e.weight as int, total as int);
            }
            let q = ((e.weight as u128) * (RENORM_TARGET as u128) / total) as u64;
            assert(q * n64 <= RENORM_TARGET * MAX_ENTRIES) by (nonlinear_arith)
                requires q <= RENORM_TARGET, n64 <= MAX_ENTRIES;
            let w = q * n64 + lighter;
            assert(w == renormalized(es, e.weight, total as int));
            assert(w * max_total <= u64::MAX * u64::MAX) by (nonlinear_arith)
                requires w <= u64::MAX, max_total <= u64::MAX;
            if (w as u128) * (max_total as u128) >= (PRUNE_BELOW as u128) * (den as u128) {
                let ghost before = keep@;
                keep.push(Entry { path: e.path.clone(), weight: w, last_accessed: e.last_accessed });
                assert(keep@.map_values(|e: Entry| e@) =~= before.map_values(|e: Entry| e@).push(
                    EntryView { weight: w, ..es[i as int] }));
            }
            i = i + 1;
        }
        assert(es.subrange(0, n as int) =~= es);
        self.entries = keep;
        if max_total == 0 {
            self.scale_num = 1;
            self.scale_den = WEIGHT_PER_RANK;
        } else {
            self.scale_num = max_total;
            self.scale_den = den;
        }
        proof {
            lemma_kept_paths(es, es, max_total as int, total as int);
            lemma_kept_total(es, es, max_total as int, total as int);
            lemma_kept_len(es, es, max_total as int, total as int);
            let k = total_weight(kept(es, es, max_total as int, total as int));
            let nn = n as int;
            let tt = total as int;
            assert(k <= renormalized_den(nn)) by (nonlinear_arith)
                requires k * tt <= nn * (tt * RENORM_TARGET) + nn * (nn * tt), tt > 0, k >= 0,
                    renormalized_den(nn) == nn * (RENORM_TARGET + nn);
            assert(n >= 1);
            assert(den >= 1) by (nonlinear_arith)
                requires den == n64 * (RENORM_TARGET + n64), n64 >= 1;
        }
    }

    /// Removes the entry for `path`, if there is one.
    pub fn remove(&mut self, path: &String)
        requires
            old(self).wf(),
        ensures
            final(self).wf(),
            final(self).scale_num == old(self).scale_num,
            final(self).scale_den == old(self).scale_den,
            final(self)@ == removed(old(self)@, path@),
    {
        proof {
            lemma_index_of(self@, path@);
        }
        match self.find(path) {
            Some(i) => {
                self.entries.remove(i);
                assert(self@ =~= removed(old(self)@, path@));
                proof {
                    lemma_total_remove(old(self)@, i as int);
                    lemma_total_weight_bound(self@);
                }
                assert forall|a: int, b: int|
                    0 <= a < self@.len() && 0 <= b < self@.len() && a != b implies
                    #[trigger] self@[a].path != #[trigger] self@[b].path by {
                    let oa = if a < i { a } else { a + 1 };
                    let ob = if b < i { b } else { b + 1 };
                    assert(self@[a] == old(self)@[oa]);
                    assert(self@[b] == old(self)@[ob]);
                }
            },
            None => {},
        }
    }
}


/// Why a visit could not be recorded: its weight would take the store past
/// `WEIGHT_LIMIT`, or a new path would take it past `MAX_ENTRIES`.
#[derive(Debug, PartialEq, Eq, Structural)]
pub struct StoreFull;

proof fn lemma_weight_le_total(es: Seq<EntryView>, i: int)
    requires
        0 <= i < es.len(),
    ensures
        es[i].weight <= total_weight(es),
{
    lemma_total_update(es, i, es[i]);
}

proof fn lemma_floor_le(w: int, t: int)
    requires
        0 <= w <= t,
        t > 0,
    ensures
        0 <= (w * RENORM_TARGET) / t <= RENORM_TARGET,
        ((w * RENORM_TARGET) / t) * t <= w * RENORM_TARGET,
{
    let k = RENORM_TARGET as int;
    assert(0 <= w * k <= t * k) by (nonlinear_arith)
        requires 0 <= w <= t, k >= 0;
    assert(0 <= (w * k) / t <= (t * k) / t) by (nonlinear_arith)
        requires 0 <= w * k <= t * k, t > 0;
    assert((t * k) / t == k) by (nonlinear_arith)
        requires t > 0;
    assert(((w * k) / t) * t <= w * k) by (nonlinear_arith)
        requires w * k >= 0, t > 0;
}

proof fn lemma_count_lighter_bounds(es: Seq<EntryView>, x: u64)
    ensures
        0 <= count_lighter(es, x) <= es.len(),
    decreases es.len(),
{
    if es.len() > 0 {
        lemma_count_lighter_bounds(es.drop_last(), x);
    }
}

/// Counting lighter entries is monotonic, and strictly so across an entry's
/// weight.
proof fn lemma_count_lighter_order(es: Seq<EntryView>, x: u64, y: u64)
    requires
        x <= y,
    ensures
        count_lighter(es, x) <= count_lighter(es, y),
        (exists|j: int| 0 <= j < es.len() && x <= #[trigger] es[j].weight < y) ==> count_lighter(es, x) < count_lighter(
            es,
            y,
        ),
    decreases es.len(),
{
    if es.len() > 0 {
        let prev = es.drop_last();
        lemma_count_lighter_order(prev, x, y);
        if exists|j: int| 0 <= j < es.len() && x <= #[trigger] es[j].weight < y {
            let j = choose|j: int| 0 <= j < es.len() && x <= #[trigger] es[j].weight < y;
            if j < es.len() - 1 {
                assert(prev[j] == es[j]);
            }
        }
    }
}

/// A renormalized weight fits, and is at most the number of entries times
/// `RENORM_TARGET + 1`.
proof fn lemma_renormalized_bounds(all: Seq<EntryView>, w: u64, total: int)
    requires
        w <= total,
        total > 0,
    ensures
        0 <= renormalized(all, w, total) <= all.len() * (RENORM_TARGET + 1),
        renormalized(all, w, total) * total <= all.len() * (w * RENORM_TARGET) + all.len() * total,
{
    lemma_floor_le(w as int, total);
    lemma_count_lighter_bounds(all, w);
    let q = (w * RENORM_TARGET) as int / total;
    let n = all.len() as int;
    let c = count_lighter(all, w);
    assert(q * n <= RENORM_TARGET * n) by (nonlinear_arith)
        requires q <= RENORM_TARGET, n >= 0;
    assert(q * n >= 0) by (nonlinear_arith)
        requires q >= 0, n >= 0;
    assert((q * n + c) * total <= n * (w * RENORM_TARGET) + n * total) by (nonlinear_arith)
        requires q * total <= w * RENORM_TARGET, 0 <= c <= n, n >= 0, total > 0;
}

/// What `kept` keeps: an entry for `p` is there exactly when `p` was
/// recorded with a renormalized rank that reaches `PRUNE_BELOW`, and it then
/// holds the renormalized weight and its time.
pub proof fn lemma_kept_entry(all: Seq<EntryView>, es: Seq<EntryView>, max_total: int, total: int, p: Seq<char>)
    requires
        unique_paths(es),
    ensures
        ({
            let r = kept(all, es, max_total, total);
            let i = index_of(es, p);
            let j = index_of(r, p);
            let w = renormalized(all, es[i].weight, total);
            &&& j >= 0 <==> (i >= 0 && w * max_total >= PRUNE_BELOW * renormalized_den(all.len() as int))
            &&& j >= 0 ==> r[j] == EntryView { weight: w as u64, ..es[i] }
        }),
    decreases es.len(),
{
    if es.len() > 0 {
        let prev = es.drop_last();
        assert(unique_paths(prev)) by {
            assert forall|a: int, b: int| 0 <= a < prev.len() && 0 <= b < prev.len() && a != b implies
                #[trigger] prev[a].path != #[trigger] prev[b].path by {
                assert(prev[a] == es[a] && prev[b] == es[b]);
            }
        }
        lemma_kept_entry(all, prev, max_total, total, p);
        lemma_kept_paths(all, prev, max_total, total);
        let rp = kept(all, prev, max_total, total);
        let r = kept(all, es, max_total, total);
        let e = es.last();
        let keep = renormalized(all, e.weight, total) * max_total >= PRUNE_BELOW * renormalized_den(all.len() as int);
        lemma_index_of(rp, p);
        lemma_index_of(prev, p);
        lemma_index_of(es, p);
        if keep {
            assert(r.drop_last() =~= rp);
        } else {
            assert(r == rp);
        }
        if e.path == p {
            assert(index_of(es, p) == es.len() - 1);
            assert forall|k: int| 0 <= k < prev.len() implies #[trigger] prev[k].path != p by {
                assert(es[k] == prev[k]);
                assert(es[es.len() - 1].path == p);
            }
            assert forall|k: int| 0 <= k < rp.len() implies #[trigger] rp[k].path != p by {
                let m = choose|m: int| 0 <= m < prev.len() && prev[m].path == rp[k].path;
            }
            assert(index_of(rp, p) == -1);
            if keep {
                assert(index_of(r, p) == r.len() - 1);
            }
        } else {
            assert(index_of(es, p) == index_of(prev, p));
            if index_of(prev, p) >= 0 {
                assert(es[index_of(prev, p)] == prev[index_of(prev, p)]);
            }
            if keep {
                assert(index_of(r, p) == index_of(rp, p));
                if index_of(rp, p) >= 0 {
                    assert(r[index_of(rp, p)] == rp[index_of(rp, p)]);
                }
            }
        }
    }
}

/// Every path that `kept` keeps was recorded before, and it keeps no path
/// twice.
proof fn lemma_kept_paths(all: Seq<EntryView>, es: Seq<EntryView>, max_total: int, total: int)
    requires
        unique_paths(es),
    ensures
        unique_paths(kept(all, es, max_total, total)),
        forall|k: int| 0 <= k < kept(all, es, max_total, total).len() ==>
            exists|m: int| 0 <= m < es.len() && es[m].path == #[trigger] kept(all, es, max_total, total)[k].path,
    decreases es.len(),
{
    if es.len() > 0 {
        let prev = es.drop_last();
        assert(unique_paths(prev)) by {
            assert forall|a: int, b: int| 0 <= a < prev.len() && 0 <= b < prev.len() && a != b implies
                #[trigger] prev[a].path != #[trigger] prev[b].path by {
                assert(prev[a] == es[a] && prev[b] == es[b]);
            }
        }
        lemma_kept_paths(all, prev, max_total, total);
        let rp = kept(all, prev, max_total, total);
        let r = kept(all, es, max_total, total);
        assert forall|k: int| 0 <= k < rp.len() implies exists|m: int| 0 <= m < es.len() && es[m].path == #[trigger] rp[k].path by {
            let m = choose|m: int| 0 <= m < prev.len() && prev[m].path == rp[k].path;
            assert(es[m] == prev[m]);
        }
        assert forall|k: int| 0 <= k < rp.len() implies #[trigger] rp[k].path != es.last().path by {
            let m = choose|m: int| 0 <= m < prev.len() && prev[m].path == rp[k].path;
            assert(es[m] == prev[m]);
            assert(es[es.len() - 1] == es.last());
        }
        assert forall|k: int| 0 <= k < r.len() implies exists|m: int| 0 <= m < es.len() && es[m].path == #[trigger] r[k].path by {
            if k < rp.len() {
                assert(r[k] == rp[k]);
            } else {
                assert(es[es.len() - 1] == es.last());
            }
        }
    }
}

proof fn lemma_kept_len(all: Seq<EntryView>, es: Seq<EntryView>, max_total: int, total: int)
    ensures
        kept(all, es, max_total, total).len() <= es.len(),
    decreases es.len(),
{
    if es.len() > 0 {
        lemma_kept_len(all, es.drop_last(), max_total, total);
    }
}

/// The renormalized weights that `kept` keeps sum to at most
/// `renormalized_den` of all entries, and each reaches the bound.
proof fn lemma_kept_total(all: Seq<EntryView>, es: Seq<EntryView>, max_total: int, total: int)
    requires
        all.len() <= MAX_ENTRIES,
        total == total_weight(all),
        total > 0,
        total_weight(es) <= total,
    ensures
        0 <= total_weight(kept(all, es, max_total, total)),
        total_weight(kept(all, es, max_total, total)) * total <= all.len() * (total_weight(es) * RENORM_TARGET)
            + all.len() * (es.len() * total),
        forall|k: int| 0 <= k < kept(all, es, max_total, total).len() ==>
            #[trigger] kept(all, es, max_total, total)[k].weight * max_total >= PRUNE_BELOW * renormalized_den(all.len() as int),
    decreases es.len(),
{
    if es.len() > 0 {
        let prev = es.drop_last();
        lemma_total_weight_bound(prev);
        lemma_kept_total(all, prev, max_total, total);
        let rp = kept(all, prev, max_total, total);
        let r = kept(all, es, max_total, total);
        let e = es.last();
        let w = renormalized(all, e.weight, total);
        lemma_renormalized_bounds(all, e.weight, total);
        let n = all.len() as int;
        assert(n * (RENORM_TARGET + 1) <= u64::MAX) by (nonlinear_arith)
            requires 0 <= n <= MAX_ENTRIES;
        let a = total_weight(rp);
        let b = total_weight(prev);
        assert(n * (b * RENORM_TARGET) + n * ((es.len() - 1) * total) + n * (e.weight * RENORM_TARGET) + n * total
            == n * ((b + e.weight) * RENORM_TARGET) + n * (es.len() * total)) by (nonlinear_arith);
        assert(w * total >= 0) by (nonlinear_arith)
            requires w >= 0, total > 0;
        assert(n * (b * RENORM_TARGET) + n * ((es.len() - 1) * total) >= 0) by (nonlinear_arith)
            requires n >= 0, b >= 0, es.len() >= 1, total > 0;
        if w * max_total >= PRUNE_BELOW * renormalized_den(n) {
            assert(r.drop_last() =~= rp);
            assert(total_weight(r) == a + w);
            assert((a + w) * total == a * total + w * total) by (nonlinear_arith);
        } else {
            assert(r == rp);
        }
        assert forall|k: int| 0 <= k < r.len() implies #[trigger] r[k].weight * max_total >= PRUNE_BELOW * renormalized_den(n) by {
            if k < rp.len() {
                assert(r[k] == rp[k]);
            }
        }
    }
}

/// A visit keeps paths unique and leaves an entry for the visited path with
/// the given time.
pub proof fn lemma_added_entry(es: Seq<EntryView>, p: Seq<char>, now: Epoch, weight: u64)
    requires
        unique_paths(es),
    ensures
        unique_paths(added(es, p, now, weight)),
        ({
            let r = added(es, p, now, weight);
            let i = index_of(es, p);
            let j = index_of(r, p);
            &&& j >= 0
            &&& r[j].last_accessed == now
            &&& r[j].weight == if i >= 0 { saturating_add(es[i].weight, weight) } else { weight }
        }),
{
    lemma_index_of(es, p);
    let r = added(es, p, now, weight);
    let i = index_of(es, p);
    if i >= 0 {
        assert forall|a: int, b: int| 0 <= a < r.len() && 0 <= b < r.len() && a != b implies
            #[trigger] r[a].path != #[trigger] r[b].path by {
            assert(r[a].path == es[a].path && r[b].path == es[b].path);
        }
        lemma_index_of(r, p);
        assert(r[i].path == p);
    } else {
        assert forall|a: int, b: int| 0 <= a < r.len() && 0 <= b < r.len() && a != b implies
            #[trigger] r[a].path != #[trigger] r[b].path by {
            if a < es.len() {
                assert(r[a] == es[a]);
            }
            if b < es.len() {
                assert(r[b] == es[b]);
            }
        }
        assert(r.drop_last() =~= es);
        assert(index_of(r, p) == es.len());
    }
}

/// The weights after a visit that fits sum to the old total plus the
/// visit's weight.
pub proof fn lemma_added_total(es: Seq<EntryView>, p: Seq<char>, now: Epoch, weight: u64)
    requires
        total_weight(es) + weight <= u64::MAX,
    ensures
        total_weight(added(es, p, now, weight)) == total_weight(es) + weight,
        index_of(es, p) >= 0 ==> es[index_of(es, p)].weight + weight <= u64::MAX,
{
    lemma_index_of(es, p);
    let i = index_of(es, p);
    if i >= 0 {
        lemma_total_update(es, i, es[i]);
        let e = EntryView { path: p, weight: saturating_add(es[i].weight, weight), last_accessed: now };
        lemma_total_update(es, i, e);
    } else {
        let e = EntryView { path: p, weight: weight, last_accessed: now };
        assert(es.push(e).drop_last() =~= es);
    }
}

/// A visit adds at least its increment in rank, and less than one unit of
/// weight more: the weight `g` it adds has `g * num >= increment * den` and
/// `g * num < increment * den + num`. An increment of at least one rank adds
/// weight.
pub proof fn lemma_increment_weight(increment: Rank, num: u64, den: u64)
    requires
        num >= 1,
    ensures
        increment_weight(increment, num, den) * num >= increment * den,
        increment_weight(increment, num, den) * num < increment * den + num,
        increment >= 1 && den >= 1 ==> increment_weight(increment, num, den) >= 1,
{
    let a = (increment * den + num - 1) as int;
    let n = num as int;
    let g = a / n;
    assert(g * n <= a && a < g * n + n) by (nonlinear_arith)
        requires n >= 1, g == a / n;
    if increment >= 1 && den >= 1 {
        assert(increment * den >= 1) by (nonlinear_arith)
            requires increment >= 1, den >= 1;
        assert(g >= 1) by (nonlinear_arith)
            requires a >= n, n >= 1, g == a / n;
    }
}

/// Two visits of one path, the second one later, with no aging between them
/// and both fitting: the path's weight rises by the increment's weight each
/// time, so its rank rises strictly, by at least `increment` each time, and
/// it records the second time.
pub proof fn lemma_add_monotonic(
    es: Seq<EntryView>,
    num: u64,
    den: u64,
    p: Seq<char>,
    t1: Epoch,
    t2: Epoch,
    increment: Rank,
)
    requires
        unique_paths(es),
        num >= 1,
        den >= 1,
        increment >= 1,
        t1 < t2,
        total_weight(es) + 2 * increment_weight(increment, num, den) <= u64::MAX,
    ensures
        ({
            let g = increment_weight(increment, num, den);
            let s1 = added(es, p, t1, g as u64);
            let s2 = added(s1, p, t2, g as u64);
            &&& g * num >= increment * den
            &&& index_of(s1, p) >= 0
            &&& index_of(s2, p) >= 0
            &&& s2[index_of(s2, p)].weight == s1[index_of(s1, p)].weight + g
            &&& s2[index_of(s2, p)].weight > s1[index_of(s1, p)].weight
            &&& s2[index_of(s2, p)].last_accessed == t2
        }),
{
    lemma_increment_weight(increment, num, den);
    let g = increment_weight(increment, num, den);
    lemma_total_weight_bound(es);
    lemma_index_of(es, p);
    lemma_added_entry(es, p, t1, g as u64);
    lemma_added_total(es, p, t1, g as u64);
    let s1 = added(es, p, t1, g as u64);
    lemma_index_of(s1, p);
    lemma_added_entry(s1, p, t2, g as u64);
    lemma_added_total(s1, p, t2, g as u64);
    if index_of(s1, p) >= 0 {
        lemma_weight_le_total(s1, index_of(s1, p));
    }
}

/// Two visits as `Add::record` makes them (a visit, then aging), where
/// neither aging finds the ranks over `max_total`: aging changes nothing, and
/// the path ends up present, with the second time and a weight raised twice
/// by the increment's weight.
pub proof fn lemma_visits_without_aging(
    es: Seq<EntryView>,
    num: u64,
    den: u64,
    p: Seq<char>,
    t1: Epoch,
    t2: Epoch,
    increment: Rank,
    max_total: Rank,
)
    requires
        unique_paths(es),
        num >= 1,
        den >= 1,
        increment >= 1,
        t1 < t2,
        total_weight(es) + 2 * increment_weight(increment, num, den) <= u64::MAX,
        !over_bound(added(es, p, t1, increment_weight(increment, num, den) as u64), num, den, max_total),
        !over_bound(
            added(
                added(es, p, t1, increment_weight(increment, num, den) as u64),
                p,
                t2,
                increment_weight(increment, num, den) as u64,
            ),
            num,
            den,
            max_total,
        ),
    ensures
        ({
            let g = increment_weight(increment, num, den);
            let s1 = aged(added(es, p, t1, g as u64), num, den, max_total);
            let s2 = aged(added(s1, p, t2, g as u64), num, den, max_total);
            &&& s1 == added(es, p, t1, g as u64)
            &&& aged_scale(added(es, p, t1, g as u64), num, den, max_total) == (num, den)
            &&& index_of(s2, p) >= 0
            &&& s2[index_of(s2, p)].weight == s1[index_of(s1, p)].weight + g
            &&& s2[index_of(s2, p)].last_accessed == t2
            &&& g * num >= increment * den
        }),
{
    lemma_add_monotonic(es, num, den, p, t1, t2, increment);
}

/// After aging, the ranks sum to at most `max_total`, whatever they were
/// before: the weights times the new scale's numerator are at most
/// `max_total` times its denominator.
pub proof fn lemma_aged_total(es: Seq<EntryView>, num: u64, den: u64, max_total: Rank)
    requires
        total_weight(es) <= u64::MAX,
        es.len() <= MAX_ENTRIES,
    ensures
        ({
            let (n2, d2) = aged_scale(es, num, den, max_total);
            total_weight(aged(es, num, den, max_total)) * n2 <= max_total * d2
        }),
{
    let t = total_weight(es);
    if over_bound(es, num, den, max_total) {
        lemma_total_weight_bound(es);
        assert(t > 0) by (nonlinear_arith)
            requires t * num > max_total * den, max_total * den >= 0, t >= 0;
        lemma_kept_total(es, es, max_total as int, t);
        let k = total_weight(kept(es, es, max_total as int, t));
        let n = es.len() as int;
        assert(k <= renormalized_den(n)) by (nonlinear_arith)
            requires k * t <= n * (t * RENORM_TARGET) + n * (n * t), t > 0, k >= 0,
                renormalized_den(n) == n * (RENORM_TARGET + n);
        if max_total == 0 {
            let r = kept(es, es, 0, t);
            if r.len() > 0 {
                assert(r[0].weight * 0 >= PRUNE_BELOW * renormalized_den(n));
                assert(n >= 1);
                assert(renormalized_den(n) >= 1) by (nonlinear_arith)
                    requires n >= 1, renormalized_den(n) == n * (RENORM_TARGET + n);
            }
            assert(k == 0);
        } else {
            assert(renormalized_den(n) <= u64::MAX) by (nonlinear_arith)
                requires 0 <= n <= MAX_ENTRIES, renormalized_den(n) == n * (RENORM_TARGET + n);
            assert(k * max_total <= max_total * renormalized_den(n)) by (nonlinear_arith)
                requires k <= renormalized_den(n), max_total >= 0;
        }
    }
}

/// Aging keeps every rank comparison: of two paths still recorded after
/// aging, one ranked strictly higher before is ranked strictly higher after,
/// and equal ranks stay equal, since all entries share one scale and
/// renormalizing keeps heavier entries strictly heavier.
pub proof fn lemma_aged_order(es: Seq<EntryView>, num: u64, den: u64, max_total: Rank, a: Seq<char>, b: Seq<char>)
    requires
        unique_paths(es),
        es.len() <= MAX_ENTRIES,
        index_of(aged(es, num, den, max_total), a) >= 0,
        index_of(aged(es, num, den, max_total), b) >= 0,
    ensures
        ({
            let r = aged(es, num, den, max_total);
            let wa = es[index_of(es, a)].weight;
            let wb = es[index_of(es, b)].weight;
            &&& wa > wb ==> r[index_of(r, a)].weight > r[index_of(r, b)].weight
            &&& wa == wb ==> r[index_of(r, a)].weight == r[index_of(r, b)].weight
        }),
{
    if over_bound(es, num, den, max_total) {
        let t = total_weight(es);
        lemma_total_weight_bound(es);
        assert(t > 0) by (nonlinear_arith)
            requires t * num > max_total * den, max_total * den >= 0, t >= 0;
        lemma_kept_entry(es, es, max_total as int, t, a);
        lemma_kept_entry(es, es, max_total as int, t, b);
        lemma_index_of(es, a);
        lemma_index_of(es, b);
        let ia = index_of(es, a);
        let ib = index_of(es, b);
        let wa = es[ia].weight;
        let wb = es[ib].weight;
        lemma_weight_le_total(es, ia);
        lemma_weight_le_total(es, ib);
        lemma_renormalized_bounds(es, wa, t);
        lemma_renormalized_bounds(es, wb, t);
        let nn = es.len() as int;
        assert(nn * (RENORM_TARGET + 1) <= u64::MAX) by (nonlinear_arith)
            requires 0 <= nn <= MAX_ENTRIES;
        if wa > wb {
            assert(0 <= ib < es.len() && wb <= es[ib].weight < wa);
            lemma_count_lighter_order(es, wb, wa);
            let n = es.len() as int;
            let qa = (wa * RENORM_TARGET) as int / t;
            let qb = (wb * RENORM_TARGET) as int / t;
            assert(qa >= qb) by (nonlinear_arith)
                requires wa > wb, t > 0, qa == (wa * RENORM_TARGET) as int / t, qb == (wb * RENORM_TARGET) as int / t;
            assert(qa * n >= qb * n) by (nonlinear_arith)
                requires qa >= qb, n >= 0;
        }
    } else {
        lemma_index_of(es, a);
        lemma_index_of(es, b);
    }
}

/// Pruning: after an aging that rescales, every rank left is at least
/// `PRUNE_BELOW` at the new scale, and a path whose renormalized rank falls
/// below it is gone.
pub proof fn lemma_aged_pruned(es: Seq<EntryView>, num: u64, den: u64, max_total: Rank, p: Seq<char>)
    requires
        unique_paths(es),
        over_bound(es, num, den, max_total),
        es.len() <= MAX_ENTRIES,
    ensures
        ({
            let r = aged(es, num, den, max_total);
            let (n2, d2) = aged_scale(es, num, den, max_total);
            let i = index_of(es, p);
            let t = total_weight(es);
            &&& forall|k: int| 0 <= k < r.len() ==> #[trigger] r[k].weight * n2 >= PRUNE_BELOW * d2
            &&& i >= 0 && renormalized(es, es[i].weight, t) * max_total < PRUNE_BELOW * renormalized_den(
                es.len() as int,
            ) ==> index_of(r, p) == -1
        }),
{
    let t = total_weight(es);
    lemma_total_weight_bound(es);
    assert(t > 0) by (nonlinear_arith)
        requires t * num > max_total * den, max_total * den >= 0, t >= 0;
    lemma_kept_entry(es, es, max_total as int, t, p);
    lemma_kept_total(es, es, max_total as int, t);
    let r = aged(es, num, den, max_total);
    lemma_index_of(r, p);
    let n = es.len() as int;
    assert(renormalized_den(n) <= u64::MAX) by (nonlinear_arith)
        requires 0 <= n <= MAX_ENTRIES, renormalized_den(n) == n * (RENORM_TARGET + n);
    if max_total == 0 {
        if r.len() > 0 {
            assert(r[0].weight * 0 >= PRUNE_BELOW * renormalized_den(n));
            assert(renormalized_den(n) >= 1) by (nonlinear_arith)
                requires n >= 1, renormalized_den(n) == n * (RENORM_TARGET + n);
        }
    }
}

} // verus!
