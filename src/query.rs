use vstd::prelude::*;
use crate::frecency::{frecency, score};
use crate::matcher::{char_views, chars_of, keywords_match, lowered_keywords, matches_lowered, views};
use crate::store::{Epoch, Store};
use crate::text::to_lowercase;

verus! {

/// An entry that matched a query: its position in the store and its score,
/// in quarters of its weight.
#[derive(Debug, Clone, Copy, PartialEq, Eq, Structural)]
pub struct Match {
    pub index: usize,
    pub score: u128,
}

/// `a` comes before `b` in a ranked list: a higher score first, and between
/// equal scores the entry recorded first.
pub open spec fn ranks_before(a: Match, b: Match) -> bool {
    a.score > b.score || (a.score == b.score && a.index < b.index)
}

/// `r` lists, best first, exactly the entries of `s` that match the keywords
/// at time `now`, each with its score.
pub open spec fn ranked_matches(s: Store, keywords: Seq<Seq<char>>, now: Epoch, r: Seq<Match>) -> bool {
    &&& forall|k: int| 0 <= k < r.len() ==> {
        &&& #[trigger] r[k].index < s@.len()
        &&& r[k].score == frecency(s@[r[k].index as int].weight, s@[r[k].index as int].last_accessed, now)
        &&& keywords_match(s@[r[k].index as int].path, keywords)
    }
    &&& forall|x: int| 0 <= x < s@.len() && keywords_match(#[trigger] s@[x].path, keywords) ==>
        exists|k: int| 0 <= k < r.len() && r[k].index == x
    &&& forall|a: int, b: int| 0 <= a < b < r.len() ==> ranks_before(#[trigger] r[a], #[trigger] r[b])
}

impl Store {
    /// The entries whose paths match the keywords, ranked by descending
    /// frecency score at `now`; equal scores keep the store's order.
    pub fn query(&self, keywords: &Vec<String>, now: Epoch) -> (r: Vec<Match>)
        ensures
            ranked_matches(*self, views(keywords@), now, r@),
    {
        let ks = lowered_keywords(keywords);
        let n = self.entries.len();
        let mut out: Vec<Match> = Vec::new();
        let mut i: usize = 0;
        while i < n
            invariant
                i <= n == self@.len() == self.entries@.len(),
                char_views(ks@) == views(keywords@).map_values(|k: Seq<char>| crate::text::lowercase(k)),
                forall|k: int| 0 <= k < out@.len() ==> {
                    &&& #[trigger] out@[k].index < i
                    &&& out@[k].score == frecency(self@[out@[k].index as int].weight, self@[out@[k].index as int].last_accessed, now)
                    &&& keywords_match(self@[out@[k].index as int].path, views(keywords@))
                },
                forall|x: int| 0 <= x < i && keywords_match(#[trigger] self@[x].path, views(keywords@)) ==>
                    exists|k: int| 0 <= k < out@.len() && out@[k].index == x,
                forall|a: int, b: int| 0 <= a < b < out@.len() ==> ranks_before(#[trigger] out@[a], #[trigger] out@[b]),
            decreases n - i,
        {
            let e = &self.entries[i];
            let low = to_lowercase(e.path.as_str());
            let hay = chars_of(low.as_str());
            if matches_lowered(&hay, &ks) {
                let m = Match { index: i, score: score(e.weight, e.last_accessed, now) };
                let mut pos: usize = 0;
                while pos < out.len() && out[pos].score >= m.score
                    invariant
                        pos <= out@.len(),
                        forall|k: int| 0 <= k < pos ==> #[trigger] out@[k].score >= m.score,
                    decreases out@.len() - pos,
                {
                    pos = pos + 1;
                }
                let ghost before = out@;
                out.insert(pos, m);
                assert forall|a: int, b: int| 0 <= a < b < out@.len() implies ranks_before(#[trigger] out@[a], #[trigger] out@[b]) by {
                    if b < pos {
                        assert(out@[a] == before[a] && out@[b] == before[b]);
                    } else if b == pos {
                        assert(out@[a] == before[a]);
                    } else if a == pos {
                        assert(out@[b] == before[b - 1]);
                        if pos < b - 1 {
                            assert(ranks_before(before[pos as int], before[b - 1]));
                        }
                    } else if a < pos {
                        assert(out@[a] == before[a] && out@[b] == before[b - 1]);
                    } else {
                        assert(out@[a] == before[a - 1] && out@[b] == before[b - 1]);
                    }
                }
                assert forall|k: int| 0 <= k < out@.len() implies {
                    &&& #[trigger] out@[k].index < i + 1
                    &&& out@[k].score == frecency(self@[out@[k].index as int].weight, self@[out@[k].index as int].last_accessed, now)
                    &&& keywords_match(self@[out@[k].index as int].path, views(keywords@))
                } by {
                    if k < pos {
                        assert(out@[k] == before[k]);
                    } else if k > pos {
                        assert(out@[k] == before[k - 1]);
                    }
                }
                assert forall|x: int| 0 <= x < i + 1 && keywords_match(#[trigger] self@[x].path, views(keywords@)) implies
                    exists|k: int| 0 <= k < out@.len() && out@[k].index == x by {
                    if x < i {
                        let k = choose|k: int| 0 <= k < before.len() && before[k].index == x;
                        if k < pos {
                            assert(out@[k] == before[k]);
                        } else {
                            assert(out@[k + 1] == before[k]);
                        }
                    } else {
                        assert(out@[pos as int].index == x);
                    }
                }
            }
            i = i + 1;
        }
        out
    }

    /// The best match for the keywords at `now`: the first entry of `query`.
    pub fn best_match(&self, keywords: &Vec<String>, now: Epoch) -> (r: Option<Match>)
        ensures
            r is None <==> forall|x: int| 0 <= x < self@.len() ==> !keywords_match(#[trigger] self@[x].path, views(keywords@)),
            r matches Some(m) ==> exists|q: Seq<Match>| ranked_matches(*self, views(keywords@), now, q) && q.len() > 0 && q[0] == m,
    {
        let all = self.query(keywords, now);
        if all.len() == 0 {
            assert forall|x: int| 0 <= x < self@.len() implies !keywords_match(#[trigger] self@[x].path, views(keywords@)) by {
                if keywords_match(self@[x].path, views(keywords@)) {
                    let k = choose|k: int| 0 <= k < all@.len() && all@[k].index == x;
                }
            }
            None
        } else {
            let ghost x = all@[0].index as int;
            assert(0 <= x < self@.len() && keywords_match(self@[x].path, views(keywords@)));
            Some(all[0])
        }
    }
}

} // verus!
