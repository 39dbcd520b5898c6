//! The fuzzy prompt deduplication engine: occurrence counting of normalized
//! texts, a similarity predicate over edit distance, and greedy first-match
//! clustering of near-duplicate prompts.

use vstd::arithmetic::mul::lemma_mul_inequality;
use vstd::math::max;
use vstd::math::min;
use vstd::prelude::*;
use vstd::string::*;

use crate::lev::lemma_lev_le_max;
use crate::lev::lemma_lev_self;
use crate::lev::lev;
use crate::lev::lev_dist;
use crate::text::canon_of;
use crate::text::kept_spec;
use crate::text::noise_spec;
use crate::text::normalize_spec;
use crate::text::normalize_text;

verus! {

/// Number of parts the similarity scale `[0, 1]` is divided into: thresholds
/// are given in thousandths, so `800` stands for a similarity of `0.8`.
pub const SIMILARITY_SCALE: u32 = 1000;

/// The default similarity threshold, in thousandths: 80% similarity.
pub const DEFAULT_THRESHOLD_MILLI: u32 = 800;

/// A group of near-duplicate normalized texts: one representative text,
/// every distinct text assigned to the group, and the total number of raw
/// prompts those texts stand for.
#[derive(Debug, Clone)]
pub struct PromptCluster {
    /// The representative text: the first text assigned to the cluster.
    pub canonical: String,
    /// Every distinct text assigned to the cluster, in assignment order;
    /// the first element equals `canonical`.
    pub variants: Vec<String>,
    /// The sum of the occurrence counts of the texts in `variants`.
    pub count: usize,
}

/// The deduplication engine: stateless but for its similarity threshold.
pub struct FuzzyDeduper {
    threshold_milli: u32,
}

/// The similarity predicate: equal texts are similar; texts whose length
/// ratio is below one half are not; otherwise the normalized similarity
/// `1 - lev(a, b) / max(|a|, |b|)` is compared against the threshold `t`
/// (in thousandths), with equality counting as similar.
pub open spec fn similar_spec(a: Seq<char>, b: Seq<char>, t: int) -> bool {
    let mn = min(a.len() as int, b.len() as int);
    let mx = max(a.len() as int, b.len() as int);
    if a == b {
        true
    } else if 2 * mn < mx {
        false
    } else {
        (mx - lev(a, b)) * (SIMILARITY_SCALE as int) >= t * mx
    }
}

impl FuzzyDeduper {
    #[verifier::type_invariant]
    spec fn inv(&self) -> bool {
        self.threshold_milli <= SIMILARITY_SCALE
    }

    /// The similarity threshold, in thousandths of the scale.
    pub closed spec fn threshold(&self) -> int {
        self.threshold_milli as int
    }

    /// Builds an engine with the given similarity threshold, in thousandths
    /// (`800` stands for `0.8`).
    pub fn new(threshold_milli: u32) -> (r: Self)
        requires
            threshold_milli <= SIMILARITY_SCALE,
        ensures
            r.threshold() == threshold_milli as int,
    {
        FuzzyDeduper { threshold_milli }
    }

    /// Maps a raw prompt to its normalized comparison form, or to the empty
    /// discard sentinel when it matches the noise-signature table.
    pub fn normalize(&self, raw: &str) -> (r: String)
        ensures
            r@ == normalize_spec(raw@),
    {
        normalize_text(raw)
    }

    /// Decides whether two texts are near-duplicates under this engine's
    /// threshold.
    pub fn is_similar(&self, a: &str, b: &str) -> (r: bool)
        ensures
            r == similar_spec(a@, b@, self.threshold()),
    {
        proof {
            use_type_invariant(&*self);
        }
        let la = a.unicode_len();
        let lb = b.unicode_len();
        let mn = if la < lb {
            la
        } else {
            lb
        };
        let mx = if la < lb {
            lb
        } else {
            la
        };
        if mn < mx - mn {
            proof {
                assert(a@.len() != b@.len());
            }
            return false;
        }
        let d = lev_dist(a, b);
        proof {
            lemma_lev_le_max(a@, b@);
            lemma_mul_inequality(
                self.threshold_milli as int,
                SIMILARITY_SCALE as int,
                mx as int,
            );
            if a@ == b@ {
                lemma_lev_self(a@);
            }
        }
        let num = (mx - d) as u128 * SIMILARITY_SCALE as u128;
        let den = self.threshold_milli as u128 * mx as u128;
        num >= den
    }
}

impl Default for FuzzyDeduper {
    /// Builds an engine with the default 80% similarity threshold.
    fn default() -> (r: Self)
        ensures
            r.threshold() == DEFAULT_THRESHOLD_MILLI as int,
    {
        FuzzyDeduper { threshold_milli: DEFAULT_THRESHOLD_MILLI }
    }
}

/// Number of raw prompts in `ps` that survive filtering and whose canonical
/// form is exactly `t`.
pub open spec fn occ_count(ps: Seq<String>, t: Seq<char>) -> nat
    decreases ps.len(),
{
    if ps.len() == 0 {
        0
    } else {
        occ_count(ps.drop_last(), t) + if kept_spec(ps.last()@) && canon_of(ps.last()@) == t {
            1nat
        } else {
            0nat
        }
    }
}

/// Sum of the occurrence counts of the texts in `vs`.
pub open spec fn sum_occ(ps: Seq<String>, vs: Seq<String>) -> nat
    decreases vs.len(),
{
    if vs.len() == 0 {
        0
    } else {
        sum_occ(ps, vs.drop_last()) + occ_count(ps, vs.last()@)
    }
}

/// The texts in `vs` are pairwise distinct.
pub open spec fn texts_distinct(vs: Seq<String>) -> bool {
    forall|k1: int, k2: int| 0 <= k1 < k2 < vs.len() ==> vs[k1]@ != vs[k2]@
}

/// Number of texts in `vs` whose characters are exactly `c`.
spec fn hits(vs: Seq<String>, c: Seq<char>) -> nat
    decreases vs.len(),
{
    if vs.len() == 0 {
        0
    } else {
        hits(vs.drop_last(), c) + if vs.last()@ == c {
            1nat
        } else {
            0nat
        }
    }
}

proof fn lemma_occ_le_len(ps: Seq<String>, t: Seq<char>)
    ensures
        occ_count(ps, t) <= ps.len(),
    decreases ps.len(),
{
    if ps.len() > 0 {
        lemma_occ_le_len(ps.drop_last(), t);
    }
}

proof fn lemma_hits_zero(vs: Seq<String>, c: Seq<char>)
    requires
        forall|k: int| 0 <= k < vs.len() ==> vs[k]@ != c,
    ensures
        hits(vs, c) == 0,
    decreases vs.len(),
{
    if vs.len() > 0 {
        lemma_hits_zero(vs.drop_last(), c);
    }
}

proof fn lemma_hits_le_one(vs: Seq<String>, c: Seq<char>)
    requires
        texts_distinct(vs),
    ensures
        hits(vs, c) <= 1,
    decreases vs.len(),
{
    if vs.len() > 0 {
        let vs2 = vs.drop_last();
        assert(texts_distinct(vs2));
        if vs.last()@ == c {
            assert forall|k: int| 0 <= k < vs2.len() implies vs2[k]@ != c by {
                assert(vs[k]@ != vs[vs.len() - 1]@);
            }
            lemma_hits_zero(vs2, c);
        } else {
            lemma_hits_le_one(vs2, c);
        }
    }
}

proof fn lemma_sum_occ_empty(vs: Seq<String>)
    ensures
        sum_occ(Seq::<String>::empty(), vs) == 0,
    decreases vs.len(),
{
    if vs.len() > 0 {
        lemma_sum_occ_empty(vs.drop_last());
    }
}

proof fn lemma_sum_occ_unfold(ps: Seq<String>, vs: Seq<String>)
    requires
        ps.len() > 0,
    ensures
        sum_occ(ps, vs) == sum_occ(ps.drop_last(), vs) + if kept_spec(ps.last()@) {
            hits(vs, canon_of(ps.last()@))
        } else {
            0nat
        },
    decreases vs.len(),
{
    if vs.len() > 0 {
        lemma_sum_occ_unfold(ps, vs.drop_last());
    }
}

/// The occurrence counts of pairwise distinct texts sum to no more than the
/// number of raw prompts.
proof fn lemma_sum_occ_le(ps: Seq<String>, vs: Seq<String>)
    requires
        texts_distinct(vs),
    ensures
        sum_occ(ps, vs) <= ps.len(),
    decreases ps.len(),
{
    if ps.len() == 0 {
        assert(ps =~= Seq::<String>::empty());
        lemma_sum_occ_empty(vs);
    } else {
        lemma_sum_occ_unfold(ps, vs);
        lemma_sum_occ_le(ps.drop_last(), vs);
        if kept_spec(ps.last()@) {
            lemma_hits_le_one(vs, canon_of(ps.last()@));
        }
    }
}

/// Appending one more text adds exactly its occurrence count to the sum.
proof fn lemma_sum_occ_push(ps: Seq<String>, vs: Seq<String>, t: String)
    ensures
        sum_occ(ps, vs.push(t)) == sum_occ(ps, vs) + occ_count(ps, t@),
{
    assert(vs.push(t).drop_last() =~= vs);
}

/// Index of the first text in `texts` equal to `t`, if any.
fn find_text(texts: &Vec<String>, t: &String) -> (r: Option<usize>)
    ensures
        match r {
            Some(k) => k < texts@.len() && texts@[k as int]@ == t@,
            None => forall|k: int| 0 <= k < texts@.len() ==> texts@[k]@ != t@,
        },
{
    let mut k: usize = 0;
    while k < texts.len()
        invariant
            k <= texts@.len(),
            forall|k2: int| 0 <= k2 < k ==> texts@[k2]@ != t@,
        decreases texts@.len() - k,
    {
        if texts[k].eq(t) {
            return Some(k);
        }
        k = k + 1;
    }
    None
}

/// Aggregates the raw prompts into their distinct surviving normalized
/// texts, each with its exact occurrence count.
fn tally(prompts: &Vec<String>) -> (r: (Vec<String>, Vec<usize>))
    ensures
        r.0@.len() == r.1@.len(),
        forall|k: int|
            0 <= k < r.0@.len() ==> #[trigger] r.1@[k] as nat == occ_count(prompts@, r.0@[k]@),
        forall|k: int| 0 <= k < r.0@.len() ==> #[trigger] r.1@[k] >= 1,
        texts_distinct(r.0@),
        forall|t: Seq<char>|
            occ_count(prompts@, t) > 0 ==> exists|k: int|
                0 <= k < r.0@.len() && #[trigger] r.0@[k]@ == t,
{
    let ghost ps = prompts@;
    let n = prompts.len();
    let mut texts: Vec<String> = Vec::new();
    let mut counts: Vec<usize> = Vec::new();
    let mut i: usize = 0;
    while i < n
        invariant
            n == ps.len(),
            ps == prompts@,
            i <= n,
            texts@.len() == counts@.len(),
            forall|k: int|
                0 <= k < texts@.len() ==> #[trigger] counts@[k] as nat == occ_count(
                    ps.take(i as int),
                    texts@[k]@,
                ),
            forall|k: int| 0 <= k < texts@.len() ==> #[trigger] counts@[k] >= 1,
            texts_distinct(texts@),
            forall|t: Seq<char>|
                occ_count(ps.take(i as int), t) > 0 ==> exists|k: int|
                    0 <= k < texts@.len() && #[trigger] texts@[k]@ == t,
        decreases n - i,
    {
        let ghost texts0 = texts@;
        let normd = normalize_text(&prompts[i]);
        let ghost nv = normd@;
        let keep = normd.as_str().unicode_len() > 3;
        proof {
            assert(ps.take(i + 1).drop_last() =~= ps.take(i as int));
            assert(ps.take(i + 1).last() == ps[i as int]);
            assert(keep == kept_spec(ps[i as int]@));
        }
        if keep {
            match find_text(&texts, &normd) {
                Some(k) => {
                    let c = counts[k];
                    proof {
                        lemma_occ_le_len(ps.take(i + 1), nv);
                    }
                    counts[k] = c + 1;
                    assert forall|k2: int| 0 <= k2 < texts@.len() implies #[trigger] counts@[k2]
                        as nat == occ_count(ps.take(i + 1), texts@[k2]@) by {
                        if k2 != k {
                            assert(texts@[k2]@ != nv);
                        }
                    }
                    assert(texts@[k as int]@ == nv);
                }
                None => {
                    assert(occ_count(ps.take(i as int), nv) == 0) by {
                        if occ_count(ps.take(i as int), nv) > 0 {
                            let k = choose|k: int|
                                0 <= k < texts@.len() && #[trigger] texts@[k]@ == nv;
                            assert(false);
                        }
                    }
                    texts.push(normd);
                    counts.push(1);
                    assert(texts@[texts@.len() - 1]@ == nv);
                },
            }
        }
        assert forall|t: Seq<char>| #[trigger] occ_count(ps.take(i + 1), t) > 0 implies exists|
            k: int,
        | 0 <= k < texts@.len() && #[trigger] texts@[k]@ == t by {
            if occ_count(ps.take(i as int), t) > 0 {
                let k0 = choose|k: int| 0 <= k < texts0.len() && #[trigger] texts0[k]@ == t;
                assert(texts@[k0]@ == t);
            } else {
                assert(kept_spec(ps[i as int]@) && canon_of(ps[i as int]@) == t);
                assert(t == nv);
            }
        }
        i = i + 1;
    }
    proof {
        assert(ps.take(n as int) =~= ps);
    }
    (texts, counts)
}

/// A cluster is well-formed for the prompts `ps` and threshold `t`: it has
/// at least one variant, its canonical text is its first variant, every
/// variant is similar to the canonical text, every variant actually occurs
/// among the prompts, and its count is the sum of its variants' occurrence
/// counts.
pub open spec fn cluster_wf(c: PromptCluster, ps: Seq<String>, t: int) -> bool {
    &&& c.variants@.len() >= 1
    &&& c.variants@[0]@ == c.canonical@
    &&& forall|k: int|
        0 <= k < c.variants@.len() ==> similar_spec(#[trigger] c.variants@[k]@, c.canonical@, t)
    &&& forall|k: int| 0 <= k < c.variants@.len() ==> occ_count(ps, #[trigger] c.variants@[k]@) >= 1
    &&& c.count as nat == sum_occ(ps, c.variants@)
}

/// No normalized text appears twice across (or within) the clusters of `cs`.
pub open spec fn clusters_distinct(cs: Seq<PromptCluster>) -> bool {
    forall|j1: int, k1: int, j2: int, k2: int|
        #![trigger cs[j1].variants@[k1], cs[j2].variants@[k2]]
        0 <= j1 < cs.len() && 0 <= k1 < cs[j1].variants@.len() && 0 <= j2 < cs.len() && 0 <= k2
            < cs[j2].variants@.len() && (j1 != j2 || k1 != k2) ==> cs[j1].variants@[k1]@
            != cs[j2].variants@[k2]@
}

/// Some cluster in `cs` holds the text `t` among its variants.
pub open spec fn covers(cs: Seq<PromptCluster>, t: Seq<char>) -> bool {
    exists|j: int, k: int|
        0 <= j < cs.len() && 0 <= k < cs[j].variants@.len() && cs[j].variants@[k]@ == t
}

/// No text waiting in `ts` already appears among the variants of `cs`.
spec fn cross_distinct(ts: Seq<String>, cs: Seq<PromptCluster>) -> bool {
    forall|k: int, j: int, k2: int|
        #![trigger ts[k], cs[j].variants@[k2]]
        0 <= k < ts.len() && 0 <= j < cs.len() && 0 <= k2 < cs[j].variants@.len() ==> ts[k]@
            != cs[j].variants@[k2]@
}

/// Where the element at position `p`, after one element has moved from
/// position `r + m` to position `r`, stood before the move.
spec fn move_src(p: int, r: int, m: int) -> int {
    if p < r {
        p
    } else if p == r {
        r + m
    } else if p <= r + m {
        p - 1
    } else {
        p
    }
}

/// Index of the largest count; the first such index on ties.
fn argmax_counts(counts: &Vec<usize>) -> (m: usize)
    requires
        counts@.len() > 0,
    ensures
        m < counts@.len(),
        forall|q: int| 0 <= q < counts@.len() ==> counts@[m as int] >= #[trigger] counts@[q],
{
    let mut m: usize = 0;
    let mut q: usize = 1;
    while q < counts.len()
        invariant
            m < q <= counts@.len(),
            forall|q2: int| 0 <= q2 < q ==> counts@[m as int] >= #[trigger] counts@[q2],
        decreases counts@.len() - q,
    {
        if counts[q] > counts[m] {
            m = q;
        }
        q = q + 1;
    }
    m
}

/// Index of the cluster with the largest count; the first such index on
/// ties, so equal counts keep their creation order.
fn argmax_clusters(cs: &Vec<PromptCluster>) -> (m: usize)
    requires
        cs@.len() > 0,
    ensures
        m < cs@.len(),
        forall|q: int| 0 <= q < cs@.len() ==> cs@[m as int].count >= #[trigger] cs@[q].count,
{
    let mut m: usize = 0;
    let mut q: usize = 1;
    while q < cs.len()
        invariant
            m < q <= cs@.len(),
            forall|q2: int| 0 <= q2 < q ==> cs@[m as int].count >= #[trigger] cs@[q2].count,
        decreases cs@.len() - q,
    {
        if cs[q].count > cs[m].count {
            m = q;
        }
        q = q + 1;
    }
    m
}

impl FuzzyDeduper {
    /// Index of the first cluster whose canonical text is similar to `t`,
    /// if any: the greedy first-match-wins assignment policy.
    fn find_cluster(&self, cs: &Vec<PromptCluster>, t: &String) -> (r: Option<usize>)
        ensures
            match r {
                Some(j) => j < cs@.len() && similar_spec(
                    t@,
                    cs@[j as int].canonical@,
                    self.threshold(),
                ),
                None => forall|j: int|
                    0 <= j < cs@.len() ==> !similar_spec(
                        t@,
                        (#[trigger] cs@[j]).canonical@,
                        self.threshold(),
                    ),
            },
    {
        let mut j: usize = 0;
        while j < cs.len()
            invariant
                j <= cs@.len(),
                forall|j2: int|
                    0 <= j2 < j ==> !similar_spec(
                        t@,
                        (#[trigger] cs@[j2]).canonical@,
                        self.threshold(),
                    ),
            decreases cs@.len() - j,
        {
            let cj = &cs[j];
            if self.is_similar(t.as_str(), cj.canonical.as_str()) {
                return Some(j);
            }
            j = j + 1;
        }
        None
    }

    /// Groups the raw prompts into clusters of near-duplicate normalized
    /// texts.
    ///
    /// Occurrences of each surviving normalized text are counted, the texts
    /// are taken in order of descending count (first-seen order on ties),
    /// and each is assigned to the first existing cluster whose canonical
    /// text it is similar to, or opens a new cluster. The clusters come
    /// back ordered by descending aggregate count (creation order on ties):
    /// every surviving text appears in exactly one cluster's variants, and
    /// each cluster's count is the exact sum of its variants' occurrence
    /// counts.
    pub fn cluster(&self, prompts: Vec<String>) -> (r: Vec<PromptCluster>)
        ensures
            forall|i: int, j: int|
                #![trigger r@[i], r@[j]]
                0 <= i <= j < r@.len() ==> r@[i].count >= r@[j].count,
            forall|j: int| 0 <= j < r@.len() ==> cluster_wf(#[trigger] r@[j], prompts@, self.threshold()),
            clusters_distinct(r@),
            forall|t: Seq<char>| #[trigger] occ_count(prompts@, t) > 0 ==> covers(r@, t),
    {
        proof {
            use_type_invariant(&*self);
        }
        let ghost ps = prompts@;
        let ghost thr = self.threshold();
        let _total = prompts.len();
        let (mut texts, mut counts) = tally(&prompts);
        let mut clusters: Vec<PromptCluster> = Vec::new();
        while texts.len() > 0
            invariant
                ps == prompts@,
                thr == self.threshold(),
                ps.len() <= usize::MAX,
                texts@.len() == counts@.len(),
                forall|k: int|
                    0 <= k < texts@.len() ==> (#[trigger] counts@[k]) as nat == occ_count(
                        ps,
                        texts@[k]@,
                    ),
                forall|k: int| 0 <= k < texts@.len() ==> #[trigger] counts@[k] >= 1,
                texts_distinct(texts@),
                forall|j: int| 0 <= j < clusters@.len() ==> cluster_wf(#[trigger] clusters@[j], ps, thr),
                clusters_distinct(clusters@),
                cross_distinct(texts@, clusters@),
                forall|t: Seq<char>|
                    #[trigger] occ_count(ps, t) > 0 ==> (exists|k: int|
                        0 <= k < texts@.len() && #[trigger] texts@[k]@ == t) || covers(
                        clusters@,
                        t,
                    ),
            decreases texts@.len(),
        {
            let ghost texts1 = texts@;
            let ghost counts1 = counts@;
            let ghost clusters1 = clusters@;
            let m = argmax_counts(&counts);
            let t = texts.remove(m);
            let c = counts.remove(m);
            let ghost tv = t@;
            proof {
                texts1.remove_ensures(m as int);
                counts1.remove_ensures(m as int);
            }
            assert(c as nat == occ_count(ps, tv) && c >= 1);
            assert forall|k: int| 0 <= k < texts@.len() implies (#[trigger] counts@[k]) as nat
                == occ_count(ps, texts@[k]@) && counts@[k] >= 1 by {
                if k >= m {
                    assert(texts@[k] == texts1[k + 1]);
                    assert(counts@[k] == counts1[k + 1]);
                }
            }
            assert forall|k1: int, k2: int| 0 <= k1 < k2 < texts@.len() implies texts@[k1]@
                != texts@[k2]@ by {
                let o1: int = if k1 < m {
                    k1
                } else {
                    k1 + 1
                };
                let o2: int = if k2 < m {
                    k2
                } else {
                    k2 + 1
                };
                assert(texts@[k1] == texts1[o1]);
                assert(texts@[k2] == texts1[o2]);
            }
            assert(texts_distinct(texts@));
            assert forall|k: int, j: int, k2: int|
                0 <= k < texts@.len() && 0 <= j < clusters@.len() && 0 <= k2
                    < clusters@[j].variants@.len() implies #[trigger] texts@[k]@ != (
            #[trigger] clusters@[j].variants@[k2])@ by {
                let o: int = if k < m {
                    k
                } else {
                    k + 1
                };
                assert(texts@[k] == texts1[o]);
                assert(texts1[o]@ != clusters1[j].variants@[k2]@);
            }
            assert(cross_distinct(texts@, clusters@));
            // the chosen text differs from everything still waiting and from
            // every variant already assigned
            assert forall|k: int| 0 <= k < texts@.len() implies #[trigger] texts@[k]@ != tv by {
                let o: int = if k < m {
                    k
                } else {
                    k + 1
                };
                assert(texts@[k] == texts1[o]);
                assert(texts1[o]@ != texts1[m as int]@);
            }
            assert forall|j: int, k2: int|
                0 <= j < clusters@.len() && 0 <= k2 < clusters@[j].variants@.len() implies (
            #[trigger] clusters@[j].variants@[k2])@ != tv by {
                assert(texts1[m as int]@ != clusters1[j].variants@[k2]@);
            }
            match self.find_cluster(&clusters, &t) {
                Some(j) => {
                    let mut cl = clusters.remove(j);
                    let ghost vs1 = cl.variants@;
                    proof {
                        clusters1.remove_ensures(j as int);
                        assert(cl == clusters1[j as int]);
                        assert(cluster_wf(cl, ps, thr));
                        lemma_sum_occ_push(ps, vs1, t);
                        assert forall|k1: int, k2: int| 0 <= k1 < k2 < vs1.push(t).len() implies
                            vs1.push(t)[k1]@ != vs1.push(t)[k2]@ by {
                            if k2 < vs1.len() {
                                assert(clusters1[j as int].variants@[k1]@
                                    != clusters1[j as int].variants@[k2]@);
                            } else {
                                assert(vs1.push(t)[k2] == t);
                                assert(clusters1[j as int].variants@[k1]@ != tv);
                            }
                        }
                        assert(texts_distinct(vs1.push(t)));
                        lemma_sum_occ_le(ps, vs1.push(t));
                    }
                    cl.count = cl.count + c;
                    cl.variants.push(t);
                    let ghost clg = cl;
                    clusters.insert(j, cl);
                    proof {
                        assert(clusters@ =~= clusters1.update(j as int, clg));
                        assert(cluster_wf(clg, ps, thr)) by {
                            assert(clg.variants@ == vs1.push(t));
                            assert(clg.variants@[0] == vs1[0]);
                            assert forall|k: int| 0 <= k < clg.variants@.len() implies similar_spec(
                                #[trigger] clg.variants@[k]@,
                                clg.canonical@,
                                thr,
                            ) by {
                                if k < vs1.len() {
                                    assert(clg.variants@[k] == vs1[k]);
                                } else {
                                    assert(clg.variants@[k]@ == tv);
                                }
                            }
                            assert forall|k: int| 0 <= k < clg.variants@.len() implies occ_count(
                                ps,
                                (#[trigger] clg.variants@[k])@,
                            ) >= 1 by {
                                if k < vs1.len() {
                                    assert(clg.variants@[k] == vs1[k]);
                                } else {
                                    assert(clg.variants@[k]@ == tv);
                                }
                            }
                        }
                        assert forall|j2: int| 0 <= j2 < clusters@.len() implies cluster_wf(
                            #[trigger] clusters@[j2],
                            ps,
                            thr,
                        ) by {
                            if j2 != j {
                                assert(clusters@[j2] == clusters1[j2]);
                            }
                        }
                        assert forall|j1: int, k1: int, j2: int, k2: int|
                            0 <= j1 < clusters@.len() && 0 <= k1 < clusters@[j1].variants@.len()
                                && 0 <= j2 < clusters@.len() && 0 <= k2
                                < clusters@[j2].variants@.len() && (j1 != j2 || k1 != k2) implies (
                        #[trigger] clusters@[j1].variants@[k1])@ != (
                        #[trigger] clusters@[j2].variants@[k2])@ by {
                            let v1 = clusters@[j1].variants@[k1];
                            let v2 = clusters@[j2].variants@[k2];
                            if j1 == j && k1 == vs1.len() {
                                assert(v1@ == tv);
                                if j2 == j && k2 < vs1.len() {
                                    assert(v2 == clusters1[j as int].variants@[k2]);
                                    assert(v2@ != tv);
                                } else if j2 != j {
                                    assert(v2 == clusters1[j2].variants@[k2]);
                                    assert(v2@ != tv);
                                }
                            } else if j2 == j && k2 == vs1.len() {
                                assert(v2@ == tv);
                                if j1 == j && k1 < vs1.len() {
                                    assert(v1 == clusters1[j as int].variants@[k1]);
                                    assert(v1@ != tv);
                                } else if j1 != j {
                                    assert(v1 == clusters1[j1].variants@[k1]);
                                    assert(v1@ != tv);
                                }
                            } else {
                                let o1: int = if j1 == j {
                                    j as int
                                } else {
                                    j1
                                };
                                assert(v1 == clusters1[j1].variants@[k1]);
                                assert(v2 == clusters1[j2].variants@[k2]);
                            }
                        }
                        assert(clusters_distinct(clusters@));
                        assert forall|k: int, j2: int, k2: int|
                            0 <= k < texts@.len() && 0 <= j2 < clusters@.len() && 0 <= k2
                                < clusters@[j2].variants@.len() implies #[trigger] texts@[k]@ != (
                        #[trigger] clusters@[j2].variants@[k2])@ by {
                            if j2 == j && k2 == vs1.len() {
                                assert(clusters@[j2].variants@[k2]@ == tv);
                            } else if j2 == j {
                                assert(clusters@[j2].variants@[k2]
                                    == clusters1[j as int].variants@[k2]);
                            } else {
                                assert(clusters@[j2].variants@[k2] == clusters1[j2].variants@[k2]);
                            }
                        }
                        assert(cross_distinct(texts@, clusters@));
                        assert(covers(clusters@, tv)) by {
                            assert(clusters@[j as int].variants@[vs1.len() as int]@ == tv);
                        }
                        assert forall|t2: Seq<char>| #[trigger] occ_count(ps, t2) > 0 implies (
                        exists|k: int| 0 <= k < texts@.len() && #[trigger] texts@[k]@ == t2)
                            || covers(clusters@, t2) by {
                            if exists|k: int| 0 <= k < texts1.len() && #[trigger] texts1[k]@ == t2 {
                                let k0 = choose|k: int|
                                    0 <= k < texts1.len() && #[trigger] texts1[k]@ == t2;
                                if k0 == m {
                                    assert(t2 == tv);
                                } else {
                                    let k3: int = if k0 < m {
                                        k0
                                    } else {
                                        k0 - 1
                                    };
                                    assert(texts@[k3] == texts1[k0]);
                                }
                            } else {
                                let (oj, ok) = choose|oj: int, ok: int|
                                    0 <= oj < clusters1.len()
                                    && 0 <= ok < clusters1[oj].variants@.len()
                                    && clusters1[oj].variants@[ok]@ == t2;
                                if oj == j {
                                    assert(clusters@[j as int].variants@[ok]@ == t2);
                                } else {
                                    assert(clusters@[oj].variants@[ok]@ == t2);
                                }
                            }
                        }
                    }
                }
                None => {
                    let canonical = t.clone();
                    let mut vs: Vec<String> = Vec::new();
                    vs.push(t);
                    let newc = PromptCluster { canonical, variants: vs, count: c };
                    let ghost ng = newc;
                    clusters.push(newc);
                    proof {
                        assert(clusters@ == clusters1.push(ng));
                        assert(cluster_wf(ng, ps, thr)) by {
                            assert(ng.variants@.len() == 1);
                            assert(ng.variants@[0]@ == tv);
                            assert(ng.canonical@ == tv);
                            assert(similar_spec(tv, tv, thr));
                            assert(ng.variants@.drop_last() =~= Seq::<String>::empty());
                            assert(sum_occ(ps, Seq::<String>::empty()) == 0);
                            assert(ng.variants@.last()@ == tv);
                            assert(sum_occ(ps, ng.variants@) == sum_occ(
                                ps,
                                ng.variants@.drop_last(),
                            ) + occ_count(ps, ng.variants@.last()@));
                            assert(sum_occ(ps, ng.variants@) == occ_count(ps, tv));
                        }
                        assert forall|j2: int| 0 <= j2 < clusters@.len() implies cluster_wf(
                            #[trigger] clusters@[j2],
                            ps,
                            thr,
                        ) by {
                            if j2 < clusters1.len() {
                                assert(clusters@[j2] == clusters1[j2]);
                            }
                        }
                        assert forall|j1: int, k1: int, j2: int, k2: int|
                            0 <= j1 < clusters@.len() && 0 <= k1 < clusters@[j1].variants@.len()
                                && 0 <= j2 < clusters@.len() && 0 <= k2
                                < clusters@[j2].variants@.len() && (j1 != j2 || k1 != k2) implies (
                        #[trigger] clusters@[j1].variants@[k1])@ != (
                        #[trigger] clusters@[j2].variants@[k2])@ by {
                            if j1 < clusters1.len() && j2 < clusters1.len() {
                                assert(clusters@[j1] == clusters1[j1]);
                                assert(clusters@[j2] == clusters1[j2]);
                            } else if j1 < clusters1.len() {
                                assert(clusters@[j1] == clusters1[j1]);
                                assert(clusters@[j2].variants@[k2]@ == tv);
                            } else if j2 < clusters1.len() {
                                assert(clusters@[j2] == clusters1[j2]);
                                assert(clusters@[j1].variants@[k1]@ == tv);
                            }
                        }
                        assert(clusters_distinct(clusters@));
                        assert forall|k: int, j2: int, k2: int|
                            0 <= k < texts@.len() && 0 <= j2 < clusters@.len() && 0 <= k2
                                < clusters@[j2].variants@.len() implies #[trigger] texts@[k]@ != (
                        #[trigger] clusters@[j2].variants@[k2])@ by {
                            if j2 < clusters1.len() {
                                assert(clusters@[j2] == clusters1[j2]);
                            } else {
                                assert(clusters@[j2].variants@[k2]@ == tv);
                            }
                        }
                        assert(cross_distinct(texts@, clusters@));
                        assert(covers(clusters@, tv)) by {
                            assert(clusters@[clusters1.len() as int].variants@[0]@ == tv);
                        }
                        assert forall|t2: Seq<char>| #[trigger] occ_count(ps, t2) > 0 implies (
                        exists|k: int| 0 <= k < texts@.len() && #[trigger] texts@[k]@ == t2)
                            || covers(clusters@, t2) by {
                            if exists|k: int| 0 <= k < texts1.len() && #[trigger] texts1[k]@ == t2 {
                                let k0 = choose|k: int|
                                    0 <= k < texts1.len() && #[trigger] texts1[k]@ == t2;
                                if k0 == m {
                                    assert(t2 == tv);
                                } else {
                                    let k3: int = if k0 < m {
                                        k0
                                    } else {
                                        k0 - 1
                                    };
                                    assert(texts@[k3] == texts1[k0]);
                                }
                            } else {
                                let (oj, ok) = choose|oj: int, ok: int|
                                    0 <= oj < clusters1.len()
                                    && 0 <= ok < clusters1[oj].variants@.len()
                                    && clusters1[oj].variants@[ok]@ == t2;
                                assert(clusters@[oj].variants@[ok]@ == t2);
                            }
                        }
                    }
                },
            }
        }
        // order the finished clusters by descending count
        let mut result: Vec<PromptCluster> = Vec::new();
        proof {
            assert(result@ + clusters@ =~= clusters@);
        }
        while clusters.len() > 0
            invariant
                ps == prompts@,
                thr == self.threshold(),
                forall|j: int| 0 <= j < result@.len() ==> cluster_wf(#[trigger] result@[j], ps, thr),
                forall|j: int| 0 <= j < clusters@.len() ==> cluster_wf(#[trigger] clusters@[j], ps, thr),
                forall|i: int, j: int|
                    #![trigger result@[i], result@[j]]
                    0 <= i <= j < result@.len() ==> result@[i].count >= result@[j].count,
                forall|i: int, j: int|
                    #![trigger result@[i], clusters@[j]]
                    0 <= i < result@.len() && 0 <= j < clusters@.len() ==> result@[i].count
                        >= clusters@[j].count,
                clusters_distinct(result@ + clusters@),
                forall|t: Seq<char>|
                    #[trigger] occ_count(ps, t) > 0 ==> covers(result@ + clusters@, t),
            decreases clusters@.len(),
        {
            let ghost result1 = result@;
            let ghost clusters1 = clusters@;
            let ghost all1 = result1 + clusters1;
            let ghost rl = result1.len() as int;
            let m = argmax_clusters(&clusters);
            let x = clusters.remove(m);
            let ghost xg = x;
            result.push(x);
            let ghost all2 = result@ + clusters@;
            proof {
                clusters1.remove_ensures(m as int);
                assert(all2.len() == all1.len());
                assert forall|p: int| 0 <= p < all2.len() implies all2[p] == all1[move_src(
                    p,
                    rl,
                    m as int,
                )] by {
                    if p < rl {
                        assert(all2[p] == result1[p]);
                        assert(all1[p] == result1[p]);
                    } else if p == rl {
                        assert(all2[p] == xg);
                        assert(all1[rl + m] == clusters1[m as int]);
                    } else if p <= rl + m {
                        assert(all2[p] == clusters1.remove(m as int)[p - rl - 1]);
                        assert(clusters1.remove(m as int)[p - rl - 1] == clusters1[p - rl - 1]);
                        assert(all1[p - 1] == clusters1[p - 1 - rl]);
                    } else {
                        assert(all2[p] == clusters1.remove(m as int)[p - rl - 1]);
                        assert(clusters1.remove(m as int)[p - rl - 1] == clusters1[p - rl]);
                        assert(all1[p] == clusters1[p - rl]);
                    }
                }
                assert forall|j1: int, k1: int, j2: int, k2: int|
                    0 <= j1 < all2.len() && 0 <= k1 < all2[j1].variants@.len() && 0 <= j2
                        < all2.len() && 0 <= k2 < all2[j2].variants@.len() && (j1 != j2 || k1 != k2)
                    implies (#[trigger] all2[j1].variants@[k1])@ != (
                #[trigger] all2[j2].variants@[k2])@ by {
                    let q1 = move_src(j1, rl, m as int);
                    let q2 = move_src(j2, rl, m as int);
                    assert(all2[j1] == all1[q1]);
                    assert(all2[j2] == all1[q2]);
                    assert(all1[q1].variants@[k1]@ != all1[q2].variants@[k2]@);
                }
                assert(clusters_distinct(all2));
                assert forall|t2: Seq<char>| #[trigger] occ_count(ps, t2) > 0 implies covers(
                    all2,
                    t2,
                ) by {
                    let (oj, ok) = choose|oj: int, ok: int|
                        0 <= oj < all1.len() && 0 <= ok < all1[oj].variants@.len()
                        && all1[oj].variants@[ok]@ == t2;
                    let p: int = if oj < rl {
                        oj
                    } else if oj < rl + m {
                        oj + 1
                    } else if oj == rl + m {
                        rl
                    } else {
                        oj
                    };
                    assert(move_src(p, rl, m as int) == oj);
                    assert(all2[p] == all1[oj]);
                    assert(all2[p].variants@[ok]@ == t2);
                }
                assert forall|i: int, j2: int| 0 <= i <= j2 < result@.len() implies (
                #[trigger] result@[i]).count >= (#[trigger] result@[j2]).count by {
                    if j2 < rl {
                        assert(result@[i] == result1[i]);
                        assert(result@[j2] == result1[j2]);
                    } else {
                        assert(result@[j2] == xg);
                        if i < rl {
                            assert(result@[i] == result1[i]);
                            assert(result1[i].count >= clusters1[m as int].count);
                        }
                    }
                }
                assert forall|i: int, j2: int|
                    0 <= i < result@.len() && 0 <= j2 < clusters@.len() implies (
                #[trigger] result@[i]).count >= (#[trigger] clusters@[j2]).count by {
                    let o: int = if j2 < m {
                        j2
                    } else {
                        j2 + 1
                    };
                    assert(clusters@[j2] == clusters1[o]);
                    if i < rl {
                        assert(result@[i] == result1[i]);
                    } else {
                        assert(result@[i] == xg);
                        assert(clusters1[m as int].count >= clusters1[o].count);
                    }
                }
                assert forall|j2: int| 0 <= j2 < clusters@.len() implies cluster_wf(
                    #[trigger] clusters@[j2],
                    ps,
                    thr,
                ) by {
                    let o: int = if j2 < m {
                        j2
                    } else {
                        j2 + 1
                    };
                    assert(clusters@[j2] == clusters1[o]);
                }
                assert forall|j2: int| 0 <= j2 < result@.len() implies cluster_wf(
                    #[trigger] result@[j2],
                    ps,
                    thr,
                ) by {
                    if j2 < rl {
                        assert(result@[j2] == result1[j2]);
                    } else {
                        assert(result@[j2] == xg);
                        assert(xg == clusters1[m as int]);
                    }
                }
            }
        }
        proof {
            assert(result@ + clusters@ =~= result@);
        }
        result
    }
}

/// Law: every text that occurs among the prompts — hence every text a
/// returned cluster may hold — survived the noise filter and the
/// three-character length floor.
pub proof fn lemma_occurring_text_is_kept(ps: Seq<String>, t: Seq<char>)
    requires
        occ_count(ps, t) > 0,
    ensures
        t.len() > 3,
        !noise_spec(t),
    decreases ps.len(),
{
    if ps.len() > 0 {
        if kept_spec(ps.last()@) && canon_of(ps.last()@) == t {
        } else {
            lemma_occurring_text_is_kept(ps.drop_last(), t);
        }
    }
}

/// Law: a text is always similar to itself, whatever threshold within the
/// scale is in force.
pub proof fn lemma_similar_reflexive(x: Seq<char>, t: int)
    requires
        x.len() > 0,
        t <= SIMILARITY_SCALE,
    ensures
        similar_spec(x, x, t),
{
}

/// Law: texts whose length ratio is below one half are never similar,
/// whatever the threshold.
pub proof fn lemma_length_ratio_short_circuit(a: Seq<char>, b: Seq<char>, t: int)
    requires
        2 * min(a.len() as int, b.len() as int) < max(a.len() as int, b.len() as int),
    ensures
        !similar_spec(a, b, t),
{
    assert(a.len() != b.len());
}

/// Law: similarity is monotone in the threshold — texts similar at a
/// threshold stay similar at any lower one.
pub proof fn lemma_threshold_monotone(a: Seq<char>, b: Seq<char>, t1: int, t2: int)
    requires
        similar_spec(a, b, t1),
        t2 <= t1,
    ensures
        similar_spec(a, b, t2),
{
    let mx = max(a.len() as int, b.len() as int);
    if a != b && 2 * min(a.len() as int, b.len() as int) >= mx {
        lemma_mul_inequality(t2, t1, mx);
    }
}

} // verus!
