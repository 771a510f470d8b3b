//! Grade bands: which band a final percentage falls in, how many students
//! each band holds, the score histogram, and editing the band thresholds.

use vstd::prelude::*;

use crate::models::{Config, Rating};
use crate::sorting::{insert_pos, lemma_stable_sorted_in_order, lemma_stable_sorted_permutes, stable_sorted, total_preorder};
use crate::text::{parse_u32, u32_from_text};

verus! {

// ---------------------------------------------------------------------------
// Counting by key
// ---------------------------------------------------------------------------

/// How many of `scores` have key `k`.
pub open spec fn count_where(scores: Seq<u32>, key: spec_fn(u32) -> int, k: int) -> nat
    decreases scores.len(),
{
    if scores.len() == 0 {
        0
    } else {
        count_where(scores.drop_last(), key, k) + if key(scores.last()) == k {
            1nat
        } else {
            0nat
        }
    }
}

/// How many of `scores` have a key in `0..m`.
pub open spec fn count_in_range(scores: Seq<u32>, key: spec_fn(u32) -> int, m: int) -> nat
    decreases scores.len(),
{
    if scores.len() == 0 {
        0
    } else {
        count_in_range(scores.drop_last(), key, m) + if 0 <= key(scores.last()) < m {
            1nat
        } else {
            0nat
        }
    }
}

/// The sum of the counts of keys `0..m`.
pub open spec fn sum_counts(scores: Seq<u32>, key: spec_fn(u32) -> int, m: int) -> nat
    decreases m,
{
    if m <= 0 {
        0
    } else {
        sum_counts(scores, key, m - 1) + count_where(scores, key, m - 1)
    }
}

proof fn lemma_count_where_bounded(scores: Seq<u32>, key: spec_fn(u32) -> int, k: int)
    ensures
        count_where(scores, key, k) <= scores.len(),
    decreases scores.len(),
{
    if scores.len() > 0 {
        lemma_count_where_bounded(scores.drop_last(), key, k);
    }
}

proof fn lemma_sum_counts_push(scores: Seq<u32>, key: spec_fn(u32) -> int, m: int)
    requires
        scores.len() > 0,
    ensures
        sum_counts(scores, key, m) == sum_counts(scores.drop_last(), key, m) + if 0 <= key(
            scores.last(),
        ) < m {
            1nat
        } else {
            0nat
        },
    decreases m,
{
    if m > 0 {
        lemma_sum_counts_push(scores, key, m - 1);
    }
}

/// Counting every key in `0..m` counts exactly the scores whose key lies in
/// that range.
pub proof fn lemma_sum_counts(scores: Seq<u32>, key: spec_fn(u32) -> int, m: int)
    ensures
        sum_counts(scores, key, m) == count_in_range(scores, key, m),
    decreases scores.len(),
{
    if scores.len() == 0 {
        lemma_sum_counts_empty(scores, key, m);
    } else {
        lemma_sum_counts(scores.drop_last(), key, m);
        lemma_sum_counts_push(scores, key, m);
    }
}

proof fn lemma_sum_counts_empty(scores: Seq<u32>, key: spec_fn(u32) -> int, m: int)
    requires
        scores.len() == 0,
    ensures
        sum_counts(scores, key, m) == 0,
    decreases m,
{
    if m > 0 {
        lemma_sum_counts_empty(scores, key, m - 1);
    }
}

proof fn lemma_count_in_range_all(scores: Seq<u32>, key: spec_fn(u32) -> int, m: int)
    requires
        forall|i: int| 0 <= i < scores.len() ==> 0 <= #[trigger] key(scores[i]) < m,
    ensures
        count_in_range(scores, key, m) == scores.len(),
    decreases scores.len(),
{
    if scores.len() > 0 {
        let t = scores.drop_last();
        assert forall|i: int| 0 <= i < t.len() implies 0 <= #[trigger] key(t[i]) < m by {
            assert(t[i] == scores[i]);
        }
        lemma_count_in_range_all(t, key, m);
        assert(0 <= key(scores[scores.len() - 1]) < m);
    }
}

// ---------------------------------------------------------------------------
// Grade bands
// ---------------------------------------------------------------------------

/// The position of the first band whose threshold `score` reaches, or -1
/// when it reaches none.
pub open spec fn band_index(ratings: Seq<Rating>, score: u32) -> int
    decreases ratings.len(),
{
    if ratings.len() == 0 {
        -1
    } else if score >= ratings[0].min_score {
        0
    } else {
        let k = band_index(ratings.drop_first(), score);
        if k < 0 {
            -1
        } else {
            k + 1
        }
    }
}

/// The band of each score, as a key for counting.
pub open spec fn band_key(ratings: Seq<Rating>) -> spec_fn(u32) -> int {
    |score: u32| band_index(ratings, score)
}

proof fn lemma_band_index(ratings: Seq<Rating>, score: u32)
    ensures
        -1 <= band_index(ratings, score) < ratings.len(),
        band_index(ratings, score) >= 0 ==> score >= ratings[band_index(ratings, score)].min_score,
        forall|m: int|
            0 <= m < ratings.len() && (m < band_index(ratings, score) || band_index(ratings, score)
                < 0) ==> score < #[trigger] ratings[m].min_score,
    decreases ratings.len(),
{
    if ratings.len() > 0 && score < ratings[0].min_score {
        let t = ratings.drop_first();
        lemma_band_index(t, score);
        assert forall|m: int|
            0 <= m < ratings.len() && (m < band_index(ratings, score) || band_index(ratings, score)
                < 0) implies score < #[trigger] ratings[m].min_score by {
            if m > 0 {
                assert(ratings[m] == t[m - 1]);
            }
        }
    }
}

/// The first band whose threshold the score reaches.
fn find_band(ratings: &[Rating], score: u32) -> (r: Option<usize>)
    ensures
        match r {
            Some(i) => i < ratings@.len() && band_index(ratings@, score) == i,
            None => band_index(ratings@, score) == -1,
        },
{
    let mut i: usize = 0;
    while i < ratings.len()
        invariant
            i <= ratings@.len(),
            forall|m: int| 0 <= m < i ==> score < #[trigger] ratings@[m].min_score,
        decreases ratings@.len() - i,
    {
        if score >= ratings[i].min_score {
            proof {
                lemma_band_index(ratings@, score);
            }
            return Some(i);
        }
        i = i + 1;
    }
    proof {
        lemma_band_index(ratings@, score);
    }
    None
}

/// The number of final scores in each band, band by band: a score counts
/// for the first band, in the given order, whose threshold it reaches, and
/// for none when it reaches no threshold.
pub fn rating_counts(scores: &[u32], ratings: &[Rating]) -> (counts: Vec<usize>)
    ensures
        counts@.len() == ratings@.len(),
        forall|b: int|
            0 <= b < counts@.len() ==> #[trigger] counts@[b] == count_where(scores@, band_key(ratings@), b),
{
    let n = ratings.len();
    let mut counts: Vec<usize> = vec![0usize; n];
    let ghost key = band_key(ratings@);
    let mut k: usize = 0;
    while k < scores.len()
        invariant
            k <= scores@.len(),
            n == ratings@.len(),
            key == band_key(ratings@),
            counts@.len() == n,
            forall|b: int|
                0 <= b < n ==> #[trigger] counts@[b] == count_where(scores@.take(k as int), key, b),
            forall|b: int| 0 <= b < n ==> #[trigger] counts@[b] <= k,
        decreases scores@.len() - k,
    {
        let s = scores[k];
        let ghost prev = scores@.take(k as int);
        let ghost next = scores@.take(k + 1);
        assert(next.drop_last() =~= prev);
        assert(next.last() == s);
        match find_band(ratings, s) {
            Some(i) => {
                let c = counts[i];
                counts.set(i, c + 1);
            },
            None => {},
        }
        k = k + 1;
        assert forall|b: int| 0 <= b < n implies #[trigger] counts@[b] == count_where(
            scores@.take(k as int),
            key,
            b,
        ) by {
            assert(count_where(next, key, b) == count_where(prev, key, b) + if key(s) == b {
                1nat
            } else {
                0nat
            });
        }
    }
    assert(scores@.take(scores@.len() as int) =~= scores@);
    counts
}

/// Every final score is counted in exactly one band or in none: the band
/// counts add up to the number of scores that reach some threshold.
pub proof fn lemma_band_counts_sum(scores: Seq<u32>, ratings: Seq<Rating>)
    ensures
        sum_counts(scores, band_key(ratings), ratings.len() as int) == count_in_range(
            scores,
            band_key(ratings),
            ratings.len() as int,
        ),
        count_in_range(scores, band_key(ratings), ratings.len() as int) <= scores.len(),
{
    lemma_sum_counts(scores, band_key(ratings), ratings.len() as int);
    lemma_count_in_range_bounded(scores, band_key(ratings), ratings.len() as int);
}

proof fn lemma_count_in_range_bounded(scores: Seq<u32>, key: spec_fn(u32) -> int, m: int)
    ensures
        count_in_range(scores, key, m) <= scores.len(),
    decreases scores.len(),
{
    if scores.len() > 0 {
        lemma_count_in_range_bounded(scores.drop_last(), key, m);
    }
}

/// With a band whose threshold is 0, every final score falls in some band:
/// the band counts add up to the number of scores.
pub proof fn lemma_band_counts_cover_all(scores: Seq<u32>, ratings: Seq<Rating>, zero: int)
    requires
        0 <= zero < ratings.len(),
        ratings[zero].min_score == 0,
    ensures
        sum_counts(scores, band_key(ratings), ratings.len() as int) == scores.len(),
{
    let key = band_key(ratings);
    assert forall|i: int| 0 <= i < scores.len() implies 0 <= #[trigger] key(scores[i]) < ratings.len() by {
        lemma_band_index(ratings, scores[i]);
    }
    lemma_count_in_range_all(scores, key, ratings.len() as int);
    lemma_sum_counts(scores, key, ratings.len() as int);
}

// ---------------------------------------------------------------------------
// Histogram
// ---------------------------------------------------------------------------

/// The bin of a final score: `score / width`, with everything from 100 up
/// in the last bin `100 / width`.
pub open spec fn bin_of(score: u32, width: u32) -> int {
    let last = (100u32 / width) as int;
    if (score / width) as int <= last {
        (score / width) as int
    } else {
        last
    }
}

/// The bin of each score, as a key for counting.
pub open spec fn bin_key(width: u32) -> spec_fn(u32) -> int {
    |score: u32| bin_of(score, width)
}

/// The histogram of final scores in bins of `bin_width` points: there are
/// `100 / bin_width + 1` bins, and bin `k` counts the scores whose bin is
/// `k`.
pub fn histogram(scores: &[u32], bin_width: u32) -> (h: Vec<usize>)
    requires
        bin_width > 0,
    ensures
        h@.len() == 100u32 / bin_width + 1,
        forall|k: int|
            0 <= k < h@.len() ==> #[trigger] h@[k] == count_where(scores@, bin_key(bin_width), k),
{
    let bins: u32 = (100 / bin_width) + 1;
    let n = bins as usize;
    let mut h: Vec<usize> = vec![0usize; n];
    let ghost key = bin_key(bin_width);
    let mut k: usize = 0;
    while k < scores.len()
        invariant
            k <= scores@.len(),
            bin_width > 0,
            bins == 100u32 / bin_width + 1,
            n == bins,
            key == bin_key(bin_width),
            h@.len() == n,
            forall|b: int| 0 <= b < n ==> #[trigger] h@[b] == count_where(scores@.take(k as int), key, b),
            forall|b: int| 0 <= b < n ==> #[trigger] h@[b] <= k,
        decreases scores@.len() - k,
    {
        let s = scores[k];
        let ghost prev = scores@.take(k as int);
        let ghost next = scores@.take(k + 1);
        assert(next.drop_last() =~= prev);
        assert(next.last() == s);
        let q = s / bin_width;
        let idx: u32 = if q < bins - 1 {
            q
        } else {
            bins - 1
        };
        assert(idx as int == bin_of(s, bin_width));
        let c = h[idx as usize];
        h.set(idx as usize, c + 1);
        k = k + 1;
        assert forall|b: int| 0 <= b < n implies #[trigger] h@[b] == count_where(
            scores@.take(k as int),
            key,
            b,
        ) by {
            assert(count_where(next, key, b) == count_where(prev, key, b) + if key(s) == b {
                1nat
            } else {
                0nat
            });
        }
    }
    assert(scores@.take(scores@.len() as int) =~= scores@);
    h
}

/// The height that the histogram scales its bars to: the largest bin
/// count, or 1 when there are no bins.
pub fn histogram_peak(bins: &[usize]) -> (r: usize)
    ensures
        bins@.len() == 0 ==> r == 1,
        bins@.len() > 0 ==> (exists|k: int| 0 <= k < bins@.len() && r == bins@[k]) && forall|k: int|
            0 <= k < bins@.len() ==> #[trigger] bins@[k] <= r,
{
    if bins.len() == 0 {
        return 1;
    }
    let mut best = bins[0];
    let mut i: usize = 1;
    while i < bins.len()
        invariant
            1 <= i <= bins@.len(),
            exists|k: int| 0 <= k < i && best == bins@[k],
            forall|k: int| 0 <= k < i ==> #[trigger] bins@[k] <= best,
        decreases bins@.len() - i,
    {
        if bins[i] > best {
            best = bins[i];
        }
        i = i + 1;
    }
    best
}

/// Every final score lands in exactly one bin: the bins add up to the
/// number of scores.
pub proof fn lemma_histogram_total(scores: Seq<u32>, bin_width: u32)
    requires
        bin_width > 0,
    ensures
        sum_counts(scores, bin_key(bin_width), 100u32 / bin_width + 1) == scores.len(),
{
    let key = bin_key(bin_width);
    assert forall|i: int| 0 <= i < scores.len() implies 0 <= #[trigger] key(scores[i]) < 100u32
        / bin_width + 1 by {
    }
    lemma_count_in_range_all(scores, key, 100u32 / bin_width + 1);
    lemma_sum_counts(scores, key, 100u32 / bin_width + 1);
}

// ---------------------------------------------------------------------------
// Editing the bands
// ---------------------------------------------------------------------------

/// The order of the band editor: higher thresholds first.
pub open spec fn higher_threshold_first() -> spec_fn(Rating, Rating) -> bool {
    |a: Rating, b: Rating| a.min_score >= b.min_score
}

/// Stable sort of the bands by threshold, highest first
/// (`sort_by(|a, b| b.min_score.cmp(&a.min_score))`).
pub fn sort_ratings_desc(ratings: &mut Vec<Rating>)
    ensures
        final(ratings)@ == stable_sorted(old(ratings)@, higher_threshold_first()),
{
    let ghost before = higher_threshold_first();
    let mut out: Vec<Rating> = Vec::new();
    let n = ratings.len();
    let mut k: usize = 0;
    while k < n
        invariant
            k <= n,
            n == ratings@.len(),
            before == higher_threshold_first(),
            out@ == stable_sorted(ratings@.take(k as int), before),
        decreases n - k,
    {
        let r = ratings[k].duplicate();
        let mut j: usize = 0;
        assert(out@.subrange(0, out@.len() as int) =~= out@);
        while j < out.len() && out[j].min_score >= r.min_score
            invariant
                j <= out@.len(),
                before == higher_threshold_first(),
                insert_pos(out@, r, before) == j + insert_pos(
                    out@.subrange(j as int, out@.len() as int),
                    r,
                    before,
                ),
            decreases out@.len() - j,
        {
            let ghost rest = out@.subrange(j as int, out@.len() as int);
            assert(rest[0] == out@[j as int]);
            assert(before(rest[0], r));
            assert(rest.drop_first() =~= out@.subrange(j + 1, out@.len() as int));
            j = j + 1;
        }
        proof {
            let rest = out@.subrange(j as int, out@.len() as int);
            if j < out@.len() {
                assert(rest[0] == out@[j as int]);
            }
            assert(ratings@.take(k + 1).drop_last() =~= ratings@.take(k as int));
            assert(ratings@.take(k + 1).last() == r);
        }
        assert(j as int == insert_pos(out@, r, before) as int) by {
            let rest = out@.subrange(j as int, out@.len() as int);
            assert(j == out@.len() ==> rest.len() == 0);
        }
        out.insert(j, r);
        k = k + 1;
    }
    assert(ratings@.take(n as int) =~= ratings@);
    *ratings = out;
}

/// The band order is a total preorder.
pub proof fn lemma_threshold_order_total()
    ensures
        total_preorder(higher_threshold_first()),
{
}

/// After sorting, every band's threshold is at least that of each later
/// band, and the bands are the same as before, each as often.
pub proof fn lemma_sorted_bands(ratings: Seq<Rating>)
    ensures
        forall|i: int, j: int|
            0 <= i < j < ratings.len() ==> (#[trigger] stable_sorted(ratings, higher_threshold_first())[i]).min_score
                >= (#[trigger] stable_sorted(ratings, higher_threshold_first())[j]).min_score,
        stable_sorted(ratings, higher_threshold_first()).to_multiset() == ratings.to_multiset(),
{
    let s = stable_sorted(ratings, higher_threshold_first());
    lemma_stable_sorted_in_order(ratings, higher_threshold_first());
    lemma_stable_sorted_permutes(ratings, higher_threshold_first());
    assert forall|i: int, j: int| 0 <= i < j < ratings.len() implies (#[trigger] s[i]).min_score >= (
    #[trigger] s[j]).min_score by {
        assert(higher_threshold_first()(s[i], s[j]));
    }
}

/// The threshold that the editor stores for typed value `v`: at most 100.
pub open spec fn clamp_threshold(v: u32) -> u32 {
    if v < 100 {
        v
    } else {
        100
    }
}

impl Config {
    /// Renames band `i`.
    pub fn set_rating_label(&mut self, i: usize, label: String)
        requires
            i < old(self).ratings@.len(),
        ensures
            final(self).ratings@ == old(self).ratings@.update(
                i as int,
                Rating { label, min_score: old(self).ratings@[i as int].min_score },
            ),
            final(self).save_path == old(self).save_path,
            final(self).questions == old(self).questions,
            final(self).students == old(self).students,
            final(self).scores == old(self).scores,
    {
        let r = Rating { label, min_score: self.ratings[i].min_score };
        self.ratings.set(i, r);
    }

    /// What typing `input` into the threshold field of band `i` does: when
    /// the input reads as a `u32`, the band's threshold becomes that value,
    /// capped at 100, and the bands are sorted again, highest threshold
    /// first; otherwise nothing changes.
    pub fn set_rating_threshold_input(&mut self, i: usize, input: &str)
        requires
            i < old(self).ratings@.len(),
        ensures
            match u32_from_text(input@) {
                Some(v) => final(self).ratings@ == stable_sorted(
                    old(self).ratings@.update(
                        i as int,
                        Rating {
                            label: old(self).ratings@[i as int].label,
                            min_score: clamp_threshold(v),
                        },
                    ),
                    higher_threshold_first(),
                ),
                None => final(self).ratings@ == old(self).ratings@,
            },
            final(self).save_path == old(self).save_path,
            final(self).questions == old(self).questions,
            final(self).students == old(self).students,
            final(self).scores == old(self).scores,
    {
        match parse_u32(input) {
            Some(v) => {
                let capped = if v < 100 {
                    v
                } else {
                    100
                };
                let r = Rating { label: self.ratings[i].label.clone(), min_score: capped };
                self.ratings.set(i, r);
                sort_ratings_desc(&mut self.ratings);
            },
            None => {},
        }
    }

    /// Appends a band labelled "New" with threshold 0.
    pub fn add_rating(&mut self)
        ensures
            final(self).ratings@.len() == old(self).ratings@.len() + 1,
            final(self).ratings@.take(old(self).ratings@.len() as int) == old(self).ratings@,
            final(self).ratings@.last().label@ == "New"@,
            final(self).ratings@.last().min_score == 0,
            final(self).save_path == old(self).save_path,
            final(self).questions == old(self).questions,
            final(self).students == old(self).students,
            final(self).scores == old(self).scores,
    {
        self.ratings.push(Rating { label: "New".to_owned(), min_score: 0 });
        assert(self.ratings@.take(old(self).ratings@.len() as int) =~= old(self).ratings@);
    }
}

} // verus!
