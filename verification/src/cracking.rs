//! Breaking XOR ciphers by statistics: the search for a single-byte key, the
//! estimate of a repeating key's length, and the recovery of the key column
//! by column.

use vstd::prelude::*;
use vstd::arithmetic::div_mod::lemma_fundamental_div_mod_converse;
use crate::basics::{
    hamming_distance,
    hamming_spec,
    lemma_hamming_upto_bounds,
    repeating_key_xor_spec,
    single_xor,
    single_xor_spec,
};
use crate::conversion::{to_b64, to_b64_spec};
use crate::error::Error;

verus! {

/// The outcome of the search for a single-byte XOR key.
///
/// The scorer judges how much a byte string looks like the text one hopes
/// for. A score is a whole number in units of the scorer's own choosing.
/// The search keeps the candidate with the greatest score, so a scorer
/// fits it only if a greater score means a closer fit.
pub struct Solver<T> where T: Fn(&[u8]) -> Result<i64, Error> {
    /// The plaintext that the key gives, in base64; empty where no
    /// candidate scored above zero.
    pub correct: String,
    /// The score of that plaintext; zero where no candidate scored above
    /// zero.
    pub proba: i64,
    /// The key byte.
    pub key: u8,
    /// The scorer that the search was made with.
    pub calcule: T,
}

/// The candidate and score that the search holds after it has looked at
/// the first `n` of `scores`, where `scores[k]` is what candidate `k`
/// scored: it starts from candidate 0 with score 0, and a candidate
/// replaces what is held only with a strictly greater score. A candidate
/// that could not be scored is passed over.
pub open spec fn best_upto(scores: Seq<Result<i64, Error>>, n: nat) -> (nat, i64)
    decreases n,
{
    if n == 0 {
        (0nat, 0i64)
    } else {
        let held = best_upto(scores, (n - 1) as nat);
        match scores[n - 1] {
            Ok(x) => if x > held.1 {
                ((n - 1) as nat, x)
            } else {
                held
            },
            Err(_) => held,
        }
    }
}

/// The candidate and score that the search settles on.
pub open spec fn best_of(scores: Seq<Result<i64, Error>>) -> (nat, i64) {
    best_upto(scores, scores.len())
}

/// The plaintext that goes with the outcome of the search on `v`: `v`
/// under the key where a candidate scored above zero, and nothing
/// otherwise.
pub open spec fn best_plain(v: Seq<u8>, scores: Seq<Result<i64, Error>>) -> Seq<u8> {
    if best_of(scores).1 > 0 {
        single_xor_spec(v, best_of(scores).0 as u8)
    } else {
        Seq::empty()
    }
}

/// Whether `score` can be what `calcule` gives for a text that holds the
/// bytes `bytes`.
pub open spec fn is_score_of<T: Fn(&[u8]) -> Result<i64, Error>>(
    calcule: &T,
    bytes: Seq<u8>,
    score: Result<i64, Error>,
) -> bool {
    exists|text: &[u8]| text@ == bytes && #[trigger] calcule.ensures((text,), score)
}

/// Whether `scores` can be what `calcule` gave for `v` under each of the
/// 256 key bytes: `scores[k]` is a result of `calcule` on `v` XORed with
/// `k`.
pub open spec fn scored_by<T: Fn(&[u8]) -> Result<i64, Error>>(
    calcule: &T,
    v: Seq<u8>,
    scores: Seq<Result<i64, Error>>,
) -> bool {
    &&& scores.len() == 256
    &&& forall|k: int|
        0 <= k < 256 ==> #[trigger] is_score_of(calcule, single_xor_spec(v, k as u8), scores[k])
}

/// What the search holds is the first maximum: no candidate looked at
/// scores higher, none before the held one scores as high, and where no
/// candidate scores above zero the search still holds candidate 0 with
/// score 0.
pub proof fn lemma_best_is_first_maximum(scores: Seq<Result<i64, Error>>, n: nat)
    requires
        n <= scores.len(),
    ensures
        best_upto(scores, n).1 >= 0,
        forall|k: int|
            0 <= k < n ==> (#[trigger] scores[k] matches Ok(x) ==> x <= best_upto(scores, n).1),
        best_upto(scores, n).1 == 0 ==> best_upto(scores, n).0 == 0,
        best_upto(scores, n).1 > 0 ==> {
            let best = best_upto(scores, n).0;
            &&& best < n
            &&& scores[best as int] == Ok::<i64, Error>(best_upto(scores, n).1)
            &&& forall|k: int|
                0 <= k < best ==> (#[trigger] scores[k] matches Ok(x) ==> x < best_upto(
                    scores,
                    n,
                ).1)
        },
    decreases n,
{
    if n > 0 {
        lemma_best_is_first_maximum(scores, (n - 1) as nat);
    }
}

/// Picks the winner among scored candidates: the first of those with the
/// greatest score above zero, or candidate 0 with score 0 where there is
/// none.
pub fn pick_best(scores: &[Result<i64, Error>]) -> (r: (usize, i64))
    ensures
        r.0 == best_of(scores@).0,
        r.1 == best_of(scores@).1,
{
    let mut best: usize = 0;
    let mut proba: i64 = 0;
    for i in 0..scores.len()
        invariant
            (best as nat, proba) == best_upto(scores@, i as nat),
    {
        match scores[i] {
            Ok(x) => {
                if x > proba {
                    proba = x;
                    best = i;
                }
            },
            Err(_) => {},
        }
    }
    (best, proba)
}

/// Scores `v` under each of the 256 key bytes, from 0 upwards.
pub fn score_candidates<T: Fn(&[u8]) -> Result<i64, Error>>(v: &[u8], calcule: &T) -> (scores: Vec<
    Result<i64, Error>,
>)
    requires
        forall|text: &[u8]| calcule.requires((text,)),
    ensures
        scored_by(calcule, v@, scores@),
{
    let mut scores: Vec<Result<i64, Error>> = Vec::new();
    let mut i: u16 = 0;
    while i < 256
        invariant
            i <= 256,
            scores@.len() == i,
            forall|text: &[u8]| calcule.requires((text,)),
            forall|k: int|
                0 <= k < i ==> #[trigger] is_score_of(
                    calcule,
                    single_xor_spec(v@, k as u8),
                    scores@[k],
                ),
        decreases 256 - i,
    {
        let xored = single_xor(v, i as u8);
        let score = calcule(xored.as_slice());
        scores.push(score);
        i = i + 1;
    }
    scores
}

/// Tries every key byte on `v` and returns the key, its score and its
/// plaintext as the search settles on them.
pub fn best_single_xor<T: Fn(&[u8]) -> Result<i64, Error>>(v: &[u8], calcule: &T) -> (r: (
    u8,
    i64,
    Vec<u8>,
))
    requires
        forall|text: &[u8]| calcule.requires((text,)),
    ensures
        exists|scores: Seq<Result<i64, Error>>|
            {
                &&& #[trigger] scored_by(calcule, v@, scores)
                &&& r.0 == best_of(scores).0
                &&& r.1 == best_of(scores).1
                &&& r.2@ == best_plain(v@, scores)
            },
{
    let scores = score_candidates(v, calcule);
    let (best, proba) = pick_best(scores.as_slice());
    proof {
        lemma_best_is_first_maximum(scores@, 256);
    }
    let key: u8 = best as u8;
    let correct: Vec<u8> = if proba > 0 {
        single_xor(v, key)
    } else {
        Vec::new()
    };
    (key, proba, correct)
}

impl<T> Solver<T> where T: Fn(&[u8]) -> Result<i64, Error> {
    /// Searches the 256 single-byte keys for the one whose plaintext scores
    /// highest under `calcule`.
    ///
    /// The search starts from key 0 with score 0 and moves only to a
    /// strictly greater score, so the first of several equal maxima wins,
    /// and a candidate that scores zero or less never does. A candidate
    /// that `calcule` cannot score is passed over.
    pub fn guess_single_xor(v: &[u8], calcule: T) -> (r: Solver<T>)
        requires
            forall|text: &[u8]| calcule.requires((text,)),
        ensures
            r.calcule == calcule,
            exists|scores: Seq<Result<i64, Error>>|
                {
                    &&& #[trigger] scored_by(&calcule, v@, scores)
                    &&& r.key == best_of(scores).0
                    &&& r.proba == best_of(scores).1
                    &&& r.correct@ == to_b64_spec(best_plain(v@, scores))
                },
    {
        let (key, proba, correct) = best_single_xor(v, &calcule);
        Solver { correct: to_b64(correct.as_slice()), proba, calcule, key }
    }
}

/// How many bytes of a text of `n` bytes stand at the positions that leave
/// the remainder `p` when divided by `key_size`.
pub open spec fn column_len(n: nat, key_size: nat, p: nat) -> nat {
    if p < n && key_size > 0 {
        ((n - p - 1) / (key_size as int) + 1) as nat
    } else {
        0
    }
}

/// Column `p` of `m`: the bytes at the positions that leave the remainder
/// `p` when divided by `key_size`, in their order.
pub open spec fn column(m: Seq<u8>, key_size: nat, p: nat) -> Seq<u8> {
    Seq::new(column_len(m.len(), key_size, p), |j: int| m[p + j * key_size])
}

/// Every byte of column `p` stands in the text, at a place that leaves the
/// remainder `p`.
pub proof fn lemma_column_index(n: nat, key_size: nat, p: nat, j: int)
    requires
        p < key_size,
        0 <= j < column_len(n, key_size, p),
    ensures
        0 <= p + j * key_size < n,
        (p + j * key_size) % (key_size as int) == p,
{
    let q = (n - p - 1) / (key_size as int);
    assert(q * key_size <= n - p - 1) by (nonlinear_arith)
        requires
            q == (n - p - 1) / (key_size as int),
            key_size > 0,
            n - p - 1 >= 0,
    ;
    assert(0 <= j * key_size <= q * key_size) by (nonlinear_arith)
        requires
            0 <= j <= q,
            key_size > 0,
    ;
    lemma_fundamental_div_mod_converse(p + j * key_size, key_size as int, j, p as int);
}

/// Under a repeating key as long as there are columns, every column is
/// enciphered with one byte of the key: column `p` of the ciphertext is
/// column `p` of the text XORed with byte `p` of the key. This is why the
/// single-byte search, column by column, recovers the key.
pub proof fn lemma_column_of_repeating_key_xor(v: Seq<u8>, key: Seq<u8>, p: nat)
    requires
        p < key.len(),
    ensures
        column(repeating_key_xor_spec(v, key), key.len(), p) == single_xor_spec(
            column(v, key.len(), p),
            key[p as int],
        ),
{
    let cipher = repeating_key_xor_spec(v, key);
    let left = column(cipher, key.len(), p);
    let right = single_xor_spec(column(v, key.len(), p), key[p as int]);
    assert forall|j: int| 0 <= j < left.len() implies left[j] == right[j] by {
        lemma_column_index(v.len(), key.len(), p, j);
    }
    assert(left =~= right);
}

/// Collects column `p` of `m`.
fn take_column(m: &[u8], key_size: usize, p: usize) -> (col: Vec<u8>)
    requires
        p < key_size,
    ensures
        col@ == column(m@, key_size as nat, p as nat),
{
    let mut col: Vec<u8> = Vec::new();
    let n: usize = m.len();
    if p < n {
        let mut i: usize = p;
        assert(col@.len() * key_size == 0) by (nonlinear_arith)
            requires
                col@.len() == 0,
        ;
        loop
            invariant_except_break
                p <= i < n,
                i == p + col@.len() * key_size,
            invariant
                n == m@.len(),
                p < key_size,
                p < n,
                forall|j: int| 0 <= j < col@.len() ==> col@[j] == m@[p + j * key_size],
            ensures
                col@.len() == column_len(n as nat, key_size as nat, p as nat),
            decreases n - i,
        {
            col.push(m[i]);
            if key_size >= n - i {
                proof {
                    let q = col@.len() - 1;
                    assert(i == p + q * key_size);
                    lemma_fundamental_div_mod_converse(
                        n - p - 1,
                        key_size as int,
                        q,
                        n - i - 1,
                    );
                }
                break ;
            }
            assert((col@.len() - 1) * key_size + key_size == col@.len() * key_size)
                by (nonlinear_arith);
            i = i + key_size;
        }
    }
    assert(col@ =~= column(m@, key_size as nat, p as nat));
    col
}

/// Whether `key` can be the key byte that the single-byte search settles
/// on for the column `col` under `calcule`.
pub open spec fn is_key_byte_of<T: Fn(&[u8]) -> Result<i64, Error>>(
    calcule: &T,
    col: Seq<u8>,
    key: u8,
) -> bool {
    exists|scores: Seq<Result<i64, Error>>|
        #[trigger] scored_by(calcule, col, scores) && key == best_of(scores).0
}

/// Recovers a repeating XOR key of `key_size` bytes from the ciphertext
/// `m`: the ciphertext is split into `key_size` columns by position, and
/// each column gives one key byte, the one that the single-byte search
/// settles on under `calcule`.
pub fn find_repeated_xor_key<T: Fn(&[u8]) -> Result<i64, Error>>(
    m: &[u8],
    key_size: usize,
    calcule: T,
) -> (key: Vec<u8>)
    requires
        forall|text: &[u8]| calcule.requires((text,)),
    ensures
        key@.len() == key_size,
        forall|p: int|
            0 <= p < key_size ==> is_key_byte_of(
                &calcule,
                column(m@, key_size as nat, p as nat),
                #[trigger] key@[p],
            ),
{
    let mut key: Vec<u8> = Vec::new();
    for p in 0..key_size
        invariant
            forall|text: &[u8]| calcule.requires((text,)),
            key@.len() == p,
            forall|q: int|
                0 <= q < p ==> is_key_byte_of(
                    &calcule,
                    column(m@, key_size as nat, q as nat),
                    #[trigger] key@[q],
                ),
    {
        let col = take_column(m, key_size, p);
        let found = best_single_xor(col.as_slice(), &calcule);
        key.push(found.0);
    }
    key
}

/// The smallest key size that the estimate considers.
pub const MIN_KEY_SIZE: usize = 2;

/// The greatest key size that the estimate considers.
pub const MAX_KEY_SIZE: usize = 40;

/// The unit of a metric: a metric counts millionths of a bit per byte.
pub const METRIC_SCALE: u64 = 1_000_000;

/// The `i`-th chunk of `size` bytes in `v`.
pub open spec fn chunk(v: Seq<u8>, size: nat, i: nat) -> Seq<u8> {
    v.subrange((i * size) as int, (i * size + size) as int)
}

/// How many pairs of whole chunks of `size` bytes a text of `n` bytes
/// holds. Chunks are paired as they come, the first with the second, the
/// third with the fourth; what is left after the last pair is not used.
pub open spec fn pair_count(n: nat, size: nat) -> nat {
    n / (2 * size)
}

/// The Hamming distances of the first `pairs` pairs of chunks, added up.
pub open spec fn pair_distance_sum(v: Seq<u8>, size: nat, pairs: nat) -> nat
    decreases pairs,
{
    if pairs == 0 {
        0
    } else {
        pair_distance_sum(v, size, (pairs - 1) as nat) + hamming_spec(
            chunk(v, size, (2 * (pairs - 1)) as nat),
            chunk(v, size, (2 * (pairs - 1) + 1) as nat),
        )
    }
}

/// The metric of a key size: the Hamming distance between paired chunks,
/// averaged over the pairs and divided by the size, in millionths of a bit
/// per byte, rounded down. The smaller it is, the likelier the size.
pub open spec fn key_size_metric(v: Seq<u8>, size: nat) -> nat {
    let pairs = pair_count(v.len(), size);
    ((pair_distance_sum(v, size, pairs) * METRIC_SCALE) as int / (pairs * size) as int) as nat
}

/// The key sizes that are so far judged equally likely, and their metrics
/// added up. The average of the metrics is what a new size is held against.
pub struct KeySizeCluster {
    pub sizes: Seq<usize>,
    pub metric_sum: nat,
}

/// What a cluster becomes when a size with its metric is held against it:
/// - the size joins the cluster where its metric differs from the
///   cluster's average by less than a tenth of that average;
/// - otherwise it replaces the cluster where its metric is smaller than
///   the average;
/// - otherwise the cluster stays as it is.
pub open spec fn cluster_step(c: KeySizeCluster, size: usize, metric: nat) -> KeySizeCluster {
    let spread = c.sizes.len() * metric;
    let gap = if c.metric_sum >= spread {
        c.metric_sum - spread
    } else {
        spread - c.metric_sum
    };
    if 10 * gap < c.metric_sum {
        KeySizeCluster { sizes: c.sizes.push(size), metric_sum: c.metric_sum + metric }
    } else if spread < c.metric_sum {
        KeySizeCluster { sizes: seq![size], metric_sum: metric }
    } else {
        c
    }
}

/// The cluster after the sizes up to `size` have been considered. The
/// search starts from the guess that the whole text is one key period, with
/// the worst metric there is, eight bits per byte; a size for which the
/// text holds no pair of chunks is passed over.
pub open spec fn cluster_upto(v: Seq<u8>, size: nat) -> KeySizeCluster
    decreases size,
{
    if size < MIN_KEY_SIZE {
        KeySizeCluster { sizes: seq![v.len() as usize], metric_sum: (8 * METRIC_SCALE) as nat }
    } else {
        let before = cluster_upto(v, (size - 1) as nat);
        if pair_count(v.len(), size) == 0 {
            before
        } else {
            cluster_step(before, size as usize, key_size_metric(v, size))
        }
    }
}

/// The key sizes that the estimate gives for `v`.
pub open spec fn guess_key_size_spec(v: Seq<u8>) -> Seq<usize> {
    cluster_upto(v, MAX_KEY_SIZE as nat).sizes
}

/// A text of fewer than four bytes holds no pair of chunks of any size, so
/// the estimate stays with its first guess, the length of the text.
pub proof fn lemma_short_text_keeps_first_guess(v: Seq<u8>, size: nat)
    requires
        v.len() < 4,
    ensures
        cluster_upto(v, size).sizes == seq![v.len() as usize],
        cluster_upto(v, size).metric_sum == 8 * METRIC_SCALE,
    decreases size,
{
    if size >= MIN_KEY_SIZE {
        lemma_short_text_keeps_first_guess(v, (size - 1) as nat);
        assert(pair_count(v.len(), size) == 0) by (nonlinear_arith)
            requires
                v.len() < 4,
                size >= 2,
                pair_count(v.len(), size) == v.len() / (2 * size),
        ;
    }
}

/// Adds up the Hamming distances of all pairs of chunks of `size` bytes.
fn pair_distances(v: &[u8], size: usize, pairs: usize) -> (total: u128)
    requires
        MIN_KEY_SIZE <= size <= MAX_KEY_SIZE,
        pairs == pair_count(v@.len(), size as nat),
    ensures
        total == pair_distance_sum(v@, size as nat, pairs as nat),
        total <= 8 * size * pairs,
{
    let n: usize = v.len();
    assert(pairs * (2 * size) <= n) by (nonlinear_arith)
        requires
            pairs == n as int / (2 * size),
            size > 0,
    ;
    let mut total: u128 = 0;
    let mut start: usize = 0;
    assert(0 * (2 * size) == 0 && 8 * size * 0 == 0) by (nonlinear_arith);
    for j in 0..pairs
        invariant
            n == v@.len(),
            MIN_KEY_SIZE <= size <= MAX_KEY_SIZE,
            pairs * (2 * size) <= n,
            start == j * (2 * size),
            total == pair_distance_sum(v@, size as nat, j as nat),
            total <= 8 * size * j,
    {
        assert((j + 1) * (2 * size) <= pairs * (2 * size)) by (nonlinear_arith)
            requires
                j + 1 <= pairs,
                size > 0,
        ;
        assert((j + 1) * (2 * size) == j * (2 * size) + 2 * size) by (nonlinear_arith);
        assert(8 * size * (j + 1) == 8 * size * j + 8 * size && 8 * size * (j + 1) <= 320 * (j + 1))
            by (nonlinear_arith)
            requires
                size <= 40,
        ;
        assert(2 * j * size == j * (2 * size) && (2 * j + 1) * size == j * (2 * size) + size)
            by (nonlinear_arith);
        let a = &v[start..start + size];
        let b = &v[start + size..start + 2 * size];
        proof {
            assert(a@ == chunk(v@, size as nat, (2 * j) as nat));
            assert(b@ == chunk(v@, size as nat, (2 * j + 1) as nat));
            lemma_hamming_upto_bounds(a@, b@, size as nat, size as nat);
        }
        total = total + hamming_distance(a, b) as u128;
        start = start + 2 * size;
    }
    total
}

/// Estimates the length of a repeating XOR key from the ciphertext `v`.
///
/// Every size from 2 to 40 for which `v` holds at least two whole chunks
/// of that size is given its metric and held against the cluster of the
/// sizes that are so far judged equally likely. The result is the cluster
/// at the end: one size or several.
pub fn guess_key_size(v: &[u8]) -> (r: Vec<usize>)
    ensures
        r@ == guess_key_size_spec(v@),
{
    let n: usize = v.len();
    let mut sizes: Vec<usize> = Vec::new();
    sizes.push(n);
    let mut metric_sum: u64 = 8 * METRIC_SCALE;
    for size in 2..41usize
        invariant
            n == v@.len(),
            sizes@ == cluster_upto(v@, (size - 1) as nat).sizes,
            metric_sum == cluster_upto(v@, (size - 1) as nat).metric_sum,
            0 < sizes@.len() < size,
            metric_sum <= sizes@.len() * 8_000_000,
    {
        let pairs: usize = n / (2 * size);
        if pairs > 0 {
            let total: u128 = pair_distances(v, size, pairs);
            assert(pairs * size <= 40 * pairs && 8 * size * pairs <= 320 * pairs) by (nonlinear_arith)
                requires
                    size <= 40,
            ;
            let weight: u128 = pairs as u128 * size as u128;
            assert(weight > 0 && total * 1_000_000 <= 8_000_000 * weight) by (nonlinear_arith)
                requires
                    weight == pairs * size,
                    pairs > 0,
                    size >= 2,
                    total <= 8 * size * pairs,
            ;
            assert((total * 1_000_000) / weight as int <= 8_000_000) by (nonlinear_arith)
                requires
                    weight > 0,
                    total * 1_000_000 <= 8_000_000 * weight,
            ;
            let metric: u64 = ((total * METRIC_SCALE as u128) / weight) as u64;
            assert(metric == key_size_metric(v@, size as nat));
            let count: u64 = sizes.len() as u64;
            assert(count * metric <= 320_000_000 && metric_sum <= 320_000_000 && (count + 1)
                * 8_000_000 == count * 8_000_000 + 8_000_000) by (nonlinear_arith)
                requires
                    count <= 40,
                    metric <= 8_000_000,
                    metric_sum <= count * 8_000_000,
            ;
            let spread: u64 = count * metric;
            let gap: u64 = if metric_sum >= spread {
                metric_sum - spread
            } else {
                spread - metric_sum
            };
            if 10 * gap < metric_sum {
                sizes.push(size);
                metric_sum = metric_sum + metric;
            } else if spread < metric_sum {
                sizes = Vec::new();
                sizes.push(size);
                metric_sum = metric;
                assert(sizes@ =~= seq![size]);
            }
        }
    }
    sizes
}

} // verus!
