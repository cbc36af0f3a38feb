//! The positions, taps and counts of a dilated convolution over a series,
//! whose proportion of positive values is one feature for each kernel.

use vstd::prelude::*;

verus! {

/// One term of a convolution value: the position of a weight in its kernel
/// and the position of the sample it is multiplied with.
#[derive(Clone, Copy, Debug, PartialEq, Eq)]
pub struct Tap {
    pub weight: usize,
    pub sample: usize,
}

/// How many of the attempted positions of one kernel gave a convolution
/// value above the bias.  The feature is `positives` divided by `attempts`.
#[derive(Clone, Copy, Debug, PartialEq, Eq)]
pub struct PpvCount {
    pub positives: usize,
    pub attempts: usize,
}

/// The number of kernels that are used: where the three lists of a kernel
/// set differ in length, the shortest decides.
pub open spec fn common_len(kernels: int, dilations: int, biases: int) -> int {
    if kernels <= dilations && kernels <= biases {
        kernels
    } else if dilations <= biases {
        dilations
    } else {
        biases
    }
}

/// The last start position of a kernel of `klen` weights and the given
/// dilation over a series of `series_len` samples: the length that is left
/// beyond the kernel's reach, and 0 where the series is shorter than that.
pub open spec fn last_start_of(series_len: int, klen: int, dilation: int) -> int {
    if series_len >= klen * dilation {
        series_len - klen * dilation
    } else {
        0
    }
}

/// The number of start positions that are attempted: always at least one.
pub open spec fn attempts_of(series_len: int, klen: int, dilation: int) -> int {
    last_start_of(series_len, klen, dilation) + 1
}

/// The sample that the weight at `tap` meets when the kernel starts at
/// `start`.
pub open spec fn sample_of(start: int, tap: int, dilation: int) -> int {
    start + tap * dilation
}

/// The terms of the convolution value at `start`, of the first `n` weights:
/// one for each weight whose sample lies inside the series, in the order of
/// the weights.  A weight whose sample lies beyond the series has no term.
pub open spec fn taps_upto(series_len: int, dilation: int, start: int, n: int) -> Seq<Tap>
    decreases n,
{
    if n <= 0 {
        Seq::empty()
    } else {
        let earlier = taps_upto(series_len, dilation, start, n - 1);
        if sample_of(start, n - 1, dilation) < series_len {
            earlier.push(
                Tap {
                    weight: (n - 1) as usize,
                    sample: sample_of(start, n - 1, dilation) as usize,
                },
            )
        } else {
            earlier
        }
    }
}

/// The terms of the convolution value of a kernel of `klen` weights at
/// `start`.
pub open spec fn taps_of(series_len: int, klen: int, dilation: int, start: int) -> Seq<Tap> {
    taps_upto(series_len, dilation, start, klen)
}

/// Every term reads a weight of a kernel of `klen` weights and a sample of
/// a series of `series_len` samples.
pub open spec fn fits(taps: Seq<Tap>, series_len: int, klen: int) -> bool {
    forall|j: int|
        0 <= j < taps.len() ==> (#[trigger] taps[j]).weight < klen && taps[j].sample < series_len
}

/// The number of `true` among the outcomes.
pub open spec fn count_true(outcomes: Seq<bool>) -> int
    decreases outcomes.len(),
{
    if outcomes.len() == 0 {
        0
    } else {
        count_true(outcomes.drop_last()) + if outcomes.last() {
            1int
        } else {
            0int
        }
    }
}

/// No more outcomes are `true` than there are outcomes.
pub proof fn lemma_count_true_bounds(outcomes: Seq<bool>)
    ensures
        0 <= count_true(outcomes) <= outcomes.len(),
    decreases outcomes.len(),
{
    if outcomes.len() > 0 {
        lemma_count_true_bounds(outcomes.drop_last());
    }
}

/// The terms of a convolution value are the leading weights of the kernel:
/// the weights are met in order, each with the sample `dilation` further on
/// than the one before, and once a sample lies beyond the series so do all
/// that follow.
pub proof fn lemma_taps_are_leading(series_len: int, dilation: int, start: int, n: int)
    requires
        0 <= n <= usize::MAX,
        0 <= dilation,
        0 <= start,
        0 <= series_len <= usize::MAX,
    ensures
        taps_upto(series_len, dilation, start, n).len() <= n,
        forall|j: int|
            0 <= j < taps_upto(series_len, dilation, start, n).len() ==> {
                let tap = #[trigger] taps_upto(series_len, dilation, start, n)[j];
                &&& tap.weight == j
                &&& tap.sample == sample_of(start, j, dilation)
                &&& tap.sample < series_len
            },
        taps_upto(series_len, dilation, start, n).len() < n ==> sample_of(
            start,
            taps_upto(series_len, dilation, start, n).len() as int,
            dilation,
        ) >= series_len,
    decreases n,
{
    if n > 0 {
        lemma_taps_are_leading(series_len, dilation, start, n - 1);
        let earlier = taps_upto(series_len, dilation, start, n - 1);
        if earlier.len() < n - 1 {
            let m = earlier.len() as int;
            assert(sample_of(start, m, dilation) <= sample_of(start, n - 1, dilation)) by {
                assert(m * dilation <= (n - 1) * dilation) by (nonlinear_arith)
                    requires
                        0 <= m <= n - 1,
                        0 <= dilation,
                ;
            }
        }
    }
}

/// A series shorter than a kernel's reach is attempted at its first
/// position only.
pub proof fn lemma_short_series_one_attempt(series_len: int, klen: int, dilation: int)
    requires
        series_len <= klen * dilation,
    ensures
        last_start_of(series_len, klen, dilation) == 0,
        attempts_of(series_len, klen, dilation) == 1,
{
}

/// The number of kernels that a kernel set of these three lengths comes to.
pub fn kernel_count(kernels: usize, dilations: usize, biases: usize) -> (n: usize)
    ensures
        n == common_len(kernels as int, dilations as int, biases as int),
        n <= kernels && n <= dilations && n <= biases,
        n == kernels || n == dilations || n == biases,
{
    if kernels <= dilations && kernels <= biases {
        kernels
    } else if dilations <= biases {
        dilations
    } else {
        biases
    }
}

/// The last start position that is attempted.
pub fn last_start(series_len: usize, klen: usize, dilation: usize) -> (last: usize)
    ensures
        last == last_start_of(series_len as int, klen as int, dilation as int),
        last <= series_len,
{
    match klen.checked_mul(dilation) {
        Some(reach) => if series_len >= reach {
            series_len - reach
        } else {
            0
        },
        None => 0,
    }
}

/// The terms of the convolution value at `start`, in the order in which
/// they are summed.
pub fn taps_at(series_len: usize, klen: usize, dilation: usize, start: usize) -> (taps: Vec<Tap>)
    ensures
        taps@ == taps_of(series_len as int, klen as int, dilation as int, start as int),
        taps.len() <= klen,
        fits(taps@, series_len as int, klen as int),
{
    let mut taps: Vec<Tap> = Vec::new();
    let mut j: usize = 0;
    while j < klen
        invariant
            j <= klen,
            taps.len() <= j,
            taps@ == taps_upto(series_len as int, dilation as int, start as int, j as int),
        decreases klen - j,
    {
        let sample = match j.checked_mul(dilation) {
            Some(offset) => start.checked_add(offset),
            None => None,
        };
        proof {
            assert(j * dilation >= 0) by (nonlinear_arith)
                requires
                    j >= 0,
                    dilation >= 0,
            ;
        }
        match sample {
            Some(sample) => {
                if sample < series_len {
                    taps.push(Tap { weight: j, sample });
                }
            },
            None => {},
        }
        j += 1;
    }
    proof {
        lemma_taps_are_leading(series_len as int, dilation as int, start as int, klen as int);
    }
    taps
}

/// Counts the positions whose convolution value was above the bias.
pub fn tally(outcomes: &Vec<bool>) -> (count: PpvCount)
    ensures
        count.positives == count_true(outcomes@),
        count.attempts == outcomes.len(),
        count.positives <= count.attempts,
{
    let mut positives: usize = 0;
    let mut i: usize = 0;
    while i < outcomes.len()
        invariant
            i <= outcomes.len(),
            positives == count_true(outcomes@.take(i as int)),
        decreases outcomes.len() - i,
    {
        proof {
            lemma_count_true_bounds(outcomes@.take(i as int));
            assert(outcomes@.take(i + 1).drop_last() =~= outcomes@.take(i as int));
        }
        if outcomes[i] {
            positives += 1;
        }
        i += 1;
    }
    proof {
        assert(outcomes@.take(outcomes.len() as int) =~= outcomes@);
        lemma_count_true_bounds(outcomes@);
    }
    PpvCount { positives, attempts: outcomes.len() }
}

/// `outcome` is an answer that `exceeds` can give for these terms, asked
/// about the series at `row` and the kernel at `kernel`.
pub open spec fn answers<F: Fn(usize, usize, &Vec<Tap>) -> bool>(
    exceeds: F,
    row: usize,
    kernel: usize,
    taps: Seq<Tap>,
    outcome: bool,
) -> bool {
    exists|handed: Vec<Tap>|
        handed@ == taps && call_ensures(exceeds, (row, kernel, &handed), outcome)
}

/// `outcomes` holds, for every start position of the kernel in turn, an
/// answer of `exceeds` for the terms of that position.
pub open spec fn is_run<F: Fn(usize, usize, &Vec<Tap>) -> bool>(
    exceeds: F,
    series_len: int,
    row: usize,
    kernel: usize,
    klen: int,
    dilation: int,
    outcomes: Seq<bool>,
) -> bool {
    &&& outcomes.len() == attempts_of(series_len, klen, dilation)
    &&& forall|i: int|
        0 <= i < outcomes.len() ==> answers(
            exceeds,
            row,
            kernel,
            taps_of(series_len, klen, dilation, i),
            #[trigger] outcomes[i],
        )
}

/// `count` is what one kernel comes to over one series: every start
/// position was attempted, and the positives are the answers `true` among
/// those that `exceeds` gave, one for each position.
pub open spec fn is_count<F: Fn(usize, usize, &Vec<Tap>) -> bool>(
    exceeds: F,
    series_len: int,
    row: usize,
    kernel: usize,
    klen: int,
    dilation: int,
    count: PpvCount,
) -> bool {
    &&& count.attempts == attempts_of(series_len, klen, dilation)
    &&& count.positives <= count.attempts
    &&& exists|outcomes: Seq<bool>|
        is_run(exceeds, series_len, row, kernel, klen, dilation, outcomes) && count.positives
            == count_true(outcomes)
}

/// `counts` is what a kernel set comes to over one series: one count for
/// each kernel that is used, in the order of the set.
pub open spec fn is_feature_row<F: Fn(usize, usize, &Vec<Tap>) -> bool>(
    exceeds: F,
    series_len: int,
    row: usize,
    kernel_lens: Seq<usize>,
    dilations: Seq<usize>,
    biases: int,
    counts: Seq<PpvCount>,
) -> bool {
    &&& counts.len() == common_len(kernel_lens.len() as int, dilations.len() as int, biases)
    &&& forall|k: int|
        0 <= k < counts.len() ==> is_count(
            exceeds,
            series_len,
            row,
            k as usize,
            kernel_lens[k] as int,
            dilations[k] as int,
            #[trigger] counts[k],
        )
}

/// Whatever the kernel, the series and the answers are, a count is a
/// proportion between none and all: at least one position was attempted,
/// and the positives are at most the attempts.
pub proof fn lemma_count_is_a_proportion<F: Fn(usize, usize, &Vec<Tap>) -> bool>(
    exceeds: F,
    series_len: int,
    row: usize,
    kernel: usize,
    klen: int,
    dilation: int,
    count: PpvCount,
)
    requires
        is_count(exceeds, series_len, row, kernel, klen, dilation, count),
    ensures
        count.attempts >= 1,
        0 <= count.positives <= count.attempts,
{
}

/// Over a series shorter than the kernel's reach the one attempt decides:
/// the count is none of one or one of one.
pub proof fn lemma_short_series_all_or_nothing<F: Fn(usize, usize, &Vec<Tap>) -> bool>(
    exceeds: F,
    series_len: int,
    row: usize,
    kernel: usize,
    klen: int,
    dilation: int,
    count: PpvCount,
)
    requires
        series_len <= klen * dilation,
        is_count(exceeds, series_len, row, kernel, klen, dilation, count),
    ensures
        count.attempts == 1,
        count.positives == 0 || count.positives == 1,
{
}

/// Walks the start positions of one kernel over one series and counts those
/// for which `exceeds` answers `true`.
///
/// `exceeds` is asked once for each start position, from 0 to the last, with
/// the row of the series, the position of the kernel in its set and the
/// terms of the convolution value there; it says whether that value is above
/// the kernel's bias.
pub fn count_positions<F: Fn(usize, usize, &Vec<Tap>) -> bool>(
    series_len: usize,
    row: usize,
    kernel: usize,
    klen: usize,
    dilation: usize,
    exceeds: &F,
) -> (count: PpvCount)
    requires
        series_len < usize::MAX,
        forall|taps: &Vec<Tap>|
            fits(taps@, series_len as int, klen as int) ==> call_requires(
                *exceeds,
                (row, kernel, taps),
            ),
    ensures
        is_count(
            *exceeds,
            series_len as int,
            row,
            kernel,
            klen as int,
            dilation as int,
            count,
        ),
{
    let last = last_start(series_len, klen, dilation);
    let mut positives: usize = 0;
    let mut start: usize = 0;
    let ghost mut outcomes: Seq<bool> = Seq::empty();
    while start <= last
        invariant
            last == last_start_of(series_len as int, klen as int, dilation as int),
            last <= series_len < usize::MAX,
            start <= last + 1,
            forall|taps: &Vec<Tap>|
                fits(taps@, series_len as int, klen as int) ==> call_requires(
                    *exceeds,
                    (row, kernel, taps),
                ),
            outcomes.len() == start,
            positives == count_true(outcomes),
            positives <= start,
            forall|i: int|
                0 <= i < start ==> answers(
                    *exceeds,
                    row,
                    kernel,
                    taps_of(series_len as int, klen as int, dilation as int, i),
                    #[trigger] outcomes[i],
                ),
        decreases last + 1 - start,
    {
        let taps = taps_at(series_len, klen, dilation, start);
        let positive = exceeds(row, kernel, &taps);
        proof {
            assert(outcomes.push(positive).drop_last() =~= outcomes);
            assert(answers(
                *exceeds,
                row,
                kernel,
                taps_of(series_len as int, klen as int, dilation as int, start as int),
                positive,
            ));
            outcomes = outcomes.push(positive);
        }
        if positive {
            positives += 1;
        }
        start += 1;
    }
    assert(is_run(
        *exceeds,
        series_len as int,
        row,
        kernel,
        klen as int,
        dilation as int,
        outcomes,
    ));
    PpvCount { positives, attempts: start }
}

/// Counts, for one series, the positive positions of every kernel of a set.
///
/// `kernel_lens` holds the number of weights of each kernel and `dilations`
/// its dilation; `biases` is the number of biases that came with them.  The
/// counts come in the order of the kernels, one for each kernel that has a
/// dilation and a bias.
pub fn extract_counts<F: Fn(usize, usize, &Vec<Tap>) -> bool>(
    series_len: usize,
    row: usize,
    kernel_lens: &Vec<usize>,
    dilations: &Vec<usize>,
    biases: usize,
    exceeds: &F,
) -> (counts: Vec<PpvCount>)
    requires
        series_len < usize::MAX,
        forall|k: usize, taps: &Vec<Tap>|
            k < kernel_lens.len() && fits(taps@, series_len as int, kernel_lens[k as int] as int)
                ==> call_requires(*exceeds, (row, k, taps)),
    ensures
        is_feature_row(
            *exceeds,
            series_len as int,
            row,
            kernel_lens@,
            dilations@,
            biases as int,
            counts@,
        ),
{
    let used = kernel_count(kernel_lens.len(), dilations.len(), biases);
    let mut counts: Vec<PpvCount> = Vec::new();
    let mut k: usize = 0;
    while k < used
        invariant
            k <= used,
            used == common_len(kernel_lens.len() as int, dilations.len() as int, biases as int),
            used <= kernel_lens.len(),
            used <= dilations.len(),
            series_len < usize::MAX,
            forall|k: usize, taps: &Vec<Tap>|
                k < kernel_lens.len() && fits(
                    taps@,
                    series_len as int,
                    kernel_lens[k as int] as int,
                ) ==> call_requires(*exceeds, (row, k, taps)),
            counts.len() == k,
            forall|i: int|
                0 <= i < k ==> is_count(
                    *exceeds,
                    series_len as int,
                    row,
                    i as usize,
                    kernel_lens[i] as int,
                    dilations[i] as int,
                    #[trigger] counts[i],
                ),
        decreases used - k,
    {
        let count = count_positions(series_len, row, k, kernel_lens[k], dilations[k], exceeds);
        counts.push(count);
        k += 1;
    }
    counts
}

/// The MiniRocket features of a batch as counts: for every series of the
/// batch, in the order of the batch, the counts of the kernel set over it.
///
/// `series_lens` holds the length of each series.  Every row is counted by
/// itself: what `exceeds` answers for one row has no part in another.
pub fn mini_rocket_expr<F: Fn(usize, usize, &Vec<Tap>) -> bool>(
    series_lens: &Vec<usize>,
    kernel_lens: &Vec<usize>,
    dilations: &Vec<usize>,
    biases: usize,
    exceeds: &F,
) -> (features: Vec<Vec<PpvCount>>)
    requires
        forall|i: int| 0 <= i < series_lens.len() ==> series_lens[i] < usize::MAX,
        forall|r: usize, k: usize, taps: &Vec<Tap>|
            r < series_lens.len() && k < kernel_lens.len() && fits(
                taps@,
                series_lens[r as int] as int,
                kernel_lens[k as int] as int,
            ) ==> call_requires(*exceeds, (r, k, taps)),
    ensures
        features.len() == series_lens.len(),
        forall|r: int|
            0 <= r < features.len() ==> is_feature_row(
                *exceeds,
                series_lens[r] as int,
                r as usize,
                kernel_lens@,
                dilations@,
                biases as int,
                (#[trigger] features[r])@,
            ),
{
    let mut features: Vec<Vec<PpvCount>> = Vec::new();
    let mut row: usize = 0;
    while row < series_lens.len()
        invariant
            row <= series_lens.len(),
            forall|i: int| 0 <= i < series_lens.len() ==> series_lens[i] < usize::MAX,
            forall|r: usize, k: usize, taps: &Vec<Tap>|
                r < series_lens.len() && k < kernel_lens.len() && fits(
                    taps@,
                    series_lens[r as int] as int,
                    kernel_lens[k as int] as int,
                ) ==> call_requires(*exceeds, (r, k, taps)),
            features.len() == row,
            forall|r: int|
                0 <= r < row ==> is_feature_row(
                    *exceeds,
                    series_lens[r] as int,
                    r as usize,
                    kernel_lens@,
                    dilations@,
                    biases as int,
                    (#[trigger] features[r])@,
                ),
        decreases series_lens.len() - row,
    {
        let counts = extract_counts(
            series_lens[row],
            row,
            kernel_lens,
            dilations,
            biases,
            exceeds,
        );
        features.push(counts);
        row += 1;
    }
    features
}

} // verus!
