use vstd::prelude::*;
use vstd::string::StringExecFns;

use crate::dictionary::RecDictionary;

verus! {

/// Configuration options for greedy CTC decoding.
#[derive(Debug, Clone, Copy)]
pub struct CtcGreedyDecoderConfig {
    pub blank_id: usize,
}

impl Default for CtcGreedyDecoderConfig {
    fn default() -> (config: Self)
        ensures
            config.blank_id == 0,
    {
        Self { blank_id: 0 }
    }
}

/// Errors that can be produced during greedy CTC decoding.
#[derive(Debug, PartialEq, Eq, Structural)]
pub enum CtcGreedyDecoderError {
    /// The specified blank id is not representable within the class dimension.
    BlankIdOutOfRange { blank_id: usize, class_count: usize },
    /// The provided `valid_timesteps` slice length does not match the batch size.
    TimestepsLengthMismatch { expected: usize, actual: usize },
    /// The decoder encountered an index that is not present in the dictionary.
    DictionaryIndexMissing { index: usize, dictionary_size: usize },
    /// The decoder was asked to process an empty batch.
    EmptyBatch,
}

/// Recognition scores of a batch, as order keys: `keys[b][t][c]` orders the
/// score of class `c` at time step `t` of sample `b` among all scores (a larger
/// key is a larger score; scores that can never be the greatest share the least key).
pub struct CtcScores {
    time_steps: usize,
    class_count: usize,
    keys: Vec<Vec<Vec<i64>>>,
}

impl CtcScores {
    /// The number of samples in the batch.
    pub closed spec fn spec_batch_size(&self) -> nat {
        self.keys@.len()
    }

    /// The number of time steps of every sample.
    pub closed spec fn spec_time_steps(&self) -> nat {
        self.time_steps as nat
    }

    /// The number of classes scored at every time step.
    pub closed spec fn spec_class_count(&self) -> nat {
        self.class_count as nat
    }

    /// The score keys of sample `b`, one row of class keys per time step.
    pub closed spec fn rows(&self, b: int) -> Seq<Seq<i64>> {
        self.keys@[b]@.map_values(|row: Vec<i64>| row@)
    }

    /// Every sample has `time_steps` rows of `class_count` keys.
    pub closed spec fn wf(&self) -> bool {
        forall|b: int|
            0 <= b < self.keys@.len() ==> {
                &&& (#[trigger] self.keys@[b])@.len() == self.time_steps
                &&& forall|t: int|
                    0 <= t < self.time_steps ==> (#[trigger] self.keys@[b]@[t])@.len()
                        == self.class_count
            }
    }

    /// Gathers score keys shaped `[keys.len(), time_steps, class_count]`; `None`
    /// when some sample or row has another length.
    pub fn new(time_steps: usize, class_count: usize, keys: Vec<Vec<Vec<i64>>>) -> (r: Option<
        Self,
    >)
        ensures
            r is Some <==> (forall|b: int|
                0 <= b < keys@.len() ==> {
                    &&& (#[trigger] keys@[b])@.len() == time_steps
                    &&& forall|t: int|
                        0 <= t < time_steps ==> (#[trigger] keys@[b]@[t])@.len() == class_count
                }),
            r matches Some(s) ==> s.wf() && s.spec_batch_size() == keys@.len()
                && s.spec_time_steps() == time_steps && s.spec_class_count() == class_count
                && forall|b: int|
                0 <= b < keys@.len() ==> #[trigger] s.rows(b) == keys@[b]@.map_values(
                    |row: Vec<i64>| row@,
                ),
    {
        let mut b: usize = 0;
        while b < keys.len()
            invariant
                0 <= b <= keys@.len(),
                forall|i: int|
                    0 <= i < b ==> {
                        &&& (#[trigger] keys@[i])@.len() == time_steps
                        &&& forall|t: int|
                            0 <= t < time_steps ==> (#[trigger] keys@[i]@[t])@.len()
                                == class_count
                    },
            decreases keys@.len() - b,
        {
            if keys[b].len() != time_steps {
                return None;
            }
            let mut t: usize = 0;
            while t < time_steps
                invariant
                    0 <= b < keys@.len(),
                    keys@[b as int]@.len() == time_steps,
                    0 <= t <= time_steps,
                    forall|u: int|
                        0 <= u < t ==> (#[trigger] keys@[b as int]@[u])@.len() == class_count,
                decreases time_steps - t,
            {
                if keys[b][t].len() != class_count {
                    return None;
                }
                t += 1;
            }
            b += 1;
        }
        Some(CtcScores { time_steps, class_count, keys })
    }

    /// The number of samples in the batch.
    pub fn batch_size(&self) -> (n: usize)
        ensures
            n == self.spec_batch_size(),
    {
        self.keys.len()
    }
}

/// `i` is the first class of `row` with the greatest key.
pub open spec fn is_best_class(row: Seq<i64>, i: int) -> bool {
    &&& 0 <= i < row.len()
    &&& forall|j: int| 0 <= j < i ==> #[trigger] row[j] < row[i]
    &&& forall|j: int| 0 <= j < row.len() ==> #[trigger] row[j] <= row[i]
}

/// The first class of `row` with the greatest key.
pub open spec fn best_class(row: Seq<i64>) -> int {
    choose|i: int| is_best_class(row, i)
}

/// The greedy path over the first `steps` rows: the best class of each.
pub open spec fn greedy_path(rows: Seq<Seq<i64>>, steps: int) -> Seq<int> {
    Seq::new(steps as nat, |t: int| best_class(rows[t]))
}

/// The class at step `t` of `path` is emitted: it is not the blank and differs
/// from the class just before it.
pub open spec fn is_emitted(path: Seq<int>, blank: int, t: int) -> bool {
    path[t] != blank && (t == 0 || path[t - 1] != path[t])
}

/// The steps among the first `n` of `path` whose class is emitted, in order.
pub open spec fn emitted_steps(path: Seq<int>, blank: int, n: int) -> Seq<int>
    decreases n,
{
    if n <= 0 {
        Seq::empty()
    } else if is_emitted(path, blank, n - 1) {
        emitted_steps(path, blank, n - 1).push(n - 1)
    } else {
        emitted_steps(path, blank, n - 1)
    }
}

/// The classes emitted along `path`: repeats merged, blanks dropped.
pub open spec fn collapsed(path: Seq<int>, blank: int) -> Seq<int> {
    emitted_steps(path, blank, path.len() as int).map_values(|t: int| path[t])
}

/// The tokens of `classes` written one after another.
pub open spec fn concat_tokens(classes: Seq<int>, tokens: Seq<Seq<char>>) -> Seq<char>
    decreases classes.len(),
{
    if classes.len() == 0 {
        Seq::empty()
    } else {
        concat_tokens(classes.drop_last(), tokens) + tokens[classes.last()]
    }
}

/// Some emitted class has no dictionary entry.
pub open spec fn has_missing(classes: Seq<int>, dictionary_size: int) -> bool {
    exists|k: int| 0 <= k < classes.len() && classes[k] >= dictionary_size
}

/// The first emitted class that has no dictionary entry.
pub open spec fn first_missing(classes: Seq<int>, dictionary_size: int) -> int {
    classes[choose|k: int|
        0 <= k < classes.len() && classes[k] >= dictionary_size && forall|j: int|
            0 <= j < k ==> classes[j] < dictionary_size]
}

/// The number of steps of sample `b` that decoding reads.
pub open spec fn read_steps(scores: &CtcScores, valid_timesteps: Seq<usize>, b: int) -> int {
    if valid_timesteps[b] < scores.spec_time_steps() {
        valid_timesteps[b] as int
    } else {
        scores.spec_time_steps() as int
    }
}

/// The greedy path of sample `b`.
pub open spec fn sample_path(scores: &CtcScores, valid_timesteps: Seq<usize>, b: int) -> Seq<int> {
    greedy_path(scores.rows(b), read_steps(scores, valid_timesteps, b))
}

/// Decoding sample `b` meets a class outside the dictionary.
pub open spec fn sample_fails(
    scores: &CtcScores,
    valid_timesteps: Seq<usize>,
    blank: int,
    dictionary_size: int,
    b: int,
) -> bool {
    has_missing(collapsed(sample_path(scores, valid_timesteps, b), blank), dictionary_size)
}

/// One decoded sample: its text, the dictionary indices of its tokens, and the
/// time step each token was read at.
pub struct DecodedPath {
    pub text: String,
    pub token_indices: Vec<usize>,
    pub time_steps: Vec<usize>,
}

/// `d` is the decoding of a greedy `path`: the collapsed classes, the steps
/// they were emitted at, and their tokens written out.
pub open spec fn decodes_path(d: &DecodedPath, path: Seq<int>, blank: int, tokens: Seq<Seq<char>>) -> bool {
    &&& d.time_steps@.map_values(|s: usize| s as int) == emitted_steps(
        path,
        blank,
        path.len() as int,
    )
    &&& d.token_indices@.map_values(|s: usize| s as int) == collapsed(path, blank)
    &&& d.text@ == concat_tokens(collapsed(path, blank), tokens)
}

/// Greedy CTC decoder producing text using the recognition dictionary.
#[derive(Debug, Clone, Copy)]
pub struct CtcGreedyDecoder {
    config: CtcGreedyDecoderConfig,
}

/// The first class of `row` with the greatest key.
fn best_class_index(row: &Vec<i64>) -> (i: usize)
    requires
        row@.len() > 0,
    ensures
        is_best_class(row@, i as int),
{
    let mut best_index: usize = 0;
    let mut best_value: i64 = i64::MIN;
    let mut c: usize = 0;
    while c < row.len()
        invariant
            0 < row@.len(),
            0 <= c <= row@.len(),
            best_index < row@.len(),
            c == 0 ==> best_index == 0 && best_value == i64::MIN,
            c > 0 ==> best_index < c && row@[best_index as int] == best_value,
            forall|j: int| 0 <= j < c ==> #[trigger] row@[j] <= best_value,
            forall|j: int| 0 <= j < best_index ==> #[trigger] row@[j] < best_value,
        decreases row@.len() - c,
    {
        if row[c] > best_value {
            best_value = row[c];
            best_index = c;
        }
        c += 1;
    }
    best_index
}

proof fn lemma_best_class_unique(row: Seq<i64>, i: int)
    requires
        is_best_class(row, i),
    ensures
        best_class(row) == i,
{
    let k = best_class(row);
    assert(is_best_class(row, k));
    if k < i {
        assert(row[k] < row[i]);
        assert(row[i] <= row[k]);
    }
    if i < k {
        assert(row[i] < row[k]);
        assert(row[k] <= row[i]);
    }
}

proof fn lemma_emitted_steps_bounds(path: Seq<int>, blank: int, n: int)
    requires
        0 <= n,
    ensures
        forall|k: int|
            0 <= k < emitted_steps(path, blank, n).len() ==> 0 <= #[trigger] emitted_steps(
                path,
                blank,
                n,
            )[k] < n,
        emitted_steps(path, blank, n).len() <= n,
    decreases n,
{
    if n > 0 {
        lemma_emitted_steps_bounds(path, blank, n - 1);
    }
}

/// The steps emitted among the first `m` are a prefix of those among the first `n`.
proof fn lemma_emitted_steps_grow(path: Seq<int>, blank: int, m: int, n: int)
    requires
        0 <= m <= n,
    ensures
        emitted_steps(path, blank, m).len() <= emitted_steps(path, blank, n).len(),
        emitted_steps(path, blank, m) == emitted_steps(path, blank, n).take(
            emitted_steps(path, blank, m).len() as int,
        ),
    decreases n - m,
{
    if m < n {
        lemma_emitted_steps_grow(path, blank, m, n - 1);
        let a = emitted_steps(path, blank, m);
        let b = emitted_steps(path, blank, n - 1);
        let c = emitted_steps(path, blank, n);
        assert(b.take(a.len() as int) == a);
        if is_emitted(path, blank, n - 1) {
            assert(c == b.push(n - 1));
            assert(c.take(a.len() as int) =~= b.take(a.len() as int));
        }
    } else {
        assert(emitted_steps(path, blank, n).take(emitted_steps(path, blank, n).len() as int)
            =~= emitted_steps(path, blank, n));
    }
}

/// The class emitted at step `t` is the first missing one of the path when
/// every class emitted before it has a dictionary entry.
proof fn lemma_first_missing_at(path: Seq<int>, blank: int, size: int, t: int)
    requires
        0 <= t < path.len(),
        is_emitted(path, blank, t),
        path[t] >= size,
        forall|k: int|
            0 <= k < emitted_steps(path, blank, t).len() ==> path[#[trigger] emitted_steps(
                path,
                blank,
                t,
            )[k]] < size,
    ensures
        has_missing(collapsed(path, blank), size),
        first_missing(collapsed(path, blank), size) == path[t],
{
    let n = path.len() as int;
    let before = emitted_steps(path, blank, t);
    let upto = emitted_steps(path, blank, t + 1);
    let all = emitted_steps(path, blank, n);
    assert(upto == before.push(t));
    lemma_emitted_steps_grow(path, blank, t + 1, n);
    let classes = collapsed(path, blank);
    let k = before.len() as int;
    assert(all[k] == upto[k]);
    assert(classes[k] == path[t]);
    assert(has_missing(classes, size));
    assert forall|j: int| 0 <= j < k implies classes[j] < size by {
        assert(all[j] == upto[j]);
        assert(upto[j] == before[j]);
    }
    let kk = choose|kk: int|
        0 <= kk < classes.len() && classes[kk] >= size && forall|j: int|
            0 <= j < kk ==> classes[j] < size;
    assert(kk == k) by {
        if kk < k {
            assert(classes[kk] < size);
        }
        if k < kk {
            assert(classes[k] < size);
        }
    }
}

/// Decodes the first `max_steps` rows of one sample; on a class without a
/// dictionary entry, gives that class instead.
fn decode_sample(
    rows: &Vec<Vec<i64>>,
    max_steps: usize,
    class_count: usize,
    blank: usize,
    dictionary: &RecDictionary,
) -> (res: Result<DecodedPath, usize>)
    requires
        max_steps <= rows@.len(),
        blank < class_count,
        forall|t: int| 0 <= t < max_steps ==> (#[trigger] rows@[t])@.len() == class_count,
    ensures
        ({
            let path = greedy_path(rows@.map_values(|row: Vec<i64>| row@), max_steps as int);
            let size = dictionary@.len() as int;
            if has_missing(collapsed(path, blank as int), size) {
                res == Err::<DecodedPath, usize>(first_missing(collapsed(path, blank as int), size) as usize)
            } else {
                res matches Ok(d) && decodes_path(&d, path, blank as int, dictionary@)
            }
        }),
{
    let ghost all_rows = rows@.map_values(|row: Vec<i64>| row@);
    let ghost path = greedy_path(all_rows, max_steps as int);
    let ghost size = dictionary@.len() as int;
    let dictionary_size = dictionary.len();
    let mut previous: Option<usize> = None;
    let mut text = String::new();
    let mut token_indices: Vec<usize> = Vec::new();
    let mut steps: Vec<usize> = Vec::new();
    let mut t: usize = 0;
    while t < max_steps
        invariant
            max_steps <= rows@.len(),
            blank < class_count,
            forall|u: int| 0 <= u < max_steps ==> (#[trigger] rows@[u])@.len() == class_count,
            all_rows == rows@.map_values(|row: Vec<i64>| row@),
            path == greedy_path(all_rows, max_steps as int),
            dictionary_size == size,
            size == dictionary@.len(),
            0 <= t <= max_steps,
            forall|u: int| 0 <= u < t ==> 0 <= #[trigger] path[u] < class_count,
            previous == (if t == 0 || path[t - 1] == blank {
                None::<usize>
            } else {
                Some(path[t - 1] as usize)
            }),
            steps@.map_values(|s: usize| s as int) == emitted_steps(path, blank as int, t as int),
            token_indices@.map_values(|s: usize| s as int) == emitted_steps(
                path,
                blank as int,
                t as int,
            ).map_values(|s: int| path[s]),
            forall|k: int| 0 <= k < token_indices@.len() ==> #[trigger] token_indices@[k] < size,
            text@ == concat_tokens(
                emitted_steps(path, blank as int, t as int).map_values(|s: int| path[s]),
                dictionary@,
            ),
        decreases max_steps - t,
    {
        let row = &rows[t];
        assert(row@ == all_rows[t as int]);
        let best = best_class_index(row);
        proof {
            lemma_best_class_unique(all_rows[t as int], best as int);
            assert(path[t as int] == best);
            lemma_emitted_steps_bounds(path, blank as int, t as int);
        }
        let ghost before = emitted_steps(path, blank as int, t as int);
        if best == blank {
            previous = None;
            t += 1;
            assert(!is_emitted(path, blank as int, t - 1));
            assert(emitted_steps(path, blank as int, t as int) == before);
            continue;
        }
        if previous == Some(best) {
            t += 1;
            assert(!is_emitted(path, blank as int, t - 1));
            assert(emitted_steps(path, blank as int, t as int) == before);
            continue;
        }
        assert(is_emitted(path, blank as int, t as int));
        assert(emitted_steps(path, blank as int, t + 1) == before.push(t as int));
        if best >= dictionary_size {
            proof {
                assert forall|k: int| 0 <= k < before.len() implies path[#[trigger] before[k]] < size by {
                    assert(token_indices@.map_values(|s: usize| s as int)[k] == path[before[k]]);
                    assert(token_indices@[k] < size);
                }
                lemma_first_missing_at(path, blank as int, size, t as int);
            }
            return Err(best);
        }
        let token = dictionary.token(best);
        match token {
            Some(s) => {
                text.append(s);
            },
            None => {},
        }
        let ghost old_tokens = token_indices@;
        token_indices.push(best);
        steps.push(t);
        previous = Some(best);
        t += 1;
        proof {
            let now = emitted_steps(path, blank as int, t as int);
            assert(now == before.push((t - 1) as int));
            assert(old_tokens.map_values(|s: usize| s as int) == before.map_values(|s: int| path[s]));
            let lhs = token_indices@.map_values(|s: usize| s as int);
            let rhs = now.map_values(|s: int| path[s]);
            assert forall|k: int| 0 <= k < now.len() implies #[trigger] lhs[k] == rhs[k] by {
                if k < before.len() {
                    assert(token_indices@[k] == old_tokens[k]);
                    assert(old_tokens.map_values(|s: usize| s as int)[k] == before.map_values(|s: int| path[s])[k]);
                }
            }
            assert(steps@.map_values(|s: usize| s as int) =~= now);
            assert(token_indices@.map_values(|s: usize| s as int) =~= now.map_values(
                |s: int| path[s],
            ));
            let classes = now.map_values(|s: int| path[s]);
            assert(classes.drop_last() =~= before.map_values(|s: int| path[s]));
        }
    }
    proof {
        let classes = collapsed(path, blank as int);
        assert(classes =~= token_indices@.map_values(|s: usize| s as int));
        assert(!has_missing(classes, size)) by {
            if has_missing(classes, size) {
                let k = choose|k: int| 0 <= k < classes.len() && classes[k] >= size;
                assert(token_indices@[k] < size);
            }
        }
    }
    Ok(DecodedPath { text, token_indices, time_steps: steps })
}

impl CtcGreedyDecoder {
    pub closed spec fn spec_blank_id(&self) -> usize {
        self.config.blank_id
    }

    pub fn new(config: CtcGreedyDecoderConfig) -> (d: Self)
        ensures
            d.spec_blank_id() == config.blank_id,
    {
        Self { config }
    }

    /// Greedy CTC decoding of every sample of a batch.
    ///
    /// Each sample reads its first `valid_timesteps[b]` steps (at most all of
    /// them), takes the first best class at each, merges repeats, drops the
    /// blank class and writes out the dictionary tokens of what is left.
    pub fn decode(
        &self,
        scores: &CtcScores,
        valid_timesteps: &[usize],
        dictionary: &RecDictionary,
    ) -> (res: Result<Vec<DecodedPath>, CtcGreedyDecoderError>)
        requires
            scores.wf(),
        ensures
            ({
                let blank = self.spec_blank_id();
                let n = scores.spec_batch_size();
                let size = dictionary@.len();
                if n == 0 {
                    res == Err::<Vec<DecodedPath>, CtcGreedyDecoderError>(
                        CtcGreedyDecoderError::EmptyBatch,
                    )
                } else if blank >= scores.spec_class_count() {
                    res == Err::<Vec<DecodedPath>, CtcGreedyDecoderError>(
                        CtcGreedyDecoderError::BlankIdOutOfRange {
                            blank_id: blank,
                            class_count: scores.spec_class_count() as usize,
                        },
                    )
                } else if valid_timesteps@.len() != n {
                    res == Err::<Vec<DecodedPath>, CtcGreedyDecoderError>(
                        CtcGreedyDecoderError::TimestepsLengthMismatch {
                            expected: n as usize,
                            actual: valid_timesteps@.len() as usize,
                        },
                    )
                } else if exists|b: int|
                    0 <= b < n && sample_fails(scores, valid_timesteps@, blank as int, size as int, b)
                {
                    let b = choose|b: int|
                        0 <= b < n && sample_fails(scores, valid_timesteps@, blank as int, size as int, b)
                            && forall|c: int|
                            0 <= c < b ==> !sample_fails(scores, valid_timesteps@, blank as int, size as int, c);
                    res == Err::<Vec<DecodedPath>, CtcGreedyDecoderError>(
                        CtcGreedyDecoderError::DictionaryIndexMissing {
                            index: first_missing(
                                collapsed(sample_path(scores, valid_timesteps@, b), blank as int),
                                size as int,
                            ) as usize,
                            dictionary_size: size as usize,
                        },
                    )
                } else {
                    res matches Ok(v) && v@.len() == n && forall|b: int|
                        0 <= b < n ==> decodes_path(
                            &#[trigger] v@[b],
                            sample_path(scores, valid_timesteps@, b),
                            blank as int,
                            dictionary@,
                        )
                }
            }),
    {
        let batch_size = scores.keys.len();
        let time_steps = scores.time_steps;
        let class_count = scores.class_count;
        let blank = self.config.blank_id;
        if batch_size == 0 {
            return Err(CtcGreedyDecoderError::EmptyBatch);
        }
        if blank >= class_count {
            return Err(CtcGreedyDecoderError::BlankIdOutOfRange { blank_id: blank, class_count });
        }
        if valid_timesteps.len() != batch_size {
            return Err(
                CtcGreedyDecoderError::TimestepsLengthMismatch {
                    expected: batch_size,
                    actual: valid_timesteps.len(),
                },
            );
        }
        let ghost size = dictionary@.len() as int;
        let dictionary_size = dictionary.len();
        let mut results: Vec<DecodedPath> = Vec::new();
        let mut b: usize = 0;
        while b < batch_size
            invariant
                scores.wf(),
                batch_size == scores.spec_batch_size(),
                time_steps == scores.spec_time_steps(),
                class_count == scores.spec_class_count(),
                blank == self.spec_blank_id(),
                blank < class_count,
                dictionary_size == size,
                size == dictionary@.len(),
                valid_timesteps@.len() == batch_size,
                0 <= b <= batch_size,
                results@.len() == b,
                forall|c: int|
                    0 <= c < b ==> !sample_fails(scores, valid_timesteps@, blank as int, size, c),
                forall|c: int|
                    0 <= c < b ==> decodes_path(
                        &#[trigger] results@[c],
                        sample_path(scores, valid_timesteps@, c),
                        blank as int,
                        dictionary@,
                    ),
            decreases batch_size - b,
        {
            proof {
                reveal(CtcScores::wf);
                reveal(CtcScores::rows);
            }
            let max_steps = if valid_timesteps[b] < time_steps {
                valid_timesteps[b]
            } else {
                time_steps
            };
            let sample = &scores.keys[b];
            assert(sample@.map_values(|row: Vec<i64>| row@) == scores.rows(b as int));
            match decode_sample(sample, max_steps, class_count, blank, dictionary) {
                Err(index) => {
                    proof {
                        assert(sample_fails(scores, valid_timesteps@, blank as int, size, b as int));
                        let c = choose|c: int|
                            0 <= c < batch_size && sample_fails(scores, valid_timesteps@, blank as int, size, c)
                                && forall|d: int|
                                0 <= d < c ==> !sample_fails(scores, valid_timesteps@, blank as int, size, d);
                        assert(c == b) by {
                            if c < b {
                                assert(!sample_fails(scores, valid_timesteps@, blank as int, size, c));
                            }
                            if b < c {
                                assert(!sample_fails(scores, valid_timesteps@, blank as int, size, b as int));
                            }
                        }
                    }
                    return Err(
                        CtcGreedyDecoderError::DictionaryIndexMissing { index, dictionary_size },
                    );
                },
                Ok(decoded) => {
                    results.push(decoded);
                },
            }
            b += 1;
        }
        Ok(results)
    }
}

/// Greedy decoding never emits the blank class, and emits at most one class
/// per step read.
pub proof fn law_collapse_drops_blank(path: Seq<int>, blank: int)
    ensures
        collapsed(path, blank).len() <= path.len(),
        forall|k: int|
            0 <= k < collapsed(path, blank).len() ==> #[trigger] collapsed(path, blank)[k] != blank,
{
    let n = path.len() as int;
    lemma_emitted_steps_bounds(path, blank, n);
    lemma_emitted_steps_emitted(path, blank, n);
}

/// Every step listed by `emitted_steps` is emitted.
proof fn lemma_emitted_steps_emitted(path: Seq<int>, blank: int, n: int)
    requires
        0 <= n,
    ensures
        forall|k: int|
            0 <= k < emitted_steps(path, blank, n).len() ==> is_emitted(
                path,
                blank,
                #[trigger] emitted_steps(path, blank, n)[k],
            ),
    decreases n,
{
    if n > 0 {
        lemma_emitted_steps_emitted(path, blank, n - 1);
        let p = emitted_steps(path, blank, n - 1);
        let e = emitted_steps(path, blank, n);
        assert forall|k: int| 0 <= k < e.len() implies is_emitted(path, blank, #[trigger] e[k]) by {
            if k < p.len() {
                assert(e[k] == p[k]);
            }
        }
    }
}

/// A path without blanks and without repeated neighbours decodes to itself.
pub proof fn law_collapse_keeps_clean_path(path: Seq<int>, blank: int)
    requires
        forall|t: int| 0 <= t < path.len() ==> #[trigger] path[t] != blank,
        forall|t: int| 0 < t < path.len() ==> path[t - 1] != #[trigger] path[t],
    ensures
        collapsed(path, blank) == path,
{
    lemma_all_emitted(path, blank, path.len() as int);
    assert(collapsed(path, blank) =~= path);
}

proof fn lemma_all_emitted(path: Seq<int>, blank: int, n: int)
    requires
        0 <= n <= path.len(),
        forall|t: int| 0 <= t < path.len() ==> #[trigger] path[t] != blank,
        forall|t: int| 0 < t < path.len() ==> path[t - 1] != #[trigger] path[t],
    ensures
        emitted_steps(path, blank, n).len() == n,
        forall|k: int| 0 <= k < n ==> #[trigger] emitted_steps(path, blank, n)[k] == k,
    decreases n,
{
    if n > 0 {
        lemma_all_emitted(path, blank, n - 1);
        assert(is_emitted(path, blank, n - 1));
    }
}

/// Merging repeats: a class read at consecutive steps is emitted once, so a
/// decoded sequence never holds the same class twice in a row unless a blank
/// was read between the two.
pub proof fn law_repeats_need_a_blank(path: Seq<int>, blank: int, k: int)
    requires
        0 < k < emitted_steps(path, blank, path.len() as int).len(),
        collapsed(path, blank)[k - 1] == collapsed(path, blank)[k],
    ensures
        exists|t: int|
            emitted_steps(path, blank, path.len() as int)[k - 1] < t < emitted_steps(
                path,
                blank,
                path.len() as int,
            )[k] && path[t] == blank,
{
    let n = path.len() as int;
    let e = emitted_steps(path, blank, n);
    lemma_emitted_steps_bounds(path, blank, n);
    lemma_emitted_steps_emitted(path, blank, n);
    lemma_emitted_steps_sorted(path, blank, n);
    lemma_no_emission_between(path, blank, n, k);
    let a = e[k - 1];
    let b = e[k];
    assert(path[a] == path[b]);
    // Between two consecutive emissions nothing is emitted; with no blank
    // between them the class could not have changed, so b would not be emitted.
    if forall|t: int| a < t < b ==> path[t] != blank {
        lemma_constant_run(path, blank, a, b, b - 1);
        assert(path[b - 1] == path[b]);
        assert(!is_emitted(path, blank, b));
    }
}

proof fn lemma_emitted_steps_sorted(path: Seq<int>, blank: int, n: int)
    requires
        0 <= n,
    ensures
        forall|i: int, j: int|
            0 <= i < j < emitted_steps(path, blank, n).len() ==> emitted_steps(path, blank, n)[i]
                < emitted_steps(path, blank, n)[j],
    decreases n,
{
    if n > 0 {
        lemma_emitted_steps_sorted(path, blank, n - 1);
        lemma_emitted_steps_bounds(path, blank, n - 1);
    }
}

/// No step strictly between the `k-1`-th and `k`-th emitted steps is emitted.
proof fn lemma_no_emission_between(path: Seq<int>, blank: int, n: int, k: int)
    requires
        0 <= n,
        0 < k < emitted_steps(path, blank, n).len(),
    ensures
        forall|t: int|
            emitted_steps(path, blank, n)[k - 1] < t < emitted_steps(path, blank, n)[k]
                ==> !is_emitted(path, blank, t),
    decreases n,
{
    lemma_emitted_steps_bounds(path, blank, n - 1);
    let e = emitted_steps(path, blank, n);
    let p = emitted_steps(path, blank, n - 1);
    if is_emitted(path, blank, n - 1) {
        if k < p.len() {
            lemma_no_emission_between(path, blank, n - 1, k);
        } else {
            assert forall|t: int| e[k - 1] < t < e[k] implies !is_emitted(path, blank, t) by {
                if is_emitted(path, blank, t) {
                    lemma_emitted_listed(path, blank, n - 1, t);
                    let i = choose|i: int| 0 <= i < p.len() && p[i] == t;
                    lemma_emitted_steps_sorted(path, blank, n - 1);
                    if i < k - 1 {
                        assert(p[i] < p[k - 1]);
                    }
                }
            }
        }
    } else {
        lemma_no_emission_between(path, blank, n - 1, k);
    }
}

/// Every emitted step below `n` is listed among the first `n`.
proof fn lemma_emitted_listed(path: Seq<int>, blank: int, n: int, t: int)
    requires
        0 <= t < n,
        is_emitted(path, blank, t),
    ensures
        exists|i: int|
            0 <= i < emitted_steps(path, blank, n).len() && emitted_steps(path, blank, n)[i] == t,
    decreases n,
{
    if t == n - 1 {
        let e = emitted_steps(path, blank, n);
        assert(e[e.len() - 1] == t);
    } else {
        lemma_emitted_listed(path, blank, n - 1, t);
        let i = choose|i: int|
            0 <= i < emitted_steps(path, blank, n - 1).len() && #[trigger] emitted_steps(path, blank, n - 1)[i]
                == t;
        assert(emitted_steps(path, blank, n)[i] == t);
    }
}

/// Along a stretch without blanks and without emissions the class stays the same.
proof fn lemma_constant_run(path: Seq<int>, blank: int, a: int, b: int, t: int)
    requires
        0 <= a <= t <= b < path.len(),
        forall|u: int| a < u < b ==> path[u] != blank,
        forall|u: int| a < u < b ==> !is_emitted(path, blank, u),
    ensures
        t < b ==> path[t] == path[a],
    decreases t - a,
{
    if a < t && t < b {
        lemma_constant_run(path, blank, a, b, t - 1);
        assert(!is_emitted(path, blank, t));
    }
}

} // verus!
