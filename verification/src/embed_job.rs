//! One request to the model: what it is asked to do, step by step, and what its answers
//! come to.
//!
//! The model works on one batch at a time: the batch is encoded, the vector of each of
//! its texts is read, and the model's cache is cleared. Whoever holds the model asks
//! for the next action, carries it out and reports what came of it.
use crate::bits::{is_finite, law_patterns};
use crate::embedding::{
    all_finite, batches_from, law_batches_exist, law_batches_fit, law_batches_in_order,
    pack_batches, packed, total_room, truncate_tokens, validate, with_query_prefix, EmbedError,
    EmbedFault, MAX_SEQS, QUERY_PREFIX,
};
use crate::text::texts_of;
use vstd::prelude::*;

verus! {

/// The texts as the model is given them: queries with the instruction in front.
pub open spec fn prepared(texts: Seq<Seq<char>>, is_query: bool) -> Seq<Seq<char>> {
    texts.map_values(
        |t: Seq<char>|
            if is_query {
                QUERY_PREFIX@ + t
            } else {
                t
            },
    )
}

/// The texts as the model is given them.
pub fn prepare_texts(texts: &[String], is_query: bool) -> (r: Vec<String>)
    ensures
        texts_of(r@) == prepared(texts_of(texts@), is_query),
{
    let mut r: Vec<String> = Vec::new();
    let mut i: usize = 0;
    while i < texts.len()
        invariant
            i <= texts@.len(),
            r@.len() == i,
            forall|j: int|
                0 <= j < i ==> (#[trigger] r@[j])@ == prepared(texts_of(texts@), is_query)[j],
        decreases texts@.len() - i,
    {
        r.push(
            if is_query {
                with_query_prefix(texts[i].as_str())
            } else {
                texts[i].clone()
            },
        );
        i += 1;
    }
    proof {
        assert(texts_of(r@) =~= prepared(texts_of(texts@), is_query));
    }
    r
}

/// One token of a batch, with its place in its text and the text's place in the batch.
#[derive(Debug, Clone, Copy)]
pub struct BatchEntry {
    pub token: i32,
    pub pos: i32,
    pub seq: i32,
}

/// What the model is to do next.
#[derive(Debug)]
pub enum EmbedAction {
    /// Encode a batch of so many texts.
    Encode(Vec<BatchEntry>, i32),
    /// Read the vector of this text of the batch and bring it to unit length.
    Read(i32),
    /// Clear the cache.
    Clear,
    /// Nothing any more.
    Finish,
}

/// An `EmbedAction` with the batch as a sequence.
pub enum JobAction {
    Encode(Seq<BatchEntry>, i32),
    Read(i32),
    Clear,
    Finish,
}

impl View for EmbedAction {
    type V = JobAction;

    open spec fn view(&self) -> JobAction {
        match *self {
            EmbedAction::Encode(entries, n) => JobAction::Encode(entries@, n),
            EmbedAction::Read(n) => JobAction::Read(n),
            EmbedAction::Clear => JobAction::Clear,
            EmbedAction::Finish => JobAction::Finish,
        }
    }
}

/// How far a request has come.
#[verifier::ext_equal]
pub struct JobState {
    /// The tokens of each text, cut to the length that the model takes.
    pub sets: Seq<Seq<i32>>,
    /// Which texts were cut.
    pub truncated: Seq<bool>,
    /// The batches, as the places of their texts.
    pub groups: Seq<Seq<usize>>,
    /// The number of batches that are done.
    pub at: nat,
    /// Whether the batch at hand is encoded.
    pub encoded: bool,
    /// The vectors of the batch at hand that have been read.
    pub pending: Seq<Seq<u32>>,
    /// The vectors of the batches that are done.
    pub results: Seq<Seq<u32>>,
}

/// The entries of the first `n` texts of a batch.
pub open spec fn entries(sets: Seq<Seq<i32>>, group: Seq<usize>, n: nat) -> Seq<BatchEntry>
    decreases n,
{
    if n == 0 {
        Seq::empty()
    } else {
        let s = n - 1;
        let tokens = sets[group[s] as int];
        entries(sets, group, s as nat) + Seq::new(
            tokens.len(),
            |p: int| (BatchEntry { token: tokens[p], pos: p as i32, seq: s as i32 }),
        )
    }
}

/// What the model is to do next.
pub open spec fn job_action(j: JobState) -> JobAction {
    if j.at >= j.groups.len() {
        JobAction::Finish
    } else {
        let group = j.groups[j.at as int];
        if !j.encoded {
            JobAction::Encode(entries(j.sets, group, group.len()), group.len() as i32)
        } else if j.pending.len() < group.len() {
            JobAction::Read(j.pending.len() as i32)
        } else {
            JobAction::Clear
        }
    }
}

/// What came of a call to the model, with its texts as sequences.
pub open spec fn outcome<T>(r: Result<T, String>) -> Result<T, Seq<char>> {
    match r {
        Ok(x) => Ok(x),
        Err(m) => Err(m@),
    }
}

/// After a batch was to be encoded.
pub open spec fn job_encoded(j: JobState, r: Result<(), Seq<char>>) -> Result<
    JobState,
    EmbedFault,
> {
    match r {
        Ok(_) => Ok(JobState { encoded: true, ..j }),
        Err(m) => Err(EmbedFault::Inference(m)),
    }
}

/// After a vector was to be read.
pub open spec fn job_read(j: JobState, r: Result<Seq<u32>, Seq<char>>) -> Result<
    JobState,
    EmbedFault,
> {
    match r {
        Ok(v) => Ok(JobState { pending: j.pending.push(v), ..j }),
        Err(m) => Err(EmbedFault::Inference(m)),
    }
}

/// No vector has a coordinate that is infinite or no number.
pub open spec fn finite_vectors(rows: Seq<Seq<u32>>) -> bool {
    forall|i: int| 0 <= i < rows.len() ==> all_finite(#[trigger] rows[i])
}

/// After the cache was cleared: the batch counts where all its vectors are finite.
pub open spec fn job_cleared(j: JobState) -> Result<JobState, EmbedFault> {
    if finite_vectors(j.pending) {
        Ok(
            JobState {
                at: j.at + 1,
                encoded: false,
                pending: Seq::empty(),
                results: j.results + j.pending,
                ..j
            },
        )
    } else {
        Err(EmbedFault::NonFinite)
    }
}

/// The first text that the model could not take apart, and its complaint.
pub open spec fn first_refusal(tokens: Seq<Result<Vec<i32>, String>>) -> Option<Seq<char>>
    decreases tokens.len(),
{
    if tokens.len() == 0 {
        None
    } else {
        match tokens[0] {
            Ok(_) => first_refusal(tokens.drop_first()),
            Err(m) => Some(m@),
        }
    }
}

/// The first `max` tokens of a text.
pub open spec fn cut(tokens: Seq<i32>, max: usize) -> Seq<i32> {
    if tokens.len() > max {
        tokens.take(max as int)
    } else {
        tokens
    }
}

/// The number of tokens of each text.
pub open spec fn token_counts(sets: Seq<Seq<i32>>) -> Seq<usize> {
    sets.map_values(|t: Seq<i32>| t.len() as usize)
}

/// A request whose texts have these tokens, for a model that takes `max_tokens` of one
/// text and `budget` in one batch.
pub open spec fn job_start(
    tokens: Seq<Result<Vec<i32>, String>>,
    max_tokens: usize,
    budget: usize,
) -> Result<JobState, EmbedFault> {
    match first_refusal(tokens) {
        Some(m) => Err(EmbedFault::Inference(m)),
        None => {
            let sets = Seq::new(tokens.len(), |i: int| cut(tokens[i]->Ok_0@, max_tokens));
            Ok(
                JobState {
                    sets,
                    truncated: Seq::new(
                        tokens.len(),
                        |i: int| tokens[i]->Ok_0@.len() > max_tokens,
                    ),
                    groups: packed(token_counts(sets), budget, MAX_SEQS as usize),
                    at: 0,
                    encoded: false,
                    pending: Seq::empty(),
                    results: Seq::empty(),
                },
            )
        },
    }
}

proof fn lemma_first_refusal(tokens: Seq<Result<Vec<i32>, String>>, n: int)
    requires
        0 <= n <= tokens.len(),
        forall|i: int| 0 <= i < n ==> (#[trigger] tokens[i]) is Ok,
        n < tokens.len() ==> tokens[n] is Err,
    ensures
        first_refusal(tokens) == if n < tokens.len() {
            Some(tokens[n]->Err_0@)
        } else {
            None
        },
    decreases n,
{
    if n > 0 {
        let rest = tokens.drop_first();
        assert(tokens[0] is Ok);
        assert forall|i: int| 0 <= i < n - 1 implies (#[trigger] rest[i]) is Ok by {
            assert(rest[i] == tokens[i + 1]);
        }
        lemma_first_refusal(rest, n - 1);
    }
}

/// A request to the model.
pub struct EmbedJob {
    sets: Vec<Vec<i32>>,
    truncated: Vec<bool>,
    groups: Vec<Vec<usize>>,
    at: usize,
    encoded: bool,
    pending: Vec<Vec<u32>>,
    results: Vec<Vec<u32>>,
}

impl View for EmbedJob {
    type V = JobState;

    closed spec fn view(&self) -> JobState {
        JobState {
            sets: self.sets@.map_values(|v: Vec<i32>| v@),
            truncated: self.truncated@,
            groups: self.groups@.map_values(|v: Vec<usize>| v@),
            at: self.at as nat,
            encoded: self.encoded,
            pending: self.pending@.map_values(|v: Vec<u32>| v@),
            results: self.results@.map_values(|v: Vec<u32>| v@),
        }
    }
}

impl EmbedJob {
    /// The places in the batches are places of texts, and the vectors of the batches that
    /// are done are finite.
    #[verifier::type_invariant]
    spec fn well_formed(self) -> bool {
        &&& self.at <= self.groups@.len()
        &&& finite_vectors(self@.results)
        &&& forall|g: int, i: int|
            0 <= g < self.groups@.len() && 0 <= i < self.groups@[g]@.len()
                ==> #[trigger] self.groups@[g]@[i] < self.sets@.len()
    }

    /// A request whose texts have these tokens, for a model that takes `max_tokens` of
    /// one text and `budget` in one batch.
    pub fn new(tokens: &Vec<Result<Vec<i32>, String>>, max_tokens: usize, budget: usize) -> (r:
        Result<Self, EmbedError>)
        ensures
            match (r, job_start(tokens@, max_tokens, budget)) {
                (Ok(j), Ok(s)) => j@ == s,
                (Err(e), Err(f)) => e@ == f,
                _ => false,
            },
    {
        let mut sets: Vec<Vec<i32>> = Vec::new();
        let mut truncated: Vec<bool> = Vec::new();
        let mut counts: Vec<usize> = Vec::new();
        let mut i: usize = 0;
        while i < tokens.len()
            invariant
                i <= tokens@.len(),
                sets@.len() == i,
                truncated@.len() == i,
                counts@.len() == i,
                forall|k: int| 0 <= k < i ==> (#[trigger] tokens@[k]) is Ok,
                forall|k: int|
                    0 <= k < i ==> (#[trigger] sets@[k])@ == cut(tokens@[k]->Ok_0@, max_tokens),
                forall|k: int|
                    0 <= k < i ==> #[trigger] truncated@[k] == (tokens@[k]->Ok_0@.len()
                        > max_tokens),
                forall|k: int| 0 <= k < i ==> #[trigger] counts@[k] == sets@[k]@.len(),
            decreases tokens@.len() - i,
        {
            match &tokens[i] {
                Ok(t) => {
                    let over = t.len() > max_tokens;
                    let copy = t.clone();
                    assert(copy@ =~= t@);
                    let kept = truncate_tokens(copy, max_tokens);
                    truncated.push(over);
                    counts.push(kept.len());
                    sets.push(kept);
                },
                Err(m) => {
                    proof {
                        lemma_first_refusal(tokens@, i as int);
                    }
                    return Err(EmbedError::Inference(m.clone()));
                },
            }
            i += 1;
        }
        let groups = pack_batches(counts.as_slice(), budget, MAX_SEQS as usize);
        let ghost s = job_start(tokens@, max_tokens, budget);
        let ghost all = groups@.map_values(|g: Vec<usize>| g@);
        proof {
            lemma_first_refusal(tokens@, i as int);
            let want = s->Ok_0;
            let have = sets@.map_values(|v: Vec<i32>| v@);
            assert(have =~= want.sets);
            assert(counts@ =~= token_counts(want.sets));
            assert(truncated@ =~= want.truncated);
            assert forall|g: int, k: int|
                0 <= g < groups@.len() && 0 <= k < groups@[g]@.len() implies #[trigger]
            groups@[g]@[k] < sets@.len() by {
                assert(all[g] == groups@[g]@);
                law_batches_in_order(counts@, budget, MAX_SEQS as usize, g);
            }
        }
        let job = Self {
            sets,
            truncated,
            groups,
            at: 0,
            encoded: false,
            pending: Vec::new(),
            results: Vec::new(),
        };
        assert(job@ =~= s->Ok_0);
        Ok(job)
    }

    /// What the model is to do next.
    pub fn action(&self) -> (a: EmbedAction)
        ensures
            a@ == job_action(self@),
    {
        proof {
            use_type_invariant(self);
        }
        if self.at >= self.groups.len() {
            return EmbedAction::Finish;
        }
        let group = &self.groups[self.at];
        assert(self@.groups[self.at as int] == group@);
        if !self.encoded {
            let mut all: Vec<BatchEntry> = Vec::new();
            let mut s: usize = 0;
            while s < group.len()
                invariant
                    s <= group@.len(),
                    self.at < self.groups@.len(),
                    group@ == self.groups@[self.at as int]@,
                    forall|g: int, i: int|
                        0 <= g < self.groups@.len() && 0 <= i < self.groups@[g]@.len()
                            ==> #[trigger] self.groups@[g]@[i] < self.sets@.len(),
                    all@ == entries(self@.sets, group@, s as nat),
                decreases group@.len() - s,
            {
                let place: usize = group[s];
                assert(self.groups@[self.at as int]@[s as int] < self.sets@.len());
                let tokens = &self.sets[place];
                let ghost before = all@;
                let ghost more = Seq::new(
                    tokens@.len(),
                    |p: int| (BatchEntry { token: tokens@[p], pos: p as i32, seq: s as i32 }),
                );
                let mut p: usize = 0;
                proof {
                    assert(before + more.take(0) =~= before);
                }
                while p < tokens.len()
                    invariant
                        p <= tokens@.len(),
                        all@ == before + more.take(p as int),
                        more == Seq::new(
                            tokens@.len(),
                            |p: int|
                                (BatchEntry { token: tokens@[p], pos: p as i32, seq: s as i32 }),
                        ),
                    decreases tokens@.len() - p,
                {
                    all.push(BatchEntry { token: tokens[p], pos: p as i32, seq: s as i32 });
                    proof {
                        assert(before + more.take(p as int + 1) =~= (before + more.take(
                            p as int,
                        )).push(more[p as int]));
                    }
                    p += 1;
                }
                proof {
                    assert(more.take(p as int) =~= more);
                    assert(self@.sets[place as int] == tokens@);
                    assert(entries(self@.sets, group@, s as nat + 1) =~= before + more);
                }
                s += 1;
            }
            EmbedAction::Encode(all, group.len() as i32)
        } else if self.pending.len() < group.len() {
            EmbedAction::Read(self.pending.len() as i32)
        } else {
            EmbedAction::Clear
        }
    }

    /// Reports what came of encoding the batch.
    pub fn encoded(self, r: Result<(), String>) -> (next: Result<Self, EmbedError>)
        requires
            job_action(self@) is Encode,
        ensures
            match (next, job_encoded(self@, outcome(r))) {
                (Ok(j), Ok(s)) => j@ == s,
                (Err(e), Err(f)) => e@ == f,
                _ => false,
            },
    {
        match r {
            Ok(_) => {
                let mut job = self;
                proof {
                    use_type_invariant(&job);
                }
                job.encoded = true;
                Ok(job)
            },
            Err(m) => Err(EmbedError::Inference(m)),
        }
    }

    /// Reports what came of reading the vector.
    pub fn read(self, r: Result<Vec<u32>, String>) -> (next: Result<Self, EmbedError>)
        requires
            job_action(self@) is Read,
        ensures
            match (
                next,
                job_read(
                    self@,
                    match r {
                        Ok(v) => Ok(v@),
                        Err(m) => Err(m@),
                    },
                ),
            ) {
                (Ok(j), Ok(s)) => j@ == s,
                (Err(e), Err(f)) => e@ == f,
                _ => false,
            },
    {
        match r {
            Ok(v) => {
                proof {
                    use_type_invariant(&self);
                }
                let Self { sets, truncated, groups, at, encoded, pending, results } = self;
                let mut pending = pending;
                let ghost before = pending@;
                pending.push(v);
                let job = Self { sets, truncated, groups, at, encoded, pending, results };
                proof {
                    assert(job@.pending =~= before.map_values(|v: Vec<u32>| v@).push(v@));
                }
                Ok(job)
            },
            Err(m) => Err(EmbedError::Inference(m)),
        }
    }

    /// Reports that the cache was cleared.
    pub fn cleared(self) -> (next: Result<Self, EmbedError>)
        requires
            job_action(self@) is Clear,
        ensures
            match (next, job_cleared(self@)) {
                (Ok(j), Ok(s)) => j@ == s,
                (Err(e), Err(f)) => e@ == f,
                _ => false,
            },
    {
        proof {
            use_type_invariant(&self);
        }
        let ghost s = self@;
        let Self { sets, truncated, groups, at, encoded, pending, results } = self;
        let mut results = results;
        let ghost before = results@;
        let mut i: usize = 0;
        assert(at < groups.len());
        while i < pending.len()
            invariant
                i <= pending@.len(),
                s == self@,
                s.pending == pending@.map_values(|v: Vec<u32>| v@),
                results@.len() == before.len() + i,
                forall|k: int|
                    0 <= k < results@.len() ==> (#[trigger] results@[k])@ == if k < before.len() {
                        before[k]@
                    } else {
                        pending@[k - before.len()]@
                    },
                forall|k: int| 0 <= k < i ==> all_finite(#[trigger] s.pending[k]),
            decreases pending@.len() - i,
        {
            assert(s.pending[i as int] == pending@[i as int]@);
            match validate(pending[i].as_slice()) {
                Ok(_) => {},
                Err(e) => return Err(e),
            }
            let copy = pending[i].clone();
            assert(copy@ =~= pending@[i as int]@);
            results.push(copy);
            i += 1;
        }
        proof {
            let done = results@.map_values(|v: Vec<u32>| v@);
            assert(done =~= s.results + s.pending);
            assert forall|k: int| 0 <= k < done.len() implies all_finite(#[trigger] done[k]) by {
                if k >= s.results.len() {
                    assert(done[k] == s.pending[k - s.results.len()]);
                } else {
                    assert(done[k] == s.results[k]);
                }
            }
        }
        let job = Self {
            sets,
            truncated,
            groups,
            at: at + 1,
            encoded: false,
            pending: Vec::new(),
            results,
        };
        proof {
            assert(job@.results =~= s.results + s.pending);
            assert(job@.pending =~= Seq::<Seq<u32>>::empty());
        }
        Ok(job)
    }

    /// The vectors of the texts, and which texts were cut.
    pub fn finish(self) -> (r: (Vec<Vec<u32>>, Vec<bool>))
        requires
            job_action(self@) is Finish,
        ensures
            r.0@.map_values(|v: Vec<u32>| v@) == self@.results,
            finite_vectors(r.0@.map_values(|v: Vec<u32>| v@)),
            r.1@ == self@.truncated,
    {
        proof {
            use_type_invariant(&self);
        }
        (self.results, self.truncated)
    }
}

/// The invariant of a request: its batches are those of its texts, and the vectors that
/// are there are those of the texts before the one that is read next. Those of the
/// batches that are done are finite.
pub open spec fn in_step(j: JobState, budget: usize) -> bool {
    let counts = token_counts(j.sets);
    let spans = batches_from(counts, budget, MAX_SEQS as usize, 0);
    &&& j.groups == packed(counts, budget, MAX_SEQS as usize)
    &&& j.truncated.len() == j.sets.len() <= usize::MAX
    &&& j.at <= j.groups.len()
    &&& finite_vectors(j.results)
    &&& j.results.len() == if j.at < j.groups.len() {
        spans[j.at as int].0
    } else {
        j.sets.len() as int
    }
    &&& j.pending.len() <= if j.at < j.groups.len() {
        j.groups[j.at as int].len()
    } else {
        0
    }
}

/// The vectors that are there are what the model gives for their texts.
pub open spec fn answers(j: JobState, model: spec_fn(Seq<i32>) -> Seq<u32>) -> bool {
    &&& forall|i: int| 0 <= i < j.results.len() ==> #[trigger] j.results[i] == model(j.sets[i])
    &&& forall|i: int|
        0 <= i < j.pending.len() ==> #[trigger] j.pending[i] == model(j.sets[j.results.len() + i])
}

/// A new request is in step.
pub proof fn law_job_starts(
    tokens: Seq<Result<Vec<i32>, String>>,
    max_tokens: usize,
    budget: usize,
    model: spec_fn(Seq<i32>) -> Seq<u32>,
)
    requires
        tokens.len() <= usize::MAX,
        job_start(tokens, max_tokens, budget) is Ok,
    ensures
        in_step(job_start(tokens, max_tokens, budget)->Ok_0, budget),
        answers(job_start(tokens, max_tokens, budget)->Ok_0, model),
{
    let j = job_start(tokens, max_tokens, budget)->Ok_0;
    let counts = token_counts(j.sets);
    law_batches_exist(counts, budget, MAX_SEQS as usize);
    if j.groups.len() > 0 {
        law_batches_in_order(counts, budget, MAX_SEQS as usize, 0);
    }
}

/// The vector that is read next belongs to the first text that has none yet.
pub proof fn law_job_reads_in_order(j: JobState, budget: usize)
    requires
        in_step(j, budget),
        job_action(j) is Read,
    ensures
        j.results.len() + j.pending.len() < j.sets.len(),
        j.groups[j.at as int][j.pending.len() as int] as int == j.results.len() + j.pending.len(),
{
    law_batches_in_order(token_counts(j.sets), budget, MAX_SEQS as usize, j.at as int);
}

/// A request stays in step, and where the model gives each text its own vector, the
/// vectors are those of their texts.
pub proof fn law_job_stays_in_step(
    j: JobState,
    budget: usize,
    model: spec_fn(Seq<i32>) -> Seq<u32>,
    encoded: Result<(), Seq<char>>,
    vector: Result<Seq<u32>, Seq<char>>,
)
    requires
        in_step(j, budget),
        answers(j, model),
        job_action(j) is Read && vector is Ok ==> vector->Ok_0 == model(
            j.sets[j.groups[j.at as int][j.pending.len() as int] as int],
        ),
    ensures
        job_action(j) is Encode && job_encoded(j, encoded) is Ok ==> {
            &&& in_step(job_encoded(j, encoded)->Ok_0, budget)
            &&& answers(job_encoded(j, encoded)->Ok_0, model)
        },
        job_action(j) is Read && job_read(j, vector) is Ok ==> {
            &&& in_step(job_read(j, vector)->Ok_0, budget)
            &&& answers(job_read(j, vector)->Ok_0, model)
        },
        job_action(j) is Clear && job_cleared(j) is Ok ==> {
            &&& in_step(job_cleared(j)->Ok_0, budget)
            &&& answers(job_cleared(j)->Ok_0, model)
        },
{
    let counts = token_counts(j.sets);
    let max = MAX_SEQS as usize;
    if j.at < j.groups.len() {
        law_batches_in_order(counts, budget, max, j.at as int);
        if j.at + 1 < j.groups.len() {
            law_batches_in_order(counts, budget, max, j.at as int + 1);
        }
    }
    if job_action(j) is Read && job_read(j, vector) is Ok {
        law_job_reads_in_order(j, budget);
    }
    if job_action(j) is Clear && job_cleared(j) is Ok {
        let next = job_cleared(j)->Ok_0;
        assert forall|i: int| 0 <= i < next.results.len() implies #[trigger] next.results[i]
            == model(next.sets[i]) by {
            if i >= j.results.len() {
                assert(next.results[i] == j.pending[i - j.results.len()]);
            }
        }
    }
}

/// When there is nothing more to do, each text has its vector, in the order of the
/// texts, and every vector is finite.
pub proof fn law_job_answers_every_text(
    j: JobState,
    budget: usize,
    model: spec_fn(Seq<i32>) -> Seq<u32>,
)
    requires
        in_step(j, budget),
        answers(j, model),
        job_action(j) is Finish,
    ensures
        j.results == j.sets.map_values(model),
        finite_vectors(j.results),
        j.truncated.len() == j.results.len(),
{
    assert(j.results =~= j.sets.map_values(model));
}

/// Queries are embedded with the instruction of the model in front of them, texts to be filed as
/// they are, each at its own place.
pub proof fn law_only_queries_instructed(texts: Seq<Seq<char>>, i: int)
    requires
        0 <= i < texts.len(),
    ensures
        prepared(texts, true).len() == texts.len(),
        prepared(texts, false).len() == texts.len(),
        prepared(texts, true)[i] == "为这个句子生成表示以用于检索相关文章："@ + texts[i],
        prepared(texts, false)[i] == texts[i],
{
}

/// Each text keeps its first `max_tokens` tokens, all of them where it has no more, and is noted
/// as cut exactly where it lost some. A text that could not be taken apart fails the request,
/// with the complaint about the first such text.
pub proof fn law_tokens_kept(
    tokens: Seq<Result<Vec<i32>, String>>,
    max_tokens: usize,
    budget: usize,
    i: int,
    p: int,
)
    requires
        0 <= i < tokens.len(),
    ensures
        job_start(tokens, max_tokens, budget) is Ok <==> (forall|k: int|
            0 <= k < tokens.len() ==> (#[trigger] tokens[k]) is Ok),
        tokens[i] is Err && (forall|k: int| 0 <= k < i ==> (#[trigger] tokens[k]) is Ok)
            ==> job_start(tokens, max_tokens, budget) == Err::<JobState, _>(
            EmbedFault::Inference(tokens[i]->Err_0@),
        ),
        job_start(tokens, max_tokens, budget) matches Ok(j) ==> {
            let t = tokens[i]->Ok_0@;
            &&& j.sets.len() == tokens.len()
            &&& j.truncated.len() == tokens.len()
            &&& j.sets[i].len() <= max_tokens
            &&& j.sets[i].len() == t.len() || j.sets[i].len() == max_tokens < t.len()
            &&& 0 <= p < j.sets[i].len() ==> j.sets[i][p] == t[p]
            &&& j.truncated[i] <==> t.len() > max_tokens
            &&& j.results.len() == 0
        },
{
    if forall|k: int| 0 <= k < tokens.len() ==> (#[trigger] tokens[k]) is Ok {
        lemma_first_refusal(tokens, tokens.len() as int);
    } else {
        let k = lemma_first_err(tokens, tokens.len() as int);
        lemma_first_refusal(tokens, k);
    }
    if tokens[i] is Err && (forall|k: int| 0 <= k < i ==> (#[trigger] tokens[k]) is Ok) {
        lemma_first_refusal(tokens, i);
    }
}

proof fn lemma_first_err(tokens: Seq<Result<Vec<i32>, String>>, n: int) -> (k: int)
    requires
        0 <= n <= tokens.len(),
        exists|i: int| 0 <= i < n && (#[trigger] tokens[i]) is Err,
    ensures
        0 <= k < n,
        tokens[k] is Err,
        forall|i: int| 0 <= i < k ==> (#[trigger] tokens[i]) is Ok,
    decreases n,
{
    if exists|i: int| 0 <= i < n - 1 && (#[trigger] tokens[i]) is Err {
        lemma_first_err(tokens, n - 1)
    } else {
        n - 1
    }
}

/// `e` is the token at place `pos` of the text at place `seq` of the batch.
spec fn is_token_of(e: BatchEntry, sets: Seq<Seq<i32>>, group: Seq<usize>, n: nat) -> bool {
    &&& 0 <= e.seq < n
    &&& 0 <= e.pos < sets[group[e.seq as int] as int].len()
    &&& e.token == sets[group[e.seq as int] as int][e.pos as int]
}

/// `a` stands before `b`: in an earlier text, or earlier in the same text.
spec fn before(a: BatchEntry, b: BatchEntry) -> bool {
    a.seq < b.seq || (a.seq == b.seq && a.pos < b.pos)
}

proof fn lemma_entries(sets: Seq<Seq<i32>>, group: Seq<usize>, n: nat)
    requires
        n <= group.len() <= i32::MAX,
        forall|k: int| 0 <= k < group.len() ==> sets[#[trigger] group[k] as int].len() <= i32::MAX,
    ensures
        forall|x: int|
            0 <= x < entries(sets, group, n).len() ==> is_token_of(
                #[trigger] entries(sets, group, n)[x],
                sets,
                group,
                n,
            ),
        forall|x: int, y: int|
            0 <= x < y < entries(sets, group, n).len() ==> before(
                #[trigger] entries(sets, group, n)[x],
                #[trigger] entries(sets, group, n)[y],
            ),
    decreases n,
{
    if n > 0 {
        let s = n - 1;
        lemma_entries(sets, group, s as nat);
        let most = entries(sets, group, s as nat);
        let tokens = sets[group[s] as int];
        let all = entries(sets, group, n);
        let own = Seq::new(
            tokens.len(),
            |p: int| (BatchEntry { token: tokens[p], pos: p as i32, seq: s as i32 }),
        );
        assert(all == most + own);
        assert forall|x: int| 0 <= x < all.len() implies is_token_of(
            #[trigger] all[x],
            sets,
            group,
            n,
        ) by {
            if x < most.len() {
                assert(all[x] == most[x]);
                assert(is_token_of(most[x], sets, group, s as nat));
            } else {
                assert(all[x] == own[x - most.len()]);
            }
        }
        assert forall|x: int, y: int| 0 <= x < y < all.len() implies before(
            #[trigger] all[x],
            #[trigger] all[y],
        ) by {
            if y < most.len() {
                assert(all[x] == most[x] && all[y] == most[y]);
            } else {
                assert(all[y] == own[y - most.len()]);
                if x < most.len() {
                    assert(all[x] == most[x]);
                    assert(is_token_of(most[x], sets, group, s as nat));
                } else {
                    assert(all[x] == own[x - most.len()]);
                }
            }
        }
    }
}

proof fn lemma_entry_of(sets: Seq<Seq<i32>>, group: Seq<usize>, n: nat, s: int, p: int) -> (x: int)
    requires
        n <= group.len() <= i32::MAX,
        forall|k: int| 0 <= k < group.len() ==> sets[#[trigger] group[k] as int].len() <= i32::MAX,
        0 <= s < n,
        0 <= p < sets[group[s] as int].len(),
    ensures
        0 <= x < entries(sets, group, n).len(),
        entries(sets, group, n)[x].seq == s,
        entries(sets, group, n)[x].pos == p,
    decreases n,
{
    let last = n - 1;
    let most = entries(sets, group, last as nat);
    let all = entries(sets, group, n);
    let tokens = sets[group[last] as int];
    assert(all.len() == most.len() + tokens.len());
    if s < last {
        let x = lemma_entry_of(sets, group, last as nat, s, p);
        assert(all[x] == most[x]);
        x
    } else {
        assert(sets[group[s] as int].len() <= i32::MAX);
        assert(all[most.len() + p].pos == p as i32);
        most.len() + p
    }
}

/// The batch that is encoded holds the tokens of its texts, each with its place in its text and
/// the place of the text in the batch: each entry is such a token, each token has an entry, and
/// they stand in the order of the texts and of the tokens, so that none comes twice.
pub proof fn law_batch_holds_the_tokens(j: JobState, x: int, y: int, s: int, p: int)
    requires
        job_action(j) is Encode,
        j.at < j.groups.len(),
        j.groups[j.at as int].len() <= i32::MAX,
        forall|k: int|
            0 <= k < j.groups[j.at as int].len() ==> j.sets[
            #[trigger] j.groups[j.at as int][k] as int].len() <= i32::MAX,
    ensures
        ({
            let es = job_action(j)->Encode_0;
            let group = j.groups[j.at as int];
            &&& job_action(j)->Encode_1 == group.len()
            &&& 0 <= x < es.len() ==> {
                &&& 0 <= es[x].seq < group.len()
                &&& 0 <= es[x].pos < j.sets[group[es[x].seq as int] as int].len()
                &&& es[x].token == j.sets[group[es[x].seq as int] as int][es[x].pos as int]
            }
            &&& 0 <= x < y < es.len() ==> es[x].seq < es[y].seq || (es[x].seq == es[y].seq
                && es[x].pos < es[y].pos)
            &&& 0 <= s < group.len() && 0 <= p < j.sets[group[s] as int].len() ==> exists|e: int|
                0 <= e < es.len() && (#[trigger] es[e]).seq == s && es[e].pos == p && es[e].token
                    == j.sets[group[s] as int][p]
        }),
{
    let group = j.groups[j.at as int];
    let es = job_action(j)->Encode_0;
    assert(es == entries(j.sets, group, group.len()));
    lemma_entries(j.sets, group, group.len());
    if 0 <= x < es.len() {
        assert(is_token_of(es[x], j.sets, group, group.len()));
    }
    if 0 <= x < y < es.len() {
        assert(before(es[x], es[y]));
    }
    if 0 <= s < group.len() && 0 <= p < j.sets[group[s] as int].len() {
        let e = lemma_entry_of(j.sets, group, group.len(), s, p);
        assert(is_token_of(es[e], j.sets, group, group.len()));
    }
}

/// For each batch the model is asked to encode it, then to read the vectors of its texts, one
/// after another, then to clear its cache, and for all batches in turn.
pub proof fn law_job_asks_in_turn(j: JobState)
    ensures
        job_action(j) is Finish <==> j.at >= j.groups.len(),
        j.at < j.groups.len() && !j.encoded ==> job_action(j) is Encode,
        j.at < j.groups.len() && j.encoded ==> {
            let group = j.groups[j.at as int];
            &&& j.pending.len() < group.len() <= i32::MAX ==> job_action(j) == JobAction::Read(
                j.pending.len() as i32,
            )
            &&& j.pending.len() >= group.len() ==> job_action(j) is Clear
        },
        job_encoded(j, Ok(())) matches Ok(next) && next.encoded && next.at == j.at && next.results
            == j.results && next.pending == j.pending && next.sets == j.sets && next.groups
            == j.groups && next.truncated == j.truncated,
{
}

/// A vector that was read stands behind those read before, and a batch that was read whole is
/// taken over, behind the batches before it, exactly where all its vectors are finite.
pub proof fn law_vectors_taken_over(j: JobState, v: Seq<u32>, m: Seq<char>, i: int, d: int)
    ensures
        job_read(j, Ok(v)) matches Ok(next) && next.pending == j.pending.push(v) && next.results
            == j.results && next.at == j.at && next.encoded == j.encoded && next.sets == j.sets
            && next.groups == j.groups && next.truncated == j.truncated,
        job_read(j, Err(m)) == Err::<JobState, _>(EmbedFault::Inference(m)),
        job_encoded(j, Err(m)) == Err::<JobState, _>(EmbedFault::Inference(m)),
        job_cleared(j) is Err ==> job_cleared(j) == Err::<JobState, _>(EmbedFault::NonFinite),
        0 <= i < j.pending.len() && 0 <= d < j.pending[i].len() && !(j.pending[i][d] < 0x7f80_0000
            || 0x8000_0000 <= j.pending[i][d] < 0xff80_0000) ==> job_cleared(j) is Err,
        (forall|k: int, c: int|
            0 <= k < j.pending.len() && 0 <= c < j.pending[k].len() ==> (#[trigger]
            j.pending[k][c]) < 0x7f80_0000 || 0x8000_0000 <= j.pending[k][c] < 0xff80_0000) ==> {
            &&& job_cleared(j) matches Ok(next)
            &&& next.results == j.results + j.pending
            &&& next.pending.len() == 0
            &&& next.at == j.at + 1
            &&& !next.encoded
            &&& next.sets == j.sets && next.groups == j.groups && next.truncated == j.truncated
        },
{
    assert forall|b: u32| #[trigger] is_finite(b) == (b < 0x7f80_0000 || 0x8000_0000 <= b
        < 0xff80_0000) by {
        law_patterns(b);
    }
    if 0 <= i < j.pending.len() && 0 <= d < j.pending[i].len() && !is_finite(j.pending[i][d]) {
        assert(!all_finite(j.pending[i]));
    }
    if forall|k: int, c: int|
        0 <= k < j.pending.len() && 0 <= c < j.pending[k].len() ==> (#[trigger] j.pending[k][c])
            < 0x7f80_0000 || 0x8000_0000 <= j.pending[k][c] < 0xff80_0000 {
        assert forall|k: int| 0 <= k < j.pending.len() implies all_finite(
            #[trigger] j.pending[k],
        ) by {
            assert forall|c: int| 0 <= c < j.pending[k].len() implies is_finite(
                #[trigger] j.pending[k][c],
            ) by {}
        }
    }
}

/// The batches of a new request keep to the budget by the tokens that its texts have kept, and to
/// 16 texts: more than the budget is taken only by a text that takes more alone.
pub proof fn law_job_batches_fit(
    tokens: Seq<Result<Vec<i32>, String>>,
    max_tokens: usize,
    budget: usize,
    g: int,
    i: int,
)
    requires
        tokens.len() <= usize::MAX,
        job_start(tokens, max_tokens, budget) is Ok,
        0 <= g < job_start(tokens, max_tokens, budget)->Ok_0.groups.len(),
    ensures
        ({
            let j = job_start(tokens, max_tokens, budget)->Ok_0;
            let group = j.groups[g];
            let counts = token_counts(j.sets);
            let taken = total_room(counts.subrange(group[0] as int, group[0] + group.len()));
            &&& counts.len() == tokens.len()
            &&& 0 <= i < counts.len() && j.sets[i].len() <= usize::MAX ==> counts[i]
                == j.sets[i].len()
            &&& 0 < group.len() <= 16
            &&& group[0] + group.len() <= tokens.len()
            &&& taken <= budget || group.len() == 1
        }),
{
    let j = job_start(tokens, max_tokens, budget)->Ok_0;
    let counts = token_counts(j.sets);
    law_batches_in_order(counts, budget, MAX_SEQS as usize, g);
    law_batches_fit(counts, budget, MAX_SEQS as usize, g);
}

/// Actions and outcomes are seen as they are.
pub proof fn law_actions_seen(all: Vec<BatchEntry>, n: i32, r: Result<(), String>)
    ensures
        EmbedAction::Encode(all, n)@ == JobAction::Encode(all@, n),
        EmbedAction::Read(n)@ == JobAction::Read(n),
        EmbedAction::Clear@ == JobAction::Clear,
        EmbedAction::Finish@ == JobAction::Finish,
        outcome(r) is Ok <==> r is Ok,
        r is Err ==> outcome(r) == Err::<(), _>(r->Err_0@),
{
}

} // verus!
