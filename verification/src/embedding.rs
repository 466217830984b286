//! Embedding texts: what is asked of the model, in which batches, and what its answers
//! amount to.
use crate::bits::{finite, is_finite, law_patterns};
use crate::text::{joined, text_of, trim, trimmed};
use vstd::prelude::*;
use vstd::string::StringExecFns;

verus! {

/// The instruction that queries are given in front; texts to be filed get none.
pub const QUERY_PREFIX: &'static str = "为这个句子生成表示以用于检索相关文章：";

/// The most texts that go into one batch.
pub const MAX_SEQS: u32 = 16;

/// What goes wrong with embedding.
#[derive(Debug)]
pub enum EmbedError {
    /// The model could not be loaded.
    Load(String),
    /// The model could not embed a text.
    Inference(String),
    /// A vector holds something that is no finite number.
    NonFinite,
    /// The embedding thread is gone.
    ChannelClosed,
}

/// An `EmbedError` with its texts as sequences of characters.
pub enum EmbedFault {
    Load(Seq<char>),
    Inference(Seq<char>),
    NonFinite,
    ChannelClosed,
}

impl View for EmbedError {
    type V = EmbedFault;

    open spec fn view(&self) -> EmbedFault {
        match *self {
            EmbedError::Load(m) => EmbedFault::Load(m@),
            EmbedError::Inference(m) => EmbedFault::Inference(m@),
            EmbedError::NonFinite => EmbedFault::NonFinite,
            EmbedError::ChannelClosed => EmbedFault::ChannelClosed,
        }
    }
}

impl EmbedFault {
    /// The text shown for the error.
    pub open spec fn message(self) -> Seq<char> {
        match self {
            EmbedFault::Load(m) => "模型加载失败: "@ + m,
            EmbedFault::Inference(m) => "推理失败: "@ + m,
            EmbedFault::NonFinite => "输出向量包含非有限数值（NaN/Inf）"@,
            EmbedFault::ChannelClosed => "请求通道已关闭（嵌入线程已退出）"@,
        }
    }
}

impl EmbedError {
    /// The text shown for the error.
    pub fn message(&self) -> (s: String)
        ensures
            s@ == self@.message(),
    {
        match self {
            EmbedError::Load(m) => joined("模型加载失败: ", m.as_str()),
            EmbedError::Inference(m) => joined("推理失败: ", m.as_str()),
            EmbedError::NonFinite => "输出向量包含非有限数值（NaN/Inf）".to_owned(),
            EmbedError::ChannelClosed => "请求通道已关闭（嵌入线程已退出）".to_owned(),
        }
    }
}

// ---------- the state of the model ----------

/// What the embedding thread says of its model.
#[derive(Debug)]
pub struct EmbedderInfo {
    /// Whether the model is loaded and can be asked.
    pub ready: bool,
    pub model_name: Option<String>,
    pub dim: Option<usize>,
    pub n_params: Option<u64>,
    pub n_threads: Option<i32>,
    pub n_ctx: Option<u32>,
    /// Why the model is not ready.
    pub error: Option<String>,
}

/// An `EmbedderInfo` with its texts as sequences of characters.
pub struct EmbedderState {
    pub ready: bool,
    pub model_name: Option<Seq<char>>,
    pub dim: Option<usize>,
    pub n_params: Option<u64>,
    pub n_threads: Option<i32>,
    pub n_ctx: Option<u32>,
    pub error: Option<Seq<char>>,
}

impl View for EmbedderInfo {
    type V = EmbedderState;

    open spec fn view(&self) -> EmbedderState {
        EmbedderState {
            ready: self.ready,
            model_name: text_of(self.model_name),
            dim: self.dim,
            n_params: self.n_params,
            n_threads: self.n_threads,
            n_ctx: self.n_ctx,
            error: text_of(self.error),
        }
    }
}

/// The state of a model that cannot be asked.
pub open spec fn unavailable_state(reason: Seq<char>) -> EmbedderState {
    EmbedderState {
        ready: false,
        model_name: None,
        dim: None,
        n_params: None,
        n_threads: None,
        n_ctx: None,
        error: Some(reason),
    }
}

/// How far loading the model came.
pub enum ModelStart {
    /// The backend did not start.
    NoBackend(String),
    /// The file could not be loaded.
    NoModel(String),
    /// The model could not be set up.
    NoContext(String),
    /// The model is loaded: its name, if it has one, the length of its vectors, the
    /// number of its parameters and its context length.
    Loaded(Option<String>, usize, u64, u32),
}

/// What is to be said of a model that was loaded from `model_path` for `n_threads`
/// threads.
pub open spec fn started(
    model_path: Seq<char>,
    n_threads: i32,
    start: ModelStart,
) -> EmbedderState {
    match start {
        ModelStart::NoBackend(m) => unavailable_state("llama backend 初始化失败: "@ + m@),
        ModelStart::NoModel(m) => unavailable_state("模型加载失败（"@ + model_path + "）: "@ + m@),
        ModelStart::NoContext(m) => unavailable_state("创建 context 失败: "@ + m@),
        ModelStart::Loaded(name, dim, n_params, n_ctx) => EmbedderState {
            ready: true,
            model_name: match name {
                Some(s) => Some(trim(s@)),
                None => None,
            },
            dim: Some(dim),
            n_params: Some(n_params),
            n_threads: Some(n_threads),
            n_ctx: Some(n_ctx),
            error: None,
        },
    }
}

/// A copy of an optional text.
fn text_copy(s: &Option<String>) -> (r: Option<String>)
    ensures
        text_of(r) == text_of(*s),
{
    match s {
        Some(t) => Some(t.clone()),
        None => None,
    }
}

impl Clone for EmbedderInfo {
    fn clone(&self) -> (r: Self)
        ensures
            r@ == self@,
    {
        Self {
            ready: self.ready,
            model_name: text_copy(&self.model_name),
            dim: self.dim,
            n_params: self.n_params,
            n_threads: self.n_threads,
            n_ctx: self.n_ctx,
            error: text_copy(&self.error),
        }
    }
}

impl EmbedderInfo {
    /// The state of a model that cannot be asked.
    pub fn unavailable(reason: String) -> (r: Self)
        ensures
            r@ == unavailable_state(reason@),
    {
        Self {
            ready: false,
            model_name: None,
            dim: None,
            n_params: None,
            n_threads: None,
            n_ctx: None,
            error: Some(reason),
        }
    }

    /// What is to be said of a model after loading it.
    pub fn started(model_path: &str, n_threads: i32, start: ModelStart) -> (r: Self)
        ensures
            r@ == started(model_path@, n_threads, start),
    {
        match start {
            ModelStart::NoBackend(m) => Self::unavailable(
                joined("llama backend 初始化失败: ", m.as_str()),
            ),
            ModelStart::NoModel(m) => {
                let mut text = joined("模型加载失败（", model_path);
                text.append("）: ");
                text.append(m.as_str());
                Self::unavailable(text)
            },
            ModelStart::NoContext(m) => Self::unavailable(
                joined("创建 context 失败: ", m.as_str()),
            ),
            ModelStart::Loaded(name, dim, n_params, n_ctx) => Self {
                ready: true,
                model_name: match name {
                    Some(s) => Some(trimmed(s.as_str())),
                    None => None,
                },
                dim: Some(dim),
                n_params: Some(n_params),
                n_threads: Some(n_threads),
                n_ctx: Some(n_ctx),
                error: None,
            },
        }
    }

    /// What is said of the model where the thread could not be asked: it never ran, or
    /// it is gone before it answered.
    pub fn unanswered(asked: bool) -> (r: Self)
        ensures
            r@ == unavailable_state(
                if asked {
                    "嵌入线程已退出"@
                } else {
                    "嵌入线程未运行"@
                },
            ),
    {
        if asked {
            Self::unavailable("嵌入线程已退出".to_owned())
        } else {
            Self::unavailable("嵌入线程未运行".to_owned())
        }
    }

    /// Whether texts can be embedded: the error that is answered where they cannot
    /// carries the reason why the model is not ready.
    pub fn check_ready(&self) -> (r: Result<(), EmbedError>)
        ensures
            match r {
                Ok(_) => self@.ready,
                Err(e) => !self@.ready && e@ == EmbedFault::Inference(
                    match self@.error {
                        Some(m) => m,
                        None => "模型不可用"@,
                    },
                ),
            },
    {
        if self.ready {
            Ok(())
        } else {
            match &self.error {
                Some(m) => Err(EmbedError::Inference(m.clone())),
                None => Err(EmbedError::Inference("模型不可用".to_owned())),
            }
        }
    }
}

/// A model that did not load answers every request with the reason.
pub proof fn law_degraded_model_says_why(model_path: Seq<char>, n_threads: i32, start: ModelStart)
    ensures
        started(model_path, n_threads, start).ready <==> start is Loaded,
        !started(model_path, n_threads, start).ready ==> started(
            model_path,
            n_threads,
            start,
        ).error is Some,
{
}

// ---------- texts and tokens ----------

/// The text as a query is embedded.
pub fn with_query_prefix(text: &str) -> (r: String)
    ensures
        r@ == QUERY_PREFIX@ + text@,
{
    joined(QUERY_PREFIX, text)
}

/// The first `max` tokens, or all of them where there are no more.
pub fn truncate_tokens<T>(tokens: Vec<T>, max: usize) -> (r: Vec<T>)
    ensures
        r@ == if tokens@.len() > max {
            tokens@.take(max as int)
        } else {
            tokens@
        },
{
    let mut tokens = tokens;
    if tokens.len() > max {
        tokens.truncate(max);
    }
    tokens
}

/// Whether the vector holds finite numbers only.
pub fn validate(v: &[u32]) -> (r: Result<(), EmbedError>)
    ensures
        match r {
            Ok(_) => all_finite(v@),
            Err(e) => !all_finite(v@) && e@ == EmbedFault::NonFinite,
        },
{
    let mut i: usize = 0;
    while i < v.len()
        invariant
            i <= v@.len(),
            forall|j: int| 0 <= j < i ==> is_finite(#[trigger] v@[j]),
        decreases v@.len() - i,
    {
        if !finite(v[i]) {
            return Err(EmbedError::NonFinite);
        }
        i += 1;
    }
    Ok(())
}

/// A vector of finite numbers.
pub open spec fn all_finite(v: Seq<u32>) -> bool {
    forall|i: int| 0 <= i < v.len() ==> is_finite(#[trigger] v[i])
}

// ---------- batches ----------

/// The room that a text of `n` tokens takes in a batch: an empty one takes 1.
pub open spec fn room(n: usize) -> int {
    if n == 0 {
        1
    } else {
        n as int
    }
}

/// The room that texts take together.
pub open spec fn total_room(counts: Seq<usize>) -> int
    decreases counts.len(),
{
    if counts.len() == 0 {
        0
    } else {
        total_room(counts.drop_last()) + room(counts.last())
    }
}

/// Where the first batch from text `start` on ends, if it holds the texts up to `end`
/// already: it goes on while the next text fits.
pub open spec fn batch_end(
    counts: Seq<usize>,
    max_tokens: usize,
    max_seqs: usize,
    start: int,
    end: int,
) -> int
    decreases counts.len() - end,
{
    if 0 <= start < end < counts.len() && end - start < max_seqs && total_room(
        counts.subrange(start, end + 1),
    ) <= max_tokens {
        batch_end(counts, max_tokens, max_seqs, start, end + 1)
    } else {
        end
    }
}

/// The batches of the texts from `start` on: each takes the next text in any case, and
/// then as many as fit, so that it holds at most `max_seqs` texts and, with more than
/// one text, takes at most `max_tokens` room.
pub open spec fn batches_from(
    counts: Seq<usize>,
    max_tokens: usize,
    max_seqs: usize,
    start: int,
) -> Seq<(int, int)>
    decreases counts.len() - start,
{
    if 0 <= start < counts.len() {
        let end = batch_end(counts, max_tokens, max_seqs, start, start + 1);
        if start < end <= counts.len() {
            seq![(start, end)] + batches_from(counts, max_tokens, max_seqs, end)
        } else {
            Seq::empty()
        }
    } else {
        Seq::empty()
    }
}

/// The texts of a batch by their places.
pub open spec fn places(span: (int, int)) -> Seq<usize> {
    Seq::new((span.1 - span.0) as nat, |i: int| (span.0 + i) as usize)
}

/// The batches, each as the places of its texts.
pub open spec fn packed(counts: Seq<usize>, max_tokens: usize, max_seqs: usize) -> Seq<Seq<usize>> {
    batches_from(counts, max_tokens, max_seqs, 0).map_values(|span: (int, int)| places(span))
}

proof fn lemma_batch_end(
    counts: Seq<usize>,
    max_tokens: usize,
    max_seqs: usize,
    start: int,
    end: int,
)
    requires
        0 <= start < end <= counts.len(),
    ensures
        end <= batch_end(counts, max_tokens, max_seqs, start, end) <= counts.len(),
    decreases counts.len() - end,
{
    if end < counts.len() && end - start < max_seqs && total_room(counts.subrange(start, end + 1))
        <= max_tokens {
        lemma_batch_end(counts, max_tokens, max_seqs, start, end + 1);
    }
}

/// The batches in which texts of these token counts are embedded, each as the places of
/// its texts.
pub fn pack_batches(token_counts: &[usize], max_tokens: usize, max_seqs: usize) -> (r: Vec<
    Vec<usize>,
>)
    ensures
        r@.map_values(|g: Vec<usize>| g@) == packed(token_counts@, max_tokens, max_seqs),
{
    let mut groups: Vec<Vec<usize>> = Vec::new();
    let mut current: Vec<usize> = Vec::new();
    let mut total: usize = 0;
    let mut i: usize = 0;
    let ghost counts = token_counts@;
    let ghost mut start: int = 0;
    let ghost mut done: Seq<(int, int)> = Seq::empty();
    let ghost list = |span: (int, int)| places(span);
    let ghost all = batches_from(counts, max_tokens, max_seqs, 0);
    proof {
        assert(done + all =~= all);
        assert(groups@.map_values(|g: Vec<usize>| g@) =~= done.map_values(list));
        assert(counts.subrange(0, 0) =~= Seq::empty());
    }
    while i < token_counts.len()
        invariant
            i <= counts.len(),
            counts == token_counts@,
            list == (|span: (int, int)| places(span)),
            0 <= start <= i,
            i > 0 ==> start < i,
            current@ == places((start, i as int)),
            total == total_room(counts.subrange(start, i as int)),
            groups@.map_values(|g: Vec<usize>| g@) == done.map_values(list),
            all == done + batches_from(counts, max_tokens, max_seqs, start),
            start < i ==> batch_end(counts, max_tokens, max_seqs, start, start + 1) == batch_end(
                counts,
                max_tokens,
                max_seqs,
                start,
                i as int,
            ),
        decreases counts.len() - i,
    {
        let n: usize = if token_counts[i] == 0 {
            1
        } else {
            token_counts[i]
        };
        proof {
            let now = counts.subrange(start, i as int + 1);
            assert(now.drop_last() =~= counts.subrange(start, i as int));
            assert(now.last() == counts[i as int]);
        }
        if current.len() != 0 && (n > max_tokens || total > max_tokens - n || current.len()
            >= max_seqs) {
            let ghost end = i as int;
            proof {
                assert(batch_end(counts, max_tokens, max_seqs, start, end) == end);
                assert(batches_from(counts, max_tokens, max_seqs, start) =~= seq![(start, end)]
                    + batches_from(counts, max_tokens, max_seqs, end));
            }
            let ghost before = groups@;
            let ghost spans = done;
            groups.push(current);
            current = Vec::new();
            total = 0;
            proof {
                done = done.push((start, end));
                assert(done =~= spans + seq![(start, end)]);
                assert(done + batches_from(counts, max_tokens, max_seqs, end) =~= all);
                assert(groups@.map_values(|g: Vec<usize>| g@) =~= done.map_values(list)) by {
                    assert(groups@.map_values(|g: Vec<usize>| g@) =~= before.map_values(
                        |g: Vec<usize>| g@,
                    ).push(places((start, end))));
                    assert(done.map_values(list) =~= spans.map_values(list).push(
                        places((start, end)),
                    ));
                }
                start = end;
                let now = counts.subrange(start, i as int + 1);
                assert(now.drop_last() =~= Seq::<usize>::empty());
                assert(now.last() == counts[i as int]);
                assert(total_room(now.drop_last()) == 0);
            }
        }
        current.push(i);
        total = total + n;
        i += 1;
        proof {
            assert(current@ =~= places((start, i as int)));
        }
    }
    if current.len() != 0 {
        let ghost end = i as int;
        let ghost before = groups@;
        groups.push(current);
        proof {
            assert(batch_end(counts, max_tokens, max_seqs, start, end) == end);
            assert(batches_from(counts, max_tokens, max_seqs, end) =~= Seq::empty());
            assert(batches_from(counts, max_tokens, max_seqs, start) =~= seq![(start, end)]);
            assert(all =~= done.push((start, end)));
            assert(groups@.map_values(|g: Vec<usize>| g@) =~= before.map_values(
                |g: Vec<usize>| g@,
            ).push(places((start, end))));
            assert(all.map_values(list) =~= done.map_values(list).push(places((start, end))));
        }
    } else {
        proof {
            assert(all =~= done);
        }
    }
    groups
}

proof fn lemma_batch_room(
    counts: Seq<usize>,
    max_tokens: usize,
    max_seqs: usize,
    start: int,
    end: int,
)
    requires
        0 <= start < end <= counts.len(),
        end - start > 1 ==> end - start <= max_seqs && total_room(counts.subrange(start, end))
            <= max_tokens,
    ensures
        ({
            let last = batch_end(counts, max_tokens, max_seqs, start, end);
            &&& last - start > 1 ==> last - start <= max_seqs && total_room(
                counts.subrange(start, last),
            ) <= max_tokens
            &&& last < counts.len() ==> last - start >= max_seqs || total_room(
                counts.subrange(start, last + 1),
            ) > max_tokens
        }),
    decreases counts.len() - end,
{
    if end < counts.len() && end - start < max_seqs && total_room(counts.subrange(start, end + 1))
        <= max_tokens {
        lemma_batch_room(counts, max_tokens, max_seqs, start, end + 1);
    }
}

proof fn lemma_batches(counts: Seq<usize>, max_tokens: usize, max_seqs: usize, start: int, i: int)
    requires
        0 <= start <= counts.len(),
        0 <= i < batches_from(counts, max_tokens, max_seqs, start).len(),
    ensures
        ({
            let spans = batches_from(counts, max_tokens, max_seqs, start);
            let (a, b) = spans[i];
            &&& 0 <= a < b <= counts.len()
            &&& a == if i == 0 {
                start
            } else {
                spans[i - 1].1
            }
            &&& b == if i + 1 < spans.len() {
                spans[i + 1].0
            } else {
                counts.len() as int
            }
            &&& b == batch_end(counts, max_tokens, max_seqs, a, a + 1)
        }),
    decreases counts.len() - start,
{
    let spans = batches_from(counts, max_tokens, max_seqs, start);
    if start < counts.len() {
        let end = batch_end(counts, max_tokens, max_seqs, start, start + 1);
        lemma_batch_end(counts, max_tokens, max_seqs, start, start + 1);
        let rest = batches_from(counts, max_tokens, max_seqs, end);
        assert(spans =~= seq![(start, end)] + rest);
        if i > 0 {
            lemma_batches(counts, max_tokens, max_seqs, end, i - 1);
        } else if rest.len() > 0 {
            lemma_batches(counts, max_tokens, max_seqs, end, 0);
        } else {
            if end < counts.len() {
                lemma_batch_end(counts, max_tokens, max_seqs, end, end + 1);
            }
        }
    }
}

/// The batches take the texts in order, without leaving one out or taking one twice:
/// the first starts with the first text, each goes on where the one before it ended,
/// and the last ends with the last text.
pub proof fn law_batches_in_order(counts: Seq<usize>, max_tokens: usize, max_seqs: usize, i: int)
    requires
        0 <= i < packed(counts, max_tokens, max_seqs).len(),
    ensures
        ({
            let spans = batches_from(counts, max_tokens, max_seqs, 0);
            let (a, b) = spans[i];
            &&& packed(counts, max_tokens, max_seqs)[i] == places((a, b))
            &&& 0 <= a < b <= counts.len()
            &&& a == if i == 0 {
                0
            } else {
                spans[i - 1].1
            }
            &&& b == if i + 1 < spans.len() {
                spans[i + 1].0
            } else {
                counts.len() as int
            }
        }),
{
    lemma_batches(counts, max_tokens, max_seqs, 0, i);
}

/// A batch keeps to both limits: it holds at most `max_seqs` texts, and takes at most
/// `max_tokens` room unless it is one text that takes more alone. A batch ends only
/// where the next text would exceed one of the limits.
pub proof fn law_batches_fit(counts: Seq<usize>, max_tokens: usize, max_seqs: usize, i: int)
    requires
        0 <= i < packed(counts, max_tokens, max_seqs).len(),
        max_seqs > 0,
    ensures
        ({
            let (a, b) = batches_from(counts, max_tokens, max_seqs, 0)[i];
            &&& b - a <= max_seqs
            &&& total_room(counts.subrange(a, b)) <= max_tokens || (b == a + 1 && room(
                counts[a],
            ) > max_tokens)
            &&& b < counts.len() ==> b - a == max_seqs || total_room(counts.subrange(a, b + 1))
                > max_tokens
        }),
{
    lemma_batches(counts, max_tokens, max_seqs, 0, i);
    let (a, b) = batches_from(counts, max_tokens, max_seqs, 0)[i];
    lemma_batch_room(counts, max_tokens, max_seqs, a, a + 1);
    if b == a + 1 {
        let one = counts.subrange(a, b);
        assert(one.drop_last() =~= Seq::<usize>::empty());
        assert(one.last() == counts[a]);
        assert(total_room(one.drop_last()) == 0);
    }
}

/// There are batches exactly where there are texts.
pub proof fn law_batches_exist(counts: Seq<usize>, max_tokens: usize, max_seqs: usize)
    ensures
        packed(counts, max_tokens, max_seqs).len() == 0 <==> counts.len() == 0,
{
    if counts.len() > 0 {
        lemma_batch_end(counts, max_tokens, max_seqs, 0, 1);
    }
}

/// The limits on batches: an empty text takes the room of one token, any other text that of its
/// tokens, and texts together take what each of them takes. At most 16 texts go into one batch.
pub proof fn law_room(n: usize, a: Seq<usize>, b: Seq<usize>)
    ensures
        n > 0 ==> total_room(seq![n]) == n,
        total_room(seq![0usize]) == 1,
        total_room(Seq::empty()) == 0,
        total_room(a + b) == total_room(a) + total_room(b),
        MAX_SEQS == 16,
    decreases b.len(),
{
    assert(seq![n].drop_last() =~= Seq::empty());
    assert(seq![0usize].drop_last() =~= Seq::empty());
    assert(total_room(seq![n].drop_last()) == 0);
    assert(total_room(seq![0usize].drop_last()) == 0);
    if b.len() == 0 {
        assert(a + b =~= a);
    } else {
        law_room(n, a, b.drop_last());
        assert((a + b).drop_last() =~= a + b.drop_last());
        assert((a + b).last() == b.last());
    }
}

/// The batches hold the places of the texts in ascending order, one after another without a gap:
/// the first place of a batch follows the last one of the batch before it.
pub proof fn law_batches_hold_each_text_once(
    counts: Seq<usize>,
    max_tokens: usize,
    max_seqs: usize,
    i: int,
    k: int,
)
    requires
        counts.len() <= usize::MAX,
        0 <= i < packed(counts, max_tokens, max_seqs).len(),
    ensures
        ({
            let groups = packed(counts, max_tokens, max_seqs);
            &&& groups[i].len() > 0
            &&& i == 0 ==> groups[i][0] == 0
            &&& 0 < k < groups[i].len() ==> groups[i][k] == groups[i][k - 1] + 1
            &&& i + 1 < groups.len() ==> groups[i + 1].len() > 0 && groups[i + 1][0]
                == groups[i].last() + 1
            &&& i + 1 == groups.len() ==> groups[i].last() + 1 == counts.len()
        }),
{
    law_batches_in_order(counts, max_tokens, max_seqs, i);
    if i + 1 < packed(counts, max_tokens, max_seqs).len() {
        law_batches_in_order(counts, max_tokens, max_seqs, i + 1);
    }
}

/// What is said of a model that was loaded is what was found out about it, with its name without
/// the white space around it.
pub proof fn law_loaded_model_described(
    model_path: Seq<char>,
    n_threads: i32,
    name: Option<String>,
    dim: usize,
    n_params: u64,
    n_ctx: u32,
)
    ensures
        ({
            let m = started(
                model_path,
                n_threads,
                ModelStart::Loaded(name, dim, n_params, n_ctx),
            );
            &&& m.ready
            &&& m.dim == Some(dim)
            &&& m.n_params == Some(n_params)
            &&& m.n_threads == Some(n_threads)
            &&& m.n_ctx == Some(n_ctx)
            &&& m.error is None
            &&& m.model_name is Some <==> name is Some
            &&& name is Some ==> m.model_name == Some(trim(name->0@))
        }),
{
}

/// The texts of the errors.
pub proof fn law_embed_error_texts(m: Seq<char>)
    ensures
        EmbedFault::Load(m).message() == "模型加载失败: "@ + m,
        EmbedFault::Inference(m).message() == "推理失败: "@ + m,
        EmbedFault::NonFinite.message() == "输出向量包含非有限数值（NaN/Inf）"@,
        EmbedFault::ChannelClosed.message() == "请求通道已关闭（嵌入线程已退出）"@,
{
}

/// A vector is finite where each of its coordinates is, the last as well as the first.
pub proof fn law_finite_vector(v: Seq<u32>)
    ensures
        all_finite(v) <==> forall|i: int|
            0 <= i < v.len() ==> (#[trigger] v[i]) < 0x7f80_0000 || 0x8000_0000 <= v[i]
                < 0xff80_0000,
{
    assert forall|b: u32| #[trigger] is_finite(b) == (b < 0x7f80_0000 || 0x8000_0000 <= b
        < 0xff80_0000) by {
        law_patterns(b);
    }
}

/// A model that did not load says what failed, with the path where its file could not be loaded.
pub proof fn law_failed_start_described(model_path: Seq<char>, n_threads: i32, m: String)
    ensures
        started(model_path, n_threads, ModelStart::NoBackend(m)).error == Some(
            "llama backend 初始化失败: "@ + m@,
        ),
        started(model_path, n_threads, ModelStart::NoModel(m)).error == Some(
            "模型加载失败（"@ + model_path + "）: "@ + m@,
        ),
        started(model_path, n_threads, ModelStart::NoContext(m)).error == Some(
            "创建 context 失败: "@ + m@,
        ),
{
}

/// What is said of a model, and the errors, are seen as they are.
pub proof fn law_model_seen(info: EmbedderInfo, m: String)
    ensures
        info@.ready == info.ready,
        info@.dim == info.dim && info@.n_params == info.n_params,
        info@.n_threads == info.n_threads && info@.n_ctx == info.n_ctx,
        info@.model_name is Some <==> info.model_name is Some,
        info.model_name is Some ==> info@.model_name->0 == info.model_name->0@,
        info@.error is Some <==> info.error is Some,
        info.error is Some ==> info@.error->0 == info.error->0@,
        EmbedError::Load(m)@ == EmbedFault::Load(m@),
        EmbedError::Inference(m)@ == EmbedFault::Inference(m@),
        EmbedError::NonFinite@ == EmbedFault::NonFinite,
        EmbedError::ChannelClosed@ == EmbedFault::ChannelClosed,
{
}

} // verus!
