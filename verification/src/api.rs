//! The requests to the service and the answers to them.
use crate::embedding::{EmbedError, EmbedderInfo};
use crate::error::{ServiceError, ServiceFault};
pub use crate::memory::{memory_info, parse_kb, MemoryInfo};
use crate::query_cache::{after_get, after_put, lookup, QueryCache};
use crate::search::{
    aggregate, found, is_answer, law_found_tags_exist, law_owned_hit_found, SearchHit,
};
use crate::store::{has_chunk, shows, IndexSnapshot, StoreError, StoreFault, StoreState};
use crate::store_laws::{contents, law_snapshot_complete, law_sound_store_consistent, sound};
use crate::tag::tag_text;
use crate::text::{blank, is_blank, is_white, law_blank_is_trimmed_away, text_of, trim};
use crate::vector_index::{
    all_answered, answer_size, askable, at_most, coords, has_size, may_answer, IndexState,
};
use crate::writer::{
    all_failed, chunked, embedding_of, file_all, flat, items_of, lemma_flat_empty, on_begin,
    request_texts, result_of, Reply, Request, Step, WriteStats, WriterState,
};
use crate::writer_laws::law_empty_item_refused;
use vstd::prelude::*;

verus! {

// ---------- requests and answers ----------

/// To file a text.
#[derive(Debug)]
pub struct UpsertRequest {
    pub text: String,
}

/// A text was filed.
#[derive(Debug, Clone, Copy)]
pub struct UpsertResponse {
    pub tag: u128,
    pub chunk_count: usize,
    pub truncated: bool,
}

/// To file several texts.
#[derive(Debug)]
pub struct BatchUpsertRequest {
    pub items: Vec<BatchItem>,
}

/// One of several texts.
#[derive(Debug)]
pub struct BatchItem {
    pub tag: u128,
    pub text: String,
}

/// What came of one of several texts.
#[derive(Debug)]
pub struct BatchItemResponse {
    pub tag: u128,
    pub chunk_count: usize,
    pub truncated: bool,
    /// Why the text was not filed.
    pub error: Option<String>,
}

/// What came of several texts, one answer for each, in their order.
#[derive(Debug)]
pub struct BatchResponse {
    pub results: Vec<BatchItemResponse>,
}

/// To search.
#[derive(Debug)]
pub struct SearchParams {
    /// The text to look for.
    pub q: String,
    /// How many tags are wanted.
    pub k: usize,
    /// The pattern of the least score that is wanted.
    pub min_score: Option<u32>,
}

/// The tags that were found.
#[derive(Debug)]
pub struct SearchResponse {
    pub results: Vec<SearchHit>,
}

/// That the service is there, and how much it holds.
#[derive(Debug)]
pub struct HealthResponse {
    pub status: &'static str,
    pub tags: usize,
    pub chunks: usize,
}

/// What there is to say of the service.
#[derive(Debug)]
pub struct InfoResponse {
    pub status: &'static str,
    /// What the embedding thread says of its model.
    pub model: EmbedderInfo,
    /// The memory of the process, where it is known.
    pub memory: Option<MemoryInfo>,
    pub tags: usize,
    pub chunks: usize,
}

// ---------- errors ----------

/// An error that a request is answered with.
#[derive(Debug)]
pub struct AppError(pub ServiceError);

impl From<ServiceError> for AppError {
    fn from(e: ServiceError) -> (r: Self) {
        AppError(e)
    }
}

impl vstd::std_specs::convert::FromSpecImpl<ServiceError> for AppError {
    open spec fn obeys_from_spec() -> bool {
        true
    }

    open spec fn from_spec(e: ServiceError) -> Self {
        AppError(e)
    }
}

impl From<EmbedError> for AppError {
    fn from(e: EmbedError) -> (r: Self) {
        AppError(ServiceError::Embed(e))
    }
}

impl vstd::std_specs::convert::FromSpecImpl<EmbedError> for AppError {
    open spec fn obeys_from_spec() -> bool {
        true
    }

    open spec fn from_spec(e: EmbedError) -> Self {
        AppError(ServiceError::Embed(e))
    }
}

/// The status of the answer to a request with this fault: 400 where the request is at
/// fault, 404 where the tag is not there, else 500.
pub open spec fn status_of(f: ServiceFault) -> u16 {
    match f {
        ServiceFault::BadRequest(_) => 400,
        ServiceFault::Store(StoreFault::TagNotFound(_)) => 404,
        _ => 500,
    }
}

/// The text of the answer to a request with this fault.
pub open spec fn answer_text(f: ServiceFault) -> Seq<char> {
    match f {
        ServiceFault::BadRequest(m) => m,
        ServiceFault::Store(StoreFault::TagNotFound(tag)) => StoreFault::TagNotFound(
            tag,
        ).message(),
        _ => f.message(),
    }
}

impl AppError {
    /// The request is at fault.
    pub fn bad_request(msg: &str) -> (r: Self)
        ensures
            r.0@ == ServiceFault::BadRequest(msg@),
    {
        AppError(ServiceError::BadRequest(msg.to_owned()))
    }

    /// The status and the text of the answer.
    pub fn response(&self) -> (r: (u16, String))
        ensures
            r.0 == status_of(self.0@),
            r.1@ == answer_text(self.0@),
    {
        match &self.0 {
            ServiceError::BadRequest(m) => (400, m.clone()),
            ServiceError::Store(e) => match e {
                StoreError::TagNotFound(_) => (404, e.message()),
                _ => (500, self.0.message()),
            },
            _ => (500, self.0.message()),
        }
    }
}

// ---------- filing ----------

/// Whether the text can be filed: a blank one is refused.
pub fn check_upsert(body: &UpsertRequest) -> (r: Result<(), AppError>)
    ensures
        match r {
            Ok(_) => !is_blank(body.text@),
            Err(e) => is_blank(body.text@) && e.0@ == ServiceFault::BadRequest("text 不能为空"@),
        },
        r is Ok <==> exists|i: int|
            0 <= i < body.text@.len() && !is_white(#[trigger] body.text@[i]),
{
    proof {
        law_only_white_space_refused(body.text@);
    }
    if blank(body.text.as_str()) {
        Err(AppError::bad_request("text 不能为空"))
    } else {
        Ok(())
    }
}

/// The answer to filing a text.
pub fn upsert_response(tag: u128, stats: WriteStats) -> (r: UpsertResponse)
    ensures
        r == (UpsertResponse {
            tag,
            chunk_count: stats.chunk_count,
            truncated: stats.truncated,
        }),
{
    UpsertResponse { tag, chunk_count: stats.chunk_count, truncated: stats.truncated }
}

/// The text that is filed: a blank one is as good as an empty one.
pub open spec fn item_text(text: Seq<char>) -> Seq<char> {
    if is_blank(text) {
        Seq::empty()
    } else {
        text
    }
}

/// The tags of a batch, and the texts that are filed under them.
pub open spec fn batch_of(items: Seq<BatchItem>) -> Seq<(u128, Seq<char>)> {
    items.map_values(|i: BatchItem| (i.tag, item_text(i.text@)))
}

/// The items that the writer is given: a blank text goes to it as an empty one, which it
/// refuses without touching the others. An empty batch is refused here.
pub fn batch_items(body: &BatchUpsertRequest) -> (r: Result<Vec<(u128, String)>, AppError>)
    ensures
        match r {
            Ok(items) => body.items@.len() > 0 && items_of(items@) == batch_of(body.items@),
            Err(e) => body.items@.len() == 0 && e.0@ == ServiceFault::BadRequest(
                "items 不能为空"@,
            ),
        },
        r is Ok ==> r->Ok_0@.len() == body.items@.len(),
        r is Ok ==> forall|i: int, j: int|
            0 <= i < body.items@.len() && 0 <= j < body.items@[i].text@.len() && !is_white(
                #[trigger] body.items@[i].text@[j],
            ) ==> r->Ok_0@[i].1@ == body.items@[i].text@,
{
    if body.items.len() == 0 {
        return Err(AppError::bad_request("items 不能为空"));
    }
    let mut items: Vec<(u128, String)> = Vec::new();
    let mut i: usize = 0;
    while i < body.items.len()
        invariant
            i <= body.items@.len(),
            items@.len() == i,
            forall|j: int|
                0 <= j < i ==> (#[trigger] items@[j]).0 == body.items@[j].tag && items@[j].1@
                    == item_text(body.items@[j].text@),
        decreases body.items@.len() - i,
    {
        let item = &body.items[i];
        let text = if blank(item.text.as_str()) {
            let none = String::new();
            assert(none@ =~= Seq::empty());
            none
        } else {
            item.text.clone()
        };
        items.push((item.tag, text));
        i += 1;
    }
    proof {
        assert(items_of(items@) =~= batch_of(body.items@));
        assert forall|i: int, j: int|
            0 <= i < body.items@.len() && 0 <= j < body.items@[i].text@.len() && !is_white(
                #[trigger] body.items@[i].text@[j],
            ) implies items@[i].1@ == body.items@[i].text@ by {
            law_full_text_filed(body.items@, i, j);
            assert(items_of(items@)[i].1 == items@[i].1@);
        }
    }
    Ok(items)
}

/// A text in a batch with a character that is no white space goes to the writer as it is,
/// character for character, under its own tag and at its own place.
pub proof fn law_full_text_filed(items: Seq<BatchItem>, i: int, j: int)
    requires
        0 <= i < items.len(),
        0 <= j < items[i].text@.len(),
        !is_white(items[i].text@[j]),
    ensures
        batch_of(items).len() == items.len(),
        batch_of(items)[i].0 == items[i].tag,
        batch_of(items)[i].1 == items[i].text@,
{
    law_blank_is_trimmed_away(items[i].text@);
}

/// A text is taken exactly where it has a character that is no white space, and a query is
/// looked for exactly then, wherever that character stands.
pub proof fn law_only_white_space_refused(text: Seq<char>)
    ensures
        is_blank(text) <==> trim(text).len() == 0,
        is_blank(text) <==> !(exists|i: int| 0 <= i < text.len() && !is_white(#[trigger] text[i])),
{
    law_blank_is_trimmed_away(text);
}

/// A blank text in a batch is not filed: the writer answers it with an error and leaves its
/// tag as it was, unless another item is filed under it. Where all the texts are blank the
/// writer answers at once, each with an error, and the store stays as it is.
pub proof fn law_blank_item_not_filed(
    w: WriterState,
    items: Seq<BatchItem>,
    rows: Seq<Seq<u32>>,
    cuts: Seq<bool>,
    i: nat,
)
    requires
        sound(w.store),
        i < items.len(),
        is_blank(items[i as int].text@),
        rows.len() == flat(
            chunked(request_texts(Request::BatchUpsert(batch_of(items))), w.max_chars, w.overlap),
        ).len(),
        w.store.next_id + rows.len() <= u64::MAX,
    ensures
        ({
            let batch = batch_of(items);
            let q = Request::BatchUpsert(batch);
            let groups = chunked(request_texts(q), w.max_chars, w.overlap);
            let (after, results) = file_all(w.store, batch, groups, rows, cuts, batch.len());
            let tag = items[i as int].tag;
            &&& results.len() == items.len()
            &&& results[i as int] is Err
            &&& (forall|k: int|
                0 <= k < items.len() && (#[trigger] items[k]).tag == tag ==> is_blank(
                    items[k].text@,
                )) ==> {
                &&& contents(after).contains_key(tag) == contents(w.store).contains_key(tag)
                &&& contents(after).contains_key(tag) ==> contents(after)[tag] == contents(
                    w.store,
                )[tag]
            }
            &&& (forall|k: int|
                0 <= k < items.len() ==> is_blank((#[trigger] items[k]).text@)) ==> {
                &&& on_begin(w, q).0.store == w.store
                &&& on_begin(w, q).1 == Step::Reply(
                    Reply::Batch(all_failed(ServiceFault::BadRequest("文本为空"@), items.len())),
                )
            }
        }),
{
    let batch = batch_of(items);
    let q = Request::BatchUpsert(batch);
    let texts = request_texts(q);
    let groups = chunked(texts, w.max_chars, w.overlap);
    let tag = items[i as int].tag;
    assert(batch[i as int].1.len() == 0);
    law_empty_item_refused(w.store, batch, w.max_chars, w.overlap, rows, cuts, i);
    if forall|k: int|
        0 <= k < items.len() && (#[trigger] items[k]).tag == tag ==> is_blank(items[k].text@) {
        assert forall|k: int|
            0 <= k < batch.len() && (#[trigger] batch[k]).0 == tag implies batch[k].1.len()
            == 0 by {
            assert(items[k].tag == tag);
        }
    }
    if forall|k: int| 0 <= k < items.len() ==> is_blank((#[trigger] items[k]).text@) {
        assert forall|k: int| 0 <= k < groups.len() implies (#[trigger] groups[k]).len() == 0 by {
            assert(is_blank(items[k].text@));
            assert(texts[k].len() == 0);
        }
        lemma_flat_empty(groups);
    }
}

/// `a` is the answer to a text of a batch.
pub open spec fn answers_item(
    a: BatchItemResponse,
    tag: u128,
    r: Result<WriteStats, ServiceFault>,
) -> bool {
    &&& a.tag == tag
    &&& match r {
        Ok(stats) => {
            &&& a.chunk_count == stats.chunk_count
            &&& a.truncated == stats.truncated
            &&& a.error is None
        },
        Err(f) => {
            &&& a.chunk_count == 0
            &&& !a.truncated
            &&& text_of(a.error) == Some(f.message())
        },
    }
}

/// The answer to filing several texts: for each tag what came of it, in their order.
pub fn batch_response(tags: &Vec<u128>, results: &Vec<Result<WriteStats, ServiceError>>) -> (r:
    BatchResponse)
    ensures
        r.results@.len() == at_most(tags@.len(), results@.len()),
        forall|i: int|
            0 <= i < r.results@.len() ==> answers_item(
                #[trigger] r.results@[i],
                tags@[i],
                result_of(results@[i]),
            ),
{
    let mut out: Vec<BatchItemResponse> = Vec::new();
    let mut i: usize = 0;
    while i < tags.len() && i < results.len()
        invariant
            i <= tags@.len(),
            i <= results@.len(),
            out@.len() == i,
            forall|j: int|
                0 <= j < i ==> answers_item(
                    #[trigger] out@[j],
                    tags@[j],
                    result_of(results@[j]),
                ),
        decreases tags@.len() - i,
    {
        let tag: u128 = tags[i];
        out.push(
            match &results[i] {
                Ok(s) => BatchItemResponse {
                    tag,
                    chunk_count: s.chunk_count,
                    truncated: s.truncated,
                    error: None,
                },
                Err(e) => BatchItemResponse {
                    tag,
                    chunk_count: 0,
                    truncated: false,
                    error: Some(e.message()),
                },
            },
        );
        i += 1;
    }
    BatchResponse { results: out }
}

// ---------- searching ----------

/// How many tags are wanted where nothing is said.
pub fn default_k() -> (k: usize)
    ensures
        k == 10,
{
    10
}

/// The number of tags that are answered at most: what is wanted, between 1 and 100.
pub open spec fn wanted(k: usize) -> nat {
    if k < 1 {
        1
    } else if k > 100 {
        100
    } else {
        k as nat
    }
}

/// The number of chunks that are looked up for so many tags: more than tags, since one
/// tag may have several of the best chunks.
pub open spec fn recalled(k: nat) -> nat {
    if 3 * k < 30 {
        30
    } else {
        3 * k
    }
}

/// What a query needs next.
#[derive(Debug)]
pub enum QueryStep {
    /// Its vector is remembered.
    Ready(Vec<u32>),
    /// It has to be embedded.
    Embed,
}

/// Looks for the vector of the query among those remembered. A blank query is refused.
pub fn begin_search(params: &SearchParams, cache: &mut QueryCache) -> (r: Result<
    QueryStep,
    AppError,
>)
    ensures
        final(cache).capacity() == old(cache).capacity(),
        if is_blank(params.q@) {
            &&& r is Err
            &&& r->Err_0.0@ == ServiceFault::BadRequest("q 不能为空"@)
            &&& final(cache).entries() == old(cache).entries()
        } else {
            &&& final(cache).entries() == after_get(old(cache).entries(), params.q@)
            &&& match (r, lookup(old(cache).entries(), params.q@)) {
                (Ok(QueryStep::Ready(v)), Some(w)) => v@ == w,
                (Ok(QueryStep::Embed), None) => true,
                _ => false,
            }
        },
{
    if blank(params.q.as_str()) {
        return Err(AppError::bad_request("q 不能为空"));
    }
    match cache.get(&params.q) {
        Some(v) => Ok(QueryStep::Ready(v)),
        None => Ok(QueryStep::Embed),
    }
}

/// Takes the vector of the query from what came of embedding it, and remembers it.
pub fn query_embedded(
    params: &SearchParams,
    embedded: Result<(Vec<Vec<u32>>, Vec<bool>), EmbedError>,
    cache: &mut QueryCache,
) -> (r: Result<Vec<u32>, AppError>)
    ensures
        final(cache).capacity() == old(cache).capacity(),
        match embedding_of(embedded) {
            Err(f) => {
                &&& r is Err
                &&& r->Err_0.0@ == ServiceFault::Embed(f)
                &&& final(cache).entries() == old(cache).entries()
            },
            Ok((rows, _)) => if rows.len() == 0 {
                &&& r is Err
                &&& r->Err_0.0@ == ServiceFault::Internal("嵌入结果为空"@)
                &&& final(cache).entries() == old(cache).entries()
            } else {
                &&& r is Ok
                &&& r->Ok_0@ == rows[0]
                &&& final(cache).entries() == after_put(
                    old(cache).entries(),
                    old(cache).capacity(),
                    params.q@,
                    rows[0],
                )
            },
        },
{
    match embedded {
        Err(e) => Err(AppError(ServiceError::Embed(e))),
        Ok((vectors, _)) => {
            if vectors.len() == 0 {
                return Err(AppError(ServiceError::Internal("嵌入结果为空".to_owned())));
            }
            let v = vectors[0].clone();
            let kept = v.clone();
            proof {
                assert(v@ =~= vectors@[0]@);
                assert(kept@ =~= v@);
            }
            cache.put(params.q.clone(), kept);
            Ok(v)
        },
    }
}

/// Whether the index can be asked for vectors near this one.
pub fn can_search(snap: &IndexSnapshot, query: &Vec<u32>) -> (r: bool)
    ensures
        r == askable(snap.index@, query@),
{
    let dim: usize = snap.index.dim();
    dim == 0 || (query.len() % dim == 0 && coords(query.as_slice()))
}

/// `hits` is what the index may give for a query for `k` tags: as many chunks as are looked
/// up, or all where it holds fewer, and none that it does not hold.
pub open spec fn may_find(x: IndexState, query: Seq<u32>, k: nat, hits: Seq<(u64, u32)>) -> bool {
    &&& may_answer(x, query, recalled(k) as usize, hits)
    &&& hits.len() == answer_size(x, query, recalled(k))
    &&& forall|i: int| 0 <= i < hits.len() ==> x.vectors.contains_key((#[trigger] hits[i]).0)
    &&& x.dim > 0 && query.len() == x.dim && x.vectors.dom().len() <= recalled(k) ==> all_answered(
        x,
        hits,
    )
}

/// The tags nearest to the query: the best of those whose chunks the index finds.
pub fn search(params: &SearchParams, query: &Vec<u32>, snap: &IndexSnapshot) -> (r: SearchResponse)
    requires
        askable(snap.index@, query@),
    ensures
        exists|hits: Seq<(u64, u32)>| #[trigger]
            may_find(snap.index@, query@, wanted(params.k), hits) && is_answer(
                hits,
                snap.chunk_owner@,
                wanted(params.k),
                params.min_score,
                r.results@,
            ),
        r.results@.len() <= 100,
        r.results@.len() <= params.k || params.k == 0 && r.results@.len() <= 1,
{
    let k: usize = if params.k < 1 {
        1
    } else if params.k > 100 {
        100
    } else {
        params.k
    };
    let chunks: usize = if k * 3 < 30 {
        30
    } else {
        k * 3
    };
    let hits = snap.index.search(query.as_slice(), chunks);
    let results = aggregate(hits.as_slice(), &snap.chunk_owner, k, params.min_score);
    proof {
        assert(recalled(wanted(params.k)) as usize == chunks);
        assert(may_find(snap.index@, query@, wanted(params.k), hits@));
    }
    SearchResponse { results }
}

// ---------- the state of the service ----------

/// The answer to the question whether the service is there.
pub fn health(snap: &IndexSnapshot) -> (r: HealthResponse)
    ensures
        r.status@ == "ok"@,
        r.tags == snap.tag_to_ids@.dom().len(),
        has_size(snap.index@.vectors.dom(), r.chunks as nat),
{
    HealthResponse { status: "ok", tags: snap.tag_count(), chunks: snap.chunk_count() }
}

/// The answer to the question what there is to say of the service.
pub fn info(model: EmbedderInfo, memory: Option<MemoryInfo>, snap: &IndexSnapshot) -> (r:
    InfoResponse)
    ensures
        r.status@ == "ok"@,
        r.model == model,
        r.memory == memory,
        r.tags == snap.tag_to_ids@.dom().len(),
        has_size(snap.index@.vectors.dom(), r.chunks as nat),
{
    InfoResponse {
        status: "ok",
        model,
        memory,
        tags: snap.tag_count(),
        chunks: snap.chunk_count(),
    }
}

/// Where readers are shown a store with a tag, a query without a least score is answered with
/// at least one tag.
pub proof fn law_store_answers(
    snap: IndexSnapshot,
    s: StoreState,
    query: Seq<u32>,
    hits: Seq<(u64, u32)>,
    k: nat,
    out: Seq<SearchHit>,
)
    requires
        sound(s),
        shows(snap, s),
        !s.tags.dom().is_empty(),
        s.index.dim > 0,
        query.len() == s.index.dim,
        k > 0,
        may_find(snap.index@, query, k, hits),
        is_answer(hits, snap.chunk_owner@, k, None, out),
    ensures
        out.len() > 0,
{
    let tag = s.tags.dom().choose();
    assert(s.tags.contains_key(tag));
    let id = s.tags[tag][0];
    assert(has_chunk(s.tags, tag, id));
    law_snapshot_complete(snap, s, tag, id);
    law_sound_store_consistent(s);
    let held = snap.index@.vectors.dom();
    assert(held.contains(id));
    if held.len() == 0 {
        held.lemma_len0_is_empty();
    }
    let rows = query.len() / (s.index.dim as nat);
    let most = at_most(recalled(k), held.len());
    assert(rows == 1) by {
        vstd::arithmetic::div_mod::lemma_div_by_self(query.len() as int);
    }
    assert(rows * most == most) by (nonlinear_arith)
        requires
            rows == 1,
    ;
    law_snapshot_complete(snap, s, tag, hits.last().0);
    assert(held.contains(hits.last().0));
    let owner = snap.chunk_owner@[hits.last().0];
    let tags = found(hits, snap.chunk_owner@, None);
    assert(tags.contains(owner));
    if tags.len() == 0 {
        tags.lemma_len0_is_empty();
    }
}

/// As many tags are answered as are wanted, where that is between 1 and 100; none wanted counts
/// as one, and more than a hundred as a hundred.
pub proof fn law_wanted_tags(k: usize)
    ensures
        1 <= k <= 100 ==> wanted(k) == k,
        k == 0 ==> wanted(k) == 1,
        k > 100 ==> wanted(k) == 100,
{
}

/// For `k` tags at least 30 chunks are looked up, and at least 3 for each tag, or all where
/// fewer are held: so one tag with many chunks near the query does not keep others out.
pub proof fn law_chunks_looked_up(
    x: IndexState,
    query: Seq<u32>,
    k: nat,
    hits: Seq<(u64, u32)>,
    id: u64,
)
    requires
        x.dim > 0,
        query.len() == x.dim,
        may_find(x, query, k, hits),
    ensures
        hits.len() >= 30 || hits.len() == x.vectors.dom().len(),
        hits.len() >= 3 * k || hits.len() == x.vectors.dom().len(),
        hits.len() <= x.vectors.dom().len(),
        x.vectors.contains_key(id) && (x.vectors.dom().len() <= 30 || x.vectors.dom().len() <= 3
            * k) ==> exists|i: int| 0 <= i < hits.len() && (#[trigger] hits[i]).0 == id,
{
    let rows = query.len() / (x.dim as nat);
    let most = at_most(recalled(k), x.vectors.dom().len());
    assert(rows == 1) by {
        vstd::arithmetic::div_mod::lemma_div_by_self(query.len() as int);
    }
    assert(rows * most == most) by (nonlinear_arith)
        requires
            rows == 1,
    ;
}

/// Where a store has at most 30 chunks, or at most 3 for each tag that is wanted, a query
/// without a least score is answered with all its tags, or with as many as are wanted, and each
/// comes once.
pub proof fn law_small_store_answered_whole(
    snap: IndexSnapshot,
    s: StoreState,
    query: Seq<u32>,
    hits: Seq<(u64, u32)>,
    k: nat,
    out: Seq<SearchHit>,
    tag: u128,
)
    requires
        sound(s),
        shows(snap, s),
        s.index.dim > 0,
        query.len() == s.index.dim,
        s.index.vectors.dom().len() <= 30 || s.index.vectors.dom().len() <= 3 * k,
        may_find(snap.index@, query, k, hits),
        is_answer(hits, snap.chunk_owner@, k, None, out),
    ensures
        out.len() == if s.tags.dom().len() <= k {
            s.tags.dom().len()
        } else {
            k
        },
        s.tags.dom().len() <= k && s.tags.contains_key(tag) ==> exists|i: int|
            0 <= i < out.len() && (#[trigger] out[i]).tag == tag,
        forall|i: int, j: int|
            0 <= i < j < out.len() ==> (#[trigger] out[i]).tag != (#[trigger] out[j]).tag,
        forall|i: int| 0 <= i < out.len() ==> s.tags.contains_key((#[trigger] out[i]).tag),
{
    let owner = snap.chunk_owner@;
    let tags = found(hits, owner, None);
    assert forall|t: u128| tags.contains(t) == s.tags.dom().contains(t) by {
        if s.tags.contains_key(t) {
            let id = s.tags[t][0];
            assert(has_chunk(s.tags, t, id));
            law_snapshot_complete(snap, s, t, id);
            law_chunks_looked_up(snap.index@, query, k, hits, id);
            let i = choose|i: int| 0 <= i < hits.len() && (#[trigger] hits[i]).0 == id;
            assert(has_chunk(s.tags, owner[id], id));
            law_owned_hit_found(hits, owner, i);
        }
        if tags.contains(t) {
            law_found_tags_exist(hits, s.tags, owner, None, t);
        }
    }
    assert(tags =~= s.tags.dom());
    assert forall|i: int| 0 <= i < out.len() implies s.tags.contains_key(
        (#[trigger] out[i]).tag,
    ) by {
        assert(tags.contains(out[i].tag));
    }
    if s.tags.dom().len() <= k && s.tags.contains_key(tag) {
        let given = out.map_values(|h: SearchHit| h.tag);
        assert(given.no_duplicates()) by {
            assert forall|i: int, j: int| 0 <= i < j < given.len() implies given[i] != given[j] by {
                assert(out[i].tag != out[j].tag);
            }
        }
        given.unique_seq_to_set();
        assert(given.to_set().subset_of(tags)) by {
            assert forall|t: u128| given.to_set().contains(t) implies tags.contains(t) by {
                let i = given.index_of(t);
                assert(given[i] == out[i].tag);
            }
        }
        vstd::set_lib::lemma_subset_equality(given.to_set(), tags);
        assert(given.contains(tag));
        let i = given.index_of(tag);
        assert(out[i].tag == tag);
    }
}

/// Every tag in an answer is a tag of the store that readers are shown.
pub proof fn law_answered_tags_exist(
    snap: IndexSnapshot,
    s: StoreState,
    hits: Seq<(u64, u32)>,
    k: nat,
    min_score: Option<u32>,
    out: Seq<SearchHit>,
    i: int,
)
    requires
        shows(snap, s),
        is_answer(hits, snap.chunk_owner@, k, min_score, out),
        0 <= i < out.len(),
    ensures
        s.tags.contains_key(out[i].tag),
{
    assert(found(hits, snap.chunk_owner@, min_score).contains(out[i].tag));
    law_found_tags_exist(hits, s.tags, snap.chunk_owner@, min_score, out[i].tag);
}

/// A tag that is not there is answered with 404 and its name, a request that is not as
/// it should be with 400, and everything else with 500.
pub proof fn law_statuses(f: ServiceFault)
    ensures
        status_of(f) == 400 <==> f is BadRequest,
        status_of(f) == 404 <==> f is Store && f->Store_0 is TagNotFound,
        status_of(f) == 400 || status_of(f) == 404 || status_of(f) == 500,
        status_of(f) == 404 ==> answer_text(f) == "tag 不存在: "@ + tag_text(
            f->Store_0->TagNotFound_0,
        ),
{
}

/// The answer to a text of a batch says what came of it: the number of its chunks and whether one
/// was cut, or the text of the error, and then no chunks.
pub proof fn law_batch_answer(
    a: BatchItemResponse,
    tag: u128,
    r: Result<WriteStats, ServiceFault>,
)
    requires
        answers_item(a, tag, r),
    ensures
        a.tag == tag,
        r is Ok ==> a.chunk_count == r->Ok_0.chunk_count && a.truncated == r->Ok_0.truncated
            && a.error is None,
        r is Err ==> a.chunk_count == 0 && !a.truncated && a.error is Some && a.error->0@
            == r->Err_0.message(),
{
}

/// What a request is answered with that is not as it should be is the complaint itself; other
/// errors are shown with their texts.
pub proof fn law_error_answers(m: Seq<char>, f: ServiceFault)
    ensures
        status_of(ServiceFault::BadRequest(m)) == 400,
        answer_text(ServiceFault::BadRequest(m)) == m,
        status_of(f) == 500 ==> answer_text(f) == f.message(),
{
}

} // verus!
