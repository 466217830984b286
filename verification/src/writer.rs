//! The writer: it alone changes the store, one request after another.
//!
//! A write goes through embedding, saving and publishing. These are carried out
//! elsewhere: the writer says what is to be done next and is told what came of it. What
//! readers are shown is published only after it has been saved, and a write is answered
//! only after it has been published.
use crate::chunker::{chunks, split, ChunkConfig};
use crate::config::Config;
use crate::embedding::{EmbedError, EmbedFault};
use crate::error::{ServiceError, ServiceFault};
use crate::store::{
    delete_outcome, lemma_next_id, rows_of, saved_as, shows, upsert_outcome, IndexSnapshot,
    SnapshotFiles, StoreError, StoreFault, StoreState, TagStore,
};
use crate::text::texts_of;
use vstd::pervasive::unreached;
use vstd::prelude::*;

verus! {

/// What goes wrong with reaching the writer.
#[derive(Debug, Clone, Copy, PartialEq, Eq, Structural)]
pub enum WriterError {
    /// The writer does not answer.
    Closed,
}

impl WriterError {
    /// The text shown for the error.
    pub open spec fn text(self) -> Seq<char> {
        match self {
            WriterError::Closed => "写者线程未响应（可能已退出）"@,
        }
    }

    /// The text shown for the error.
    pub fn message(&self) -> (s: String)
        ensures
            s@ == self.text(),
    {
        match self {
            WriterError::Closed => "写者线程未响应（可能已退出）".to_owned(),
        }
    }
}

/// What a write came to.
#[derive(Debug, Clone, Copy, PartialEq, Eq, Structural)]
pub struct WriteStats {
    /// The number of chunks that were filed.
    pub chunk_count: usize,
    /// Whether the model cut one of them.
    pub truncated: bool,
}

// ---------- requests, replies and steps ----------

/// A request to the writer.
#[derive(Debug)]
pub enum WriteCmd {
    /// File a text under a tag.
    Upsert(u128, String),
    /// File several texts.
    BatchUpsert(Vec<(u128, String)>),
    /// Delete a tag.
    Delete(u128),
}

/// A `WriteCmd` with its texts as sequences of characters.
pub enum Request {
    Upsert(u128, Seq<char>),
    BatchUpsert(Seq<(u128, Seq<char>)>),
    Delete(u128),
}

/// The items of a batch with their texts as sequences of characters.
pub open spec fn items_of(items: Seq<(u128, String)>) -> Seq<(u128, Seq<char>)> {
    items.map_values(|i: (u128, String)| (i.0, i.1@))
}

impl View for WriteCmd {
    type V = Request;

    open spec fn view(&self) -> Request {
        match *self {
            WriteCmd::Upsert(tag, text) => Request::Upsert(tag, text@),
            WriteCmd::BatchUpsert(items) => Request::BatchUpsert(items_of(items@)),
            WriteCmd::Delete(tag) => Request::Delete(tag),
        }
    }
}

/// A result with its error as a fault.
pub open spec fn result_of<T>(r: Result<T, ServiceError>) -> Result<T, ServiceFault> {
    match r {
        Ok(x) => Ok(x),
        Err(e) => Err(e@),
    }
}

/// The results of a batch with their errors as faults.
pub open spec fn results_of(r: Seq<Result<WriteStats, ServiceError>>) -> Seq<
    Result<WriteStats, ServiceFault>,
> {
    r.map_values(|x: Result<WriteStats, ServiceError>| result_of(x))
}

/// The answer to a request.
#[derive(Debug)]
pub enum WriteReply {
    /// To filing a text.
    One(Result<WriteStats, ServiceError>),
    /// To filing several texts, one for each.
    Batch(Vec<Result<WriteStats, ServiceError>>),
    /// To deleting a tag.
    Deleted(Result<(), ServiceError>),
}

/// A `WriteReply` with its errors as faults.
pub enum Reply {
    One(Result<WriteStats, ServiceFault>),
    Batch(Seq<Result<WriteStats, ServiceFault>>),
    Deleted(Result<(), ServiceFault>),
}

impl View for WriteReply {
    type V = Reply;

    open spec fn view(&self) -> Reply {
        match *self {
            WriteReply::One(r) => Reply::One(result_of(r)),
            WriteReply::Batch(r) => Reply::Batch(results_of(r@)),
            WriteReply::Deleted(r) => Reply::Deleted(result_of(r)),
        }
    }
}

/// What is to be done next.
pub enum WriterAction {
    /// Embed these texts.
    Embed(Vec<String>),
    /// Save these files.
    Save(SnapshotFiles),
    /// Show this to readers.
    Publish(IndexSnapshot),
    /// Answer the request.
    Reply(WriteReply),
}

/// What is to be done next: which texts are to be embedded, which store is to be saved
/// or shown, what is to be answered.
pub enum Step {
    Embed(Seq<Seq<char>>),
    Save(StoreState),
    Publish(StoreState),
    Reply(Reply),
}

/// The action carries the step out.
pub open spec fn carries_out(a: WriterAction, s: Step) -> bool {
    match (a, s) {
        (WriterAction::Embed(texts), Step::Embed(t)) => texts_of(texts@) == t,
        (WriterAction::Save(files), Step::Save(st)) => saved_as(st, files.tags@, files.index@),
        (WriterAction::Publish(snap), Step::Publish(st)) => shows(snap, st),
        (WriterAction::Reply(r), Step::Reply(p)) => r@ == p,
        _ => false,
    }
}

/// Where the writer stands in a request.
enum Phase {
    Idle,
    Embedding(WriteCmd, Vec<Vec<String>>),
    Saving(WriteReply),
    Publishing(WriteReply),
}

/// A `Phase` with its contents as values: the request and the chunks of each of its
/// texts, or the answer that is due.
pub enum Stage {
    Idle,
    Embedding(Request, Seq<Seq<Seq<char>>>),
    Saving(Reply),
    Publishing(Reply),
}

/// The writer's state.
pub struct WriterState {
    pub store: StoreState,
    pub max_chars: nat,
    pub overlap: nat,
    pub stage: Stage,
}

// ---------- what a write does ----------

/// The chunks of all texts behind each other.
pub open spec fn flat<T>(groups: Seq<Seq<T>>) -> Seq<T>
    decreases groups.len(),
{
    if groups.len() == 0 {
        Seq::empty()
    } else {
        flat(groups.drop_last()) + groups.last()
    }
}

/// The number of chunks of the first `i` texts.
pub open spec fn offset<T>(groups: Seq<Seq<T>>, i: nat) -> nat
    decreases i,
{
    if i == 0 {
        0
    } else {
        offset(groups, (i - 1) as nat) + groups[i - 1].len()
    }
}

/// What belongs to the chunks of text `i`, out of what belongs to all chunks.
pub open spec fn share<T, U>(groups: Seq<Seq<T>>, all: Seq<U>, i: nat) -> Seq<U> {
    all.subrange(offset(groups, i) as int, offset(groups, i + 1) as int)
}

/// The chunks of each text.
pub open spec fn chunked(texts: Seq<Seq<char>>, max: nat, overlap: nat) -> Seq<Seq<Seq<char>>> {
    texts.map_values(|t: Seq<char>| chunks(t, max, overlap))
}

/// Filing the vectors of one text.
pub open spec fn file_one(
    s: StoreState,
    tag: u128,
    rows: Seq<Seq<u32>>,
    cuts: Seq<bool>,
) -> (StoreState, Result<WriteStats, ServiceFault>) {
    if rows.len() == 0 {
        (s, Err(ServiceFault::BadRequest("文本为空或分块后无内容"@)))
    } else {
        let (after, r) = upsert_outcome(s, tag, rows);
        (
            after,
            match r {
                Ok(n) => Ok(
                    WriteStats { chunk_count: n as usize, truncated: cuts.contains(true) },
                ),
                Err(f) => Err(ServiceFault::Store(f)),
            },
        )
    }
}

/// Filing the vectors of the first `n` texts of a batch, one text after another.
pub open spec fn file_all(
    s: StoreState,
    items: Seq<(u128, Seq<char>)>,
    groups: Seq<Seq<Seq<char>>>,
    rows: Seq<Seq<u32>>,
    cuts: Seq<bool>,
    n: nat,
) -> (StoreState, Seq<Result<WriteStats, ServiceFault>>)
    decreases n,
{
    if n == 0 {
        (s, Seq::empty())
    } else {
        let i = (n - 1) as nat;
        let (before, done) = file_all(s, items, groups, rows, cuts, i);
        let (after, r) = file_one(
            before,
            items[i as int].0,
            share(groups, rows, i),
            share(groups, cuts, i),
        );
        (after, done.push(r))
    }
}

/// The same answer for each item of a batch.
pub open spec fn all_failed(f: ServiceFault, n: nat) -> Seq<Result<WriteStats, ServiceFault>> {
    Seq::new(n, |i: int| Err(ServiceFault::Internal(f.message())))
}

/// Some of the results is a success.
pub open spec fn any_done(results: Seq<Result<WriteStats, ServiceFault>>) -> bool {
    exists|i: int| 0 <= i < results.len() && (#[trigger] results[i]) is Ok
}

// ---------- the steps ----------

/// The texts of a request.
pub open spec fn request_texts(q: Request) -> Seq<Seq<char>> {
    match q {
        Request::Upsert(_, text) => seq![text],
        Request::BatchUpsert(items) => items.map_values(|i: (u128, Seq<char>)| i.1),
        Request::Delete(_) => Seq::empty(),
    }
}

/// The answer to a request whose texts could not be embedded.
pub open spec fn refused(q: Request, f: ServiceFault) -> Reply {
    match q {
        Request::Upsert(_, _) => Reply::One(Err(f)),
        Request::BatchUpsert(items) => Reply::Batch(all_failed(f, items.len())),
        Request::Delete(_) => Reply::Deleted(Err(f)),
    }
}

/// A request comes in: texts are cut into chunks and sent to be embedded, a tag is
/// deleted at once.
pub open spec fn on_begin(w: WriterState, q: Request) -> (WriterState, Step) {
    match q {
        Request::Delete(tag) => {
            let (after, r) = delete_outcome(w.store, tag);
            match r {
                Ok(_) => (
                    WriterState { store: after, stage: Stage::Saving(Reply::Deleted(Ok(()))), ..w },
                    Step::Save(after),
                ),
                Err(f) => (
                    WriterState { store: after, stage: Stage::Idle, ..w },
                    Step::Reply(Reply::Deleted(Err(ServiceFault::Store(f)))),
                ),
            }
        },
        _ => {
            let groups = chunked(request_texts(q), w.max_chars, w.overlap);
            if request_texts(q).len() == 0 {
                (WriterState { stage: Stage::Idle, ..w }, Step::Reply(Reply::Batch(Seq::empty())))
            } else if flat(groups).len() == 0 {
                (
                    WriterState { stage: Stage::Idle, ..w },
                    Step::Reply(refused(q, ServiceFault::BadRequest("文本为空"@))),
                )
            } else {
                (
                    WriterState { stage: Stage::Embedding(q, groups), ..w },
                    Step::Embed(flat(groups)),
                )
            }
        },
    }
}

/// The texts were to be embedded: their vectors, and which were cut, or the error. What
/// was filed is saved; where nothing was, the answer is due.
pub open spec fn on_embedded(
    w: WriterState,
    r: Result<(Seq<Seq<u32>>, Seq<bool>), EmbedFault>,
) -> (WriterState, Step) {
    match w.stage {
        Stage::Embedding(q, groups) => match r {
            Err(f) => (
                WriterState { stage: Stage::Idle, ..w },
                Step::Reply(refused(q, ServiceFault::Embed(f))),
            ),
            Ok((rows, cuts)) => {
                let (after, reply, done) = match q {
                    Request::Upsert(tag, _) => {
                        let (after, one) = file_one(
                            w.store,
                            tag,
                            share(groups, rows, 0),
                            share(groups, cuts, 0),
                        );
                        (after, Reply::One(one), one is Ok)
                    },
                    Request::BatchUpsert(items) => {
                        let (after, all) = file_all(
                            w.store,
                            items,
                            groups,
                            rows,
                            cuts,
                            items.len(),
                        );
                        (after, Reply::Batch(all), any_done(all))
                    },
                    Request::Delete(_) => arbitrary(),
                };
                if done {
                    (
                        WriterState { store: after, stage: Stage::Saving(reply), ..w },
                        Step::Save(after),
                    )
                } else {
                    (WriterState { store: after, stage: Stage::Idle, ..w }, Step::Reply(reply))
                }
            },
        },
        _ => arbitrary(),
    }
}

/// The answer where saving failed: nothing is answered with success.
pub open spec fn unsaved(reply: Reply, f: StoreFault) -> Reply {
    match reply {
        Reply::One(_) => Reply::One(Err(ServiceFault::Store(f))),
        Reply::Batch(results) => Reply::Batch(
            results.map_values(
                |r: Result<WriteStats, ServiceFault>|
                    match r {
                        Ok(_) => Err(ServiceFault::Internal(ServiceFault::Store(f).message())),
                        Err(g) => Err(g),
                    },
            ),
        ),
        Reply::Deleted(_) => Reply::Deleted(Err(ServiceFault::Store(f))),
    }
}

/// The files were to be saved: then what was saved is shown to readers.
pub open spec fn on_saved(w: WriterState, r: Result<(), StoreFault>) -> (WriterState, Step) {
    match w.stage {
        Stage::Saving(reply) => match r {
            Ok(_) => (
                WriterState { stage: Stage::Publishing(reply), ..w },
                Step::Publish(w.store),
            ),
            Err(f) => (
                WriterState { stage: Stage::Idle, ..w },
                Step::Reply(unsaved(reply, f)),
            ),
        },
        _ => arbitrary(),
    }
}

/// Readers are shown the store: the answer is due.
pub open spec fn on_published(w: WriterState) -> (WriterState, Step) {
    match w.stage {
        Stage::Publishing(reply) => (WriterState { stage: Stage::Idle, ..w }, Step::Reply(reply)),
        _ => arbitrary(),
    }
}

// ---------- carrying it out ----------

/// Chunks as sequences of characters.
pub open spec fn groups_of(groups: Seq<Vec<String>>) -> Seq<Seq<Seq<char>>> {
    groups.map_values(|g: Vec<String>| texts_of(g@))
}

pub(crate) proof fn lemma_flat_len<T>(groups: Seq<Seq<T>>)
    ensures
        flat(groups).len() == offset(groups, groups.len()),
    decreases groups.len(),
{
    if groups.len() > 0 {
        let most = groups.drop_last();
        lemma_flat_len(most);
        lemma_offset_prefix(groups, most.len());
    }
}

pub(crate) proof fn lemma_flat_empty<T>(groups: Seq<Seq<T>>)
    requires
        forall|k: int| 0 <= k < groups.len() ==> (#[trigger] groups[k]).len() == 0,
    ensures
        flat(groups).len() == 0,
    decreases groups.len(),
{
    if groups.len() > 0 {
        lemma_flat_empty(groups.drop_last());
    }
}

pub(crate) proof fn lemma_offset_prefix<T>(groups: Seq<Seq<T>>, i: nat)
    requires
        groups.len() > 0,
        i < groups.len(),
    ensures
        offset(groups.drop_last(), i) == offset(groups, i),
    decreases i,
{
    if i > 0 {
        lemma_offset_prefix(groups, (i - 1) as nat);
    }
}

pub(crate) proof fn lemma_offset_grows<T>(groups: Seq<Seq<T>>, i: nat, j: nat)
    requires
        i <= j,
    ensures
        offset(groups, i) <= offset(groups, j),
    decreases j,
{
    if i < j {
        lemma_offset_grows(groups, i, (j - 1) as nat);
    }
}

/// The chunks of each text.
fn chunk_all(texts: &Vec<String>, cfg: &ChunkConfig) -> (r: Vec<Vec<String>>)
    ensures
        groups_of(r@) == chunked(
            texts_of(texts@),
            cfg.max_chars as nat,
            cfg.overlap_chars as nat,
        ),
{
    let mut r: Vec<Vec<String>> = Vec::new();
    let mut i: usize = 0;
    let ghost want = chunked(texts_of(texts@), cfg.max_chars as nat, cfg.overlap_chars as nat);
    while i < texts.len()
        invariant
            i <= texts@.len(),
            want == chunked(
                texts_of(texts@),
                cfg.max_chars as nat,
                cfg.overlap_chars as nat,
            ),
            r@.len() == i,
            forall|j: int| 0 <= j < i ==> texts_of((#[trigger] r@[j])@) == want[j],
        decreases texts@.len() - i,
    {
        r.push(split(texts[i].as_str(), cfg));
        i += 1;
    }
    proof {
        assert(groups_of(r@) =~= want);
    }
    r
}

/// The chunks of all texts behind each other.
fn flatten(groups: &Vec<Vec<String>>) -> (r: Vec<String>)
    ensures
        texts_of(r@) == flat(groups_of(groups@)),
{
    let mut r: Vec<String> = Vec::new();
    let mut i: usize = 0;
    let ghost all = groups_of(groups@);
    proof {
        assert(texts_of(r@) =~= Seq::empty());
    }
    while i < groups.len()
        invariant
            i <= groups@.len(),
            all == groups_of(groups@),
            texts_of(r@) == flat(all.take(i as int)),
        decreases groups@.len() - i,
    {
        let ghost before = r@;
        let mut j: usize = 0;
        proof {
            assert(all[i as int].take(0) =~= Seq::empty());
            assert(flat(all.take(i as int)) + all[i as int].take(0) =~= flat(
                all.take(i as int),
            ));
        }
        while j < groups[i].len()
            invariant
                i < groups@.len(),
                all == groups_of(groups@),
                j <= groups@[i as int]@.len(),
                texts_of(r@) == flat(all.take(i as int)) + all[i as int].take(j as int),
            decreases groups@[i as int]@.len() - j,
        {
            let ghost sofar = r@;
            let text = groups[i][j].clone();
            r.push(text);
            proof {
                let g = all[i as int];
                assert(g.take(j as int + 1) =~= g.take(j as int).push(g[j as int]));
                assert(texts_of(r@) =~= texts_of(sofar).push(text@));
                assert(texts_of(r@) =~= flat(all.take(i as int)) + g.take(j as int + 1));
            }
            j += 1;
        }
        proof {
            let now = all.take(i as int + 1);
            assert(now.drop_last() =~= all.take(i as int));
            assert(now.last() == all[i as int]);
            assert(all[i as int].take(j as int) =~= all[i as int]);
        }
        i += 1;
    }
    proof {
        assert(all.take(i as int) =~= all);
    }
    r
}

/// The vectors from place `from` up to place `to`.
fn part(vectors: &Vec<Vec<u32>>, from: usize, to: usize) -> (r: Vec<Vec<u32>>)
    requires
        from <= to <= vectors@.len(),
    ensures
        rows_of(r@) == rows_of(vectors@).subrange(from as int, to as int),
{
    let mut r: Vec<Vec<u32>> = Vec::new();
    let mut i: usize = from;
    while i < to
        invariant
            from <= i <= to <= vectors@.len(),
            r@.len() == i - from,
            forall|j: int| 0 <= j < r@.len() ==> (#[trigger] r@[j])@ == vectors@[from + j]@,
        decreases to - i,
    {
        let copy = vectors[i].clone();
        assert(copy@ =~= vectors@[i as int]@);
        r.push(copy);
        i += 1;
    }
    proof {
        assert(rows_of(r@) =~= rows_of(vectors@).subrange(from as int, to as int));
    }
    r
}

/// Whether one of the flags from place `from` up to place `to` is set.
fn any_set(flags: &Vec<bool>, from: usize, to: usize) -> (r: bool)
    requires
        from <= to <= flags@.len(),
    ensures
        r == flags@.subrange(from as int, to as int).contains(true),
{
    let ghost range = flags@.subrange(from as int, to as int);
    let mut i: usize = from;
    while i < to
        invariant
            from <= i <= to <= flags@.len(),
            range == flags@.subrange(from as int, to as int),
            forall|j: int| 0 <= j < i - from ==> !#[trigger] range[j],
        decreases to - i,
    {
        if flags[i] {
            assert(range[i - from]);
            return true;
        }
        assert(!range[i - from]);
        i += 1;
    }
    false
}

/// The writer.
pub struct WriterTask {
    store: TagStore,
    chunking: ChunkConfig,
    phase: Phase,
}

impl WriterTask {
    spec fn stage(&self) -> Stage {
        match self.phase {
            Phase::Idle => Stage::Idle,
            Phase::Embedding(cmd, groups) => Stage::Embedding(cmd@, groups_of(groups@)),
            Phase::Saving(reply) => Stage::Saving(reply@),
            Phase::Publishing(reply) => Stage::Publishing(reply@),
        }
    }
}

impl View for WriterTask {
    type V = WriterState;

    closed spec fn view(&self) -> WriterState {
        WriterState {
            store: self.store@,
            max_chars: self.chunking.max_chars as nat,
            overlap: self.chunking.overlap_chars as nat,
            stage: self.stage(),
        }
    }
}

/// Files the vectors of one text.
fn file(
    store: &mut TagStore,
    tag: u128,
    chunks: &Vec<String>,
    rows: &Vec<Vec<u32>>,
    truncated: bool,
) -> (r: Result<WriteStats, ServiceError>)
    requires
        chunks@.len() == rows@.len(),
        old(store)@.next_id + rows@.len() <= u64::MAX,
    ensures
        forall|cuts: Seq<bool>|
            cuts.contains(true) == truncated ==> (final(store)@, result_of(r))
                == #[trigger] file_one(old(store)@, tag, rows_of(rows@), cuts),
        final(store)@.next_id <= old(store)@.next_id + rows@.len(),
{
    if rows.len() == 0 {
        return Err(ServiceError::BadRequest("文本为空或分块后无内容".to_owned()));
    }
    proof {
        lemma_next_id(store@, tag, rows_of(rows@));
    }
    match store.upsert(tag, chunks.as_slice(), rows.as_slice()) {
        Ok(n) => Ok(WriteStats { chunk_count: n, truncated }),
        Err(e) => Err(ServiceError::Store(e)),
    }
}

/// Files the vectors of the texts of a batch, one text after another, and says whether
/// one of them was filed.
fn file_batch(
    store: &mut TagStore,
    items: &Vec<(u128, String)>,
    groups: &Vec<Vec<String>>,
    rows: &Vec<Vec<u32>>,
    cuts: &Vec<bool>,
) -> (r: (Vec<Result<WriteStats, ServiceError>>, bool))
    requires
        groups@.len() == items@.len(),
        rows@.len() == flat(groups_of(groups@)).len(),
        cuts@.len() == rows@.len(),
        old(store)@.next_id + rows@.len() <= u64::MAX,
    ensures
        (final(store)@, results_of(r.0@)) == file_all(
            old(store)@,
            items_of(items@),
            groups_of(groups@),
            rows_of(rows@),
            cuts@,
            items@.len(),
        ),
        r.1 == any_done(results_of(r.0@)),
{
    let mut results: Vec<Result<WriteStats, ServiceError>> = Vec::new();
    let mut done = false;
    let mut at: usize = 0;
    let mut i: usize = 0;
    let ghost all = groups_of(groups@);
    let ghost first = store@;
    proof {
        lemma_flat_len(all);
        assert(results_of(results@) =~= Seq::empty());
    }
    while i < items.len()
        invariant
            i <= items@.len(),
            groups@.len() == items@.len(),
            all == groups_of(groups@),
            first == old(store)@,
            rows@.len() == offset(all, all.len()),
            cuts@.len() == rows@.len(),
            at == offset(all, i as nat),
            at <= rows@.len(),
            store@.next_id + (rows@.len() - at) <= u64::MAX,
            (store@, results_of(results@)) == file_all(
                first,
                items_of(items@),
                all,
                rows_of(rows@),
                cuts@,
                i as nat,
            ),
            done == any_done(results_of(results@)),
        decreases items@.len() - i,
    {
        let n: usize = groups[i].len();
        proof {
            assert(all[i as int].len() == n);
            assert(offset(all, i as nat + 1) == at + n);
            lemma_offset_grows(all, i as nat + 1, all.len());
            assert(at + n <= rows.len());
        }
        let own = part(rows, at, at + n);
        let truncated = any_set(cuts, at, at + n);
        let ghost before = store@;
        let ghost listed = results_of(results@);
        proof {
            assert(rows_of(own@).len() == n);
            assert(share(all, rows_of(rows@), i as nat) =~= rows_of(own@));
        }
        let r = file(store, items[i].0, &groups[i], &own, truncated);
        let ghost one = result_of(r);
        proof {
            let flags = share(all, cuts@, i as nat);
            assert((store@, one) == file_one(before, items@[i as int].0, rows_of(own@), flags));
        }
        if r.is_ok() {
            done = true;
        }
        results.push(r);
        proof {
            assert(results_of(results@) =~= listed.push(one));
            if any_done(listed) {
                let k = choose|k: int| 0 <= k < listed.len() && (#[trigger] listed[k]) is Ok;
                assert(listed.push(one)[k] is Ok);
            }
            if one is Ok {
                assert(listed.push(one)[listed.len() as int] is Ok);
            }
            if any_done(listed.push(one)) && !(one is Ok) {
                let k = choose|k: int|
                    0 <= k < listed.push(one).len() && (#[trigger] listed.push(one)[k]) is Ok;
                assert(listed[k] is Ok);
            }
        }
        at = at + n;
        i += 1;
    }
    (results, done)
}

/// The answer to a request whose texts could not be embedded.
fn refusal(cmd: &WriteCmd, e: ServiceError) -> (r: WriteReply)
    ensures
        r@ == refused(cmd@, e@),
{
    match cmd {
        WriteCmd::Upsert(_, _) => WriteReply::One(Err(e)),
        WriteCmd::BatchUpsert(items) => {
            let mut results: Vec<Result<WriteStats, ServiceError>> = Vec::new();
            let mut i: usize = 0;
            while i < items.len()
                invariant
                    i <= items@.len(),
                    results_of(results@) == all_failed(e@, i as nat),
                decreases items@.len() - i,
            {
                let ghost before = results_of(results@);
                results.push(Err(ServiceError::Internal(e.message())));
                proof {
                    assert(results_of(results@) =~= before.push(
                        Err(ServiceFault::Internal(e@.message())),
                    ));
                    assert(results_of(results@) =~= all_failed(e@, i as nat + 1));
                }
                i += 1;
            }
            WriteReply::Batch(results)
        },
        WriteCmd::Delete(_) => WriteReply::Deleted(Err(e)),
    }
}

/// The answer where saving failed.
fn unsaved_reply(reply: WriteReply, e: StoreError) -> (r: WriteReply)
    ensures
        r@ == unsaved(reply@, e@),
{
    match reply {
        WriteReply::One(_) => WriteReply::One(Err(ServiceError::Store(e))),
        WriteReply::Batch(results) => {
            let ghost before = results_of(results@);
            let ghost want = unsaved(reply@, e@)->Batch_0;
            let e = ServiceError::Store(e);
            let mut out = results;
            let mut i: usize = 0;
            while i < out.len()
                invariant
                    i <= out@.len(),
                    out@.len() == want.len() == before.len(),
                    want == unsaved(Reply::Batch(before), e@->Store_0)->Batch_0,
                    e@ is Store,
                    forall|j: int| 0 <= j < i ==> result_of(#[trigger] out@[j]) == want[j],
                    forall|j: int|
                        i <= j < out@.len() ==> result_of(#[trigger] out@[j]) == before[j],
                decreases out@.len() - i,
            {
                let filed = out[i].is_ok();
                if filed {
                    out.set(i, Err(ServiceError::Internal(e.message())));
                }
                i += 1;
            }
            proof {
                assert(results_of(out@) =~= want);
            }
            WriteReply::Batch(out)
        },
        WriteReply::Deleted(_) => WriteReply::Deleted(Err(ServiceError::Store(e))),
    }
}

/// What came of embedding, with its contents as values.
pub open spec fn embedding_of(r: Result<(Vec<Vec<u32>>, Vec<bool>), EmbedError>) -> Result<
    (Seq<Seq<u32>>, Seq<bool>),
    EmbedFault,
> {
    match r {
        Ok(p) => Ok((rows_of(p.0@), p.1@)),
        Err(e) => Err(e@),
    }
}

/// What came of saving, with its error as a fault.
pub open spec fn saving_of(r: Result<(), StoreError>) -> Result<(), StoreFault> {
    match r {
        Ok(_) => Ok(()),
        Err(e) => Err(e@),
    }
}

/// What came of embedding fits the request: there is a vector and a flag for each chunk,
/// and there are chunk ids for them.
pub open spec fn fits_request(
    w: WriterState,
    r: Result<(Seq<Seq<u32>>, Seq<bool>), EmbedFault>,
) -> bool {
    match (w.stage, r) {
        (Stage::Embedding(_, groups), Ok((rows, cuts))) => {
            &&& rows.len() == flat(groups).len()
            &&& cuts.len() == rows.len()
            &&& w.store.next_id + rows.len() <= u64::MAX
        },
        _ => true,
    }
}

impl WriterTask {
    /// A request in the stage of embedding has chunks for each of its texts.
    #[verifier::type_invariant]
    spec fn chunks_match(self) -> bool {
        match self.phase {
            Phase::Embedding(cmd, groups) => match cmd {
                WriteCmd::Upsert(_, _) => groups@.len() == 1,
                WriteCmd::BatchUpsert(items) => groups@.len() == items@.len(),
                WriteCmd::Delete(_) => false,
            },
            _ => true,
        }
    }

    /// A writer for the store that waits for a request.
    pub fn new(store: TagStore, config: &Config) -> (r: Self)
        ensures
            r@ == (WriterState {
                store: store@,
                max_chars: config.max_chunk_chars as nat,
                overlap: config.overlap_chars as nat,
                stage: Stage::Idle,
            }),
    {
        Self {
            store,
            chunking: ChunkConfig::new(config.max_chunk_chars, config.overlap_chars),
            phase: Phase::Idle,
        }
    }

    /// Whether there are chunk ids for `n` more chunks.
    pub fn has_room(&self, n: usize) -> (r: bool)
        ensures
            r == (self@.store.next_id + n <= u64::MAX),
    {
        n as u64 <= u64::MAX - self.store.next_id()
    }

    /// What readers are shown before the first request.
    pub fn snapshot(&self) -> (r: Result<IndexSnapshot, StoreError>)
        ensures
            match r {
                Ok(snap) => shows(snap, self@.store),
                Err(_) => false,
            },
    {
        self.store.snapshot()
    }

    /// Saves the store and then answers.
    fn save(store: TagStore, chunking: ChunkConfig, reply: WriteReply) -> (r: (Self, WriterAction))
        ensures
            r.0@ == (WriterState {
                store: store@,
                max_chars: chunking.max_chars as nat,
                overlap: chunking.overlap_chars as nat,
                stage: Stage::Saving(reply@),
            }),
            carries_out(r.1, Step::Save(store@)),
    {
        match store.persist() {
            Ok(files) => (
                Self { store, chunking, phase: Phase::Saving(reply) },
                WriterAction::Save(files),
            ),
            Err(e) => (
                Self { store, chunking, phase: Phase::Idle },
                WriterAction::Reply(unsaved_reply(reply, e)),
            ),
        }
    }

    /// A request comes in.
    pub fn begin(self, cmd: WriteCmd) -> (r: (Self, WriterAction))
        requires
            self@.stage is Idle,
        ensures
            r.0@ == on_begin(self@, cmd@).0,
            carries_out(r.1, on_begin(self@, cmd@).1),
    {
        let Self { store, chunking, phase } = self;
        let mut store = store;
        let mut texts: Vec<String> = Vec::new();
        match &cmd {
            WriteCmd::Upsert(_, text) => {
                texts.push(text.clone());
                assert(texts_of(texts@) =~= request_texts(cmd@));
            },
            WriteCmd::BatchUpsert(items) => {
                let mut i: usize = 0;
                while i < items.len()
                    invariant
                        i <= items@.len(),
                        texts@.len() == i,
                        forall|j: int| 0 <= j < i ==> (#[trigger] texts@[j])@ == items@[j].1@,
                    decreases items@.len() - i,
                {
                    texts.push(items[i].1.clone());
                    i += 1;
                }
                assert(texts_of(texts@) =~= request_texts(cmd@));
                if texts.len() == 0 {
                    let none: Vec<Result<WriteStats, ServiceError>> = Vec::new();
                    assert(results_of(none@) =~= Seq::empty());
                    return (
                        Self { store, chunking, phase: Phase::Idle },
                        WriterAction::Reply(WriteReply::Batch(none)),
                    );
                }
            },
            WriteCmd::Delete(tag) => {
                match store.delete(*tag) {
                    Ok(_) => {
                        return Self::save(store, chunking, WriteReply::Deleted(Ok(())));
                    },
                    Err(e) => {
                        return (
                            Self { store, chunking, phase: Phase::Idle },
                            WriterAction::Reply(WriteReply::Deleted(Err(ServiceError::Store(e)))),
                        );
                    },
                }
            },
        }
        let groups = chunk_all(&texts, &chunking);
        proof {
            assert(groups_of(groups@).len() == groups@.len());
            assert(chunked(
                texts_of(texts@),
                chunking.max_chars as nat,
                chunking.overlap_chars as nat,
            ).len() == texts@.len());
        }
        let all = flatten(&groups);
        if all.len() == 0 {
            let e = ServiceError::BadRequest("文本为空".to_owned());
            let reply = refusal(&cmd, e);
            return (Self { store, chunking, phase: Phase::Idle }, WriterAction::Reply(reply));
        }
        (
            Self { store, chunking, phase: Phase::Embedding(cmd, groups) },
            WriterAction::Embed(all),
        )
    }

    /// Reports what came of embedding.
    pub fn embedded(self, r: Result<(Vec<Vec<u32>>, Vec<bool>), EmbedError>) -> (out: (
        Self,
        WriterAction,
    ))
        requires
            self@.stage is Embedding,
            fits_request(self@, embedding_of(r)),
        ensures
            out.0@ == on_embedded(self@, embedding_of(r)).0,
            carries_out(out.1, on_embedded(self@, embedding_of(r)).1),
    {
        proof {
            use_type_invariant(&self);
        }
        let Self { store, chunking, phase } = self;
        let mut store = store;
        if let Phase::Embedding(cmd, groups) = phase {
            match r {
                Err(e) => {
                    let reply = refusal(&cmd, ServiceError::Embed(e));
                    (Self { store, chunking, phase: Phase::Idle }, WriterAction::Reply(reply))
                },
                Ok((rows, cuts)) => {
                    let (reply, done) = match &cmd {
                        WriteCmd::Upsert(tag, _) => {
                            let ghost all = groups_of(groups@);
                            let n: usize = groups[0].len();
                            proof {
                                lemma_flat_len(all);
                                assert(all[0].len() == n);
                                assert(offset(all, 0) == 0);
                                assert(offset(all, 1) == n);
                            }
                            let own = part(&rows, 0, n);
                            let truncated = any_set(&cuts, 0, n);
                            proof {
                                assert(rows_of(own@).len() == n);
                                assert(share(all, rows_of(rows@), 0) =~= rows_of(own@));
                            }
                            let ghost before = store@;
                            let one = file(&mut store, *tag, &groups[0], &own, truncated);
                            proof {
                                let flags = share(all, cuts@, 0);
                                assert((store@, result_of(one)) == file_one(
                                    before,
                                    *tag,
                                    rows_of(own@),
                                    flags,
                                ));
                            }
                            let done = one.is_ok();
                            (WriteReply::One(one), done)
                        },
                        WriteCmd::BatchUpsert(items) => {
                            let (results, done) = file_batch(
                                &mut store,
                                items,
                                &groups,
                                &rows,
                                &cuts,
                            );
                            (WriteReply::Batch(results), done)
                        },
                        WriteCmd::Delete(_) => unreached(),
                    };
                    if done {
                        Self::save(store, chunking, reply)
                    } else {
                        (Self { store, chunking, phase: Phase::Idle }, WriterAction::Reply(reply))
                    }
                },
            }
        } else {
            unreached()
        }
    }

    /// Reports what came of saving.
    pub fn saved(self, r: Result<(), StoreError>) -> (out: (Self, WriterAction))
        requires
            self@.stage is Saving,
        ensures
            out.0@ == on_saved(self@, saving_of(r)).0,
            carries_out(out.1, on_saved(self@, saving_of(r)).1),
    {
        let Self { store, chunking, phase } = self;
        if let Phase::Saving(reply) = phase {
            match r {
                Ok(_) => match store.snapshot() {
                    Ok(snap) => {
                        snap.index.prepare();
                        (
                            Self { store, chunking, phase: Phase::Publishing(reply) },
                            WriterAction::Publish(snap),
                        )
                    },
                    Err(e) => (
                        Self { store, chunking, phase: Phase::Idle },
                        WriterAction::Reply(unsaved_reply(reply, e)),
                    ),
                },
                Err(e) => (
                    Self { store, chunking, phase: Phase::Idle },
                    WriterAction::Reply(unsaved_reply(reply, e)),
                ),
            }
        } else {
            unreached()
        }
    }

    /// Reports that readers are shown the store.
    pub fn published(self) -> (out: (Self, WriterAction))
        requires
            self@.stage is Publishing,
        ensures
            out.0@ == on_published(self@).0,
            carries_out(out.1, on_published(self@).1),
    {
        let Self { store, chunking, phase } = self;
        if let Phase::Publishing(reply) = phase {
            (Self { store, chunking, phase: Phase::Idle }, WriterAction::Reply(reply))
        } else {
            unreached()
        }
    }
}

} // verus!
