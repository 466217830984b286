//! What holds of every request to the writer.
use crate::chunker::{chunks, law_chunks_exist};
use crate::embedding::{EmbedError, EmbedFault};
use crate::error::{ServiceError, ServiceFault};
use crate::store::{lemma_next_id, saved_as, shows, StoreError, StoreFault, StoreState};
use crate::store_laws::{
    contents, exact, follows, law_delete_keeps_sound, law_delete_removes, law_follows_all_before,
    law_upsert_keeps_sound, law_upsert_replaces, law_upsert_succeeds, law_writes_follow,
    law_writes_keep_exact, sound, storable,
};
use crate::text::texts_of;
use crate::writer::{
    any_done, carries_out, chunked, embedding_of, file_all, fits_request, flat, lemma_flat_len,
    lemma_offset_grows, lemma_offset_prefix, offset, on_begin, on_embedded, on_published, on_saved,
    request_texts, saving_of, share, Reply, Request, Stage, Step, WriteCmd, WriteReply, WriteStats,
    WriterAction, WriterError, WriterState,
};
use vstd::prelude::*;

verus! {

/// A request that waits for its vectors has texts, and the chunks of each of them.
pub open spec fn staged(w: WriterState) -> bool {
    match w.stage {
        Stage::Embedding(q, groups) => {
            &&& !(q is Delete)
            &&& groups == chunked(request_texts(q), w.max_chars, w.overlap)
            &&& flat(groups).len() > 0
        },
        _ => true,
    }
}

/// A request is answered exactly when it is over. Until then it goes through embedding,
/// saving and publishing, in this order.
pub proof fn law_answer_ends_request(
    w: WriterState,
    q: Request,
    embedded: Result<(Seq<Seq<u32>>, Seq<bool>), EmbedFault>,
    saved: Result<(), StoreFault>,
)
    requires
        staged(w),
    ensures
        w.stage is Idle ==> {
            let (next, step) = on_begin(w, q);
            &&& staged(next)
            &&& step is Reply <==> next.stage is Idle
            &&& step is Embed <==> next.stage is Embedding
            &&& step is Save <==> next.stage is Saving
            &&& !(step is Publish) && !(next.stage is Publishing)
        },
        w.stage is Embedding ==> {
            let (next, step) = on_embedded(w, embedded);
            &&& step is Reply <==> next.stage is Idle
            &&& step is Save <==> next.stage is Saving
            &&& step is Reply || step is Save
        },
        w.stage is Saving ==> {
            let (next, step) = on_saved(w, saved);
            &&& step is Reply <==> next.stage is Idle
            &&& step is Publish <==> next.stage is Publishing
            &&& step is Reply || step is Publish
        },
        w.stage is Publishing ==> {
            let (next, step) = on_published(w);
            step is Reply && next.stage is Idle
        },
{
}

/// Readers are only ever shown what has been saved just before: the store that is
/// published is the one that was saved, and nothing is published where saving failed.
/// A request is saved at most once.
pub proof fn law_saved_before_published(
    w: WriterState,
    q: Request,
    embedded: Result<(Seq<Seq<u32>>, Seq<bool>), EmbedFault>,
    saved: Result<(), StoreFault>,
)
    requires
        staged(w),
    ensures
        w.stage is Idle && on_begin(w, q).1 is Save ==> on_begin(w, q).1 == Step::Save(
            on_begin(w, q).0.store,
        ),
        w.stage is Embedding && on_embedded(w, embedded).1 is Save ==> on_embedded(w, embedded).1
            == Step::Save(on_embedded(w, embedded).0.store),
        w.stage is Saving ==> {
            &&& on_saved(w, saved).1 is Publish <==> saved is Ok
            &&& saved is Ok ==> on_saved(w, saved).1 == Step::Publish(w.store)
            &&& on_saved(w, saved).0.store == w.store
        },
        w.stage is Publishing ==> on_published(w).0.store == w.store,
{
}

/// The reply says that a text was filed, or that a tag was deleted.
pub open spec fn says_done(r: Reply) -> bool {
    match r {
        Reply::One(x) => x is Ok,
        Reply::Deleted(x) => x is Ok,
        Reply::Batch(results) => any_done(results),
    }
}

/// Filing texts or deleting a tag is answered with success only after the store has been
/// saved and readers are shown it, so whoever gets the answer finds what they wrote.
pub proof fn law_success_after_publishing(
    w: WriterState,
    q: Request,
    embedded: Result<(Seq<Seq<u32>>, Seq<bool>), EmbedFault>,
    saved: Result<(), StoreFault>,
)
    requires
        staged(w),
    ensures
        w.stage is Idle && on_begin(w, q).1 is Reply ==> !says_done(on_begin(w, q).1->Reply_0),
        w.stage is Embedding && on_embedded(w, embedded).1 is Reply ==> !says_done(
            on_embedded(w, embedded).1->Reply_0,
        ),
        w.stage is Saving && on_saved(w, saved).1 is Reply ==> !says_done(
            on_saved(w, saved).1->Reply_0,
        ),
{
}

/// A text that could not be embedded, or that has no chunks, changes nothing.
pub proof fn law_refused_text_changes_nothing(w: WriterState, q: Request, f: EmbedFault)
    requires
        staged(w),
        !(q is Delete),
    ensures
        w.stage is Idle ==> on_begin(w, q).0.store == w.store,
        w.stage is Embedding ==> on_embedded(w, Err(f)).0.store == w.store && on_embedded(
            w,
            Err(f),
        ).1 is Reply,
{
}

proof fn lemma_share_len<T, U>(groups: Seq<Seq<T>>, all: Seq<U>, i: nat)
    requires
        i < groups.len(),
        all.len() == flat(groups).len(),
    ensures
        share(groups, all, i).len() == groups[i as int].len(),
        offset(groups, i + 1) <= all.len(),
{
    lemma_flat_len(groups);
    lemma_offset_grows(groups, i + 1, groups.len());
}

/// Once a text is filed, the store that is saved and shown holds its vectors under its
/// tag, one for each of its chunks, in place of what the tag had, and the answer counts
/// them and says whether one was cut. Other tags keep what they have.
pub proof fn law_filed_text_found(
    w: WriterState,
    tag: u128,
    text: Seq<char>,
    rows: Seq<Seq<u32>>,
    cuts: Seq<bool>,
)
    requires
        sound(w.store),
        staged(w),
        w.stage is Embedding,
        w.stage->Embedding_0 == Request::Upsert(tag, text),
        fits_request(w, Ok((rows, cuts))),
        rows.len() <= usize::MAX,
    ensures
        ({
            let (next, step) = on_embedded(w, Ok((rows, cuts)));
            &&& rows.len() == chunks(text, w.max_chars, w.overlap).len()
            &&& step is Save <==> storable(rows, w.store.index.dim)
            &&& step is Save ==> {
                &&& contents(next.store) == contents(w.store).insert(tag, rows)
                &&& next.stage == Stage::Saving(
                    Reply::One(
                        Ok(
                            WriteStats {
                                chunk_count: rows.len() as usize,
                                truncated: cuts.contains(true),
                            },
                        ),
                    ),
                )
            }
        }),
{
    let groups = w.stage->Embedding_1;
    assert(groups =~= seq![chunks(text, w.max_chars, w.overlap)]);
    lemma_flat_len(groups);
    assert(offset(groups, 0) == 0);
    assert(offset(groups, 1) == groups[0].len());
    assert(share(groups, rows, 0) =~= rows);
    assert(share(groups, cuts, 0) =~= cuts);
    law_upsert_succeeds(w.store, tag, rows);
    law_upsert_replaces(w.store, tag, rows);
}

/// Once a tag is deleted, the store that is saved and shown does not have it, and the
/// other tags keep what they have. A tag that is not there is refused.
pub proof fn law_deleted_tag_gone(w: WriterState, tag: u128)
    requires
        sound(w.store),
        w.stage is Idle,
    ensures
        ({
            let (next, step) = on_begin(w, Request::Delete(tag));
            &&& contents(next.store) == contents(w.store).remove(tag)
            &&& step is Save <==> contents(w.store).contains_key(tag)
            &&& !contents(w.store).contains_key(tag) ==> step == Step::Reply(
                Reply::Deleted(Err(ServiceFault::Store(StoreFault::TagNotFound(tag)))),
            )
        }),
{
    law_delete_removes(w.store, tag);
}

/// The texts of a batch are filed one after another, each as if it came alone: one that
/// cannot be filed does not keep the others from being filed.
pub proof fn law_batch_items_filed(
    s: StoreState,
    items: Seq<(u128, Seq<char>)>,
    groups: Seq<Seq<Seq<char>>>,
    rows: Seq<Seq<u32>>,
    cuts: Seq<bool>,
    i: nat,
)
    requires
        sound(s),
        i < items.len(),
        groups.len() == items.len(),
        rows.len() == flat(groups).len(),
        s.next_id + rows.len() <= u64::MAX,
    ensures
        ({
            let before = file_all(s, items, groups, rows, cuts, i).0;
            let (after, results) = file_all(s, items, groups, rows, cuts, i + 1);
            let own = share(groups, rows, i);
            let tag = items[i as int].0;
            &&& sound(after)
            &&& results.len() == i + 1
            &&& results[i as int] is Ok <==> storable(own, s.index.dim)
            &&& contents(after) == if storable(own, s.index.dim) {
                contents(before).insert(tag, own)
            } else if own.len() > 0 {
                contents(before).remove(tag)
            } else {
                contents(before)
            }
        }),
    decreases i,
{
    lemma_batch(s, items, groups, rows, cuts, i);
    let before = file_all(s, items, groups, rows, cuts, i).0;
    let own = share(groups, rows, i);
    let tag = items[i as int].0;
    lemma_share_len(groups, rows, i);
    if own.len() > 0 {
        law_upsert_succeeds(before, tag, own);
        law_upsert_replaces(before, tag, own);
        law_upsert_keeps_sound(before, tag, own);
    }
}

proof fn lemma_results_kept(
    s: StoreState,
    items: Seq<(u128, Seq<char>)>,
    groups: Seq<Seq<Seq<char>>>,
    rows: Seq<Seq<u32>>,
    cuts: Seq<bool>,
    i: nat,
    n: nat,
)
    requires
        i < n,
    ensures
        file_all(s, items, groups, rows, cuts, n).1.len() == n,
        file_all(s, items, groups, rows, cuts, n).1[i as int] == file_all(
            s,
            items,
            groups,
            rows,
            cuts,
            i + 1,
        ).1.last(),
    decreases n,
{
    reveal_with_fuel(file_all, 2);
    let last = (n - 1) as nat;
    if last > 0 {
        lemma_results_kept(s, items, groups, rows, cuts, 0, last);
    }
    if i < last {
        lemma_results_kept(s, items, groups, rows, cuts, i, last);
    }
}

proof fn lemma_untouched(
    s: StoreState,
    items: Seq<(u128, Seq<char>)>,
    groups: Seq<Seq<Seq<char>>>,
    rows: Seq<Seq<u32>>,
    cuts: Seq<bool>,
    tag: u128,
    n: nat,
)
    requires
        sound(s),
        n <= items.len(),
        groups.len() == items.len(),
        rows.len() == flat(groups).len(),
        s.next_id + rows.len() <= u64::MAX,
        forall|k: int| 0 <= k < n && (#[trigger] items[k]).0 == tag ==> groups[k].len() == 0,
    ensures
        ({
            let after = contents(file_all(s, items, groups, rows, cuts, n).0);
            &&& after.contains_key(tag) == contents(s).contains_key(tag)
            &&& after.contains_key(tag) ==> after[tag] == contents(s)[tag]
        }),
    decreases n,
{
    if n > 0 {
        let i = (n - 1) as nat;
        lemma_untouched(s, items, groups, rows, cuts, tag, i);
        law_batch_items_filed(s, items, groups, rows, cuts, i);
        lemma_share_len(groups, rows, i);
    }
}

/// An item with an empty text is answered with an error of its own, whatever becomes of
/// the other items, and its tag keeps what it had, unless another item is filed under it.
pub proof fn law_empty_item_refused(
    s: StoreState,
    items: Seq<(u128, Seq<char>)>,
    max: nat,
    overlap: nat,
    rows: Seq<Seq<u32>>,
    cuts: Seq<bool>,
    i: nat,
)
    requires
        sound(s),
        i < items.len(),
        items[i as int].1.len() == 0,
        rows.len() == flat(chunked(request_texts(Request::BatchUpsert(items)), max, overlap)).len(),
        s.next_id + rows.len() <= u64::MAX,
    ensures
        ({
            let groups = chunked(request_texts(Request::BatchUpsert(items)), max, overlap);
            let (after, results) = file_all(s, items, groups, rows, cuts, items.len());
            let tag = items[i as int].0;
            &&& results.len() == items.len()
            &&& results[i as int] == Err::<WriteStats, _>(
                ServiceFault::BadRequest("文本为空或分块后无内容"@),
            )
            &&& (forall|k: int|
                0 <= k < items.len() && (#[trigger] items[k]).0 == tag ==> items[k].1.len() == 0)
                ==> {
                &&& contents(after).contains_key(tag) == contents(s).contains_key(tag)
                &&& contents(after).contains_key(tag) ==> contents(after)[tag] == contents(s)[tag]
            }
        }),
{
    let groups = chunked(request_texts(Request::BatchUpsert(items)), max, overlap);
    let tag = items[i as int].0;
    assert forall|k: int| 0 <= k < items.len() && items[k].1.len() == 0 implies #[trigger]
    groups[k].len() == 0 by {
        assert(groups[k] == chunks(items[k].1, max, overlap));
    }
    lemma_share_len(groups, rows, i);
    lemma_results_kept(s, items, groups, rows, cuts, i, items.len());
    if forall|k: int|
        0 <= k < items.len() && (#[trigger] items[k]).0 == tag ==> items[k].1.len() == 0 {
        lemma_untouched(s, items, groups, rows, cuts, tag, items.len());
    }
}

proof fn lemma_batch(
    s: StoreState,
    items: Seq<(u128, Seq<char>)>,
    groups: Seq<Seq<Seq<char>>>,
    rows: Seq<Seq<u32>>,
    cuts: Seq<bool>,
    n: nat,
)
    requires
        sound(s),
        n <= items.len(),
        groups.len() == items.len(),
        rows.len() == flat(groups).len(),
        s.next_id + rows.len() <= u64::MAX,
    ensures
        ({
            let (after, results) = file_all(s, items, groups, rows, cuts, n);
            &&& sound(after)
            &&& exact(s) ==> exact(after)
            &&& follows(s, after)
            &&& after.index.dim == s.index.dim
            &&& results.len() == n
            &&& after.next_id + (rows.len() - offset(groups, n)) <= u64::MAX
        }),
    decreases n,
{
    if n > 0 {
        let i = (n - 1) as nat;
        lemma_batch(s, items, groups, rows, cuts, i);
        lemma_share_len(groups, rows, i);
        let before = file_all(s, items, groups, rows, cuts, i).0;
        let own = share(groups, rows, i);
        let tag = items[i as int].0;
        if own.len() > 0 {
            law_upsert_keeps_sound(before, tag, own);
            lemma_next_id(before, tag, own);
            law_writes_follow(before, tag, own);
            let after = file_all(s, items, groups, rows, cuts, n).0;
            law_follows_all_before(s, before, after);
            if exact(s) {
                law_writes_keep_exact(before, tag, own);
            }
        }
    }
}

/// A batch is saved once, after all its texts, exactly where one of them was filed.
pub proof fn law_batch_saved_once(
    w: WriterState,
    items: Seq<(u128, Seq<char>)>,
    rows: Seq<Seq<u32>>,
    cuts: Seq<bool>,
)
    requires
        staged(w),
        w.stage is Embedding,
        w.stage->Embedding_0 == Request::BatchUpsert(items),
    ensures
        ({
            let groups = w.stage->Embedding_1;
            let (after, results) = file_all(w.store, items, groups, rows, cuts, items.len());
            let (next, step) = on_embedded(w, Ok((rows, cuts)));
            &&& next.store == after
            &&& step == if any_done(results) {
                Step::Save(after)
            } else {
                Step::Reply(Reply::Batch(results))
            }
            &&& step is Save <==> exists|i: int|
                0 <= i < results.len() && (#[trigger] results[i]) is Ok
        }),
{
}

/// Every step of the writer keeps the invariant of the store.
pub proof fn law_writer_keeps_sound(
    w: WriterState,
    q: Request,
    embedded: Result<(Seq<Seq<u32>>, Seq<bool>), EmbedFault>,
    saved: Result<(), StoreFault>,
)
    requires
        sound(w.store),
        staged(w),
        fits_request(w, embedded),
    ensures
        w.stage is Idle ==> sound(on_begin(w, q).0.store),
        w.stage is Embedding ==> sound(on_embedded(w, embedded).0.store),
        w.stage is Saving ==> sound(on_saved(w, saved).0.store),
        w.stage is Publishing ==> sound(on_published(w).0.store),
{
    match q {
        Request::Delete(tag) => law_delete_keeps_sound(w.store, tag),
        _ => {},
    }
    if w.stage is Embedding && embedded is Ok {
        let groups = w.stage->Embedding_1;
        let (rows, cuts) = embedded->Ok_0;
        match w.stage->Embedding_0 {
            Request::Upsert(tag, text) => {
                lemma_share_len(groups, rows, 0);
                law_upsert_keeps_sound(w.store, tag, share(groups, rows, 0));
            },
            Request::BatchUpsert(items) => {
                lemma_batch(w.store, items, groups, rows, cuts, items.len());
            },
            Request::Delete(_) => {},
        }
    }
}

/// Every step of the writer keeps the exact vectors and the index in step, whatever is
/// filed and whatever fails, and leaves a store that follows the one before. So whatever the
/// writer saves can be recovered from its tags file.
pub proof fn law_writer_keeps_exact(
    w: WriterState,
    q: Request,
    embedded: Result<(Seq<Seq<u32>>, Seq<bool>), EmbedFault>,
    saved: Result<(), StoreFault>,
)
    requires
        sound(w.store),
        exact(w.store),
        staged(w),
        fits_request(w, embedded),
    ensures
        w.stage is Idle ==> {
            let after = on_begin(w, q).0.store;
            exact(after) && follows(w.store, after)
        },
        w.stage is Embedding ==> {
            let after = on_embedded(w, embedded).0.store;
            exact(after) && follows(w.store, after)
        },
        w.stage is Saving ==> {
            let after = on_saved(w, saved).0.store;
            exact(after) && follows(w.store, after)
        },
        w.stage is Publishing ==> {
            let after = on_published(w).0.store;
            exact(after) && follows(w.store, after)
        },
{
    match q {
        Request::Delete(tag) => {
            law_writes_keep_exact(w.store, tag, Seq::empty());
            law_writes_follow(w.store, tag, Seq::empty());
        },
        _ => {},
    }
    if w.stage is Embedding && embedded is Ok {
        let groups = w.stage->Embedding_1;
        let (rows, cuts) = embedded->Ok_0;
        match w.stage->Embedding_0 {
            Request::Upsert(tag, text) => {
                lemma_share_len(groups, rows, 0);
                law_writes_keep_exact(w.store, tag, share(groups, rows, 0));
                law_writes_follow(w.store, tag, share(groups, rows, 0));
            },
            Request::BatchUpsert(items) => {
                lemma_batch(w.store, items, groups, rows, cuts, items.len());
            },
            Request::Delete(_) => {},
        }
    }
}

proof fn lemma_own_chunks<T>(groups: Seq<Seq<T>>, i: nat)
    requires
        i < groups.len(),
    ensures
        offset(groups, i + 1) == offset(groups, i) + groups[i as int].len(),
        offset(groups, i + 1) <= flat(groups).len(),
        flat(groups).subrange(offset(groups, i) as int, offset(groups, i + 1) as int)
            == groups[i as int],
    decreases groups.len(),
{
    let most = groups.drop_last();
    let last = most.len();
    lemma_flat_len(groups);
    lemma_flat_len(most);
    lemma_offset_prefix(groups, last);
    lemma_offset_grows(groups, i + 1, groups.len());
    let own = flat(groups).subrange(offset(groups, i) as int, offset(groups, i + 1) as int);
    if i == last {
        assert(own =~= groups[i as int]);
    } else {
        lemma_own_chunks(most, i);
        lemma_offset_prefix(groups, i);
        lemma_offset_prefix(groups, i + 1);
        assert(own =~= flat(most).subrange(
            offset(most, i) as int,
            offset(most, i + 1) as int,
        ));
    }
}

/// What is worked out for each of the chunks of all texts comes back to the text whose chunks
/// they are, in the order of its chunks.
pub proof fn law_each_text_gets_its_own<T, U>(groups: Seq<Seq<T>>, f: spec_fn(T) -> U, i: nat)
    requires
        i < groups.len(),
    ensures
        share(groups, flat(groups).map_values(f), i) == groups[i as int].map_values(f),
{
    lemma_own_chunks(groups, i);
    assert(share(groups, flat(groups).map_values(f), i) =~= flat(groups).subrange(
        offset(groups, i) as int,
        offset(groups, i + 1) as int,
    ).map_values(f));
}

/// A model whose vectors can all be filed.
pub open spec fn fits_index(model: spec_fn(Seq<char>) -> Seq<u32>, dim: usize) -> bool {
    forall|c: Seq<char>| storable(seq![#[trigger] model(c)], dim)
}

proof fn lemma_model_rows(model: spec_fn(Seq<char>) -> Seq<u32>, dim: usize, cs: Seq<Seq<char>>)
    requires
        fits_index(model, dim),
        cs.len() > 0,
    ensures
        storable(cs.map_values(model), dim),
{
    let rows = cs.map_values(model);
    assert forall|i: int| 0 <= i < rows.len() implies (#[trigger] rows[i]).len() == dim
        && crate::vector_index::are_coords(rows[i]) by {
        let one = seq![model(cs[i])];
        assert(storable(one, dim));
        assert(one[0] == rows[i]);
    }
    assert(storable(seq![model(cs[0])], dim));
}

/// Filing a text, from the request to the answer: its chunks are embedded, their vectors take the
/// place of what the tag had, the store with them is saved, then shown, and only then the answer
/// comes: with the number of chunks, and whether one was cut. Other tags keep what they have.
pub proof fn law_upsert_start_to_finish(
    w: WriterState,
    tag: u128,
    text: Seq<char>,
    model: spec_fn(Seq<char>) -> Seq<u32>,
    cut: spec_fn(Seq<char>) -> bool,
)
    requires
        sound(w.store),
        w.stage is Idle,
        text.len() > 0,
        fits_index(model, w.store.index.dim),
        w.store.next_id + chunks(text, w.max_chars, w.overlap).len() <= u64::MAX,
        chunks(text, w.max_chars, w.overlap).len() <= usize::MAX,
    ensures
        ({
            let cs = chunks(text, w.max_chars, w.overlap);
            let (w1, s1) = on_begin(w, Request::Upsert(tag, text));
            &&& s1 is Embed
            &&& ({
                let asked = s1->Embed_0;
                let (w2, s2) = on_embedded(
                    w1,
                    Ok((asked.map_values(model), asked.map_values(cut))),
                );
                let (w3, s3) = on_saved(w2, Ok(()));
                let (w4, s4) = on_published(w3);
                &&& asked.len() == cs.len()
                &&& s2 == Step::Save(w2.store)
                &&& contents(w2.store) == contents(w.store).insert(tag, cs.map_values(model))
                &&& s3 == Step::Publish(w2.store)
                &&& s4 matches Step::Reply(Reply::One(Ok(stats)))
                &&& stats.chunk_count == cs.len()
                &&& stats.truncated <==> exists|i: int| 0 <= i < cs.len() && #[trigger] cut(cs[i])
                &&& w4.store == w2.store && w4.stage is Idle
                &&& w4.max_chars == w.max_chars && w4.overlap == w.overlap
            })
        }),
{
    let cs = chunks(text, w.max_chars, w.overlap);
    law_chunks_exist(text, w.max_chars, w.overlap);
    let q = Request::Upsert(tag, text);
    let groups = chunked(request_texts(q), w.max_chars, w.overlap);
    assert(groups =~= seq![cs]);
    lemma_flat_len(groups);
    assert(offset(groups, 1) == offset(groups, 0) + groups[0].len());
    let asked = flat(groups);
    law_each_text_gets_its_own(groups, model, 0);
    law_each_text_gets_its_own(groups, cut, 0);
    lemma_model_rows(model, w.store.index.dim, cs);
    let rows = cs.map_values(model);
    let cuts = cs.map_values(cut);
    law_upsert_succeeds(w.store, tag, rows);
    law_upsert_replaces(w.store, tag, rows);
    lemma_some_cut(cs, cut);
}

proof fn lemma_some_cut(cs: Seq<Seq<char>>, cut: spec_fn(Seq<char>) -> bool)
    ensures
        cs.map_values(cut).contains(true) <==> exists|i: int|
            0 <= i < cs.len() && #[trigger] cut(cs[i]),
{
    let cuts = cs.map_values(cut);
    if cuts.contains(true) {
        let i = cuts.index_of(true);
        assert(cut(cs[i]));
    }
    if exists|i: int| 0 <= i < cs.len() && #[trigger] cut(cs[i]) {
        let i = choose|i: int| 0 <= i < cs.len() && #[trigger] cut(cs[i]);
        assert(cuts[i] == true);
    }
}

proof fn lemma_batch_contents(
    s: StoreState,
    items: Seq<(u128, Seq<char>)>,
    groups: Seq<Seq<Seq<char>>>,
    rows: Seq<Seq<u32>>,
    cuts: Seq<bool>,
    i: nat,
    n: nat,
)
    requires
        sound(s),
        i < n <= items.len(),
        groups.len() == items.len(),
        rows.len() == flat(groups).len(),
        s.next_id + rows.len() <= u64::MAX,
        forall|k: nat|
            k < items.len() ==> (#[trigger] share(groups, rows, k)).len() == 0 || storable(
                share(groups, rows, k),
                s.index.dim,
            ),
        share(groups, rows, i).len() > 0,
        forall|k: int|
            i < k < n && (#[trigger] items[k]).0 == items[i as int].0 ==> groups[k].len() == 0,
    ensures
        ({
            let after = contents(file_all(s, items, groups, rows, cuts, n).0);
            let tag = items[i as int].0;
            after.contains_key(tag) && after[tag] == share(groups, rows, i)
        }),
    decreases n,
{
    let last = (n - 1) as nat;
    law_batch_items_filed(s, items, groups, rows, cuts, last);
    lemma_share_len(groups, rows, last);
    if i < last {
        lemma_batch_contents(s, items, groups, rows, cuts, i, last);
    }
    assert(share(groups, rows, last).len() == 0 || storable(
        share(groups, rows, last),
        s.index.dim,
    ));
}

/// Filing several texts, from the request to the answers: all their chunks are embedded at once,
/// each text that is not empty is filed under its own tag with the vectors of its own chunks and
/// answered with their number and whether one of them was cut, and the store is saved once and
/// then shown. Of several texts for one tag the last one counts.
pub proof fn law_batch_start_to_finish(
    w: WriterState,
    items: Seq<(u128, Seq<char>)>,
    model: spec_fn(Seq<char>) -> Seq<u32>,
    cut: spec_fn(Seq<char>) -> bool,
    i: nat,
)
    requires
        sound(w.store),
        w.stage is Idle,
        i < items.len(),
        items[i as int].1.len() > 0,
        fits_index(model, w.store.index.dim),
        w.store.next_id + flat(
            chunked(request_texts(Request::BatchUpsert(items)), w.max_chars, w.overlap),
        ).len() <= u64::MAX,
        flat(chunked(request_texts(Request::BatchUpsert(items)), w.max_chars, w.overlap)).len()
            <= usize::MAX,
    ensures
        ({
            let (tag, text) = items[i as int];
            let cs = chunks(text, w.max_chars, w.overlap);
            let (w1, s1) = on_begin(w, Request::BatchUpsert(items));
            &&& s1 is Embed
            &&& ({
                let asked = s1->Embed_0;
                let (w2, s2) = on_embedded(
                    w1,
                    Ok((asked.map_values(model), asked.map_values(cut))),
                );
                let (w3, s3) = on_saved(w2, Ok(()));
                let (w4, s4) = on_published(w3);
                &&& s2 == Step::Save(w2.store)
                &&& s3 == Step::Publish(w2.store)
                &&& w4.store == w2.store
                &&& s4 matches Step::Reply(Reply::Batch(results))
                &&& results.len() == items.len()
                &&& results[i as int] matches Ok(stats)
                &&& stats.chunk_count == cs.len()
                &&& stats.truncated <==> exists|k: int| 0 <= k < cs.len() && #[trigger] cut(cs[k])
                &&& (forall|k: int|
                    i < k < items.len() && (#[trigger] items[k]).0 == tag ==> items[k].1.len() == 0)
                    ==> {
                    &&& contents(w2.store).contains_key(tag)
                    &&& contents(w2.store)[tag] == cs.map_values(model)
                }
            })
        }),
{
    let q = Request::BatchUpsert(items);
    let texts = request_texts(q);
    let groups = chunked(texts, w.max_chars, w.overlap);
    let asked = flat(groups);
    let rows = asked.map_values(model);
    let cuts = asked.map_values(cut);
    let (tag, text) = items[i as int];
    let cs = chunks(text, w.max_chars, w.overlap);
    assert(groups[i as int] == cs);
    law_chunks_exist(text, w.max_chars, w.overlap);
    lemma_own_chunks(groups, i);
    law_each_text_gets_its_own(groups, cut, i);
    assert forall|k: nat| k < items.len() implies (#[trigger] share(groups, rows, k)).len() == 0
        || storable(share(groups, rows, k), w.store.index.dim) by {
        law_each_text_gets_its_own(groups, model, k);
        if groups[k as int].len() > 0 {
            lemma_model_rows(model, w.store.index.dim, groups[k as int]);
        }
    }
    law_each_text_gets_its_own(groups, model, i);
    let (after, results) = file_all(w.store, items, groups, rows, cuts, items.len());
    lemma_results_kept(w.store, items, groups, rows, cuts, i, items.len());
    law_batch_items_filed(w.store, items, groups, rows, cuts, i);
    lemma_batch(w.store, items, groups, rows, cuts, i);
    let before = file_all(w.store, items, groups, rows, cuts, i).0;
    lemma_share_len(groups, rows, i);
    law_upsert_succeeds(before, tag, share(groups, rows, i));
    assert(results[i as int] is Ok);
    lemma_some_cut(cs, cut);
    if forall|k: int| i < k < items.len() && (#[trigger] items[k]).0 == tag ==> items[k].1.len()
        == 0 {
        assert forall|k: int| i < k < items.len() && (#[trigger] items[k]).0 == tag implies
            groups[k].len() == 0 by {
            law_chunks_exist(items[k].1, w.max_chars, w.overlap);
            assert(groups[k] == chunks(items[k].1, w.max_chars, w.overlap));
        }
        lemma_batch_contents(w.store, items, groups, rows, cuts, i, items.len());
    }
}

/// Deleting a tag, from the request to the answer: the store without it is saved, then shown, and
/// only then the answer comes.
pub proof fn law_delete_start_to_finish(w: WriterState, tag: u128)
    requires
        sound(w.store),
        w.stage is Idle,
        contents(w.store).contains_key(tag),
    ensures
        ({
            let (w1, s1) = on_begin(w, Request::Delete(tag));
            let (w2, s2) = on_saved(w1, Ok(()));
            let (w3, s3) = on_published(w2);
            &&& contents(w1.store) == contents(w.store).remove(tag)
            &&& s1 == Step::Save(w1.store)
            &&& s2 == Step::Publish(w1.store)
            &&& s3 == Step::Reply(Reply::Deleted(Ok(())))
            &&& w3.store == w1.store && w3.stage is Idle
        }),
{
    law_delete_removes(w.store, tag);
}

/// Where embedding or saving fails, the answer says why: to one text or a deletion with the error
/// itself, to each text of a batch that was not refused on its own account with its text.
pub proof fn law_failures_answered(
    w: WriterState,
    f: EmbedFault,
    g: StoreFault,
    results: Seq<Result<WriteStats, ServiceFault>>,
    i: int,
)
    ensures
        w.stage is Embedding ==> {
            let (next, step) = on_embedded(w, Err(f));
            &&& next.store == w.store && next.stage is Idle
            &&& w.stage->Embedding_0 is Upsert ==> step == Step::Reply(
                Reply::One(Err(ServiceFault::Embed(f))),
            )
            &&& w.stage->Embedding_0 matches Request::BatchUpsert(items) ==> {
                &&& step matches Step::Reply(Reply::Batch(out))
                &&& out.len() == items.len()
                &&& 0 <= i < out.len() ==> out[i] == Err::<WriteStats, _>(
                    ServiceFault::Internal(ServiceFault::Embed(f).message()),
                )
            }
        },
        w.stage is Saving ==> {
            let (next, step) = on_saved(w, Err(g));
            &&& next.store == w.store && next.stage is Idle
            &&& w.stage->Saving_0 is One ==> step == Step::Reply(
                Reply::One(Err(ServiceFault::Store(g))),
            )
            &&& w.stage->Saving_0 is Deleted ==> step == Step::Reply(
                Reply::Deleted(Err(ServiceFault::Store(g))),
            )
            &&& w.stage->Saving_0 == Reply::Batch(results) ==> {
                &&& step matches Step::Reply(Reply::Batch(out))
                &&& out.len() == results.len()
                &&& 0 <= i < out.len() && results[i] is Ok ==> out[i] == Err::<WriteStats, _>(
                    ServiceFault::Internal(ServiceFault::Store(g).message()),
                )
                &&& 0 <= i < out.len() && results[i] is Err ==> out[i] == results[i]
            }
        },
{
}

/// The writer is asked for what the request says, and its answers say what came of it: no tag,
/// text, number or error is changed on the way.
pub proof fn law_requests_and_replies_unchanged(
    tag: u128,
    text: String,
    items: Vec<(u128, String)>,
    one: Result<WriteStats, ServiceError>,
    many: Vec<Result<WriteStats, ServiceError>>,
    gone: Result<(), ServiceError>,
    i: int,
)
    ensures
        WriteCmd::Upsert(tag, text)@ == Request::Upsert(tag, text@),
        WriteCmd::Delete(tag)@ == Request::Delete(tag),
        WriteCmd::BatchUpsert(items)@ matches Request::BatchUpsert(seen) && seen.len()
            == items@.len() && (0 <= i < seen.len() ==> seen[i] == (items@[i].0, items@[i].1@)),
        WriteReply::One(one)@ matches Reply::One(r) && (one is Ok ==> r == Ok::<_, ServiceFault>(
            one->Ok_0,
        )) && (one is Err ==> r == Err::<WriteStats, _>(one->Err_0@)),
        WriteReply::Deleted(gone)@ matches Reply::Deleted(r) && (gone is Ok <==> r is Ok) && (
        gone is Err ==> r == Err::<(), _>(gone->Err_0@)),
        WriteReply::Batch(many)@ matches Reply::Batch(rs) && rs.len() == many@.len() && (0 <= i
            < rs.len() ==> (many@[i] is Ok ==> rs[i] == Ok::<_, ServiceFault>(many@[i]->Ok_0)) && (
        many@[i] is Err ==> rs[i] == Err::<WriteStats, _>(many@[i]->Err_0@))),
        WriterError::Closed.text() == "写者线程未响应（可能已退出）"@,
{
}

/// What the writer asks for is what its steps say: the texts to be embedded, in their order, a
/// store to be saved, one to be shown, or an answer. And it is told what came of it: the vectors
/// and flags that the model gave, in their order, or the error.
pub proof fn law_steps_carried_out(
    a: WriterAction,
    t: Seq<Seq<char>>,
    s: StoreState,
    p: Reply,
    embedded: Result<(Vec<Vec<u32>>, Vec<bool>), EmbedError>,
    saved: Result<(), StoreError>,
    i: int,
)
    ensures
        carries_out(a, Step::Embed(t)) ==> {
            &&& a matches WriterAction::Embed(texts)
            &&& texts@.len() == t.len()
            &&& 0 <= i < t.len() ==> texts@[i]@ == t[i]
        },
        carries_out(a, Step::Save(s)) ==> {
            &&& a matches WriterAction::Save(files)
            &&& saved_as(s, files.tags@, files.index@)
        },
        carries_out(a, Step::Publish(s)) ==> {
            &&& a matches WriterAction::Publish(snap)
            &&& shows(snap, s)
        },
        carries_out(a, Step::Reply(p)) ==> {
            &&& a matches WriterAction::Reply(r)
            &&& r@ == p
        },
        embedded matches Ok(given) ==> {
            &&& embedding_of(embedded) matches Ok((rows, cuts))
            &&& cuts == given.1@
            &&& rows.len() == given.0@.len()
            &&& 0 <= i < rows.len() ==> rows[i] == given.0@[i]@
        },
        embedded matches Err(e) ==> embedding_of(embedded) == Err::<
            (Seq<Seq<u32>>, Seq<bool>),
            _,
        >(e@),
        saved is Ok <==> saving_of(saved) is Ok,
        saved matches Err(e) ==> saving_of(saved) == Err::<(), _>(e@),
{
    if carries_out(a, Step::Embed(t)) && 0 <= i < t.len() {
        assert(texts_of(a->Embed_0@)[i] == a->Embed_0@[i]@);
    }
}

/// An empty text is refused at once, and a batch without items is answered at once.
pub proof fn law_nothing_to_file(w: WriterState, tag: u128, text: Seq<char>)
    requires
        text.len() == 0,
    ensures
        on_begin(w, Request::Upsert(tag, text)).0.store == w.store,
        on_begin(w, Request::Upsert(tag, text)).1 == Step::Reply(
            Reply::One(Err(ServiceFault::BadRequest("文本为空"@))),
        ),
        on_begin(w, Request::BatchUpsert(Seq::empty())).0.store == w.store,
        on_begin(w, Request::BatchUpsert(Seq::empty())).1 == Step::Reply(
            Reply::Batch(Seq::empty()),
        ),
{
    law_chunks_exist(text, w.max_chars, w.overlap);
    let groups = chunked(request_texts(Request::Upsert(tag, text)), w.max_chars, w.overlap);
    assert(groups =~= seq![chunks(text, w.max_chars, w.overlap)]);
    lemma_flat_len(groups);
    assert(offset(groups, 1) == offset(groups, 0) + groups[0].len());
    assert(offset(groups, 0) == 0);
}

} // verus!
