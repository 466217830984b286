//! From chunks to tags: each tag found takes the score of its best chunk, and the
//! tags are ranked by it.
use crate::bits::{at_least, greater, is_at_least, is_greater, is_nan, rank};
use crate::ranking::{lemma_found, ranked, ranks_by};
use crate::score::{law_score_bounded, score, to_score};
use crate::store::{has_chunk, owners_of};
use crate::vector_index::at_most;
use std::collections::HashMap;
use vstd::prelude::*;

verus! {

broadcast use vstd::std_specs::hash::group_hash_axioms;

/// A tag that was found, with its score.
#[derive(Debug, Clone, Copy)]
pub struct SearchHit {
    pub tag: u128,
    /// The pattern of the score.
    pub score: u32,
}

/// The pattern of the least finite number: the score of a tag before any of its chunks
/// is looked at.
pub const LEAST: u32 = 0xff7f_ffff;

/// The better of a score so far and the score of one more chunk.
pub open spec fn better(so_far: u32, next: u32) -> u32 {
    if is_greater(next, so_far) {
        next
    } else {
        so_far
    }
}

/// The best score among the chunks of the tag, if there is one.
pub open spec fn best(hits: Seq<(u64, u32)>, owner: Map<u64, u128>, tag: u128) -> Option<u32>
    decreases hits.len(),
{
    if hits.len() == 0 {
        None
    } else {
        let so_far = best(hits.drop_last(), owner, tag);
        let (id, raw) = hits.last();
        if owner.contains_key(id) && owner[id] == tag {
            Some(
                better(
                    match so_far {
                        Some(s) => s,
                        None => LEAST,
                    },
                    score(raw),
                ),
            )
        } else {
            so_far
        }
    }
}

/// The score is not below the least that is asked for.
pub open spec fn passes(s: u32, min_score: Option<u32>) -> bool {
    match min_score {
        Some(m) => is_at_least(s, m),
        None => true,
    }
}

/// The tags with a chunk among the hits and a score that passes.
pub open spec fn found(
    hits: Seq<(u64, u32)>,
    owner: Map<u64, u128>,
    min_score: Option<u32>,
) -> Set<u128> {
    Set::new(
        |tag: u128| best(hits, owner, tag) is Some && passes(best(hits, owner, tag)->0, min_score),
    )
}

/// `out` is a right answer: the `k` best of the tags that are found, or all of them,
/// each once and with its best score, better scores first. Of tags with equal scores
/// any may come first, and any may be left out.
pub open spec fn is_answer(
    hits: Seq<(u64, u32)>,
    owner: Map<u64, u128>,
    k: nat,
    min_score: Option<u32>,
    out: Seq<SearchHit>,
) -> bool {
    let tags = found(hits, owner, min_score);
    &&& tags.finite()
    &&& out.len() == at_most(k, tags.len())
    &&& forall|i: int|
        0 <= i < out.len() ==> tags.contains((#[trigger] out[i]).tag) && best(
            hits,
            owner,
            out[i].tag,
        ) == Some(out[i].score)
    &&& forall|i: int, j: int|
        0 <= i < j < out.len() ==> (#[trigger] out[i]).tag != (#[trigger] out[j]).tag && rank(
            out[i].score,
        ) >= rank(out[j].score)
    &&& forall|tag: u128, i: int|
        #![trigger tags.contains(tag), out[i]]
        tags.contains(tag) && 0 <= i < out.len() ==> (exists|j: int|
            0 <= j < out.len() && (#[trigger] out[j]).tag == tag) || rank(
            best(hits, owner, tag)->0,
        ) <= rank(out[i].score)
}

/// The best score of each tag with a chunk among the hits.
fn best_scores(hits: &[(u64, u32)], owner: &HashMap<u64, u128>) -> (r: HashMap<u128, u32>)
    ensures
        forall|tag: u128| #[trigger]
            r@.contains_key(tag) <==> best(hits@, owner@, tag) is Some,
        forall|tag: u128| #[trigger]
            r@.contains_key(tag) ==> best(hits@, owner@, tag) == Some(r@[tag]),
{
    let mut r: HashMap<u128, u32> = HashMap::new();
    let mut i: usize = 0;
    while i < hits.len()
        invariant
            i <= hits@.len(),
            forall|tag: u128| #[trigger]
                r@.contains_key(tag) <==> best(hits@.take(i as int), owner@, tag) is Some,
            forall|tag: u128| #[trigger]
                r@.contains_key(tag) ==> best(hits@.take(i as int), owner@, tag) == Some(r@[tag]),
        decreases hits@.len() - i,
    {
        let id: u64 = hits[i].0;
        proof {
            let now = hits@.take(i as int + 1);
            assert(now.drop_last() =~= hits@.take(i as int));
            assert(now.last() == hits@[i as int]);
        }
        if let Some(tag) = owner.get(&id) {
            let so_far: u32 = match r.get(tag) {
                Some(s) => *s,
                None => LEAST,
            };
            let next: u32 = to_score(hits[i].1);
            r.insert(
                *tag,
                if greater(next, so_far) {
                    next
                } else {
                    so_far
                },
            );
        }
        i += 1;
    }
    proof {
        assert(hits@.take(i as int) =~= hits@);
    }
    r
}

/// The tags of pairs of tags and scores.
spec fn tags_of(pairs: Seq<(u128, u32)>) -> Seq<u128> {
    pairs.map_values(|p: (u128, u32)| p.0)
}

/// The tags whose scores pass, with their scores, in some order.
fn passing(scores: &HashMap<u128, u32>, min_score: Option<u32>) -> (r: Vec<(u128, u32)>)
    ensures
        tags_of(r@).no_duplicates(),
        forall|tag: u128|
            tags_of(r@).contains(tag) <==> #[trigger] scores@.contains_key(tag) && passes(
                scores@[tag],
                min_score,
            ),
        forall|i: int| 0 <= i < r@.len() ==> scores@[(#[trigger] r@[i]).0] == r@[i].1,
{
    let mut r: Vec<(u128, u32)> = Vec::new();
    let ghost mut places: Seq<int> = Seq::empty();
    for (tag, s) in it: scores.iter()
        invariant
            it.seq().no_duplicates(),
            forall|i: int|
                0 <= i < it.seq().len() ==> scores@.contains_key(*(#[trigger] it.seq()[i]).0)
                    && scores@[*it.seq()[i].0] == *it.seq()[i].1,
            forall|t: u128| #[trigger]
                scores@.contains_key(t) ==> exists|i: int|
                    0 <= i < it.seq().len() && *(#[trigger] it.seq()[i]).0 == t,
            tags_of(r@).no_duplicates(),
            forall|i: int|
                0 <= i < r@.len() ==> scores@.contains_key((#[trigger] r@[i]).0)
                    && scores@[r@[i].0] == r@[i].1 && passes(r@[i].1, min_score),
            places.len() == r@.len(),
            forall|i: int|
                0 <= i < r@.len() ==> {
                    &&& 0 <= #[trigger] places[i] < it.index()
                    &&& *it.seq()[places[i]].0 == r@[i].0
                },
            forall|j: int|
                0 <= j < it.index() && passes(*it.seq()[j].1, min_score) ==> tags_of(
                    r@,
                ).contains(*(#[trigger] it.seq()[j]).0),
    {
        let ghost before = r@;
        let take = match min_score {
            Some(m) => at_least(*s, m),
            None => true,
        };
        if take {
            r.push((*tag, *s));
        }
        proof {
            let now = it.index();
            assert forall|i: int| 0 <= i < before.len() implies before[i].0 != *tag by {
                assert(0 <= places[i] < now);
                assert(it.seq()[places[i]] != it.seq()[now]);
            }
            assert(forall|i: int| 0 <= i < before.len() ==> tags_of(r@)[i] == tags_of(before)[i]);
            assert forall|t: u128| tags_of(before).contains(t) implies tags_of(r@).contains(t) by {
                let i = tags_of(before).index_of(t);
                assert(tags_of(r@)[i] == t);
            }
            if take {
                assert(tags_of(r@)[before.len() as int] == *tag);
                assert(tags_of(r@) =~= tags_of(before).push(*tag));
                places = places.push(now as int);
            }
        }
    }
    proof {
        assert forall|t: u128| tags_of(r@).contains(t) <==> #[trigger] scores@.contains_key(t)
            && passes(scores@[t], min_score) by {
            if tags_of(r@).contains(t) {
                let i = tags_of(r@).index_of(t);
                assert(r@[i].0 == t);
            }
        }
    }
    r
}

/// The tags of the chunks that were hit, each with the score of its best chunk: those
/// whose score is at least `min_score`, best first, and no more than `k`. Chunks
/// without an owner are passed over.
pub fn aggregate(
    chunk_hits: &[(u64, u32)],
    chunk_owner: &HashMap<u64, u128>,
    k: usize,
    min_score: Option<u32>,
) -> (out: Vec<SearchHit>)
    ensures
        is_answer(chunk_hits@, chunk_owner@, k as nat, min_score, out@),
{
    let scores = best_scores(chunk_hits, chunk_owner);
    let pairs = passing(&scores, min_score);
    let sorted = ranked(&pairs);
    let mut out: Vec<SearchHit> = Vec::new();
    let mut i: usize = 0;
    while i < sorted.len() && i < k
        invariant
            i <= sorted@.len(),
            i <= k,
            out@.len() == i,
            forall|j: int|
                0 <= j < i ==> (#[trigger] out@[j]).tag == sorted@[j].0 && out@[j].score
                    == sorted@[j].1,
        decreases sorted@.len() - i,
    {
        out.push(SearchHit { tag: sorted[i].0, score: sorted[i].1 });
        i += 1;
    }
    proof {
        let tags = found(chunk_hits@, chunk_owner@, min_score);
        let listed = tags_of(pairs@);
        assert(listed.to_set() =~= tags) by {
            assert forall|t: u128| listed.to_set().contains(t) == tags.contains(t) by {
                assert(scores@.contains_key(t) == (best(chunk_hits@, chunk_owner@, t) is Some));
            }
        }
        listed.unique_seq_to_set();
        let p = choose|p: Seq<int>| ranks_by(pairs@, sorted@, p);
        assert forall|j: int| 0 <= j < sorted@.len() implies sorted@[j] == pairs@[p[j]] && tags
            .contains((#[trigger] sorted@[j]).0) && best(
            chunk_hits@,
            chunk_owner@,
            sorted@[j].0,
        ) == Some(sorted@[j].1) by {
            assert(0 <= p[j] < pairs@.len() && sorted@[j] == pairs@[p[j]]);
            assert(listed[p[j]] == sorted@[j].0);
            assert(listed.to_set().contains(sorted@[j].0));
            assert(scores@.contains_key(sorted@[j].0));
        }
        assert forall|a: int, b: int| 0 <= a < b < sorted@.len() implies sorted@[a].0
            != sorted@[b].0 by {
            assert(p[a] != p[b]);
            assert(0 <= p[a] < pairs@.len() && 0 <= p[b] < pairs@.len());
            assert(listed[p[a]] == sorted@[a].0 && listed[p[b]] == sorted@[b].0);
        }
        assert forall|tag: u128, m: int|
            #![trigger tags.contains(tag), out@[m]]
            tags.contains(tag) && 0 <= m < out@.len() implies (exists|j: int|
            0 <= j < out@.len() && (#[trigger] out@[j]).tag == tag) || rank(
            best(chunk_hits@, chunk_owner@, tag)->0,
        ) <= rank(out@[m].score) by {
            assert(listed.to_set().contains(tag));
            let a = listed.index_of(tag);
            let b = lemma_found(p, pairs@.len(), a);
            assert(sorted@[b] == pairs@[a]);
            if b < out@.len() {
                assert(out@[b].tag == tag);
            } else {
                assert(rank(sorted@[m].1) >= rank(sorted@[b].1));
            }
        }
    }
    out
}

/// The hit belongs to the tag and has a number as its similarity.
pub open spec fn counts(hits: Seq<(u64, u32)>, owner: Map<u64, u128>, tag: u128, i: int) -> bool {
    0 <= i < hits.len() && owner.contains_key(hits[i].0) && owner[hits[i].0] == tag && !is_nan(
        hits[i].1,
    )
}

/// A tag's score is that of one of its chunks, and no chunk of the tag has a better one.
pub proof fn law_best_is_greatest(hits: Seq<(u64, u32)>, owner: Map<u64, u128>, tag: u128, i: int)
    requires
        counts(hits, owner, tag, i),
    ensures
        best(hits, owner, tag) is Some,
        rank(best(hits, owner, tag)->0) >= rank(score(hits[i].1)),
        exists|j: int|
            #[trigger] counts(hits, owner, tag, j) && best(hits, owner, tag) == Some(
                score(hits[j].1),
            ),
    decreases hits.len(),
{
    let most = hits.drop_last();
    let last = hits.len() - 1;
    lemma_best_number(most, owner, tag);
    law_score_bounded(hits[i].1);
    if i < last {
        assert(counts(most, owner, tag, i));
        law_best_is_greatest(most, owner, tag, i);
        let j = choose|j: int| #[trigger]
            counts(most, owner, tag, j) && best(most, owner, tag) == Some(score(most[j].1));
        assert(counts(hits, owner, tag, j));
        assert(counts(hits, owner, tag, last) || best(hits, owner, tag) == best(most, owner, tag));
    } else {
        if best(most, owner, tag) is Some && best(most, owner, tag)->0 != LEAST {
            let j = lemma_best_attained(most, owner, tag);
            assert(counts(hits, owner, tag, j));
        }
        assert(counts(hits, owner, tag, last));
    }
}

proof fn lemma_best_number(hits: Seq<(u64, u32)>, owner: Map<u64, u128>, tag: u128)
    ensures
        best(hits, owner, tag) is Some ==> !is_nan(best(hits, owner, tag)->0) && rank(
            best(hits, owner, tag)->0,
        ) >= rank(LEAST),
    decreases hits.len(),
{
    if hits.len() > 0 {
        lemma_best_number(hits.drop_last(), owner, tag);
    }
}

proof fn lemma_best_attained(hits: Seq<(u64, u32)>, owner: Map<u64, u128>, tag: u128) -> (j: int)
    requires
        best(hits, owner, tag) is Some,
        best(hits, owner, tag)->0 != LEAST,
    ensures
        counts(hits, owner, tag, j),
        best(hits, owner, tag) == Some(score(hits[j].1)),
    decreases hits.len(),
{
    let most = hits.drop_last();
    if best(hits, owner, tag) == best(most, owner, tag) {
        lemma_best_attained(most, owner, tag)
    } else {
        hits.len() - 1
    }
}

/// A hit on a chunk without an owner changes nothing.
pub proof fn law_unknown_chunk_ignored(
    hits: Seq<(u64, u32)>,
    owner: Map<u64, u128>,
    i: int,
    tag: u128,
)
    requires
        0 <= i < hits.len(),
        !owner.contains_key(hits[i].0),
    ensures
        best(hits.remove(i), owner, tag) == best(hits, owner, tag),
    decreases hits.len(),
{
    let last = hits.len() - 1;
    if i == last {
        assert(hits.remove(i) =~= hits.drop_last());
    } else {
        law_unknown_chunk_ignored(hits.drop_last(), owner, i, tag);
        assert(hits.remove(i).drop_last() =~= hits.drop_last().remove(i));
        assert(hits.remove(i).last() == hits.last());
    }
}

/// Only tags of the store that a snapshot shows are found: no deleted tag, and none
/// that was never filed.
pub proof fn law_found_tags_exist(
    hits: Seq<(u64, u32)>,
    tags: Map<u128, Seq<u64>>,
    owner: Map<u64, u128>,
    min_score: Option<u32>,
    tag: u128,
)
    requires
        owners_of(tags, owner),
        found(hits, owner, min_score).contains(tag),
    ensures
        tags.contains_key(tag),
{
    lemma_best_owned(hits, owner, tag);
    let id = choose|id: u64| #[trigger] owner.contains_key(id) && owner[id] == tag;
    assert(has_chunk(tags, owner[id], id));
}

/// A tag with a chunk among the hits is found, whatever the chunk's score, where no least
/// score is asked for.
pub proof fn law_owned_hit_found(hits: Seq<(u64, u32)>, owner: Map<u64, u128>, i: int)
    requires
        0 <= i < hits.len(),
        owner.contains_key(hits[i].0),
    ensures
        best(hits, owner, owner[hits[i].0]) is Some,
        found(hits, owner, None).contains(owner[hits[i].0]),
    decreases hits.len(),
{
    if i < hits.len() - 1 {
        assert(hits.drop_last()[i] == hits[i]);
        law_owned_hit_found(hits.drop_last(), owner, i);
    }
}

proof fn lemma_best_owned(hits: Seq<(u64, u32)>, owner: Map<u64, u128>, tag: u128)
    requires
        best(hits, owner, tag) is Some,
    ensures
        exists|id: u64| #[trigger] owner.contains_key(id) && owner[id] == tag,
    decreases hits.len(),
{
    let id = hits.last().0;
    if !(owner.contains_key(id) && owner[id] == tag) {
        lemma_best_owned(hits.drop_last(), owner, tag);
    }
}

/// The answer to a search: each tag in it has a chunk among the hits and the score of its best
/// chunk, which no chunk of the tag exceeds, and the score is not below the least that is asked
/// for. Better scores come first, no tag comes twice, and there are at most `k`.
pub proof fn law_answer_scores(
    hits: Seq<(u64, u32)>,
    owner: Map<u64, u128>,
    k: nat,
    min_score: Option<u32>,
    out: Seq<SearchHit>,
    i: int,
    j: int,
    h: int,
)
    requires
        is_answer(hits, owner, k, min_score, out),
        forall|x: int| 0 <= x < hits.len() ==> !is_nan((#[trigger] hits[x]).1),
        0 <= i < out.len(),
    ensures
        out.len() <= k,
        exists|x: int|
            0 <= x < hits.len() && owner.contains_key((#[trigger] hits[x]).0) && owner[hits[x].0]
                == out[i].tag && score(hits[x].1) == out[i].score,
        0 <= h < hits.len() && owner.contains_key(hits[h].0) && owner[hits[h].0] == out[i].tag
            ==> !is_greater(score(hits[h].1), out[i].score),
        min_score is Some ==> is_at_least(out[i].score, min_score->0),
        0 <= i < j < out.len() ==> out[i].tag != out[j].tag && !is_greater(
            out[j].score,
            out[i].score,
        ),
{
    let tag = out[i].tag;
    assert(found(hits, owner, min_score).contains(tag));
    let x = lemma_owned_hit(hits, owner, tag);
    assert(counts(hits, owner, tag, x));
    law_best_is_greatest(hits, owner, tag, x);
    let y = choose|y: int| #[trigger]
        counts(hits, owner, tag, y) && best(hits, owner, tag) == Some(score(hits[y].1));
    assert(owner.contains_key(hits[y].0));
    if 0 <= h < hits.len() && owner.contains_key(hits[h].0) && owner[hits[h].0] == tag {
        assert(counts(hits, owner, tag, h));
        law_best_is_greatest(hits, owner, tag, h);
    }
}

proof fn lemma_owned_hit(hits: Seq<(u64, u32)>, owner: Map<u64, u128>, tag: u128) -> (x: int)
    requires
        best(hits, owner, tag) is Some,
    ensures
        0 <= x < hits.len(),
        owner.contains_key(hits[x].0),
        owner[hits[x].0] == tag,
    decreases hits.len(),
{
    let id = hits.last().0;
    if owner.contains_key(id) && owner[id] == tag {
        hits.len() - 1
    } else {
        lemma_owned_hit(hits.drop_last(), owner, tag)
    }
}

/// No tag is left out of an answer but for better ones: a tag with a chunk among the hits whose
/// score is not below the least that is asked for is in the answer, or the answer holds `k` tags
/// and each of them scores at least as much.
pub proof fn law_answer_leaves_out_no_better(
    hits: Seq<(u64, u32)>,
    owner: Map<u64, u128>,
    k: nat,
    min_score: Option<u32>,
    out: Seq<SearchHit>,
    h: int,
    i: int,
)
    requires
        is_answer(hits, owner, k, min_score, out),
        forall|x: int| 0 <= x < hits.len() ==> !is_nan((#[trigger] hits[x]).1),
        0 <= h < hits.len(),
        owner.contains_key(hits[h].0),
        min_score is None || is_at_least(score(hits[h].1), min_score->0),
        forall|x: int| 0 <= x < out.len() ==> (#[trigger] out[x]).tag != owner[hits[h].0],
    ensures
        out.len() == k,
        0 <= i < out.len() ==> is_at_least(out[i].score, score(hits[h].1)),
{
    let tag = owner[hits[h].0];
    let tags = found(hits, owner, min_score);
    assert(counts(hits, owner, tag, h));
    law_best_is_greatest(hits, owner, tag, h);
    law_score_bounded(hits[h].1);
    lemma_best_number(hits, owner, tag);
    assert(tags.contains(tag));
    if out.len() < k {
        let given = out.map_values(|x: SearchHit| x.tag);
        assert(given.no_duplicates()) by {
            assert forall|a: int, b: int| 0 <= a < b < given.len() implies given[a] != given[b] by {
                assert(out[a].tag != out[b].tag);
            }
        }
        given.unique_seq_to_set();
        assert(given.to_set().subset_of(tags)) by {
            assert forall|t: u128| given.to_set().contains(t) implies tags.contains(t) by {
                let a = given.index_of(t);
                assert(given[a] == out[a].tag);
            }
        }
        vstd::set_lib::lemma_subset_equality(given.to_set(), tags);
        assert(given.contains(tag));
        let a = given.index_of(tag);
        assert(out[a].tag == tag);
    }
    if 0 <= i < out.len() {
        assert(tags.contains(out[i].tag));
        lemma_best_number(hits, owner, out[i].tag);
        assert(tags.contains(tag) && rank(best(hits, owner, tag)->0) <= rank(out[i].score));
    }
}

/// A tag whose chunks among the hits all have a similarity that is no number is found, with the
/// least score that there is.
pub proof fn law_unscored_tag_comes_last(
    hits: Seq<(u64, u32)>,
    owner: Map<u64, u128>,
    tag: u128,
    i: int,
)
    requires
        0 <= i < hits.len(),
        owner.contains_key(hits[i].0) && owner[hits[i].0] == tag,
        forall|x: int|
            0 <= x < hits.len() && owner.contains_key((#[trigger] hits[x]).0) && owner[hits[x].0]
                == tag ==> is_nan(hits[x].1),
    ensures
        best(hits, owner, tag) == Some(0xff7f_ffffu32),
{
    law_owned_hit_found(hits, owner, i);
    lemma_unscored(hits, owner, tag);
}

proof fn lemma_unscored(hits: Seq<(u64, u32)>, owner: Map<u64, u128>, tag: u128)
    requires
        forall|x: int|
            0 <= x < hits.len() && owner.contains_key((#[trigger] hits[x]).0) && owner[hits[x].0]
                == tag ==> is_nan(hits[x].1),
    ensures
        best(hits, owner, tag) is None || best(hits, owner, tag) == Some(0xff7f_ffffu32),
    decreases hits.len(),
{
    if hits.len() > 0 {
        let most = hits.drop_last();
        assert forall|x: int| 0 <= x < most.len() && owner.contains_key((#[trigger] most[x]).0)
            && owner[most[x].0] == tag implies is_nan(most[x].1) by {
            assert(most[x] == hits[x]);
        }
        lemma_unscored(most, owner, tag);
        assert(hits.last() == hits[hits.len() - 1]);
    }
}

} // verus!
