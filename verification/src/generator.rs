//! Sample entity sets: non-overlapping spans placed directly from random
//! draws, each with a payload as long as its span.
use rand::rngs::ThreadRng;
use rand::Rng;
use vstd::prelude::*;
use vstd::string::StringExecFns;
use crate::decoder::{decode, decoded_payloads, lemma_decode_plain};
use crate::entity::{decoded_contents, spans_of, DecodedEntity, Entity, Spanned};

verus! {

/// The thread-local random generator of `rand`, carried through unopened.
#[verifier::external_type_specification]
#[verifier::external_body]
pub struct ExThreadRng(ThreadRng);

/// `rand::thread_rng`: a handle to the thread's generator. Nothing is claimed
/// of the handle. The call fails only where the operating system has no
/// entropy to seed the generator with.
#[verifier::external_body]
fn thread_generator() -> (rng: ThreadRng) {
    rand::thread_rng()
}

/// `rand::Rng::gen::<usize>`: the generator's next `usize`. Any value may
/// come back, so nothing is claimed of it.
#[verifier::external_body]
fn next_draw(rng: &mut ThreadRng) -> (draw: usize) {
    rng.gen::<usize>()
}

/// The most entities that a sample holds.
pub const MAX_SAMPLE_ENTITIES: usize = 9;

/// How many entities a sample over a text of `text_len` units holds, for a
/// draw: `draw % 10`, but no more than the text and the draws have room for.
pub open spec fn sample_count(draw: usize, text_len: usize, draws: nat) -> int {
    let wanted = draw as int % 10;
    let room = text_len as int / 2;
    let supplied = draws as int / 2;
    if wanted <= room && wanted <= supplied {
        wanted
    } else if room <= supplied {
        room
    } else {
        supplied
    }
}

/// The point that a draw picks in `[low, high]`.
pub open spec fn pick(draw: usize, low: int, high: int) -> int {
    low + (draw as int) % (high - low + 1)
}

/// The `j`-th of the `2 * count` points of a sample, ascending: each is picked
/// after the one before it, and leaves room for those that follow before the
/// last position of the text.
pub open spec fn point_at(draws: Seq<usize>, text_len: int, count: int, j: int) -> int
    decreases j,
{
    let low = if j <= 0 {
        0
    } else {
        point_at(draws, text_len, count, j - 1) + 1
    };
    pick(draws[j], low, text_len - (2 * count - j))
}

/// A payload of `n` filler characters.
pub open spec fn filler(n: int) -> Seq<char> {
    Seq::new(n as nat, |i: int| 'X')
}

/// Whether a list is a sample over a text of `text_len` units: at most nine
/// entities, each non-empty and inside the text, each beginning after the one
/// before it has ended, each with a filler payload as long as its span.
pub open spec fn is_sample(list: Seq<Entity>, text_len: usize) -> bool {
    &&& list.len() <= MAX_SAMPLE_ENTITIES
    &&& forall|i: int|
        0 <= i < list.len() ==> {
            &&& (#[trigger] list[i]).start < list[i].end < text_len
            &&& list[i].html@ == filler(list[i].end - list[i].start)
            &&& (i > 0 ==> list[i - 1].end < list[i].start)
        }
}

/// The same of decoded entities.
pub open spec fn is_decoded_sample(list: Seq<DecodedEntity>, text_len: usize) -> bool {
    &&& list.len() <= MAX_SAMPLE_ENTITIES
    &&& forall|i: int|
        0 <= i < list.len() ==> {
            &&& (#[trigger] list[i]).start < list[i].end < text_len
            &&& list[i].html@ == filler(list[i].end - list[i].start)
            &&& (i > 0 ==> list[i - 1].end < list[i].start)
        }
}

/// A payload of `n` times the character `X`.
pub fn filler_payload(n: usize) -> (s: String)
    ensures
        s@ == filler(n as int),
{
    let mut s = String::new();
    let mut i: usize = 0;
    while i < n
        invariant
            0 <= i <= n,
            s@ == filler(i as int),
        decreases n - i,
    {
        proof {
            reveal_strlit("X");
        }
        s.append("X");
        assert(s@ =~= filler(i + 1));
        i += 1;
    }
    s
}

/// The number of entities of a sample, for a draw.
pub fn entity_count(draw: usize, text_len: usize, draws: usize) -> (count: usize)
    ensures
        count == sample_count(draw, text_len, draws as nat),
        count <= MAX_SAMPLE_ENTITIES,
        2 * count <= text_len,
        2 * count <= draws,
{
    let wanted = draw % 10;
    let room = text_len / 2;
    let supplied = draws / 2;
    if wanted <= room && wanted <= supplied {
        wanted
    } else if room <= supplied {
        room
    } else {
        supplied
    }
}

proof fn lemma_point_bounds(draws: Seq<usize>, text_len: int, count: int, j: int)
    requires
        0 <= j < 2 * count <= text_len,
    ensures
        j <= point_at(draws, text_len, count, j) <= text_len - (2 * count - j),
        j > 0 ==> point_at(draws, text_len, count, j - 1) < point_at(draws, text_len, count, j),
    decreases j,
{
    if j > 0 {
        lemma_point_bounds(draws, text_len, count, j - 1);
    }
}

/// Builds the sample that the draws determine over a text of `text_len`
/// units: `count_draw` gives the number of entities, and `draws` their points,
/// two for each entity.
pub fn entities_from_draws(text_len: usize, count_draw: usize, draws: &Vec<usize>) -> (list: Vec<
    Entity,
>)
    ensures
        list.len() == sample_count(count_draw, text_len, draws.len() as nat),
        forall|i: int|
            0 <= i < list.len() ==> {
                &&& (#[trigger] list[i]).start == point_at(
                    draws@,
                    text_len as int,
                    list.len() as int,
                    2 * i,
                )
                &&& list[i].end == point_at(draws@, text_len as int, list.len() as int, 2 * i + 1)
            },
        is_sample(list@, text_len),
{
    let count = entity_count(count_draw, text_len, draws.len());
    let mut list: Vec<Entity> = Vec::new();
    let mut low: usize = 0;
    let mut i: usize = 0;
    while i < count
        invariant
            0 <= i <= count <= MAX_SAMPLE_ENTITIES,
            2 * count <= text_len,
            2 * count <= draws.len(),
            list.len() == i,
            low == if i == 0 {
                0
            } else {
                point_at(draws@, text_len as int, count as int, 2 * i - 1) + 1
            },
            forall|k: int|
                0 <= k < i ==> {
                    &&& (#[trigger] list[k]).start == point_at(
                        draws@,
                        text_len as int,
                        count as int,
                        2 * k,
                    )
                    &&& list[k].end == point_at(draws@, text_len as int, count as int, 2 * k + 1)
                    &&& list[k].html@ == filler(list[k].end - list[k].start)
                },
        decreases count - i,
    {
        proof {
            lemma_point_bounds(draws@, text_len as int, count as int, 2 * i);
            lemma_point_bounds(draws@, text_len as int, count as int, 2 * i + 1);
        }
        let high_start = text_len - (2 * count - 2 * i);
        let start = low + draws[2 * i] % (high_start - low + 1);
        let end = start + 1 + draws[2 * i + 1] % (high_start - start + 1);
        list.push(Entity { start, end, html: filler_payload(end - start) });
        low = end + 1;
        i += 1;
    }
    proof {
        assert forall|k: int| 0 <= k < list.len() implies {
            &&& (#[trigger] list[k]).start < list[k].end < text_len
            &&& (k > 0 ==> list[k - 1].end < list[k].start)
        } by {
            lemma_point_bounds(draws@, text_len as int, count as int, 2 * k);
            lemma_point_bounds(draws@, text_len as int, count as int, 2 * k + 1);
        }
    }
    list
}

/// Generates `lists` samples over a text of `text_len` units from the
/// thread's random generator. Which spans come out depends on the draws; each
/// list is a sample whatever they are.
pub fn generate_entities(text_len: usize, lists: usize) -> (samples: Vec<Vec<Entity>>)
    ensures
        samples.len() == lists,
        forall|i: int| 0 <= i < samples.len() ==> is_sample((#[trigger] samples[i])@, text_len),
{
    let mut rng = thread_generator();
    let mut samples: Vec<Vec<Entity>> = Vec::new();
    let mut i: usize = 0;
    while i < lists
        invariant
            0 <= i <= lists,
            samples.len() == i,
            forall|k: int| 0 <= k < samples.len() ==> is_sample((#[trigger] samples[k])@, text_len),
        decreases lists - i,
    {
        let count_draw = next_draw(&mut rng);
        let mut draws: Vec<usize> = Vec::new();
        let mut j: usize = 0;
        while j < 2 * MAX_SAMPLE_ENTITIES
            invariant
                0 <= j <= 2 * MAX_SAMPLE_ENTITIES,
                draws.len() == j,
            decreases 2 * MAX_SAMPLE_ENTITIES - j,
        {
            draws.push(next_draw(&mut rng));
            j += 1;
        }
        samples.push(entities_from_draws(text_len, count_draw, &draws));
        i += 1;
    }
    samples
}

/// Decodes every list: the result has one decoded list for each list, in the
/// same order, each as `decode` gives it.
pub fn decode_samples(samples: &Vec<Vec<Entity>>) -> (decoded: Vec<Vec<DecodedEntity>>)
    ensures
        decoded.len() == samples.len(),
        forall|i: int|
            0 <= i < decoded.len() ==> {
                &&& (#[trigger] decoded[i]).len() == samples[i].len()
                &&& spans_of(decoded[i]@) == spans_of(samples[i]@)
                &&& decoded_contents(decoded[i]@) == decoded_payloads(samples[i]@)
            },
{
    let mut decoded: Vec<Vec<DecodedEntity>> = Vec::new();
    let mut i: usize = 0;
    while i < samples.len()
        invariant
            0 <= i <= samples.len(),
            decoded.len() == i,
            forall|k: int|
                0 <= k < decoded.len() ==> {
                    &&& (#[trigger] decoded[k]).len() == samples[k].len()
                    &&& spans_of(decoded[k]@) == spans_of(samples[k]@)
                    &&& decoded_contents(decoded[k]@) == decoded_payloads(samples[k]@)
                },
        decreases samples.len() - i,
    {
        decoded.push(decode(&samples[i]));
        i += 1;
    }
    decoded
}

/// A sample decodes to itself: a filler payload holds no reference.
proof fn lemma_decoded_sample(raw: Seq<Entity>, list: Seq<DecodedEntity>, text_len: usize)
    requires
        is_sample(raw, text_len),
        list.len() == raw.len(),
        spans_of(list) == spans_of(raw),
        decoded_contents(list) == decoded_payloads(raw),
    ensures
        is_decoded_sample(list, text_len),
{
    assert forall|k: int| 0 <= k < list.len() implies {
        &&& (#[trigger] list[k]).start < list[k].end < text_len
        &&& list[k].html@ == filler(list[k].end - list[k].start)
        &&& (k > 0 ==> list[k - 1].end < list[k].start)
    } by {
        assert(spans_of(list)[k] == list[k].span());
        assert(spans_of(raw)[k] == raw[k].span());
        if k > 0 {
            assert(spans_of(list)[k - 1] == list[k - 1].span());
            assert(spans_of(raw)[k - 1] == raw[k - 1].span());
        }
        assert(decoded_contents(list)[k] == decoded_payloads(raw)[k]);
        let payload = raw[k].html@;
        assert forall|t: int| 0 <= t < payload.len() implies payload[t] != '&' by {}
        lemma_decode_plain(payload);
    }
}

/// Generates `lists` samples over a text of `text_len` units and decodes
/// them. Whatever the draws are, each decoded list is a sample.
pub fn generate_decoded_entities(text_len: usize, lists: usize) -> (samples: Vec<Vec<DecodedEntity>>)
    ensures
        samples.len() == lists,
        forall|i: int|
            0 <= i < samples.len() ==> is_decoded_sample((#[trigger] samples[i])@, text_len),
{
    let raw = generate_entities(text_len, lists);
    let decoded = decode_samples(&raw);
    proof {
        assert forall|i: int| 0 <= i < decoded.len() implies is_decoded_sample(
            (#[trigger] decoded[i])@,
            text_len,
        ) by {
            lemma_decoded_sample(raw[i]@, decoded[i]@, text_len);
        }
    }
    decoded
}

} // verus!
