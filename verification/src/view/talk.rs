//! What a workspace and the builder of its scenes say to each other.

use crate::view::layout::LayoutError;
use crate::view::scene::{Exchange, SceneAnswer, SceneBuilder, SceneModel, SceneRequest};
use vstd::prelude::*;

verus! {

/// A builder, and the scene that it has to do with.
pub struct Hand<B> {
    pub builder: B,
    pub scene: SceneModel,
}

/// What was asked.
pub open spec fn requests_of(talk: Seq<Exchange>) -> Seq<SceneRequest> {
    talk.map_values(|exchange: Exchange| exchange.request)
}

/// The builders follow one another, each taken from the one before it.
pub open spec fn is_lineage<B: SceneBuilder>(line: Seq<B>) -> bool {
    forall|i: int, j: int| 0 <= i && j == i + 1 && j < line.len() ==> (#[trigger] line[i]).forks(
        #[trigger] line[j],
    )
}

/// The line leads from one builder to another.
pub open spec fn leads<B: SceneBuilder>(line: Seq<B>, from: B, to: B) -> bool {
    is_lineage(line) && line.len() > 0 && line[0] == from && line.last() == to
}

/// Nothing was asked in between: the builder is the same, or was taken from it.
pub open spec fn handed_on<B: SceneBuilder>(from: Hand<B>, to: Hand<B>) -> bool {
    from.scene == to.scene && exists|line: Seq<B>| #[trigger]
        leads(line, from.builder, to.builder)
}

/// The builder was asked that, and answered like that.
pub open spec fn answered<B: SceneBuilder>(
    from: Hand<B>,
    exchange: Exchange,
    to: Hand<B>,
) -> bool {
    &&& exchange.before == from.scene
    &&& exchange.after == to.scene
    &&& from.builder.answers(exchange, to.builder)
}

/// Builders were asked one thing after the other, and answered each as they may.
pub open spec fn conversed<B: SceneBuilder>(
    from: Hand<B>,
    talk: Seq<Exchange>,
    to: Hand<B>,
) -> bool
    decreases talk.len(),
{
    if talk.len() == 0 {
        handed_on(from, to)
    } else {
        exists|asked: Hand<B>, done: Hand<B>|
            #![trigger answered(asked, talk.last(), done)]
            conversed(from, talk.drop_last(), asked) && answered(asked, talk.last(), done)
                && handed_on(done, to)
    }
}

/// The error is what the builder answered to the last request.
pub open spec fn refused(talk: Seq<Exchange>, error: LayoutError) -> bool {
    talk.len() > 0 && (error matches LayoutError::Scene(reason) && talk.last().answer
        == SceneAnswer::Refused(reason))
}

/// The first things that were asked are those.
pub open spec fn begins(talk: Seq<Exchange>, requests: Seq<SceneRequest>) -> bool {
    talk.len() >= requests.len() && requests_of(talk.take(requests.len() as int)) == requests
}

/// Of those requests one after the other was made, up to one that the builder refused.
pub open spec fn stops_at(
    talk: Seq<Exchange>,
    requests: Seq<SceneRequest>,
    error: LayoutError,
) -> bool {
    &&& talk.len() <= requests.len()
    &&& requests_of(talk) == requests.take(talk.len() as int)
    &&& refused(talk, error)
}

/// The scene after all that was asked.
pub open spec fn scene_after(talk: Seq<Exchange>, scene: SceneModel) -> SceneModel {
    if talk.len() == 0 {
        scene
    } else {
        talk.last().after
    }
}

pub proof fn lemma_handed_on_itself<B: SceneBuilder>(hand: Hand<B>)
    ensures
        handed_on(hand, hand),
{
    assert(leads(seq![hand.builder], hand.builder, hand.builder));
}

pub proof fn lemma_handed_on_joins<B: SceneBuilder>(a: Hand<B>, b: Hand<B>, c: Hand<B>)
    requires
        handed_on(a, b),
        handed_on(b, c),
    ensures
        handed_on(a, c),
{
    let first = choose|line: Seq<B>| #[trigger] leads(line, a.builder, b.builder);
    let second = choose|line: Seq<B>| #[trigger] leads(line, b.builder, c.builder);
    let whole = first + second.drop_first();
    assert forall|i: int, j: int| 0 <= i && j == i + 1 && j < whole.len() implies (
    #[trigger] whole[i]).forks(#[trigger] whole[j]) by {
        if j < first.len() {
            assert(first[i].forks(first[j]));
        } else {
            let k = j - first.len() + 1;
            assert(second[k - 1].forks(second[k]));
        }
    }
    assert(whole.last() == c.builder) by {
        if second.len() == 1 {
            assert(whole =~= first);
        }
    }
    assert(leads(whole, a.builder, c.builder));
}

/// A fork goes on from where the builder is.
pub proof fn lemma_forked<B: SceneBuilder>(from: Hand<B>, to: Hand<B>)
    requires
        from.scene == to.scene,
        from.builder.forks(to.builder),
    ensures
        handed_on(from, to),
{
    let line = seq![from.builder, to.builder];
    assert(leads(line, from.builder, to.builder));
}

/// What was said to one builder and then to the next was said to both.
pub proof fn lemma_talk_joins<B: SceneBuilder>(
    a: Hand<B>,
    first: Seq<Exchange>,
    b: Hand<B>,
    second: Seq<Exchange>,
    c: Hand<B>,
)
    requires
        conversed(a, first, b),
        conversed(b, second, c),
    ensures
        conversed(a, first + second, c),
    decreases second.len(),
{
    if second.len() == 0 {
        assert(first + second =~= first);
        if first.len() == 0 {
            lemma_handed_on_joins(a, b, c);
        } else {
            let (asked, done) = choose|asked: Hand<B>, done: Hand<B>|
                #![trigger answered(asked, first.last(), done)]
                conversed(a, first.drop_last(), asked) && answered(asked, first.last(), done)
                    && handed_on(done, b);
            lemma_handed_on_joins(done, b, c);
        }
    } else {
        let (asked, done) = choose|asked: Hand<B>, done: Hand<B>|
            #![trigger answered(asked, second.last(), done)]
            conversed(b, second.drop_last(), asked) && answered(asked, second.last(), done)
                && handed_on(done, c);
        lemma_talk_joins(a, first, b, second.drop_last(), asked);
        let whole = first + second;
        assert(whole.drop_last() =~= first + second.drop_last());
        assert(whole.last() == second.last());
        assert(answered(asked, whole.last(), done));
    }
}

/// One exchange is a conversation.
pub proof fn lemma_one_exchange<B: SceneBuilder>(from: Hand<B>, exchange: Exchange, to: Hand<B>)
    requires
        answered(from, exchange, to),
    ensures
        conversed(from, seq![exchange], to),
{
    let talk = seq![exchange];
    lemma_handed_on_itself(from);
    lemma_handed_on_itself(to);
    assert(talk.drop_last() =~= Seq::empty());
    assert(conversed(from, talk.drop_last(), from));
    assert(answered(from, talk.last(), to));
}

/// What was asked in two parts.
pub proof fn lemma_requests_join(first: Seq<Exchange>, second: Seq<Exchange>)
    ensures
        requests_of(first + second) == requests_of(first) + requests_of(second),
{
    assert(requests_of(first + second) =~= requests_of(first) + requests_of(second));
}

} // verus!
