use vstd::prelude::*;

use crate::model::{Episode, EpisodeView, episodes_view};

verus! {

/// Some episode of `stored` carries exactly the title `t`.
pub open spec fn titled_in(t: Seq<char>, stored: Seq<EpisodeView>) -> bool {
    exists|j: int| 0 <= j < stored.len() && #[trigger] stored[j].title == t
}

/// The episodes of `live`, in their order, whose title no episode of `stored` has.
pub open spec fn unseen(stored: Seq<EpisodeView>, live: Seq<EpisodeView>) -> Seq<EpisodeView> {
    live.filter(|e: EpisodeView| !titled_in(e.title, stored))
}

/// The episodes of `live` whose title some episode of `stored` has.
pub open spec fn seen(stored: Seq<EpisodeView>, live: Seq<EpisodeView>) -> Seq<EpisodeView> {
    live.filter(|e: EpisodeView| titled_in(e.title, stored))
}

/// Whether some episode of `stored` has the title `title`.
pub fn has_title(stored: &[Episode], title: &String) -> (r: bool)
    ensures
        r == titled_in(title@, episodes_view(stored@)),
{
    let ghost sv = episodes_view(stored@);
    let mut j: usize = 0;
    while j < stored.len()
        invariant
            j <= stored@.len(),
            sv == episodes_view(stored@),
            forall|k: int| 0 <= k < j ==> sv[k].title != title@,
        decreases stored.len() - j,
    {
        if stored[j].title == *title {
            assert(sv[j as int].title == title@);
            return true;
        }
        j = j + 1;
    }
    false
}

/// Compares the episodes read from a live feed with those already stored.
/// Returns, in the order of `live`, the episodes whose title is not the title
/// of any stored episode, and how many they are.
pub fn reconcile(stored: &[Episode], live: &[Episode]) -> (r: (Vec<Episode>, usize))
    ensures
        episodes_view(r.0@) == unseen(episodes_view(stored@), episodes_view(live@)),
        r.1 == r.0@.len(),
{
    let ghost sv = episodes_view(stored@);
    let ghost lv = episodes_view(live@);
    let ghost pred = |e: EpisodeView| !titled_in(e.title, sv);
    let mut fresh: Vec<Episode> = Vec::new();
    let mut i: usize = 0;
    while i < live.len()
        invariant
            i <= live@.len(),
            sv == episodes_view(stored@),
            lv == episodes_view(live@),
            pred == (|e: EpisodeView| !titled_in(e.title, sv)),
            episodes_view(fresh@) == lv.take(i as int).filter(pred),
            fresh@.len() <= i,
        decreases live.len() - i,
    {
        proof {
            assert(lv.take(i + 1).drop_last() =~= lv.take(i as int));
            reveal(Seq::filter);
        }
        if !has_title(stored, &live[i].title) {
            let e = live[i].duplicate();
            fresh.push(e);
            assert(episodes_view(fresh@) =~= lv.take(i as int).filter(pred).push(lv[i as int]));
        }
        i = i + 1;
    }
    assert(lv.take(live@.len() as int) =~= lv);
    let n = fresh.len();
    (fresh, n)
}

proof fn lemma_filter_split(s: Seq<EpisodeView>, p: spec_fn(EpisodeView) -> bool)
    ensures
        s.filter(p).len() + s.filter(|e: EpisodeView| !p(e)).len() == s.len(),
    decreases s.len(),
{
    reveal(Seq::filter);
    if s.len() > 0 {
        lemma_filter_split(s.drop_last(), p);
    }
}

/// Every episode of `live` is either new or has a stored title: the number of new
/// episodes is the length of `live` less the number whose title is already stored.
pub proof fn lemma_reconcile_counts(stored: Seq<EpisodeView>, live: Seq<EpisodeView>)
    ensures
        unseen(stored, live).len() == live.len() - seen(stored, live).len(),
{
    let p = |e: EpisodeView| titled_in(e.title, stored);
    lemma_filter_split(live, p);
    assert((|e: EpisodeView| !p(e)) == (|e: EpisodeView| !titled_in(e.title, stored)));
}

/// Storing the new episodes and comparing again with the same live feed finds
/// nothing new.
pub proof fn lemma_reconcile_idempotent(stored: Seq<EpisodeView>, live: Seq<EpisodeView>)
    ensures
        unseen(stored + unseen(stored, live), live).len() == 0,
{
    let fresh = unseen(stored, live);
    let merged = stored + fresh;
    let pred = |e: EpisodeView| !titled_in(e.title, stored);
    assert forall|i: int| 0 <= i < live.len() implies titled_in(live[i].title, merged) by {
        if titled_in(live[i].title, stored) {
            let j = choose|j: int| 0 <= j < stored.len() && #[trigger] stored[j].title == live[i].title;
            assert(merged[j].title == live[i].title);
        } else {
            live.lemma_filter_contains(pred, i);
            let k = choose|k: int| 0 <= k < fresh.len() && fresh[k] == live[i];
            assert(merged[stored.len() + k].title == live[i].title);
        }
    }
    lemma_nothing_unseen(merged, live);
}

proof fn lemma_nothing_unseen(stored: Seq<EpisodeView>, live: Seq<EpisodeView>)
    requires
        forall|i: int| 0 <= i < live.len() ==> titled_in(#[trigger] live[i].title, stored),
    ensures
        unseen(stored, live).len() == 0,
    decreases live.len(),
{
    reveal(Seq::filter);
    if live.len() > 0 {
        let rest = live.drop_last();
        assert forall|i: int| 0 <= i < rest.len() implies titled_in(#[trigger] rest[i].title, stored) by {
            assert(rest[i] == live[i]);
        }
        lemma_nothing_unseen(stored, rest);
        assert(titled_in(live[live.len() - 1].title, stored));
    }
}

} // verus!
