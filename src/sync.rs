use vstd::prelude::*;

use crate::feed::{ParseError, feed_of, parse, xml_events_of};
use crate::model::Podcast;
use crate::reconcile::{reconcile, unseen};
use crate::store::{encode_episodes, episodes_text};
use crate::text::{chars_of, text_between};

verus! {

/// The text to append to the record of `stored` for the episodes of `live`
/// whose title it does not hold yet, and how many they are.
pub fn sync_entries(stored: &Podcast, live: &Podcast) -> (r: (String, usize))
    ensures
        r.0@ == episodes_text(unseen(stored@.episodes, live@.episodes)),
        r.1 == unseen(stored@.episodes, live@.episodes).len(),
{
    let (fresh, count) = reconcile(stored.episodes.as_slice(), live.episodes.as_slice());
    let text = encode_episodes(fresh.as_slice());
    (text, count)
}

/// Reads the live feed of `stored` and returns what `sync_entries` returns for it;
/// fails where the feed is malformed.
pub fn sync_with_feed(stored: &Podcast, live_xml: &str) -> (r: Result<(String, usize), ParseError>)
    ensures
        match xml_events_of(live_xml@) {
            Some(evs) => {
                let fresh = unseen(stored@.episodes, feed_of(evs, stored@.url).episodes);
                r matches Ok(v) && v.0@ == episodes_text(fresh) && v.1 == fresh.len()
            },
            None => r == Err::<(String, usize), ParseError>(ParseError::Malformed),
        },
{
    match parse(live_xml, stored.url.as_str()) {
        Ok(live) => Ok(sync_entries(stored, &live)),
        Err(e) => Err(e),
    }
}

/// A title made fit for a folder name: spaces become underscores, apostrophes go.
pub open spec fn folder_name_of(title: Seq<char>) -> Seq<char>
    decreases title.len(),
{
    if title.len() == 0 {
        Seq::empty()
    } else {
        let rest = folder_name_of(title.drop_last());
        let c = title.last();
        if c == ' ' {
            rest.push('_')
        } else if c == '\'' {
            rest
        } else {
            rest.push(c)
        }
    }
}

/// The name of the folder that holds the record of a podcast with this title.
pub fn folder_name(title: &str) -> (r: String)
    ensures
        r@ == folder_name_of(title@),
{
    let cs = chars_of(title);
    let mut out: Vec<char> = Vec::new();
    let mut i: usize = 0;
    while i < cs.len()
        invariant
            i <= cs@.len(),
            out@ == folder_name_of(cs@.take(i as int)),
        decreases cs.len() - i,
    {
        assert(cs@.take(i + 1).drop_last() =~= cs@.take(i as int));
        let c = cs[i];
        if c == ' ' {
            out.push('_');
        } else if c != '\'' {
            out.push(c);
        }
        i = i + 1;
    }
    assert(cs@.take(cs@.len() as int) =~= cs@);
    text_between(&out, 0, out.len())
}

} // verus!
