use vstd::prelude::*;

use crate::model::{Episode, EpisodeView, Podcast, PodcastView, episodes_view};
use xml::reader::{EventReader, XmlEvent};

verus! {

/// One structural event of an XML document, as the feed parser reads it.
/// Element names are local names (without a namespace prefix).
#[derive(Debug)]
pub enum FeedEvent {
    /// An element opens, with its attributes as (local name, value) pairs.
    Open { name: String, attributes: Vec<(String, String)> },
    /// An element closes.
    Close { name: String },
    /// A text or CDATA payload.
    Text(String),
    /// Anything else (declarations, comments, whitespace, ...).
    Other,
}

/// The mathematical value of a `FeedEvent`.
pub enum XmlItem {
    Open { name: Seq<char>, attributes: Seq<(Seq<char>, Seq<char>)> },
    Close { name: Seq<char> },
    Text(Seq<char>),
    Other,
}

pub open spec fn attributes_view(a: Seq<(String, String)>) -> Seq<(Seq<char>, Seq<char>)> {
    a.map_values(|p: (String, String)| (p.0@, p.1@))
}

impl View for FeedEvent {
    type V = XmlItem;

    open spec fn view(&self) -> XmlItem {
        match self {
            FeedEvent::Open { name, attributes } => XmlItem::Open {
                name: name@,
                attributes: attributes_view(attributes@),
            },
            FeedEvent::Close { name } => XmlItem::Close { name: name@ },
            FeedEvent::Text(t) => XmlItem::Text(t@),
            FeedEvent::Other => XmlItem::Other,
        }
    }
}

pub open spec fn events_view(evs: Seq<FeedEvent>) -> Seq<XmlItem> {
    evs.map_values(|e: FeedEvent| e@)
}

/// The field that the next text payload is read into, as set by the most
/// recent element that opened.
#[derive(PartialEq, Eq, Structural, Clone, Copy)]
pub enum Field {
    Title,
    Description,
    Date,
    Duration,
    Ignored,
}

/// Which field an element of the given name fills.
pub open spec fn field_of(name: Seq<char>) -> Field {
    if name == "title"@ {
        Field::Title
    } else if name == "description"@ || name == "summary"@ {
        Field::Description
    } else if name == "pubDate"@ {
        Field::Date
    } else if name == "duration"@ {
        Field::Duration
    } else {
        Field::Ignored
    }
}

/// The value of the first attribute named `url`, if there is one.
pub open spec fn url_attribute(attrs: Seq<(Seq<char>, Seq<char>)>) -> Option<Seq<char>>
    decreases attrs.len(),
{
    if attrs.len() == 0 {
        None
    } else if attrs[0].0 == "url"@ {
        Some(attrs[0].1)
    } else {
        url_attribute(attrs.drop_first())
    }
}

/// The state of the parser between two events.
pub struct ParseState {
    /// Inside an `item` element.
    pub in_item: bool,
    pub field: Field,
    pub title: Seq<char>,
    pub description: Seq<char>,
    /// The episodes met so far, in the order of the document.
    pub episodes: Seq<EpisodeView>,
}

pub open spec fn initial_state() -> ParseState {
    ParseState {
        in_item: false,
        field: Field::Ignored,
        title: Seq::empty(),
        description: Seq::empty(),
        episodes: Seq::empty(),
    }
}

/// The episode `e` with the field `f` set to `v` (unchanged for `Field::Ignored`).
pub open spec fn set_field(e: EpisodeView, f: Field, v: Seq<char>) -> EpisodeView {
    match f {
        Field::Title => EpisodeView { title: v, ..e },
        Field::Description => EpisodeView { description: v, ..e },
        Field::Date => EpisodeView { date: v, ..e },
        Field::Duration => EpisodeView { duration: v, ..e },
        Field::Ignored => e,
    }
}

/// The sequence with its last episode's field `f` set to `v`; unchanged when empty.
pub open spec fn set_last(eps: Seq<EpisodeView>, f: Field, v: Seq<char>) -> Seq<EpisodeView> {
    if eps.len() == 0 {
        eps
    } else {
        eps.update(eps.len() - 1, set_field(eps.last(), f, v))
    }
}

/// The sequence with its last episode's enclosure address set to `u`; unchanged when empty.
pub open spec fn set_last_url(eps: Seq<EpisodeView>, u: Seq<char>) -> Seq<EpisodeView> {
    if eps.len() == 0 {
        eps
    } else {
        eps.update(eps.len() - 1, EpisodeView { url: u, ..eps.last() })
    }
}

/// The state after a text payload `t`.
pub open spec fn text_step(s: ParseState, t: Seq<char>) -> ParseState {
    match s.field {
        Field::Title => if s.in_item {
            ParseState { episodes: set_last(s.episodes, Field::Title, t), ..s }
        } else {
            ParseState { title: t, ..s }
        },
        Field::Description => if s.in_item {
            ParseState { episodes: set_last(s.episodes, Field::Description, t), ..s }
        } else {
            ParseState { description: t, ..s }
        },
        Field::Date => if s.in_item {
            ParseState { episodes: set_last(s.episodes, Field::Date, t), ..s }
        } else {
            s
        },
        Field::Duration => ParseState { episodes: set_last(s.episodes, Field::Duration, t), ..s },
        Field::Ignored => s,
    }
}

/// The state after an element named `name` opens.
pub open spec fn open_step(
    s: ParseState,
    name: Seq<char>,
    attrs: Seq<(Seq<char>, Seq<char>)>,
) -> ParseState {
    let s = ParseState { field: field_of(name), ..s };
    if name == "item"@ {
        ParseState { in_item: true, episodes: s.episodes.push(EpisodeView::empty()), ..s }
    } else if name == "enclosure"@ {
        match url_attribute(attrs) {
            Some(u) => ParseState { episodes: set_last_url(s.episodes, u), ..s },
            None => s,
        }
    } else {
        s
    }
}

/// The state after one event.
pub open spec fn step(s: ParseState, ev: XmlItem) -> ParseState {
    match ev {
        XmlItem::Open { name, attributes } => open_step(s, name, attributes),
        XmlItem::Close { name } => if name == "item"@ {
            ParseState { in_item: false, ..s }
        } else {
            s
        },
        XmlItem::Text(t) => text_step(s, t),
        XmlItem::Other => s,
    }
}

/// The state after a sequence of events, from the initial state.
pub open spec fn run(evs: Seq<XmlItem>) -> ParseState
    decreases evs.len(),
{
    if evs.len() == 0 {
        initial_state()
    } else {
        step(run(evs.drop_last()), evs.last())
    }
}

/// The podcast that a sequence of events describes: episodes oldest first,
/// that is in the reverse of the document's order.
pub open spec fn feed_of(evs: Seq<XmlItem>, url: Seq<char>) -> PodcastView {
    let s = run(evs);
    PodcastView {
        title: s.title,
        description: s.description,
        url: url,
        episodes: s.episodes.reverse(),
    }
}


/// Whether `name` is exactly the text `lit`.
fn name_is(name: &String, lit: &str) -> (r: bool)
    ensures
        r == (name@ == lit@),
{
    let l = lit.to_owned();
    name.eq(&l)
}

/// Which field an element of the given name fills.
pub fn field_for(name: &String) -> (r: Field)
    ensures
        r == field_of(name@),
{
    if name_is(name, "title") {
        Field::Title
    } else if name_is(name, "description") || name_is(name, "summary") {
        Field::Description
    } else if name_is(name, "pubDate") {
        Field::Date
    } else if name_is(name, "duration") {
        Field::Duration
    } else {
        Field::Ignored
    }
}

/// The value of the first attribute named `url`, if there is one.
pub fn find_url(attributes: &Vec<(String, String)>) -> (r: Option<String>)
    ensures
        match r {
            Some(u) => url_attribute(attributes_view(attributes@)) == Some(u@),
            None => url_attribute(attributes_view(attributes@)) is None,
        },
{
    let ghost av = attributes_view(attributes@);
    let mut k: usize = 0;
    assert(av.subrange(0, av.len() as int) =~= av);
    while k < attributes.len()
        invariant
            k <= attributes@.len(),
            av == attributes_view(attributes@),
            url_attribute(av) == url_attribute(av.subrange(k as int, av.len() as int)),
        decreases attributes.len() - k,
    {
        assert(av.subrange(k as int, av.len() as int).drop_first() =~= av.subrange(
            k + 1,
            av.len() as int,
        ));
        if name_is(&attributes[k].0, "url") {
            return Some(attributes[k].1.clone());
        }
        k = k + 1;
    }
    None
}

/// Sets the field `f` of the last episode to `v`; nothing changes when there is none.
fn set_last_field(eps: &mut Vec<Episode>, f: Field, v: String)
    ensures
        episodes_view(final(eps)@) == set_last(episodes_view(old(eps)@), f, v@),
{
    match eps.pop() {
        Some(e) => {
            let mut e = e;
            match f {
                Field::Title => { e.title = v; },
                Field::Description => { e.description = v; },
                Field::Date => { e.date = v; },
                Field::Duration => { e.duration = v; },
                Field::Ignored => {},
            }
            eps.push(e);
            assert(episodes_view(eps@) =~= set_last(episodes_view(old(eps)@), f, v@));
        },
        None => {
            assert(episodes_view(eps@) =~= set_last(episodes_view(old(eps)@), f, v@));
        },
    }
}

/// Sets the enclosure address of the last episode to `u`; nothing changes when there is none.
fn set_last_enclosure(eps: &mut Vec<Episode>, u: String)
    ensures
        episodes_view(final(eps)@) == set_last_url(episodes_view(old(eps)@), u@),
{
    match eps.pop() {
        Some(e) => {
            let mut e = e;
            e.url = u;
            eps.push(e);
            assert(episodes_view(eps@) =~= set_last_url(episodes_view(old(eps)@), u@));
        },
        None => {
            assert(episodes_view(eps@) =~= set_last_url(episodes_view(old(eps)@), u@));
        },
    }
}

/// The feed parser's state machine, fed one event at a time.
pub struct FeedBuilder {
    in_item: bool,
    field: Field,
    title: String,
    description: String,
    episodes: Vec<Episode>,
}

impl View for FeedBuilder {
    type V = ParseState;

    closed spec fn view(&self) -> ParseState {
        ParseState {
            in_item: self.in_item,
            field: self.field,
            title: self.title@,
            description: self.description@,
            episodes: episodes_view(self.episodes@),
        }
    }
}

impl FeedBuilder {
    pub fn new() -> (r: FeedBuilder)
        ensures
            r@ == initial_state(),
    {
        let r = FeedBuilder {
            in_item: false,
            field: Field::Ignored,
            title: String::new(),
            description: String::new(),
            episodes: Vec::new(),
        };
        assert(r@.episodes =~= Seq::<EpisodeView>::empty());
        r
    }

    /// Takes in one event.
    pub fn apply(&mut self, ev: &FeedEvent)
        ensures
            final(self)@ == step(old(self)@, ev@),
    {
        match ev {
            FeedEvent::Open { name, attributes } => {
                self.field = field_for(name);
                if name_is(name, "item") {
                    self.in_item = true;
                    self.episodes.push(Episode::new());
                    assert(episodes_view(self.episodes@) =~= episodes_view(
                        old(self).episodes@,
                    ).push(EpisodeView::empty()));
                } else if name_is(name, "enclosure") {
                    match find_url(attributes) {
                        Some(u) => set_last_enclosure(&mut self.episodes, u),
                        None => {},
                    }
                }
            },
            FeedEvent::Close { name } => {
                if name_is(name, "item") {
                    self.in_item = false;
                }
            },
            FeedEvent::Text(t) => {
                match self.field {
                    Field::Title => if self.in_item {
                        set_last_field(&mut self.episodes, Field::Title, t.clone());
                    } else {
                        self.title = t.clone();
                    },
                    Field::Description => if self.in_item {
                        set_last_field(&mut self.episodes, Field::Description, t.clone());
                    } else {
                        self.description = t.clone();
                    },
                    Field::Date => if self.in_item {
                        set_last_field(&mut self.episodes, Field::Date, t.clone());
                    },
                    Field::Duration => {
                        set_last_field(&mut self.episodes, Field::Duration, t.clone());
                    },
                    Field::Ignored => {},
                }
            },
            FeedEvent::Other => {},
        }
    }

    /// The podcast read so far, with its episodes put oldest first.
    pub fn finish(self, feed_url: &str) -> (r: Podcast)
        ensures
            r@ == (PodcastView {
                title: self@.title,
                description: self@.description,
                url: feed_url@,
                episodes: self@.episodes.reverse(),
            }),
    {
        let ghost ev = episodes_view(self.episodes@);
        let mut rest = self.episodes;
        let mut out: Vec<Episode> = Vec::new();
        while rest.len() > 0
            invariant
                ev.len() == rest@.len() + out@.len(),
                episodes_view(rest@) == ev.take(rest@.len() as int),
                episodes_view(out@) == ev.reverse().take(out@.len() as int),
            decreases rest.len(),
        {
            let ghost n = rest@.len() as int;
            let ghost m = out@.len() as int;
            let ghost before = rest@;
            match rest.pop() {
                Some(e) => {
                    assert(episodes_view(before)[n - 1] == ev[n - 1]);
                    assert(e@ == ev[n - 1]);
                    assert(ev.reverse()[m] == ev[n - 1]);
                    out.push(e);
                    assert(episodes_view(rest@) =~= ev.take(rest@.len() as int));
                    assert(episodes_view(out@) =~= ev.reverse().take(out@.len() as int));
                },
                None => {},
            }
        }
        assert(episodes_view(out@) =~= ev.reverse());
        Podcast { title: self.title, description: self.description, url: feed_url.to_owned(), episodes: out }
    }
}

/// The podcast that a sequence of events describes, episodes oldest first.
pub fn podcast_from_events(events: &Vec<FeedEvent>, feed_url: &str) -> (r: Podcast)
    ensures
        r@ == feed_of(events_view(events@), feed_url@),
{
    let ghost evs = events_view(events@);
    let mut b = FeedBuilder::new();
    let mut i: usize = 0;
    while i < events.len()
        invariant
            i <= events@.len(),
            evs == events_view(events@),
            b@ == run(evs.take(i as int)),
        decreases events.len() - i,
    {
        assert(evs.take(i + 1).drop_last() =~= evs.take(i as int));
        b.apply(&events[i]);
        i = i + 1;
    }
    assert(evs.take(events@.len() as int) =~= evs);
    b.finish(feed_url)
}

/// Why a feed could not be read.
#[derive(PartialEq, Eq, Structural, Clone, Copy, Debug)]
pub enum ParseError {
    /// The document is not well-formed XML.
    Malformed,
}

/// The events that the XML reader yields for a document, up to its end; `None`
/// where it meets an error first.
pub uninterp spec fn xml_events_of(src: Seq<char>) -> Option<Seq<XmlItem>>;

/// Relies on xml::reader::EventReader::next, pulled from the start of `src` until
/// it yields EndDocument (`Some` of the events before it) or an error (`None`).
/// The events depend on the text alone.
#[verifier::external_body]
fn read_events(src: &str) -> (r: Option<Vec<FeedEvent>>)
    ensures
        match r {
            Some(v) => xml_events_of(src@) == Some(events_view(v@)),
            None => xml_events_of(src@) is None,
        },
{
    let mut reader = EventReader::from_str(src);
    let mut out = Vec::new();
    loop {
        out.push(match reader.next() {
            Ok(XmlEvent::StartElement { name, attributes, .. }) => FeedEvent::Open {
                name: name.local_name,
                attributes: attributes.into_iter().map(|a| (a.name.local_name, a.value)).collect(),
            },
            Ok(XmlEvent::EndElement { name }) => FeedEvent::Close { name: name.local_name },
            Ok(XmlEvent::Characters(t)) | Ok(XmlEvent::CData(t)) => FeedEvent::Text(t),
            Ok(XmlEvent::EndDocument) => return Some(out),
            Ok(_) => FeedEvent::Other,
            Err(_) => return None,
        });
    }
}

/// Reads a feed document into a podcast whose address is `feed_url`, episodes
/// oldest first. Fails, with nothing kept, where the document is malformed.
pub fn parse(xml: &str, feed_url: &str) -> (r: Result<Podcast, ParseError>)
    ensures
        match xml_events_of(xml@) {
            Some(evs) => r matches Ok(p) && p@ == feed_of(evs, feed_url@),
            None => r == Err::<Podcast, ParseError>(ParseError::Malformed),
        },
{
    match read_events(xml) {
        Some(events) => Ok(podcast_from_events(&events, feed_url)),
        None => Err(ParseError::Malformed),
    }
}

/// The number of `item` elements that open among the events.
pub open spec fn item_count(evs: Seq<XmlItem>) -> nat
    decreases evs.len(),
{
    if evs.len() == 0 {
        0
    } else {
        item_count(evs.drop_last()) + match evs.last() {
            XmlItem::Open { name, .. } => if name == "item"@ {
                1nat
            } else {
                0nat
            },
            _ => 0nat,
        }
    }
}

/// One episode is made for each `item` element, and for nothing else.
pub proof fn lemma_one_episode_per_item(evs: Seq<XmlItem>)
    ensures
        run(evs).episodes.len() == item_count(evs),
    decreases evs.len(),
{
    if evs.len() > 0 {
        lemma_one_episode_per_item(evs.drop_last());
    }
}

/// A feed without items gives a podcast without episodes.
pub proof fn lemma_no_items_no_episodes(evs: Seq<XmlItem>, url: Seq<char>)
    requires
        forall|i: int| 0 <= i < evs.len() ==> !(#[trigger] evs[i] matches XmlItem::Open { name, .. } && name == "item"@),
    ensures
        feed_of(evs, url).episodes.len() == 0,
{
    lemma_one_episode_per_item(evs);
    lemma_no_items_count(evs);
}

proof fn lemma_no_items_count(evs: Seq<XmlItem>)
    requires
        forall|i: int| 0 <= i < evs.len() ==> !(#[trigger] evs[i] matches XmlItem::Open { name, .. } && name == "item"@),
    ensures
        item_count(evs) == 0,
    decreases evs.len(),
{
    if evs.len() > 0 {
        let rest = evs.drop_last();
        assert forall|i: int| 0 <= i < rest.len() implies !(#[trigger] rest[i] matches XmlItem::Open { name, .. } && name == "item"@) by {
            assert(rest[i] == evs[i]);
        }
        lemma_no_items_count(rest);
        assert(!(evs[evs.len() - 1] matches XmlItem::Open { name, .. } && name == "item"@));
    }
}

/// The podcast lists its episodes in the reverse of the document's order: where a
/// feed gives its newest item first, the first episode is the oldest, the item
/// met last.
pub proof fn lemma_oldest_first(evs: Seq<XmlItem>, url: Seq<char>)
    ensures
        feed_of(evs, url).episodes.len() == run(evs).episodes.len(),
        forall|k: int|
            0 <= k < run(evs).episodes.len() ==> feed_of(evs, url).episodes[k] == run(
                evs,
            ).episodes[run(evs).episodes.len() - 1 - k],
{
}

} // verus!
