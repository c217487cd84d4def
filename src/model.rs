use vstd::prelude::*;

verus! {

/// One item of a feed.
#[derive(Debug)]
pub struct Episode {
    pub title: String,
    pub description: String,
    /// Address of the audio enclosure; empty where the item has none.
    pub url: String,
    /// Publication date, in the feed's own text form.
    pub date: String,
    /// Duration, in the feed's own text form.
    pub duration: String,
}

/// The mathematical value of an `Episode`: its five texts.
pub struct EpisodeView {
    pub title: Seq<char>,
    pub description: Seq<char>,
    pub url: Seq<char>,
    pub date: Seq<char>,
    pub duration: Seq<char>,
}

impl EpisodeView {
    pub open spec fn empty() -> EpisodeView {
        EpisodeView {
            title: Seq::empty(),
            description: Seq::empty(),
            url: Seq::empty(),
            date: Seq::empty(),
            duration: Seq::empty(),
        }
    }
}

impl View for Episode {
    type V = EpisodeView;

    open spec fn view(&self) -> EpisodeView {
        EpisodeView {
            title: self.title@,
            description: self.description@,
            url: self.url@,
            date: self.date@,
            duration: self.duration@,
        }
    }
}

/// One feed: the show and its episodes, oldest first.
#[derive(Debug)]
pub struct Podcast {
    pub title: String,
    pub description: String,
    /// The address the feed is read from.
    pub url: String,
    pub episodes: Vec<Episode>,
}

pub struct PodcastView {
    pub title: Seq<char>,
    pub description: Seq<char>,
    pub url: Seq<char>,
    pub episodes: Seq<EpisodeView>,
}

/// The views of a sequence of episodes.
pub open spec fn episodes_view(eps: Seq<Episode>) -> Seq<EpisodeView> {
    eps.map_values(|e: Episode| e@)
}

impl View for Podcast {
    type V = PodcastView;

    open spec fn view(&self) -> PodcastView {
        PodcastView {
            title: self.title@,
            description: self.description@,
            url: self.url@,
            episodes: episodes_view(self.episodes@),
        }
    }
}

impl Episode {
    /// An episode whose five texts are all empty.
    pub fn new() -> (r: Episode)
        ensures
            r@ == EpisodeView::empty(),
    {
        Episode {
            title: String::new(),
            description: String::new(),
            url: String::new(),
            date: String::new(),
            duration: String::new(),
        }
    }

    /// A copy of the episode, field for field.
    pub fn duplicate(&self) -> (r: Episode)
        ensures
            r@ == self@,
    {
        Episode {
            title: self.title.clone(),
            description: self.description.clone(),
            url: self.url.clone(),
            date: self.date.clone(),
            duration: self.duration.clone(),
        }
    }
}

} // verus!
