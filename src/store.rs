use vstd::prelude::*;

use crate::model::{Episode, EpisodeView, Podcast, PodcastView, episodes_view};
use crate::text::{chars_of, push_text, text_between};

verus! {

/// The text of `lines`, each followed by a newline.
pub open spec fn lines_text(lines: Seq<Seq<char>>) -> Seq<char>
    decreases lines.len(),
{
    if lines.len() == 0 {
        Seq::empty()
    } else {
        lines[0] + seq!['\n'] + lines_text(lines.drop_first())
    }
}

/// The two header lines of a record, then a blank line.
pub open spec fn header_lines(p: PodcastView) -> Seq<Seq<char>> {
    seq!["title : "@ + p.title, "url   : "@ + p.url, Seq::empty()]
}

/// The five field lines of an episode, then a blank line.
pub open spec fn episode_lines(e: EpisodeView) -> Seq<Seq<char>> {
    seq![
        "title       : "@ + e.title,
        "description : "@ + e.description,
        "url         : "@ + e.url,
        "date        : "@ + e.date,
        "duration    : "@ + e.duration,
        Seq::empty(),
    ]
}

/// The header of the record of `p`.
pub open spec fn header_text(p: PodcastView) -> Seq<char> {
    lines_text(header_lines(p))
}

/// The block of the record that holds `e`.
pub open spec fn episode_text(e: EpisodeView) -> Seq<char> {
    lines_text(episode_lines(e))
}

/// The blocks of all of `eps`, one after the other.
pub open spec fn episodes_text(eps: Seq<EpisodeView>) -> Seq<char>
    decreases eps.len(),
{
    if eps.len() == 0 {
        Seq::empty()
    } else {
        episodes_text(eps.drop_last()) + episode_text(eps.last())
    }
}

/// The index of the first newline of `s`, or its length where it has none.
pub open spec fn newline_index(s: Seq<char>) -> nat
    decreases s.len(),
{
    if s.len() == 0 || s[0] == '\n' {
        0
    } else {
        1 + newline_index(s.drop_first())
    }
}

/// The lines of `s`: the pieces between newlines, without a last empty piece
/// after a final newline.
pub open spec fn lines_of(s: Seq<char>) -> Seq<Seq<char>>
    decreases s.len(),
{
    if s.len() == 0 {
        Seq::empty()
    } else {
        let i = newline_index(s);
        if i >= s.len() {
            seq![s]
        } else {
            seq![s.take(i as int)] + lines_of(s.skip(i + 1 as int))
        }
    }
}

/// What follows `label` in `line`, where `line` starts with it.
pub open spec fn after_label(line: Seq<char>, label: Seq<char>) -> Option<Seq<char>> {
    if label.len() <= line.len() && line.take(label.len() as int) == label {
        Some(line.skip(label.len() as int))
    } else {
        None
    }
}

pub open spec fn is_blank_char(c: char) -> bool {
    c == ' ' || c == '\t' || c == '\r'
}

/// A line with nothing but spaces, tabs and carriage returns.
pub open spec fn is_blank(line: Seq<char>) -> bool {
    forall|i: int| 0 <= i < line.len() ==> is_blank_char(#[trigger] line[i])
}

/// The episodes read so far from the body of a record, and whether the last line
/// read belongs to an episode's block.
pub struct BodyState {
    pub episodes: Seq<EpisodeView>,
    pub in_block: bool,
}

/// The episode with the field that `line` names set to its value; unchanged where
/// the line names no field.
pub open spec fn apply_line(e: EpisodeView, line: Seq<char>) -> EpisodeView {
    if let Some(v) = after_label(line, "title       : "@) {
        EpisodeView { title: v, ..e }
    } else if let Some(v) = after_label(line, "description : "@) {
        EpisodeView { description: v, ..e }
    } else if let Some(v) = after_label(line, "url         : "@) {
        EpisodeView { url: v, ..e }
    } else if let Some(v) = after_label(line, "date        : "@) {
        EpisodeView { date: v, ..e }
    } else if let Some(v) = after_label(line, "duration    : "@) {
        EpisodeView { duration: v, ..e }
    } else {
        e
    }
}

/// The state after one line of the body: a blank line ends a block; another line
/// starts a new episode where no block is open, then fills a field of it.
pub open spec fn body_step(s: BodyState, line: Seq<char>) -> BodyState {
    if is_blank(line) {
        BodyState { in_block: false, ..s }
    } else {
        let eps = if s.in_block {
            s.episodes
        } else {
            s.episodes.push(EpisodeView::empty())
        };
        BodyState {
            episodes: eps.update(eps.len() - 1, apply_line(eps.last(), line)),
            in_block: true,
        }
    }
}

/// The state after the lines `ls`, from `s`.
pub open spec fn body_run(s: BodyState, ls: Seq<Seq<char>>) -> BodyState
    decreases ls.len(),
{
    if ls.len() == 0 {
        s
    } else {
        body_step(body_run(s, ls.drop_last()), ls.last())
    }
}

/// The podcast that a record's lines hold: `None` without the two header lines.
pub open spec fn record_of_lines(ls: Seq<Seq<char>>) -> Option<PodcastView> {
    if ls.len() < 2 {
        None
    } else {
        match (after_label(ls[0], "title : "@), after_label(ls[1], "url   : "@)) {
            (Some(t), Some(u)) => Some(
                PodcastView {
                    title: t,
                    description: Seq::empty(),
                    url: u,
                    episodes: body_run(
                        BodyState { episodes: Seq::empty(), in_block: false },
                        ls.skip(2),
                    ).episodes,
                },
            ),
            _ => None,
        }
    }
}

/// The podcast that a record's text holds.
pub open spec fn record_of(text: Seq<char>) -> Option<PodcastView> {
    record_of_lines(lines_of(text))
}

/// Why a record could not be read.
#[derive(PartialEq, Eq, Structural, Clone, Copy, Debug)]
pub enum DecodeError {
    /// There is no record.
    MissingFile,
    /// The record lacks its two header lines.
    Malformed,
}

/// The index where the line that starts at `start` ends: the next newline, or the end.
fn line_end(cs: &Vec<char>, start: usize) -> (q: usize)
    requires
        start <= cs@.len(),
    ensures
        start <= q <= cs@.len(),
        q == start + newline_index(cs@.skip(start as int)),
{
    let mut q = start;
    while q < cs.len() && cs[q] != '\n'
        invariant
            start <= q <= cs@.len(),
            newline_index(cs@.skip(start as int)) == (q - start) + newline_index(cs@.skip(q as int)),
        decreases cs.len() - q,
    {
        assert(cs@.skip(q as int).drop_first() =~= cs@.skip(q + 1));
        q = q + 1;
    }
    q
}

/// The lines from `start` on are the line that ends at `q`, then those after it.
proof fn lemma_next_line(cs: Seq<char>, start: int, q: int)
    requires
        0 <= start < cs.len(),
        q == start + newline_index(cs.skip(start)),
        q <= cs.len(),
    ensures
        lines_of(cs.skip(start)) == seq![cs.subrange(start, q)] + lines_of(
            cs.skip(if q < cs.len() { q + 1 } else { q }),
        ),
{
    let t = cs.skip(start);
    let i = newline_index(t);
    if i >= t.len() {
        assert(t =~= cs.subrange(start, q));
        assert(cs.skip(q).len() == 0);
        assert(lines_of(cs.skip(q)) =~= Seq::<Seq<char>>::empty());
        assert(seq![cs.subrange(start, q)] + Seq::<Seq<char>>::empty() =~= seq![cs.subrange(start, q)]);
    } else {
        assert(t.take(i as int) =~= cs.subrange(start, q));
        assert(t.skip(i + 1 as int) =~= cs.skip(q + 1));
    }
}

/// Whether `label` starts the text `cs[lo..hi]`.
fn label_at(cs: &Vec<char>, lo: usize, hi: usize, label: &Vec<char>) -> (r: bool)
    requires
        lo <= hi <= cs@.len(),
    ensures
        r == after_label(cs@.subrange(lo as int, hi as int), label@) is Some,
{
    let ghost line = cs@.subrange(lo as int, hi as int);
    if label.len() > hi - lo {
        return false;
    }
    let mut k: usize = 0;
    while k < label.len()
        invariant
            label@.len() <= hi - lo,
            lo <= hi <= cs@.len(),
            line == cs@.subrange(lo as int, hi as int),
            k <= label@.len(),
            forall|j: int| 0 <= j < k ==> line[j] == label@[j],
        decreases label.len() - k,
    {
        if cs[lo + k] != label[k] {
            assert(line.take(label@.len() as int)[k as int] != label@[k as int]);
            return false;
        }
        k = k + 1;
    }
    assert(line.take(label@.len() as int) =~= label@);
    true
}

/// The value that follows `label` in `cs[lo..hi]`, which it starts.
fn value_after(cs: &Vec<char>, lo: usize, hi: usize, label: &Vec<char>) -> (r: String)
    requires
        lo <= hi <= cs@.len(),
        after_label(cs@.subrange(lo as int, hi as int), label@) is Some,
    ensures
        after_label(cs@.subrange(lo as int, hi as int), label@) == Some(r@),
{
    let r = text_between(cs, lo + label.len(), hi);
    assert(cs@.subrange(lo as int, hi as int).skip(label@.len() as int) =~= r@);
    r
}

/// Whether `cs[lo..hi]` is blank.
fn blank_between(cs: &Vec<char>, lo: usize, hi: usize) -> (r: bool)
    requires
        lo <= hi <= cs@.len(),
    ensures
        r == is_blank(cs@.subrange(lo as int, hi as int)),
{
    let ghost line = cs@.subrange(lo as int, hi as int);
    let mut k: usize = lo;
    while k < hi
        invariant
            lo <= k <= hi <= cs@.len(),
            line == cs@.subrange(lo as int, hi as int),
            forall|j: int| 0 <= j < k - lo ==> is_blank_char(#[trigger] line[j]),
        decreases hi - k,
    {
        let c = cs[k];
        if !(c == ' ' || c == '\t' || c == '\r') {
            assert(!is_blank_char(line[k - lo]));
            return false;
        }
        k = k + 1;
    }
    true
}

/// Sets the field of `e` that the line `cs[lo..hi]` names.
fn fill_field(e: &mut Episode, cs: &Vec<char>, lo: usize, hi: usize)
    requires
        lo <= hi <= cs@.len(),
    ensures
        final(e)@ == apply_line(old(e)@, cs@.subrange(lo as int, hi as int)),
{
    let title = chars_of("title       : ");
    let description = chars_of("description : ");
    let url = chars_of("url         : ");
    let date = chars_of("date        : ");
    let duration = chars_of("duration    : ");
    if label_at(cs, lo, hi, &title) {
        e.title = value_after(cs, lo, hi, &title);
    } else if label_at(cs, lo, hi, &description) {
        e.description = value_after(cs, lo, hi, &description);
    } else if label_at(cs, lo, hi, &url) {
        e.url = value_after(cs, lo, hi, &url);
    } else if label_at(cs, lo, hi, &date) {
        e.date = value_after(cs, lo, hi, &date);
    } else if label_at(cs, lo, hi, &duration) {
        e.duration = value_after(cs, lo, hi, &duration);
    }
}

/// Reads a record: its two header lines (title, then feed address), then its
/// blank-line separated episode blocks. Lines that name no field are passed over.
pub fn decode(text: &str) -> (r: Result<Podcast, DecodeError>)
    ensures
        match record_of(text@) {
            Some(p) => r matches Ok(q) && q@ == p,
            None => r == Err::<Podcast, DecodeError>(DecodeError::Malformed),
        },
{
    let cs = chars_of(text);
    let ghost all = lines_of(cs@);
    assert(cs@.skip(0) =~= cs@);
    if cs.len() == 0 {
        return Err(DecodeError::Malformed);
    }
    let q0 = line_end(&cs, 0);
    proof { lemma_next_line(cs@, 0, q0 as int); }
    let p1 = if q0 < cs.len() { q0 + 1 } else { q0 };
    if p1 >= cs.len() {
        assert(cs@.skip(p1 as int) =~= Seq::<char>::empty());
        assert(all.len() == 1);
        return Err(DecodeError::Malformed);
    }
    let q1 = line_end(&cs, p1);
    proof { lemma_next_line(cs@, p1 as int, q1 as int); }
    let mut pos = if q1 < cs.len() { q1 + 1 } else { q1 };
    let ghost body = lines_of(cs@.skip(pos as int));
    assert(all == seq![cs@.subrange(0, q0 as int), cs@.subrange(p1 as int, q1 as int)] + body);
    assert(all[0] == cs@.subrange(0, q0 as int));
    assert(all[1] == cs@.subrange(p1 as int, q1 as int));
    assert(all.skip(2) =~= body);
    let title_label = chars_of("title : ");
    let url_label = chars_of("url   : ");
    if !label_at(&cs, 0, q0, &title_label) || !label_at(&cs, p1, q1, &url_label) {
        return Err(DecodeError::Malformed);
    }
    let title = value_after(&cs, 0, q0, &title_label);
    let url = value_after(&cs, p1, q1, &url_label);
    let mut episodes: Vec<Episode> = Vec::new();
    let mut in_block = false;
    let ghost init = BodyState { episodes: Seq::empty(), in_block: false };
    let ghost mut done: Seq<Seq<char>> = Seq::empty();
    assert(episodes_view(episodes@) =~= Seq::<EpisodeView>::empty());
    while pos < cs.len()
        invariant
            pos <= cs@.len(),
            body == done + lines_of(cs@.skip(pos as int)),
            (BodyState { episodes: episodes_view(episodes@), in_block: in_block }) == body_run(
                init,
                done,
            ),
            in_block ==> episodes@.len() > 0,
        decreases cs.len() - pos,
    {
        let q = line_end(&cs, pos);
        proof { lemma_next_line(cs@, pos as int, q as int); }
        let ghost line = cs@.subrange(pos as int, q as int);
        let ghost before = episodes_view(episodes@);
        let ghost was_in_block = in_block;
        if blank_between(&cs, pos, q) {
            in_block = false;
        } else {
            if !in_block {
                episodes.push(Episode::new());
                in_block = true;
            }
            let ghost pushed = episodes_view(episodes@);
            assert(pushed =~= if was_in_block { before } else { before.push(EpisodeView::empty()) });
            match episodes.pop() {
                Some(e) => {
                    let mut e = e;
                    fill_field(&mut e, &cs, pos, q);
                    episodes.push(e);
                    assert(episodes_view(episodes@) =~= pushed.update(
                        pushed.len() - 1,
                        apply_line(pushed.last(), line),
                    ));
                },
                None => {},
            }
        }
        proof {
            let d2 = done.push(line);
            assert(d2.drop_last() =~= done);
            assert(body =~= d2 + lines_of(cs@.skip(if q < cs@.len() { q + 1 } else { q as int })));
            done = d2;
        }
        pos = if q < cs.len() { q + 1 } else { q };
    }
    assert(cs@.skip(pos as int) =~= Seq::<char>::empty());
    assert(done =~= body);
    Ok(Podcast { title, description: String::new(), url, episodes })
}

proof fn lemma_lines_text_1(a: Seq<char>)
    ensures
        lines_text(seq![a]) == a + seq!['\n'],
{
    assert(seq![a].drop_first() =~= Seq::<Seq<char>>::empty());
    assert(lines_text(Seq::<Seq<char>>::empty()) == Seq::<char>::empty());
    assert(lines_text(seq![a]) =~= a + seq!['\n']);
}

proof fn lemma_lines_text_concat(a: Seq<Seq<char>>, b: Seq<Seq<char>>)
    ensures
        lines_text(a + b) == lines_text(a) + lines_text(b),
    decreases a.len(),
{
    if a.len() == 0 {
        assert(a + b =~= b);
        assert(lines_text(a) + lines_text(b) =~= lines_text(b));
    } else {
        assert((a + b).drop_first() =~= a.drop_first() + b);
        lemma_lines_text_concat(a.drop_first(), b);
        assert(lines_text(a + b) =~= lines_text(a) + lines_text(b));
    }
}

/// Appends `label`, then `value`, then a newline.
fn push_line(s: &mut String, label: &str, value: &String)
    ensures
        final(s)@ == old(s)@ + lines_text(seq![label@ + value@]),
{
    push_text(s, label);
    push_text(s, value.as_str());
    push_text(s, "\n");
    proof {
        reveal_strlit("\n");
        let l = seq![label@ + value@];
        lemma_lines_text_1(label@ + value@);
        assert("\n"@ =~= seq!['\n']);
        assert(final(s)@ =~= old(s)@ + lines_text(l));
    }
}

/// The header of the record of `p`: its title line, its address line, a blank line.
pub fn encode_header(p: &Podcast) -> (r: String)
    ensures
        r@ == header_text(p@),
{
    let mut s = String::new();
    push_line(&mut s, "title : ", &p.title);
    push_line(&mut s, "url   : ", &p.url);
    push_text(&mut s, "\n");
    proof {
        reveal_strlit("\n");
        let a = seq!["title : "@ + p.title@];
        let b = seq!["url   : "@ + p.url@];
        let c = seq![Seq::<char>::empty()];
        lemma_lines_text_1(Seq::<char>::empty());
        assert("\n"@ =~= seq!['\n']);
        assert(lines_text(c) =~= "\n"@);
        lemma_lines_text_concat(a, b);
        lemma_lines_text_concat(a + b, c);
        assert(a + b + c =~= header_lines(p@));
        assert(s@ =~= lines_text(a) + lines_text(b) + lines_text(c));
    }
    s
}

/// Appends the block of the record that holds `e`.
fn push_episode(s: &mut String, e: &Episode)
    ensures
        final(s)@ == old(s)@ + episode_text(e@),
{
    let ghost start = s@;
    push_line(s, "title       : ", &e.title);
    push_line(s, "description : ", &e.description);
    push_line(s, "url         : ", &e.url);
    push_line(s, "date        : ", &e.date);
    push_line(s, "duration    : ", &e.duration);
    push_text(s, "\n");
    proof {
        reveal_strlit("\n");
        let l1 = seq!["title       : "@ + e.title@];
        let l2 = seq!["description : "@ + e.description@];
        let l3 = seq!["url         : "@ + e.url@];
        let l4 = seq!["date        : "@ + e.date@];
        let l5 = seq!["duration    : "@ + e.duration@];
        let l6 = seq![Seq::<char>::empty()];
        lemma_lines_text_1(Seq::<char>::empty());
        assert("\n"@ =~= seq!['\n']);
        assert(lines_text(l6) =~= "\n"@);
        lemma_lines_text_concat(l1, l2);
        lemma_lines_text_concat(l1 + l2, l3);
        lemma_lines_text_concat(l1 + l2 + l3, l4);
        lemma_lines_text_concat(l1 + l2 + l3 + l4, l5);
        lemma_lines_text_concat(l1 + l2 + l3 + l4 + l5, l6);
        assert(l1 + l2 + l3 + l4 + l5 + l6 =~= episode_lines(e@));
        assert(final(s)@ =~= start + (lines_text(l1) + lines_text(l2) + lines_text(l3) + lines_text(l4)
            + lines_text(l5) + lines_text(l6)));
    }
}

/// The block of the record that holds `e`: its five field lines, a blank line.
pub fn encode_episode(e: &Episode) -> (r: String)
    ensures
        r@ == episode_text(e@),
{
    let mut s = String::new();
    push_episode(&mut s, e);
    assert(s@ =~= episode_text(e@));
    s
}

/// The blocks of all of `eps`, in their order.
pub fn encode_episodes(eps: &[Episode]) -> (r: String)
    ensures
        r@ == episodes_text(episodes_view(eps@)),
{
    let ghost ev = episodes_view(eps@);
    let mut s = String::new();
    let mut i: usize = 0;
    while i < eps.len()
        invariant
            i <= eps@.len(),
            ev == episodes_view(eps@),
            s@ == episodes_text(ev.take(i as int)),
        decreases eps.len() - i,
    {
        assert(ev.take(i + 1).drop_last() =~= ev.take(i as int));
        push_episode(&mut s, &eps[i]);
        i = i + 1;
    }
    assert(ev.take(eps@.len() as int) =~= ev);
    s
}

/// The whole record of `p`: its header, then a block for each episode.
pub fn encode(p: &Podcast) -> (r: String)
    ensures
        r@ == header_text(p@) + episodes_text(p@.episodes),
{
    let mut s = encode_header(p);
    let body = encode_episodes(p.episodes.as_slice());
    push_text(&mut s, body.as_str());
    s
}

/// Reads the record, where there is one.
pub fn load_record(text: Option<&str>) -> (r: Result<Podcast, DecodeError>)
    ensures
        match text {
            None => r == Err::<Podcast, DecodeError>(DecodeError::MissingFile),
            Some(t) => match record_of(t@) {
                Some(p) => r matches Ok(q) && q@ == p,
                None => r == Err::<Podcast, DecodeError>(DecodeError::Malformed),
            },
        },
{
    match text {
        None => Err(DecodeError::MissingFile),
        Some(t) => decode(t),
    }
}

/// A text without newlines.
pub open spec fn single_line(s: Seq<char>) -> bool {
    forall|i: int| 0 <= i < s.len() ==> s[i] != '\n'
}

/// The lines of the blocks of all of `eps`.
pub open spec fn body_lines(eps: Seq<EpisodeView>) -> Seq<Seq<char>>
    decreases eps.len(),
{
    if eps.len() == 0 {
        Seq::empty()
    } else {
        body_lines(eps.drop_last()) + episode_lines(eps.last())
    }
}

proof fn lemma_episodes_text_lines(eps: Seq<EpisodeView>)
    ensures
        episodes_text(eps) == lines_text(body_lines(eps)),
    decreases eps.len(),
{
    if eps.len() > 0 {
        lemma_episodes_text_lines(eps.drop_last());
        lemma_lines_text_concat(body_lines(eps.drop_last()), episode_lines(eps.last()));
    } else {
        assert(lines_text(Seq::<Seq<char>>::empty()) == Seq::<char>::empty());
    }
}

proof fn lemma_newline_index(a: Seq<char>, r: Seq<char>)
    requires
        single_line(a),
    ensures
        newline_index(a + seq!['\n'] + r) == a.len(),
    decreases a.len(),
{
    let s = a + seq!['\n'] + r;
    if a.len() > 0 {
        assert(s.drop_first() =~= a.drop_first() + seq!['\n'] + r);
        assert(s[0] == a[0]);
        lemma_newline_index(a.drop_first(), r);
    } else {
        assert(s[0] == '\n');
    }
}

proof fn lemma_lines_of_text(ls: Seq<Seq<char>>)
    requires
        forall|i: int| 0 <= i < ls.len() ==> single_line(#[trigger] ls[i]),
    ensures
        lines_of(lines_text(ls)) == ls,
    decreases ls.len(),
{
    if ls.len() == 0 {
        assert(lines_text(ls) == Seq::<char>::empty());
    } else {
        let rest = ls.drop_first();
        assert forall|i: int| 0 <= i < rest.len() implies single_line(#[trigger] rest[i]) by {
            assert(rest[i] == ls[i + 1]);
        }
        lemma_lines_of_text(rest);
        let a = ls[0];
        let r = lines_text(rest);
        let s = a + seq!['\n'] + r;
        assert(single_line(ls[0]));
        lemma_newline_index(a, r);
        assert(s.take(a.len() as int) =~= a);
        assert(s.skip(a.len() + 1 as int) =~= r);
        assert(seq![a] + rest =~= ls);
    }
}

proof fn lemma_body_run_concat(s: BodyState, a: Seq<Seq<char>>, b: Seq<Seq<char>>)
    ensures
        body_run(s, a + b) == body_run(body_run(s, a), b),
    decreases b.len(),
{
    if b.len() == 0 {
        assert(a + b =~= a);
    } else {
        assert((a + b).drop_last() =~= a + b.drop_last());
        lemma_body_run_concat(s, a, b.drop_last());
    }
}

proof fn lemma_after_own_label(label: Seq<char>, v: Seq<char>)
    ensures
        after_label(label + v, label) == Some(v),
{
    assert((label + v).take(label.len() as int) =~= label);
    assert((label + v).skip(label.len() as int) =~= v);
}

proof fn lemma_after_other_label(line_label: Seq<char>, label: Seq<char>, v: Seq<char>, j: int)
    requires
        0 <= j < line_label.len(),
        j < label.len(),
        line_label[j] != label[j],
    ensures
        after_label(line_label + v, label) is None,
{
    if label.len() <= (line_label + v).len() {
        assert((line_label + v).take(label.len() as int)[j] != label[j]);
    }
}

/// Reading the block of `e` after a closed block adds `e` and closes the block.
proof fn lemma_read_block(s: BodyState, e: EpisodeView)
    requires
        !s.in_block,
    ensures
        body_run(s, episode_lines(e)) == (BodyState { episodes: s.episodes.push(e), in_block: false }),
{
    let lt = "title       : "@;
    let ld = "description : "@;
    let lu = "url         : "@;
    let la = "date        : "@;
    let lr = "duration    : "@;
    reveal_strlit("title       : ");
    reveal_strlit("description : ");
    reveal_strlit("url         : ");
    reveal_strlit("date        : ");
    reveal_strlit("duration    : ");
    let l = episode_lines(e);
    let e0 = EpisodeView::empty();
    // title line
    lemma_after_own_label(lt, e.title);
    assert((lt + e.title)[0] == 't');
    let e1 = EpisodeView { title: e.title, ..e0 };
    // description line
    lemma_after_other_label(ld, lt, e.description, 0);
    lemma_after_own_label(ld, e.description);
    assert((ld + e.description)[0] == 'd');
    let e2 = EpisodeView { description: e.description, ..e1 };
    // url line
    lemma_after_other_label(lu, lt, e.url, 0);
    lemma_after_other_label(lu, ld, e.url, 0);
    lemma_after_own_label(lu, e.url);
    assert((lu + e.url)[0] == 'u');
    let e3 = EpisodeView { url: e.url, ..e2 };
    // date line
    lemma_after_other_label(la, lt, e.date, 0);
    lemma_after_other_label(la, ld, e.date, 1);
    lemma_after_other_label(la, lu, e.date, 0);
    lemma_after_own_label(la, e.date);
    assert((la + e.date)[0] == 'd');
    let e4 = EpisodeView { date: e.date, ..e3 };
    // duration line
    lemma_after_other_label(lr, lt, e.duration, 0);
    lemma_after_other_label(lr, ld, e.duration, 1);
    lemma_after_other_label(lr, lu, e.duration, 0);
    lemma_after_other_label(lr, la, e.duration, 1);
    lemma_after_own_label(lr, e.duration);
    assert((lr + e.duration)[0] == 'd');
    assert(!is_blank(l[0]) && !is_blank(l[1]) && !is_blank(l[2]) && !is_blank(l[3]) && !is_blank(l[4]));
    assert(is_blank(l[5]));
    assert(l.take(0) =~= Seq::<Seq<char>>::empty());
    assert(body_run(s, l.take(0)) == s);
    assert(l.take(1).drop_last() =~= l.take(0));
    assert(l.take(2).drop_last() =~= l.take(1));
    assert(l.take(3).drop_last() =~= l.take(2));
    assert(l.take(4).drop_last() =~= l.take(3));
    assert(l.take(5).drop_last() =~= l.take(4));
    assert(l.take(6).drop_last() =~= l.take(5));
    let s1 = body_run(s, l.take(1));
    let s2 = body_run(s, l.take(2));
    let s3 = body_run(s, l.take(3));
    let s4 = body_run(s, l.take(4));
    let s5 = body_run(s, l.take(5));
    assert(s1.episodes =~= s.episodes.push(e1) && s1.in_block);
    assert(s2.episodes =~= s.episodes.push(e2) && s2.in_block);
    assert(s3.episodes =~= s.episodes.push(e3) && s3.in_block);
    assert(s4.episodes =~= s.episodes.push(e4) && s4.in_block);
    assert(s5.episodes =~= s.episodes.push(e) && s5.in_block);
    assert(l.take(6) =~= l);
}

proof fn lemma_read_body(eps: Seq<EpisodeView>)
    ensures
        body_run(BodyState { episodes: Seq::empty(), in_block: false }, seq![Seq::<char>::empty()] + body_lines(eps))
            == (BodyState { episodes: eps, in_block: false }),
    decreases eps.len(),
{
    let init = BodyState { episodes: Seq::empty(), in_block: false };
    let blank = seq![Seq::<char>::empty()];
    if eps.len() == 0 {
        assert(blank + body_lines(eps) =~= blank);
        assert(blank.drop_last() =~= Seq::<Seq<char>>::empty());
        assert(body_run(init, Seq::<Seq<char>>::empty()) == init);
        assert(is_blank(Seq::<char>::empty()));
        assert(body_run(init, blank) == body_step(init, Seq::<char>::empty()));
        assert(eps =~= Seq::<EpisodeView>::empty());
    } else {
        lemma_read_body(eps.drop_last());
        assert(blank + body_lines(eps) =~= (blank + body_lines(eps.drop_last())) + episode_lines(eps.last()));
        lemma_body_run_concat(init, blank + body_lines(eps.drop_last()), episode_lines(eps.last()));
        lemma_read_block(BodyState { episodes: eps.drop_last(), in_block: false }, eps.last());
        assert(eps.drop_last().push(eps.last()) =~= eps);
    }
}

/// Reading back the record of a podcast whose texts hold no newline gives its
/// title, its address and all of its episodes, field for field and in order.
pub proof fn lemma_round_trip(p: PodcastView)
    requires
        single_line(p.title),
        single_line(p.url),
        forall|i: int|
            0 <= i < p.episodes.len() ==> {
                let e = #[trigger] p.episodes[i];
                single_line(e.title) && single_line(e.description) && single_line(e.url)
                    && single_line(e.date) && single_line(e.duration)
            },
    ensures
        record_of(header_text(p) + episodes_text(p.episodes)) matches Some(q) && q.title == p.title
            && q.url == p.url && q.episodes == p.episodes,
{
    let h = header_lines(p);
    let b = body_lines(p.episodes);
    lemma_episodes_text_lines(p.episodes);
    lemma_lines_text_concat(h, b);
    lemma_body_lines_single(p.episodes);
    assert forall|i: int| 0 <= i < (h + b).len() implies single_line(#[trigger] (h + b)[i]) by {
        if i < 3 {
            assert(single_line("title : "@)) by { reveal_strlit("title : "); }
            assert(single_line("url   : "@)) by { reveal_strlit("url   : "); }
            assert(single_line("title : "@ + p.title));
            assert(single_line("url   : "@ + p.url));
        } else {
            assert((h + b)[i] == b[i - 3]);
        }
    }
    lemma_lines_of_text(h + b);
    let ls = h + b;
    lemma_after_own_label("title : "@, p.title);
    lemma_after_own_label("url   : "@, p.url);
    assert(ls.skip(2) =~= seq![Seq::<char>::empty()] + b);
    lemma_read_body(p.episodes);
}

proof fn lemma_body_lines_single(eps: Seq<EpisodeView>)
    requires
        forall|i: int|
            0 <= i < eps.len() ==> {
                let e = #[trigger] eps[i];
                single_line(e.title) && single_line(e.description) && single_line(e.url)
                    && single_line(e.date) && single_line(e.duration)
            },
    ensures
        forall|i: int| 0 <= i < body_lines(eps).len() ==> single_line(#[trigger] body_lines(eps)[i]),
    decreases eps.len(),
{
    if eps.len() > 0 {
        let rest = eps.drop_last();
        assert forall|i: int| 0 <= i < rest.len() implies {
            let e = #[trigger] rest[i];
            single_line(e.title) && single_line(e.description) && single_line(e.url)
                && single_line(e.date) && single_line(e.duration)
        } by {
            assert(rest[i] == eps[i]);
        }
        lemma_body_lines_single(rest);
        let e = eps.last();
        assert(eps[eps.len() - 1] == e);
        reveal_strlit("title       : ");
        reveal_strlit("description : ");
        reveal_strlit("url         : ");
        reveal_strlit("date        : ");
        reveal_strlit("duration    : ");
        let el = episode_lines(e);
        assert forall|j: int| 0 <= j < el.len() implies single_line(#[trigger] el[j]) by {}
        let bl = body_lines(eps);
        assert forall|i: int| 0 <= i < bl.len() implies single_line(#[trigger] bl[i]) by {
            if i < body_lines(rest).len() {
                assert(bl[i] == body_lines(rest)[i]);
            } else {
                assert(bl[i] == el[i - body_lines(rest).len()]);
            }
        }
    }
}

} // verus!
