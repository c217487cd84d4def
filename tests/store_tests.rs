use pood::model::{Episode, Podcast};
use pood::store::{decode, encode, encode_episode, encode_header, load_record, DecodeError};
use pood::sync::{folder_name, sync_entries, sync_with_feed};

fn episode(t: &str, d: &str, u: &str, date: &str, dur: &str) -> Episode {
    Episode {
        title: t.to_string(),
        description: d.to_string(),
        url: u.to_string(),
        date: date.to_string(),
        duration: dur.to_string(),
    }
}

fn podcast(eps: Vec<Episode>) -> Podcast {
    Podcast {
        title: "My Show".to_string(),
        description: "not stored".to_string(),
        url: "http://x/feed".to_string(),
        episodes: eps,
    }
}

#[test]
fn header_is_two_lines_and_a_blank() {
    let p = podcast(vec![]);
    assert_eq!(encode_header(&p), "title : My Show\nurl   : http://x/feed\n\n");
}

#[test]
fn episode_block_has_five_fields() {
    let e = episode("T", "D", "U", "Mon", "1:00");
    assert_eq!(
        encode_episode(&e),
        "title       : T\ndescription : D\nurl         : U\ndate        : Mon\nduration    : 1:00\n\n"
    );
}

#[test]
fn record_reads_back_as_written() {
    let p = podcast(vec![
        episode("First", "one : two", "http://a/1.mp3", "Mon", "10:00"),
        episode("", "", "", "", ""),
        episode("Third", "x", "y", "z", "w"),
    ]);
    let q = decode(&encode(&p)).unwrap();
    assert_eq!(q.title, p.title);
    assert_eq!(q.url, p.url);
    assert_eq!(q.description, "");
    assert_eq!(q.episodes.len(), 3);
    for (a, b) in q.episodes.iter().zip(p.episodes.iter()) {
        assert_eq!(a.title, b.title);
        assert_eq!(a.description, b.description);
        assert_eq!(a.url, b.url);
        assert_eq!(a.date, b.date);
        assert_eq!(a.duration, b.duration);
    }
}

#[test]
fn header_only_record_has_no_episodes() {
    let q = decode("title : S\nurl   : U\n\n").unwrap();
    assert_eq!(q.title, "S");
    assert_eq!(q.url, "U");
    assert!(q.episodes.is_empty());
}

#[test]
fn missing_header_is_malformed() {
    assert_eq!(decode("").unwrap_err(), DecodeError::Malformed);
    assert_eq!(decode("title : S\n").unwrap_err(), DecodeError::Malformed);
    assert_eq!(decode("name : S\nurl   : U\n").unwrap_err(), DecodeError::Malformed);
    assert_eq!(decode("title : S\nlink : U\n").unwrap_err(), DecodeError::Malformed);
}

#[test]
fn missing_record_is_reported_before_any_fetch() {
    assert_eq!(load_record(None).unwrap_err(), DecodeError::MissingFile);
    assert_eq!(load_record(Some("junk")).unwrap_err(), DecodeError::Malformed);
    assert_eq!(load_record(Some("title : S\nurl   : U\n")).unwrap().url, "U");
}

#[test]
fn unknown_lines_are_passed_over() {
    let text = "title : S\nurl   : U\n\ntitle       : A\nrating      : 5\nurl         : u\n  \t\ntitle       : B\n";
    let q = decode(text).unwrap();
    assert_eq!(q.episodes.len(), 2);
    assert_eq!(q.episodes[0].title, "A");
    assert_eq!(q.episodes[0].url, "u");
    assert_eq!(q.episodes[1].title, "B");
}

#[test]
fn folder_name_replaces_spaces_and_drops_apostrophes() {
    assert_eq!(folder_name("Joe's Big Show"), "Joes_Big_Show");
    assert_eq!(folder_name(""), "");
}

#[test]
fn sync_appends_only_new_blocks() {
    let stored = podcast(vec![episode("Ep1", "", "", "", "")]);
    let live = podcast(vec![episode("Ep1", "", "", "", ""), episode("Ep2", "d", "u", "t", "1")]);
    let (text, count) = sync_entries(&stored, &live);
    assert_eq!(count, 1);
    assert_eq!(text, "title       : Ep2\ndescription : d\nurl         : u\ndate        : t\nduration    : 1\n\n");
}

#[test]
fn sync_reads_the_live_feed() {
    let stored = decode("title : S\nurl   : U\n\ntitle       : Old\n\n").unwrap();
    let xml = "<rss><channel><item><title>New</title></item><item><title>Old</title></item></channel></rss>";
    let (text, count) = sync_with_feed(&stored, xml).unwrap();
    assert_eq!(count, 1);
    assert!(text.starts_with("title       : New\n"));
    assert!(sync_with_feed(&stored, "<rss>").is_err());
}
