use pood::feed::{podcast_from_events, parse, FeedBuilder, FeedEvent, ParseError};

const URL: &str = "http://example.com/feed.xml";

#[test]
fn empty_feed_has_no_episodes() {
    let p = parse("<rss><channel></channel></rss>", URL).unwrap();
    assert!(p.episodes.is_empty());
    assert_eq!(p.title, "");
    assert_eq!(p.url, URL);
}

#[test]
fn items_come_out_oldest_first() {
    let xml = "<rss><channel><title>Show</title>\
               <item><title>Third</title></item>\
               <item><title>Second</title></item>\
               <item><title>First</title></item>\
               </channel></rss>";
    let p = parse(xml, URL).unwrap();
    let t: Vec<&str> = p.episodes.iter().map(|e| e.title.as_str()).collect();
    assert_eq!(t, vec!["First", "Second", "Third"]);
    assert_eq!(p.title, "Show");
}

#[test]
fn fields_are_read_by_tag_and_scope() {
    let xml = r#"<rss xmlns:itunes="http://www.itunes.com/dtds/podcast-1.0.dtd"><channel>
        <title>Show</title>
        <description>About the show</description>
        <pubDate>ignored at channel level</pubDate>
        <item>
          <title>Ep</title>
          <itunes:summary>Summary text</itunes:summary>
          <pubDate>Mon, 01 Jan 2018</pubDate>
          <itunes:duration>01:02:03</itunes:duration>
          <enclosure length="5" url="http://a/ep.mp3" type="audio/mpeg"/>
        </item>
        </channel></rss>"#;
    let p = parse(xml, URL).unwrap();
    assert_eq!(p.title, "Show");
    assert_eq!(p.description, "About the show");
    assert_eq!(p.episodes.len(), 1);
    let e = &p.episodes[0];
    assert_eq!(e.title, "Ep");
    assert_eq!(e.description, "Summary text");
    assert_eq!(e.date, "Mon, 01 Jan 2018");
    assert_eq!(e.duration, "01:02:03");
    assert_eq!(e.url, "http://a/ep.mp3");
}

#[test]
fn cdata_is_text() {
    let xml = "<rss><channel><item><description><![CDATA[<b>bold</b>]]></description></item></channel></rss>";
    let p = parse(xml, URL).unwrap();
    assert_eq!(p.episodes[0].description, "<b>bold</b>");
}

#[test]
fn duration_before_any_item_is_ignored() {
    let xml = "<rss><channel><duration>5</duration><item><title>A</title></item></channel></rss>";
    let p = parse(xml, URL).unwrap();
    assert_eq!(p.episodes.len(), 1);
    assert_eq!(p.episodes[0].duration, "");
}

#[test]
fn item_without_title_or_enclosure_has_empty_fields() {
    let xml = "<rss><channel><item><description>d</description><enclosure type=\"x\"/></item></channel></rss>";
    let p = parse(xml, URL).unwrap();
    assert_eq!(p.episodes[0].title, "");
    assert_eq!(p.episodes[0].url, "");
}

#[test]
fn first_url_attribute_wins() {
    let events = vec![
        FeedEvent::Open { name: "item".to_string(), attributes: vec![] },
        FeedEvent::Open {
            name: "enclosure".to_string(),
            attributes: vec![
                ("type".to_string(), "audio".to_string()),
                ("url".to_string(), "first".to_string()),
                ("url".to_string(), "second".to_string()),
            ],
        },
        FeedEvent::Close { name: "enclosure".to_string() },
        FeedEvent::Close { name: "item".to_string() },
    ];
    let p = podcast_from_events(&events, URL);
    assert_eq!(p.episodes[0].url, "first");
}

#[test]
fn malformed_feed_is_an_error() {
    let r = parse("<rss><channel><item></channel></rss>", URL);
    assert_eq!(r.unwrap_err(), ParseError::Malformed);
    let r = parse("not xml at all <", URL);
    assert_eq!(r.unwrap_err(), ParseError::Malformed);
}

#[test]
fn title_after_item_closes_is_the_show_title() {
    let events = vec![
        FeedEvent::Open { name: "item".to_string(), attributes: vec![] },
        FeedEvent::Open { name: "title".to_string(), attributes: vec![] },
        FeedEvent::Text("in".to_string()),
        FeedEvent::Close { name: "title".to_string() },
        FeedEvent::Close { name: "item".to_string() },
        FeedEvent::Open { name: "title".to_string(), attributes: vec![] },
        FeedEvent::Text("out".to_string()),
        FeedEvent::Other,
    ];
    let p = podcast_from_events(&events, URL);
    assert_eq!(p.title, "out");
    assert_eq!(p.episodes[0].title, "in");
}

#[test]
fn builder_steps_one_event_at_a_time() {
    let mut b = FeedBuilder::new();
    b.apply(&FeedEvent::Open { name: "item".to_string(), attributes: vec![] });
    b.apply(&FeedEvent::Open { name: "pubDate".to_string(), attributes: vec![] });
    b.apply(&FeedEvent::Text("today".to_string()));
    b.apply(&FeedEvent::Open { name: "item".to_string(), attributes: vec![] });
    let p = b.finish(URL);
    assert_eq!(p.episodes.len(), 2);
    assert_eq!(p.episodes[1].date, "today");
    assert_eq!(p.episodes[0].date, "");
}
