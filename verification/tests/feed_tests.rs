use podcaster::episode::Episode;
use podcaster::feed::parse_feed;
use podcaster::podcast::Podcast;
use podcaster::state::StateEntry;
use podcaster::state::StateMap;

fn item(title: &str, guid: &str, url: &str, date: &str) -> String {
    format!(
        "<item><title>{}</title><guid>{}</guid><pubDate>{}</pubDate>\
         <enclosure url=\"{}\" type=\"audio/mpeg\"/></item>",
        title, guid, date, url
    )
}

fn feed(items: &[String]) -> String {
    format!(
        "<rss version=\"2.0\"><channel><title>cast</title>{}</channel></rss>",
        items.concat()
    )
}

#[test]
fn three_items_one_without_audio_enclosure_yields_two() {
    let doc = feed(&[
        item("first", "g1", "http://host/media/a.mp3", "Mon, 01 Jan 2024 00:00:00 GMT"),
        String::from(
            "<item><title>no audio</title><guid>g2</guid>\
             <pubDate>Tue, 02 Jan 2024 00:00:00 GMT</pubDate></item>",
        ),
        item("third", "g3", "http://host/media/c.mp3", "Wed, 03 Jan 2024 00:00:00 GMT"),
    ]);
    let episodes = parse_feed(&doc, 5).expect("well-formed feed must parse");
    assert_eq!(episodes.len(), 2);
    assert_eq!(episodes[0].title, "first");
    assert_eq!(episodes[0].id, "g1");
    assert_eq!(episodes[0].file_name, "a.mp3");
    assert_eq!(episodes[1].title, "third");
    assert_eq!(episodes[1].id, "g3");
    assert_eq!(episodes[1].file_name, "c.mp3");
}

#[test]
fn count_truncates_in_document_order() {
    let doc = feed(&[
        item("one", "g1", "http://host/1.mp3", "d1"),
        item("two", "g2", "http://host/2.mp3", "d2"),
        item("three", "g3", "http://host/3.mp3", "d3"),
    ]);
    let episodes = parse_feed(&doc, 2).unwrap();
    assert_eq!(episodes.len(), 2);
    assert_eq!(episodes[0].id, "g1");
    assert_eq!(episodes[1].id, "g2");
}

#[test]
fn feed_without_qualifying_enclosures_is_empty_not_error() {
    let doc = feed(&[
        String::from("<item><title>t</title><guid>g</guid><pubDate>d</pubDate></item>"),
        String::from(
            "<item><title>v</title><guid>h</guid><pubDate>d</pubDate>\
             <enclosure url=\"http://host/v.mp4\" type=\"video/mp4\"/></item>",
        ),
    ]);
    let episodes = parse_feed(&doc, 10).unwrap();
    assert!(episodes.is_empty());
}

#[test]
fn malformed_xml_is_an_error() {
    let r = parse_feed("<rss><channel><item>", 5);
    assert!(r.is_err());
}

#[test]
fn item_missing_title_is_skipped_not_fatal() {
    let doc = feed(&[
        String::from(
            "<item><guid>g1</guid><pubDate>d</pubDate>\
             <enclosure url=\"http://host/a.mp3\" type=\"audio/mpeg\"/></item>",
        ),
        item("ok", "g2", "http://host/b.mp3", "d"),
    ]);
    let episodes = parse_feed(&doc, 10).unwrap();
    assert_eq!(episodes.len(), 1);
    assert_eq!(episodes[0].id, "g2");
}

#[test]
fn item_without_guid_falls_back_to_file_name() {
    let doc = feed(&[String::from(
        "<item><title>t</title><pubDate>d</pubDate>\
         <enclosure url=\"http://host/shows/ep042.mp3\" type=\"audio/mpeg\"/></item>",
    )]);
    let episodes = parse_feed(&doc, 10).unwrap();
    assert_eq!(episodes.len(), 1);
    assert_eq!(episodes[0].id, "ep042.mp3");
    assert_eq!(episodes[0].file_name, "ep042.mp3");
}

#[test]
fn episode_new_derives_file_name_from_last_path_segment() {
    let e = Episode::new(
        String::from("t"),
        Some(String::from("g")),
        String::from("https://example.com/a/b/episode.mp3?session=1"),
        String::from("d"),
    )
    .unwrap();
    assert_eq!(e.file_name, "episode.mp3");
    assert_eq!(e.id, "g");
    assert_eq!(e.media_url, "https://example.com/a/b/episode.mp3?session=1");
}

#[test]
fn episode_new_rejects_unparseable_url() {
    let e = Episode::new(
        String::from("t"),
        Some(String::from("g")),
        String::from("not a url"),
        String::from("d"),
    );
    assert!(e.is_none());
}

#[test]
fn episode_new_rejects_url_with_empty_final_segment() {
    let e = Episode::new(
        String::from("t"),
        None,
        String::from("https://example.com/feed/"),
        String::from("d"),
    );
    assert!(e.is_none());
}

#[test]
fn episode_new_empty_guid_falls_back_to_file_name() {
    let e = Episode::new(
        String::from("t"),
        Some(String::new()),
        String::from("https://example.com/x.mp3"),
        String::from("d"),
    )
    .unwrap();
    assert_eq!(e.id, "x.mp3");
}

#[test]
fn new_episodes_filters_already_downloaded_ones() {
    let doc = feed(&[
        item("one", "g1", "http://host/1.mp3", "d1"),
        item("two", "g2", "http://host/2.mp3", "d2"),
    ]);
    let downloaded = Episode::new(
        String::from("one"),
        Some(String::from("g1")),
        String::from("http://host/1.mp3"),
        String::from("d1"),
    )
    .unwrap();
    let state = StateMap::from_entries(vec![StateEntry {
        podcast_id: String::from("p"),
        episodes: vec![downloaded],
    }]);
    let cast = Podcast::new(String::from("p"), String::from("http://host/feed.xml"));
    let fresh = cast.new_episodes(&doc, 5, &state).unwrap();
    assert_eq!(fresh.len(), 1);
    assert_eq!(fresh[0].id, "g2");
}
