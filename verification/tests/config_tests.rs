use podcaster::config::Action;
use podcaster::config::Args;
use podcaster::config::Settings;
use podcaster::podcast::select_podcasts;
use podcaster::podcast::Podcast;

#[test]
fn action_words_parse_to_their_actions() {
    assert_eq!(Action::parse("download").unwrap(), Action::DOWNLOAD);
    assert_eq!(Action::parse("list").unwrap(), Action::LIST);
    assert_eq!(Action::parse("catchup").unwrap(), Action::CATCHUP);
    assert_eq!(Action::parse("play").unwrap(), Action::PLAY);
}

#[test]
fn unknown_action_word_is_rejected_with_its_input() {
    let e = Action::parse("remove").unwrap_err();
    assert_eq!(e.input, "remove");
}

#[test]
fn effective_count_defaults_depend_on_the_action() {
    let download = Args {
        version: false,
        podcast_id: None,
        count: None,
        action: Action::DOWNLOAD,
    };
    assert_eq!(download.effective_count(), 1);
    let list = Args { version: false, podcast_id: None, count: None, action: Action::LIST };
    assert_eq!(list.effective_count(), 5);
    let explicit = Args {
        version: false,
        podcast_id: None,
        count: Some(9),
        action: Action::DOWNLOAD,
    };
    assert_eq!(explicit.effective_count(), 9);
}

#[test]
fn selecting_without_id_takes_every_podcast() {
    let podcasts = vec![
        Podcast::new(String::from("p1"), String::from("http://h/f1.xml")),
        Podcast::new(String::from("p2"), String::from("http://h/f2.xml")),
    ];
    let selected = select_podcasts(&podcasts, &None);
    let ids: Vec<&str> = selected.iter().map(|p| p.id.as_str()).collect();
    assert_eq!(ids, vec!["p1", "p2"]);
}

#[test]
fn selecting_by_id_takes_only_that_podcast() {
    let podcasts = vec![
        Podcast::new(String::from("p1"), String::from("http://h/f1.xml")),
        Podcast::new(String::from("p2"), String::from("http://h/f2.xml")),
    ];
    let selected = select_podcasts(&podcasts, &Some(String::from("p2")));
    assert_eq!(selected.len(), 1);
    assert_eq!(selected[0].id, "p2");
    assert_eq!(selected[0].url, "http://h/f2.xml");
    let none = select_podcasts(&podcasts, &Some(String::from("p9")));
    assert!(none.is_empty());
}

#[test]
fn settings_carry_their_parts() {
    let s = Settings::new(
        String::from("/media"),
        String::from("mpv"),
        vec![Podcast::new(String::from("p"), String::from("http://h/f.xml"))],
    );
    assert_eq!(s.config.media_dir, "/media");
    assert_eq!(s.player, "mpv");
    assert_eq!(s.podcasts.len(), 1);
}
