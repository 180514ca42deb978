use podcaster::dedup::episode_ids;
use podcaster::dedup::filter_new;
use podcaster::episode::Episode;

fn ep(id: &str) -> Episode {
    Episode::new(
        format!("title of {}", id),
        Some(String::from(id)),
        format!("http://host/media/{}.mp3", id),
        String::from("Mon, 01 Jan 2024 00:00:00 GMT"),
    )
    .unwrap()
}

fn ids(eps: &[Episode]) -> Vec<String> {
    eps.iter().map(|e| e.id.clone()).collect()
}

#[test]
fn filter_new_keeps_unseen_in_order() {
    let candidates = vec![ep("a"), ep("b"), ep("c"), ep("d")];
    let seen = vec![String::from("b"), String::from("d"), String::from("zzz")];
    let fresh = filter_new(candidates, &seen);
    assert_eq!(ids(&fresh), vec!["a", "c"]);
}

#[test]
fn filter_new_with_empty_seen_set_returns_all() {
    let candidates = vec![ep("a"), ep("b")];
    let fresh = filter_new(candidates, &Vec::new());
    assert_eq!(ids(&fresh), vec!["a", "b"]);
}

#[test]
fn filter_new_result_never_carries_a_seen_identifier() {
    let candidates = vec![ep("a"), ep("b"), ep("c")];
    let seen = vec![String::from("a"), String::from("c")];
    let fresh = filter_new(candidates, &seen);
    for e in &fresh {
        assert!(!seen.contains(&e.id));
    }
    assert_eq!(ids(&fresh), vec!["b"]);
}

#[test]
fn filtering_twice_with_same_seen_set_changes_nothing() {
    let candidates = vec![ep("a"), ep("b"), ep("c"), ep("d"), ep("e")];
    let seen = vec![String::from("b"), String::from("e")];
    let once = filter_new(candidates.clone(), &seen);
    let twice = filter_new(once.clone(), &seen);
    assert_eq!(ids(&once), ids(&twice));
    assert_eq!(ids(&once), vec!["a", "c", "d"]);
}

#[test]
fn episode_ids_lists_identifiers_in_order() {
    let eps = vec![ep("x"), ep("y")];
    assert_eq!(episode_ids(&eps), vec!["x", "y"]);
}
