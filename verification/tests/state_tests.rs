use podcaster::episode::Episode;
use podcaster::state::catchup;
use podcaster::state::compute_updated_state;
use podcaster::state::StateEntry;
use podcaster::state::StateMap;
use podcaster::state::RETENTION_CAP;

fn ep(id: &str) -> Episode {
    Episode::new(
        format!("title of {}", id),
        Some(String::from(id)),
        format!("http://host/media/{}.mp3", id),
        String::from("Mon, 01 Jan 2024 00:00:00 GMT"),
    )
    .unwrap()
}

fn entry(podcast_id: &str, ids: &[&str]) -> StateEntry {
    StateEntry {
        podcast_id: String::from(podcast_id),
        episodes: ids.iter().map(|id| ep(id)).collect(),
    }
}

fn ids_for(state: &StateMap, podcast_id: &str) -> Vec<String> {
    state
        .get(&String::from(podcast_id))
        .expect("podcast must be present")
        .iter()
        .map(|e| e.id.clone())
        .collect()
}

#[test]
fn new_downloads_are_prepended_to_previous_history() {
    let previous = StateMap::from_entries(vec![entry("p1", &["e1", "e2"])]);
    let fresh = StateMap::from_entries(vec![entry("p1", &["e3"])]);
    let updated = compute_updated_state(fresh, previous);
    assert_eq!(ids_for(&updated, "p1"), vec!["e3", "e1", "e2"]);
}

#[test]
fn podcast_absent_from_new_results_keeps_previous_entry() {
    let previous = StateMap::from_entries(vec![
        entry("p1", &["a1", "a2"]),
        entry("p2", &["b1"]),
    ]);
    let fresh = StateMap::from_entries(vec![entry("p1", &["a3"])]);
    let updated = compute_updated_state(fresh, previous);
    assert_eq!(ids_for(&updated, "p1"), vec!["a3", "a1", "a2"]);
    assert_eq!(ids_for(&updated, "p2"), vec!["b1"]);
}

#[test]
fn reconciled_history_is_truncated_to_the_retention_cap() {
    let old_ids: Vec<String> = (0..90).map(|i| format!("old{}", i)).collect();
    let old_refs: Vec<&str> = old_ids.iter().map(|s| s.as_str()).collect();
    let new_ids: Vec<String> = (0..20).map(|i| format!("new{}", i)).collect();
    let new_refs: Vec<&str> = new_ids.iter().map(|s| s.as_str()).collect();
    let previous = StateMap::from_entries(vec![entry("p", &old_refs)]);
    let fresh = StateMap::from_entries(vec![entry("p", &new_refs)]);
    let updated = compute_updated_state(fresh, previous);
    let kept = ids_for(&updated, "p");
    assert_eq!(kept.len(), RETENTION_CAP);
    assert_eq!(kept[0], "new0");
    assert_eq!(kept[19], "new19");
    assert_eq!(kept[20], "old0");
    assert_eq!(kept[99], "old79");
}

#[test]
fn podcast_new_to_the_state_gets_its_own_entry() {
    let previous = StateMap::from_entries(vec![entry("p1", &["a"])]);
    let fresh = StateMap::from_entries(vec![entry("p2", &["b"])]);
    let updated = compute_updated_state(fresh, previous);
    assert_eq!(ids_for(&updated, "p1"), vec!["a"]);
    assert_eq!(ids_for(&updated, "p2"), vec!["b"]);
}

#[test]
fn absent_podcast_is_absent_from_lookup() {
    let state = StateMap::from_entries(vec![entry("p1", &["a"])]);
    assert!(state.get(&String::from("p9")).is_none());
}

#[test]
fn from_entries_keeps_the_first_of_duplicate_ids() {
    let state = StateMap::from_entries(vec![
        entry("p1", &["first"]),
        entry("p1", &["second"]),
    ]);
    assert_eq!(ids_for(&state, "p1"), vec!["first"]);
    assert_eq!(state.entries().len(), 1);
}

#[test]
fn catchup_records_unseen_feed_episodes_without_downloading() {
    let previous = StateMap::from_entries(vec![entry("p1", &["e1"])]);
    let feed = vec![ep("e2"), ep("e1"), ep("e0")];
    let updated = catchup(previous, &String::from("p1"), feed);
    assert_eq!(ids_for(&updated, "p1"), vec!["e2", "e0", "e1"]);
}

#[test]
fn catchup_on_unknown_podcast_creates_its_entry() {
    let previous = StateMap::new();
    let feed = vec![ep("e1")];
    let updated = catchup(previous, &String::from("p1"), feed);
    assert_eq!(ids_for(&updated, "p1"), vec!["e1"]);
}

#[test]
fn new_episodes_alone_beyond_the_cap_are_truncated() {
    let new_ids: Vec<String> = (0..120).map(|i| format!("n{}", i)).collect();
    let new_refs: Vec<&str> = new_ids.iter().map(|s| s.as_str()).collect();
    let previous = StateMap::from_entries(vec![entry("p", &["older"])]);
    let fresh = StateMap::from_entries(vec![entry("p", &new_refs)]);
    let updated = compute_updated_state(fresh, previous);
    let kept = ids_for(&updated, "p");
    assert_eq!(kept.len(), RETENTION_CAP);
    assert_eq!(kept[0], "n0");
    assert_eq!(kept[99], "n99");
    assert!(!kept.contains(&String::from("older")));
}
