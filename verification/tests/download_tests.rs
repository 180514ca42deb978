use podcaster::download::compute_new_state;
use podcaster::download::successful_episodes;
use podcaster::download::DownloadError;
use podcaster::download::DownloadResult;
use podcaster::download::DownloadStep;
use podcaster::download::Downloader;
use podcaster::download::PodcastOutcome;
use podcaster::download::ProgressCounter;
use podcaster::episode::Episode;

fn ep(id: &str) -> Episode {
    Episode::new(
        format!("title of {}", id),
        Some(String::from(id)),
        format!("http://host/media/{}.mp3", id),
        String::from("Mon, 01 Jan 2024 00:00:00 GMT"),
    )
    .unwrap()
}

#[test]
fn existing_target_is_success_without_any_fetch() {
    let episode = ep("e1");
    let dir = String::from("/media/cast");
    let (mut task, step) = Downloader::start(&episode, &dir);
    let probed = match step {
        DownloadStep::CheckTarget { path } => {
            assert_eq!(path, "/media/cast/e1.mp3");
            path
        }
        _ => panic!("first step must probe the target"),
    };
    // The file is already there: the task must finish at once, with zero
    // bytes transferred and no FetchMedia step ever issued.
    match task.target_checked(true) {
        DownloadStep::Report {
            result: DownloadResult::Completed { path, bytes_transferred },
        } => {
            assert_eq!(path, probed);
            assert_eq!(bytes_transferred, 0);
        }
        _ => panic!("existing target must complete the download untouched"),
    }
}

#[test]
fn fresh_target_is_fetched_then_written() {
    let episode = ep("e2");
    let dir = String::from("/media/cast");
    let (mut task, _) = Downloader::start(&episode, &dir);
    match task.target_checked(false) {
        DownloadStep::FetchMedia { url } => {
            assert_eq!(url, "http://host/media/e2.mp3");
        }
        _ => panic!("missing target must lead to a fetch"),
    }
    match task.media_fetched(Ok(1234)) {
        DownloadStep::WriteFile { path } => {
            assert_eq!(path, "/media/cast/e2.mp3");
        }
        _ => panic!("a fetched body must be written"),
    }
    match task.file_written(Ok(())) {
        DownloadStep::Report {
            result: DownloadResult::Completed { path, bytes_transferred },
        } => {
            assert_eq!(path, "/media/cast/e2.mp3");
            assert_eq!(bytes_transferred, 1234);
        }
        _ => panic!("a written file completes the download"),
    }
}

#[test]
fn fetch_failure_is_a_network_error() {
    let episode = ep("e3");
    let dir = String::from("d");
    let (mut task, _) = Downloader::start(&episode, &dir);
    task.target_checked(false);
    match task.media_fetched(Err(String::from("connection timed out"))) {
        DownloadStep::Report {
            result: DownloadResult::Failed { error: DownloadError::Network { detail } },
        } => {
            assert_eq!(detail, "connection timed out");
        }
        _ => panic!("a failed fetch must report a network error"),
    }
}

#[test]
fn write_failure_is_an_io_error() {
    let episode = ep("e4");
    let dir = String::from("d");
    let (mut task, _) = Downloader::start(&episode, &dir);
    task.target_checked(false);
    task.media_fetched(Ok(10));
    match task.file_written(Err(String::from("disk full"))) {
        DownloadStep::Report {
            result: DownloadResult::Failed { error: DownloadError::Io { detail } },
        } => {
            assert_eq!(detail, "disk full");
        }
        _ => panic!("a failed write must report an I/O error"),
    }
}

#[test]
fn one_failure_among_three_downloads_leaves_the_other_two() {
    let done = |id: &str| DownloadResult::Completed {
        path: format!("/m/{}.mp3", id),
        bytes_transferred: 7,
    };
    let outcomes = vec![
        (ep("a"), done("a")),
        (
            ep("b"),
            DownloadResult::Failed {
                error: DownloadError::Network { detail: String::from("reset by peer") },
            },
        ),
        (ep("c"), done("c")),
    ];
    let state = compute_new_state(vec![PodcastOutcome {
        podcast_id: String::from("p1"),
        outcomes,
    }]);
    let kept: Vec<String> = state
        .get(&String::from("p1"))
        .unwrap()
        .iter()
        .map(|e| e.id.clone())
        .collect();
    assert_eq!(kept, vec!["a", "c"]);
}

#[test]
fn successful_episodes_drops_failures_keeps_order() {
    let outcomes = vec![
        (
            ep("x"),
            DownloadResult::Failed {
                error: DownloadError::Io { detail: String::from("denied") },
            },
        ),
        (
            ep("y"),
            DownloadResult::Completed { path: String::from("p"), bytes_transferred: 1 },
        ),
    ];
    let kept = successful_episodes(outcomes);
    assert_eq!(kept.len(), 1);
    assert_eq!(kept[0].id, "y");
}

#[test]
fn progress_counter_tracks_and_saturates() {
    let mut p = ProgressCounter::new(Some(10));
    assert!(!p.is_complete());
    p.advance(4);
    assert_eq!(p.transferred, 4);
    p.advance(6);
    assert!(p.is_complete());
    let mut q = ProgressCounter::new(None);
    q.advance(u64::MAX);
    q.advance(1);
    assert_eq!(q.transferred, u64::MAX);
    assert!(!q.is_complete());
}
