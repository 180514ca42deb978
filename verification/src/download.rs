use vstd::prelude::*;
use vstd::string::StringExecFns;

use crate::episode::Episode;
use crate::episode::EpisodeView;
use crate::state::StateEntry;
use crate::state::StateEntryView;
use crate::state::StateMap;
use crate::state::entries_map;

verus! {

/// Why one episode's download failed.
pub enum DownloadError {
    /// Connection failure, timeout, too many redirects, or a non-success
    /// HTTP status; `detail` carries the underlying cause.
    Network { detail: String },
    /// The fetched body could not be written to the local file system.
    Io { detail: String },
}

/// The mathematical content of a `DownloadError`.
pub ghost enum DownloadErrorView {
    Network { detail: Seq<char> },
    Io { detail: Seq<char> },
}

impl DeepView for DownloadError {
    type V = DownloadErrorView;

    open spec fn deep_view(&self) -> DownloadErrorView {
        match self {
            DownloadError::Network { detail } => DownloadErrorView::Network { detail: detail@ },
            DownloadError::Io { detail } => DownloadErrorView::Io { detail: detail@ },
        }
    }
}

/// The outcome of one episode's download.
pub enum DownloadResult {
    /// The episode's media is at `path`; `bytes_transferred` is what was
    /// fetched for it this run (zero when the file was already there).
    Completed { path: String, bytes_transferred: u64 },
    /// The download failed; the episode is not recorded as downloaded.
    Failed { error: DownloadError },
}

/// The mathematical content of a `DownloadResult`.
pub ghost enum DownloadResultView {
    Completed { path: Seq<char>, bytes_transferred: u64 },
    Failed { error: DownloadErrorView },
}

impl DeepView for DownloadResult {
    type V = DownloadResultView;

    open spec fn deep_view(&self) -> DownloadResultView {
        match self {
            DownloadResult::Completed { path, bytes_transferred } => DownloadResultView::Completed {
                path: path@,
                bytes_transferred: *bytes_transferred,
            },
            DownloadResult::Failed { error } => DownloadResultView::Failed {
                error: error.deep_view(),
            },
        }
    }
}

/// What the caller must do next to advance one episode's download. The
/// caller performs the step's outside work (file probe, HTTP fetch, file
/// write) and reports what happened; every decision is taken here.
pub enum DownloadStep {
    /// Probe whether a file already exists at `path`.
    CheckTarget { path: String },
    /// Fetch the media resource at `url`, reporting progress as it goes.
    FetchMedia { url: String },
    /// Write the fetched body to `path`, without leaving a partial file at
    /// that path on failure (write fully buffered, or to a temporary path
    /// first).
    WriteFile { path: String },
    /// The download is over; nothing more to do.
    Report { result: DownloadResult },
}

/// Where one episode's download stands.
pub enum DownloadPhase {
    /// Waiting to learn whether the target file already exists.
    CheckingTarget,
    /// Waiting for the media fetch to finish.
    Fetching,
    /// The fetch brought this many bytes; waiting for the file write.
    Writing { bytes: u64 },
    /// The download is over.
    Finished,
}

/// The decision logic of one episode's download: resolves the target path,
/// declines to overwrite an existing file (success, nothing fetched),
/// classifies fetch failures as network errors and write failures as I/O
/// errors. The caller drives it step by step; no outside work happens
/// here.
pub struct Downloader {
    path: String,
    url: String,
    phase: DownloadPhase,
}

impl Downloader {
    /// Where this download stands.
    pub closed spec fn phase(&self) -> DownloadPhase {
        self.phase
    }

    /// The resolved target path.
    pub closed spec fn target_path(&self) -> Seq<char> {
        self.path@
    }

    /// The media URL being fetched.
    pub closed spec fn media_url(&self) -> Seq<char> {
        self.url@
    }

    /// Starts one episode's download into `dir_path`. The first step
    /// probes the target file, so an existing file is never overwritten
    /// and no request is issued for it.
    pub fn start(episode: &Episode, dir_path: &String) -> (r: (Downloader, DownloadStep))
        ensures
            r.0.phase() is CheckingTarget,
            r.0.target_path() == dir_path@ + "/"@ + episode.file_name@,
            r.0.media_url() == episode.media_url@,
            r.1 matches DownloadStep::CheckTarget { path } && path@ == r.0.target_path(),
    {
        let mut path = dir_path.clone();
        path.append("/");
        path.append(episode.file_name.as_str());
        let step_path = path.clone();
        let task = Downloader {
            path,
            url: episode.media_url.clone(),
            phase: DownloadPhase::CheckingTarget,
        };
        (task, DownloadStep::CheckTarget { path: step_path })
    }

    /// Takes the result of the target probe: an existing file is an
    /// immediate success with nothing transferred (and no request made);
    /// otherwise the media must be fetched.
    pub fn target_checked(&mut self, exists: bool) -> (step: DownloadStep)
        requires
            old(self).phase() is CheckingTarget,
        ensures
            final(self).target_path() == old(self).target_path(),
            final(self).media_url() == old(self).media_url(),
            exists ==> final(self).phase() is Finished && (step matches DownloadStep::Report {
                result,
            } && result.deep_view() == (DownloadResultView::Completed {
                path: old(self).target_path(),
                bytes_transferred: 0u64,
            })),
            !exists ==> final(self).phase() is Fetching && (
            step matches DownloadStep::FetchMedia { url } && url@ == old(self).media_url()),
    {
        if exists {
            self.phase = DownloadPhase::Finished;
            DownloadStep::Report {
                result: DownloadResult::Completed {
                    path: self.path.clone(),
                    bytes_transferred: 0,
                },
            }
        } else {
            self.phase = DownloadPhase::Fetching;
            DownloadStep::FetchMedia { url: self.url.clone() }
        }
    }

    /// Takes the result of the fetch: a failure is a network error and
    /// ends the download; a fetched body of `n` bytes must now be written.
    pub fn media_fetched(&mut self, outcome: Result<u64, String>) -> (step: DownloadStep)
        requires
            old(self).phase() is Fetching,
        ensures
            final(self).target_path() == old(self).target_path(),
            final(self).media_url() == old(self).media_url(),
            match outcome {
                Ok(n) => final(self).phase() == (DownloadPhase::Writing { bytes: n }) && (
                step matches DownloadStep::WriteFile { path } && path@ == old(self).target_path()),
                Err(detail) => final(self).phase() is Finished && (
                step matches DownloadStep::Report { result } && result.deep_view()
                    == (DownloadResultView::Failed {
                    error: DownloadErrorView::Network { detail: detail@ },
                })),
            },
    {
        match outcome {
            Ok(n) => {
                self.phase = DownloadPhase::Writing { bytes: n };
                DownloadStep::WriteFile { path: self.path.clone() }
            },
            Err(detail) => {
                self.phase = DownloadPhase::Finished;
                DownloadStep::Report {
                    result: DownloadResult::Failed {
                        error: DownloadError::Network { detail },
                    },
                }
            },
        }
    }

    /// Takes the result of the file write: success completes the download
    /// with the fetched byte count; a failure is an I/O error.
    pub fn file_written(&mut self, outcome: Result<(), String>) -> (step: DownloadStep)
        requires
            old(self).phase() matches DownloadPhase::Writing { .. },
        ensures
            final(self).target_path() == old(self).target_path(),
            final(self).media_url() == old(self).media_url(),
            final(self).phase() is Finished,
            match outcome {
                Ok(_) => step matches DownloadStep::Report { result } && result.deep_view() == (
                DownloadResultView::Completed {
                    path: old(self).target_path(),
                    bytes_transferred: old(self).phase()->Writing_bytes,
                }),
                Err(detail) => step matches DownloadStep::Report { result } && result.deep_view()
                    == (DownloadResultView::Failed {
                    error: DownloadErrorView::Io { detail: detail@ },
                }),
            },
    {
        let bytes = match self.phase {
            DownloadPhase::Writing { bytes } => bytes,
            _ => 0,
        };
        self.phase = DownloadPhase::Finished;
        match outcome {
            Ok(_) => DownloadStep::Report {
                result: DownloadResult::Completed {
                    path: self.path.clone(),
                    bytes_transferred: bytes,
                },
            },
            Err(detail) => DownloadStep::Report {
                result: DownloadResult::Failed {
                    error: DownloadError::Io { detail },
                },
            },
        }
    }
}

/// Progress of one transfer: bytes done against the declared total, when
/// one was declared. A missing declared length is not an error; progress
/// is then reported as bytes alone.
pub struct ProgressCounter {
    pub transferred: u64,
    pub total: Option<u64>,
}

impl ProgressCounter {
    /// A fresh counter for a transfer of `total` declared bytes, when the
    /// response declared a length.
    pub fn new(total: Option<u64>) -> (r: ProgressCounter)
        ensures
            r.transferred == 0,
            r.total == total,
    {
        ProgressCounter { transferred: 0, total }
    }

    /// Records `n` more transferred bytes, saturating at the counter's
    /// limit.
    pub fn advance(&mut self, n: u64)
        ensures
            final(self).total == old(self).total,
            final(self).transferred == if old(self).transferred + n <= u64::MAX {
                old(self).transferred + n
            } else {
                u64::MAX as int
            },
    {
        if n <= u64::MAX - self.transferred {
            self.transferred = self.transferred + n;
        } else {
            self.transferred = u64::MAX;
        }
    }

    /// Whether the declared total has been reached; never true when no
    /// total was declared.
    pub fn is_complete(&self) -> (r: bool)
        ensures
            r == match self.total {
                Some(t) => self.transferred >= t,
                None => false,
            },
    {
        match self.total {
            Some(t) => self.transferred >= t,
            None => false,
        }
    }
}

/// The episodes of the outcomes that completed, in order; failed episodes
/// are dropped (the caller reports them through its own log).
pub open spec fn successful_episodes_spec(outcomes: Seq<(EpisodeView, DownloadResultView)>) -> Seq<
    EpisodeView,
>
    decreases outcomes.len(),
{
    if outcomes.len() == 0 {
        Seq::empty()
    } else {
        let rest = successful_episodes_spec(outcomes.drop_first());
        if outcomes[0].1 is Completed {
            seq![outcomes[0].0] + rest
        } else {
            rest
        }
    }
}

proof fn lemma_successful_episodes_push(
    outcomes: Seq<(EpisodeView, DownloadResultView)>,
    o: (EpisodeView, DownloadResultView),
)
    ensures
        successful_episodes_spec(outcomes.push(o)) == successful_episodes_spec(outcomes) + (
        if o.1 is Completed {
            seq![o.0]
        } else {
            Seq::<EpisodeView>::empty()
        }),
    decreases outcomes.len(),
{
    let tail = if o.1 is Completed {
        seq![o.0]
    } else {
        Seq::<EpisodeView>::empty()
    };
    if outcomes.len() == 0 {
        assert(outcomes.push(o)[0] == o);
        assert(outcomes.push(o).drop_first() =~= Seq::<(EpisodeView, DownloadResultView)>::empty());
        assert(successful_episodes_spec(Seq::<(EpisodeView, DownloadResultView)>::empty())
            == Seq::<EpisodeView>::empty());
        assert(successful_episodes_spec(outcomes) == Seq::<EpisodeView>::empty());
        assert(successful_episodes_spec(outcomes.push(o)) =~= successful_episodes_spec(outcomes)
            + tail);
    } else {
        lemma_successful_episodes_push(outcomes.drop_first(), o);
        assert(outcomes.push(o)[0] == outcomes[0]);
        assert(outcomes.push(o).drop_first() =~= outcomes.drop_first().push(o));
        if outcomes[0].1 is Completed {
            assert(seq![outcomes[0].0] + (successful_episodes_spec(outcomes.drop_first()) + tail)
                =~= (seq![outcomes[0].0] + successful_episodes_spec(outcomes.drop_first()))
                + tail);
        }
    }
}

/// The episodes that were downloaded, in order; failures are dropped, and
/// a failure never affects the sibling outcomes around it.
pub fn successful_episodes(outcomes: Vec<(Episode, DownloadResult)>) -> (r: Vec<Episode>)
    ensures
        r.deep_view() == successful_episodes_spec(outcomes.deep_view()),
{
    let ghost os = outcomes.deep_view();
    let mut out: Vec<Episode> = Vec::new();
    proof {
        assert(os.take(0) =~= Seq::<(EpisodeView, DownloadResultView)>::empty());
        assert(out.deep_view() =~= successful_episodes_spec(os.take(0)));
    }
    let mut i: usize = 0;
    while i < outcomes.len()
        invariant
            i <= outcomes.len(),
            os == outcomes.deep_view(),
            os.len() == outcomes.len(),
            out.deep_view() == successful_episodes_spec(os.take(i as int)),
        decreases outcomes.len() - i,
    {
        let ghost before = out.deep_view();
        match &outcomes[i].1 {
            DownloadResult::Completed { .. } => {
                out.push(outcomes[i].0.clone());
                proof {
                    assert(out.deep_view() =~= before.push(os[i as int].0));
                }
            },
            DownloadResult::Failed { .. } => {
            },
        }
        proof {
            assert(os.take(i as int + 1) =~= os.take(i as int).push(os[i as int]));
            lemma_successful_episodes_push(os.take(i as int), os[i as int]);
            if !(os[i as int].1 is Completed) {
                assert(out.deep_view() =~= before + Seq::<EpisodeView>::empty());
            }
        }
        i += 1;
    }
    proof {
        assert(os.take(i as int) =~= os);
    }
    out
}

/// One podcast's download outcomes, as collected after all its episode
/// tasks were joined.
pub struct PodcastOutcome {
    pub podcast_id: String,
    pub outcomes: Vec<(Episode, DownloadResult)>,
}

/// The mathematical content of a `PodcastOutcome`.
pub ghost struct PodcastOutcomeView {
    pub podcast_id: Seq<char>,
    pub outcomes: Seq<(EpisodeView, DownloadResultView)>,
}

impl DeepView for PodcastOutcome {
    type V = PodcastOutcomeView;

    open spec fn deep_view(&self) -> PodcastOutcomeView {
        PodcastOutcomeView {
            podcast_id: self.podcast_id@,
            outcomes: self.outcomes.deep_view(),
        }
    }
}

/// The state entry a podcast's outcomes reduce to: its successfully
/// downloaded episodes, failures dropped.
pub open spec fn outcome_entry(p: PodcastOutcomeView) -> StateEntryView {
    StateEntryView { podcast_id: p.podcast_id, episodes: successful_episodes_spec(p.outcomes) }
}

/// Reduces the joined per-podcast outcomes to the fresh download state:
/// each podcast maps to the episodes downloaded for it this run, failures
/// dropped. A failure of one episode never removes its siblings.
pub fn compute_new_state(results: Vec<PodcastOutcome>) -> (r: StateMap)
    ensures
        r.wf(),
        r@ == entries_map(
            results.deep_view().map_values(|p: PodcastOutcomeView| outcome_entry(p)),
        ),
{
    let ghost rs = results.deep_view();
    let ghost target = rs.map_values(|p: PodcastOutcomeView| outcome_entry(p));
    let mut entries: Vec<StateEntry> = Vec::new();
    let mut results = results;
    proof {
        assert(entries.deep_view() =~= target.take(0));
        assert(rs.skip(0) =~= rs);
        assert(rs.len() == results.len());
    }
    let mut i: usize = 0;
    while results.len() > 0
        invariant
            i <= rs.len(),
            rs.len() <= usize::MAX,
            rs.len() == i + results.len(),
            target == rs.map_values(|p: PodcastOutcomeView| outcome_entry(p)),
            target.len() == rs.len(),
            results.deep_view() == rs.skip(i as int),
            entries.deep_view() == target.take(i as int),
        decreases results.len(),
    {
        let ghost before_seq = results@;
        let ghost before_deep = results.deep_view();
        let p = results.remove(0);
        proof {
            assert(p == before_seq[0]);
            assert(p.deep_view() == before_deep[0]);
            assert(p.deep_view() == rs[i as int]);
            assert(results@ =~= before_seq.drop_first());
            assert forall|k: int| 0 <= k < results@.len() implies results.deep_view()[k] == rs.skip(
                i as int + 1,
            )[k] by {
                assert(results.deep_view()[k] == results@[k].deep_view());
                assert(results@[k] == before_seq[k + 1]);
                assert(before_deep[k + 1] == rs.skip(i as int)[k + 1]);
                assert(rs.skip(i as int)[k + 1] == rs[i as int + 1 + k]);
            }
            assert(results.deep_view() =~= rs.skip(i as int + 1));
        }
        let episodes = successful_episodes(p.outcomes);
        let ghost before = entries.deep_view();
        entries.push(StateEntry { podcast_id: p.podcast_id, episodes });
        proof {
            assert(entries.deep_view() =~= before.push(target[i as int]));
            assert(target.take(i as int + 1) =~= target.take(i as int).push(target[i as int]));
        }
        i += 1;
    }
    proof {
        assert(entries.deep_view() =~= target);
    }
    StateMap::from_entries(entries)
}

} // verus!
