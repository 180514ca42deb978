use vstd::prelude::*;

verus! {

/// One podcast episode, as read from a feed.
///
/// `id` is the canonical identifier used for duplicate detection: the feed's
/// `guid` when the item carries a non-empty one, and otherwise the derived
/// local file name. `file_name` is the last path segment of `media_url`.
pub struct Episode {
    pub title: String,
    pub id: String,
    pub media_url: String,
    pub pub_date: String,
    pub file_name: String,
}

/// The mathematical content of an `Episode`: each text field as a sequence
/// of characters.
pub ghost struct EpisodeView {
    pub title: Seq<char>,
    pub id: Seq<char>,
    pub media_url: Seq<char>,
    pub pub_date: Seq<char>,
    pub file_name: Seq<char>,
}

impl View for Episode {
    type V = EpisodeView;

    open spec fn view(&self) -> EpisodeView {
        EpisodeView {
            title: self.title@,
            id: self.id@,
            media_url: self.media_url@,
            pub_date: self.pub_date@,
            file_name: self.file_name@,
        }
    }
}

impl DeepView for Episode {
    type V = EpisodeView;

    open spec fn deep_view(&self) -> EpisodeView {
        self.view()
    }
}

impl Clone for Episode {
    fn clone(&self) -> (r: Self)
        ensures
            r == *self,
    {
        Episode {
            title: self.title.clone(),
            id: self.id.clone(),
            media_url: self.media_url.clone(),
            pub_date: self.pub_date.clone(),
            file_name: self.file_name.clone(),
        }
    }
}

/// The last path segment of a URL, as the `url` crate resolves it, or `None`
/// when the text is not a parseable URL or the URL cannot carry a path.
pub uninterp spec fn media_file_name_of(url: Seq<char>) -> Option<Seq<char>>;

/// Relies on `url::Url::parse` and `url::Url::path_segments`: both are
/// deterministic in the URL text, so the final path segment (or the absence
/// of one) is a function of the text alone.
#[verifier::external_body]
fn url_last_segment(url: &str) -> (r: Option<String>)
    ensures
        match r {
            Some(name) => media_file_name_of(url@) == Some(name@),
            None => media_file_name_of(url@) is None,
        },
{
    match url::Url::parse(url) {
        Ok(u) => match u.path_segments() {
            Some(segments) => segments.last().map(|s| s.to_string()),
            None => None,
        },
        Err(_) => None,
    }
}

/// The episode record built from one feed item's fields, or `None` when no
/// non-empty local file name can be derived from the media URL.
pub open spec fn episode_record(
    title: Seq<char>,
    guid: Option<Seq<char>>,
    media_url: Seq<char>,
    pub_date: Seq<char>,
) -> Option<EpisodeView> {
    match media_file_name_of(media_url) {
        Some(name) => if name.len() == 0 {
            None
        } else {
            Some(
                EpisodeView {
                    title: title,
                    id: match guid {
                        Some(g) => if g.len() > 0 {
                            g
                        } else {
                            name
                        },
                        None => name,
                    },
                    media_url: media_url,
                    pub_date: pub_date,
                    file_name: name,
                },
            )
        },
        None => None,
    }
}

impl Episode {
    /// Builds an episode from one feed item's fields, deriving the local
    /// file name from the media URL; `None` when the URL yields no non-empty
    /// file name.
    pub fn new(title: String, guid: Option<String>, media_url: String, pub_date: String) -> (r:
        Option<Episode>)
        ensures
            r.deep_view() == episode_record(title@, guid.deep_view(), media_url@, pub_date@),
    {
        match url_last_segment(media_url.as_str()) {
            Some(name) => {
                if name.as_str().is_empty() {
                    None
                } else {
                    let id = match guid {
                        Some(g) => if g.as_str().is_empty() {
                            name.clone()
                        } else {
                            g
                        },
                        None => name.clone(),
                    };
                    Some(
                        Episode {
                            title,
                            id,
                            media_url,
                            pub_date,
                            file_name: name,
                        },
                    )
                }
            },
            None => None,
        }
    }
}

} // verus!
