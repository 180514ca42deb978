use vstd::prelude::*;

use crate::dedup::episode_ids;
use crate::dedup::filter_new;
use crate::dedup::filter_new_spec;
use crate::episode::Episode;
use crate::feed::FeedParseError;
use crate::feed::feed_episodes;
use crate::feed::parse_feed;
use crate::state::StateMap;
use crate::state::seen_ids;
use crate::text::str_eq;
use crate::xml::xml_tree_of;

verus! {

/// One subscribed podcast: the user-chosen identifier and the feed URL.
/// Static configuration; never mutated at run time.
pub struct Podcast {
    pub id: String,
    pub url: String,
}

impl Clone for Podcast {
    fn clone(&self) -> (r: Self)
        ensures
            r == *self,
    {
        Podcast { id: self.id.clone(), url: self.url.clone() }
    }
}

impl Podcast {
    /// A podcast entry for the given identifier and feed URL.
    pub fn new(id: String, url: String) -> (r: Podcast)
        ensures
            r.id == id,
            r.url == url,
    {
        Podcast { id, url }
    }

    /// The episodes of this podcast's fetched feed that are not yet
    /// recorded in `state`: parses the feed text, keeps at most `count`
    /// episodes, and removes the already-downloaded ones. Fails exactly
    /// when the feed text is not well-formed XML.
    pub fn new_episodes(&self, feed_text: &str, count: usize, state: &StateMap) -> (r: Result<
        Vec<Episode>,
        FeedParseError,
    >)
        requires
            state.wf(),
        ensures
            match r {
                Ok(eps) => xml_tree_of(feed_text@) matches Some(root) && eps.deep_view()
                    == filter_new_spec(
                    feed_episodes(root, count as int),
                    seen_ids(state@, self.id@),
                ),
                Err(_) => xml_tree_of(feed_text@) is None,
            },
    {
        let fetched = match parse_feed(feed_text, count) {
            Ok(eps) => eps,
            Err(e) => {
                return Err(e);
            },
        };
        let seen: Vec<String> = match state.get(&self.id) {
            Some(eps) => episode_ids(eps),
            None => Vec::new(),
        };
        proof {
            assert(seen.deep_view() =~= seen_ids(state@, self.id@));
        }
        Ok(filter_new(fetched, &seen))
    }
}

/// The podcasts an action applies to: all of them when no identifier was
/// given, and exactly those with the given identifier otherwise.
pub open spec fn selected_podcasts(ps: Seq<Podcast>, podcast_id: Option<Seq<char>>) -> Seq<
    Podcast,
>
    decreases ps.len(),
{
    match podcast_id {
        None => ps,
        Some(id) => if ps.len() == 0 {
            Seq::empty()
        } else {
            let rest = selected_podcasts(ps.drop_first(), podcast_id);
            if ps[0].id@ == id {
                seq![ps[0]] + rest
            } else {
                rest
            }
        },
    }
}

proof fn lemma_selected_push(ps: Seq<Podcast>, p: Podcast, id: Seq<char>)
    ensures
        selected_podcasts(ps.push(p), Some(id)) == selected_podcasts(ps, Some(id)) + (if p.id@
            == id {
            seq![p]
        } else {
            Seq::<Podcast>::empty()
        }),
    decreases ps.len(),
{
    let tail = if p.id@ == id {
        seq![p]
    } else {
        Seq::<Podcast>::empty()
    };
    if ps.len() == 0 {
        assert(ps.push(p)[0] == p);
        assert(ps.push(p).drop_first() =~= Seq::<Podcast>::empty());
        assert(selected_podcasts(Seq::<Podcast>::empty(), Some(id)) == Seq::<Podcast>::empty());
        assert(selected_podcasts(ps, Some(id)) == Seq::<Podcast>::empty());
        assert(selected_podcasts(ps.push(p), Some(id)) =~= selected_podcasts(ps, Some(id)) + tail);
    } else {
        lemma_selected_push(ps.drop_first(), p, id);
        assert(ps.push(p)[0] == ps[0]);
        assert(ps.push(p).drop_first() =~= ps.drop_first().push(p));
        if ps[0].id@ == id {
            assert(seq![ps[0]] + (selected_podcasts(ps.drop_first(), Some(id)) + tail) =~= (
            seq![ps[0]] + selected_podcasts(ps.drop_first(), Some(id))) + tail);
        }
    }
}

/// The podcasts the requested action applies to: all of them when no
/// identifier was given, else those whose identifier matches.
pub fn select_podcasts(podcasts: &Vec<Podcast>, podcast_id: &Option<String>) -> (r: Vec<Podcast>)
    ensures
        r@ == selected_podcasts(podcasts@, podcast_id.deep_view()),
{
    match podcast_id {
        None => {
            let r = podcasts.clone();
            proof {
                assert forall|k: int| 0 <= k < podcasts.len() implies r[k] == podcasts[k] by {}
                assert(r@ =~= podcasts@);
            }
            r
        },
        Some(id) => {
            let ghost ps = podcasts@;
            let mut out: Vec<Podcast> = Vec::new();
            proof {
                assert(ps.take(0) =~= Seq::<Podcast>::empty());
            }
            let mut i: usize = 0;
            while i < podcasts.len()
                invariant
                    i <= podcasts.len(),
                    ps == podcasts@,
                    out@ == selected_podcasts(ps.take(i as int), Some(id@)),
                decreases podcasts.len() - i,
            {
                let ghost before = out@;
                if str_eq(podcasts[i].id.as_str(), id.as_str()) {
                    out.push(podcasts[i].clone());
                    proof {
                        assert(out@ =~= before.push(ps[i as int]));
                    }
                }
                proof {
                    assert(ps.take(i as int + 1) =~= ps.take(i as int).push(ps[i as int]));
                    lemma_selected_push(ps.take(i as int), ps[i as int], id@);
                    if ps[i as int].id@ != id@ {
                        assert(out@ =~= before + Seq::<Podcast>::empty());
                    }
                }
                i += 1;
            }
            proof {
                assert(ps.take(i as int) =~= ps);
            }
            out
        },
    }
}

} // verus!
