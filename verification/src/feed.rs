use vstd::prelude::*;

use crate::episode::Episode;
use crate::episode::EpisodeView;
use crate::episode::episode_record;
use crate::text::str_eq;
use crate::xml::XmlElement;
use crate::xml::XmlView;
use crate::xml::lemma_xml_views_index;
use crate::xml::parse_xml;
use crate::xml::xml_tree_of;
use crate::xml::xml_views;

verus! {

/// The feed document was not well-formed XML; `detail` carries the XML
/// parser's message.
#[derive(Debug)]
pub struct FeedParseError {
    pub detail: String,
}

/// The value of the first attribute named `name`, if any.
pub open spec fn attr_value(attrs: Seq<(Seq<char>, Seq<char>)>, name: Seq<char>) -> Option<
    Seq<char>,
>
    decreases attrs.len(),
{
    if attrs.len() == 0 {
        None
    } else if attrs[0].0 == name {
        Some(attrs[0].1)
    } else {
        attr_value(attrs.drop_first(), name)
    }
}

/// An enclosure element whose declared media type is the audio format of
/// interest.
pub open spec fn is_audio_enclosure(v: XmlView) -> bool {
    v.tag == "enclosure"@ && attr_value(v.attrs, "type"@) == Some("audio/mpeg"@)
}

/// The first qualifying enclosure among `cs`, if any.
pub open spec fn first_audio_enclosure(cs: Seq<XmlView>) -> Option<XmlView>
    decreases cs.len(),
{
    if cs.len() == 0 {
        None
    } else if is_audio_enclosure(cs[0]) {
        Some(cs[0])
    } else {
        first_audio_enclosure(cs.drop_first())
    }
}

/// The text directly under the first child tagged `tag`: `None` when no
/// child has that tag, or when the first one carries no text.
pub open spec fn child_text(cs: Seq<XmlView>, tag: Seq<char>) -> Option<Seq<char>>
    decreases cs.len(),
{
    if cs.len() == 0 {
        None
    } else if cs[0].tag == tag {
        cs[0].text
    } else {
        child_text(cs.drop_first(), tag)
    }
}

/// The episode carried by one `item` element, or `None` when the item does
/// not qualify (no audio enclosure) or is malformed (no enclosure URL, no
/// title, no publication date, or no derivable file name). A malformed item
/// is skipped, never an error for the whole feed.
pub open spec fn item_episode(v: XmlView) -> Option<EpisodeView> {
    match first_audio_enclosure(v.children) {
        Some(enc) => match attr_value(enc.attrs, "url"@) {
            Some(url) => match child_text(v.children, "title"@) {
                Some(title) => match child_text(v.children, "pubDate"@) {
                    Some(pub_date) => episode_record(
                        title,
                        child_text(v.children, "guid"@),
                        url,
                        pub_date,
                    ),
                    None => None,
                },
                None => None,
            },
            None => None,
        },
        None => None,
    }
}

/// All episodes under an element, in document order. An `item` element
/// contributes its own episode (if it qualifies) and is not searched for
/// nested items.
pub open spec fn episodes_in(v: XmlView) -> Seq<EpisodeView>
    decreases v,
{
    if v.tag == "item"@ {
        match item_episode(v) {
            Some(e) => seq![e],
            None => Seq::empty(),
        }
    } else {
        episodes_in_all(v.children)
    }
}

/// All episodes under a sequence of elements, in order.
pub open spec fn episodes_in_all(cs: Seq<XmlView>) -> Seq<EpisodeView>
    decreases cs,
{
    if cs.len() == 0 {
        Seq::empty()
    } else {
        episodes_in(cs[0]) + episodes_in_all(cs.drop_first())
    }
}

/// The episodes of a feed document, truncated to the first `count`.
pub open spec fn feed_episodes(root: XmlView, count: int) -> Seq<EpisodeView> {
    let all = episodes_in(root);
    if all.len() <= count {
        all
    } else {
        all.take(count)
    }
}

proof fn lemma_episodes_in_all_push(cs: Seq<XmlView>, v: XmlView)
    ensures
        episodes_in_all(cs.push(v)) == episodes_in_all(cs) + episodes_in(v),
    decreases cs.len(),
{
    if cs.len() == 0 {
        let ghost empty = Seq::<XmlView>::empty();
        assert(cs.push(v)[0] == v);
        assert(cs.push(v).drop_first() =~= empty);
        assert(episodes_in_all(empty) == Seq::<EpisodeView>::empty());
        assert(episodes_in_all(cs.push(v)) == episodes_in(v) + Seq::<EpisodeView>::empty());
        assert(episodes_in(v) + Seq::<EpisodeView>::empty() =~= episodes_in(v));
        assert(episodes_in_all(cs) == Seq::<EpisodeView>::empty());
        assert(episodes_in_all(cs) + episodes_in(v) =~= episodes_in(v));
    } else {
        lemma_episodes_in_all_push(cs.drop_first(), v);
        assert(cs.push(v)[0] == cs[0]);
        assert(cs.push(v).drop_first() =~= cs.drop_first().push(v));
        assert(episodes_in_all(cs.push(v)) == episodes_in(cs[0]) + episodes_in_all(
            cs.drop_first().push(v),
        ));
        assert(episodes_in(cs[0]) + (episodes_in_all(cs.drop_first()) + episodes_in(v)) =~= (
        episodes_in(cs[0]) + episodes_in_all(cs.drop_first())) + episodes_in(v));
    }
}

/// The first attribute named `name`, by linear search.
fn find_attr<'a>(attrs: &'a Vec<(String, String)>, name: &str) -> (r: Option<&'a String>)
    ensures
        match r {
            Some(v) => attr_value(attrs.deep_view(), name@) == Some(v@),
            None => attr_value(attrs.deep_view(), name@) is None,
        },
{
    let ghost s = attrs.deep_view();
    proof {
        assert(s.skip(0) =~= s);
    }
    let mut i: usize = 0;
    while i < attrs.len()
        invariant
            i <= attrs.len(),
            s == attrs.deep_view(),
            s.len() == attrs.len(),
            attr_value(s, name@) == attr_value(s.skip(i as int), name@),
        decreases attrs.len() - i,
    {
        proof {
            assert(s.skip(i as int)[0] == s[i as int]);
            assert(s.skip(i as int).drop_first() =~= s.skip(i as int + 1));
        }
        if str_eq(attrs[i].0.as_str(), name) {
            return Some(&attrs[i].1);
        }
        i += 1;
    }
    proof {
        assert(s.skip(i as int) =~= Seq::<(Seq<char>, Seq<char>)>::empty());
    }
    None
}

/// The first qualifying enclosure among an element's children, by linear
/// search.
fn find_enclosure<'a>(e: &'a XmlElement) -> (r: Option<&'a XmlElement>)
    ensures
        match r {
            Some(c) => first_audio_enclosure(e@.children) == Some(c@),
            None => first_audio_enclosure(e@.children) is None,
        },
{
    let ghost cs = e@.children;
    proof {
        lemma_xml_views_index(e.children@);
        assert(cs.skip(0) =~= cs);
    }
    let mut i: usize = 0;
    while i < e.children.len()
        invariant
            i <= e.children.len(),
            cs == xml_views(e.children@),
            cs.len() == e.children.len(),
            forall|j: int| 0 <= j < e.children@.len() ==> cs[j] == e.children@[j]@,
            first_audio_enclosure(cs) == first_audio_enclosure(cs.skip(i as int)),
        decreases e.children.len() - i,
    {
        proof {
            assert(cs.skip(i as int)[0] == cs[i as int]);
            assert(cs.skip(i as int).drop_first() =~= cs.skip(i as int + 1));
        }
        let child = &e.children[i];
        if str_eq(child.tag.as_str(), "enclosure") {
            let qualifies = match find_attr(&child.attrs, "type") {
                Some(v) => str_eq(v.as_str(), "audio/mpeg"),
                None => false,
            };
            if qualifies {
                return Some(child);
            }
        }
        i += 1;
    }
    proof {
        assert(cs.skip(i as int) =~= Seq::<XmlView>::empty());
    }
    None
}

/// The text under the first child tagged `tag`, by linear search.
fn first_child_text<'a>(e: &'a XmlElement, tag: &str) -> (r: Option<&'a String>)
    ensures
        match r {
            Some(t) => child_text(e@.children, tag@) == Some(t@),
            None => child_text(e@.children, tag@) is None,
        },
{
    let ghost cs = e@.children;
    proof {
        lemma_xml_views_index(e.children@);
        assert(cs.skip(0) =~= cs);
    }
    let mut i: usize = 0;
    while i < e.children.len()
        invariant
            i <= e.children.len(),
            cs == xml_views(e.children@),
            cs.len() == e.children.len(),
            forall|j: int| 0 <= j < e.children@.len() ==> cs[j] == e.children@[j]@,
            child_text(cs, tag@) == child_text(cs.skip(i as int), tag@),
        decreases e.children.len() - i,
    {
        proof {
            assert(cs.skip(i as int)[0] == cs[i as int]);
            assert(cs.skip(i as int).drop_first() =~= cs.skip(i as int + 1));
        }
        let child = &e.children[i];
        if str_eq(child.tag.as_str(), tag) {
            return match &child.text {
                Some(t) => Some(t),
                None => None,
            };
        }
        i += 1;
    }
    proof {
        assert(cs.skip(i as int) =~= Seq::<XmlView>::empty());
    }
    None
}

/// The episode carried by one `item` element, if it qualifies and is
/// complete.
fn extract_item(e: &XmlElement) -> (r: Option<Episode>)
    ensures
        r.deep_view() == item_episode(e@),
{
    let enclosure = match find_enclosure(e) {
        Some(c) => c,
        None => {
            return None;
        },
    };
    let url = match find_attr(&enclosure.attrs, "url") {
        Some(u) => u,
        None => {
            return None;
        },
    };
    let title = match first_child_text(e, "title") {
        Some(t) => t,
        None => {
            return None;
        },
    };
    let pub_date = match first_child_text(e, "pubDate") {
        Some(p) => p,
        None => {
            return None;
        },
    };
    let guid = match first_child_text(e, "guid") {
        Some(g) => Some(g.clone()),
        None => None,
    };
    Episode::new(title.clone(), guid, url.clone(), pub_date.clone())
}

/// Appends to `out` every episode under `e`, in document order.
fn collect_episodes(e: &XmlElement, out: &mut Vec<Episode>)
    ensures
        final(out).deep_view() == old(out).deep_view() + episodes_in(e@),
    decreases *e,
{
    if str_eq(e.tag.as_str(), "item") {
        match extract_item(e) {
            Some(ep) => {
                let ghost before = out.deep_view();
                let ghost epv = ep.deep_view();
                out.push(ep);
                proof {
                    assert(out.deep_view() =~= before + seq![epv]);
                }
            },
            None => {
                proof {
                    assert(out.deep_view() =~= old(out).deep_view() + Seq::<
                        EpisodeView,
                    >::empty());
                }
            },
        }
    } else {
        proof {
            lemma_xml_views_index(e.children@);
        }
        let ghost cs = e@.children;
        let mut i: usize = 0;
        while i < e.children.len()
            invariant
                i <= e.children.len(),
                cs == xml_views(e.children@),
                cs.len() == e.children.len(),
                forall|j: int| 0 <= j < e.children@.len() ==> cs[j] == e.children@[j]@,
                out.deep_view() == old(out).deep_view() + episodes_in_all(cs.take(i as int)),
            decreases e.children.len() - i,
        {
            proof {
                assert(decreases_to!(*e => e.children));
                assert(decreases_to!(e.children => e.children@[i as int]));
            }
            collect_episodes(&e.children[i], out);
            proof {
                assert(cs.take(i as int + 1) =~= cs.take(i as int).push(cs[i as int]));
                lemma_episodes_in_all_push(cs.take(i as int), cs[i as int]);
            }
            i += 1;
        }
        proof {
            assert(cs.take(cs.len() as int) =~= cs);
        }
    }
}

/// Extracts from a parsed feed document the episodes of the first `count`
/// qualifying items, in document order. Total: a feed with no qualifying
/// item yields an empty vector, never an error.
pub fn extract_episodes(root: &XmlElement, count: usize) -> (r: Vec<Episode>)
    ensures
        r.deep_view() == feed_episodes(root@, count as int),
{
    let mut out: Vec<Episode> = Vec::new();
    collect_episodes(root, &mut out);
    let ghost all = episodes_in(root@);
    if out.len() > count {
        out.truncate(count);
        proof {
            assert(out.deep_view() =~= all.take(count as int));
        }
    }
    out
}

/// Parses raw feed text and extracts at most `count` episodes, in document
/// order; fails exactly when the text is not well-formed XML. Items without
/// a qualifying audio enclosure, and malformed items, are skipped silently.
pub fn parse_feed(feed_text: &str, count: usize) -> (r: Result<Vec<Episode>, FeedParseError>)
    ensures
        match r {
            Ok(eps) => xml_tree_of(feed_text@) matches Some(root) && eps.deep_view()
                == feed_episodes(root, count as int),
            Err(_) => xml_tree_of(feed_text@) is None,
        },
{
    match parse_xml(feed_text) {
        Ok(root) => Ok(extract_episodes(&root, count)),
        Err(detail) => Err(FeedParseError { detail }),
    }
}

/// The number of qualifying items (those with an audio enclosure) under an
/// element.
pub open spec fn qualifying_items_in(v: XmlView) -> nat
    decreases v,
{
    if v.tag == "item"@ {
        if first_audio_enclosure(v.children) is Some {
            1nat
        } else {
            0nat
        }
    } else {
        qualifying_items_in_all(v.children)
    }
}

/// The number of qualifying items under a sequence of elements.
pub open spec fn qualifying_items_in_all(cs: Seq<XmlView>) -> nat
    decreases cs,
{
    if cs.len() == 0 {
        0nat
    } else {
        qualifying_items_in(cs[0]) + qualifying_items_in_all(cs.drop_first())
    }
}

/// A feed with no qualifying enclosure yields no episodes, whatever the
/// requested count. Extraction itself is total, so such a feed is never an
/// error either.
pub proof fn lemma_no_qualifying_enclosures_empty(root: XmlView)
    requires
        qualifying_items_in(root) == 0,
    ensures
        episodes_in(root) == Seq::<EpisodeView>::empty(),
        forall|count: int| count >= 0 ==> #[trigger] feed_episodes(root, count) == Seq::<
            EpisodeView,
        >::empty(),
    decreases root,
{
    if root.tag == "item"@ {
    } else {
        lemma_no_qualifying_enclosures_empty_all(root.children);
    }
}

proof fn lemma_no_qualifying_enclosures_empty_all(cs: Seq<XmlView>)
    requires
        qualifying_items_in_all(cs) == 0,
    ensures
        episodes_in_all(cs) == Seq::<EpisodeView>::empty(),
    decreases cs,
{
    if cs.len() > 0 {
        lemma_no_qualifying_enclosures_empty(cs[0]);
        lemma_no_qualifying_enclosures_empty_all(cs.drop_first());
        assert(episodes_in_all(cs) =~= Seq::<EpisodeView>::empty());
    }
}

} // verus!
