//! The links to the places where a problem is hosted.

use vstd::prelude::*;

verus! {

/// What `serde_json::from_str` makes of `text` when it is asked for a
/// `serde_json::Map<String, serde_json::Value>`: `None` where it fails, else
/// the pairs of the map in the order in which the map hands them out, each
/// value given as its text where it is a JSON string and as `None` where it
/// is anything else.
pub uninterp spec fn json_object_entries(text: Seq<char>) -> Option<Seq<(Seq<char>, Option<Seq<char>>)>>;

/// Why a problem has no list of links.
#[derive(Clone, Copy, Debug, PartialEq, Eq, Structural)]
pub enum MirrorError {
    /// There is no sidecar text.
    Unreadable,
    /// The sidecar text is not a JSON object.
    Malformed,
}

/// The pairs of a parsed object as texts.
pub open spec fn entries_view(entries: Seq<(String, Option<String>)>) -> Seq<(Seq<char>, Option<Seq<char>>)> {
    entries.map_values(
        |e: (String, Option<String>)|
            (
                e.0@,
                match e.1 {
                    Some(s) => Some(s@),
                    None => None,
                },
            ),
    )
}

/// A list of links as texts.
pub open spec fn links_view(links: Seq<(String, String)>) -> Seq<(Seq<char>, Seq<char>)> {
    links.map_values(|l: (String, String)| (l.0@, l.1@))
}

/// The text behind an optional string.
pub open spec fn option_text(s: Option<String>) -> Option<Seq<char>> {
    match s {
        Some(t) => Some(t@),
        None => None,
    }
}

/// A list of links, or the reason why there is none, as a mathematical value.
pub open spec fn links_result_view(r: Result<Vec<(String, String)>, MirrorError>) -> Result<
    Seq<(Seq<char>, Seq<char>)>,
    MirrorError,
> {
    match r {
        Ok(links) => Ok(links_view(links@)),
        Err(e) => Err(e),
    }
}

/// The pairs whose value is a text, in their order.
pub open spec fn text_pairs(entries: Seq<(Seq<char>, Option<Seq<char>>)>) -> Seq<(Seq<char>, Seq<char>)>
    decreases entries.len(),
{
    if entries.len() == 0 {
        Seq::empty()
    } else {
        match entries.last().1 {
            Some(url) => text_pairs(entries.drop_last()).push((entries.last().0, url)),
            None => text_pairs(entries.drop_last()),
        }
    }
}

/// The links that a sidecar text gives.
pub open spec fn spec_mirror_links(sidecar: Option<Seq<char>>) -> Result<Seq<(Seq<char>, Seq<char>)>, MirrorError> {
    match sidecar {
        None => Err(MirrorError::Unreadable),
        Some(text) => match json_object_entries(text) {
            None => Err(MirrorError::Malformed),
            Some(entries) => Ok(text_pairs(entries)),
        },
    }
}

/// One link in markdown.
pub open spec fn link_text(name: Seq<char>, url: Seq<char>) -> Seq<char> {
    "["@ + name + "]("@ + url + ")"@
}

/// The links in markdown, in their order, with a comma and a space between
/// two of them.
pub open spec fn links_text(links: Seq<(Seq<char>, Seq<char>)>) -> Seq<char>
    decreases links.len(),
{
    if links.len() == 0 {
        Seq::empty()
    } else if links.len() == 1 {
        link_text(links[0].0, links[0].1)
    } else {
        links_text(links.drop_last()) + ", "@ + link_text(links.last().0, links.last().1)
    }
}

/// The text of the mirrors cell of a problem: its links, or nothing where
/// the sidecar gives none.
pub open spec fn mirror_cell(sidecar: Option<Seq<char>>) -> Seq<char> {
    match spec_mirror_links(sidecar) {
        Ok(links) => links_text(links),
        Err(_) => Seq::empty(),
    }
}

/// Calls `serde_json::from_str` for a `serde_json::Map<String, Value>` and
/// hands out the pairs of the map in the map's own order, each value through
/// `Value::as_str`. Nothing is claimed of the result but that it is the one
/// named [`json_object_entries`].
#[verifier::external_body]
fn parse_object(text: &str) -> (r: Option<Vec<(String, Option<String>)>>)
    ensures
        r is Some == json_object_entries(text@) is Some,
        r matches Some(entries) ==> entries_view(entries@) == json_object_entries(text@).unwrap(),
{
    let parsed: Result<serde_json::Map<String, serde_json::Value>, serde_json::Error> =
        serde_json::from_str(text);
    match parsed {
        Ok(object) => Some(
            object.into_iter().map(|(k, v)| (k, v.as_str().map(String::from))).collect(),
        ),
        Err(_) => None,
    }
}

/// Keeps the pairs whose value is a text, in their order.
pub fn string_links(entries: Vec<(String, Option<String>)>) -> (r: Vec<(String, String)>)
    ensures
        links_view(r@) == text_pairs(entries_view(entries@)),
{
    let mut r: Vec<(String, String)> = Vec::new();
    let mut i: usize = 0;
    assert(links_view(r@) =~= text_pairs(entries_view(entries@).take(0)));
    while i < entries.len()
        invariant
            i <= entries@.len(),
            links_view(r@) == text_pairs(entries_view(entries@).take(i as int)),
        decreases entries@.len() - i,
    {
        proof {
            let ev = entries_view(entries@);
            assert(ev.take(i + 1).drop_last() =~= ev.take(i as int));
            assert(ev.take(i + 1).last() == ev[i as int]);
        }
        let ghost before = links_view(r@);
        match &entries[i].1 {
            Some(url) => {
                r.push((entries[i].0.clone(), url.clone()));
                assert(links_view(r@) =~= before.push((entries@[i as int].0@, url@)));
            },
            None => {},
        }
        i += 1;
    }
    assert(entries_view(entries@).take(i as int) =~= entries_view(entries@));
    r
}

/// The links of a problem, from the text of its sidecar `mirrors.json`: the
/// pairs of the JSON object whose value is a string. Without a sidecar, or
/// with one that is no JSON object, there is no list.
pub fn get_mirror_links(sidecar: &Option<String>) -> (r: Result<Vec<(String, String)>, MirrorError>)
    ensures
        links_result_view(r) == spec_mirror_links(option_text(*sidecar)),
{
    match sidecar {
        None => Err(MirrorError::Unreadable),
        Some(text) => match parse_object(text.as_str()) {
            None => Err(MirrorError::Malformed),
            Some(entries) => Ok(string_links(entries)),
        },
    }
}

/// A link in markdown: the text in square brackets, the address in round ones.
pub fn markdown_link(text: String, url: String) -> (r: String)
    ensures
        r@ == link_text(text@, url@),
{
    let mut r = String::from_str("[");
    r.append(text.as_str());
    r.append("](");
    r.append(url.as_str());
    r.append(")");
    r
}

/// The links in markdown, in the order given, with `, ` between two of them.
pub fn mirrors_to_markdown(mirrors: Vec<(String, String)>) -> (r: String)
    ensures
        r@ == links_text(links_view(mirrors@)),
{
    let mut r = String::new();
    let mut i: usize = 0;
    assert(links_view(mirrors@).take(0) =~= Seq::empty());
    while i < mirrors.len()
        invariant
            i <= mirrors@.len(),
            r@ == links_text(links_view(mirrors@).take(i as int)),
        decreases mirrors@.len() - i,
    {
        proof {
            let lv = links_view(mirrors@);
            assert(lv.take(i + 1).drop_last() =~= lv.take(i as int));
            assert(lv.take(i + 1).last() == lv[i as int]);
            assert(lv.take(i + 1).len() == i + 1);
            if i == 0 {
                assert(lv.take(1)[0] == lv[0]);
            }
        }
        if i > 0 {
            r.append(", ");
        }
        let link = markdown_link(mirrors[i].0.clone(), mirrors[i].1.clone());
        r.append(link.as_str());
        proof {
            if i == 0 {
                assert(r@ =~= link@);
            }
        }
        i += 1;
    }
    assert(links_view(mirrors@).take(i as int) =~= links_view(mirrors@));
    r
}

/// The text of the mirrors cell of a problem with this sidecar.
pub fn mirrors_cell(sidecar: &Option<String>) -> (r: String)
    ensures
        r@ == mirror_cell(option_text(*sidecar)),
{
    match get_mirror_links(sidecar) {
        Ok(links) => mirrors_to_markdown(links),
        Err(_) => String::new(),
    }
}

} // verus!
