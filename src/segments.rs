//! Turning a URL into the path of segments that addresses its tree node.

use vstd::prelude::*;

verus! {

#[verifier::external_type_specification]
#[verifier::external_body]
pub struct ExParseError(url::ParseError);

/// Whether `url::Url::parse` accepts the text.
pub uninterp spec fn url_parses(s: Seq<char>) -> bool;

/// `Url::host_str` of the parsed text.
pub uninterp spec fn url_host(s: Seq<char>) -> Option<Seq<char>>;

/// The segments that `Url::path_segments` gives for the parsed text.
pub uninterp spec fn url_path_segments(s: Seq<char>) -> Option<Seq<Seq<char>>>;

pub open spec fn opt_string_view(o: Option<String>) -> Option<Seq<char>> {
    match o {
        Some(s) => Some(s@),
        None => None,
    }
}

pub open spec fn opt_strings_view(o: Option<Vec<String>>) -> Option<Seq<Seq<char>>> {
    match o {
        Some(v) => Some(v.deep_view()),
        None => None,
    }
}

/// Relies on `url::Url::parse` (whether the text is a URL), `Url::host_str`
/// (its host) and `Url::path_segments` (its path split at `/`), each a
/// function of the text alone.
#[verifier::external_body]
fn url_components(input: &str) -> (r: Result<(Option<String>, Option<Vec<String>>), url::ParseError>)
    ensures
        r is Ok <==> url_parses(input@),
        r matches Ok((host, segments)) ==> opt_string_view(host) == url_host(input@)
            && opt_strings_view(segments) == url_path_segments(input@),
{
    let parsed = url::Url::parse(input)?;
    let host = parsed.host_str().map(|h| h.to_string());
    let segments = parsed.path_segments().map(|it| it.map(|g| g.to_string()).collect());
    Ok((host, segments))
}

/// A path segment that addresses a node: longer than one character, which
/// leaves out the empty segment of a trailing slash.
pub open spec fn usable_segment(g: Seq<char>) -> bool {
    g.len() > 1
}

/// The host first, then each usable path segment.
pub open spec fn url_parts(s: Seq<char>) -> Seq<Seq<char>> {
    let host = match url_host(s) {
        Some(h) => seq![h],
        None => Seq::empty(),
    };
    let path = match url_path_segments(s) {
        Some(g) => g.filter(|x: Seq<char>| usable_segment(x)),
        None => Seq::empty(),
    };
    host + path
}

/// The node path of a URL, or `None` when the text is empty, is not a URL,
/// or has neither host nor usable segment.
pub open spec fn parsed_path(s: Seq<char>) -> Option<Seq<Seq<char>>> {
    if s.len() == 0 || !url_parses(s) || url_parts(s).len() == 0 {
        None
    } else {
        Some(url_parts(s))
    }
}

/// Why a URL gives no node path.
pub enum UrlError {
    Empty,
    Unparsable(url::ParseError),
    NoParts,
}

/// Keeps the usable segments, in order.
pub fn usable_segments(segments: &Vec<String>) -> (r: Vec<String>)
    ensures
        r.deep_view() == segments.deep_view().filter(|x: Seq<char>| usable_segment(x)),
{
    let ghost d = segments.deep_view();
    let mut r: Vec<String> = Vec::new();
    let mut i: usize = 0;
    while i < segments.len()
        invariant
            d == segments.deep_view(),
            i <= d.len(),
            r.deep_view() == d.take(i as int).filter(|x: Seq<char>| usable_segment(x)),
        decreases d.len() - i,
    {
        let g = segments[i].clone();
        proof {
            reveal(Seq::filter);
            assert(d.take(i as int + 1).drop_last() =~= d.take(i as int));
            assert(g@ == d[i as int]);
        }
        if g.unicode_len() > 1 {
            r.push(g);
            proof {
                assert(r.deep_view() =~= d.take(i as int).filter(|x: Seq<char>| usable_segment(x)).push(d[i as int]));
            }
        }
        i = i + 1;
    }
    proof {
        assert(d.take(d.len() as int) =~= d);
    }
    r
}

/// Resolves a URL into its node path: the host, then each path segment
/// longer than one character.
pub fn parse_url_parts(url: &str) -> (r: Result<Vec<String>, UrlError>)
    ensures
        r is Ok <==> parsed_path(url@) is Some,
        r matches Ok(parts) ==> parsed_path(url@) == Some(parts.deep_view()),
        r matches Err(e) ==> match e {
            UrlError::Empty => url@.len() == 0,
            UrlError::Unparsable(_) => url@.len() > 0 && !url_parses(url@),
            UrlError::NoParts => url@.len() > 0 && url_parses(url@) && url_parts(url@).len() == 0,
        },
{
    if url.is_empty() {
        return Err(UrlError::Empty);
    }
    let (host, segments) = match url_components(url) {
        Ok(c) => c,
        Err(e) => {
            return Err(UrlError::Unparsable(e));
        },
    };
    let mut parts: Vec<String> = Vec::new();
    if let Some(h) = host {
        parts.push(h);
    }
    let ghost head = parts.deep_view();
    if let Some(g) = segments {
        let mut kept = usable_segments(&g);
        parts.append(&mut kept);
    }
    proof {
        let s = url@;
        let host_part = match url_host(s) {
            Some(h) => seq![h],
            None => Seq::<Seq<char>>::empty(),
        };
        assert(head =~= host_part);
        assert(parts.deep_view() =~= url_parts(s));
    }
    if parts.len() == 0 {
        return Err(UrlError::NoParts);
    }
    Ok(parts)
}

} // verus!
