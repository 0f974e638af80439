//! URLs seen in capture data: candidates are found by a regular expression,
//! parsed, and reduced to scheme and host, so that all URLs of one site fall
//! together.

use crate::text::{
    add_unique, insert_unique, lemma_add_unique_concat, lossy_text, read_lossy, rows, texts,
    unique,
};
use vstd::prelude::*;
use vstd::string::StringExecFns;

verus! {

/// The regular expression that finds URL candidates: `http`, `https` or `ftp`,
/// `://`, and what follows up to the next white space.
pub const URL_PATTERN: &'static str = "(https?|ftp)://[^\\s/$.?#].[^\\s]*";

/// What `regex::Regex::new(pattern)` and then `captures_iter(text)` give: the
/// whole-match texts in the order found, or nothing where the pattern does not
/// compile.
pub uninterp spec fn regex_matches(pattern: Seq<char>, text: Seq<char>) -> Option<Seq<Seq<char>>>;

/// What `url::Url::parse(input)` gives: the scheme and the host text of the
/// parsed URL, or nothing where the input does not parse.
pub uninterp spec fn url_parts(input: Seq<char>) -> Option<UrlModel>;

/// The scheme and host of a parsed URL.
pub struct UrlParts {
    pub scheme: String,
    pub host: Option<String>,
}

/// `UrlParts` as texts.
pub struct UrlModel {
    pub scheme: Seq<char>,
    pub host: Option<Seq<char>>,
}

impl View for UrlParts {
    type V = UrlModel;

    open spec fn view(&self) -> UrlModel {
        UrlModel {
            scheme: self.scheme@,
            host: match self.host {
                Some(h) => Some(h@),
                None => None,
            },
        }
    }
}

/// Finds all matches of `pattern` in `text` with `regex::Regex::new` and
/// `Regex::captures_iter`, and hands out the text of each whole match. Trusted:
/// the result is a function of pattern and text, named `regex_matches`.
#[verifier::external_body]
fn find_matches(pattern: &str, text: &str) -> (r: Option<Vec<String>>)
    ensures
        match r {
            Some(found) => regex_matches(pattern@, text@) == Some(texts(found@)),
            None => regex_matches(pattern@, text@) is None,
        },
{
    match regex::Regex::new(pattern) {
        Ok(re) => Some(re.captures_iter(text).map(|c| c[0].to_string()).collect()),
        Err(_) => None,
    }
}

/// Parses `input` with `url::Url::parse` and reads `scheme` and `host_str`.
/// Trusted: the result is a function of the input, named `url_parts`.
#[verifier::external_body]
fn parse_url(input: &str) -> (r: Option<UrlParts>)
    ensures
        match r {
            Some(parts) => url_parts(input@) == Some(parts@),
            None => url_parts(input@) is None,
        },
{
    match url::Url::parse(input) {
        Ok(u) => Some(
            UrlParts {
                scheme: u.scheme().to_string(),
                host: match u.host_str() {
                    Some(h) => Some(h.to_string()),
                    None => None,
                },
            },
        ),
        Err(_) => None,
    }
}

/// The canonical form of a URL: scheme, `://`, host and a single slash. Path,
/// query and fragment are gone; a URL without a host has an empty host.
pub open spec fn canonical_form(parts: UrlModel) -> Seq<char> {
    parts.scheme + "://"@ + match parts.host {
        Some(h) => h,
        None => Seq::empty(),
    } + "/"@
}

/// The canonical form of a candidate, where it parses as a URL.
pub open spec fn canonical_of(candidate: Seq<char>) -> Option<Seq<char>> {
    match url_parts(candidate) {
        Some(parts) => Some(canonical_form(parts)),
        None => None,
    }
}

/// The canonical forms of the candidates that parse, in the candidates' order.
pub open spec fn canonical_all(candidates: Seq<Seq<char>>) -> Seq<Seq<char>>
    decreases candidates.len(),
{
    if candidates.len() == 0 {
        Seq::empty()
    } else {
        let head = canonical_all(candidates.drop_last());
        match canonical_of(candidates.last()) {
            Some(url) => head.push(url),
            None => head,
        }
    }
}

/// The canonical URLs found in one text, in the order found.
pub open spec fn urls_in(text: Seq<char>) -> Seq<Seq<char>> {
    match regex_matches(URL_PATTERN@, text) {
        Some(found) => canonical_all(found),
        None => Seq::empty(),
    }
}

/// The canonical URLs found in the captures, capture by capture.
pub open spec fn urls_of(captures: Seq<Seq<u8>>) -> Seq<Seq<char>>
    decreases captures.len(),
{
    if captures.len() == 0 {
        Seq::empty()
    } else {
        urls_of(captures.drop_last()) + urls_in(lossy_text(captures.last()))
    }
}

/// Writes the canonical form of a parsed URL.
pub fn canonical_url(parts: &UrlParts) -> (url: String)
    ensures
        url@ == canonical_form(parts@),
{
    let mut url = parts.scheme.clone();
    url.append("://");
    match &parts.host {
        Some(h) => {
            url.append(h.as_str());
        },
        None => {
            assert(url@ + Seq::<char>::empty() =~= url@);
        },
    }
    url.append("/");
    url
}

/// Reduces a URL candidate to its canonical form; `None` where it does not
/// parse as a URL.
pub fn canonicalize(candidate: &str) -> (r: Option<String>)
    ensures
        match r {
            Some(url) => canonical_of(candidate@) == Some(url@),
            None => canonical_of(candidate@) is None,
        },
{
    match parse_url(candidate) {
        Some(parts) => Some(canonical_url(&parts)),
        None => None,
    }
}

/// Adds to `seen` the canonical form of each candidate that parses and is not
/// there yet, in the candidates' order.
pub fn collect_urls(seen: &mut Vec<String>, candidates: &Vec<String>)
    ensures
        texts(final(seen)@) == add_unique(texts(old(seen)@), canonical_all(texts(candidates@))),
{
    let mut i: usize = 0;
    assert(texts(candidates@).take(0) =~= Seq::<Seq<char>>::empty());
    while i < candidates.len()
        invariant
            i <= candidates@.len(),
            texts(seen@) == add_unique(
                texts(old(seen)@),
                canonical_all(texts(candidates@).take(i as int)),
            ),
        decreases candidates@.len() - i,
    {
        proof {
            let upto = texts(candidates@).take(i + 1);
            assert(upto.drop_last() =~= texts(candidates@).take(i as int));
            assert(upto.last() == candidates@[i as int]@);
        }
        let ghost before = canonical_all(texts(candidates@).take(i as int));
        match canonicalize(candidates[i].as_str()) {
            Some(url) => {
                proof {
                    lemma_add_unique_concat(texts(old(seen)@), before, seq![url@]);
                    assert(before + seq![url@] =~= before.push(url@));
                }
                insert_unique(seen, url);
            },
            None => {},
        }
        i += 1;
    }
    assert(texts(candidates@).take(i as int) =~= texts(candidates@));
}

/// The canonical URLs found in the captures, each once, in the order in which
/// they first occur. A capture is read as text with invalid sequences replaced.
pub fn find_urls(captures: &Vec<Vec<u8>>) -> (urls: Vec<String>)
    ensures
        texts(urls@) == unique(urls_of(rows(captures@))),
{
    let mut urls: Vec<String> = Vec::new();
    let mut i: usize = 0;
    assert(rows(captures@).take(0) =~= Seq::<Seq<u8>>::empty());
    assert(texts(urls@) =~= Seq::<Seq<char>>::empty());
    while i < captures.len()
        invariant
            i <= captures@.len(),
            texts(urls@) == unique(urls_of(rows(captures@).take(i as int))),
        decreases captures@.len() - i,
    {
        proof {
            let upto = rows(captures@).take(i + 1);
            assert(upto.drop_last() =~= rows(captures@).take(i as int));
            assert(upto.last() == captures@[i as int]@);
            lemma_add_unique_concat(
                Seq::<Seq<char>>::empty(),
                urls_of(rows(captures@).take(i as int)),
                urls_in(lossy_text(captures@[i as int]@)),
            );
        }
        let text = read_lossy(captures[i].as_slice());
        match find_matches(URL_PATTERN, text.as_str()) {
            Some(found) => {
                collect_urls(&mut urls, &found);
            },
            None => {
                assert(add_unique(texts(urls@), Seq::<Seq<char>>::empty()) == texts(urls@));
            },
        }
        i += 1;
    }
    assert(rows(captures@).take(i as int) =~= rows(captures@));
    urls
}

} // verus!
