//! Matching a pattern against the lines of a file.
//!
//! The pattern is a regular expression. It is compiled once and then asked,
//! line by line, where it first matches. A line gives at most one hit, however
//! often the pattern occurs in it.

use vstd::prelude::*;
use regex::Regex;
use crate::lines::{lines_of, split_lines};
use crate::text::strings;

verus! {

/// A compiled regular expression.
#[verifier::external_type_specification]
#[verifier::external_body]
pub struct ExRegex(regex::Regex);

/// Why a pattern did not compile.
#[verifier::external_type_specification]
#[verifier::external_body]
pub struct ExRegexError(regex::Error);

/// The pattern that `re` was compiled from.
pub uninterp spec fn regex_source(re: Regex) -> Seq<char>;

/// Whether `pattern` is a regular expression that the engine accepts.
pub uninterp spec fn pattern_compiles(pattern: Seq<char>) -> bool;

/// Where `pattern` first matches in `text`: the byte offsets of the start and
/// of the end of the leftmost match, or nothing if there is no match.
pub uninterp spec fn first_match(pattern: Seq<char>, text: Seq<char>) -> Option<(usize, usize)>;

/// `Regex::new`: compiles `pattern`. Whether that succeeds depends on the
/// pattern alone, and the compiled expression remembers the pattern it was
/// made from.
#[verifier::external_body]
fn compile(pattern: &str) -> (r: Result<Regex, regex::Error>)
    ensures
        r.is_ok() == pattern_compiles(pattern@),
        r matches Ok(re) ==> regex_source(re) == pattern@,
{
    Regex::new(pattern)
}

/// `Regex::as_str`: the pattern that `re` was compiled from.
#[verifier::external_body]
fn source_of(re: &Regex) -> (r: String)
    ensures
        r@ == regex_source(*re),
{
    re.as_str().to_owned()
}

/// `Regex::find`: the leftmost match of `re` in `text`, as the byte offsets
/// of its start and its end. For an expression that `compile` made it depends
/// on the pattern and the text alone, and the start never lies behind the
/// end.
#[verifier::external_body]
fn find(re: &Regex, text: &str) -> (r: Option<(usize, usize)>)
    ensures
        r == first_match(regex_source(*re), text@),
        r matches Some(span) ==> span.0 <= span.1,
{
    match re.find(text) {
        Some(m) => Some((m.start(), m.end())),
        None => None,
    }
}

/// A pattern that is not a regular expression the engine accepts.
#[derive(Clone, Copy, PartialEq, Eq, Debug)]
pub struct PatternError;

/// A place in a file where the pattern matched.
#[derive(Debug)]
pub struct Content {
    /// The number of the line, counted from 1.
    pub line: u64,
    /// The byte offset in the line at which the match starts.
    pub start: u64,
    /// The byte offset in the line at which the match ends.
    pub end: u64,
    /// The whole line.
    pub content: String,
    /// The path of the file.
    pub path: String,
}

/// What a hit holds.
pub struct Hit {
    pub line: nat,
    pub start: nat,
    pub end: nat,
    pub content: Seq<char>,
    pub path: Seq<char>,
}

impl View for Content {
    type V = Hit;

    open spec fn view(&self) -> Hit {
        Hit {
            line: self.line as nat,
            start: self.start as nat,
            end: self.end as nat,
            content: self.content@,
            path: self.path@,
        }
    }
}

/// What a vector of hits holds.
pub open spec fn hits(v: Seq<Content>) -> Seq<Hit> {
    v.map_values(|c: Content| c@)
}

/// The hit that line number `number` of the file at `path` gives when the
/// pattern was found in it at `span`.
pub open spec fn hit_at(path: Seq<char>, number: nat, line: Seq<char>, span: (usize, usize)) -> Hit {
    Hit { line: number, start: span.0 as nat, end: span.1 as nat, content: line, path }
}

/// The hits that the first `lines.len()` lines of the file at `path` give:
/// one for each line in which `pattern` matches, in the order of the lines.
pub open spec fn scan(pattern: Seq<char>, path: Seq<char>, lines: Seq<Seq<char>>) -> Seq<Hit>
    decreases lines.len(),
{
    if lines.len() == 0 {
        Seq::empty()
    } else {
        let before = scan(pattern, path, lines.drop_last());
        match first_match(pattern, lines.last()) {
            Some(span) => before.push(hit_at(path, lines.len(), lines.last(), span)),
            None => before,
        }
    }
}

/// A scan gives one hit for each line in which the pattern matches and none
/// for any other: the hits come in the order of their lines, each holds its
/// line whole and the place of the first match in it, and every line with a
/// match has its hit.
pub proof fn lemma_scan_hits(pattern: Seq<char>, path: Seq<char>, lines: Seq<Seq<char>>)
    ensures
        scan(pattern, path, lines).len() <= lines.len(),
        forall|i: int|
            0 <= i < scan(pattern, path, lines).len() ==> {
                let h = #[trigger] scan(pattern, path, lines)[i];
                &&& 1 <= h.line <= lines.len()
                &&& h.content == lines[h.line - 1]
                &&& first_match(pattern, h.content) matches Some(span) && h.start == span.0
                    && h.end == span.1
            },
        forall|i: int, j: int|
            0 <= i < j < scan(pattern, path, lines).len() ==> (#[trigger] scan(
                pattern,
                path,
                lines,
            )[i]).line < (#[trigger] scan(pattern, path, lines)[j]).line,
        forall|k: int|
            0 <= k < lines.len() && first_match(pattern, #[trigger] lines[k]) is Some ==> exists|
                i: int,
            |
                0 <= i < scan(pattern, path, lines).len() && (#[trigger] scan(
                    pattern,
                    path,
                    lines,
                )[i]).line == k + 1,
    decreases lines.len(),
{
    if lines.len() > 0 {
        let shorter = lines.drop_last();
        let before = scan(pattern, path, shorter);
        let all = scan(pattern, path, lines);
        lemma_scan_hits(pattern, path, shorter);
        assert forall|i: int| 0 <= i < all.len() implies {
            let h = #[trigger] all[i];
            &&& 1 <= h.line <= lines.len()
            &&& h.content == lines[h.line - 1]
            &&& first_match(pattern, h.content) matches Some(span) && h.start == span.0 && h.end
                == span.1
        } by {
            if i < before.len() {
                assert(all[i] == before[i]);
                assert(shorter[before[i].line - 1] == lines[before[i].line - 1]);
            }
        }
        assert forall|i: int, j: int| 0 <= i < j < all.len() implies (#[trigger] all[i]).line < (
        #[trigger] all[j]).line by {
            assert(all[i] == before[i]);
            if j < before.len() {
                assert(all[j] == before[j]);
            }
        }
        assert forall|k: int|
            0 <= k < lines.len() && first_match(pattern, #[trigger] lines[k]) is Some implies exists|
            i: int,
        |
            0 <= i < all.len() && (#[trigger] all[i]).line == k + 1 by {
            if k < shorter.len() {
                assert(shorter[k] == lines[k]);
                let i = choose|i: int| 0 <= i < before.len() && (#[trigger] before[i]).line == k + 1;
                assert(all[i] == before[i]);
            } else {
                assert(all[all.len() - 1].line == k + 1);
            }
        }
    }
}

/// Every hit of a scan names the file that was scanned.
pub proof fn lemma_scan_paths(pattern: Seq<char>, path: Seq<char>, lines: Seq<Seq<char>>)
    ensures
        forall|i: int|
            0 <= i < scan(pattern, path, lines).len() ==> (#[trigger] scan(
                pattern,
                path,
                lines,
            )[i]).path == path,
    decreases lines.len(),
{
    if lines.len() > 0 {
        let before = scan(pattern, path, lines.drop_last());
        lemma_scan_paths(pattern, path, lines.drop_last());
        assert forall|i: int| 0 <= i < scan(pattern, path, lines).len() implies (#[trigger] scan(
            pattern,
            path,
            lines,
        )[i]).path == path by {
            if i < before.len() {
                assert(scan(pattern, path, lines)[i] == before[i]);
            }
        }
    }
}

impl Content {
    /// The hit for line number `number` of the file at `path`, in which the
    /// pattern was found at `found`; nothing if it was not found.
    pub fn of_line(path: &str, number: u64, line: &str, found: Option<(usize, usize)>) -> (r:
        Option<Content>)
        ensures
            r.is_some() == found.is_some(),
            r matches Some(c) ==> c@ == hit_at(path@, number as nat, line@, found.unwrap()),
    {
        match found {
            Some(span) => Some(
                Content {
                    line: number,
                    start: span.0 as u64,
                    end: span.1 as u64,
                    content: line.to_owned(),
                    path: path.to_owned(),
                },
            ),
            None => None,
        }
    }
}

/// A pattern, compiled and ready to be matched against lines.
pub struct Matcher {
    regex: Regex,
}

impl Matcher {
    /// The pattern that is matched.
    pub closed spec fn pattern(&self) -> Seq<char> {
        regex_source(self.regex)
    }

    /// Compiles `pattern`, or fails if it is not a regular expression that
    /// the engine accepts.
    pub fn new(pattern: &String) -> (r: Result<Matcher, PatternError>)
        ensures
            r.is_ok() == pattern_compiles(pattern@),
            r matches Ok(m) ==> m.pattern() == pattern@,
    {
        match compile(pattern.as_str()) {
            Ok(regex) => Ok(Matcher { regex }),
            Err(_) => Err(PatternError),
        }
    }

    /// The pattern that is matched, as it was given.
    pub fn source(&self) -> (r: String)
        ensures
            r@ == self.pattern(),
    {
        source_of(&self.regex)
    }

    /// Where the pattern first matches in `line`.
    pub fn first_in(&self, line: &str) -> (r: Option<(usize, usize)>)
        ensures
            r == first_match(self.pattern(), line@),
            r matches Some(span) ==> span.0 <= span.1,
    {
        find(&self.regex, line)
    }

    /// The hits in `text`, the content of the file at `path`.
    pub fn scan_text(&self, path: &str, text: &str) -> (r: Vec<Content>)
        ensures
            hits(r@) == scan(self.pattern(), path@, lines_of(text@)),
            forall|i: int| 0 <= i < r.len() ==> (#[trigger] r[i]).start <= r[i].end,
    {
        let lines = split_lines(text);
        let mut out: Vec<Content> = Vec::new();
        let mut i: usize = 0;
        assert(lines@.subrange(0, 0) =~= Seq::empty());
        assert(hits(out@) =~= Seq::empty());
        while i < lines.len()
            invariant
                i <= lines.len(),
                hits(out@) == scan(self.pattern(), path@, strings(lines@.subrange(0, i as int))),
                forall|k: int| 0 <= k < out.len() ==> (#[trigger] out[k]).start <= out[k].end,
            decreases lines.len() - i,
        {
            let found = self.first_in(lines[i].as_str());
            proof {
                let upto = strings(lines@.subrange(0, i + 1));
                assert(upto.drop_last() =~= strings(lines@.subrange(0, i as int)));
                assert(upto.last() == lines[i as int]@);
            }
            match Content::of_line(path, (i as u64) + 1, lines[i].as_str(), found) {
                Some(c) => {
                    assert(hits(out@.push(c)) =~= hits(out@).push(c@));
                    out.push(c);
                },
                None => {},
            }
            i += 1;
        }
        assert(lines@.subrange(0, lines.len() as int) =~= lines@);
        out
    }
}

/// The hits of `filter` in the file `file_name`, whose content is `contents`,
/// or nothing where the file could not be read.
///
/// Fails if `filter` is not a regular expression that the engine accepts,
/// whether or not the file could be read.
pub fn search_file(file_name: &str, contents: Option<&str>, filter: &String) -> (r: Result<
    Vec<Content>,
    PatternError,
>)
    ensures
        r.is_ok() == pattern_compiles(filter@),
        r matches Ok(found) ==> hits(found@) == match contents {
            Some(text) => scan(filter@, file_name@, lines_of(text@)),
            None => Seq::empty(),
        },
        r matches Ok(found) ==> forall|i: int|
            0 <= i < found.len() ==> (#[trigger] found[i]).start <= found[i].end,
{
    match Matcher::new(filter) {
        Ok(matcher) => {
            match contents {
                Some(text) => Ok(matcher.scan_text(file_name, text)),
                None => {
                    let found: Vec<Content> = Vec::new();
                    assert(hits(found@) =~= Seq::empty());
                    Ok(found)
                },
            }
        },
        Err(e) => Err(e),
    }
}

} // verus!
