//! The identity of a repository, read from its address.
//!
//! Two forms of address are recognised, anywhere in the text given:
//! `http://github.com/<owner>/<name>` (or `https`) and
//! `git@github.com:<owner>/<name>`. The owner is a run of word characters, the
//! name a run of characters that are not white space. A name that ends in
//! `.git` loses that ending, unless nothing else is left of it.

use vstd::prelude::*;
use crate::charclass::{is_space, is_word, space, word};
use crate::text::{copy_range, from_chars, to_chars};

verus! {

/// A registered repository.
#[derive(Debug)]
pub struct Project {
    /// The address as it was found in the text, or as it was made up from the
    /// owner and the name.
    pub url: String,
    /// The forge that hosts the repository.
    pub company: String,
    /// Who owns the repository.
    pub owner: String,
    /// What the repository is called.
    pub name: String,
}

/// What a `Project` holds.
pub struct ProjectView {
    pub url: Seq<char>,
    pub company: Seq<char>,
    pub owner: Seq<char>,
    pub name: Seq<char>,
}

impl View for Project {
    type V = ProjectView;

    open spec fn view(&self) -> ProjectView {
        ProjectView { url: self.url@, company: self.company@, owner: self.owner@, name: self.name@ }
    }
}

/// The two forms of address.
#[derive(Clone, Copy, PartialEq, Eq, Debug)]
pub enum Form {
    /// `http://github.com/<owner>/<name>` or `https://github.com/<owner>/<name>`
    Web,
    /// `git@github.com:<owner>/<name>`
    Shell,
}

/// The one forge that is known.
pub open spec fn forge() -> Seq<char> {
    "github"@
}

/// Whether `lit` stands in `s` at index `i`.
pub open spec fn has_at(s: Seq<char>, i: int, lit: Seq<char>) -> bool {
    0 <= i && i + lit.len() <= s.len() && s.subrange(i, i + lit.len()) == lit
}

/// Where the run of word characters that starts at `i` ends.
pub open spec fn word_run_end(s: Seq<char>, i: int) -> int
    decreases s.len() - i,
{
    if 0 <= i < s.len() && is_word(s[i]) {
        word_run_end(s, i + 1)
    } else {
        i
    }
}

/// Where the run of characters other than white space that starts at `i` ends.
pub open spec fn text_run_end(s: Seq<char>, i: int) -> int
    decreases s.len() - i,
{
    if 0 <= i < s.len() && !is_space(s[i]) {
        text_run_end(s, i + 1)
    } else {
        i
    }
}

/// Where the owner starts, if an address of the form `form` starts at `i`.
pub open spec fn owner_start(form: Form, s: Seq<char>, i: int) -> Option<int> {
    match form {
        Form::Web => {
            if has_at(s, i, "https://github.com/"@) {
                Some(i + "https://github.com/"@.len())
            } else if has_at(s, i, "http://github.com/"@) {
                Some(i + "http://github.com/"@.len())
            } else {
                None
            }
        },
        Form::Shell => {
            if has_at(s, i, "git@github.com:"@) {
                Some(i + "git@github.com:"@.len())
            } else {
                None
            }
        },
    }
}

/// `name` without a final `.git`, if more than that ending is there.
pub open spec fn without_git(name: Seq<char>) -> Seq<char> {
    if name.len() > ".git"@.len() && has_at(name, name.len() - ".git"@.len(), ".git"@) {
        name.subrange(0, name.len() - ".git"@.len())
    } else {
        name
    }
}

/// The identity that the address of form `form` starting at `i` gives, if one
/// starts there.
pub open spec fn match_at(form: Form, s: Seq<char>, i: int) -> Option<ProjectView> {
    match owner_start(form, s, i) {
        Some(o) => {
            let oe = word_run_end(s, o);
            let ne = text_run_end(s, oe + 1);
            if o < oe < s.len() && s[oe] == '/' && oe + 1 < ne {
                Some(
                    ProjectView {
                        url: s.subrange(i, ne),
                        company: forge(),
                        owner: s.subrange(o, oe),
                        name: without_git(s.subrange(oe + 1, ne)),
                    },
                )
            } else {
                None
            }
        },
        None => None,
    }
}

/// The identity given by the first address of form `form` that starts at `i`
/// or later.
pub open spec fn first_match_from(form: Form, s: Seq<char>, i: int) -> Option<ProjectView>
    decreases s.len() - i,
{
    if i < 0 || i >= s.len() {
        None
    } else {
        match match_at(form, s, i) {
            Some(v) => Some(v),
            None => first_match_from(form, s, i + 1),
        }
    }
}

/// The identity that the text `s` gives: that of its first web address, or
/// else that of its first shell address.
pub open spec fn parse_text(s: Seq<char>) -> Option<ProjectView> {
    match first_match_from(Form::Web, s, 0) {
        Some(v) => Some(v),
        None => first_match_from(Form::Shell, s, 0),
    }
}

/// A run of word characters ends at the first character that is none.
pub proof fn lemma_word_run(s: Seq<char>, i: int, j: int)
    requires
        0 <= i <= j <= s.len(),
        forall|k: int| i <= k < j ==> is_word(s[k]),
        j < s.len() ==> !is_word(s[j]),
    ensures
        word_run_end(s, i) == j,
    decreases j - i,
{
    if i < j {
        lemma_word_run(s, i + 1, j);
    }
}

/// A run of characters other than white space ends at the first white space.
pub proof fn lemma_text_run(s: Seq<char>, i: int, j: int)
    requires
        0 <= i <= j <= s.len(),
        forall|k: int| i <= k < j ==> !is_space(s[k]),
        j < s.len() ==> is_space(s[j]),
    ensures
        text_run_end(s, i) == j,
    decreases j - i,
{
    if i < j {
        lemma_text_run(s, i + 1, j);
    }
}

/// Whether `p` is an identity as an address gives it: the forge is the known
/// one, the owner is a run of word characters, the name holds no white space,
/// and neither is empty.
pub open spec fn is_identity(p: ProjectView) -> bool {
    &&& p.company == forge()
    &&& p.owner.len() > 0
    &&& forall|i: int| 0 <= i < p.owner.len() ==> is_word(#[trigger] p.owner[i])
    &&& p.name.len() > 0
    &&& forall|i: int| 0 <= i < p.name.len() ==> !is_space(#[trigger] p.name[i])
}

/// A run of word characters holds nothing else.
pub proof fn lemma_word_run_holds(s: Seq<char>, i: int)
    ensures
        i <= word_run_end(s, i),
        0 <= i ==> word_run_end(s, i) <= s.len() || word_run_end(s, i) == i,
        forall|k: int| i <= k < word_run_end(s, i) ==> is_word(#[trigger] s[k]),
    decreases s.len() - i,
{
    if 0 <= i < s.len() && is_word(s[i]) {
        lemma_word_run_holds(s, i + 1);
    }
}

/// A run of characters other than white space holds no white space.
pub proof fn lemma_text_run_holds(s: Seq<char>, i: int)
    ensures
        i <= text_run_end(s, i),
        0 <= i ==> text_run_end(s, i) <= s.len() || text_run_end(s, i) == i,
        forall|k: int| i <= k < text_run_end(s, i) ==> !is_space(#[trigger] s[k]),
    decreases s.len() - i,
{
    if 0 <= i < s.len() && !is_space(s[i]) {
        lemma_text_run_holds(s, i + 1);
    }
}

/// Whatever address is found at an index gives an identity.
pub proof fn lemma_match_is_identity(form: Form, s: Seq<char>, i: int)
    requires
        match_at(form, s, i) is Some,
    ensures
        is_identity(match_at(form, s, i).unwrap()),
{
    let o = owner_start(form, s, i).unwrap();
    let oe = word_run_end(s, o);
    let ne = text_run_end(s, oe + 1);
    lemma_word_run_holds(s, o);
    lemma_text_run_holds(s, oe + 1);
    let p = match_at(form, s, i).unwrap();
    assert forall|k: int| 0 <= k < p.owner.len() implies is_word(#[trigger] p.owner[k]) by {
        assert(p.owner[k] == s[o + k]);
    }
    let raw = s.subrange(oe + 1, ne);
    assert forall|k: int| 0 <= k < p.name.len() implies !is_space(#[trigger] p.name[k]) by {
        assert(p.name[k] == raw[k]);
        assert(raw[k] == s[oe + 1 + k]);
    }
}

/// Whatever a search for an address finds is an identity.
pub proof fn lemma_first_match_is_identity(form: Form, s: Seq<char>, i: int)
    requires
        first_match_from(form, s, i) is Some,
    ensures
        is_identity(first_match_from(form, s, i).unwrap()),
    decreases s.len() - i,
{
    if match_at(form, s, i) is Some {
        lemma_match_is_identity(form, s, i);
    } else {
        lemma_first_match_is_identity(form, s, i + 1);
    }
}

/// Whatever is read from a text is an identity.
pub proof fn lemma_parse_gives_identity(s: Seq<char>)
    requires
        parse_text(s) is Some,
    ensures
        is_identity(parse_text(s).unwrap()),
{
    if first_match_from(Form::Web, s, 0) is Some {
        lemma_first_match_is_identity(Form::Web, s, 0);
    } else {
        lemma_first_match_is_identity(Form::Shell, s, 0);
    }
}

/// Whether `lit` stands in `s` at index `i`.
fn stands_at(s: &Vec<char>, i: usize, lit: &Vec<char>) -> (b: bool)
    ensures
        b == has_at(s@, i as int, lit@),
        b ==> i + lit.len() <= s.len(),
{
    if lit.len() > s.len() || i > s.len() - lit.len() {
        return false;
    }
    let mut k: usize = 0;
    while k < lit.len()
        invariant
            k <= lit.len(),
            i + lit.len() <= s.len(),
            forall|j: int| 0 <= j < k ==> s[i + j] == lit[j],
        decreases lit.len() - k,
    {
        if s[i + k] != lit[k] {
            assert(s@.subrange(i as int, i + lit.len())[k as int] != lit@[k as int]);
            return false;
        }
        k += 1;
    }
    assert(s@.subrange(i as int, i + lit.len()) =~= lit@);
    true
}

/// The texts that an address can start with.
struct Openings {
    secure: Vec<char>,
    plain: Vec<char>,
    shell: Vec<char>,
    git: Vec<char>,
}

impl Openings {
    spec fn well_formed(&self) -> bool {
        &&& self.secure@ == "https://github.com/"@
        &&& self.plain@ == "http://github.com/"@
        &&& self.shell@ == "git@github.com:"@
        &&& self.git@ == ".git"@
    }

    fn new() -> (r: Openings)
        ensures
            r.well_formed(),
    {
        Openings {
            secure: to_chars("https://github.com/"),
            plain: to_chars("http://github.com/"),
            shell: to_chars("git@github.com:"),
            git: to_chars(".git"),
        }
    }
}

/// Where the owner starts, if an address of the form `form` starts at `i`.
fn find_owner_start(form: Form, s: &Vec<char>, i: usize, openings: &Openings) -> (r: Option<usize>)
    requires
        openings.well_formed(),
    ensures
        r.is_some() == owner_start(form, s@, i as int).is_some(),
        r matches Some(o) ==> owner_start(form, s@, i as int) == Some(o as int) && o <= s.len(),
{
    match form {
        Form::Web => {
            if stands_at(s, i, &openings.secure) {
                Some(i + openings.secure.len())
            } else if stands_at(s, i, &openings.plain) {
                Some(i + openings.plain.len())
            } else {
                None
            }
        },
        Form::Shell => {
            if stands_at(s, i, &openings.shell) {
                Some(i + openings.shell.len())
            } else {
                None
            }
        },
    }
}

/// Where the run of word characters that starts at `i` ends.
fn scan_word_run(s: &Vec<char>, i: usize) -> (j: usize)
    requires
        i <= s.len(),
    ensures
        j == word_run_end(s@, i as int),
        i <= j <= s.len(),
{
    let mut j: usize = i;
    while j < s.len() && word(s[j])
        invariant
            i <= j <= s.len(),
            forall|k: int| i <= k < j ==> is_word(s[k]),
        decreases s.len() - j,
    {
        j += 1;
    }
    proof {
        lemma_word_run(s@, i as int, j as int);
    }
    j
}

/// Where the run of characters other than white space that starts at `i` ends.
fn scan_text_run(s: &Vec<char>, i: usize) -> (j: usize)
    requires
        i <= s.len(),
    ensures
        j == text_run_end(s@, i as int),
        i <= j <= s.len(),
{
    let mut j: usize = i;
    while j < s.len() && !space(s[j])
        invariant
            i <= j <= s.len(),
            forall|k: int| i <= k < j ==> !is_space(s[k]),
        decreases s.len() - j,
    {
        j += 1;
    }
    proof {
        lemma_text_run(s@, i as int, j as int);
    }
    j
}

/// `name` without a final `.git`, if more than that ending is there.
fn strip_git(name: Vec<char>, openings: &Openings) -> (r: Vec<char>)
    requires
        openings.well_formed(),
    ensures
        r@ == without_git(name@),
{
    let n = openings.git.len();
    if name.len() > n && stands_at(&name, name.len() - n, &openings.git) {
        copy_range(&name, 0, name.len() - n)
    } else {
        name
    }
}

/// The identity that the address of form `form` starting at `i` gives.
fn match_here(form: Form, s: &Vec<char>, i: usize, openings: &Openings) -> (r: Option<Project>)
    requires
        i < s.len(),
        openings.well_formed(),
    ensures
        r.is_some() == match_at(form, s@, i as int).is_some(),
        r matches Some(p) ==> Some(p@) == match_at(form, s@, i as int),
{
    match find_owner_start(form, s, i, openings) {
        Some(o) => {
            let oe = scan_word_run(s, o);
            if !(o < oe && oe < s.len() && s[oe] == '/') {
                return None;
            }
            let ne = scan_text_run(s, oe + 1);
            if !(oe + 1 < ne) {
                return None;
            }
            let name = strip_git(copy_range(s, oe + 1, ne), openings);
            assert(name@.subrange(0, name.len() as int) =~= name@);
            Some(
                Project {
                    url: from_chars(s, i, ne),
                    company: "github".to_owned(),
                    owner: from_chars(s, o, oe),
                    name: from_chars(&name, 0, name.len()),
                },
            )
        },
        None => None,
    }
}

/// The identity given by the first address of form `form` in `s`.
fn find_form(form: Form, s: &Vec<char>, openings: &Openings) -> (r: Option<Project>)
    requires
        openings.well_formed(),
    ensures
        r.is_some() == first_match_from(form, s@, 0).is_some(),
        r matches Some(p) ==> Some(p@) == first_match_from(form, s@, 0),
{
    let mut i: usize = 0;
    while i < s.len()
        invariant
            i <= s.len(),
            openings.well_formed(),
            first_match_from(form, s@, 0) == first_match_from(form, s@, i as int),
        decreases s.len() - i,
    {
        let found = match_here(form, s, i, openings);
        if found.is_some() {
            return found;
        }
        i += 1;
    }
    None
}

impl Project {
    /// Reads the identity of a repository from `url`.
    ///
    /// The first web address in `url` decides; without one, the first shell
    /// address does; without either there is no identity.
    pub fn parse(url: &String) -> (r: Option<Project>)
        ensures
            r.is_some() == parse_text(url@).is_some(),
            r matches Some(p) ==> Some(p@) == parse_text(url@) && is_identity(p@),
    {
        proof {
            if parse_text(url@) is Some {
                lemma_parse_gives_identity(url@);
            }
        }
        let s = to_chars(url.as_str());
        let openings = Openings::new();
        let web = find_form(Form::Web, &s, &openings);
        if web.is_some() {
            return web;
        }
        find_form(Form::Shell, &s, &openings)
    }
}

} // verus!
