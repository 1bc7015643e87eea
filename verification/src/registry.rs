//! The catalogue of registered repositories.
//!
//! Nothing is recorded about a repository but the directory it was fetched
//! into: below the resource directory every owner has a directory, and in it
//! every repository of that owner has one. The catalogue is read off the
//! listing of those two levels.

use vstd::prelude::*;
use vstd::string::StringExecFns;
use crate::filter::{excluded, is_excluded_name};
use crate::charclass::{is_space, is_word};
use crate::identity::{
    forge, lemma_text_run, lemma_word_run, match_at, owner_start, parse_text, without_git, Form,
    Project, ProjectView,
};
use crate::path::{file_name, final_name_chars, is_entry_name, lemma_file_name_is_entry_name};
use crate::text::{from_chars, strings, to_chars};

verus! {

/// A directory of an owner as it was listed: its path and the paths of its
/// entries, in the order in which they were listed, or no entries where the
/// directory could not be listed.
#[derive(Debug)]
pub struct Listing {
    pub path: String,
    pub entries: Option<Vec<String>>,
}

/// What a `Listing` holds.
pub struct ListingView {
    pub path: Seq<char>,
    pub entries: Option<Seq<Seq<char>>>,
}

impl View for Listing {
    type V = ListingView;

    open spec fn view(&self) -> ListingView {
        ListingView {
            path: self.path@,
            entries: match self.entries {
                Some(entries) => Some(strings(entries@)),
                None => None,
            },
        }
    }
}

/// Why the catalogue could not be read.
#[derive(Clone, Copy, PartialEq, Eq, Debug)]
pub enum RegistryError {
    /// The resource directory could not be listed.
    RootUnlistable,
    /// The directory of an owner could not be listed.
    OwnerUnlistable,
}

/// What a vector of listings holds.
pub open spec fn listings(v: Seq<Listing>) -> Seq<ListingView> {
    v.map_values(|l: Listing| l@)
}

/// What a vector of projects holds.
pub open spec fn projects(v: Seq<Project>) -> Seq<ProjectView> {
    v.map_values(|p: Project| p@)
}

/// The web address of the repository `name` of `owner`.
pub open spec fn address(owner: Seq<char>, name: Seq<char>) -> Seq<char> {
    "https://github.com/"@ + owner + seq!['/'] + name
}

/// The repository `name` of `owner`, as the catalogue describes it.
pub open spec fn entry(owner: Seq<char>, name: Seq<char>) -> ProjectView {
    ProjectView { url: address(owner, name), company: forge(), owner, name }
}

/// The repositories of `owner` among the first `entries.len()` entries of its
/// directory: one for each entry that is not excluded, in the order of the
/// entries.
pub open spec fn owner_projects(owner: Seq<char>, entries: Seq<Seq<char>>) -> Seq<ProjectView>
    decreases entries.len(),
{
    if entries.len() == 0 {
        Seq::empty()
    } else {
        let before = owner_projects(owner, entries.drop_last());
        match file_name(entries.last()) {
            Some(name) => if excluded(entries.last()) {
                before
            } else {
                before.push(entry(owner, name))
            },
            None => before,
        }
    }
}

/// The entries of the directory `listing`, none where it could not be listed.
pub open spec fn entries_of(listing: ListingView) -> Seq<Seq<char>> {
    match listing.entries {
        Some(entries) => entries,
        None => Seq::empty(),
    }
}

/// The catalogue that the listings `owners` give: the repositories of each
/// owner whose directory is not excluded, owner after owner.
pub open spec fn registry(owners: Seq<ListingView>) -> Seq<ProjectView>
    decreases owners.len(),
{
    if owners.len() == 0 {
        Seq::empty()
    } else {
        let before = registry(owners.drop_last());
        match file_name(owners.last().path) {
            Some(owner) => if excluded(owners.last().path) {
                before
            } else {
                before + owner_projects(owner, entries_of(owners.last()))
            },
            None => before,
        }
    }
}

/// Whether the directory of every owner in `owners` that is not excluded was
/// listed.
pub open spec fn all_listed(owners: Seq<ListingView>) -> bool {
    forall|i: int|
        0 <= i < owners.len() && !excluded((#[trigger] owners[i]).path) ==> owners[i].entries
            is Some
}

/// Reading the address that the catalogue gives a repository leads back to
/// that repository, provided that its owner is a run of word characters, its
/// name holds no white space and does not end in a `.git` that would be
/// taken off, and neither is empty.
pub proof fn lemma_address_round_trip(owner: Seq<char>, name: Seq<char>)
    requires
        owner.len() > 0,
        forall|i: int| 0 <= i < owner.len() ==> is_word(#[trigger] owner[i]),
        name.len() > 0,
        forall|i: int| 0 <= i < name.len() ==> !is_space(#[trigger] name[i]),
        without_git(name) == name,
    ensures
        parse_text(address(owner, name)) == Some(entry(owner, name)),
{
    let lit = "https://github.com/"@;
    let s = address(owner, name);
    let o = lit.len() as int;
    let oe = o + owner.len();
    assert(s.subrange(0, o) =~= lit);
    assert(owner_start(Form::Web, s, 0) == Some(o));
    assert forall|k: int| o <= k < oe implies is_word(s[k]) by {
        assert(s[k] == owner[k - o]);
    }
    assert(s[oe] == '/');
    lemma_word_run(s, o, oe);
    assert forall|k: int| oe + 1 <= k < s.len() implies !is_space(s[k]) by {
        assert(s[k] == name[k - oe - 1]);
    }
    lemma_text_run(s, oe + 1, s.len() as int);
    assert(s.subrange(0, s.len() as int) =~= s);
    assert(s.subrange(o, oe) =~= owner);
    assert(s.subrange(oe + 1, s.len() as int) =~= name);
    assert(match_at(Form::Web, s, 0) == Some(entry(owner, name)));
}

/// Every repository of an owner in the catalogue is named as an entry can be,
/// is not called by an excluded name, and has the address that its owner and
/// its name give.
pub proof fn lemma_owner_projects(owner: Seq<char>, entries: Seq<Seq<char>>)
    ensures
        forall|i: int|
            0 <= i < owner_projects(owner, entries).len() ==> {
                let p = #[trigger] owner_projects(owner, entries)[i];
                &&& p == entry(owner, p.name)
                &&& is_entry_name(p.name)
                &&& !excluded(p.name)
            },
    decreases entries.len(),
{
    if entries.len() > 0 {
        let before = owner_projects(owner, entries.drop_last());
        lemma_owner_projects(owner, entries.drop_last());
        assert forall|i: int| 0 <= i < owner_projects(owner, entries).len() implies {
            let p = #[trigger] owner_projects(owner, entries)[i];
            &&& p == entry(owner, p.name)
            &&& is_entry_name(p.name)
            &&& !excluded(p.name)
        } by {
            if i < before.len() {
                assert(owner_projects(owner, entries)[i] == before[i]);
            } else {
                lemma_file_name_is_entry_name(entries.last());
                crate::filter::lemma_excluded_by_name(
                    Seq::empty(),
                    file_name(entries.last()).unwrap(),
                );
            }
        }
    }
}

/// Every repository in the catalogue has an owner and a name that are named
/// as entries can be, neither of them an excluded name, and the address that
/// the two give.
pub proof fn lemma_registry_entries(owners: Seq<ListingView>)
    ensures
        forall|i: int|
            0 <= i < registry(owners).len() ==> {
                let p = #[trigger] registry(owners)[i];
                &&& p == entry(p.owner, p.name)
                &&& is_entry_name(p.owner)
                &&& is_entry_name(p.name)
                &&& !excluded(p.owner)
                &&& !excluded(p.name)
            },
    decreases owners.len(),
{
    if owners.len() > 0 {
        let before = registry(owners.drop_last());
        lemma_registry_entries(owners.drop_last());
        let last = owners.last();
        assert forall|i: int| 0 <= i < registry(owners).len() implies {
            let p = #[trigger] registry(owners)[i];
            &&& p == entry(p.owner, p.name)
            &&& is_entry_name(p.owner)
            &&& is_entry_name(p.name)
            &&& !excluded(p.owner)
            &&& !excluded(p.name)
        } by {
            if i < before.len() {
                assert(registry(owners)[i] == before[i]);
            } else {
                let owner = file_name(last.path).unwrap();
                lemma_file_name_is_entry_name(last.path);
                crate::filter::lemma_excluded_by_name(Seq::empty(), owner);
                lemma_owner_projects(owner, entries_of(last));
                assert(registry(owners)[i] == owner_projects(owner, entries_of(last))[i
                    - before.len()]);
            }
        }
    }
}

/// Reading the address of a repository in the catalogue leads back to that
/// repository, provided that its owner is a run of word characters and its
/// name holds no white space and does not end in a `.git` that would be
/// taken off.
pub proof fn lemma_registry_round_trip(owners: Seq<ListingView>, i: int)
    requires
        0 <= i < registry(owners).len(),
        forall|k: int|
            0 <= k < registry(owners)[i].owner.len() ==> is_word(
                #[trigger] registry(owners)[i].owner[k],
            ),
        forall|k: int|
            0 <= k < registry(owners)[i].name.len() ==> !is_space(
                #[trigger] registry(owners)[i].name[k],
            ),
        without_git(registry(owners)[i].name) == registry(owners)[i].name,
    ensures
        parse_text(registry(owners)[i].url) == Some(registry(owners)[i]),
{
    lemma_registry_entries(owners);
    let p = registry(owners)[i];
    lemma_address_round_trip(p.owner, p.name);
}

/// The web address of the repository `name` of `owner`.
fn make_address(owner: &str, name: &str) -> (r: String)
    ensures
        r@ == address(owner@, name@),
{
    let mut url = "https://github.com/".to_owned();
    url.append(owner);
    url.push('/');
    url.append(name);
    url
}

/// The name of the entry at `path`, unless the entry is excluded.
fn kept_name(path: &str) -> (r: Option<String>)
    ensures
        r.is_some() == !excluded(path@),
        r matches Some(n) ==> file_name(path@) == Some(n@),
{
    let p = to_chars(path);
    match final_name_chars(&p) {
        Some(name) => {
            if is_excluded_name(&name) {
                None
            } else {
                assert(name@.subrange(0, name.len() as int) =~= name@);
                Some(from_chars(&name, 0, name.len()))
            }
        },
        None => None,
    }
}

impl Project {
    /// The catalogue that the listings `owners` give.
    ///
    /// `owners` holds the first level below the resource directory, each
    /// directory with its own entries, or nothing where the resource directory
    /// could not be listed. Excluded directories and excluded entries are
    /// passed over; every other entry is a repository, named as the entry is
    /// and owned by whom its directory is named after.
    ///
    /// Fails if the resource directory could not be listed, and if the
    /// directory of an owner that is not excluded could not.
    pub fn get_projects(owners: Option<&Vec<Listing>>) -> (r: Result<Vec<Project>, RegistryError>)
        ensures
            match owners {
                None => r == Err::<Vec<Project>, RegistryError>(RegistryError::RootUnlistable),
                Some(owners) => if all_listed(listings(owners@)) {
                    r matches Ok(v) && projects(v@) == registry(listings(owners@))
                } else {
                    r == Err::<Vec<Project>, RegistryError>(RegistryError::OwnerUnlistable)
                },
            },
    {
        let listed = match owners {
            Some(listed) => listed,
            None => {
                return Err(RegistryError::RootUnlistable);
            },
        };
        let mut output: Vec<Project> = Vec::new();
        let mut i: usize = 0;
        assert(projects(output@) =~= Seq::empty());
        assert(listings(listed@.subrange(0, 0)) =~= Seq::empty());
        while i < listed.len()
            invariant
                i <= listed.len(),
                owners == Some(listed),
                all_listed(listings(listed@.subrange(0, i as int))),
                projects(output@) == registry(listings(listed@.subrange(0, i as int))),
            decreases listed.len() - i,
        {
            let listing = &listed[i];
            proof {
                let upto = listings(listed@.subrange(0, i + 1));
                assert(upto.drop_last() =~= listings(listed@.subrange(0, i as int)));
                assert(upto.last() == listing@);
                assert(listings(listed@)[i as int] == listing@);
            }
            match kept_name(listing.path.as_str()) {
                Some(owner) => {
                    let entries = match &listing.entries {
                        Some(entries) => entries,
                        None => {
                            return Err(RegistryError::OwnerUnlistable);
                        },
                    };
                    let ghost before = projects(output@);
                    let mut j: usize = 0;
                    assert(strings(entries@.subrange(0, 0)) =~= Seq::empty());
                    assert(before + Seq::<ProjectView>::empty() =~= before);
                    while j < entries.len()
                        invariant
                            j <= entries.len(),
                            projects(output@) == before + owner_projects(
                                owner@,
                                strings(entries@.subrange(0, j as int)),
                            ),
                        decreases entries.len() - j,
                    {
                        proof {
                            let upto = strings(entries@.subrange(0, j + 1));
                            assert(upto.drop_last() =~= strings(entries@.subrange(0, j as int)));
                            assert(upto.last() == entries[j as int]@);
                        }
                        match kept_name(entries[j].as_str()) {
                            Some(name) => {
                                let project = Project {
                                    url: make_address(owner.as_str(), name.as_str()),
                                    company: "github".to_owned(),
                                    owner: owner.clone(),
                                    name,
                                };
                                assert(projects(output@.push(project)) =~= projects(output@).push(
                                    project@,
                                ));
                                assert((before + owner_projects(
                                    owner@,
                                    strings(entries@.subrange(0, j as int)),
                                )).push(project@) =~= before + owner_projects(
                                    owner@,
                                    strings(entries@.subrange(0, j as int)),
                                ).push(project@));
                                output.push(project);
                            },
                            None => {},
                        }
                        j += 1;
                    }
                    assert(entries@.subrange(0, entries.len() as int) =~= entries@);
                },
                None => {},
            }
            proof {
                let upto = listings(listed@.subrange(0, i + 1));
                assert forall|k: int|
                    0 <= k < upto.len() && !excluded((#[trigger] upto[k]).path) implies upto[k].entries
                    is Some by {
                    if k < i {
                        assert(upto[k] == listings(listed@.subrange(0, i as int))[k]);
                    }
                }
            }
            i += 1;
        }
        assert(listed@.subrange(0, listed.len() as int) =~= listed@);
        Ok(output)
    }
}

} // verus!
