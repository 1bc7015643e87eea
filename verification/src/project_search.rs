//! Searching a repository, with hits that name their file from the
//! repository down.

use vstd::prelude::*;
use crate::filter::excluded;
use crate::identity::Project;
use crate::lines::lines_of;
use crate::matcher::{
    hits, lemma_scan_paths, pattern_compiles, scan, search_file, Content, Hit, Matcher,
    PatternError,
};
use crate::path::{descent, lemma_descent_chain, lemma_descent_self};
use crate::relative::{project_root, tell_from, told_from};
use crate::walk::{clean, hits_at, pending_after, Node, TreeWalk};

verus! {

/// A place in a file of a repository where the pattern matched.
#[derive(Debug)]
pub struct SearchResult {
    /// The number of the line, counted from 1.
    pub line: u64,
    /// The byte offset in the line at which the match starts.
    pub start: u64,
    /// The byte offset in the line at which the match ends.
    pub end: u64,
    /// The whole line.
    pub content: String,
    /// The path of the file, told from the repository down.
    pub path: String,
}

impl View for SearchResult {
    type V = Hit;

    open spec fn view(&self) -> Hit {
        Hit {
            line: self.line as nat,
            start: self.start as nat,
            end: self.end as nat,
            content: self.content@,
            path: self.path@,
        }
    }
}

/// What a vector of results holds.
pub open spec fn results(v: Seq<SearchResult>) -> Seq<Hit> {
    v.map_values(|r: SearchResult| r@)
}

/// Why a search in a repository failed.
#[derive(Clone, Copy, PartialEq, Eq, Debug)]
pub enum SearchError {
    /// The pattern is not a regular expression that the engine accepts.
    InvalidPattern,
    /// A file or directory does not lie in the repository.
    OutsideProject,
}

/// The hit `hit` with its file told from the directory `root` down, which
/// goes by the name `name`.
pub open spec fn retold(name: Seq<char>, root: Seq<char>, hit: Hit) -> Hit {
    Hit {
        line: hit.line,
        start: hit.start,
        end: hit.end,
        content: hit.content,
        path: told_from(name, root, hit.path).unwrap(),
    }
}

/// Each of `found` with its file told from the directory `root` down.
pub open spec fn all_retold(name: Seq<char>, root: Seq<char>, found: Seq<Hit>) -> Seq<Hit> {
    found.map_values(|h: Hit| retold(name, root, h))
}

/// Whether the file of each of `found` lies at or below `root`.
pub open spec fn all_below(root: Seq<char>, found: Seq<Hit>) -> bool {
    forall|i: int| 0 <= i < found.len() ==> descent(root, (#[trigger] found[i]).path) is Some
}

/// Each of `found` with its file told from the directory `root` down, which
/// goes by the name `name`; nothing if one of the files does not lie there.
pub fn retell(name: &String, root: &str, found: Vec<Content>) -> (r: Option<Vec<SearchResult>>)
    ensures
        r.is_some() == all_below(root@, hits(found@)),
        r matches Some(v) ==> results(v@) == all_retold(name@, root@, hits(found@)),
{
    let mut out: Vec<SearchResult> = Vec::new();
    let ghost all = hits(found@);
    let mut i: usize = 0;
    assert(results(out@) =~= all_retold(name@, root@, all.subrange(0, 0)));
    while i < found.len()
        invariant
            i <= found.len(),
            hits(found@) == all,
            all_below(root@, all.subrange(0, i as int)),
            results(out@) == all_retold(name@, root@, all.subrange(0, i as int)),
        decreases found.len() - i,
    {
        let hit = &found[i];
        assert(all[i as int] == hit@);
        match tell_from(name, root, hit.path.as_str()) {
            Some(path) => {
                let result = SearchResult {
                    line: hit.line,
                    start: hit.start,
                    end: hit.end,
                    content: hit.content.clone(),
                    path,
                };
                proof {
                    assert(result@ == retold(name@, root@, all[i as int]));
                    assert(results(out@.push(result)) =~= results(out@).push(result@));
                    assert(all_retold(name@, root@, all.subrange(0, i + 1)) =~= all_retold(
                        name@,
                        root@,
                        all.subrange(0, i as int),
                    ).push(result@));
                    assert forall|j: int| 0 <= j < i + 1 implies descent(
                        root@,
                        (#[trigger] all.subrange(0, i + 1)[j]).path,
                    ) is Some by {
                        if j < i {
                            assert(all.subrange(0, i as int)[j] == all[j]);
                        }
                    }
                }
                out.push(result);
            },
            None => {
                assert(descent(root@, hits(found@)[i as int].path) is None);
                return None;
            },
        }
        i += 1;
    }
    assert(all.subrange(0, found.len() as int) =~= all);
    Some(out)
}

/// A search for a pattern through a repository, or through a part of it. It
/// starts in the repository, and no path that it visits and no file that it
/// has a hit in lies in an excluded entry or below one.
pub struct ProjectWalk {
    name: String,
    base: String,
    walk: TreeWalk,
}

impl ProjectWalk {
    /// The name of the repository.
    pub closed spec fn name(&self) -> Seq<char> {
        self.name@
    }

    /// The directory of the repository.
    pub closed spec fn base(&self) -> Seq<char> {
        self.base@
    }

    /// The pattern that is searched for.
    pub closed spec fn pattern(&self) -> Seq<char> {
        self.walk.pattern()
    }

    /// Where the walk started.
    pub closed spec fn root(&self) -> Seq<char> {
        self.walk.root()
    }

    /// The paths still to be visited, the next one last.
    pub closed spec fn pending(&self) -> Seq<Seq<char>> {
        self.walk.pending()
    }

    /// The hits so far, each naming its file as it lies on disk.
    pub closed spec fn found(&self) -> Seq<Hit> {
        self.walk.found()
    }

    #[verifier::type_invariant]
    spec fn well_formed(&self) -> bool {
        descent(self.base(), self.root()) is Some
    }

    /// The path to look at next, if any is left. It lies in the repository,
    /// clean below where the walk started.
    pub fn next_path(&self) -> (r: Option<&String>)
        ensures
            r.is_some() == (self.pending().len() > 0),
            r matches Some(p) ==> {
                &&& p@ == self.pending().last()
                &&& clean(self.root(), p@)
                &&& descent(self.base(), p@) is Some
            },
    {
        proof {
            use_type_invariant(self);
        }
        let r = self.walk.next_path();
        proof {
            match r {
                Some(p) => {
                    lemma_descent_chain(self.base(), self.root(), p@);
                },
                None => {},
            }
        }
        r
    }

    /// The walk after the next path was found to be `node`.
    ///
    /// A directory is replaced by those of its entries that are visited. A
    /// file is searched, and its hits follow those found so far. Something
    /// unreadable is passed over. Nothing changes if no path was left.
    pub fn advance(self, node: Node) -> (r: ProjectWalk)
        ensures
            r.name() == self.name(),
            r.base() == self.base(),
            r.pattern() == self.pattern(),
            r.root() == self.root(),
            r.pending() == pending_after(self.pending(), node@),
            r.found() == self.found() + hits_at(self.pattern(), self.pending(), node@),
    {
        proof {
            use_type_invariant(&self);
        }
        let ProjectWalk { name, base, walk } = self;
        ProjectWalk { name, base, walk: walk.advance(node) }
    }

    /// The hits of the search, in the order in which they were found, each
    /// naming its file from the repository down.
    pub fn into_found(self) -> (r: Vec<SearchResult>)
        ensures
            all_below(self.base(), self.found()),
            results(r@) == all_retold(self.name(), self.base(), self.found()),
    {
        proof {
            use_type_invariant(&self);
        }
        let ProjectWalk { name, base, walk } = self;
        let found = walk.into_found();
        proof {
            assert forall|i: int| 0 <= i < hits(found@).len() implies descent(
                base@,
                (#[trigger] hits(found@)[i]).path,
            ) is Some by {
                lemma_descent_chain(base@, walk.root(), hits(found@)[i].path);
            }
        }
        match retell(&name, base.as_str(), found) {
            Some(v) => v,
            None => Vec::new(),
        }
    }
}

impl Project {
    /// The hits of `filter` in the file `file_name` of this repository, whose
    /// content is `contents`, or nothing where the file could not be read.
    /// Each hit names the file from the repository down.
    ///
    /// Fails if `filter` is not a regular expression that the engine accepts,
    /// and if there is a hit but the file does not lie in the repository.
    pub fn search_file(
        &self,
        resources: &str,
        file_name: &str,
        contents: Option<&str>,
        filter: &String,
    ) -> (r: Result<Vec<SearchResult>, SearchError>)
        ensures
            ({
                let found = match contents {
                    Some(text) => scan(filter@, file_name@, lines_of(text@)),
                    None => Seq::empty(),
                };
                let root = project_root(resources@, self@);
                if !pattern_compiles(filter@) {
                    r == Err::<Vec<SearchResult>, SearchError>(SearchError::InvalidPattern)
                } else if found.len() > 0 && descent(root, file_name@) is None {
                    r == Err::<Vec<SearchResult>, SearchError>(SearchError::OutsideProject)
                } else {
                    r matches Ok(v) && results(v@) == all_retold(self.name@, root, found)
                }
            }),
    {
        let found = match search_file(file_name, contents, filter) {
            Ok(found) => found,
            Err(_) => {
                return Err(SearchError::InvalidPattern);
            },
        };
        proof {
            match contents {
                Some(text) => {
                    lemma_scan_paths(filter@, file_name@, lines_of(text@));
                },
                None => {},
            }
        }
        let root = self.get_path(resources);
        let ghost raw = hits(found@);
        match retell(&self.name, root.as_str(), found) {
            Some(v) => {
                assert(raw.len() > 0 ==> raw[0].path == file_name@ && descent(root@, raw[0].path)
                    is Some);
                Ok(v)
            },
            None => {
                assert(raw.len() > 0);
                let ghost i = choose|i: int|
                    0 <= i < raw.len() && !(descent(root@, (#[trigger] raw[i]).path) is Some);
                assert(raw[i].path == file_name@);
                Err(SearchError::OutsideProject)
            },
        }
    }

    /// Starts a search for `pattern` through the tree at `dir`, which lies in
    /// this repository.
    ///
    /// Fails if `pattern` is not a regular expression that the engine
    /// accepts, and if `dir` does not lie in the repository.
    pub fn search_dir(&self, resources: &str, dir: &str, pattern: &String) -> (r: Result<
        ProjectWalk,
        SearchError,
    >)
        ensures
            ({
                let root = project_root(resources@, self@);
                if !pattern_compiles(pattern@) {
                    r matches Err(e) && e == SearchError::InvalidPattern
                } else if descent(root, dir@) is None {
                    r matches Err(e) && e == SearchError::OutsideProject
                } else {
                    &&& r matches Ok(walk)
                    &&& walk.name() == self.name@
                    &&& walk.base() == root
                    &&& walk.pattern() == pattern@
                    &&& walk.root() == dir@
                    &&& walk.pending() == if excluded(dir@) {
                        Seq::<Seq<char>>::empty()
                    } else {
                        seq![dir@]
                    }
                    &&& walk.found() == Seq::<Hit>::empty()
                }
            }),
    {
        let matcher = match Matcher::new(pattern) {
            Ok(matcher) => matcher,
            Err(_) => {
                return Err(SearchError::InvalidPattern);
            },
        };
        let base = self.get_path(resources);
        if tell_from(&self.name, base.as_str(), dir).is_none() {
            return Err(SearchError::OutsideProject);
        }
        Ok(ProjectWalk { name: self.name.clone(), base, walk: TreeWalk::new(matcher, dir) })
    }

    /// Starts a search for `pattern` through this repository, which lies
    /// below the resource directory `resources`.
    ///
    /// Fails if `pattern` is not a regular expression that the engine
    /// accepts.
    pub fn search(&self, resources: &str, pattern: &String) -> (r: Result<
        ProjectWalk,
        PatternError,
    >)
        ensures
            r.is_ok() == pattern_compiles(pattern@),
            r matches Ok(walk) ==> {
                let root = project_root(resources@, self@);
                &&& walk.name() == self.name@
                &&& walk.base() == root
                &&& walk.pattern() == pattern@
                &&& walk.root() == root
                &&& walk.pending() == if excluded(root) {
                    Seq::<Seq<char>>::empty()
                } else {
                    seq![root]
                }
                &&& walk.found() == Seq::<Hit>::empty()
            },
    {
        let matcher = match Matcher::new(pattern) {
            Ok(matcher) => matcher,
            Err(e) => {
                return Err(e);
            },
        };
        let base = self.get_path(resources);
        proof {
            lemma_descent_self(base@);
        }
        let walk = TreeWalk::new(matcher, base.as_str());
        Ok(ProjectWalk { name: self.name.clone(), base, walk })
    }
}

} // verus!
