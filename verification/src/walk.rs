//! Searching a file tree, one entry at a time.
//!
//! The tree is on disk and this module never touches it. A walk says which
//! path is to be looked at next; the caller looks and reports what is there: a
//! directory with its entries, a file with its content, or something that
//! could not be read. The walk takes it from there. It goes depth first and
//! visits the entries of a directory in the order in which they were
//! reported, so the hits come in that order too; which order a file system
//! lists its entries in is not fixed.
//!
//! Excluded entries are never visited, and neither is anything below them.

use vstd::prelude::*;
use crate::filter::{excluded, excluded_names, in_black_list, is_excluded_name};
use crate::lines::lines_of;
use crate::matcher::{
    hits, lemma_scan_paths, pattern_compiles, scan, Content, Hit, Matcher, PatternError,
};
use crate::path::{
    descent, is_dot, is_dot_dot, is_entry_name, join, joined, lemma_descent_self,
    lemma_descent_step, lemma_join_components,
};
use crate::text::{strings, to_chars};

verus! {

/// What was found at a path.
#[derive(Debug)]
pub enum Node {
    /// A directory, with the names of its entries in the order in which they
    /// were listed.
    Directory(Vec<String>),
    /// A file, with its content.
    File(String),
    /// Something that could not be listed or read.
    Unreadable,
}

/// What a `Node` holds.
pub enum NodeView {
    Directory(Seq<Seq<char>>),
    File(Seq<char>),
    Unreadable,
}

impl View for Node {
    type V = NodeView;

    open spec fn view(&self) -> NodeView {
        match self {
            Node::Directory(names) => NodeView::Directory(strings(names@)),
            Node::File(text) => NodeView::File(text@),
            Node::Unreadable => NodeView::Unreadable,
        }
    }
}

/// Whether an entry called `name` is visited: `name` is the name of an entry
/// and not one of the excluded names.
pub open spec fn visited(name: Seq<char>) -> bool {
    is_entry_name(name) && !excluded_names().contains(name)
}

/// The paths of the entries of `dir` called `names` that are visited, the one
/// to visit first coming last.
pub open spec fn stacked(dir: Seq<char>, names: Seq<Seq<char>>) -> Seq<Seq<char>>
    decreases names.len(),
{
    if names.len() == 0 {
        Seq::empty()
    } else {
        let later = stacked(dir, names.drop_first());
        if visited(names.first()) {
            later.push(join(dir, names.first()))
        } else {
            later
        }
    }
}

/// Whether `path` lies at or below `root` with no excluded entry on the way
/// from `root` down to it, `root` itself included.
pub open spec fn clean(root: Seq<char>, path: Seq<char>) -> bool {
    &&& !excluded(root)
    &&& descent(root, path) matches Some(steps) && forall|i: int|
        0 <= i < steps.len() ==> !excluded_names().contains(#[trigger] steps[i])
}

/// Whether each of `paths` is clean below `root`.
pub open spec fn all_clean(root: Seq<char>, paths: Seq<Seq<char>>) -> bool {
    forall|i: int| 0 <= i < paths.len() ==> clean(root, #[trigger] paths[i])
}

/// The paths that are still to be visited once the last of `pending` was
/// found to be `node`.
pub open spec fn pending_after(pending: Seq<Seq<char>>, node: NodeView) -> Seq<Seq<char>> {
    if pending.len() == 0 {
        pending
    } else {
        match node {
            NodeView::Directory(names) => pending.drop_last() + stacked(pending.last(), names),
            _ => pending.drop_last(),
        }
    }
}

/// The hits that finding `node` at the last of `pending` adds.
pub open spec fn hits_at(pattern: Seq<char>, pending: Seq<Seq<char>>, node: NodeView) -> Seq<Hit> {
    if pending.len() == 0 {
        Seq::empty()
    } else {
        match node {
            NodeView::File(text) => scan(pattern, pending.last(), lines_of(text)),
            _ => Seq::empty(),
        }
    }
}

/// The entries of a visited directory that are visited lie clean below the
/// root of the walk.
pub proof fn lemma_stacked_clean(root: Seq<char>, dir: Seq<char>, names: Seq<Seq<char>>)
    requires
        clean(root, dir),
    ensures
        all_clean(root, stacked(dir, names)),
    decreases names.len(),
{
    if names.len() > 0 {
        lemma_stacked_clean(root, dir, names.drop_first());
        if visited(names.first()) {
            lemma_descent_step(root, dir, names.first());
        }
    }
}

/// An entry is visited only if it is not excluded.
pub proof fn lemma_stacked_not_excluded(dir: Seq<char>, names: Seq<Seq<char>>)
    ensures
        forall|i: int|
            0 <= i < stacked(dir, names).len() ==> !excluded(#[trigger] stacked(dir, names)[i]),
    decreases names.len(),
{
    if names.len() > 0 {
        let later = stacked(dir, names.drop_first());
        lemma_stacked_not_excluded(dir, names.drop_first());
        if visited(names.first()) {
            lemma_join_components(dir, names.first());
        }
        assert forall|i: int| 0 <= i < stacked(dir, names).len() implies !excluded(
            #[trigger] stacked(dir, names)[i],
        ) by {
            if i < later.len() {
                assert(stacked(dir, names)[i] == later[i]);
            }
        }
    }
}

/// Whether `name` is the name of an entry.
fn entry_name(name: &Vec<char>) -> (r: bool)
    ensures
        r == is_entry_name(name@),
{
    if name.len() == 0 || is_dot(name) || is_dot_dot(name) {
        return false;
    }
    let mut i: usize = 0;
    while i < name.len()
        invariant
            i <= name.len(),
            forall|j: int| 0 <= j < i ==> name[j] != '/',
        decreases name.len() - i,
    {
        if name[i] == '/' {
            return false;
        }
        i += 1;
    }
    true
}

/// The paths of a walk that are still to be visited. Each of them lies clean
/// below the directory in which the walk started.
pub struct Frontier {
    root: String,
    pending: Vec<String>,
}

impl Frontier {
    /// Where the walk started.
    pub closed spec fn root(&self) -> Seq<char> {
        self.root@
    }

    /// The paths still to be visited, the next one last.
    pub closed spec fn pending(&self) -> Seq<Seq<char>> {
        strings(self.pending@)
    }

    #[verifier::type_invariant]
    spec fn well_formed(&self) -> bool {
        all_clean(self.root(), self.pending())
    }

    /// A walk that starts at `dir`, if `dir` is not excluded.
    pub fn new(dir: &str) -> (r: Frontier)
        ensures
            r.root() == dir@,
            r.pending() == if excluded(dir@) {
                Seq::<Seq<char>>::empty()
            } else {
                seq![dir@]
            },
    {
        let mut pending: Vec<String> = Vec::new();
        if !in_black_list(dir) {
            pending.push(dir.to_owned());
            proof {
                lemma_descent_self(dir@);
                assert(strings(pending@) =~= seq![dir@]);
            }
        } else {
            assert(strings(pending@) =~= Seq::empty());
        }
        Frontier { root: dir.to_owned(), pending }
    }

    /// The path to visit next, if any is left.
    pub fn next(&self) -> (r: Option<&String>)
        ensures
            r.is_some() == (self.pending().len() > 0),
            r matches Some(p) ==> p@ == self.pending().last() && clean(self.root(), p@),
    {
        proof {
            use_type_invariant(self);
        }
        let n = self.pending.len();
        if n == 0 {
            None
        } else {
            assert(self.pending()[n - 1] == self.pending[n - 1]@);
            Some(&self.pending[n - 1])
        }
    }

    /// Takes the next path off, if any is left.
    pub fn leave(self) -> (r: (Frontier, Option<String>))
        ensures
            r.0.root() == self.root(),
            r.1.is_some() == (self.pending().len() > 0),
            r.1 matches Some(p) ==> p@ == self.pending().last() && clean(self.root(), p@),
            r.0.pending() == if self.pending().len() > 0 {
                self.pending().drop_last()
            } else {
                self.pending()
            },
    {
        proof {
            use_type_invariant(&self);
        }
        let Frontier { root, mut pending } = self;
        let ghost before = pending@;
        let top = pending.pop();
        proof {
            if before.len() > 0 {
                assert(strings(pending@) =~= strings(before).drop_last());
                assert(strings(before).last() == before.last()@);
            }
        }
        (Frontier { root, pending }, top)
    }

    /// Takes the next path off, which was found to be a directory, and puts
    /// on those of its entries `names` that are visited.
    pub fn enter(self, names: &Vec<String>) -> (r: Frontier)
        ensures
            r.root() == self.root(),
            r.pending() == pending_after(self.pending(), NodeView::Directory(strings(names@))),
    {
        proof {
            use_type_invariant(&self);
        }
        let Frontier { root, mut pending } = self;
        let dir = match pending.pop() {
            Some(dir) => dir,
            None => {
                return Frontier { root, pending };
            },
        };
        let ghost rest = strings(pending@);
        proof {
            assert(rest =~= self.pending().drop_last());
            assert(self.pending().last() == dir@);
            assert(rest + Seq::<Seq<char>>::empty() =~= rest);
        }
        let mut k: usize = names.len();
        assert(strings(names@).subrange(k as int, names.len() as int) =~= Seq::empty());
        while k > 0
            invariant
                k <= names.len(),
                clean(root@, dir@),
                all_clean(root@, strings(pending@)),
                strings(pending@) == rest + stacked(
                    dir@,
                    strings(names@).subrange(k as int, names.len() as int),
                ),
            decreases k,
        {
            k -= 1;
            let name = to_chars(names[k].as_str());
            proof {
                let from = strings(names@).subrange(k as int, names.len() as int);
                assert(from.drop_first() =~= strings(names@).subrange(
                    k + 1,
                    names.len() as int,
                ));
                assert(from.first() == names[k as int]@);
            }
            if entry_name(&name) && !is_excluded_name(&name) {
                let child = joined(dir.as_str(), names[k].as_str());
                proof {
                    let later = stacked(
                        dir@,
                        strings(names@).subrange(k + 1, names.len() as int),
                    );
                    assert(strings(pending@.push(child)) =~= strings(pending@).push(child@));
                    assert((rest + later).push(child@) =~= rest + later.push(child@));
                    lemma_descent_step(root@, dir@, name@);
                }
                pending.push(child);
            }
        }
        assert(strings(names@).subrange(0, names.len() as int) =~= strings(names@));
        Frontier { root, pending }
    }
}

/// A search for a pattern through a file tree. No path that it visits and no
/// file that it has a hit in lies in an excluded entry or below one.
pub struct TreeWalk {
    matcher: Matcher,
    frontier: Frontier,
    found: Vec<Content>,
}

impl TreeWalk {
    /// The pattern that is searched for.
    pub closed spec fn pattern(&self) -> Seq<char> {
        self.matcher.pattern()
    }

    /// Where the walk started.
    pub closed spec fn root(&self) -> Seq<char> {
        self.frontier.root()
    }

    /// The paths still to be visited, the next one last.
    pub closed spec fn pending(&self) -> Seq<Seq<char>> {
        self.frontier.pending()
    }

    /// The hits so far.
    pub closed spec fn found(&self) -> Seq<Hit> {
        hits(self.found@)
    }

    #[verifier::type_invariant]
    spec fn well_formed(&self) -> bool {
        forall|i: int|
            0 <= i < self.found().len() ==> clean(self.root(), (#[trigger] self.found()[i]).path)
    }

    /// A search with `matcher` that starts at `dir`. Nothing is visited if
    /// `dir` is excluded.
    pub fn new(matcher: Matcher, dir: &str) -> (r: TreeWalk)
        ensures
            r.pattern() == matcher.pattern(),
            r.root() == dir@,
            r.pending() == if excluded(dir@) {
                Seq::<Seq<char>>::empty()
            } else {
                seq![dir@]
            },
            r.found() == Seq::<Hit>::empty(),
    {
        let found: Vec<Content> = Vec::new();
        assert(hits(found@) =~= Seq::empty());
        TreeWalk { matcher, frontier: Frontier::new(dir), found }
    }

    /// The path to look at next, if any is left. It lies clean below the
    /// root of the walk.
    pub fn next_path(&self) -> (r: Option<&String>)
        ensures
            r.is_some() == (self.pending().len() > 0),
            r matches Some(p) ==> p@ == self.pending().last() && clean(self.root(), p@),
    {
        self.frontier.next()
    }

    /// The walk after the next path was found to be `node`.
    ///
    /// A directory is replaced by those of its entries that are visited. A
    /// file is searched, and its hits follow those found so far. Something
    /// unreadable is passed over. Nothing changes if no path was left.
    pub fn advance(self, node: Node) -> (r: TreeWalk)
        ensures
            r.pattern() == self.pattern(),
            r.root() == self.root(),
            r.pending() == pending_after(self.pending(), node@),
            r.found() == self.found() + hits_at(self.pattern(), self.pending(), node@),
    {
        proof {
            use_type_invariant(&self);
        }
        assert(self.found() + Seq::<Hit>::empty() =~= self.found());
        let TreeWalk { matcher, frontier, mut found } = self;
        match node {
            Node::Directory(names) => {
                let frontier = frontier.enter(&names);
                TreeWalk { matcher, frontier, found }
            },
            Node::File(text) => {
                let (frontier, path) = frontier.leave();
                match path {
                    Some(path) => {
                        let mut more = matcher.scan_text(path.as_str(), text.as_str());
                        proof {
                            lemma_scan_paths(matcher.pattern(), path@, lines_of(text@));
                            assert(hits(found@ + more@) =~= hits(found@) + hits(more@));
                        }
                        found.append(&mut more);
                    },
                    None => {},
                }
                TreeWalk { matcher, frontier, found }
            },
            Node::Unreadable => {
                let (frontier, _) = frontier.leave();
                TreeWalk { matcher, frontier, found }
            },
        }
    }

    /// The hits of the search, in the order in which they were found. The
    /// file of each lies clean below the root of the walk.
    pub fn into_found(self) -> (r: Vec<Content>)
        ensures
            hits(r@) == self.found(),
            forall|i: int|
                0 <= i < self.found().len() ==> clean(
                    self.root(),
                    (#[trigger] self.found()[i]).path,
                ),
    {
        proof {
            use_type_invariant(&self);
        }
        self.found
    }
}

/// Starts a search for `pattern` through the tree at `dir`.
///
/// Fails if `pattern` is not a regular expression that the engine accepts.
pub fn search_dir(dir: &str, pattern: &String) -> (r: Result<TreeWalk, PatternError>)
    ensures
        r.is_ok() == pattern_compiles(pattern@),
        r matches Ok(walk) ==> {
            &&& walk.pattern() == pattern@
            &&& walk.root() == dir@
            &&& walk.pending() == if excluded(dir@) {
                Seq::<Seq<char>>::empty()
            } else {
                seq![dir@]
            }
            &&& walk.found() == Seq::<Hit>::empty()
        },
{
    match Matcher::new(pattern) {
        Ok(matcher) => Ok(TreeWalk::new(matcher, dir)),
        Err(e) => Err(e),
    }
}

} // verus!
