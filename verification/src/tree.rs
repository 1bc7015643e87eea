//! A file tree as a value, and what a search through it finds.
//!
//! A walk sees a tree one entry at a time. Here the tree is there at once, and
//! the search is told the way one would tell it: a file gives the hits of its
//! lines, a directory those of its visited entries, one entry after the other.
//! A walk that is fed from a tree ends with exactly these hits.

use vstd::prelude::*;
use crate::lines::lines_of;
use crate::matcher::{scan, Hit};
use crate::path::join;
use crate::walk::{hits_at, pending_after, stacked, visited, NodeView};

verus! {

/// What lies at a path, with all that lies below it.
pub enum Tree {
    /// A directory: the names of its entries, in the order in which they are
    /// listed, each with what lies there.
    Directory(Seq<(Seq<char>, Tree)>),
    /// A file, with its content.
    File(Seq<char>),
    /// Something that cannot be listed or read.
    Unreadable,
}

/// What is found when one looks at the top of `tree`.
pub open spec fn node_of(tree: Tree) -> NodeView {
    match tree {
        Tree::Directory(entries) => NodeView::Directory(names_of(entries)),
        Tree::File(text) => NodeView::File(text),
        Tree::Unreadable => NodeView::Unreadable,
    }
}

/// The names of `entries`.
pub open spec fn names_of(entries: Seq<(Seq<char>, Tree)>) -> Seq<Seq<char>> {
    entries.map_values(|e: (Seq<char>, Tree)| e.0)
}

/// The hits of `pattern` in `tree`, which lies at `path`.
pub open spec fn tree_hits(pattern: Seq<char>, path: Seq<char>, tree: Tree) -> Seq<Hit>
    decreases tree,
{
    match tree {
        Tree::Directory(entries) => entries_hits(pattern, path, entries),
        Tree::File(text) => scan(pattern, path, lines_of(text)),
        Tree::Unreadable => Seq::empty(),
    }
}

/// The hits of `pattern` in the visited ones of `entries`, which lie in the
/// directory `dir`: those of the first entry first.
pub open spec fn entries_hits(pattern: Seq<char>, dir: Seq<char>, entries: Seq<(Seq<char>, Tree)>)
    -> Seq<Hit>
    decreases entries,
{
    if entries.len() == 0 {
        Seq::empty()
    } else {
        let first = entries[0];
        let later = entries_hits(pattern, dir, entries.subrange(1, entries.len() as int));
        if visited(first.0) {
            tree_hits(pattern, join(dir, first.0), first.1) + later
        } else {
            later
        }
    }
}

/// How much there is to `tree`: the number of directories, files and
/// unreadable things in it.
pub open spec fn size(tree: Tree) -> nat
    decreases tree,
{
    match tree {
        Tree::Directory(entries) => 1 + total_size(entries),
        _ => 1,
    }
}

/// How much there is to the trees of `entries`, taken together.
pub open spec fn total_size(entries: Seq<(Seq<char>, Tree)>) -> nat
    decreases entries,
{
    if entries.len() == 0 {
        0
    } else {
        size(entries[0].1) + total_size(entries.subrange(1, entries.len() as int))
    }
}

/// The visited ones of `entries`, which lie in the directory `dir`, each with
/// its path in place of its name, the one to visit first coming last.
pub open spec fn stacked_trees(dir: Seq<char>, entries: Seq<(Seq<char>, Tree)>) -> Seq<
    (Seq<char>, Tree),
>
    decreases entries.len(),
{
    if entries.len() == 0 {
        Seq::empty()
    } else {
        let later = stacked_trees(dir, entries.subrange(1, entries.len() as int));
        if visited(entries[0].0) {
            later.push((join(dir, entries[0].0), entries[0].1))
        } else {
            later
        }
    }
}

/// What is left to visit, each path with what lies there, once the last of
/// `work` has been looked at.
pub open spec fn work_after(work: Seq<(Seq<char>, Tree)>) -> Seq<(Seq<char>, Tree)> {
    if work.len() == 0 {
        work
    } else {
        match work.last().1 {
            Tree::Directory(entries) => work.drop_last() + stacked_trees(work.last().0, entries),
            _ => work.drop_last(),
        }
    }
}

/// The hits with which a walk ends that has `found` so far and is left with
/// `work` to visit, each path with what lies there, the next one last.
pub open spec fn walk_end(pattern: Seq<char>, work: Seq<(Seq<char>, Tree)>, found: Seq<Hit>)
    -> Seq<Hit>
    decreases total_size(work),
{
    if work.len() == 0 {
        found
    } else {
        proof {
            lemma_work_shrinks(work);
        }
        walk_end(
            pattern,
            work_after(work),
            found + hits_at(pattern, names_of(work), node_of(work.last().1)),
        )
    }
}

/// The hits in all of `work`, those of the last path first.
pub open spec fn work_hits(pattern: Seq<char>, work: Seq<(Seq<char>, Tree)>) -> Seq<Hit>
    decreases work.len(),
{
    if work.len() == 0 {
        Seq::empty()
    } else {
        tree_hits(pattern, work.last().0, work.last().1) + work_hits(pattern, work.drop_last())
    }
}

/// Trees taken together are as large as their parts.
pub proof fn lemma_total_size_add(a: Seq<(Seq<char>, Tree)>, b: Seq<(Seq<char>, Tree)>)
    ensures
        total_size(a + b) == total_size(a) + total_size(b),
    decreases a.len(),
{
    if a.len() == 0 {
        assert(a + b =~= b);
    } else {
        let rest = a.subrange(1, a.len() as int);
        lemma_total_size_add(rest, b);
        assert((a + b).subrange(1, (a + b).len() as int) =~= rest + b);
    }
}

/// One tree taken together is as large as it is.
pub proof fn lemma_total_size_one(entry: (Seq<char>, Tree))
    ensures
        total_size(seq![entry]) == size(entry.1),
{
    assert(seq![entry].subrange(1, 1) =~= Seq::empty());
    assert(total_size(Seq::empty()) == 0);
}

/// The visited entries of a directory are no larger than all its entries.
pub proof fn lemma_stacked_size(dir: Seq<char>, entries: Seq<(Seq<char>, Tree)>)
    ensures
        total_size(stacked_trees(dir, entries)) <= total_size(entries),
    decreases entries.len(),
{
    if entries.len() > 0 {
        let rest = entries.subrange(1, entries.len() as int);
        let later = stacked_trees(dir, rest);
        lemma_stacked_size(dir, rest);
        if visited(entries[0].0) {
            let child = (join(dir, entries[0].0), entries[0].1);
            lemma_total_size_add(later, seq![child]);
            lemma_total_size_one(child);
            assert(later.push(child) =~= later + seq![child]);
        }
    }
}

/// Looking at a path leaves less to visit.
pub proof fn lemma_work_shrinks(work: Seq<(Seq<char>, Tree)>)
    requires
        work.len() > 0,
    ensures
        total_size(work_after(work)) < total_size(work),
{
    let rest = work.drop_last();
    let last = work.last();
    assert(work =~= rest + seq![last]);
    lemma_total_size_add(rest, seq![last]);
    lemma_total_size_one(last);
    match last.1 {
        Tree::Directory(entries) => {
            lemma_stacked_size(last.0, entries);
            lemma_total_size_add(rest, stacked_trees(last.0, entries));
        },
        _ => {},
    }
}

/// The paths of the visited entries of a directory are the paths that a walk
/// puts on when it enters the directory.
pub proof fn lemma_stacked_names(dir: Seq<char>, entries: Seq<(Seq<char>, Tree)>)
    ensures
        names_of(stacked_trees(dir, entries)) == stacked(dir, names_of(entries)),
    decreases entries.len(),
{
    if entries.len() == 0 {
        assert(names_of(stacked_trees(dir, entries)) =~= Seq::empty());
    } else {
        let rest = entries.subrange(1, entries.len() as int);
        lemma_stacked_names(dir, rest);
        assert(names_of(entries).drop_first() =~= names_of(rest));
        assert(names_of(entries).first() == entries[0].0);
        let later = stacked_trees(dir, rest);
        if visited(entries[0].0) {
            let child = (join(dir, entries[0].0), entries[0].1);
            assert(names_of(later.push(child)) =~= names_of(later).push(child.0));
        }
    }
}

/// A step of the walk over `work` is the step that a walk takes when it is
/// told what lies at its next path.
pub proof fn lemma_step(pattern: Seq<char>, work: Seq<(Seq<char>, Tree)>)
    requires
        work.len() > 0,
    ensures
        names_of(work_after(work)) == pending_after(names_of(work), node_of(work.last().1)),
        hits_at(pattern, names_of(work), node_of(work.last().1)) == match work.last().1 {
            Tree::File(text) => scan(pattern, work.last().0, lines_of(text)),
            _ => Seq::<Hit>::empty(),
        },
{
    let rest = work.drop_last();
    let last = work.last();
    assert(names_of(work).drop_last() =~= names_of(rest));
    assert(names_of(work).last() == last.0);
    match last.1 {
        Tree::Directory(entries) => {
            lemma_stacked_names(last.0, entries);
            assert(names_of(rest + stacked_trees(last.0, entries)) =~= names_of(rest) + names_of(
                stacked_trees(last.0, entries),
            ));
        },
        _ => {},
    }
}

/// The hits in work put behind other work come before the hits in that.
pub proof fn lemma_work_hits_add(
    pattern: Seq<char>,
    a: Seq<(Seq<char>, Tree)>,
    b: Seq<(Seq<char>, Tree)>,
)
    ensures
        work_hits(pattern, a + b) == work_hits(pattern, b) + work_hits(pattern, a),
    decreases b.len(),
{
    if b.len() == 0 {
        assert(a + b =~= a);
        assert(work_hits(pattern, b) + work_hits(pattern, a) =~= work_hits(pattern, a));
    } else {
        lemma_work_hits_add(pattern, a, b.drop_last());
        assert((a + b).drop_last() =~= a + b.drop_last());
        assert((a + b).last() == b.last());
        assert(tree_hits(pattern, b.last().0, b.last().1) + (work_hits(pattern, b.drop_last())
            + work_hits(pattern, a)) =~= (tree_hits(pattern, b.last().0, b.last().1) + work_hits(
            pattern,
            b.drop_last(),
        )) + work_hits(pattern, a));
    }
}

/// The hits in the visited entries of a directory, as a walk has stacked
/// them, are the hits of the directory.
pub proof fn lemma_stacked_hits(
    pattern: Seq<char>,
    dir: Seq<char>,
    entries: Seq<(Seq<char>, Tree)>,
)
    ensures
        work_hits(pattern, stacked_trees(dir, entries)) == entries_hits(pattern, dir, entries),
    decreases entries.len(),
{
    if entries.len() > 0 {
        let rest = entries.subrange(1, entries.len() as int);
        let later = stacked_trees(dir, rest);
        lemma_stacked_hits(pattern, dir, rest);
        if visited(entries[0].0) {
            let child = (join(dir, entries[0].0), entries[0].1);
            assert(later.push(child).drop_last() =~= later);
            assert(later.push(child).last() == child);
        }
    }
}

/// A walk ends with the hits it had, followed by the hits in all that was
/// left to visit, those of the next path first.
pub proof fn lemma_walk_end(pattern: Seq<char>, work: Seq<(Seq<char>, Tree)>, found: Seq<Hit>)
    ensures
        walk_end(pattern, work, found) == found + work_hits(pattern, work),
    decreases total_size(work),
{
    if work.len() == 0 {
        assert(found + work_hits(pattern, work) =~= found);
    } else {
        let rest = work.drop_last();
        let last = work.last();
        let here = hits_at(pattern, names_of(work), node_of(last.1));
        lemma_work_shrinks(work);
        lemma_step(pattern, work);
        lemma_walk_end(pattern, work_after(work), found + here);
        match last.1 {
            Tree::Directory(entries) => {
                lemma_work_hits_add(pattern, rest, stacked_trees(last.0, entries));
                lemma_stacked_hits(pattern, last.0, entries);
                assert(found + here =~= found);
            },
            _ => {},
        }
        assert((found + here) + work_hits(pattern, work_after(work)) =~= found + work_hits(
            pattern,
            work,
        ));
    }
}

/// A walk that starts at the top of a tree and is told at every step what
/// lies at its next path ends with exactly the hits of the tree, in the order
/// in which the tree is told.
pub proof fn lemma_walk_finds_tree(pattern: Seq<char>, root: Seq<char>, tree: Tree)
    ensures
        walk_end(pattern, seq![(root, tree)], Seq::empty()) == tree_hits(pattern, root, tree),
{
    let work = seq![(root, tree)];
    lemma_walk_end(pattern, work, Seq::empty());
    assert(work.drop_last() =~= Seq::empty());
    assert(work_hits(pattern, Seq::empty()) =~= Seq::empty());
    assert(work_hits(pattern, work) =~= tree_hits(pattern, root, tree));
    assert(Seq::<Hit>::empty() + tree_hits(pattern, root, tree) =~= tree_hits(
        pattern,
        root,
        tree,
    ));
}

} // verus!
