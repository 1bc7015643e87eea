//! Where a repository lies on disk, and paths told from there.
//!
//! A hit names the file it was found in. Inside a repository that file is
//! named from the repository down: the name of the repository first, then
//! every step from its directory to the file, with `/` between them.

use vstd::prelude::*;
use crate::identity::{Project, ProjectView};
use crate::path::{
    chain, components, descent, is_dot, is_dot_dot, is_entry_name, join, joined,
    lemma_components_shape, rooted, split_components, texts,
};
use crate::text::{push_chars, same_chars, to_chars};

verus! {

/// The directory of the repository `project` below the resource directory
/// `resources`: that of its owner, extended by its name.
pub open spec fn project_root(resources: Seq<char>, project: ProjectView) -> Seq<char> {
    join(join(resources, project.owner), project.name)
}

/// The path `path` as it is told from the directory `root` down, when that
/// directory goes by the name `name`: the name, then each step from `root`
/// down to `path`. There is none if `path` does not lie at or below `root`.
pub open spec fn told_from(name: Seq<char>, root: Seq<char>, path: Seq<char>) -> Option<
    Seq<char>,
> {
    match descent(root, path) {
        Some(steps) => Some(chain(name, steps)),
        None => None,
    }
}

/// The path `path` as it is told from the repository `project` down, if it
/// lies in that repository.
pub open spec fn relative_path(resources: Seq<char>, project: ProjectView, path: Seq<char>)
    -> Option<Seq<char>> {
    told_from(project.name, project_root(resources, project), path)
}

/// Whether the path spelled by `p` starts at the root.
fn is_rooted(p: &Vec<char>) -> (r: bool)
    ensures
        r == rooted(p@),
{
    p.len() > 0 && p[0] == '/'
}

/// `head` followed by the components `parts[from..]`, every one behind a `/`,
/// if each of them is an entry name.
fn chain_from(head: &String, parts: &Vec<Vec<char>>, from: usize) -> (r: Option<String>)
    requires
        from <= parts.len(),
        forall|i: int|
            0 <= i < parts.len() ==> (#[trigger] parts[i])@.len() > 0 && forall|j: int|
                0 <= j < parts[i]@.len() ==> parts[i]@[j] != '/',
    ensures
        r.is_some() == (forall|i: int|
            from <= i < parts.len() ==> is_entry_name(#[trigger] texts(parts@)[i])),
        r matches Some(s) ==> s@ == chain(
            head@,
            texts(parts@).subrange(from as int, parts.len() as int),
        ),
{
    let mut out = head.clone();
    let mut k: usize = from;
    assert(texts(parts@).subrange(from as int, from as int) =~= Seq::empty());
    while k < parts.len()
        invariant
            from <= k <= parts.len(),
            forall|i: int|
                0 <= i < parts.len() ==> (#[trigger] parts[i])@.len() > 0 && forall|j: int|
                    0 <= j < parts[i]@.len() ==> parts[i]@[j] != '/',
            forall|i: int| from <= i < k ==> is_entry_name(#[trigger] texts(parts@)[i]),
            out@ == chain(head@, texts(parts@).subrange(from as int, k as int)),
        decreases parts.len() - k,
    {
        assert(texts(parts@)[k as int] == parts[k as int]@);
        if is_dot(&parts[k]) || is_dot_dot(&parts[k]) {
            return None;
        }
        proof {
            let upto = texts(parts@).subrange(from as int, k + 1);
            assert(upto.drop_last() =~= texts(parts@).subrange(from as int, k as int));
            assert(upto.last() == parts[k as int]@);
        }
        out.push('/');
        push_chars(&mut out, &parts[k]);
        k += 1;
    }
    Some(out)
}

impl Project {
    /// The directory of this repository below the resource directory
    /// `resources`.
    pub fn get_path(&self, resources: &str) -> (r: String)
        ensures
            r@ == project_root(resources@, self@),
    {
        let owner = joined(resources, self.owner.as_str());
        joined(owner.as_str(), self.name.as_str())
    }

    /// The path `path` as it is told from this repository down: the name of
    /// the repository, then each step from its directory to `path`.
    ///
    /// There is no such path unless `path` lies in the directory of the
    /// repository, spelled in whatever way, and each step down from there is
    /// the name of an entry.
    pub fn get_path_until_project(&self, resources: &str, path: &str) -> (r: Option<String>)
        ensures
            r.is_some() == relative_path(resources@, self@, path@).is_some(),
            r matches Some(s) ==> Some(s@) == relative_path(resources@, self@, path@),
    {
        let root = self.get_path(resources);
        tell_from(&self.name, root.as_str(), path)
    }
}

/// The path `path` as it is told from the directory `root` down, when that
/// directory goes by the name `name`.
pub fn tell_from(name: &String, root: &str, path: &str) -> (r: Option<String>)
    ensures
        r.is_some() == told_from(name@, root@, path@).is_some(),
        r matches Some(s) ==> Some(s@) == told_from(name@, root@, path@),
{
    let top = to_chars(root);
    let full = to_chars(path);
    if is_rooted(&top) != is_rooted(&full) {
        return None;
    }
    let above = split_components(&top);
    let all = split_components(&full);
    if above.len() > all.len() {
        return None;
    }
    let mut i: usize = 0;
    while i < above.len()
        invariant
            i <= above.len() <= all.len(),
            top@ == root@,
            full@ == path@,
            texts(above@) == components(top@),
            texts(all@) == components(full@),
            forall|j: int| 0 <= j < i ==> above[j]@ == all[j]@,
        decreases above.len() - i,
    {
        if !same_chars(&above[i], &all[i]) {
            proof {
                let c = components(full@);
                let r = components(top@);
                assert(c.subrange(0, r.len() as int)[i as int] == texts(all@)[i as int]);
                assert(r[i as int] == texts(above@)[i as int]);
            }
            return None;
        }
        i += 1;
    }
    proof {
        lemma_components_shape(full@);
        assert(components(full@).subrange(0, above.len() as int) =~= components(top@)) by {
            assert forall|j: int| 0 <= j < above.len() implies components(full@)[j] == components(
                top@,
            )[j] by {
                assert(texts(all@)[j] == all[j]@);
                assert(texts(above@)[j] == above[j]@);
            }
        }
        assert forall|i: int| 0 <= i < all.len() implies (#[trigger] all[i])@.len() > 0
            && forall|j: int| 0 <= j < all[i]@.len() ==> all[i]@[j] != '/' by {
            assert(components(full@)[i] == all[i]@);
        }
    }
    chain_from(name, &all, above.len())
}

} // verus!
