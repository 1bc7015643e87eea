//! Paths as plain text.
//!
//! A path is a string whose segments are separated by `/`. Two spellings name
//! the same place when they have the same components: empty segments and `.`
//! segments are skipped, except for a `.` that starts the path, and a leading
//! `/` makes the path rooted.

use vstd::prelude::*;
use vstd::string::StringExecFns;
use crate::text::{copy_range, from_chars, to_chars};

verus! {

/// The index of the last `/` in `p`, or `-1` if there is none.
pub open spec fn last_separator(p: Seq<char>) -> int
    decreases p.len(),
{
    if p.len() == 0 {
        -1
    } else if p.last() == '/' {
        p.len() - 1
    } else {
        last_separator(p.drop_last())
    }
}

/// Whether `p` starts at the root.
pub open spec fn rooted(p: Seq<char>) -> bool {
    p.len() > 0 && p[0] == '/'
}

/// The components of `p`, first to last.
///
/// The text after the last `/` is the last component unless it is empty or a
/// `.`; the components before it are those of the text in front of that `/`.
/// Text without any `/` is a single component, whatever it is, unless it is
/// empty.
pub open spec fn components(p: Seq<char>) -> Seq<Seq<char>>
    decreases p.len(),
{
    let k = last_separator(p);
    if 0 <= k < p.len() {
        let tail = p.subrange(k + 1, p.len() as int);
        let head = components(p.subrange(0, k));
        if tail.len() == 0 || tail == seq!['.'] {
            head
        } else {
            head.push(tail)
        }
    } else if p.len() == 0 {
        Seq::empty()
    } else {
        seq![p]
    }
}

/// Whether `s` can name a file or a directory: it is not empty, holds no `/`
/// and is neither `.` nor `..`.
pub open spec fn is_entry_name(s: Seq<char>) -> bool {
    &&& s.len() > 0
    &&& s != seq!['.']
    &&& s != seq!['.', '.']
    &&& forall|i: int| 0 <= i < s.len() ==> s[i] != '/'
}

/// The name of the entry that `p` leads to: its last component, unless that is
/// `.` or `..` or `p` has no component at all.
pub open spec fn file_name(p: Seq<char>) -> Option<Seq<char>> {
    let c = components(p);
    if c.len() > 0 && c.last() != seq!['.'] && c.last() != seq!['.', '.'] {
        Some(c.last())
    } else {
        None
    }
}

/// Whether `a` and `b` name the same place.
pub open spec fn same_path(a: Seq<char>, b: Seq<char>) -> bool {
    rooted(a) == rooted(b) && components(a) == components(b)
}

/// `base` extended by `seg`. A rooted `seg` replaces `base`; otherwise a `/`
/// is put between the two unless `base` is empty or already ends in one.
pub open spec fn join(base: Seq<char>, seg: Seq<char>) -> Seq<char> {
    if rooted(seg) {
        seg
    } else if base.len() == 0 || base.last() == '/' {
        base + seg
    } else {
        base + seq!['/'] + seg
    }
}

/// The components that lead from `root` down to `path`, if `path` lies at or
/// below `root` and every step down is an entry name.
pub open spec fn descent(root: Seq<char>, path: Seq<char>) -> Option<Seq<Seq<char>>> {
    let r = components(root);
    let c = components(path);
    if rooted(root) == rooted(path) && r.len() <= c.len() && c.subrange(0, r.len() as int) == r
        && forall|i: int| r.len() <= i < c.len() ==> is_entry_name(#[trigger] c[i]) {
        Some(c.subrange(r.len() as int, c.len() as int))
    } else {
        None
    }
}

/// `head` followed by each of `segs`, every one behind a `/`.
pub open spec fn chain(head: Seq<char>, segs: Seq<Seq<char>>) -> Seq<char>
    decreases segs.len(),
{
    if segs.len() == 0 {
        head
    } else {
        chain(head, segs.drop_last()) + seq!['/'] + segs.last()
    }
}

/// The texts that a vector of character vectors holds.
pub open spec fn texts(v: Seq<Vec<char>>) -> Seq<Seq<char>> {
    v.map_values(|x: Vec<char>| x@)
}

/// `last_separator` is the one index that holds a `/` with none behind it.
pub proof fn lemma_last_separator(p: Seq<char>, k: int)
    requires
        -1 <= k < p.len(),
        k >= 0 ==> p[k] == '/',
        forall|j: int| k < j < p.len() ==> p[j] != '/',
    ensures
        last_separator(p) == k,
    decreases p.len(),
{
    if p.len() > 0 && p.last() != '/' {
        lemma_last_separator(p.drop_last(), k);
    }
}

/// `last_separator` stays below the length, and no `/` follows it.
pub proof fn lemma_last_separator_bounds(p: Seq<char>)
    ensures
        -1 <= last_separator(p) < p.len(),
        last_separator(p) >= 0 ==> p[last_separator(p)] == '/',
        forall|j: int| last_separator(p) < j < p.len() ==> p[j] != '/',
    decreases p.len(),
{
    if p.len() > 0 && p.last() != '/' {
        let q = p.drop_last();
        lemma_last_separator_bounds(q);
        assert forall|j: int| last_separator(p) < j < p.len() implies p[j] != '/' by {
            if j < q.len() {
                assert(q[j] == p[j]);
            }
        }
    }
}

/// No component is empty or holds a `/`, and only the first can be a `.`.
pub proof fn lemma_components_shape(p: Seq<char>)
    ensures
        forall|i: int|
            0 <= i < components(p).len() ==> {
                let c = #[trigger] components(p)[i];
                &&& c.len() > 0
                &&& forall|j: int| 0 <= j < c.len() ==> c[j] != '/'
                &&& i > 0 ==> c != seq!['.']
            },
        rooted(p) && components(p).len() > 0 ==> components(p)[0] != seq!['.'],
    decreases p.len(),
{
    let k = last_separator(p);
    lemma_last_separator_bounds(p);
    if 0 <= k < p.len() {
        let head = p.subrange(0, k);
        lemma_components_shape(head);
        let tail = p.subrange(k + 1, p.len() as int);
        if k > 0 {
            assert(head[0] == p[0]);
        } else {
            assert(components(head) =~= Seq::empty());
        }
        if rooted(p) && components(p).len() > 0 && components(head).len() == 0 && k > 0 {
            assert(rooted(head));
        }
        assert(tail == seq!['.'] ==> tail.len() == 1);
    } else if p.len() > 0 {
        assert(seq![p][0] == p);
        if rooted(p) {
            assert(p[0] == '/');
        }
    }
}

/// The name of the entry that a path leads to is an entry name.
pub proof fn lemma_file_name_is_entry_name(p: Seq<char>)
    requires
        file_name(p) is Some,
    ensures
        is_entry_name(file_name(p).unwrap()),
{
    lemma_components_shape(p);
    let c = components(p);
    assert(c[c.len() - 1] == c.last());
}

/// Extending a path by an entry name adds that name as its last component
/// and leaves the path rooted or not as it was.
pub proof fn lemma_join_components(base: Seq<char>, name: Seq<char>)
    requires
        is_entry_name(name),
    ensures
        components(join(base, name)) == components(base).push(name),
        rooted(join(base, name)) == rooted(base),
        file_name(join(base, name)) == Some(name),
{
    let j = join(base, name);
    if base.len() == 0 {
        assert(j =~= name);
        lemma_last_separator(name, -1);
        assert(components(base) =~= Seq::empty());
        assert(components(j) =~= components(base).push(name));
    } else if base.last() == '/' {
        let k = base.len() - 1;
        lemma_last_separator(j, k);
        assert(j.subrange(k + 1, j.len() as int) =~= name);
        assert(j.subrange(0, k) =~= base.subrange(0, k));
        assert(base.subrange(k + 1, base.len() as int) =~= Seq::empty());
        assert(j[0] == base[0]);
    } else {
        let k = base.len() as int;
        lemma_last_separator(j, k);
        assert(j.subrange(k + 1, j.len() as int) =~= name);
        assert(j.subrange(0, k) =~= base);
        assert(j[0] == base[0]);
    }
    assert(name == seq!['.'] ==> false);
}

/// Nothing leads from `root` down to `path` exactly if the two name the same
/// place.
pub proof fn lemma_descent_nowhere(root: Seq<char>, path: Seq<char>)
    ensures
        descent(root, path) == Some(Seq::<Seq<char>>::empty()) <==> same_path(root, path),
{
    let r = components(root);
    let c = components(path);
    if same_path(root, path) {
        assert(c.subrange(0, r.len() as int) =~= r);
        assert(c.subrange(r.len() as int, c.len() as int) =~= Seq::empty());
    }
    if descent(root, path) == Some(Seq::<Seq<char>>::empty()) {
        assert(c.subrange(r.len() as int, c.len() as int).len() == 0);
        assert(c.subrange(0, r.len() as int) =~= c);
    }
}

/// Every path lies at itself.
pub proof fn lemma_descent_self(root: Seq<char>)
    ensures
        descent(root, root) == Some(Seq::<Seq<char>>::empty()),
{
    let r = components(root);
    assert(r.subrange(0, r.len() as int) =~= r);
    assert(r.subrange(r.len() as int, r.len() as int) =~= Seq::empty());
}

/// A step down from a path below `root`, by an entry name, stays below
/// `root`, one component deeper.
pub proof fn lemma_descent_step(root: Seq<char>, path: Seq<char>, name: Seq<char>)
    requires
        descent(root, path) is Some,
        is_entry_name(name),
    ensures
        descent(root, join(path, name)) == Some(descent(root, path).unwrap().push(name)),
{
    lemma_join_components(path, name);
    let r = components(root);
    let c = components(path);
    let d = components(join(path, name));
    assert(d.subrange(0, r.len() as int) =~= c.subrange(0, r.len() as int));
    assert(d.subrange(r.len() as int, d.len() as int) =~= c.subrange(
        r.len() as int,
        c.len() as int,
    ).push(name));
    assert forall|i: int| r.len() <= i < d.len() implies is_entry_name(#[trigger] d[i]) by {
        if i < c.len() {
            assert(d[i] == c[i]);
        }
    }
}

/// What lies below a path that lies below `a` lies below `a`, and the way
/// down is the one way followed by the other.
pub proof fn lemma_descent_chain(a: Seq<char>, b: Seq<char>, c: Seq<char>)
    requires
        descent(a, b) is Some,
        descent(b, c) is Some,
    ensures
        descent(a, c) == Some(descent(a, b).unwrap() + descent(b, c).unwrap()),
{
    let ca = components(a);
    let cb = components(b);
    let cc = components(c);
    assert(cc.subrange(0, ca.len() as int) =~= cb.subrange(0, ca.len() as int)) by {
        assert forall|i: int| 0 <= i < ca.len() implies cc[i] == cb[i] by {
            assert(cc.subrange(0, cb.len() as int)[i] == cb[i]);
        }
    }
    assert forall|i: int| ca.len() <= i < cc.len() implies is_entry_name(#[trigger] cc[i]) by {
        if i < cb.len() {
            assert(cc.subrange(0, cb.len() as int)[i] == cb[i]);
        }
    }
    assert(cc.subrange(ca.len() as int, cc.len() as int) =~= cb.subrange(
        ca.len() as int,
        cb.len() as int,
    ) + cc.subrange(cb.len() as int, cc.len() as int)) by {
        assert forall|i: int| ca.len() <= i < cb.len() implies cc[i] == cb[i] by {
            assert(cc.subrange(0, cb.len() as int)[i] == cb[i]);
        }
    }
}

/// Whether `s` is the text `.`.
pub fn is_dot(s: &Vec<char>) -> (r: bool)
    ensures
        r == (s@ == seq!['.']),
{
    let r = s.len() == 1 && s[0] == '.';
    assert(r ==> s@ =~= seq!['.']);
    assert(s@ == seq!['.'] ==> s@.len() == 1 && s@[0] == '.');
    r
}

/// Whether `s` is the text `..`.
pub fn is_dot_dot(s: &Vec<char>) -> (r: bool)
    ensures
        r == (s@ == seq!['.', '.']),
{
    let r = s.len() == 2 && s[0] == '.' && s[1] == '.';
    assert(r ==> s@ =~= seq!['.', '.']);
    assert(s@ == seq!['.', '.'] ==> s@.len() == 2 && s@[0] == '.' && s@[1] == '.');
    r
}

/// The components of the path spelled by `p`.
pub fn split_components(p: &Vec<char>) -> (out: Vec<Vec<char>>)
    ensures
        texts(out@) == components(p@),
{
    let mut out: Vec<Vec<char>> = Vec::new();
    let mut start: usize = 0;
    let mut i: usize = 0;
    assert(texts(out@) =~= Seq::empty());
    while i < p.len()
        invariant
            start <= i <= p.len(),
            forall|j: int| start <= j < i ==> p[j] != '/',
            start > 0 ==> p[start - 1] == '/',
            texts(out@) == (if start == 0 {
                Seq::<Seq<char>>::empty()
            } else {
                components(p@.subrange(0, start - 1))
            }),
        decreases p.len() - i,
    {
        if p[i] == '/' {
            let part = copy_range(p, start, i);
            proof {
                let q = p@.subrange(0, i as int);
                lemma_last_separator(q, start - 1);
                assert(q.subrange(start as int, q.len() as int) =~= part@);
                if start > 0 {
                    assert(q.subrange(0, start - 1) =~= p@.subrange(0, start - 1));
                }
            }
            if part.len() > 0 && !(start > 0 && is_dot(&part)) {
                let ghost before = out@;
                out.push(part);
                assert(texts(out@) =~= texts(before).push(part@));
            }
            start = i + 1;
        }
        i += 1;
    }
    let part = copy_range(p, start, i);
    proof {
        lemma_last_separator(p@, start - 1);
        if start > 0 {
            assert(p@.subrange(start as int, p@.len() as int) =~= part@);
        } else {
            assert(part@ =~= p@);
        }
    }
    if part.len() > 0 && !(start > 0 && is_dot(&part)) {
        let ghost before = out@;
        out.push(part);
        assert(texts(out@) =~= texts(before).push(part@));
    }
    out
}

/// The name of the entry that the path spelled by `p` leads to, if it leads
/// to one.
pub fn final_name_chars(p: &Vec<char>) -> (name: Option<Vec<char>>)
    ensures
        name.is_some() == file_name(p@).is_some(),
        name matches Some(n) ==> Some(n@) == file_name(p@),
{
    let mut parts = split_components(p);
    match parts.pop() {
        Some(last) => {
            assert(texts(parts@.push(last)).last() == last@);
            if is_dot(&last) || is_dot_dot(&last) {
                None
            } else {
                Some(last)
            }
        },
        None => None,
    }
}

/// The name of the entry that `path` leads to, if it leads to one.
pub fn final_name(path: &str) -> (name: Option<String>)
    ensures
        name.is_some() == file_name(path@).is_some(),
        name matches Some(n) ==> Some(n@) == file_name(path@),
{
    let p = to_chars(path);
    match final_name_chars(&p) {
        Some(last) => {
            assert(last@.subrange(0, last.len() as int) =~= last@);
            Some(from_chars(&last, 0, last.len()))
        },
        None => None,
    }
}

/// `base` extended by `seg`.
pub fn joined(base: &str, seg: &str) -> (r: String)
    ensures
        r@ == join(base@, seg@),
{
    let b = to_chars(base);
    let s = to_chars(seg);
    if s.len() > 0 && s[0] == '/' {
        return seg.to_owned();
    }
    let mut out = base.to_owned();
    if b.len() > 0 && b[b.len() - 1] != '/' {
        out.push('/');
    }
    out.append(seg);
    assert(out@ =~= join(base@, seg@));
    out
}

} // verus!
