use vstd::prelude::*;
use vstd::string::*;
use crate::paths::{strs, add_all, push_unique, lemma_add_all_no_duplicates};

verus! {

/// `path` lies under the directory `root`: `root` is a prefix of it that ends
/// at a separator, or at the end of `path`.
pub open spec fn is_under(root: Seq<char>, path: Seq<char>) -> bool {
    root.len() <= path.len() && path.subrange(0, root.len() as int) == root && (path.len()
        == root.len() || (root.len() > 0 && root.last() == '/') || path[root.len() as int] == '/')
}

/// The index of the deepest root that holds `path`; among equally deep ones
/// the first. `None` when no root holds it.
pub open spec fn deepest(roots: Seq<Seq<char>>, path: Seq<char>) -> Option<int>
    decreases roots.len(),
{
    if roots.len() == 0 {
        None
    } else {
        let b = deepest(roots.drop_last(), path);
        let i = roots.len() - 1;
        if is_under(roots[i], path) && (b.is_none() || roots[b.unwrap()].len() < roots[i].len()) {
            Some(i)
        } else {
            b
        }
    }
}

/// The owning root of each path that has one, in the order of `paths`.
pub open spec fn owners(roots: Seq<Seq<char>>, paths: Seq<Seq<char>>) -> Seq<Seq<char>>
    decreases paths.len(),
{
    if paths.len() == 0 {
        Seq::empty()
    } else {
        let rest = owners(roots, paths.drop_last());
        match deepest(roots, paths.last()) {
            Some(i) => rest.push(roots[i]),
            None => rest,
        }
    }
}

/// Whether `path` lies under the directory `root`.
pub fn is_under_root(root: &String, path: &String) -> (r: bool)
    ensures
        r == is_under(root@, path@),
{
    let rs = root.as_str();
    let ps = path.as_str();
    let rl = rs.unicode_len();
    let pl = ps.unicode_len();
    if rl > pl {
        return false;
    }
    let mut i: usize = 0;
    while i < rl
        invariant
            0 <= i <= rl,
            rl == root@.len(),
            pl == path@.len(),
            rl <= pl,
            rs@ == root@,
            ps@ == path@,
            forall|j: int| 0 <= j < i ==> path@[j] == root@[j],
        decreases rl - i,
    {
        if rs.get_char(i) != ps.get_char(i) {
            assert(path@.subrange(0, rl as int)[i as int] != root@[i as int]);
            return false;
        }
        i += 1;
    }
    assert(path@.subrange(0, rl as int) =~= root@);
    if rl == pl {
        return true;
    }
    if rl > 0 && rs.get_char(rl - 1) == '/' {
        return true;
    }
    ps.get_char(rl) == '/'
}

/// The index of the deepest of `roots` that holds `path`, if any.
pub fn deepest_root(roots: &Vec<String>, path: &String) -> (r: Option<usize>)
    ensures
        match r {
            Some(i) => deepest(strs(roots@), path@) == Some(i as int),
            None => deepest(strs(roots@), path@).is_none(),
        },
{
    let ghost rs = strs(roots@);
    let mut best: Option<usize> = None;
    let mut i: usize = 0;
    while i < roots.len()
        invariant
            0 <= i <= roots.len(),
            rs == strs(roots@),
            match best {
                Some(b) => deepest(rs.subrange(0, i as int), path@) == Some(b as int),
                None => deepest(rs.subrange(0, i as int), path@).is_none(),
            },
            forall|b: usize| best == Some(b) ==> b < i,
        decreases roots.len() - i,
    {
        let ghost pre = rs.subrange(0, i as int);
        assert(rs.subrange(0, i + 1).drop_last() =~= pre);
        assert(rs.subrange(0, i + 1)[i as int] == roots@[i as int]@);
        proof {
            lemma_deepest_root_wins(pre, path@);
        }
        if is_under_root(&roots[i], path) {
            match best {
                None => {
                    best = Some(i);
                },
                Some(b) => {
                    assert(rs.subrange(0, i + 1)[b as int] == roots@[b as int]@);
                    if roots[b].as_str().unicode_len() < roots[i].as_str().unicode_len() {
                        best = Some(i);
                    }
                },
            }
        } else {
            assert(deepest(rs.subrange(0, i + 1), path@) == deepest(pre, path@));
        }
        i += 1;
    }
    assert(rs.subrange(0, i as int) =~= rs);
    best
}

/// The roots that own at least one of `changed`, each once, in the order in
/// which the changed paths first reach them. A path under several nested
/// roots belongs to the deepest of them.
pub fn affected_packages(changed: &Vec<String>, roots: &Vec<String>) -> (r: Vec<String>)
    ensures
        strs(r@) == add_all(Seq::empty(), owners(strs(roots@), strs(changed@))),
        strs(r@).no_duplicates(),
{
    let ghost rs = strs(roots@);
    let ghost ps = strs(changed@);
    let mut r: Vec<String> = Vec::new();
    let mut i: usize = 0;
    while i < changed.len()
        invariant
            0 <= i <= changed.len(),
            rs == strs(roots@),
            ps == strs(changed@),
            strs(r@) == add_all(Seq::empty(), owners(rs, ps.subrange(0, i as int))),
        decreases changed.len() - i,
    {
        let ghost pre = ps.subrange(0, i as int);
        assert(ps.subrange(0, i + 1).drop_last() =~= pre);
        assert(ps.subrange(0, i + 1).last() == changed@[i as int]@);
        proof {
            lemma_deepest_root_wins(rs, changed@[i as int]@);
        }
        match deepest_root(roots, &changed[i]) {
            Some(j) => {
                let ghost acc = owners(rs, pre);
                assert(deepest(rs, changed@[i as int]@) == Some(j as int));
                assert(owners(rs, ps.subrange(0, i + 1)) == acc.push(roots@[j as int]@));
                assert(acc.push(roots@[j as int]@).drop_last() =~= acc);
                push_unique(&mut r, &roots[j]);
            },
            None => {},
        }
        i += 1;
    }
    assert(ps.subrange(0, i as int) =~= ps);
    proof {
        lemma_add_all_no_duplicates(Seq::empty(), owners(rs, ps));
    }
    r
}

/// The root picked for a path holds it, and no root that holds it is deeper;
/// when none is picked, no root holds it.
pub proof fn lemma_deepest_root_wins(roots: Seq<Seq<char>>, path: Seq<char>)
    ensures
        match deepest(roots, path) {
            Some(i) => 0 <= i < roots.len() && is_under(roots[i], path) && forall|j: int|
                0 <= j < roots.len() && is_under(roots[j], path) ==> roots[j].len() <= roots[i].len(),
            None => forall|j: int| 0 <= j < roots.len() ==> !is_under(roots[j], path),
        },
    decreases roots.len(),
{
    if roots.len() > 0 {
        let rest = roots.drop_last();
        lemma_deepest_root_wins(rest, path);
        assert forall|j: int| 0 <= j < rest.len() implies rest[j] == roots[j] by {}
    }
}

} // verus!
