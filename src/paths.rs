use vstd::prelude::*;

verus! {

/// The characters of each string of a sequence.
pub open spec fn strs(v: Seq<String>) -> Seq<Seq<char>> {
    v.map_values(|s: String| s@)
}

/// `acc` with `x` appended, unless `acc` already holds it.
pub open spec fn push_new(acc: Seq<Seq<char>>, x: Seq<char>) -> Seq<Seq<char>> {
    if acc.contains(x) {
        acc
    } else {
        acc.push(x)
    }
}

/// `acc` extended by each item of `items` in order, skipping those already present.
pub open spec fn add_all(acc: Seq<Seq<char>>, items: Seq<Seq<char>>) -> Seq<Seq<char>>
    decreases items.len(),
{
    if items.len() == 0 {
        acc
    } else {
        push_new(add_all(acc, items.drop_last()), items.last())
    }
}

/// `l` with every occurrence of `x` taken out, the rest in order.
pub open spec fn without(l: Seq<Seq<char>>, x: Seq<char>) -> Seq<Seq<char>>
    decreases l.len(),
{
    if l.len() == 0 {
        l
    } else if l.last() == x {
        without(l.drop_last(), x)
    } else {
        without(l.drop_last(), x).push(l.last())
    }
}

pub proof fn lemma_add_all_contains(acc: Seq<Seq<char>>, items: Seq<Seq<char>>, x: Seq<char>)
    ensures
        add_all(acc, items).contains(x) <==> (acc.contains(x) || items.contains(x)),
    decreases items.len(),
{
    if items.len() > 0 {
        lemma_add_all_contains(acc, items.drop_last(), x);
        let prev = add_all(acc, items.drop_last());
        if items.contains(x) && !acc.contains(x) && x != items.last() {
            let i = choose|i: int| 0 <= i < items.len() && items[i] == x;
            assert(items.drop_last()[i] == x);
        }
        if items.drop_last().contains(x) {
            let i = choose|i: int| 0 <= i < items.drop_last().len() && items.drop_last()[i] == x;
            assert(items[i] == x);
        }
        if x == items.last() {
            assert(items[items.len() - 1] == x);
        }
        if !prev.contains(x) {
            assert(prev.push(items.last()).contains(x) ==> x == items.last()) by {
                if prev.push(items.last()).contains(x) {
                    let i = choose|i: int|
                        0 <= i < prev.push(items.last()).len() && prev.push(items.last())[i] == x;
                    if i < prev.len() {
                        assert(prev[i] == x);
                    }
                }
            }
        }
        if prev.contains(x) {
            let i = choose|i: int| 0 <= i < prev.len() && prev[i] == x;
            assert(prev.push(items.last())[i] == x);
        }
        assert(prev.push(items.last())[prev.len() as int] == items.last());
    }
}

pub proof fn lemma_add_all_no_duplicates(acc: Seq<Seq<char>>, items: Seq<Seq<char>>)
    requires
        acc.no_duplicates(),
    ensures
        add_all(acc, items).no_duplicates(),
    decreases items.len(),
{
    if items.len() > 0 {
        lemma_add_all_no_duplicates(acc, items.drop_last());
        let prev = add_all(acc, items.drop_last());
        if !prev.contains(items.last()) {
            let n = prev.push(items.last());
            assert forall|i: int, j: int| 0 <= i < n.len() && 0 <= j < n.len() && i != j implies n[i]
                != n[j] by {
                if i < prev.len() && j < prev.len() {
                } else if i < prev.len() {
                    assert(prev[i] == n[i]);
                } else {
                    assert(prev[j] == n[j]);
                }
            }
        }
    }
}

pub proof fn lemma_add_all_append(acc: Seq<Seq<char>>, a: Seq<Seq<char>>, b: Seq<Seq<char>>)
    ensures
        add_all(acc, a + b) == add_all(add_all(acc, a), b),
    decreases b.len(),
{
    if b.len() == 0 {
        assert(a + b == a);
    } else {
        assert((a + b).drop_last() == a + b.drop_last());
        assert((a + b).last() == b.last());
        lemma_add_all_append(acc, a, b.drop_last());
    }
}

/// Appends `x` to `v` unless `v` already holds it.
pub fn push_unique(v: &mut Vec<String>, x: &String)
    ensures
        strs(final(v)@) == push_new(strs(old(v)@), x@),
{
    let mut i: usize = 0;
    while i < v.len()
        invariant
            0 <= i <= v.len(),
            forall|j: int| 0 <= j < i ==> v@[j]@ != x@,
        decreases v.len() - i,
    {
        if v[i] == *x {
            assert(strs(v@)[i as int] == x@);
            return;
        }
        i += 1;
    }
    assert(!strs(v@).contains(x@)) by {
        if strs(v@).contains(x@) {
            let j = choose|j: int| 0 <= j < strs(v@).len() && strs(v@)[j] == x@;
            assert(v@[j]@ == x@);
        }
    }
    let ghost before = v@;
    v.push(x.clone());
    assert(strs(v@) =~= strs(before).push(x@));
}

/// Appends each of `items` to `v`, in order, skipping those already present.
pub fn extend_unique(v: &mut Vec<String>, items: &Vec<String>)
    ensures
        strs(final(v)@) == add_all(strs(old(v)@), strs(items@)),
{
    let ghost start = strs(v@);
    let mut i: usize = 0;
    while i < items.len()
        invariant
            0 <= i <= items.len(),
            strs(v@) == add_all(start, strs(items@).subrange(0, i as int)),
        decreases items.len() - i,
    {
        assert(strs(items@).subrange(0, i + 1).drop_last() =~= strs(items@).subrange(0, i as int));
        push_unique(v, &items[i]);
        i += 1;
    }
    assert(strs(items@).subrange(0, i as int) =~= strs(items@));
}

} // verus!
