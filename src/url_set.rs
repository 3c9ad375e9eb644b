//! A `Vec<String>` used as a set of URLs: its contents as texts, and membership.
use vstd::prelude::*;

verus! {

/// The texts of the strings of `v`, in order.
pub open spec fn views(v: Seq<String>) -> Seq<Seq<char>> {
    v.map_values(|s: String| s@)
}

/// The set of texts held by `v`.
pub open spec fn set_of(v: Seq<String>) -> Set<Seq<char>> {
    views(v).to_set()
}

/// No text occurs twice in `v`.
pub open spec fn distinct(v: Seq<String>) -> bool {
    forall|i: int, j: int| 0 <= i < j < v.len() ==> v[i]@ != v[j]@
}

/// Whether `v` holds a string with the text of `s`.
pub fn contains_url(v: &Vec<String>, s: &String) -> (r: bool)
    ensures
        r == views(v@).contains(s@),
{
    let mut i: usize = 0;
    while i < v.len()
        invariant
            i <= v@.len(),
            forall|j: int| 0 <= j < i ==> v@[j]@ != s@,
        decreases v@.len() - i,
    {
        if v[i] == *s {
            assert(views(v@)[i as int] == s@);
            return true;
        }
        i = i + 1;
    }
    assert(!views(v@).contains(s@)) by {
        if views(v@).contains(s@) {
            let j = choose|j: int| 0 <= j < views(v@).len() && views(v@)[j] == s@;
            assert(v@[j]@ == s@);
        }
    }
    false
}

/// Adds `s` to `v` unless `v` already holds its text.
pub fn insert_url(v: &mut Vec<String>, s: String)
    requires
        distinct(old(v)@),
    ensures
        distinct(final(v)@),
        set_of(final(v)@) == set_of(old(v)@).insert(s@),
        views(old(v)@).contains(s@) ==> final(v)@ == old(v)@,
        !views(old(v)@).contains(s@) ==> final(v)@ == old(v)@.push(s),
{
    if !contains_url(v, &s) {
        proof {
            assert forall|j: int| 0 <= j < old(v)@.len() implies old(v)@[j]@ != s@ by {
                if old(v)@[j]@ == s@ {
                    assert(views(old(v)@)[j] == s@);
                }
            }
        }
        v.push(s);
        proof {
            assert(views(final(v)@) =~= views(old(v)@).push(s@));
            assert(set_of(final(v)@) =~= set_of(old(v)@).insert(s@)) by {
                views(old(v)@).lemma_push_to_set_commute(s@);
            }
        }
    } else {
        proof {
            assert(set_of(old(v)@) =~= set_of(old(v)@).insert(s@)) by {
                assert(set_of(old(v)@).contains(s@));
            }
        }
    }
}

/// Appends the strings of `src` to `dst`, in order.
pub fn append_urls(dst: &mut Vec<String>, src: &Vec<String>)
    ensures
        final(dst)@ == old(dst)@ + src@,
{
    let mut i: usize = 0;
    while i < src.len()
        invariant
            i <= src@.len(),
            dst@ == old(dst)@ + src@.take(i as int),
        decreases src@.len() - i,
    {
        dst.push(src[i].clone());
        assert(dst@ =~= old(dst)@ + src@.take(i + 1));
        i = i + 1;
    }
    assert(src@.take(src@.len() as int) =~= src@);
}

/// Adds to `dst` each string of `src` whose text it does not hold yet.
pub fn insert_all(dst: &mut Vec<String>, src: &Vec<String>)
    requires
        distinct(old(dst)@),
    ensures
        distinct(final(dst)@),
        set_of(final(dst)@) == set_of(old(dst)@).union(set_of(src@)),
{
    let mut i: usize = 0;
    while i < src.len()
        invariant
            i <= src@.len(),
            distinct(dst@),
            set_of(dst@) == set_of(old(dst)@).union(set_of(src@.take(i as int))),
        decreases src@.len() - i,
    {
        insert_url(dst, src[i].clone());
        proof {
            assert(views(src@.take(i + 1)) =~= views(src@.take(i as int)).push(src@[i as int]@));
            views(src@.take(i as int)).lemma_push_to_set_commute(src@[i as int]@);
            assert(set_of(dst@) =~= set_of(old(dst)@).union(set_of(src@.take(i + 1))));
        }
        i = i + 1;
    }
    assert(src@.take(src@.len() as int) =~= src@);
}

/// The strings of `a` whose text `b` does not hold, in order.
pub fn subtract_urls(a: &Vec<String>, b: &Vec<String>) -> (r: Vec<String>)
    requires
        distinct(a@),
    ensures
        distinct(r@),
        set_of(r@) == set_of(a@).difference(set_of(b@)),
{
    let mut r: Vec<String> = Vec::new();
    let mut i: usize = 0;
    assert(set_of(r@) =~= set_of(a@.take(0)).difference(set_of(b@)));
    while i < a.len()
        invariant
            i <= a@.len(),
            distinct(a@),
            distinct(r@),
            set_of(r@) == set_of(a@.take(i as int)).difference(set_of(b@)),
            forall|k: int| 0 <= k < r@.len() ==> views(a@.take(i as int)).contains(#[trigger] r@[k]@),
        decreases a@.len() - i,
    {
        let ghost before = r@;
        proof {
            assert(views(a@.take(i + 1)) =~= views(a@.take(i as int)).push(a@[i as int]@));
            views(a@.take(i as int)).lemma_push_to_set_commute(a@[i as int]@);
        }
        if !contains_url(b, &a[i]) {
            proof {
                assert forall|k: int| 0 <= k < before.len() implies before[k]@ != a@[i as int]@ by {
                    let j = choose|j: int| 0 <= j < views(a@.take(i as int)).len() && views(a@.take(i as int))[j] == before[k]@;
                    assert(a@[j]@ == before[k]@);
                }
            }
            r.push(a[i].clone());
            proof {
                assert(views(r@) =~= views(before).push(a@[i as int]@));
                views(before).lemma_push_to_set_commute(a@[i as int]@);
                assert(set_of(r@) =~= set_of(a@.take(i + 1)).difference(set_of(b@)));
                assert forall|k: int| 0 <= k < r@.len() implies views(a@.take(i + 1)).contains(#[trigger] r@[k]@) by {
                    if k < before.len() {
                        let j = choose|j: int| 0 <= j < views(a@.take(i as int)).len() && views(a@.take(i as int))[j] == before[k]@;
                        assert(views(a@.take(i + 1))[j] == before[k]@);
                    } else {
                        assert(views(a@.take(i + 1))[i as int] == r@[k]@);
                    }
                }
            }
        } else {
            proof {
                assert(set_of(r@) =~= set_of(a@.take(i + 1)).difference(set_of(b@)));
                assert forall|k: int| 0 <= k < r@.len() implies views(a@.take(i + 1)).contains(#[trigger] r@[k]@) by {
                    let j = choose|j: int| 0 <= j < views(a@.take(i as int)).len() && views(a@.take(i as int))[j] == r@[k]@;
                    assert(views(a@.take(i + 1))[j] == r@[k]@);
                }
            }
        }
        i = i + 1;
    }
    assert(a@.take(a@.len() as int) =~= a@);
    r
}

} // verus!
