//! Sequences of values by their views, and finding a name in a list.

use crate::bytes::same_text;
use crate::order::Datum;
use vstd::prelude::*;

verus! {

/// A value that can be told from another by what it stands for.
pub trait Comparable: Datum {
    fn same(&self, other: &Self) -> (r: bool)
        ensures
            r == (self@ == other@),
    ;
}

impl Comparable for String {
    fn same(&self, other: &Self) -> (r: bool) {
        same_text(self.as_str(), other.as_str())
    }
}

/// What each element stands for.
pub open spec fn views<T: View>(s: Seq<T>) -> Seq<T::V> {
    Seq::new(s.len(), |i: int| s[i]@)
}

/// An optional text by its characters.
pub open spec fn text_view(s: Option<String>) -> Option<Seq<char>> {
    match s {
        Some(s) => Some(s@),
        None => None,
    }
}

pub open spec fn all_valid<T: Datum>(s: Seq<T>) -> bool {
    forall|i: int| 0 <= i < s.len() ==> (#[trigger] s[i]).valid()
}

/// Copy every element.
pub fn copy_all<T: Datum>(v: &Vec<T>) -> (r: Vec<T>)
    ensures
        views(r@) == views(v@),
        all_valid(v@) ==> all_valid(r@),
{
    let mut out: Vec<T> = Vec::new();
    let mut i: usize = 0;
    while i < v.len()
        invariant
            i <= v@.len(),
            out@.len() == i,
            forall|j: int| 0 <= j < i ==> (#[trigger] out@[j])@ == v@[j]@,
            all_valid(v@) ==> all_valid(out@),
        decreases v@.len() - i,
    {
        out.push(v[i].duplicate());
        i = i + 1;
    }
    assert(views(out@) =~= views(v@));
    out
}

/// Whether two lists stand for the same sequence.
pub fn same_all<T: Comparable>(a: &Vec<T>, b: &Vec<T>) -> (r: bool)
    ensures
        r == (views(a@) == views(b@)),
{
    if a.len() != b.len() {
        assert(views(a@).len() != views(b@).len());
        return false;
    }
    let mut i: usize = 0;
    while i < a.len()
        invariant
            i <= a@.len() == b@.len(),
            forall|j: int| 0 <= j < i ==> (#[trigger] a@[j])@ == b@[j]@,
        decreases a@.len() - i,
    {
        if !a[i].same(&b[i]) {
            assert(views(a@)[i as int] != views(b@)[i as int]);
            return false;
        }
        i = i + 1;
    }
    assert(views(a@) =~= views(b@));
    true
}

/// The first position of `name` in `names`.
pub open spec fn find(names: Seq<Seq<char>>, name: Seq<char>) -> Option<int>
    decreases names.len(),
{
    if names.len() == 0 {
        None
    } else {
        match find(names.drop_last(), name) {
            Some(i) => Some(i),
            None => if names.last() == name {
                Some(names.len() - 1)
            } else {
                None
            },
        }
    }
}

pub proof fn lemma_find(names: Seq<Seq<char>>, name: Seq<char>)
    ensures
        find(names, name) is Some <==> names.contains(name),
        find(names, name) matches Some(i) ==> 0 <= i < names.len() && names[i] == name && forall|j: int|
            0 <= j < i ==> names[j] != name,
    decreases names.len(),
{
    if names.len() > 0 {
        let head = names.drop_last();
        lemma_find(head, name);
        if names.contains(name) {
            let k = names.index_of(name);
            if k < head.len() {
                assert(head[k] == name);
            }
        }
        match find(head, name) {
            Some(i) => {
                assert(names[i] == name);
                assert forall|j: int| 0 <= j < i implies names[j] != name by {
                    assert(head[j] != name);
                }
            },
            None => {
                assert forall|j: int| 0 <= j < head.len() implies names[j] != name by {
                    if names[j] == name {
                        assert(head[j] == name);
                        assert(head.contains(name));
                    }
                }
                if names.last() == name {
                    assert(names[names.len() - 1] == name);
                }
            },
        }
    }
}

/// The first position at which the name stands, by position and contents.
pub proof fn lemma_find_is(names: Seq<Seq<char>>, name: Seq<char>, i: int)
    requires
        0 <= i < names.len(),
        names[i] == name,
        forall|j: int| 0 <= j < i ==> names[j] != name,
    ensures
        find(names, name) == Some(i),
{
    lemma_find(names, name);
    assert(names.contains(name));
    let k = find(names, name)->0;
    if k < i {
        assert(names[k] != name);
    } else if i < k {
        assert(names[i] != name);
    }
}

pub proof fn lemma_find_none(names: Seq<Seq<char>>, name: Seq<char>)
    requires
        forall|j: int| 0 <= j < names.len() ==> names[j] != name,
    ensures
        find(names, name) is None,
{
    lemma_find(names, name);
}

/// No name occurs twice.
pub open spec fn distinct(names: Seq<Seq<char>>) -> bool {
    forall|i: int, j: int| 0 <= i < j < names.len() ==> #[trigger] names[i] != #[trigger] names[j]
}

} // verus!
