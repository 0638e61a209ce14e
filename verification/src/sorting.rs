//! Sorting by a total preorder, and the orders that the compressor uses.

use crate::substring::{lex_le_from, precedes, Substring};
use vstd::prelude::*;

verus! {

/// A type whose values are ranked by a total preorder.
pub trait Ranked: Sized {
    /// `self` ranks no later than `other`.
    spec fn rank_le(&self, other: &Self) -> bool;

    /// Decides `rank_le`.
    fn before(&self, other: &Self) -> (b: bool)
        ensures
            b == self.rank_le(other),
    ;

    /// Any two values are ranked one way or the other.
    proof fn lemma_total(a: &Self, b: &Self)
        ensures
            a.rank_le(b) || b.rank_le(a),
    ;

    /// The ranking is transitive.
    proof fn lemma_transitive(a: &Self, b: &Self, c: &Self)
        requires
            a.rank_le(b),
            b.rank_le(c),
        ensures
            a.rank_le(c),
    ;
}

/// Every element ranks no later than each element after it.
pub open spec fn sorted<T: Ranked>(s: Seq<T>) -> bool {
    forall|i: int, j: int| #![trigger s[i], s[j]] 0 <= i < j < s.len() ==> s[i].rank_le(&s[j])
}

/// Sequences with the same multiset of elements have the same elements.
pub proof fn lemma_same_elements<T>(a: Seq<T>, b: Seq<T>)
    requires
        a.to_multiset() == b.to_multiset(),
    ensures
        forall|x: T| a.contains(x) <==> b.contains(x),
        a.len() == b.len(),
{
    a.to_multiset_ensures();
    b.to_multiset_ensures();
    assert forall|x: T| a.contains(x) <==> b.contains(x) by {
        assert(a.contains(x) <==> a.to_multiset().count(x) > 0);
        assert(b.contains(x) <==> b.to_multiset().count(x) > 0);
    }
}

/// A rearrangement of a sequence without repetition has no repetition.
pub proof fn lemma_rearranged_distinct<T>(a: Seq<T>, b: Seq<T>)
    requires
        a.to_multiset() == b.to_multiset(),
        a.no_duplicates(),
    ensures
        b.no_duplicates(),
{
    a.lemma_multiset_has_no_duplicates();
    b.lemma_multiset_has_no_duplicates_conv();
}

/// Every element ranks no earlier than each element after it.
pub open spec fn sorted_backwards<T: Ranked>(s: Seq<T>) -> bool {
    forall|i: int, j: int| #![trigger s[i], s[j]] 0 <= i < j < s.len() ==> s[j].rank_le(&s[i])
}

/// Taking the last element out of a sequence takes it out of the
/// multiset of elements.
pub proof fn lemma_drop_last_to_multiset<T>(s: Seq<T>)
    requires
        s.len() > 0,
    ensures
        s.to_multiset() == s.drop_last().to_multiset().insert(s.last()),
{
    assert(s.drop_last().push(s.last()) =~= s);
    vstd::seq_lib::to_multiset_build(s.drop_last(), s.last());
}

/// Moves the elements of `items` into a vector in the opposite order.
fn reversed<T>(items: Vec<T>) -> (out: Vec<T>)
    ensures
        out@ == items@.reverse(),
{
    let mut items = items;
    let ghost all = items@;
    let mut out: Vec<T> = Vec::new();
    while items.len() > 0
        invariant
            items@.len() + out@.len() == all.len(),
            items@ == all.take(items@.len() as int),
            forall|i: int| 0 <= i < out@.len() ==> out@[i] == all[all.len() - 1 - i],
        decreases items@.len(),
    {
        let ghost before = items@;
        let x = items.pop().unwrap();
        proof {
            assert(items@ =~= all.take(before.len() - 1));
        }
        out.push(x);
    }
    proof {
        assert(out@ =~= all.reverse());
    }
    out
}

/// Merges two sorted vectors into one sorted vector.
fn merge<T: Ranked>(left: Vec<T>, right: Vec<T>) -> (out: Vec<T>)
    requires
        sorted(left@),
        sorted(right@),
    ensures
        sorted(out@),
        out@.to_multiset() == left@.to_multiset().add(right@.to_multiset()),
        out@.len() == left@.len() + right@.len(),
{
    let mut left = left;
    let mut right = right;
    let ghost left_all = left@;
    let ghost right_all = right@;
    let mut taken: Vec<T> = Vec::new();
    proof {
        taken@.to_multiset_ensures();
        assert(taken@.to_multiset() =~= vstd::multiset::Multiset::<T>::empty());
        assert(left@ =~= left_all.take(left@.len() as int));
        assert(right@ =~= right_all.take(right@.len() as int));
        assert(taken@.to_multiset().add(left@.to_multiset()).add(right@.to_multiset())
            =~= left_all.to_multiset().add(right_all.to_multiset()));
    }
    while left.len() > 0 || right.len() > 0
        invariant
            sorted(left_all),
            sorted(right_all),
            left@.len() <= left_all.len(),
            right@.len() <= right_all.len(),
            left@ == left_all.take(left@.len() as int),
            right@ == right_all.take(right@.len() as int),
            taken@.len() + left@.len() + right@.len() == left_all.len() + right_all.len(),
            taken@.to_multiset().add(left@.to_multiset()).add(right@.to_multiset())
                == left_all.to_multiset().add(right_all.to_multiset()),
            sorted_backwards(taken@),
            forall|i: int, j: int|
                #![trigger left@[i], taken@[j]]
                0 <= i < left@.len() && 0 <= j < taken@.len() ==> left@[i].rank_le(&taken@[j]),
            forall|i: int, j: int|
                #![trigger right@[i], taken@[j]]
                0 <= i < right@.len() && 0 <= j < taken@.len() ==> right@[i].rank_le(&taken@[j]),
        decreases left@.len() + right@.len(),
    {
        let ghost left_before = left@;
        let ghost right_before = right@;
        let ghost taken_before = taken@;
        let from_left = if left.len() == 0 {
            false
        } else if right.len() == 0 {
            true
        } else {
            right[right.len() - 1].before(&left[left.len() - 1])
        };
        if from_left {
            let x = left.pop().unwrap();
            proof {
                assert(left@ =~= left_all.take(left_before.len() - 1));
                assert(left@ =~= left_before.drop_last());
                lemma_drop_last_to_multiset(left_before);
                assert forall|i: int| 0 <= i < left@.len() implies (#[trigger] left@[i]).rank_le(
                    &x,
                ) by {
                    assert(left_all[i].rank_le(&left_all[left_before.len() - 1]));
                }
                assert forall|i: int| 0 <= i < right@.len() implies (#[trigger] right@[i]).rank_le(
                    &x,
                ) by {
                    let last = right_all[right@.len() - 1];
                    if i < right@.len() - 1 {
                        assert(right_all[i].rank_le(&right_all[right@.len() - 1]));
                        T::lemma_transitive(&right@[i], &last, &x);
                    }
                }
            }
            taken.push(x);
            proof {
                vstd::seq_lib::to_multiset_build(taken_before, x);
                assert(taken@.to_multiset().add(left@.to_multiset()).add(right@.to_multiset())
                    =~= taken_before.to_multiset().add(left_before.to_multiset()).add(
                    right_before.to_multiset(),
                ));
                assert forall|i: int, j: int|
                    #![trigger taken@[i], taken@[j]]
                    0 <= i < j < taken@.len() implies taken@[j].rank_le(&taken@[i]) by {
                    if j == taken@.len() - 1 {
                        assert(left_before[left_before.len() - 1].rank_le(&taken_before[i]));
                    } else {
                        assert(taken_before[j].rank_le(&taken_before[i]));
                    }
                }
                assert forall|i: int, j: int|
                    #![trigger left@[i], taken@[j]]
                    0 <= i < left@.len() && 0 <= j < taken@.len() implies left@[i].rank_le(
                    &taken@[j],
                ) by {
                    if j < taken_before.len() {
                        assert(left_before[i].rank_le(&taken_before[j]));
                    }
                }
                assert forall|i: int, j: int|
                    #![trigger right@[i], taken@[j]]
                    0 <= i < right@.len() && 0 <= j < taken@.len() implies right@[i].rank_le(
                    &taken@[j],
                ) by {
                    if j < taken_before.len() {
                        assert(right_before[i].rank_le(&taken_before[j]));
                    }
                }
            }
        } else {
            let x = right.pop().unwrap();
            proof {
                assert(right@ =~= right_all.take(right_before.len() - 1));
                assert(right@ =~= right_before.drop_last());
                lemma_drop_last_to_multiset(right_before);
                assert forall|i: int| 0 <= i < right@.len() implies (
                #[trigger] right@[i]).rank_le(&x) by {
                    assert(right_all[i].rank_le(&right_all[right_before.len() - 1]));
                }
                assert forall|i: int| 0 <= i < left@.len() implies (#[trigger] left@[i]).rank_le(
                    &x,
                ) by {
                    let last = left_all[left@.len() - 1];
                    T::lemma_total(&x, &last);
                    if i < left@.len() - 1 {
                        assert(left_all[i].rank_le(&left_all[left@.len() - 1]));
                        T::lemma_transitive(&left@[i], &last, &x);
                    }
                }
            }
            taken.push(x);
            proof {
                vstd::seq_lib::to_multiset_build(taken_before, x);
                assert(taken@.to_multiset().add(left@.to_multiset()).add(right@.to_multiset())
                    =~= taken_before.to_multiset().add(left_before.to_multiset()).add(
                    right_before.to_multiset(),
                ));
                assert forall|i: int, j: int|
                    #![trigger taken@[i], taken@[j]]
                    0 <= i < j < taken@.len() implies taken@[j].rank_le(&taken@[i]) by {
                    if j == taken@.len() - 1 {
                        assert(right_before[right_before.len() - 1].rank_le(&taken_before[i]));
                    } else {
                        assert(taken_before[j].rank_le(&taken_before[i]));
                    }
                }
                assert forall|i: int, j: int|
                    #![trigger left@[i], taken@[j]]
                    0 <= i < left@.len() && 0 <= j < taken@.len() implies left@[i].rank_le(
                    &taken@[j],
                ) by {
                    if j < taken_before.len() {
                        assert(left_before[i].rank_le(&taken_before[j]));
                    }
                }
                assert forall|i: int, j: int|
                    #![trigger right@[i], taken@[j]]
                    0 <= i < right@.len() && 0 <= j < taken@.len() implies right@[i].rank_le(
                    &taken@[j],
                ) by {
                    if j < taken_before.len() {
                        assert(right_before[i].rank_le(&taken_before[j]));
                    }
                }
            }
        }
    }
    let ghost backwards = taken@;
    let out = reversed(taken);
    proof {
        backwards.lemma_reverse_to_multiset();
        left@.to_multiset_ensures();
        right@.to_multiset_ensures();
        assert(left@.to_multiset() =~= vstd::multiset::Multiset::<T>::empty());
        assert(right@.to_multiset() =~= vstd::multiset::Multiset::<T>::empty());
        assert(out@.to_multiset() =~= left_all.to_multiset().add(right_all.to_multiset()));
        assert forall|i: int, j: int|
            #![trigger out@[i], out@[j]]
            0 <= i < j < out@.len() implies out@[i].rank_le(&out@[j]) by {
            let n = backwards.len() as int;
            assert(backwards[n - 1 - i].rank_le(&backwards[n - 1 - j]));
        }
    }
    out
}

/// Sorts `items` by rank. Elements of equal rank may come out in any order.
pub fn sort_by_rank<T: Ranked>(items: Vec<T>) -> (out: Vec<T>)
    ensures
        sorted(out@),
        out@.to_multiset() == items@.to_multiset(),
        out@.len() == items@.len(),
    decreases items@.len(),
{
    if items.len() <= 1 {
        return items;
    }
    let mut left = items;
    let ghost all = left@;
    let middle: usize = left.len() / 2;
    let right = left.split_off(middle);
    proof {
        assert(all =~= left@ + right@);
        vstd::seq_lib::lemma_multiset_commutative(left@, right@);
    }
    let left_sorted = sort_by_rank(left);
    let right_sorted = sort_by_rank(right);
    merge(left_sorted, right_sorted)
}

/// Chaining of the lexicographic order.
pub proof fn lemma_lex_transitive(a: Seq<char>, b: Seq<char>, c: Seq<char>, i: int)
    requires
        0 <= i,
        lex_le_from(a, b, i),
        lex_le_from(b, c, i),
    ensures
        lex_le_from(a, c, i),
    decreases a.len() - i,
{
    if i < a.len() {
        if a[i] == b[i] && b[i] == c[i] {
            lemma_lex_transitive(a, b, c, i + 1);
        }
    }
}

/// Any two texts are ordered one way or the other.
pub proof fn lemma_lex_total(a: Seq<char>, b: Seq<char>, i: int)
    requires
        0 <= i,
    ensures
        lex_le_from(a, b, i) || lex_le_from(b, a, i),
    decreases a.len() - i,
{
    if i < a.len() && i < b.len() {
        if a[i] == b[i] {
            lemma_lex_total(a, b, i + 1);
        } else {
            vstd::utf8::char_u32_cast(a[i], a[i] as u32);
            vstd::utf8::char_u32_cast(b[i], b[i] as u32);
        }
    }
}

impl Ranked for Substring {
    open spec fn rank_le(&self, other: &Self) -> bool {
        precedes(self@, other@)
    }

    fn before(&self, other: &Self) -> (b: bool) {
        self.comes_before(other)
    }

    proof fn lemma_total(a: &Self, b: &Self) {
        lemma_lex_total(a@, b@, 0);
    }

    proof fn lemma_transitive(a: &Self, b: &Self, c: &Self) {
        if lex_le_from(a@, b@, 0) && lex_le_from(b@, c@, 0) {
            lemma_lex_transitive(a@, b@, c@, 0);
        }
    }
}

impl<'a> Ranked for (&'a Substring, usize) {
    open spec fn rank_le(&self, other: &Self) -> bool {
        precedes(self.0@, other.0@)
    }

    fn before(&self, other: &Self) -> (b: bool) {
        self.0.comes_before(other.0)
    }

    proof fn lemma_total(a: &Self, b: &Self) {
        lemma_lex_total(a.0@, b.0@, 0);
    }

    proof fn lemma_transitive(a: &Self, b: &Self, c: &Self) {
        if lex_le_from(a.0@, b.0@, 0) && lex_le_from(b.0@, c.0@, 0) {
            lemma_lex_transitive(a.0@, b.0@, c.0@, 0);
        }
    }
}

impl Ranked for usize {
    open spec fn rank_le(&self, other: &Self) -> bool {
        *self <= *other
    }

    fn before(&self, other: &Self) -> (b: bool) {
        *self <= *other
    }

    proof fn lemma_total(a: &Self, b: &Self) {
    }

    proof fn lemma_transitive(a: &Self, b: &Self, c: &Self) {
    }
}

} // verus!
