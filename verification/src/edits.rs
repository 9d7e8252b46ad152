//! Edit distance counts edits: no sequence of single-item insertions,
//! deletions and substitutions that turns one sequence into another is
//! shorter than their edit distance, and one is exactly that long. For words
//! the items are characters.

use crate::edit::edit_distance;
use crate::edit::lemma_edit_distance_bound;
use crate::edit::lemma_edit_distance_self;
use crate::edit::word_distance;
use vstd::prelude::*;

verus! {

/// Whether `b` is `a` with one item put in somewhere.
pub open spec fn is_insertion<T>(a: Seq<T>, b: Seq<T>) -> bool {
    exists|p: int, x: T| 0 <= p <= a.len() && b == #[trigger] a.insert(p, x)
}

/// Whether `b` is `a` with one item taken out.
pub open spec fn is_deletion<T>(a: Seq<T>, b: Seq<T>) -> bool {
    exists|p: int| 0 <= p < a.len() && b == #[trigger] a.remove(p)
}

/// Whether `b` is `a` with one item replaced.
pub open spec fn is_substitution<T>(a: Seq<T>, b: Seq<T>) -> bool {
    exists|p: int, x: T| 0 <= p < a.len() && b == #[trigger] a.update(p, x)
}

/// Whether one edit turns `a` into `b`.
pub open spec fn one_edit<T>(a: Seq<T>, b: Seq<T>) -> bool {
    is_insertion(a, b) || is_deletion(a, b) || is_substitution(a, b)
}

/// Whether `k` edits, one after the other, turn `a` into `b`.
pub open spec fn reachable<T>(a: Seq<T>, b: Seq<T>, k: nat) -> bool
    decreases k,
{
    if k == 0 {
        a == b
    } else {
        exists|m: Seq<T>| #[trigger] one_edit(a, m) && reachable(m, b, (k - 1) as nat)
    }
}

/// Dropping the last item of the first argument changes the distance by one
/// at most.
proof fn lemma_step_delete<T>(a: Seq<T>, c: Seq<T>)
    requires
        a.len() > 0,
    ensures
        edit_distance(a, c) <= edit_distance(a.drop_last(), c) + 1,
{
}

/// Dropping the last item of the second argument changes the distance by one
/// at most.
proof fn lemma_step_insert<T>(a: Seq<T>, c: Seq<T>)
    requires
        c.len() > 0,
    ensures
        edit_distance(a, c) <= edit_distance(a, c.drop_last()) + 1,
{
}

/// Two sequences are at least as far apart as their lengths are.
pub proof fn lemma_edit_distance_at_least<T>(a: Seq<T>, b: Seq<T>)
    ensures
        edit_distance(a, b) >= a.len() - b.len(),
        edit_distance(a, b) >= b.len() - a.len(),
    decreases a.len() + b.len(),
{
    if a.len() != 0 && b.len() != 0 {
        lemma_edit_distance_at_least(a.drop_last(), b.drop_last());
        lemma_edit_distance_at_least(a.drop_last(), b);
        lemma_edit_distance_at_least(a, b.drop_last());
    }
}

/// An edit of `a` that leaves its last item alone is an edit of the part
/// before it.
proof fn lemma_edit_before_the_end<T>(a: Seq<T>, m: Seq<T>)
    requires
        one_edit(a, m),
        a.len() > 0,
        m != a.drop_last(),
        !(exists|x: T| m == a.push(x)),
        !(exists|x: T| m == a.drop_last().push(x)),
    ensures
        m.len() > 0,
        m.last() == a.last(),
        one_edit(a.drop_last(), m.drop_last()),
{
    let front = a.drop_last();
    if is_insertion(a, m) {
        let (p, x) = choose|p: int, x: T| 0 <= p <= a.len() && m == #[trigger] a.insert(p, x);
        if p == a.len() {
            assert(a.insert(p, x) =~= a.push(x));
        }
        assert(m.drop_last() =~= front.insert(p, x));
    } else if is_deletion(a, m) {
        let p = choose|p: int| 0 <= p < a.len() && m == #[trigger] a.remove(p);
        if p == a.len() - 1 {
            assert(a.remove(p) =~= front);
        }
        assert(m.drop_last() =~= front.remove(p));
    } else {
        let (p, x) = choose|p: int, x: T| 0 <= p < a.len() && m == #[trigger] a.update(p, x);
        if p == a.len() - 1 {
            assert(a.update(p, x) =~= front.push(x));
        }
        assert(m.drop_last() =~= front.update(p, x));
    }
}

/// One edit changes the distance to any sequence by one at most.
pub proof fn lemma_one_edit_costs_one<T>(a: Seq<T>, m: Seq<T>, c: Seq<T>)
    requires
        one_edit(a, m),
    ensures
        edit_distance(a, c) <= edit_distance(m, c) + 1,
    decreases a.len() + c.len(),
{
    lemma_edit_distance_at_least(m, c);
    lemma_edit_distance_at_least(a, m);
    lemma_edit_distance_bound(a, c);
    lemma_one_edit_length(a, m);
    if c.len() == 0 || a.len() == 0 || m.len() == 0 {
        // The distances are lengths, or bounded by them, and the lengths of
        // `a` and `m` differ by one at most.
    } else {
        let front = a.drop_last();
        let rest = c.drop_last();
        lemma_step_insert(a, c);
        lemma_step_delete(a, c);
        lemma_one_edit_costs_one(a, m, rest);
        if m == front {
            // The last item was deleted.
        } else if exists|x: T| m == a.push(x) {
            // An item was put at the end.
            let x = choose|x: T| m == a.push(x);
            assert(m.drop_last() =~= a);
        } else if exists|x: T| m == front.push(x) {
            // The last item was replaced.
            let x = choose|x: T| m == front.push(x);
            assert(m.drop_last() =~= front);
        } else {
            lemma_edit_before_the_end(a, m);
            lemma_one_edit_costs_one(front, m.drop_last(), rest);
            lemma_one_edit_costs_one(front, m.drop_last(), c);
        }
    }
}

/// One edit changes the length by one at most.
proof fn lemma_one_edit_length<T>(a: Seq<T>, m: Seq<T>)
    requires
        one_edit(a, m),
    ensures
        a.len() <= m.len() + 1,
        m.len() <= a.len() + 1,
{
    if is_insertion(a, m) {
        let (p, x) = choose|p: int, x: T| 0 <= p <= a.len() && m == #[trigger] a.insert(p, x);
        a.insert_ensures(p, x);
    } else if is_deletion(a, m) {
        let p = choose|p: int| 0 <= p < a.len() && m == #[trigger] a.remove(p);
        a.remove_ensures(p);
    } else {
        let (p, x) = choose|p: int, x: T| 0 <= p < a.len() && m == #[trigger] a.update(p, x);
    }
}

/// No sequence of edits that turns `a` into `b` is shorter than their edit
/// distance.
pub proof fn lemma_no_fewer_edits<T>(a: Seq<T>, b: Seq<T>, k: nat)
    requires
        reachable(a, b, k),
    ensures
        edit_distance(a, b) <= k,
    decreases k,
{
    if k == 0 {
        lemma_edit_distance_self(a);
    } else {
        let m = choose|m: Seq<T>| #[trigger] one_edit(a, m) && reachable(m, b, (k - 1) as nat);
        lemma_no_fewer_edits(m, b, (k - 1) as nat);
        lemma_one_edit_costs_one(a, m, b);
    }
}

/// A sequence of edits can be carried on by one more.
proof fn lemma_one_more_edit<T>(a: Seq<T>, y: Seq<T>, b: Seq<T>, k: nat)
    requires
        reachable(a, y, k),
        one_edit(y, b),
    ensures
        reachable(a, b, k + 1),
    decreases k,
{
    if k == 0 {
        assert(reachable(b, b, 0));
        assert(one_edit(a, b) && reachable(b, b, 0));
    } else {
        let m = choose|m: Seq<T>| #[trigger] one_edit(a, m) && reachable(m, y, (k - 1) as nat);
        lemma_one_more_edit(m, y, b, (k - 1) as nat);
        assert(one_edit(a, m) && reachable(m, b, k));
    }
}

/// An edit stays an edit when the same item is put behind both sequences.
proof fn lemma_edit_under_suffix<T>(a: Seq<T>, m: Seq<T>, u: T)
    requires
        one_edit(a, m),
    ensures
        one_edit(a.push(u), m.push(u)),
{
    let longer = a.push(u);
    if is_insertion(a, m) {
        let (p, x) = choose|p: int, x: T| 0 <= p <= a.len() && m == #[trigger] a.insert(p, x);
        assert(m.push(u) =~= longer.insert(p, x));
        assert(is_insertion(longer, m.push(u)));
    } else if is_deletion(a, m) {
        let p = choose|p: int| 0 <= p < a.len() && m == #[trigger] a.remove(p);
        assert(m.push(u) =~= longer.remove(p));
        assert(is_deletion(longer, m.push(u)));
    } else {
        let (p, x) = choose|p: int, x: T| 0 <= p < a.len() && m == #[trigger] a.update(p, x);
        assert(m.push(u) =~= longer.update(p, x));
        assert(is_substitution(longer, m.push(u)));
    }
}

/// A sequence of edits stays one when the same item is put behind both
/// sequences.
proof fn lemma_edits_under_suffix<T>(a: Seq<T>, b: Seq<T>, k: nat, u: T)
    requires
        reachable(a, b, k),
    ensures
        reachable(a.push(u), b.push(u), k),
    decreases k,
{
    if k > 0 {
        let m = choose|m: Seq<T>| #[trigger] one_edit(a, m) && reachable(m, b, (k - 1) as nat);
        lemma_edit_under_suffix(a, m, u);
        lemma_edits_under_suffix(m, b, (k - 1) as nat, u);
        assert(one_edit(a.push(u), m.push(u)) && reachable(m.push(u), b.push(u), (k - 1) as nat));
    }
}

/// Putting an item at the end is an edit.
proof fn lemma_push_is_edit<T>(a: Seq<T>, x: T)
    ensures
        one_edit(a, a.push(x)),
{
    assert(a.push(x) =~= a.insert(a.len() as int, x));
    assert(is_insertion(a, a.push(x)));
}

/// Taking the last item away is an edit.
proof fn lemma_drop_last_is_edit<T>(a: Seq<T>)
    requires
        a.len() > 0,
    ensures
        one_edit(a, a.drop_last()),
{
    assert(a.drop_last() =~= a.remove(a.len() - 1));
    assert(is_deletion(a, a.drop_last()));
}

/// Replacing the last item is an edit.
proof fn lemma_replace_last_is_edit<T>(a: Seq<T>, x: T)
    requires
        a.len() > 0,
    ensures
        one_edit(a, a.drop_last().push(x)),
{
    assert(a.drop_last().push(x) =~= a.update(a.len() - 1, x));
    assert(is_substitution(a, a.drop_last().push(x)));
}

/// As many edits as the edit distance says turn `a` into `b`.
pub proof fn lemma_enough_edits<T>(a: Seq<T>, b: Seq<T>)
    ensures
        reachable(a, b, edit_distance(a, b)),
    decreases a.len() + b.len(),
{
    if a.len() == 0 && b.len() == 0 {
        assert(a =~= b);
    } else if a.len() == 0 {
        // Build `b` item by item.
        lemma_enough_edits(a, b.drop_last());
        lemma_push_is_edit(b.drop_last(), b.last());
        assert(b.drop_last().push(b.last()) =~= b);
        lemma_one_more_edit(a, b.drop_last(), b, b.drop_last().len());
    } else if b.len() == 0 {
        // Take `a` apart item by item.
        lemma_drop_last_is_edit(a);
        lemma_enough_edits(a.drop_last(), b);
        assert(one_edit(a, a.drop_last()) && reachable(
            a.drop_last(),
            b,
            (edit_distance(a, b) - 1) as nat,
        ));
    } else {
        let front = a.drop_last();
        let rest = b.drop_last();
        let d = edit_distance(a, b);
        if d == edit_distance(front, b) + 1 {
            // Delete the last item of `a`, then turn what is left into `b`.
            lemma_drop_last_is_edit(a);
            lemma_enough_edits(front, b);
            assert(one_edit(a, front) && reachable(front, b, (d - 1) as nat));
        } else if d == edit_distance(a, rest) + 1 {
            // Turn `a` into `b` without its last item, then put that item.
            lemma_enough_edits(a, rest);
            lemma_push_is_edit(rest, b.last());
            assert(rest.push(b.last()) =~= b);
            lemma_one_more_edit(a, rest, b, edit_distance(a, rest));
        } else {
            // Turn the front of `a` into the front of `b` and keep the last
            // item, or replace it where the two differ.
            lemma_enough_edits(front, rest);
            lemma_edits_under_suffix(front, rest, edit_distance(front, rest), a.last());
            assert(front.push(a.last()) =~= a);
            let almost = rest.push(a.last());
            if a.last() == b.last() {
                assert(almost =~= b);
            } else {
                lemma_replace_last_is_edit(almost, b.last());
                assert(almost.drop_last().push(b.last()) =~= b);
                lemma_one_more_edit(a, almost, b, edit_distance(front, rest));
            }
        }
    }
}

/// Edit distance is the least number of single-item insertions, deletions
/// and substitutions that turn `a` into `b`: that many edits do it, and no
/// fewer do.
pub proof fn lemma_edit_distance_is_least<T>(a: Seq<T>, b: Seq<T>)
    ensures
        reachable(a, b, edit_distance(a, b)),
        forall|k: nat| #[trigger] reachable(a, b, k) ==> edit_distance(a, b) <= k,
{
    lemma_enough_edits(a, b);
    assert forall|k: nat| #[trigger] reachable(a, b, k) implies edit_distance(a, b) <= k by {
        lemma_no_fewer_edits(a, b, k);
    }
}

/// The distance between two words is the least number of single-character
/// insertions, deletions and substitutions that turn the one into the other.
pub proof fn lemma_word_distance_is_least(a: Seq<char>, b: Seq<char>)
    ensures
        reachable(a, b, word_distance(a, b)),
        forall|k: nat| #[trigger] reachable(a, b, k) ==> word_distance(a, b) <= k,
{
    lemma_edit_distance_is_least(a, b);
}

} // verus!
