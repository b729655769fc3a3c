//! Edit distance between texts.

use crate::text::chars_of;
use vstd::prelude::*;

verus! {

pub open spec fn least(a: nat, b: nat) -> nat {
    if a <= b {
        a
    } else {
        b
    }
}

/// The least number of characters to insert, delete or replace in `a` to get `b`.
pub open spec fn distance(a: Seq<char>, b: Seq<char>) -> nat
    decreases a.len() + b.len(),
{
    if a.len() == 0 {
        b.len()
    } else if b.len() == 0 {
        a.len()
    } else {
        let replaced = distance(a.drop_last(), b.drop_last()) + if a.last() == b.last() {
            0nat
        } else {
            1nat
        };
        let deleted = distance(a.drop_last(), b) + 1;
        let inserted = distance(a, b.drop_last()) + 1;
        least(least(replaced, deleted), inserted)
    }
}

/// `b` comes from `a` by inserting, deleting or replacing one character.
pub open spec fn one_edit(a: Seq<char>, b: Seq<char>) -> bool {
    ||| exists|i: int, c: char| 0 <= i <= a.len() && b == #[trigger] a.insert(i, c)
    ||| exists|i: int| 0 <= i < a.len() && b == #[trigger] a.remove(i)
    ||| exists|i: int, c: char| 0 <= i < a.len() && b == #[trigger] a.update(i, c)
}

/// `path` leads from `a` to `b`, one edit at a time.
pub open spec fn edit_path(a: Seq<char>, b: Seq<char>, path: Seq<Seq<char>>) -> bool {
    &&& path.len() > 0
    &&& path[0] == a
    &&& path.last() == b
    &&& forall|k: int| 0 < k < path.len() ==> one_edit(path[k - 1], #[trigger] path[k])
}

/// A distance is never more than the length of the longer text.
pub proof fn lemma_distance_bound(a: Seq<char>, b: Seq<char>)
    ensures
        distance(a, b) <= if a.len() <= b.len() { b.len() } else { a.len() },
    decreases a.len() + b.len(),
{
    if a.len() > 0 && b.len() > 0 {
        lemma_distance_bound(a.drop_last(), b.drop_last());
    }
}

/// The distance is the same read either way.
pub proof fn lemma_distance_symmetric(a: Seq<char>, b: Seq<char>)
    ensures
        distance(a, b) == distance(b, a),
    decreases a.len() + b.len(),
{
    if a.len() > 0 && b.len() > 0 {
        lemma_distance_symmetric(a.drop_last(), b.drop_last());
        lemma_distance_symmetric(a.drop_last(), b);
        lemma_distance_symmetric(a, b.drop_last());
    }
}

/// The distance is zero between equal texts, and only there.
pub proof fn lemma_distance_zero(a: Seq<char>, b: Seq<char>)
    ensures
        distance(a, b) == 0 <==> a == b,
    decreases a.len() + b.len(),
{
    if a.len() > 0 && b.len() > 0 {
        lemma_distance_zero(a.drop_last(), b.drop_last());
        if a.drop_last() == b.drop_last() && a.last() == b.last() {
            assert(a =~= a.drop_last().push(a.last()));
            assert(b =~= b.drop_last().push(b.last()));
        }
    } else {
        assert(distance(a, b) == 0 ==> a =~= b);
    }
}

proof fn lemma_drop_last(a: Seq<char>, b: Seq<char>)
    requires
        a.len() > 0,
    ensures
        distance(a.drop_last(), b) <= distance(a, b) + 1,
    decreases b.len(),
{
    if b.len() > 0 {
        lemma_drop_last(a, b.drop_last());
    }
}

proof fn lemma_insert(a: Seq<char>, i: int, c: char, b: Seq<char>)
    requires
        0 <= i <= a.len(),
    ensures
        distance(a.insert(i, c), b) <= distance(a, b) + 1,
    decreases a.len() + b.len(),
{
    let x = a.insert(i, c);
    if i == a.len() {
        assert(x.drop_last() =~= a);
    } else if b.len() > 0 {
        assert(x.drop_last() =~= a.drop_last().insert(i, c));
        assert(x.last() == a.last());
        lemma_insert(a.drop_last(), i, c, b.drop_last());
        lemma_insert(a.drop_last(), i, c, b);
        lemma_insert(a, i, c, b.drop_last());
    }
}

proof fn lemma_remove(a: Seq<char>, i: int, b: Seq<char>)
    requires
        0 <= i < a.len(),
    ensures
        distance(a.remove(i), b) <= distance(a, b) + 1,
    decreases a.len() + b.len(),
{
    let x = a.remove(i);
    if i == a.len() - 1 {
        assert(x =~= a.drop_last());
        lemma_drop_last(a, b);
    } else if b.len() > 0 {
        assert(x.drop_last() =~= a.drop_last().remove(i));
        assert(x.last() == a.last());
        lemma_remove(a.drop_last(), i, b.drop_last());
        lemma_remove(a.drop_last(), i, b);
        lemma_remove(a, i, b.drop_last());
    }
}

proof fn lemma_update(a: Seq<char>, i: int, c: char, b: Seq<char>)
    requires
        0 <= i < a.len(),
    ensures
        distance(a.update(i, c), b) <= distance(a, b) + 1,
    decreases a.len() + b.len(),
{
    let x = a.update(i, c);
    if b.len() > 0 {
        lemma_update(a, i, c, b.drop_last());
        if i == a.len() - 1 {
            assert(x.drop_last() =~= a.drop_last());
        } else {
            assert(x.drop_last() =~= a.drop_last().update(i, c));
            assert(x.last() == a.last());
            lemma_update(a.drop_last(), i, c, b.drop_last());
            lemma_update(a.drop_last(), i, c, b);
        }
    }
}

/// An edit can be taken back by an edit.
proof fn lemma_edit_back(a: Seq<char>, b: Seq<char>)
    requires
        one_edit(a, b),
    ensures
        one_edit(b, a),
{
    if exists|i: int, c: char| 0 <= i <= a.len() && b == #[trigger] a.insert(i, c) {
        let (i, c) = choose|i: int, c: char| 0 <= i <= a.len() && b == #[trigger] a.insert(i, c);
        assert(b.remove(i) =~= a);
    } else if exists|i: int| 0 <= i < a.len() && b == #[trigger] a.remove(i) {
        let i = choose|i: int| 0 <= i < a.len() && b == #[trigger] a.remove(i);
        assert(b.insert(i, a[i]) =~= a);
    } else {
        let (i, c) = choose|i: int, c: char| 0 <= i < a.len() && b == #[trigger] a.update(i, c);
        assert(b.update(i, a[i]) =~= a);
    }
}

/// One edit moves a distance by one at most.
proof fn lemma_edit_moves_one(a: Seq<char>, a2: Seq<char>, b: Seq<char>)
    requires
        one_edit(a, a2),
    ensures
        distance(a, b) <= distance(a2, b) + 1,
{
    lemma_edit_back(a, a2);
    if exists|i: int, c: char| 0 <= i <= a2.len() && a == #[trigger] a2.insert(i, c) {
        let (i, c) = choose|i: int, c: char| 0 <= i <= a2.len() && a == #[trigger] a2.insert(i, c);
        lemma_insert(a2, i, c, b);
    } else if exists|i: int| 0 <= i < a2.len() && a == #[trigger] a2.remove(i) {
        let i = choose|i: int| 0 <= i < a2.len() && a == #[trigger] a2.remove(i);
        lemma_remove(a2, i, b);
    } else {
        let (i, c) = choose|i: int, c: char| 0 <= i < a2.len() && a == #[trigger] a2.update(i, c);
        lemma_update(a2, i, c, b);
    }
}

/// No sequence of single edits from one text to another is shorter than their
/// distance.
pub proof fn lemma_no_shorter_path(a: Seq<char>, b: Seq<char>, path: Seq<Seq<char>>)
    requires
        edit_path(a, b, path),
    ensures
        distance(a, b) <= path.len() - 1,
    decreases path.len(),
{
    if path.len() == 1 {
        lemma_distance_zero(a, b);
    } else {
        let rest = path.drop_first();
        assert forall|k: int| 0 < k < rest.len() implies one_edit(
            rest[k - 1],
            #[trigger] rest[k],
        ) by {
            assert(one_edit(path[k], path[k + 1]));
        }
        lemma_no_shorter_path(path[1], b, rest);
        assert(one_edit(path[0], path[1]));
        lemma_edit_moves_one(a, path[1], b);
    }
}

/// An edit inside a text is an edit of the text with one more character.
proof fn lemma_edit_push(a: Seq<char>, b: Seq<char>, c: char)
    requires
        one_edit(a, b),
    ensures
        one_edit(a.push(c), b.push(c)),
{
    if exists|i: int, d: char| 0 <= i <= a.len() && b == #[trigger] a.insert(i, d) {
        let (i, d) = choose|i: int, d: char| 0 <= i <= a.len() && b == #[trigger] a.insert(i, d);
        assert(b.push(c) =~= a.push(c).insert(i, d));
    } else if exists|i: int| 0 <= i < a.len() && b == #[trigger] a.remove(i) {
        let i = choose|i: int| 0 <= i < a.len() && b == #[trigger] a.remove(i);
        assert(b.push(c) =~= a.push(c).remove(i));
    } else {
        let (i, d) = choose|i: int, d: char| 0 <= i < a.len() && b == #[trigger] a.update(i, d);
        assert(b.push(c) =~= a.push(c).update(i, d));
    }
}

proof fn lemma_path_push(
    a: Seq<char>,
    b: Seq<char>,
    path: Seq<Seq<char>>,
    c: char,
) -> (longer: Seq<Seq<char>>)
    requires
        edit_path(a, b, path),
    ensures
        edit_path(a.push(c), b.push(c), longer),
        longer.len() == path.len(),
{
    let longer = path.map_values(|x: Seq<char>| x.push(c));
    assert forall|k: int| 0 < k < longer.len() implies one_edit(
        longer[k - 1],
        #[trigger] longer[k],
    ) by {
        assert(one_edit(path[k - 1], path[k]));
        lemma_edit_push(path[k - 1], path[k], c);
    }
    longer
}

/// Some sequence of single edits from one text to another is as short as their
/// distance.
pub proof fn lemma_shortest_path(a: Seq<char>, b: Seq<char>) -> (path: Seq<Seq<char>>)
    ensures
        edit_path(a, b, path),
        path.len() == distance(a, b) + 1,
    decreases a.len() + b.len(),
{
    if a.len() == 0 && b.len() == 0 {
        assert(a =~= b);
        seq![a]
    } else if a.len() > 0 && (b.len() == 0 || distance(a, b) == distance(a.drop_last(), b) + 1) {
        let rest = lemma_shortest_path(a.drop_last(), b);
        assert(a.remove(a.len() - 1) =~= a.drop_last());
        let path = seq![a] + rest;
        assert forall|k: int| 0 < k < path.len() implies one_edit(
            path[k - 1],
            #[trigger] path[k],
        ) by {
            if k > 1 {
                assert(path[k] == rest[k - 1]);
                assert(path[k - 1] == rest[k - 2]);
            }
        }
        path
    } else if b.len() > 0 && (a.len() == 0 || distance(a, b) == distance(a, b.drop_last()) + 1) {
        let front = lemma_shortest_path(a, b.drop_last());
        assert(b.drop_last().insert(b.len() - 1, b.last()) =~= b);
        front.push(b)
    } else {
        let inner = lemma_shortest_path(a.drop_last(), b.drop_last());
        let front = lemma_path_push(a.drop_last(), b.drop_last(), inner, a.last());
        assert(a.drop_last().push(a.last()) =~= a);
        assert(b.drop_last().push(b.last()) =~= b);
        if a.last() == b.last() {
            front
        } else {
            let near = b.drop_last().push(a.last());
            assert(near.update(b.len() - 1, b.last()) =~= b);
            front.push(b)
        }
    }
}

/// The edit distance between two slices of characters, one row at a time:
/// `row[j]` is the distance between what was read of `a` and `b[..=j]`.
pub fn edit_distance(a: &[char], b: &[char]) -> (d: usize)
    ensures
        d == distance(a@, b@),
{
    let mut row: Vec<usize> = Vec::new();
    let mut j: usize = 0;
    while j < b.len()
        invariant
            j <= b.len(),
            row.len() == j,
            forall|k: int| 0 <= k < j ==> #[trigger] row[k] == k + 1,
        decreases b.len() - j,
    {
        row.push(j + 1);
        j += 1;
    }
    let mut i: usize = 0;
    assert(a@.take(0) =~= Seq::empty());
    assert forall|k: int| 0 <= k < b.len() implies #[trigger] row[k] == distance(
        a@.take(0),
        b@.take(k + 1),
    ) by {}
    while i < a.len()
        invariant
            i <= a.len(),
            row.len() == b.len(),
            forall|k: int|
                0 <= k < b.len() ==> #[trigger] row[k] == distance(a@.take(i as int), b@.take(k + 1)),
        decreases a.len() - i,
    {
        let ghost upper = a@.take(i as int);
        let ghost lower = a@.take(i + 1);
        assert(lower.drop_last() =~= upper);
        assert(lower.last() == a@[i as int]);
        let mut diagonal: usize = i;
        let mut left: usize = i + 1;
        assert(b@.take(0) =~= Seq::empty());
        let mut j: usize = 0;
        while j < b.len()
            invariant
                j <= b.len(),
                i < a.len(),
                row.len() == b.len(),
                upper == a@.take(i as int),
                lower == a@.take(i + 1),
                lower.drop_last() == upper,
                lower.last() == a@[i as int],
                diagonal == distance(upper, b@.take(j as int)),
                left == distance(lower, b@.take(j as int)),
                forall|k: int|
                    0 <= k < j ==> #[trigger] row[k] == distance(lower, b@.take(k + 1)),
                forall|k: int|
                    j <= k < b.len() ==> #[trigger] row[k] == distance(upper, b@.take(k + 1)),
            decreases b.len() - j,
        {
            let above: usize = row[j];
            let ghost wide = b@.take(j + 1);
            assert(wide.drop_last() =~= b@.take(j as int));
            assert(wide.last() == b@[j as int]);
            proof {
                lemma_distance_bound(upper, b@.take(j as int));
            }
            let mut here: usize = diagonal;
            if a[i] != b[j] {
                here = diagonal + 1;
            }
            if above < here {
                here = above + 1;
            }
            if left < here {
                here = left + 1;
            }
            diagonal = above;
            left = here;
            row.set(j, here);
            j += 1;
        }
        i += 1;
    }
    assert(a@.take(i as int) =~= a@);
    assert(b@.take(b@.len() as int) =~= b@);
    if b.len() == 0 {
        a.len()
    } else {
        row[b.len() - 1]
    }
}

/// The edit distance between two texts.
pub fn levenshtein(a: &str, b: &str) -> (d: usize)
    ensures
        d == distance(a@, b@),
{
    edit_distance(chars_of(a).as_slice(), chars_of(b).as_slice())
}

} // verus!
