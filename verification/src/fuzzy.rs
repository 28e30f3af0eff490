//! Fuzzy matching of file names by edit distance.

use vstd::prelude::*;
use vstd::string::StrSliceExecFns;

verus! {

/// Least of three numbers.
pub open spec fn min3(x: nat, y: nat, z: nat) -> nat {
    if x <= y && x <= z {
        x
    } else if y <= z {
        y
    } else {
        z
    }
}

/// Levenshtein distance: the least number of characters to insert, delete
/// or replace to turn `a` into `b`.
pub open spec fn edit_distance(a: Seq<char>, b: Seq<char>) -> nat
    decreases a.len() + b.len(),
{
    if a.len() == 0 {
        b.len()
    } else if b.len() == 0 {
        a.len()
    } else if a.last() == b.last() {
        edit_distance(a.drop_last(), b.drop_last())
    } else {
        1 + min3(
            edit_distance(a.drop_last(), b),
            edit_distance(a, b.drop_last()),
            edit_distance(a.drop_last(), b.drop_last()),
        )
    }
}

/// Greater of two lengths.
pub open spec fn longer(x: nat, y: nat) -> nat {
    if x >= y {
        x
    } else {
        y
    }
}

/// Two names match when they are equal, or when both have at least five
/// characters and their similarity, one minus distance over the greater
/// length, is at least four fifths.
pub open spec fn names_match(a: Seq<char>, b: Seq<char>) -> bool {
    a == b || (a.len() >= 5 && b.len() >= 5 && 5 * edit_distance(a, b) <= longer(a.len(), b.len()))
}

/// The distance is at most the greater of the two lengths.
pub proof fn lemma_distance_bound(a: Seq<char>, b: Seq<char>)
    ensures
        edit_distance(a, b) <= longer(a.len(), b.len()),
    decreases a.len() + b.len(),
{
    if a.len() > 0 && b.len() > 0 {
        lemma_distance_bound(a.drop_last(), b.drop_last());
        if a.last() != b.last() {
            lemma_distance_bound(a.drop_last(), b);
            lemma_distance_bound(a, b.drop_last());
        }
    }
}

/// A text is at distance zero from itself.
pub proof fn lemma_distance_to_self(a: Seq<char>)
    ensures
        edit_distance(a, a) == 0,
    decreases a.len(),
{
    if a.len() > 0 {
        lemma_distance_to_self(a.drop_last());
    }
}

/// The distance from `a` to `b` is the distance from `b` to `a`.
pub proof fn lemma_distance_symmetric(a: Seq<char>, b: Seq<char>)
    ensures
        edit_distance(a, b) == edit_distance(b, a),
    decreases a.len() + b.len(),
{
    if a.len() > 0 && b.len() > 0 {
        lemma_distance_symmetric(a.drop_last(), b.drop_last());
        if a.last() != b.last() {
            lemma_distance_symmetric(a.drop_last(), b);
            lemma_distance_symmetric(a, b.drop_last());
        }
    }
}

/// Only equal texts are at distance zero.
pub proof fn lemma_distance_zero(a: Seq<char>, b: Seq<char>)
    ensures
        edit_distance(a, b) == 0 <==> a == b,
    decreases a.len() + b.len(),
{
    if a.len() == 0 || b.len() == 0 {
        if a.len() == 0 && b.len() == 0 {
            assert(a =~= b);
        }
    } else {
        lemma_distance_zero(a.drop_last(), b.drop_last());
        if a.last() == b.last() {
            if a.drop_last() == b.drop_last() {
                assert(a =~= a.drop_last().push(a.last()));
                assert(b =~= b.drop_last().push(b.last()));
            }
        }
    }
}

/// Names that match are exactly the equal ones where one of them has fewer
/// than five characters, and matching does not depend on which name comes first.
pub proof fn lemma_names_match_symmetric(a: Seq<char>, b: Seq<char>)
    ensures
        names_match(a, b) == names_match(b, a),
        (a.len() < 5 || b.len() < 5) ==> (names_match(a, b) <==> a == b),
{
    lemma_distance_symmetric(a, b);
}

/// The characters of a string.
pub fn chars_of(s: &str) -> (chars: Vec<char>)
    ensures
        chars@ == s@,
{
    let n = s.unicode_len();
    let mut chars: Vec<char> = Vec::new();
    let mut i: usize = 0;
    while i < n
        invariant
            i <= n,
            n == s@.len(),
            chars@ == s@.take(i as int),
        decreases n - i,
    {
        chars.push(s.get_char(i));
        assert(s@.take(i + 1) =~= s@.take(i as int).push(s@[i as int]));
        i += 1;
    }
    assert(s@.take(n as int) =~= s@);
    chars
}

/// Levenshtein distance between two sequences of characters.
pub fn distance_between(a: &Vec<char>, b: &Vec<char>) -> (d: usize)
    ensures
        d == edit_distance(a@, b@),
{
    let n1 = a.len();
    let n2 = b.len();
    // Row `i` of the table: the distances from the first `i` characters of
    // `a` to every prefix of `b`.
    let mut prev: Vec<usize> = Vec::new();
    prev.push(0);
    let mut j: usize = 0;
    while j < n2
        invariant
            j <= n2,
            n2 == b.len(),
            prev.len() == j + 1,
            forall|k: int| 0 <= k <= j ==> prev@[k] == k,
        decreases n2 - j,
    {
        prev.push(j + 1);
        j += 1;
    }
    proof {
        assert forall|k: int| 0 <= k <= n2 implies prev@[k] == edit_distance(
            a@.take(0),
            b@.take(k),
        ) by {
            assert(a@.take(0).len() == 0);
        }
    }
    let mut i: usize = 0;
    while i < n1
        invariant
            i <= n1,
            n1 == a.len(),
            n2 == b.len(),
            prev.len() == n2 + 1,
            forall|k: int|
                0 <= k <= n2 ==> prev@[k] == edit_distance(a@.take(i as int), b@.take(k)),
        decreases n1 - i,
    {
        let mut cur: Vec<usize> = Vec::new();
        cur.push(i + 1);
        proof {
            assert(b@.take(0).len() == 0);
            assert(a@.take(i + 1).len() == i + 1);
        }
        let mut j: usize = 0;
        while j < n2
            invariant
                j <= n2,
                i < n1,
                n1 == a.len(),
                n2 == b.len(),
                prev.len() == n2 + 1,
                cur.len() == j + 1,
                forall|k: int|
                    0 <= k <= n2 ==> prev@[k] == edit_distance(a@.take(i as int), b@.take(k)),
                forall|k: int|
                    0 <= k <= j ==> cur@[k] == edit_distance(a@.take(i + 1), b@.take(k)),
            decreases n2 - j,
        {
            let ghost head = a@.take(i + 1);
            let ghost tail = b@.take(j + 1);
            proof {
                assert(head.drop_last() =~= a@.take(i as int));
                assert(tail.drop_last() =~= b@.take(j as int));
                assert(head.last() == a@[i as int]);
                assert(tail.last() == b@[j as int]);
                lemma_distance_bound(a@.take(i as int), b@.take(j as int));
            }
            let cell: usize = if a[i] == b[j] {
                prev[j]
            } else {
                let up: usize = prev[j + 1];
                let left: usize = cur[j];
                let diagonal: usize = prev[j];
                let least: usize = if up <= left && up <= diagonal {
                    up
                } else if left <= diagonal {
                    left
                } else {
                    diagonal
                };
                1 + least
            };
            cur.push(cell);
            j += 1;
        }
        prev = cur;
        i += 1;
    }
    proof {
        assert(a@.take(n1 as int) =~= a@);
        assert(b@.take(n2 as int) =~= b@);
    }
    prev[n2]
}

/// Levenshtein distance between two strings, counted in characters.
pub fn levenshtein_distance(s1: &str, s2: &str) -> (d: usize)
    ensures
        d == edit_distance(s1@, s2@),
{
    let chars1 = chars_of(s1);
    let chars2 = chars_of(s2);
    distance_between(&chars1, &chars2)
}

/// Do two file names match, exactly or fuzzily?
pub fn filenames_fuzzy_match(filename1: &str, filename2: &str) -> (matched: bool)
    ensures
        matched == names_match(filename1@, filename2@),
{
    let chars1 = chars_of(filename1);
    let chars2 = chars_of(filename2);
    if same_chars(&chars1, &chars2) {
        return true;
    }
    if chars1.len() < 5 || chars2.len() < 5 {
        return false;
    }
    let distance = distance_between(&chars1, &chars2);
    let max_len: usize = if chars1.len() >= chars2.len() {
        chars1.len()
    } else {
        chars2.len()
    };
    distance <= max_len / 5
}

/// Are two sequences of characters equal?
fn same_chars(a: &Vec<char>, b: &Vec<char>) -> (same: bool)
    ensures
        same == (a@ == b@),
{
    if a.len() != b.len() {
        return false;
    }
    let mut i: usize = 0;
    while i < a.len()
        invariant
            i <= a.len(),
            a.len() == b.len(),
            forall|k: int| 0 <= k < i ==> a@[k] == b@[k],
        decreases a.len() - i,
    {
        if a[i] != b[i] {
            return false;
        }
        i += 1;
    }
    assert(a@ =~= b@);
    true
}

} // verus!
