//! Edit distance between two sequences of tokens.

use vstd::prelude::*;

use crate::version::VersionComponent;

verus! {

/// Something that can be compared for equality by its text.
pub trait Token {
    /// The text that identifies the token.
    spec fn token(&self) -> Seq<char>;

    fn same_token(&self, other: &Self) -> (b: bool)
        ensures
            b == (self.token() == other.token()),
    ;
}

impl Token for char {
    open spec fn token(&self) -> Seq<char> {
        seq![*self]
    }

    fn same_token(&self, other: &char) -> (b: bool) {
        let b = *self == *other;
        proof {
            if seq![*self] == seq![*other] {
                assert(seq![*self][0] == seq![*other][0]);
            }
        }
        b
    }
}

impl<'a> Token for VersionComponent<'a> {
    open spec fn token(&self) -> Seq<char> {
        self.0@
    }

    fn same_token(&self, other: &VersionComponent<'a>) -> (b: bool) {
        crate::text::str_eq(self.0, other.0)
    }
}

pub open spec fn tokens_of<T: Token>(s: Seq<T>) -> Seq<Seq<char>> {
    s.map_values(|x: T| x.token())
}

pub open spec fn min2(a: nat, b: nat) -> nat {
    if a <= b {
        a
    } else {
        b
    }
}

/// The Levenshtein distance: the fewest insertions, deletions and
/// substitutions of single tokens that turn `a` into `b`.
pub open spec fn edit_distance(a: Seq<Seq<char>>, b: Seq<Seq<char>>) -> nat
    decreases a.len() + b.len(),
{
    if a.len() == 0 {
        b.len()
    } else if b.len() == 0 {
        a.len()
    } else {
        let cost: nat = if a.last() == b.last() {
            0
        } else {
            1
        };
        min2(
            min2(edit_distance(a.drop_last(), b) + 1, edit_distance(a, b.drop_last()) + 1),
            edit_distance(a.drop_last(), b.drop_last()) + cost,
        )
    }
}

/// The distance does not depend on which sequence comes first.
pub proof fn lemma_edit_distance_symmetric(a: Seq<Seq<char>>, b: Seq<Seq<char>>)
    ensures
        edit_distance(a, b) == edit_distance(b, a),
    decreases a.len() + b.len(),
{
    if a.len() > 0 && b.len() > 0 {
        lemma_edit_distance_symmetric(a.drop_last(), b);
        lemma_edit_distance_symmetric(a, b.drop_last());
        lemma_edit_distance_symmetric(a.drop_last(), b.drop_last());
    }
}

/// A sequence is at distance zero from itself.
pub proof fn lemma_edit_distance_self(a: Seq<Seq<char>>)
    ensures
        edit_distance(a, a) == 0,
    decreases a.len(),
{
    if a.len() > 0 {
        lemma_edit_distance_self(a.drop_last());
    }
}

/// The distance never exceeds the length of the longer sequence.
pub proof fn lemma_edit_distance_bound(a: Seq<Seq<char>>, b: Seq<Seq<char>>)
    ensures
        edit_distance(a, b) <= if a.len() >= b.len() {
            a.len()
        } else {
            b.len()
        },
    decreases a.len() + b.len(),
{
    if a.len() > 0 && b.len() > 0 {
        lemma_edit_distance_bound(a.drop_last(), b.drop_last());
    }
}

/// Computes the Levenshtein distance between two token sequences with two
/// rows of the usual table, the shorter sequence indexing the rows.
pub fn levenshtein<T: Token>(from: &[T], to: &[T]) -> (d: usize)
    requires
        from@.len() < usize::MAX,
        to@.len() < usize::MAX,
    ensures
        d == edit_distance(tokens_of(from@), tokens_of(to@)),
    decreases from@.len() + to@.len(), (if from@.len() > to@.len() { 1int } else { 0int }),
{
    let from_len = from.len();
    let to_len = to.len();
    let ghost a = tokens_of(from@);
    let ghost b = tokens_of(to@);

    if from_len == 0 {
        return to_len;
    }
    if to_len == 0 {
        return from_len;
    }

    if from_len == to_len && all_same(from, to) {
        proof {
            assert(a =~= b);
            lemma_edit_distance_self(a);
        }
        return 0;
    }

    if from_len == 1 && to_len == 1 {
        let same = from[0].same_token(&to[0]);
        proof {
            assert(a.drop_last().len() == 0);
            assert(b.drop_last().len() == 0);
            assert(a.last() == from@[0].token());
            assert(b.last() == to@[0].token());
            assert(edit_distance(a.drop_last(), b) == 1);
            assert(edit_distance(a, b.drop_last()) == 1);
            assert(edit_distance(a.drop_last(), b.drop_last()) == 0);
        }
        return if same {
            0
        } else {
            1
        };
    }

    if from_len > to_len {
        let d = levenshtein(to, from);
        proof {
            lemma_edit_distance_symmetric(b, a);
        }
        return d;
    }

    // prev_row[j] is the distance from the first i - 1 tokens of `from` to the
    // first j of `to`; curr_row is filled in for the first i tokens.
    let mut prev_row: Vec<usize> = Vec::new();
    let mut j: usize = 0;
    while j <= to_len
        invariant
            j <= to_len + 1,
            to_len == b.len(),
            to_len < usize::MAX,
            prev_row@.len() == j,
            forall|k: int| 0 <= k < j ==> prev_row@[k] == edit_distance(a.take(0), b.take(k)),
        decreases to_len + 1 - j,
    {
        prev_row.push(j);
        j = j + 1;
    }
    let mut curr_row: Vec<usize> = Vec::new();
    let mut j: usize = 0;
    while j <= to_len
        invariant
            j <= to_len + 1,
            to_len < usize::MAX,
            curr_row@.len() == j,
        decreases to_len + 1 - j,
    {
        curr_row.push(0);
        j = j + 1;
    }

    let mut i: usize = 1;
    while i <= from_len
        invariant
            1 <= i <= from_len + 1,
            from_len <= to_len,
            from_len == a.len(),
            to_len == b.len(),
            to_len < usize::MAX,
            a == tokens_of(from@),
            b == tokens_of(to@),
            prev_row@.len() == to_len + 1,
            curr_row@.len() == to_len + 1,
            forall|k: int|
                0 <= k <= to_len ==> prev_row@[k] == edit_distance(a.take(i - 1), b.take(k)),
        decreases from_len + 1 - i,
    {
        curr_row.set(0, i);
        proof {
            assert(b.take(0).len() == 0);
        }
        let mut j: usize = 1;
        while j <= to_len
            invariant
                1 <= i <= from_len,
                1 <= j <= to_len + 1,
                from_len <= to_len,
                from_len == a.len(),
                to_len == b.len(),
                to_len < usize::MAX,
                a == tokens_of(from@),
                b == tokens_of(to@),
                prev_row@.len() == to_len + 1,
                curr_row@.len() == to_len + 1,
                forall|k: int|
                    0 <= k <= to_len ==> prev_row@[k] == edit_distance(a.take(i - 1), b.take(k)),
                forall|k: int| 0 <= k < j ==> curr_row@[k] == edit_distance(a.take(i as int), b.take(k)),
            decreases to_len + 1 - j,
        {
            proof {
                lemma_edit_distance_bound(a.take(i as int), b.take(j - 1));
                lemma_edit_distance_bound(a.take(i - 1), b.take(j as int));
                lemma_edit_distance_bound(a.take(i - 1), b.take(j - 1));
            }
            let same = from[i - 1].same_token(&to[j - 1]);
            let cost: usize = if same {
                0
            } else {
                1
            };
            let left = curr_row[j - 1] + 1;
            let up = prev_row[j] + 1;
            let diag = prev_row[j - 1] + cost;
            let m1 = if left <= up {
                left
            } else {
                up
            };
            let m = if m1 <= diag {
                m1
            } else {
                diag
            };
            proof {
                let ai = a.take(i as int);
                let bj = b.take(j as int);
                assert(ai.drop_last() == a.take(i - 1));
                assert(bj.drop_last() == b.take(j - 1));
                assert(ai.last() == from@[i - 1].token());
                assert(bj.last() == to@[j - 1].token());
            }
            curr_row.set(j, m);
            j = j + 1;
        }

        // The smallest entry of a row never exceeds the length of `to`.
        let mut row_min: usize = usize::MAX;
        let mut k: usize = 0;
        while k <= to_len
            invariant
                k <= to_len + 1,
                to_len < usize::MAX,
                curr_row@.len() == to_len + 1,
                i <= to_len,
                i < k ==> row_min <= curr_row@[i as int],
            decreases to_len + 1 - k,
        {
            if curr_row[k] < row_min {
                row_min = curr_row[k];
            }
            k = k + 1;
        }
        proof {
            lemma_edit_distance_bound(a.take(i as int), b.take(i as int));
        }
        if row_min > to_len {
            return to_len;
        }

        std::mem::swap(&mut prev_row, &mut curr_row);
        i = i + 1;
    }
    proof {
        assert(a.take(from_len as int) == a);
        assert(b.take(to_len as int) == b);
    }
    prev_row[to_len]
}

/// Whether two equally long sequences hold the same tokens.
fn all_same<T: Token>(from: &[T], to: &[T]) -> (r: bool)
    requires
        from@.len() == to@.len(),
    ensures
        r == (tokens_of(from@) == tokens_of(to@)),
{
    let mut i: usize = 0;
    while i < from.len()
        invariant
            from@.len() == to@.len(),
            i <= from@.len(),
            forall|k: int| 0 <= k < i ==> from@[k].token() == to@[k].token(),
        decreases from@.len() - i,
    {
        if !from[i].same_token(&to[i]) {
            assert(tokens_of(from@)[i as int] != tokens_of(to@)[i as int]);
            return false;
        }
        i = i + 1;
    }
    assert(tokens_of(from@) =~= tokens_of(to@));
    true
}

} // verus!
