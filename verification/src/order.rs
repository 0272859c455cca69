//! A total order on key views, and implementations for common key types.

use vstd::prelude::*;
use vstd::string::StrSliceExecFns;

verus! {

/// Result of a three-way comparison between two keys.
pub enum Cmp {
    Less,
    Equal,
    Greater,
}

/// A key type usable in the search tree: a strict total order on the key's
/// mathematical value (its view, `<Self as View>::V`), together with an
/// executable three-way comparison that decides that order.
///
/// The order is placed on views rather than on the key values themselves so
/// that key types whose runtime representation is richer than their
/// mathematical value (string slices, for instance) can serve as keys: the
/// tree's specification then speaks of the views alone.
pub trait TreeKey: View + Sized {
    /// The order itself: `a` is less than or equal to `b`.
    spec fn key_le(a: Self::V, b: Self::V) -> bool;

    proof fn le_reflexive(a: Self::V)
        ensures
            Self::key_le(a, a),
    ;

    proof fn le_transitive(a: Self::V, b: Self::V, c: Self::V)
        requires
            Self::key_le(a, b),
            Self::key_le(b, c),
        ensures
            Self::key_le(a, c),
    ;

    proof fn le_antisymmetric(a: Self::V, b: Self::V)
        requires
            Self::key_le(a, b),
            Self::key_le(b, a),
        ensures
            a == b,
    ;

    proof fn le_total(a: Self::V, b: Self::V)
        ensures
            Self::key_le(a, b) || Self::key_le(b, a),
    ;

    /// Decide the order of two keys.
    fn compare(&self, other: &Self) -> (c: Cmp)
        ensures
            (match c {
                Cmp::Less => Self::key_le(self@, other@) && self@ != other@,
                Cmp::Equal => self@ == other@,
                Cmp::Greater => Self::key_le(other@, self@) && self@ != other@,
            }),
    ;
}

/// Strict version of the order: less than, and not equal.
pub open spec fn key_lt<K: TreeKey>(a: K::V, b: K::V) -> bool {
    K::key_le(a, b) && a != b
}

/// The strict order is transitive.
pub proof fn lemma_key_lt_transitive<K: TreeKey>(a: K::V, b: K::V, c: K::V)
    requires
        key_lt::<K>(a, b),
        key_lt::<K>(b, c),
    ensures
        key_lt::<K>(a, c),
{
    K::le_transitive(a, b, c);
    if a == c {
        K::le_antisymmetric(a, b);
    }
}

impl TreeKey for u64 {
    open spec fn key_le(a: u64, b: u64) -> bool {
        a <= b
    }

    proof fn le_reflexive(a: u64) {
    }

    proof fn le_transitive(a: u64, b: u64, c: u64) {
    }

    proof fn le_antisymmetric(a: u64, b: u64) {
    }

    proof fn le_total(a: u64, b: u64) {
    }

    fn compare(&self, other: &Self) -> (c: Cmp) {
        if *self < *other {
            Cmp::Less
        } else if *self == *other {
            Cmp::Equal
        } else {
            Cmp::Greater
        }
    }
}

impl TreeKey for i32 {
    open spec fn key_le(a: i32, b: i32) -> bool {
        a <= b
    }

    proof fn le_reflexive(a: i32) {
    }

    proof fn le_transitive(a: i32, b: i32, c: i32) {
    }

    proof fn le_antisymmetric(a: i32, b: i32) {
    }

    proof fn le_total(a: i32, b: i32) {
    }

    fn compare(&self, other: &Self) -> (c: Cmp) {
        if *self < *other {
            Cmp::Less
        } else if *self == *other {
            Cmp::Equal
        } else {
            Cmp::Greater
        }
    }
}

/// Lexicographic order on character sequences, by code point.
pub open spec fn seq_le(a: Seq<char>, b: Seq<char>) -> bool
    decreases a.len(),
{
    if a.len() == 0 {
        true
    } else if b.len() == 0 {
        false
    } else if a[0] == b[0] {
        seq_le(a.skip(1), b.skip(1))
    } else {
        (a[0] as u32) < (b[0] as u32)
    }
}

proof fn lemma_seq_le_reflexive(a: Seq<char>)
    ensures
        seq_le(a, a),
    decreases a.len(),
{
    if a.len() > 0 {
        lemma_seq_le_reflexive(a.skip(1));
    }
}

/// Distinct characters have distinct code points.
proof fn lemma_char_ne(x: char, y: char)
    requires
        x != y,
    ensures
        x as u32 != y as u32,
{
}

proof fn lemma_seq_le_total(a: Seq<char>, b: Seq<char>)
    ensures
        seq_le(a, b) || seq_le(b, a),
    decreases a.len(),
{
    if a.len() == 0 {
        assert(seq_le(a, b));
    } else if b.len() == 0 {
        assert(seq_le(b, a));
    } else if a[0] == b[0] {
        lemma_seq_le_total(a.skip(1), b.skip(1));
    } else if (a[0] as u32) < (b[0] as u32) {
        assert(seq_le(a, b));
    } else {
        lemma_char_ne(a[0], b[0]);
        assert((b[0] as u32) < (a[0] as u32));
        assert(seq_le(b, a));
    }
}

proof fn lemma_seq_le_antisymmetric(a: Seq<char>, b: Seq<char>)
    requires
        seq_le(a, b),
        seq_le(b, a),
    ensures
        a == b,
    decreases a.len(),
{
    if a.len() == 0 {
        assert(a =~= b);
    } else {
        lemma_seq_le_antisymmetric(a.skip(1), b.skip(1));
        assert(a.skip(1) == b.skip(1));
        assert forall|i: int| 0 <= i < a.len() implies a[i] == b[i] by {
            if i > 0 {
                assert(a[i] == a.skip(1)[i - 1]);
                assert(b[i] == b.skip(1)[i - 1]);
            }
        }
        assert(a =~= b);
    }
}

proof fn lemma_seq_le_transitive(a: Seq<char>, b: Seq<char>, c: Seq<char>)
    requires
        seq_le(a, b),
        seq_le(b, c),
    ensures
        seq_le(a, c),
    decreases a.len(),
{
    if a.len() > 0 && b.len() > 0 && c.len() > 0 && a[0] == b[0] && b[0] == c[0] {
        lemma_seq_le_transitive(a.skip(1), b.skip(1), c.skip(1));
    }
}

/// Two sequences that agree up to position `i` are ordered by what happens
/// there: either the first ends, or it holds the smaller character.
proof fn lemma_seq_le_from_prefix(a: Seq<char>, b: Seq<char>, i: int)
    requires
        0 <= i <= a.len(),
        i <= b.len(),
        forall|j: int| 0 <= j < i ==> a[j] == b[j],
        i == a.len() || (i < b.len() && (a[i] as u32) < (b[i] as u32)),
    ensures
        seq_le(a, b),
    decreases i,
{
    if i == 0 {
        if a.len() > 0 {
            assert(a[0] != b[0]);
        }
    } else {
        lemma_seq_le_from_prefix(a.skip(1), b.skip(1), i - 1);
    }
}

/// Decide the lexicographic order of two string slices, character by
/// character.
fn str_compare(a: &str, b: &str) -> (c: Cmp)
    ensures
        (match c {
            Cmp::Less => seq_le(a@, b@) && a@ != b@,
            Cmp::Equal => a@ == b@,
            Cmp::Greater => seq_le(b@, a@) && a@ != b@,
        }),
{
    let n1 = a.unicode_len();
    let n2 = b.unicode_len();
    let mut i: usize = 0;
    loop
        invariant
            i <= n1,
            i <= n2,
            n1 == a@.len(),
            n2 == b@.len(),
            forall|j: int| 0 <= j < i ==> a@[j] == b@[j],
        decreases n1 - i,
    {
        if i == n1 {
            if i == n2 {
                proof {
                    assert(a@ =~= b@);
                }
                return Cmp::Equal;
            } else {
                proof {
                    lemma_seq_le_from_prefix(a@, b@, i as int);
                }
                return Cmp::Less;
            }
        } else if i == n2 {
            proof {
                lemma_seq_le_from_prefix(b@, a@, i as int);
            }
            return Cmp::Greater;
        } else {
            let ca = a.get_char(i);
            let cb = b.get_char(i);
            if ca == cb {
                i = i + 1;
            } else if (ca as u32) < (cb as u32) {
                proof {
                    lemma_seq_le_from_prefix(a@, b@, i as int);
                }
                return Cmp::Less;
            } else {
                proof {
                    assert((cb as u32) < (ca as u32));
                    lemma_seq_le_from_prefix(b@, a@, i as int);
                }
                return Cmp::Greater;
            }
        }
    }
}

impl TreeKey for &'static str {
    open spec fn key_le(a: Seq<char>, b: Seq<char>) -> bool {
        seq_le(a, b)
    }

    proof fn le_reflexive(a: Seq<char>) {
        lemma_seq_le_reflexive(a);
    }

    proof fn le_transitive(a: Seq<char>, b: Seq<char>, c: Seq<char>) {
        lemma_seq_le_transitive(a, b, c);
    }

    proof fn le_antisymmetric(a: Seq<char>, b: Seq<char>) {
        lemma_seq_le_antisymmetric(a, b);
    }

    proof fn le_total(a: Seq<char>, b: Seq<char>) {
        lemma_seq_le_total(a, b);
    }

    fn compare(&self, other: &Self) -> (c: Cmp) {
        str_compare(*self, *other)
    }
}

} // verus!
