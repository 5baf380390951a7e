//! A total order on element values, shared by every search and sort in this
//! crate.
//!
//! The order is stated on deep views rather than on the elements themselves,
//! so that types whose notion of equality is structural (such as `String`,
//! where two distinct allocations may hold the same text) can still satisfy
//! antisymmetry.

use vstd::prelude::*;

verus! {

/// A type whose values are totally ordered by a relation on their deep views.
///
/// `le` must be total, transitive and antisymmetric on views, and the
/// executable comparison `le_exec` must agree with it.
pub trait TotalOrder: Sized + DeepView {
    /// The ordering relation, on deep views.
    spec fn le(a: Self::V, b: Self::V) -> bool;

    /// Any two views are comparable.
    proof fn lemma_le_total(a: Self::V, b: Self::V)
        ensures
            Self::le(a, b) || Self::le(b, a),
    ;

    /// The relation is transitive.
    proof fn lemma_le_transitive(a: Self::V, b: Self::V, c: Self::V)
        requires
            Self::le(a, b),
            Self::le(b, c),
        ensures
            Self::le(a, c),
    ;

    /// Views below one another are equal.
    proof fn lemma_le_antisymmetric(a: Self::V, b: Self::V)
        requires
            Self::le(a, b),
            Self::le(b, a),
        ensures
            a == b,
    ;

    /// Executable comparison, faithful to the relation.
    fn le_exec(&self, other: &Self) -> (r: bool)
        ensures
            r == Self::le(self.deep_view(), other.deep_view()),
    ;
}

/// True when `a` and `b` denote the same value.
pub open spec fn same_value<T: TotalOrder>(a: T, b: T) -> bool {
    a.deep_view() == b.deep_view()
}

/// The sequence is in ascending order: every element is below every later one.
pub open spec fn sorted<T: TotalOrder>(s: Seq<T>) -> bool {
    forall|i: int, j: int|
        0 <= i <= j < s.len() ==> T::le(#[trigger] s[i].deep_view(), #[trigger] s[j].deep_view())
}

/// Some element of `s` carries the same value as `x`.
pub open spec fn has_value<T: TotalOrder>(s: Seq<T>, x: T) -> bool {
    exists|i: int| 0 <= i < s.len() && #[trigger] s[i].deep_view() == x.deep_view()
}

/// Executable equality test derived from the order: two values are equal
/// exactly when each is below the other.
pub fn eq_by_order<T: TotalOrder>(a: &T, b: &T) -> (r: bool)
    ensures
        r == same_value(*a, *b),
{
    let le_ab = a.le_exec(b);
    let le_ba = b.le_exec(a);
    proof {
        if le_ab && le_ba {
            T::lemma_le_antisymmetric(a.deep_view(), b.deep_view());
        }
        if a.deep_view() == b.deep_view() {
            T::lemma_le_total(a.deep_view(), b.deep_view());
        }
    }
    le_ab && le_ba
}

/// Executable strict comparison: true exactly when `b` is not below `a`,
/// which in a total order means `a` is strictly below `b`.
pub fn lt_by_order<T: TotalOrder>(a: &T, b: &T) -> (r: bool)
    ensures
        r == !T::le(b.deep_view(), a.deep_view()),
        r ==> T::le(a.deep_view(), b.deep_view()),
        r ==> a.deep_view() != b.deep_view(),
{
    let r = !b.le_exec(a);
    proof {
        if r {
            T::lemma_le_total(a.deep_view(), b.deep_view());
        }
    }
    r
}

impl TotalOrder for u64 {
    open spec fn le(a: u64, b: u64) -> bool {
        a <= b
    }

    proof fn lemma_le_total(a: u64, b: u64) {
    }

    proof fn lemma_le_transitive(a: u64, b: u64, c: u64) {
    }

    proof fn lemma_le_antisymmetric(a: u64, b: u64) {
    }

    fn le_exec(&self, other: &Self) -> (r: bool) {
        *self <= *other
    }
}

impl TotalOrder for usize {
    open spec fn le(a: usize, b: usize) -> bool {
        a <= b
    }

    proof fn lemma_le_total(a: usize, b: usize) {
    }

    proof fn lemma_le_transitive(a: usize, b: usize, c: usize) {
    }

    proof fn lemma_le_antisymmetric(a: usize, b: usize) {
    }

    fn le_exec(&self, other: &Self) -> (r: bool) {
        *self <= *other
    }
}

impl TotalOrder for i64 {
    open spec fn le(a: i64, b: i64) -> bool {
        a <= b
    }

    proof fn lemma_le_total(a: i64, b: i64) {
    }

    proof fn lemma_le_transitive(a: i64, b: i64, c: i64) {
    }

    proof fn lemma_le_antisymmetric(a: i64, b: i64) {
    }

    fn le_exec(&self, other: &Self) -> (r: bool) {
        *self <= *other
    }
}

impl TotalOrder for i32 {
    open spec fn le(a: i32, b: i32) -> bool {
        a <= b
    }

    proof fn lemma_le_total(a: i32, b: i32) {
    }

    proof fn lemma_le_transitive(a: i32, b: i32, c: i32) {
    }

    proof fn lemma_le_antisymmetric(a: i32, b: i32) {
    }

    fn le_exec(&self, other: &Self) -> (r: bool) {
        *self <= *other
    }
}

/// Lexicographic order on character sequences: compare position by position,
/// by code point; a proper prefix comes before any of its extensions.
pub open spec fn lex_le(a: Seq<char>, b: Seq<char>) -> bool
    decreases a.len(),
{
    if a.len() == 0 {
        true
    } else if b.len() == 0 {
        false
    } else if a[0] == b[0] {
        lex_le(a.drop_first(), b.drop_first())
    } else {
        (a[0] as u32) < (b[0] as u32)
    }
}

/// Distinct characters have distinct code points.
proof fn lemma_char_cast_distinct(c1: char, c2: char)
    requires
        c1 != c2,
    ensures
        c1 as u32 != c2 as u32,
{
}

/// Any two character sequences are comparable under `lex_le`.
pub proof fn lemma_lex_le_total(a: Seq<char>, b: Seq<char>)
    ensures
        lex_le(a, b) || lex_le(b, a),
    decreases a.len(),
{
    if a.len() == 0 || b.len() == 0 {
    } else if a[0] == b[0] {
        lemma_lex_le_total(a.drop_first(), b.drop_first());
    } else {
        lemma_char_cast_distinct(a[0], b[0]);
    }
}

/// `lex_le` is transitive.
pub proof fn lemma_lex_le_transitive(a: Seq<char>, b: Seq<char>, c: Seq<char>)
    requires
        lex_le(a, b),
        lex_le(b, c),
    ensures
        lex_le(a, c),
    decreases a.len(),
{
    if a.len() == 0 {
    } else {
        if a[0] == b[0] && b[0] == c[0] {
            lemma_lex_le_transitive(a.drop_first(), b.drop_first(), c.drop_first());
        }
    }
}

/// Character sequences below one another under `lex_le` are equal.
pub proof fn lemma_lex_le_antisymmetric(a: Seq<char>, b: Seq<char>)
    requires
        lex_le(a, b),
        lex_le(b, a),
    ensures
        a == b,
    decreases a.len(),
{
    if a.len() == 0 {
        assert(a =~= b);
    } else {
        assert(b.len() > 0);
        assert(a[0] == b[0]);
        lemma_lex_le_antisymmetric(a.drop_first(), b.drop_first());
        assert(a.drop_first().len() == b.drop_first().len());
        assert(a.len() == b.len());
        assert forall|k: int| 0 <= k < a.len() implies a[k] == b[k] by {
            if k > 0 {
                assert(a[k] == a.drop_first()[k - 1]);
                assert(b[k] == b.drop_first()[k - 1]);
            }
        }
        assert(a =~= b);
    }
}

/// Verified lexicographic comparison of two string slices, character by
/// character through `get_char`.
fn str_lex_le(a: &str, b: &str) -> (r: bool)
    ensures
        r == lex_le(a@, b@),
{
    let a_len = a.unicode_len();
    let b_len = b.unicode_len();
    let mut i: usize = 0;
    proof {
        assert(a@.skip(0) =~= a@);
        assert(b@.skip(0) =~= b@);
    }
    while i < a_len && i < b_len
        invariant
            a_len == a@.len(),
            b_len == b@.len(),
            i <= a_len,
            i <= b_len,
            lex_le(a@, b@) == lex_le(a@.skip(i as int), b@.skip(i as int)),
        decreases a_len - i,
    {
        let ca = a.get_char(i);
        let cb = b.get_char(i);
        proof {
            assert(a@.skip(i as int)[0] == ca);
            assert(b@.skip(i as int)[0] == cb);
        }
        if ca as u32 != cb as u32 {
            return (ca as u32) < (cb as u32);
        }
        proof {
            assert(a@.skip(i as int).drop_first() =~= a@.skip(i as int + 1));
            assert(b@.skip(i as int).drop_first() =~= b@.skip(i as int + 1));
        }
        i = i + 1;
    }
    proof {
        if a_len <= b_len {
            assert(i == a_len);
            assert(a@.skip(i as int).len() == 0);
        } else {
            assert(i == b_len);
            assert(b@.skip(i as int).len() == 0);
            assert(a@.skip(i as int).len() > 0);
        }
    }
    a_len <= b_len
}

impl TotalOrder for String {
    open spec fn le(a: Seq<char>, b: Seq<char>) -> bool {
        lex_le(a, b)
    }

    proof fn lemma_le_total(a: Seq<char>, b: Seq<char>) {
        lemma_lex_le_total(a, b);
    }

    proof fn lemma_le_transitive(a: Seq<char>, b: Seq<char>, c: Seq<char>) {
        lemma_lex_le_transitive(a, b, c);
    }

    proof fn lemma_le_antisymmetric(a: Seq<char>, b: Seq<char>) {
        lemma_lex_le_antisymmetric(a, b);
    }

    fn le_exec(&self, other: &Self) -> (r: bool) {
        str_lex_le(self.as_str(), other.as_str())
    }
}

} // verus!
