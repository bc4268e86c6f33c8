//! Half-open key ranges over opaque byte strings, with the lexicographic
//! order and the overlap test that the compaction picker relies on.

use vstd::prelude::*;

verus! {

/// Strict lexicographic order on byte strings.
pub open spec fn lex_lt(a: Seq<u8>, b: Seq<u8>) -> bool
    decreases a.len() + b.len(),
{
    if b.len() == 0 {
        false
    } else if a.len() == 0 {
        true
    } else if a[0] < b[0] {
        true
    } else if a[0] > b[0] {
        false
    } else {
        lex_lt(a.drop_first(), b.drop_first())
    }
}

pub open spec fn lex_le(a: Seq<u8>, b: Seq<u8>) -> bool {
    lex_lt(a, b) || a == b
}

pub proof fn lemma_lex_irrefl(a: Seq<u8>)
    ensures
        !lex_lt(a, a),
    decreases a.len(),
{
    if a.len() > 0 {
        lemma_lex_irrefl(a.drop_first());
    }
}

/// Any two byte strings are ordered one way or the other, or are equal.
pub proof fn lemma_lex_total(a: Seq<u8>, b: Seq<u8>)
    ensures
        lex_lt(a, b) || lex_lt(b, a) || a == b,
    decreases a.len() + b.len(),
{
    if a.len() == 0 && b.len() == 0 {
        assert(a =~= b);
    } else if a.len() > 0 && b.len() > 0 && a[0] == b[0] {
        lemma_lex_total(a.drop_first(), b.drop_first());
        if a.drop_first() == b.drop_first() {
            assert(a =~= b) by {
                assert(a == seq![a[0]] + a.drop_first());
                assert(b == seq![b[0]] + b.drop_first());
            }
        }
    }
}

pub proof fn lemma_lex_trans(a: Seq<u8>, b: Seq<u8>, c: Seq<u8>)
    requires
        lex_lt(a, b),
        lex_lt(b, c),
    ensures
        lex_lt(a, c),
    decreases a.len() + b.len() + c.len(),
{
    if a.len() > 0 && b.len() > 0 && c.len() > 0 && a[0] == b[0] && b[0] == c[0] {
        lemma_lex_trans(a.drop_first(), b.drop_first(), c.drop_first());
    }
}

pub proof fn lemma_lex_asym(a: Seq<u8>, b: Seq<u8>)
    requires
        lex_lt(a, b),
    ensures
        !lex_lt(b, a),
{
    if lex_lt(b, a) {
        lemma_lex_trans(a, b, a);
        lemma_lex_irrefl(a);
    }
}

/// Compares two byte strings under the lexicographic order.
pub fn bytes_lt(a: &Vec<u8>, b: &Vec<u8>) -> (r: bool)
    ensures
        r == lex_lt(a@, b@),
{
    let a_len: usize = a.len();
    let b_len: usize = b.len();
    let mut i: usize = 0;
    proof {
        assert(a@.skip(0) =~= a@);
        assert(b@.skip(0) =~= b@);
    }
    loop
        invariant
            i <= a_len,
            i <= b_len,
            a_len == a@.len(),
            b_len == b@.len(),
            forall|k: int| 0 <= k < i ==> a@[k] == b@[k],
            lex_lt(a@, b@) == lex_lt(a@.skip(i as int), b@.skip(i as int)),
        decreases a_len - i,
    {
        if i == b_len {
            assert(b@.skip(i as int).len() == 0);
            return false;
        }
        if i == a_len {
            assert(a@.skip(i as int).len() == 0);
            assert(b@.skip(i as int).len() > 0);
            return true;
        }
        let av = a[i];
        let bv = b[i];
        assert(a@.skip(i as int)[0] == a@[i as int]);
        assert(b@.skip(i as int)[0] == b@[i as int]);
        if av < bv {
            return true;
        }
        if av > bv {
            return false;
        }
        proof {
            assert(a@.skip(i as int).drop_first() =~= a@.skip(i + 1));
            assert(b@.skip(i as int).drop_first() =~= b@.skip(i + 1));
        }
        i = i + 1;
    }
}

/// A half-open key range `[left, right)` over opaque byte strings.
#[derive(Clone, Debug, PartialEq)]
pub struct KeyRange {
    pub left: Vec<u8>,
    pub right: Vec<u8>,
}

pub ghost struct KeyRangeView {
    pub left: Seq<u8>,
    pub right: Seq<u8>,
}

impl View for KeyRange {
    type V = KeyRangeView;

    open spec fn view(&self) -> KeyRangeView {
        KeyRangeView { left: self.left@, right: self.right@ }
    }
}

/// Two half-open ranges intersect: both are non-empty and each starts before
/// the other ends.
pub open spec fn overlap(a: KeyRangeView, b: KeyRangeView) -> bool {
    &&& lex_lt(a.left, a.right)
    &&& lex_lt(b.left, b.right)
    &&& lex_lt(a.left, b.right)
    &&& lex_lt(b.left, a.right)
}

/// The overlap test is symmetric.
pub proof fn lemma_overlap_symmetric(a: KeyRangeView, b: KeyRangeView)
    ensures
        overlap(a, b) == overlap(b, a),
{
}

/// A non-empty range overlaps itself; an empty one overlaps nothing.
pub proof fn lemma_overlap_self(a: KeyRangeView)
    ensures
        overlap(a, a) == lex_lt(a.left, a.right),
{
}

/// Total order on ranges: by left bound, then by right bound.
pub open spec fn range_lt(a: KeyRangeView, b: KeyRangeView) -> bool {
    lex_lt(a.left, b.left) || (a.left == b.left && lex_lt(a.right, b.right))
}

pub open spec fn range_le(a: KeyRangeView, b: KeyRangeView) -> bool {
    range_lt(a, b) || (a.left == b.left && a.right == b.right)
}

pub proof fn lemma_range_le_total(a: KeyRangeView, b: KeyRangeView)
    ensures
        range_le(a, b) || range_le(b, a),
{
    lemma_lex_total(a.left, b.left);
    lemma_lex_total(a.right, b.right);
}

pub proof fn lemma_range_le_trans(a: KeyRangeView, b: KeyRangeView, c: KeyRangeView)
    requires
        range_le(a, b),
        range_le(b, c),
    ensures
        range_le(a, c),
{
    if lex_lt(a.left, b.left) && lex_lt(b.left, c.left) {
        lemma_lex_trans(a.left, b.left, c.left);
    }
    if a.left == b.left && a.right == b.right && b.left == c.left && lex_lt(b.right, c.right) {
    }
    if lex_lt(a.right, b.right) && lex_lt(b.right, c.right) {
        lemma_lex_trans(a.right, b.right, c.right);
    }
}

/// A byte-for-byte copy.
pub fn clone_bytes(v: &Vec<u8>) -> (r: Vec<u8>)
    ensures
        r@ == v@,
{
    let mut out: Vec<u8> = Vec::new();
    let mut k: usize = 0;
    while k < v.len()
        invariant
            k <= v.len(),
            out@ == v@.subrange(0, k as int),
        decreases v.len() - k,
    {
        out.push(v[k]);
        assert(out@ =~= v@.subrange(0, k as int + 1));
        k = k + 1;
    }
    assert(out@ =~= v@);
    out
}

impl KeyRange {
    /// A field-for-field copy of the range.
    pub fn duplicate(&self) -> (r: KeyRange)
        ensures
            r@ == self@,
    {
        KeyRange { left: clone_bytes(&self.left), right: clone_bytes(&self.right) }
    }

    pub fn new(left: Vec<u8>, right: Vec<u8>) -> (r: KeyRange)
        ensures
            r@.left == left@,
            r@.right == right@,
    {
        KeyRange { left, right }
    }

    /// Do the two ranges share at least one key?
    pub fn overlaps(&self, other: &KeyRange) -> (r: bool)
        ensures
            r == overlap(self@, other@),
    {
        bytes_lt(&self.left, &self.right) && bytes_lt(&other.left, &other.right)
            && bytes_lt(&self.left, &other.right) && bytes_lt(&other.left, &self.right)
    }

    /// `self` comes no later than `other` in the (left, right) order.
    pub fn le(&self, other: &KeyRange) -> (r: bool)
        ensures
            r == range_le(self@, other@),
    {
        if bytes_lt(&self.left, &other.left) {
            true
        } else if bytes_lt(&other.left, &self.left) {
            false
        } else {
            proof {
                lemma_lex_total(self@.left, other@.left);
            }
            if bytes_lt(&self.right, &other.right) {
                true
            } else if bytes_lt(&other.right, &self.right) {
                proof {
                    lemma_lex_asym(other@.right, self@.right);
                }
                false
            } else {
                proof {
                    lemma_lex_total(self@.right, other@.right);
                }
                true
            }
        }
    }
}

} // verus!
