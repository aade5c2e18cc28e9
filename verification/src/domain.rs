//! A compact set of uppercase letters A-Z, stored as a 26-bit mask.

use vstd::prelude::*;

verus! {

/// Index of `c` in the alphabet: 'A' is 0, 'Z' is 25.
pub open spec fn letter_idx(c: char) -> int {
    c as int - 65
}

/// `c` is an uppercase ASCII letter.
pub open spec fn is_letter(c: char) -> bool {
    65 <= c as int && c as int <= 90
}

/// The uppercase letter whose alphabet index is `i`.
pub open spec fn idx_char(i: int) -> char {
    ((i + 65) as u8) as char
}

/// ASCII case folding: a lowercase letter maps to its uppercase form,
/// every other character is unchanged.
pub open spec fn spec_to_upper(c: char) -> char {
    if 97 <= c as int && c as int <= 122 {
        ((c as int - 32) as u8) as char
    } else {
        c
    }
}

/// The Unicode code point of `c`.
pub fn char_code(c: char) -> (u: u32)
    ensures
        u == c as int,
{
    c as u32
}

/// Executable ASCII case folding, exact against `spec_to_upper`.
pub fn to_upper(c: char) -> (r: char)
    ensures
        r == spec_to_upper(c),
{
    let u = c as u32;
    if 97 <= u && u <= 122 {
        ((u - 32) as u8) as char
    } else {
        c
    }
}

/// Number of set bits of `m` among the low `n` bits.
pub open spec fn count_bits(m: u32, n: int) -> nat
    decreases n,
{
    if n <= 0 {
        0
    } else {
        count_bits(m, n - 1) + (if (m >> ((n - 1) as u32)) & 1u32 == 1u32 {
            1nat
        } else {
            0nat
        })
    }
}

/// A set of letters from A-Z: bit `i` of the mask stands for the letter
/// `idx_char(i)`. Only the low 26 bits are ever set.
#[derive(Clone, Copy, Debug, PartialEq, Eq, Structural)]
pub struct Domain(pub u32);

impl Domain {
    /// Only the low 26 bits may be set.
    pub open spec fn wf(self) -> bool {
        self.0 >> 26u32 == 0u32
    }

    /// The letter with alphabet index `i` is in the set.
    pub open spec fn spec_has(self, i: int) -> bool {
        0 <= i < 26 && (self.0 >> (i as u32)) & 1u32 == 1u32
    }

    /// Number of letters in the set.
    pub open spec fn spec_count(self) -> nat {
        count_bits(self.0, 26)
    }

    /// Every letter of `self` is also in `other`.
    pub open spec fn spec_subset_of(self, other: Domain) -> bool {
        forall|i: int| self.spec_has(i) ==> other.spec_has(i)
    }

    /// The set holding every letter A-Z.
    pub fn full() -> (r: Domain)
        ensures
            r.wf(),
            forall|i: int| 0 <= i < 26 ==> r.spec_has(i),
    {
        let r = Domain(0x3FFFFFFu32);
        proof {
            assert(0x3FFFFFFu32 >> 26u32 == 0u32) by (bit_vector);
            assert forall|i: int| 0 <= i < 26 implies r.spec_has(i) by {
                let j = i as u32;
                assert((0x3FFFFFFu32 >> j) & 1u32 == 1u32) by (bit_vector)
                    requires
                        j < 26,
                ;
            }
        }
        r
    }

    /// The empty set.
    pub fn empty() -> (r: Domain)
        ensures
            r.wf(),
            forall|i: int| !r.spec_has(i),
    {
        let r = Domain(0u32);
        proof {
            assert(0u32 >> 26u32 == 0u32) by (bit_vector);
            assert forall|i: int| !r.spec_has(i) by {
                if 0 <= i < 26 {
                    let j = i as u32;
                    assert((0u32 >> j) & 1u32 == 0u32) by (bit_vector);
                }
            }
        }
        r
    }

    /// The singleton of `c` after case folding, or the empty set if `c`
    /// does not fold to a letter.
    pub fn from_char(c: char) -> (r: Domain)
        ensures
            r.wf(),
            forall|i: int|
                r.spec_has(i) <==> (is_letter(spec_to_upper(c)) && i == letter_idx(
                    spec_to_upper(c),
                )),
    {
        let u = to_upper(c) as u32;
        if 65 <= u && u <= 90 {
            let j = u - 65;
            let r = Domain(1u32 << j);
            proof {
                assert((1u32 << j) >> 26u32 == 0u32) by (bit_vector)
                    requires
                        j < 26,
                ;
                assert forall|i: int|
                    r.spec_has(i) <==> (is_letter(spec_to_upper(c)) && i == letter_idx(
                        spec_to_upper(c),
                    )) by {
                    if 0 <= i < 26 {
                        let k = i as u32;
                        assert(((1u32 << j) >> k) & 1u32 == (if j == k {
                            1u32
                        } else {
                            0u32
                        })) by (bit_vector)
                            requires
                                j < 26 && k < 26,
                        ;
                    }
                }
            }
            r
        } else {
            let r = Domain(0u32);
            proof {
                assert(0u32 >> 26u32 == 0u32) by (bit_vector);
                assert forall|i: int| !r.spec_has(i) by {
                    if 0 <= i < 26 {
                        let k = i as u32;
                        assert((0u32 >> k) & 1u32 == 0u32) by (bit_vector);
                    }
                }
            }
            r
        }
    }

    /// Membership test, after case folding of `c`.
    pub fn contains(&self, c: char) -> (r: bool)
        ensures
            r == self.spec_has(letter_idx(spec_to_upper(c))),
    {
        let u = to_upper(c) as u32;
        if 65 <= u && u <= 90 {
            let j = u - 65;
            (self.0 >> j) & 1 == 1
        } else {
            false
        }
    }

    /// Set intersection.
    pub fn intersect(&self, other: Domain) -> (r: Domain)
        ensures
            self.wf() ==> r.wf(),
            forall|i: int| r.spec_has(i) <==> (self.spec_has(i) && other.spec_has(i)),
    {
        let r = Domain(self.0 & other.0);
        proof {
            let a = self.0;
            let b = other.0;
            assert(a >> 26u32 == 0u32 ==> (a & b) >> 26u32 == 0u32) by (bit_vector);
            assert forall|i: int|
                r.spec_has(i) <==> (self.spec_has(i) && other.spec_has(i)) by {
                if 0 <= i < 26 {
                    let k = i as u32;
                    assert((((a & b) >> k) & 1u32 == 1u32) <==> (((a >> k) & 1u32 == 1u32) && ((b
                        >> k) & 1u32 == 1u32))) by (bit_vector);
                }
            }
        }
        r
    }

    /// Set union.
    pub fn union(&self, other: Domain) -> (r: Domain)
        ensures
            self.wf() && other.wf() ==> r.wf(),
            forall|i: int| r.spec_has(i) <==> (self.spec_has(i) || other.spec_has(i)),
    {
        let r = Domain(self.0 | other.0);
        proof {
            let a = self.0;
            let b = other.0;
            assert(a >> 26u32 == 0u32 && b >> 26u32 == 0u32 ==> (a | b) >> 26u32 == 0u32)
                by (bit_vector);
            assert forall|i: int|
                r.spec_has(i) <==> (self.spec_has(i) || other.spec_has(i)) by {
                if 0 <= i < 26 {
                    let k = i as u32;
                    assert((((a | b) >> k) & 1u32 == 1u32) <==> (((a >> k) & 1u32 == 1u32) || ((b
                        >> k) & 1u32 == 1u32))) by (bit_vector);
                }
            }
        }
        r
    }

    /// Removes the letter `c` folds to, if any.
    pub fn remove(&mut self, c: char)
        ensures
            old(self).wf() ==> final(self).wf(),
            forall|i: int|
                final(self).spec_has(i) <==> (old(self).spec_has(i) && i != letter_idx(
                    spec_to_upper(c),
                )),
    {
        let u = to_upper(c) as u32;
        if 65 <= u && u <= 90 {
            let j = u - 65;
            let a = self.0;
            self.0 = a & !(1u32 << j);
            proof {
                assert(a >> 26u32 == 0u32 ==> (a & !(1u32 << j)) >> 26u32 == 0u32) by (bit_vector)
                    requires
                        j < 26,
                ;
                assert forall|i: int|
                    final(self).spec_has(i) <==> (old(self).spec_has(i) && i != letter_idx(
                        spec_to_upper(c),
                    )) by {
                    if 0 <= i < 26 {
                        let k = i as u32;
                        assert(((a & !(1u32 << j)) >> k) & 1u32 == (if j == k {
                            0u32
                        } else {
                            (a >> k) & 1u32
                        })) by (bit_vector)
                            requires
                                j < 26 && k < 26,
                        ;
                    }
                }
            }
        }
    }

    /// Number of letters in the set.
    pub fn count(&self) -> (r: u32)
        ensures
            r == self.spec_count(),
    {
        let mut cnt: u32 = 0;
        let mut i: u32 = 0;
        while i < 26
            invariant
                i <= 26,
                cnt == count_bits(self.0, i as int),
                cnt <= i,
            decreases 26 - i,
        {
            if (self.0 >> i) & 1 == 1 {
                cnt = cnt + 1;
            }
            i = i + 1;
        }
        cnt
    }

    /// The set has no letters.
    pub fn is_empty(&self) -> (r: bool)
        requires
            self.wf(),
        ensures
            r <==> (forall|i: int| !self.spec_has(i)),
    {
        let r = self.0 == 0;
        proof {
            if r {
                assert forall|i: int| !self.spec_has(i) by {
                    if 0 <= i < 26 {
                        let k = i as u32;
                        assert((0u32 >> k) & 1u32 == 0u32) by (bit_vector);
                    }
                }
            } else {
                lemma_nonzero_has_letter(self.0);
            }
        }
        r
    }

    /// Returns the single letter of the set, if the set holds exactly one.
    pub fn is_singleton(&self) -> (r: Option<char>)
        requires
            self.wf(),
        ensures
            match r {
                Some(c) => is_letter(c) && self.spec_has(letter_idx(c)) && (forall|j: int|
                    self.spec_has(j) ==> j == letter_idx(c)) && self.spec_count() == 1,
                None => self.spec_count() != 1,
            },
    {
        if self.count() != 1 {
            return None;
        }
        let mut i: u32 = 0;
        while i < 26
            invariant
                self.wf(),
                self.spec_count() == 1,
                i <= 26,
                count_bits(self.0, i as int) == 0,
            decreases 26 - i,
        {
            if (self.0 >> i) & 1 == 1 {
                let c = ((65 + i) as u8) as char;
                proof {
                    lemma_single_bit_unique(self.0, i as int);
                }
                return Some(c);
            }
            i = i + 1;
        }
        proof {
            assert(false);
        }
        None
    }

    /// The letters of the set, in ascending alphabetical order.
    pub fn iter(&self) -> (r: Vec<char>)
        ensures
            forall|k: int|
                0 <= k < r@.len() ==> is_letter(r@[k]) && self.spec_has(letter_idx(r@[k])),
            forall|i: int| self.spec_has(i) ==> r@.contains(idx_char(i)),
            forall|a: int, b: int| 0 <= a < b < r@.len() ==> (r@[a] as int) < (r@[b] as int),
    {
        let mut out: Vec<char> = Vec::new();
        let mut i: u32 = 0;
        while i < 26
            invariant
                i <= 26,
                forall|k: int|
                    0 <= k < out@.len() ==> is_letter(out@[k]) && self.spec_has(letter_idx(out@[k]))
                        && (out@[k] as int) < 65 + i,
                forall|j: int| 0 <= j < i && self.spec_has(j) ==> out@.contains(idx_char(j)),
                forall|a: int, b: int| 0 <= a < b < out@.len() ==> (out@[a] as int) < (out@[b] as int),
            decreases 26 - i,
        {
            if (self.0 >> i) & 1 == 1 {
                let c = ((65 + i) as u8) as char;
                let ghost prev = out@;
                out.push(c);
                proof {
                    assert forall|j: int|
                        0 <= j < i + 1 && self.spec_has(j) implies out@.contains(idx_char(j)) by {
                        if j == i as int {
                            assert(out@[prev.len() as int] == idx_char(j));
                        } else {
                            let k = choose|k: int| 0 <= k < prev.len() && prev[k] == idx_char(j);
                            assert(out@[k] == idx_char(j));
                        }
                    }
                }
            }
            i = i + 1;
        }
        out
    }
}

/// A non-zero well-formed mask holds at least one letter.
proof fn lemma_nonzero_has_letter(m: u32)
    requires
        m >> 26u32 == 0u32,
        m != 0,
    ensures
        exists|i: int| #[trigger] Domain(m).spec_has(i),
{
    lemma_nonzero_bit_below(m, 26);
    let i = choose|i: int| 0 <= i < 26 && (#[trigger] (m >> (i as u32))) & 1u32 == 1u32;
    assert(Domain(m).spec_has(i));
}

/// If all bits of `m` from `n` up are clear and `m` is non-zero, a bit
/// below `n` is set.
proof fn lemma_nonzero_bit_below(m: u32, n: int)
    requires
        0 <= n <= 32,
        m >> (n as u32) == 0u32,
        m != 0,
    ensures
        exists|i: int| 0 <= i < n && (#[trigger] (m >> (i as u32))) & 1u32 == 1u32,
    decreases n,
{
    if n == 0 {
        assert(m >> 0u32 == m) by (bit_vector);
        assert(false);
    } else {
        let j = (n - 1) as u32;
        if (m >> j) & 1u32 == 1u32 {
            assert(0 <= n - 1 < n && (m >> ((n - 1) as u32)) & 1u32 == 1u32);
        } else {
            assert(m >> (j + 1) == 0u32 && (m >> j) & 1u32 != 1u32 ==> m >> j == 0u32)
                by (bit_vector)
                requires
                    j < 32,
            ;
            lemma_nonzero_bit_below(m, n - 1);
        }
    }
}

/// Counting bits below `n` gives zero exactly when all those bits are clear.
proof fn lemma_count_zero(m: u32, n: int)
    requires
        0 <= n <= 32,
    ensures
        count_bits(m, n) == 0 <==> (forall|i: int|
            0 <= i < n ==> (#[trigger] (m >> (i as u32))) & 1u32 != 1u32),
    decreases n,
{
    if n > 0 {
        lemma_count_zero(m, n - 1);
    }
}

/// In a mask with exactly one set bit among the low 26, a set bit `i`
/// is the only letter.
proof fn lemma_single_bit_unique(m: u32, i: int)
    requires
        0 <= i < 26,
        count_bits(m, 26) == 1,
        (m >> (i as u32)) & 1u32 == 1u32,
    ensures
        forall|j: int| Domain(m).spec_has(j) ==> j == i,
{
    assert forall|j: int| Domain(m).spec_has(j) implies j == i by {
        if j != i {
            lemma_two_bits_count(m, if i < j { i } else { j }, if i < j { j } else { i }, 26);
        }
    }
}

/// Two distinct set bits below `n` force the count below `n` to be at
/// least two.
proof fn lemma_two_bits_count(m: u32, a: int, b: int, n: int)
    requires
        0 <= a < b < n <= 32,
        (m >> (a as u32)) & 1u32 == 1u32,
        (m >> (b as u32)) & 1u32 == 1u32,
    ensures
        count_bits(m, n) >= 2,
    decreases n,
{
    if b == n - 1 {
        lemma_one_bit_count(m, a, n - 1);
    } else {
        lemma_two_bits_count(m, a, b, n - 1);
    }
}

/// One set bit below `n` forces the count below `n` to be at least one.
proof fn lemma_one_bit_count(m: u32, a: int, n: int)
    requires
        0 <= a < n <= 32,
        (m >> (a as u32)) & 1u32 == 1u32,
    ensures
        count_bits(m, n) >= 1,
    decreases n,
{
    if a < n - 1 {
        lemma_one_bit_count(m, a, n - 1);
    }
}

/// A subset has no more letters than its superset, counted below any bound.
proof fn lemma_count_subset(a: u32, b: u32, n: int)
    requires
        0 <= n <= 26,
        Domain(a).spec_subset_of(Domain(b)),
        a >> 26u32 == 0u32,
    ensures
        count_bits(a, n) <= count_bits(b, n),
    decreases n,
{
    if n > 0 {
        lemma_count_subset(a, b, n - 1);
        if (a >> ((n - 1) as u32)) & 1u32 == 1u32 {
            assert(Domain(a).spec_has(n - 1));
            assert(Domain(b).spec_has(n - 1));
        }
    }
}

/// A strict subset has strictly fewer letters.
pub proof fn lemma_subset_count(a: Domain, b: Domain)
    requires
        a.wf(),
        b.wf(),
        a.spec_subset_of(b),
    ensures
        a.spec_count() <= b.spec_count(),
        (exists|i: int| b.spec_has(i) && !a.spec_has(i)) ==> a.spec_count() < b.spec_count(),
{
    lemma_count_subset(a.0, b.0, 26);
    if exists|i: int| b.spec_has(i) && !a.spec_has(i) {
        let i = choose|i: int| b.spec_has(i) && !a.spec_has(i);
        lemma_count_split(a.0, b.0, i, 26);
    }
}

/// Counting split at a bit `i` that `b` has and `a` lacks: the count of
/// `a` stays strictly below the count of `b` from `i + 1` on.
proof fn lemma_count_split(a: u32, b: u32, i: int, n: int)
    requires
        0 <= i < n <= 26,
        Domain(a).spec_subset_of(Domain(b)),
        a >> 26u32 == 0u32,
        Domain(b).spec_has(i),
        !Domain(a).spec_has(i),
    ensures
        count_bits(a, n) < count_bits(b, n),
    decreases n,
{
    if i == n - 1 {
        lemma_count_subset(a, b, n - 1);
    } else {
        lemma_count_split(a, b, i, n - 1);
        if (a >> ((n - 1) as u32)) & 1u32 == 1u32 {
            assert(Domain(a).spec_has(n - 1));
            assert(Domain(b).spec_has(n - 1));
        }
    }
}


/// A mask whose only letter is `x` counts exactly one.
pub proof fn lemma_singleton_count(d: Domain, x: int)
    requires
        0 <= x < 26,
        forall|i: int| d.spec_has(i) <==> i == x,
    ensures
        d.spec_count() == 1,
{
    lemma_singleton_count_below(d, x, 26);
}

/// Counting a single-letter mask below `n`.
proof fn lemma_singleton_count_below(d: Domain, x: int, n: int)
    requires
        0 <= x < 26,
        0 <= n <= 26,
        forall|i: int| d.spec_has(i) <==> i == x,
    ensures
        count_bits(d.0, n) == (if x < n {
            1nat
        } else {
            0nat
        }),
    decreases n,
{
    if n > 0 {
        lemma_singleton_count_below(d, x, n - 1);
        if (d.0 >> ((n - 1) as u32)) & 1u32 == 1u32 {
            assert(d.spec_has(n - 1));
        } else {
            assert(!d.spec_has(n - 1));
        }
    }
}

/// A well-formed mask with a positive count holds a letter.
pub proof fn lemma_count_pos_has_letter(d: Domain)
    requires
        d.wf(),
        d.spec_count() > 0,
    ensures
        exists|i: int| #[trigger] d.spec_has(i),
{
    if d.0 == 0 {
        lemma_count_zero(d.0, 26);
        assert forall|i: int| 0 <= i < 26 implies (#[trigger] (d.0 >> (i as u32))) & 1u32 != 1u32 by {
            let j = i as u32;
            assert((0u32 >> j) & 1u32 == 0u32) by (bit_vector);
        }
        assert(false);
    } else {
        lemma_nonzero_has_letter(d.0);
    }
}


/// A domain never holds more than 26 letters.
pub proof fn lemma_count_bound(d: Domain)
    ensures
        d.spec_count() <= 26,
{
    lemma_count_bits_bound(d.0, 26);
}

/// Counting below `n` yields at most `n`.
proof fn lemma_count_bits_bound(m: u32, n: int)
    requires
        0 <= n,
    ensures
        count_bits(m, n) <= n,
    decreases n,
{
    if n > 0 {
        lemma_count_bits_bound(m, n - 1);
    }
}


/// A domain holding exactly one letter holds no second one.
pub proof fn lemma_count_one_unique(d: Domain, a: int, b: int)
    requires
        d.spec_count() == 1,
        d.spec_has(a),
        d.spec_has(b),
    ensures
        a == b,
{
    if a != b {
        lemma_two_bits_count(d.0, if a < b { a } else { b }, if a < b { b } else { a }, 26);
    }
}

/// A domain holding a letter counts at least one.
pub proof fn lemma_has_count_pos(d: Domain, l: int)
    requires
        d.spec_has(l),
    ensures
        d.spec_count() >= 1,
{
    lemma_one_bit_count(d.0, l, 26);
}

} // verus!
