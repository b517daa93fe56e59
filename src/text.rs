use vstd::prelude::*;

use vstd::string::StringSliceAdditionalSpecFns;

use crate::metric::{copy_prefix, ZERO};

verus! {

/// The bytes of `s`.
pub(crate) fn text(s: &str) -> (r: Vec<u8>)
    ensures
        r@ == s.spec_bytes(),
{
    let b = s.as_bytes();
    let r = copy_prefix(b, b.len());
    assert(r@ =~= s.spec_bytes());
    r
}

/// Appends `s` to `v`.
pub(crate) fn push_all(v: &mut Vec<u8>, s: &[u8])
    ensures
        final(v)@ == old(v)@ + s@,
{
    let mut i: usize = 0;
    while i < s.len()
        invariant
            i <= s@.len(),
            v@ == old(v)@ + s@.subrange(0, i as int),
        decreases s.len() - i,
    {
        v.push(s[i]);
        i = i + 1;
        assert(v@ =~= old(v)@ + s@.subrange(0, i as int));
    }
    assert(s@.subrange(0, i as int) =~= s@);
}

/// The decimal digits of `n`, most significant first.
pub open spec fn dec_text(n: nat) -> Seq<u8>
    decreases n,
{
    if n < 10 {
        seq![(ZERO + n) as u8]
    } else {
        dec_text(n / 10).push((ZERO + n % 10) as u8)
    }
}

/// Writes `n` in decimal.
pub fn u64_text(n: u64) -> (r: Vec<u8>)
    ensures
        r@ == dec_text(n as nat),
    decreases n,
{
    if n < 10 {
        let mut v: Vec<u8> = Vec::new();
        v.push(ZERO + n as u8);
        assert(v@ =~= seq![(ZERO + n) as u8]);
        v
    } else {
        let mut v = u64_text(n / 10);
        v.push(ZERO + (n % 10) as u8);
        v
    }
}

/// ASCII white space.
pub open spec fn is_space(b: u8) -> bool {
    b == 32 || (9 <= b <= 13)
}

/// The first index at or after `i` that does not hold white space.
pub open spec fn skip_space(s: Seq<u8>, i: int) -> int
    decreases s.len() - i,
{
    if i >= s.len() {
        s.len() as int
    } else if is_space(s[i]) {
        skip_space(s, i + 1)
    } else {
        i
    }
}

/// The first index at or after `i` that holds white space.
pub open spec fn word_end(s: Seq<u8>, i: int) -> int
    decreases s.len() - i,
{
    if i >= s.len() {
        s.len() as int
    } else if is_space(s[i]) {
        i
    } else {
        word_end(s, i + 1)
    }
}

/// The first word of `s` at or after `i` (empty if there is none), and the
/// index where it ends.
pub open spec fn word_from(s: Seq<u8>, i: int) -> (Seq<u8>, int) {
    let a = skip_space(s, i);
    let e = word_end(s, a);
    (s.subrange(a, e), e)
}

/// The first word of `s`.
pub open spec fn first_word(s: Seq<u8>) -> Seq<u8> {
    word_from(s, 0).0
}

/// The second word of `s`.
pub open spec fn second_word(s: Seq<u8>) -> Seq<u8> {
    word_from(s, word_from(s, 0).1).0
}

proof fn lemma_skip_bounds(s: Seq<u8>, i: int)
    requires
        0 <= i <= s.len(),
    ensures
        i <= skip_space(s, i) <= s.len(),
    decreases s.len() - i,
{
    if i < s.len() && is_space(s[i]) {
        lemma_skip_bounds(s, i + 1);
    }
}

proof fn lemma_end_bounds(s: Seq<u8>, i: int)
    requires
        0 <= i <= s.len(),
    ensures
        i <= word_end(s, i) <= s.len(),
    decreases s.len() - i,
{
    if i < s.len() && !is_space(s[i]) {
        lemma_end_bounds(s, i + 1);
    }
}

fn is_space_exec(b: u8) -> (r: bool)
    ensures
        r == is_space(b),
{
    b == 32 || (9 <= b && b <= 13)
}

/// Reads the word that starts at or after `i`: its bytes and where it ends.
pub(crate) fn next_word(s: &[u8], i: usize) -> (r: (Vec<u8>, usize))
    requires
        i <= s@.len(),
    ensures
        r.0@ == word_from(s@, i as int).0,
        r.1 == word_from(s@, i as int).1,
        i <= r.1 <= s@.len(),
{
    let mut a: usize = i;
    while a < s.len() && is_space_exec(s[a])
        invariant
            i <= a <= s@.len(),
            skip_space(s@, i as int) == skip_space(s@, a as int),
        decreases s.len() - a,
    {
        a = a + 1;
    }
    let mut e: usize = a;
    while e < s.len() && !is_space_exec(s[e])
        invariant
            a <= e <= s@.len(),
            word_end(s@, a as int) == word_end(s@, e as int),
        decreases s.len() - e,
    {
        e = e + 1;
    }
    let mut w: Vec<u8> = Vec::new();
    let mut k: usize = a;
    while k < e
        invariant
            a <= k <= e <= s@.len(),
            w@ == s@.subrange(a as int, k as int),
        decreases e - k,
    {
        w.push(s[k]);
        k = k + 1;
        assert(w@ =~= s@.subrange(a as int, k as int));
    }
    (w, e)
}

} // verus!
