use vstd::prelude::*;

verus! {

/// An exact decimal number: `mantissa * 10^(-scale)`.
#[derive(Clone, Copy, Debug, PartialEq, Eq, Structural)]
pub struct Decimal {
    pub mantissa: i64,
    pub scale: i64,
}

/// The kind of a metric sample; a counter carries its sample rate.
#[derive(Clone, Copy, Debug, PartialEq, Eq, Structural)]
pub enum MetricKind {
    Counter(Decimal),
    Gauge,
    Timer,
    Histogram,
}

/// One parsed metric sample.
#[derive(Clone, Debug)]
pub struct Metric {
    pub name: Vec<u8>,
    pub value: Decimal,
    pub kind: MetricKind,
}

/// The mathematical value of a `Metric`.
pub struct MetricView {
    pub name: Seq<u8>,
    pub value: Decimal,
    pub kind: MetricKind,
}

impl View for Metric {
    type V = MetricView;

    open spec fn view(&self) -> MetricView {
        MetricView { name: self.name@, value: self.value, kind: self.kind }
    }
}

/// A line that is not a well-formed metric.
#[derive(Clone, Copy, Debug, PartialEq, Eq, Structural)]
pub struct ParseError {}

pub const COLON: u8 = 58;
pub const PIPE: u8 = 124;
pub const AT: u8 = 64;
pub const DOT: u8 = 46;
pub const MINUS: u8 = 45;
pub const PLUS: u8 = 43;
pub const ZERO: u8 = 48;
pub const NINE: u8 = 57;

/// The significant digits of a number that are kept, so that its mantissa
/// fits an `i64`; digits after them are cut off.
pub const MAX_DIGITS: usize = 18;

/// Exponents are held at this size; any larger one is beyond every float.
pub const EXP_CAP: u64 = 1_000_000_000;

pub open spec fn pow10(n: nat) -> nat
    decreases n,
{
    if n == 0 {
        1
    } else {
        10 * pow10((n - 1) as nat)
    }
}

/// Index of the first `c` in `s[from..to)`, or `to` if there is none.
pub open spec fn find_in(s: Seq<u8>, from: int, to: int, c: u8) -> int
    decreases to - from,
{
    if from >= to {
        to
    } else if s[from] == c {
        from
    } else {
        find_in(s, from + 1, to, c)
    }
}

pub open spec fn is_digit(b: u8) -> bool {
    ZERO <= b <= NINE
}

pub open spec fn all_digits(s: Seq<u8>, lo: int, hi: int) -> bool {
    forall|i: int| lo <= i < hi ==> is_digit(#[trigger] s[i])
}

/// How many significant digits `d` holds: its digits after leading zeros.
pub open spec fn sig_len(d: Seq<u8>) -> nat
    decreases d.len(),
{
    if d.len() == 0 {
        0
    } else {
        let p = sig_len(d.drop_last());
        if p == 0 && d.last() == ZERO {
            0
        } else {
            p + 1
        }
    }
}

/// The value of the first `MAX_DIGITS` significant digits of `d`.
pub open spec fn kept_val(d: Seq<u8>) -> int
    decreases d.len(),
{
    if d.len() == 0 {
        0
    } else {
        let p = d.drop_last();
        if sig_len(p) == 0 && d.last() == ZERO {
            0
        } else if sig_len(p) < MAX_DIGITS {
            kept_val(p) * 10 + (d.last() - ZERO)
        } else {
            kept_val(p)
        }
    }
}

/// The value of the digits `d`, held at `EXP_CAP`.
pub open spec fn capped_val(d: Seq<u8>) -> int
    decreases d.len(),
{
    if d.len() == 0 {
        0
    } else {
        let v = capped_val(d.drop_last()) * 10 + (d.last() - ZERO);
        if v > EXP_CAP {
            EXP_CAP as int
        } else {
            v
        }
    }
}

/// `x`, held within the range of `i64`.
pub open spec fn clamp_i64(x: int) -> i64 {
    if x < i64::MIN {
        i64::MIN
    } else if x > i64::MAX {
        i64::MAX
    } else {
        x as i64
    }
}

/// `e` or `E`.
pub open spec fn is_exp_mark(b: u8) -> bool {
    b == 101 || b == 69
}

/// Index of the first exponent mark in `s[from..to)`, or `to` if none.
pub open spec fn find_exp(s: Seq<u8>, from: int, to: int) -> int
    decreases to - from,
{
    if from >= to {
        to
    } else if is_exp_mark(s[from]) {
        from
    } else {
        find_exp(s, from + 1, to)
    }
}

/// Whether `s[lo..hi)` starts with a sign.
pub open spec fn has_sign(s: Seq<u8>, lo: int, hi: int) -> bool {
    lo < hi && (s[lo] == MINUS || s[lo] == PLUS)
}

/// The number written in `s[lo..hi)`: an optional sign; digits with at most
/// one decimal point, at least one digit; then optionally `e` or `E`, an
/// optional sign and at least one digit. The first `MAX_DIGITS` significant
/// digits are kept exactly and any further ones are cut off.
pub open spec fn number_at(s: Seq<u8>, lo: int, hi: int) -> Option<Decimal> {
    let start = if has_sign(s, lo, hi) { lo + 1 } else { lo };
    let epos = find_exp(s, start, hi);
    let dot = find_in(s, start, epos, DOT);
    let frac_start = if dot < epos { dot + 1 } else { epos };
    let digits = s.subrange(start, dot) + s.subrange(frac_start, epos);
    let es = if epos < hi { epos + 1 } else { hi };
    let ed = if has_sign(s, es, hi) { es + 1 } else { es };
    let e_mag = capped_val(s.subrange(ed, hi));
    let exp = if has_sign(s, es, hi) && s[es] == MINUS { -e_mag } else { e_mag };
    let dropped = if sig_len(digits) > MAX_DIGITS { sig_len(digits) - MAX_DIGITS } else { 0 };
    if all_digits(s, start, dot) && all_digits(s, frac_start, epos) && digits.len() >= 1 && (
    epos == hi || (ed < hi && all_digits(s, ed, hi))) {
        let m = if has_sign(s, lo, hi) && s[lo] == MINUS {
            -kept_val(digits)
        } else {
            kept_val(digits)
        };
        Some(Decimal { mantissa: m as i64, scale: clamp_i64((epos - frac_start) - dropped - exp) })
    } else {
        None
    }
}

/// A sample rate in (0, 1].
pub open spec fn valid_rate(r: Decimal) -> bool {
    &&& 0 < r.mantissa
    &&& if r.scale >= 0 {
        r.mantissa <= pow10(r.scale as nat)
    } else {
        r.mantissa * pow10((-r.scale) as nat) <= 1
    }
}

pub open spec fn unit_rate() -> Decimal {
    Decimal { mantissa: 1, scale: 0 }
}

/// The kind given by the type code in `s[value_end + 1..type_end)` and the optional
/// `|@rate` that follows it.
pub open spec fn kind_at(s: Seq<u8>, value_end: int, type_end: int) -> Option<MetricKind> {
    let code = s.subrange(value_end + 1, type_end);
    let n = s.len() as int;
    if code == seq![99u8] {
        if type_end >= n {
            Some(MetricKind::Counter(unit_rate()))
        } else if type_end + 1 < n && s[type_end + 1] == AT {
            match number_at(s, type_end + 2, n) {
                Some(r) => if valid_rate(r) {
                    Some(MetricKind::Counter(r))
                } else {
                    None
                },
                None => None,
            }
        } else {
            None
        }
    } else if type_end < n {
        None
    } else if code == seq![103u8] {
        Some(MetricKind::Gauge)
    } else if code == seq![109u8, 115u8] {
        Some(MetricKind::Timer)
    } else if code == seq![104u8] {
        Some(MetricKind::Histogram)
    } else {
        None
    }
}

/// The metric that the line `name:value|type[|@rate]` denotes, if any.
pub open spec fn spec_parse(s: Seq<u8>) -> Option<MetricView> {
    let n = s.len() as int;
    let colon = find_in(s, 0, n, COLON);
    let value_end = find_in(s, colon + 1, n, PIPE);
    let type_end = find_in(s, value_end + 1, n, PIPE);
    if colon == 0 || colon >= n || value_end >= n {
        None
    } else {
        match (number_at(s, colon + 1, value_end), kind_at(s, value_end, type_end)) {
            (Some(v), Some(k)) => Some(MetricView { name: s.subrange(0, colon), value: v, kind: k }),
            _ => None,
        }
    }
}

pub(crate) proof fn lemma_find_in_bounds(s: Seq<u8>, from: int, to: int, c: u8)
    requires
        from <= to,
    ensures
        from <= find_in(s, from, to, c) <= to,
    decreases to - from,
{
    if from < to && s[from] != c {
        lemma_find_in_bounds(s, from + 1, to, c);
    }
}

proof fn lemma_pow10_mono(a: nat, b: nat)
    requires
        a <= b,
    ensures
        pow10(a) <= pow10(b),
    decreases b,
{
    if a < b {
        lemma_pow10_mono(a, (b - 1) as nat);
    }
}

proof fn lemma_pow10_18()
    ensures
        pow10(18) == 1_000_000_000_000_000_000,
{
    reveal_with_fuel(pow10, 19);
}

fn find_byte(s: &[u8], from: usize, to: usize, c: u8) -> (r: usize)
    requires
        from <= to <= s@.len(),
    ensures
        r == find_in(s@, from as int, to as int, c),
        from <= r <= to,
{
    let mut i: usize = from;
    while i < to
        invariant
            from <= i <= to <= s@.len(),
            find_in(s@, from as int, to as int, c) == find_in(s@, i as int, to as int, c),
        decreases to - i,
    {
        if s[i] == c {
            return i;
        }
        i = i + 1;
    }
    i
}

proof fn lemma_code1(s: Seq<u8>, a: int, b: int, c: u8)
    requires
        0 <= a <= b <= s.len(),
    ensures
        s.subrange(a, b) == seq![c] <==> (b - a == 1 && s[a] == c),
{
    if b - a == 1 && s[a] == c {
        assert(s.subrange(a, b) =~= seq![c]);
    }
    if s.subrange(a, b) == seq![c] {
        assert(s.subrange(a, b).len() == 1);
        assert(s.subrange(a, b)[0] == c);
    }
}

proof fn lemma_code2(s: Seq<u8>, a: int, b: int, c: u8, d: u8)
    requires
        0 <= a <= b <= s.len(),
    ensures
        s.subrange(a, b) == seq![c, d] <==> (b - a == 2 && s[a] == c && s[a + 1] == d),
{
    if b - a == 2 && s[a] == c && s[a + 1] == d {
        assert(s.subrange(a, b) =~= seq![c, d]);
    }
    if s.subrange(a, b) == seq![c, d] {
        assert(s.subrange(a, b).len() == 2);
        assert(s.subrange(a, b)[0] == c);
        assert(s.subrange(a, b)[1] == d);
    }
}

fn find_exp_byte(s: &[u8], from: usize, to: usize) -> (r: usize)
    requires
        from <= to <= s@.len(),
    ensures
        r == find_exp(s@, from as int, to as int),
        from <= r <= to,
{
    let mut i: usize = from;
    while i < to
        invariant
            from <= i <= to <= s@.len(),
            find_exp(s@, from as int, to as int) == find_exp(s@, i as int, to as int),
        decreases to - i,
    {
        if s[i] == 101 || s[i] == 69 {
            return i;
        }
        i = i + 1;
    }
    i
}

/// The number of significant digits whose value is kept.
pub open spec fn kept_count(k: nat) -> nat {
    if k < MAX_DIGITS {
        k
    } else {
        MAX_DIGITS as nat
    }
}

proof fn lemma_digit_step(p: Seq<u8>, x: u8)
    ensures
        sig_len(p.push(x)) == if sig_len(p) == 0 && x == ZERO {
            0
        } else {
            sig_len(p) + 1
        },
        kept_val(p.push(x)) == if sig_len(p) == 0 && x == ZERO {
            0
        } else if sig_len(p) < MAX_DIGITS {
            kept_val(p) * 10 + (x - ZERO)
        } else {
            kept_val(p)
        },
        capped_val(p.push(x)) == if capped_val(p) * 10 + (x - ZERO) > EXP_CAP {
            EXP_CAP as int
        } else {
            capped_val(p) * 10 + (x - ZERO)
        },
{
    assert(p.push(x).drop_last() =~= p);
}

/// Takes in one more digit `x` after the digits `p`.
fn push_digit(mag: i64, sig: usize, x: u8, Ghost(p): Ghost<Seq<u8>>) -> (r: (i64, usize))
    requires
        ZERO <= x <= NINE,
        mag == kept_val(p),
        sig == sig_len(p),
        sig < usize::MAX,
        0 <= mag < pow10(kept_count(sig as nat)),
    ensures
        r.0 == kept_val(p.push(x)),
        r.1 == sig_len(p.push(x)),
        r.1 <= sig + 1,
        0 <= r.0 < pow10(kept_count(r.1 as nat)),
{
    proof {
        lemma_digit_step(p, x);
        lemma_pow10_18();
    }
    if sig == 0 && x == ZERO {
        (mag, sig)
    } else if sig < MAX_DIGITS {
        proof {
            lemma_pow10_mono((sig + 1) as nat, 18);
        }
        (mag * 10 + (x - ZERO) as i64, sig + 1)
    } else {
        (mag, sig + 1)
    }
}

/// Reads the digits `s[start..dot)` followed by `s[frac_start..end)`: the
/// value of the kept digits and the count of significant ones.
fn read_digits(s: &[u8], start: usize, dot: usize, frac_start: usize, end: usize) -> (r: Option<(i64, usize)>)
    requires
        start <= dot <= frac_start <= end <= s@.len(),
    ensures
        r is Some <==> all_digits(s@, start as int, dot as int) && all_digits(
            s@,
            frac_start as int,
            end as int,
        ),
        r matches Some((m, k)) ==> {
            let d = s@.subrange(start as int, dot as int) + s@.subrange(
                frac_start as int,
                end as int,
            );
            &&& m == kept_val(d)
            &&& k == sig_len(d)
            &&& 0 <= m < pow10(kept_count(k as nat))
        },
{
    let mut mag: i64 = 0;
    let mut sig: usize = 0;
    let mut i: usize = start;
    while i < dot
        invariant
            start <= i <= dot <= frac_start <= end <= s@.len(),
            all_digits(s@, start as int, i as int),
            mag == kept_val(s@.subrange(start as int, i as int)),
            sig == sig_len(s@.subrange(start as int, i as int)),
            sig <= i - start,
            0 <= mag < pow10(kept_count(sig as nat)),
        decreases dot - i,
    {
        if s[i] < ZERO || s[i] > NINE {
            assert(!is_digit(s@[i as int]));
            return None;
        }
        assert(s@.subrange(start as int, i + 1) =~= s@.subrange(start as int, i as int).push(s@[i as int]));
        let r = push_digit(mag, sig, s[i], Ghost(s@.subrange(start as int, i as int)));
        mag = r.0;
        sig = r.1;
        i = i + 1;
    }
    assert(s@.subrange(start as int, dot as int) + s@.subrange(frac_start as int, frac_start as int)
        =~= s@.subrange(start as int, dot as int));
    let mut j: usize = frac_start;
    while j < end
        invariant
            start <= dot <= frac_start <= j <= end <= s@.len(),
            all_digits(s@, start as int, dot as int),
            all_digits(s@, frac_start as int, j as int),
            mag == kept_val(
                s@.subrange(start as int, dot as int) + s@.subrange(frac_start as int, j as int),
            ),
            sig == sig_len(
                s@.subrange(start as int, dot as int) + s@.subrange(frac_start as int, j as int),
            ),
            sig <= (dot - start) + (j - frac_start),
            0 <= mag < pow10(kept_count(sig as nat)),
        decreases end - j,
    {
        if s[j] < ZERO || s[j] > NINE {
            assert(!is_digit(s@[j as int]));
            return None;
        }
        let ghost prev = s@.subrange(start as int, dot as int) + s@.subrange(
            frac_start as int,
            j as int,
        );
        assert(s@.subrange(start as int, dot as int) + s@.subrange(frac_start as int, j + 1)
            =~= prev.push(s@[j as int]));
        let r = push_digit(mag, sig, s[j], Ghost(prev));
        mag = r.0;
        sig = r.1;
        j = j + 1;
    }
    Some((mag, sig))
}

/// Reads the exponent digits `s[a..b)`, held at `EXP_CAP`.
fn read_capped(s: &[u8], a: usize, b: usize) -> (r: Option<u64>)
    requires
        a <= b <= s@.len(),
    ensures
        r is Some <==> all_digits(s@, a as int, b as int),
        r matches Some(v) ==> v == capped_val(s@.subrange(a as int, b as int)) && v <= EXP_CAP,
{
    let mut v: u64 = 0;
    let mut i: usize = a;
    assert(s@.subrange(a as int, a as int) =~= Seq::<u8>::empty());
    while i < b
        invariant
            a <= i <= b <= s@.len(),
            all_digits(s@, a as int, i as int),
            v == capped_val(s@.subrange(a as int, i as int)),
            v <= EXP_CAP,
        decreases b - i,
    {
        if s[i] < ZERO || s[i] > NINE {
            assert(!is_digit(s@[i as int]));
            return None;
        }
        assert(s@.subrange(a as int, i + 1) =~= s@.subrange(a as int, i as int).push(s@[i as int]));
        proof {
            lemma_digit_step(s@.subrange(a as int, i as int), s[i as int]);
        }
        let w = v * 10 + (s[i] - ZERO) as u64;
        v = if w > EXP_CAP { EXP_CAP } else { w };
        i = i + 1;
    }
    Some(v)
}

fn clamp_exec(x: i128) -> (r: i64)
    ensures
        r == clamp_i64(x as int),
{
    if x < i64::MIN as i128 {
        i64::MIN
    } else if x > i64::MAX as i128 {
        i64::MAX
    } else {
        x as i64
    }
}

/// Reads the number written in `s[lo..hi)`.
#[verifier::rlimit(100)]
fn parse_number(s: &[u8], lo: usize, hi: usize) -> (r: Option<Decimal>)
    requires
        lo <= hi <= s@.len(),
    ensures
        r == number_at(s@, lo as int, hi as int),
        r matches Some(d) ==> -1_000_000_000_000_000_000 < d.mantissa < 1_000_000_000_000_000_000,
{
    let signed = lo < hi && (s[lo] == MINUS || s[lo] == PLUS);
    let neg = signed && s[lo] == MINUS;
    let start = if signed { lo + 1 } else { lo };
    let epos = find_exp_byte(s, start, hi);
    let dot = find_byte(s, start, epos, DOT);
    let frac_start = if dot < epos { dot + 1 } else { epos };
    assert(s@.subrange(start as int, dot as int).len() + s@.subrange(frac_start as int, epos as int).len()
        == (dot - start) + (epos - frac_start));
    if (dot - start) + (epos - frac_start) < 1 {
        return None;
    }
    let es = if epos < hi { epos + 1 } else { hi };
    let e_signed = es < hi && (s[es] == MINUS || s[es] == PLUS);
    let ed = if e_signed { es + 1 } else { es };
    if epos < hi && ed >= hi {
        return None;
    }
    let e_mag = match read_capped(s, ed, hi) {
        Some(v) => v,
        None => {
            return None;
        },
    };
    let (mag, sig) = match read_digits(s, start, dot, frac_start, epos) {
        Some(x) => x,
        None => {
            return None;
        },
    };
    proof {
        lemma_pow10_18();
        lemma_pow10_mono(kept_count(sig as nat), 18);
    }
    let exp: i128 = if e_signed && s[es] == MINUS { -(e_mag as i128) } else { e_mag as i128 };
    let dropped: usize = if sig > MAX_DIGITS { sig - MAX_DIGITS } else { 0 };
    let raw: i128 = (epos - frac_start) as i128 - dropped as i128 - exp;
    let m = if neg { -mag } else { mag };
    Some(Decimal { mantissa: m, scale: clamp_exec(raw) })
}

/// Whether `r` lies in (0, 1]; its mantissa has at most `MAX_DIGITS` digits.
fn rate_ok(r: Decimal) -> (b: bool)
    requires
        -1_000_000_000_000_000_000 < r.mantissa < 1_000_000_000_000_000_000,
    ensures
        b == valid_rate(r),
{
    proof {
        lemma_pow10_18();
    }
    if r.mantissa <= 0 {
        return false;
    }
    if r.scale < 0 {
        proof {
            let k = (-r.scale) as nat;
            lemma_pow10_mono(1, k);
            reveal_with_fuel(pow10, 2);
            assert(pow10(1) == 10);
            let p = pow10(k);
            let m = r.mantissa as int;
            assert(m * p >= p) by (nonlinear_arith)
                requires
                    m >= 1,
                    p >= 0,
            ;
        }
        return false;
    }
    if r.scale > 18 {
        proof {
            lemma_pow10_mono(18, r.scale as nat);
        }
        return true;
    }
    let mut p: i64 = 1;
    let mut k: i64 = 0;
    while k < r.scale
        invariant
            0 <= k <= r.scale <= 18,
            p == pow10(k as nat),
            pow10(18) == 1_000_000_000_000_000_000,
        decreases r.scale - k,
    {
        proof {
            lemma_pow10_mono((k + 1) as nat, 18);
        }
        p = p * 10;
        k = k + 1;
    }
    r.mantissa <= p
}

/// Reads the type code in `s[value_end + 1..type_end)` and the optional `|@rate` after it.
fn parse_kind(s: &[u8], value_end: usize, type_end: usize) -> (r: Option<MetricKind>)
    requires
        value_end < type_end <= s@.len(),
    ensures
        r == kind_at(s@, value_end as int, type_end as int),
{
    let n = s.len();
    let len = type_end - value_end - 1;
    proof {
        lemma_code1(s@, value_end + 1, type_end as int, 99u8);
        lemma_code1(s@, value_end + 1, type_end as int, 103u8);
        lemma_code1(s@, value_end + 1, type_end as int, 104u8);
        lemma_code2(s@, value_end + 1, type_end as int, 109u8, 115u8);
    }
    if len == 1 && s[value_end + 1] == 99 {
        if type_end >= n {
            Some(MetricKind::Counter(Decimal { mantissa: 1, scale: 0 }))
        } else if type_end + 1 < n && s[type_end + 1] == AT {
            match parse_number(s, type_end + 2, n) {
                Some(r) => if rate_ok(r) {
                    Some(MetricKind::Counter(r))
                } else {
                    None
                },
                None => None,
            }
        } else {
            None
        }
    } else if type_end < n {
        None
    } else if len == 1 && s[value_end + 1] == 103 {
        Some(MetricKind::Gauge)
    } else if len == 2 && s[value_end + 1] == 109 && s[value_end + 2] == 115 {
        Some(MetricKind::Timer)
    } else if len == 1 && s[value_end + 1] == 104 {
        Some(MetricKind::Histogram)
    } else {
        None
    }
}

/// A copy of `s[0..k)`.
pub(crate) fn copy_prefix(s: &[u8], k: usize) -> (r: Vec<u8>)
    requires
        k <= s@.len(),
    ensures
        r@ == s@.subrange(0, k as int),
{
    let mut r: Vec<u8> = Vec::new();
    let mut i: usize = 0;
    while i < k
        invariant
            i <= k <= s@.len(),
            r@ == s@.subrange(0, i as int),
        decreases k - i,
    {
        r.push(s[i]);
        i = i + 1;
        assert(r@ =~= s@.subrange(0, i as int));
    }
    r
}

/// Parses one line of the metric protocol, `name:value|type[|@rate]`, where
/// the type is `c` (counter), `g` (gauge), `ms` (timer) or `h` (histogram).
/// A sample rate may follow a counter only, and lies in (0, 1]; it is 1 when
/// absent. Any other line is a `ParseError`.
pub fn parse(line: &[u8]) -> (r: Result<Metric, ParseError>)
    ensures
        match r {
            Ok(m) => spec_parse(line@) == Some(m@),
            Err(_) => spec_parse(line@) is None,
        },
{
    let n = line.len();
    let colon = find_byte(line, 0, n, COLON);
    if colon == 0 || colon >= n {
        return Err(ParseError {  });
    }
    let value_end = find_byte(line, colon + 1, n, PIPE);
    if value_end >= n {
        return Err(ParseError {  });
    }
    let type_end = find_byte(line, value_end + 1, n, PIPE);
    let value = match parse_number(line, colon + 1, value_end) {
        Some(v) => v,
        None => {
            return Err(ParseError {  });
        },
    };
    let kind = match parse_kind(line, value_end, type_end) {
        Some(k) => k,
        None => {
            return Err(ParseError {  });
        },
    };
    let name = copy_prefix(line, colon);
    Ok(Metric { name, value, kind })
}

} // verus!
