//! Numbers as they appear in `ping` output: unsigned integers and short
//! decimal fractions. Fractional quantities (milliseconds, percentages) are
//! carried as fixed-point values scaled by ten thousand, so that up to four
//! fractional digits are kept exactly.

use crate::text::first_idx;
use crate::text::lemma_first_idx_unique;
use vstd::arithmetic::div_mod::lemma_fundamental_div_mod;
use vstd::prelude::*;
use vstd::string::*;

verus! {

/// One scaled unit is one ten-thousandth: a value of `10_000` stands for 1.
pub const DEC_SCALE: u64 = 10000;

/// Cap on the integer part a decimal may carry; parsing larger text fails.
pub const MAX_INT_PART: u64 = 1000000000000;

/// Every successfully parsed scaled decimal is below this bound.
pub const SCALED_LIMIT: u64 = 10000000000000000;

pub open spec fn is_digit(c: char) -> bool {
    ('0' as int) <= (c as int) && (c as int) <= ('9' as int)
}

pub open spec fn digit_val(c: char) -> nat {
    ((c as int) - ('0' as int)) as nat
}

pub open spec fn all_digits(s: Seq<char>) -> bool {
    forall|i: int| 0 <= i < s.len() ==> is_digit(s[i])
}

/// The value of a string of decimal digits.
pub open spec fn digits_val(s: Seq<char>) -> nat
    decreases s.len(),
{
    if s.len() == 0 {
        0
    } else {
        digits_val(s.drop_last()) * 10 + digit_val(s.last())
    }
}

pub open spec fn pow10(n: nat) -> nat
    decreases n,
{
    if n == 0 {
        1
    } else {
        10 * pow10((n - 1) as nat)
    }
}

pub proof fn lemma_pow10_small()
    ensures
        pow10(0) == 1,
        pow10(1) == 10,
        pow10(2) == 100,
        pow10(3) == 1000,
        pow10(4) == 10000,
{
    assert(pow10(0) == 1);
    assert(pow10(1) == 10);
    assert(pow10(2) == 100);
    assert(pow10(3) == 1000);
    assert(pow10(4) == 10000);
}

/// A digit string's value is below ten to its length.
pub proof fn lemma_digits_val_bound(s: Seq<char>)
    requires
        all_digits(s),
    ensures
        digits_val(s) < pow10(s.len()),
    decreases s.len(),
{
    if s.len() == 0 {
    } else {
        assert(all_digits(s.drop_last())) by {
            assert(forall|i: int|
                0 <= i < s.len() - 1 ==> s.drop_last()[i] == s[i] && is_digit(s[i]));
        }
        lemma_digits_val_bound(s.drop_last());
        assert(is_digit(s.last()));
        assert(digit_val(s.last()) <= 9);
        assert(digits_val(s.drop_last()) * 10 + 9 < pow10(s.len())) by {
            assert(pow10(s.len()) == 10 * pow10((s.len() - 1) as nat));
        }
    }
}

/// A prefix of a digit string has no larger a value.
pub proof fn lemma_digits_val_prefix(s: Seq<char>, i: int)
    requires
        0 <= i <= s.len(),
    ensures
        digits_val(s.take(i)) <= digits_val(s),
    decreases s.len() - i,
{
    if i == s.len() {
        assert(s.take(i) =~= s);
    } else {
        assert(s.take(i + 1).drop_last() =~= s.take(i));
        assert(s.take(i + 1).last() == s[i]);
        assert(digits_val(s.take(i + 1)) == digits_val(s.take(i)) * 10 + digit_val(s[i]));
        lemma_digits_val_prefix(s, i + 1);
    }
}

/// The value of a digit string, when it is one and fits in `u64`.
pub open spec fn spec_parse_u64(s: Seq<char>) -> Option<u64> {
    if s.len() > 0 && all_digits(s) && digits_val(s) <= u64::MAX as nat {
        Some(digits_val(s) as u64)
    } else {
        None
    }
}

/// Parses a string of decimal digits as an unsigned integer.
pub fn parse_u64_exec(v: &Vec<char>) -> (r: Option<u64>)
    ensures
        r == spec_parse_u64(v@),
{
    let n: usize = v.len();
    if n == 0 {
        return None;
    }
    let mut acc: u64 = 0;
    let mut i: usize = 0;
    assert(v@.take(0) =~= Seq::<char>::empty());
    while i < n
        invariant
            n == v@.len(),
            i <= n,
            all_digits(v@.take(i as int)),
            acc == digits_val(v@.take(i as int)),
        decreases n - i,
    {
        let c = v[i];
        if !(c >= '0' && c <= '9') {
            assert(!is_digit(v@[i as int]));
            return None;
        }
        let d: u64 = (c as u32 as u64) - 48;
        assert(d == digit_val(v@[i as int]));
        proof {
            assert(v@.take(i + 1).drop_last() =~= v@.take(i as int));
            assert(v@.take(i + 1).last() == v@[i as int]);
        }
        if acc > (u64::MAX - d) / 10 {
            proof {
                assert(acc * 10 + d > u64::MAX);
                assert(digits_val(v@.take(i + 1)) > u64::MAX);
                lemma_digits_val_prefix(v@, i + 1);
            }
            return None;
        }
        acc = acc * 10 + d;
        i = i + 1;
    }
    assert(v@.take(n as int) =~= v@);
    Some(acc)
}

/// The scaled value of decimal text: an all-digit integer part below
/// `MAX_INT_PART`, optionally followed by a point and one to four fractional
/// digits. Anything else has no value.
pub open spec fn spec_parse_scaled(s: Seq<char>) -> Option<u64> {
    let dot = first_idx(s, |c: char| c == '.');
    if dot >= s.len() {
        if s.len() > 0 && all_digits(s) && digits_val(s) < MAX_INT_PART as nat {
            Some((digits_val(s) * 10000) as u64)
        } else {
            None
        }
    } else {
        let ip = s.take(dot as int);
        let fp = s.skip(dot as int + 1);
        if ip.len() > 0 && all_digits(ip) && digits_val(ip) < MAX_INT_PART as nat && 1 <= fp.len()
            <= 4 && all_digits(fp) {
            Some((digits_val(ip) * 10000 + digits_val(fp) * pow10((4 - fp.len()) as nat)) as u64)
        } else {
            None
        }
    }
}

/// A parsed scaled decimal lies below `SCALED_LIMIT`.
pub proof fn lemma_parse_scaled_bound(s: Seq<char>)
    requires
        spec_parse_scaled(s) is Some,
    ensures
        spec_parse_scaled(s)->Some_0 < SCALED_LIMIT,
{
    let dot = first_idx(s, |c: char| c == '.');
    if dot >= s.len() {
    } else {
        let fp = s.skip(dot as int + 1);
        lemma_digits_val_bound(fp);
        lemma_pow10_small();
        if fp.len() == 1 {
            assert(digits_val(fp) * pow10(3) <= 9000);
        } else if fp.len() == 2 {
            assert(digits_val(fp) * pow10(2) <= 9900);
        } else if fp.len() == 3 {
            assert(digits_val(fp) * pow10(1) <= 9990);
        } else {
            assert(digits_val(fp) * pow10(0) <= 9999);
        }
    }
}

/// Joins an integer part with `flen` fractional digits into a scaled value.
fn combine_scaled(ipv: u64, fpv: u64, flen: usize) -> (t: u64)
    requires
        ipv < MAX_INT_PART,
        1 <= flen <= 4,
        fpv < pow10(flen as nat),
    ensures
        t == ipv * 10000 + fpv * pow10((4 - flen) as nat),
{
    proof {
        lemma_pow10_small();
    }
    if flen == 1 {
        assert(fpv < 10);
        assert(pow10((4 - flen) as nat) == 1000) by {
            assert((4 - flen) as nat == 3);
        }
        ipv * 10000 + fpv * 1000
    } else if flen == 2 {
        assert(fpv < 100);
        assert(pow10((4 - flen) as nat) == 100) by {
            assert((4 - flen) as nat == 2);
        }
        ipv * 10000 + fpv * 100
    } else if flen == 3 {
        assert(fpv < 1000);
        assert(pow10((4 - flen) as nat) == 10) by {
            assert((4 - flen) as nat == 1);
        }
        ipv * 10000 + fpv * 10
    } else {
        assert(fpv < 10000);
        assert(pow10((4 - flen) as nat) == 1) by {
            assert((4 - flen) as nat == 0);
        }
        ipv * 10000 + fpv * 1
    }
}

/// Parses decimal text into its scaled value.
#[verifier::rlimit(60)]
pub fn parse_scaled_exec(v: &Vec<char>) -> (r: Option<u64>)
    ensures
        r == spec_parse_scaled(v@),
        r is Some ==> r->Some_0 < SCALED_LIMIT,
{
    proof {
        if spec_parse_scaled(v@) is Some {
            lemma_parse_scaled_bound(v@);
        }
    }
    let n: usize = v.len();
    let mut dot: usize = 0;
    while dot < n && v[dot] != '.'
        invariant
            n == v@.len(),
            dot <= n,
            forall|k: int| 0 <= k < dot ==> v@[k] != '.',
        decreases n - dot,
    {
        dot = dot + 1;
    }
    proof {
        lemma_first_idx_unique(v@, |c: char| c == '.', dot as int);
    }
    if dot == n {
        match parse_u64_exec(v) {
            Some(x) => {
                if x < MAX_INT_PART {
                    Some(x * 10000)
                } else {
                    None
                }
            },
            None => {
                proof {
                    if v@.len() > 0 && all_digits(v@) {
                        assert(digits_val(v@) > u64::MAX);
                    }
                }
                None
            },
        }
    } else {
        let ip = crate::text::subvec(v, 0, dot);
        let fp = crate::text::subvec(v, dot + 1, n);
        assert(ip@ =~= v@.take(dot as int));
        assert(fp@ =~= v@.skip(dot + 1));
        let flen: usize = fp.len();
        if flen < 1 || flen > 4 {
            return None;
        }
        let ipv = match parse_u64_exec(&ip) {
            Some(x) => {
                if x < MAX_INT_PART {
                    x
                } else {
                    return None;
                }
            },
            None => {
                proof {
                    if ip@.len() > 0 && all_digits(ip@) {
                        assert(digits_val(ip@) > u64::MAX);
                    }
                }
                return None;
            },
        };
        let fpv = match parse_u64_exec(&fp) {
            Some(y) => y,
            None => {
                proof {
                    if all_digits(fp@) {
                        lemma_digits_val_bound(fp@);
                        lemma_pow10_small();
                    }
                }
                return None;
            },
        };
        proof {
            lemma_digits_val_bound(fp@);
            lemma_pow10_small();
            assert(spec_parse_u64(ip@) == Some(ipv));
            assert(ipv == digits_val(ip@));
            assert(spec_parse_u64(fp@) == Some(fpv));
            assert(fpv == digits_val(fp@));
        }
        proof {
            assert(fpv < pow10(fp@.len()));
        }
        let total: u64 = combine_scaled(ipv, fpv, flen);
        assert(spec_parse_scaled(v@) == Some(total));
        Some(total)
    }
}

/// The least element of a nonempty sequence.
pub open spec fn seq_min(s: Seq<u64>) -> u64
    decreases s.len(),
{
    if s.len() == 0 {
        0
    } else if s.len() == 1 {
        s[0]
    } else {
        let m = seq_min(s.drop_last());
        if s.last() < m {
            s.last()
        } else {
            m
        }
    }
}

/// The greatest element of a nonempty sequence.
pub open spec fn seq_max(s: Seq<u64>) -> u64
    decreases s.len(),
{
    if s.len() == 0 {
        0
    } else if s.len() == 1 {
        s[0]
    } else {
        let m = seq_max(s.drop_last());
        if s.last() > m {
            s.last()
        } else {
            m
        }
    }
}

/// The sum of a sequence.
pub open spec fn seq_sum(s: Seq<u64>) -> nat
    decreases s.len(),
{
    if s.len() == 0 {
        0
    } else {
        (seq_sum(s.drop_last()) + s.last()) as nat
    }
}

proof fn lemma_seq_sum_bound(s: Seq<u64>)
    requires
        forall|i: int| 0 <= i < s.len() ==> s[i] < SCALED_LIMIT,
    ensures
        seq_sum(s) <= s.len() * SCALED_LIMIT,
    decreases s.len(),
{
    if s.len() == 0 {
    } else {
        assert(forall|i: int| 0 <= i < s.len() - 1 ==> s.drop_last()[i] == s[i]);
        lemma_seq_sum_bound(s.drop_last());
        assert(s.last() < SCALED_LIMIT);
        assert((s.len() - 1) * SCALED_LIMIT + SCALED_LIMIT == s.len() * SCALED_LIMIT) by (nonlinear_arith);
    }
}

/// A value rounded, half away from zero, to the nearest tenth of a unit.
pub open spec fn round_tenth(x: nat) -> nat {
    ((x + 500) / 1000) * 1000
}

/// Rounds a scaled value to the nearest tenth of a unit.
pub fn round_tenth_exec(x: u64) -> (r: u64)
    requires
        x < SCALED_LIMIT,
    ensures
        r == round_tenth(x as nat),
{
    ((x + 500) / 1000) * 1000
}

/// The arithmetic mean of a nonempty sequence, rounded to the nearest tenth.
pub open spec fn avg_round_tenth(s: Seq<u64>) -> nat {
    ((seq_sum(s) + s.len() * 500) / (s.len() * 1000)) * 1000
}

/// Computes the rounded mean of the samples.
pub fn avg_round_tenth_exec(samples: &Vec<u64>) -> (r: u64)
    requires
        samples@.len() > 0,
        forall|i: int| 0 <= i < samples@.len() ==> samples@[i] < SCALED_LIMIT,
    ensures
        r == avg_round_tenth(samples@),
{
    let n: usize = samples.len();
    let mut sum: u128 = 0;
    let mut i: usize = 0;
    assert(samples@.take(0) =~= Seq::<u64>::empty());
    while i < n
        invariant
            n == samples@.len(),
            i <= n,
            forall|k: int| 0 <= k < n ==> samples@[k] < SCALED_LIMIT,
            sum == seq_sum(samples@.take(i as int)),
            sum <= i * (SCALED_LIMIT as u128),
        decreases n - i,
    {
        proof {
            assert(samples@.take(i + 1).drop_last() =~= samples@.take(i as int));
            assert(samples@.take(i + 1).last() == samples@[i as int]);
            assert(i as u128 * (SCALED_LIMIT as u128) <= 0xffffffffffffffffu128 * (
            SCALED_LIMIT as u128)) by (nonlinear_arith)
                requires
                    i as u128 <= 0xffffffffffffffffu128,
            ;
            assert((i as u128 + 1) * (SCALED_LIMIT as u128) == i as u128 * (SCALED_LIMIT as u128)
                + (SCALED_LIMIT as u128)) by (nonlinear_arith);
        }
        sum = sum + (samples[i] as u128);
        i = i + 1;
    }
    assert(samples@.take(n as int) =~= samples@);
    let nn: u128 = n as u128;
    proof {
        assert(nn * (SCALED_LIMIT as u128) <= 0xffffffffffffffffu128 * (SCALED_LIMIT as u128))
            by (nonlinear_arith)
            requires
                nn <= 0xffffffffffffffffu128,
        ;
    }
    let q: u128 = (sum + nn * 500) / (nn * 1000);
    proof {
        lemma_fundamental_div_mod((sum + nn * 500) as int, (nn * 1000) as int);
        assert((sum + nn * 500) % (nn * 1000) >= 0) by (nonlinear_arith)
            requires
                nn >= 1,
                sum >= 0,
        ;
        assert((nn * 1000) * q <= sum + nn * 500);
        assert(sum + nn * 500 <= nn * (SCALED_LIMIT as u128 + 500)) by {
            assert(sum <= nn * (SCALED_LIMIT as u128));
            assert(nn * (SCALED_LIMIT as u128) + nn * 500 == nn * (SCALED_LIMIT as u128 + 500))
                by (nonlinear_arith);
        }
        assert(q * 1000 <= SCALED_LIMIT + 500) by (nonlinear_arith)
            requires
                nn >= 1,
                (nn * 1000) * q <= nn * ((SCALED_LIMIT as u128) + 500),
        ;
    }
    (q * 1000) as u64
}

/// Packet loss as a percentage scaled by ten thousand: a hundred times the
/// lost share of `sent` packets, rounded half up to a tenth of a percent.
/// Zero when nothing was sent, or when more replies than probes came back.
pub open spec fn loss_e4(sent: u64, received: u64) -> u64 {
    if sent > 0 && received <= sent {
        (((sent - received) * 2000 + sent) / (2 * sent) * 1000) as u64
    } else {
        0
    }
}

/// Computes the recomputed loss percentage from packet counts.
pub fn loss_e4_exec(sent: u64, received: u64) -> (r: u64)
    ensures
        r == loss_e4(sent, received),
        r <= 1000000,
{
    if sent > 0 && received <= sent {
        let d: u128 = (sent - received) as u128;
        let s: u128 = sent as u128;
        let q: u128 = (d * 2000 + s) / (2 * s);
        proof {
            lemma_fundamental_div_mod((d * 2000 + s) as int, (2 * s) as int);
            assert((d * 2000 + s) % (2 * s) >= 0) by (nonlinear_arith)
                requires
                    s >= 1,
                    d >= 0,
            ;
            assert((2 * s) * q <= d * 2000 + s);
            assert(d * 2000 <= s * 2000);
            assert(q <= 1000) by (nonlinear_arith)
                requires
                    s >= 1,
                    (2 * s) * q <= s * 2000 + s,
            ;
        }
        (q * 1000) as u64
    } else {
        0
    }
}

/// The digit character for a value below ten.
pub open spec fn digit_char(d: nat) -> char {
    if d == 0 {
        '0'
    } else if d == 1 {
        '1'
    } else if d == 2 {
        '2'
    } else if d == 3 {
        '3'
    } else if d == 4 {
        '4'
    } else if d == 5 {
        '5'
    } else if d == 6 {
        '6'
    } else if d == 7 {
        '7'
    } else if d == 8 {
        '8'
    } else {
        '9'
    }
}

/// The decimal digit string of a number.
pub open spec fn dec_digits(n: nat) -> Seq<char>
    decreases n,
{
    if n < 10 {
        seq![digit_char(n)]
    } else {
        dec_digits(n / 10) + seq![digit_char(n % 10)]
    }
}

/// Up to `d` low digits of `f`, zero-padded on the left.
pub open spec fn pad_digits(f: nat, d: nat) -> Seq<char>
    decreases d,
{
    if d == 0 {
        Seq::empty()
    } else {
        pad_digits(f / 10, (d - 1) as nat) + seq![digit_char(f % 10)]
    }
}

/// A four-digit fraction with trailing zeros trimmed.
pub open spec fn frac_str(f: nat, d: nat) -> Seq<char>
    decreases d,
{
    if d == 0 {
        Seq::empty()
    } else if f % 10 == 0 {
        frac_str(f / 10, (d - 1) as nat)
    } else {
        pad_digits(f, d)
    }
}

/// The text of a scaled value: the integer part, then, when the fraction is
/// not zero, a point and the fraction's digits without trailing zeros.
pub open spec fn scaled_str(x: nat) -> Seq<char> {
    if x % 10000 == 0 {
        dec_digits(x / 10000)
    } else {
        dec_digits(x / 10000) + "."@ + frac_str(x % 10000, 4)
    }
}

/// Appends one digit character.
fn append_digit(out: &mut String, d: u64)
    requires
        d < 10,
    ensures
        final(out)@ == old(out)@ + seq![digit_char(d as nat)],
{
    if d == 0 {
        out.append("0");
        proof {
            reveal_strlit("0");
            assert(("0")@ =~= seq![digit_char(0)]);
        }
    } else if d == 1 {
        out.append("1");
        proof {
            reveal_strlit("1");
            assert(("1")@ =~= seq![digit_char(1)]);
        }
    } else if d == 2 {
        out.append("2");
        proof {
            reveal_strlit("2");
            assert(("2")@ =~= seq![digit_char(2)]);
        }
    } else if d == 3 {
        out.append("3");
        proof {
            reveal_strlit("3");
            assert(("3")@ =~= seq![digit_char(3)]);
        }
    } else if d == 4 {
        out.append("4");
        proof {
            reveal_strlit("4");
            assert(("4")@ =~= seq![digit_char(4)]);
        }
    } else if d == 5 {
        out.append("5");
        proof {
            reveal_strlit("5");
            assert(("5")@ =~= seq![digit_char(5)]);
        }
    } else if d == 6 {
        out.append("6");
        proof {
            reveal_strlit("6");
            assert(("6")@ =~= seq![digit_char(6)]);
        }
    } else if d == 7 {
        out.append("7");
        proof {
            reveal_strlit("7");
            assert(("7")@ =~= seq![digit_char(7)]);
        }
    } else if d == 8 {
        out.append("8");
        proof {
            reveal_strlit("8");
            assert(("8")@ =~= seq![digit_char(8)]);
        }
    } else {
        out.append("9");
        proof {
            reveal_strlit("9");
            assert(("9")@ =~= seq![digit_char(9)]);
        }
    }
}

/// Appends the decimal digits of `n`.
pub fn append_u64(out: &mut String, n: u64)
    ensures
        final(out)@ == old(out)@ + dec_digits(n as nat),
    decreases n,
{
    if n < 10 {
        append_digit(out, n);
    } else {
        append_u64(out, n / 10);
        append_digit(out, n % 10);
        assert(final(out)@ =~= old(out)@ + dec_digits(n as nat));
    }
}

/// Appends exactly `d` low digits of `f`, zero-padded.
fn append_pad(out: &mut String, f: u64, d: u64)
    requires
        d <= 4,
    ensures
        final(out)@ == old(out)@ + pad_digits(f as nat, d as nat),
    decreases d,
{
    if d == 0 {
        assert(final(out)@ =~= old(out)@ + pad_digits(f as nat, 0));
    } else {
        append_pad(out, f / 10, d - 1);
        append_digit(out, f % 10);
        assert(final(out)@ =~= old(out)@ + pad_digits(f as nat, d as nat));
    }
}

/// Appends the text of a scaled value.
pub fn append_scaled(out: &mut String, x: u64)
    ensures
        final(out)@ == old(out)@ + scaled_str(x as nat),
{
    let ip: u64 = x / 10000;
    let f: u64 = x % 10000;
    if f == 0 {
        append_u64(out, ip);
    } else {
        let ghost base = out@;
        append_u64(out, ip);
        out.append(".");
        let mut g: u64 = f;
        let mut d: u64 = 4;
        proof {
            lemma_pow10_small();
        }
        while g % 10 == 0
            invariant
                1 <= d <= 4,
                g > 0,
                g < pow10(d as nat),
                frac_str(f as nat, 4) == frac_str(g as nat, d as nat),
            decreases d,
        {
            proof {
                assert(frac_str(g as nat, d as nat) == frac_str((g / 10) as nat, (d - 1) as nat));
                lemma_pow10_small();
                if d == 1 {
                    assert(g < 10);
                    assert(g == 0);
                }
                assert(pow10(d as nat) == 10 * pow10((d - 1) as nat));
            }
            g = g / 10;
            d = d - 1;
        }
        assert(frac_str(g as nat, d as nat) == pad_digits(g as nat, d as nat));
        append_pad(out, g, d);
        assert(final(out)@ =~= base + scaled_str(x as nat));
    }
}

} // verus!
