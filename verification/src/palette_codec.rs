use vstd::prelude::*;
use crate::color::Color;
use crate::palette::ColorPalette;

verus! {

/// Whether a byte is an ASCII decimal digit.
pub open spec fn is_digit(b: u8) -> bool {
    48 <= b <= 57
}

/// The decimal digits of `n`, most significant first.
pub open spec fn spec_digits(n: int) -> Seq<u8>
    decreases n,
{
    if n < 10 {
        seq![(48 + n) as u8]
    } else {
        spec_digits(n / 10) + seq![(48 + n % 10) as u8]
    }
}

/// The value of a digit string, most significant first.
pub open spec fn spec_digits_val(ds: Seq<u8>) -> int
    decreases ds.len(),
{
    if ds.len() == 0 {
        0
    } else {
        spec_digits_val(ds.drop_last()) * 10 + (ds.last() - 48)
    }
}

/// The digits of `n` are digits, start without a superfluous zero, number at
/// most ten, and evaluate back to `n`.
pub proof fn lemma_digits_facts(n: int)
    requires
        0 <= n <= u32::MAX,
    ensures
        spec_digits(n).len() >= 1,
        spec_digits(n).len() <= 10,
        forall|k: int| 0 <= k < spec_digits(n).len() ==> is_digit(#[trigger] spec_digits(n)[k]),
        spec_digits_val(spec_digits(n)) == n,
        spec_digits(n)[0] == 48 ==> n == 0,
    decreases n,
{
    if n < 10 {
        let ds = spec_digits(n);
        assert(ds == seq![(48 + n) as u8]);
        assert(ds.drop_last() =~= Seq::<u8>::empty());
        assert(spec_digits_val(Seq::<u8>::empty()) == 0);
        assert(spec_digits_val(ds) == 0 * 10 + (ds.last() - 48));
    } else {
        vstd::arithmetic::div_mod::lemma_fundamental_div_mod(n, 10);
        vstd::arithmetic::div_mod::lemma_mod_bound(n, 10);
        vstd::arithmetic::div_mod::lemma_div_pos_is_pos(n, 10);
        lemma_digits_facts(n / 10);
        let ds = spec_digits(n);
        let hd = spec_digits(n / 10);
        assert(ds == hd + seq![(48 + n % 10) as u8]);
        assert(ds.drop_last() =~= hd);
        assert(ds.last() == (48 + n % 10) as u8);
        assert(spec_digits_val(ds) == spec_digits_val(hd) * 10 + n % 10);
        assert((n / 10) * 10 == 10 * (n / 10)) by (nonlinear_arith);
        assert(ds[0] == hd[0]);
        // a number of eleven or more digits would exceed u32::MAX
        if hd.len() >= 10 {
            lemma_digits_len_lower(n / 10);
            lemma_pow10_vals();
            lemma_pow10_monotone(9, hd.len() - 1);
            assert(n / 10 >= 1_000_000_000);
            assert(n >= 10_000_000_000int) by (nonlinear_arith)
                requires
                    n / 10 >= 1_000_000_000,
                    n == 10 * (n / 10) + n % 10,
                    n % 10 >= 0,
            ;
        }
    }
}

/// A number with `k + 1` digits is at least ten to the `k`.
proof fn lemma_digits_len_lower(n: int)
    requires
        n >= 0,
    ensures
        spec_digits(n).len() == 1 ==> n <= 9,
        spec_digits(n).len() >= 2 ==> n >= spec_pow10(spec_digits(n).len() - 1),
    decreases n,
{
    if n >= 10 {
        vstd::arithmetic::div_mod::lemma_fundamental_div_mod(n, 10);
        vstd::arithmetic::div_mod::lemma_mod_bound(n, 10);
        vstd::arithmetic::div_mod::lemma_div_pos_is_pos(n, 10);
        lemma_digits_len_lower(n / 10);
        let l = spec_digits(n).len();
        assert(spec_digits(n / 10).len() == l - 1);
        if l >= 2 {
            if l - 1 == 1 {
                assert(n / 10 >= 1);
                assert(n >= 10) by (nonlinear_arith)
                    requires
                        n / 10 >= 1,
                        n == 10 * (n / 10) + n % 10,
                        n % 10 >= 0,
                ;
                lemma_pow10_vals();
            } else {
                assert(n / 10 >= spec_pow10(l - 2));
                assert(spec_pow10(l - 1) == 10 * spec_pow10(l - 2));
                assert(n >= 10 * spec_pow10(l - 2)) by (nonlinear_arith)
                    requires
                        n / 10 >= spec_pow10(l - 2),
                        n == 10 * (n / 10) + n % 10,
                        n % 10 >= 0,
                ;
            }
        }
    }
}

/// Ten to the `k`.
pub open spec fn spec_pow10(k: int) -> int
    decreases k,
{
    if k <= 0 {
        1
    } else {
        10 * spec_pow10(k - 1)
    }
}

/// The first eleven powers of ten, written out.
proof fn lemma_pow10_vals()
    ensures
        spec_pow10(0) == 1,
        spec_pow10(1) == 10,
        spec_pow10(9) == 1_000_000_000,
        spec_pow10(10) == 10_000_000_000,
{
    assert(spec_pow10(0) == 1);
    assert(spec_pow10(1) == 10);
    assert(spec_pow10(2) == 100);
    assert(spec_pow10(3) == 1000);
    assert(spec_pow10(4) == 10000);
    assert(spec_pow10(5) == 100000);
    assert(spec_pow10(6) == 1000000);
    assert(spec_pow10(7) == 10000000);
    assert(spec_pow10(8) == 100000000);
    assert(spec_pow10(9) == 1_000_000_000);
    assert(spec_pow10(10) == 10_000_000_000);
}

/// Powers of ten grow with the exponent.
proof fn lemma_pow10_monotone(a: int, b: int)
    requires
        0 <= a <= b,
    ensures
        spec_pow10(a) <= spec_pow10(b),
    decreases b - a,
{
    if a < b {
        lemma_pow10_monotone(a, b - 1);
        assert(spec_pow10(b) == 10 * spec_pow10(b - 1));
        assert(spec_pow10(b - 1) >= 1) by {
            lemma_pow10_pos(b - 1);
        }
    }
}

/// Powers of ten are positive.
proof fn lemma_pow10_pos(k: int)
    ensures
        spec_pow10(k) >= 1,
    decreases k,
{
    if k > 0 {
        lemma_pow10_pos(k - 1);
    }
}

/// Append the decimal digits of `n`.
fn push_digits(out: &mut Vec<u8>, n: u32)
    ensures
        final(out)@ == old(out)@ + spec_digits(n as int),
    decreases n,
{
    let ghost pre = out@;
    if n < 10 {
        out.push(48 + n as u8);
        proof {
            assert(out@ =~= pre + spec_digits(n as int));
        }
    } else {
        push_digits(out, n / 10);
        out.push(48 + (n % 10) as u8);
        proof {
            assert(out@ =~= pre + spec_digits(n as int));
        }
    }
}

/// The position of the first non-digit at or after `i`.
pub open spec fn spec_run_end(s: Seq<u8>, i: int) -> int
    decreases s.len() - i,
{
    if 0 <= i < s.len() && is_digit(s[i]) {
        spec_run_end(s, i + 1)
    } else {
        i
    }
}

/// The run end lies between `i` and the end of the string, everything in the
/// run is a digit, and the run stops at a non-digit.
pub proof fn lemma_run_end_facts(s: Seq<u8>, i: int)
    requires
        0 <= i <= s.len(),
    ensures
        i <= spec_run_end(s, i) <= s.len(),
        forall|k: int| i <= k < spec_run_end(s, i) ==> is_digit(#[trigger] s[k]),
        spec_run_end(s, i) < s.len() ==> !is_digit(s[spec_run_end(s, i)]),
    decreases s.len() - i,
{
    if i < s.len() && is_digit(s[i]) {
        lemma_run_end_facts(s, i + 1);
    }
}

/// A digit run that ends at a known non-digit boundary ends exactly there.
pub proof fn lemma_run_end_of(s: Seq<u8>, i: int, j: int)
    requires
        0 <= i <= j <= s.len(),
        forall|k: int| i <= k < j ==> is_digit(#[trigger] s[k]),
        j == s.len() || !is_digit(s[j]),
    ensures
        spec_run_end(s, i) == j,
    decreases j - i,
{
    if i < j {
        lemma_run_end_of(s, i + 1, j);
    }
}

/// The value of the digit run `s[i .. j)`.
pub open spec fn spec_run_val(s: Seq<u8>, i: int, j: int) -> int
    decreases j - i,
{
    if i >= j {
        0
    } else {
        spec_run_val(s, i, j - 1) * 10 + (s[j - 1] - 48)
    }
}

/// A run holding exactly the digits of `n` evaluates to `n`.
pub proof fn lemma_run_val_of_digits(s: Seq<u8>, i: int, n: int)
    requires
        0 <= n <= u32::MAX,
        0 <= i,
        i + spec_digits(n).len() <= s.len(),
        s.subrange(i, i + spec_digits(n).len()) == spec_digits(n),
    ensures
        spec_run_val(s, i, i + spec_digits(n).len()) == n,
{
    lemma_digits_facts(n);
    lemma_run_val_eq(s, i, i + spec_digits(n).len(), spec_digits(n));
}

/// A run equal to a digit string evaluates to that string's value.
proof fn lemma_run_val_eq(s: Seq<u8>, i: int, j: int, ds: Seq<u8>)
    requires
        0 <= i <= j <= s.len(),
        ds.len() == j - i,
        s.subrange(i, j) == ds,
    ensures
        spec_run_val(s, i, j) == spec_digits_val(ds),
    decreases j - i,
{
    if i < j {
        assert(s.subrange(i, j - 1) =~= ds.drop_last());
        lemma_run_val_eq(s, i, j - 1, ds.drop_last());
        assert(s[j - 1] == ds.last());
    }
}

/// Parse an unsigned decimal number at `i`: one or more digits, no
/// superfluous leading zero, value within `u32`. Returns the value and the
/// position after the digits.
pub open spec fn spec_parse_u32(s: Seq<u8>, i: int) -> Option<(u32, int)> {
    if 0 <= i < s.len() && is_digit(s[i]) {
        let j = spec_run_end(s, i);
        if s[i] == 48 && j > i + 1 {
            None
        } else if j - i > 10 {
            None
        } else if spec_run_val(s, i, j) > u32::MAX {
            None
        } else {
            Some((spec_run_val(s, i, j) as u32, j))
        }
    } else {
        None
    }
}

/// Parsing right after the emitted digits of `n` yields `n` back, provided
/// a non-digit follows the run.
pub proof fn lemma_parse_u32_of_digits(s: Seq<u8>, i: int, n: int)
    requires
        0 <= n <= u32::MAX,
        0 <= i,
        i + spec_digits(n).len() <= s.len(),
        s.subrange(i, i + spec_digits(n).len()) == spec_digits(n),
        i + spec_digits(n).len() == s.len() || !is_digit(s[i + spec_digits(n).len()]),
    ensures
        spec_parse_u32(s, i) == Some((n as u32, i + spec_digits(n).len())),
{
    lemma_digits_facts(n);
    let l = spec_digits(n).len() as int;
    assert forall|k: int| i <= k < i + l implies is_digit(#[trigger] s[k]) by {
        assert(s[k] == spec_digits(n)[k - i]);
    }
    lemma_run_end_of(s, i, i + l);
    lemma_run_val_of_digits(s, i, n);
    assert(s[i] == spec_digits(n)[0]);
    if s[i] == 48 {
        assert(n == 0);
    }
}

/// Find the end of the digit run starting at `i`.
fn run_end(s: &Vec<u8>, i: usize) -> (j: usize)
    requires
        i <= s@.len(),
    ensures
        j == spec_run_end(s@, i as int),
        i <= j <= s@.len(),
{
    let n = s.len();
    let mut j = i;
    while j < n && 48 <= s[j] && s[j] <= 57
        invariant
            i <= j <= n,
            n == s@.len(),
            spec_run_end(s@, i as int) == spec_run_end(s@, j as int),
        decreases n - j,
    {
        j = j + 1;
    }
    proof {
        lemma_run_end_facts(s@, j as int);
    }
    j
}

/// Parse an unsigned decimal number at `i`.
fn parse_u32(s: &Vec<u8>, i: usize) -> (r: Option<(u32, usize)>)
    requires
        i <= s@.len(),
    ensures
        match r {
            Some(p) => spec_parse_u32(s@, i as int) == Some((p.0, p.1 as int)) && i < p.1
                <= s@.len(),
            None => spec_parse_u32(s@, i as int) is None,
        },
{
    let n = s.len();
    if i >= n || s[i] < 48 || s[i] > 57 {
        return None;
    }
    let j = run_end(s, i);
    proof {
        lemma_run_end_facts(s@, i as int);
    }
    if s[i] == 48 && j > i + 1 {
        return None;
    }
    if j - i > 10 {
        return None;
    }
    let mut v: u64 = 0;
    let mut k = i;
    proof {
        lemma_pow10_vals();
    }
    while k < j
        invariant
            i <= k <= j <= s@.len(),
            j - i <= 10,
            v == spec_run_val(s@, i as int, k as int),
            0 <= v < spec_pow10(k - i),
            spec_pow10(10) == 10_000_000_000,
            forall|q: int| i <= q < j ==> is_digit(#[trigger] s@[q]),
        decreases j - k,
    {
        proof {
            assert(is_digit(s@[k as int]));
            assert(spec_run_val(s@, i as int, k + 1) == spec_run_val(s@, i as int, k as int) * 10
                + (s@[k as int] - 48));
            assert(spec_pow10(k - i + 1) == 10 * spec_pow10(k - i));
            assert(v * 10 + 9 < 10 * spec_pow10(k - i)) by (nonlinear_arith)
                requires
                    0 <= v < spec_pow10(k - i),
            ;
            lemma_pow10_monotone(k - i + 1, 10);
        }
        v = v * 10 + (s[k] - 48) as u64;
        k = k + 1;
    }
    if v > 0xFFFF_FFFF {
        return None;
    }
    Some((v as u32, j))
}

/// The separator between list items: a comma and a space.
pub open spec fn lit_cs() -> Seq<u8> {
    seq![44u8, 32u8]
}

/// The primary document's opening: the bytes of `colors = [`.
pub open spec fn lit_hdr_primary() -> Seq<u8> {
    seq![99u8, 111u8, 108u8, 111u8, 114u8, 115u8, 32u8, 61u8, 32u8, 91u8]
}

/// Between the primary document's lists: a line break and `layer_counts = [`.
pub open spec fn lit_mid_primary() -> Seq<u8> {
    seq![
        10u8,
        108u8,
        97u8,
        121u8,
        101u8,
        114u8,
        95u8,
        99u8,
        111u8,
        117u8,
        110u8,
        116u8,
        115u8,
        32u8,
        61u8,
        32u8,
        91u8,
    ]
}

/// The legacy document's opening: the bytes of `(colors: [`.
pub open spec fn lit_hdr_legacy() -> Seq<u8> {
    seq![40u8, 99u8, 111u8, 108u8, 111u8, 114u8, 115u8, 58u8, 32u8, 91u8]
}

/// Between the legacy document's lists: the bytes of `, layer_counts: [`.
pub open spec fn lit_mid_legacy() -> Seq<u8> {
    seq![
        44u8,
        32u8,
        108u8,
        97u8,
        121u8,
        101u8,
        114u8,
        95u8,
        99u8,
        111u8,
        117u8,
        110u8,
        116u8,
        115u8,
        58u8,
        32u8,
        91u8,
    ]
}

/// Whether the bytes of `lit` stand at position `i` of `s`.
pub open spec fn match_at(s: Seq<u8>, i: int, lit: Seq<u8>) -> bool {
    0 <= i && i + lit.len() <= s.len() && s.subrange(i, i + lit.len()) == lit
}

/// One encoded color: open bracket, three decimal channels separated by
/// comma-space, close bracket.
pub open spec fn spec_enc_triple(c: Color, open: u8, close: u8) -> Seq<u8> {
    seq![open] + spec_digits(c.r as int) + lit_cs() + spec_digits(c.g as int) + lit_cs()
        + spec_digits(c.b as int) + seq![close]
}

/// The encoded colors, separated by comma-space.
pub open spec fn spec_enc_color_items(cs: Seq<Color>, open: u8, close: u8) -> Seq<u8>
    decreases cs.len(),
{
    if cs.len() == 0 {
        Seq::empty()
    } else if cs.len() == 1 {
        spec_enc_triple(cs[0], open, close)
    } else {
        spec_enc_triple(cs[0], open, close) + lit_cs() + spec_enc_color_items(
            cs.drop_first(),
            open,
            close,
        )
    }
}

/// The encoded layer counts, separated by comma-space.
pub open spec fn spec_enc_count_items(ls: Seq<u32>) -> Seq<u8>
    decreases ls.len(),
{
    if ls.len() == 0 {
        Seq::empty()
    } else if ls.len() == 1 {
        spec_digits(ls[0] as int)
    } else {
        spec_digits(ls[0] as int) + lit_cs() + spec_enc_count_items(ls.drop_first())
    }
}

/// The primary encoding of a palette: `colors = [..]` and
/// `layer_counts = [..]`, one line each; color triples use square brackets.
pub open spec fn spec_enc_primary(cs: Seq<Color>, ls: Seq<u32>) -> Seq<u8> {
    lit_hdr_primary() + spec_enc_color_items(cs, 91, 93) + seq![93u8] + lit_mid_primary()
        + spec_enc_count_items(ls) + seq![93u8, 10u8]
}

/// The legacy encoding of a palette: one parenthesized record whose color
/// triples use parentheses.
pub open spec fn spec_enc_legacy(cs: Seq<Color>, ls: Seq<u32>) -> Seq<u8> {
    lit_hdr_legacy() + spec_enc_color_items(cs, 40, 41) + seq![93u8] + lit_mid_legacy()
        + spec_enc_count_items(ls) + seq![93u8, 41u8]
}

/// Parse one color triple at `i`.
pub open spec fn spec_parse_triple(s: Seq<u8>, i: int, open: u8, close: u8) -> Option<
    (Color, int),
> {
    if !(0 <= i < s.len() && s[i] == open) {
        None
    } else {
        match spec_parse_u32(s, i + 1) {
            None => None,
            Some((r, j1)) => if r > 255 || !match_at(s, j1, lit_cs()) {
                None
            } else {
                match spec_parse_u32(s, j1 + 2) {
                    None => None,
                    Some((g, j2)) => if g > 255 || !match_at(s, j2, lit_cs()) {
                        None
                    } else {
                        match spec_parse_u32(s, j2 + 2) {
                            None => None,
                            Some((b, j3)) => if b > 255 || !(j3 < s.len() && s[j3] == close) {
                                None
                            } else {
                                Some(
                                    (Color { r: r as u8, g: g as u8, b: b as u8 }, j3 + 1),
                                )
                            },
                        }
                    },
                }
            },
        }
    }
}

/// Parse one or more color triples separated by comma-space, up to and
/// including the list's closing square bracket.
pub open spec fn spec_parse_color_items(
    s: Seq<u8>,
    i: int,
    open: u8,
    close: u8,
    fuel: int,
) -> Option<(Seq<Color>, int)>
    decreases fuel,
{
    if fuel <= 0 {
        None
    } else {
        match spec_parse_triple(s, i, open, close) {
            None => None,
            Some((c, j)) => if j < s.len() && s[j] == 93 {
                Some((seq![c], j + 1))
            } else if match_at(s, j, lit_cs()) {
                match spec_parse_color_items(s, j + 2, open, close, fuel - 1) {
                    None => None,
                    Some((rest, k)) => Some((seq![c] + rest, k)),
                }
            } else {
                None
            },
        }
    }
}

/// Parse a possibly empty color list, up to and including its closing
/// square bracket.
pub open spec fn spec_parse_color_list(
    s: Seq<u8>,
    i: int,
    open: u8,
    close: u8,
    fuel: int,
) -> Option<(Seq<Color>, int)> {
    if 0 <= i < s.len() && s[i] == 93 {
        Some((Seq::empty(), i + 1))
    } else {
        spec_parse_color_items(s, i, open, close, fuel)
    }
}

/// Parse one or more layer counts separated by comma-space, up to and
/// including the list's closing square bracket.
pub open spec fn spec_parse_count_items(s: Seq<u8>, i: int, fuel: int) -> Option<(Seq<u32>, int)>
    decreases fuel,
{
    if fuel <= 0 {
        None
    } else {
        match spec_parse_u32(s, i) {
            None => None,
            Some((v, j)) => if j < s.len() && s[j] == 93 {
                Some((seq![v], j + 1))
            } else if match_at(s, j, lit_cs()) {
                match spec_parse_count_items(s, j + 2, fuel - 1) {
                    None => None,
                    Some((rest, k)) => Some((seq![v] + rest, k)),
                }
            } else {
                None
            },
        }
    }
}

/// Parse a possibly empty layer-count list, up to and including its closing
/// square bracket.
pub open spec fn spec_parse_count_list(s: Seq<u8>, i: int, fuel: int) -> Option<(Seq<u32>, int)> {
    if 0 <= i < s.len() && s[i] == 93 {
        Some((Seq::empty(), i + 1))
    } else {
        spec_parse_count_items(s, i, fuel)
    }
}

/// Parse a whole primary document: both lists, index-aligned, and nothing
/// after the final line break.
pub open spec fn spec_parse_primary(s: Seq<u8>) -> Option<(Seq<Color>, Seq<u32>)> {
    if !match_at(s, 0, lit_hdr_primary()) {
        None
    } else {
        match spec_parse_color_list(s, 10, 91, 93, s.len() as int) {
            None => None,
            Some((cs, j)) => if !match_at(s, j, lit_mid_primary()) {
                None
            } else {
                match spec_parse_count_list(s, j + 17, s.len() as int) {
                    None => None,
                    Some((ls, k)) => if k + 1 == s.len() && s[k] == 10 && cs.len() == ls.len() {
                        Some((cs, ls))
                    } else {
                        None
                    },
                }
            },
        }
    }
}

/// Parse a whole legacy document.
pub open spec fn spec_parse_legacy(s: Seq<u8>) -> Option<(Seq<Color>, Seq<u32>)> {
    if !match_at(s, 0, lit_hdr_legacy()) {
        None
    } else {
        match spec_parse_color_list(s, 10, 40, 41, s.len() as int) {
            None => None,
            Some((cs, j)) => if !match_at(s, j, lit_mid_legacy()) {
                None
            } else {
                match spec_parse_count_list(s, j + 17, s.len() as int) {
                    None => None,
                    Some((ls, k)) => if k + 1 == s.len() && s[k] == 41 && cs.len() == ls.len() {
                        Some((cs, ls))
                    } else {
                        None
                    },
                }
            },
        }
    }
}

/// What a palette file means: the primary encoding where it parses, the
/// legacy encoding otherwise.
pub open spec fn spec_decode(s: Seq<u8>) -> Option<(Seq<Color>, Seq<u32>)> {
    match spec_parse_primary(s) {
        Some(p) => Some(p),
        None => spec_parse_legacy(s),
    }
}

/// A slice of a matched literal stands in the string at the shifted range.
proof fn lemma_match_slice(s: Seq<u8>, i: int, e: Seq<u8>, a: int, b: int, part: Seq<u8>)
    requires
        match_at(s, i, e),
        0 <= a <= b <= e.len(),
        e.subrange(a, b) == part,
    ensures
        match_at(s, i + a, part),
{
    assert forall|t: int| 0 <= t < b - a implies s.subrange(i + a, i + b)[t] == part[t] by {
        assert(s.subrange(i, i + e.len())[a + t] == e[a + t]);
        assert(e.subrange(a, b)[t] == e[a + t]);
    }
    assert(s.subrange(i + a, i + b) =~= part);
}

/// One byte of a matched literal stands in the string at the shifted index.
proof fn lemma_match_byte(s: Seq<u8>, i: int, e: Seq<u8>, k: int)
    requires
        match_at(s, i, e),
        0 <= k < e.len(),
    ensures
        s[i + k] == e[k],
{
    assert(s.subrange(i, i + e.len())[k] == e[k]);
}

/// Parsing right after an emitted triple yields the color back.
proof fn lemma_parse_triple_enc(s: Seq<u8>, i: int, c: Color, open: u8, close: u8)
    requires
        match_at(s, i, spec_enc_triple(c, open, close)),
        !is_digit(close),
    ensures
        spec_parse_triple(s, i, open, close) == Some(
            (c, i + spec_enc_triple(c, open, close).len()),
        ),
{
    let e = spec_enc_triple(c, open, close);
    let dr = spec_digits(c.r as int);
    let dg = spec_digits(c.g as int);
    let db = spec_digits(c.b as int);
    lemma_digits_facts(c.r as int);
    lemma_digits_facts(c.g as int);
    lemma_digits_facts(c.b as int);
    let lr = dr.len() as int;
    let lg = dg.len() as int;
    let lb = db.len() as int;
    assert(e.len() == 1 + lr + 2 + lg + 2 + lb + 1);

    lemma_match_byte(s, i, e, 0);
    assert(e[0] == open);
    assert(e.subrange(1, 1 + lr) =~= dr);
    lemma_match_slice(s, i, e, 1, 1 + lr, dr);
    assert(e.subrange(1 + lr, 3 + lr) =~= lit_cs());
    lemma_match_slice(s, i, e, 1 + lr, 3 + lr, lit_cs());
    lemma_match_byte(s, i, e, 1 + lr);
    assert(e[1 + lr] == 44);
    lemma_parse_u32_of_digits(s, i + 1, c.r as int);
    assert(spec_parse_u32(s, i + 1) == Some((c.r as u32, i + 1 + lr)));

    let pg = i + 3 + lr;
    assert(e.subrange(3 + lr, 3 + lr + lg) =~= dg);
    lemma_match_slice(s, i, e, 3 + lr, 3 + lr + lg, dg);
    assert(e.subrange(3 + lr + lg, 5 + lr + lg) =~= lit_cs());
    lemma_match_slice(s, i, e, 3 + lr + lg, 5 + lr + lg, lit_cs());
    lemma_match_byte(s, i, e, 3 + lr + lg);
    assert(e[3 + lr + lg] == 44);
    lemma_parse_u32_of_digits(s, pg, c.g as int);
    assert(spec_parse_u32(s, pg) == Some((c.g as u32, pg + lg)));

    let pb = i + 5 + lr + lg;
    assert(e.subrange(5 + lr + lg, 5 + lr + lg + lb) =~= db);
    lemma_match_slice(s, i, e, 5 + lr + lg, 5 + lr + lg + lb, db);
    lemma_match_byte(s, i, e, 5 + lr + lg + lb);
    assert(e[5 + lr + lg + lb] == close);
    lemma_parse_u32_of_digits(s, pb, c.b as int);
    assert(spec_parse_u32(s, pb) == Some((c.b as u32, pb + lb)));

    assert(Color { r: (c.r as u32) as u8, g: (c.g as u32) as u8, b: (c.b as u32) as u8 } == c);
}

/// The encoded items take at least one byte per item.
proof fn lemma_enc_color_items_len(cs: Seq<Color>, open: u8, close: u8)
    ensures
        spec_enc_color_items(cs, open, close).len() >= cs.len(),
    decreases cs.len(),
{
    if cs.len() > 1 {
        lemma_enc_color_items_len(cs.drop_first(), open, close);
        lemma_digits_facts(cs[0].r as int);
        lemma_digits_facts(cs[0].g as int);
        lemma_digits_facts(cs[0].b as int);
    } else if cs.len() == 1 {
        lemma_digits_facts(cs[0].r as int);
        lemma_digits_facts(cs[0].g as int);
        lemma_digits_facts(cs[0].b as int);
    }
}

/// The encoded counts take at least one byte per count.
proof fn lemma_enc_count_items_len(ls: Seq<u32>)
    ensures
        spec_enc_count_items(ls).len() >= ls.len(),
    decreases ls.len(),
{
    if ls.len() > 1 {
        lemma_enc_count_items_len(ls.drop_first());
        lemma_digits_facts(ls[0] as int);
    } else if ls.len() == 1 {
        lemma_digits_facts(ls[0] as int);
    }
}

/// Parsing right after emitted items, with the list's closing bracket next,
/// yields the items back.
proof fn lemma_parse_color_items_enc(
    s: Seq<u8>,
    i: int,
    cs: Seq<Color>,
    open: u8,
    close: u8,
    fuel: int,
)
    requires
        cs.len() >= 1,
        fuel >= cs.len(),
        match_at(s, i, spec_enc_color_items(cs, open, close)),
        i + spec_enc_color_items(cs, open, close).len() < s.len(),
        s[i + spec_enc_color_items(cs, open, close).len()] == 93,
        !is_digit(close),
        open != 93,
    ensures
        spec_parse_color_items(s, i, open, close, fuel) == Some(
            (cs, i + spec_enc_color_items(cs, open, close).len() + 1),
        ),
    decreases cs.len(),
{
    let e = spec_enc_color_items(cs, open, close);
    let t0 = spec_enc_triple(cs[0], open, close);
    if cs.len() == 1 {
        assert(e =~= t0);
        lemma_parse_triple_enc(s, i, cs[0], open, close);
        let j = i + t0.len();
        assert(s[j] == 93);
        assert(seq![cs[0]] =~= cs);
    } else {
        let rest = cs.drop_first();
        let er = spec_enc_color_items(rest, open, close);
        assert(e == t0 + lit_cs() + er);
        assert(e.subrange(0, t0.len() as int) =~= t0);
        lemma_match_slice(s, i, e, 0, t0.len() as int, t0);
        lemma_parse_triple_enc(s, i, cs[0], open, close);
        let j = i + t0.len();
        assert(e.subrange(t0.len() as int, t0.len() as int + 2) =~= lit_cs());
        lemma_match_slice(s, i, e, t0.len() as int, t0.len() as int + 2, lit_cs());
        lemma_match_byte(s, i, e, t0.len() as int);
        assert(e[t0.len() as int] == 44);
        assert(s[j] == 44);
        assert(e.subrange(t0.len() as int + 2, e.len() as int) =~= er);
        lemma_match_slice(s, i, e, t0.len() as int + 2, e.len() as int, er);
        lemma_parse_color_items_enc(s, j + 2, rest, open, close, fuel - 1);
        assert(seq![cs[0]] + rest =~= cs);
    }
}

/// Parsing right after emitted counts, with the list's closing bracket
/// next, yields the counts back.
proof fn lemma_parse_count_items_enc(s: Seq<u8>, i: int, ls: Seq<u32>, fuel: int)
    requires
        ls.len() >= 1,
        fuel >= ls.len(),
        match_at(s, i, spec_enc_count_items(ls)),
        i + spec_enc_count_items(ls).len() < s.len(),
        s[i + spec_enc_count_items(ls).len()] == 93,
    ensures
        spec_parse_count_items(s, i, fuel) == Some(
            (ls, i + spec_enc_count_items(ls).len() + 1),
        ),
    decreases ls.len(),
{
    let e = spec_enc_count_items(ls);
    let d0 = spec_digits(ls[0] as int);
    lemma_digits_facts(ls[0] as int);
    if ls.len() == 1 {
        assert(e =~= d0);
        assert(e.subrange(0, d0.len() as int) =~= d0);
        lemma_match_slice(s, i, e, 0, d0.len() as int, d0);
        assert(s[i + d0.len()] == 93);
        lemma_parse_u32_of_digits(s, i, ls[0] as int);
        assert(seq![ls[0]] =~= ls);
    } else {
        let rest = ls.drop_first();
        let er = spec_enc_count_items(rest);
        assert(e == d0 + lit_cs() + er);
        assert(e.subrange(0, d0.len() as int) =~= d0);
        lemma_match_slice(s, i, e, 0, d0.len() as int, d0);
        lemma_match_byte(s, i, e, d0.len() as int);
        assert(e[d0.len() as int] == 44);
        lemma_parse_u32_of_digits(s, i, ls[0] as int);
        let j = i + d0.len();
        assert(e.subrange(d0.len() as int, d0.len() as int + 2) =~= lit_cs());
        lemma_match_slice(s, i, e, d0.len() as int, d0.len() as int + 2, lit_cs());
        assert(e.subrange(d0.len() as int + 2, e.len() as int) =~= er);
        lemma_match_slice(s, i, e, d0.len() as int + 2, e.len() as int, er);
        lemma_parse_count_items_enc(s, j + 2, rest, fuel - 1);
        assert(seq![ls[0]] + rest =~= ls);
    }
}

/// Saving a palette in the primary encoding and parsing it back yields the
/// same colors and layer counts.
#[verifier::rlimit(100)]
#[verifier::spinoff_prover]
pub proof fn lemma_parse_primary_enc(cs: Seq<Color>, ls: Seq<u32>)
    requires
        cs.len() == ls.len(),
    ensures
        spec_parse_primary(spec_enc_primary(cs, ls)) == Some((cs, ls)),
{
    let s = spec_enc_primary(cs, ls);
    let ec = spec_enc_color_items(cs, 91, 93);
    let el = spec_enc_count_items(ls);
    let hdr = lit_hdr_primary();
    let mid = lit_mid_primary();
    assert(s == hdr + ec + seq![93u8] + mid + el + seq![93u8, 10u8]);
    assert(s.len() == 10 + ec.len() + 1 + 17 + el.len() + 2);
    assert(match_at(s, 0, s)) by {
        assert(s.subrange(0, s.len() as int) =~= s);
    }
    assert(s.subrange(0, 10) =~= hdr);
    lemma_match_slice(s, 0, s, 0, 10, hdr);
    let jc = 10 + ec.len() as int;
    assert(s.subrange(10, jc) =~= ec);
    assert(s[jc] == 93);
    lemma_enc_color_items_len(cs, 91, 93);
    lemma_enc_count_items_len(ls);
    if cs.len() == 0 {
        assert(s[10] == 93);
        assert(spec_parse_color_list(s, 10, 91, 93, s.len() as int) == Some(
            (Seq::<Color>::empty(), 11int),
        ));
        assert(Seq::<Color>::empty() =~= cs);
    } else {
        lemma_match_slice(s, 0, s, 10, jc, ec);
        lemma_parse_color_items_enc(s, 10, cs, 91, 93, s.len() as int);
        assert(s[10] == spec_enc_triple(cs[0], 91, 93)[0]) by {
            if cs.len() == 1 {
                assert(ec =~= spec_enc_triple(cs[0], 91, 93));
            }
            assert(ec[0] == spec_enc_triple(cs[0], 91, 93)[0]);
        }
        assert(s[10] == 91);
    }
    let j = jc + 1;
    assert(s.subrange(j, j + 17) =~= mid);
    lemma_match_slice(s, 0, s, j, j + 17, mid);
    let il = j + 17;
    let kl = il + el.len() as int;
    assert(s[kl] == 93);
    assert(s[kl + 1] == 10);
    if ls.len() == 0 {
        assert(s[il] == 93);
        assert(spec_parse_count_list(s, il, s.len() as int) == Some(
            (Seq::<u32>::empty(), il + 1),
        ));
        assert(Seq::<u32>::empty() =~= ls);
        assert(il + 1 + 1 == s.len());
    } else {
        assert(s.subrange(il, kl) =~= el);
        lemma_match_slice(s, 0, s, il, kl, el);
        lemma_parse_count_items_enc(s, il, ls, s.len() as int);
        assert(s[il] == spec_digits(ls[0] as int)[0]) by {
            if ls.len() == 1 {
                assert(el =~= spec_digits(ls[0] as int));
            }
            assert(el[0] == spec_digits(ls[0] as int)[0]);
        }
        lemma_digits_facts(ls[0] as int);
        assert(is_digit(s[il]));
        assert(s[il] != 93);
        assert(kl + 1 + 1 == s.len());
    }
}

/// Saving a palette in the legacy encoding and parsing it back as legacy
/// yields the same colors and layer counts.
#[verifier::rlimit(100)]
#[verifier::spinoff_prover]
pub proof fn lemma_parse_legacy_enc(cs: Seq<Color>, ls: Seq<u32>)
    requires
        cs.len() == ls.len(),
    ensures
        spec_parse_legacy(spec_enc_legacy(cs, ls)) == Some((cs, ls)),
{
    let s = spec_enc_legacy(cs, ls);
    let ec = spec_enc_color_items(cs, 40, 41);
    let el = spec_enc_count_items(ls);
    let hdr = lit_hdr_legacy();
    let mid = lit_mid_legacy();
    assert(s == hdr + ec + seq![93u8] + mid + el + seq![93u8, 41u8]);
    assert(s.len() == 10 + ec.len() + 1 + 17 + el.len() + 2);
    assert(match_at(s, 0, s)) by {
        assert(s.subrange(0, s.len() as int) =~= s);
    }
    assert(s.subrange(0, 10) =~= hdr);
    lemma_match_slice(s, 0, s, 0, 10, hdr);
    let jc = 10 + ec.len() as int;
    assert(s.subrange(10, jc) =~= ec);
    assert(s[jc] == 93);
    lemma_enc_color_items_len(cs, 40, 41);
    lemma_enc_count_items_len(ls);
    if cs.len() == 0 {
        assert(s[10] == 93);
        assert(spec_parse_color_list(s, 10, 40, 41, s.len() as int) == Some(
            (Seq::<Color>::empty(), 11int),
        ));
        assert(Seq::<Color>::empty() =~= cs);
    } else {
        lemma_match_slice(s, 0, s, 10, jc, ec);
        lemma_parse_color_items_enc(s, 10, cs, 40, 41, s.len() as int);
        assert(s[10] == spec_enc_triple(cs[0], 40, 41)[0]) by {
            if cs.len() == 1 {
                assert(ec =~= spec_enc_triple(cs[0], 40, 41));
            }
            assert(ec[0] == spec_enc_triple(cs[0], 40, 41)[0]);
        }
        assert(s[10] == 40);
    }
    let j = jc + 1;
    assert(s.subrange(j, j + 17) =~= mid);
    lemma_match_slice(s, 0, s, j, j + 17, mid);
    let il = j + 17;
    let kl = il + el.len() as int;
    assert(s[kl] == 93);
    assert(s[kl + 1] == 41);
    if ls.len() == 0 {
        assert(s[il] == 93);
        assert(spec_parse_count_list(s, il, s.len() as int) == Some(
            (Seq::<u32>::empty(), il + 1),
        ));
        assert(Seq::<u32>::empty() =~= ls);
        assert(il + 1 + 1 == s.len());
    } else {
        assert(s.subrange(il, kl) =~= el);
        lemma_match_slice(s, 0, s, il, kl, el);
        lemma_parse_count_items_enc(s, il, ls, s.len() as int);
        assert(s[il] == spec_digits(ls[0] as int)[0]) by {
            if ls.len() == 1 {
                assert(el =~= spec_digits(ls[0] as int));
            }
            assert(el[0] == spec_digits(ls[0] as int)[0]);
        }
        lemma_digits_facts(ls[0] as int);
        assert(is_digit(s[il]));
        assert(s[il] != 93);
        assert(kl + 1 + 1 == s.len());
    }
}

/// Palette round trip, primary encoding: decoding what was saved yields an
/// equal palette, colors, counts and order alike.
#[verifier::rlimit(100)]
pub proof fn lemma_round_trip_primary(cs: Seq<Color>, ls: Seq<u32>)
    requires
        cs.len() == ls.len(),
    ensures
        spec_decode(spec_enc_primary(cs, ls)) == Some((cs, ls)),
{
    lemma_parse_primary_enc(cs, ls);
}

/// A legacy record never parses as a primary document: the first byte
/// already differs.
proof fn lemma_legacy_not_primary(cs: Seq<Color>, ls: Seq<u32>)
    ensures
        spec_parse_primary(spec_enc_legacy(cs, ls)) is None,
{
    let s = spec_enc_legacy(cs, ls);
    assert(s[0] == 40) by {
        assert(s == lit_hdr_legacy() + spec_enc_color_items(cs, 40, 41) + seq![93u8]
            + lit_mid_legacy() + spec_enc_count_items(ls) + seq![93u8, 41u8]);
        assert(s[0] == lit_hdr_legacy()[0]);
    }
    if match_at(s, 0, lit_hdr_primary()) {
        assert(s.subrange(0, 10)[0] == lit_hdr_primary()[0]);
        assert(s[0] == 99);
    }
    assert(spec_parse_primary(s) is None);
}

/// Palette round trip, legacy encoding: a record written in the legacy form
/// decodes to an equal palette.
pub proof fn lemma_round_trip_legacy(cs: Seq<Color>, ls: Seq<u32>)
    requires
        cs.len() == ls.len(),
    ensures
        spec_decode(spec_enc_legacy(cs, ls)) == Some((cs, ls)),
{
    lemma_parse_legacy_enc(cs, ls);
    lemma_legacy_not_primary(cs, ls);
}

fn push_cs(out: &mut Vec<u8>)
    ensures
        final(out)@ == old(out)@ + lit_cs(),
{
    let ghost pre = out@;
    out.push(44);
    out.push(32);
    proof {
        assert(out@ =~= pre + lit_cs());
    }
}

fn push_hdr_primary(out: &mut Vec<u8>)
    ensures
        final(out)@ == old(out)@ + lit_hdr_primary(),
{
    let ghost pre = out@;
    out.push(99);
    out.push(111);
    out.push(108);
    out.push(111);
    out.push(114);
    out.push(115);
    out.push(32);
    out.push(61);
    out.push(32);
    out.push(91);
    proof {
        assert(out@ =~= pre + lit_hdr_primary());
    }
}

fn push_mid_primary(out: &mut Vec<u8>)
    ensures
        final(out)@ == old(out)@ + lit_mid_primary(),
{
    let ghost pre = out@;
    out.push(10);
    out.push(108);
    out.push(97);
    out.push(121);
    out.push(101);
    out.push(114);
    out.push(95);
    out.push(99);
    out.push(111);
    out.push(117);
    out.push(110);
    out.push(116);
    out.push(115);
    out.push(32);
    out.push(61);
    out.push(32);
    out.push(91);
    proof {
        assert(out@ =~= pre + lit_mid_primary());
    }
}

fn push_hdr_legacy(out: &mut Vec<u8>)
    ensures
        final(out)@ == old(out)@ + lit_hdr_legacy(),
{
    let ghost pre = out@;
    out.push(40);
    out.push(99);
    out.push(111);
    out.push(108);
    out.push(111);
    out.push(114);
    out.push(115);
    out.push(58);
    out.push(32);
    out.push(91);
    proof {
        assert(out@ =~= pre + lit_hdr_legacy());
    }
}

fn push_mid_legacy(out: &mut Vec<u8>)
    ensures
        final(out)@ == old(out)@ + lit_mid_legacy(),
{
    let ghost pre = out@;
    out.push(44);
    out.push(32);
    out.push(108);
    out.push(97);
    out.push(121);
    out.push(101);
    out.push(114);
    out.push(95);
    out.push(99);
    out.push(111);
    out.push(117);
    out.push(110);
    out.push(116);
    out.push(115);
    out.push(58);
    out.push(32);
    out.push(91);
    proof {
        assert(out@ =~= pre + lit_mid_legacy());
    }
}

fn push_triple(out: &mut Vec<u8>, c: &Color, open: u8, close: u8)
    ensures
        final(out)@ == old(out)@ + spec_enc_triple(*c, open, close),
{
    let ghost pre = out@;
    out.push(open);
    push_digits(out, c.r as u32);
    push_cs(out);
    push_digits(out, c.g as u32);
    push_cs(out);
    push_digits(out, c.b as u32);
    out.push(close);
    proof {
        assert(out@ =~= pre + spec_enc_triple(*c, open, close));
    }
}

fn push_color_items(out: &mut Vec<u8>, colors: &Vec<Color>, from: usize, open: u8, close: u8)
    requires
        from <= colors@.len(),
    ensures
        final(out)@ == old(out)@ + spec_enc_color_items(colors@.skip(from as int), open, close),
    decreases colors@.len() - from,
{
    let ghost pre = out@;
    let n = colors.len();
    if from >= n {
        proof {
            assert(colors@.skip(from as int) =~= Seq::<Color>::empty());
            assert(out@ =~= pre + spec_enc_color_items(Seq::empty(), open, close));
        }
        return ;
    }
    push_triple(out, &colors[from], open, close);
    if from + 1 < n {
        push_cs(out);
        push_color_items(out, colors, from + 1, open, close);
    }
    proof {
        let tail = colors@.skip(from as int);
        assert(tail[0] == colors@[from as int]);
        if from + 1 < n {
            assert(tail.drop_first() =~= colors@.skip(from + 1));
            assert(out@ =~= pre + spec_enc_color_items(tail, open, close));
        } else {
            assert(tail.len() == 1);
            assert(out@ =~= pre + spec_enc_color_items(tail, open, close));
        }
    }
}

fn push_count_items(out: &mut Vec<u8>, counts: &Vec<u32>, from: usize)
    requires
        from <= counts@.len(),
    ensures
        final(out)@ == old(out)@ + spec_enc_count_items(counts@.skip(from as int)),
    decreases counts@.len() - from,
{
    let ghost pre = out@;
    let n = counts.len();
    if from >= n {
        proof {
            assert(counts@.skip(from as int) =~= Seq::<u32>::empty());
            assert(out@ =~= pre + spec_enc_count_items(Seq::empty()));
        }
        return ;
    }
    push_digits(out, counts[from]);
    if from + 1 < n {
        push_cs(out);
        push_count_items(out, counts, from + 1);
    }
    proof {
        let tail = counts@.skip(from as int);
        assert(tail[0] == counts@[from as int]);
        if from + 1 < n {
            assert(tail.drop_first() =~= counts@.skip(from + 1));
            assert(out@ =~= pre + spec_enc_count_items(tail));
        } else {
            assert(tail.len() == 1);
            assert(out@ =~= pre + spec_enc_count_items(tail));
        }
    }
}

/// Serialize a palette in the primary encoding, the one `save` writes.
pub fn encode_palette(palette: &ColorPalette) -> (out: Vec<u8>)
    ensures
        out@ == spec_enc_primary(palette.colors@, palette.layer_counts@),
{
    let mut out: Vec<u8> = Vec::new();
    push_hdr_primary(&mut out);
    push_color_items(&mut out, &palette.colors, 0, 91, 93);
    out.push(93);
    push_mid_primary(&mut out);
    push_count_items(&mut out, &palette.layer_counts, 0);
    out.push(93);
    out.push(10);
    proof {
        assert(palette.colors@.skip(0) =~= palette.colors@);
        assert(palette.layer_counts@.skip(0) =~= palette.layer_counts@);
        assert(out@ =~= spec_enc_primary(palette.colors@, palette.layer_counts@));
    }
    out
}

/// Serialize a palette in the legacy encoding, kept for files written by
/// earlier versions.
pub fn encode_palette_legacy(palette: &ColorPalette) -> (out: Vec<u8>)
    ensures
        out@ == spec_enc_legacy(palette.colors@, palette.layer_counts@),
{
    let mut out: Vec<u8> = Vec::new();
    push_hdr_legacy(&mut out);
    push_color_items(&mut out, &palette.colors, 0, 40, 41);
    out.push(93);
    push_mid_legacy(&mut out);
    push_count_items(&mut out, &palette.layer_counts, 0);
    out.push(93);
    out.push(41);
    proof {
        assert(palette.colors@.skip(0) =~= palette.colors@);
        assert(palette.layer_counts@.skip(0) =~= palette.layer_counts@);
        assert(out@ =~= spec_enc_legacy(palette.colors@, palette.layer_counts@));
    }
    out
}

fn match_cs(s: &Vec<u8>, i: usize) -> (r: bool)
    requires
        i <= s@.len(),
    ensures
        r == match_at(s@, i as int, lit_cs()),
{
    let n = s.len();
    if n - i < 2 {
        proof {
            assert(!match_at(s@, i as int, lit_cs()));
        }
        return false;
    }
    let r = s[i] == 44 && s[i + 1] == 32;
    proof {
        if r {
            assert(s@.subrange(i as int, i + 2) =~= lit_cs());
        }
        if match_at(s@, i as int, lit_cs()) {
            lemma_match_byte(s@, i as int, lit_cs(), 0);
            lemma_match_byte(s@, i as int, lit_cs(), 1);
        }
    }
    r
}

fn match_hdr_primary(s: &Vec<u8>, i: usize) -> (r: bool)
    requires
        i <= s@.len(),
    ensures
        r == match_at(s@, i as int, lit_hdr_primary()),
{
    let n = s.len();
    if n - i < 10 {
        proof {
            assert(!match_at(s@, i as int, lit_hdr_primary()));
        }
        return false;
    }
    let r = s[i] == 99 && s[i + 1] == 111 && s[i + 2] == 108 && s[i + 3] == 111 && s[i + 4] == 114
        && s[i + 5] == 115 && s[i + 6] == 32 && s[i + 7] == 61 && s[i + 8] == 32 && s[i + 9] == 91;
    proof {
        if r {
            assert(s@.subrange(i as int, i + 10) =~= lit_hdr_primary());
        }
        if match_at(s@, i as int, lit_hdr_primary()) {
            assert forall|k: int| 0 <= k < 10 implies s@[i + k] == lit_hdr_primary()[k] by {
                lemma_match_byte(s@, i as int, lit_hdr_primary(), k);
            }
        }
    }
    r
}

fn match_mid_primary(s: &Vec<u8>, i: usize) -> (r: bool)
    requires
        i <= s@.len(),
    ensures
        r == match_at(s@, i as int, lit_mid_primary()),
{
    let n = s.len();
    if n - i < 17 {
        proof {
            assert(!match_at(s@, i as int, lit_mid_primary()));
        }
        return false;
    }
    let r = s[i] == 10 && s[i + 1] == 108 && s[i + 2] == 97 && s[i + 3] == 121 && s[i + 4] == 101
        && s[i + 5] == 114 && s[i + 6] == 95 && s[i + 7] == 99 && s[i + 8] == 111 && s[i + 9]
        == 117 && s[i + 10] == 110 && s[i + 11] == 116 && s[i + 12] == 115 && s[i + 13] == 32 && s[i
        + 14] == 61 && s[i + 15] == 32 && s[i + 16] == 91;
    proof {
        if r {
            assert(s@.subrange(i as int, i + 17) =~= lit_mid_primary());
        }
        if match_at(s@, i as int, lit_mid_primary()) {
            assert forall|k: int| 0 <= k < 17 implies s@[i + k] == lit_mid_primary()[k] by {
                lemma_match_byte(s@, i as int, lit_mid_primary(), k);
            }
        }
    }
    r
}

fn match_hdr_legacy(s: &Vec<u8>, i: usize) -> (r: bool)
    requires
        i <= s@.len(),
    ensures
        r == match_at(s@, i as int, lit_hdr_legacy()),
{
    let n = s.len();
    if n - i < 10 {
        proof {
            assert(!match_at(s@, i as int, lit_hdr_legacy()));
        }
        return false;
    }
    let r = s[i] == 40 && s[i + 1] == 99 && s[i + 2] == 111 && s[i + 3] == 108 && s[i + 4] == 111
        && s[i + 5] == 114 && s[i + 6] == 115 && s[i + 7] == 58 && s[i + 8] == 32 && s[i + 9] == 91;
    proof {
        if r {
            assert(s@.subrange(i as int, i + 10) =~= lit_hdr_legacy());
        }
        if match_at(s@, i as int, lit_hdr_legacy()) {
            assert forall|k: int| 0 <= k < 10 implies s@[i + k] == lit_hdr_legacy()[k] by {
                lemma_match_byte(s@, i as int, lit_hdr_legacy(), k);
            }
        }
    }
    r
}

fn match_mid_legacy(s: &Vec<u8>, i: usize) -> (r: bool)
    requires
        i <= s@.len(),
    ensures
        r == match_at(s@, i as int, lit_mid_legacy()),
{
    let n = s.len();
    if n - i < 17 {
        proof {
            assert(!match_at(s@, i as int, lit_mid_legacy()));
        }
        return false;
    }
    let r = s[i] == 44 && s[i + 1] == 32 && s[i + 2] == 108 && s[i + 3] == 97 && s[i + 4] == 121
        && s[i + 5] == 101 && s[i + 6] == 114 && s[i + 7] == 95 && s[i + 8] == 99 && s[i + 9]
        == 111 && s[i + 10] == 117 && s[i + 11] == 110 && s[i + 12] == 116 && s[i + 13] == 115 && s[
        i + 14] == 58 && s[i + 15] == 32 && s[i + 16] == 91;
    proof {
        if r {
            assert(s@.subrange(i as int, i + 17) =~= lit_mid_legacy());
        }
        if match_at(s@, i as int, lit_mid_legacy()) {
            assert forall|k: int| 0 <= k < 17 implies s@[i + k] == lit_mid_legacy()[k] by {
                lemma_match_byte(s@, i as int, lit_mid_legacy(), k);
            }
        }
    }
    r
}

fn parse_triple(s: &Vec<u8>, i: usize, open: u8, close: u8) -> (r: Option<(Color, usize)>)
    requires
        i <= s@.len(),
    ensures
        match r {
            Some(p) => spec_parse_triple(s@, i as int, open, close) == Some((p.0, p.1 as int))
                && i < p.1 <= s@.len(),
            None => spec_parse_triple(s@, i as int, open, close) is None,
        },
{
    let n = s.len();
    if i >= n || s[i] != open {
        return None;
    }
    let (rv, j1) = match parse_u32(s, i + 1) {
        Some(p) => p,
        None => {
            return None;
        },
    };
    if rv > 255 || !match_cs(s, j1) {
        return None;
    }
    let (gv, j2) = match parse_u32(s, j1 + 2) {
        Some(p) => p,
        None => {
            return None;
        },
    };
    if gv > 255 || !match_cs(s, j2) {
        return None;
    }
    let (bv, j3) = match parse_u32(s, j2 + 2) {
        Some(p) => p,
        None => {
            return None;
        },
    };
    if bv > 255 || j3 >= n || s[j3] != close {
        return None;
    }
    Some((Color { r: rv as u8, g: gv as u8, b: bv as u8 }, j3 + 1))
}

fn parse_color_items(s: &Vec<u8>, i: usize, open: u8, close: u8, fuel: usize) -> (r: Option<
    (Vec<Color>, usize),
>)
    requires
        i <= s@.len(),
    ensures
        match r {
            Some(p) => spec_parse_color_items(s@, i as int, open, close, fuel as int) == Some(
                (p.0@, p.1 as int),
            ) && p.1 <= s@.len(),
            None => spec_parse_color_items(s@, i as int, open, close, fuel as int) is None,
        },
    decreases fuel,
{
    if fuel == 0 {
        return None;
    }
    let (c, j) = match parse_triple(s, i, open, close) {
        Some(p) => p,
        None => {
            return None;
        },
    };
    let n = s.len();
    if j < n && s[j] == 93 {
        let mut one: Vec<Color> = Vec::new();
        one.push(c);
        proof {
            assert(one@ =~= seq![c]);
        }
        return Some((one, j + 1));
    }
    if match_cs(s, j) {
        match parse_color_items(s, j + 2, open, close, fuel - 1) {
            Some((mut rest, k)) => {
                rest.insert(0, c);
                proof {
                    assert(rest@ =~= seq![c] + rest@.drop_first());
                }
                return Some((rest, k));
            },
            None => {
                return None;
            },
        }
    }
    None
}

fn parse_color_list(s: &Vec<u8>, i: usize, open: u8, close: u8, fuel: usize) -> (r: Option<
    (Vec<Color>, usize),
>)
    requires
        i <= s@.len(),
    ensures
        match r {
            Some(p) => spec_parse_color_list(s@, i as int, open, close, fuel as int) == Some(
                (p.0@, p.1 as int),
            ) && p.1 <= s@.len(),
            None => spec_parse_color_list(s@, i as int, open, close, fuel as int) is None,
        },
{
    let n = s.len();
    if i < n && s[i] == 93 {
        let empty: Vec<Color> = Vec::new();
        proof {
            assert(empty@ =~= Seq::<Color>::empty());
        }
        return Some((empty, i + 1));
    }
    parse_color_items(s, i, open, close, fuel)
}

fn parse_count_items(s: &Vec<u8>, i: usize, fuel: usize) -> (r: Option<(Vec<u32>, usize)>)
    requires
        i <= s@.len(),
    ensures
        match r {
            Some(p) => spec_parse_count_items(s@, i as int, fuel as int) == Some(
                (p.0@, p.1 as int),
            ) && p.1 <= s@.len(),
            None => spec_parse_count_items(s@, i as int, fuel as int) is None,
        },
    decreases fuel,
{
    if fuel == 0 {
        return None;
    }
    let (v, j) = match parse_u32(s, i) {
        Some(p) => p,
        None => {
            return None;
        },
    };
    let n = s.len();
    if j < n && s[j] == 93 {
        let mut one: Vec<u32> = Vec::new();
        one.push(v);
        proof {
            assert(one@ =~= seq![v]);
        }
        return Some((one, j + 1));
    }
    if match_cs(s, j) {
        match parse_count_items(s, j + 2, fuel - 1) {
            Some((mut rest, k)) => {
                rest.insert(0, v);
                proof {
                    assert(rest@ =~= seq![v] + rest@.drop_first());
                }
                return Some((rest, k));
            },
            None => {
                return None;
            },
        }
    }
    None
}

fn parse_count_list(s: &Vec<u8>, i: usize, fuel: usize) -> (r: Option<(Vec<u32>, usize)>)
    requires
        i <= s@.len(),
    ensures
        match r {
            Some(p) => spec_parse_count_list(s@, i as int, fuel as int) == Some(
                (p.0@, p.1 as int),
            ) && p.1 <= s@.len(),
            None => spec_parse_count_list(s@, i as int, fuel as int) is None,
        },
{
    let n = s.len();
    if i < n && s[i] == 93 {
        let empty: Vec<u32> = Vec::new();
        proof {
            assert(empty@ =~= Seq::<u32>::empty());
        }
        return Some((empty, i + 1));
    }
    parse_count_items(s, i, fuel)
}

fn parse_primary(s: &Vec<u8>) -> (r: Option<ColorPalette>)
    ensures
        match r {
            Some(p) => spec_parse_primary(s@) == Some((p.colors@, p.layer_counts@)) && p.wf(),
            None => spec_parse_primary(s@) is None,
        },
{
    if !match_hdr_primary(s, 0) {
        return None;
    }
    let fuel = s.len();
    let (colors, j) = match parse_color_list(s, 10, 91, 93, fuel) {
        Some(p) => p,
        None => {
            return None;
        },
    };
    if !match_mid_primary(s, j) {
        return None;
    }
    let (layer_counts, k) = match parse_count_list(s, j + 17, fuel) {
        Some(p) => p,
        None => {
            return None;
        },
    };
    let n = s.len();
    if k < n && k + 1 == n && s[k] == 10 && colors.len() == layer_counts.len() {
        Some(ColorPalette { colors, layer_counts })
    } else {
        None
    }
}

fn parse_legacy(s: &Vec<u8>) -> (r: Option<ColorPalette>)
    ensures
        match r {
            Some(p) => spec_parse_legacy(s@) == Some((p.colors@, p.layer_counts@)) && p.wf(),
            None => spec_parse_legacy(s@) is None,
        },
{
    if !match_hdr_legacy(s, 0) {
        return None;
    }
    let fuel = s.len();
    let (colors, j) = match parse_color_list(s, 10, 40, 41, fuel) {
        Some(p) => p,
        None => {
            return None;
        },
    };
    if !match_mid_legacy(s, j) {
        return None;
    }
    let (layer_counts, k) = match parse_count_list(s, j + 17, fuel) {
        Some(p) => p,
        None => {
            return None;
        },
    };
    let n = s.len();
    if k < n && k + 1 == n && s[k] == 41 && colors.len() == layer_counts.len() {
        Some(ColorPalette { colors, layer_counts })
    } else {
        None
    }
}

/// Parse a palette file: the primary encoding where it parses, the legacy
/// encoding otherwise; nothing else is accepted.
pub fn decode_palette(s: &Vec<u8>) -> (r: Option<ColorPalette>)
    ensures
        match r {
            Some(p) => spec_decode(s@) == Some((p.colors@, p.layer_counts@)) && p.wf(),
            None => spec_decode(s@) is None,
        },
{
    match parse_primary(s) {
        Some(p) => Some(p),
        None => parse_legacy(s),
    }
}

} // verus!
