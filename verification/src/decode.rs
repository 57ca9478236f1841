//! Decoder for the wire format: one datagram is one text-encoded record
//! object with seven required fields (`id`, `x`, `y`, `z`, `battery`,
//! `status`, `ts_ms`). Unknown extra fields are ignored; a missing or
//! mistyped required field, a duplicated required field, malformed
//! structure, or text that is not valid UTF-8 invalidates the whole
//! datagram. Numeric position fields are read into fixed-point
//! milli-units; values outside the representable range are rejected.
//!
//! The grammar is specified by the `spec_*` functions below; each
//! executable scanner is proved to return exactly what its spec
//! function says.

use crate::record::TelemetryRecord;
use crate::smoothing::POS_LIMIT;
use vstd::arithmetic::div_mod::{
    lemma_div_is_ordered, lemma_div_multiples_vanish, lemma_fundamental_div_mod,
};
use vstd::arithmetic::mul::lemma_mul_inequality;
use vstd::prelude::*;

verus! {

/// Most significant digits a numeric field may carry (integer and
/// fraction together); more digits than any binary float producer emits.
pub const MAX_SIG_DIGITS: usize = 32;

/// Most digits an exponent may carry.
pub const MAX_EXP_DIGITS: usize = 6;

/// Deepest nesting accepted inside an ignored field's value.
pub const SKIP_DEPTH: u32 = 64;

pub open spec fn is_ws_byte(b: u8) -> bool {
    b == 32 || b == 9 || b == 10 || b == 13
}

pub open spec fn is_digit(b: u8) -> bool {
    48 <= b <= 57
}

/// Position of the first non-whitespace byte at or after `i`.
pub open spec fn spec_ws(s: Seq<u8>, i: int) -> int
    decreases s.len() - i,
{
    if 0 <= i < s.len() && is_ws_byte(s[i]) {
        spec_ws(s, i + 1)
    } else {
        i
    }
}

/// End of the run of decimal digits starting at `i`.
pub open spec fn spec_digits_end(s: Seq<u8>, i: int) -> int
    decreases s.len() - i,
{
    if 0 <= i < s.len() && is_digit(s[i]) {
        spec_digits_end(s, i + 1)
    } else {
        i
    }
}

pub proof fn lemma_digits_end_bounds(s: Seq<u8>, i: int)
    requires
        0 <= i <= s.len(),
    ensures
        i <= spec_digits_end(s, i) <= s.len(),
        forall|k: int| i <= k < spec_digits_end(s, i) ==> is_digit(s[k]),
    decreases s.len() - i,
{
    if i < s.len() && is_digit(s[i]) {
        lemma_digits_end_bounds(s, i + 1);
    }
}

/// Value of the decimal digit run `s[i .. j)`.
pub open spec fn digits_val(s: Seq<u8>, i: int, j: int) -> int
    decreases j - i,
{
    if i >= j {
        0
    } else {
        digits_val(s, i, j - 1) * 10 + (s[j - 1] - 48)
    }
}

/// Ten to the `n`.
pub open spec fn pow10(n: nat) -> int
    decreases n,
{
    if n == 0 {
        1
    } else {
        10 * pow10((n - 1) as nat)
    }
}

pub proof fn lemma_pow10_pos(n: nat)
    ensures
        pow10(n) >= 1,
    decreases n,
{
    if n > 0 {
        lemma_pow10_pos((n - 1) as nat);
    }
}

pub proof fn lemma_pow10_mono(a: nat, b: nat)
    requires
        a <= b,
    ensures
        pow10(a) <= pow10(b),
    decreases b,
{
    if a < b {
        lemma_pow10_mono(a, (b - 1) as nat);
        lemma_pow10_pos((b - 1) as nat);
    }
}

/// A digit run's value is non-negative and below ten to its length.
pub proof fn lemma_digits_val_bound(s: Seq<u8>, i: int, j: int)
    requires
        i <= j,
        forall|k: int| i <= k < j ==> is_digit(s[k]),
    ensures
        0 <= digits_val(s, i, j) < pow10((j - i) as nat),
    decreases j - i,
{
    if i < j {
        lemma_digits_val_bound(s, i, j - 1);
        assert(digits_val(s, i, j - 1) * 10 + (s[j - 1] - 48) < pow10((j - i) as nat)) by {
            assert(pow10((j - i) as nat) == 10 * pow10((j - i - 1) as nat));
        }
    }
}

/// Extending a digit run multiplies its value by at least ten to the
/// number of appended digits.
pub proof fn lemma_digits_val_extend(s: Seq<u8>, i: int, k: int, j: int)
    requires
        i <= k <= j,
        forall|t: int| i <= t < j ==> is_digit(s[t]),
    ensures
        digits_val(s, i, j) >= digits_val(s, i, k) * pow10((j - k) as nat),
    decreases j - k,
{
    if k < j {
        lemma_digits_val_extend(s, i, k, j - 1);
        let v = digits_val(s, i, k);
        let p = pow10((j - 1 - k) as nat);
        assert(digits_val(s, i, j) == digits_val(s, i, j - 1) * 10 + (s[j - 1] - 48));
        lemma_digits_val_bound(s, i, k);
        assert(digits_val(s, i, j - 1) * 10 >= (v * p) * 10) by {
            assert(digits_val(s, i, j - 1) >= v * p);
        }
        assert((v * p) * 10 == v * (10 * p)) by (nonlinear_arith);
        assert(pow10((j - k) as nat) == 10 * p);
    }
}

/// Executable whitespace skip.
pub fn skip_ws(s: &[u8], i: usize) -> (j: usize)
    requires
        i <= s@.len(),
    ensures
        j == spec_ws(s@, i as int),
        i <= j <= s@.len(),
{
    let mut j = i;
    while j < s.len() && (s[j] == 32 || s[j] == 9 || s[j] == 10 || s[j] == 13)
        invariant
            i <= j <= s@.len(),
            spec_ws(s@, i as int) == spec_ws(s@, j as int),
        decreases s@.len() - j,
    {
        j = j + 1;
    }
    j
}

/// Executable digit-run skip.
fn skip_digits(s: &[u8], i: usize) -> (j: usize)
    requires
        i <= s@.len(),
    ensures
        j == spec_digits_end(s@, i as int),
        i <= j <= s@.len(),
{
    let mut j = i;
    while j < s.len() && 48 <= s[j] && s[j] <= 57
        invariant
            i <= j <= s@.len(),
            spec_digits_end(s@, i as int) == spec_digits_end(s@, j as int),
        decreases s@.len() - j,
    {
        j = j + 1;
    }
    j
}

pub open spec fn is_hex_digit(b: u8) -> bool {
    is_digit(b) || (97 <= b <= 102) || (65 <= b <= 70)
}

pub open spec fn hex_val(b: u8) -> int
    recommends
        is_hex_digit(b),
{
    if is_digit(b) {
        b - 48
    } else if 97 <= b <= 102 {
        b - 87
    } else {
        b - 55
    }
}

/// Four hex digits stand at `i`.
pub open spec fn hex4_ok(s: Seq<u8>, i: int) -> bool {
    &&& i + 4 <= s.len()
    &&& is_hex_digit(s[i])
    &&& is_hex_digit(s[i + 1])
    &&& is_hex_digit(s[i + 2])
    &&& is_hex_digit(s[i + 3])
}

pub open spec fn hex4_val(s: Seq<u8>, i: int) -> int
    recommends
        hex4_ok(s, i),
{
    ((hex_val(s[i]) * 16 + hex_val(s[i + 1])) * 16 + hex_val(s[i + 2])) * 16 + hex_val(s[i + 3])
}

/// UTF-8 encoding of one scalar value, written with division and
/// remainder by powers of two.
pub open spec fn utf8_enc(cp: int) -> Seq<u8>
    recommends
        0 <= cp < 0x110000,
{
    if cp < 0x80 {
        seq![cp as u8]
    } else if cp < 0x800 {
        seq![(192 + cp / 64) as u8, (128 + cp % 64) as u8]
    } else if cp < 0x10000 {
        seq![(224 + cp / 4096) as u8, (128 + (cp / 64) % 64) as u8, (128 + cp % 64) as u8]
    } else {
        seq![
            (240 + cp / 262144) as u8,
            (128 + (cp / 4096) % 64) as u8,
            (128 + (cp / 64) % 64) as u8,
            (128 + cp % 64) as u8,
        ]
    }
}

/// The byte a single-character escape stands for.
pub open spec fn simple_escape(c: u8) -> Option<u8> {
    if c == 34 {
        Some(34u8)
    } else if c == 92 {
        Some(92u8)
    } else if c == 47 {
        Some(47u8)
    } else if c == 98 {
        Some(8u8)
    } else if c == 102 {
        Some(12u8)
    } else if c == 110 {
        Some(10u8)
    } else if c == 114 {
        Some(13u8)
    } else if c == 116 {
        Some(9u8)
    } else {
        None
    }
}

pub open spec fn is_cont(b: u8) -> bool {
    128 <= b <= 191
}

/// One element of string content at `i`: an escape (possibly a surrogate
/// pair) yielding its decoded bytes, or one correctly encoded UTF-8
/// scalar copied through. The closing quote, unescaped control bytes and
/// ill-formed UTF-8 are rejected.
pub open spec fn spec_str_elem(s: Seq<u8>, i: int) -> Option<(int, Seq<u8>)> {
    if !(0 <= i < s.len()) {
        None
    } else {
        let b = s[i];
        if b == 92 {
            if i + 2 > s.len() {
                None
            } else {
                let c = s[i + 1];
                if c == 117 {
                    if hex4_ok(s, i + 2) {
                        let cp = hex4_val(s, i + 2);
                        if 0xD800 <= cp <= 0xDBFF {
                            if i + 12 <= s.len() && s[i + 6] == 92 && s[i + 7] == 117 && hex4_ok(
                                s,
                                i + 8,
                            ) {
                                let lo = hex4_val(s, i + 8);
                                if 0xDC00 <= lo <= 0xDFFF {
                                    Some(
                                        (
                                            i + 12,
                                            utf8_enc(
                                                0x10000 + (cp - 0xD800) * 0x400 + (lo - 0xDC00),
                                            ),
                                        ),
                                    )
                                } else {
                                    None
                                }
                            } else {
                                None
                            }
                        } else if 0xDC00 <= cp <= 0xDFFF {
                            None
                        } else {
                            Some((i + 6, utf8_enc(cp)))
                        }
                    } else {
                        None
                    }
                } else {
                    match simple_escape(c) {
                        Some(e) => Some((i + 2, seq![e])),
                        None => None,
                    }
                }
            }
        } else if b == 34 {
            None
        } else if b < 32 {
            None
        } else if b < 128 {
            Some((i + 1, seq![b]))
        } else if 194 <= b <= 223 {
            if i + 2 <= s.len() && is_cont(s[i + 1]) {
                Some((i + 2, seq![b, s[i + 1]]))
            } else {
                None
            }
        } else if b == 224 {
            if i + 3 <= s.len() && 160 <= s[i + 1] <= 191 && is_cont(s[i + 2]) {
                Some((i + 3, seq![b, s[i + 1], s[i + 2]]))
            } else {
                None
            }
        } else if b == 237 {
            if i + 3 <= s.len() && 128 <= s[i + 1] <= 159 && is_cont(s[i + 2]) {
                Some((i + 3, seq![b, s[i + 1], s[i + 2]]))
            } else {
                None
            }
        } else if (225 <= b <= 236) || b == 238 || b == 239 {
            if i + 3 <= s.len() && is_cont(s[i + 1]) && is_cont(s[i + 2]) {
                Some((i + 3, seq![b, s[i + 1], s[i + 2]]))
            } else {
                None
            }
        } else if b == 240 {
            if i + 4 <= s.len() && 144 <= s[i + 1] <= 191 && is_cont(s[i + 2]) && is_cont(
                s[i + 3],
            ) {
                Some((i + 4, seq![b, s[i + 1], s[i + 2], s[i + 3]]))
            } else {
                None
            }
        } else if 241 <= b <= 243 {
            if i + 4 <= s.len() && is_cont(s[i + 1]) && is_cont(s[i + 2]) && is_cont(s[i + 3]) {
                Some((i + 4, seq![b, s[i + 1], s[i + 2], s[i + 3]]))
            } else {
                None
            }
        } else if b == 244 {
            if i + 4 <= s.len() && 128 <= s[i + 1] <= 143 && is_cont(s[i + 2]) && is_cont(
                s[i + 3],
            ) {
                Some((i + 4, seq![b, s[i + 1], s[i + 2], s[i + 3]]))
            } else {
                None
            }
        } else {
            None
        }
    }
}

/// String content from `i` to the closing quote, unescaped.
pub open spec fn spec_str_body(s: Seq<u8>, i: int) -> Option<(int, Seq<u8>)>
    decreases s.len() - i,
{
    if !(0 <= i < s.len()) {
        None
    } else if s[i] == 34 {
        Some((i + 1, Seq::empty()))
    } else {
        match spec_str_elem(s, i) {
            None => None,
            Some(p) => if i < p.0 <= s.len() {
                match spec_str_body(s, p.0) {
                    None => None,
                    Some(q) => Some((q.0, p.1 + q.1)),
                }
            } else {
                None
            },
        }
    }
}

/// A whole string token at `i`: an opening quote, content, closing quote.
pub open spec fn spec_string(s: Seq<u8>, i: int) -> Option<(int, Seq<u8>)> {
    if 0 <= i < s.len() && s[i] == 34 {
        spec_str_body(s, i + 1)
    } else {
        None
    }
}

fn hex_digit(b: u8) -> (r: Option<u8>)
    ensures
        match r {
            Some(v) => is_hex_digit(b) && v == hex_val(b),
            None => !is_hex_digit(b),
        },
{
    if 48 <= b && b <= 57 {
        Some(b - 48)
    } else if 97 <= b && b <= 102 {
        Some(b - 87)
    } else if 65 <= b && b <= 70 {
        Some(b - 55)
    } else {
        None
    }
}

fn hex4(s: &[u8], i: usize) -> (r: Option<u32>)
    requires
        i <= s@.len(),
    ensures
        match r {
            Some(v) => hex4_ok(s@, i as int) && v == hex4_val(s@, i as int) && v < 0x10000,
            None => !hex4_ok(s@, i as int),
        },
{
    if s.len() - i < 4 {
        return None;
    }
    let d0 = hex_digit(s[i]);
    let d1 = hex_digit(s[i + 1]);
    let d2 = hex_digit(s[i + 2]);
    let d3 = hex_digit(s[i + 3]);
    match (d0, d1, d2, d3) {
        (Some(a), Some(b), Some(c), Some(d)) => Some(
            ((a as u32 * 16 + b as u32) * 16 + c as u32) * 16 + d as u32,
        ),
        _ => None,
    }
}

/// Append the UTF-8 encoding of one scalar value.
fn push_utf8(out: &mut Vec<u8>, cp: u32)
    requires
        cp < 0x110000,
    ensures
        final(out)@ == old(out)@ + utf8_enc(cp as int),
{
    let ghost base = out@;
    if cp < 0x80 {
        out.push(cp as u8);
    } else if cp < 0x800 {
        proof {
            vstd::arithmetic::div_mod::lemma_multiply_divide_lt(cp as int, 64, 32);
        }
        out.push((192 + cp / 64) as u8);
        out.push((128 + cp % 64) as u8);
    } else if cp < 0x10000 {
        proof {
            vstd::arithmetic::div_mod::lemma_multiply_divide_lt(cp as int, 4096, 16);
        }
        out.push((224 + cp / 4096) as u8);
        out.push((128 + (cp / 64) % 64) as u8);
        out.push((128 + cp % 64) as u8);
    } else {
        proof {
            vstd::arithmetic::div_mod::lemma_multiply_divide_lt(cp as int, 262144, 5);
        }
        out.push((240 + cp / 262144) as u8);
        out.push((128 + (cp / 4096) % 64) as u8);
        out.push((128 + (cp / 64) % 64) as u8);
        out.push((128 + cp % 64) as u8);
    }
    proof {
        assert(out@ =~= base + utf8_enc(cp as int));
    }
}

/// Scan one string-content element at `i`, exactly [`spec_str_elem`].
fn scan_str_elem(s: &[u8], i: usize) -> (r: Option<(usize, Vec<u8>)>)
    requires
        i <= s@.len(),
    ensures
        match r {
            Some(p) => spec_str_elem(s@, i as int) == Some((p.0 as int, p.1@)) && i < p.0
                <= s@.len(),
            None => spec_str_elem(s@, i as int) is None,
        },
{
    let n = s.len();
    if i >= n {
        return None;
    }
    let b = s[i];
    let mut out: Vec<u8> = Vec::new();
    if b == 92 {
        if n - i < 2 {
            return None;
        }
        let c = s[i + 1];
        if c == 117 {
            match hex4(s, i + 2) {
                None => None,
                Some(cp) => {
                    if 0xD800 <= cp && cp <= 0xDBFF {
                        if n - i >= 12 && s[i + 6] == 92 && s[i + 7] == 117 {
                            match hex4(s, i + 8) {
                                None => None,
                                Some(lo) => {
                                    if 0xDC00 <= lo && lo <= 0xDFFF {
                                        let scalar = 0x10000 + (cp - 0xD800) * 0x400 + (lo
                                            - 0xDC00);
                                        push_utf8(&mut out, scalar);
                                        Some((i + 12, out))
                                    } else {
                                        None
                                    }
                                },
                            }
                        } else {
                            None
                        }
                    } else if 0xDC00 <= cp && cp <= 0xDFFF {
                        None
                    } else {
                        push_utf8(&mut out, cp);
                        Some((i + 6, out))
                    }
                },
            }
        } else {
            let esc: Option<u8> = if c == 34 {
                Some(34)
            } else if c == 92 {
                Some(92)
            } else if c == 47 {
                Some(47)
            } else if c == 98 {
                Some(8)
            } else if c == 102 {
                Some(12)
            } else if c == 110 {
                Some(10)
            } else if c == 114 {
                Some(13)
            } else if c == 116 {
                Some(9)
            } else {
                None
            };
            match esc {
                Some(e) => {
                    out.push(e);
                    proof {
                        assert(out@ =~= seq![e]);
                    }
                    Some((i + 2, out))
                },
                None => None,
            }
        }
    } else if b == 34 {
        None
    } else if b < 32 {
        None
    } else if b < 128 {
        out.push(b);
        proof {
            assert(out@ =~= seq![b]);
        }
        Some((i + 1, out))
    } else if 194 <= b && b <= 223 {
        if n - i >= 2 && 128 <= s[i + 1] && s[i + 1] <= 191 {
            out.push(b);
            out.push(s[i + 1]);
            proof {
                assert(out@ =~= seq![b, s@[i as int + 1]]);
            }
            Some((i + 2, out))
        } else {
            None
        }
    } else if b == 224 || b == 237 || (225 <= b && b <= 236) || b == 238 || b == 239 {
        let lo2: u8 = if b == 224 {
            160
        } else {
            128
        };
        let hi2: u8 = if b == 237 {
            159
        } else {
            191
        };
        if n - i >= 3 && lo2 <= s[i + 1] && s[i + 1] <= hi2 && 128 <= s[i + 2] && s[i + 2] <= 191 {
            out.push(b);
            out.push(s[i + 1]);
            out.push(s[i + 2]);
            proof {
                assert(out@ =~= seq![b, s@[i as int + 1], s@[i as int + 2]]);
            }
            Some((i + 3, out))
        } else {
            None
        }
    } else if 240 <= b && b <= 244 {
        let lo2: u8 = if b == 240 {
            144
        } else {
            128
        };
        let hi2: u8 = if b == 244 {
            143
        } else {
            191
        };
        if n - i >= 4 && lo2 <= s[i + 1] && s[i + 1] <= hi2 && 128 <= s[i + 2] && s[i + 2] <= 191
            && 128 <= s[i + 3] && s[i + 3] <= 191 {
            out.push(b);
            out.push(s[i + 1]);
            out.push(s[i + 2]);
            out.push(s[i + 3]);
            proof {
                assert(out@ =~= seq![b, s@[i as int + 1], s@[i as int + 2], s@[i as int + 3]]);
            }
            Some((i + 4, out))
        } else {
            None
        }
    } else {
        None
    }
}

/// Scan a whole string token at `i`, exactly [`spec_string`].
fn scan_string(s: &[u8], i: usize) -> (r: Option<(usize, Vec<u8>)>)
    requires
        i <= s@.len(),
    ensures
        match r {
            Some(p) => spec_string(s@, i as int) == Some((p.0 as int, p.1@)) && i < p.0 <= s@.len(),
            None => spec_string(s@, i as int) is None,
        },
{
    let n = s.len();
    if i >= n || s[i] != 34 {
        return None;
    }
    let mut j = i + 1;
    let mut acc: Vec<u8> = Vec::new();
    loop
        invariant
            i + 1 <= j <= n,
            n == s@.len(),
            s@[i as int] == 34,
            ({
                let full = spec_str_body(s@, i as int + 1);
                match spec_str_body(s@, j as int) {
                    None => full is None,
                    Some(q) => full == Some((q.0, acc@ + q.1)),
                }
            }),
        decreases s@.len() - j,
    {
        if j >= n {
            return None;
        }
        if s[j] == 34 {
            proof {
                assert(spec_str_body(s@, j as int) == Some((j as int + 1, Seq::<u8>::empty())));
                assert(acc@ + Seq::<u8>::empty() =~= acc@);
            }
            return Some((j + 1, acc));
        }
        match scan_str_elem(s, j) {
            None => {
                return None;
            },
            Some(p) => {
                let (j2, mut out) = p;
                let ghost acc_before = acc@;
                acc.append(&mut out);
                proof {
                    if spec_str_body(s@, j2 as int) is Some {
                        let q = spec_str_body(s@, j2 as int).unwrap();
                        assert((acc_before + spec_str_elem(s@, j as int).unwrap().1) + q.1
                            =~= acc_before + (spec_str_elem(s@, j as int).unwrap().1 + q.1));
                    }
                }
                j = j2;
            },
        }
    }
}

/// The textual shape of a number token: sign, integer digits, optional
/// fraction digits, optional signed exponent digits.
pub ghost struct NumShape {
    pub end: int,
    pub neg: bool,
    pub int_start: int,
    pub int_end: int,
    pub frac_start: int,
    pub frac_end: int,
    pub exp_neg: bool,
    pub exp_start: int,
    pub exp_end: int,
}

/// Scan the shape of a number token at `i`: an optional minus, an
/// integer part without a superfluous leading zero, an optional fraction
/// of at least one digit, an optional exponent of at least one digit.
pub open spec fn spec_num_shape(s: Seq<u8>, i: int) -> Option<NumShape>
    recommends
        0 <= i <= s.len(),
{
    let neg = i < s.len() && s[i] == 45;
    let a = if neg {
        i + 1
    } else {
        i
    };
    let b = spec_digits_end(s, a);
    if b == a || (s[a] == 48 && b > a + 1) {
        None
    } else {
        let hasfrac = b < s.len() && s[b] == 46;
        let fa = if hasfrac {
            b + 1
        } else {
            b
        };
        let fb = if hasfrac {
            spec_digits_end(s, fa)
        } else {
            b
        };
        if hasfrac && fb == fa {
            None
        } else {
            let hasexp = fb < s.len() && (s[fb] == 101 || s[fb] == 69);
            if !hasexp {
                Some(
                    NumShape {
                        end: fb,
                        neg,
                        int_start: a,
                        int_end: b,
                        frac_start: fa,
                        frac_end: fb,
                        exp_neg: false,
                        exp_start: fb,
                        exp_end: fb,
                    },
                )
            } else {
                let sign_pos = fb + 1 < s.len() && s[fb + 1] == 43;
                let sign_neg = fb + 1 < s.len() && s[fb + 1] == 45;
                let ea = if sign_pos || sign_neg {
                    fb + 2
                } else {
                    fb + 1
                };
                let eb = spec_digits_end(s, ea);
                if eb == ea {
                    None
                } else {
                    Some(
                        NumShape {
                            end: eb,
                            neg,
                            int_start: a,
                            int_end: b,
                            frac_start: fa,
                            frac_end: fb,
                            exp_neg: sign_neg,
                            exp_start: ea,
                            exp_end: eb,
                        },
                    )
                }
            }
        }
    }
}

pub open spec fn shape_digit_count(sh: NumShape) -> int {
    (sh.int_end - sh.int_start) + (sh.frac_end - sh.frac_start)
}

/// Integer and fraction digits read as one integer.
pub open spec fn shape_mantissa(s: Seq<u8>, sh: NumShape) -> int {
    digits_val(s, sh.int_start, sh.int_end) * pow10((sh.frac_end - sh.frac_start) as nat)
        + digits_val(s, sh.frac_start, sh.frac_end)
}

pub open spec fn shape_exp(s: Seq<u8>, sh: NumShape) -> int {
    if sh.exp_neg {
        -digits_val(s, sh.exp_start, sh.exp_end)
    } else {
        digits_val(s, sh.exp_start, sh.exp_end)
    }
}

/// The fixed-point milli-unit value of a number of the given shape:
/// mantissa scaled by ten to the decimal exponent plus three, fractional
/// milli-unit digits rounded toward zero. Rejected when it carries more
/// significant or exponent digits than the format admits, or when its
/// magnitude leaves the representable range.
pub open spec fn spec_fixed_value(s: Seq<u8>, sh: NumShape) -> Option<int> {
    if shape_digit_count(sh) > MAX_SIG_DIGITS as int || sh.exp_end - sh.exp_start
        > MAX_EXP_DIGITS as int {
        None
    } else {
        let m = shape_mantissa(s, sh);
        let e = shape_exp(s, sh) + 3 - (sh.frac_end - sh.frac_start);
        let v = if m == 0 {
            0
        } else if e >= 0 {
            m * pow10(e as nat)
        } else {
            m / pow10((-e) as nat)
        };
        if v > POS_LIMIT {
            None
        } else if sh.neg {
            Some(-v)
        } else {
            Some(v)
        }
    }
}

/// A number token at `i` together with its fixed-point value.
pub open spec fn spec_number_fixed(s: Seq<u8>, i: int) -> Option<(int, int)> {
    match spec_num_shape(s, i) {
        None => None,
        Some(sh) => match spec_fixed_value(s, sh) {
            None => None,
            Some(v) => Some((sh.end, v)),
        },
    }
}

/// An unsigned integer token at `i`: a plain digit run without a
/// superfluous leading zero, no sign, fraction or exponent, rejected
/// when its value leaves the unsigned 128-bit range.
pub open spec fn spec_uint(s: Seq<u8>, i: int) -> Option<(int, int)> {
    let b = spec_digits_end(s, i);
    if b == i || (s[i] == 48 && b > i + 1) {
        None
    } else if digits_val(s, i, b) > u128::MAX {
        None
    } else {
        Some((b, digits_val(s, i, b)))
    }
}

/// `m * p <= l` exactly when `m <= l / p`, for a positive divisor.
proof fn lemma_le_div_iff(m: int, l: int, p: int)
    requires
        p > 0,
        m >= 0,
        l >= 0,
    ensures
        (m * p <= l) <==> (m <= l / p),
{
    lemma_fundamental_div_mod(l, p);
    if m * p <= l {
        lemma_div_is_ordered(m * p, l, p);
        lemma_div_multiples_vanish(m, p);
        assert(p * m == m * p) by (nonlinear_arith);
    }
    if m <= l / p {
        lemma_mul_inequality(m, l / p, p);
        assert((l / p) * p == p * (l / p)) by (nonlinear_arith);
    }
}

/// A non-negative value does not shrink when multiplied by a positive one.
proof fn lemma_mul_ge_self(v: int, p: int)
    requires
        v >= 0,
        p >= 1,
    ensures
        v * p >= v,
{
    assert(v * p >= v * 1) by (nonlinear_arith)
        requires
            v >= 0,
            p >= 1,
    ;
}

/// The powers of ten the scanners need, evaluated once.
proof fn lemma_pow10_vals()
    ensures
        pow10(6) == 1000000,
        pow10(16) == 10000000000000000,
        pow10(32) == 100000000000000000000000000000000,
        pow10(33) == 1000000000000000000000000000000000,
        pow10(37) == 10000000000000000000000000000000000000,
{
    reveal_with_fuel(pow10, 40);
}

/// Ten to the `e`, executable.
fn pow10_u128(e: u32) -> (p: u128)
    requires
        e <= 38,
    ensures
        p == pow10(e as nat),
        p >= 1,
{
    proof {
        lemma_pow10_pos(e as nat);
    }
    let mut p: u128 = 1;
    let mut k: u32 = 0;
    while k < e
        invariant
            k <= e <= 38,
            p == pow10(k as nat),
        decreases e - k,
    {
        proof {
            lemma_pow10_mono(k as nat, 37);
            lemma_pow10_vals();
        }
        p = p * 10;
        k = k + 1;
    }
    p
}

/// Accumulate the mantissa over the integer run `[a, b)` and the
/// fraction run `[fa, fb)`.
fn accum_mantissa(s: &[u8], a: usize, b: usize, fa: usize, fb: usize) -> (m: u128)
    requires
        a <= b <= fa <= fb <= s@.len(),
        forall|k: int| a <= k < b ==> is_digit(s@[k]),
        forall|k: int| fa <= k < fb ==> is_digit(s@[k]),
        (b - a) + (fb - fa) <= 32,
    ensures
        m == digits_val(s@, a as int, b as int) * pow10((fb - fa) as nat) + digits_val(
            s@,
            fa as int,
            fb as int,
        ),
        m < pow10(((b - a) + (fb - fa)) as nat),
{
    proof {
        lemma_pow10_vals();
    }
    let mut m: u128 = 0;
    let mut k = a;
    while k < b
        invariant
            a <= k <= b <= fa <= fb <= s@.len(),
            forall|t: int| a <= t < b ==> is_digit(s@[t]),
            (b - a) + (fb - fa) <= 32,
            m == digits_val(s@, a as int, k as int),
            m < pow10((k - a) as nat),
            pow10(33) == 1000000000000000000000000000000000,
        decreases b - k,
    {
        let d = (s[k] - 48) as u128;
        proof {
            assert(pow10((k - a + 1) as nat) == 10 * pow10((k - a) as nat));
            lemma_pow10_mono((k - a + 1) as nat, 33);
        }
        m = m * 10 + d;
        k = k + 1;
    }
    let ghost m1 = digits_val(s@, a as int, b as int);
    proof {
        assert(m == m1);
        assert(pow10(0nat) == 1);
        assert(digits_val(s@, fa as int, fa as int) == 0);
        assert(m1 * pow10((fa - fa) as nat) == m1 * 1);
        assert(m1 * 1 == m1) by (nonlinear_arith);
        assert(m == m1 * pow10((fa - fa) as nat) + digits_val(s@, fa as int, fa as int));
    }
    let mut k2 = fa;
    while k2 < fb
        invariant
            fa <= k2 <= fb <= s@.len(),
            a <= b <= fa,
            forall|t: int| fa <= t < fb ==> is_digit(s@[t]),
            (b - a) + (fb - fa) <= 32,
            m1 == digits_val(s@, a as int, b as int),
            m == m1 * pow10((k2 - fa) as nat) + digits_val(s@, fa as int, k2 as int),
            m < pow10(((b - a) + (k2 - fa)) as nat),
            pow10(33) == 1000000000000000000000000000000000,
        decreases fb - k2,
    {
        let d = (s[k2] - 48) as u128;
        proof {
            let c = ((b - a) + (k2 - fa)) as nat;
            assert(pow10((c + 1) as nat) == 10 * pow10(c));
            lemma_pow10_mono((c + 1) as nat, 33);
            let p = pow10((k2 - fa) as nat);
            assert((m1 * p) * 10 == m1 * (p * 10)) by (nonlinear_arith);
            assert(pow10((k2 - fa + 1) as nat) == 10 * pow10((k2 - fa) as nat));
        }
        m = m * 10 + d;
        k2 = k2 + 1;
    }
    proof {
        if fb == fa {
            assert(pow10(0nat) == 1);
        }
    }
    m
}

/// Accumulate a short digit run, as used for exponents.
fn accum_small(s: &[u8], a: usize, b: usize) -> (v: u64)
    requires
        a <= b <= s@.len(),
        b - a <= 6,
        forall|k: int| a <= k < b ==> is_digit(s@[k]),
    ensures
        v == digits_val(s@, a as int, b as int),
        v < 1000000,
{
    proof {
        lemma_digits_val_bound(s@, a as int, b as int);
        lemma_pow10_mono((b - a) as nat, 6);
        lemma_pow10_vals();
    }
    let mut v: u64 = 0;
    let mut k = a;
    while k < b
        invariant
            a <= k <= b <= s@.len(),
            b - a <= 6,
            forall|t: int| a <= t < b ==> is_digit(s@[t]),
            v == digits_val(s@, a as int, k as int),
            v < 1000000,
        decreases b - k,
    {
        proof {
            lemma_digits_val_bound(s@, a as int, k as int + 1);
            lemma_pow10_mono((k + 1 - a) as nat, 6);
            lemma_pow10_vals();
        }
        let d = (s[k] - 48) as u64;
        v = v * 10 + d;
        k = k + 1;
    }
    v
}

/// Scan a number token at `i` into its fixed-point milli-unit value,
/// exactly [`spec_number_fixed`].
#[verifier::rlimit(100)]
#[verifier::spinoff_prover]
fn scan_number_fixed(s: &[u8], i: usize) -> (r: Option<(usize, i64)>)
    requires
        i <= s@.len(),
    ensures
        match r {
            Some(p) => spec_number_fixed(s@, i as int) == Some((p.0 as int, p.1 as int)) && i < p.0
                <= s@.len() && -POS_LIMIT <= p.1 <= POS_LIMIT,
            None => spec_number_fixed(s@, i as int) is None,
        },
{
    let n = s.len();
    let neg = i < n && s[i] == 45;
    let a = if neg {
        i + 1
    } else {
        i
    };
    let b = skip_digits(s, a);
    proof {
        lemma_digits_end_bounds(s@, a as int);
    }
    if b == a {
        return None;
    }
    if s[a] == 48 && b > a + 1 {
        return None;
    }
    let hasfrac = b < n && s[b] == 46;
    let fa = if hasfrac {
        b + 1
    } else {
        b
    };
    let fb = if hasfrac {
        skip_digits(s, fa)
    } else {
        b
    };
    proof {
        lemma_digits_end_bounds(s@, fa as int);
    }
    if hasfrac && fb == fa {
        return None;
    }
    let hasexp = fb < n && (s[fb] == 101 || s[fb] == 69);
    let mut end: usize = fb;
    let mut exp_neg = false;
    let mut ea: usize = fb;
    let mut eb: usize = fb;
    if hasexp {
        let sign_pos = fb + 1 < n && s[fb + 1] == 43;
        let sign_neg = fb + 1 < n && s[fb + 1] == 45;
        ea = if sign_pos || sign_neg {
            fb + 2
        } else {
            fb + 1
        };
        eb = skip_digits(s, ea);
        proof {
            lemma_digits_end_bounds(s@, ea as int);
        }
        if eb == ea {
            return None;
        }
        exp_neg = sign_neg;
        end = eb;
    }
    let ghost sh = spec_num_shape(s@, i as int).unwrap();
    proof {
        assert(spec_num_shape(s@, i as int) is Some);
        assert(sh.end == end && sh.neg == neg && sh.int_start == a && sh.int_end == b
            && sh.frac_start == fa && sh.frac_end == fb && sh.exp_neg == exp_neg && sh.exp_start
            == ea && sh.exp_end == eb);
    }
    // Digit-count limits.
    let int_digits = b - a;
    let frac_digits = fb - fa;
    if int_digits > MAX_SIG_DIGITS || frac_digits > MAX_SIG_DIGITS - int_digits {
        return None;
    }
    if eb - ea > MAX_EXP_DIGITS {
        return None;
    }
    // Mantissa and exponent values.
    let m = accum_mantissa(s, a, b, fa, fb);
    let ev = accum_small(s, ea, eb);
    let e: i64 = (if exp_neg {
        -(ev as i64)
    } else {
        ev as i64
    }) + 3 - (frac_digits as i64);
    proof {
        assert(shape_mantissa(s@, sh) == m as int);
        assert(shape_exp(s@, sh) + 3 - (sh.frac_end - sh.frac_start) == e as int);
        lemma_pow10_mono(((b - a) + (fb - fa)) as nat, 32);
        lemma_pow10_vals();
    }
    let limit_u: u128 = POS_LIMIT as u128;
    let v: u128;
    if m == 0 {
        v = 0;
    } else if e >= 16 {
        proof {
            lemma_pow10_mono(16nat, e as nat);
            lemma_pow10_vals();
            lemma_mul_ge_self(pow10(e as nat), m as int);
            assert(pow10(e as nat) * (m as int) == (m as int) * pow10(e as nat))
                by (nonlinear_arith);
        }
        return None;
    } else if e >= 0 {
        let p = pow10_u128(e as u32);
        proof {
            lemma_le_div_iff(m as int, limit_u as int, p as int);
        }
        if m > limit_u / p {
            return None;
        }
        v = m * p;
    } else {
        let ke: i64 = -e;
        if ke >= 33 {
            proof {
                lemma_pow10_mono(33nat, ke as nat);
                vstd::arithmetic::div_mod::lemma_basic_div(m as int, pow10(ke as nat));
            }
            v = 0;
        } else {
            let p = pow10_u128(ke as u32);
            v = m / p;
        }
        if v > limit_u {
            return None;
        }
    }
    if v > limit_u {
        return None;
    }
    let sv: i64 = if neg {
        -(v as i64)
    } else {
        v as i64
    };
    Some((end, sv))
}

/// Scan an unsigned integer token at `i`, exactly [`spec_uint`].
fn scan_uint(s: &[u8], i: usize) -> (r: Option<(usize, u128)>)
    requires
        i <= s@.len(),
    ensures
        match r {
            Some(p) => spec_uint(s@, i as int) == Some((p.0 as int, p.1 as int)) && i < p.0
                <= s@.len(),
            None => spec_uint(s@, i as int) is None,
        },
{
    let b = skip_digits(s, i);
    proof {
        lemma_digits_end_bounds(s@, i as int);
    }
    if b == i {
        return None;
    }
    if s[i] == 48 && b > i + 1 {
        return None;
    }
    let mut m: u128 = 0;
    let mut k = i;
    while k < b
        invariant
            i <= k <= b <= s@.len(),
            b == spec_digits_end(s@, i as int),
            forall|t: int| i <= t < b ==> is_digit(s@[t]),
            m == digits_val(s@, i as int, k as int),
        decreases b - k,
    {
        let d = (s[k] - 48) as u128;
        if m > (u128::MAX - d) / 10 {
            proof {
                lemma_fundamental_div_mod(u128::MAX - d, 10);
                assert(m * 10 == 10 * (m as int)) by (nonlinear_arith);
                assert(digits_val(s@, i as int, k as int + 1) > u128::MAX);
                lemma_digits_val_extend(s@, i as int, k as int + 1, b as int);
                lemma_pow10_pos((b - k - 1) as nat);
                lemma_mul_ge_self(
                    digits_val(s@, i as int, k as int + 1),
                    pow10((b - k - 1) as nat),
                );
                lemma_digits_val_bound(s@, i as int, k as int + 1);
            }
            return None;
        }
        proof {
            lemma_fundamental_div_mod(u128::MAX - d, 10);
            assert(m * 10 == 10 * (m as int)) by (nonlinear_arith);
        }
        m = m * 10 + d;
        k = k + 1;
    }
    Some((b, m))
}

/// Skip one value of an ignored field: a string, number, literal, or a
/// nested object or array down to [`SKIP_DEPTH`] levels. Everything
/// skipped is still validated: an ill-formed value invalidates the
/// datagram.
pub open spec fn spec_skip_value(s: Seq<u8>, i: int, depth: nat) -> Option<int>
    decreases depth, s.len() - i, 0int,
{
    if !(0 <= i < s.len()) {
        None
    } else {
        let b = s[i];
        if b == 34 {
            match spec_string(s, i) {
                None => None,
                Some(p) => Some(p.0),
            }
        } else if b == 116 {
            if i + 4 <= s.len() && s[i + 1] == 114 && s[i + 2] == 117 && s[i + 3] == 101 {
                Some(i + 4)
            } else {
                None
            }
        } else if b == 102 {
            if i + 5 <= s.len() && s[i + 1] == 97 && s[i + 2] == 108 && s[i + 3] == 115 && s[i + 4]
                == 101 {
                Some(i + 5)
            } else {
                None
            }
        } else if b == 110 {
            if i + 4 <= s.len() && s[i + 1] == 117 && s[i + 2] == 108 && s[i + 3] == 108 {
                Some(i + 4)
            } else {
                None
            }
        } else if b == 45 || is_digit(b) {
            match spec_num_shape(s, i) {
                None => None,
                Some(sh) => Some(sh.end),
            }
        } else if b == 123 {
            if depth == 0 {
                None
            } else {
                let j = spec_ws(s, i + 1);
                if j < s.len() && s[j] == 125 {
                    Some(j + 1)
                } else if i < j <= s.len() {
                    spec_skip_members(s, j, (depth - 1) as nat)
                } else {
                    None
                }
            }
        } else if b == 91 {
            if depth == 0 {
                None
            } else {
                let j = spec_ws(s, i + 1);
                if j < s.len() && s[j] == 93 {
                    Some(j + 1)
                } else if i < j <= s.len() {
                    spec_skip_elements(s, j, (depth - 1) as nat)
                } else {
                    None
                }
            }
        } else {
            None
        }
    }
}

/// Skip the members of an ignored object, starting at a key.
pub open spec fn spec_skip_members(s: Seq<u8>, i: int, depth: nat) -> Option<int>
    decreases depth, s.len() - i, 1int,
{
    match spec_string(s, i) {
        None => None,
        Some(p) => {
            let c = spec_ws(s, p.0);
            if !(c < s.len() && s[c] == 58) {
                None
            } else {
                let v = spec_ws(s, c + 1);
                if !(i < v <= s.len()) {
                    None
                } else {
                    match spec_skip_value(s, v, depth) {
                        None => None,
                        Some(e) => {
                            let t = spec_ws(s, e);
                            if t < s.len() && s[t] == 44 {
                                let n2 = spec_ws(s, t + 1);
                                if i < n2 <= s.len() {
                                    spec_skip_members(s, n2, depth)
                                } else {
                                    None
                                }
                            } else if t < s.len() && s[t] == 125 {
                                Some(t + 1)
                            } else {
                                None
                            }
                        },
                    }
                }
            }
        },
    }
}

/// Skip the elements of an ignored array, starting at a value.
pub open spec fn spec_skip_elements(s: Seq<u8>, i: int, depth: nat) -> Option<int>
    decreases depth, s.len() - i, 1int,
{
    match spec_skip_value(s, i, depth) {
        None => None,
        Some(e) => {
            let t = spec_ws(s, e);
            if t < s.len() && s[t] == 44 {
                let n2 = spec_ws(s, t + 1);
                if i < n2 <= s.len() {
                    spec_skip_elements(s, n2, depth)
                } else {
                    None
                }
            } else if t < s.len() && s[t] == 93 {
                Some(t + 1)
            } else {
                None
            }
        },
    }
}

/// Scan the extent of a number token, as needed when skipping one.
fn scan_number_end(s: &[u8], i: usize) -> (r: Option<usize>)
    requires
        i <= s@.len(),
    ensures
        match r {
            Some(j) => ({
                let o = spec_num_shape(s@, i as int);
                o is Some && o.unwrap().end == j as int && i < j <= s@.len()
            }),
            None => spec_num_shape(s@, i as int) is None,
        },
{
    let n = s.len();
    let neg = i < n && s[i] == 45;
    let a = if neg {
        i + 1
    } else {
        i
    };
    let b = skip_digits(s, a);
    proof {
        lemma_digits_end_bounds(s@, a as int);
    }
    if b == a {
        return None;
    }
    if s[a] == 48 && b > a + 1 {
        return None;
    }
    let hasfrac = b < n && s[b] == 46;
    let fa = if hasfrac {
        b + 1
    } else {
        b
    };
    let fb = if hasfrac {
        skip_digits(s, fa)
    } else {
        b
    };
    if hasfrac && fb == fa {
        return None;
    }
    let hasexp = fb < n && (s[fb] == 101 || s[fb] == 69);
    if !hasexp {
        return Some(fb);
    }
    let sign_pos = fb + 1 < n && s[fb + 1] == 43;
    let sign_neg = fb + 1 < n && s[fb + 1] == 45;
    let ea = if sign_pos || sign_neg {
        fb + 2
    } else {
        fb + 1
    };
    let eb = skip_digits(s, ea);
    if eb == ea {
        return None;
    }
    Some(eb)
}

/// Skip one ignored value, exactly [`spec_skip_value`].
fn skip_value(s: &[u8], i: usize, depth: u32) -> (r: Option<usize>)
    requires
        i <= s@.len(),
    ensures
        match r {
            Some(j) => spec_skip_value(s@, i as int, depth as nat) == Some(j as int) && i < j
                <= s@.len(),
            None => spec_skip_value(s@, i as int, depth as nat) is None,
        },
    decreases depth, s@.len() - i, 0int,
{
    let n = s.len();
    if i >= n {
        return None;
    }
    let b = s[i];
    if b == 34 {
        match scan_string(s, i) {
            None => None,
            Some(p) => Some(p.0),
        }
    } else if b == 116 {
        if n - i >= 4 && s[i + 1] == 114 && s[i + 2] == 117 && s[i + 3] == 101 {
            Some(i + 4)
        } else {
            None
        }
    } else if b == 102 {
        if n - i >= 5 && s[i + 1] == 97 && s[i + 2] == 108 && s[i + 3] == 115 && s[i + 4] == 101 {
            Some(i + 5)
        } else {
            None
        }
    } else if b == 110 {
        if n - i >= 4 && s[i + 1] == 117 && s[i + 2] == 108 && s[i + 3] == 108 {
            Some(i + 4)
        } else {
            None
        }
    } else if b == 45 || (48 <= b && b <= 57) {
        scan_number_end(s, i)
    } else if b == 123 {
        if depth == 0 {
            return None;
        }
        let j = skip_ws(s, i + 1);
        if j < n && s[j] == 125 {
            Some(j + 1)
        } else {
            skip_members(s, j, depth - 1)
        }
    } else if b == 91 {
        if depth == 0 {
            return None;
        }
        let j = skip_ws(s, i + 1);
        if j < n && s[j] == 93 {
            Some(j + 1)
        } else {
            skip_elements(s, j, depth - 1)
        }
    } else {
        None
    }
}

/// Skip the members of an ignored object, exactly [`spec_skip_members`].
fn skip_members(s: &[u8], i: usize, depth: u32) -> (r: Option<usize>)
    requires
        i <= s@.len(),
    ensures
        match r {
            Some(j) => spec_skip_members(s@, i as int, depth as nat) == Some(j as int) && i < j
                <= s@.len(),
            None => spec_skip_members(s@, i as int, depth as nat) is None,
        },
    decreases depth, s@.len() - i, 1int,
{
    let n = s.len();
    match scan_string(s, i) {
        None => None,
        Some(p) => {
            let c = skip_ws(s, p.0);
            if !(c < n && s[c] == 58) {
                return None;
            }
            let v = skip_ws(s, c + 1);
            match skip_value(s, v, depth) {
                None => None,
                Some(e) => {
                    let t = skip_ws(s, e);
                    if t < n && s[t] == 44 {
                        let n2 = skip_ws(s, t + 1);
                        skip_members(s, n2, depth)
                    } else if t < n && s[t] == 125 {
                        Some(t + 1)
                    } else {
                        None
                    }
                },
            }
        },
    }
}

/// Skip the elements of an ignored array, exactly [`spec_skip_elements`].
fn skip_elements(s: &[u8], i: usize, depth: u32) -> (r: Option<usize>)
    requires
        i <= s@.len(),
    ensures
        match r {
            Some(j) => spec_skip_elements(s@, i as int, depth as nat) == Some(j as int) && i < j
                <= s@.len(),
            None => spec_skip_elements(s@, i as int, depth as nat) is None,
        },
    decreases depth, s@.len() - i, 1int,
{
    let n = s.len();
    match skip_value(s, i, depth) {
        None => None,
        Some(e) => {
            let t = skip_ws(s, e);
            if t < n && s[t] == 44 {
                let n2 = skip_ws(s, t + 1);
                skip_elements(s, n2, depth)
            } else if t < n && s[t] == 93 {
                Some(t + 1)
            } else {
                None
            }
        },
    }
}

// The seven required keys, as byte sequences.
pub open spec fn key_id() -> Seq<u8> {
    seq![105u8, 100u8]
}

pub open spec fn key_x() -> Seq<u8> {
    seq![120u8]
}

pub open spec fn key_y() -> Seq<u8> {
    seq![121u8]
}

pub open spec fn key_z() -> Seq<u8> {
    seq![122u8]
}

pub open spec fn key_battery() -> Seq<u8> {
    seq![98u8, 97u8, 116u8, 116u8, 101u8, 114u8, 121u8]
}

pub open spec fn key_status() -> Seq<u8> {
    seq![115u8, 116u8, 97u8, 116u8, 117u8, 115u8]
}

pub open spec fn key_ts_ms() -> Seq<u8> {
    seq![116u8, 115u8, 95u8, 109u8, 115u8]
}

/// The fields gathered so far while reading a record object.
pub ghost struct RecAcc {
    pub id: Option<int>,
    pub x: Option<int>,
    pub y: Option<int>,
    pub z: Option<int>,
    pub battery: Option<int>,
    pub status: Option<Seq<u8>>,
    pub ts: Option<int>,
}

pub open spec fn empty_acc() -> RecAcc {
    RecAcc { id: None, x: None, y: None, z: None, battery: None, status: None, ts: None }
}

pub open spec fn acc_complete(acc: RecAcc) -> bool {
    acc.id is Some && acc.x is Some && acc.y is Some && acc.z is Some && acc.battery is Some
        && acc.status is Some && acc.ts is Some
}

pub open spec fn acc_model(acc: RecAcc) -> crate::record::RecModel {
    crate::record::RecModel {
        id: acc.id.unwrap(),
        x: acc.x.unwrap(),
        y: acc.y.unwrap(),
        z: acc.z.unwrap(),
        battery: acc.battery.unwrap(),
        status: acc.status.unwrap(),
        ts_ms: acc.ts.unwrap(),
    }
}

/// One field's value at `v`, read under its key: a required field takes
/// its typed value and may appear only once; any other key's value is
/// skipped. The id must fit an unsigned 32-bit integer.
#[verifier::opaque]
pub open spec fn spec_field_value(s: Seq<u8>, v: int, key: Seq<u8>, acc: RecAcc) -> Option<
    (int, RecAcc),
> {
    if key == key_id() {
        if acc.id is Some {
            None
        } else {
            match spec_uint(s, v) {
                None => None,
                Some(p) => if p.1 <= u32::MAX {
                    Some((p.0, RecAcc { id: Some(p.1), ..acc }))
                } else {
                    None
                },
            }
        }
    } else if key == key_x() {
        if acc.x is Some {
            None
        } else {
            match spec_number_fixed(s, v) {
                None => None,
                Some(p) => Some((p.0, RecAcc { x: Some(p.1), ..acc })),
            }
        }
    } else if key == key_y() {
        if acc.y is Some {
            None
        } else {
            match spec_number_fixed(s, v) {
                None => None,
                Some(p) => Some((p.0, RecAcc { y: Some(p.1), ..acc })),
            }
        }
    } else if key == key_z() {
        if acc.z is Some {
            None
        } else {
            match spec_number_fixed(s, v) {
                None => None,
                Some(p) => Some((p.0, RecAcc { z: Some(p.1), ..acc })),
            }
        }
    } else if key == key_battery() {
        if acc.battery is Some {
            None
        } else {
            match spec_number_fixed(s, v) {
                None => None,
                Some(p) => Some((p.0, RecAcc { battery: Some(p.1), ..acc })),
            }
        }
    } else if key == key_status() {
        if acc.status is Some {
            None
        } else {
            match spec_string(s, v) {
                None => None,
                Some(p) => Some((p.0, RecAcc { status: Some(p.1), ..acc })),
            }
        }
    } else if key == key_ts_ms() {
        if acc.ts is Some {
            None
        } else {
            match spec_uint(s, v) {
                None => None,
                Some(p) => Some((p.0, RecAcc { ts: Some(p.1), ..acc })),
            }
        }
    } else {
        match spec_skip_value(s, v, SKIP_DEPTH as nat) {
            None => None,
            Some(e) => Some((e, acc)),
        }
    }
}

/// The members of the record object from `i` (at a key) to the closing
/// brace, folded into the accumulator.
pub open spec fn spec_fields(s: Seq<u8>, i: int, acc: RecAcc) -> Option<(int, RecAcc)>
    decreases s.len() - i,
{
    match spec_string(s, i) {
        None => None,
        Some(p) => {
            let c = spec_ws(s, p.0);
            if !(c < s.len() && s[c] == 58) {
                None
            } else {
                let v = spec_ws(s, c + 1);
                if !(0 <= v <= s.len()) {
                    None
                } else {
                    match spec_field_value(s, v, p.1, acc) {
                        None => None,
                        Some(q) => {
                            let t = spec_ws(s, q.0);
                            if t < s.len() && s[t] == 44 {
                                let n2 = spec_ws(s, t + 1);
                                if i < n2 <= s.len() {
                                    spec_fields(s, n2, q.1)
                                } else {
                                    None
                                }
                            } else if t < s.len() && s[t] == 125 {
                                Some((t + 1, q.1))
                            } else {
                                None
                            }
                        },
                    }
                }
            }
        },
    }
}

/// One datagram decoded: optional whitespace, one record object holding
/// all seven required fields exactly once each plus any ignored fields,
/// optional whitespace, end of input.
pub open spec fn spec_decode(s: Seq<u8>) -> Option<crate::record::RecModel> {
    let i = spec_ws(s, 0);
    if !(i < s.len() && s[i] == 123) {
        None
    } else {
        let j = spec_ws(s, i + 1);
        if j < s.len() && s[j] == 125 {
            None
        } else if !(i < j <= s.len()) {
            None
        } else {
            match spec_fields(s, j, empty_acc()) {
                None => None,
                Some(p) => if spec_ws(s, p.0) == s.len() && acc_complete(p.1) {
                    Some(acc_model(p.1))
                } else {
                    None
                },
            }
        }
    }
}

/// The record being assembled, one option per required field.
struct RecBuild {
    id: Option<u32>,
    x: Option<i64>,
    y: Option<i64>,
    z: Option<i64>,
    battery: Option<i64>,
    status: Option<Vec<u8>>,
    ts: Option<u128>,
}

/// The accumulator a partly built record stands for.
spec fn rb_view(rb: RecBuild) -> RecAcc {
    ({
        let this = rb;
        RecAcc {
            id: match this.id {
                Some(v) => Some(v as int),
                None => None,
            },
            x: match this.x {
                Some(v) => Some(v as int),
                None => None,
            },
            y: match this.y {
                Some(v) => Some(v as int),
                None => None,
            },
            z: match this.z {
                Some(v) => Some(v as int),
                None => None,
            },
            battery: match this.battery {
                Some(v) => Some(v as int),
                None => None,
            },
            status: match this.status {
                Some(v) => Some(v@),
                None => None,
            },
            ts: match this.ts {
                Some(v) => Some(v as int),
                None => None,
            },
        }
    })
}

/// The gathered numeric fields lie in the fixed-point range.
spec fn rb_bounded(rb: RecBuild) -> bool {
    &&& match rb.x {
        Some(v) => -POS_LIMIT <= v <= POS_LIMIT,
        None => true,
    }
    &&& match rb.y {
        Some(v) => -POS_LIMIT <= v <= POS_LIMIT,
        None => true,
    }
    &&& match rb.z {
        Some(v) => -POS_LIMIT <= v <= POS_LIMIT,
        None => true,
    }
    &&& match rb.battery {
        Some(v) => -POS_LIMIT <= v <= POS_LIMIT,
        None => true,
    }
}

/// Which required key a parsed key is, if any.
fn match_key(k: &Vec<u8>) -> (which: u8)
    ensures
        0 <= which <= 7,
        (which == 1) == (k@ == key_id()),
        (which == 2) == (k@ == key_x()),
        (which == 3) == (k@ == key_y()),
        (which == 4) == (k@ == key_z()),
        (which == 5) == (k@ == key_battery()),
        (which == 6) == (k@ == key_status()),
        (which == 7) == (k@ == key_ts_ms()),
{
    let l = k.len();
    if l == 1 {
        if k[0] == 120 {
            proof {
                assert(k@ =~= key_x());
            }
            2
        } else if k[0] == 121 {
            proof {
                assert(k@ =~= key_y());
            }
            3
        } else if k[0] == 122 {
            proof {
                assert(k@ =~= key_z());
            }
            4
        } else {
            0
        }
    } else if l == 2 {
        if k[0] == 105 && k[1] == 100 {
            proof {
                assert(k@ =~= key_id());
            }
            1
        } else {
            0
        }
    } else if l == 5 {
        if k[0] == 116 && k[1] == 115 && k[2] == 95 && k[3] == 109 && k[4] == 115 {
            proof {
                assert(k@ =~= key_ts_ms());
            }
            7
        } else {
            0
        }
    } else if l == 6 {
        if k[0] == 115 && k[1] == 116 && k[2] == 97 && k[3] == 116 && k[4] == 117 && k[5] == 115 {
            proof {
                assert(k@ =~= key_status());
            }
            6
        } else {
            0
        }
    } else if l == 7 {
        if k[0] == 98 && k[1] == 97 && k[2] == 116 && k[3] == 116 && k[4] == 101 && k[5] == 114
            && k[6] == 121 {
            proof {
                assert(k@ =~= key_battery());
            }
            5
        } else {
            0
        }
    } else {
        0
    }
}

/// Read one field's value under its key, exactly [`spec_field_value`].
fn take_field_value(s: &[u8], v: usize, key: &Vec<u8>, rb: RecBuild) -> (r: Option<
    (usize, RecBuild),
>)
    requires
        v <= s@.len(),
    ensures
        match r {
            Some(p) => spec_field_value(s@, v as int, key@, rb_view(rb)) == Some((p.0 as int, rb_view(p.1))) && v
                < p.0 <= s@.len() && (rb_bounded(rb) ==> rb_bounded(p.1)),
            None => spec_field_value(s@, v as int, key@, rb_view(rb)) is None,
        },
{
    proof {
        reveal(spec_field_value);
    }
    let which = match_key(key);
    if which == 1 {
        if rb.id.is_some() {
            return None;
        }
        match scan_uint(s, v) {
            None => None,
            Some(p) => {
                let (e, val) = p;
                if val <= 0xFFFF_FFFF {
                    Some((e, RecBuild { id: Some(val as u32), ..rb }))
                } else {
                    None
                }
            },
        }
    } else if which == 2 {
        if rb.x.is_some() {
            return None;
        }
        match scan_number_fixed(s, v) {
            None => None,
            Some(p) => Some((p.0, RecBuild { x: Some(p.1), ..rb })),
        }
    } else if which == 3 {
        if rb.y.is_some() {
            return None;
        }
        match scan_number_fixed(s, v) {
            None => None,
            Some(p) => Some((p.0, RecBuild { y: Some(p.1), ..rb })),
        }
    } else if which == 4 {
        if rb.z.is_some() {
            return None;
        }
        match scan_number_fixed(s, v) {
            None => None,
            Some(p) => Some((p.0, RecBuild { z: Some(p.1), ..rb })),
        }
    } else if which == 5 {
        if rb.battery.is_some() {
            return None;
        }
        match scan_number_fixed(s, v) {
            None => None,
            Some(p) => Some((p.0, RecBuild { battery: Some(p.1), ..rb })),
        }
    } else if which == 6 {
        if rb.status.is_some() {
            return None;
        }
        match scan_string(s, v) {
            None => None,
            Some(p) => Some((p.0, RecBuild { status: Some(p.1), ..rb })),
        }
    } else if which == 7 {
        if rb.ts.is_some() {
            return None;
        }
        match scan_uint(s, v) {
            None => None,
            Some(p) => Some((p.0, RecBuild { ts: Some(p.1), ..rb })),
        }
    } else {
        match skip_value(s, v, SKIP_DEPTH) {
            None => None,
            Some(e) => Some((e, rb)),
        }
    }
}

/// Turn a complete accumulator into the record it gathered.
fn build_record(rb: RecBuild) -> (r: Option<TelemetryRecord>)
    requires
        rb_bounded(rb),
    ensures
        match r {
            Some(rec) => acc_complete(rb_view(rb)) && rec@ == acc_model(rb_view(rb))
                && rec.valid(),
            None => !acc_complete(rb_view(rb)),
        },
{
    if rb.id.is_some() && rb.x.is_some() && rb.y.is_some() && rb.z.is_some()
        && rb.battery.is_some() && rb.status.is_some() && rb.ts.is_some() {
        let rec = TelemetryRecord {
            id: rb.id.unwrap(),
            x: rb.x.unwrap(),
            y: rb.y.unwrap(),
            z: rb.z.unwrap(),
            battery: rb.battery.unwrap(),
            status: rb.status.unwrap(),
            ts_ms: rb.ts.unwrap(),
        };
        Some(rec)
    } else {
        None
    }
}

/// Decode one datagram into a validated record, exactly [`spec_decode`]:
/// anything malformed — text that is not UTF-8, broken structure, a
/// missing, duplicated or mistyped required field, a numeric value out
/// of range — yields nothing, and the datagram is discarded whole.
#[verifier::rlimit(100)]
#[verifier::spinoff_prover]
pub fn decode_record(buf: &[u8]) -> (r: Option<TelemetryRecord>)
    ensures
        match r {
            Some(rec) => spec_decode(buf@) == Some(rec@) && rec.valid(),
            None => spec_decode(buf@) is None,
        },
{
    let s = buf;
    let n = s.len();
    let i = skip_ws(s, 0);
    if i >= n || s[i] != 123 {
        return None;
    }
    let j = skip_ws(s, i + 1);
    if j < n && s[j] == 125 {
        return None;
    }
    let mut pos = j;
    let mut rb = RecBuild { id: None, x: None, y: None, z: None, battery: None, status: None, ts: None };
    loop
        invariant
            s == buf,
            n == s@.len(),
            j <= pos <= n,
            rb_bounded(rb),
            i == spec_ws(s@, 0),
            i < n && s@[i as int] == 123,
            j == spec_ws(s@, i as int + 1),
            !(j < n && s@[j as int] == 125),
            i < j <= n,
            spec_fields(s@, j as int, empty_acc()) == spec_fields(s@, pos as int, rb_view(rb)),
        decreases s@.len() - pos,
    {
        match scan_string(s, pos) {
            None => {
                return None;
            },
            Some(p) => {
                let (jk, key) = p;
                let c = skip_ws(s, jk);
                if !(c < n && s[c] == 58) {
                    return None;
                }
                let v = skip_ws(s, c + 1);
                let ghost acc_prev = rb_view(rb);
                match take_field_value(s, v, &key, rb) {
                    None => {
                        return None;
                    },
                    Some(q) => {
                        let (e, rb2) = q;
                        let t = skip_ws(s, e);
                        if t < n && s[t] == 44 {
                            let n2 = skip_ws(s, t + 1);
                            rb = rb2;
                            pos = n2;
                        } else if t < n && s[t] == 125 {
                            proof {
                                assert(spec_fields(s@, pos as int, acc_prev) == Some(
                                    (t as int + 1, rb_view(rb2)),
                                ));
                            }
                            let tail = skip_ws(s, t + 1);
                            if tail != n {
                                return None;
                            }
                            return build_record(rb2);
                        } else {
                            return None;
                        }
                    },
                }
            },
        }
    }
}

} // verus!
