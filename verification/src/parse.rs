//! Verified parsing of the numeric and hex inputs the demo tooling accepts:
//! decimal or `0x`-prefixed hexadecimal 32-bit values, and hex byte strings.

use vstd::prelude::*;

verus! {

/// Whether `c` is an ASCII decimal digit.
pub open spec fn is_dec_digit(c: u8) -> bool {
    0x30 <= c <= 0x39
}

/// Whether `c` is an ASCII hexadecimal digit, either case.
pub open spec fn is_hex_digit(c: u8) -> bool {
    ||| is_dec_digit(c)
    ||| 0x41 <= c <= 0x46
    ||| 0x61 <= c <= 0x66
}

/// The value of one hexadecimal digit (decimal digits included).
pub open spec fn hex_digit_val(c: u8) -> int {
    if is_dec_digit(c) {
        c - 0x30
    } else if 0x41 <= c <= 0x46 {
        c - 0x41 + 10
    } else {
        c - 0x61 + 10
    }
}

/// The value of a digit string in the given radix, most significant first.
pub open spec fn digits_val(s: Seq<u8>, radix: int) -> int
    decreases s.len(),
{
    if s.len() == 0 {
        0
    } else {
        digits_val(s.drop_last(), radix) * radix + hex_digit_val(s.last())
    }
}

/// Whether every byte of `s` is a digit of the given radix (10 or 16).
pub open spec fn all_digits(s: Seq<u8>, radix: int) -> bool {
    forall|i: int|
        0 <= i < s.len() ==> (if radix == 16 {
            is_hex_digit(#[trigger] s[i])
        } else {
            is_dec_digit(s[i])
        })
}

/// The digit body of a number: everything after one optional leading `+`.
pub open spec fn spec_num_body(s: Seq<u8>) -> Seq<u8> {
    if s.len() > 0 && s[0] == 0x2Bu8 {
        s.subrange(1, s.len() as int)
    } else {
        s
    }
}

/// How a digit string parses as a 32-bit value in the given radix: one
/// optional leading `+`, then at least one digit, and a value that fits.
pub open spec fn spec_parse_radix(s: Seq<u8>, radix: int) -> Option<u32> {
    let body = spec_num_body(s);
    if body.len() > 0 && all_digits(body, radix) && digits_val(body, radix) <= u32::MAX {
        Some(digits_val(body, radix) as u32)
    } else {
        None
    }
}

/// How a byte string parses as a 32-bit value: with a `0x` prefix the rest is
/// read as hexadecimal, otherwise the whole string as decimal.
pub open spec fn spec_parse_u32(s: Seq<u8>) -> Option<u32> {
    if s.len() >= 2 && s[0] == 0x30u8 && s[1] == 0x78u8 {
        spec_parse_radix(s.subrange(2, s.len() as int), 16)
    } else {
        spec_parse_radix(s, 10)
    }
}

/// A digit string's value only grows as digits are appended.
proof fn lemma_digits_val_prefix_le(s: Seq<u8>, radix: int, n: int)
    requires
        2 <= radix,
        0 <= n <= s.len(),
        all_digits(s, radix),
    ensures
        digits_val(s.take(n), radix) <= digits_val(s, radix),
        0 <= digits_val(s, radix),
    decreases s.len(),
{
    if s.len() == 0 {
    } else {
        lemma_digits_val_prefix_le(s.drop_last(), radix, if n < s.len() {
            n
        } else {
            n - 1
        });
        let v = digits_val(s.drop_last(), radix);
        assert(v * radix >= v) by (nonlinear_arith)
            requires
                v >= 0,
                radix >= 2,
        ;
        if n < s.len() {
            assert(s.take(n) =~= s.drop_last().take(n));
        } else {
            assert(s.take(n) =~= s);
        }
        assert(hex_digit_val(s.last()) >= 0);
    }
}

/// Reads one digit of the given radix; `None` exactly on non-digits.
fn digit_val(c: u8, radix: u32) -> (r: Option<u32>)
    requires
        radix == 10 || radix == 16,
    ensures
        (r is Some) <==> (if radix == 16 {
            is_hex_digit(c)
        } else {
            is_dec_digit(c)
        }),
        r matches Some(v) ==> v == hex_digit_val(c) && v < radix,
{
    if 0x30 <= c && c <= 0x39 {
        Some((c - 0x30) as u32)
    } else if radix == 16 && 0x41 <= c && c <= 0x46 {
        Some((c - 0x41) as u32 + 10)
    } else if radix == 16 && 0x61 <= c && c <= 0x66 {
        Some((c - 0x61) as u32 + 10)
    } else {
        None
    }
}

/// Parses the byte string as a 32-bit value in the given radix: one optional
/// leading `+`, then at least one digit; rejects anything else and values
/// that do not fit in 32 bits.
fn parse_radix(s: &Vec<u8>, start: usize, radix: u32) -> (r: Option<u32>)
    requires
        radix == 10 || radix == 16,
        start <= s@.len(),
    ensures
        r == spec_parse_radix(s@.subrange(start as int, s@.len() as int), radix as int),
{
    let ghost whole = s@.subrange(start as int, s@.len() as int);
    let n = s.len();
    let mut i: usize = start;
    if i < n && s[i] == 0x2B {
        i += 1;
    }
    let ghost body = s@.subrange(i as int, s@.len() as int);
    proof {
        assert(spec_num_body(whole) =~= body);
    }
    if i == n {
        // no digits at all
        return None;
    }
    let first_digit = i;
    let mut acc: u64 = 0;
    while i < n
        invariant
            radix == 10 || radix == 16,
            start <= first_digit <= i <= n,
            n == s@.len(),
            whole == s@.subrange(start as int, s@.len() as int),
            body == s@.subrange(first_digit as int, s@.len() as int),
            spec_num_body(whole) == body,
            all_digits(s@.subrange(first_digit as int, i as int), radix as int),
            acc == digits_val(s@.subrange(first_digit as int, i as int), radix as int),
            acc <= u32::MAX,
        decreases n - i,
    {
        let c = s[i];
        let d = match digit_val(c, radix) {
            Some(d) => d,
            None => {
                proof {
                    assert(body[i - first_digit] == c);
                    assert(!all_digits(body, radix as int));
                    assert(spec_parse_radix(whole, radix as int) is None);
                }
                return None;
            },
        };
        proof {
            assert(acc * (radix as u64) + (d as u64) <= 0xFFFF_FFFFu64 * 16 + 15) by (
            nonlinear_arith)
                requires
                    acc <= 0xFFFF_FFFFu64,
                    radix <= 16,
                    d < radix,
            ;
        }
        let next = acc * (radix as u64) + (d as u64);
        proof {
            let ext = s@.subrange(first_digit as int, i as int + 1);
            assert(ext =~= s@.subrange(first_digit as int, i as int).push(c));
            assert(ext.drop_last() =~= s@.subrange(first_digit as int, i as int));
            assert(ext.last() == c);
            assert(digits_val(ext, radix as int) == acc * radix + d);
        }
        if next > 0xFFFF_FFFF {
            // Any longer digit string is at least as large, so the whole
            // body cannot fit either (and a body with a non-digit is
            // rejected outright).
            proof {
                if all_digits(body, radix as int) {
                    assert(s@.subrange(first_digit as int, i as int + 1) =~= body.take(
                        i as int + 1 - first_digit as int,
                    ));
                    lemma_digits_val_prefix_le(
                        body,
                        radix as int,
                        i as int + 1 - first_digit as int,
                    );
                    assert(digits_val(body, radix as int) > u32::MAX);
                }
                assert(spec_parse_radix(whole, radix as int) is None);
            }
            return None;
        }
        acc = next;
        i += 1;
    }
    proof {
        assert(s@.subrange(first_digit as int, n as int) =~= body);
    }
    Some(acc as u32)
}

/// Parses a byte string as a 32-bit value: `0x`-prefixed hexadecimal or
/// plain decimal, exactly as `spec_parse_u32` reads it.
pub fn parse_u32(s: &Vec<u8>) -> (r: Option<u32>)
    ensures
        r == spec_parse_u32(s@),
{
    if s.len() >= 2 && s[0] == 0x30 && s[1] == 0x78 {
        let r = parse_radix(s, 2, 16);
        proof {
            assert(s@.subrange(2, s@.len() as int) == s@.subrange(2, s@.len() as int));
        }
        r
    } else {
        let r = parse_radix(s, 0, 10);
        proof {
            assert(s@.subrange(0, s@.len() as int) =~= s@);
        }
        r
    }
}

/// How a hex byte string decodes: an even number of hexadecimal digits, two
/// per output byte, most significant first.
pub open spec fn spec_decode_hex(s: Seq<u8>) -> Option<Seq<u8>> {
    if s.len() % 2 == 0 && all_digits(s, 16) {
        Some(
            Seq::new(
                s.len() / 2,
                |i: int| (hex_digit_val(s[2 * i]) * 16 + hex_digit_val(s[2 * i + 1])) as u8,
            ),
        )
    } else {
        None
    }
}

/// Decodes a string of hexadecimal digit pairs into bytes; rejects odd
/// lengths and non-digits.
pub fn decode_hex(s: &Vec<u8>) -> (r: Option<Vec<u8>>)
    ensures
        r matches Some(v) ==> Some(v@) == spec_decode_hex(s@),
        r is None ==> spec_decode_hex(s@) is None,
{
    let n = s.len();
    if n % 2 != 0 {
        return None;
    }
    let mut out: Vec<u8> = Vec::new();
    let mut i: usize = 0;
    while i < n
        invariant
            n == s@.len(),
            n % 2 == 0,
            i <= n,
            i % 2 == 0,
            all_digits(s@.subrange(0, i as int), 16),
            out@.len() == i / 2,
            forall|j: int|
                0 <= j < i / 2 ==> out@[j] == (hex_digit_val(s@[2 * j]) * 16 + hex_digit_val(
                    s@[2 * j + 1],
                )) as u8,
        decreases n - i,
    {
        let hi = match digit_val(s[i], 16) {
            Some(d) => d,
            None => {
                return None;
            },
        };
        let lo = match digit_val(s[i + 1], 16) {
            Some(d) => d,
            None => {
                return None;
            },
        };
        out.push((hi * 16 + lo) as u8);
        i += 2;
    }
    proof {
        assert(s@.subrange(0, n as int) =~= s@);
        assert(out@ =~= spec_decode_hex(s@).unwrap());
    }
    Some(out)
}

} // verus!
