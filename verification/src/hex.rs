//! Hexadecimal text conversion: parsing with an optional `0x`/`0X`
//! prefix, and formatting as `0x` followed by exactly `16*N` lowercase
//! digits, most significant limb first.

use vstd::prelude::*;
use vstd::arithmetic::power2::*;
use vstd::arithmetic::mul::*;
use vstd::arithmetic::div_mod::*;
use crate::biguint::BigUInt;
use crate::radix::nat_of_limbs;
use vstd::slice::slice_index_get;
use vstd::string::StringSliceAdditionalSpecFns;
use vstd::string::StringExecFns;
use vstd::utf8::{encode_utf8, is_ascii_chars, is_ascii_chars_encode_utf8};

verus! {

/// Whether a byte is the ASCII code of a hexadecimal digit.
pub open spec fn is_hex_digit(b: u8) -> bool {
    (0x30 <= b && b <= 0x39) || (0x61 <= b && b <= 0x66) || (0x41 <= b && b <= 0x46)
}

/// The value of a hexadecimal digit byte.
pub open spec fn hex_digit_value(b: u8) -> nat
    recommends
        is_hex_digit(b),
{
    if 0x30 <= b && b <= 0x39 {
        (b - 0x30) as nat
    } else if 0x61 <= b && b <= 0x66 {
        (b - 0x61 + 10) as nat
    } else if 0x41 <= b && b <= 0x46 {
        (b - 0x41 + 10) as nat
    } else {
        0
    }
}

/// Whether every byte is a hexadecimal digit.
pub open spec fn all_hex_digits(s: Seq<u8>) -> bool {
    forall|i: int| 0 <= i < s.len() ==> is_hex_digit(#[trigger] s[i])
}

/// The number written by a digit sequence, most significant digit
/// first.
pub open spec fn hex_value(s: Seq<u8>) -> nat
    decreases s.len(),
{
    if s.len() == 0 {
        0
    } else {
        hex_value(s.drop_last()) * 16 + hex_digit_value(s.last())
    }
}

/// The digit run of a hexadecimal text: the bytes after one optional
/// `0x` or `0X` prefix.
pub open spec fn strip_hex_prefix(s: Seq<u8>) -> Seq<u8> {
    if s.len() >= 2 && s[0] == 0x30 && (s[1] == 0x78 || s[1] == 0x58) {
        s.skip(2)
    } else {
        s
    }
}

/// The lowercase hexadecimal digit character for a value below 16.
pub open spec fn hex_char_of(d: nat) -> char
    recommends
        d < 16,
{
    if d == 0 {
        '0'
    } else if d == 1 {
        '1'
    } else if d == 2 {
        '2'
    } else if d == 3 {
        '3'
    } else if d == 4 {
        '4'
    } else if d == 5 {
        '5'
    } else if d == 6 {
        '6'
    } else if d == 7 {
        '7'
    } else if d == 8 {
        '8'
    } else if d == 9 {
        '9'
    } else if d == 10 {
        'a'
    } else if d == 11 {
        'b'
    } else if d == 12 {
        'c'
    } else if d == 13 {
        'd'
    } else if d == 14 {
        'e'
    } else {
        'f'
    }
}

/// The `n` low hexadecimal digits of `x`, most significant first.
pub open spec fn limb_hex_chars(x: nat, n: nat) -> Seq<char>
    decreases n,
{
    if n == 0 {
        Seq::<char>::empty()
    } else {
        limb_hex_chars(x / 16, (n - 1) as nat).push(hex_char_of(x % 16))
    }
}

/// The hexadecimal digits of the `cnt` most significant limbs of `s`,
/// most significant limb first, 16 digits per limb.
pub open spec fn limbs_hex_chars(s: Seq<u64>, cnt: nat) -> Seq<char>
    recommends
        cnt <= s.len(),
    decreases cnt,
{
    if cnt == 0 {
        Seq::<char>::empty()
    } else {
        limbs_hex_chars(s, (cnt - 1) as nat) + limb_hex_chars(
            s[s.len() - cnt] as nat,
            16,
        )
    }
}

/// The full rendering of a limb sequence: `0x`, then every limb.
pub open spec fn hex_string_of(s: Seq<u64>) -> Seq<char> {
    seq!['0', 'x'] + limbs_hex_chars(s, s.len())
}

/// The bytes of an ASCII character sequence, character by character.
pub open spec fn ascii_bytes_of(cs: Seq<char>) -> Seq<u8> {
    Seq::new(cs.len(), |i: int| cs[i] as u8)
}

/// The character of a digit value is an ASCII hexadecimal digit that
/// reads back as the same value.
proof fn lemma_hex_char_digit(d: nat)
    requires
        d < 16,
    ensures
        is_hex_digit(hex_char_of(d) as u8),
        hex_digit_value(hex_char_of(d) as u8) == d,
        '\0' <= hex_char_of(d) <= '\u{7f}',
{
}

/// Digit runs concatenate by scaling the first run up by the width of
/// the second.
proof fn lemma_hex_value_append(a: Seq<u8>, b: Seq<u8>)
    ensures
        hex_value(a + b) == hex_value(a) * pow2(4 * b.len()) + hex_value(b),
    decreases b.len(),
{
    lemma2_to64();
    if b.len() == 0 {
        assert(a + b =~= a);
        assert(pow2(0) == 1);
        assert(hex_value(a) * 1 == hex_value(a)) by {
            lemma_mul_basics(hex_value(a) as int);
        }
    } else {
        assert((a + b).drop_last() =~= a + b.drop_last());
        assert((a + b).last() == b.last());
        lemma_hex_value_append(a, b.drop_last());
        let h = hex_value(a) as int;
        let p = pow2(4 * (b.len() - 1) as nat) as int;
        let v = hex_value(b.drop_last()) as int;
        assert((h * p + v) * 16 == (h * p) * 16 + v * 16) by {
            lemma_mul_is_distributive_add_other_way(16, h * p, v);
        }
        assert((h * p) * 16 == h * (p * 16)) by {
            lemma_mul_is_associative(h, p, 16);
        }
        assert(p * 16 == pow2(4 * b.len())) by {
            assert(pow2(4) == 16);
            lemma_pow2_adds(4 * (b.len() - 1) as nat, 4);
        }
    }
}

/// A limb rendering is ASCII hexadecimal text whose value is the limb,
/// reduced to the rendered width.
proof fn lemma_limb_chars_value(x: nat, n: nat)
    ensures
        limb_hex_chars(x, n).len() == n,
        is_ascii_chars(limb_hex_chars(x, n)),
        all_hex_digits(ascii_bytes_of(limb_hex_chars(x, n))),
        hex_value(ascii_bytes_of(limb_hex_chars(x, n))) == x % pow2(4 * n),
    decreases n,
{
    lemma2_to64();
    lemma_limb_chars_len(x, n);
    if n == 0 {
        assert(pow2(0) == 1);
        assert(ascii_bytes_of(limb_hex_chars(x, n)) =~= Seq::<u8>::empty());
    } else {
        lemma_limb_chars_value(x / 16, (n - 1) as nat);
        let cs = limb_hex_chars(x / 16, (n - 1) as nat);
        let c = hex_char_of(x % 16);
        lemma_hex_char_digit(x % 16);
        let full = ascii_bytes_of(limb_hex_chars(x, n));
        assert(full =~= ascii_bytes_of(cs).push(c as u8));
        assert(full.drop_last() =~= ascii_bytes_of(cs));
        assert(full.last() == c as u8);
        assert(hex_value(full) == hex_value(ascii_bytes_of(cs)) * 16 + (x % 16));
        let z = pow2(4 * (n - 1) as nat) as int;
        let xi = x as int;
        assert(xi % (16 * z) == 16 * (xi / 16 % z) + xi % 16) by {
            lemma_pow2_pos(4 * (n - 1) as nat);
            lemma_breakdown(xi, 16, z);
        }
        assert(16 * z == pow2(4 * n)) by {
            assert(pow2(4) == 16);
            lemma_pow2_adds(4, 4 * (n - 1) as nat);
        }
        assert((xi / 16 % z) * 16 == 16 * (xi / 16 % z)) by {
            lemma_mul_is_commutative(xi / 16 % z, 16);
        }
        assert(xi / 16 == (x / 16) as int && xi % 16 == (x % 16) as int && xi / 16 % z == ((x / 16)
            as int) % z);
    }
}

/// The rendering of the `cnt` most significant limbs is ASCII
/// hexadecimal text whose value is the value of those limbs.
proof fn lemma_limbs_chars_value(s: Seq<u64>, cnt: nat)
    requires
        cnt <= s.len(),
    ensures
        limbs_hex_chars(s, cnt).len() == 16 * cnt,
        is_ascii_chars(limbs_hex_chars(s, cnt)),
        all_hex_digits(ascii_bytes_of(limbs_hex_chars(s, cnt))),
        hex_value(ascii_bytes_of(limbs_hex_chars(s, cnt))) == nat_of_limbs(
            s.skip(s.len() - cnt),
        ),
    decreases cnt,
{
    lemma2_to64();
    if cnt == 0 {
        assert(s.skip(s.len() as int) =~= Seq::<u64>::empty());
        assert(ascii_bytes_of(limbs_hex_chars(s, 0)) =~= Seq::<u8>::empty());
    } else {
        lemma_limbs_chars_value(s, (cnt - 1) as nat);
        let k = s.len() - cnt;
        let x = s[k] as nat;
        lemma_limb_chars_value(x, 16);
        let a = limbs_hex_chars(s, (cnt - 1) as nat);
        let b = limb_hex_chars(x, 16);
        assert(limbs_hex_chars(s, cnt) == a + b);
        assert(ascii_bytes_of(a + b) =~= ascii_bytes_of(a) + ascii_bytes_of(b));
        lemma_hex_value_append(ascii_bytes_of(a), ascii_bytes_of(b));
        assert(ascii_bytes_of(b).len() == 16);
        assert(x % pow2(64) == x) by {
            lemma_small_mod(x, pow2(64));
        }
        // one limb peeled off the front of the remaining suffix
        let tail = s.skip(k);
        assert(tail.len() == cnt);
        assert(tail[0] == s[k]);
        assert(tail.drop_first() =~= s.skip(k + 1));
        assert(nat_of_limbs(tail) == x + nat_of_limbs(s.skip(k + 1)) * pow2(64));
        assert(forall|i: int|
            0 <= i < (a + b).len() ==> (a + b)[i] == (if i < a.len() {
                a[i]
            } else {
                b[i - a.len()]
            }));
        assert(is_ascii_chars(a + b)) by {
            assert forall|i| 0 <= i < (a + b).len() implies '\0' <= #[trigger] (a + b)[i]
                <= '\u{7f}' by {
                if i < a.len() {
                    assert((a + b)[i] == a[i]);
                } else {
                    assert((a + b)[i] == b[i - a.len()]);
                }
            }
        }
    }
}

/// Parse/format round trip: the rendering of any limb sequence is a
/// well-formed hexadecimal text (a `0x` prefix and exactly 16 digits
/// per limb, all of them hexadecimal) whose digit run reads back as
/// exactly the number the limbs stand for.
pub proof fn lemma_hex_format_parses_back(s: Seq<u64>)
    ensures
        hex_string_of(s).len() == 2 + 16 * s.len(),
        is_ascii_chars(hex_string_of(s)),
        strip_hex_prefix(encode_utf8(hex_string_of(s))).len() == 16 * s.len(),
        all_hex_digits(strip_hex_prefix(encode_utf8(hex_string_of(s)))),
        hex_value(strip_hex_prefix(encode_utf8(hex_string_of(s)))) == nat_of_limbs(s),
{
    let pre = seq!['0', 'x'];
    let body = limbs_hex_chars(s, s.len());
    let chars = hex_string_of(s);
    lemma_limbs_chars_value(s, s.len());
    assert(s.skip(0) =~= s);
    assert(chars.len() == 2 + 16 * s.len());
    assert(is_ascii_chars(chars)) by {
        assert forall|i| 0 <= i < chars.len() implies '\0' <= #[trigger] chars[i]
            <= '\u{7f}' by {
            if i >= 2 {
                assert(chars[i] == body[i - 2]);
            } else {
                assert(chars[0] == '0' && chars[1] == 'x');
            }
        }
    }
    is_ascii_chars_encode_utf8(chars);
    let bytes = encode_utf8(chars);
    assert(bytes.len() == chars.len());
    assert(bytes[0] == '0' as u8 && bytes[1] == 'x' as u8);
    assert('0' as u8 == 0x30 && 'x' as u8 == 0x78);
    let stripped = strip_hex_prefix(bytes);
    assert(stripped == bytes.skip(2));
    assert(stripped =~= ascii_bytes_of(body)) by {
        assert forall|i: int| 0 <= i < stripped.len() implies stripped[i] == ascii_bytes_of(
            body,
        )[i] by {
            assert(stripped[i] == bytes[i + 2]);
            assert(bytes[i + 2] == chars[i + 2] as u8);
            assert(chars[i + 2] == body[i]);
        }
    }
}

/// Malformed hexadecimal text: a byte that is no hexadecimal digit, or
/// more digits than the width holds.
#[derive(Clone, Copy, Debug, PartialEq, Eq)]
pub struct ParseError;

/// A digit run never reaches `2^(4*len)`.
proof fn lemma_hex_value_bound(s: Seq<u8>)
    ensures
        hex_value(s) < pow2(4 * s.len()),
    decreases s.len(),
{
    lemma2_to64();
    if s.len() == 0 {
    } else {
        lemma_hex_value_bound(s.drop_last());
        let h = hex_value(s.drop_last());
        let p = pow2(4 * (s.len() - 1) as nat);
        assert(hex_digit_value(s.last()) < 16);
        assert(h * 16 <= (p - 1) * 16) by {
            lemma_mul_inequality(h as int, p - 1, 16);
        }
        assert((p - 1) * 16 == p * 16 - 16) by {
            lemma_mul_is_distributive_sub_other_way(16, p as int, 1);
        }
        assert(p * 16 == pow2(4 * s.len())) by {
            lemma_pow2_adds(4 * (s.len() - 1) as nat, 4);
        }
    }
}

/// A digit sequence of fixed width renders each of its positions.
proof fn lemma_limb_chars_len(x: nat, n: nat)
    ensures
        limb_hex_chars(x, n).len() == n,
    decreases n,
{
    if n > 0 {
        lemma_limb_chars_len(x / 16, (n - 1) as nat);
    }
}

/// The character at position `i` of a limb rendering is the digit of
/// weight `16^(n-1-i)`.
proof fn lemma_limb_chars_index(x: nat, n: nat, i: int)
    requires
        0 <= i < n,
    ensures
        limb_hex_chars(x, n).len() == n,
        limb_hex_chars(x, n)[i] == hex_char_of((x / pow2((4 * (n - 1 - i)) as nat)) % 16),
    decreases n,
{
    lemma_limb_chars_len(x, n);
    lemma_limb_chars_len(x / 16, (n - 1) as nat);
    lemma2_to64();
    if i == n - 1 {
        assert(pow2(0) == 1);
        assert(x / 1 == x) by {
            lemma_div_basics(x as int);
        }
    } else {
        lemma_limb_chars_index(x / 16, (n - 1) as nat, i);
        let a = (4 * (n - 2 - i)) as nat;
        assert((x / 16) / pow2(a) == x / (16 * pow2(a))) by {
            lemma_pow2_pos(a);
            lemma_div_denominator(x as int, 16, pow2(a) as int);
        }
        assert(16 * pow2(a) == pow2((4 * (n - 1 - i)) as nat)) by {
            assert(pow2(4) == 16);
            lemma_pow2_adds(4, a);
        }
    }
}

/// Appends one lowercase hexadecimal digit character.
fn push_hex_char(out: &mut String, d: u64)
    requires
        d < 16,
    ensures
        final(out)@ == old(out)@.push(hex_char_of(d as nat)),
{
    let ghost base = out@;
    if d == 0 {
        out.append("0");
        proof {
            reveal_strlit("0");
            assert(out@ =~= base.push(hex_char_of(d as nat)));
        }
    } else if d == 1 {
        out.append("1");
        proof {
            reveal_strlit("1");
            assert(out@ =~= base.push(hex_char_of(d as nat)));
        }
    } else if d == 2 {
        out.append("2");
        proof {
            reveal_strlit("2");
            assert(out@ =~= base.push(hex_char_of(d as nat)));
        }
    } else if d == 3 {
        out.append("3");
        proof {
            reveal_strlit("3");
            assert(out@ =~= base.push(hex_char_of(d as nat)));
        }
    } else if d == 4 {
        out.append("4");
        proof {
            reveal_strlit("4");
            assert(out@ =~= base.push(hex_char_of(d as nat)));
        }
    } else if d == 5 {
        out.append("5");
        proof {
            reveal_strlit("5");
            assert(out@ =~= base.push(hex_char_of(d as nat)));
        }
    } else if d == 6 {
        out.append("6");
        proof {
            reveal_strlit("6");
            assert(out@ =~= base.push(hex_char_of(d as nat)));
        }
    } else if d == 7 {
        out.append("7");
        proof {
            reveal_strlit("7");
            assert(out@ =~= base.push(hex_char_of(d as nat)));
        }
    } else if d == 8 {
        out.append("8");
        proof {
            reveal_strlit("8");
            assert(out@ =~= base.push(hex_char_of(d as nat)));
        }
    } else if d == 9 {
        out.append("9");
        proof {
            reveal_strlit("9");
            assert(out@ =~= base.push(hex_char_of(d as nat)));
        }
    } else if d == 10 {
        out.append("a");
        proof {
            reveal_strlit("a");
            assert(out@ =~= base.push(hex_char_of(d as nat)));
        }
    } else if d == 11 {
        out.append("b");
        proof {
            reveal_strlit("b");
            assert(out@ =~= base.push(hex_char_of(d as nat)));
        }
    } else if d == 12 {
        out.append("c");
        proof {
            reveal_strlit("c");
            assert(out@ =~= base.push(hex_char_of(d as nat)));
        }
    } else if d == 13 {
        out.append("d");
        proof {
            reveal_strlit("d");
            assert(out@ =~= base.push(hex_char_of(d as nat)));
        }
    } else if d == 14 {
        out.append("e");
        proof {
            reveal_strlit("e");
            assert(out@ =~= base.push(hex_char_of(d as nat)));
        }
    } else {
        out.append("f");
        proof {
            reveal_strlit("f");
            assert(out@ =~= base.push(hex_char_of(d as nat)));
        }
    }
}

/// Appends the 16 hexadecimal digits of one limb, most significant
/// first.
fn push_limb_hex(out: &mut String, x: u64)
    ensures
        final(out)@ == old(out)@ + limb_hex_chars(x as nat, 16),
{
    let ghost base = out@;
    let mut p: u64 = 0x1000000000000000;
    let mut j: usize = 0;
    proof {
        lemma2_to64();
        lemma2_to64_rest();
        assert(p as nat == pow2(60));
    }
    while j < 16
        invariant
            j <= 16,
            j < 16 ==> p as nat == pow2((4 * (15 - j)) as nat),
            out@.len() == base.len() + j,
            forall|t: int| 0 <= t < base.len() ==> #[trigger] out@[t] == base[t],
            forall|t: int|
                0 <= t < j ==> #[trigger] out@[base.len() + t] == hex_char_of(
                    ((x as nat) / pow2((4 * (15 - t)) as nat)) % 16,
                ),
        decreases 16 - j,
    {
        proof {
            lemma_pow2_pos((4 * (15 - j)) as nat);
        }
        let d = (x / p) % 16;
        push_hex_char(out, d);
        proof {
            assert((x / p) as nat == (x as nat) / pow2((4 * (15 - j)) as nat));
            assert(d as nat == ((x as nat) / pow2((4 * (15 - j)) as nat)) % 16);
        }
        if j < 15 {
            let ghost a = (4 * (15 - (j + 1))) as nat;
            proof {
                lemma2_to64();
                assert(pow2(4) == 16);
                assert(p as nat == 16 * pow2(a)) by {
                    lemma_pow2_adds(4, a);
                }
                assert((16 * pow2(a)) / 16 == pow2(a)) by {
                    lemma_div_multiples_vanish(pow2(a) as int, 16);
                }
            }
            p = p / 16;
        }
        j = j + 1;
    }
    proof {
        assert forall|t: int| 0 <= t < 16 implies out@[base.len() + t] == limb_hex_chars(
            x as nat,
            16,
        )[t] by {
            lemma_limb_chars_index(x as nat, 16, t);
        }
        lemma_limb_chars_len(x as nat, 16);
        assert(out@ =~= base + limb_hex_chars(x as nat, 16));
    }
}

impl<const N: usize> BigUInt<N> {
    /// Parses hexadecimal text: an optional `0x`/`0X` prefix, then up
    /// to `16*N` hexadecimal digits, decoded most significant digit
    /// first. The empty string parses to zero; a non-digit byte or a
    /// run longer than the width holds is a format error.
    pub fn from_hex_str(s: &str) -> (r: Result<Self, ParseError>)
        ensures
            r is Ok <==> (all_hex_digits(strip_hex_prefix(s.spec_bytes()))
                && strip_hex_prefix(s.spec_bytes()).len() <= 16 * (N as int)),
            r matches Ok(v) ==> v.as_nat() == hex_value(strip_hex_prefix(s.spec_bytes())),
    {
        let bytes = s.as_bytes();
        let ghost digits = strip_hex_prefix(s.spec_bytes());
        let start: usize = if bytes.len() >= 2 && *slice_index_get(bytes, 0) == 0x30 && (
        *slice_index_get(bytes, 1) == 0x78 || *slice_index_get(bytes, 1) == 0x58) {
            2
        } else {
            0
        };
        proof {
            assert(digits =~= bytes@.skip(start as int));
        }
        let length = bytes.len() - start;
        let fits: bool = match 16usize.checked_mul(N) {
            Some(limit) => length <= limit,
            None => true,
        };
        if !fits {
            return Err(ParseError);
        }
        let mut value = BigUInt::<N>::new();
        let mut i: usize = start;
        proof {
            assert(digits.take(0) =~= Seq::<u8>::empty());
            lemma2_to64();
        }
        while i < bytes.len()
            invariant
                start <= i <= bytes@.len(),
                digits == strip_hex_prefix(s.spec_bytes()),
                digits == bytes@.skip(start as int),
                bytes@ == s.spec_bytes(),
                digits.len() <= 16 * (N as int),
                all_hex_digits(digits.take(i - start)),
                value.as_nat() == hex_value(digits.take(i - start)),
            decreases bytes@.len() - i,
        {
            let b = *slice_index_get(bytes, i);
            let d: u64 = if 0x30 <= b && b <= 0x39 {
                (b - 0x30) as u64
            } else if 0x61 <= b && b <= 0x66 {
                (b - 0x61 + 10) as u64
            } else if 0x41 <= b && b <= 0x46 {
                (b - 0x41 + 10) as u64
            } else {
                proof {
                    assert(digits[i - start] == b);
                    assert(!is_hex_digit(b));
                    assert(!all_hex_digits(digits));
                }
                return Err(ParseError);
            };
            let ghost j = i - start;
            let (value2, carry) = value.carrying_mul_by_u64(16, d);
            proof {
                let t = digits.take(j + 1);
                assert(t.drop_last() =~= digits.take(j));
                assert(t.last() == digits[j] && digits[j] == b);
                assert(hex_value(t) == hex_value(digits.take(j)) * 16 + hex_digit_value(b));
                assert(hex_digit_value(b) == d);
                // no overflow: the value stays under 2^(4*(j+1)) <= 2^(64N)
                lemma_hex_value_bound(digits.take(j));
                let p = pow2(4 * j as nat);
                assert(hex_value(digits.take(j)) * 16 <= (p - 1) * 16) by {
                    lemma_mul_inequality(hex_value(digits.take(j)) as int, p - 1, 16);
                }
                assert((p - 1) * 16 == p * 16 - 16) by {
                    lemma_mul_is_distributive_sub_other_way(16, p as int, 1);
                }
                assert(p * 16 == pow2(4 * (j + 1) as nat)) by {
                    lemma2_to64();
                    assert(pow2(4) == 16);
                    lemma_pow2_adds(4 * j as nat, 4);
                }
                assert(pow2(4 * (j + 1) as nat) <= Self::modulus()) by {
                    if (4 * (j + 1) as nat) < (64 * N as nat) {
                        lemma_pow2_strictly_increases(4 * (j + 1) as nat, 64 * N as nat);
                    }
                }
                // hence the carry limb is zero
                assert(value2.as_nat() + carry as nat * Self::modulus() == value.as_nat() * 16
                    + d as nat);
                assert(value.as_nat() * 16 + d < Self::modulus());
                if carry >= 1 {
                    assert(Self::modulus() <= carry as nat * Self::modulus()) by {
                        lemma_mul_inequality(1, carry as int, Self::modulus() as int);
                    }
                    assert(false);
                }
                assert(carry == 0);
                assert(value2.as_nat() + 0 * Self::modulus() == value.as_nat() * 16 + d as nat);
                assert(value2.as_nat() == hex_value(digits.take(j + 1)));
                assert(all_hex_digits(digits.take(j + 1)));
            }
            value = value2;
            i = i + 1;
        }
        proof {
            assert(digits.take(digits.len() as int) =~= digits);
        }
        Ok(value)
    }

    /// Parse/format round trip at the type level: a value whose number
    /// was read back from this value's rendering has exactly the same
    /// limbs.
    pub proof fn lemma_parse_format_round_trip(self, other: Self)
        requires
            other.as_nat() == hex_value(
                strip_hex_prefix(encode_utf8(hex_string_of(self.data@))),
            ),
        ensures
            other.data@ == self.data@,
    {
        lemma_hex_format_parses_back(self.data@);
        other.lemma_canonical(self);
    }

    /// Renders the value as `0x` followed by exactly `16*N` lowercase
    /// hexadecimal digits, most significant limb first, with no
    /// trimming of leading zeros.
    pub fn to_hex_string(&self) -> (r: String)
        ensures
            r@ == hex_string_of(self.data@),
            r@.len() == 2 + 16 * (N as int),
    {
        let mut out = String::new();
        out.append("0x");
        proof {
            reveal_strlit("0x");
            assert(limbs_hex_chars(self.data@, 0) =~= Seq::<char>::empty());
            assert(out@ =~= seq!['0', 'x'] + limbs_hex_chars(self.data@, 0));
        }
        let mut idx: usize = 0;
        while idx < N
            invariant
                idx <= N,
                out@ == seq!['0', 'x'] + limbs_hex_chars(self.data@, idx as nat),
                out@.len() == 2 + 16 * idx,
            decreases N - idx,
        {
            let limb = self.data[N - 1 - idx];
            push_limb_hex(&mut out, limb);
            proof {
                assert(self.data@.len() - (idx + 1) == N - 1 - idx);
                assert(limbs_hex_chars(self.data@, (idx + 1) as nat) == limbs_hex_chars(
                    self.data@,
                    idx as nat,
                ) + limb_hex_chars(self.data@[N - 1 - idx] as nat, 16));
                assert(out@ =~= seq!['0', 'x'] + limbs_hex_chars(self.data@, (idx + 1) as nat));
                lemma_limb_chars_len(limb as nat, 16);
            }
            idx = idx + 1;
        }
        out
    }
}

} // verus!
