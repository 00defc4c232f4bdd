use vstd::prelude::*;
use vstd::string::StringSliceAdditionalSpecFns;
use crate::types::ErrorCode;

verus! {

/// The value of an ASCII hexadecimal digit, either case.
pub open spec fn hex_digit(b: u8) -> Option<u8> {
    if 48 <= b <= 57 {
        Some((b - 48) as u8)
    } else if 97 <= b <= 102 {
        Some((b - 87) as u8)
    } else if 65 <= b <= 70 {
        Some((b - 55) as u8)
    } else {
        None
    }
}

fn hex_digit_exec(b: u8) -> (r: Option<u8>)
    ensures
        r == hex_digit(b),
{
    if 48 <= b && b <= 57 {
        Some(b - 48)
    } else if 97 <= b && b <= 102 {
        Some(b - 87)
    } else if 65 <= b && b <= 70 {
        Some(b - 55)
    } else {
        None
    }
}

/// The digits of a feed id written in hex: the text without a leading `0x`.
pub open spec fn feed_digits(s: Seq<u8>) -> Seq<u8> {
    if s.len() >= 2 && s[0] == 48 && s[1] == 120 {
        s.skip(2)
    } else {
        s
    }
}

/// The text is 64 hex digits, after an optional `0x`.
pub open spec fn is_feed_hex(s: Seq<u8>) -> bool {
    &&& feed_digits(s).len() == 64
    &&& forall|k: int| 0 <= k < 64 ==> (#[trigger] hex_digit(feed_digits(s)[k])) is Some
}

/// Byte `i` of the feed id that `s` writes out.
pub open spec fn feed_byte(s: Seq<u8>, i: int) -> int {
    hex_digit(feed_digits(s)[2 * i]).unwrap() * 16 + hex_digit(feed_digits(s)[2 * i + 1]).unwrap()
}

/// Reads a 32-byte oracle feed id from 64 hex digits, optionally after `0x`.
pub fn get_feed_id_from_hex(hex_string: &str) -> (r: Result<[u8; 32], ErrorCode>)
    ensures
        r is Ok <==> is_feed_hex(hex_string.spec_bytes()),
        r is Err ==> r == Err::<[u8; 32], ErrorCode>(ErrorCode::InvalidParameters),
        r matches Ok(id) ==> forall|i: int| 0 <= i < 32 ==> #[trigger] id@[i] == feed_byte(hex_string.spec_bytes(), i),
{
    let bytes = hex_string.as_bytes();
    let ghost s = hex_string.spec_bytes();
    let start: usize = if bytes.len() >= 2 && bytes[0] == 48 && bytes[1] == 120 {
        2
    } else {
        0
    };
    assert(feed_digits(s) =~= s.skip(start as int));
    if bytes.len() - start != 64 {
        return Err(ErrorCode::InvalidParameters);
    }
    let mut feed_id = [0u8; 32];
    let mut i: usize = 0;
    while i < 32
        invariant
            0 <= i <= 32,
            bytes@ == s,
            s == hex_string.spec_bytes(),
            feed_digits(s) =~= s.skip(start as int),
            bytes@.len() == start + 64,
            start <= 2,
            forall|k: int| 0 <= k < 2 * i ==> (#[trigger] hex_digit(feed_digits(s)[k])) is Some,
            forall|j: int| 0 <= j < i ==> #[trigger] feed_id@[j] == feed_byte(s, j),
        decreases 32 - i,
    {
        let hi = hex_digit_exec(bytes[start + 2 * i]);
        let lo = hex_digit_exec(bytes[start + 2 * i + 1]);
        assert(feed_digits(s)[2 * i as int] == bytes@[start + 2 * i]);
        assert(feed_digits(s)[2 * i + 1] == bytes@[start + 2 * i + 1]);
        match (hi, lo) {
            (Some(h), Some(l)) => {
                feed_id[i] = h * 16 + l;
            },
            _ => {
                assert(!is_feed_hex(s)) by {
                    if hi is None {
                        assert(hex_digit(feed_digits(s)[2 * i as int]) is None);
                    } else {
                        assert(hex_digit(feed_digits(s)[2 * i + 1]) is None);
                    }
                }
                return Err(ErrorCode::InvalidParameters);
            },
        }
        i = i + 1;
    }
    Ok(feed_id)
}

pub open spec fn pow10(n: nat) -> nat
    decreases n,
{
    if n == 0 {
        1
    } else {
        10 * pow10((n - 1) as nat)
    }
}

/// The largest power of ten that `i64` holds is `10^18`.
pub const MAX_DECIMAL_SHIFT: u32 = 18;

fn pow10_exec(n: u32) -> (r: u64)
    requires
        n <= MAX_DECIMAL_SHIFT,
    ensures
        r == pow10(n as nat),
        r <= 1_000_000_000_000_000_000,
{
    let mut r: u64 = 1;
    let mut i: u32 = 0;
    while i < n
        invariant
            0 <= i <= n <= 18,
            r == pow10(i as nat),
            r <= pow10(i as nat),
            pow10(i as nat) <= 1_000_000_000_000_000_000,
        decreases n - i,
    {
        proof {
            lemma_pow10_bound((i + 1) as nat);
        }
        r = r * 10;
        i = i + 1;
    }
    r
}

proof fn lemma_pow10_bound(n: nat)
    requires
        n <= 18,
    ensures
        1 <= pow10(n) <= 1_000_000_000_000_000_000,
{
    reveal_with_fuel(pow10, 19);
    lemma_pow10_monotone(n, 18);
}

proof fn lemma_pow10_monotone(n: nat, m: nat)
    requires
        n <= m,
    ensures
        1 <= pow10(n) <= pow10(m),
    decreases m,
{
    if m > n {
        lemma_pow10_monotone(n, (m - 1) as nat);
    } else if n > 0 {
        lemma_pow10_monotone((n - 1) as nat, (n - 1) as nat);
    }
}

/// What a price of `mantissa * 10^exponent` is in units of `10^-6` (sign dropped, rounded
/// toward zero); none where the shift is beyond `10^18` or the result beyond `u64`.
pub open spec fn scaled_price(mantissa: i64, exponent: i32) -> Option<u64> {
    let magnitude: int = if mantissa < 0 {
        -mantissa
    } else {
        mantissa as int
    };
    if exponent < -6 {
        let k = -6 - exponent;
        if k > MAX_DECIMAL_SHIFT {
            None
        } else {
            Some((magnitude / pow10(k as nat) as int) as u64)
        }
    } else {
        let k = exponent + 6;
        if k > MAX_DECIMAL_SHIFT || magnitude * pow10(k as nat) > u64::MAX {
            None
        } else {
            Some((magnitude * pow10(k as nat)) as u64)
        }
    }
}

/// Brings an oracle price given as mantissa and decimal exponent to the six decimals that
/// prices here carry. Fails with `InvalidPriceFeed` where the result cannot be represented.
pub fn scale_oracle_price(mantissa: i64, exponent: i32) -> (r: Result<u64, ErrorCode>)
    ensures
        r == (match scaled_price(mantissa, exponent) {
            Some(p) => Ok(p),
            None => Err(ErrorCode::InvalidPriceFeed),
        }),
{
    let magnitude: u64 = if mantissa < 0 {
        (-(mantissa as i128)) as u64
    } else {
        mantissa as u64
    };
    if exponent < -6 {
        if exponent < -24 {
            return Err(ErrorCode::InvalidPriceFeed);
        }
        let k = (-6 - exponent) as u32;
        let factor = pow10_exec(k);
        proof {
            lemma_pow10_bound(k as nat);
        }
        Ok(magnitude / factor)
    } else {
        if exponent > 12 {
            return Err(ErrorCode::InvalidPriceFeed);
        }
        let k = (exponent + 6) as u32;
        let factor = pow10_exec(k);
        assert(magnitude as int * factor as int <= u64::MAX as int * 1_000_000_000_000_000_000)
            by (nonlinear_arith)
            requires
                magnitude <= u64::MAX,
                factor <= 1_000_000_000_000_000_000,
        ;
        let wide = magnitude as u128 * factor as u128;
        if wide > u64::MAX as u128 {
            Err(ErrorCode::InvalidPriceFeed)
        } else {
            Ok(wide as u64)
        }
    }
}

} // verus!
