//! The unsigned varint type and its encode/decode pair.

use vstd::prelude::*;

verus! {

/// Maximum number of bytes in a binary representation for a `UVarInt`.
///
/// See the multiformat specification for details.
pub const MAX_UVARINT_NUM_BYTES: usize = 9;

/// Smallest value whose minimal encoding needs more than
/// `MAX_UVARINT_NUM_BYTES` bytes: `2^63`, since 9 bytes carry 63 payload bits.
pub const ENCODING_LIMIT: u128 = 0x8000_0000_0000_0000;

/// `128^e`: the weight of the `e`-th 7-bit chunk of an encoding.
pub open spec fn pow128(e: nat) -> nat
    decreases e,
{
    if e == 0 {
        1
    } else {
        128 * pow128((e - 1) as nat)
    }
}

/// The wire encoding of `n`: 7-bit chunks, least significant first, the
/// continuation bit (0x80) set on every byte but the last.
pub open spec fn encode_spec(n: nat) -> Seq<u8>
    decreases n,
{
    if n < 128 {
        seq![n as u8]
    } else {
        seq![((n % 128) + 128) as u8] + encode_spec(n / 128)
    }
}

/// Whether some byte of `s` has its continuation bit clear, i.e. whether a
/// scan of `s` ever reaches a terminating byte.
pub open spec fn has_terminator(s: Seq<u8>) -> bool
    decreases s.len(),
{
    if s.len() == 0 {
        false
    } else if s[0] < 128 {
        true
    } else {
        has_terminator(s.skip(1))
    }
}

/// The value accumulated by scanning `s`: 7 low bits per byte, stopping at
/// the first byte whose continuation bit is clear (later bytes are ignored).
pub open spec fn raw_decode(s: Seq<u8>) -> nat
    decreases s.len(),
{
    if s.len() == 0 {
        0
    } else if s[0] < 128 {
        s[0] as nat
    } else {
        (s[0] - 128) as nat + 128 * raw_decode(s.skip(1))
    }
}

/// What decoding `s` yields: the scanned value if a terminating byte exists,
/// and zero for a non-terminated (or empty) input, which is accepted
/// leniently rather than rejected.
pub open spec fn decode_spec(s: Seq<u8>) -> nat {
    if has_terminator(s) {
        raw_decode(s)
    } else {
        0
    }
}

/// `pow128` grows with its exponent.
proof fn lemma_pow128_monotone(a: nat, b: nat)
    requires
        a <= b,
    ensures
        pow128(a) <= pow128(b),
    decreases b,
{
    if a < b {
        lemma_pow128_monotone(a, (b - 1) as nat);
    }
}

/// Nine 7-bit chunks carry exactly 63 bits of payload.
proof fn lemma_pow128_nine()
    ensures
        pow128(9) == ENCODING_LIMIT,
{
    reveal_with_fuel(pow128, 10);
}

/// Encode then decode is the identity: the encoding of `n` always ends in a
/// terminating byte, and scanning it back yields `n` again.
pub proof fn lemma_round_trip(n: nat)
    ensures
        has_terminator(encode_spec(n)),
        decode_spec(encode_spec(n)) == n,
    decreases n,
{
    let s = encode_spec(n);
    if n < 128 {
        assert(s[0] == n as u8);
    } else {
        lemma_round_trip(n / 128);
        assert(s.skip(1) =~= encode_spec(n / 128));
        assert(s[0] == ((n % 128) + 128) as u8);
    }
}

/// The encoding of a value is unique: distinct values never share one.
pub proof fn lemma_encode_injective(a: nat, b: nat)
    requires
        encode_spec(a) == encode_spec(b),
    ensures
        a == b,
{
    lemma_round_trip(a);
    lemma_round_trip(b);
}

/// A well-formed wire encoding: at least one byte, the continuation bit set
/// on every byte except the last, and clear on the last.
pub open spec fn is_wire_encoding(s: Seq<u8>) -> bool {
    &&& s.len() >= 1
    &&& s.last() < 128
    &&& forall|i: int| 0 <= i < s.len() - 1 ==> s[i] >= 128
}

/// Minimality: no wire encoding of a value is shorter than the one
/// `encode_spec` produces, so the encoder never emits a redundant trailing
/// zero chunk.
pub proof fn lemma_minimality(s: Seq<u8>)
    requires
        is_wire_encoding(s),
    ensures
        encode_spec(raw_decode(s)).len() <= s.len(),
    decreases s.len(),
{
    if s.len() > 1 {
        assert(s[0] >= 128);
        let t = s.skip(1);
        assert(t.last() == s.last());
        assert forall|i: int| 0 <= i < t.len() - 1 implies t[i] >= 128 by {
            assert(t[i] == s[i + 1]);
        }
        lemma_minimality(t);
        let m = raw_decode(t);
        let n = raw_decode(s);
        assert(n == (s[0] - 128) + 128 * m);
        if n >= 128 {
            assert(n as int / 128 == m) by (nonlinear_arith)
                requires
                    n == (s[0] - 128) + 128 * m,
                    0 <= (s[0] - 128) < 128,
                    0 <= m,
            ;
        }
    }
}

/// An encoding fits in `e` chunks exactly when the value is below `128^e`.
pub proof fn lemma_encode_len(n: nat, e: nat)
    requires
        e >= 1,
    ensures
        encode_spec(n).len() <= e <==> n < pow128(e),
    decreases n,
{
    reveal_with_fuel(pow128, 2);
    if n < 128 {
        lemma_pow128_monotone(1, e);
    } else {
        assert(encode_spec(n / 128).len() >= 1) by {
            reveal_with_fuel(encode_spec, 2);
        }
        if e == 1 {
            lemma_pow128_monotone(0, 1);
        } else {
            lemma_encode_len(n / 128, (e - 1) as nat);
            let p = pow128((e - 1) as nat);
            lemma_pow128_monotone(0, (e - 1) as nat);
            assert(n as int / 128 < p <==> n < 128 * p) by (nonlinear_arith)
                requires
                    1 <= p,
                    128 <= n,
                    0 <= n % 128 < 128,
                    n == 128 * (n as int / 128) + n % 128,
            ;
        }
    }
}

/// The nine-byte ceiling in terms of values: a minimal encoding stays within
/// `MAX_UVARINT_NUM_BYTES` chunks exactly for values below `2^63`.
pub proof fn lemma_encode_len_limit(n: nat)
    ensures
        encode_spec(n).len() <= MAX_UVARINT_NUM_BYTES <==> n < ENCODING_LIMIT,
{
    lemma_encode_len(n, MAX_UVARINT_NUM_BYTES as nat);
    lemma_pow128_nine();
}

/// The decimal digit character for `d`, which must be below ten.
pub open spec fn dec_digit_char(d: nat) -> char {
    if d == 0 {
        '0'
    } else if d == 1 {
        '1'
    } else if d == 2 {
        '2'
    } else if d == 3 {
        '3'
    } else if d == 4 {
        '4'
    } else if d == 5 {
        '5'
    } else if d == 6 {
        '6'
    } else if d == 7 {
        '7'
    } else if d == 8 {
        '8'
    } else {
        '9'
    }
}

/// The decimal rendering of `n`, most significant digit first, with no
/// leading zeroes (zero itself renders as a single `'0'`).
pub open spec fn dec_str(n: nat) -> Seq<char>
    decreases n,
{
    if n < 10 {
        seq![dec_digit_char(n)]
    } else {
        dec_str(n / 10) + seq![dec_digit_char(n % 10)]
    }
}

/// The canonical human-readable rendering of a varint holding `n`: the
/// prefix `uv` followed by `n` in decimal.
pub open spec fn render_spec(n: nat) -> Seq<char> {
    seq!['u', 'v'] + dec_str(n)
}

/// The digit characters of `ds` read back to front: what remains to be
/// printed once the low-order digits in `ds` have been extracted.
spec fn rev_digit_chars(ds: Seq<u8>) -> Seq<char>
    decreases ds.len(),
{
    if ds.len() == 0 {
        Seq::empty()
    } else {
        seq![dec_digit_char(ds.last() as nat)] + rev_digit_chars(ds.drop_last())
    }
}

proof fn lemma_rev_digit_chars_len(ds: Seq<u8>)
    ensures
        rev_digit_chars(ds).len() == ds.len(),
    decreases ds.len(),
{
    if ds.len() > 0 {
        lemma_rev_digit_chars_len(ds.drop_last());
    }
}

proof fn lemma_rev_digit_chars_index(ds: Seq<u8>, k: int)
    requires
        0 <= k < ds.len(),
    ensures
        rev_digit_chars(ds).len() == ds.len(),
        rev_digit_chars(ds)[k] == dec_digit_char(ds[ds.len() - 1 - k] as nat),
    decreases ds.len(),
{
    lemma_rev_digit_chars_len(ds);
    if k > 0 {
        lemma_rev_digit_chars_index(ds.drop_last(), k - 1);
    }
}

/// Rendering is a function of the held value alone, so rendering the same
/// value twice yields character-for-character identical output.
pub proof fn lemma_render_deterministic(a: Seq<char>, b: Seq<char>, n: nat)
    requires
        a == render_spec(n),
        b == render_spec(n),
    ensures
        a == b,
{
}

/// Represents an encoding failure.
///
/// Returned whenever a function performs encoding of a `UVarInt` type.
#[derive(Debug, PartialEq, Eq, Structural)]
pub enum EncodeError {
    OutOfRange,
}

impl EncodeError {
    /// The canonical human-readable description of this failure.
    pub fn message(&self) -> (r: String)
        ensures
            r@ == "Value overflows maximum output size"@,
    {
        String::from_str("Value overflows maximum output size")
    }
}

/// Represents a decoding failure.
///
/// Returned whenever a function performs decoding of a `UVarInt` type.
#[derive(Debug, PartialEq, Eq, Structural)]
pub enum DecodeError {
    OutOfRange,
}

impl DecodeError {
    /// The canonical human-readable description of this failure.
    pub fn message(&self) -> (r: String)
        ensures
            r@ == "Input size overflows native representation"@,
    {
        String::from_str("Input size overflows native representation")
    }
}

/// The one-character string for a single decimal digit.
fn digit_str(d: u8) -> (r: &'static str)
    requires
        d < 10,
    ensures
        r@ == seq![dec_digit_char(d as nat)],
{
    proof {
        reveal_strlit("0");
        reveal_strlit("1");
        reveal_strlit("2");
        reveal_strlit("3");
        reveal_strlit("4");
        reveal_strlit("5");
        reveal_strlit("6");
        reveal_strlit("7");
        reveal_strlit("8");
        reveal_strlit("9");
        assert("0"@ =~= seq!['0']);
        assert("1"@ =~= seq!['1']);
        assert("2"@ =~= seq!['2']);
        assert("3"@ =~= seq!['3']);
        assert("4"@ =~= seq!['4']);
        assert("5"@ =~= seq!['5']);
        assert("6"@ =~= seq!['6']);
        assert("7"@ =~= seq!['7']);
        assert("8"@ =~= seq!['8']);
        assert("9"@ =~= seq!['9']);
    }
    if d == 0 {
        "0"
    } else if d == 1 {
        "1"
    } else if d == 2 {
        "2"
    } else if d == 3 {
        "3"
    } else if d == 4 {
        "4"
    } else if d == 5 {
        "5"
    } else if d == 6 {
        "6"
    } else if d == 7 {
        "7"
    } else if d == 8 {
        "8"
    } else {
        "9"
    }
}

/// Represents an unsigned variable integer type, compliant with the
/// multiformat of the same name.
///
/// The struct simply contains the underlying native integer type representing
/// the type.
#[derive(Copy, Clone, Debug, PartialEq, Eq, Structural, Hash)]
pub struct UVarInt {
    num: u128,
}

impl UVarInt {
    /// The integer this varint stands for.
    pub closed spec fn value(self) -> u128 {
        self.num
    }

    /// Constructs a new `UVarInt` from a native unsigned integer type.
    pub fn new(num: u128) -> (r: Self)
        ensures
            r.value() == num,
    {
        UVarInt { num }
    }

    /// Encodes the `UVarInt` type into its binary representation (as a
    /// `Vec<u8>`).
    ///
    /// # Errors #
    ///
    /// Returns `EncodeError::OutOfRange` if the stored value would overflow
    /// the maximum number of bytes of an unsigned varint
    /// (`MAX_UVARINT_NUM_BYTES`).
    pub fn to_bytes(&self) -> (r: Result<Vec<u8>, EncodeError>)
        ensures
            r is Ok <==> self.value() < ENCODING_LIMIT,
            r matches Ok(bytes) ==> bytes@ == encode_spec(self.value() as nat),
            r matches Err(e) ==> e == EncodeError::OutOfRange,
    {
        if self.num >= ENCODING_LIMIT {
            return Err(EncodeError::OutOfRange);
        }
        let mut bytes: Vec<u8> = Vec::new();
        let mut n: u128 = self.num;
        while n >= 128
            invariant
                encode_spec(self.value() as nat) == bytes@ + encode_spec(n as nat),
            decreases n,
        {
            let chunk: u128 = (n % 128) + 128;
            bytes.push(chunk as u8);
            proof {
                assert(encode_spec(self.value() as nat) =~= bytes@ + encode_spec(
                    n as nat / 128,
                ));
            }
            n = n / 128;
        }
        bytes.push(n as u8);
        proof {
            assert(bytes@ =~= encode_spec(self.value() as nat));
        }
        Ok(bytes)
    }

    /// Decodes a sequence of bytes (as a `Vec<u8>`) into a valid `UVarInt`.
    ///
    /// Scanning stops at the first byte whose continuation bit is clear;
    /// trailing bytes after it are ignored, and an input with no such byte
    /// (the empty input included) decodes leniently to zero.
    ///
    /// # Errors #
    ///
    /// Returns `DecodeError::OutOfRange` if the number of provided bytes
    /// exceeds `MAX_UVARINT_NUM_BYTES`.
    pub fn from_bytes(bytes: Vec<u8>) -> (r: Result<Self, DecodeError>)
        ensures
            r is Ok <==> bytes@.len() <= MAX_UVARINT_NUM_BYTES,
            r matches Ok(v) ==> v.value() == decode_spec(bytes@),
            r matches Ok(v) ==> v.value() < ENCODING_LIMIT,
            r matches Err(e) ==> e == DecodeError::OutOfRange,
    {
        let len: usize = bytes.len();
        if len > MAX_UVARINT_NUM_BYTES {
            return Err(DecodeError::OutOfRange);
        }
        let mut i: usize = 0;
        let mut acc: u128 = 0;
        let mut mult: u128 = 1;
        proof {
            assert(bytes@.skip(0) =~= bytes@);
        }
        while i < len && bytes[i] >= 128
            invariant
                len == bytes@.len() <= MAX_UVARINT_NUM_BYTES,
                i <= len,
                mult == pow128(i as nat),
                acc < mult,
                has_terminator(bytes@) == has_terminator(bytes@.skip(i as int)),
                raw_decode(bytes@) == acc + mult * raw_decode(bytes@.skip(i as int)),
            decreases len - i,
        {
            let b: u8 = bytes[i];
            proof {
                let s = bytes@;
                let tail = s.skip(i as int);
                let x = raw_decode(s.skip(i + 1)) as int;
                assert(tail[0] == s[i as int]);
                assert(tail.skip(1) =~= s.skip(i + 1));
                lemma_pow128_monotone((i + 1) as nat, 9);
                lemma_pow128_nine();
                assert(mult * ((b - 128) as int + 128 * x) == mult * ((b - 128) as int) + (
                mult * 128) * x) by (nonlinear_arith);
                assert(acc + mult * ((b - 128) as int) < mult * 128) by (nonlinear_arith)
                    requires
                        0 <= acc < mult,
                        128 <= b < 256,
                ;
            }
            acc = acc + mult * ((b - 128) as u128);
            mult = mult * 128;
            i = i + 1;
        }
        if i < len {
            let b: u8 = bytes[i];
            proof {
                let s = bytes@;
                let tail = s.skip(i as int);
                assert(tail[0] == s[i as int]);
                lemma_pow128_monotone((i + 1) as nat, 9);
                lemma_pow128_nine();
                assert(acc + mult * (b as int) < mult * 128) by (nonlinear_arith)
                    requires
                        0 <= acc < mult,
                        0 <= b < 128,
                ;
            }
            Ok(UVarInt { num: acc + mult * (b as u128) })
        } else {
            proof {
                assert(bytes@.skip(i as int) =~= Seq::<u8>::empty());
            }
            Ok(UVarInt { num: 0 })
        }
    }

    /// Renders the varint as `uv` followed by its value in decimal, the
    /// canonical human-readable form used for display and debugging.
    pub fn to_display_string(&self) -> (r: String)
        ensures
            r@ == render_spec(self.value() as nat),
    {
        let mut ds: Vec<u8> = Vec::new();
        let mut n: u128 = self.num;
        loop
            invariant_except_break
                n == 0 ==> ds@.len() == 0,
                forall|j: int| 0 <= j < ds@.len() ==> ds@[j] < 10,
                dec_str(self.value() as nat) == if ds@.len() == 0 {
                    dec_str(n as nat)
                } else {
                    dec_str(n as nat) + rev_digit_chars(ds@)
                },
            ensures
                ds@.len() >= 1,
                forall|j: int| 0 <= j < ds@.len() ==> ds@[j] < 10,
                dec_str(self.value() as nat) == rev_digit_chars(ds@),
            decreases n,
        {
            let d: u8 = (n % 10) as u8;
            proof {
                let prev = ds@;
                let pushed = prev.push(d);
                assert(pushed.drop_last() =~= prev);
                assert(pushed.last() == d);
                if n >= 10 {
                    assert(dec_str(n as nat) == dec_str(n as nat / 10) + seq![
                        dec_digit_char((n % 10) as nat),
                    ]);
                    assert(dec_str(n as nat / 10) + rev_digit_chars(pushed) =~= dec_str(
                        n as nat,
                    ) + rev_digit_chars(prev));
                    if prev.len() == 0 {
                        assert(dec_str(n as nat) + rev_digit_chars(prev) =~= dec_str(n as nat));
                    }
                } else {
                    assert(rev_digit_chars(pushed) =~= dec_str(n as nat) + rev_digit_chars(prev));
                    if prev.len() == 0 {
                        assert(dec_str(n as nat) + rev_digit_chars(prev) =~= dec_str(n as nat));
                    }
                }
            }
            ds.push(d);
            n = n / 10;
            if n == 0 {
                break ;
            }
        }
        let ghost total: Seq<char> = rev_digit_chars(ds@);
        proof {
            lemma_rev_digit_chars_len(ds@);
        }
        let mut s: String = String::new();
        s.append("uv");
        proof {
            reveal_strlit("uv");
            assert(s@ =~= seq!['u', 'v']);
            assert(total.take(0) =~= Seq::<char>::empty());
            assert(s@ =~= seq!['u', 'v'] + total.take(0));
        }
        let len: usize = ds.len();
        let mut i: usize = len;
        while i > 0
            invariant
                i <= len,
                len == ds@.len(),
                forall|j: int| 0 <= j < ds@.len() ==> ds@[j] < 10,
                total == rev_digit_chars(ds@),
                total.len() == len,
                s@ == seq!['u', 'v'] + total.take(len - i),
            decreases i,
        {
            i = i - 1;
            let c: &'static str = digit_str(ds[i]);
            s.append(c);
            proof {
                let k = len - i - 1;
                lemma_rev_digit_chars_index(ds@, k);
                assert(total.take(k + 1) =~= total.take(k) + seq![total[k]]);
                assert(s@ =~= seq!['u', 'v'] + total.take(len - i));
            }
        }
        proof {
            assert(total.take(len as int) =~= total);
            assert(s@ =~= render_spec(self.value() as nat));
        }
        s
    }
}

} // verus!
