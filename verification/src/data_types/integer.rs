use vstd::prelude::*;
use vstd::utf8::*;

verus! {

/// The eight bytes of the two's complement of `v`, most significant first.
pub open spec fn be64(v: i64) -> Seq<u8> {
    seq![
        ((v >> 56i64) & 255i64) as u8,
        ((v >> 48i64) & 255i64) as u8,
        ((v >> 40i64) & 255i64) as u8,
        ((v >> 32i64) & 255i64) as u8,
        ((v >> 24i64) & 255i64) as u8,
        ((v >> 16i64) & 255i64) as u8,
        ((v >> 8i64) & 255i64) as u8,
        (v & 255i64) as u8,
    ]
}

/// Whether reading an integer out of `b` can run: eight bytes, and every shift that the reading
/// makes (by 56 + b[1], 48 + b[2], ..., 8 + b[7]) is by fewer than 64 bits.
pub open spec fn int_bin_ok(b: Seq<u8>) -> bool {
    &&& b.len() >= 8
    &&& b[1] < 8
    &&& b[2] < 16
    &&& b[3] < 24
    &&& b[4] < 32
    &&& b[5] < 40
    &&& b[6] < 48
    &&& b[7] < 56
}

/// The bytes of 0 are eight zero bytes, and an integer can be read out of them.
pub proof fn lemma_be64_zero()
    ensures
        be64(0) == seq![0u8, 0u8, 0u8, 0u8, 0u8, 0u8, 0u8, 0u8],
        int_bin_ok(be64(0)),
{
    assert(((0i64 >> 56i64) & 255i64) as u8 == 0u8) by (bit_vector);
    assert(((0i64 >> 48i64) & 255i64) as u8 == 0u8) by (bit_vector);
    assert(((0i64 >> 40i64) & 255i64) as u8 == 0u8) by (bit_vector);
    assert(((0i64 >> 32i64) & 255i64) as u8 == 0u8) by (bit_vector);
    assert(((0i64 >> 24i64) & 255i64) as u8 == 0u8) by (bit_vector);
    assert(((0i64 >> 16i64) & 255i64) as u8 == 0u8) by (bit_vector);
    assert(((0i64 >> 8i64) & 255i64) as u8 == 0u8) by (bit_vector);
    assert((0i64 & 255i64) as u8 == 0u8) by (bit_vector);
    assert(be64(0) =~= seq![0u8, 0u8, 0u8, 0u8, 0u8, 0u8, 0u8, 0u8]);
}

pub open spec fn is_digit(c: u8) -> bool {
    48 <= c <= 57
}

/// The value of a run of decimal digits.
pub open spec fn digits_value(d: Seq<u8>) -> int
    decreases d.len(),
{
    if d.len() == 0 {
        0
    } else {
        digits_value(d.drop_last()) * 10 + (d.last() - 48)
    }
}

/// Whether `d` is a nonempty run of decimal digits.
pub open spec fn is_digit_run(d: Seq<u8>) -> bool {
    &&& d.len() > 0
    &&& forall|i: int| 0 <= i < d.len() ==> is_digit(#[trigger] d[i])
}

/// The `i64` that the text `b` denotes in decimal: an optional `+` or `-`, then one or more
/// digits, with a value in range; `None` for any other text.
pub open spec fn parse_decimal_i64(b: Seq<u8>) -> Option<i64> {
    let negative = b.len() > 0 && b[0] == 45;
    let signed = b.len() > 0 && (b[0] == 45 || b[0] == 43);
    let d = if signed { b.drop_first() } else { b };
    let m = if negative { -digits_value(d) } else { digits_value(d) };
    if is_digit_run(d) && i64::MIN <= m <= i64::MAX {
        Some(m as i64)
    } else {
        None
    }
}

/// The decimal digits of `n`, without leading zeros.
pub open spec fn nat_digits(n: nat) -> Seq<u8>
    decreases n,
{
    if n < 10 {
        seq![(48 + n) as u8]
    } else {
        nat_digits(n / 10) + seq![(48 + n % 10) as u8]
    }
}

/// The decimal text of `v`: a `-` for negative numbers, then the digits of its magnitude.
pub open spec fn decimal_i64(v: i64) -> Seq<u8> {
    if v < 0 {
        seq![45u8] + nat_digits((-v) as nat)
    } else {
        nat_digits(v as nat)
    }
}

/// A 64-bit signed integer stored together with its big-endian bytes.
#[derive(Clone, Copy, Debug)]
pub struct Int {
    val: i64,
    valby: [u8; 8],
}

impl Int {
    #[verifier::type_invariant]
    spec fn bytes_match(self) -> bool {
        self.valby@ == be64(self.val)
    }
}

impl View for Int {
    type V = i64;

    closed spec fn view(&self) -> i64 {
        self.val
    }
}

/// The eight big-endian bytes of `v`.
fn i64_bytes(v: i64) -> (r: [u8; 8])
    ensures
        r@ == be64(v),
{
    let mask: i64 = 0b11111111;
    let r = [
        ((v >> 56) & mask) as u8,
        ((v >> 48) & mask) as u8,
        ((v >> 40) & mask) as u8,
        ((v >> 32) & mask) as u8,
        ((v >> 24) & mask) as u8,
        ((v >> 16) & mask) as u8,
        ((v >> 8) & mask) as u8,
        ((v) & mask) as u8,
    ];
    assert(r@ =~= be64(v));
    r
}

impl Int {
    /// An `Int` holding `val`.
    pub fn new(val: i64) -> (r: Int)
        ensures
            r@ == val,
    {
        Int { val, valby: i64_bytes(val) }
    }

    /// The stored value.
    pub fn value(&self) -> (r: i64)
        ensures
            r == self@,
    {
        self.val
    }

    /// Recomputes the stored bytes from the value: the value stays, and the bytes become its
    /// eight big-endian bytes.
    fn update_by(&mut self)
        ensures
            final(self)@ == old(self)@,
            final(self).val == old(self).val,
            final(self).valby@ == be64(old(self).val),
    {
        self.valby = i64_bytes(self.val);
    }

    /// The bytes kept beside the value.
    pub fn bytes(&self) -> (r: &[u8])
        ensures
            r@ == be64(self@),
    {
        proof {
            use_type_invariant(self);
        }
        self.valby.as_slice()
    }

    /// The `Int` that decimal text `s` spells; `s` must be the text of an `i64`.
    pub fn from_decimal(s: &str) -> (r: Int)
        requires
            parse_decimal_i64(encode_utf8(s@)) is Some,
        ensures
            r@ == parse_decimal_i64(encode_utf8(s@))->0,
    {
        let v = match parse_i64(s.as_bytes()) {
            Some(v) => v,
            None => 0,
        };
        let mut i = Int::new(v);
        i.update_by();
        i
    }

    /// Whether an integer can be read out of `b` (see `int_bin_ok`).
    pub fn bin_readable(b: &[u8]) -> (r: bool)
        ensures
            r == int_bin_ok(b@),
    {
        b.len() >= 8 && b[1] < 8 && b[2] < 16 && b[3] < 24 && b[4] < 32 && b[5] < 40 && b[6] < 48
            && b[7] < 56
    }

    /// The decimal text of the value.
    pub fn to_decimal(&self) -> (r: Vec<u8>)
        ensures
            r@ == decimal_i64(self@),
    {
        format_i64(self.val)
    }
}

/// Appends the decimal digits of `n` to `out`.
pub fn push_digits(n: u64, out: &mut Vec<u8>)
    ensures
        final(out)@ == old(out)@ + nat_digits(n as nat),
    decreases n,
{
    if n >= 10 {
        push_digits(n / 10, out);
    }
    out.push((48 + n % 10) as u8);
    proof {
        assert(final(out)@ =~= old(out)@ + nat_digits(n as nat));
    }
}

/// The decimal text of `v`.
pub fn format_i64(v: i64) -> (r: Vec<u8>)
    ensures
        r@ == decimal_i64(v),
{
    let mut out: Vec<u8> = Vec::new();
    if v < 0 {
        out.push(45u8);
        let m: u64 = if v == i64::MIN {
            9223372036854775808u64
        } else {
            (-v) as u64
        };
        push_digits(m, &mut out);
        assert(out@ =~= decimal_i64(v));
    } else {
        push_digits(v as u64, &mut out);
        assert(out@ =~= decimal_i64(v));
    }
    out
}

/// Prefix values of a digit run never decrease as the prefix grows.
proof fn lemma_digits_value_monotone(d: Seq<u8>, j: int, k: int)
    requires
        0 <= j <= k <= d.len(),
        forall|i: int| 0 <= i < d.len() ==> is_digit(#[trigger] d[i]),
    ensures
        0 <= digits_value(d.take(j)) <= digits_value(d.take(k)),
    decreases k - j,
{
    if j < k {
        lemma_digits_value_monotone(d, j, k - 1);
        assert(d.take(k).drop_last() =~= d.take(k - 1));
    } else {
        lemma_digits_value_nonneg(d.take(j));
    }
}

proof fn lemma_digits_value_nonneg(d: Seq<u8>)
    requires
        forall|i: int| 0 <= i < d.len() ==> is_digit(#[trigger] d[i]),
    ensures
        digits_value(d) >= 0,
    decreases d.len(),
{
    if d.len() > 0 {
        lemma_digits_value_nonneg(d.drop_last());
    }
}

/// Parses decimal text the way `i64::from_str` reads it.
pub fn parse_i64(b: &[u8]) -> (r: Option<i64>)
    ensures
        r == parse_decimal_i64(b@),
{
    let n = b.len();
    if n == 0 {
        return None;
    }
    let negative = b[0] == 45;
    let start: usize = if b[0] == 45 || b[0] == 43 {
        1
    } else {
        0
    };
    let ghost d = if start == 1 {
        b@.drop_first()
    } else {
        b@
    };
    assert(d =~= b@.skip(start as int));
    if start == n {
        return None;
    }
    let limit: u64 = 9223372036854775808u64;
    let mut acc: u64 = 0;
    let mut i = start;
    while i < n
        invariant
            start <= i <= n,
            n == b@.len(),
            d == b@.skip(start as int),
            n > 0,
            start == (if b@[0] == 45 || b@[0] == 43 { 1usize } else { 0usize }),
            d == (if start == 1 { b@.drop_first() } else { b@ }),
            negative == (b@[0] == 45),
            limit == 9223372036854775808u64,
            acc == digits_value(d.take(i - start)),
            acc <= limit,
            forall|j: int| 0 <= j < i - start ==> is_digit(#[trigger] d[j]),
        decreases n - i,
    {
        let c = b[i];
        assert(d[i - start] == b@[i as int]);
        if c < 48 || c > 57 {
            assert(!is_digit(d[i - start]));
            return None;
        }
        assert(d.take(i - start + 1).drop_last() =~= d.take(i - start));
        let digit = (c - 48) as u64;
        assert(digit <= 9);
        if acc > (limit - digit) / 10 {
            proof {
                if forall|j: int| 0 <= j < d.len() ==> is_digit(#[trigger] d[j]) {
                    lemma_digits_value_monotone(d, i - start + 1, d.len() as int);
                    assert(d.take(d.len() as int) =~= d);
                }
            }
            return None;
        }
        acc = acc * 10 + digit;
        i = i + 1;
    }
    assert(d.take(n - start) =~= d);
    assert(d.len() > 0);
    if negative {
        if acc == limit {
            Some(i64::MIN)
        } else {
            Some(-(acc as i64))
        }
    } else {
        if acc >= limit {
            None
        } else {
            Some(acc as i64)
        }
    }
}

} // verus!

verus! {

proof fn lemma_nat_digits(n: nat)
    ensures
        is_digit_run(nat_digits(n)),
        digits_value(nat_digits(n)) == n,
    decreases n,
{
    if n >= 10 {
        lemma_nat_digits(n / 10);
        let d = nat_digits(n);
        assert(d.drop_last() =~= nat_digits(n / 10));
        assert(n == (n / 10) * 10 + n % 10) by (nonlinear_arith);
        assert(d.last() == 48 + n % 10);
        assert forall|i: int| 0 <= i < d.len() implies is_digit(#[trigger] d[i]) by {
            if i < d.len() - 1 {
                assert(d[i] == nat_digits(n / 10)[i]);
            }
        }
    } else {
        let d = nat_digits(n);
        assert(d.drop_last() =~= Seq::<u8>::empty());
        assert(digits_value(d.drop_last()) == 0);
    }
}

/// Reading back the decimal text of a number gives the number.
pub proof fn lemma_decimal_roundtrip(v: i64)
    ensures
        parse_decimal_i64(decimal_i64(v)) == Some(v),
{
    let b = decimal_i64(v);
    if v < 0 {
        lemma_nat_digits((-v) as nat);
        assert(b.drop_first() =~= nat_digits((-v) as nat));
    } else {
        lemma_nat_digits(v as nat);
        assert(is_digit(b[0]));
    }
}

} // verus!

verus! {

impl crate::data_types::data_types::Savable for Int {
    open spec fn spec_to_bin(&self) -> Seq<u8> {
        be64(self@)
    }

    open spec fn spec_to_string_bin(&self) -> Seq<u8> {
        decimal_i64(self@)
    }

    open spec fn spec_signature(&self) -> u8 {
        2
    }

    fn to_bin(&self) -> (r: &[u8]) {
        self.bytes()
    }

    fn signature(&self) -> (r: u8) {
        2
    }

    fn to_string_bin(&self) -> (r: Vec<u8>) {
        self.to_decimal()
    }
}

impl crate::data_types::data_types::Loadable for Int {
    open spec fn loads_from_str(s: Seq<char>) -> bool {
        parse_decimal_i64(encode_utf8(s)) is Some
    }

    open spec fn loaded_from_str(s: Seq<char>, r: Int) -> bool {
        r@ == parse_decimal_i64(encode_utf8(s))->0
    }

    open spec fn loads_from_bin(b: Seq<u8>) -> bool {
        int_bin_ok(b)
    }

    open spec fn loaded_from_bin(b: Seq<u8>, r: Int) -> bool {
        r@ == 0
    }

    fn from_str(s: &str) -> (r: Int) {
        Int::from_decimal(s)
    }

    /// Reads an integer out of `b`: the first byte, shifted left by 56 + b[1], then by
    /// 48 + b[2], and so on down to 8 + b[7]. The first two shifts alone move every bit of the
    /// byte out of the 64, so the result is 0.
    fn from_bin(b: &[u8]) -> (r: Int) {
        let s1: u32 = 56u32 + b[1] as u32;
        let s2: u32 = 48u32 + b[2] as u32;
        let s3: u32 = 40u32 + b[3] as u32;
        let s4: u32 = 32u32 + b[4] as u32;
        let s5: u32 = 24u32 + b[5] as u32;
        let s6: u32 = 16u32 + b[6] as u32;
        let s7: u32 = 8u32 + b[7] as u32;
        let x0: i64 = b[0] as i64;
        let x7: i64 = x0 << s1 << s2 << s3 << s4 << s5 << s6 << s7;
        assert(x7 == 0) by (bit_vector)
            requires
                0 <= x0 < 256,
                56 <= s1 < 64,
                48 <= s2 < 64,
                s3 < 64,
                s4 < 64,
                s5 < 64,
                s6 < 64,
                s7 < 64,
                x7 == x0 << s1 << s2 << s3 << s4 << s5 << s6 << s7,
        ;
        let mut i = Int::new(x7);
        i.update_by();
        i
    }
}

impl crate::data_types::data_types::DBDataType for Int {

}

} // verus!
