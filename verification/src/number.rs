use vstd::prelude::*;

verus! {

/// A double-precision number as this library holds it: by its IEEE 754 bit
/// pattern and by its decimal rendering. The library does no floating-point
/// arithmetic: whether a number is zero and which integer it is are read off
/// the pattern, and how it is written is read off the rendering. Whoever
/// makes a `JsonNumber` supplies both, and they are taken as given.
#[derive(Debug, PartialEq)]
pub struct JsonNumber {
    /// The 64 bits of the double
    pub bits: u64,
    /// The number in decimal, as it is to be written out
    pub text: String,
}

/// What a [`JsonNumber`] holds.
pub struct NumberModel {
    /// The 64 bits of the double
    pub bits: u64,
    /// The number in decimal
    pub text: Seq<char>,
}

impl View for JsonNumber {
    type V = NumberModel;

    open spec fn view(&self) -> NumberModel {
        NumberModel { bits: self.bits, text: self.text@ }
    }
}

impl Clone for JsonNumber {
    fn clone(&self) -> (r: Self)
        ensures
            r@ == self@,
    {
        JsonNumber { bits: self.bits, text: self.text.clone() }
    }
}

/// The pattern of positive zero.
pub const ZERO_BITS: u64 = 0;

/// The pattern of negative zero.
pub const NEGATIVE_ZERO_BITS: u64 = 0x8000_0000_0000_0000;

/// The pattern of 1.0.
pub const ONE_BITS: u64 = 0x3FF0_0000_0000_0000;

/// Whether a pattern is one of the two zeros. Every other pattern, those of
/// the NaNs included, compares unequal to zero.
pub open spec fn is_zero_pattern(bits: u64) -> bool {
    bits == ZERO_BITS || bits == NEGATIVE_ZERO_BITS
}

/// The weight of the lowest bit of the exponent field: 2 to the 52.
pub const EXPONENT_UNIT: u64 = 0x10_0000_0000_0000;

/// 2 to the `k`.
pub open spec fn two_to(k: nat) -> nat
    decreases k,
{
    if k == 0 {
        1
    } else {
        2 * two_to((k - 1) as nat)
    }
}

/// The unsigned 64-bit integer that a double is cast to, if the cast back
/// gives the same double.
///
/// Bit 63 of the pattern is the sign, bits 62 to 52 are the exponent field and
/// bits 51 to 0 the fraction. With an exponent field `e` from 1 to 2046 the
/// number is (2^52 + fraction) * 2^(e - 1075). Both zeros give 0. A negative
/// number, a subnormal one, an infinity and a NaN give nothing. The cast of a
/// number at or above 2^64 saturates at the largest integer, which casts back
/// to 2^64: so 2^64 gives the largest integer, and nothing above does.
pub open spec fn exact_integer(bits: u64) -> Option<u64> {
    let exponent = (bits / EXPONENT_UNIT) % 2048;
    let fraction = bits % EXPONENT_UNIT;
    let significand = EXPONENT_UNIT + fraction;
    if is_zero_pattern(bits) {
        Some(0u64)
    } else if bits >= NEGATIVE_ZERO_BITS || exponent == 0 || exponent == 2047 {
        None
    } else if exponent > 1087 || (exponent == 1087 && fraction != 0) {
        None
    } else if exponent == 1087 {
        Some(u64::MAX)
    } else if exponent >= 1075 {
        Some((significand * two_to((exponent - 1075) as nat)) as u64)
    } else if exponent >= 1023 && significand % (two_to((1075 - exponent) as nat) as int) == 0 {
        Some((significand / (two_to((1075 - exponent) as nat) as int)) as u64)
    } else {
        None
    }
}

proof fn lemma_two_to_grows(i: nat, j: nat)
    requires
        i <= j,
    ensures
        0 < two_to(i) <= two_to(j),
    decreases j,
{
    if i < j {
        lemma_two_to_grows(i, (j - 1) as nat);
    } else if i > 0 {
        lemma_two_to_grows((i - 1) as nat, (i - 1) as nat);
    }
}

proof fn lemma_two_to_values()
    ensures
        two_to(11) == 2048,
        two_to(52) == 0x10_0000_0000_0000,
{
    assert(two_to(11) == 2048) by {
        reveal_with_fuel(two_to, 12);
    }
    assert(two_to(22) == 2048 * 2048) by {
        lemma_two_to_adds(11, 11);
    }
    assert(two_to(44) == 2048 * 2048 * 2048 * 2048) by {
        lemma_two_to_adds(22, 22);
    }
    assert(two_to(8) == 256) by {
        reveal_with_fuel(two_to, 9);
    }
    lemma_two_to_adds(44, 8);
}

proof fn lemma_two_to_adds(i: nat, j: nat)
    ensures
        two_to(i + j) == two_to(i) * two_to(j),
    decreases j,
{
    if j == 0 {
        assert(two_to(j) == 1);
        assert(i + j == i);
        assert(two_to(i) * 1 == two_to(i));
    } else {
        let a = two_to(i);
        let b = two_to((j - 1) as nat);
        lemma_two_to_adds(i, (j - 1) as nat);
        assert(two_to((i + j - 1) as nat) == a * b);
        assert(two_to(i + j) == 2 * two_to((i + j - 1) as nat));
        assert(two_to(j) == 2 * b);
        assert(2 * (a * b) == a * (2 * b)) by (nonlinear_arith);
    }
}

fn power_of_two(k: u64) -> (r: u64)
    requires
        k <= 52,
    ensures
        r == two_to(k as nat),
        0 < r <= EXPONENT_UNIT,
{
    let mut r: u64 = 1;
    let mut i: u64 = 0;
    proof {
        lemma_two_to_values();
        lemma_two_to_grows(0, 52);
    }
    while i < k
        invariant
            i <= k <= 52,
            r == two_to(i as nat),
            two_to(52) == EXPONENT_UNIT,
        decreases k - i,
    {
        proof {
            lemma_two_to_grows((i + 1) as nat, 52);
        }
        r = r * 2;
        i += 1;
    }
    proof {
        lemma_two_to_grows(k as nat, 52);
    }
    r
}

/// The number 1 or 0 that stands for a truth value.
pub open spec fn number_of_bool(b: bool) -> NumberModel {
    if b {
        NumberModel { bits: ONE_BITS, text: seq!['1'] }
    } else {
        NumberModel { bits: ZERO_BITS, text: seq!['0'] }
    }
}

impl JsonNumber {
    /// Whether the number equals zero.
    pub fn is_zero(&self) -> (r: bool)
        ensures
            r == is_zero_pattern(self.bits),
    {
        self.bits == ZERO_BITS || self.bits == NEGATIVE_ZERO_BITS
    }

    /// The number as an unsigned integer, if it is one: the integer that the
    /// double is cast to, where the cast back gives the same double.
    pub fn to_integer(&self) -> (r: Option<u64>)
        ensures
            r == exact_integer(self.bits),
    {
        let bits: u64 = self.bits;
        if bits == ZERO_BITS || bits == NEGATIVE_ZERO_BITS {
            return Some(0);
        }
        let exponent: u64 = (bits / EXPONENT_UNIT) % 2048;
        let fraction: u64 = bits % EXPONENT_UNIT;
        if bits >= NEGATIVE_ZERO_BITS || exponent == 0 || exponent == 2047 {
            return None;
        }
        let significand: u64 = EXPONENT_UNIT + fraction;
        if exponent > 1087 || (exponent == 1087 && fraction != 0) {
            None
        } else if exponent == 1087 {
            Some(u64::MAX)
        } else if exponent >= 1075 {
            let unit: u64 = power_of_two(exponent - 1075);
            proof {
                lemma_two_to_values();
                lemma_two_to_grows((exponent - 1075) as nat, 11);
                assert(significand * unit <= 0x1F_FFFF_FFFF_FFFF * 2048) by (nonlinear_arith)
                    requires
                        significand <= 0x1F_FFFF_FFFF_FFFF,
                        unit <= 2048,
                ;
            }
            Some(significand * unit)
        } else if exponent >= 1023 {
            let unit: u64 = power_of_two(1075 - exponent);
            if significand % unit == 0 {
                Some(significand / unit)
            } else {
                None
            }
        } else {
            None
        }
    }

    /// 1 for `true`, 0 for `false`.
    pub fn from_bool(b: bool) -> (r: JsonNumber)
        ensures
            r@ == number_of_bool(b),
    {
        proof {
            reveal_strlit("1");
            reveal_strlit("0");
        }
        if b {
            let text = "1".to_owned();
            assert(text@ =~= seq!['1']);
            JsonNumber { bits: ONE_BITS, text }
        } else {
            let text = "0".to_owned();
            assert(text@ =~= seq!['0']);
            JsonNumber { bits: ZERO_BITS, text }
        }
    }
}

/// What an optional number holds.
pub open spec fn number_view(n: Option<JsonNumber>) -> Option<NumberModel> {
    match n {
        Some(x) => Some(x@),
        None => None,
    }
}

/// `read` may answer `out` when it is asked for `text`.
pub open spec fn may_read<R: Fn(&str) -> Option<JsonNumber>>(
    read: R,
    text: Seq<char>,
    out: Option<NumberModel>,
) -> bool {
    exists|s: &str, n: Option<JsonNumber>|
        s@ == text && #[trigger] call_ensures(read, (s,), n) && number_view(n) == out
}

/// `read` can be asked for any text, and what it answers depends on the text
/// alone.
pub open spec fn reads_plainly<R: Fn(&str) -> Option<JsonNumber>>(read: R) -> bool {
    &&& forall|s: &str| #[trigger] call_requires(read, (s,))
    &&& forall|s: &str, t: &str, a: Option<JsonNumber>, b: Option<JsonNumber>|
        s@ == t@ && #[trigger] call_ensures(read, (s,), a) && #[trigger] call_ensures(read, (t,), b)
            ==> number_view(a) == number_view(b)
}

/// What `read` answers for each text: the number that the text writes, or
/// nothing where the text writes none.
pub open spec fn answers<R: Fn(&str) -> Option<JsonNumber>>(read: R) -> spec_fn(Seq<char>) -> Option<
    NumberModel,
> {
    |text: Seq<char>| choose|out: Option<NumberModel>| may_read(read, text, out)
}

/// A reader of numerals: a function that says which number a text writes. The
/// library asks it wherever it has to read a double.
pub struct Numerals<R: Fn(&str) -> Option<JsonNumber>> {
    pub(crate) read: R,
}

impl<R: Fn(&str) -> Option<JsonNumber>> Numerals<R> {
    #[verifier::type_invariant]
    spec fn plain(self) -> bool {
        reads_plainly(self.read)
    }

    /// The function that the reader asks.
    pub closed spec fn function(self) -> R {
        self.read
    }

    /// What the reader answers for each text.
    pub open spec fn reading(self) -> spec_fn(Seq<char>) -> Option<NumberModel> {
        answers(self.function())
    }

    /// Makes a reader of a function.
    pub fn new(read: R) -> (r: Self)
        requires
            reads_plainly(read),
        ensures
            r.function() == read,
    {
        Numerals { read }
    }

    /// The number that `text` writes.
    pub fn read(&self, text: &str) -> (r: Option<JsonNumber>)
        ensures
            number_view(r) == self.reading()(text@),
    {
        proof {
            use_type_invariant(self);
        }
        let r = (self.read)(text);
        proof {
            assert(self.function() == self.read);
            assert(may_read(self.read, text@, number_view(r)));
            let chosen = answers(self.read)(text@);
            assert(may_read(self.read, text@, chosen));
            let (s, n) = choose|s: &str, n: Option<JsonNumber>|
                s@ == text@ && #[trigger] call_ensures(self.read, (s,), n) && number_view(n) == chosen;
            assert(number_view(n) == number_view(r));
        }
        r
    }
}

} // verus!
