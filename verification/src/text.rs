use vstd::prelude::*;
use vstd::utf8::*;

verus! {

/// The index of the first `sep` in `s`, or the length of `s` if there is none.
pub open spec fn first_index(s: Seq<u8>, sep: u8) -> nat
    decreases s.len(),
{
    if s.len() == 0 || s[0] == sep {
        0
    } else {
        1 + first_index(s.skip(1), sep)
    }
}

/// The pieces between the occurrences of `sep` in `s`, in order. There is
/// always at least one piece; pieces may be empty.
pub open spec fn pieces(s: Seq<u8>, sep: u8) -> Seq<Seq<u8>>
    decreases s.len(),
{
    let end = first_index(s, sep) as int;
    if end >= s.len() {
        seq![s]
    } else {
        seq![s.take(end)] + pieces(s.skip(end + 1), sep)
    }
}

/// The contents of a list of byte vectors.
pub open spec fn views(list: Seq<Vec<u8>>) -> Seq<Seq<u8>> {
    list.map_values(|piece: Vec<u8>| piece@)
}

/// Whether the byte is one of `0` to `9`.
pub open spec fn is_digit(byte: u8) -> bool {
    48 <= byte <= 57
}

/// Whether every byte is a decimal digit.
pub open spec fn all_digits(s: Seq<u8>) -> bool {
    forall|i: int| 0 <= i < s.len() ==> is_digit(#[trigger] s[i])
}

/// The number that a run of decimal digits writes.
pub open spec fn digits_value(s: Seq<u8>) -> nat
    decreases s.len(),
{
    if s.len() == 0 {
        0
    } else {
        digits_value(s.drop_last()) * 10 + (s.last() - 48) as nat
    }
}

/// The digits of an unsigned decimal numeral: the text without one leading `+`.
pub open spec fn unsigned_digits(s: Seq<u8>) -> Seq<u8> {
    if s.len() > 0 && s[0] == 0x2B {
        s.skip(1)
    } else {
        s
    }
}

/// The unsigned integer that `s` writes in decimal, if it is one and is at
/// most `max`: an optional `+`, then one digit or more and nothing else.
pub open spec fn decimal(s: Seq<u8>, max: nat) -> Option<nat> {
    let digits = unsigned_digits(s);
    if digits.len() > 0 && all_digits(digits) && digits_value(digits) <= max {
        Some(digits_value(digits))
    } else {
        None
    }
}

/// An index before which no `sep` stands, and at which one stands or the
/// bytes end, is the first index.
pub proof fn lemma_first_index(s: Seq<u8>, sep: u8, k: int)
    requires
        0 <= k <= s.len(),
        forall|j: int| 0 <= j < k ==> s[j] != sep,
        k == s.len() || s[k] == sep,
    ensures
        first_index(s, sep) == k,
    decreases k,
{
    if k > 0 {
        lemma_first_index(s.skip(1), sep, k - 1);
    }
}

proof fn lemma_digits_step(s: Seq<u8>, k: int)
    requires
        0 <= k < s.len(),
    ensures
        digits_value(s.take(k + 1)) == digits_value(s.take(k)) * 10 + (s[k] - 48) as nat,
{
    assert(s.take(k + 1).drop_last() =~= s.take(k));
}

proof fn lemma_digits_grow(s: Seq<u8>, k: int)
    requires
        0 <= k <= s.len(),
        all_digits(s),
    ensures
        digits_value(s.take(k)) <= digits_value(s),
    decreases s.len() - k,
{
    if k == s.len() {
        assert(s.take(k) =~= s);
    } else {
        lemma_digits_step(s, k);
        lemma_digits_grow(s, k + 1);
    }
}

/// Splits `bytes` at every `sep`.
pub fn split_bytes(bytes: &[u8], sep: u8) -> (r: Vec<Vec<u8>>)
    ensures
        views(r@) == pieces(bytes@, sep),
{
    let mut out: Vec<Vec<u8>> = Vec::new();
    let mut current: Vec<u8> = Vec::new();
    let mut start: usize = 0;
    let mut i: usize = 0;
    assert(bytes@.skip(0) =~= bytes@);
    assert(views(out@) + pieces(bytes@.skip(0), sep) =~= pieces(bytes@, sep));
    while i < bytes.len()
        invariant
            start <= i <= bytes@.len(),
            current@ == bytes@.subrange(start as int, i as int),
            forall|j: int| start <= j < i ==> bytes@[j] != sep,
            views(out@) + pieces(bytes@.skip(start as int), sep) == pieces(bytes@, sep),
        decreases bytes.len() - i,
    {
        let byte: u8 = bytes[i];
        if byte == sep {
            proof {
                let tail = bytes@.skip(start as int);
                lemma_first_index(tail, sep, i - start);
                assert(tail.take(i - start) =~= current@);
                assert(tail.skip(i - start + 1) =~= bytes@.skip(i + 1));
                assert(views(out@.push(current)) =~= views(out@) + seq![current@]);
                assert(views(out@.push(current)) + pieces(bytes@.skip(i + 1), sep) =~= views(out@)
                    + pieces(tail, sep));
            }
            out.push(current);
            current = Vec::new();
            start = i + 1;
            assert(bytes@.subrange(start as int, start as int) =~= Seq::<u8>::empty());
        } else {
            current.push(byte);
            assert(current@ =~= bytes@.subrange(start as int, i + 1));
        }
        i += 1;
    }
    proof {
        let tail = bytes@.skip(start as int);
        lemma_first_index(tail, sep, i - start);
        assert(tail =~= current@);
        assert(views(out@.push(current)) =~= views(out@) + seq![current@]);
    }
    out.push(current);
    out
}

/// Reads an unsigned decimal numeral that must not exceed `max`.
pub fn read_decimal(bytes: &[u8], max: u64) -> (r: Option<u64>)
    ensures
        match r {
            Some(v) => decimal(bytes@, max as nat) == Some(v as nat),
            None => decimal(bytes@, max as nat) is None,
        },
{
    let start: usize = if bytes.len() > 0 && bytes[0] == 0x2B {
        1
    } else {
        0
    };
    let ghost digits = unsigned_digits(bytes@);
    assert(digits =~= bytes@.skip(start as int));
    if start == bytes.len() {
        return None;
    }
    let mut value: u64 = 0;
    let mut i: usize = start;
    assert(digits.take(0) =~= Seq::<u8>::empty());
    while i < bytes.len()
        invariant
            start <= i <= bytes@.len(),
            digits == bytes@.skip(start as int),
            digits == unsigned_digits(bytes@),
            all_digits(digits.take(i - start)),
            value == digits_value(digits.take(i - start)),
            value <= max,
        decreases bytes.len() - i,
    {
        let byte: u8 = bytes[i];
        if byte < 48 || byte > 57 {
            assert(!is_digit(digits[i - start]));
            return None;
        }
        let digit: u64 = (byte - 48) as u64;
        proof {
            lemma_digits_step(digits, i - start);
            assert forall|j: int| 0 <= j < digits.take(i - start + 1).len() implies is_digit(
                #[trigger] digits.take(i - start + 1)[j],
            ) by {
                if j < i - start {
                    assert(digits.take(i - start + 1)[j] == digits.take(i - start)[j]);
                }
            }
        }
        if digit > max || value > (max - digit) / 10 {
            proof {
                if all_digits(digits) {
                    lemma_digits_grow(digits, i - start + 1);
                }
            }
            return None;
        }
        value = value * 10 + digit;
        i += 1;
    }
    assert(digits.take(i - start) =~= digits);
    Some(value)
}

/// `null`
pub open spec fn null_text() -> Seq<u8> {
    seq![0x6Eu8, 0x75u8, 0x6Cu8, 0x6Cu8]
}

/// `true`
pub open spec fn true_text() -> Seq<u8> {
    seq![0x74u8, 0x72u8, 0x75u8, 0x65u8]
}

/// `false`
pub open spec fn false_text() -> Seq<u8> {
    seq![0x66u8, 0x61u8, 0x6Cu8, 0x73u8, 0x65u8]
}

/// An ASCII capital letter as its small letter; any other byte as it is.
pub open spec fn fold_byte(byte: u8) -> u8 {
    if 65 <= byte <= 90 {
        (byte + 32) as u8
    } else {
        byte
    }
}

/// The bytes with every ASCII capital letter made small.
pub open spec fn folded(bytes: Seq<u8>) -> Seq<u8> {
    Seq::new(bytes.len(), |i: int| fold_byte(bytes[i]))
}

/// What `str::to_lowercase` makes of a text.
pub uninterp spec fn lowercase(text: Seq<char>) -> Seq<char>;

/// `str::to_lowercase`. The result is a function of the text alone.
#[verifier::external_body]
pub(crate) fn to_lowercase(text: &str) -> (r: String)
    ensures
        r@ == lowercase(text@),
{
    text.to_lowercase()
}

/// `String::from_utf8`. It succeeds exactly on well-formed UTF-8, and the
/// text it gives is the one that the bytes encode.
#[verifier::external_body]
pub(crate) fn text_from_utf8(bytes: Vec<u8>) -> (r: Option<String>)
    ensures
        r is Some <==> valid_utf8(bytes@),
        r is Some ==> r->0@ == decode_utf8(bytes@),
{
    String::from_utf8(bytes).ok()
}

} // verus!
