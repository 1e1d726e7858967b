//! Text primitives shared by the other modules.
//!
//! Strings are modelled by their characters (`s@`) and, where byte offsets
//! matter, by their UTF-8 encoding (`s.spec_bytes()`).

use vstd::prelude::*;
use vstd::string::*;
use vstd::utf8::*;

verus! {

broadcast use vstd::seq_lib::group_seq_properties;

/// Calls `std::str::from_utf8`. The claim: it succeeds exactly on well-formed
/// UTF-8, and the text it hands out is encoded by the very bytes it was given.
#[verifier::external_body]
pub(crate) fn utf8_str(bytes: &[u8]) -> (r: Option<&str>)
    ensures
        r is Some <==> valid_utf8(bytes@),
        r matches Some(s) ==> s.spec_bytes() == bytes@,
{
    std::str::from_utf8(bytes).ok()
}

/// The text that `bytes` encode, if they are well-formed UTF-8.
pub open spec fn decoded(bytes: Seq<u8>) -> Option<Seq<char>> {
    if valid_utf8(bytes) {
        Some(decode_utf8(bytes))
    } else {
        None
    }
}

/// Two texts with the same encoding are the same text.
pub proof fn lemma_encoding_injective(a: Seq<char>, b: Seq<char>)
    requires
        encode_utf8(a) == encode_utf8(b),
    ensures
        a == b,
{
    encode_utf8_decode_utf8(a);
    encode_utf8_decode_utf8(b);
}

/// The text encoded by `bytes`, or `None` if they are not well-formed UTF-8.
pub fn decode(bytes: &[u8]) -> (r: Option<&str>)
    ensures
        decoded(bytes@) is None ==> r is None,
        decoded(bytes@) matches Some(t) ==> r is Some && r->0@ == t && r->0.spec_bytes() == bytes@,
{
    let r = utf8_str(bytes);
    proof {
        if let Some(s) = r {
            encode_utf8_decode_utf8(s@);
        }
    }
    r
}

/// Whether `a` and `b` are the same text.
pub fn same_text(a: &str, b: &str) -> (r: bool)
    ensures
        r == (a@ == b@),
{
    let x = a.as_bytes();
    let y = b.as_bytes();
    if x.len() != y.len() {
        return false;
    }
    let mut i: usize = 0;
    while i < x.len()
        invariant
            i <= x@.len(),
            x@.len() == y@.len(),
            x@ == encode_utf8(a@),
            y@ == encode_utf8(b@),
            forall|k: int| 0 <= k < i ==> x@[k] == y@[k],
        decreases x@.len() - i,
    {
        if x[i] != y[i] {
            return false;
        }
        i += 1;
    }
    proof {
        assert(x@ =~= y@);
        lemma_encoding_injective(a@, b@);
    }
    true
}

/// Whether `text` begins with `prefix`.
pub fn starts_with(text: &str, prefix: &str) -> (r: bool)
    ensures
        r == prefix@.is_prefix_of(text@),
{
    let mut t = text.chars();
    let mut p = prefix.chars();
    let ghost mut n: int = 0;
    loop
        invariant
            0 <= n <= prefix@.len(),
            n <= text@.len(),
            vstd::std_specs::iter::IteratorSpec::remaining(&t) == text@.skip(n),
            vstd::std_specs::iter::IteratorSpec::remaining(&p) == prefix@.skip(n),
            forall|k: int| 0 <= k < n ==> text@[k] == prefix@[k],
        decreases prefix@.len() - n,
    {
        match p.next() {
            None => {
                assert(n == prefix@.len());
                assert(prefix@ =~= text@.subrange(0, prefix@.len() as int));
                return true;
            },
            Some(c) => {
                assert(c == prefix@[n]);
                match t.next() {
                    None => {
                        assert(n == text@.len());
                        return false;
                    },
                    Some(d) => {
                        assert(d == text@[n]);
                        if c != d {
                            proof {
                                if prefix@.is_prefix_of(text@) {
                                    assert(prefix@[n] == text@.subrange(0, prefix@.len() as int)[n]);
                                }
                            }
                            return false;
                        }
                        proof {
                            assert(text@.skip(n).drop_first() =~= text@.skip(n + 1));
                            assert(prefix@.skip(n).drop_first() =~= prefix@.skip(n + 1));
                            n = n + 1;
                        }
                    },
                }
            },
        }
    }
}

/// Whether `bytes` may be cut at `at` without splitting a character.
pub open spec fn is_cut(bytes: Seq<u8>, at: int) -> bool {
    valid_utf8(bytes) && is_char_boundary(bytes, at)
}

/// Next to an ASCII byte text can always be cut, on either side.
pub proof fn lemma_cut_at_ascii(bytes: Seq<u8>, at: int)
    requires
        valid_utf8(bytes),
        0 <= at < bytes.len(),
        bytes[at] < 0x80,
    ensures
        is_cut(bytes, at),
        is_cut(bytes, at + 1),
    decreases bytes.len(),
{
    is_char_boundary_iff_not_is_continuation_byte(bytes, at);
    if at == 0 {
        assert(length_of_first_scalar(bytes) == 1);
        reveal_with_fuel(is_char_boundary, 2);
    } else {
        let n = length_of_first_scalar(bytes);
        let rest = pop_first_scalar(bytes);
        if at < n {
            // Inside the first character every byte after the first continues it.
            reveal_with_fuel(is_char_boundary, 2);
            assert(false);
        }
        assert(rest[at - n] == bytes[at]);
        lemma_cut_at_ascii(rest, at - n);
    }
}

/// The part of `text` between the byte offsets `start` and `end`.
pub fn slice(text: &str, start: usize, end: usize) -> (r: &str)
    requires
        start <= end <= text.spec_bytes().len(),
        is_cut(text.spec_bytes(), start as int),
        is_cut(text.spec_bytes(), end as int),
    ensures
        r.spec_bytes() == text.spec_bytes().subrange(start as int, end as int),
        r@ == decode_utf8(text.spec_bytes().subrange(start as int, end as int)),
{
    let ghost bytes = text.spec_bytes();
    let (head, _) = text.split_at(end);
    proof {
        lemma_cut_in_prefix(bytes, start as int, end as int);
    }
    let (_, r) = head.split_at(start);
    proof {
        assert(r.spec_bytes() =~= bytes.subrange(start as int, end as int));
        encode_utf8_decode_utf8(r@);
    }
    r
}

/// A cut of the whole text is a cut of every prefix that reaches it.
pub proof fn lemma_cut_in_prefix(bytes: Seq<u8>, at: int, end: int)
    requires
        is_cut(bytes, at),
        is_cut(bytes, end),
        0 <= at <= end <= bytes.len(),
    ensures
        is_cut(bytes.subrange(0, end), at),
{
    let head = bytes.subrange(0, end);
    valid_utf8_split(bytes, end);
    if at == end {
        is_char_boundary_start_end_of_seq(head);
    } else {
        is_char_boundary_iff_not_is_continuation_byte(bytes, at);
        is_char_boundary_iff_not_is_continuation_byte(head, at);
        assert(head[at] == bytes[at]);
    }
}

/// Whether `text` looks like an option flag: it begins with a dash.
pub open spec fn is_flag(text: Seq<char>) -> bool {
    text.len() > 0 && text[0] == '-'
}

/// Whether `text` begins with a dash.
pub fn begins_with_dash(text: &str) -> (r: bool)
    ensures
        r == is_flag(text@),
{
    let mut chars = text.chars();
    match chars.next() {
        Some(c) => c == '-',
        None => false,
    }
}

/// The index of the first `x` in `s` from `i` on.
pub open spec fn first_index<A>(s: Seq<A>, x: A, i: int) -> Option<int>
    decreases s.len() - i,
{
    if 0 <= i < s.len() {
        if s[i] == x {
            Some(i)
        } else {
            first_index(s, x, i + 1)
        }
    } else {
        None
    }
}

/// `first_index` finds the first occurrence, if there is one.
pub proof fn lemma_first_index<A>(s: Seq<A>, x: A, i: int)
    requires
        0 <= i,
    ensures
        match first_index(s, x, i) {
            Some(k) => i <= k < s.len() && s[k] == x && forall|j: int| i <= j < k ==> s[j] != x,
            None => forall|j: int| i <= j < s.len() ==> s[j] != x,
        },
    decreases s.len() - i,
{
    if i < s.len() && s[i] != x {
        lemma_first_index(s, x, i + 1);
    }
}

/// Whether every byte is an ASCII digit.
pub open spec fn all_digits(s: Seq<u8>) -> bool {
    forall|i: int| 0 <= i < s.len() ==> 0x30 <= #[trigger] s[i] <= 0x39
}

/// The number that a row of ASCII digits writes in decimal.
pub open spec fn decimal(s: Seq<u8>) -> int
    decreases s.len(),
{
    if s.len() == 0 {
        0
    } else {
        10 * decimal(s.drop_last()) + (s.last() - 0x30)
    }
}

/// The digits of a number behind its optional sign.
pub open spec fn unsigned(s: Seq<u8>) -> Seq<u8> {
    if s.len() > 0 && (s[0] == 0x2b || s[0] == 0x2d) {
        s.skip(1)
    } else {
        s
    }
}

/// The number that `s` writes: an optional sign and at least one digit.
pub open spec fn int_value(s: Seq<u8>) -> Option<int> {
    if unsigned(s).len() == 0 || !all_digits(unsigned(s)) {
        None
    } else if s[0] == 0x2d {
        Some(-decimal(unsigned(s)))
    } else {
        Some(decimal(unsigned(s)))
    }
}

/// The number that `s` writes, if it is one that an `i32` holds.
pub open spec fn i32_value(s: Seq<u8>) -> Option<i32> {
    match int_value(s) {
        Some(v) => if i32::MIN <= v <= i32::MAX {
            Some(v as i32)
        } else {
            None
        },
        None => None,
    }
}

proof fn lemma_decimal_grows(s: Seq<u8>, k: int)
    requires
        all_digits(s),
        0 <= k <= s.len(),
    ensures
        0 <= decimal(s.take(k)) <= decimal(s),
    decreases s.len(),
{
    if k == s.len() {
        assert(s.take(k) =~= s);
        if s.len() > 0 {
            assert(all_digits(s.drop_last()));
            lemma_decimal_grows(s.drop_last(), s.len() - 1);
            assert(s.drop_last().take(s.len() - 1) =~= s.drop_last());
        }
    } else {
        assert(all_digits(s.drop_last()));
        lemma_decimal_grows(s.drop_last(), k);
        assert(s.drop_last().take(k) =~= s.take(k));
    }
}

/// Read a decimal number with an optional sign.
pub fn parse_i32(s: &[u8]) -> (r: Option<i32>)
    ensures
        r == i32_value(s@),
{
    if s.len() == 0 {
        return None;
    }
    let negative = s[0] == 0x2d;
    let from: usize = if negative || s[0] == 0x2b {
        1
    } else {
        0
    };
    let ghost digits = unsigned(s@);
    assert(digits =~= s@.skip(from as int));
    if s.len() == from {
        return None;
    }
    let mut value: i64 = 0;
    let mut i: usize = from;
    assert(digits.take(0) =~= seq![]);
    while i < s.len()
        invariant
            from <= i <= s@.len(),
            from <= 1,
            digits == unsigned(s@),
            digits == s@.skip(from as int),
            digits.len() > 0,
            negative == (s@[0] == 0x2d),
            all_digits(digits.take(i - from)),
            value == decimal(digits.take(i - from)),
            0 <= value <= 0x8000_0000,
        decreases s@.len() - i,
    {
        let b = s[i];
        assert(digits[i - from] == b);
        if b < 0x30 || b > 0x39 {
            return None;
        }
        let ghost before = digits.take(i - from);
        assert(digits.take(i + 1 - from) =~= before.push(b));
        assert(before.push(b).drop_last() =~= before);
        value = value * 10 + (b - 0x30) as i64;
        if value > 0x8000_0000 {
            proof {
                if all_digits(digits) {
                    lemma_decimal_grows(digits, i + 1 - from);
                }
            }
            return None;
        }
        i += 1;
    }
    assert(digits.take(i - from) =~= digits);
    if negative {
        Some((-value) as i32)
    } else if value <= 0x7fff_ffff {
        Some(value as i32)
    } else {
        None
    }
}

/// The characters of `s`.
pub(crate) fn chars_of(s: &str) -> (r: Vec<char>)
    ensures
        r@ == s@,
{
    let mut r: Vec<char> = Vec::new();
    let mut chars = s.chars();
    assert(s@.skip(0) =~= s@);
    let mut more = true;
    while more
        invariant
            r@.len() <= s@.len(),
            r@ =~= s@.take(r@.len() as int),
            vstd::std_specs::iter::IteratorSpec::remaining(&chars) == s@.skip(r@.len() as int),
            !more ==> r@.len() == s@.len(),
        decreases s@.len() - r@.len(), (if more {
                1int
            } else {
                0int
            }),
    {
        let ghost n = r@.len() as int;
        match chars.next() {
            Some(c) => {
                assert(s@.skip(n).drop_first() =~= s@.skip(n + 1));
                r.push(c);
            },
            None => {
                more = false;
            },
        }
    }
    r
}

/// Decoding undoes encoding, and takes nothing that no text is encoded by.
pub proof fn law_decoding_inverts_encoding(bytes: Seq<u8>, t: Seq<char>)
    ensures
        decoded(encode_utf8(t)) == Some(t),
        decoded(bytes) is Some <==> valid_utf8(bytes),
        decoded(bytes) matches Some(d) ==> encode_utf8(d) == bytes,
{
    encode_utf8_valid_utf8(t);
    encode_utf8_decode_utf8(t);
    if valid_utf8(bytes) {
        decode_utf8_encode_utf8(bytes);
    }
}

/// Reading a number digit by digit: one digit is its value, and one more digit
/// behind a number makes it ten times as large and adds its value, as long as
/// that is still in range.
pub proof fn law_digits_make_a_number(s: Seq<u8>, digit: u8)
    requires
        0x30 <= digit <= 0x39,
    ensures
        i32_value(seq![digit]) == Some((digit - 0x30) as i32),
        s.len() > 0 && 0x30 <= s[0] <= 0x39 ==> match i32_value(s) {
            Some(v) => i32_value(s.push(digit)) == (if 10 * v + (digit - 0x30) <= i32::MAX {
                Some((10 * v + (digit - 0x30)) as i32)
            } else {
                None
            }),
            None => i32_value(s.push(digit)) is None,
        },
{
    let one = seq![digit];
    assert(one.drop_last() =~= Seq::<u8>::empty());
    reveal_with_fuel(decimal, 2);
    assert(unsigned(one) =~= one);
    if s.len() > 0 && 0x30 <= s[0] <= 0x39 {
        let more = s.push(digit);
        assert(unsigned(s) =~= s);
        assert(unsigned(more) =~= more);
        assert(more.drop_last() =~= s);
        if all_digits(s) {
            assert(all_digits(more)) by {
                assert forall|i: int| 0 <= i < more.len() implies 0x30 <= #[trigger] more[i] <= 0x39 by {
                    if i < s.len() {
                        assert(more[i] == s[i]);
                    }
                }
            }
            lemma_decimal_grows(s, s.len() as int);
            assert(s.take(s.len() as int) =~= s);
        } else {
            let k = choose|k: int| 0 <= k < s.len() && !(0x30 <= #[trigger] s[k] <= 0x39);
            assert(more[k] == s[k]);
        }
    }
}

/// A minus sign in front of a number turns it round, and a plus sign changes
/// nothing.
pub proof fn law_sign_of_a_number(s: Seq<u8>)
    requires
        s.len() > 0,
        0x30 <= s[0] <= 0x39,
    ensures
        i32_value(seq![0x2bu8] + s) == i32_value(s),
        i32_value(s) matches Some(v) ==> i32_value(seq![0x2du8] + s) == Some((-v) as i32),
        i32_value(s) matches Some(v) ==> v >= 0,
        i32_value(seq![0x2du8] + s) matches Some(v) ==> v <= 0 && (v > i32::MIN ==> i32_value(s) == Some((-v) as i32)),
{
    let plus = seq![0x2bu8] + s;
    let minus = seq![0x2du8] + s;
    assert(unsigned(s) =~= s);
    assert(unsigned(plus) =~= s);
    assert(unsigned(minus) =~= s);
    if all_digits(s) {
        lemma_decimal_grows(s, s.len() as int);
        assert(s.take(s.len() as int) =~= s);
    }
}

/// What holds anything but digits behind an optional sign, or no digit at all,
/// is no number.
pub proof fn law_what_is_no_number(s: Seq<u8>, k: int)
    ensures
        i32_value(Seq::<u8>::empty()) is None,
        s.len() == 1 && !(0x30 <= s[0] <= 0x39) ==> i32_value(s) is None,
        0 < k < s.len() && !(0x30 <= s[k] <= 0x39) ==> i32_value(s) is None,
        s.len() > 0 && s[0] != 0x2b && s[0] != 0x2d && !(0x30 <= s[0] <= 0x39) ==> i32_value(s) is None,
{
    if 0 < k < s.len() && !(0x30 <= s[k] <= 0x39) {
        if s[0] == 0x2b || s[0] == 0x2d {
            assert(unsigned(s)[k - 1] == s[k]);
        } else {
            assert(unsigned(s)[k] == s[k]);
        }
    }
    if s.len() > 0 && s[0] != 0x2b && s[0] != 0x2d {
        assert(unsigned(s)[0] == s[0]);
    }
}

/// Texts are encoded one behind the other.
pub proof fn lemma_encoding_of_joined(a: Seq<char>, b: Seq<char>)
    ensures
        encode_utf8(a + b) == encode_utf8(a) + encode_utf8(b),
    decreases a.len(),
{
    if a.len() == 0 {
        assert(a + b =~= b);
        assert(encode_utf8(a) + encode_utf8(b) =~= encode_utf8(b));
    } else {
        lemma_encoding_of_joined(a.drop_first(), b);
        assert((a + b).drop_first() =~= a.drop_first() + b);
        assert((a + b)[0] == a[0]);
        let first = encode_scalar(a[0] as u32);
        assert(first + (encode_utf8(a.drop_first()) + encode_utf8(b)) =~= first + encode_utf8(a.drop_first())
            + encode_utf8(b));
    }
}

} // verus!
