//! The codec between typed payloads and opaque text payloads.
//!
//! An integer payload is written as its decimal digits; a text payload is
//! written quoted, with the quote and the backslash escaped by a backslash.
//! Decoding is the exact inverse on every encoded value, and rejects every
//! string that no value encodes to.

use vstd::arithmetic::div_mod::lemma_fundamental_div_mod;
use vstd::prelude::*;

use crate::access::AccessError;
use crate::component::{DataValue, DataView};

verus! {

/// The digit character for one decimal digit value.
pub open spec fn digit_char(d: int) -> char {
    if d == 0 {
        '0'
    } else if d == 1 {
        '1'
    } else if d == 2 {
        '2'
    } else if d == 3 {
        '3'
    } else if d == 4 {
        '4'
    } else if d == 5 {
        '5'
    } else if d == 6 {
        '6'
    } else if d == 7 {
        '7'
    } else if d == 8 {
        '8'
    } else {
        '9'
    }
}

/// The decimal value of a digit character, or a negative number for any
/// other character.
pub open spec fn digit_val(c: char) -> int {
    if c == '0' {
        0
    } else if c == '1' {
        1
    } else if c == '2' {
        2
    } else if c == '3' {
        3
    } else if c == '4' {
        4
    } else if c == '5' {
        5
    } else if c == '6' {
        6
    } else if c == '7' {
        7
    } else if c == '8' {
        8
    } else if c == '9' {
        9
    } else {
        -1
    }
}

pub open spec fn is_digit(c: char) -> bool {
    digit_val(c) >= 0
}

pub open spec fn all_digits(s: Seq<char>) -> bool {
    forall|i: int| 0 <= i < s.len() ==> is_digit(#[trigger] s[i])
}

/// The decimal digits of a nonnegative integer, most significant first.
pub open spec fn dec_rep(n: int) -> Seq<char>
    decreases n,
{
    if n < 10 {
        seq![digit_char(n)]
    } else {
        dec_rep(n / 10).push(digit_char(n % 10))
    }
}

/// The integer a digit string denotes.
pub open spec fn parse_dec(s: Seq<char>) -> int
    decreases s.len(),
{
    if s.len() == 0 {
        0
    } else {
        parse_dec(s.drop_last()) * 10 + digit_val(s.last())
    }
}

/// Whether a character must be escaped inside a quoted text payload.
pub open spec fn needs_escape(c: char) -> bool {
    c == '"' || c == '\\'
}

/// The encoded form of one character of a text payload.
pub open spec fn esc1(c: char) -> Seq<char> {
    if needs_escape(c) {
        seq!['\\', c]
    } else {
        seq![c]
    }
}

/// The escaped form of a text payload.
pub open spec fn escape(s: Seq<char>) -> Seq<char>
    decreases s.len(),
{
    if s.len() == 0 {
        Seq::empty()
    } else {
        esc1(s[0]) + escape(s.skip(1))
    }
}

/// The inverse of escaping: `None` when the string is not a well-formed
/// escaped form (a bare quote, a dangling backslash, or a backslash before
/// anything but a quote or a backslash).
pub open spec fn unescape(s: Seq<char>) -> Option<Seq<char>>
    decreases s.len(),
{
    if s.len() == 0 {
        Some(Seq::empty())
    } else if s[0] == '\\' {
        if s.len() >= 2 && (s[1] == '"' || s[1] == '\\') {
            match unescape(s.skip(2)) {
                None => None,
                Some(t) => Some(seq![s[1]] + t),
            }
        } else {
            None
        }
    } else if s[0] == '"' {
        None
    } else {
        match unescape(s.skip(1)) {
            None => None,
            Some(t) => Some(seq![s[0]] + t),
        }
    }
}

/// The encoded form of a typed payload.
pub open spec fn encode_spec(v: DataView) -> Seq<char> {
    match v {
        DataView::Int(n) => dec_rep(n as int),
        DataView::Text(t) => seq!['"'] + escape(t) + seq!['"'],
    }
}

/// The payload a string decodes to, or `None` when the string encodes no
/// payload: a quoted string yields a text payload when its inside unescapes;
/// anything else yields an integer payload exactly when it is a nonempty
/// digit string whose value is representable.
pub open spec fn decode_spec(s: Seq<char>) -> Option<DataView> {
    if s.len() == 0 {
        None
    } else if s[0] == '"' {
        if s.len() >= 2 && s[s.len() - 1] == '"' {
            match unescape(s.subrange(1, s.len() - 1)) {
                None => None,
                Some(t) => Some(DataView::Text(t)),
            }
        } else {
            None
        }
    } else if all_digits(s) && parse_dec(s) <= u64::MAX {
        Some(DataView::Int(parse_dec(s) as u64))
    } else {
        None
    }
}

/// The decimal digits of a nonnegative integer are nonempty digits denoting
/// the integer itself.
pub proof fn lemma_dec_rep(n: int)
    requires
        n >= 0,
    ensures
        dec_rep(n).len() >= 1,
        all_digits(dec_rep(n)),
        parse_dec(dec_rep(n)) == n,
    decreases n,
{
    if n < 10 {
        let s = dec_rep(n);
        assert(s.drop_last() =~= Seq::<char>::empty());
        assert(parse_dec(Seq::<char>::empty()) == 0);
        assert(parse_dec(s) == digit_val(digit_char(n)));
    } else {
        lemma_fundamental_div_mod(n, 10);
        lemma_dec_rep(n / 10);
        let s = dec_rep(n);
        assert(s.drop_last() =~= dec_rep(n / 10));
        assert(s.last() == digit_char(n % 10));
        assert(parse_dec(s) == (n / 10) * 10 + n % 10);
        assert forall|i: int| 0 <= i < s.len() implies is_digit(#[trigger] s[i]) by {
            if i < s.len() - 1 {
                assert(s[i] == dec_rep(n / 10)[i]);
            }
        }
    }
}

/// A digit string denotes a nonnegative integer.
pub proof fn lemma_parse_nonneg(s: Seq<char>)
    requires
        all_digits(s),
    ensures
        parse_dec(s) >= 0,
    decreases s.len(),
{
    if s.len() > 0 {
        assert(all_digits(s.drop_last())) by {
            assert forall|i: int| 0 <= i < s.drop_last().len() implies is_digit(
                #[trigger] s.drop_last()[i],
            ) by {
                assert(s.drop_last()[i] == s[i]);
            }
        }
        lemma_parse_nonneg(s.drop_last());
        assert(is_digit(s.last()));
    }
}

/// Every prefix of a digit string denotes at most what the whole string
/// denotes.
pub proof fn lemma_parse_prefix_le(s: Seq<char>, i: int)
    requires
        all_digits(s),
        0 <= i <= s.len(),
    ensures
        parse_dec(s.take(i)) <= parse_dec(s),
    decreases s.len() - i,
{
    if i < s.len() {
        assert(all_digits(s.take(i))) by {
            assert forall|j: int| 0 <= j < s.take(i).len() implies is_digit(
                #[trigger] s.take(i)[j],
            ) by {
                assert(s.take(i)[j] == s[j]);
            }
        }
        lemma_parse_nonneg(s.take(i));
        assert(s.take(i + 1).drop_last() =~= s.take(i));
        assert(s.take(i + 1).last() == s[i]);
        assert(parse_dec(s.take(i + 1)) == parse_dec(s.take(i)) * 10 + digit_val(s[i]));
        assert(parse_dec(s.take(i)) <= parse_dec(s.take(i + 1)));
        lemma_parse_prefix_le(s, i + 1);
        assert(s.take(s.len() as int) =~= s);
    } else {
        assert(s.take(i) =~= s);
    }
}

/// Escaping one more character appends its encoded form.
pub proof fn lemma_escape_snoc(s: Seq<char>, c: char)
    ensures
        escape(s.push(c)) == escape(s) + esc1(c),
    decreases s.len(),
{
    if s.len() == 0 {
        assert(s.push(c)[0] == c);
        assert(s.push(c).skip(1) =~= Seq::<char>::empty());
        assert(escape(Seq::<char>::empty()) =~= Seq::<char>::empty());
        assert(escape(s.push(c)) =~= esc1(c));
        assert(escape(s) + esc1(c) =~= esc1(c));
    } else {
        assert(s.push(c)[0] == s[0]);
        assert(s.push(c).skip(1) =~= s.skip(1).push(c));
        lemma_escape_snoc(s.skip(1), c);
        assert(escape(s.push(c)) == esc1(s[0]) + (escape(s.skip(1)) + esc1(c)));
        assert(esc1(s[0]) + (escape(s.skip(1)) + esc1(c)) =~= (esc1(s[0]) + escape(s.skip(1)))
            + esc1(c));
    }
}

/// Unescaping is the exact inverse of escaping.
pub proof fn lemma_unescape_escape(s: Seq<char>)
    ensures
        unescape(escape(s)) == Some(s),
    decreases s.len(),
{
    if s.len() == 0 {
        assert(unescape(escape(s)) == Some(Seq::<char>::empty()));
        assert(Seq::<char>::empty() =~= s);
    } else {
        let c = s[0];
        let rest = s.skip(1);
        lemma_unescape_escape(rest);
        let e = escape(s);
        assert(e == esc1(c) + escape(rest));
        if needs_escape(c) {
            assert(e[0] == '\\');
            assert(e[1] == c);
            assert(e.len() >= 2);
            assert(e.skip(2) =~= escape(rest));
            let t = unescape(escape(rest))->Some_0;
            assert(unescape(e) == Some(seq![c] + t));
            assert(seq![c] + t =~= s);
        } else {
            assert(e[0] == c);
            assert(c != '\\' && c != '"');
            assert(e.skip(1) =~= escape(rest));
            let t = unescape(escape(rest))->Some_0;
            assert(unescape(e) == Some(seq![c] + t));
            assert(seq![c] + t =~= s);
        }
    }
}

/// Law — round trip: decoding an encoded payload yields the payload back,
/// for every typed payload value.
pub proof fn lemma_round_trip(v: DataView)
    ensures
        decode_spec(encode_spec(v)) == Some(v),
{
    match v {
        DataView::Int(n) => {
            lemma_dec_rep(n as int);
            let s = dec_rep(n as int);
            assert(is_digit(s[0]));
            assert(s[0] != '"');
        },
        DataView::Text(t) => {
            let s = encode_spec(v);
            assert(s[0] == '"');
            assert(s.len() >= 2);
            assert(s[s.len() - 1] == '"');
            assert(s.subrange(1, s.len() - 1) =~= escape(t));
            lemma_unescape_escape(t);
        },
    }
}

/// The codec's output: an opaque text payload produced and consumed by the
/// `Json` codec.
#[derive(Clone, Debug, PartialEq, Eq)]
pub struct JsonString(pub String);

impl View for JsonString {
    type V = Seq<char>;

    open spec fn view(&self) -> Seq<char> {
        self.0@
    }
}

/// The reference codec between typed payloads and text payloads.
#[derive(Clone, Copy, Debug)]
pub struct Json;

impl Json {
    /// Encodes a typed payload. Every payload value can be encoded, so this
    /// never fails.
    pub fn serialize(value: &DataValue) -> (r: JsonString)
        ensures
            r@ == encode_spec(value@),
    {
        match value {
            DataValue::Int(n) => {
                let digits = Self::int_chars(*n);
                JsonString(crate::support::chars_to_string(&digits))
            },
            DataValue::Text(s) => {
                let chars = crate::support::string_to_chars(s);
                let mut out: Vec<char> = Vec::new();
                out.push('"');
                proof {
                    assert(out@ =~= seq!['"'] + escape(chars@.take(0)));
                }
                let mut i: usize = 0;
                while i < chars.len()
                    invariant
                        0 <= i <= chars.len(),
                        chars@ == s@,
                        out@ == seq!['"'] + escape(chars@.take(i as int)),
                    decreases chars.len() - i,
                {
                    let c = chars[i];
                    if c == '"' || c == '\\' {
                        out.push('\\');
                        out.push(c);
                    } else {
                        out.push(c);
                    }
                    proof {
                        assert(chars@.take(i + 1) =~= chars@.take(i as int).push(chars@[i as int]));
                        lemma_escape_snoc(chars@.take(i as int), chars@[i as int]);
                        assert(out@ =~= seq!['"'] + escape(chars@.take(i + 1)));
                    }
                    i = i + 1;
                }
                out.push('"');
                proof {
                    assert(chars@.take(chars@.len() as int) =~= chars@);
                    assert(out@ =~= seq!['"'] + escape(s@) + seq!['"']);
                }
                JsonString(crate::support::chars_to_string(&out))
            },
        }
    }

    /// The decimal digits of an integer.
    fn int_chars(n: u64) -> (v: Vec<char>)
        ensures
            v@ == dec_rep(n as int),
        decreases n,
    {
        if n < 10 {
            let mut v: Vec<char> = Vec::new();
            v.push(Self::digit_char_of(n));
            proof {
                assert(v@ =~= seq![digit_char(n as int)]);
            }
            v
        } else {
            let mut v = Self::int_chars(n / 10);
            v.push(Self::digit_char_of(n % 10));
            v
        }
    }

    pub(crate) fn digit_char_of(d: u64) -> (c: char)
        requires
            d < 10,
        ensures
            c == digit_char(d as int),
    {
        match d {
            0 => '0',
            1 => '1',
            2 => '2',
            3 => '3',
            4 => '4',
            5 => '5',
            6 => '6',
            7 => '7',
            8 => '8',
            _ => '9',
        }
    }

    pub(crate) fn digit_value(c: char) -> (r: Option<u64>)
        ensures
            r is Some <==> is_digit(c),
            r matches Some(d) ==> d == digit_val(c),
    {
        match c {
            '0' => Some(0),
            '1' => Some(1),
            '2' => Some(2),
            '3' => Some(3),
            '4' => Some(4),
            '5' => Some(5),
            '6' => Some(6),
            '7' => Some(7),
            '8' => Some(8),
            '9' => Some(9),
            _ => None,
        }
    }

    /// Decodes a text payload back into a typed payload. Succeeds exactly on
    /// the strings that encode a payload, with the payload they encode;
    /// every other string is rejected with a serialization error.
    pub fn deserialize(value: &JsonString) -> (r: Result<DataValue, AccessError>)
        ensures
            r is Ok <==> decode_spec(value@) is Some,
            r matches Ok(v) ==> decode_spec(value@) == Some(v@),
            r matches Err(e) ==> e matches AccessError::Serialization(_),
    {
        let chars = crate::support::string_to_chars(&value.0);
        if chars.len() == 0 {
            return Err(AccessError::serialization(malformed_note()));
        }
        let first = chars[0];
        if first == '"' {
            Self::decode_text(&chars)
        } else {
            Self::decode_int(&chars)
        }
    }

    /// Decodes a quoted text payload.
    fn decode_text(chars: &Vec<char>) -> (r: Result<DataValue, AccessError>)
        requires
            chars@.len() > 0,
            chars@[0] == '"',
        ensures
            r is Ok <==> decode_spec(chars@) is Some,
            r matches Ok(v) ==> decode_spec(chars@) == Some(v@),
            r matches Err(e) ==> e matches AccessError::Serialization(_),
    {
        let n = chars.len();
        if n < 2 || chars[n - 1] != '"' {
            return Err(AccessError::serialization(malformed_note()));
        }
        let ghost inner = chars@.subrange(1, chars@.len() - 1);
        let end = n - 1;
        let mut out: Vec<char> = Vec::new();
        let mut i: usize = 1;
        proof {
            assert(chars@.subrange(1, 1int) =~= Seq::<char>::empty());
            assert(inner =~= chars@.subrange(i as int, end as int));
        }
        while i < end
            invariant
                1 <= i <= end,
                end == chars@.len() - 1,
                chars@.len() >= 2,
                unescape(inner) == match unescape(chars@.subrange(i as int, end as int)) {
                    None => None::<Seq<char>>,
                    Some(t) => Some(out@ + t),
                },
                inner == chars@.subrange(1, chars@.len() - 1),
            decreases end - i,
        {
            let ghost suffix = chars@.subrange(i as int, end as int);
            let c = chars[i];
            proof {
                assert(suffix[0] == chars@[i as int]);
            }
            if c == '\\' {
                if i + 1 < end {
                    let c2 = chars[i + 1];
                    proof {
                        assert(suffix[1] == chars@[i + 1]);
                    }
                    if c2 == '"' || c2 == '\\' {
                        out.push(c2);
                        proof {
                            assert(suffix.skip(2) =~= chars@.subrange(i + 2, end as int));
                            if unescape(chars@.subrange(i + 2, end as int)) is Some {
                                let t = unescape(chars@.subrange(i + 2, end as int))->Some_0;
                                assert(out@ + t =~= out@.drop_last() + (seq![c2] + t));
                            }
                        }
                        i = i + 2;
                    } else {
                        return Err(AccessError::serialization(malformed_note()));
                    }
                } else {
                    proof {
                        assert(suffix.len() < 2);
                    }
                    return Err(AccessError::serialization(malformed_note()));
                }
            } else if c == '"' {
                return Err(AccessError::serialization(malformed_note()));
            } else {
                out.push(c);
                proof {
                    assert(suffix.skip(1) =~= chars@.subrange(i + 1, end as int));
                    if unescape(chars@.subrange(i + 1, end as int)) is Some {
                        let t = unescape(chars@.subrange(i + 1, end as int))->Some_0;
                        assert(out@ + t =~= out@.drop_last() + (seq![c] + t));
                    }
                }
                i = i + 1;
            }
        }
        proof {
            assert(chars@.subrange(end as int, end as int) =~= Seq::<char>::empty());
            assert(unescape(inner) == Some(out@ + Seq::<char>::empty()));
            assert(out@ + Seq::<char>::empty() =~= out@);
        }
        Ok(DataValue::Text(crate::support::chars_to_string(&out)))
    }

    /// Decodes a decimal integer payload.
    fn decode_int(chars: &Vec<char>) -> (r: Result<DataValue, AccessError>)
        requires
            chars@.len() > 0,
            chars@[0] != '"',
        ensures
            r is Ok <==> decode_spec(chars@) is Some,
            r matches Ok(v) ==> decode_spec(chars@) == Some(v@),
            r matches Err(e) ==> e matches AccessError::Serialization(_),
    {
        let mut acc: u64 = 0;
        let mut i: usize = 0;
        proof {
            assert(parse_dec(chars@.take(0)) == 0);
        }
        while i < chars.len()
            invariant
                0 <= i <= chars@.len(),
                chars@.len() > 0,
                chars@[0] != '"',
                acc == parse_dec(chars@.take(i as int)),
                forall|j: int| 0 <= j < i ==> is_digit(#[trigger] chars@[j]),
            decreases chars@.len() - i,
        {
            let c = chars[i];
            let d: u64 = match Self::digit_value(c) {
                Some(d) => d,
                None => {
                    proof {
                        assert(!is_digit(chars@[i as int]));
                        assert(!all_digits(chars@));
                        assert(decode_spec(chars@) is None);
                    }
                    return Err(AccessError::serialization(malformed_note()));
                },
            };
            proof {
                assert(chars@.take(i + 1).drop_last() =~= chars@.take(i as int));
                assert(chars@.take(i + 1).last() == chars@[i as int]);
                lemma_fundamental_div_mod((u64::MAX - d) as int, 10);
            }
            let limit = (u64::MAX - d) / 10;
            if acc > limit {
                proof {
                    assert((u64::MAX - d) as int == 10 * ((u64::MAX - d) as int / 10) + (u64::MAX
                        - d) as int % 10);
                    assert(0 <= (u64::MAX - d) as int % 10 < 10);
                    assert(acc * 10 + d > u64::MAX);
                    assert(parse_dec(chars@.take(i + 1)) == acc * 10 + digit_val(chars@[i as int]));
                    assert(parse_dec(chars@.take(i + 1)) > u64::MAX);
                    if all_digits(chars@) {
                        lemma_parse_prefix_le(chars@, i + 1);
                        assert(parse_dec(chars@) > u64::MAX);
                    }
                    assert(decode_spec(chars@) is None);
                }
                return Err(AccessError::serialization(malformed_note()));
            }
            acc = acc * 10 + d;
            i = i + 1;
        }
        proof {
            assert(chars@.take(chars@.len() as int) =~= chars@);
        }
        Ok(DataValue::Int(acc))
    }
}

/// The note carried by a serialization error for a malformed payload.
fn malformed_note() -> String {
    "malformed payload".to_owned()
}

} // verus!
