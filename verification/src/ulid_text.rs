//! The text of a ULID: twenty-six base-32 digits.

use vstd::prelude::*;

use crate::ids::Ulid;
use crate::text::string_of;

verus! {

/// The digits of a ULID's text.
pub const ULID_LEN: usize = 26;

/// The base-32 digit of a value below thirty-two: the digits and the letters
/// without I, L, O and U.
pub open spec fn base32_digit(n: int) -> char {
    if n < 10 {
        (48 + n) as char
    } else if n < 18 {
        (55 + n) as char
    } else if n < 20 {
        (56 + n) as char
    } else if n < 22 {
        (57 + n) as char
    } else if n < 27 {
        (58 + n) as char
    } else {
        (59 + n) as char
    }
}

/// The value of a base-32 digit, a letter in either case.
pub open spec fn base32_value(c: char) -> Option<int> {
    let u = c as u32;
    let v = if 97 <= u <= 122 {
        u - 32
    } else {
        u as int
    };
    if 48 <= v <= 57 {
        Some(v - 48)
    } else if 65 <= v <= 72 {
        Some(v - 55)
    } else if 74 <= v <= 75 {
        Some(v - 56)
    } else if 77 <= v <= 78 {
        Some(v - 57)
    } else if 80 <= v <= 84 {
        Some(v - 58)
    } else if 86 <= v <= 90 {
        Some(v - 59)
    } else {
        None
    }
}

/// The lowest `n` base-32 digits of `v`.
pub open spec fn base32_text(v: int, n: nat) -> Seq<char>
    decreases n,
{
    if n == 0 {
        Seq::empty()
    } else {
        base32_text(v / 32, (n - 1) as nat).push(base32_digit(v % 32))
    }
}

/// The number that base-32 digits stand for.
pub open spec fn base32_number(text: Seq<char>) -> Option<int>
    decreases text.len(),
{
    if text.len() == 0 {
        Some(0)
    } else {
        match (base32_number(text.drop_last()), base32_value(text.last())) {
            (Some(above), Some(digit)) => Some(32 * above + digit),
            _ => None,
        }
    }
}

impl Ulid {
    /// The text of the ULID.
    pub open spec fn text(self) -> Seq<char> {
        base32_text(self.value as int, 26)
    }

    /// The ULID of a time in milliseconds and a random number: the lowest 48
    /// bits of the one above the lowest 80 bits of the other.
    pub fn from_parts(timestamp_ms: u64, random: u128) -> (u: Self)
        ensures
            u.value == (timestamp_ms % 0x1_0000_0000_0000) * 0x1_0000_0000_0000_0000_0000 + random
                % 0x1_0000_0000_0000_0000_0000,
    {
        let time: u128 = (timestamp_ms % 0x1_0000_0000_0000) as u128;
        Ulid {
            value: time * 0x1_0000_0000_0000_0000_0000 + random % 0x1_0000_0000_0000_0000_0000,
        }
    }
}

/// What `text` says as a ULID: twenty-six digits. Of a number past 128 bits
/// the lowest 128 bits count.
pub open spec fn ulid_read(text: Seq<char>) -> Option<Ulid> {
    match base32_number(text) {
        Some(v) if text.len() == 26 => Some(
            Ulid { value: (v % 0x1_0000_0000_0000_0000_0000_0000_0000_0000int) as u128 },
        ),
        _ => None,
    }
}

/// `ulid::Ulid::to_string`: the twenty-six base-32 digits of the value.
#[verifier::external_body]
fn ulid_to_string(value: u128) -> (s: String)
    ensures
        s@ == base32_text(value as int, 26),
{
    ulid::Ulid(value).to_string()
}

/// `ulid::Ulid::from_string`: the number of twenty-six base-32 digits, of
/// either case, modulo two to the 128th; nothing of any other string.
#[verifier::external_body]
fn ulid_from_string(s: &str) -> (value: Option<u128>)
    ensures
        value is Some == (s@.len() == 26 && base32_number(s@) is Some),
        value matches Some(v) ==> v == base32_number(s@)->0
            % 0x1_0000_0000_0000_0000_0000_0000_0000_0000int,
{
    ulid::Ulid::from_string(s).ok().map(|u| u.0)
}

impl Ulid {
    /// The text of the ULID.
    pub fn to_text(&self) -> (s: String)
        ensures
            s@ == self.text(),
    {
        ulid_to_string(self.value)
    }

    /// The ULID that a string says.
    pub fn from_string(s: &str) -> (u: Option<Ulid>)
        ensures
            u == ulid_read(s@),
    {
        match ulid_from_string(s) {
            Some(value) => Some(Ulid { value }),
            None => None,
        }
    }

    /// The ULID that some characters say.
    pub fn from_chars(chars: &[char]) -> (u: Option<Ulid>)
        ensures
            u == ulid_read(chars@),
    {
        let s = string_of(chars);
        Ulid::from_string(s.as_str())
    }
}

/// Thirty-two to the `n`th.
pub open spec fn power32(n: nat) -> int
    decreases n,
{
    if n == 0 {
        1
    } else {
        32 * power32((n - 1) as nat)
    }
}

proof fn lemma_number_of_text(v: int, n: nat)
    requires
        0 <= v < power32(n),
    ensures
        base32_number(base32_text(v, n)) == Some(v),
        base32_text(v, n).len() == n,
    decreases n,
{
    if n > 0 {
        lemma_number_of_text(v / 32, (n - 1) as nat);
        let text = base32_text(v, n);
        assert(text.drop_last() =~= base32_text(v / 32, (n - 1) as nat));
        assert(base32_value(text.last()) == Some(v % 32));
    }
}

proof fn lemma_text_plain(v: int, n: nat)
    requires
        0 <= v,
    ensures
        base32_text(v, n).len() == n,
        forall|i: int| 0 <= i < n ==> '0' <= #[trigger] base32_text(v, n)[i] <= 'Z',
    decreases n,
{
    if n > 0 {
        lemma_text_plain(v / 32, (n - 1) as nat);
        let before = base32_text(v / 32, (n - 1) as nat);
        assert forall|i: int| 0 <= i < n implies '0' <= #[trigger] base32_text(v, n)[i]
            <= 'Z' by {
            if i < n - 1 {
                assert(base32_text(v, n)[i] == before[i]);
            }
        }
    }
}

/// The text of a ULID is twenty-six digits and capital letters.
pub proof fn lemma_ulid_text_plain(u: Ulid)
    ensures
        u.text().len() == 26,
        forall|i: int| 0 <= i < 26 ==> '0' <= #[trigger] u.text()[i] <= 'Z' && u.text()[i] != '/',
{
    lemma_text_plain(u.value as int, 26);
}

/// The text of a ULID says that ULID.
pub proof fn law_ulid_text_round_trip(u: Ulid)
    ensures
        ulid_read(u.text()) == Some(u),
{
    reveal_with_fuel(power32, 27);
    assert(power32(26) == 0x4_0000_0000_0000_0000_0000_0000_0000_0000int);
    lemma_number_of_text(u.value as int, 26);
}

/// Two ULIDs with the same text are the same.
pub proof fn law_ulid_text_tells(a: Ulid, b: Ulid)
    requires
        a.text() == b.text(),
    ensures
        a == b,
{
    law_ulid_text_round_trip(a);
    law_ulid_text_round_trip(b);
}

/// `a` comes before `b` in the order of the dictionary.
pub open spec fn text_before(a: Seq<char>, b: Seq<char>) -> bool {
    exists|k: int|
        0 <= k < a.len() && k < b.len() && a.take(k) == b.take(k) && (#[trigger] a[k]) < b[k]
}

proof fn lemma_text_order(a: int, b: int, n: nat)
    requires
        0 <= a < b,
        b < power32(n),
    ensures
        text_before(base32_text(a, n), base32_text(b, n)),
    decreases n,
{
    if n > 0 {
        let (ta, tb) = (base32_text(a, n), base32_text(b, n));
        let m = (n - 1) as nat;
        let (pa, pb) = (base32_text(a / 32, m), base32_text(b / 32, m));
        lemma_text_plain(a / 32, m);
        lemma_text_plain(b / 32, m);
        if a / 32 < b / 32 {
            lemma_text_order(a / 32, b / 32, m);
            let k = choose|k: int|
                0 <= k < pa.len() && k < pb.len() && pa.take(k) == pb.take(k) && (#[trigger] pa[k])
                    < pb[k];
            assert(ta.take(k) =~= pa.take(k));
            assert(tb.take(k) =~= pb.take(k));
            assert(ta[k] < tb[k]);
        } else {
            assert(a / 32 == b / 32);
            assert(a % 32 < b % 32);
            assert(ta.take(n - 1) =~= pa);
            assert(tb.take(n - 1) =~= pb);
            assert(ta[n - 1] < tb[n - 1]);
        }
    }
}

/// ULIDs order as their texts do in the dictionary.
pub proof fn law_ulid_order_is_text_order(a: Ulid, b: Ulid)
    ensures
        a.value < b.value ==> text_before(a.text(), b.text()),
{
    if a.value < b.value {
        reveal_with_fuel(power32, 27);
        lemma_text_order(a.value as int, b.value as int, 26);
    }
}

/// The digits of a ULID's text are these thirty-two, and a letter counts in
/// either case.
pub proof fn law_base32_digits(n: int)
    requires
        0 <= n < 32,
    ensures
        base32_digit(n) == "0123456789ABCDEFGHJKMNPQRSTVWXYZ"@[n],
        base32_value("0123456789ABCDEFGHJKMNPQRSTVWXYZ"@[n]) == Some(n),
        base32_value("0123456789abcdefghjkmnpqrstvwxyz"@[n]) == Some(n),
{
    reveal_strlit("0123456789ABCDEFGHJKMNPQRSTVWXYZ");
    reveal_strlit("0123456789abcdefghjkmnpqrstvwxyz");
}

/// A text of another length, or with a character that is no digit, says no
/// ULID.
pub proof fn law_no_other_text_is_a_ulid(text: Seq<char>, i: int)
    ensures
        text.len() != 26 ==> ulid_read(text) is None,
        0 <= i < text.len() && base32_value(text[i]) is None ==> ulid_read(text) is None,
        base32_value('I') is None && base32_value('L') is None && base32_value('O') is None
            && base32_value('U') is None,
{
    lemma_no_number(text, i);
}

proof fn lemma_no_number(text: Seq<char>, i: int)
    ensures
        0 <= i < text.len() && base32_value(text[i]) is None ==> base32_number(text) is None,
    decreases text.len(),
{
    if 0 <= i < text.len() - 1 {
        lemma_no_number(text.drop_last(), i);
        assert(text.drop_last()[i] == text[i]);
    }
}

} // verus!
