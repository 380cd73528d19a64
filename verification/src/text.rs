//! Text as sequences of characters: lines, prefixes, separated fields, and
//! hexadecimal and decimal numerals.

use vstd::prelude::*;
use vstd::string::*;
use vstd::utf8::*;

verus! {

/// The characters of each of a list of character vectors.
pub open spec fn char_seqs(list: Seq<Vec<char>>) -> Seq<Seq<char>> {
    list.map_values(|l: Vec<char>| l@)
}

/// The characters of each of a list of strings.
pub open spec fn string_seqs(list: Seq<String>) -> Seq<Seq<char>> {
    list.map_values(|s: String| s@)
}

/// The characters of `s`.
pub fn chars_of(s: &str) -> (v: Vec<char>)
    ensures
        v@ == s@,
{
    let mut v: Vec<char> = Vec::new();
    for c in it: s.chars()
        invariant
            v@.len() == it.index(),
            it.seq() == s@,
            forall|i: int| 0 <= i < v@.len() ==> v@[i] == it.seq()[i],
    {
        v.push(c);
    }
    assert(v@ =~= s@);
    v
}

/// `String::from_iter`: the string of these characters, in their order.
#[verifier::external_body]
pub(crate) fn string_of(chars: &[char]) -> (s: String)
    ensures
        s@ == chars@,
{
    String::from_iter(chars)
}

/// The UTF-8 bytes of these characters.
pub fn utf8_of(chars: &[char]) -> (bytes: Vec<u8>)
    ensures
        bytes@ == encode_utf8(chars@),
{
    let s = string_of(chars);
    s.as_str().as_bytes_vec()
}

/// Append `more` to `chars`.
pub fn extend_chars(chars: &mut Vec<char>, more: &[char])
    ensures
        final(chars)@ == old(chars)@ + more@,
{
    let mut i: usize = 0;
    while i < more.len()
        invariant
            i <= more@.len(),
            chars@ == old(chars)@ + more@.take(i as int),
        decreases more.len() - i,
    {
        chars.push(more[i]);
        assert(more@.take(i as int + 1) =~= more@.take(i as int).push(more@[i as int]));
        assert(chars@ =~= old(chars)@ + more@.take(i as int + 1));
        i += 1;
    }
    assert(more@.take(more@.len() as int) =~= more@);
}

/// The characters from `from` up to `to`.
pub fn sub_chars(chars: &[char], from: usize, to: usize) -> (v: Vec<char>)
    requires
        from <= to <= chars@.len(),
    ensures
        v@ == chars@.subrange(from as int, to as int),
{
    let mut v: Vec<char> = Vec::new();
    let mut i: usize = from;
    while i < to
        invariant
            from <= i <= to <= chars@.len(),
            v@ == chars@.subrange(from as int, i as int),
        decreases to - i,
    {
        v.push(chars[i]);
        assert(v@ =~= chars@.subrange(from as int, i as int + 1));
        i += 1;
    }
    v
}

/// Whether `chars` are those of `s`.
pub fn chars_equal(chars: &[char], s: &str) -> (b: bool)
    ensures
        b == (chars@ == s@),
{
    let other = chars_of(s);
    if chars.len() != other.len() {
        return false;
    }
    let mut i: usize = 0;
    while i < chars.len()
        invariant
            i <= chars@.len() == other@.len(),
            other@ == s@,
            forall|j: int| 0 <= j < i ==> chars@[j] == other@[j],
        decreases chars.len() - i,
    {
        if chars[i] != other[i] {
            return false;
        }
        i += 1;
    }
    assert(chars@ =~= s@);
    true
}

// ---------------------------------------------------------------------------
// Prefixes and suffixes
// ---------------------------------------------------------------------------

/// What follows `prefix` in `text`, where it begins with it.
pub open spec fn stripped(text: Seq<char>, prefix: Seq<char>) -> Option<Seq<char>> {
    if prefix.len() <= text.len() && text.take(prefix.len() as int) == prefix {
        Some(text.skip(prefix.len() as int))
    } else {
        None
    }
}

/// What follows `prefix` in `text`, where it begins with it.
pub fn strip_prefix(text: &[char], prefix: &str) -> (rest: Option<Vec<char>>)
    ensures
        rest is Some == stripped(text@, prefix@) is Some,
        rest matches Some(r) ==> stripped(text@, prefix@) == Some(r@),
{
    let p = chars_of(prefix);
    if p.len() > text.len() {
        return None;
    }
    let mut i: usize = 0;
    while i < p.len()
        invariant
            i <= p@.len() <= text@.len(),
            p@ == prefix@,
            forall|j: int| 0 <= j < i ==> text@[j] == p@[j],
        decreases p.len() - i,
    {
        if text[i] != p[i] {
            assert(text@.take(p@.len() as int)[i as int] != p@[i as int]);
            return None;
        }
        i += 1;
    }
    assert(text@.take(p@.len() as int) =~= p@);
    let rest = sub_chars(text, p.len(), text.len());
    assert(rest@ =~= text@.skip(p@.len() as int));
    Some(rest)
}

/// What precedes `suffix` in `text`, where it ends with it.
pub open spec fn without_suffix(text: Seq<char>, suffix: Seq<char>) -> Option<Seq<char>> {
    if suffix.len() <= text.len() && text.skip(text.len() - suffix.len()) == suffix {
        Some(text.take(text.len() - suffix.len()))
    } else {
        None
    }
}

/// What precedes `suffix` in `text`, where it ends with it.
pub fn strip_suffix(text: &[char], suffix: &str) -> (rest: Option<Vec<char>>)
    ensures
        rest is Some == without_suffix(text@, suffix@) is Some,
        rest matches Some(r) ==> without_suffix(text@, suffix@) == Some(r@),
{
    let p = chars_of(suffix);
    if p.len() > text.len() {
        return None;
    }
    let at: usize = text.len() - p.len();
    let mut i: usize = 0;
    while i < p.len()
        invariant
            i <= p@.len() <= text@.len(),
            at + p@.len() == text.len(),
            p@ == suffix@,
            forall|j: int| 0 <= j < i ==> text@[at + j] == p@[j],
        decreases p.len() - i,
    {
        if text[at + i] != p[i] {
            assert(text@.skip(at as int)[i as int] != p@[i as int]);
            return None;
        }
        i += 1;
    }
    assert(text@.skip(at as int) =~= p@);
    let rest = sub_chars(text, 0, at);
    assert(rest@ =~= text@.take(at as int));
    Some(rest)
}

// ---------------------------------------------------------------------------
// Lines
// ---------------------------------------------------------------------------

/// Where the first `mark` stands, or the length where there is none.
pub open spec fn first_mark(text: Seq<char>, mark: char) -> int
    decreases text.len(),
{
    if text.len() == 0 || text[0] == mark {
        0
    } else {
        1 + first_mark(text.drop_first(), mark)
    }
}

/// The place of the first `mark` is the only one with none before it.
pub proof fn lemma_first_mark(text: Seq<char>, mark: char, k: int)
    requires
        0 <= k <= text.len(),
        forall|j: int| 0 <= j < k ==> text[j] != mark,
        k < text.len() ==> text[k] == mark,
    ensures
        first_mark(text, mark) == k,
    decreases text.len(),
{
    if text.len() > 0 && text[0] != mark {
        let rest = text.drop_first();
        assert forall|j: int| 0 <= j < k - 1 implies rest[j] != mark by {
            assert(text[j + 1] != mark);
        }
        lemma_first_mark(rest, mark, k - 1);
    }
}

/// The first `mark` is within the text, and none stands before it.
pub proof fn lemma_first_mark_bounds(text: Seq<char>, mark: char)
    ensures
        0 <= first_mark(text, mark) <= text.len(),
        first_mark(text, mark) < text.len() ==> text[first_mark(text, mark)] == mark,
        forall|j: int| 0 <= j < first_mark(text, mark) ==> text[j] != mark,
    decreases text.len(),
{
    if text.len() > 0 && text[0] != mark {
        let rest = text.drop_first();
        lemma_first_mark_bounds(rest, mark);
        assert forall|j: int| 0 <= j < first_mark(text, mark) implies text[j] != mark by {
            if j > 0 {
                assert(rest[j - 1] != mark);
            }
        }
    }
}

/// Where the first `mark` stands, or the length where there is none.
pub fn find_mark(text: &[char], mark: char) -> (k: usize)
    ensures
        k == first_mark(text@, mark),
        k <= text@.len(),
{
    let mut k: usize = 0;
    while k < text.len()
        invariant
            k <= text@.len(),
            forall|j: int| 0 <= j < k ==> text@[j] != mark,
        decreases text.len() - k,
    {
        if text[k] == mark {
            proof {
                lemma_first_mark(text@, mark, k as int);
            }
            return k;
        }
        k += 1;
    }
    proof {
        lemma_first_mark(text@, mark, k as int);
    }
    k
}

/// A line without a carriage return that ended it.
pub open spec fn chomped(line: Seq<char>) -> Seq<char> {
    if line.len() > 0 && line.last() == '\r' {
        line.drop_last()
    } else {
        line
    }
}

/// The lines of a text: each ends in a line feed, or a carriage return and a
/// line feed, and the last may end with the text.
pub open spec fn lines(text: Seq<char>) -> Seq<Seq<char>>
    decreases text.len(),
    via lines_end
{
    let end = first_mark(text, '\n');
    if text.len() == 0 {
        Seq::empty()
    } else if end < text.len() {
        seq![chomped(text.take(end))] + lines(text.skip(end + 1))
    } else {
        seq![text]
    }
}

#[via_fn]
proof fn lines_end(text: Seq<char>) {
    lemma_first_mark_bounds(text, '\n');
}

/// The lines of a text.
pub fn split_lines(text: &[char]) -> (out: Vec<Vec<char>>)
    ensures
        char_seqs(out@) == lines(text@),
{
    let mut out: Vec<Vec<char>> = Vec::new();
    let mut pos: usize = 0;
    proof {
        assert(text@.skip(0) =~= text@);
        assert(char_seqs(out@) + lines(text@) =~= lines(text@));
    }
    while pos < text.len()
        invariant
            pos <= text@.len(),
            char_seqs(out@) + lines(text@.skip(pos as int)) == lines(text@),
        decreases text.len() - pos,
    {
        let ghost rest = text@.skip(pos as int);
        let ghost before = char_seqs(out@);
        let mut end: usize = pos;
        while end < text.len() && text[end] != '\n'
            invariant
                pos <= end <= text@.len(),
                rest == text@.skip(pos as int),
                forall|j: int| 0 <= j < end - pos ==> rest[j] != '\n',
            decreases text.len() - end,
        {
            end += 1;
        }
        proof {
            lemma_first_mark(rest, '\n', end - pos);
        }
        if end < text.len() {
            let line = if end > pos && text[end - 1] == '\r' {
                sub_chars(text, pos, end - 1)
            } else {
                sub_chars(text, pos, end)
            };
            proof {
                assert(rest.take(end - pos) =~= text@.subrange(pos as int, end as int));
                assert(line@ =~= chomped(rest.take(end - pos)));
                assert(rest.skip(end - pos + 1) =~= text@.skip(end + 1));
                assert(char_seqs(out@.push(line)) =~= before + seq![line@]);
                assert((before + seq![line@]) + lines(text@.skip(end + 1)) =~= before + (seq![
                    line@,
                ] + lines(text@.skip(end + 1))));
            }
            out.push(line);
            pos = end + 1;
        } else {
            let line = sub_chars(text, pos, end);
            proof {
                assert(line@ =~= rest);
                assert(char_seqs(out@.push(line)) =~= before + seq![line@]);
                assert(text@.skip(text@.len() as int) =~= Seq::<char>::empty());
                assert((before + seq![line@]) + lines(text@.skip(text@.len() as int)) =~= before
                    + seq![line@]);
            }
            out.push(line);
            pos = end;
        }
    }
    assert(text@.skip(pos as int) =~= Seq::<char>::empty());
    assert(char_seqs(out@) + lines(text@.skip(pos as int)) =~= char_seqs(out@));
    out
}

/// The text of these lines, a line feed after each.
pub open spec fn unlines(list: Seq<Seq<char>>) -> Seq<char>
    decreases list.len(),
{
    if list.len() == 0 {
        Seq::empty()
    } else {
        (unlines(list.drop_last()) + list.last()).push('\n')
    }
}

/// The text of these lines.
pub fn join_lines(list: &Vec<Vec<char>>) -> (text: Vec<char>)
    ensures
        text@ == unlines(char_seqs(list@)),
{
    let mut text: Vec<char> = Vec::new();
    let mut i: usize = 0;
    let ghost seqs = char_seqs(list@);
    while i < list.len()
        invariant
            i <= list@.len(),
            seqs == char_seqs(list@),
            text@ == unlines(seqs.take(i as int)),
        decreases list.len() - i,
    {
        extend_chars(&mut text, list[i].as_slice());
        text.push('\n');
        proof {
            let here = seqs.take(i as int + 1);
            assert(here.drop_last() =~= seqs.take(i as int));
            assert(here.last() == list@[i as int]@);
        }
        i += 1;
    }
    assert(seqs.take(list@.len() as int) =~= seqs);
    text
}

/// A line that `lines` gives back as it is.
pub open spec fn is_line(line: Seq<char>) -> bool {
    &&& forall|i: int| 0 <= i < line.len() ==> line[i] != '\n'
    &&& line.len() > 0 ==> line.last() != '\r'
}

proof fn lemma_unlines_first(list: Seq<Seq<char>>)
    requires
        list.len() > 0,
    ensures
        unlines(list) == list[0].push('\n') + unlines(list.skip(1)),
    decreases list.len(),
{
    if list.len() == 1 {
        assert(list.drop_last() =~= Seq::<Seq<char>>::empty());
        assert(list.skip(1) =~= Seq::<Seq<char>>::empty());
        assert(unlines(list) =~= list[0].push('\n') + unlines(list.skip(1)));
    } else {
        lemma_unlines_first(list.drop_last());
        assert(list.drop_last().skip(1) =~= list.skip(1).drop_last());
        assert(list.skip(1).last() == list.last());
        assert(unlines(list) =~= list[0].push('\n') + unlines(list.skip(1)));
    }
}

/// The lines of the text of some lines are those lines, where none holds a
/// line feed or ends in a carriage return.
pub proof fn law_lines_of_unlines(list: Seq<Seq<char>>)
    requires
        forall|i: int| 0 <= i < list.len() ==> is_line(#[trigger] list[i]),
    ensures
        lines(unlines(list)) == list,
    decreases list.len(),
{
    if list.len() > 0 {
        lemma_unlines_first(list);
        let text = unlines(list);
        let line = list[0];
        assert(is_line(line));
        lemma_first_mark(text, '\n', line.len() as int);
        assert(text.take(line.len() as int) =~= line);
        assert(text.skip(line.len() as int + 1) =~= unlines(list.skip(1)));
        assert forall|i: int| 0 <= i < list.skip(1).len() implies is_line(
            #[trigger] list.skip(1)[i],
        ) by {
            assert(is_line(list[i + 1]));
        }
        law_lines_of_unlines(list.skip(1));
        assert(lines(text) =~= list);
    }
}

// ---------------------------------------------------------------------------
// Separated fields
// ---------------------------------------------------------------------------

/// The fields with `sep` between each and the next.
pub open spec fn joined(fields: Seq<Seq<char>>, sep: char) -> Seq<char>
    decreases fields.len(),
{
    if fields.len() == 0 {
        Seq::empty()
    } else if fields.len() == 1 {
        fields[0]
    } else {
        joined(fields.drop_last(), sep).push(sep) + fields.last()
    }
}

/// The fields with `sep` between each and the next.
pub fn join_fields(fields: &Vec<Vec<char>>, sep: char) -> (text: Vec<char>)
    ensures
        text@ == joined(char_seqs(fields@), sep),
{
    let mut text: Vec<char> = Vec::new();
    let mut i: usize = 0;
    let ghost seqs = char_seqs(fields@);
    while i < fields.len()
        invariant
            i <= fields@.len(),
            seqs == char_seqs(fields@),
            text@ == joined(seqs.take(i as int), sep),
        decreases fields.len() - i,
    {
        if i > 0 {
            text.push(sep);
        }
        extend_chars(&mut text, fields[i].as_slice());
        proof {
            let here = seqs.take(i as int + 1);
            assert(here.drop_last() =~= seqs.take(i as int));
            assert(here.last() == fields@[i as int]@);
            assert(text@ =~= joined(here, sep));
        }
        i += 1;
    }
    assert(seqs.take(fields@.len() as int) =~= seqs);
    text
}

/// No field holds `sep`.
pub open spec fn sep_free(fields: Seq<Seq<char>>, sep: char) -> bool {
    forall|i: int, j: int|
        0 <= i < fields.len() && 0 <= j < fields[i].len() ==> #[trigger] fields[i][j] != sep
}

/// The joined text tells the fields, where their number is known and none
/// holds the separator.
pub proof fn law_joined_tells(a: Seq<Seq<char>>, b: Seq<Seq<char>>, sep: char)
    requires
        a.len() == b.len(),
        sep_free(a, sep),
        sep_free(b, sep),
        joined(a, sep) == joined(b, sep),
    ensures
        a == b,
    decreases a.len(),
{
    if a.len() == 0 {
        assert(a =~= b);
    } else if a.len() == 1 {
        assert(a =~= b);
    } else {
        let text = joined(a, sep);
        let (al, bl) = (a.last(), b.last());
        let (ai, bi) = (text.len() - al.len(), text.len() - bl.len());
        let (af, bf) = (joined(a.drop_last(), sep), joined(b.drop_last(), sep));
        assert(text[ai - 1] == sep);
        assert(text[bi - 1] == sep);
        if ai < bi {
            assert(text[bi - 1] == al[bi - 1 - ai]);
            assert(a[a.len() - 1][bi - 1 - ai] != sep);
        }
        if bi < ai {
            assert(text[ai - 1] == bl[ai - 1 - bi]);
            assert(b[b.len() - 1][ai - 1 - bi] != sep);
        }
        assert(al =~= text.skip(ai));
        assert(bl =~= text.skip(bi));
        assert(af =~= text.take(ai - 1));
        assert(bf =~= text.take(bi - 1));
        assert(sep_free(a.drop_last(), sep));
        assert(sep_free(b.drop_last(), sep));
        law_joined_tells(a.drop_last(), b.drop_last(), sep);
        assert(a =~= a.drop_last().push(al));
        assert(b =~= b.drop_last().push(bl));
    }
}

/// The UTF-8 bytes of the fields with a NUL between each and the next.
pub fn nul_separated(fields: &Vec<Vec<char>>) -> (bytes: Vec<u8>)
    ensures
        bytes@ == encode_utf8(joined(char_seqs(fields@), '\0')),
{
    let text = join_fields(fields, '\0');
    utf8_of(text.as_slice())
}

// ---------------------------------------------------------------------------
// Hexadecimal
// ---------------------------------------------------------------------------

/// The hexadecimal digit of a value below sixteen.
pub open spec fn hex_digit(n: int) -> char {
    if n < 10 {
        (48 + n) as char
    } else {
        (87 + n) as char
    }
}

/// The hexadecimal digit of a value below sixteen.
fn hex_char(n: u8) -> (c: char)
    requires
        n < 16,
    ensures
        c == hex_digit(n as int),
{
    if n < 10 {
        (48u8 + n) as char
    } else {
        (87u8 + n) as char
    }
}

/// Two lower-case digits for each byte.
pub open spec fn hex_text(bytes: Seq<u8>) -> Seq<char>
    decreases bytes.len(),
{
    if bytes.len() == 0 {
        Seq::empty()
    } else {
        hex_text(bytes.drop_last()).push(hex_digit(bytes.last() as int / 16)).push(
            hex_digit(bytes.last() as int % 16),
        )
    }
}

/// Two lower-case digits for each byte.
pub fn hex_chars(bytes: &[u8]) -> (text: Vec<char>)
    ensures
        text@ == hex_text(bytes@),
{
    let mut text: Vec<char> = Vec::new();
    let mut i: usize = 0;
    while i < bytes.len()
        invariant
            i <= bytes@.len(),
            text@ == hex_text(bytes@.take(i as int)),
        decreases bytes.len() - i,
    {
        text.push(hex_char(bytes[i] / 16));
        text.push(hex_char(bytes[i] % 16));
        assert(bytes@.take(i as int + 1).drop_last() =~= bytes@.take(i as int));
        i += 1;
    }
    assert(bytes@.take(bytes@.len() as int) =~= bytes@);
    text
}

/// Two lower-case digits for each byte.
pub fn encode_hex(bytes: &[u8]) -> (s: String)
    ensures
        s@ == hex_text(bytes@),
{
    string_of(hex_chars(bytes).as_slice())
}

/// Why a text is no hexadecimal string.
#[derive(Clone, Copy, Debug, PartialEq, Eq, Structural)]
pub enum HexError {
    /// Its length in bytes is odd.
    OddLength,
    /// The two characters at this place are no byte.
    InvalidAt(usize),
}

/// The value of a hexadecimal digit of either case.
pub open spec fn hex_value(b: u8) -> Option<int> {
    if 48 <= b <= 57 {
        Some(b - 48)
    } else if 97 <= b <= 102 {
        Some(b - 87)
    } else if 65 <= b <= 70 {
        Some(b - 55)
    } else {
        None
    }
}

/// The byte that two characters stand for: two digits, or a plus sign and a
/// digit.
pub open spec fn hex_pair(a: u8, b: u8) -> Option<int> {
    match hex_value(b) {
        None => None,
        Some(low) => if a == 43 {
            Some(low)
        } else {
            match hex_value(a) {
                None => None,
                Some(high) => Some(16 * high + low),
            }
        },
    }
}

/// The bytes that an even number of characters stand for, two by two. The
/// first pair that is no byte is the error.
pub open spec fn hex_pairs(text: Seq<u8>) -> Result<Seq<u8>, HexError>
    decreases text.len(),
{
    if text.len() < 2 {
        Ok(Seq::empty())
    } else {
        let n = text.len() - 2;
        match hex_pairs(text.take(n)) {
            Err(e) => Err(e),
            Ok(bytes) => match hex_pair(text[n], text[n + 1]) {
                None => Err(HexError::InvalidAt(n as usize)),
                Some(v) => Ok(bytes.push(v as u8)),
            },
        }
    }
}

/// The bytes that a hexadecimal text stands for.
pub open spec fn hex_decoded(text: Seq<char>) -> Result<Seq<u8>, HexError> {
    let bytes = encode_utf8(text);
    if bytes.len() % 2 != 0 {
        Err(HexError::OddLength)
    } else {
        hex_pairs(bytes)
    }
}

fn hex_digit_value(b: u8) -> (v: Option<u8>)
    ensures
        v is Some == hex_value(b) is Some,
        v matches Some(n) ==> n == hex_value(b)->0 && n < 16,
{
    if 48 <= b && b <= 57 {
        Some(b - 48)
    } else if 97 <= b && b <= 102 {
        Some(b - 87)
    } else if 65 <= b && b <= 70 {
        Some(b - 55)
    } else {
        None
    }
}

proof fn lemma_hex_pairs_err(text: Seq<u8>, k: int)
    requires
        0 <= k <= text.len(),
        text.len() % 2 == 0,
        k % 2 == 0,
        hex_pairs(text.take(k)) is Err,
    ensures
        hex_pairs(text) == hex_pairs(text.take(k)),
    decreases text.len() - k,
{
    if k == text.len() {
        assert(text.take(k) =~= text);
    } else {
        let next = text.take(k + 2);
        assert(next.take(k) =~= text.take(k));
        lemma_hex_pairs_err(text, k + 2);
    }
}

/// The bytes that a hexadecimal text stands for.
pub fn decode_hex_chars(text: &[char]) -> (bytes: Result<Vec<u8>, HexError>)
    ensures
        bytes is Ok == hex_decoded(text@) is Ok,
        bytes matches Ok(v) ==> hex_decoded(text@) == Ok::<Seq<u8>, HexError>(v@),
        bytes matches Err(e) ==> hex_decoded(text@) == Err::<Seq<u8>, HexError>(e),
{
    let raw = utf8_of(text);
    if raw.len() % 2 != 0 {
        return Err(HexError::OddLength);
    }
    let mut out: Vec<u8> = Vec::new();
    let mut i: usize = 0;
    assert(raw@.take(0) =~= Seq::<u8>::empty());
    while i < raw.len()
        invariant
            i <= raw@.len(),
            i % 2 == 0,
            raw@.len() % 2 == 0,
            raw@ == encode_utf8(text@),
            hex_pairs(raw@.take(i as int)) == Ok::<Seq<u8>, HexError>(out@),
        decreases raw.len() - i,
    {
        let ghost next = raw@.take(i as int + 2);
        proof {
            assert(next.take(i as int) =~= raw@.take(i as int));
            if hex_pairs(next) is Err {
                lemma_hex_pairs_err(raw@, i as int + 2);
            }
        }
        let low = match hex_digit_value(raw[i + 1]) {
            Some(v) => v,
            None => {
                return Err(HexError::InvalidAt(i));
            },
        };
        let high: u8 = if raw[i] == 43 {
            0
        } else {
            match hex_digit_value(raw[i]) {
                Some(v) => v,
                None => {
                    return Err(HexError::InvalidAt(i));
                },
            }
        };
        out.push(16 * high + low);
        i += 2;
    }
    assert(raw@.take(raw@.len() as int) =~= raw@);
    Ok(out)
}

/// The bytes that a hexadecimal string stands for.
pub fn decode_hex(s: &str) -> (bytes: Result<Vec<u8>, HexError>)
    ensures
        bytes is Ok == hex_decoded(s@) is Ok,
        bytes matches Ok(v) ==> hex_decoded(s@) == Ok::<Seq<u8>, HexError>(v@),
        bytes matches Err(e) ==> hex_decoded(s@) == Err::<Seq<u8>, HexError>(e),
{
    let text = chars_of(s);
    decode_hex_chars(text.as_slice())
}

proof fn lemma_hex_text(bytes: Seq<u8>)
    ensures
        hex_text(bytes).len() == 2 * bytes.len(),
        forall|i: int| 0 <= i < hex_text(bytes).len() ==> '0' <= (#[trigger] hex_text(bytes)[i]) <= 'f',
    decreases bytes.len(),
{
    if bytes.len() > 0 {
        lemma_hex_text(bytes.drop_last());
        let before = hex_text(bytes.drop_last());
        assert forall|i: int| 0 <= i < hex_text(bytes).len() implies '0'
            <= (#[trigger] hex_text(bytes)[i]) <= 'f' by {
            if i < before.len() {
                assert(hex_text(bytes)[i] == before[i]);
            }
        }
    }
}

/// The digits of a hexadecimal text are printable characters, none of them a
/// separator.
pub proof fn lemma_hex_text_plain(bytes: Seq<u8>)
    ensures
        hex_text(bytes).len() == 2 * bytes.len(),
        forall|i: int|
            0 <= i < hex_text(bytes).len() ==> #[trigger] hex_text(bytes)[i] != '\0' && hex_text(
                bytes,
            )[i] != '\n' && hex_text(bytes)[i] != '\r',
{
    lemma_hex_text(bytes);
}

proof fn lemma_pairs_of_hex_text(bytes: Seq<u8>)
    ensures
        hex_pairs(encode_utf8(hex_text(bytes))) == Ok::<Seq<u8>, HexError>(bytes),
        encode_utf8(hex_text(bytes)).len() == 2 * bytes.len(),
    decreases bytes.len(),
{
    lemma_hex_text(bytes);
    let text = hex_text(bytes);
    assert(is_ascii_chars(text));
    is_ascii_chars_encode_utf8(text);
    let raw = encode_utf8(text);
    if bytes.len() > 0 {
        let before = hex_text(bytes.drop_last());
        lemma_hex_text(bytes.drop_last());
        lemma_pairs_of_hex_text(bytes.drop_last());
        assert(is_ascii_chars(before));
        is_ascii_chars_encode_utf8(before);
        let n = raw.len() - 2;
        assert(raw.take(n) =~= encode_utf8(before));
        let b = bytes.last();
        assert(raw[n] == hex_digit(b as int / 16) as u8);
        assert(raw[n + 1] == hex_digit(b as int % 16) as u8);
        assert(hex_value(raw[n]) == Some(b as int / 16));
        assert(hex_value(raw[n + 1]) == Some(b as int % 16));
        assert(bytes =~= bytes.drop_last().push(b));
    } else {
        assert(bytes =~= Seq::<u8>::empty());
    }
}

/// Decoding the hexadecimal text of some bytes gives those bytes.
pub proof fn law_hex_round_trip(bytes: Seq<u8>)
    ensures
        hex_decoded(hex_text(bytes)) == Ok::<Seq<u8>, HexError>(bytes),
{
    lemma_pairs_of_hex_text(bytes);
}

// ---------------------------------------------------------------------------
// Decimal
// ---------------------------------------------------------------------------

/// The decimal numeral of `n`.
pub open spec fn decimal(n: nat) -> Seq<char>
    decreases n,
{
    if n < 10 {
        seq![(48 + n) as char]
    } else {
        decimal(n / 10).push((48 + n % 10) as char)
    }
}

/// The decimal numeral of `n`.
pub fn decimal_chars(n: u64) -> (text: Vec<char>)
    ensures
        text@ == decimal(n as nat),
    decreases n,
{
    if n < 10 {
        let mut text: Vec<char> = Vec::new();
        text.push((48u8 + n as u8) as char);
        assert(text@ =~= decimal(n as nat));
        text
    } else {
        let mut text = decimal_chars(n / 10);
        text.push((48u8 + (n % 10) as u8) as char);
        text
    }
}

/// The digits of a numeral are printable characters.
pub proof fn lemma_decimal_plain(n: nat)
    ensures
        decimal(n).len() > 0,
        forall|i: int| 0 <= i < decimal(n).len() ==> '0' <= (#[trigger] decimal(n)[i]) <= '9',
    decreases n,
{
    if n >= 10 {
        lemma_decimal_plain(n / 10);
        let before = decimal(n / 10);
        assert forall|i: int| 0 <= i < decimal(n).len() implies '0' <= (#[trigger] decimal(
            n,
        )[i]) <= '9' by {
            if i < before.len() {
                assert(decimal(n)[i] == before[i]);
            }
        }
    }
}

/// A numeral tells its number.
pub proof fn law_decimal_tells(a: nat, b: nat)
    requires
        decimal(a) == decimal(b),
    ensures
        a == b,
    decreases a,
{
    lemma_decimal_plain(a);
    lemma_decimal_plain(b);
    let (ta, tb) = (decimal(a), decimal(b));
    assert(ta.last() == ((48 + a % 10) as char));
    assert(tb.last() == ((48 + b % 10) as char));
    assert(a % 10 == b % 10);
    if a >= 10 {
        lemma_decimal_plain(a / 10);
        assert(ta.len() > 1);
        assert(b >= 10);
        assert(ta.drop_last() =~= decimal(a / 10));
        assert(tb.drop_last() =~= decimal(b / 10));
        law_decimal_tells(a / 10, b / 10);
    } else if b >= 10 {
        lemma_decimal_plain(b / 10);
        assert(tb.len() > 1);
    }
}

// ---------------------------------------------------------------------------
// White space
// ---------------------------------------------------------------------------

/// A character that Unicode counts as white space.
pub open spec fn is_white(c: char) -> bool {
    let u = c as u32;
    ||| 0x9 <= u <= 0xd
    ||| u == 0x20 || u == 0x85 || u == 0xa0 || u == 0x1680
    ||| 0x2000 <= u <= 0x200a
    ||| u == 0x2028 || u == 0x2029 || u == 0x202f || u == 0x205f || u == 0x3000
}

fn is_white_char(c: char) -> (b: bool)
    ensures
        b == is_white(c),
{
    let u: u32 = c as u32;
    (0x9 <= u && u <= 0xd) || u == 0x20 || u == 0x85 || u == 0xa0 || u == 0x1680 || (0x2000 <= u
        && u <= 0x200a) || u == 0x2028 || u == 0x2029 || u == 0x202f || u == 0x205f || u == 0x3000
}

/// `text` without the white space at its start.
pub open spec fn trimmed_start(text: Seq<char>) -> Seq<char>
    decreases text.len(),
{
    if text.len() > 0 && is_white(text[0]) {
        trimmed_start(text.drop_first())
    } else {
        text
    }
}

/// `text` without the white space at its end.
pub open spec fn trimmed_end(text: Seq<char>) -> Seq<char>
    decreases text.len(),
{
    if text.len() > 0 && is_white(text.last()) {
        trimmed_end(text.drop_last())
    } else {
        text
    }
}

/// `text` without the white space around it.
pub fn trim(text: &[char]) -> (out: Vec<char>)
    ensures
        out@ == trimmed_end(trimmed_start(text@)),
{
    let mut from: usize = 0;
    assert(text@.skip(0) =~= text@);
    while from < text.len() && is_white_char(text[from])
        invariant
            from <= text@.len(),
            trimmed_start(text@.skip(from as int)) == trimmed_start(text@),
        decreases text.len() - from,
    {
        assert(text@.skip(from as int).drop_first() =~= text@.skip(from as int + 1));
        from += 1;
    }
    let ghost rest = text@.skip(from as int);
    let mut to: usize = text.len();
    assert(rest =~= text@.subrange(from as int, to as int));
    while from < to && is_white_char(text[to - 1])
        invariant
            from <= to <= text@.len(),
            trimmed_end(text@.subrange(from as int, to as int)) == trimmed_end(rest),
        decreases to,
    {
        assert(text@.subrange(from as int, to as int).drop_last() =~= text@.subrange(
            from as int,
            to - 1,
        ));
        to -= 1;
    }
    sub_chars(text, from, to)
}

/// The digits of a hexadecimal text are no white space.
pub proof fn lemma_hex_not_white(bytes: Seq<u8>)
    ensures
        forall|i: int|
            0 <= i < hex_text(bytes).len() ==> !is_white(#[trigger] hex_text(bytes)[i]),
{
    lemma_hex_text(bytes);
}

/// Every byte is two digits of the sixteen, the higher half first.
pub proof fn law_hex_digits(bytes: Seq<u8>, i: int)
    requires
        0 <= i < bytes.len(),
    ensures
        hex_text(bytes).len() == 2 * bytes.len(),
        hex_text(bytes)[2 * i] == "0123456789abcdef"@[bytes[i] as int / 16],
        hex_text(bytes)[2 * i + 1] == "0123456789abcdef"@[bytes[i] as int % 16],
    decreases bytes.len(),
{
    reveal_strlit("0123456789abcdef");
    lemma_hex_text(bytes);
    lemma_hex_text(bytes.drop_last());
    if i < bytes.len() - 1 {
        let before = bytes.drop_last();
        law_hex_digits(before, i);
        assert(before[i] == bytes[i]);
        assert(hex_text(bytes)[2 * i] == hex_text(before)[2 * i]);
        assert(hex_text(bytes)[2 * i + 1] == hex_text(before)[2 * i + 1]);
    }
}

/// A digit counts as its value in either case, and nothing else counts as one.
pub proof fn law_hex_digits_of_either_case(b: u8, n: int)
    requires
        0 <= n < 16,
    ensures
        b as char == "0123456789abcdef"@[n] || b as char == "0123456789ABCDEF"@[n] ==> hex_value(b)
            == Some(n),
        hex_value(b) == Some(n) ==> b as char == "0123456789abcdef"@[n] || b as char
            == "0123456789ABCDEF"@[n],
{
    reveal_strlit("0123456789abcdef");
    reveal_strlit("0123456789ABCDEF");
}

/// The number that decimal digits stand for.
pub open spec fn decimal_value(digits: Seq<char>) -> int
    decreases digits.len(),
{
    if digits.len() == 0 {
        0
    } else {
        10 * decimal_value(digits.drop_last()) + (digits.last() as int - '0' as int)
    }
}

/// A numeral says its number, in the ten digits and without a leading zero.
pub proof fn law_a_numeral_says_its_number(n: nat)
    ensures
        decimal_value(decimal(n)) == n,
        decimal(n).len() > 0,
        forall|i: int| 0 <= i < decimal(n).len() ==> '0' <= (#[trigger] decimal(n)[i]) <= '9',
        n > 0 ==> decimal(n)[0] != '0',
    decreases n,
{
    lemma_decimal_plain(n);
    if n < 10 {
        assert(decimal(n).drop_last() =~= Seq::<char>::empty());
        assert(decimal_value(decimal(n).drop_last()) == 0);
    } else {
        law_a_numeral_says_its_number(n / 10);
        assert(decimal(n).drop_last() =~= decimal(n / 10));
        assert(decimal(n)[0] == decimal(n / 10)[0]);
    }
}

/// A text begins with a prefix just where it is the prefix and some rest, which
/// is then what follows.
pub proof fn law_a_prefix_comes_off(text: Seq<char>, prefix: Seq<char>, rest: Seq<char>)
    ensures
        stripped(text, prefix) == Some(rest) <==> text == prefix + rest,
        without_suffix(text, prefix) == Some(rest) <==> text == rest + prefix,
{
    if stripped(text, prefix) == Some(rest) {
        assert(text =~= text.take(prefix.len() as int) + text.skip(prefix.len() as int));
    }
    if text == prefix + rest {
        assert(text.take(prefix.len() as int) =~= prefix);
        assert(text.skip(prefix.len() as int) =~= rest);
    }
    if without_suffix(text, prefix) == Some(rest) {
        let at = text.len() - prefix.len();
        assert(text =~= text.take(at) + text.skip(at));
    }
    if text == rest + prefix {
        let at = text.len() - prefix.len();
        assert(text.skip(at) =~= prefix);
        assert(text.take(at) =~= rest);
    }
}

/// A line may end in a carriage return and a line feed, and the last may end
/// with the text.
pub proof fn law_lines_end_either_way(line: Seq<char>, rest: Seq<char>)
    requires
        is_line(line),
    ensures
        lines(line.push('\n') + rest) == seq![line] + lines(rest),
        lines(line.push('\r').push('\n') + rest) == seq![line] + lines(rest),
        line.len() > 0 ==> lines(line) == seq![line],
        lines(Seq::empty()) == Seq::<Seq<char>>::empty(),
{
    let a = line.push('\n') + rest;
    let b = line.push('\r').push('\n') + rest;
    lemma_first_mark(a, '\n', line.len() as int);
    lemma_first_mark(b, '\n', line.len() as int + 1);
    assert(a.take(line.len() as int) =~= line);
    assert(a.skip(line.len() as int + 1) =~= rest);
    assert(b.take(line.len() as int + 1) =~= line.push('\r'));
    assert(b.skip(line.len() as int + 2) =~= rest);
    assert(line.push('\r').drop_last() =~= line);
    lemma_first_mark(line, '\n', line.len() as int);
}

/// Trimming takes off white space alone, and all there is at either end.
pub proof fn law_trimming_takes_white_space_off(front: Seq<char>, text: Seq<char>, back: Seq<char>)
    requires
        forall|i: int| 0 <= i < front.len() ==> is_white(#[trigger] front[i]),
        forall|i: int| 0 <= i < back.len() ==> is_white(#[trigger] back[i]),
        text.len() > 0,
        !is_white(text[0]),
        !is_white(text.last()),
    ensures
        trimmed_end(trimmed_start(front + text + back)) == text,
{
    lemma_trims_start(front, text + back);
    assert(front + text + back =~= front + (text + back));
    lemma_trims_end(text, back);
}

proof fn lemma_trims_start(front: Seq<char>, rest: Seq<char>)
    requires
        forall|i: int| 0 <= i < front.len() ==> is_white(#[trigger] front[i]),
        rest.len() > 0,
        !is_white(rest[0]),
    ensures
        trimmed_start(front + rest) == rest,
    decreases front.len(),
{
    if front.len() == 0 {
        assert(front + rest =~= rest);
    } else {
        let less = front.drop_first();
        assert forall|i: int| 0 <= i < less.len() implies is_white(#[trigger] less[i]) by {
            assert(is_white(front[i + 1]));
        }
        lemma_trims_start(less, rest);
        assert((front + rest).drop_first() =~= less + rest);
        assert((front + rest)[0] == front[0]);
    }
}

proof fn lemma_trims_end(text: Seq<char>, back: Seq<char>)
    requires
        forall|i: int| 0 <= i < back.len() ==> is_white(#[trigger] back[i]),
        text.len() > 0,
        !is_white(text.last()),
    ensures
        trimmed_end(text + back) == text,
    decreases back.len(),
{
    if back.len() == 0 {
        assert(text + back =~= text);
    } else {
        let less = back.drop_last();
        assert forall|i: int| 0 <= i < less.len() implies is_white(#[trigger] less[i]) by {
            assert(is_white(back[i]));
        }
        lemma_trims_end(text, less);
        assert((text + back).drop_last() =~= text + less);
        assert((text + back).last() == back[back.len() - 1]);
    }
}

/// White space is what a text is laid out with: the space, the tab and the
/// ends of lines among it, and no printable character of ASCII.
pub proof fn law_what_is_white(c: char)
    ensures
        c == ' ' || c == '\t' || c == '\n' || c == '\r' ==> is_white(c),
        '!' <= c <= '~' ==> !is_white(c),
{
}

/// The joined text tells how many fields there are, where there are any and
/// none holds the separator.
pub proof fn law_joined_tells_how_many(a: Seq<Seq<char>>, b: Seq<Seq<char>>, sep: char)
    requires
        a.len() > 0,
        b.len() > 0,
        sep_free(a, sep),
        sep_free(b, sep),
        joined(a, sep) == joined(b, sep),
    ensures
        a.len() == b.len(),
    decreases a.len() + b.len(),
{
    let text = joined(a, sep);
    if a.len() > 1 && b.len() > 1 {
        let (al, bl) = (a.last(), b.last());
        let (ai, bi) = (text.len() - al.len(), text.len() - bl.len());
        let (af, bf) = (joined(a.drop_last(), sep), joined(b.drop_last(), sep));
        assert(text[ai - 1] == sep);
        assert(text[bi - 1] == sep);
        if ai < bi {
            assert(text[bi - 1] == al[bi - 1 - ai]);
            assert(a[a.len() - 1][bi - 1 - ai] != sep);
        }
        if bi < ai {
            assert(text[ai - 1] == bl[ai - 1 - bi]);
            assert(b[b.len() - 1][ai - 1 - bi] != sep);
        }
        assert(af =~= text.take(ai - 1));
        assert(bf =~= text.take(bi - 1));
        assert(sep_free(a.drop_last(), sep));
        assert(sep_free(b.drop_last(), sep));
        law_joined_tells_how_many(a.drop_last(), b.drop_last(), sep);
    } else if a.len() > 1 {
        let at = text.len() - a.last().len() - 1;
        assert(text[at] == sep);
        assert(b[0][at] != sep);
    } else if b.len() > 1 {
        let at = text.len() - b.last().len() - 1;
        assert(text[at] == sep);
        assert(a[0][at] != sep);
    }
}

} // verus!
