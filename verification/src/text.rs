//! Text put together piece by piece.

use crate::bytes::{place, Place};
use vstd::prelude::*;
use vstd::string::*;
use vstd::utf8::*;

verus! {

/// The decimal digits of `n`, most significant first, with no leading zeros.
pub open spec fn decimal(n: nat) -> Seq<char>
    decreases n,
{
    let last = seq![(0x30 + n % 10) as char];
    if n < 10 {
        last
    } else {
        decimal(n / 10) + last
    }
}

/// The pieces of `parts` in order, with `sep` between each two.
pub open spec fn joined(parts: Seq<Seq<char>>, sep: Seq<char>) -> Seq<char>
    decreases parts.len(),
{
    if parts.len() == 0 {
        seq![]
    } else if parts.len() == 1 {
        parts[0]
    } else {
        joined(parts.drop_last(), sep) + sep + parts.last()
    }
}

/// The text of each string of a list.
pub open spec fn texts(list: Seq<String>) -> Seq<Seq<char>> {
    list.map_values(|s: String| s@)
}

/// Whether two strings hold the same text.
pub fn same_text(a: &str, b: &str) -> (same: bool)
    ensures
        same == (a@ == b@),
{
    proof {
        encode_utf8_decode_utf8(a@);
        encode_utf8_decode_utf8(b@);
    }
    match place(a.as_bytes(), b.as_bytes()) {
        Place::Same => true,
        _ => false,
    }
}

/// Whether `text` is one of `list`.
pub fn lists(list: &[String], text: &str) -> (found: bool)
    ensures
        found == texts(list@).contains(text@),
{
    let ghost all = texts(list@);
    let mut i: usize = 0;
    while i < list.len()
        invariant
            all == texts(list@),
            i <= list@.len(),
            forall|j: int| 0 <= j < i ==> all[j] != text@,
        decreases list@.len() - i,
    {
        if same_text(list[i].as_str(), text) {
            assert(all[i as int] == text@);
            return true;
        }
        i += 1;
    }
    false
}

/// The text of one decimal digit.
fn digit(d: u64) -> (text: &'static str)
    requires
        d < 10,
    ensures
        text@ == seq![(0x30 + d) as char],
{
    proof {
        reveal_strlit("0");
        reveal_strlit("1");
        reveal_strlit("2");
        reveal_strlit("3");
        reveal_strlit("4");
        reveal_strlit("5");
        reveal_strlit("6");
        reveal_strlit("7");
        reveal_strlit("8");
        reveal_strlit("9");
    }
    match d {
        0 => "0",
        1 => "1",
        2 => "2",
        3 => "3",
        4 => "4",
        5 => "5",
        6 => "6",
        7 => "7",
        8 => "8",
        _ => "9",
    }
}

/// Appends `n` in decimal.
pub fn push_decimal(out: &mut String, n: u64)
    ensures
        final(out)@ == old(out)@ + decimal(n as nat),
    decreases n,
{
    if n >= 10 {
        push_decimal(out, n / 10);
    }
    out.append(digit(n % 10));
    assert(out@ =~= old(out)@ + decimal(n as nat));
}

/// The strings of `parts` in order, with `sep` between each two.
pub fn join(parts: &[String], sep: &str) -> (text: String)
    ensures
        text@ == joined(texts(parts@), sep@),
{
    let ghost all = texts(parts@);
    let mut out = String::new();
    let mut i: usize = 0;
    while i < parts.len()
        invariant
            all == texts(parts@),
            i <= parts@.len(),
            out@ == joined(all.take(i as int), sep@),
        decreases parts@.len() - i,
    {
        if i > 0 {
            out.append(sep);
        }
        out.append(parts[i].as_str());
        assert(all.take(i + 1).drop_last() =~= all.take(i as int));
        assert(out@ =~= joined(all.take(i + 1), sep@));
        i += 1;
    }
    assert(all.take(i as int) =~= all);
    out
}

/// The characters of `text`, as a vector.
pub fn characters(text: &str) -> (chars: Vec<char>)
    ensures
        chars@ == text@,
{
    let mut out: Vec<char> = Vec::new();
    for c in it: text.chars()
        invariant
            it.seq() == text@,
            out@ == text@.take(it.index()),
    {
        out.push(c);
        assert(text@.take(it.index() + 1) =~= text@.take(it.index()).push(c));
    }
    assert(text@.take(text@.len() as int) =~= text@);
    out
}

/// `part` stands in `text` at position `k`.
pub open spec fn stands_at(text: Seq<char>, part: Seq<char>, k: int) -> bool {
    &&& 0 <= k
    &&& k + part.len() <= text.len()
    &&& text.subrange(k, k + part.len()) == part
}

/// `text` ends with `end`.
pub open spec fn has_end(text: Seq<char>, end: Seq<char>) -> bool {
    stands_at(text, end, text.len() - end.len())
}

/// Whether `part` stands in `text` at position `k`.
fn matches_at(text: &Vec<char>, part: &Vec<char>, k: usize) -> (found: bool)
    requires
        k + part@.len() <= text@.len(),
    ensures
        found == stands_at(text@, part@, k as int),
{
    let ghost there = text@.subrange(k as int, k + part@.len());
    assert(k + part@.len() <= text.len());
    let mut i: usize = 0;
    while i < part.len()
        invariant
            i <= part@.len(),
            k + part@.len() <= text@.len(),
            text@.len() <= usize::MAX,
            there == text@.subrange(k as int, k + part@.len()),
            forall|j: int| 0 <= j < i ==> there[j] == part@[j],
        decreases part@.len() - i,
    {
        assert(there[i as int] == text@[k + i]);
        if text[k + i] != part[i] {
            return false;
        }
        i += 1;
    }
    assert(there =~= part@);
    true
}

/// Whether `text` ends with `end`.
pub fn ends_with_text(text: &str, end: &str) -> (found: bool)
    ensures
        found == has_end(text@, end@),
{
    let whole = characters(text);
    let piece = characters(end);
    if piece.len() > whole.len() {
        return false;
    }
    matches_at(&whole, &piece, whole.len() - piece.len())
}

/// What `{:?}` writes for a list of strings.
pub uninterp spec fn list_debug(list: Seq<Seq<char>>) -> Seq<char>;

/// Calls the `Debug` formatting of a vector of strings.
///
/// Claimed of it: the text depends on the strings alone. How they are quoted and
/// escaped is not claimed.
#[verifier::external_body]
pub(crate) fn debug_list(list: &Vec<String>) -> (text: String)
    ensures
        text@ == list_debug(texts(list@)),
{
    format!("{list:?}")
}

// ---- What holds of every text ----

/// The number that a row of decimal digits writes.
pub open spec fn number(digits: Seq<char>) -> int
    decreases digits.len(),
{
    if digits.len() == 0 {
        0
    } else {
        10 * number(digits.drop_last()) + (digits.last() as int - 0x30)
    }
}

/// A number written in decimal reads back as that number: it is a row of digits, and
/// the first of them is no zero unless it is the only one.
pub proof fn decimal_reads_back(n: nat)
    ensures
        number(decimal(n)) == n,
        decimal(n).len() > 0,
        forall|i: int|
            0 <= i < decimal(n).len() ==> '0' <= #[trigger] decimal(n)[i] && decimal(n)[i] <= '9',
        decimal(n).len() > 1 ==> decimal(n)[0] != '0',
    decreases n,
{
    let digits = decimal(n);
    let last = (0x30 + n % 10) as char;
    reveal_with_fuel(number, 2);
    assert(last as int == 0x30 + n % 10);
    assert(digits.last() == last);
    if n < 10 {
        assert(digits.drop_last() =~= Seq::empty());
    } else {
        decimal_reads_back(n / 10);
        assert(digits.drop_last() =~= decimal(n / 10));
        assert forall|i: int| 0 <= i < digits.len() implies '0' <= #[trigger] digits[i]
            && digits[i] <= '9' by {
            if i < digits.len() - 1 {
                assert(digits[i] == decimal(n / 10)[i]);
            }
        }
        assert(digits[0] == decimal(n / 10)[0]);
        if n < 100 {
            assert(decimal(n / 10) =~= seq![(0x30 + (n / 10) % 10) as char]);
            assert(((0x30 + (n / 10) % 10) as char) as int == 0x30 + (n / 10) % 10);
        } else {
            assert(decimal(n / 10) =~= decimal(n / 100) + seq![(0x30 + (n / 10) % 10) as char]) by {
                assert((n / 10) / 10 == n / 100);
            }
            decimal_reads_back(n / 100);
        }
    }
}

/// Joining two lists end to end joins what each of them is joined to; one piece stays as
/// it is, and no pieces are no text.
pub proof fn joining_goes_piece_by_piece(
    a: Seq<Seq<char>>,
    b: Seq<Seq<char>>,
    piece: Seq<char>,
    sep: Seq<char>,
)
    ensures
        joined(Seq::empty(), sep) == Seq::<char>::empty(),
        joined(seq![piece], sep) == piece,
        a.len() > 0 && b.len() > 0 ==> joined(a + b, sep) == joined(a, sep) + sep + joined(b, sep),
    decreases b.len(),
{
    if a.len() > 0 && b.len() > 0 {
        assert((a + b).drop_last() =~= a + b.drop_last());
        assert((a + b).last() == b.last());
        if b.len() == 1 {
            assert(a + b.drop_last() =~= a);
        } else {
            joining_goes_piece_by_piece(a, b.drop_last(), piece, sep);
            assert(joined(a + b, sep) =~= joined(a, sep) + sep + joined(b, sep));
        }
    }
}

/// A text ends with whatever was put behind it, and with nothing else.
pub proof fn a_text_ends_with_what_stands_last(front: Seq<char>, end: Seq<char>, text: Seq<char>)
    ensures
        has_end(front + end, end),
        has_end(text, end) ==> end.len() <= text.len() && text == text.take(
            text.len() - end.len(),
        ) + end,
{
    assert((front + end).subrange(front.len() as int, (front + end).len() as int) =~= end);
    if has_end(text, end) {
        assert(text =~= text.take(text.len() - end.len()) + end);
    }
}

/// The texts of a list are those of its strings, one for one.
pub proof fn each_string_has_its_text(list: Seq<String>, i: int)
    ensures
        texts(list).len() == list.len(),
        0 <= i < list.len() ==> texts(list)[i] == list[i]@,
{
}

} // verus!
