use crate::addressbook::{AddressBook, AddressBookEntry};
use crate::byte_ops::{append_bytes, append_str, joined};
use vstd::prelude::*;
use vstd::string::StringSliceAdditionalSpecFns;
use vstd::string::StrSliceExecFns;
use vstd::utf8::{
    decode_utf8, encode_utf8, encode_utf8_decode_utf8, encode_utf8_valid_utf8, is_ascii_chars,
    is_ascii_chars_encode_utf8, valid_utf8,
};

verus! {

pub const MENU_HEADER: &'static str = "\r\nAddress book:\r\n";

pub const LOGOFF_TEXT: &'static str = ": Logoff\r\n";

pub const GOODBYE: &'static str = "\r\nGoodbye!\r\n";

pub const INVALID_BEFORE: &'static str = "\r\nInvalid choice - \"";

pub const INVALID_AFTER: &'static str = "\" - please try again.\r\n";

/// The prompt written before reading a choice.
pub const PROMPT: &'static str = "> ";

/// The decimal digits of `n`, most significant first.
pub open spec fn decimal(n: nat) -> Seq<u8>
    decreases n,
{
    if n < 10 {
        seq![(48 + n) as u8]
    } else {
        decimal(n / 10) + seq![(48 + n % 10) as u8]
    }
}

/// `n` in decimal, right-aligned in a field of three.
pub open spec fn index_field(n: nat) -> Seq<u8> {
    let d = decimal(n);
    if d.len() < 3 {
        Seq::new((3 - d.len()) as nat, |i: int| 32u8) + d
    } else {
        d
    }
}

/// The UTF-8 bytes of a string.
pub open spec fn text(s: String) -> Seq<u8> {
    encode_utf8(s@)
}

/// The menu line of the entry at 1-based position `k`.
pub open spec fn entry_line(k: nat, e: AddressBookEntry) -> Seq<u8> {
    index_field(k) + ": ".spec_bytes() + text(e.label) + " - ".spec_bytes() + text(e.address)
        + "\r\n".spec_bytes()
}

/// The selectable lines of the menu: `0` to log off, then one per entry.
pub open spec fn menu_lines(entries: Seq<AddressBookEntry>) -> Seq<Seq<u8>> {
    seq![index_field(0) + LOGOFF_TEXT.spec_bytes()] + Seq::new(
        entries.len(),
        |i: int| entry_line((i + 1) as nat, entries[i]),
    )
}

/// The whole rendered menu.
pub open spec fn menu_text(entries: Seq<AddressBookEntry>) -> Seq<u8> {
    MENU_HEADER.spec_bytes() + joined(menu_lines(entries))
}

/// Appends the decimal digits of `n`.
fn push_decimal(out: &mut Vec<u8>, n: usize)
    ensures
        final(out)@ == old(out)@ + decimal(n as nat),
    decreases n,
{
    if n < 10 {
        out.push((48 + n) as u8);
    } else {
        push_decimal(out, n / 10);
        out.push((48 + n % 10) as u8);
        assert(final(out)@ =~= old(out)@ + decimal(n as nat));
    }
}

proof fn lemma_decimal_len(n: nat)
    ensures
        decimal(n).len() >= 1,
        n < 10 ==> decimal(n).len() == 1,
        10 <= n < 100 ==> decimal(n).len() == 2,
        n >= 100 ==> decimal(n).len() >= 3,
    decreases n,
{
    if n >= 10 {
        lemma_decimal_len(n / 10);
        assert(decimal(n).len() == decimal(n / 10).len() + 1);
    }
}

/// Appends `n` right-aligned in a field of three.
fn push_index_field(out: &mut Vec<u8>, n: usize)
    ensures
        final(out)@ == old(out)@ + index_field(n as nat),
{
    proof {
        lemma_decimal_len(n as nat);
    }
    let ghost start = out@;
    let ghost d = decimal(n as nat);
    if n < 10 {
        out.push(32u8);
        out.push(32u8);
        assert(Seq::new((3 - d.len()) as nat, |i: int| 32u8) =~= seq![32u8, 32u8]);
    } else if n < 100 {
        out.push(32u8);
        assert(Seq::new((3 - d.len()) as nat, |i: int| 32u8) =~= seq![32u8]);
    }
    let ghost mid = out@;
    push_decimal(out, n);
    assert(out@ =~= start + index_field(n as nat)) by {
        if d.len() < 3 {
            assert(mid =~= start + Seq::new((3 - d.len()) as nat, |i: int| 32u8));
        } else {
            assert(n >= 100);
            assert(mid =~= start);
        }
    }
}

/// Renders the menu for `book`: a header, `0: Logoff`, then one line per
/// entry as `index: label - address`.
pub fn render_menu(book: &AddressBook) -> (r: Vec<u8>)
    ensures
        r@ == menu_text(book.addresses@),
{
    let ghost lines = menu_lines(book.addresses@);
    let mut out: Vec<u8> = Vec::new();
    append_str(&mut out, MENU_HEADER);
    push_index_field(&mut out, 0);
    append_str(&mut out, LOGOFF_TEXT);
    proof {
        let one = lines.subrange(0, 1);
        assert(one.drop_last() =~= Seq::<Seq<u8>>::empty());
        assert(joined(one.drop_last()) =~= Seq::<u8>::empty());
        assert(out@ =~= MENU_HEADER.spec_bytes() + joined(one));
    }
    let n = book.addresses.len();
    let mut i: usize = 0;
    while i < n
        invariant
            n == book.addresses@.len(),
            i <= n,
            lines == menu_lines(book.addresses@),
            out@ == MENU_HEADER.spec_bytes() + joined(lines.subrange(0, i + 1)),
        decreases n - i,
    {
        let entry = &book.addresses[i];
        let ghost before = out@;
        push_index_field(&mut out, i + 1);
        append_str(&mut out, ": ");
        append_bytes(&mut out, entry.label.as_str().as_bytes());
        append_str(&mut out, " - ");
        append_bytes(&mut out, entry.address.as_str().as_bytes());
        append_str(&mut out, "\r\n");
        proof {
            let next = lines.subrange(0, i + 2);
            assert(next.drop_last() =~= lines.subrange(0, i + 1));
            assert(next.last() == entry_line((i + 1) as nat, book.addresses@[i as int]));
            assert(out@ =~= before + entry_line((i + 1) as nat, book.addresses@[i as int]));
        }
        i = i + 1;
    }
    assert(lines.subrange(0, n + 1) =~= lines);
    out
}

} // verus!

verus! {

/// The text with leading and trailing whitespace removed, as `str::trim`
/// gives it (whitespace in the Unicode sense).
pub uninterp spec fn trimmed_text(s: Seq<char>) -> Seq<char>;

pub open spec fn is_digit(c: char) -> bool {
    '0' <= c && c <= '9'
}

/// A non-empty run of decimal digits.
pub open spec fn is_digits(s: Seq<char>) -> bool {
    s.len() > 0 && forall|i: int| 0 <= i < s.len() ==> is_digit(#[trigger] s[i])
}

/// The number that a run of decimal digits denotes.
pub open spec fn digits_value(s: Seq<char>) -> nat
    decreases s.len(),
{
    if s.len() == 0 {
        0
    } else {
        10 * digits_value(s.drop_last()) + (s.last() as nat - 48) as nat
    }
}

/// The digits of a number, after an optional leading `+`.
pub open spec fn unsigned_body(t: Seq<char>) -> Seq<char> {
    if t.len() > 0 && t[0] == '+' {
        t.subrange(1, t.len() as int)
    } else {
        t
    }
}

/// The non-negative integer that trimmed text denotes, if any.
pub open spec fn number_of(t: Seq<char>) -> Option<nat> {
    let b = unsigned_body(t);
    if is_digits(b) {
        Some(digits_value(b))
    } else {
        None
    }
}

/// The non-negative integer that a line denotes, if any: the line is UTF-8
/// text that, trimmed, is decimal digits after an optional `+`.
pub open spec fn parsed_number(line: Seq<u8>) -> Option<nat> {
    if valid_utf8(line) {
        number_of(trimmed_text(decode_utf8(line)))
    } else {
        None
    }
}

/// What a line of input selects from a menu of `n` entries.
#[derive(PartialEq, Eq, Structural, Debug, Clone, Copy)]
pub enum MenuChoice {
    /// `0`: leave the gateway.
    Logoff,
    /// `k` in `1..=n`: the entry at 0-based position `k - 1`.
    Select(usize),
    /// Anything else: show the menu again.
    Invalid,
}

/// The choice that `line` makes from a menu of `n` entries.
pub open spec fn choice_of(line: Seq<u8>, n: nat) -> MenuChoice {
    choice_for(parsed_number(line), n)
}

/// The choice that a typed number (if any) makes from a menu of `n` entries.
pub open spec fn choice_for(number: Option<nat>, n: nat) -> MenuChoice {
    match number {
        Some(k) => if k == 0 {
            MenuChoice::Logoff
        } else if k <= n {
            MenuChoice::Select((k - 1) as usize)
        } else {
            MenuChoice::Invalid
        },
        None => MenuChoice::Invalid,
    }
}

/// Relies on std::str::from_utf8: it succeeds exactly on valid UTF-8, and
/// the text is then the decoded characters.
#[verifier::external_body]
fn utf8_text(b: &[u8]) -> (r: Option<&str>)
    ensures
        r is Some <==> valid_utf8(b@),
        r matches Some(s) ==> s@ == decode_utf8(b@),
{
    std::str::from_utf8(b).ok()
}

/// Relies on str::trim: the result depends on the characters alone, and text
/// that starts and ends with a decimal digit (never whitespace) is unchanged.
#[verifier::external_body]
fn trim_text(s: &str) -> (r: &str)
    ensures
        r@ == trimmed_text(s@),
        s@.len() > 0 && is_digit(s@[0]) && is_digit(s@.last()) ==> r@ == s@,
{
    s.trim()
}

/// The value of the digits `t[start..end]` when they are all digits and
/// the value is at most `n`.
fn bounded_value(t: &str, start: usize, end: usize, n: usize) -> (r: Option<usize>)
    requires
        start <= end <= t@.len(),
    ensures
        ({
            let b = t@.subrange(start as int, end as int);
            &&& r is Some <==> is_digits(b) && digits_value(b) <= n
            &&& r matches Some(v) ==> v == digits_value(b)
        }),
{
    let ghost body = t@.subrange(start as int, end as int);
    if start >= end {
        return None;
    }
    let mut i: usize = start;
    let mut v: u128 = 0;
    let mut big = false;
    while i < end
        invariant
            start <= i <= end <= t@.len(),
            body == t@.subrange(start as int, end as int),
            forall|j: int| start <= j < i ==> is_digit(#[trigger] t@[j]),
            !big ==> v == digits_value(t@.subrange(start as int, i as int)) && v <= n,
            big ==> digits_value(t@.subrange(start as int, i as int)) > n,
        decreases end - i,
    {
        let c = t.get_char(i);
        if !('0' <= c && c <= '9') {
            assert(body[i - start] == t@[i as int]);
            assert(!is_digit(body[i - start]));
            return None;
        }
        let ghost prev = t@.subrange(start as int, i as int);
        assert(t@.subrange(start as int, i + 1).drop_last() =~= prev);
        assert(t@.subrange(start as int, i + 1).last() == c);
        if !big {
            let nv: u128 = v * 10 + ((c as u32) - 48) as u128;
            if nv > n as u128 {
                big = true;
            } else {
                v = nv;
            }
        }
        i = i + 1;
    }
    assert forall|j: int| 0 <= j < body.len() implies is_digit(#[trigger] body[j]) by {
        assert(body[j] == t@[start + j]);
    }
    if big {
        None
    } else {
        Some(v as usize)
    }
}

/// Resolves trimmed text against a menu of `n` entries.
pub fn choice_from_trimmed(t: &str, n: usize) -> (r: MenuChoice)
    ensures
        r == choice_for(number_of(t@), n as nat),
{
    let len = t.unicode_len();
    let mut start: usize = 0;
    if len > 0 && t.get_char(0) == '+' {
        start = 1;
    }
    assert(unsigned_body(t@) =~= t@.subrange(start as int, len as int));
    match bounded_value(t, start, len, n) {
        None => MenuChoice::Invalid,
        Some(v) => if v == 0 {
            MenuChoice::Logoff
        } else {
            MenuChoice::Select(v - 1)
        },
    }
}

/// Resolves a line of input against a menu of `n` entries.
pub fn menu_choice(line: &[u8], n: usize) -> (r: MenuChoice)
    ensures
        r == choice_of(line@, n as nat),
{
    match utf8_text(line) {
        None => MenuChoice::Invalid,
        Some(text) => choice_from_trimmed(trim_text(text), n),
    }
}

} // verus!

verus! {

/// The character of a decimal digit.
pub open spec fn digit_char(d: nat) -> char {
    ((48 + d) as u8) as char
}

/// The decimal digits of `n` as characters.
pub open spec fn decimal_chars(n: nat) -> Seq<char>
    decreases n,
{
    if n < 10 {
        seq![digit_char(n)]
    } else {
        decimal_chars(n / 10) + seq![digit_char(n % 10)]
    }
}

proof fn lemma_decimal_chars(k: nat)
    ensures
        is_digits(decimal_chars(k)),
        digits_value(decimal_chars(k)) == k,
        is_ascii_chars(decimal_chars(k)),
        decimal_chars(k).len() == decimal(k).len(),
        forall|i: int| 0 <= i < decimal(k).len() ==> #[trigger] decimal(k)[i] == decimal_chars(k)[i] as u8,
    decreases k,
{
    let c = decimal_chars(k);
    let d = decimal(k);
    if k >= 10 {
        lemma_decimal_chars(k / 10);
        let p = decimal_chars(k / 10);
        assert(c.drop_last() =~= p);
        assert(c.last() == digit_char(k % 10));
        assert(digit_char(k % 10) as nat == 48 + k % 10);
        assert(digits_value(c) == 10 * digits_value(p) + k % 10);
        assert forall|i: int| 0 <= i < c.len() implies is_digit(#[trigger] c[i]) && '\0' <= c[i] <= '\u{7f}' by {
            if i < c.len() - 1 {
                assert(c[i] == p[i]);
            }
        }
        assert forall|i: int| 0 <= i < d.len() implies #[trigger] d[i] == c[i] as u8 by {
            if i < d.len() - 1 {
                assert(d[i] == decimal(k / 10)[i]);
                assert(c[i] == p[i]);
            }
        }
    } else {
        assert(c.drop_last() =~= Seq::<char>::empty());
        assert(digit_char(k) as nat == 48 + k);
        assert(digits_value(c.drop_last()) == 0);
    }
}

/// The index `k` as the menu prints it is the UTF-8 text of its decimal
/// digits, and that text, once trimmed (which leaves it as it is), denotes `k`.
pub proof fn lemma_decimal_is_parsed(k: nat)
    ensures
        valid_utf8(decimal(k)),
        decode_utf8(decimal(k)) == decimal_chars(k),
        decimal_chars(k).len() > 0,
        is_digit(decimal_chars(k)[0]),
        is_digit(decimal_chars(k).last()),
        number_of(decimal_chars(k)) == Some(k),
{
    lemma_decimal_chars(k);
    let c = decimal_chars(k);
    is_ascii_chars_encode_utf8(c);
    assert(decimal(k) =~= encode_utf8(c));
    encode_utf8_valid_utf8(c);
    encode_utf8_decode_utf8(c);
    assert(unsigned_body(c) == c);
    assert(c[0] == c[0]);
    assert(c.last() == c[c.len() - 1]);
}

/// For an address book of `N` entries the menu holds exactly `N + 1`
/// selectable lines: line `0` logs off and line `k` names entry `k - 1`; and
/// typing the number `k` of an entry line (any line whose trimmed text is
/// that number, such as the digits the menu prints) selects exactly that entry.
pub proof fn lemma_menu_selects_entries(entries: Seq<AddressBookEntry>, k: nat, line: Seq<u8>)
    requires
        1 <= k <= entries.len() <= usize::MAX,
        parsed_number(line) == Some(k),
    ensures
        menu_lines(entries).len() == entries.len() + 1,
        menu_text(entries) == MENU_HEADER.spec_bytes() + joined(menu_lines(entries)),
        menu_lines(entries)[0] == index_field(0) + LOGOFF_TEXT.spec_bytes(),
        forall|i: int| 1 <= i <= entries.len() ==> #[trigger] menu_lines(entries)[i] == entry_line(i as nat, entries[i - 1]),
        choice_for(number_of(decimal_chars(k)), entries.len()) == MenuChoice::Select((k - 1) as usize),
        choice_of(line, entries.len()) == MenuChoice::Select((k - 1) as usize),
        ((k - 1) as usize) as int == k - 1,
{
    lemma_decimal_is_parsed(k);
}

/// A line that denotes `0` always logs off, and only such a line does; a
/// logoff is never a selection.
pub proof fn lemma_zero_logs_off(line: Seq<u8>, n: nat)
    ensures
        choice_for(number_of(decimal_chars(0)), n) == MenuChoice::Logoff,
        choice_of(line, n) == MenuChoice::Logoff <==> parsed_number(line) == Some(0nat),
        parsed_number(line) == Some(0nat) ==> !(choice_of(line, n) is Select),
{
    lemma_decimal_is_parsed(0);
}

/// A line that does not denote an integer in `0..=n` is an invalid choice.
pub proof fn lemma_out_of_range_is_invalid(line: Seq<u8>, n: nat)
    requires
        parsed_number(line) matches Some(k) ==> k > n,
    ensures
        choice_of(line, n) == MenuChoice::Invalid,
{
}

} // verus!
