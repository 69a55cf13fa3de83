//! The book catalog's line format: one book per line, title, author and
//! year separated by commas. Serializing and parsing are exact inverses on
//! clean fields; a malformed line parses to nothing, as the loader skips it.
use vstd::prelude::*;

use crate::strutil::{dec_digits_of, push_char, push_u16_digits};
use crate::text::{is_space, is_space_char};

verus! {

/// One catalog entry.
#[derive(Clone, Debug, PartialEq)]
pub struct Book {
    pub title: String,
    pub author: String,
    pub year: u16,
}

/// The text without its leading white space.
pub open spec fn trim_front(s: Seq<char>) -> Seq<char>
    decreases s.len(),
{
    if s.len() > 0 && is_space_char(s[0]) {
        trim_front(s.subrange(1, s.len() as int))
    } else {
        s
    }
}

/// The text without its trailing white space.
pub open spec fn trim_back(s: Seq<char>) -> Seq<char>
    decreases s.len(),
{
    if s.len() > 0 && is_space_char(s.last()) {
        trim_back(s.drop_last())
    } else {
        s
    }
}

/// The text without leading and trailing white space.
pub open spec fn trim_of(s: Seq<char>) -> Seq<char> {
    trim_back(trim_front(s))
}

proof fn lemma_trim_front_subrange(s: Seq<char>, k: int)
    requires
        0 <= k <= s.len(),
        forall|j: int| 0 <= j < k ==> is_space_char(s[j]),
        k == s.len() || !is_space_char(s[k]),
    ensures
        trim_front(s) == s.subrange(k, s.len() as int),
    decreases k,
{
    if k == 0 {
        assert(s.subrange(0, s.len() as int) =~= s);
    } else {
        let tail = s.subrange(1, s.len() as int);
        assert(forall|j: int| 0 <= j < tail.len() ==> tail[j] == s[j + 1]);
        lemma_trim_front_subrange(tail, k - 1);
        assert(tail.subrange(k - 1, tail.len() as int) =~= s.subrange(k, s.len() as int));
    }
}

proof fn lemma_trim_back_take(s: Seq<char>, e: int)
    requires
        0 <= e <= s.len(),
        forall|j: int| e <= j < s.len() ==> is_space_char(s[j]),
        e == 0 || !is_space_char(s[e - 1]),
    ensures
        trim_back(s) == s.take(e),
    decreases s.len(),
{
    if e == s.len() {
        assert(s.take(e) =~= s);
    } else {
        assert(is_space_char(s.last()));
        assert(forall|j: int| 0 <= j < s.drop_last().len() ==> s.drop_last()[j] == s[j]);
        lemma_trim_back_take(s.drop_last(), e);
        assert(s.drop_last().take(e) =~= s.take(e));
    }
}

/// Cuts leading and trailing white space off.
pub fn trim_str<'a>(s: &'a str) -> (r: &'a str)
    ensures
        r@ == trim_of(s@),
{
    let n = s.unicode_len();
    let mut start: usize = 0;
    while start < n && is_space(s.get_char(start))
        invariant
            start <= n,
            n == s@.len(),
            forall|j: int| 0 <= j < start ==> is_space_char(s@[j]),
        decreases n - start,
    {
        start += 1;
    }
    let mut end: usize = n;
    while end > start && is_space(s.get_char(end - 1))
        invariant
            start <= end <= n,
            n == s@.len(),
            forall|j: int| end <= j < n ==> is_space_char(s@[j]),
        decreases end,
    {
        end -= 1;
    }
    let r = s.substring_char(start, end);
    proof {
        lemma_trim_front_subrange(s@, start as int);
        let u = s@.subrange(start as int, n as int);
        assert(forall|j: int| 0 <= j < u.len() ==> u[j] == s@[start as int + j]);
        lemma_trim_back_take(u, end as int - start as int);
        assert(u.take(end as int - start as int) =~= s@.subrange(start as int, end as int));
    }
    r
}

/// A decimal digit.
pub open spec fn is_digit_char(c: char) -> bool {
    0x30 <= c as u32 <= 0x39
}

/// The value of one decimal digit character.
pub open spec fn digit_value(c: char) -> int {
    c as u32 - 0x30
}

/// The number the digit characters denote, most significant first.
pub open spec fn digits_value(s: Seq<char>) -> int
    decreases s.len(),
{
    if s.len() == 0 {
        0
    } else {
        digits_value(s.drop_last()) * 10 + digit_value(s.last())
    }
}

proof fn lemma_digits_value_nonneg(s: Seq<char>)
    requires
        forall|i: int| 0 <= i < s.len() ==> is_digit_char(s[i]),
    ensures
        digits_value(s) >= 0,
    decreases s.len(),
{
    if s.len() > 0 {
        assert(forall|i: int| 0 <= i < s.drop_last().len() ==> s.drop_last()[i] == s[i]);
        lemma_digits_value_nonneg(s.drop_last());
        assert(digit_value(s.last()) >= 0);
    }
}

proof fn lemma_digits_value_mono(s: Seq<char>, j: int)
    requires
        forall|i: int| 0 <= i < s.len() ==> is_digit_char(s[i]),
        0 <= j <= s.len(),
    ensures
        digits_value(s.take(j)) <= digits_value(s),
    decreases s.len(),
{
    if j == s.len() {
        assert(s.take(j) =~= s);
    } else {
        assert(forall|i: int| 0 <= i < s.drop_last().len() ==> s.drop_last()[i] == s[i]);
        assert(s.drop_last().take(j) =~= s.take(j));
        lemma_digits_value_mono(s.drop_last(), j);
        lemma_digits_value_nonneg(s.drop_last());
        assert(digit_value(s.last()) >= 0);
    }
}

/// The text with one leading plus sign removed.
pub open spec fn stripped(s: Seq<char>) -> Seq<char> {
    if s.len() > 0 && s[0] == '+' {
        s.subrange(1, s.len() as int)
    } else {
        s
    }
}

/// The text reads as an unsigned 16-bit number: after an optional leading
/// plus sign, one or more decimal digits whose value fits.
pub open spec fn parse_u16_ok(s: Seq<char>) -> bool {
    &&& stripped(s).len() > 0
    &&& forall|i: int| 0 <= i < stripped(s).len() ==> is_digit_char(#[trigger] stripped(s)[i])
    &&& digits_value(stripped(s)) <= 65535
}

/// The number the text denotes.
pub open spec fn parse_u16_val(s: Seq<char>) -> int {
    digits_value(stripped(s))
}

/// Reads an unsigned 16-bit number, exactly as the catalog's year field
/// accepts one: `Some` if and only if the whole text is an optional plus
/// sign followed by digits whose value fits.
pub fn parse_u16(s: &str) -> (r: Option<u16>)
    ensures
        r is Some <==> parse_u16_ok(s@),
        r matches Some(v) ==> v as int == parse_u16_val(s@),
{
    let n = s.unicode_len();
    if n == 0 {
        return None;
    }
    let first = s.get_char(0);
    let start: usize = if first == '+' {
        1
    } else {
        0
    };
    let ghost d = stripped(s@);
    proof {
        if first == '+' {
            assert(d =~= s@.subrange(1, n as int));
        }
        assert(d.len() == n - start);
        assert(forall|j: int| 0 <= j < d.len() ==> d[j] == s@[start as int + j]);
        assert(d.take(0) =~= Seq::<char>::empty());
    }
    if n == start {
        return None;
    }
    let mut acc: u32 = 0;
    let mut i: usize = start;
    while i < n
        invariant
            start <= i <= n,
            n == s@.len(),
            start <= 1,
            d == stripped(s@),
            d.len() == n - start,
            forall|j: int| 0 <= j < d.len() ==> d[j] == s@[start as int + j],
            forall|j: int| 0 <= j < i - start ==> is_digit_char(#[trigger] d[j]),
            acc as int == digits_value(d.take(i as int - start as int)),
            acc <= 65535,
        decreases n - i,
    {
        let c = s.get_char(i);
        let ghost k = i as int - start as int;
        proof {
            assert(d[k] == s@[i as int]);
        }
        let u = c as u32;
        if u < 0x30 || u > 0x39 {
            proof {
                assert(!is_digit_char(d[k]));
            }
            return None;
        }
        let dig = u - 0x30;
        proof {
            assert(d.take(k + 1).drop_last() =~= d.take(k));
            assert(d.take(k + 1).last() == d[k]);
            assert(digits_value(d.take(k + 1)) == acc as int * 10 + dig as int);
        }
        let acc2 = acc * 10 + dig;
        if acc2 > 65535 {
            proof {
                if parse_u16_ok(s@) {
                    lemma_digits_value_mono(d, k + 1);
                }
            }
            return None;
        }
        acc = acc2;
        i += 1;
    }
    proof {
        assert(d.take(n as int - start as int) =~= d);
    }
    Some(acc as u16)
}

proof fn lemma_digit_char_value(d: int)
    requires
        0 <= d < 10,
    ensures
        is_digit_char(crate::strutil::digit_char(d)),
        digit_value(crate::strutil::digit_char(d)) == d,
{
}

proof fn lemma_dec_digits_are_digits(n: int)
    requires
        0 <= n,
    ensures
        dec_digits_of(n).len() >= 1,
        forall|i: int| 0 <= i < dec_digits_of(n).len() ==> is_digit_char(#[trigger] dec_digits_of(n)[i]),
    decreases n,
{
    if n < 10 {
        lemma_digit_char_value(n);
    } else {
        lemma_dec_digits_are_digits(n / 10);
        lemma_digit_char_value(n % 10);
        assert(forall|i: int|
            0 <= i < dec_digits_of(n / 10).len() ==> dec_digits_of(n)[i] == dec_digits_of(
                n / 10,
            )[i]);
        assert(dec_digits_of(n).last() == crate::strutil::digit_char(n % 10));
    }
}

proof fn lemma_dec_digits_value(n: int)
    requires
        0 <= n,
    ensures
        digits_value(dec_digits_of(n)) == n,
    decreases n,
{
    if n < 10 {
        reveal_with_fuel(digits_value, 3);
        lemma_digit_char_value(n);
        assert(dec_digits_of(n) == seq![crate::strutil::digit_char(n)]);
        assert(seq![crate::strutil::digit_char(n)].drop_last() =~= Seq::<char>::empty());
        assert(seq![crate::strutil::digit_char(n)].last() == crate::strutil::digit_char(n));
    } else {
        lemma_dec_digits_value(n / 10);
        lemma_digit_char_value(n % 10);
        let w = dec_digits_of(n / 10);
        assert(dec_digits_of(n) == w.push(crate::strutil::digit_char(n % 10)));
        assert(w.push(crate::strutil::digit_char(n % 10)).drop_last() =~= w);
        vstd::arithmetic::div_mod::lemma_fundamental_div_mod(n, 10);
    }
}

/// The smallest position where `c` occurs, or the length when it is absent.
pub open spec fn first_index(s: Seq<char>, c: char) -> int
    decreases s.len(),
{
    if s.len() == 0 {
        0
    } else if s[0] == c {
        0
    } else {
        1 + first_index(s.subrange(1, s.len() as int), c)
    }
}

proof fn lemma_first_index_is(s: Seq<char>, c: char, k: int)
    requires
        0 <= k <= s.len(),
        forall|j: int| 0 <= j < k ==> s[j] != c,
        k == s.len() || s[k] == c,
    ensures
        first_index(s, c) == k,
    decreases s.len(),
{
    if s.len() == 0 {
    } else if s[0] == c {
        assert(k == 0);
    } else {
        assert(k >= 1);
        let tail = s.subrange(1, s.len() as int);
        assert(forall|j: int| 0 <= j < tail.len() ==> tail[j] == s[j + 1]);
        lemma_first_index_is(tail, c, k - 1);
    }
}

/// What one stored line holds, if it is well formed: exactly three
/// comma-separated fields, each trimmed, the third an in-range year.
pub open spec fn book_of_line(s: Seq<char>) -> Option<(Seq<char>, Seq<char>, int)> {
    let i1 = first_index(s, ',');
    if i1 == s.len() {
        None
    } else {
        let rest = s.subrange(i1 + 1, s.len() as int);
        let i2 = first_index(rest, ',');
        if i2 == rest.len() {
            None
        } else {
            let t3 = rest.subrange(i2 + 1, rest.len() as int);
            if first_index(t3, ',') != t3.len() {
                None
            } else {
                let year_text = trim_of(t3);
                if parse_u16_ok(year_text) {
                    Some(
                        (trim_of(s.take(i1)), trim_of(rest.take(i2)), parse_u16_val(year_text)),
                    )
                } else {
                    None
                }
            }
        }
    }
}

/// The smallest position at or after `from` holding a comma, or the length.
fn find_comma(s: &str, from: usize) -> (r: usize)
    requires
        from <= s@.len(),
    ensures
        from <= r <= s@.len(),
        forall|j: int| from <= j < r ==> s@[j] != ',',
        r < s@.len() ==> s@[r as int] == ',',
{
    let n = s.unicode_len();
    let mut i: usize = from;
    while i < n
        invariant
            from <= i <= n,
            n == s@.len(),
            forall|j: int| from <= j < i ==> s@[j] != ',',
        decreases n - i,
    {
        if s.get_char(i) == ',' {
            return i;
        }
        i += 1;
    }
    n
}

/// Reads one stored line back: the book it holds, or `None` for a malformed
/// line, which the loader skips.
pub fn parse_book_line(line: &str) -> (r: Option<Book>)
    ensures
        match r {
            Some(b) => book_of_line(line@) matches Some(t) && b.title@ == t.0 && b.author@ == t.1
                && b.year as int == t.2,
            None => book_of_line(line@) is None,
        },
{
    let n = line.unicode_len();
    let i1 = find_comma(line, 0);
    proof {
        lemma_first_index_is(line@, ',', i1 as int);
    }
    if i1 == n {
        return None;
    }
    let ghost rest = line@.subrange(i1 as int + 1, n as int);
    proof {
        assert(forall|j: int| 0 <= j < rest.len() ==> rest[j] == line@[i1 as int + 1 + j]);
    }
    let i2 = find_comma(line, i1 + 1);
    proof {
        lemma_first_index_is(rest, ',', i2 as int - i1 - 1);
    }
    if i2 == n {
        return None;
    }
    let ghost t3 = rest.subrange(i2 as int - i1, rest.len() as int);
    proof {
        assert(t3 =~= line@.subrange(i2 as int + 1, n as int));
        assert(forall|j: int| 0 <= j < t3.len() ==> t3[j] == line@[i2 as int + 1 + j]);
    }
    let i3 = find_comma(line, i2 + 1);
    proof {
        lemma_first_index_is(t3, ',', i3 as int - i2 - 1);
    }
    if i3 < n {
        return None;
    }
    let title_raw = line.substring_char(0, i1);
    let author_raw = line.substring_char(i1 + 1, i2);
    let year_raw = line.substring_char(i2 + 1, n);
    proof {
        assert(title_raw@ =~= line@.take(i1 as int));
        assert(author_raw@ =~= rest.take(i2 as int - i1 - 1));
        assert(year_raw@ =~= t3);
    }
    let title = trim_str(title_raw).to_owned();
    let author = trim_str(author_raw).to_owned();
    let year_text = trim_str(year_raw);
    match parse_u16(year_text) {
        Some(year) => Some(Book { title, author, year }),
        None => None,
    }
}

/// Saving then loading is the identity on clean books: when the title and
/// author hold no comma and carry no leading or trailing white space, the
/// stored line parses back to exactly the same fields.
pub proof fn lemma_book_line_round_trip(b: Book, line: Seq<char>)
    requires
        line == b.title@ + seq![','] + b.author@ + seq![','] + dec_digits_of(b.year as int),
        forall|i: int| 0 <= i < b.title@.len() ==> b.title@[i] != ',',
        forall|i: int| 0 <= i < b.author@.len() ==> b.author@[i] != ',',
        trim_of(b.title@) == b.title@,
        trim_of(b.author@) == b.author@,
    ensures
        book_of_line(line) == Some((b.title@, b.author@, b.year as int)),
{
    let t = b.title@;
    let a = b.author@;
    let d = dec_digits_of(b.year as int);
    lemma_dec_digits_are_digits(b.year as int);
    assert(line.len() == t.len() + 1 + a.len() + 1 + d.len());
    assert(forall|j: int| 0 <= j < t.len() ==> line[j] == t[j]);
    assert(line[t.len() as int] == ',');
    lemma_first_index_is(line, ',', t.len() as int);
    let rest = line.subrange(t.len() as int + 1, line.len() as int);
    assert(rest =~= a + seq![','] + d);
    assert(forall|j: int| 0 <= j < a.len() ==> rest[j] == a[j]);
    assert(rest[a.len() as int] == ',');
    lemma_first_index_is(rest, ',', a.len() as int);
    let t3 = rest.subrange(a.len() as int + 1, rest.len() as int);
    assert(t3 =~= d);
    assert(forall|j: int| 0 <= j < d.len() ==> d[j] != ',');
    lemma_first_index_is(t3, ',', d.len() as int);
    assert(line.take(t.len() as int) =~= t);
    assert(rest.take(a.len() as int) =~= a);
    // a digit string has no surrounding white space and no sign to strip
    assert(!is_space_char(d[0]) && !is_space_char(d[d.len() - 1]));
    assert(trim_front(d) == d);
    assert(trim_back(d) == d);
    assert(d[0] != '+');
    assert(stripped(d) == d);
    lemma_dec_digits_value(b.year as int);
    assert(parse_u16_ok(d));
    assert(parse_u16_val(d) == b.year as int);
}

/// The one line that stores a book: title, author and year, separated by
/// commas.
pub fn book_line(book: &Book) -> (r: String)
    ensures
        r@ == book.title@ + seq![','] + book.author@ + seq![','] + dec_digits_of(
            book.year as int,
        ),
{
    let mut s = book.title.clone();
    push_char(&mut s, ',');
    s.append(book.author.as_str());
    push_char(&mut s, ',');
    push_u16_digits(&mut s, book.year);
    proof {
        assert(s@ =~= book.title@ + seq![','] + book.author@ + seq![','] + dec_digits_of(
            book.year as int,
        ));
    }
    s
}

} // verus!
