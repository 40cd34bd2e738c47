//! Numbers as text, text from bytes, and letters.
use vstd::prelude::*;
use vstd::string::*;
use vstd::utf8::*;

verus! {

/// `String::push` appends one character.
pub assume_specification[ String::push ](s: &mut String, c: char)
    ensures
        final(s)@ == old(s)@.push(c),
;

/// What `String::from_utf8_lossy` makes of bytes that are not UTF-8: text with
/// replacement characters in the place of what does not decode.
pub uninterp spec fn utf8_repaired(b: Seq<u8>) -> Seq<char>;

/// The text that bytes stand for. Where they are not UTF-8 it is repaired.
pub open spec fn text_of(b: Seq<u8>) -> Seq<char> {
    if valid_utf8(b) {
        decode_utf8(b)
    } else {
        utf8_repaired(b)
    }
}

/// `String::from_utf8_lossy`. Valid UTF-8 comes out as the text that it encodes.
#[verifier::external_body]
pub(crate) fn text_from_bytes(b: &[u8]) -> (r: String)
    ensures
        valid_utf8(b@) ==> r@ == decode_utf8(b@),
        !valid_utf8(b@) ==> r@ == utf8_repaired(b@),
{
    String::from_utf8_lossy(b).into_owned()
}

/// The text of the bytes of a text is that text.
pub proof fn lemma_text_of(t: Seq<char>)
    ensures
        text_of(encode_utf8(t)) == t,
{
    vstd::utf8::encode_utf8_valid_utf8(t);
    vstd::utf8::encode_utf8_decode_utf8(t);
}

/// The character of a decimal digit.
pub open spec fn digit(d: int) -> char {
    (48 + d) as u8 as char
}

/// A number in decimal.
pub open spec fn decimal(n: nat) -> Seq<char>
    decreases n,
{
    if n < 10 {
        seq![digit(n as int)]
    } else {
        decimal(n / 10).push(digit((n % 10) as int))
    }
}

/// The character of a hexadecimal digit, in lower case.
pub open spec fn hex_digit(d: int) -> char {
    if d < 10 {
        (48 + d) as u8 as char
    } else {
        (87 + d) as u8 as char
    }
}

/// A byte as two hexadecimal digits, in lower case.
pub open spec fn hex_byte(b: u8) -> Seq<char> {
    seq![hex_digit((b / 16) as int), hex_digit((b % 16) as int)]
}

/// Appends a number in decimal.
pub fn push_decimal(out: &mut String, n: u64)
    ensures
        final(out)@ == old(out)@ + decimal(n as nat),
    decreases n,
{
    if n >= 10 {
        push_decimal(out, n / 10);
    }
    let c = (48 + (n % 10) as u8) as char;
    out.push(c);
    assert(out@ =~= old(out)@ + decimal(n as nat));
}

/// A number in decimal.
pub fn decimal_text(n: u64) -> (r: String)
    ensures
        r@ == decimal(n as nat),
{
    let mut out = String::new();
    push_decimal(&mut out, n);
    assert(out@ =~= decimal(n as nat));
    out
}

/// Appends a byte as two hexadecimal digits.
pub fn push_hex_byte(out: &mut String, b: u8)
    ensures
        final(out)@ == old(out)@ + hex_byte(b),
{
    let hi: u8 = b / 16;
    let lo: u8 = b % 16;
    out.push(hex_char(hi));
    out.push(hex_char(lo));
    assert(out@ =~= old(out)@ + hex_byte(b));
}

/// The character of a hexadecimal digit.
fn hex_char(d: u8) -> (c: char)
    requires
        d < 16,
    ensures
        c == hex_digit(d as int),
{
    if d < 10 {
        (48 + d) as char
    } else {
        (87 + d) as char
    }
}

/// Whether a character has the Unicode property `White_Space`.
pub open spec fn is_white_space(c: char) -> bool {
    let v = c as u32;
    ||| 0x09 <= v <= 0x0d
    ||| v == 0x20
    ||| v == 0x85
    ||| v == 0xa0
    ||| v == 0x1680
    ||| 0x2000 <= v <= 0x200a
    ||| v == 0x2028
    ||| v == 0x2029
    ||| v == 0x202f
    ||| v == 0x205f
    ||| v == 0x3000
}

/// Whether a character is white space, as code.
pub fn white_space(c: char) -> (r: bool)
    ensures
        r == is_white_space(c),
{
    let v: u32 = c as u32;
    (0x09 <= v && v <= 0x0d) || v == 0x20 || v == 0x85 || v == 0xa0 || v == 0x1680 || (0x2000 <= v && v <= 0x200a)
        || v == 0x2028 || v == 0x2029 || v == 0x202f || v == 0x205f || v == 0x3000
}

/// A text without the white space in front.
pub open spec fn trim_start(t: Seq<char>) -> Seq<char>
    decreases t.len(),
{
    if t.len() > 0 && is_white_space(t[0]) {
        trim_start(t.drop_first())
    } else {
        t
    }
}

/// A text without the white space at the end.
pub open spec fn trim_end(t: Seq<char>) -> Seq<char>
    decreases t.len(),
{
    if t.len() > 0 && is_white_space(t.last()) {
        trim_end(t.drop_last())
    } else {
        t
    }
}

/// A text without the white space around it.
pub open spec fn trimmed(t: Seq<char>) -> Seq<char> {
    trim_end(trim_start(t))
}

/// A text without the white space around it, as code.
pub fn trim(s: &str) -> (r: String)
    ensures
        r@ == trimmed(s@),
{
    let chars = characters(s);
    let mut from: usize = 0;
    assert(s@.skip(0) =~= s@);
    while from < chars.len() && white_space(chars[from])
        invariant
            from <= chars@.len(),
            chars@ == s@,
            trim_start(s@.skip(from as int)) == trim_start(s@),
        decreases chars.len() - from,
    {
        assert(s@.skip(from as int).drop_first() =~= s@.skip(from + 1));
        from += 1;
    }
    let ghost front = s@.skip(from as int);
    assert(front == trim_start(s@));
    let mut to: usize = chars.len();
    assert(s@.subrange(from as int, to as int) =~= front);
    while to > from && white_space(chars[to - 1])
        invariant
            from <= to <= chars@.len(),
            chars@ == s@,
            front == s@.skip(from as int),
            trim_end(s@.subrange(from as int, to as int)) == trim_end(front),
        decreases to,
    {
        let ghost here = s@.subrange(from as int, to as int);
        assert(here.last() == s@[to - 1]);
        assert(here.drop_last() =~= s@.subrange(from as int, to - 1));
        to -= 1;
    }
    proof {
        let rest = s@.subrange(from as int, to as int);
        if rest.len() > 0 {
            assert(rest.last() == s@[to - 1]);
        }
    }
    s.substring_char(from, to).to_owned()
}

/// An ASCII letter in upper case; other characters as they are.
pub open spec fn ascii_upper(c: char) -> char {
    if 97 <= c as u32 <= 122 {
        ((c as u32 - 32) as u8) as char
    } else {
        c
    }
}

/// What `str::to_uppercase` makes of text that is not all ASCII.
pub uninterp spec fn unicode_uppercase(t: Seq<char>) -> Seq<char>;

/// A text in upper case.
pub open spec fn uppercase(t: Seq<char>) -> Seq<char> {
    if is_ascii_chars(t) {
        t.map_values(|c: char| ascii_upper(c))
    } else {
        unicode_uppercase(t)
    }
}

/// `str::to_uppercase`. Of ASCII text it changes the letters from a to z, one
/// for one.
#[verifier::external_body]
pub(crate) fn to_uppercase(s: &str) -> (r: String)
    ensures
        is_ascii_chars(s@) ==> r@ == s@.map_values(|c: char| ascii_upper(c)),
        !is_ascii_chars(s@) ==> r@ == unicode_uppercase(s@),
{
    s.to_uppercase()
}

/// An ASCII letter in lower case; other characters as they are.
pub open spec fn ascii_lower(c: char) -> char {
    if 65 <= c as u32 <= 90 {
        ((c as u32 + 32) as u8) as char
    } else {
        c
    }
}

/// What `str::to_lowercase` makes of text that is not all ASCII.
pub uninterp spec fn unicode_lowercase(t: Seq<char>) -> Seq<char>;

/// A text in lower case.
pub open spec fn lowercase(t: Seq<char>) -> Seq<char> {
    if is_ascii_chars(t) {
        t.map_values(|c: char| ascii_lower(c))
    } else {
        unicode_lowercase(t)
    }
}

/// `str::to_lowercase`. Of ASCII text it changes the letters from A to Z, one
/// for one.
#[verifier::external_body]
pub(crate) fn to_lowercase(s: &str) -> (r: String)
    ensures
        is_ascii_chars(s@) ==> r@ == s@.map_values(|c: char| ascii_lower(c)),
        !is_ascii_chars(s@) ==> r@ == unicode_lowercase(s@),
{
    s.to_lowercase()
}

/// Where a character stands last in a text, or -1.
pub open spec fn last_of(t: Seq<char>, c: char) -> int
    decreases t.len(),
{
    if t.len() == 0 {
        -1
    } else if t.last() == c {
        t.len() - 1
    } else {
        last_of(t.drop_last(), c)
    }
}

/// The place of a character lies within the text, it stands there, and behind it
/// it does not stand again.
pub proof fn lemma_last_of(t: Seq<char>, c: char)
    ensures
        -1 <= last_of(t, c) < t.len(),
        last_of(t, c) >= 0 ==> t[last_of(t, c)] == c,
        forall|i: int| last_of(t, c) < i < t.len() ==> #[trigger] t[i] != c,
    decreases t.len(),
{
    if t.len() > 0 && t.last() != c {
        let rest = t.drop_last();
        lemma_last_of(rest, c);
        assert forall|i: int| last_of(t, c) < i < t.len() implies #[trigger] t[i] != c by {
            if i < rest.len() {
                assert(rest[i] == t[i]);
            }
        }
    }
}

/// Where a character stands last in a text, counted in characters.
pub fn find_last(s: &str, wanted: char) -> (r: Option<usize>)
    ensures
        match r {
            Some(i) => i == last_of(s@, wanted) && i < s@.len(),
            None => last_of(s@, wanted) == -1,
        },
{
    let mut found: Option<usize> = None;
    let mut i: usize = 0;
    let n: usize = s.unicode_len();
    for c in iter: s.chars()
        invariant
            iter.seq() == s@,
            i == iter.index(),
            n == s@.len(),
            match found {
                Some(k) => k == last_of(s@.take(i as int), wanted) && k < i,
                None => last_of(s@.take(i as int), wanted) == -1,
            },
    {
        proof {
            assert(s@.take(i + 1).drop_last() =~= s@.take(i as int));
        }
        if c == wanted {
            found = Some(i);
        }
        i += 1;
    }
    assert(s@.take(i as int) =~= s@);
    found
}

/// Whether a text comes before another: by the first character in which they
/// differ, and a text before those that it starts.
pub open spec fn before(a: Seq<char>, b: Seq<char>) -> bool
    decreases a.len(),
{
    if b.len() == 0 {
        false
    } else if a.len() == 0 {
        true
    } else if a[0] != b[0] {
        a[0] < b[0]
    } else {
        before(a.drop_first(), b.drop_first())
    }
}

/// Of two texts that differ, one comes before the other.
pub proof fn lemma_before_total(a: Seq<char>, b: Seq<char>)
    ensures
        a != b ==> before(a, b) || before(b, a),
        !(before(a, b) && before(b, a)),
        !before(a, a),
    decreases a.len(),
{
    if a.len() > 0 {
        lemma_before_total(a.drop_first(), a.drop_first());
    }
    if a.len() > 0 && b.len() > 0 {
        if a[0] == b[0] {
            lemma_before_total(a.drop_first(), b.drop_first());
            if a.drop_first() == b.drop_first() {
                assert(a =~= seq![a[0]] + a.drop_first());
                assert(b =~= seq![b[0]] + b.drop_first());
                assert(a == b);
            }
        }
    } else if a.len() == 0 && b.len() == 0 {
        assert(a =~= b);
    }
}

/// What comes before a text comes before what that text comes before.
pub proof fn lemma_before_transitive(a: Seq<char>, b: Seq<char>, c: Seq<char>)
    requires
        before(a, b),
        before(b, c),
    ensures
        before(a, c),
    decreases a.len(),
{
    if a.len() > 0 && a[0] == b[0] && b[0] == c[0] {
        lemma_before_transitive(a.drop_first(), b.drop_first(), c.drop_first());
    }
}

/// The characters of a text.
pub fn characters(s: &str) -> (r: Vec<char>)
    ensures
        r@ == s@,
{
    let mut chars: Vec<char> = Vec::new();
    for c in iter: s.chars()
        invariant
            iter.seq() == s@,
            chars@ == s@.take(iter.index()),
    {
        chars.push(c);
        assert(chars@ =~= s@.take(iter.index() + 1));
    }
    assert(chars@ =~= s@);
    chars
}

/// Whether a text starts with another.
pub fn starts_with(s: &str, prefix: &str) -> (r: bool)
    ensures
        r == prefix@.is_prefix_of(s@),
{
    let n: usize = prefix.unicode_len();
    if s.unicode_len() < n {
        return false;
    }
    let all = characters(s);
    let front = characters(prefix);
    let mut i: usize = 0;
    while i < n
        invariant
            i <= n,
            n == prefix@.len(),
            n <= s@.len(),
            all@ == s@,
            front@ == prefix@,
            prefix@.take(i as int) == s@.take(i as int),
        decreases n - i,
    {
        if all[i] != front[i] {
            assert(prefix@[i as int] != s@.subrange(0, n as int)[i as int]);
            return false;
        }
        assert(prefix@.take(i + 1) =~= prefix@.take(i as int).push(prefix@[i as int]));
        assert(s@.take(i + 1) =~= s@.take(i as int).push(s@[i as int]));
        i += 1;
    }
    assert(prefix@.take(n as int) =~= prefix@);
    true
}

/// Whether a text comes before another, as code.
pub fn comes_before(a: &str, b: &str) -> (r: bool)
    ensures
        r == before(a@, b@),
{
    let x = characters(a);
    let y = characters(b);
    let mut i: usize = 0;
    assert(x@.skip(0) =~= x@);
    assert(y@.skip(0) =~= y@);
    while i < x.len() && i < y.len() && x[i] == y[i]
        invariant
            i <= x@.len(),
            i <= y@.len(),
            before(x@.skip(i as int), y@.skip(i as int)) == before(x@, y@),
        decreases x.len() - i,
    {
        assert(x@.skip(i as int).drop_first() =~= x@.skip(i + 1));
        assert(y@.skip(i as int).drop_first() =~= y@.skip(i + 1));
        i += 1;
    }
    if i >= y.len() {
        false
    } else if i >= x.len() {
        true
    } else {
        x[i] < y[i]
    }
}

// ---------------------------------------------------------------------------
// Laws
// ---------------------------------------------------------------------------

/// The number that decimal digits stand for.
pub open spec fn number_of(t: Seq<char>) -> int
    decreases t.len(),
{
    if t.len() == 0 {
        0
    } else {
        10 * number_of(t.drop_last()) + (t.last() as int - '0' as int)
    }
}

/// A number in decimal is a text of digits that stands for it, without a zero in
/// front unless it is the only digit. So different numbers have different texts.
pub proof fn law_decimals_stand_for_the_number(n: nat)
    ensures
        number_of(decimal(n)) == n,
        decimal(n).len() > 0,
        forall|i: int| 0 <= i < decimal(n).len() ==> '0' <= #[trigger] decimal(n)[i] <= '9',
        n > 0 ==> decimal(n)[0] != '0',
    decreases n,
{
    let t = decimal(n);
    if n >= 10 {
        law_decimals_stand_for_the_number(n / 10);
        assert(t.drop_last() =~= decimal(n / 10));
        assert forall|i: int| 0 <= i < t.len() implies '0' <= #[trigger] t[i] <= '9' by {
            if i < t.len() - 1 {
                assert(t[i] == decimal(n / 10)[i]);
            }
        }
        assert(t[0] == decimal(n / 10)[0]);
    } else {
        assert(t.drop_last() =~= Seq::<char>::empty());
        assert(number_of(t.drop_last()) == 0);
    }
}

/// A text without the white space in front is what follows that white space.
proof fn lemma_trim_start(t: Seq<char>) -> (k: int)
    ensures
        0 <= k <= t.len(),
        trim_start(t) == t.skip(k),
        forall|i: int| 0 <= i < k ==> is_white_space(#[trigger] t[i]),
        k < t.len() ==> !is_white_space(t[k]),
    decreases t.len(),
{
    if t.len() > 0 && is_white_space(t[0]) {
        let rest = t.drop_first();
        let k = lemma_trim_start(rest);
        assert(rest.skip(k) =~= t.skip(k + 1));
        assert forall|i: int| 0 <= i < k + 1 implies is_white_space(#[trigger] t[i]) by {
            if i > 0 {
                assert(rest[i - 1] == t[i]);
            }
        }
        if k < rest.len() {
            assert(rest[k] == t[k + 1]);
        }
        k + 1
    } else {
        assert(t.skip(0) =~= t);
        0
    }
}

/// A text without the white space at the end is what stands in front of that white
/// space.
proof fn lemma_trim_end(t: Seq<char>) -> (k: int)
    ensures
        0 <= k <= t.len(),
        trim_end(t) == t.take(k),
        forall|i: int| k <= i < t.len() ==> is_white_space(#[trigger] t[i]),
        k > 0 ==> !is_white_space(t[k - 1]),
    decreases t.len(),
{
    if t.len() > 0 && is_white_space(t.last()) {
        let rest = t.drop_last();
        let k = lemma_trim_end(rest);
        assert(rest.take(k) =~= t.take(k));
        assert forall|i: int| k <= i < t.len() implies is_white_space(#[trigger] t[i]) by {
            if i < rest.len() {
                assert(rest[i] == t[i]);
            }
        }
        k
    } else {
        assert(t.take(t.len() as int) =~= t);
        t.len() as int
    }
}

/// Trimming takes away all white space at both ends of a text, and nothing else:
/// what is left is the middle of the text, from its first character that is not
/// white space to its last. Nothing is left where there is no such character.
pub proof fn law_trimming_takes_the_white_space_around(t: Seq<char>) -> (r: (int, int))
    ensures
        0 <= r.0 <= r.1 <= t.len(),
        trimmed(t) == t.subrange(r.0, r.1),
        forall|i: int| 0 <= i < r.0 ==> is_white_space(#[trigger] t[i]),
        forall|i: int| r.1 <= i < t.len() ==> is_white_space(#[trigger] t[i]),
        r.0 < r.1 ==> !is_white_space(t[r.0]) && !is_white_space(t[r.1 - 1]),
        trimmed(t).len() == 0 <==> (forall|i: int| 0 <= i < t.len() ==> is_white_space(#[trigger] t[i])),
{
    let a = lemma_trim_start(t);
    let front = t.skip(a);
    let b = lemma_trim_end(front);
    assert(front.take(b) =~= t.subrange(a, a + b));
    assert forall|i: int| a + b <= i < t.len() implies is_white_space(#[trigger] t[i]) by {
        assert(front[i - a] == t[i]);
    }
    if b > 0 {
        assert(front[b - 1] == t[a + b - 1]);
        assert(!is_white_space(t[a])) by {
            assert(a < t.len());
        }
    }
    (a, a + b)
}

/// A text comes before another just where they first differ: its character there is
/// the smaller one, or it has ended and the other has not.
pub proof fn law_order_is_by_the_first_difference(a: Seq<char>, b: Seq<char>, k: int)
    requires
        0 <= k <= a.len(),
        k <= b.len(),
        a.take(k) == b.take(k),
        k < a.len() && k < b.len() ==> a[k] != b[k],
        k == a.len() || k == b.len() || a[k] != b[k],
    ensures
        before(a, b) <==> k < b.len() && (k == a.len() || a[k] < b[k]),
    decreases k,
{
    if k > 0 {
        assert(a.take(k)[0] == a[0] && b.take(k)[0] == b[0]);
        assert(a.drop_first().take(k - 1) =~= a.take(k).drop_first());
        assert(b.drop_first().take(k - 1) =~= b.take(k).drop_first());
        law_order_is_by_the_first_difference(a.drop_first(), b.drop_first(), k - 1);
    }
}

/// In ASCII the blank, the tab and the four line breaks are white space, and nothing else
/// is: no letter, no digit and no mark.
pub proof fn law_ascii_white_space(c: char)
    requires
        (c as u32) < 128,
    ensures
        is_white_space(c) <==> c == ' ' || '\t' <= c <= '\r',
        c > ' ' ==> !is_white_space(c),
{
}

/// The case of an ASCII text changes letter by letter, and only letters change: what is in
/// upper case has no small letter, what is in lower case no capital, and one comes back
/// from the other.
pub proof fn law_ascii_case(t: Seq<char>, i: int)
    requires
        is_ascii_chars(t),
        0 <= i < t.len(),
    ensures
        uppercase(t).len() == t.len(),
        lowercase(t).len() == t.len(),
        !('a' <= uppercase(t)[i] <= 'z'),
        !('A' <= lowercase(t)[i] <= 'Z'),
        'a' <= t[i] <= 'z' <==> uppercase(t)[i] != t[i],
        'A' <= t[i] <= 'Z' <==> lowercase(t)[i] != t[i],
        ascii_lower(ascii_upper(t[i])) == lowercase(t)[i],
        ascii_upper(ascii_lower(t[i])) == uppercase(t)[i],
        'a' <= t[i] <= 'z' ==> uppercase(t)[i] as int == t[i] as int - 32,
{
}

} // verus!
