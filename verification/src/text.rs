//! What the other modules share on text: reading bytes as text, searching
//! characters, rendering numbers, and lists without repeats.

use vstd::prelude::*;
use vstd::std_specs::iter::IteratorSpec;
use vstd::string::{StrSliceExecFns, StringExecFns};
use vstd::utf8::{
    decode_utf8, encode_utf8, encode_utf8_decode_utf8, encode_utf8_valid_utf8, valid_utf8,
};

verus! {

/// Collects the characters of `s` into a vector.
pub fn chars_of(s: &str) -> (v: Vec<char>)
    ensures
        v@ == s@,
{
    let mut v: Vec<char> = Vec::new();
    for c in it: s.chars()
        invariant
            v@ == it.seq().take(it.index()),
            it.seq() == s@,
    {
        v.push(c);
    }
    v
}

/// Tests whether `text` ends with the characters of `pat`.
pub fn ends_with(text: &[char], pat: &str) -> (r: bool)
    ensures
        r == pat@.is_suffix_of(text@),
{
    let n = pat.unicode_len();
    if n > text.len() {
        return false;
    }
    let from: usize = text.len() - n;
    let mut i: usize = 0;
    while i < n
        invariant
            i <= n,
            n == pat@.len(),
            from + n == text.len(),
            forall|j: int| 0 <= j < i ==> text@[from + j] == pat@[j],
        decreases n - i,
    {
        if text[from + i] != pat.get_char(i) {
            assert(text@.subrange(from as int, text@.len() as int)[i as int] == text@[from + i]);
            return false;
        }
        i += 1;
    }
    assert(pat@ =~= text@.subrange(from as int, text@.len() as int));
    true
}

/// What `String::from_utf8_lossy(bytes)` gives: the text of the bytes, with each
/// invalid sequence replaced.
pub uninterp spec fn lossy_text(bytes: Seq<u8>) -> Seq<char>;

/// Reads `bytes` as text with `core::str::from_utf8`. Trusted: the bytes are
/// accepted exactly when they are valid UTF-8, and the text is then what they
/// decode to.
#[verifier::external_body]
pub(crate) fn utf8_text(bytes: &[u8]) -> (r: Option<&str>)
    ensures
        r is Some <==> valid_utf8(bytes@),
        r matches Some(s) ==> s@ == decode_utf8(bytes@),
{
    match core::str::from_utf8(bytes) {
        Ok(s) => Some(s),
        Err(_) => None,
    }
}

/// Reads bytes as text with `String::from_utf8_lossy`. Trusted: the result is a
/// function of the bytes, named `lossy_text`.
#[verifier::external_body]
pub(crate) fn read_lossy(bytes: &[u8]) -> (text: String)
    ensures
        text@ == lossy_text(bytes@),
{
    String::from_utf8_lossy(bytes).into_owned()
}

/// The text of a byte stream: what the bytes decode to where they are valid
/// UTF-8, and else their text with each invalid sequence replaced.
pub open spec fn stream_text(bytes: Seq<u8>) -> Seq<char> {
    if valid_utf8(bytes) {
        decode_utf8(bytes)
    } else {
        lossy_text(bytes)
    }
}

/// The text of encoded text is that text.
pub proof fn lemma_text_of_encoded(chars: Seq<char>)
    ensures
        valid_utf8(encode_utf8(chars)),
        stream_text(encode_utf8(chars)) == chars,
{
    encode_utf8_valid_utf8(chars);
    encode_utf8_decode_utf8(chars);
}

/// Reads a byte stream as text, whatever its bytes.
pub fn text_of(bytes: &[u8]) -> (text: String)
    ensures
        text@ == stream_text(bytes@),
{
    match utf8_text(bytes) {
        Some(s) => String::from_str(s),
        None => read_lossy(bytes),
    }
}

/// The character that renders the digit `d` (0 to 15), lower case above nine.
pub open spec fn digit_char(d: int) -> char {
    seq!['0', '1', '2', '3', '4', '5', '6', '7', '8', '9', 'a', 'b', 'c', 'd', 'e', 'f'][d]
}

/// The one-character text of the digit `d`; a number above fifteen counts as
/// fifteen.
pub fn digit_str(d: u8) -> (s: &'static str)
    ensures
        s@ == seq![digit_char(if d < 16 { d as int } else { 15 })],
{
    proof {
        reveal_strlit("0");
        reveal_strlit("1");
        reveal_strlit("2");
        reveal_strlit("3");
        reveal_strlit("4");
        reveal_strlit("5");
        reveal_strlit("6");
        reveal_strlit("7");
        reveal_strlit("8");
        reveal_strlit("9");
        reveal_strlit("a");
        reveal_strlit("b");
        reveal_strlit("c");
        reveal_strlit("d");
        reveal_strlit("e");
        reveal_strlit("f");
    }
    let s = match d {
        0 => "0",
        1 => "1",
        2 => "2",
        3 => "3",
        4 => "4",
        5 => "5",
        6 => "6",
        7 => "7",
        8 => "8",
        9 => "9",
        10 => "a",
        11 => "b",
        12 => "c",
        13 => "d",
        14 => "e",
        _ => "f",
    };
    assert(s@ =~= seq![digit_char(if d < 16 { d as int } else { 15 })]);
    s
}

/// The decimal rendering of `n`, without leading zeros.
pub open spec fn decimal(n: nat) -> Seq<char>
    decreases n,
{
    if n < 10 {
        seq![digit_char(n as int)]
    } else {
        decimal(n / 10).push(digit_char((n % 10) as int))
    }
}

/// Renders `n` in decimal.
pub fn decimal_string(n: u64) -> (s: String)
    ensures
        s@ == decimal(n as nat),
    decreases n,
{
    if n < 10 {
        String::from_str(digit_str(n as u8))
    } else {
        let mut s = decimal_string(n / 10);
        s.append(digit_str((n % 10) as u8));
        s
    }
}

/// The lower-case hexadecimal rendering of `bytes`, two characters per byte.
pub open spec fn hex_text(bytes: Seq<u8>) -> Seq<char> {
    Seq::new(
        2 * bytes.len(),
        |i: int|
            if i % 2 == 0 {
                digit_char(bytes[i / 2] as int / 16)
            } else {
                digit_char(bytes[i / 2] as int % 16)
            },
    )
}

/// Renders `bytes` in lower-case hexadecimal.
pub fn hex_string(bytes: &[u8]) -> (s: String)
    ensures
        s@ == hex_text(bytes@),
{
    let mut s = String::new();
    let mut i: usize = 0;
    while i < bytes.len()
        invariant
            i <= bytes.len(),
            s@ == hex_text(bytes@.take(i as int)),
        decreases bytes.len() - i,
    {
        let b: u8 = bytes[i];
        let ghost before = s@;
        s.append(digit_str(b / 16));
        s.append(digit_str(b % 16));
        assert(s@ =~= hex_text(bytes@.take(i + 1))) by {
            assert(s@ == before + seq![digit_char(b as int / 16)] + seq![
                digit_char(b as int % 16),
            ]);
            assert forall|k: int| 0 <= k < 2 * (i + 1) implies s@[k] == hex_text(
                bytes@.take(i + 1),
            )[k] by {
                if k < 2 * i {
                    assert(before[k] == hex_text(bytes@.take(i as int))[k]);
                    assert(bytes@.take(i as int)[k / 2] == bytes@.take(i + 1)[k / 2]);
                }
            }
        }
        i += 1;
    }
    assert(bytes@.take(i as int) =~= bytes@);
    s
}

/// `seen` followed by those of `items` that are neither in `seen` nor earlier in
/// `items`, in the order of `items`.
pub open spec fn add_unique<T>(seen: Seq<T>, items: Seq<T>) -> Seq<T>
    decreases items.len(),
{
    if items.len() == 0 {
        seen
    } else {
        let head = add_unique(seen, items.drop_last());
        if head.contains(items.last()) {
            head
        } else {
            head.push(items.last())
        }
    }
}

/// `s` with every element that already occurred earlier removed.
pub open spec fn unique<T>(s: Seq<T>) -> Seq<T> {
    add_unique(Seq::empty(), s)
}

/// Adding never repeats an element and loses none: what comes out holds each
/// element of `seen` and of `items`, and nothing else; it has no duplicates if
/// `seen` had none.
pub proof fn lemma_add_unique_each_once<T>(seen: Seq<T>, items: Seq<T>)
    ensures
        forall|x: T|
            add_unique(seen, items).contains(x) <==> seen.contains(x) || items.contains(x),
        seen.no_duplicates() ==> add_unique(seen, items).no_duplicates(),
    decreases items.len(),
{
    if items.len() > 0 {
        let head = add_unique(seen, items.drop_last());
        let last = items.last();
        lemma_add_unique_each_once(seen, items.drop_last());
        assert forall|x: T| add_unique(seen, items).contains(x) <==> seen.contains(x)
            || items.contains(x) by {
            if items.contains(x) {
                let i = choose|i: int| 0 <= i < items.len() && items[i] == x;
                if i < items.len() - 1 {
                    assert(items.drop_last()[i] == x);
                }
            }
            if items.drop_last().contains(x) {
                let rest = items.drop_last();
                let i = choose|i: int| 0 <= i < rest.len() && rest[i] == x;
                assert(items[i] == x);
            }
            assert(items[items.len() - 1] == last);
            if !head.contains(last) {
                let out = head.push(last);
                assert(out[out.len() - 1] == last);
                if head.contains(x) {
                    let i = choose|i: int| 0 <= i < head.len() && head[i] == x;
                    assert(out[i] == x);
                }
                if out.contains(x) {
                    let i = choose|i: int| 0 <= i < out.len() && out[i] == x;
                    if i < head.len() {
                        assert(head[i] == x);
                    }
                }
            }
        }
    }
}

/// A list made unique holds each element of the list it was made from, once.
pub proof fn lemma_unique_each_once<T>(s: Seq<T>)
    ensures
        unique(s).no_duplicates(),
        forall|x: T| unique(s).contains(x) <==> s.contains(x),
{
    lemma_add_unique_each_once(Seq::<T>::empty(), s);
}

/// What comes first stays first: a list made unique begins as the list it was
/// made from.
pub proof fn lemma_unique_first<T>(s: Seq<T>)
    requires
        s.len() > 0,
    ensures
        unique(s).len() > 0,
        unique(s)[0] == s[0],
    decreases s.len(),
{
    if s.len() > 1 {
        lemma_unique_first(s.drop_last());
    } else {
        assert(unique(s.drop_last()) =~= Seq::<T>::empty());
    }
}

/// Adding two runs one after the other is adding their concatenation.
pub proof fn lemma_add_unique_concat<T>(seen: Seq<T>, a: Seq<T>, b: Seq<T>)
    ensures
        add_unique(seen, a + b) == add_unique(add_unique(seen, a), b),
    decreases b.len(),
{
    if b.len() == 0 {
        assert(a + b =~= a);
    } else {
        lemma_add_unique_concat(seen, a, b.drop_last());
        assert((a + b).drop_last() =~= a + b.drop_last());
        assert((a + b).last() == b.last());
    }
}

/// The texts held by a sequence of strings.
pub open spec fn texts(items: Seq<String>) -> Seq<Seq<char>> {
    items.map_values(|s: String| s@)
}

/// The byte sequences held by a sequence of byte vectors.
pub open spec fn rows(items: Seq<Vec<u8>>) -> Seq<Seq<u8>> {
    items.map_values(|r: Vec<u8>| r@)
}

/// Tests whether `items` holds a string equal to `s`.
pub fn holds(items: &Vec<String>, s: &String) -> (r: bool)
    ensures
        r == texts(items@).contains(s@),
{
    let mut i: usize = 0;
    while i < items.len()
        invariant
            i <= items.len(),
            forall|j: int| 0 <= j < i ==> texts(items@)[j] != s@,
        decreases items.len() - i,
    {
        if items[i] == *s {
            assert(texts(items@)[i as int] == s@);
            return true;
        }
        i += 1;
    }
    false
}

/// Appends `s` to `items` unless an equal string is already there; says whether it was new.
pub fn insert_unique(items: &mut Vec<String>, s: String) -> (fresh: bool)
    ensures
        fresh == !texts(old(items)@).contains(s@),
        texts(final(items)@) == add_unique(texts(old(items)@), seq![s@]),
{
    proof {
        let one = seq![s@];
        assert(one.drop_last() =~= Seq::<Seq<char>>::empty());
        assert(one.last() == s@);
        assert(add_unique(texts(items@), one.drop_last()) == texts(items@));
    }
    if holds(items, &s) {
        false
    } else {
        items.push(s);
        assert(texts(items@) =~= texts(old(items)@).push(s@));
        true
    }
}

/// A decimal digit is rendered by the character that stands that far after `'0'`.
pub proof fn lemma_digit_char(d: int)
    requires
        0 <= d < 10,
    ensures
        digit_char(d) as u32 == 48 + d,
{
    if d == 0 {
        assert(digit_char(0) == '0');
    } else if d == 1 {
        assert(digit_char(1) == '1');
    } else if d == 2 {
        assert(digit_char(2) == '2');
    } else if d == 3 {
        assert(digit_char(3) == '3');
    } else if d == 4 {
        assert(digit_char(4) == '4');
    } else if d == 5 {
        assert(digit_char(5) == '5');
    } else if d == 6 {
        assert(digit_char(6) == '6');
    } else if d == 7 {
        assert(digit_char(7) == '7');
    } else if d == 8 {
        assert(digit_char(8) == '8');
    } else {
        assert(digit_char(9) == '9');
    }
}

/// A decimal rendering is not empty and holds decimal digits only.
pub proof fn lemma_decimal_digits(n: nat)
    ensures
        decimal(n).len() >= 1,
        n >= 10 ==> decimal(n).len() >= 2,
        forall|i: int| 0 <= i < decimal(n).len() ==> 48 <= (#[trigger] decimal(n)[i]) as u32 <= 57,
    decreases n,
{
    if n < 10 {
        lemma_digit_char(n as int);
    } else {
        lemma_decimal_digits(n / 10);
        lemma_digit_char((n % 10) as int);
    }
}

/// Different numbers have different decimal renderings.
pub proof fn lemma_decimal_injective(a: nat, b: nat)
    requires
        decimal(a) == decimal(b),
    ensures
        a == b,
    decreases a,
{
    lemma_decimal_digits(a);
    lemma_decimal_digits(b);
    if a < 10 {
        assert(b < 10);
        lemma_digit_char(a as int);
        lemma_digit_char(b as int);
        assert(decimal(a)[0] == digit_char(a as int));
        assert(decimal(b)[0] == digit_char(b as int));
    } else {
        lemma_decimal_digits(a / 10);
        assert(b >= 10);
        let x = decimal(a / 10).push(digit_char((a % 10) as int));
        let y = decimal(b / 10).push(digit_char((b % 10) as int));
        assert(x == y);
        assert(x.drop_last() =~= decimal(a / 10));
        assert(y.drop_last() =~= decimal(b / 10));
        assert(x.last() == digit_char((a % 10) as int));
        assert(y.last() == digit_char((b % 10) as int));
        lemma_digit_char((a % 10) as int);
        lemma_digit_char((b % 10) as int);
        lemma_decimal_injective(a / 10, b / 10);
    }
}

} // verus!
