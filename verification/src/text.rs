//! Text handling shared by the text processors: UTF-8 decoding, Unicode case
//! mapping and character classes (from the standard library), splitting into
//! words, joining, counting lines, and decimal formatting.
use vstd::prelude::*;
use vstd::utf8::{valid_utf8, decode_utf8, encode_utf8};
use vstd::string::*;

verus! {

/// What `str::to_uppercase` returns for a string with these characters.
pub uninterp spec fn str_upper(s: Seq<char>) -> Seq<char>;

/// What `str::to_lowercase` returns for a string with these characters.
pub uninterp spec fn str_lower(s: Seq<char>) -> Seq<char>;

/// The characters that `char::to_uppercase` yields for `c`.
pub uninterp spec fn char_upper(c: char) -> Seq<char>;

/// Whether `char::is_whitespace` holds of `c` (the Unicode White_Space property).
pub uninterp spec fn char_whitespace(c: char) -> bool;

/// Whether `char::is_alphanumeric` holds of `c` (Unicode Alphabetic or Numeric).
pub uninterp spec fn char_alphanumeric(c: char) -> bool;

/// An ASCII character.
pub open spec fn is_ascii_char(c: char) -> bool {
    (c as u32) < 128
}

/// Every character is ASCII.
pub open spec fn all_ascii(s: Seq<char>) -> bool {
    forall|i: int| 0 <= i < s.len() ==> is_ascii_char(#[trigger] s[i])
}

/// An ASCII upper-case letter.
pub open spec fn is_ascii_upper(c: char) -> bool {
    ('A' as u32) <= (c as u32) <= ('Z' as u32)
}

/// An ASCII lower-case letter.
pub open spec fn is_ascii_lower(c: char) -> bool {
    ('a' as u32) <= (c as u32) <= ('z' as u32)
}

/// An ASCII digit.
pub open spec fn is_ascii_digit(c: char) -> bool {
    ('0' as u32) <= (c as u32) <= ('9' as u32)
}

/// The lower-case form of an ASCII character: a letter `A` to `Z` becomes `a`
/// to `z`; any other character stays.
pub open spec fn ascii_lower(c: char) -> char {
    if is_ascii_upper(c) {
        ((c as u32) + 32) as char
    } else {
        c
    }
}

/// The upper-case form of an ASCII character: a letter `a` to `z` becomes `A`
/// to `Z`; any other character stays.
pub open spec fn ascii_upper(c: char) -> char {
    if is_ascii_lower(c) {
        ((c as u32) - 32) as char
    } else {
        c
    }
}

/// Every character in its lower-case ASCII form.
pub open spec fn ascii_lowered(s: Seq<char>) -> Seq<char> {
    s.map_values(|c: char| ascii_lower(c))
}

/// Every character in its upper-case ASCII form.
pub open spec fn ascii_uppered(s: Seq<char>) -> Seq<char> {
    s.map_values(|c: char| ascii_upper(c))
}

/// The text with which the standard library describes why these bytes are not UTF-8.
pub uninterp spec fn utf8_error_text(bytes: Seq<u8>) -> Seq<char>;

/// `String::from_utf8`: the bytes decoded when they are valid UTF-8 (as the
/// standard library documents), else the error's description, as the standard
/// library displays it.
#[verifier::external_body]
pub(crate) fn decode_text(bytes: Vec<u8>) -> (r: Result<String, String>)
    ensures
        r is Ok <==> valid_utf8(bytes@),
        r matches Ok(s) ==> s@ == decode_utf8(bytes@),
        r matches Err(m) ==> m@ == utf8_error_text(bytes@),
{
    match String::from_utf8(bytes) {
        Ok(s) => Ok(s),
        Err(e) => Err(format!("{}", e)),
    }
}

/// `str::to_uppercase`: for ASCII text, each letter `a` to `z` becomes `A` to
/// `Z` and every other character stays.
#[verifier::external_body]
pub(crate) fn to_upper(s: &str) -> (r: String)
    ensures
        r@ == str_upper(s@),
        all_ascii(s@) ==> r@ == ascii_uppered(s@),
{
    s.to_uppercase()
}

/// `str::to_lowercase`: for ASCII text, each letter `A` to `Z` becomes `a` to
/// `z` and every other character stays.
#[verifier::external_body]
pub(crate) fn to_lower(s: &str) -> (r: String)
    ensures
        r@ == str_lower(s@),
        all_ascii(s@) ==> r@ == ascii_lowered(s@),
{
    s.to_lowercase()
}

/// `char::to_uppercase`, its characters collected: for an ASCII character, its
/// upper-case ASCII form alone.
#[verifier::external_body]
pub(crate) fn char_to_upper(c: char) -> (r: String)
    ensures
        r@ == char_upper(c),
        is_ascii_char(c) ==> r@ == seq![ascii_upper(c)],
{
    c.to_uppercase().collect()
}

/// `char::is_whitespace`: among ASCII characters, the space and the controls
/// from tab to carriage return (U+0009 to U+000D).
#[verifier::external_body]
pub(crate) fn is_whitespace(c: char) -> (b: bool)
    ensures
        b == char_whitespace(c),
        is_ascii_char(c) ==> (b <==> (c == ' ' || (9 <= (c as u32) <= 13))),
{
    c.is_whitespace()
}

/// `char::is_alphanumeric`: among ASCII characters, the letters and the digits.
#[verifier::external_body]
pub(crate) fn is_alphanumeric(c: char) -> (b: bool)
    ensures
        b == char_alphanumeric(c),
        is_ascii_char(c) ==> (b <==> (is_ascii_upper(c) || is_ascii_lower(c) || is_ascii_digit(c))),
{
    c.is_alphanumeric()
}

/// A string of the given characters (collected by `FromIterator<char>`).
#[verifier::external_body]
pub(crate) fn string_from_chars(v: &Vec<char>) -> (s: String)
    ensures
        s@ == v@,
{
    v.iter().collect()
}

/// The UTF-8 bytes of a string.
pub fn text_bytes(s: &String) -> (b: Vec<u8>)
    ensures
        b@ == encode_utf8(s@),
{
    s.as_str().as_bytes_vec()
}

/// The characters of a string.
pub fn chars_of(s: &str) -> (v: Vec<char>)
    ensures
        v@ == s@,
{
    let n = s.unicode_len();
    let mut v: Vec<char> = Vec::new();
    let mut i: usize = 0;
    while i < n
        invariant
            n == s@.len(),
            i <= n,
            v@ == s@.take(i as int),
        decreases n - i,
    {
        let c = s.get_char(i);
        v.push(c);
        proof {
            assert(s@.take(i + 1) =~= s@.take(i as int).push(c));
        }
        i = i + 1;
    }
    proof {
        assert(s@.take(n as int) =~= s@);
    }
    v
}

/// Appends the characters of `s` to `v`.
pub fn push_all(v: &mut Vec<char>, s: &Vec<char>)
    ensures
        final(v)@ == old(v)@ + s@,
{
    let mut i: usize = 0;
    while i < s.len()
        invariant
            i <= s@.len(),
            v@ == old(v)@ + s@.take(i as int),
        decreases s@.len() - i,
    {
        v.push(s[i]);
        proof {
            assert(s@.take(i + 1) =~= s@.take(i as int).push(s@[i as int]));
            assert(old(v)@ + s@.take(i + 1) =~= (old(v)@ + s@.take(i as int)).push(s@[i as int]));
        }
        i = i + 1;
    }
    proof {
        assert(s@.take(i as int) =~= s@);
    }
}

/// The words of `s` following the word `cur` already begun: the maximal runs of
/// characters that are not whitespace.
pub open spec fn words_from(s: Seq<char>, cur: Seq<char>) -> Seq<Seq<char>>
    decreases s.len(),
{
    if s.len() == 0 {
        if cur.len() > 0 { seq![cur] } else { Seq::empty() }
    } else if char_whitespace(s[0]) {
        (if cur.len() > 0 { seq![cur] } else { Seq::empty() }) + words_from(s.drop_first(), Seq::empty())
    } else {
        words_from(s.drop_first(), cur.push(s[0]))
    }
}

/// The words of `s`, as `str::split_whitespace` yields them.
pub open spec fn words(s: Seq<char>) -> Seq<Seq<char>> {
    words_from(s, Seq::empty())
}

proof fn lemma_words_from(s: Seq<char>, cur: Seq<char>)
    requires
        forall|i: int| 0 <= i < cur.len() ==> !char_whitespace(#[trigger] cur[i]),
    ensures
        words_from(s, cur).flatten() == cur + s.filter(|c: char| !char_whitespace(c)),
        forall|k: int| 0 <= k < words_from(s, cur).len() ==> (#[trigger] words_from(s, cur)[k]).len() > 0,
        forall|k: int, j: int| 0 <= k < words_from(s, cur).len() && 0 <= j < words_from(s, cur)[k].len()
            ==> !char_whitespace(#[trigger] words_from(s, cur)[k][j]),
    decreases s.len(),
{
    let np = |c: char| !char_whitespace(c);
    let e = Seq::<Seq<char>>::empty();
    if s.len() == 0 {
        assert(s.filter(np) =~= Seq::<char>::empty()) by {
            reveal(Seq::filter);
        }
        if cur.len() > 0 {
            assert(seq![cur] =~= e.push(cur));
            e.lemma_flatten_push(cur);
            assert(e.flatten() =~= Seq::<char>::empty());
            assert(cur + s.filter(np) =~= Seq::<char>::empty() + cur);
        } else {
            assert(cur + s.filter(np) =~= Seq::<char>::empty());
        }
    } else {
        let rest = s.drop_first();
        assert(s =~= seq![s[0]] + rest);
        rest.lemma_filter_prepend(s[0], np);
        if char_whitespace(s[0]) {
            lemma_words_from(rest, Seq::empty());
            let tail = words_from(rest, Seq::empty());
            let head: Seq<Seq<char>> = if cur.len() > 0 { seq![cur] } else { Seq::empty() };
            assert((head + tail).flatten() =~= head.flatten() + tail.flatten()) by {
                lemma_flatten_concat(head, tail);
            }
            if cur.len() > 0 {
                assert(seq![cur] =~= e.push(cur));
                e.lemma_flatten_push(cur);
                assert(e.flatten() =~= Seq::<char>::empty());
            } else {
                assert(head.flatten() =~= Seq::<char>::empty());
            }
            assert(Seq::<char>::empty() + rest.filter(np) =~= rest.filter(np));
            let w = words_from(s, cur);
            assert(w == head + tail);
            assert forall|k: int| 0 <= k < w.len() implies (#[trigger] w[k]).len() > 0 by {
                if k < head.len() {
                    assert(w[k] == cur);
                } else {
                    assert(w[k] == tail[k - head.len()]);
                }
            }
            assert forall|k: int, j: int| 0 <= k < w.len() && 0 <= j < w[k].len() implies !char_whitespace(#[trigger] w[k][j]) by {
                if k < head.len() {
                    assert(w[k] == cur);
                } else {
                    assert(w[k] == tail[k - head.len()]);
                }
            }
        } else {
            let c2 = cur.push(s[0]);
            assert forall|i: int| 0 <= i < c2.len() implies !char_whitespace(#[trigger] c2[i]) by {
                if i < cur.len() {
                    assert(c2[i] == cur[i]);
                }
            }
            lemma_words_from(rest, c2);
            assert(cur + (seq![s[0]] + rest.filter(np)) =~= c2 + rest.filter(np));
        }
    }
}

proof fn lemma_flatten_concat(a: Seq<Seq<char>>, b: Seq<Seq<char>>)
    ensures
        (a + b).flatten() == a.flatten() + b.flatten(),
    decreases b.len(),
{
    if b.len() == 0 {
        assert(a + b =~= a);
        assert(b.flatten() =~= Seq::<char>::empty());
        assert(a.flatten() + b.flatten() =~= a.flatten());
    } else {
        let d = b.drop_last();
        lemma_flatten_concat(a, d);
        assert(a + b =~= (a + d).push(b.last()));
        (a + d).lemma_flatten_push(b.last());
        assert(b =~= d.push(b.last()));
        d.lemma_flatten_push(b.last());
        assert(a.flatten() + (d.flatten() + b.last()) =~= (a.flatten() + d.flatten()) + b.last());
    }
}

/// Law: the words of a text are non-empty runs of characters that are not
/// whitespace, and together, in order, they are exactly the text's characters
/// that are not whitespace.
pub proof fn law_words_cover_text(s: Seq<char>)
    ensures
        words(s).flatten() == s.filter(|c: char| !char_whitespace(c)),
        forall|k: int| 0 <= k < words(s).len() ==> (#[trigger] words(s)[k]).len() > 0,
        forall|k: int, j: int| 0 <= k < words(s).len() && 0 <= j < words(s)[k].len()
            ==> !char_whitespace(#[trigger] words(s)[k][j]),
{
    lemma_words_from(s, Seq::empty());
    assert(Seq::<char>::empty() + s.filter(|c: char| !char_whitespace(c)) =~= s.filter(|c: char| !char_whitespace(c)));
}

/// The words of a text, in order.
pub fn split_words(s: &Vec<char>) -> (ws: Vec<Vec<char>>)
    ensures
        ws@.len() == words(s@).len(),
        forall|i: int| 0 <= i < ws@.len() ==> (#[trigger] ws@[i])@ == words(s@)[i],
{
    let mut ws: Vec<Vec<char>> = Vec::new();
    let mut cur: Vec<char> = Vec::new();
    let mut i: usize = 0;
    let ghost done = Seq::<Seq<char>>::empty();
    proof {
        assert(s@.skip(0) =~= s@);
    }
    while i < s.len()
        invariant
            i <= s@.len(),
            ws@.len() == done.len(),
            forall|k: int| 0 <= k < ws@.len() ==> (#[trigger] ws@[k])@ == done[k],
            done + words_from(s@.skip(i as int), cur@) == words(s@),
        decreases s@.len() - i,
    {
        let c = s[i];
        let ghost rest = s@.skip(i as int);
        proof {
            assert(rest[0] == c);
            assert(rest.drop_first() =~= s@.skip(i + 1));
        }
        if is_whitespace(c) {
            if cur.len() > 0 {
                let ghost cv = cur@;
                ws.push(cur);
                cur = Vec::new();
                proof {
                    assert(done + (seq![cv] + words_from(s@.skip(i + 1), Seq::empty()))
                        =~= done.push(cv) + words_from(s@.skip(i + 1), cur@));
                    done = done.push(cv);
                }
            } else {
                proof {
                    assert(cur@ =~= Seq::<char>::empty());
                    assert(Seq::<Seq<char>>::empty() + words_from(s@.skip(i + 1), Seq::empty())
                        =~= words_from(s@.skip(i + 1), Seq::empty()));
                }
            }
        } else {
            cur.push(c);
        }
        i = i + 1;
    }
    if cur.len() > 0 {
        let ghost cv = cur@;
        ws.push(cur);
        proof {
            assert(s@.skip(i as int) =~= Seq::<char>::empty());
            assert(done + seq![cv] =~= done.push(cv));
            done = done.push(cv);
        }
    } else {
        proof {
            assert(s@.skip(i as int) =~= Seq::<char>::empty());
            assert(done + Seq::<Seq<char>>::empty() =~= done);
        }
    }
    ws
}

/// The words joined by `sep`.
pub open spec fn join(ws: Seq<Seq<char>>, sep: Seq<char>) -> Seq<char>
    decreases ws.len(),
{
    if ws.len() == 0 {
        Seq::empty()
    } else if ws.len() == 1 {
        ws[0]
    } else {
        join(ws.drop_last(), sep) + sep + ws.last()
    }
}

/// The words as `join` lays them out: the first as it is, each later one
/// after the separator.
pub open spec fn join_pieces(ws: Seq<Seq<char>>, sep: Seq<char>) -> Seq<Seq<char>> {
    Seq::new(ws.len(), |i: int| if i == 0 { ws[0] } else { sep + ws[i] })
}

/// Law: joining puts the words one after the other, in order, with the
/// separator between each two, and nothing else.
pub proof fn law_join_lays_out(ws: Seq<Seq<char>>, sep: Seq<char>)
    ensures
        join(ws, sep) == join_pieces(ws, sep).flatten(),
    decreases ws.len(),
{
    let p = join_pieces(ws, sep);
    if ws.len() == 0 {
        assert(p =~= Seq::<Seq<char>>::empty());
    } else if ws.len() == 1 {
        assert(p =~= Seq::<Seq<char>>::empty().push(ws[0]));
        Seq::<Seq<char>>::empty().lemma_flatten_push(ws[0]);
        assert(Seq::<Seq<char>>::empty().flatten() =~= Seq::<char>::empty());
        assert(Seq::<char>::empty() + ws[0] =~= ws[0]);
    } else {
        let d = ws.drop_last();
        law_join_lays_out(d, sep);
        assert(p =~= join_pieces(d, sep).push(sep + ws.last()));
        join_pieces(d, sep).lemma_flatten_push(sep + ws.last());
        assert(join(d, sep) + sep + ws.last() =~= join(d, sep) + (sep + ws.last()));
    }
}

/// Joins words with a separator.
pub fn join_words(ws: &Vec<Vec<char>>, sep: &Vec<char>) -> (r: Vec<char>)
    ensures
        r@ == join(Seq::new(ws@.len(), |i: int| ws@[i]@), sep@),
{
    let ghost all = Seq::new(ws@.len(), |i: int| ws@[i]@);
    let mut r: Vec<char> = Vec::new();
    let mut i: usize = 0;
    while i < ws.len()
        invariant
            all == Seq::new(ws@.len(), |k: int| ws@[k]@),
            i <= ws@.len(),
            r@ == join(all.take(i as int), sep@),
        decreases ws@.len() - i,
    {
        proof {
            assert(all.take(i + 1).drop_last() =~= all.take(i as int));
            assert(all.take(i + 1).last() == ws@[i as int]@);
        }
        if i > 0 {
            push_all(&mut r, sep);
        } else {
            proof {
                assert(all.take(1) =~= seq![ws@[0]@]);
            }
        }
        push_all(&mut r, &ws[i]);
        proof {
            if i == 0 {
                assert(r@ =~= ws@[0]@);
            }
        }
        i = i + 1;
    }
    proof {
        assert(all.take(i as int) =~= all);
    }
    r
}

/// The number of line feeds in `s`.
pub open spec fn newlines(s: Seq<char>) -> nat
    decreases s.len(),
{
    if s.len() == 0 {
        0
    } else {
        newlines(s.drop_last()) + if s.last() == '\n' { 1nat } else { 0nat }
    }
}

proof fn lemma_newlines_bound(s: Seq<char>)
    ensures
        newlines(s) <= s.len(),
    decreases s.len(),
{
    if s.len() > 0 {
        lemma_newlines_bound(s.drop_last());
    }
}

/// The number of lines of a text, as `str::lines` counts them.
pub fn count_lines(s: &Vec<char>) -> (n: usize)
    ensures
        n == newlines(s@) + if s@.len() > 0 && s@.last() != '\n' { 1nat } else { 0nat },
{
    let mut count: usize = 0;
    let mut i: usize = 0;
    while i < s.len()
        invariant
            i <= s@.len(),
            count == newlines(s@.take(i as int)),
            count <= i,
        decreases s@.len() - i,
    {
        proof {
            assert(s@.take(i + 1).drop_last() =~= s@.take(i as int));
        }
        if s[i] == '\n' {
            count = count + 1;
        }
        i = i + 1;
    }
    proof {
        assert(s@.take(i as int) =~= s@);
        if s@.len() > 0 {
            lemma_newlines_bound(s@.drop_last());
        }
    }
    if s.len() > 0 && s[s.len() - 1] != '\n' {
        count + 1
    } else {
        count
    }
}

/// The decimal digits of `n`, most significant first.
pub open spec fn decimal(n: nat) -> Seq<char>
    decreases n,
{
    if n < 10 {
        seq![digit_char(n)]
    } else {
        decimal(n / 10).push(digit_char(n % 10))
    }
}

/// The character of a decimal digit.
pub open spec fn digit_char(d: nat) -> char {
    if d == 0 { '0' } else if d == 1 { '1' } else if d == 2 { '2' } else if d == 3 { '3' } else if d == 4 { '4' }
    else if d == 5 { '5' } else if d == 6 { '6' } else if d == 7 { '7' } else if d == 8 { '8' } else { '9' }
}

/// The number that a string of decimal digits denotes, most significant first.
pub open spec fn digits_value(s: Seq<char>) -> int
    decreases s.len(),
{
    if s.len() == 0 {
        0
    } else {
        digits_value(s.drop_last()) * 10 + ((s.last() as u32) - ('0' as u32))
    }
}

proof fn lemma_digit_char(d: nat)
    requires
        d < 10,
    ensures
        is_ascii_digit(digit_char(d)),
        (digit_char(d) as u32) - ('0' as u32) == d,
{
}

/// Law: the decimal text of `n` is a non-empty string of the digits `0` to
/// `9` that denotes `n`, with no leading zero (but for `n == 0` itself).
pub proof fn law_decimal_denotes(n: nat)
    ensures
        decimal(n).len() > 0,
        forall|i: int| 0 <= i < decimal(n).len() ==> is_ascii_digit(#[trigger] decimal(n)[i]),
        digits_value(decimal(n)) == n,
        n > 0 ==> decimal(n)[0] != '0',
        n == 0 ==> decimal(n) == seq!['0'],
    decreases n,
{
    if n < 10 {
        lemma_digit_char(n);
        let e = decimal(n);
        assert(e.drop_last() =~= Seq::<char>::empty());
        assert(e.last() == digit_char(n));
        assert(digits_value(e) == digits_value(e.drop_last()) * 10 + ((e.last() as u32) - ('0' as u32)));
        assert(digits_value(Seq::<char>::empty()) == 0);
    } else {
        law_decimal_denotes(n / 10);
        lemma_digit_char(n % 10);
        let d = decimal(n / 10);
        let e = decimal(n);
        assert(e == d.push(digit_char(n % 10)));
        assert(e.drop_last() =~= d);
        assert(n == (n / 10) * 10 + n % 10);
        assert(e.last() == digit_char(n % 10));
        assert(digits_value(e) == digits_value(d) * 10 + ((e.last() as u32) - ('0' as u32)));
        assert(digits_value(d) == n / 10);
        assert(e[0] == d[0]);
        assert forall|i: int| 0 <= i < e.len() implies is_ascii_digit(#[trigger] e[i]) by {
            if i < d.len() {
                assert(e[i] == d[i]);
            }
        }
    }
}

/// Law: `newlines` counts the line feeds of the text.
pub proof fn law_newlines_count(s: Seq<char>)
    ensures
        newlines(s) == s.filter(|c: char| c == '\n').len(),
    decreases s.len(),
{
    reveal(Seq::filter);
    if s.len() > 0 {
        law_newlines_count(s.drop_last());
    }
}

fn digit(d: usize) -> (c: char)
    requires
        d < 10,
    ensures
        c == digit_char(d as nat),
{
    if d == 0 { '0' } else if d == 1 { '1' } else if d == 2 { '2' } else if d == 3 { '3' } else if d == 4 { '4' }
    else if d == 5 { '5' } else if d == 6 { '6' } else if d == 7 { '7' } else if d == 8 { '8' } else { '9' }
}

/// The decimal representation of `n`, as `usize::to_string` writes it.
pub fn decimal_chars(n: usize) -> (r: Vec<char>)
    ensures
        r@ == decimal(n as nat),
    decreases n,
{
    if n < 10 {
        let mut r: Vec<char> = Vec::new();
        r.push(digit(n));
        proof {
            assert(r@ =~= seq![digit_char(n as nat)]);
        }
        r
    } else {
        let mut r = decimal_chars(n / 10);
        r.push(digit(n % 10));
        r
    }
}

/// The decimal representation of `n`, as a string.
pub fn decimal_string(n: usize) -> (s: String)
    ensures
        s@ == decimal(n as nat),
{
    let v = decimal_chars(n);
    string_from_chars(&v)
}

} // verus!
