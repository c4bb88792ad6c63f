//! Building text: characters, decimal numbers and joined lists.

use vstd::prelude::*;
use vstd::string::*;

verus! {

/// `String::push` appends the character to the end of the string.
pub assume_specification[ String::push ](s: &mut String, ch: char)
    ensures
        final(s)@ == old(s)@.push(ch),
;

/// The bytes read as characters, one for one.
pub open spec fn text_of(bytes: Seq<u8>) -> Seq<char> {
    Seq::new(bytes.len(), |i: int| bytes[i] as char)
}

/// The text of the bytes of `input` from `from` up to `to`.
pub fn bytes_to_string(input: &[u8], from: usize, to: usize) -> (r: String)
    requires
        from <= to <= input@.len(),
    ensures
        r@ == text_of(input@.subrange(from as int, to as int)),
{
    let mut r = String::new();
    let mut k: usize = from;
    while k < to
        invariant
            from <= k <= to <= input@.len(),
            r@ == text_of(input@.subrange(from as int, k as int)),
        decreases to - k,
    {
        r.push(input[k] as char);
        k += 1;
        assert(r@ =~= text_of(input@.subrange(from as int, k as int)));
    }
    r
}

/// The character of a decimal digit.
pub open spec fn digit_char(d: int) -> char {
    (d + 48) as char
}

/// The decimal digits of a natural number, without leading zeros.
pub open spec fn digits(n: nat) -> Seq<char>
    decreases n,
{
    if n < 10 {
        seq![digit_char(n as int)]
    } else {
        digits(n / 10).push(digit_char((n % 10) as int))
    }
}

/// An integer in decimal, with `-` before a negative one.
pub open spec fn decimal(n: int) -> Seq<char> {
    if n < 0 {
        seq!['-'] + digits((-n) as nat)
    } else {
        digits(n as nat)
    }
}

/// Appends the decimal digits of `n` to `s`.
pub fn push_digits(s: &mut String, n: u64)
    ensures
        final(s)@ == old(s)@ + digits(n as nat),
    decreases n,
{
    if n >= 10 {
        push_digits(s, n / 10);
    }
    let d = (n % 10) as u8;
    s.push((d + 48) as char);
    assert(final(s)@ =~= old(s)@ + digits(n as nat));
}

/// Appends `n` in decimal to `s`.
pub fn push_decimal(s: &mut String, n: i64)
    ensures
        final(s)@ == old(s)@ + decimal(n as int),
{
    if n < 0 {
        s.push('-');
        let magnitude: u64 = if n == i64::MIN {
            9223372036854775808u64
        } else {
            (-n) as u64
        };
        push_digits(s, magnitude);
        assert(final(s)@ =~= old(s)@ + decimal(n as int));
    } else {
        push_digits(s, n as u64);
    }
}

/// The texts of `parts`, with `separator` between each two neighbours.
pub open spec fn joined(parts: Seq<Seq<char>>, separator: Seq<char>) -> Seq<char>
    decreases parts.len(),
{
    if parts.len() == 0 {
        Seq::empty()
    } else if parts.len() == 1 {
        parts[0]
    } else {
        joined(parts.drop_last(), separator) + separator + parts.last()
    }
}

/// The views of the strings of `parts`.
pub open spec fn texts(parts: Seq<String>) -> Seq<Seq<char>> {
    Seq::new(parts.len(), |i: int| parts[i]@)
}

/// The strings of `parts`, with `separator` between each two neighbours.
pub fn join(parts: &Vec<String>, separator: &str) -> (r: String)
    ensures
        r@ == joined(texts(parts@), separator@),
{
    let mut r = String::new();
    let mut k: usize = 0;
    while k < parts.len()
        invariant
            k <= parts.len(),
            r@ == joined(texts(parts@).take(k as int), separator@),
        decreases parts.len() - k,
    {
        if k > 0 {
            r.append(separator);
        }
        r.append(parts[k].as_str());
        k += 1;
        proof {
            let now = texts(parts@).take(k as int);
            assert(now.drop_last() =~= texts(parts@).take(k - 1));
            assert(now.last() == parts[k - 1]@);
            if k == 1 {
                assert(r@ =~= now[0]);
            }
        }
    }
    assert(texts(parts@).take(k as int) =~= texts(parts@));
    r
}

/// The characters of a string.
pub fn chars_of(s: &str) -> (v: Vec<char>)
    ensures
        v@ == s@,
{
    let mut v: Vec<char> = Vec::new();
    for c in it: s.chars()
        invariant
            v@ == it.seq().take(it.index() as int),
            it.seq() == s@,
    {
        v.push(c);
        assert(v@ =~= it.seq().take(it.index() + 1));
    }
    assert(v@ =~= s@);
    v
}

/// The pieces of `s` between the separators among its first `n`
/// characters, and the piece that is still open after them.
pub open spec fn split_state(s: Seq<char>, separator: char, n: int) -> (Seq<Seq<char>>, Seq<char>)
    decreases n,
{
    if n <= 0 {
        (Seq::empty(), Seq::empty())
    } else {
        let (done, open) = split_state(s, separator, n - 1);
        if s[n - 1] == separator {
            (done.push(open), Seq::empty())
        } else {
            (done, open.push(s[n - 1]))
        }
    }
}

/// The pieces of `s` between its separators: one more than there are
/// separators, some of them empty where separators stand side by side or
/// at an end.
pub open spec fn split(s: Seq<char>, separator: char) -> Seq<Seq<char>> {
    let (done, open) = split_state(s, separator, s.len() as int);
    done.push(open)
}

/// The pieces of `s` between its separators.
pub fn split_at_char(s: &str, separator: char) -> (r: Vec<String>)
    ensures
        texts(r@) == split(s@, separator),
{
    let chars = chars_of(s);
    let mut done: Vec<String> = Vec::new();
    let mut open = String::new();
    let mut k: usize = 0;
    assert(texts(done@) =~= Seq::<Seq<char>>::empty());
    while k < chars.len()
        invariant
            k <= chars.len(),
            chars@ == s@,
            (texts(done@), open@) == split_state(s@, separator, k as int),
        decreases chars.len() - k,
    {
        let ghost before = texts(done@);
        if chars[k] == separator {
            done.push(open);
            assert(texts(done@) =~= before.push(open@));
            open = String::new();
        } else {
            open.push(chars[k]);
        }
        k += 1;
    }
    let ghost before = texts(done@);
    done.push(open);
    assert(texts(done@) =~= before.push(open@));
    done
}

/// What `char::is_whitespace` returns: whether the character has the
/// Unicode property White_Space.
pub uninterp spec fn is_white_space(c: char) -> bool;

/// `char::is_whitespace` tells whether the character has the Unicode
/// property White_Space; the contract gives that answer its name.
pub assume_specification[ char::is_whitespace ](c: char) -> (r: bool)
    ensures
        r == is_white_space(c),
;

/// The words among the first `n` characters of `s` that have ended, and the
/// word that is still open after them.
pub open spec fn words_state(s: Seq<char>, n: int) -> (Seq<Seq<char>>, Seq<char>)
    decreases n,
{
    if n <= 0 {
        (Seq::empty(), Seq::empty())
    } else {
        let (done, open) = words_state(s, n - 1);
        if !is_white_space(s[n - 1]) {
            (done, open.push(s[n - 1]))
        } else if open.len() > 0 {
            (done.push(open), Seq::empty())
        } else {
            (done, open)
        }
    }
}

/// The words of `s`: its longest runs of characters that are no white
/// space.
pub open spec fn words(s: Seq<char>) -> Seq<Seq<char>> {
    let (done, open) = words_state(s, s.len() as int);
    if open.len() > 0 {
        done.push(open)
    } else {
        done
    }
}

/// The words of `s`.
pub fn split_words(s: &str) -> (r: Vec<String>)
    ensures
        texts(r@) == words(s@),
{
    let chars = chars_of(s);
    let mut done: Vec<String> = Vec::new();
    let mut open = String::new();
    let mut k: usize = 0;
    assert(texts(done@) =~= Seq::<Seq<char>>::empty());
    while k < chars.len()
        invariant
            k <= chars.len(),
            chars@ == s@,
            (texts(done@), open@) == words_state(s@, k as int),
        decreases chars.len() - k,
    {
        let ghost before = texts(done@);
        if !chars[k].is_whitespace() {
            open.push(chars[k]);
        } else if !open.as_str().is_empty() {
            done.push(open);
            assert(texts(done@) =~= before.push(open@));
            open = String::new();
        }
        k += 1;
    }
    if !open.as_str().is_empty() {
        let ghost before = texts(done@);
        done.push(open);
        assert(texts(done@) =~= before.push(open@));
    }
    done
}

} // verus!
