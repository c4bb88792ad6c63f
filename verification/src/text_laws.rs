//! What holds of the pieces and the words of a text, and of numbers in
//! decimal.

use vstd::prelude::*;
use crate::text::{
    digit_char,
    digits,
    is_white_space,
    joined,
    split,
    split_state,
    words,
    words_state,
};

verus! {

/// The pieces that were closed and the open piece, joined with the
/// separator, are the characters read so far; and no piece holds the
/// separator.
pub proof fn lemma_split_state(s: Seq<char>, separator: char, n: int)
    requires
        0 <= n <= s.len(),
    ensures
        ({
            let (done, open) = split_state(s, separator, n);
            &&& joined(done.push(open), seq![separator]) == s.take(n)
            &&& forall|j: int| 0 <= j < open.len() ==> open[j] != separator
            &&& forall|i: int, j: int|
                0 <= i < done.len() && 0 <= j < done[i].len() ==> (#[trigger] done[i][j])
                    != separator
        }),
    decreases n,
{
    let (done, open) = split_state(s, separator, n);
    if n <= 0 {
        assert(done.push(open)[0] =~= s.take(0));
    } else {
        lemma_split_state(s, separator, n - 1);
        let (before, rest) = split_state(s, separator, n - 1);
        let earlier = before.push(rest);
        assert(s.take(n) =~= s.take(n - 1).push(s[n - 1]));
        if s[n - 1] == separator {
            let now = earlier.push(Seq::<char>::empty());
            assert(now.drop_last() =~= earlier);
            assert(joined(now, seq![separator]) =~= s.take(n));
        } else {
            let now = before.push(rest.push(s[n - 1]));
            assert(now.drop_last() =~= before);
            assert(earlier.drop_last() =~= before);
            if before.len() == 0 {
                assert(joined(now, seq![separator]) =~= s.take(n));
            } else {
                assert(joined(now, seq![separator]) =~= joined(before, seq![separator])
                    + seq![separator] + rest.push(s[n - 1]));
                assert(joined(earlier, seq![separator]) =~= joined(before, seq![separator])
                    + seq![separator] + rest);
                assert(joined(now, seq![separator]) =~= s.take(n));
            }
        }
    }
}

/// The pieces of a text, joined with the separator, are the text; and no
/// piece holds the separator.
pub proof fn law_split_joins_back(s: Seq<char>, separator: char)
    ensures
        joined(split(s, separator), seq![separator]) == s,
        forall|i: int, j: int|
            0 <= i < split(s, separator).len() && 0 <= j < split(s, separator)[i].len() ==> (
            #[trigger] split(s, separator)[i][j]) != separator,
{
    lemma_split_state(s, separator, s.len() as int);
    assert(s.take(s.len() as int) =~= s);
}

/// No word that has ended is empty, and neither such a word nor the open
/// one holds white space.
pub proof fn lemma_words_state(s: Seq<char>, n: int)
    requires
        0 <= n <= s.len(),
    ensures
        ({
            let (done, open) = words_state(s, n);
            &&& forall|j: int| 0 <= j < open.len() ==> !is_white_space(open[j])
            &&& forall|i: int| 0 <= i < done.len() ==> (#[trigger] done[i]).len() > 0
            &&& forall|i: int, j: int|
                0 <= i < done.len() && 0 <= j < done[i].len() ==> !is_white_space(
                    #[trigger] done[i][j],
                )
        }),
    decreases n,
{
    if n > 0 {
        lemma_words_state(s, n - 1);
        let (before, rest) = words_state(s, n - 1);
        let (done, open) = words_state(s, n);
        let c = s[n - 1];
        if !is_white_space(c) {
            assert forall|j: int| 0 <= j < open.len() implies !is_white_space(open[j]) by {
                if j < rest.len() {
                    assert(open[j] == rest[j]);
                }
            }
        } else if rest.len() > 0 {
            assert forall|i: int| 0 <= i < done.len() implies (#[trigger] done[i]).len() > 0 by {
                if i < before.len() {
                    assert(done[i] == before[i]);
                }
            }
            assert forall|i: int, j: int|
                0 <= i < done.len() && 0 <= j < done[i].len() implies !is_white_space(
                #[trigger] done[i][j],
            ) by {
                if i < before.len() {
                    assert(done[i] == before[i]);
                } else {
                    assert(done[i] == rest);
                }
            }
        }
    }
}

/// No word of a text is empty, and no word holds white space.
pub proof fn law_words_hold_no_space(s: Seq<char>)
    ensures
        forall|i: int| 0 <= i < words(s).len() ==> (#[trigger] words(s)[i]).len() > 0,
        forall|i: int, j: int|
            0 <= i < words(s).len() && 0 <= j < words(s)[i].len() ==> !is_white_space(
                #[trigger] words(s)[i][j],
            ),
{
    lemma_words_state(s, s.len() as int);
}

/// The number that decimal digits stand for.
pub open spec fn digits_value(text: Seq<char>) -> nat
    decreases text.len(),
{
    if text.len() == 0 {
        0
    } else {
        digits_value(text.drop_last()) * 10 + (text.last() as int - 48) as nat
    }
}

/// The digits of a number stand for that number, and the first of them is
/// no zero unless the number is zero.
pub proof fn law_digits_stand_for_the_number(n: nat)
    ensures
        digits_value(digits(n)) == n,
        digits(n).len() >= 1,
        n > 0 ==> digits(n)[0] != '0',
        forall|i: int| 0 <= i < digits(n).len() ==> '0' <= #[trigger] digits(n)[i] <= '9',
    decreases n,
{
    let last = (n % 10) as int;
    assert(digit_char(last) as int == last + 48);
    if n < 10 {
        assert(digits(n).drop_last() =~= Seq::<char>::empty());
        assert(digits(n).last() == digit_char(n as int));
        assert(digits_value(digits(n).drop_last()) == 0);
        assert(digits_value(digits(n)) == 0 * 10 + (digit_char(last) as int - 48) as nat);
    } else {
        law_digits_stand_for_the_number(n / 10);
        let before = digits(n / 10);
        assert(digits(n).drop_last() =~= before);
        assert(digits(n).last() == digit_char(last));
        assert(digits(n)[0] == before[0]);
        assert(digits_value(digits(n)) == digits_value(before) * 10 + (digit_char(last) as int
            - 48) as nat);
        assert forall|i: int| 0 <= i < digits(n).len() implies '0' <= #[trigger] digits(n)[i]
            <= '9' by {
            if i < before.len() {
                assert(digits(n)[i] == before[i]);
            }
        }
    }
}

} // verus!
