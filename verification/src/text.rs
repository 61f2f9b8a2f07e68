//! Text as the game reads and writes it: characters, words between
//! whitespace, and numbers in decimal.

use vstd::prelude::*;

verus! {

/// What a vector of vectors of characters stands for: a sequence of
/// sequences, the rows of a board or the words of a line.
pub open spec fn rows_of(v: Vec<Vec<char>>) -> Seq<Seq<char>> {
    Seq::new(v@.len(), |i: int| v@[i]@)
}

/// The characters of a string, in order.
pub fn chars_of(s: &str) -> (v: Vec<char>)
    ensures
        v@ == s@,
{
    let mut v: Vec<char> = Vec::new();
    for c in it: s.chars()
        invariant
            it.seq() == s@,
            v@ == it.seq().take(it.index() as int),
    {
        v.push(c);
        assert(it.seq().take(it.index() + 1) =~= it.seq().take(it.index() as int).push(c));
    }
    assert(v@ =~= s@);
    v
}

/// Appends one character to a string.
///
/// This rests on `String::push` of the standard library, which is
/// documented to append the given character to the end of the string. The
/// contract says that and nothing more; it is believed, not proved.
#[verifier::external_body]
fn push_char(s: &mut String, c: char)
    ensures
        final(s)@ == old(s)@.push(c),
{
    s.push(c)
}

/// The string that holds the given characters, in order.
pub fn string_of(v: &Vec<char>) -> (s: String)
    ensures
        s@ == v@,
{
    let mut s = String::new();
    let mut i: usize = 0;
    while i < v.len()
        invariant
            i <= v.len(),
            s@ == v@.take(i as int),
        decreases v.len() - i,
    {
        push_char(&mut s, v[i]);
        assert(v@.take(i + 1) =~= v@.take(i as int).push(v@[i as int]));
        i += 1;
    }
    assert(v@.take(v.len() as int) =~= v@);
    s
}

/// Whether `c` is whitespace: a character with the Unicode property
/// `White_Space`. Words are what stands between such characters.
pub open spec fn is_space(c: char) -> bool {
    let n = c as int;
    ||| 0x09 <= n <= 0x0d
    ||| n == 0x20
    ||| n == 0x85
    ||| n == 0xa0
    ||| n == 0x1680
    ||| 0x2000 <= n <= 0x200a
    ||| n == 0x2028
    ||| n == 0x2029
    ||| n == 0x202f
    ||| n == 0x205f
    ||| n == 0x3000
}

/// Tests whether a character is whitespace.
pub fn is_whitespace(c: char) -> (b: bool)
    ensures
        b == is_space(c),
{
    let n: u32 = code_of(c);
    (0x09 <= n && n <= 0x0d) || n == 0x20 || n == 0x85 || n == 0xa0 || n == 0x1680 || (0x2000 <= n
        && n <= 0x200a) || n == 0x2028 || n == 0x2029 || n == 0x202f || n == 0x205f || n == 0x3000
}

/// The words of a text: its longest runs of characters that are not
/// whitespace, in order. The definition reads the text from the left and
/// says what its last character does to the words found before it.
pub open spec fn words(s: Seq<char>) -> Seq<Seq<char>>
    decreases s.len(),
{
    if s.len() == 0 {
        Seq::empty()
    } else {
        let before = words(s.drop_last());
        let c = s.last();
        if is_space(c) {
            before
        } else if s.len() >= 2 && !is_space(s[s.len() - 2]) {
            before.drop_last().push(before.last().push(c))
        } else {
            before.push(seq![c])
        }
    }
}

/// Splits a text into its words.
pub fn split_words(s: &Vec<char>) -> (res: Vec<Vec<char>>)
    ensures
        rows_of(res) == words(s@),
{
    let mut done: Vec<Vec<char>> = Vec::new();
    let mut word: Vec<char> = Vec::new();
    let mut i: usize = 0;
    while i < s.len()
        invariant
            i <= s.len(),
            word@.len() > 0 <==> i > 0 && !is_space(s@[i - 1]),
            words(s@.take(i as int)) == if word@.len() > 0 {
                rows_of(done).push(word@)
            } else {
                rows_of(done)
            },
        decreases s.len() - i,
    {
        let c = s[i];
        let ghost prefix = s@.take(i as int);
        let ghost next = s@.take(i + 1);
        assert(next.drop_last() =~= prefix);
        assert(next.last() == c);
        assert(i > 0 ==> next[next.len() - 2] == s@[i - 1]);
        if is_whitespace(c) {
            if word.len() > 0 {
                let ghost old_done = rows_of(done);
                done.push(word);
                assert(rows_of(done) =~= old_done.push(word@));
                word = Vec::new();
            }
        } else {
            let ghost old_word = word@;
            word.push(c);
            proof {
                if old_word.len() > 0 {
                    assert(rows_of(done).push(old_word).drop_last() =~= rows_of(done));
                } else {
                    assert(word@ =~= seq![c]);
                }
            }
        }
        i += 1;
    }
    assert(s@.take(s.len() as int) =~= s@);
    if word.len() > 0 {
        let ghost old_done = rows_of(done);
        done.push(word);
        assert(rows_of(done) =~= old_done.push(word@));
    }
    done
}

/// Whether `c` is one of the ten decimal digits.
pub open spec fn is_digit(c: char) -> bool {
    '0' as int <= c as int <= '9' as int
}

/// The number that a decimal digit stands for.
pub open spec fn digit_value(c: char) -> int {
    c as int - '0' as int
}

/// The decimal digit that stands for `d`, a number below ten.
pub open spec fn digit_char(d: int) -> char {
    (d + '0' as int) as char
}

/// Whether every character of `s` is a decimal digit.
pub open spec fn all_digits(s: Seq<char>) -> bool {
    forall|i: int| 0 <= i < s.len() ==> is_digit(#[trigger] s[i])
}

/// The number that a sequence of digits denotes in base ten.
pub open spec fn decimal_value(s: Seq<char>) -> nat
    decreases s.len(),
{
    if s.len() == 0 {
        0
    } else {
        (decimal_value(s.drop_last()) * 10 + digit_value(s.last())) as nat
    }
}

/// The digits of a numeral: the numeral without the plus sign that may
/// stand before them.
pub open spec fn digits_part(s: Seq<char>) -> Seq<char> {
    if s.len() > 0 && s[0] == '+' {
        s.drop_first()
    } else {
        s
    }
}

/// A numeral is one or more decimal digits, with or without a plus sign
/// before them, and nothing else.
pub open spec fn is_numeral(s: Seq<char>) -> bool {
    digits_part(s).len() > 0 && all_digits(digits_part(s))
}

/// The number that a word denotes: that of a numeral whose value the
/// machine can hold, and nothing for every other word.
pub open spec fn number_of(s: Seq<char>) -> Option<usize> {
    if is_numeral(s) && decimal_value(digits_part(s)) <= usize::MAX {
        Some(decimal_value(digits_part(s)) as usize)
    } else {
        None
    }
}

/// The digits of `n` in base ten, without leading zeros.
pub open spec fn decimal_digits(n: nat) -> Seq<char>
    decreases n,
{
    if n < 10 {
        seq![digit_char(n as int)]
    } else {
        decimal_digits(n / 10).push(digit_char((n % 10) as int))
    }
}

/// The first digits of a numeral denote no more than all of them.
pub proof fn lemma_decimal_value_prefix(s: Seq<char>, k: int)
    requires
        all_digits(s),
        0 <= k <= s.len(),
    ensures
        decimal_value(s.take(k)) <= decimal_value(s),
    decreases s.len(),
{
    if k == s.len() {
        assert(s.take(k) =~= s);
    } else {
        assert(s.drop_last().take(k) =~= s.take(k));
        assert(is_digit(s.last()));
        lemma_decimal_value_prefix(s.drop_last(), k);
    }
}

/// The code point of a character.
fn code_of(c: char) -> (n: u32)
    ensures
        n as int == c as int,
{
    c as u32
}

/// Reads a number in decimal: digits, with or without a plus sign before
/// them. Anything else, and a number too large for the machine, is `None`.
pub fn parse_number(s: &Vec<char>) -> (res: Option<usize>)
    ensures
        res == number_of(s@),
{
    let n = s.len();
    let start: usize = if n > 0 && s[0] == '+' {
        1
    } else {
        0
    };
    let ghost d = digits_part(s@);
    assert(d =~= s@.subrange(start as int, n as int));
    if start == n {
        return None;
    }
    let mut acc: usize = 0;
    let mut i: usize = start;
    while i < n
        invariant
            start <= i <= n,
            n == s@.len(),
            d == s@.subrange(start as int, n as int),
            d == digits_part(s@),
            all_digits(d.take(i - start)),
            acc == decimal_value(d.take(i - start)),
        decreases n - i,
    {
        let ch: char = s[i];
        let c: u32 = code_of(ch);
        let ghost k = i - start;
        assert(d[k] == ch);
        assert(d.take(k + 1).drop_last() =~= d.take(k));
        assert(d.take(k + 1).last() == ch);
        if c < 48 || c > 57 {
            assert(!is_digit(d[k]));
            return None;
        }
        assert(is_digit(ch));
        let v: usize = (c - 48) as usize;
        assert(all_digits(d.take(k + 1))) by {
            assert forall|j: int| 0 <= j < k + 1 implies is_digit(#[trigger] d.take(k + 1)[j]) by {
                if j < k {
                    assert(d.take(k)[j] == d.take(k + 1)[j]);
                } else {
                    assert(d.take(k + 1)[j] == ch);
                }
            }
        }
        assert(decimal_value(d.take(k + 1)) == acc * 10 + v);
        if acc > (usize::MAX - v) / 10 {
            proof {
                if all_digits(d) {
                    lemma_decimal_value_prefix(d, k + 1);
                }
            }
            return None;
        }
        acc = acc * 10 + v;
        i += 1;
    }
    assert(d.take(n - start) =~= d);
    Some(acc)
}

/// The decimal digit for a number below ten.
fn digit_for(d: usize) -> (c: char)
    requires
        d < 10,
    ensures
        c == digit_char(d as int),
        is_digit(c),
        digit_value(c) == d,
{
    if d == 0 {
        '0'
    } else if d == 1 {
        '1'
    } else if d == 2 {
        '2'
    } else if d == 3 {
        '3'
    } else if d == 4 {
        '4'
    } else if d == 5 {
        '5'
    } else if d == 6 {
        '6'
    } else if d == 7 {
        '7'
    } else if d == 8 {
        '8'
    } else {
        '9'
    }
}

/// Writes a number in decimal, without leading zeros.
pub fn format_number(n: usize) -> (res: Vec<char>)
    ensures
        res@ == decimal_digits(n as nat),
    decreases n,
{
    if n < 10 {
        let mut v: Vec<char> = Vec::new();
        v.push(digit_for(n));
        assert(v@ =~= seq![digit_char(n as int)]);
        v
    } else {
        let mut v = format_number(n / 10);
        v.push(digit_for(n % 10));
        v
    }
}

/// The digits of a number are a numeral that denotes the number.
pub proof fn lemma_decimal_digits(n: nat)
    ensures
        decimal_digits(n).len() > 0,
        all_digits(decimal_digits(n)),
        decimal_value(decimal_digits(n)) == n,
    decreases n,
{
    let s = decimal_digits(n);
    if n < 10 {
        assert(s.drop_last() =~= Seq::<char>::empty());
        assert(decimal_value(s.drop_last()) == 0);
    } else {
        lemma_decimal_digits(n / 10);
        assert(s.drop_last() =~= decimal_digits(n / 10));
        assert forall|i: int| 0 <= i < s.len() implies is_digit(#[trigger] s[i]) by {
            if i < s.len() - 1 {
                assert(s[i] == decimal_digits(n / 10)[i]);
            }
        }
    }
}

/// A number written and read again is the same number.
pub proof fn lemma_number_round_trip(n: usize)
    ensures
        number_of(decimal_digits(n as nat)) == Some(n),
{
    lemma_decimal_digits(n as nat);
    let s = decimal_digits(n as nat);
    assert(is_digit(s[0]));
    assert(digits_part(s) == s);
}

/// Whether `w` can be a word: not empty, and free of whitespace.
pub open spec fn is_word(w: Seq<char>) -> bool {
    w.len() > 0 && forall|i: int| 0 <= i < w.len() ==> !is_space(#[trigger] w[i])
}

/// Whether a new word can begin right after `s`: `s` is empty or ends in
/// whitespace.
pub open spec fn ends_open(s: Seq<char>) -> bool {
    s.len() == 0 || is_space(s.last())
}

/// Whitespace at the end of a text adds no word.
pub proof fn lemma_words_space(s: Seq<char>, c: char)
    requires
        is_space(c),
    ensures
        words(s.push(c)) == words(s),
        ends_open(s.push(c)),
{
    assert(s.push(c).drop_last() =~= s);
}

/// A word written after whitespace, or at the start of a text, is the last
/// word of the text.
pub proof fn lemma_words_word(s: Seq<char>, w: Seq<char>)
    requires
        ends_open(s),
        is_word(w),
    ensures
        words(s + w) == words(s).push(w),
        !ends_open(s + w),
    decreases w.len(),
{
    let t = s + w;
    let c = w.last();
    let v = w.drop_last();
    assert(t.drop_last() =~= s + v);
    assert(t.last() == c);
    if v.len() == 0 {
        assert(s + v =~= s);
        assert(w =~= seq![c]);
        if s.len() > 0 {
            assert(t[t.len() - 2] == s.last());
        }
    } else {
        assert forall|i: int| 0 <= i < v.len() implies !is_space(#[trigger] v[i]) by {
            assert(v[i] == w[i]);
        }
        lemma_words_word(s, v);
        assert(t[t.len() - 2] == v.last());
        assert(v.last() == w[w.len() - 2]);
        assert(words(s).push(v).drop_last() =~= words(s));
        assert(v.push(c) =~= w);
    }
}

/// Every word of a text is a word: it is not empty and holds no
/// whitespace. A text that ends in a character that is no whitespace has a
/// last word.
pub proof fn lemma_words_are_words(s: Seq<char>)
    ensures
        forall|i: int| 0 <= i < words(s).len() ==> is_word(#[trigger] words(s)[i]),
        !ends_open(s) ==> words(s).len() > 0,
    decreases s.len(),
{
    if s.len() > 0 {
        let before = words(s.drop_last());
        let c = s.last();
        lemma_words_are_words(s.drop_last());
        if !is_space(c) {
            if s.len() >= 2 && !is_space(s[s.len() - 2]) {
                assert(s.drop_last().last() == s[s.len() - 2]);
                let grown = before.last().push(c);
                assert(is_word(before.last()));
                assert forall|j: int| 0 <= j < grown.len() implies !is_space(#[trigger] grown[j]) by {
                    if j < grown.len() - 1 {
                        assert(grown[j] == before.last()[j]);
                    }
                }
            }
            assert forall|i: int| 0 <= i < words(s).len() implies is_word(#[trigger] words(s)[i]) by {
                if i < words(s).len() - 1 {
                    assert(words(s)[i] == before[i]);
                }
            }
        }
    }
}

/// The digits of a number make a word.
pub proof fn lemma_digits_are_word(n: nat)
    ensures
        is_word(decimal_digits(n)),
{
    lemma_decimal_digits(n);
    let s = decimal_digits(n);
    assert forall|i: int| 0 <= i < s.len() implies !is_space(#[trigger] s[i]) by {
        assert(is_digit(s[i]));
    }
}

/// Whether every word of `ws` denotes a number.
pub open spec fn all_numbers(ws: Seq<Seq<char>>) -> bool {
    forall|i: int| 0 <= i < ws.len() ==> number_of(#[trigger] ws[i]) is Some
}

/// The numbers that the words of a line denote, in order, or nothing when
/// some word of the line is no number that the machine can hold.
pub open spec fn numbers_of(line: Seq<char>) -> Option<Seq<usize>> {
    let ws = words(line);
    if all_numbers(ws) {
        Some(Seq::new(ws.len(), |i: int| number_of(ws[i])->0))
    } else {
        None
    }
}

/// Reads a line of numbers, set apart by whitespace.
pub fn parse_numbers(line: &Vec<char>) -> (res: Option<Vec<usize>>)
    ensures
        match numbers_of(line@) {
            Some(ns) => res is Some && res->0@ == ns,
            None => res is None,
        },
{
    let ws = split_words(line);
    let ghost ww = words(line@);
    let mut out: Vec<usize> = Vec::new();
    let mut i: usize = 0;
    while i < ws.len()
        invariant
            i <= ws.len(),
            rows_of(ws) == ww,
            ww == words(line@),
            out@.len() == i,
            forall|j: int| 0 <= j < i ==> number_of(#[trigger] ww[j]) == Some(out@[j]),
        decreases ws.len() - i,
    {
        assert(ww[i as int] == ws@[i as int]@);
        match parse_number(&ws[i]) {
            Some(n) => {
                out.push(n);
            },
            None => {
                assert(number_of(ww[i as int]) is None);
                return None;
            },
        }
        i += 1;
    }
    assert(out@ =~= Seq::new(ww.len(), |i: int| number_of(ww[i])->0));
    Some(out)
}

/// The text of a line of numbers: each in decimal, with one blank between
/// two of them.
pub open spec fn joined(ns: Seq<usize>) -> Seq<char>
    decreases ns.len(),
{
    if ns.len() == 0 {
        Seq::empty()
    } else if ns.len() == 1 {
        decimal_digits(ns[0] as nat)
    } else {
        joined(ns.drop_last()).push(' ') + decimal_digits(ns.last() as nat)
    }
}

/// Writes a line of numbers, with one blank between two of them.
pub fn join_numbers(ns: &Vec<usize>) -> (res: Vec<char>)
    ensures
        res@ == joined(ns@),
{
    let mut out: Vec<char> = Vec::new();
    let mut i: usize = 0;
    while i < ns.len()
        invariant
            i <= ns.len(),
            out@ == joined(ns@.take(i as int)),
        decreases ns.len() - i,
    {
        let ghost prefix = ns@.take(i as int);
        let ghost next = ns@.take(i + 1);
        assert(next.drop_last() =~= prefix);
        assert(next.last() == ns@[i as int]);
        if i > 0 {
            out.push(' ');
        }
        let mut digits = format_number(ns[i]);
        out.append(&mut digits);
        assert(i == 0 ==> out@ =~= decimal_digits(ns@[i as int] as nat));
        i += 1;
    }
    assert(ns@.take(ns.len() as int) =~= ns@);
    out
}

/// Whether `c` is a character of a written line of numbers: a digit or a
/// blank.
pub open spec fn is_digit_or_blank(c: char) -> bool {
    is_digit(c) || c == ' '
}

/// A written line of numbers, read again, gives the same numbers. It holds
/// nothing but digits and blanks, and where it holds a number it ends in a
/// digit.
pub proof fn lemma_joined(ns: Seq<usize>)
    ensures
        words(joined(ns)) == Seq::new(ns.len(), |i: int| decimal_digits(ns[i] as nat)),
        numbers_of(joined(ns)) == Some(ns),
        forall|i: int| 0 <= i < joined(ns).len() ==> is_digit_or_blank(#[trigger] joined(ns)[i]),
        ns.len() > 0 ==> !ends_open(joined(ns)),
    decreases ns.len(),
{
    let t = joined(ns);
    let expected = Seq::new(ns.len(), |i: int| decimal_digits(ns[i] as nat));
    if ns.len() == 0 {
        assert(words(t) =~= expected);
    } else {
        let d = decimal_digits(ns.last() as nat);
        lemma_digits_are_word(ns.last() as nat);
        lemma_decimal_digits(ns.last() as nat);
        if ns.len() == 1 {
            assert(Seq::<char>::empty() + d =~= d);
            lemma_words_word(Seq::<char>::empty(), d);
            assert(words(t) =~= expected);
        } else {
            let before = ns.drop_last();
            lemma_joined(before);
            let head = joined(before).push(' ');
            lemma_words_space(joined(before), ' ');
            lemma_words_word(head, d);
            assert(words(t) =~= expected);
            assert forall|i: int| 0 <= i < t.len() implies is_digit_or_blank(#[trigger] t[i]) by {
                if i < joined(before).len() {
                    assert(t[i] == joined(before)[i]);
                } else if i > joined(before).len() {
                    assert(t[i] == d[i - head.len()]);
                }
            }
        }
    }
    assert forall|i: int| 0 <= i < words(t).len() implies number_of(#[trigger] words(t)[i]) == Some(
        ns[i],
    ) by {
        lemma_number_round_trip(ns[i]);
    }
    assert(numbers_of(t)->0 =~= ns);
}

/// A text without the whitespace at its start and at its end.
pub open spec fn trimmed(s: Seq<char>) -> Seq<char>
    decreases s.len(),
{
    if s.len() > 0 && is_space(s[0]) {
        trimmed(s.drop_first())
    } else if s.len() > 0 && is_space(s.last()) {
        trimmed(s.drop_last())
    } else {
        s
    }
}

/// The trimmed text is what stands between the whitespace at the start
/// and the whitespace at the end.
pub proof fn lemma_trimmed(s: Seq<char>, i: int, j: int)
    requires
        0 <= i <= j <= s.len(),
        forall|k: int| 0 <= k < i ==> is_space(#[trigger] s[k]),
        forall|k: int| j <= k < s.len() ==> is_space(#[trigger] s[k]),
        i < j ==> !is_space(s[i]) && !is_space(s[j - 1]),
    ensures
        trimmed(s) == s.subrange(i, j),
    decreases s.len(),
{
    if s.len() == 0 {
        assert(s.subrange(i, j) =~= s);
    } else if is_space(s[0]) {
        let t = s.drop_first();
        if i == 0 {
            assert(j == 0);
            assert forall|k: int| 0 <= k < t.len() implies is_space(#[trigger] t[k]) by {
                assert(t[k] == s[k + 1]);
            }
            lemma_trimmed(t, 0, 0);
            assert(t.subrange(0, 0) =~= s.subrange(0, 0));
        } else {
            assert forall|k: int| 0 <= k < i - 1 implies is_space(#[trigger] t[k]) by {
                assert(t[k] == s[k + 1]);
            }
            assert forall|k: int| j - 1 <= k < t.len() implies is_space(#[trigger] t[k]) by {
                assert(t[k] == s[k + 1]);
            }
            lemma_trimmed(t, i - 1, j - 1);
            assert(t.subrange(i - 1, j - 1) =~= s.subrange(i, j));
        }
    } else if is_space(s.last()) {
        let t = s.drop_last();
        assert(i == 0);
        assert(j < s.len());
        assert forall|k: int| j <= k < t.len() implies is_space(#[trigger] t[k]) by {
            assert(t[k] == s[k]);
        }
        lemma_trimmed(t, 0, j);
        assert(t.subrange(0, j) =~= s.subrange(0, j));
    } else {
        assert(i == 0);
        assert(j == s.len()) by {
            if j < s.len() {
                assert(is_space(s[s.len() - 1]));
            }
        }
        assert(s.subrange(0, s.len() as int) =~= s);
    }
}

/// Takes the whitespace off both ends of a text.
pub fn trim(s: &Vec<char>) -> (res: Vec<char>)
    ensures
        res@ == trimmed(s@),
{
    let n = s.len();
    let mut i: usize = 0;
    while i < n && is_whitespace(s[i])
        invariant
            i <= n,
            n == s@.len(),
            forall|k: int| 0 <= k < i ==> is_space(#[trigger] s@[k]),
        decreases n - i,
    {
        i += 1;
    }
    let mut j: usize = n;
    while j > i && is_whitespace(s[j - 1])
        invariant
            i <= j <= n,
            n == s@.len(),
            forall|k: int| j <= k < n ==> is_space(#[trigger] s@[k]),
        decreases j,
    {
        j -= 1;
    }
    let mut out: Vec<char> = Vec::new();
    let mut k: usize = i;
    while k < j
        invariant
            i <= k <= j <= n,
            n == s@.len(),
            out@ == s@.subrange(i as int, k as int),
        decreases j - k,
    {
        out.push(s[k]);
        assert(s@.subrange(i as int, k + 1) =~= s@.subrange(i as int, k as int).push(s@[k as int]));
        k += 1;
    }
    proof {
        lemma_trimmed(s@, i as int, j as int);
    }
    out
}

} // verus!
