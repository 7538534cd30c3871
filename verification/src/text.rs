//! Decimal numerals and the textual building blocks shared by the formats.

use vstd::prelude::*;
use vstd::std_specs::iter::IteratorSpec;
use vstd::string::*;

verus! {

/// The character that writes the digit `d`.
pub open spec fn digit_char(d: int) -> char {
    if d == 0 {
        '0'
    } else if d == 1 {
        '1'
    } else if d == 2 {
        '2'
    } else if d == 3 {
        '3'
    } else if d == 4 {
        '4'
    } else if d == 5 {
        '5'
    } else if d == 6 {
        '6'
    } else if d == 7 {
        '7'
    } else if d == 8 {
        '8'
    } else {
        '9'
    }
}

/// The decimal numeral of `n`: no sign, no leading zero.
pub open spec fn decimal(n: nat) -> Seq<char>
    decreases n,
{
    if n < 10 {
        seq![digit_char(n as int)]
    } else {
        decimal(n / 10).push(digit_char((n % 10) as int))
    }
}

fn digit_str(d: usize) -> (r: &'static str)
    requires
        d < 10,
    ensures
        r@ == seq![digit_char(d as int)],
{
    proof {
        reveal_strlit("0");
        reveal_strlit("1");
        reveal_strlit("2");
        reveal_strlit("3");
        reveal_strlit("4");
        reveal_strlit("5");
        reveal_strlit("6");
        reveal_strlit("7");
        reveal_strlit("8");
        reveal_strlit("9");
    }
    if d == 0 {
        "0"
    } else if d == 1 {
        "1"
    } else if d == 2 {
        "2"
    } else if d == 3 {
        "3"
    } else if d == 4 {
        "4"
    } else if d == 5 {
        "5"
    } else if d == 6 {
        "6"
    } else if d == 7 {
        "7"
    } else if d == 8 {
        "8"
    } else {
        "9"
    }
}

/// Writes `n` in decimal.
pub fn decimal_string(n: usize) -> (r: String)
    ensures
        r@ == decimal(n as nat),
    decreases n,
{
    if n < 10 {
        String::from_str(digit_str(n))
    } else {
        let head = decimal_string(n / 10);
        head.concat(digit_str(n % 10))
    }
}

/// `String::push` of std: the character is appended, nothing else changes.
pub assume_specification[ String::push ](s: &mut String, c: char)
    ensures
        final(s)@ == old(s)@.push(c),
;

/// The characters that separate tokens: those with the Unicode property
/// White_Space.
pub open spec fn is_space(c: char) -> bool {
    let u = c as u32;
    ||| 0x09 <= u <= 0x0d
    ||| u == 0x20
    ||| u == 0x85
    ||| u == 0xa0
    ||| u == 0x1680
    ||| 0x2000 <= u <= 0x200a
    ||| u == 0x2028
    ||| u == 0x2029
    ||| u == 0x202f
    ||| u == 0x205f
    ||| u == 0x3000
}

/// The length of the run of characters at the start of `s` that holds no
/// separator.
pub open spec fn word_len(s: Seq<char>) -> nat
    decreases s.len(),
{
    if s.len() == 0 || is_space(s[0]) {
        0
    } else {
        1 + word_len(s.drop_first())
    }
}

/// The tokens of `s`: its longest runs of characters without a separator,
/// from left to right.
pub open spec fn tokens(s: Seq<char>) -> Seq<Seq<char>>
    decreases s.len(),
    via tokens_decreases
{
    if s.len() == 0 {
        Seq::empty()
    } else if is_space(s[0]) {
        tokens(s.drop_first())
    } else {
        seq![s.take(word_len(s) as int)] + tokens(s.skip(word_len(s) as int))
    }
}

#[via_fn]
proof fn tokens_decreases(s: Seq<char>) {
    lemma_word_len(s);
}

/// The first word of `s` lies within `s`, holds no separator, and ends at a
/// separator or at the end of `s`.
pub proof fn lemma_word_len(s: Seq<char>)
    ensures
        word_len(s) <= s.len(),
        s.len() > 0 && !is_space(s[0]) ==> word_len(s) >= 1,
        forall|k: int| 0 <= k < word_len(s) ==> !is_space(#[trigger] s[k]),
        word_len(s) < s.len() ==> is_space(s[word_len(s) as int]),
    decreases s.len(),
{
    if s.len() == 0 || is_space(s[0]) {
    } else {
        let rest = s.drop_first();
        lemma_word_len(rest);
        assert forall|k: int| 0 <= k < word_len(s) implies !is_space(#[trigger] s[k]) by {
            if k > 0 {
                assert(s[k] == rest[k - 1]);
            }
        }
        if word_len(s) < s.len() {
            assert(s[word_len(s) as int] == rest[word_len(rest) as int]);
        }
    }
}

/// A run `w` without separators, followed by `rest`, starts with the word `w`
/// when `rest` is empty or begins with a separator.
pub proof fn lemma_word_len_of_run(w: Seq<char>, rest: Seq<char>)
    requires
        forall|k: int| 0 <= k < w.len() ==> !is_space(#[trigger] w[k]),
        rest.len() == 0 || is_space(rest[0]),
    ensures
        word_len(w + rest) == w.len(),
    decreases w.len(),
{
    let s = w + rest;
    if w.len() == 0 {
        assert(s =~= rest);
    } else {
        assert(s[0] == w[0]);
        assert(s.drop_first() =~= w.drop_first() + rest);
        assert forall|k: int| 0 <= k < w.drop_first().len() implies !is_space(
            #[trigger] w.drop_first()[k],
        ) by {
            assert(w.drop_first()[k] == w[k + 1]);
        }
        lemma_word_len_of_run(w.drop_first(), rest);
    }
}

/// A non-empty run `w` without separators, followed by `rest` that is empty
/// or begins with a separator, is the first token; the others are those of
/// `rest`.
pub proof fn lemma_tokens_of_run(w: Seq<char>, rest: Seq<char>)
    requires
        w.len() > 0,
        forall|k: int| 0 <= k < w.len() ==> !is_space(#[trigger] w[k]),
        rest.len() == 0 || is_space(rest[0]),
    ensures
        tokens(w + rest) == seq![w] + tokens(rest),
{
    let s = w + rest;
    lemma_word_len_of_run(w, rest);
    assert(s[0] == w[0]);
    assert(s.take(w.len() as int) =~= w);
    assert(s.skip(w.len() as int) =~= rest);
}

/// A separator in front changes no token.
pub proof fn lemma_tokens_after_space(c: char, rest: Seq<char>)
    requires
        is_space(c),
    ensures
        tokens(seq![c] + rest) == tokens(rest),
{
    let s = seq![c] + rest;
    assert(s[0] == c);
    assert(s.drop_first() =~= rest);
}

/// The texts that `v` holds.
pub open spec fn words(v: Vec<String>) -> Seq<Seq<char>> {
    Seq::new(v@.len(), |k: int| v@[k]@)
}

fn space_char(c: char) -> (b: bool)
    ensures
        b == is_space(c),
{
    let u: u32 = c as u32;
    (0x09 <= u && u <= 0x0d) || u == 0x20 || u == 0x85 || u == 0xa0 || u == 0x1680 || (0x2000 <= u
        && u <= 0x200a) || u == 0x2028 || u == 0x2029 || u == 0x202f || u == 0x205f || u == 0x3000
}

/// Splits `s` into its tokens.
pub fn split_tokens(s: &str) -> (r: Vec<String>)
    ensures
        words(r) == tokens(s@),
{
    broadcast use vstd::string::group_string_axioms;

    let mut done: Vec<String> = Vec::new();
    let mut word = String::new();
    let mut it = s.chars();
    let ghost mut read: int = 0;
    proof {
        assert(word@ + s@.skip(0) =~= s@);
        assert(words(done) + tokens(s@) =~= tokens(s@));
    }
    loop
        invariant_except_break
            forall|k: int| 0 <= k < word@.len() ==> !is_space(#[trigger] word@[k]),
            tokens(s@) == words(done) + tokens(word@ + s@.skip(read)),
        invariant
            0 <= read <= s@.len(),
            it.remaining() == s@.skip(read),
        ensures
            words(done) == tokens(s@),
        decreases s@.len() - read,
    {
        let ghost rest = s@.skip(read);
        let ghost after = s@.skip(read + 1);
        match it.next() {
            Some(c) => {
                proof {
                    assert(rest =~= seq![c] + after);
                    read = read + 1;
                }
                if space_char(c) {
                    let empty = word.as_str().is_empty();
                    if !empty {
                        proof {
                            lemma_tokens_of_run(word@, rest);
                            lemma_tokens_after_space(c, after);
                            assert(words(done).push(word@) + tokens(after) =~= words(done) + (
                            seq![word@] + tokens(after)));
                        }
                        let ghost before = words(done);
                        let ghost last = word@;
                        done.push(word);
                        word = String::new();
                        assert(words(done) =~= before.push(last));
                        assert(word@ + after =~= after);
                    } else {
                        proof {
                            lemma_tokens_after_space(c, after);
                            assert(word@ + rest =~= rest);
                            assert(word@ + after =~= after);
                        }
                    }
                } else {
                    let ghost longer = word@.push(c);
                    proof {
                        assert(word@ + rest =~= longer + after);
                    }
                    word.push(c);
                }
            },
            None => {
                proof {
                    assert(rest.len() == 0);
                    assert(word@ + rest =~= word@);
                    if word@.len() > 0 {
                        lemma_tokens_of_run(word@, rest);
                        assert(tokens(rest) =~= Seq::<Seq<char>>::empty());
                    }
                }
                let empty = word.as_str().is_empty();
                if !empty {
                    let ghost before = words(done);
                    let ghost last = word@;
                    done.push(word);
                    assert(words(done) =~= before + seq![last]);
                } else {
                    assert(tokens(word@) =~= Seq::<Seq<char>>::empty());
                }
                break ;
            },
        }
    }
    done
}

/// `c` is one of the ten decimal digits.
pub open spec fn is_digit(c: char) -> bool {
    '0' <= c <= '9'
}

/// The number that the digit `c` writes.
pub open spec fn digit_of(c: char) -> nat {
    (c as int - '0' as int) as nat
}

/// `s` holds digits only.
pub open spec fn all_digits(s: Seq<char>) -> bool {
    forall|k: int| 0 <= k < s.len() ==> is_digit(#[trigger] s[k])
}

/// The number that the digits `s` write in decimal.
pub open spec fn digits_value(s: Seq<char>) -> nat
    decreases s.len(),
{
    if s.len() == 0 {
        0
    } else {
        digits_value(s.drop_last()) * 10 + digit_of(s.last())
    }
}

/// `s` without the plus sign that may stand in front.
pub open spec fn unsigned_part(s: Seq<char>) -> Seq<char> {
    if s.len() > 0 && s[0] == '+' {
        s.drop_first()
    } else {
        s
    }
}

/// The number that `s` writes: one or more digits, a plus sign in front
/// allowed, the value within `usize`. Anything else writes no number.
pub open spec fn parse_usize(s: Seq<char>) -> Option<usize> {
    let body = unsigned_part(s);
    if body.len() > 0 && all_digits(body) && digits_value(body) <= usize::MAX {
        Some(digits_value(body) as usize)
    } else {
        None
    }
}

/// The digits read so far never write more than all of them.
pub proof fn lemma_digits_value_grows(s: Seq<char>, k: int)
    requires
        0 <= k <= s.len(),
    ensures
        digits_value(s.take(k)) <= digits_value(s),
    decreases s.len(),
{
    if k == s.len() {
        assert(s.take(k) =~= s);
    } else {
        assert(s.drop_last().take(k) =~= s.take(k));
        lemma_digits_value_grows(s.drop_last(), k);
    }
}

/// Reads `s` as a number.
pub fn parse_number(s: &str) -> (r: Option<usize>)
    ensures
        r == parse_usize(s@),
{
    broadcast use vstd::string::group_string_axioms;

    let ghost body = unsigned_part(s@);
    let mut it = s.chars();
    let mut acc: usize = 0;
    let mut any = false;
    let ghost mut start: int = 0;
    let ghost mut read: int = 0;
    match it.next() {
        None => {
            return None;
        },
        Some(c) => {
            if c == '+' {
                proof {
                    start = 1;
                    read = 1;
                }
            } else if '0' <= c && c <= '9' {
                acc = (c as u32 - '0' as u32) as usize;
                any = true;
                proof {
                    read = 1;
                    let one = s@.subrange(0, 1);
                    assert(one.drop_last() =~= Seq::<char>::empty());
                    assert(one.last() == c);
                    assert(digits_value(one.drop_last()) == 0);
                    assert(digits_value(one) == digit_of(c));
                }
            } else {
                assert(!is_digit(body[0]));
                return None;
            }
        },
    }
    assert(body =~= s@.skip(start));
    assert(start == read ==> s@.subrange(start, read) =~= Seq::<char>::empty());
    loop
        invariant
            0 <= start <= read <= s@.len(),
            start <= 1,
            body == unsigned_part(s@),
            body == s@.skip(start),
            it.remaining() == s@.skip(read),
            any == (read > start),
            all_digits(s@.subrange(start, read)),
            acc == digits_value(s@.subrange(start, read)),
        ensures
            read == s@.len(),
        decreases s@.len() - read,
    {
        match it.next() {
            None => {
                break ;
            },
            Some(c) => {
                let ghost seen = s@.subrange(start, read);
                let ghost more = s@.subrange(start, read + 1);
                proof {
                    assert(s@.skip(read)[0] == s@[read]);
                    assert(more.drop_last() =~= seen);
                    assert(more.last() == c);
                    assert(body[read - start] == c);
                    assert(more =~= body.take(read + 1 - start));
                }
                if !('0' <= c && c <= '9') {
                    assert(!is_digit(body[read - start]));
                    return None;
                }
                let d: usize = (c as u32 - '0' as u32) as usize;
                assert(digits_value(more) == acc * 10 + d);
                let grown = match acc.checked_mul(10) {
                    Some(tens) => tens.checked_add(d),
                    None => None,
                };
                match grown {
                    Some(value) => {
                        acc = value;
                    },
                    None => {
                        proof {
                            lemma_digits_value_grows(body, read + 1 - start);
                        }
                        return None;
                    },
                }
                any = true;
                proof {
                    read = read + 1;
                }
            },
        }
    }
    assert(s@.subrange(start, read) =~= body);
    if any {
        Some(acc)
    } else {
        None
    }
}

/// A decimal numeral is made of digits, one at least, and writes its number.
pub proof fn lemma_decimal_digits(n: nat)
    ensures
        decimal(n).len() > 0,
        all_digits(decimal(n)),
        digits_value(decimal(n)) == n,
    decreases n,
{
    let s = decimal(n);
    if n < 10 {
        assert(s.drop_last() =~= Seq::<char>::empty());
        assert(digits_value(s.drop_last()) == 0);
        assert(s.last() == digit_char(n as int));
    } else {
        lemma_decimal_digits(n / 10);
        assert(s.drop_last() =~= decimal(n / 10));
        assert(s.last() == digit_char((n % 10) as int));
        assert forall|k: int| 0 <= k < s.len() implies is_digit(#[trigger] s[k]) by {
            if k < s.len() - 1 {
                assert(s[k] == decimal(n / 10)[k]);
            }
        }
    }
}

/// Reading a decimal numeral gives its number back, and the numeral is one
/// token: it holds no separator.
pub proof fn lemma_decimal_parses(v: usize)
    ensures
        parse_usize(decimal(v as nat)) == Some(v),
        decimal(v as nat).len() > 0,
        forall|k: int| 0 <= k < decimal(v as nat).len() ==> !is_space(#[trigger] decimal(v as nat)[k]),
{
    let s = decimal(v as nat);
    lemma_decimal_digits(v as nat);
    assert(is_digit(s[0]));
    assert(unsigned_part(s) == s);
    assert forall|k: int| 0 <= k < s.len() implies !is_space(#[trigger] s[k]) by {
        assert(is_digit(s[k]));
    }
}

/// A numeral, a separator and `rest`: the numeral is the first token, and
/// the others are those of `rest`.
pub proof fn lemma_tokens_numeral(v: usize, c: char, rest: Seq<char>)
    requires
        is_space(c),
    ensures
        tokens(decimal(v as nat) + seq![c] + rest) == seq![decimal(v as nat)] + tokens(rest),
{
    let w = decimal(v as nat);
    lemma_decimal_parses(v);
    assert(w + seq![c] + rest =~= w + (seq![c] + rest));
    assert((seq![c] + rest)[0] == c);
    lemma_tokens_of_run(w, seq![c] + rest);
    lemma_tokens_after_space(c, rest);
}

} // verus!
