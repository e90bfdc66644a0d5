//! Small operations on strings, by character.
use vstd::prelude::*;

verus! {

/// Whether a character is white space: the characters that Unicode gives
/// the property `White_Space`.
pub open spec fn is_space(c: char) -> bool {
    let code = c as u32;
    (0x09 <= code <= 0x0D) || code == 0x20 || code == 0x85 || code == 0xA0 || code == 0x1680 || (
    0x2000 <= code <= 0x200A) || code == 0x2028 || code == 0x2029 || code == 0x202F || code
        == 0x205F || code == 0x3000
}

/// Computes `is_space`.
pub fn is_whitespace(c: char) -> (space: bool)
    ensures
        space == is_space(c),
{
    let code: u32 = c as u32;
    (0x09 <= code && code <= 0x0D) || code == 0x20 || code == 0x85 || code == 0xA0 || code
        == 0x1680 || (0x2000 <= code && code <= 0x200A) || code == 0x2028 || code == 0x2029 || code
        == 0x202F || code == 0x205F || code == 0x3000
}

/// Where `text` without the white space at its start begins.
pub open spec fn trim_start_at(text: Seq<char>) -> int
    decreases text.len(),
{
    if text.len() > 0 && is_space(text[0]) {
        1 + trim_start_at(text.skip(1))
    } else {
        0
    }
}

/// Where `text` without the white space at its end ends.
pub open spec fn trim_end_at(text: Seq<char>) -> int
    decreases text.len(),
{
    if text.len() > 0 && is_space(text.last()) {
        trim_end_at(text.drop_last())
    } else {
        text.len() as int
    }
}

/// `text` without the white space at its start and at its end.
pub open spec fn trimmed(text: Seq<char>) -> Seq<char> {
    let from = trim_start_at(text);
    let rest = text.skip(from);
    rest.take(trim_end_at(rest))
}

/// The bounds that `trim_start_at` and `trim_end_at` give lie in the text.
pub proof fn lemma_trim_bounds(text: Seq<char>)
    ensures
        0 <= trim_start_at(text) <= text.len(),
        0 <= trim_end_at(text) <= text.len(),
        forall|i: int| 0 <= i < trim_start_at(text) ==> is_space(#[trigger] text[i]),
        trim_start_at(text) < text.len() ==> !is_space(text[trim_start_at(text)]),
        forall|i: int| trim_end_at(text) <= i < text.len() ==> is_space(#[trigger] text[i]),
        trim_end_at(text) > 0 ==> !is_space(text[trim_end_at(text) - 1]),
    decreases text.len(),
{
    if text.len() > 0 {
        if is_space(text[0]) {
            lemma_trim_bounds(text.skip(1));
            assert forall|i: int| 0 <= i < trim_start_at(text) implies is_space(
                #[trigger] text[i],
            ) by {
                if i > 0 {
                    assert(text[i] == text.skip(1)[i - 1]);
                }
            }
            if trim_start_at(text) < text.len() {
                assert(text[trim_start_at(text)] == text.skip(1)[trim_start_at(text.skip(1))]);
            }
        }
        if is_space(text.last()) {
            lemma_trim_bounds(text.drop_last());
            assert forall|i: int| trim_end_at(text) <= i < text.len() implies is_space(
                #[trigger] text[i],
            ) by {
                if i < text.len() - 1 {
                    assert(text[i] == text.drop_last()[i]);
                }
            }
            if trim_end_at(text) > 0 {
                assert(text[trim_end_at(text) - 1] == text.drop_last()[trim_end_at(
                    text.drop_last(),
                ) - 1]);
            }
        }
    }
}

/// The first position of `c` in `text`, or -1 if it does not occur.
pub open spec fn position_of(text: Seq<char>, c: char) -> int
    decreases text.len(),
{
    if text.len() == 0 {
        -1
    } else if text[0] == c {
        0
    } else if position_of(text.skip(1), c) < 0 {
        -1
    } else {
        1 + position_of(text.skip(1), c)
    }
}

/// `position_of` gives the first occurrence.
pub proof fn lemma_position_of(text: Seq<char>, c: char)
    ensures
        -1 <= position_of(text, c) < text.len(),
        position_of(text, c) >= 0 ==> text[position_of(text, c)] == c,
        forall|i: int|
            0 <= i < text.len() && (i < position_of(text, c) || position_of(text, c) < 0)
                ==> #[trigger] text[i] != c,
    decreases text.len(),
{
    if text.len() > 0 && text[0] != c {
        lemma_position_of(text.skip(1), c);
        let rest = text.skip(1);
        assert forall|i: int|
            0 <= i < text.len() && (i < position_of(text, c) || position_of(text, c)
                < 0) implies #[trigger] text[i] != c by {
            if i > 0 {
                assert(text[i] == rest[i - 1]);
            }
        }
        if position_of(text, c) >= 0 {
            assert(text[position_of(text, c)] == rest[position_of(rest, c)]);
        }
    }
}

/// The pieces of `text` between the occurrences of `sep`.
pub open spec fn split_on(text: Seq<char>, sep: char) -> Seq<Seq<char>>
    decreases text.len(),
{
    let at = position_of(text, sep);
    if at < 0 || at >= text.len() {
        seq![text]
    } else {
        seq![text.take(at)] + split_on(text.skip(at + 1), sep)
    }
}

/// Cuts `text` at every occurrence of `sep`.
pub fn split<'a>(text: &'a str, sep: char) -> (pieces: Vec<&'a str>)
    ensures
        pieces@.len() == split_on(text@, sep).len(),
        pieces@.len() > 0,
        forall|i: int| 0 <= i < pieces@.len() ==> (#[trigger] pieces@[i])@ == split_on(text@, sep)[i],
{
    let mut pieces: Vec<&'a str> = Vec::new();
    let mut rest: &'a str = text;
    let ghost mut done: Seq<Seq<char>> = Seq::empty();
    loop
        invariant_except_break
            done + split_on(rest@, sep) == split_on(text@, sep),
            pieces@.len() == done.len(),
            forall|i: int| 0 <= i < pieces@.len() ==> (#[trigger] pieces@[i])@ == done[i],
        ensures
            pieces@.len() == split_on(text@, sep).len(),
            pieces@.len() > 0,
            forall|i: int|
                0 <= i < pieces@.len() ==> (#[trigger] pieces@[i])@ == split_on(text@, sep)[i],
        decreases rest@.len(),
    {
        proof {
            lemma_position_of(rest@, sep);
        }
        match find_char(rest, sep) {
            None => {
                pieces.push(rest);
                proof {
                    assert(split_on(rest@, sep) =~= seq![rest@]);
                    assert(done + seq![rest@] == split_on(text@, sep));
                    assert forall|i: int| 0 <= i < pieces@.len() implies (#[trigger] pieces@[i])@
                        == split_on(text@, sep)[i] by {
                        if i < done.len() {
                            assert((done + seq![rest@])[i] == done[i]);
                        } else {
                            assert((done + seq![rest@])[i] == rest@);
                        }
                    }
                }
                break ;
            },
            Some(at) => {
                let len: usize = rest.unicode_len();
                let piece = rest.substring_char(0, at);
                let tail = rest.substring_char(at + 1, len);
                proof {
                    assert(piece@ =~= rest@.take(at as int));
                    assert(tail@ =~= rest@.skip(at + 1));
                    assert(done.push(piece@) + split_on(tail@, sep) =~= done + split_on(
                        rest@,
                        sep,
                    ));
                    done = done.push(piece@);
                }
                pieces.push(piece);
                rest = tail;
            },
        }
    }
    pieces
}

/// Whether two strings hold the same characters.
pub fn same_text(a: &str, b: &str) -> (same: bool)
    ensures
        same == (a@ == b@),
{
    let len: usize = a.unicode_len();
    if len != b.unicode_len() {
        return false;
    }
    let mut i: usize = 0;
    while i < len
        invariant
            len == a@.len(),
            len == b@.len(),
            i <= len,
            forall|k: int| 0 <= k < i ==> a@[k] == b@[k],
        decreases len - i,
    {
        if a.get_char(i) != b.get_char(i) {
            return false;
        }
        i += 1;
    }
    assert(a@ =~= b@);
    true
}

/// Whether `text` begins with `prefix`.
pub fn starts_with(text: &str, prefix: &str) -> (begins: bool)
    ensures
        begins == (prefix@.len() <= text@.len() && text@.take(prefix@.len() as int) == prefix@),
{
    let len: usize = prefix.unicode_len();
    if text.unicode_len() < len {
        return false;
    }
    let mut i: usize = 0;
    while i < len
        invariant
            len == prefix@.len(),
            len <= text@.len(),
            i <= len,
            forall|k: int| 0 <= k < i ==> text@[k] == prefix@[k],
        decreases len - i,
    {
        if text.get_char(i) != prefix.get_char(i) {
            assert(text@.take(len as int)[i as int] != prefix@[i as int]);
            return false;
        }
        i += 1;
    }
    assert(text@.take(len as int) =~= prefix@);
    true
}

/// The first position of `c` in `text`.
pub fn find_char(text: &str, c: char) -> (found: Option<usize>)
    ensures
        found is None <==> position_of(text@, c) < 0,
        found matches Some(at) ==> at == position_of(text@, c),
{
    let len: usize = text.unicode_len();
    let mut i: usize = 0;
    while i < len
        invariant
            len == text@.len(),
            i <= len,
            forall|k: int| 0 <= k < i ==> text@[k] != c,
        decreases len - i,
    {
        if text.get_char(i) == c {
            proof {
                lemma_position_of(text@, c);
            }
            return Some(i);
        }
        i += 1;
    }
    proof {
        lemma_position_of(text@, c);
    }
    None
}

/// `text` without the white space at its start and at its end.
pub fn trim<'a>(text: &'a str) -> (cut: &'a str)
    ensures
        cut@ == trimmed(text@),
{
    let len: usize = text.unicode_len();
    let mut from: usize = 0;
    proof {
        lemma_trim_bounds(text@);
    }
    while from < len && is_whitespace(text.get_char(from))
        invariant
            len == text@.len(),
            from <= len,
            forall|k: int| 0 <= k < from ==> is_space(#[trigger] text@[k]),
        decreases len - from,
    {
        from += 1;
    }
    assert(from == trim_start_at(text@));
    let ghost rest = text@.skip(from as int);
    proof {
        lemma_trim_bounds(rest);
    }
    let mut to: usize = len;
    while to > from && is_whitespace(text.get_char(to - 1))
        invariant
            len == text@.len(),
            from <= to <= len,
            rest == text@.skip(from as int),
            forall|k: int| to <= k < len ==> is_space(#[trigger] text@[k]),
        decreases to,
    {
        to -= 1;
    }
    proof {
        let end = trim_end_at(rest);
        assert forall|k: int| 0 <= k < rest.len() implies rest[k] == text@[k + from] by {}
        if end > to - from {
            assert(rest[end - 1] == text@[end - 1 + from]);
            assert(is_space(text@[end - 1 + from]));
        }
        if end < to - from {
            assert(is_space(rest[to - from - 1]));
            assert(rest[to - from - 1] == text@[to - 1]);
        }
        assert(end == to - from);
        assert(rest.take(end) =~= text@.subrange(from as int, to as int));
    }
    text.substring_char(from, to)
}

/// The character of a decimal digit.
pub open spec fn digit_char(digit: nat) -> char {
    if digit == 0 {
        '0'
    } else if digit == 1 {
        '1'
    } else if digit == 2 {
        '2'
    } else if digit == 3 {
        '3'
    } else if digit == 4 {
        '4'
    } else if digit == 5 {
        '5'
    } else if digit == 6 {
        '6'
    } else if digit == 7 {
        '7'
    } else if digit == 8 {
        '8'
    } else {
        '9'
    }
}

/// `n` written in decimal, without leading zeros.
pub open spec fn decimal(n: nat) -> Seq<char>
    decreases n,
{
    if n < 10 {
        seq![digit_char(n)]
    } else {
        decimal(n / 10).push(digit_char(n % 10))
    }
}

/// A decimal digit as a string.
pub fn digit_str(digit: usize) -> (s: &'static str)
    requires
        digit < 10,
    ensures
        s@ == seq![digit_char(digit as nat)],
{
    proof {
        reveal_strlit("0");
        reveal_strlit("1");
        reveal_strlit("2");
        reveal_strlit("3");
        reveal_strlit("4");
        reveal_strlit("5");
        reveal_strlit("6");
        reveal_strlit("7");
        reveal_strlit("8");
        reveal_strlit("9");
    }
    let s = if digit == 0 {
        "0"
    } else if digit == 1 {
        "1"
    } else if digit == 2 {
        "2"
    } else if digit == 3 {
        "3"
    } else if digit == 4 {
        "4"
    } else if digit == 5 {
        "5"
    } else if digit == 6 {
        "6"
    } else if digit == 7 {
        "7"
    } else if digit == 8 {
        "8"
    } else {
        "9"
    };
    assert(s@ =~= seq![digit_char(digit as nat)]);
    s
}

/// Appends `n` in decimal to `out`.
pub fn push_decimal(out: &mut String, n: usize)
    ensures
        final(out)@ == old(out)@ + decimal(n as nat),
    decreases n,
{
    if n >= 10 {
        push_decimal(out, n / 10);
    }
    out.append(digit_str(n % 10));
    assert(out@ =~= old(out)@ + decimal(n as nat));
}

/// Appends `c` to `text`. This states of `String::push` what its
/// documentation says: the character is added at the end.
#[verifier::external_body]
pub(crate) fn push_char(text: &mut String, c: char)
    ensures
        final(text)@ == old(text)@.push(c),
{
    text.push(c);
}

/// Removes the last character of `text` and returns it; `None` if `text`
/// is empty.
pub fn pop_char(text: &mut String) -> (last: Option<char>)
    ensures
        old(text)@.len() == 0 ==> last is None && final(text)@ == old(text)@,
        old(text)@.len() > 0 ==> last == Some(old(text)@.last()) && final(text)@ == old(
            text,
        )@.drop_last(),
{
    let len: usize = text.as_str().unicode_len();
    if len == 0 {
        return None;
    }
    let last: char = text.as_str().get_char(len - 1);
    let front: String = String::from_str(text.as_str().substring_char(0, len - 1));
    assert(front@ =~= text@.drop_last());
    *text = front;
    Some(last)
}

} // verus!
