use vstd::prelude::*;
use vstd::string::StrSliceExecFns;

use crate::digits::{digit_char, push_char, push_two_digits, two_digits};
use crate::time::TimeOfDay;

verus! {

/// A chain's text failed to parse: some token is not a well-formed `HH:MM`
/// time of day. The whole decode fails; no prefix is accepted.
#[derive(Clone, Copy, PartialEq, Eq, Structural, Debug)]
pub struct ParseError;

/// The `HH:MM` text of one time of day: zero-padded hours, a colon,
/// zero-padded minutes.
pub open spec fn hhmm(t: TimeOfDay) -> Seq<char> {
    two_digits(t.hour as int) + seq![':'] + two_digits(t.minute as int)
}

/// The text of a whole chain: each element as `HH:MM`, joined by single
/// spaces; the empty chain encodes to the empty text.
pub open spec fn chain_of(s: Seq<TimeOfDay>) -> Seq<char>
    decreases s.len(),
{
    if s.len() == 0 {
        Seq::empty()
    } else if s.len() == 1 {
        hhmm(s[0])
    } else {
        hhmm(s[0]) + seq![' '] + chain_of(s.skip(1))
    }
}

/// Appending one element to a chain appends a space and its `HH:MM` text,
/// except onto the empty chain.
proof fn lemma_chain_push(s: Seq<TimeOfDay>, x: TimeOfDay)
    ensures
        chain_of(s.push(x)) == if s.len() == 0 {
            hhmm(x)
        } else {
            (chain_of(s) + seq![' '] + hhmm(x))
        },
    decreases s.len(),
{
    if s.len() == 0 {
        assert(s.push(x) =~= seq![x]);
    } else if s.len() == 1 {
        assert(s.push(x).skip(1) =~= seq![x]);
        assert(s.push(x)[0] == s[0]);
        assert(chain_of(seq![x]) == hhmm(seq![x][0]));
        assert(chain_of(s.push(x)) =~= chain_of(s) + seq![' '] + hhmm(x));
    } else {
        assert(s.push(x).skip(1) =~= s.skip(1).push(x));
        lemma_chain_push(s.skip(1), x);
        assert(chain_of(s.push(x)) =~= chain_of(s) + seq![' '] + hhmm(x));
    }
}

/// Encodes a chain of times of day as space-separated `HH:MM` tokens.
pub fn encode(stamps: &Vec<TimeOfDay>) -> (r: String)
    requires
        forall|i: int| 0 <= i < stamps@.len() ==> stamps@[i].valid(),
    ensures
        r@ == chain_of(stamps@),
{
    let mut s = String::new();
    let mut i: usize = 0;
    while i < stamps.len()
        invariant
            i <= stamps@.len(),
            forall|j: int| 0 <= j < stamps@.len() ==> stamps@[j].valid(),
            s@ == chain_of(stamps@.take(i as int)),
        decreases stamps@.len() - i,
    {
        let ghost pre = s@;
        if i > 0 {
            push_char(&mut s, ' ');
        }
        push_two_digits(&mut s, stamps[i].hour);
        push_char(&mut s, ':');
        push_two_digits(&mut s, stamps[i].minute);
        proof {
            lemma_chain_push(stamps@.take(i as int), stamps@[i as int]);
            assert(stamps@.take(i + 1) =~= stamps@.take(i as int).push(stamps@[i as int]));
            if i == 0 {
                assert(s@ =~= hhmm(stamps@[0]));
            } else {
                assert(s@ =~= chain_of(stamps@.take(i as int)) + seq![' '] + hhmm(
                    stamps@[i as int],
                ));
            }
        }
        i += 1;
    }
    proof {
        assert(stamps@.take(stamps@.len() as int) =~= stamps@);
    }
    s
}

/// The `HH:MM` text of one time of day.
pub fn hhmm_string(t: &TimeOfDay) -> (r: String)
    requires
        t.valid(),
    ensures
        r@ == hhmm(*t),
{
    let mut s = String::new();
    push_two_digits(&mut s, t.hour);
    push_char(&mut s, ':');
    push_two_digits(&mut s, t.minute);
    assert(s@ =~= hhmm(*t));
    s
}

/// The characters stripped from either end of a replacement text.
pub open spec fn is_whitespace(c: char) -> bool {
    c == ' ' || c == '\t' || c == '\n' || c == '\r'
}

/// The text with leading whitespace removed.
pub open spec fn trim_front(s: Seq<char>) -> Seq<char>
    decreases s.len(),
{
    if s.len() > 0 && is_whitespace(s[0]) {
        trim_front(s.skip(1))
    } else {
        s
    }
}

/// The text with trailing whitespace removed.
pub open spec fn trim_back(s: Seq<char>) -> Seq<char>
    decreases s.len(),
{
    if s.len() > 0 && is_whitespace(s.last()) {
        trim_back(s.drop_last())
    } else {
        s
    }
}

/// The text with surrounding whitespace removed.
pub open spec fn trim(s: Seq<char>) -> Seq<char> {
    trim_back(trim_front(s))
}

/// Whether the character is a decimal digit.
pub open spec fn is_digit(c: char) -> bool {
    48 <= c as u32 && c as u32 <= 57
}

/// The numeric value of a decimal digit character.
pub open spec fn digit_val(c: char) -> int {
    c as u32 - 48
}

/// A well-formed `HH:MM` token: exactly five characters, two digit pairs
/// around a colon, naming a time on the 24-hour clock.
pub open spec fn token_ok(t: Seq<char>) -> bool {
    &&& t.len() == 5
    &&& is_digit(t[0])
    &&& is_digit(t[1])
    &&& t[2] == ':'
    &&& is_digit(t[3])
    &&& is_digit(t[4])
    &&& 10 * digit_val(t[0]) + digit_val(t[1]) < 24
    &&& 10 * digit_val(t[3]) + digit_val(t[4]) < 60
}

/// The time of day a well-formed token names.
pub open spec fn token_time(t: Seq<char>) -> TimeOfDay
    recommends
        token_ok(t),
{
    TimeOfDay {
        hour: (10 * digit_val(t[0]) + digit_val(t[1])) as u8,
        minute: (10 * digit_val(t[3]) + digit_val(t[4])) as u8,
    }
}

/// The index of the first space in the text, if any.
pub open spec fn first_space(s: Seq<char>) -> Option<int>
    decreases s.len(),
{
    if s.len() == 0 {
        None
    } else if s[0] == ' ' {
        Some(0int)
    } else {
        match first_space(s.skip(1)) {
            Some(i) => Some(i + 1),
            None => None,
        }
    }
}

proof fn lemma_first_space_none(s: Seq<char>)
    requires
        forall|j: int| 0 <= j < s.len() ==> s[j] != ' ',
    ensures
        first_space(s) is None,
    decreases s.len(),
{
    if s.len() > 0 {
        lemma_first_space_none(s.skip(1));
    }
}

proof fn lemma_first_space_some(s: Seq<char>, i: int)
    requires
        0 <= i < s.len(),
        s[i] == ' ',
        forall|j: int| 0 <= j < i ==> s[j] != ' ',
    ensures
        first_space(s) == Some(i),
    decreases i,
{
    if i > 0 {
        lemma_first_space_some(s.skip(1), i - 1);
    }
}

/// Parses a trimmed, non-empty text as space-separated tokens; any token that
/// is not well-formed fails the whole parse.
pub open spec fn parse_tokens(s: Seq<char>) -> Option<Seq<TimeOfDay>>
    decreases s.len(),
{
    match first_space(s) {
        None => if token_ok(s) {
            Some(seq![token_time(s)])
        } else {
            None
        },
        Some(i) => if 0 <= i < s.len() {
            if token_ok(s.take(i)) {
                match parse_tokens(s.skip(i + 1)) {
                    Some(rest) => Some(seq![token_time(s.take(i))] + rest),
                    None => None,
                }
            } else {
                None
            }
        } else {
            None
        },
    }
}

/// What a chain text decodes to: surrounding whitespace is ignored, the empty
/// text is the empty chain, and otherwise every space-separated token must be
/// a well-formed `HH:MM` time of day.
pub open spec fn decode_spec(s: Seq<char>) -> Option<Seq<TimeOfDay>> {
    let t = trim(s);
    if t.len() == 0 {
        Some(Seq::empty())
    } else {
        parse_tokens(t)
    }
}

/// Dropping `i` leading whitespace characters, up to the first character
/// that is none, is exactly what `trim_front` removes.
proof fn lemma_trim_front_skip(s: Seq<char>, i: int)
    requires
        0 <= i <= s.len(),
        forall|j: int| 0 <= j < i ==> is_whitespace(s[j]),
        i == s.len() || !is_whitespace(s[i]),
    ensures
        trim_front(s) == s.skip(i),
    decreases i,
{
    if i == 0 {
        assert(s.skip(0) =~= s);
    } else {
        lemma_trim_front_skip(s.skip(1), i - 1);
        assert(s.skip(1).skip(i - 1) =~= s.skip(i));
    }
}

/// Keeping the first `i` characters, where everything after them is
/// whitespace and the last kept one is none, is exactly what `trim_back`
/// removes.
proof fn lemma_trim_back_take(s: Seq<char>, i: int)
    requires
        0 <= i <= s.len(),
        forall|j: int| i <= j < s.len() ==> is_whitespace(s[j]),
        i == 0 || !is_whitespace(s[i - 1]),
    ensures
        trim_back(s) == s.take(i),
    decreases s.len(),
{
    if i == s.len() {
        assert(s.take(i) =~= s);
    } else {
        assert(is_whitespace(s.last()));
        lemma_trim_back_take(s.drop_last(), i);
        assert(s.drop_last().take(i) =~= s.take(i));
    }
}

/// The digit value of a character, if it is a decimal digit.
fn digit_of(c: char) -> (r: Option<u8>)
    ensures
        match r {
            Some(d) => is_digit(c) && d == digit_val(c),
            None => !is_digit(c),
        },
{
    let v = c as u32;
    if 48 <= v && v <= 57 {
        Some((v - 48) as u8)
    } else {
        None
    }
}

/// The characters of a text, in order.
fn str_chars(text: &str) -> (v: Vec<char>)
    ensures
        v@ == text@,
{
    let n = text.unicode_len();
    let mut v: Vec<char> = Vec::new();
    let mut i: usize = 0;
    while i < n
        invariant
            i <= n,
            n == text@.len(),
            v@ == text@.take(i as int),
        decreases n - i,
    {
        v.push(text.get_char(i));
        proof {
            assert(text@.take(i + 1) =~= text@.take(i as int).push(text@[i as int]));
        }
        i += 1;
    }
    proof {
        assert(text@.take(n as int) =~= text@);
    }
    v
}

/// Parses the five characters at `pos` as one `HH:MM` token.
fn parse_token(chars: &Vec<char>, pos: usize) -> (r: Option<TimeOfDay>)
    requires
        pos + 5 <= chars@.len(),
    ensures
        match r {
            Some(t) => token_ok(chars@.subrange(pos as int, pos + 5)) && t == token_time(
                chars@.subrange(pos as int, pos + 5),
            ) && t.valid(),
            None => !token_ok(chars@.subrange(pos as int, pos + 5)),
        },
{
    let ghost tok = chars@.subrange(pos as int, pos + 5);
    let n = chars.len();
    if chars[pos + 2] != ':' {
        return None;
    }
    let d0 = digit_of(chars[pos]);
    let d1 = digit_of(chars[pos + 1]);
    let d3 = digit_of(chars[pos + 3]);
    let d4 = digit_of(chars[pos + 4]);
    match (d0, d1, d3, d4) {
        (Some(h1), Some(h0), Some(m1), Some(m0)) => {
            let hour = 10 * h1 + h0;
            let minute = 10 * m1 + m0;
            if hour < 24 && minute < 60 {
                Some(TimeOfDay { hour, minute })
            } else {
                None
            }
        },
        _ => None,
    }
}

/// Decodes space-separated `HH:MM` tokens into a chain of times of day,
/// ignoring surrounding whitespace. Fails atomically: one bad token rejects
/// the whole text. The trimmed empty text decodes to the empty chain.
pub fn decode(text: &str) -> (r: Result<Vec<TimeOfDay>, ParseError>)
    ensures
        match r {
            Ok(v) => decode_spec(text@) == Some(v@) && forall|i: int|
                0 <= i < v@.len() ==> #[trigger] v@[i].valid(),
            Err(_) => decode_spec(text@) is None,
        },
{
    let chars = str_chars(text);
    let n = chars.len();

    // Trim surrounding whitespace down to `chars[start..end]`.
    let mut start: usize = 0;
    while start < n && is_ws_exec(chars[start])
        invariant
            start <= n,
            n == chars@.len(),
            forall|j: int| 0 <= j < start ==> is_whitespace(chars@[j]),
        decreases n - start,
    {
        start += 1;
    }
    let mut end: usize = n;
    while end > start && is_ws_exec(chars[end - 1])
        invariant
            start <= end <= n,
            n == chars@.len(),
            forall|j: int| 0 <= j < start ==> is_whitespace(chars@[j]),
            forall|j: int| end <= j < n ==> is_whitespace(chars@[j]),
        decreases end,
    {
        end -= 1;
    }
    let ghost trimmed = chars@.subrange(start as int, end as int);
    proof {
        lemma_trim_front_skip(chars@, start as int);
        lemma_trim_back_take(chars@.skip(start as int), end - start);
        assert(chars@.skip(start as int).take(end - start) =~= trimmed);
        assert(trim(chars@) == trimmed);
    }

    if start == end {
        let v: Vec<TimeOfDay> = Vec::new();
        proof {
            assert(decode_spec(text@) == Some(v@));
        }
        return Ok(v);
    }

    let mut out: Vec<TimeOfDay> = Vec::new();
    let mut pos = start;
    loop
        invariant
            start <= pos < end <= n,
            n == chars@.len(),
            text@ == chars@,
            trim(text@) == trimmed,
            trimmed == chars@.subrange(start as int, end as int),
            trimmed.len() > 0,
            !is_whitespace(chars@[end - 1]),
            forall|i: int| 0 <= i < out@.len() ==> #[trigger] out@[i].valid(),
            parse_tokens(trimmed) == match parse_tokens(
                chars@.subrange(pos as int, end as int),
            ) {
                Some(rest) => Some(out@ + rest),
                None => None::<Seq<TimeOfDay>>,
            },
        decreases end - pos,
    {
        let ghost rem = chars@.subrange(pos as int, end as int);
        // Scan for the space that ends the current token.
        let mut k = pos;
        while k < end && chars[k] != ' '
            invariant
                pos <= k <= end <= n,
                n == chars@.len(),
                forall|j: int| pos <= j < k ==> chars@[j] != ' ',
            decreases end - k,
        {
            k += 1;
        }
        proof {
            if k < end {
                lemma_first_space_some(rem, k - pos);
            } else {
                lemma_first_space_none(rem);
            }
        }
        if k == end {
            // Last token.
            if k - pos != 5 {
                return Err(ParseError);
            }
            match parse_token(&chars, pos) {
                Some(t) => {
                    proof {
                        assert(chars@.subrange(pos as int, pos + 5) =~= rem);
                        assert(out@ + seq![token_time(rem)] =~= out@.push(t));
                    }
                    out.push(t);
                    return Ok(out);
                },
                None => {
                    proof {
                        if rem.len() == 5 {
                            assert(chars@.subrange(pos as int, pos + 5) =~= rem);
                        }
                    }
                    return Err(ParseError);
                },
            }
        } else {
            // A token followed by a space.
            let ghost rest = chars@.subrange(k + 1, end as int);
            proof {
                assert(rem.skip(k - pos + 1) =~= rest);
            }
            if k - pos != 5 {
                proof {
                    assert(rem.take(k - pos).len() != 5);
                }
                return Err(ParseError);
            }
            match parse_token(&chars, pos) {
                Some(t) => {
                    proof {
                        assert(chars@.subrange(pos as int, pos + 5) =~= rem.take(k - pos));
                        assert(forall|r: Seq<TimeOfDay>|
                            out@ + (seq![t] + r) =~= (out@.push(t) + r));
                    }
                    out.push(t);
                    pos = k + 1;
                    proof {
                        assert(pos < end);
                    }
                },
                None => {
                    proof {
                        assert(chars@.subrange(pos as int, pos + 5) =~= rem.take(k - pos));
                    }
                    return Err(ParseError);
                },
            }
        }
    }
}

/// The `HH:MM` text of a valid time of day is a well-formed token naming
/// exactly that time, and none of its characters is whitespace or a space.
proof fn lemma_hhmm_token(t: TimeOfDay)
    requires
        t.valid(),
    ensures
        hhmm(t).len() == 5,
        token_ok(hhmm(t)),
        token_time(hhmm(t)) == t,
        forall|i: int| 0 <= i < 5 ==> !is_whitespace(#[trigger] hhmm(t)[i]),
{
    let h = hhmm(t);
    assert(h[0] == digit_char(t.hour as int / 10));
    assert(h[1] == digit_char(t.hour as int % 10));
    assert(h[2] == ':');
    assert(h[3] == digit_char(t.minute as int / 10));
    assert(h[4] == digit_char(t.minute as int % 10));
    assert(10 * digit_val(h[0]) + digit_val(h[1]) == t.hour);
    assert(10 * digit_val(h[3]) + digit_val(h[4]) == t.minute);
    assert(token_time(h) == t);
}

/// A non-empty chain's text starts and ends with a digit, so trimming
/// leaves it unchanged.
proof fn lemma_chain_edges(s: Seq<TimeOfDay>)
    requires
        s.len() > 0,
        forall|i: int| 0 <= i < s.len() ==> #[trigger] s[i].valid(),
    ensures
        chain_of(s).len() > 0,
        !is_whitespace(chain_of(s)[0]),
        !is_whitespace(chain_of(s).last()),
        trim(chain_of(s)) == chain_of(s),
    decreases s.len(),
{
    let c = chain_of(s);
    lemma_hhmm_token(s[0]);
    if s.len() == 1 {
        assert(c =~= hhmm(s[0]));
    } else {
        lemma_chain_edges(s.skip(1));
        assert(c[0] == hhmm(s[0])[0]);
        assert(c.last() == chain_of(s.skip(1)).last());
    }
    assert(trim_front(c) == c);
    assert(trim_back(c) == c);
}

/// Parsing the text of a non-empty chain of valid times gives back the chain.
proof fn lemma_parse_chain(s: Seq<TimeOfDay>)
    requires
        s.len() > 0,
        forall|i: int| 0 <= i < s.len() ==> #[trigger] s[i].valid(),
    ensures
        parse_tokens(chain_of(s)) == Some(s),
    decreases s.len(),
{
    let c = chain_of(s);
    lemma_hhmm_token(s[0]);
    if s.len() == 1 {
        lemma_first_space_none(c);
        assert(c =~= hhmm(s[0]));
        assert(parse_tokens(c) == Some(seq![token_time(c)]));
        assert(seq![s[0]] =~= s);
    } else {
        assert(c == hhmm(s[0]) + seq![' '] + chain_of(s.skip(1)));
        assert(forall|j: int| 0 <= j < 5 ==> c[j] == #[trigger] hhmm(s[0])[j]);
        assert(c[5] == ' ');
        lemma_first_space_some(c, 5);
        assert(c.take(5) =~= hhmm(s[0]));
        assert(c.skip(6) =~= chain_of(s.skip(1)));
        lemma_parse_chain(s.skip(1));
        assert(parse_tokens(c) == Some(seq![s[0]] + s.skip(1)));
        assert(seq![s[0]] + s.skip(1) =~= s);
    }
}

/// Law: a decode of an encode gives the chain back. For every in-order chain
/// of valid times of day, decoding its encoded text yields exactly the
/// original chain.
pub proof fn lemma_decode_encode(s: Seq<TimeOfDay>)
    requires
        forall|i: int| 0 <= i < s.len() ==> #[trigger] s[i].valid(),
        crate::time::non_decreasing(s),
    ensures
        decode_spec(chain_of(s)) == Some(s),
{
    if s.len() == 0 {
        assert(chain_of(s) =~= Seq::<char>::empty());
        assert(trim(Seq::<char>::empty()) == Seq::<char>::empty());
        assert(decode_spec(chain_of(s)) == Some(Seq::<TimeOfDay>::empty()));
        assert(s =~= Seq::<TimeOfDay>::empty());
    } else {
        lemma_chain_edges(s);
        lemma_parse_chain(s);
    }
}

/// Whether the character is stripped by trimming.
fn is_ws_exec(c: char) -> (r: bool)
    ensures
        r == is_whitespace(c),
{
    c == ' ' || c == '\t' || c == '\n' || c == '\r'
}

} // verus!
