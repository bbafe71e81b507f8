use vstd::prelude::*;

use crate::digits::{dec_str, push_char, push_dec, push_two_digits, two_digits};
use crate::time::TimeSpan;

verus! {

/// `H:MM:SS` text for a non-negative span of `m` minutes: hours at natural
/// width, minutes zero-padded, and seconds always zero at minute resolution.
pub open spec fn span_magnitude_str(m: nat) -> Seq<char> {
    dec_str(m / 60) + seq![':'] + two_digits((m % 60) as int) + seq![':', '0', '0']
}

/// Text for a signed span of `m` minutes: the magnitude's text, with a single
/// leading `-` when the span is negative. The sign is never split across
/// fields and never doubled.
pub open spec fn span_str(m: int) -> Seq<char> {
    if m < 0 {
        seq!['-'] + span_magnitude_str((-m) as nat)
    } else {
        span_magnitude_str(m as nat)
    }
}

/// Formats a signed span as `H:MM:SS`, prefixing `-` exactly when negative.
pub fn format_span(span: &TimeSpan) -> (r: String)
    ensures
        r@ == span_str(span.minutes as int),
{
    let mut s = String::new();
    let mag: u64;
    if span.minutes < 0 {
        push_char(&mut s, '-');
        mag = (-(span.minutes as i128)) as u64;
    } else {
        mag = span.minutes as u64;
    }
    push_dec(&mut s, mag / 60);
    push_char(&mut s, ':');
    push_two_digits(&mut s, (mag % 60) as u8);
    push_char(&mut s, ':');
    push_char(&mut s, '0');
    push_char(&mut s, '0');
    assert(s@ =~= span_str(span.minutes as int));
    s
}

} // verus!
