//! Response formatting: a status line, a `Content-Length` header whose
//! digits denote exactly the byte length of the body, a blank line, and the
//! body.
//!
//! [`spec_response`] fixes the wire layout byte for byte, and
//! [`lemma_content_length_exact`] proves that the digits written into the
//! header decode back to the body's exact byte count.

use vstd::prelude::*;

verus! {

/// The ASCII digit for `d` (one decimal digit).
pub open spec fn spec_digit(d: nat) -> u8 {
    (48 + d) as u8
}

/// The canonical decimal numeral of `n`: most significant digit first, no
/// leading zeros (a single `0` for zero itself).
pub open spec fn spec_decimal(n: nat) -> Seq<u8>
    decreases n,
{
    if n < 10 {
        seq![spec_digit(n)]
    } else {
        spec_decimal(n / 10).push(spec_digit(n % 10))
    }
}

/// The number a digit string denotes, most significant digit first.
pub open spec fn spec_decimal_value(digits: Seq<u8>) -> nat
    decreases digits.len(),
{
    if digits.len() == 0 {
        0
    } else {
        spec_decimal_value(digits.drop_last()) * 10 + (digits.last() - 48) as nat
    }
}

/// The bytes of the header label `Content-Length:` followed by nothing.
pub open spec fn spec_content_length_label() -> Seq<u8> {
    seq![
        'C' as u8,
        'o' as u8,
        'n' as u8,
        't' as u8,
        'e' as u8,
        'n' as u8,
        't' as u8,
        '-' as u8,
        'L' as u8,
        'e' as u8,
        'n' as u8,
        'g' as u8,
        't' as u8,
        'h' as u8,
        ':' as u8,
    ]
}

/// A full response: `<status line>\nContent-Length:<N>\n\n<body>`, where
/// `<N>` is the decimal numeral of the body's byte length.
pub open spec fn spec_response(status: Seq<u8>, body: Seq<u8>) -> Seq<u8> {
    status + seq!['\n' as u8] + spec_content_length_label() + spec_decimal(body.len())
        + seq!['\n' as u8, '\n' as u8] + body
}

/// The status line bytes for a matched route: `HTTP/1.1 200 OK`.
pub open spec fn spec_ok_status() -> Seq<u8> {
    seq![
        'H' as u8,
        'T' as u8,
        'T' as u8,
        'P' as u8,
        '/' as u8,
        '1' as u8,
        '.' as u8,
        '1' as u8,
        ' ' as u8,
        '2' as u8,
        '0' as u8,
        '0' as u8,
        ' ' as u8,
        'O' as u8,
        'K' as u8,
    ]
}

/// The status line bytes for an unmatched route: `HTTP/1.1 404 NOT FOUND`.
pub open spec fn spec_not_found_status() -> Seq<u8> {
    seq![
        'H' as u8,
        'T' as u8,
        'T' as u8,
        'P' as u8,
        '/' as u8,
        '1' as u8,
        '.' as u8,
        '1' as u8,
        ' ' as u8,
        '4' as u8,
        '0' as u8,
        '4' as u8,
        ' ' as u8,
        'N' as u8,
        'O' as u8,
        'T' as u8,
        ' ' as u8,
        'F' as u8,
        'O' as u8,
        'U' as u8,
        'N' as u8,
        'D' as u8,
    ]
}

/// The decimal numeral of `n` always decodes back to `n`: the digits a
/// response carries after `Content-Length:` denote the number they were
/// computed from.
pub proof fn lemma_decimal_value(n: nat)
    ensures
        spec_decimal_value(spec_decimal(n)) == n,
    decreases n,
{
    if n < 10 {
        assert(spec_decimal(n) == seq![spec_digit(n)]);
        assert(spec_decimal(n).drop_last() =~= Seq::<u8>::empty());
        assert(spec_decimal_value(spec_decimal(n)) == spec_decimal_value(Seq::<u8>::empty())
            * 10 + (spec_digit(n) - 48) as nat);
    } else {
        lemma_decimal_value(n / 10);
        vstd::arithmetic::div_mod::lemma_fundamental_div_mod(n as int, 10);
        assert(spec_decimal(n) == spec_decimal(n / 10).push(spec_digit(n % 10)));
        assert(spec_decimal(n).drop_last() =~= spec_decimal(n / 10));
        assert(spec_decimal(n).last() == spec_digit(n % 10));
        assert(spec_decimal_value(spec_decimal(n)) == n / 10 * 10 + (spec_digit(n % 10)
            - 48) as nat);
    }
}

/// Every formatted response carries a `Content-Length` equal to the exact
/// byte count of its body: reading the response back, the digit run that
/// follows the `Content-Length:` label decodes to precisely the length of
/// the body bytes that follow the blank line.
pub proof fn lemma_content_length_exact(status: Seq<u8>, body: Seq<u8>)
    ensures
        ({
            let r = spec_response(status, body);
            let digits_at = status.len() + 1 + spec_content_length_label().len();
            let digits = r.subrange(
                digits_at as int,
                digits_at + spec_decimal(body.len()).len() as int,
            );
            spec_decimal_value(digits) == body.len() && r.subrange(
                (r.len() - body.len()) as int,
                r.len() as int,
            ) == body
        }),
{
    lemma_decimal_value(body.len());
    let r = spec_response(status, body);
    let digits_at = status.len() + 1 + spec_content_length_label().len();
    assert(r.subrange(digits_at as int, digits_at + spec_decimal(body.len()).len() as int)
        =~= spec_decimal(body.len()));
    assert(r.subrange((r.len() - body.len()) as int, r.len() as int) =~= body);
}

/// Append every byte of `src` to `out`.
fn push_all(out: &mut Vec<u8>, src: &[u8])
    ensures
        final(out)@ == old(out)@ + src@,
{
    let ghost start = out@;
    let mut i: usize = 0;
    while i < src.len()
        invariant
            0 <= i <= src@.len(),
            out@ == start + src@.take(i as int),
        decreases src@.len() - i,
    {
        out.push(src[i]);
        proof {
            assert(start + src@.take(i + 1) =~= (start + src@.take(i as int)).push(
                src@[i as int],
            ));
        }
        i = i + 1;
    }
    proof {
        assert(src@.take(src@.len() as int) =~= src@);
    }
}

/// The decimal numeral of `n`, most significant digit first.
fn decimal_bytes(n: usize) -> (r: Vec<u8>)
    ensures
        r@ == spec_decimal(n as nat),
{
    let mut digits: Vec<u8> = Vec::new();
    let mut cur: usize = n;
    // Least significant digit first.
    loop
        invariant_except_break
            digits@.len() == 0 ==> cur == n,
            digits@.len() > 0 ==> cur > 0 && spec_decimal(n as nat) == spec_decimal(
                cur as nat,
            ) + digits@.reverse(),
        ensures
            spec_decimal(n as nat) == digits@.reverse(),
        decreases cur + if digits@.len() == 0 { 1int } else { 0int },
    {
        let d: u8 = 48 + (cur % 10) as u8;
        let ghost before = digits@;
        digits.push(d);
        proof {
            vstd::arithmetic::div_mod::lemma_fundamental_div_mod(cur as int, 10);
            assert(digits@.reverse() =~= seq![d] + before.reverse());
            if cur >= 10 {
                assert(spec_decimal(cur as nat) == spec_decimal((cur / 10) as nat).push(
                    spec_digit((cur % 10) as nat),
                ));
                assert(spec_decimal(cur as nat) =~= spec_decimal((cur / 10) as nat) + seq![d]);
                assert(spec_decimal((cur / 10) as nat) + digits@.reverse() =~= spec_decimal(
                    cur as nat,
                ) + before.reverse());
            } else {
                assert(spec_decimal(cur as nat) =~= seq![d]);
                if before.len() == 0 {
                    assert(spec_decimal(n as nat) =~= digits@.reverse());
                } else {
                    assert(spec_decimal(n as nat) =~= digits@.reverse());
                }
            }
        }
        cur = cur / 10;
        if cur == 0 {
            break;
        }
        proof {
            assert(spec_decimal(n as nat) == spec_decimal(cur as nat) + digits@.reverse());
        }
    }
    // Reverse into most-significant-first order.
    let mut out: Vec<u8> = Vec::new();
    let total = digits.len();
    let mut j: usize = 0;
    while j < total
        invariant
            0 <= j <= total,
            total == digits@.len(),
            out@ =~= digits@.reverse().take(j as int),
        decreases total - j,
    {
        out.push(digits[total - 1 - j]);
        proof {
            assert(digits@.reverse()[j as int] == digits@[total - 1 - j]);
            assert(digits@.reverse().take(j + 1) =~= digits@.reverse().take(j as int).push(
                digits@[total - 1 - j],
            ));
        }
        j = j + 1;
    }
    proof {
        assert(digits@.reverse().take(total as int) =~= digits@.reverse());
    }
    out
}

/// Format a complete response for the given status line and body, with a
/// `Content-Length` header equal to the exact byte length of the body.
pub fn format_response(status: &[u8], body: &[u8]) -> (r: Vec<u8>)
    ensures
        r@ == spec_response(status@, body@),
{
    let mut out: Vec<u8> = Vec::new();
    push_all(&mut out, status);
    out.push('\n' as u8);
    let mut label: Vec<u8> = Vec::new();
    label.push('C' as u8);
    label.push('o' as u8);
    label.push('n' as u8);
    label.push('t' as u8);
    label.push('e' as u8);
    label.push('n' as u8);
    label.push('t' as u8);
    label.push('-' as u8);
    label.push('L' as u8);
    label.push('e' as u8);
    label.push('n' as u8);
    label.push('g' as u8);
    label.push('t' as u8);
    label.push('h' as u8);
    label.push(':' as u8);
    proof {
        assert(label@ =~= spec_content_length_label());
    }
    push_all(&mut out, label.as_slice());
    let digits = decimal_bytes(body.len());
    push_all(&mut out, digits.as_slice());
    out.push('\n' as u8);
    out.push('\n' as u8);
    push_all(&mut out, body);
    proof {
        assert(out@ =~= spec_response(status@, body@));
    }
    out
}

/// The status line `HTTP/1.1 200 OK`, as bytes.
fn ok_status() -> (r: Vec<u8>)
    ensures
        r@ == spec_ok_status(),
{
    let mut s: Vec<u8> = Vec::new();
    s.push('H' as u8);
    s.push('T' as u8);
    s.push('T' as u8);
    s.push('P' as u8);
    s.push('/' as u8);
    s.push('1' as u8);
    s.push('.' as u8);
    s.push('1' as u8);
    s.push(' ' as u8);
    s.push('2' as u8);
    s.push('0' as u8);
    s.push('0' as u8);
    s.push(' ' as u8);
    s.push('O' as u8);
    s.push('K' as u8);
    proof {
        assert(s@ =~= spec_ok_status());
    }
    s
}

/// The status line `HTTP/1.1 404 NOT FOUND`, as bytes.
fn not_found_status() -> (r: Vec<u8>)
    ensures
        r@ == spec_not_found_status(),
{
    let mut s: Vec<u8> = Vec::new();
    s.push('H' as u8);
    s.push('T' as u8);
    s.push('T' as u8);
    s.push('P' as u8);
    s.push('/' as u8);
    s.push('1' as u8);
    s.push('.' as u8);
    s.push('1' as u8);
    s.push(' ' as u8);
    s.push('4' as u8);
    s.push('0' as u8);
    s.push('4' as u8);
    s.push(' ' as u8);
    s.push('N' as u8);
    s.push('O' as u8);
    s.push('T' as u8);
    s.push(' ' as u8);
    s.push('F' as u8);
    s.push('O' as u8);
    s.push('U' as u8);
    s.push('N' as u8);
    s.push('D' as u8);
    proof {
        assert(s@ =~= spec_not_found_status());
    }
    s
}

/// The `200 OK` response a matched route's handler writes for the given
/// body.
pub fn handle_home(body: &[u8]) -> (r: Vec<u8>)
    ensures
        r@ == spec_response(spec_ok_status(), body@),
{
    let status = ok_status();
    format_response(status.as_slice(), body)
}

/// The `404 NOT FOUND` response the fallback handler writes for the given
/// body.
pub fn handle_not_found(body: &[u8]) -> (r: Vec<u8>)
    ensures
        r@ == spec_response(spec_not_found_status(), body@),
{
    let status = not_found_status();
    format_response(status.as_slice(), body)
}

} // verus!
