//! The output line for each string found: its text, optionally preceded by
//! the file name and the offset, separated by colons.
use vstd::prelude::*;
use vstd::utf8::encode_utf8;
use crate::extract::Hit;

verus! {

/// The ASCII digits of `n` in decimal, most significant first.
pub open spec fn decimal(n: nat) -> Seq<u8>
    decreases n,
{
    if n < 10 {
        seq![(48 + n) as u8]
    } else {
        decimal(n / 10).push((48 + n % 10) as u8)
    }
}

/// The bytes of the line for a string with text `text` at `offset` of the
/// file `filename`: `filename:offset:text`, `filename:text`, `offset:text`
/// or `text`, as the two flags ask.
pub open spec fn line_bytes(
    text: Seq<char>,
    filename: Seq<char>,
    offset: nat,
    print_file: bool,
    print_location: bool,
) -> Seq<u8> {
    let name = encode_utf8(filename) + seq![58u8];
    let place = decimal(offset) + seq![58u8];
    let body = encode_utf8(text);
    if print_file && print_location {
        name + place + body
    } else if print_file {
        name + body
    } else if print_location {
        place + body
    } else {
        body
    }
}

fn append_bytes(out: &mut Vec<u8>, src: &[u8])
    ensures
        final(out)@ == old(out)@ + src@,
{
    let mut k: usize = 0;
    while k < src.len()
        invariant
            k <= src@.len(),
            out@ == old(out)@ + src@.subrange(0, k as int),
        decreases src@.len() - k,
    {
        out.push(src[k]);
        k = k + 1;
        assert(out@ =~= old(out)@ + src@.subrange(0, k as int));
    }
    assert(src@.subrange(0, k as int) =~= src@);
}

fn append_decimal(out: &mut Vec<u8>, n: u64)
    ensures
        final(out)@ == old(out)@ + decimal(n as nat),
    decreases n,
{
    if n >= 10 {
        append_decimal(out, n / 10);
    }
    out.push((48 + n % 10) as u8);
    assert(out@ =~= old(out)@ + decimal(n as nat));
}

/// The bytes of the output line for `hit` (without a line break).
pub fn format_line(hit: &Hit, filename: &str, print_file: bool, print_location: bool) -> (r: Vec<
    u8,
>)
    ensures
        r@ == line_bytes(hit.text@, filename@, hit.offset as nat, print_file, print_location),
{
    let mut out: Vec<u8> = Vec::new();
    if print_file {
        append_bytes(&mut out, filename.as_bytes());
        out.push(58u8);
    }
    if print_location {
        append_decimal(&mut out, hit.offset as u64);
        out.push(58u8);
    }
    append_bytes(&mut out, hit.text.as_str().as_bytes());
    let ghost name = encode_utf8(filename@) + seq![58u8];
    let ghost place = decimal(hit.offset as nat) + seq![58u8];
    let ghost body = encode_utf8(hit.text@);
    assert(print_file && print_location ==> out@ =~= name + place + body);
    assert(print_file && !print_location ==> out@ =~= name + body);
    assert(!print_file && print_location ==> out@ =~= place + body);
    assert(!print_file && !print_location ==> out@ =~= body);
    out
}

} // verus!
