//! Text helpers.

use vstd::prelude::*;

verus! {

/// The lower-case hexadecimal digit of a number below sixteen.
pub open spec fn hex_char(d: int) -> char {
    "0123456789abcdef"@[d]
}

/// Bytes as lower-case hexadecimal digits, two for each byte.
pub open spec fn hex_text(bytes: Seq<u8>) -> Seq<char> {
    Seq::new(
        2 * bytes.len(),
        |i: int|
            if i % 2 == 0 {
                hex_char(bytes[i / 2] as int / 16)
            } else {
                hex_char(bytes[i / 2] as int % 16)
            },
    )
}

/// The digit as a text of one character.
fn hex_digit(d: u8) -> (r: &'static str)
    requires
        d < 16,
    ensures
        r@ == seq![hex_char(d as int)],
{
    let digits: &'static str = "0123456789abcdef";
    proof {
        reveal_strlit("0123456789abcdef");
    }
    let r = digits.substring_char(d as usize, d as usize + 1);
    assert(r@ =~= seq![hex_char(d as int)]);
    r
}

/// The first `n` bytes, or all there are, as hexadecimal digits.
pub fn hex_prefix(bytes: &Vec<u8>, n: usize) -> (r: String)
    ensures
        r@ == hex_text(bytes@.take(if n < bytes@.len() {
            n as int
        } else {
            bytes@.len() as int
        })),
{
    let end: usize = if n < bytes.len() {
        n
    } else {
        bytes.len()
    };
    let mut out: String = String::new();
    let mut i: usize = 0;
    assert(out@ =~= hex_text(bytes@.take(0)));
    while i < end
        invariant
            i <= end <= bytes@.len(),
            out@ == hex_text(bytes@.take(i as int)),
        decreases end - i,
    {
        let ghost before = out@;
        let b: u8 = bytes[i];
        out.append(hex_digit(b / 16));
        out.append(hex_digit(b % 16));
        assert(out@ =~= hex_text(bytes@.take(i + 1))) by {
            let next = hex_text(bytes@.take(i + 1));
            assert forall|k: int| 0 <= k < next.len() implies out@[k] == next[k] by {
                if k < 2 * i {
                    assert(before[k] == hex_text(bytes@.take(i as int))[k]);
                }
            }
        }
        i = i + 1;
    }
    out
}

/// A number in decimal digits.
pub open spec fn decimal(n: int) -> Seq<char>
    decreases n,
{
    if n < 10 {
        seq![hex_char(n)]
    } else {
        decimal(n / 10).push(hex_char(n % 10))
    }
}

/// Computes [`decimal`].
pub fn decimal_text(n: u32) -> (r: String)
    ensures
        r@ == decimal(n as int),
    decreases n,
{
    let mut out: String = if n < 10 {
        String::new()
    } else {
        decimal_text(n / 10)
    };
    let ghost before = out@;
    out.append(hex_digit((n % 10) as u8));
    proof {
        if n < 10 {
            assert(out@ =~= seq![hex_char(n as int)]);
        } else {
            assert(out@ =~= before.push(hex_char(n as int % 10)));
        }
    }
    out
}

/// A copy of a list of texts.
pub fn copy_texts(texts: &Vec<String>) -> (r: Vec<String>)
    ensures
        r@.map_values(|s: String| s@) == texts@.map_values(|s: String| s@),
        r@.len() == texts@.len(),
{
    let mut out: Vec<String> = Vec::new();
    let mut i: usize = 0;
    while i < texts.len()
        invariant
            i <= texts@.len(),
            out@.len() == i,
            forall|k: int| 0 <= k < i ==> (#[trigger] out@[k])@ == texts@[k]@,
        decreases texts@.len() - i,
    {
        out.push(texts[i].clone());
        i = i + 1;
    }
    assert(out@.map_values(|s: String| s@) =~= texts@.map_values(|s: String| s@));
    out
}

/// A copy of bytes.
pub fn copy_bytes(bytes: &Vec<u8>) -> (r: Vec<u8>)
    ensures
        r@ == bytes@,
{
    let r = bytes.clone();
    assert(r@ =~= bytes@);
    r
}

/// Copies a slice of bytes.
pub fn copy_slice(bytes: &[u8]) -> (r: Vec<u8>)
    ensures
        r@ == bytes@,
{
    let mut out: Vec<u8> = Vec::new();
    let mut i: usize = 0;
    while i < bytes.len()
        invariant
            i <= bytes@.len(),
            out@ == bytes@.take(i as int),
        decreases bytes@.len() - i,
    {
        assert(bytes@.take(i + 1) =~= bytes@.take(i as int).push(bytes@[i as int]));
        out.push(bytes[i]);
        i = i + 1;
    }
    assert(bytes@.take(bytes@.len() as int) =~= bytes@);
    out
}

/// The `n` lowest bytes of a number, lowest first.
pub open spec fn le_digits(value: int, n: nat) -> Seq<u8>
    decreases n,
{
    if n == 0 {
        Seq::empty()
    } else {
        seq![(value % 256) as u8] + le_digits(value / 256, (n - 1) as nat)
    }
}

/// There are as many digits as asked for.
pub proof fn lemma_le_digits_len(value: int, n: nat)
    ensures
        le_digits(value, n).len() == n,
    decreases n,
{
    if n > 0 {
        lemma_le_digits_len(value / 256, (n - 1) as nat);
    }
}

/// The eight bytes of a number, lowest first.
pub fn le_bytes(value: u64) -> (r: Vec<u8>)
    ensures
        r@ == le_digits(value as int, 8),
{
    let mut out: Vec<u8> = Vec::new();
    let mut rest: u64 = value;
    let mut i: usize = 0;
    assert(out@ + le_digits(rest as int, 8) =~= le_digits(value as int, 8));
    while i < 8
        invariant
            i <= 8,
            out@ + le_digits(rest as int, (8 - i) as nat) == le_digits(value as int, 8),
        decreases 8 - i,
    {
        let ghost before = out@;
        let digit: u8 = (rest % 256) as u8;
        out.push(digit);
        proof {
            assert(before + (seq![digit] + le_digits(rest as int / 256, (7 - i) as nat))
                =~= out@ + le_digits(rest as int / 256, (7 - i) as nat));
        }
        rest = rest / 256;
        i = i + 1;
    }
    assert(out@ + le_digits(rest as int, 0) =~= out@);
    out
}

} // verus!
