//! The canonical encoding of a node and its SHA-256 digest.
//!
//! A node is encoded as the JSON text
//! `{"transaction":{"id":..,"from":..,"to":..,"amount":..,"timestamp":..},"left_hash":..,"right_hash":..,"height":..}`
//! with no whitespace, an absent child's digest written as the string `"0"`,
//! and an absent timestamp as `null`. The digest is SHA-256 of the UTF-8 bytes
//! of that text, written as 64 lowercase hexadecimal digits.

use sha2::Digest;
use vstd::prelude::*;

verus! {

/// The JSON string literal (quoted and escaped) that serde_json writes for `s`.
pub uninterp spec fn json_string_of(s: Seq<char>) -> Seq<char>;

/// SHA-256 of the UTF-8 bytes of `s`, as 64 lowercase hexadecimal digits.
pub uninterp spec fn sha256_hex_of(s: Seq<char>) -> Seq<char>;

pub open spec fn digit_char(d: nat) -> char {
    if d == 0 { '0' } else if d == 1 { '1' } else if d == 2 { '2' } else if d == 3 { '3' }
    else if d == 4 { '4' } else if d == 5 { '5' } else if d == 6 { '6' } else if d == 7 { '7' }
    else if d == 8 { '8' } else { '9' }
}

/// The decimal digits of `n`, without leading zeros.
pub open spec fn decimal(n: nat) -> Seq<char>
    decreases n,
{
    if n < 10 {
        seq![digit_char(n)]
    } else {
        decimal(n / 10).push(digit_char(n % 10))
    }
}

/// A signed integer in decimal, with a leading `-` when negative.
pub open spec fn signed_decimal(n: int) -> Seq<char> {
    if n < 0 {
        seq!['-'] + decimal((-n) as nat)
    } else {
        decimal(n as nat)
    }
}

pub open spec fn is_hex_digit(c: char) -> bool {
    ('0' <= c && c <= '9') || ('a' <= c && c <= 'f')
}

/// What every digest looks like: 64 lowercase hexadecimal digits.
pub open spec fn is_digest_text(s: Seq<char>) -> bool {
    &&& s.len() == 64
    &&& forall|i: int| 0 <= i < s.len() ==> is_hex_digit(#[trigger] s[i])
}

/// Relies on serde_json::to_string on a `&str`: it writes the JSON string
/// literal for it, and never fails on a string.
#[verifier::external_body]
fn json_string(s: &str) -> (r: String)
    ensures
        r@ == json_string_of(s@),
{
    serde_json::to_string(s).unwrap_or_default()
}

/// The one-character text of the decimal digit `d`.
fn digit_text(d: u64) -> (r: &'static str)
    requires
        d < 10,
    ensures
        r@ == seq![digit_char(d as nat)],
{
    proof {
        reveal_strlit("0");
        reveal_strlit("1");
        reveal_strlit("2");
        reveal_strlit("3");
        reveal_strlit("4");
        reveal_strlit("5");
        reveal_strlit("6");
        reveal_strlit("7");
        reveal_strlit("8");
        reveal_strlit("9");
    }
    if d == 0 { "0" } else if d == 1 { "1" } else if d == 2 { "2" } else if d == 3 { "3" }
    else if d == 4 { "4" } else if d == 5 { "5" } else if d == 6 { "6" } else if d == 7 { "7" }
    else if d == 8 { "8" } else { "9" }
}

/// Appends `n` in decimal to `out`.
pub fn push_decimal(out: &mut String, n: u64)
    ensures
        final(out)@ == old(out)@ + decimal(n as nat),
    decreases n,
{
    if n >= 10 {
        push_decimal(out, n / 10);
    }
    out.append(digit_text(n % 10));
    assert(final(out)@ =~= old(out)@ + decimal(n as nat));
}

/// Appends `n` in decimal to `out`, with a leading `-` when negative.
pub fn push_signed_decimal(out: &mut String, n: i32)
    ensures
        final(out)@ == old(out)@ + signed_decimal(n as int),
{
    if n < 0 {
        proof {
            reveal_strlit("-");
        }
        out.append("-");
        let m: i64 = n as i64;
        push_decimal(out, (-m) as u64);
        assert(final(out)@ =~= old(out)@ + signed_decimal(n as int));
    } else {
        push_decimal(out, n as u64);
    }
}

/// Relies on sha2::Sha256::digest over the UTF-8 bytes of `s`, rendered with
/// generic-array's `LowerHex`: two lowercase hexadecimal digits per byte of
/// the 32-byte digest.
#[verifier::external_body]
pub(crate) fn sha256_hex(s: &str) -> (r: String)
    ensures
        r@ == sha256_hex_of(s@),
        is_digest_text(r@),
{
    format!("{:x}", sha2::Sha256::digest(s.as_bytes()))
}

/// The canonical text of a transaction's fields in their declared order.
pub open spec fn transaction_text(
    id: Seq<char>,
    from: Seq<char>,
    to: Seq<char>,
    amount: u64,
    timestamp: Option<u64>,
) -> Seq<char> {
    "{\"id\":"@ + json_string_of(id) + ",\"from\":"@ + json_string_of(from) + ",\"to\":"@
        + json_string_of(to) + ",\"amount\":"@ + decimal(amount as nat) + ",\"timestamp\":"@
        + match timestamp {
        Some(t) => decimal(t as nat),
        None => "null"@,
    } + "}"@
}

/// The canonical text of a node: its transaction, then the left and right
/// digests, then its height.
pub open spec fn node_text(tx: Seq<char>, left: Seq<char>, right: Seq<char>, height: i32) -> Seq<
    char,
> {
    "{\"transaction\":"@ + tx + ",\"left_hash\":"@ + json_string_of(left) + ",\"right_hash\":"@
        + json_string_of(right) + ",\"height\":"@ + signed_decimal(height as int) + "}"@
}

/// Appends the canonical text of a transaction to `out`.
pub fn push_transaction_text(
    out: &mut String,
    id: &str,
    from: &str,
    to: &str,
    amount: u64,
    timestamp: Option<u64>,
)
    ensures
        final(out)@ == old(out)@ + transaction_text(id@, from@, to@, amount, timestamp),
{
    out.append("{\"id\":");
    out.append(json_string(id).as_str());
    out.append(",\"from\":");
    out.append(json_string(from).as_str());
    out.append(",\"to\":");
    out.append(json_string(to).as_str());
    out.append(",\"amount\":");
    push_decimal(out, amount);
    out.append(",\"timestamp\":");
    match timestamp {
        Some(t) => push_decimal(out, t),
        None => out.append("null"),
    }
    out.append("}");
    assert(final(out)@ =~= old(out)@ + transaction_text(id@, from@, to@, amount, timestamp));
}

/// The canonical text of a node whose transaction text is `tx`.
pub fn node_text_of(tx: &str, left: &str, right: &str, height: i32) -> (r: String)
    ensures
        r@ == node_text(tx@, left@, right@, height),
{
    let mut out = String::new();
    out.append("{\"transaction\":");
    out.append(tx);
    out.append(",\"left_hash\":");
    out.append(json_string(left).as_str());
    out.append(",\"right_hash\":");
    out.append(json_string(right).as_str());
    out.append(",\"height\":");
    push_signed_decimal(&mut out, height);
    out.append("}");
    assert(out@ =~= node_text(tx@, left@, right@, height));
    out
}

} // verus!
