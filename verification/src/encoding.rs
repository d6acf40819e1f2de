//! Helpers shared by the wire protocol and the election plane: big-endian
//! framing, decimal and hexadecimal rendering, and lexicographic order on
//! strings.

use vstd::prelude::*;
use vstd::string::{StrSliceExecFns, StringExecFns};

verus! {

// --- 32-bit big-endian framing ---------------------------------------------

pub open spec fn u32_be_seq(x: u32) -> Seq<u8> {
    seq![(x >> 24) as u8, (x >> 16) as u8, (x >> 8) as u8, x as u8]
}

pub open spec fn u32_from_be_seq(b: Seq<u8>) -> u32
    recommends
        b.len() == 4,
{
    ((b[0] as u32) << 24) | ((b[1] as u32) << 16) | ((b[2] as u32) << 8) | (b[3] as u32)
}

pub fn u32_to_be(x: u32) -> (r: Vec<u8>)
    ensures
        r@ =~= u32_be_seq(x),
{
    let mut v: Vec<u8> = Vec::new();
    v.push(#[verifier::truncate] ((x >> 24) as u8));
    v.push(#[verifier::truncate] ((x >> 16) as u8));
    v.push(#[verifier::truncate] ((x >> 8) as u8));
    v.push(#[verifier::truncate] (x as u8));
    v
}

pub fn u32_from_be(b: &[u8]) -> (r: u32)
    requires
        b@.len() == 4,
    ensures
        r == u32_from_be_seq(b@),
{
    ((b[0] as u32) << 24u32) | ((b[1] as u32) << 16u32) | ((b[2] as u32) << 8u32) | (b[3] as u32)
}

/// Reading back the four big-endian bytes of a 32-bit id yields the id.
pub proof fn lemma_u32_be_round_trip(x: u32)
    ensures
        u32_from_be_seq(u32_be_seq(x)) == x,
{
    assert((((x >> 24) as u8 as u32) << 24) | (((x >> 16) as u8 as u32) << 16) | (((x
        >> 8) as u8 as u32) << 8) | ((x as u8) as u32) == x) by (bit_vector);
}


pub open spec fn u16_be_seq(x: u16) -> Seq<u8> {
    seq![(x >> 8) as u8, x as u8]
}

pub open spec fn u16_from_be_seq(b: Seq<u8>) -> u16
    recommends
        b.len() == 2,
{
    ((b[0] as u16) << 8) | (b[1] as u16)
}

pub fn u16_to_be(x: u16) -> (r: Vec<u8>)
    ensures
        r@ =~= u16_be_seq(x),
{
    let mut v: Vec<u8> = Vec::new();
    v.push(#[verifier::truncate] ((x >> 8) as u8));
    v.push(#[verifier::truncate] (x as u8));
    v
}

pub fn u16_from_be(b: &[u8]) -> (r: u16)
    requires
        b@.len() == 2,
    ensures
        r == u16_from_be_seq(b@),
{
    ((b[0] as u16) << 8u16) | (b[1] as u16)
}

/// Reading back the two big-endian bytes of a port number yields the port.
pub proof fn lemma_u16_be_round_trip(x: u16)
    ensures
        u16_from_be_seq(u16_be_seq(x)) == x,
{
    assert((((x >> 8) as u8 as u16) << 8) | ((x as u8) as u16) == x) by (bit_vector);
}

// --- decimal and hexadecimal rendering --------------------------------------

pub open spec fn digit_char(d: nat) -> char
    recommends
        d < 16,
{
    if d == 0 {
        '0'
    } else if d == 1 {
        '1'
    } else if d == 2 {
        '2'
    } else if d == 3 {
        '3'
    } else if d == 4 {
        '4'
    } else if d == 5 {
        '5'
    } else if d == 6 {
        '6'
    } else if d == 7 {
        '7'
    } else if d == 8 {
        '8'
    } else if d == 9 {
        '9'
    } else if d == 10 {
        'a'
    } else if d == 11 {
        'b'
    } else if d == 12 {
        'c'
    } else if d == 13 {
        'd'
    } else if d == 14 {
        'e'
    } else {
        'f'
    }
}

/// The decimal digits of `n`, most significant first.
pub open spec fn dec_chars(n: nat) -> Seq<char>
    decreases n,
{
    if n < 10 {
        seq![digit_char(n)]
    } else {
        dec_chars(n / 10).push(digit_char(n % 10))
    }
}

fn digit_str(d: u64) -> (r: &'static str)
    requires
        d < 16,
    ensures
        r@ =~= seq![digit_char(d as nat)],
{
    proof {
        reveal_strlit("0");
        reveal_strlit("1");
        reveal_strlit("2");
        reveal_strlit("3");
        reveal_strlit("4");
        reveal_strlit("5");
        reveal_strlit("6");
        reveal_strlit("7");
        reveal_strlit("8");
        reveal_strlit("9");
        reveal_strlit("a");
        reveal_strlit("b");
        reveal_strlit("c");
        reveal_strlit("d");
        reveal_strlit("e");
        reveal_strlit("f");
    }
    if d == 0 {
        "0"
    } else if d == 1 {
        "1"
    } else if d == 2 {
        "2"
    } else if d == 3 {
        "3"
    } else if d == 4 {
        "4"
    } else if d == 5 {
        "5"
    } else if d == 6 {
        "6"
    } else if d == 7 {
        "7"
    } else if d == 8 {
        "8"
    } else if d == 9 {
        "9"
    } else if d == 10 {
        "a"
    } else if d == 11 {
        "b"
    } else if d == 12 {
        "c"
    } else if d == 13 {
        "d"
    } else if d == 14 {
        "e"
    } else {
        "f"
    }
}

/// Renders `n` in decimal.
pub fn u64_to_dec_str(n: u64) -> (r: String)
    ensures
        r@ =~= dec_chars(n as nat),
    decreases n,
{
    if n < 10 {
        digit_str(n).to_owned()
    } else {
        let mut s = u64_to_dec_str(n / 10);
        s.append(digit_str(n % 10));
        s
    }
}

/// The two lower-case hexadecimal digits of one byte.
pub open spec fn hex_pair(b: u8) -> Seq<char> {
    seq![digit_char((b >> 4) as nat), digit_char((b & 0xf) as nat)]
}

/// The hexadecimal text of a byte string, two digits per byte.
pub open spec fn bytes_hex_chars(s: Seq<u8>) -> Seq<char>
    decreases s.len(),
{
    if s.len() == 0 {
        Seq::empty()
    } else {
        bytes_hex_chars(s.drop_last()) + hex_pair(s.last())
    }
}

/// Renders a byte string in hexadecimal, two lower-case digits per byte.
pub fn bytes_to_hex_str(data: &[u8]) -> (r: String)
    ensures
        r@ =~= bytes_hex_chars(data@),
{
    let mut r = String::new();
    let mut i: usize = 0;
    proof {
        assert(data@.subrange(0, 0) =~= Seq::<u8>::empty());
    }
    while i < data.len()
        invariant
            i <= data@.len(),
            r@ =~= bytes_hex_chars(data@.subrange(0, i as int)),
        decreases data@.len() - i,
    {
        let b = data[i];
        proof {
            assert(b >> 4 < 16 && b & 0xf < 16) by (bit_vector);
            assert(data@.subrange(0, i + 1).drop_last() =~= data@.subrange(0, i as int));
            assert(data@.subrange(0, i + 1).last() == data@[i as int]);
        }
        r.append(digit_str((b >> 4) as u64));
        r.append(digit_str((b & 0xf) as u64));
        i += 1;
    }
    proof {
        assert(data@.subrange(0, data@.len() as int) =~= data@);
    }
    r
}

// --- lexicographic order on strings -------------------------------------------

pub open spec fn lex_lt(a: Seq<char>, b: Seq<char>) -> bool
    decreases a.len(),
{
    if b.len() == 0 {
        false
    } else if a.len() == 0 {
        true
    } else if (a[0] as u32) < (b[0] as u32) {
        true
    } else if (a[0] as u32) > (b[0] as u32) {
        false
    } else {
        lex_lt(a.drop_first(), b.drop_first())
    }
}

pub fn str_lex_lt(a: &str, b: &str) -> (r: bool)
    ensures
        r == lex_lt(a@, b@),
{
    let alen = a.unicode_len();
    let blen = b.unicode_len();
    let mut i: usize = 0;
    proof {
        assert(a@.subrange(0, a@.len() as int) =~= a@);
        assert(b@.subrange(0, b@.len() as int) =~= b@);
    }
    loop
        invariant
            i <= alen,
            i <= blen,
            alen == a@.len(),
            blen == b@.len(),
            lex_lt(a@, b@) == lex_lt(
                a@.subrange(i as int, alen as int),
                b@.subrange(i as int, blen as int),
            ),
        ensures
            lex_lt(a@, b@) == (if i >= alen || i >= blen {
                alen < blen
            } else {
                (a@[i as int] as u32) < (b@[i as int] as u32)
            }),
        decreases alen - i,
    {
        let ghost ra = a@.subrange(i as int, alen as int);
        let ghost rb = b@.subrange(i as int, blen as int);
        if i >= alen || i >= blen {
            proof {
                if i >= alen {
                    assert(ra.len() == 0);
                } else {
                    assert(rb.len() == 0);
                }
            }
            break ;
        }
        let ca = a.get_char(i) as u32;
        let cb = b.get_char(i) as u32;
        proof {
            assert(ra[0] == a@[i as int]);
            assert(rb[0] == b@[i as int]);
        }
        if ca != cb {
            break ;
        }
        proof {
            assert(ra.drop_first() =~= a@.subrange(i + 1, alen as int));
            assert(rb.drop_first() =~= b@.subrange(i + 1, blen as int));
        }
        i += 1;
    }
    if i >= alen || i >= blen {
        alen < blen
    } else {
        (a.get_char(i) as u32) < (b.get_char(i) as u32)
    }
}

/// Two strings are never each lexicographically below the other.
pub proof fn lemma_lex_lt_asymmetric(a: Seq<char>, b: Seq<char>)
    ensures
        !(lex_lt(a, b) && lex_lt(b, a)),
    decreases a.len(),
{
    if a.len() > 0 && b.len() > 0 && (a[0] as u32) == (b[0] as u32) {
        lemma_lex_lt_asymmetric(a.drop_first(), b.drop_first());
    }
}

/// Distinct strings are lexicographically ordered one way or the other.
pub proof fn lemma_lex_lt_total(a: Seq<char>, b: Seq<char>)
    ensures
        lex_lt(a, b) || lex_lt(b, a) || a =~= b,
    decreases a.len(),
{
    if a.len() > 0 && b.len() > 0 && (a[0] as u32) == (b[0] as u32) {
        lemma_lex_lt_total(a.drop_first(), b.drop_first());
        if !lex_lt(a, b) && !lex_lt(b, a) {
            assert(a.drop_first() =~= b.drop_first());
            assert forall|i: int| 0 <= i < a.len() implies a[i] == b[i] by {
                if i == 0 {
                    let x = a[0];
                    let y = b[0];
                    vstd::utf8::char_u32_cast(x, x as u32);
                    vstd::utf8::char_u32_cast(y, y as u32);
                    assert(x == y);
                } else {
                    assert(a[i] == a.drop_first()[i - 1]);
                    assert(b[i] == b.drop_first()[i - 1]);
                }
            }
            assert(a =~= b);
        }
    }
}

/// Lexicographic order is transitive.
pub proof fn lemma_lex_lt_transitive(a: Seq<char>, b: Seq<char>, c: Seq<char>)
    requires
        lex_lt(a, b),
        lex_lt(b, c),
    ensures
        lex_lt(a, c),
    decreases a.len(),
{
    if a.len() > 0 && b.len() > 0 && c.len() > 0 && (a[0] as u32) == (b[0] as u32) && (b[0] as u32)
        == (c[0] as u32) {
        lemma_lex_lt_transitive(a.drop_first(), b.drop_first(), c.drop_first());
    }
}

} // verus!
