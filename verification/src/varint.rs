//! The variable-length integer format of the Mumble voice protocol.
//!
//! The first byte of an encoding tells its size:
//!
//! | first byte  | size | value                                          |
//! |-------------|------|------------------------------------------------|
//! | `0xxxxxxx`  | 1    | the byte itself                                |
//! | `10xxxxxx`  | 2    | 14 bits, big-endian, tag cleared               |
//! | `110xxxxx`  | 3    | 21 bits, big-endian, tag cleared               |
//! | `1110xxxx`  | 4    | 28 bits, big-endian, tag cleared               |
//! | `111100__`  | 5    | the next 4 bytes, big-endian                   |
//! | `111101__`  | 9    | the next 8 bytes, big-endian                   |
//! | `111110__`  | -    | a negated recursive encoding: not supported    |
//! | `111111xx`  | 1    | the bitwise negation of `xx`                   |
use vstd::arithmetic::div_mod::{lemma_div_denominator, lemma_mod_breakdown, lemma_small_mod};
use vstd::prelude::*;
use vstd::slice::slice_subrange;

use crate::error::Error;

verus! {

/// `256` to the power `n`.
pub open spec fn pow256(n: nat) -> nat
    decreases n,
{
    if n == 0 {
        1
    } else {
        256 * pow256((n - 1) as nat)
    }
}

/// The number whose base-256 digits, most significant first, are `s`.
pub open spec fn be_num(s: Seq<u8>) -> nat
    decreases s.len(),
{
    if s.len() == 0 {
        0
    } else {
        be_num(s.drop_last()) * 256 + s.last() as nat
    }
}

/// The lowest `n` base-256 digits of `v`, most significant first.
pub open spec fn be_bytes(v: nat, n: nat) -> Seq<u8>
    decreases n,
{
    if n == 0 {
        Seq::empty()
    } else {
        be_bytes(v / 256, (n - 1) as nat).push((v % 256) as u8)
    }
}

/// The size of the encoding that starts with `first`, or `None` for the
/// prefix `111110__`, which the reader does not support.
pub open spec fn varint_size(first: u8) -> Option<nat> {
    if first < 0x80 {
        Some(1)
    } else if first < 0xC0 {
        Some(2)
    } else if first < 0xE0 {
        Some(3)
    } else if first < 0xF0 {
        Some(4)
    } else if first < 0xF4 {
        Some(5)
    } else if first < 0xF8 {
        Some(9)
    } else if first < 0xFC {
        None
    } else {
        Some(1)
    }
}

/// The value of the encoding at the front of `s` (whose size is
/// `varint_size(s[0])`): the big-endian number of its bytes with the size tag
/// cleared, the plain big-endian number of the bytes after a `0xF0`/`0xF4`
/// tag, or the negation of the two low bits of a `0xFC` tag.
pub open spec fn varint_value(s: Seq<u8>) -> int {
    let first = s[0];
    if first < 0x80 {
        first as int
    } else if first < 0xC0 {
        be_num(s.take(2)) - 0x8000
    } else if first < 0xE0 {
        be_num(s.take(3)) - 0xC0_0000
    } else if first < 0xF0 {
        be_num(s.take(4)) - 0xE000_0000
    } else if first < 0xF4 {
        be_num(s.subrange(1, 5)) as int
    } else if first < 0xF8 {
        be_num(s.subrange(1, 9)) as int
    } else {
        0xFFFF_FFFF_FFFF_FFFF - (first - 0xFC)
    }
}

/// What the reader makes of the bytes `s`: the value of the encoding at its
/// front and the encoding's size, or `None` where `s` is empty, is shorter
/// than the encoding its first byte announces, or starts with `111110__`.
pub open spec fn spec_varint(s: Seq<u8>) -> Option<(u64, nat)> {
    if s.len() == 0 {
        None
    } else {
        match varint_size(s[0]) {
            Some(n) => if n <= s.len() {
                Some((varint_value(s) as u64, n))
            } else {
                None
            },
            None => None,
        }
    }
}

/// The encoding that the writer produces for `v`: the shortest of the forms
/// above, with `111111xx` for the four largest values.
pub open spec fn spec_encode(v: u64) -> Seq<u8> {
    if v >= 0xFFFF_FFFF_FFFF_FFFC {
        seq![(0xFC + (0xFFFF_FFFF_FFFF_FFFF - v)) as u8]
    } else if v < 0x80 {
        be_bytes(v as nat, 1)
    } else if v < 0x4000 {
        be_bytes((v + 0x8000) as nat, 2)
    } else if v < 0x20_0000 {
        be_bytes((v + 0xC0_0000) as nat, 3)
    } else if v < 0x1000_0000 {
        be_bytes((v + 0xE000_0000) as nat, 4)
    } else if v < 0x1_0000_0000 {
        seq![0xF0u8] + be_bytes(v as nat, 4)
    } else {
        seq![0xF4u8] + be_bytes(v as nat, 8)
    }
}

pub(crate) proof fn lemma_pow256_values()
    ensures
        pow256(1) == 0x100,
        pow256(2) == 0x1_0000,
        pow256(3) == 0x100_0000,
        pow256(4) == 0x1_0000_0000,
        pow256(7) == 0x100_0000_0000_0000,
        pow256(8) == 0x1_0000_0000_0000_0000,
{
    reveal_with_fuel(pow256, 9);
}

proof fn lemma_pow256_pos(n: nat)
    ensures
        pow256(n) > 0,
    decreases n,
{
    if n > 0 {
        lemma_pow256_pos((n - 1) as nat);
    }
}

proof fn lemma_pow256_mono(i: nat, j: nat)
    requires
        i <= j,
    ensures
        pow256(i) <= pow256(j),
    decreases j,
{
    if i < j {
        lemma_pow256_mono(i, (j - 1) as nat);
    }
}

proof fn lemma_be_num_bound(s: Seq<u8>)
    ensures
        be_num(s) < pow256(s.len()),
    decreases s.len(),
{
    if s.len() > 0 {
        lemma_be_num_bound(s.drop_last());
    }
}

pub(crate) proof fn lemma_be_bytes_len(v: nat, n: nat)
    ensures
        be_bytes(v, n).len() == n,
    decreases n,
{
    if n > 0 {
        lemma_be_bytes_len(v / 256, (n - 1) as nat);
    }
}

/// Reading back the digits of `v` gives `v` up to the digits that were cut.
proof fn lemma_be_roundtrip(v: nat, n: nat)
    ensures
        be_num(be_bytes(v, n)) == v % pow256(n),
    decreases n,
{
    if n == 0 {
    } else {
        let m = (n - 1) as nat;
        lemma_be_roundtrip(v / 256, m);
        lemma_pow256_pos(m);
        let b = be_bytes(v, n);
        assert(b.drop_last() =~= be_bytes(v / 256, m));
        lemma_mod_breakdown(v as int, 256, pow256(m) as int);
    }
}

/// The leading digit of `be_bytes(v, n)`.
proof fn lemma_be_first(v: nat, n: nat)
    requires
        n >= 1,
    ensures
        be_bytes(v, n)[0] == (v / pow256((n - 1) as nat)) % 256,
    decreases n,
{
    if n == 1 {
        assert(be_bytes(v / 256, 0) =~= Seq::<u8>::empty());
        assert(be_bytes(v, 1)[0] == (v % 256) as u8);
        assert(pow256(0) == 1);
        assert(v / 1 == v);
    } else {
        let m = (n - 1) as nat;
        let k = (m - 1) as nat;
        lemma_be_first(v / 256, m);
        lemma_be_bytes_len(v / 256, m);
        lemma_pow256_pos(k);
        lemma_div_denominator(v as int, 256, pow256(k) as int);
        assert(be_bytes(v, n)[0] == be_bytes(v / 256, m)[0]);
        assert(pow256(m) == 256 * pow256(k));
    }
}

/// Reads the big-endian number held in `bytes[start..start + n]`.
fn read_be(bytes: &[u8], start: usize, n: usize) -> (r: u64)
    requires
        n <= 8,
        start + n <= bytes.len(),
    ensures
        r == be_num(bytes@.subrange(start as int, start + n)),
{
    let mut acc: u64 = 0;
    let mut i: usize = 0;
    while i < n
        invariant
            i <= n,
            n <= 8,
            start + n <= bytes.len(),
            acc == be_num(bytes@.subrange(start as int, start + i)),
        decreases n - i,
    {
        proof {
            let s = bytes@.subrange(start as int, start + i);
            lemma_be_num_bound(s);
            lemma_pow256_mono(i as nat, 7);
            lemma_pow256_values();
            assert(bytes@.subrange(start as int, start + i + 1).drop_last() =~= s);
        }
        acc = acc * 256 + bytes[start + i] as u64;
        i = i + 1;
    }
    acc
}

/// Decodes the encoding at the front of `bytes`, giving its value and size,
/// or `None` where the reader cannot (see [`spec_varint`]).
pub fn decode_varint(bytes: &[u8]) -> (r: Option<(u64, usize)>)
    ensures
        r is None <==> spec_varint(bytes@) is None,
        r matches Some((v, n)) ==> spec_varint(bytes@) == Some((v, n as nat)),
{
    let len = bytes.len();
    if len == 0 {
        return None;
    }
    let first = bytes[0];
    proof {
        reveal_with_fuel(be_num, 5);
        lemma_pow256_values();
    }
    if first < 0x80 {
        Some((first as u64, 1))
    } else if first < 0xC0 {
        if len < 2 {
            return None;
        }
        let x = read_be(bytes, 0, 2);
        assert(bytes@.subrange(0, 2).drop_last() =~= bytes@.subrange(0, 1));
        Some((x - 0x8000, 2))
    } else if first < 0xE0 {
        if len < 3 {
            return None;
        }
        let x = read_be(bytes, 0, 3);
        assert(bytes@.subrange(0, 3).drop_last() =~= bytes@.subrange(0, 2));
        assert(bytes@.subrange(0, 2).drop_last() =~= bytes@.subrange(0, 1));
        Some((x - 0xC0_0000, 3))
    } else if first < 0xF0 {
        if len < 4 {
            return None;
        }
        let x = read_be(bytes, 0, 4);
        assert(bytes@.subrange(0, 4).drop_last() =~= bytes@.subrange(0, 3));
        assert(bytes@.subrange(0, 3).drop_last() =~= bytes@.subrange(0, 2));
        assert(bytes@.subrange(0, 2).drop_last() =~= bytes@.subrange(0, 1));
        Some((x - 0xE000_0000, 4))
    } else if first < 0xF4 {
        if len < 5 {
            return None;
        }
        Some((read_be(bytes, 1, 4), 5))
    } else if first < 0xF8 {
        if len < 9 {
            return None;
        }
        Some((read_be(bytes, 1, 8), 9))
    } else if first < 0xFC {
        None
    } else {
        Some((0xFFFF_FFFF_FFFF_FFFF - (first - 0xFC) as u64, 1))
    }
}


/// Appends the lowest `n` base-256 digits of `v`, most significant first.
fn push_be(out: &mut Vec<u8>, v: u64, n: usize)
    requires
        n <= 8,
    ensures
        final(out)@ == old(out)@ + be_bytes(v as nat, n as nat),
    decreases n,
{
    if n > 0 {
        push_be(out, v / 256, n - 1);
        out.push((v % 256) as u8);
        proof {
            assert(be_bytes(v as nat, n as nat) == be_bytes((v / 256) as nat, (n - 1) as nat).push(
                (v % 256) as u8,
            ));
            assert(out@ =~= old(out)@ + be_bytes(v as nat, n as nat));
        }
    } else {
        assert(out@ =~= old(out)@ + be_bytes(v as nat, n as nat));
    }
}

/// Appends the encoding of `v` to `out`.
pub fn write_varint(out: &mut Vec<u8>, v: u64)
    ensures
        final(out)@ == old(out)@ + spec_encode(v),
{
    if v >= 0xFFFF_FFFF_FFFF_FFFC {
        out.push((0xFC + (0xFFFF_FFFF_FFFF_FFFF - v)) as u8);
        assert(out@ =~= old(out)@ + spec_encode(v));
    } else if v < 0x80 {
        push_be(out, v, 1);
    } else if v < 0x4000 {
        push_be(out, v + 0x8000, 2);
    } else if v < 0x20_0000 {
        push_be(out, v + 0xC0_0000, 3);
    } else if v < 0x1000_0000 {
        push_be(out, v + 0xE000_0000, 4);
    } else if v < 0x1_0000_0000 {
        out.push(0xF0);
        push_be(out, v, 4);
        assert(out@ =~= old(out)@ + spec_encode(v));
    } else {
        out.push(0xF4);
        push_be(out, v, 8);
        assert(out@ =~= old(out)@ + spec_encode(v));
    }
}

/// The facts about `be_bytes(x, n)` that the encodings rest on, for an `x`
/// that has at most `n` digits.
pub(crate) proof fn lemma_be_fits(x: nat, n: nat)
    requires
        1 <= n,
        x < pow256(n),
    ensures
        be_bytes(x, n).len() == n,
        be_num(be_bytes(x, n)) == x,
        be_bytes(x, n)[0] == (x / pow256((n - 1) as nat)) % 256,
{
    lemma_be_bytes_len(x, n);
    lemma_be_roundtrip(x, n);
    lemma_small_mod(x, pow256(n));
    lemma_be_first(x, n);
}

/// Reading what the writer wrote gives back the value, and consumes exactly
/// the bytes written, whatever follows them.
pub proof fn lemma_varint_roundtrip(v: u64, rest: Seq<u8>)
    ensures
        spec_varint(spec_encode(v) + rest) == Some((v, spec_encode(v).len())),
{
    let e = spec_encode(v);
    let s = e + rest;
    lemma_pow256_values();
    if v >= 0xFFFF_FFFF_FFFF_FFFC {
        assert(e.len() == 1);
        assert(s[0] == e[0]);
        assert(varint_size(s[0]) == Some(1nat));
        assert(varint_value(s) == v);
    } else if v < 0x80 {
        lemma_be_fits(v as nat, 1);
        assert(s[0] == e[0]);
        assert(e[0] == v);
        assert(varint_value(s) == v);
    } else if v < 0x4000 {
        let x = (v + 0x8000) as nat;
        lemma_be_fits(x, 2);
        assert(s[0] == e[0]);
        assert(x / 256 < 256);
        assert(0x80 <= x / 256 < 0xC0);
        assert(s.take(2) =~= e);
        assert(varint_value(s) == v);
    } else if v < 0x20_0000 {
        let x = (v + 0xC0_0000) as nat;
        lemma_be_fits(x, 3);
        assert(s[0] == e[0]);
        assert(0xC0 <= x / 0x1_0000 < 0xE0);
        assert(s.take(3) =~= e);
        assert(varint_value(s) == v);
    } else if v < 0x1000_0000 {
        let x = (v + 0xE000_0000) as nat;
        lemma_be_fits(x, 4);
        assert(s[0] == e[0]);
        assert(0xE0 <= x / 0x100_0000 < 0xF0);
        assert(s.take(4) =~= e);
        assert(varint_value(s) == v);
    } else if v < 0x1_0000_0000 {
        lemma_be_fits(v as nat, 4);
        assert(s[0] == 0xF0);
        assert(s.subrange(1, 5) =~= be_bytes(v as nat, 4));
        assert(varint_value(s) == v);
    } else {
        lemma_be_fits(v as nat, 8);
        assert(s[0] == 0xF4);
        assert(s.subrange(1, 9) =~= be_bytes(v as nat, 8));
        assert(varint_value(s) == v);
    }
}

/// The reader looks only at the bytes of the encoding itself: what follows
/// does not change what it reads.
pub proof fn lemma_varint_prefix(s: Seq<u8>, t: Seq<u8>)
    requires
        spec_varint(s) is Some,
    ensures
        spec_varint(s + t) == spec_varint(s),
        spec_varint(s).unwrap().1 <= s.len(),
{
    let u = s + t;
    let first = s[0];
    assert(u[0] == first);
    if first < 0x80 {
    } else if first < 0xC0 {
        assert(u.take(2) =~= s.take(2));
    } else if first < 0xE0 {
        assert(u.take(3) =~= s.take(3));
    } else if first < 0xF0 {
        assert(u.take(4) =~= s.take(4));
    } else if first < 0xF4 {
        assert(u.subrange(1, 5) =~= s.subrange(1, 5));
    } else if first < 0xF8 {
        assert(u.subrange(1, 9) =~= s.subrange(1, 9));
    }
}

/// What the reader makes of each form, in terms of the bytes alone: the
/// value with the size tag masked off, big-endian, and the form's size;
/// nothing where the bytes stop short of the size or the prefix is
/// `111110__`.
pub proof fn lemma_varint_forms(s: Seq<u8>)
    requires
        s.len() >= 1,
    ensures
        s[0] < 0x80 ==> spec_varint(s) == Some((s[0] as u64, 1nat)),
        0x80 <= s[0] < 0xC0 ==> spec_varint(s) == if s.len() >= 2 {
            Some((((s[0] - 0x80) * 0x100 + s[1]) as u64, 2nat))
        } else {
            None
        },
        0xC0 <= s[0] < 0xE0 ==> spec_varint(s) == if s.len() >= 3 {
            Some((((s[0] - 0xC0) * 0x1_0000 + s[1] * 0x100 + s[2]) as u64, 3nat))
        } else {
            None
        },
        0xE0 <= s[0] < 0xF0 ==> spec_varint(s) == if s.len() >= 4 {
            Some(
                (((s[0] - 0xE0) * 0x100_0000 + s[1] * 0x1_0000 + s[2] * 0x100 + s[3]) as u64, 4nat),
            )
        } else {
            None
        },
        0xF0 <= s[0] < 0xF4 ==> spec_varint(s) == if s.len() >= 5 {
            Some(((s[1] * 0x100_0000 + s[2] * 0x1_0000 + s[3] * 0x100 + s[4]) as u64, 5nat))
        } else {
            None
        },
        0xF4 <= s[0] < 0xF8 ==> spec_varint(s) == if s.len() >= 9 {
            Some(
                (((s[1] * 0x100_0000 + s[2] * 0x1_0000 + s[3] * 0x100 + s[4]) * 0x1_0000_0000 + s[5]
                    * 0x100_0000 + s[6] * 0x1_0000 + s[7] * 0x100 + s[8]) as u64, 9nat),
            )
        } else {
            None
        },
        0xF8 <= s[0] < 0xFC ==> spec_varint(s) is None,
        0xFC <= s[0] ==> spec_varint(s) == Some(
            ((0xFFFF_FFFF_FFFF_FFFFu64 - (s[0] - 0xFC)) as u64, 1nat),
        ),
{
    reveal_with_fuel(be_num, 9);
    let first = s[0];
    if 0x80 <= first < 0xC0 && s.len() >= 2 {
        let t = s.take(2);
        assert(t.drop_last() =~= s.take(1));
        assert(s.take(1).drop_last() =~= Seq::<u8>::empty());
    } else if 0xC0 <= first < 0xE0 && s.len() >= 3 {
        assert(s.take(3).drop_last() =~= s.take(2));
        assert(s.take(2).drop_last() =~= s.take(1));
        assert(s.take(1).drop_last() =~= Seq::<u8>::empty());
    } else if 0xE0 <= first < 0xF0 && s.len() >= 4 {
        assert(s.take(4).drop_last() =~= s.take(3));
        assert(s.take(3).drop_last() =~= s.take(2));
        assert(s.take(2).drop_last() =~= s.take(1));
        assert(s.take(1).drop_last() =~= Seq::<u8>::empty());
    } else if 0xF0 <= first < 0xF4 && s.len() >= 5 {
        assert(s.subrange(1, 5).drop_last() =~= s.subrange(1, 4));
        assert(s.subrange(1, 4).drop_last() =~= s.subrange(1, 3));
        assert(s.subrange(1, 3).drop_last() =~= s.subrange(1, 2));
        assert(s.subrange(1, 2).drop_last() =~= Seq::<u8>::empty());
    } else if 0xF4 <= first < 0xF8 && s.len() >= 9 {
        assert(s.subrange(1, 9).drop_last() =~= s.subrange(1, 8));
        assert(s.subrange(1, 8).drop_last() =~= s.subrange(1, 7));
        assert(s.subrange(1, 7).drop_last() =~= s.subrange(1, 6));
        assert(s.subrange(1, 6).drop_last() =~= s.subrange(1, 5));
        assert(s.subrange(1, 5).drop_last() =~= s.subrange(1, 4));
        assert(s.subrange(1, 4).drop_last() =~= s.subrange(1, 3));
        assert(s.subrange(1, 3).drop_last() =~= s.subrange(1, 2));
        assert(s.subrange(1, 2).drop_last() =~= Seq::<u8>::empty());
    }
}

/// What the writer puts out, byte by byte: the shortest form, its size tag
/// in the high bits of the first byte and the value's digits big-endian
/// after it.
pub proof fn lemma_encode_forms(v: u64)
    ensures
        v < 0x80 ==> spec_encode(v) == seq![v as u8],
        0x80 <= v < 0x4000 ==> spec_encode(v) == seq![(0x80 + v / 0x100) as u8, (v % 0x100) as u8],
        0x4000 <= v < 0x20_0000 ==> spec_encode(v) == seq![
            (0xC0 + v / 0x1_0000) as u8,
            (v / 0x100 % 0x100) as u8,
            (v % 0x100) as u8,
        ],
        0x20_0000 <= v < 0x1000_0000 ==> spec_encode(v) == seq![
            (0xE0 + v / 0x100_0000) as u8,
            (v / 0x1_0000 % 0x100) as u8,
            (v / 0x100 % 0x100) as u8,
            (v % 0x100) as u8,
        ],
        0x1000_0000 <= v < 0x1_0000_0000 ==> spec_encode(v) == seq![
            0xF0u8,
            (v / 0x100_0000) as u8,
            (v / 0x1_0000 % 0x100) as u8,
            (v / 0x100 % 0x100) as u8,
            (v % 0x100) as u8,
        ],
        0x1_0000_0000 <= v < 0xFFFF_FFFF_FFFF_FFFC ==> spec_encode(v).len() == 9 && spec_encode(v)[0]
            == 0xF4 && be_num(spec_encode(v).skip(1)) == v,
        0xFFFF_FFFF_FFFF_FFFC <= v ==> spec_encode(v) == seq![(0xFC + (0xFFFF_FFFF_FFFF_FFFF - v)) as u8],
{
    if 0x80 <= v < 0x4000 {
        lemma_encode_two(v);
    } else if 0x4000 <= v < 0x20_0000 {
        lemma_encode_three(v);
    } else if 0x20_0000 <= v < 0x1000_0000 {
        lemma_encode_four(v);
    } else if 0x1000_0000 <= v < 0x1_0000_0000 {
        lemma_encode_five(v);
    } else if 0x1_0000_0000 <= v < 0xFFFF_FFFF_FFFF_FFFC {
        lemma_pow256_values();
        lemma_be_fits(v as nat, 8);
        assert(spec_encode(v).skip(1) =~= be_bytes(v as nat, 8));
    } else if v < 0x80 {
        reveal_with_fuel(be_bytes, 2);
        assert(spec_encode(v) =~= seq![v as u8]);
    }
}

proof fn lemma_encode_two(v: u64)
    requires
        0x80 <= v < 0x4000,
    ensures
        spec_encode(v) == seq![(0x80 + v / 0x100) as u8, (v % 0x100) as u8],
{
    reveal_with_fuel(be_bytes, 3);
    let x = (v + 0x8000) as nat;
    assert(x / 0x100 == 0x80 + v / 0x100);
    assert(x % 0x100 == v % 0x100);
    assert((x / 0x100) % 0x100 == 0x80 + v / 0x100);
    assert(spec_encode(v) =~= seq![(0x80 + v / 0x100) as u8, (v % 0x100) as u8]);
}

proof fn lemma_encode_three(v: u64)
    requires
        0x4000 <= v < 0x20_0000,
    ensures
        spec_encode(v) == seq![
            (0xC0 + v / 0x1_0000) as u8,
            (v / 0x100 % 0x100) as u8,
            (v % 0x100) as u8,
        ],
{
    reveal_with_fuel(be_bytes, 4);
    let x = (v + 0xC0_0000) as nat;
    lemma_div_denominator(x as int, 0x100, 0x100);
    assert(x / 0x1_0000 == 0xC0 + v / 0x1_0000);
    assert(x % 0x100 == v % 0x100);
    assert(x / 0x100 == 0xC000 + v / 0x100);
    assert((x / 0x100) % 0x100 == v / 0x100 % 0x100);
    assert((x / 0x100 / 0x100) % 0x100 == 0xC0 + v / 0x1_0000);
    assert(spec_encode(v) =~= seq![
        (0xC0 + v / 0x1_0000) as u8,
        (v / 0x100 % 0x100) as u8,
        (v % 0x100) as u8,
    ]);
}

proof fn lemma_encode_four(v: u64)
    requires
        0x20_0000 <= v < 0x1000_0000,
    ensures
        spec_encode(v) == seq![
            (0xE0 + v / 0x100_0000) as u8,
            (v / 0x1_0000 % 0x100) as u8,
            (v / 0x100 % 0x100) as u8,
            (v % 0x100) as u8,
        ],
{
    reveal_with_fuel(be_bytes, 5);
    let x = (v + 0xE000_0000) as nat;
    lemma_div_denominator(x as int, 0x100, 0x100);
    lemma_div_denominator(x as int, 0x1_0000, 0x100);
    lemma_div_denominator(v as int, 0x100, 0x100);
    lemma_div_denominator(v as int, 0x1_0000, 0x100);
    assert(x / 0x100 == 0xE0_0000 + v / 0x100);
    assert(x / 0x1_0000 == 0xE000 + v / 0x1_0000);
    assert(x / 0x100_0000 == 0xE0 + v / 0x100_0000);
    assert(x % 0x100 == v % 0x100);
    assert((x / 0x100) % 0x100 == v / 0x100 % 0x100);
    assert((x / 0x100 / 0x100) % 0x100 == v / 0x1_0000 % 0x100);
    assert((x / 0x100 / 0x100 / 0x100) % 0x100 == 0xE0 + v / 0x100_0000);
    assert(spec_encode(v) =~= seq![
        (0xE0 + v / 0x100_0000) as u8,
        (v / 0x1_0000 % 0x100) as u8,
        (v / 0x100 % 0x100) as u8,
        (v % 0x100) as u8,
    ]);
}

proof fn lemma_encode_five(v: u64)
    requires
        0x1000_0000 <= v < 0x1_0000_0000,
    ensures
        spec_encode(v) == seq![
            0xF0u8,
            (v / 0x100_0000) as u8,
            (v / 0x1_0000 % 0x100) as u8,
            (v / 0x100 % 0x100) as u8,
            (v % 0x100) as u8,
        ],
{
    reveal_with_fuel(be_bytes, 5);
    let x = v as nat;
    lemma_div_denominator(x as int, 0x100, 0x100);
    lemma_div_denominator(x as int, 0x1_0000, 0x100);
    assert((x / 0x100 / 0x100) % 0x100 == v / 0x1_0000 % 0x100);
    assert((x / 0x100 / 0x100 / 0x100) % 0x100 == v / 0x100_0000);
    assert(spec_encode(v) =~= seq![
        0xF0u8,
        (v / 0x100_0000) as u8,
        (v / 0x1_0000 % 0x100) as u8,
        (v / 0x100 % 0x100) as u8,
        (v % 0x100) as u8,
    ]);
}

/// The writer never uses a longer encoding than any that the reader accepts
/// for the same value.
pub proof fn lemma_encode_shortest(s: Seq<u8>)
    requires
        spec_varint(s) is Some,
    ensures
        spec_encode(spec_varint(s).unwrap().0).len() <= spec_varint(s).unwrap().1,
{
    let (v, n) = spec_varint(s).unwrap();
    let first = s[0];
    lemma_pow256_values();
    reveal_with_fuel(be_num, 5);
    lemma_be_bytes_len(v as nat, 1);
    lemma_be_bytes_len(v as nat, 4);
    lemma_be_bytes_len(v as nat, 8);
    lemma_be_bytes_len((v + 0x8000) as nat, 2);
    lemma_be_bytes_len((v + 0xC0_0000) as nat, 3);
    lemma_be_bytes_len((v + 0xE000_0000) as nat, 4);
    if first < 0x80 {
    } else if first < 0xC0 {
        assert(s.take(2).drop_last() =~= s.take(1));
        assert(v < 0x4000);
    } else if first < 0xE0 {
        assert(s.take(3).drop_last() =~= s.take(2));
        assert(s.take(2).drop_last() =~= s.take(1));
        assert(v < 0x20_0000);
    } else if first < 0xF0 {
        assert(s.take(4).drop_last() =~= s.take(3));
        assert(s.take(3).drop_last() =~= s.take(2));
        assert(s.take(2).drop_last() =~= s.take(1));
        assert(v < 0x1000_0000);
    } else if first < 0xF4 {
        lemma_be_num_bound(s.subrange(1, 5));
        assert(v < 0x1_0000_0000);
    } else if first < 0xF8 {
    } else {
        assert(v >= 0xFFFF_FFFF_FFFF_FFFC);
    }
}

/// A source of bytes that Mumble variable-length integers can be read from.
pub trait VarintReader {
    /// The bytes that have not been read yet.
    spec fn unread(&self) -> Seq<u8>;

    /// Reads one encoded integer from the front of the unread bytes.
    ///
    /// The unread bytes must start with a complete encoding that the reader
    /// supports ([`spec_varint`] is `Some`; [`decode_varint`] tests this).
    fn read_varint(&mut self) -> (r: Result<u64, Error>)
        requires
            spec_varint(old(self).unread()) is Some,
        ensures
            ({
                let (v, n) = spec_varint(old(self).unread()).unwrap();
                &&& r matches Ok(x) && x == v
                &&& final(self).unread() == old(self).unread().skip(n as int)
            }),
    ;
}

/// An in-memory reader: a buffer and the position of the next unread byte.
pub struct ByteCursor {
    bytes: Vec<u8>,
    pos: usize,
}

impl ByteCursor {
    /// The position never passes the end of the buffer.
    #[verifier::type_invariant]
    spec fn inv(&self) -> bool {
        self.pos <= self.bytes@.len()
    }

    /// The whole buffer, read and unread.
    pub closed spec fn buffer(&self) -> Seq<u8> {
        self.bytes@
    }

    /// The number of bytes read so far.
    pub closed spec fn offset(&self) -> nat {
        self.pos as nat
    }

    /// A reader positioned at the start of `bytes`.
    pub fn new(bytes: Vec<u8>) -> (c: Self)
        ensures
            c.buffer() == bytes@,
            c.offset() == 0,
            c.unread() == bytes@,
    {
        let c = ByteCursor { bytes, pos: 0 };
        assert(c.bytes@.skip(0) =~= c.bytes@);
        c
    }

    /// The number of bytes read so far.
    pub fn position(&self) -> (p: usize)
        ensures
            p == self.offset(),
            p <= self.buffer().len(),
            self.unread() == self.buffer().skip(p as int),
    {
        proof {
            use_type_invariant(self);
        }
        self.pos
    }

    /// The unread bytes.
    pub fn remaining(&self) -> (r: &[u8])
        ensures
            r@ == self.unread(),
    {
        let p = self.position();
        let r = slice_subrange(self.bytes.as_slice(), p, self.bytes.len());
        assert(r@ =~= self.unread());
        r
    }
}

impl VarintReader for ByteCursor {
    closed spec fn unread(&self) -> Seq<u8> {
        self.bytes@.skip(self.pos as int)
    }

    /// The buffer is kept; the offset moves past the encoding read.
    fn read_varint(&mut self) -> (r: Result<u64, Error>)
        ensures
            final(self).buffer() == old(self).buffer(),
            final(self).offset() == old(self).offset() + spec_varint(old(self).unread()).unwrap().1,
    {
        let p = self.position();
        let len = self.bytes.len();
        let (v, n) = decode_varint(self.remaining()).unwrap();
        let ghost before = self.unread();
        proof {
            lemma_varint_prefix(before, Seq::empty());
            assert(before.len() == self.bytes@.len() - p);
            assert(n <= before.len());
            assert(p + n <= len);
        }
        self.pos = p + n;
        assert(self.unread() =~= before.skip(n as int));
        Ok(v)
    }
}

} // verus!
