//! Little-endian numbers in byte strings.

use vstd::prelude::*;

verus! {

/// The `n` lowest bytes of a number, lowest first.
pub open spec fn le_bytes(x: nat, n: nat) -> Seq<u8>
    decreases n,
{
    if n == 0 {
        Seq::empty()
    } else {
        seq![(x % 256) as u8] + le_bytes(x / 256, (n - 1) as nat)
    }
}

/// The number that bytes spell, lowest first.
pub open spec fn le_value(b: Seq<u8>) -> nat
    decreases b.len(),
{
    if b.len() == 0 {
        0
    } else {
        b[0] as nat + 256 * le_value(b.skip(1))
    }
}

/// `256^n`.
pub open spec fn byte_range(n: nat) -> nat
    decreases n,
{
    if n == 0 {
        1
    } else {
        256 * byte_range((n - 1) as nat)
    }
}

/// The bytes of a list of words, each in little-endian order.
pub open spec fn words_bytes(s: Seq<u32>) -> Seq<u8>
    decreases s.len(),
{
    if s.len() == 0 {
        Seq::empty()
    } else {
        words_bytes(s.drop_last()) + le_bytes(s.last() as nat, 4)
    }
}

/// Why a number could not be read.
#[derive(Clone, Copy, Debug, PartialEq, Eq, Structural)]
pub enum ReadError {
    /// The bytes end before the number does.
    UnexpectedEnd,
}

pub proof fn lemma_le_bytes_len(x: nat, n: nat)
    ensures
        le_bytes(x, n).len() == n,
    decreases n,
{
    if n > 0 {
        lemma_le_bytes_len(x / 256, (n - 1) as nat);
    }
}

pub proof fn lemma_le_value_bound(b: Seq<u8>)
    ensures
        le_value(b) < byte_range(b.len()),
    decreases b.len(),
{
    if b.len() > 0 {
        lemma_le_value_bound(b.skip(1));
    }
}

/// Reading back what was written gives the number, where it fits.
pub proof fn lemma_le_round_trip(x: nat, n: nat)
    requires
        x < byte_range(n),
    ensures
        le_value(le_bytes(x, n)) == x,
        le_bytes(x, n).len() == n,
    decreases n,
{
    if n > 0 {
        lemma_le_round_trip(x / 256, (n - 1) as nat);
        assert(le_bytes(x, n).skip(1) =~= le_bytes(x / 256, (n - 1) as nat));
    }
}

/// Writing down what was read gives the bytes.
pub proof fn lemma_le_bytes_of_value(b: Seq<u8>)
    ensures
        le_bytes(le_value(b), b.len()) == b,
    decreases b.len(),
{
    if b.len() > 0 {
        let rest = b.skip(1);
        lemma_le_bytes_of_value(rest);
        let x = le_value(b);
        assert(x % 256 == b[0] && x / 256 == le_value(rest)) by (nonlinear_arith)
            requires
                x == b[0] as nat + 256 * le_value(rest),
                0 <= b[0] < 256,
        ;
        assert(seq![b[0]] + rest =~= b);
    }
}

pub proof fn lemma_byte_ranges()
    ensures
        byte_range(2) == 0x1_0000,
        byte_range(4) == 0x1_0000_0000,
        byte_range(8) == 0x1_0000_0000_0000_0000,
{
    reveal_with_fuel(byte_range, 9);
}

pub proof fn lemma_words_bytes_concat(a: Seq<u32>, b: Seq<u32>)
    ensures
        words_bytes(a + b) == words_bytes(a) + words_bytes(b),
    decreases b.len(),
{
    if b.len() == 0 {
        assert(a + b =~= a);
        assert(words_bytes(a) + words_bytes(b) =~= words_bytes(a));
    } else {
        lemma_words_bytes_concat(a, b.drop_last());
        assert((a + b).drop_last() =~= a + b.drop_last());
        assert(words_bytes(a + b) =~= words_bytes(a) + words_bytes(b));
    }
}

pub proof fn lemma_words_bytes_len(s: Seq<u32>)
    ensures
        words_bytes(s).len() == 4 * s.len(),
    decreases s.len(),
{
    if s.len() > 0 {
        lemma_words_bytes_len(s.drop_last());
        lemma_le_bytes_len(s.last() as nat, 4);
    }
}

/// Each word can be read back at its place.
pub proof fn lemma_word_at(s: Seq<u32>, i: int)
    requires
        0 <= i < s.len(),
    ensures
        words_bytes(s).len() == 4 * s.len(),
        le_value(words_bytes(s).subrange(4 * i, 4 * i + 4)) == s[i],
    decreases s.len(),
{
    lemma_words_bytes_len(s);
    lemma_words_bytes_len(s.drop_last());
    if i == s.len() - 1 {
        lemma_byte_ranges();
        lemma_le_round_trip(s.last() as nat, 4);
        assert(words_bytes(s).subrange(4 * i, 4 * i + 4) =~= le_bytes(s.last() as nat, 4));
    } else {
        lemma_word_at(s.drop_last(), i);
        assert(words_bytes(s).subrange(4 * i, 4 * i + 4) =~= words_bytes(s.drop_last()).subrange(
            4 * i,
            4 * i + 4,
        ));
    }
}

/// Appends the `n` lowest bytes of a number, lowest first.
fn push_le(out: &mut Vec<u8>, x: u64, n: usize)
    ensures
        final(out)@ == old(out)@ + le_bytes(x as nat, n as nat),
{
    let ghost start = out@;
    let ghost all = le_bytes(x as nat, n as nat);
    let mut rest: u64 = x;
    let mut i: usize = 0;
    assert(start + all =~= out@ + le_bytes(rest as nat, (n - i) as nat));
    while i < n
        invariant
            i <= n,
            start + all == out@ + le_bytes(rest as nat, (n - i) as nat),
        decreases n - i,
    {
        let ghost before = out@;
        let low: u8 = (rest % 256) as u8;
        out.push(low);
        proof {
            let tail = le_bytes((rest / 256) as nat, (n - i - 1) as nat);
            assert(le_bytes(rest as nat, (n - i) as nat) == seq![low] + tail);
            assert(before + (seq![low] + tail) =~= out@ + tail);
        }
        rest = rest / 256;
        i += 1;
    }
    assert(out@ + le_bytes(rest as nat, 0) =~= out@);
}

pub fn push_u16_le(out: &mut Vec<u8>, x: u16)
    ensures
        final(out)@ == old(out)@ + le_bytes(x as nat, 2),
{
    push_le(out, x as u64, 2)
}

pub fn push_u32_le(out: &mut Vec<u8>, x: u32)
    ensures
        final(out)@ == old(out)@ + le_bytes(x as nat, 4),
{
    push_le(out, x as u64, 4)
}

pub fn push_u64_le(out: &mut Vec<u8>, x: u64)
    ensures
        final(out)@ == old(out)@ + le_bytes(x as nat, 8),
{
    push_le(out, x, 8)
}

/// Appends bytes.
pub fn push_bytes(out: &mut Vec<u8>, bytes: &[u8])
    ensures
        final(out)@ == old(out)@ + bytes@,
{
    let ghost start = out@;
    let mut i: usize = 0;
    while i < bytes.len()
        invariant
            i <= bytes@.len(),
            out@ == start + bytes@.take(i as int),
        decreases bytes@.len() - i,
    {
        out.push(bytes[i]);
        assert(bytes@.take(i as int).push(bytes@[i as int]) =~= bytes@.take(i + 1));
        i += 1;
    }
    assert(bytes@.take(bytes@.len() as int) =~= bytes@);
}

/// Reads `n` bytes, lowest first, from a place where they are.
fn get_le(bytes: &[u8], at: usize, n: usize) -> (r: u64)
    requires
        n <= 8,
        at + n <= bytes@.len(),
    ensures
        r == le_value(bytes@.subrange(at as int, at + n)),
{
    let len: usize = bytes.len();
    let end: usize = at + n;
    let mut r: u64 = 0;
    let mut i: usize = n;
    assert(bytes@.subrange(at + n, at + n) =~= Seq::<u8>::empty());
    while i > 0
        invariant
            i <= n <= 8,
            at + n <= bytes@.len(),
            end == at + n,
            r == le_value(bytes@.subrange(at + i, at + n)),
        decreases i,
    {
        i -= 1;
        proof {
            let s = bytes@.subrange(at + i, at + n);
            assert(s.skip(1) =~= bytes@.subrange(at + i + 1, at + n));
            lemma_le_value_bound(s.skip(1));
            lemma_range_monotone((n - i - 1) as nat, 7);
            reveal_with_fuel(byte_range, 8);
        }
        r = bytes[at + i] as u64 + 256 * r;
    }
    r
}

/// The number of 8 bytes at a place where they are.
pub fn u64_le_at(bytes: &[u8], at: usize) -> (r: u64)
    requires
        at + 8 <= bytes@.len(),
    ensures
        r == le_value(bytes@.subrange(at as int, at + 8)),
{
    get_le(bytes, at, 8)
}

proof fn lemma_range_monotone(a: nat, b: nat)
    requires
        a <= b,
    ensures
        byte_range(a) <= byte_range(b),
    decreases b,
{
    if a < b {
        lemma_range_monotone(a, (b - 1) as nat);
    }
}

/// The number of `n` bytes at a place, if the bytes reach that far.
pub open spec fn le_value_at(bytes: Seq<u8>, at: int, n: nat) -> Option<nat> {
    if at + n <= bytes.len() {
        Some(le_value(bytes.subrange(at, at + n)))
    } else {
        None
    }
}

/// Reads a number of 2 bytes and moves past it.
pub fn read_u16_le(bytes: &[u8], at: &mut usize) -> (r: Result<u16, ReadError>)
    requires
        *old(at) <= bytes@.len(),
    ensures
        match le_value_at(bytes@, *old(at) as int, 2) {
            Some(v) => r == Ok::<u16, ReadError>(v as u16) && r->Ok_0 == v && *final(at) == *old(at)
                + 2,
            None => r == Err::<u16, ReadError>(ReadError::UnexpectedEnd) && *final(at) == *old(at),
        },
{
    if bytes.len() - *at < 2 {
        return Err(ReadError::UnexpectedEnd);
    }
    let start: usize = *at;
    proof {
        lemma_le_value_bound(bytes@.subrange(start as int, start + 2));
        lemma_byte_ranges();
    }
    let v: u16 = get_le(bytes, start, 2) as u16;
    *at = start + 2;
    Ok(v)
}

/// Reads a number of 4 bytes and moves past it.
pub fn read_u32_le(bytes: &[u8], at: &mut usize) -> (r: Result<u32, ReadError>)
    requires
        *old(at) <= bytes@.len(),
    ensures
        match le_value_at(bytes@, *old(at) as int, 4) {
            Some(v) => r == Ok::<u32, ReadError>(v as u32) && r->Ok_0 == v && *final(at) == *old(at)
                + 4,
            None => r == Err::<u32, ReadError>(ReadError::UnexpectedEnd) && *final(at) == *old(at),
        },
{
    if bytes.len() - *at < 4 {
        return Err(ReadError::UnexpectedEnd);
    }
    let start: usize = *at;
    proof {
        lemma_le_value_bound(bytes@.subrange(start as int, start + 4));
        lemma_byte_ranges();
    }
    let v: u32 = get_le(bytes, start, 4) as u32;
    *at = start + 4;
    Ok(v)
}

/// Reads a number of 8 bytes and moves past it.
pub fn read_u64_le(bytes: &[u8], at: &mut usize) -> (r: Result<u64, ReadError>)
    requires
        *old(at) <= bytes@.len(),
    ensures
        match le_value_at(bytes@, *old(at) as int, 8) {
            Some(v) => r == Ok::<u64, ReadError>(v as u64) && r->Ok_0 == v && *final(at) == *old(at)
                + 8,
            None => r == Err::<u64, ReadError>(ReadError::UnexpectedEnd) && *final(at) == *old(at),
        },
{
    if bytes.len() - *at < 8 {
        return Err(ReadError::UnexpectedEnd);
    }
    let start: usize = *at;
    let v: u64 = get_le(bytes, start, 8);
    *at = start + 8;
    Ok(v)
}

} // verus!
