//! Utilities: the Internet checksum of RFC 1071 and a hex dump of packet bytes.
//!
//! The checksum reads the data as 16-bit words whose first byte is the low
//! byte (the byte order of the little-endian machines this stack targets), and
//! a checksum is written back into a packet the same way. Because the
//! one's-complement sum does not depend on the byte order in which both sides
//! agree, a packet built and checked here carries the standard checksum bytes.
use vstd::prelude::*;

verus! {

/// The 16-bit word made of a low byte and a high byte.
pub open spec fn word16(lo: u8, hi: u8) -> nat {
    lo as nat + 256 * (hi as nat)
}

/// Sum of the 16-bit words of `d`, taken two bytes at a time from the front;
/// a trailing odd byte counts as a word on its own.
pub open spec fn ones_sum(d: Seq<u8>) -> nat
    decreases d.len(),
{
    if d.len() == 0 {
        0
    } else if d.len() == 1 {
        d[0] as nat
    } else {
        word16(d[0], d[1]) + ones_sum(d.subrange(2, d.len() as int))
    }
}

/// Folds the carries above bit 15 back into the low 16 bits until none remain.
pub open spec fn fold16(x: nat) -> nat
    decreases x,
{
    if x < 0x10000 {
        x
    } else {
        proof {
            lemma_fold_step_smaller(x);
        }
        fold16(x % 0x10000 + x / 0x10000)
    }
}

/// The checksum of `d` started from the partial sum `init`: the one's
/// complement of the folded sum.
pub open spec fn cksum_spec(d: Seq<u8>, init: nat) -> u16 {
    (0xffff - fold16(init + ones_sum(d))) as u16
}

/// One folding step makes a value of 17 or more bits smaller.
pub proof fn lemma_fold_step_smaller(x: nat)
    requires
        x >= 0x10000,
    ensures
        x % 0x10000 + x / 0x10000 < x,
{
    assert(x % 0x10000 + x / 0x10000 < x) by (nonlinear_arith)
        requires
            x >= 0x10000,
    {
        assert(x == 0x10000 * (x / 0x10000) + x % 0x10000);
        assert(x / 0x10000 >= 1);
    }
}

/// Closed form of the fold: zero stays zero; any other value lands in
/// `1..=0xffff` on its residue modulo `0xffff`.
pub proof fn lemma_fold16_closed(x: nat)
    ensures
        fold16(x) == (if x == 0 {
            0
        } else if x % 0xffff == 0 {
            0xffff
        } else {
            x % 0xffff
        }),
    decreases x,
{
    if x >= 0x10000 {
        let y = x % 0x10000 + x / 0x10000;
        lemma_fold_step_smaller(x);
        lemma_fold16_closed(y);
        assert(y % 0xffff == x % 0xffff && y > 0) by (nonlinear_arith)
            requires
                x >= 0x10000,
                y == x % 0x10000 + x / 0x10000,
        {
            let q = x / 0x10000;
            let r = x % 0x10000;
            assert(x == 0x10000 * q + r);
            assert(x == y + 0xffff * q);
            assert(q >= 1);
        }
    } else if x == 0xffff {
        assert(x % 0xffff == 0);
    } else if x > 0 {
        assert(x % 0xffff == x);
    }
}

/// Folding twice is folding once, also when more words are added in between.
pub proof fn lemma_fold16_absorb(x: nat, y: nat)
    ensures
        fold16(fold16(x) + y) == fold16(x + y),
{
    lemma_fold16_closed(x);
    lemma_fold16_closed(x + y);
    lemma_fold16_closed(fold16(x) + y);
    if x != 0 {
        assert((fold16(x) + y) % 0xffff == (x + y) % 0xffff) by (nonlinear_arith)
            requires
                x > 0,
                fold16(x) == (if x % 0xffff == 0 {
                    0xffff
                } else {
                    x % 0xffff
                }),
        {
            assert(x == 0xffff * (x / 0xffff) + x % 0xffff);
            assert(x + y == 0xffff * (x / 0xffff) + (x % 0xffff + y));
        }
    }
}

/// The word sum of a concatenation whose first part has even length is the
/// sum of the word sums.
pub proof fn lemma_ones_sum_concat(a: Seq<u8>, b: Seq<u8>)
    requires
        a.len() % 2 == 0,
    ensures
        ones_sum(a + b) == ones_sum(a) + ones_sum(b),
    decreases a.len(),
{
    if a.len() == 0 {
        assert(a + b =~= b);
    } else {
        let rest = a.subrange(2, a.len() as int);
        lemma_ones_sum_concat(rest, b);
        assert((a + b).subrange(2, (a + b).len() as int) =~= rest + b);
    }
}

/// Replacing the word at the even offset `k` changes the word sum by the
/// difference of the two words.
pub proof fn lemma_ones_sum_set_word(d: Seq<u8>, k: int, lo: u8, hi: u8)
    requires
        0 <= k,
        k + 1 < d.len(),
        k % 2 == 0,
    ensures
        ones_sum(d.update(k, lo).update(k + 1, hi)) + word16(d[k], d[k + 1]) == ones_sum(d)
            + word16(lo, hi),
    decreases d.len(),
{
    let d2 = d.update(k, lo).update(k + 1, hi);
    if k == 0 {
        assert(d2.subrange(2, d2.len() as int) =~= d.subrange(2, d.len() as int));
    } else {
        let rest = d.subrange(2, d.len() as int);
        lemma_ones_sum_set_word(rest, k - 2, lo, hi);
        assert(d2.subrange(2, d2.len() as int) =~= rest.update(k - 2, lo).update(k - 1, hi));
    }
}

/// Each word adds at most 0xffff, so the sum stays below 0xffff per byte.
pub proof fn lemma_ones_sum_bound(d: Seq<u8>)
    ensures
        ones_sum(d) <= 0xffff * d.len(),
    decreases d.len(),
{
    if d.len() >= 2 {
        lemma_ones_sum_bound(d.subrange(2, d.len() as int));
    }
}

/// The checksum of two pieces, the first of even length, equals the checksum
/// of the first piece fed, complemented, as the start value for the second.
pub proof fn lemma_cksum_split(a: Seq<u8>, b: Seq<u8>, init: nat)
    requires
        a.len() % 2 == 0,
    ensures
        cksum_spec(b, (!cksum_spec(a, init)) as nat) == cksum_spec(a + b, init),
{
    let f = fold16(init + ones_sum(a));
    lemma_fold16_closed(init + ones_sum(a));
    assert(f <= 0xffff);
    let c = cksum_spec(a, init);
    assert(c == 0xffff - f);
    lemma_u16_not(c);
    assert(!c == f);
    lemma_ones_sum_concat(a, b);
    lemma_fold16_absorb(init + ones_sum(a), ones_sum(b));
    assert(init + ones_sum(a + b) == (init + ones_sum(a)) + ones_sum(b));
}

/// Writing the checksum of a packet, computed while its checksum field at the
/// even offset `k` held zero, into that field (low byte first) makes the
/// checksum of the packet zero.
pub proof fn lemma_cksum_field_verifies(d: Seq<u8>, k: int, init: nat)
    requires
        0 <= k,
        k + 1 < d.len(),
        k % 2 == 0,
        d[k] == 0,
        d[k + 1] == 0,
    ensures
        ({
            let c = cksum_spec(d, init);
            cksum_spec(d.update(k, (c % 256) as u8).update(k + 1, (c / 256) as u8), init) == 0
        }),
{
    let c = cksum_spec(d, init);
    let s = init + ones_sum(d);
    lemma_fold16_closed(s);
    let f = fold16(s);
    assert(c == 0xffff - f);
    let lo = (c % 256) as u8;
    let hi = (c / 256) as u8;
    assert(word16(lo, hi) == c);
    lemma_ones_sum_set_word(d, k, lo, hi);
    assert(word16(d[k], d[k + 1]) == 0);
    let d2 = d.update(k, lo).update(k + 1, hi);
    let s2 = init + ones_sum(d2);
    assert(s2 == s + c);
    lemma_fold16_closed(s2);
    assert(s2 > 0 && s2 % 0xffff == 0) by (nonlinear_arith)
        requires
            s2 == s + (0xffff - f),
            f == (if s == 0 {
                0
            } else if s % 0xffff == 0 {
                0xffff
            } else {
                s % 0xffff
            }),
            f <= 0xffff,
    {
        if s != 0 {
            assert(s == 0xffff * (s / 0xffff) + s % 0xffff);
            if s % 0xffff == 0 {
                assert(s2 == 0xffff * (s / 0xffff) + 0xffff * 0 + (s % 0xffff) + 0);
            } else {
                assert(s2 == 0xffff * (s / 0xffff) + 0xffff);
                assert(s2 == 0xffff * (s / 0xffff + 1));
            }
        }
    }
}

proof fn lemma_u16_not(x: u16)
    ensures
        !x == 0xffff - x,
{
    assert(!x == 0xffff - x) by (bit_vector);
}

/// Whether the checksum of `data` started from `init` can be summed in 32
/// bits (what `cksum16` needs).
pub fn cksum16_fits(data: &[u8], init: u32) -> (r: bool)
    ensures
        r == (init + ones_sum(data@) <= u32::MAX),
{
    let mut sum: u64 = init as u64;
    let mut i: usize = 0;
    proof {
        assert(data@.subrange(0, data@.len() as int) =~= data@);
    }
    while i + 1 < data.len()
        invariant
            i <= data.len(),
            i % 2 == 0,
            sum <= u32::MAX,
            sum + ones_sum(data@.subrange(i as int, data@.len() as int)) == init + ones_sum(
                data@,
            ),
        decreases data.len() - i,
    {
        let ghost rest = data@.subrange(i as int, data@.len() as int);
        proof {
            assert(rest.subrange(2, rest.len() as int) =~= data@.subrange(
                i + 2,
                data@.len() as int,
            ));
        }
        sum = sum + (data[i] as u64 + (data[i + 1] as u64) * 256);
        i = i + 2;
        if sum > 0xffff_ffff {
            return false;
        }
    }
    if i < data.len() {
        proof {
            let rest = data@.subrange(i as int, data@.len() as int);
            assert(rest.len() == 1);
        }
        sum = sum + data[i] as u64;
    } else {
        proof {
            let rest = data@.subrange(i as int, data@.len() as int);
            assert(rest.len() == 0);
        }
    }
    sum <= 0xffff_ffff
}

/// RFC 1071 Internet checksum of `data`, started from the partial sum `init`
/// (the complement of an earlier checksum, so that a sum can be split).
pub fn cksum16(data: &[u8], init: u32) -> (r: u16)
    requires
        init + ones_sum(data@) <= u32::MAX,
    ensures
        r == cksum_spec(data@, init as nat),
{
    let mut sum: u32 = init;
    let mut i: usize = 0;
    proof {
        assert(data@.subrange(0, data@.len() as int) =~= data@);
    }
    while i + 1 < data.len()
        invariant
            i <= data.len(),
            i % 2 == 0,
            init + ones_sum(data@) <= u32::MAX,
            sum + ones_sum(data@.subrange(i as int, data@.len() as int)) == init + ones_sum(
                data@,
            ),
        decreases data.len() - i,
    {
        let ghost rest = data@.subrange(i as int, data@.len() as int);
        proof {
            assert(rest.subrange(2, rest.len() as int) =~= data@.subrange(
                i + 2,
                data@.len() as int,
            ));
        }
        sum = sum + (data[i] as u32 + (data[i + 1] as u32) * 256);
        i = i + 2;
    }
    if i < data.len() {
        proof {
            let rest = data@.subrange(i as int, data@.len() as int);
            assert(rest.len() == 1);
        }
        sum = sum + data[i] as u32;
    } else {
        proof {
            let rest = data@.subrange(i as int, data@.len() as int);
            assert(rest.len() == 0);
        }
    }
    let ghost total: nat = sum as nat;
    assert(total == init + ones_sum(data@));
    while sum >> 16 != 0
        invariant
            fold16(sum as nat) == fold16(total),
        decreases sum,
    {
        let s = sum;
        proof {
            assert(s >> 16 == s / 0x10000 && s & 0xffff == s % 0x10000) by (bit_vector);
            assert(s >> 16 != 0 ==> s >= 0x10000) by (bit_vector);
            lemma_fold_step_smaller(s as nat);
        }
        sum = (s & 0xffff) + (s >> 16);
    }
    proof {
        let s = sum;
        assert(s >> 16 == 0 ==> s < 0x10000) by (bit_vector);
    }
    let folded = sum as u16;
    proof {
        lemma_u16_not(folded);
    }
    !folded
}

/// The character of a decimal digit.
pub open spec fn digit_char(d: nat) -> char {
    (48 + d) as char
}

/// Decimal notation of `n`, without leading zeros.
pub open spec fn decimal(n: nat) -> Seq<char>
    decreases n,
{
    if n < 10 {
        seq![digit_char(n)]
    } else {
        decimal(n / 10).push(digit_char(n % 10))
    }
}

/// Appends one character to a string (`String::push`).
#[verifier::external_body]
pub(crate) fn push_char(s: &mut String, c: char)
    ensures
        final(s)@ == old(s)@.push(c),
{
    s.push(c);
}

/// Appends the decimal notation of `n` to `s`.
pub fn push_decimal(s: &mut String, n: usize)
    ensures
        final(s)@ == old(s)@ + decimal(n as nat),
    decreases n,
{
    if n >= 10 {
        push_decimal(s, n / 10);
    }
    let d: u8 = (n % 10) as u8;
    let c = (48u8 + d) as char;
    push_char(s, c);
    proof {
        assert(c == digit_char((n % 10) as nat));
        if n < 10 {
            assert(decimal(n as nat) == seq![digit_char(n as nat)]);
        }
    }
    assert(final(s)@ =~= old(s)@ + decimal(n as nat));
}

/// `b` with the checksum of `b` (computed with the field at `k` zero)
/// written into the field at `k`, low byte first.
pub open spec fn with_sum(b: Seq<u8>, k: int) -> Seq<u8> {
    let c = cksum_spec(b, 0);
    b.update(k, (c % 256) as u8).update(k + 1, (c / 256) as u8)
}

/// Computes the checksum of `buf` and writes it into the field at `k`.
pub fn write_sum(buf: &mut Vec<u8>, k: usize)
    requires
        k + 1 < old(buf)@.len(),
        ones_sum(old(buf)@) <= u32::MAX,
    ensures
        final(buf)@ == with_sum(old(buf)@, k as int),
{
    let n = buf.len();
    assert(k + 1 < n);
    let k1 = k + 1;
    let c = cksum16(buf.as_slice(), 0);
    buf.set(k, (c % 256) as u8);
    buf.set(k1, (c / 256) as u8);
}

/// The four bytes of `v`, most significant first.
pub open spec fn be32_bytes(v: u32) -> Seq<u8> {
    seq![
        (v / 0x1000000) as u8,
        ((v / 0x10000) % 0x100) as u8,
        ((v / 0x100) % 0x100) as u8,
        (v % 0x100) as u8,
    ]
}

/// The 32-bit big-endian field at offset `i`.
pub open spec fn be32(b: Seq<u8>, i: int) -> u32 {
    (b[i] as nat * 0x1000000 + b[i + 1] as nat * 0x10000 + b[i + 2] as nat * 0x100 + b[i
        + 3] as nat) as u32
}

/// The four bytes of `v` put together again give `v`.
pub proof fn lemma_be32_bytes(v: u32)
    ensures
        be32(be32_bytes(v), 0) == v,
{
    assert(((v / 0x1000000) as u8) as nat * 0x1000000 + (((v / 0x10000) % 0x100) as u8) as nat
        * 0x10000 + (((v / 0x100) % 0x100) as u8) as nat * 0x100 + ((v % 0x100) as u8) as nat
        == v) by (nonlinear_arith);
}

/// Appends the four bytes of `v`, most significant first.
pub fn push_be32(buf: &mut Vec<u8>, v: u32)
    ensures
        final(buf)@ == old(buf)@ + be32_bytes(v),
{
    buf.push((v / 0x1000000) as u8);
    buf.push(((v / 0x10000) % 0x100) as u8);
    buf.push(((v / 0x100) % 0x100) as u8);
    buf.push((v % 0x100) as u8);
    assert(final(buf)@ =~= old(buf)@ + be32_bytes(v));
}

/// Appends the bytes of `data`.
pub fn extend_bytes(buf: &mut Vec<u8>, data: &[u8])
    ensures
        final(buf)@ == old(buf)@ + data@,
{
    let n = data.len();
    for i in 0..n
        invariant
            n == data@.len(),
            buf@ =~= old(buf)@ + data@.subrange(0, i as int),
    {
        buf.push(data[i]);
        assert(data@.subrange(0, i + 1) =~= data@.subrange(0, i as int).push(data@[i as int]));
    }
    assert(data@.subrange(0, n as int) =~= data@);
}

// --- hex dump ---
/// The lower-case hexadecimal digit of `d` (below 16).
pub open spec fn hex_digit(d: nat) -> char {
    if d < 10 {
        (48 + d) as char
    } else {
        (87 + d) as char
    }
}

/// Lower-case hexadecimal notation of `n`, without leading zeros.
pub open spec fn hex_digits(n: nat) -> Seq<char>
    decreases n,
{
    if n < 16 {
        seq![hex_digit(n)]
    } else {
        hex_digits(n / 16).push(hex_digit(n % 16))
    }
}

/// Hexadecimal notation of an offset, padded with zeros to four digits.
pub open spec fn hex4(n: nat) -> Seq<char> {
    if n < 0x10 {
        seq!['0', '0', '0'] + hex_digits(n)
    } else if n < 0x100 {
        seq!['0', '0'] + hex_digits(n)
    } else if n < 0x1000 {
        seq!['0'] + hex_digits(n)
    } else {
        hex_digits(n)
    }
}

/// Column `i` of the hex part of a line: two digits and a space, or three
/// spaces past the end of the chunk.
pub open spec fn hex_col(chunk: Seq<u8>, i: int) -> Seq<char> {
    if i < chunk.len() {
        seq![hex_digit((chunk[i] / 16) as nat), hex_digit((chunk[i] % 16) as nat), ' ']
    } else {
        seq![' ', ' ', ' ']
    }
}

/// Column `i` of the text part of a line: the byte itself if it is a visible
/// ASCII character or a space, a dot otherwise, a space past the end.
pub open spec fn text_col(chunk: Seq<u8>, i: int) -> char {
    if i < chunk.len() {
        if 0x20 <= chunk[i] <= 0x7e {
            chunk[i] as char
        } else {
            '.'
        }
    } else {
        ' '
    }
}

pub open spec fn hex_cols(chunk: Seq<u8>, n: nat) -> Seq<char>
    decreases n,
{
    if n == 0 {
        Seq::<char>::empty()
    } else {
        hex_cols(chunk, (n - 1) as nat) + hex_col(chunk, n - 1)
    }
}

pub open spec fn text_cols(chunk: Seq<u8>, n: nat) -> Seq<char>
    decreases n,
{
    if n == 0 {
        Seq::<char>::empty()
    } else {
        text_cols(chunk, (n - 1) as nat).push(text_col(chunk, n - 1))
    }
}

/// One line of the dump: the offset, sixteen hex columns, sixteen text columns.
pub open spec fn dump_line(chunk: Seq<u8>, offset: nat) -> Seq<char> {
    "| "@ + hex4(offset) + " | "@ + hex_cols(chunk, 16) + "| "@ + text_cols(chunk, 16) + " |\n"@
}

/// The lines of the dump of `d`, whose first byte is at offset `base`.
pub open spec fn dump_lines(d: Seq<u8>, base: nat) -> Seq<char>
    decreases d.len(),
{
    if d.len() == 0 {
        Seq::<char>::empty()
    } else if d.len() <= 16 {
        dump_line(d, base)
    } else {
        dump_line(d.take(16), base) + dump_lines(d.skip(16), base + 16)
    }
}

pub const DUMP_BORDER: &'static str = "+------+-------------------------------------------------+------------------+";

/// The whole dump: a border, one line per 16 bytes, a border.
pub open spec fn hex_dump_spec(d: Seq<u8>) -> Seq<char> {
    DUMP_BORDER@ + "\n"@ + dump_lines(d, 0) + DUMP_BORDER@
}

fn hex_char(d: u8) -> (c: char)
    requires
        d < 16,
    ensures
        c == hex_digit(d as nat),
{
    if d < 10 {
        (48u8 + d) as char
    } else {
        (87u8 + d) as char
    }
}

fn push_hex(s: &mut String, n: usize)
    ensures
        final(s)@ == old(s)@ + hex_digits(n as nat),
    decreases n,
{
    if n >= 16 {
        push_hex(s, n / 16);
    }
    let c = hex_char((n % 16) as u8);
    push_char(s, c);
    assert(final(s)@ =~= old(s)@ + hex_digits(n as nat));
}

fn push_line(out: &mut String, chunk: &[u8], offset: usize)
    ensures
        final(out)@ == old(out)@ + dump_line(chunk@, offset as nat),
{
    out.append("| ");
    if offset < 0x10 {
        out.append("000");
    } else if offset < 0x100 {
        out.append("00");
    } else if offset < 0x1000 {
        out.append("0");
    }
    push_hex(out, offset);
    out.append(" | ");
    let ghost mid = out@;
    let mut i: usize = 0;
    while i < 16
        invariant
            i <= 16,
            out@ == mid + hex_cols(chunk@, i as nat),
        decreases 16 - i,
    {
        if i < chunk.len() {
            let b = chunk[i];
            push_char(out, hex_char(b / 16));
            push_char(out, hex_char(b % 16));
            push_char(out, ' ');
        } else {
            push_char(out, ' ');
            push_char(out, ' ');
            push_char(out, ' ');
        }
        i = i + 1;
        assert(out@ =~= mid + hex_cols(chunk@, i as nat));
    }
    out.append("| ");
    let ghost mid2 = out@;
    let mut i: usize = 0;
    while i < 16
        invariant
            i <= 16,
            out@ == mid2 + text_cols(chunk@, i as nat),
        decreases 16 - i,
    {
        if i < chunk.len() {
            let b = chunk[i];
            if 0x20 <= b && b <= 0x7e {
                push_char(out, b as char);
            } else {
                push_char(out, '.');
            }
        } else {
            push_char(out, ' ');
        }
        i = i + 1;
        assert(out@ =~= mid2 + text_cols(chunk@, i as nat));
    }
    out.append(" |\n");
    proof {
        reveal_strlit("000");
        reveal_strlit("00");
        reveal_strlit("0");
        assert(out@ =~= old(out)@ + dump_line(chunk@, offset as nat));
    }
}

/// Bytes shown as a hex dump, sixteen to a line.
pub struct HexDump<'a>(pub &'a [u8]);

impl<'a> HexDump<'a> {
    /// The dump as text.
    pub fn render(&self) -> (r: String)
        ensures
            r@ == hex_dump_spec(self.0@),
    {
        let data = self.0;
        let mut out = String::new();
        out.append(DUMP_BORDER);
        out.append("\n");
        let ghost head = out@;
        let mut off: usize = 0;
        assert(data@.skip(0) =~= data@);
        while off < data.len()
            invariant
                off <= data@.len(),
                head + dump_lines(data@, 0) == out@ + dump_lines(data@.skip(off as int), off as nat),
            decreases data@.len() - off,
        {
            let end = if data.len() - off <= 16 {
                data.len()
            } else {
                off + 16
            };
            let chunk = vstd::slice::slice_subrange(data, off, end);
            let ghost rest = data@.skip(off as int);
            push_line(&mut out, chunk, off);
            proof {
                if rest.len() <= 16 {
                    assert(chunk@ =~= rest);
                    assert(data@.skip(end as int) =~= Seq::<u8>::empty());
                } else {
                    assert(chunk@ =~= rest.take(16));
                    assert(rest.skip(16) =~= data@.skip(end as int));
                }
            }
            off = end;
        }
        assert(data@.skip(off as int) =~= Seq::<u8>::empty());
        out.append(DUMP_BORDER);
        assert(out@ =~= hex_dump_spec(data@));
        out
    }
}

} // verus!
