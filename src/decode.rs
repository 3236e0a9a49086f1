//! Incremental decoding of a byte pipe into valid text chunks.
//!
//! Bytes are decoded as UTF-8. Each maximal invalid subsequence (a byte that
//! can never start a character, or a well-formed prefix of a character that is
//! cut short by an unexpected byte) becomes one U+FFFD. A well-formed prefix at
//! the end of the bytes read so far is carried over to the next read; at the end
//! of the stream it becomes one U+FFFD.

use vstd::prelude::*;
use vstd::utf8::{
    decode_first_scalar, decode_utf8, is_scalar, length_of_first_scalar, pop_first_scalar,
    valid_first_scalar, valid_utf8,
};

use crate::chars::string_from_chars;

verus! {

/// The character that stands for one maximal invalid byte sequence.
pub const REPLACEMENT: char = '\u{FFFD}';

/// Number of bytes of the sequence that a leading byte announces, or 0 when the
/// byte cannot start a well-formed sequence.
pub open spec fn lead_len(b: u8) -> nat {
    if b <= 0x7f {
        1
    } else if 0xc2 <= b && b <= 0xdf {
        2
    } else if 0xe0 <= b && b <= 0xef {
        3
    } else if 0xf0 <= b && b <= 0xf4 {
        4
    } else {
        0
    }
}

/// Whether `b` may stand at position `i` (1, 2 or 3) of a sequence led by `b0`.
pub open spec fn cont_ok(b0: u8, i: int, b: u8) -> bool {
    if i == 1 {
        if b0 == 0xe0 {
            0xa0 <= b && b <= 0xbf
        } else if b0 == 0xed {
            0x80 <= b && b <= 0x9f
        } else if b0 == 0xf0 {
            0x90 <= b && b <= 0xbf
        } else if b0 == 0xf4 {
            0x80 <= b && b <= 0x8f
        } else {
            0x80 <= b && b <= 0xbf
        }
    } else {
        0x80 <= b && b <= 0xbf
    }
}

/// How many bytes after a valid leading byte continue its sequence, in order,
/// among those present.
pub open spec fn accepted(s: Seq<u8>) -> nat {
    let n = lead_len(s[0]);
    if n >= 2 && s.len() >= 2 && cont_ok(s[0], 1, s[1]) {
        if n >= 3 && s.len() >= 3 && cont_ok(s[0], 2, s[2]) {
            if n >= 4 && s.len() >= 4 && cont_ok(s[0], 3, s[3]) {
                3
            } else {
                2
            }
        } else {
            1
        }
    } else {
        0
    }
}

/// What stands at the start of a non-empty byte sequence.
pub enum Unit {
    /// A well-formed character of this many bytes.
    Char(nat),
    /// A maximal invalid sequence of this many bytes.
    Bad(nat),
    /// All remaining bytes form a proper prefix of a well-formed character.
    Partial,
}

/// Classifies the start of a non-empty byte sequence; a cut-short character is
/// invalid as soon as a byte that cannot continue it is present.
pub open spec fn unit(s: Seq<u8>) -> Unit {
    let n = lead_len(s[0]);
    if n == 0 {
        Unit::Bad(1)
    } else if accepted(s) + 1 == n {
        Unit::Char(n)
    } else if accepted(s) + 1 < s.len() {
        Unit::Bad(accepted(s) + 1)
    } else {
        Unit::Partial
    }
}

/// The scalar value that a well-formed sequence of `n` bytes encodes.
pub open spec fn scalar(s: Seq<u8>, n: nat) -> int {
    if n == 1 {
        s[0] as int
    } else if n == 2 {
        (s[0] - 0xc0) * 0x40 + (s[1] - 0x80)
    } else if n == 3 {
        (s[0] - 0xe0) * 0x1000 + (s[1] - 0x80) * 0x40 + (s[2] - 0x80)
    } else {
        (s[0] - 0xf0) * 0x40000 + (s[1] - 0x80) * 0x1000 + (s[2] - 0x80) * 0x40 + (s[3] - 0x80)
    }
}

/// The character that a well-formed sequence of `n` bytes encodes.
pub open spec fn char_of(s: Seq<u8>, n: nat) -> char {
    (scalar(s, n) as u32) as char
}

/// Decoding of a complete byte stream: one replacement character per maximal
/// invalid sequence, including a cut-short character at the very end.
pub open spec fn lossy(s: Seq<u8>) -> Seq<char>
    decreases s.len(),
{
    if s.len() == 0 {
        seq![]
    } else {
        match unit(s) {
            Unit::Char(n) => if 1 <= n <= s.len() {
                seq![char_of(s, n)] + lossy(s.subrange(n as int, s.len() as int))
            } else {
                seq![]
            },
            Unit::Bad(n) => if 1 <= n <= s.len() {
                seq![REPLACEMENT] + lossy(s.subrange(n as int, s.len() as int))
            } else {
                seq![]
            },
            Unit::Partial => seq![REPLACEMENT],
        }
    }
}

pub proof fn lemma_unit_bounds(s: Seq<u8>)
    requires
        s.len() > 0,
    ensures
        match unit(s) {
            Unit::Char(n) => 1 <= n <= s.len() && n <= 4 && is_scalar(scalar(s, n) as u32)
                && 0 <= scalar(s, n) <= 0x10ffff,
            Unit::Bad(n) => 1 <= n <= s.len() && n <= 3,
            Unit::Partial => s.len() <= 3,
        },
{
}


/// Decoding of the bytes read so far: the text that can be decided now, and the
/// proper prefix of a character at the end that waits for more bytes.
pub open spec fn ready(s: Seq<u8>) -> (Seq<char>, Seq<u8>)
    decreases s.len(),
{
    if s.len() == 0 {
        (seq![], seq![])
    } else {
        match unit(s) {
            Unit::Char(n) => if 1 <= n <= s.len() {
                let r = ready(s.subrange(n as int, s.len() as int));
                (seq![char_of(s, n)] + r.0, r.1)
            } else {
                (seq![], s)
            },
            Unit::Bad(n) => if 1 <= n <= s.len() {
                let r = ready(s.subrange(n as int, s.len() as int));
                (seq![REPLACEMENT] + r.0, r.1)
            } else {
                (seq![], s)
            },
            Unit::Partial => (seq![], s),
        }
    }
}

/// Bytes that may wait for the next read: none, or a proper prefix of a character.
pub open spec fn is_carry(c: Seq<u8>) -> bool {
    c.len() == 0 || unit(c) is Partial
}

/// All bytes of a sequence of reads, in order.
pub open spec fn flatten(reads: Seq<Seq<u8>>) -> Seq<u8>
    decreases reads.len(),
{
    if reads.len() == 0 {
        seq![]
    } else {
        reads[0] + flatten(reads.drop_first())
    }
}

/// Text emitted for a sequence of reads that starts with `carry` waiting, the
/// stream ending after the last read.
pub open spec fn streamed(carry: Seq<u8>, reads: Seq<Seq<u8>>) -> Seq<char>
    decreases reads.len(),
{
    if reads.len() == 0 {
        lossy(carry)
    } else {
        let r = ready(carry + reads[0]);
        r.0 + streamed(r.1, reads.drop_first())
    }
}

/// Concatenation of text chunks, in order.
pub open spec fn joined(parts: Seq<Seq<char>>) -> Seq<char>
    decreases parts.len(),
{
    if parts.len() == 0 {
        seq![]
    } else {
        parts[0] + joined(parts.drop_first())
    }
}

/// Whether the decided text of `t` starts with a character (rather than with
/// a replacement, or nothing).
pub open spec fn starts_text(t: Seq<u8>) -> bool {
    t.len() > 0 && unit(t) is Char
}

/// The chunks emitted for the bytes read so far: each maximal run of
/// characters as one chunk, each invalid sequence as a chunk of one
/// replacement character.
pub open spec fn ready_chunks(s: Seq<u8>) -> Seq<Seq<char>>
    decreases s.len(),
{
    if s.len() == 0 {
        seq![]
    } else {
        match unit(s) {
            Unit::Char(n) => if 1 <= n <= s.len() {
                let t = s.subrange(n as int, s.len() as int);
                let r = ready_chunks(t);
                if starts_text(t) && r.len() > 0 {
                    seq![seq![char_of(s, n)] + r[0]] + r.drop_first()
                } else {
                    seq![seq![char_of(s, n)]] + r
                }
            } else {
                seq![]
            },
            Unit::Bad(n) => if 1 <= n <= s.len() {
                seq![seq![REPLACEMENT]] + ready_chunks(s.subrange(n as int, s.len() as int))
            } else {
                seq![]
            },
            Unit::Partial => seq![],
        }
    }
}

/// The chunks of `t` with a pending run of characters `run` in front.
pub open spec fn attach(run: Seq<char>, t: Seq<u8>) -> Seq<Seq<char>> {
    let r = ready_chunks(t);
    if run.len() == 0 {
        r
    } else if starts_text(t) && r.len() > 0 {
        seq![run + r[0]] + r.drop_first()
    } else {
        seq![run] + r
    }
}

proof fn lemma_joined_prepend(x: Seq<char>, r: Seq<Seq<char>>)
    ensures
        joined(seq![x] + r) == x + joined(r),
{
    assert((seq![x] + r).drop_first() =~= r);
}

/// The chunks hold exactly the decided text, and none is empty.
pub proof fn lemma_ready_chunks_text(s: Seq<u8>)
    ensures
        joined(ready_chunks(s)) == ready(s).0,
        forall|k: int| 0 <= k < ready_chunks(s).len() ==> #[trigger] ready_chunks(s)[k].len() > 0,
    decreases s.len(),
{
    if s.len() > 0 {
        lemma_unit_bounds(s);
        match unit(s) {
            Unit::Char(n) => {
                let t = s.subrange(n as int, s.len() as int);
                let r = ready_chunks(t);
                lemma_ready_chunks_text(t);
                let c = seq![char_of(s, n)];
                if starts_text(t) && r.len() > 0 {
                    lemma_joined_prepend(c + r[0], r.drop_first());
                    assert(r =~= seq![r[0]] + r.drop_first());
                    lemma_joined_prepend(r[0], r.drop_first());
                    assert(c + r[0] + joined(r.drop_first()) =~= c + (r[0] + joined(
                        r.drop_first(),
                    )));
                    let out = ready_chunks(s);
                    assert forall|k: int| 0 <= k < out.len() implies #[trigger] out[k].len()
                        > 0 by {
                        if k > 0 {
                            assert(out[k] == r[k]);
                        }
                    }
                } else {
                    lemma_joined_prepend(c, r);
                    let out = ready_chunks(s);
                    assert forall|k: int| 0 <= k < out.len() implies #[trigger] out[k].len()
                        > 0 by {
                        if k > 0 {
                            assert(out[k] == r[k - 1]);
                        }
                    }
                }
            },
            Unit::Bad(n) => {
                let t = s.subrange(n as int, s.len() as int);
                lemma_ready_chunks_text(t);
                lemma_joined_prepend(seq![REPLACEMENT], ready_chunks(t));
                let out = ready_chunks(s);
                assert forall|k: int| 0 <= k < out.len() implies #[trigger] out[k].len() > 0 by {
                    if k > 0 {
                        assert(out[k] == ready_chunks(t)[k - 1]);
                    }
                }
            },
            Unit::Partial => {},
        }
    }
}

/// The text of emitted chunks.
pub open spec fn chunk_texts(chunks: Seq<String>) -> Seq<Seq<char>> {
    chunks.map_values(|c: String| c@)
}

proof fn lemma_unit_extend(s: Seq<u8>, t: Seq<u8>)
    requires
        s.len() > 0,
        !(unit(s) is Partial),
    ensures
        unit(s + t) == unit(s),
        match unit(s) {
            Unit::Char(n) => scalar(s + t, n) == scalar(s, n) && (s + t).subrange(
                n as int,
                (s + t).len() as int,
            ) == s.subrange(n as int, s.len() as int) + t,
            Unit::Bad(n) => (s + t).subrange(n as int, (s + t).len() as int) == s.subrange(
                n as int,
                s.len() as int,
            ) + t,
            Unit::Partial => true,
        },
{
    lemma_unit_bounds(s);
    let u = s + t;
    assert(u[0] == s[0]);
    if s.len() >= 2 {
        assert(u[1] == s[1]);
    }
    if s.len() >= 3 {
        assert(u[2] == s[2]);
    }
    if s.len() >= 4 {
        assert(u[3] == s[3]);
    }
    match unit(s) {
        Unit::Char(n) => {
            assert(u.subrange(n as int, u.len() as int) =~= s.subrange(n as int, s.len() as int)
                + t);
        },
        Unit::Bad(n) => {
            assert(u.subrange(n as int, u.len() as int) =~= s.subrange(n as int, s.len() as int)
                + t);
        },
        Unit::Partial => {},
    }
}

/// Decoding a whole stream equals the text decided on a prefix of it followed by
/// the decoding of what waits and the rest of the stream.
pub proof fn lemma_ready_then_rest(s: Seq<u8>, t: Seq<u8>)
    ensures
        lossy(s + t) == ready(s).0 + lossy(ready(s).1 + t),
        is_carry(ready(s).1),
    decreases s.len(),
{
    if s.len() == 0 {
        assert(s + t =~= t);
        assert(ready(s).1 + t =~= t);
    } else {
        lemma_unit_bounds(s);
        match unit(s) {
            Unit::Char(n) => {
                lemma_unit_extend(s, t);
                let rest = s.subrange(n as int, s.len() as int);
                lemma_ready_then_rest(rest, t);
                assert(lossy(s + t) == seq![char_of(s, n)] + lossy(rest + t));
                assert(ready(s).0 == seq![char_of(s, n)] + ready(rest).0);
                assert(seq![char_of(s, n)] + ready(rest).0 + lossy(ready(rest).1 + t)
                    =~= seq![char_of(s, n)] + (ready(rest).0 + lossy(ready(rest).1 + t)));
            },
            Unit::Bad(n) => {
                lemma_unit_extend(s, t);
                let rest = s.subrange(n as int, s.len() as int);
                lemma_ready_then_rest(rest, t);
                assert(lossy(s + t) == seq![REPLACEMENT] + lossy(rest + t));
                assert(seq![REPLACEMENT] + ready(rest).0 + lossy(ready(rest).1 + t)
                    =~= seq![REPLACEMENT] + (ready(rest).0 + lossy(ready(rest).1 + t)));
            },
            Unit::Partial => {
                assert(seq![] + lossy(s + t) =~= lossy(s + t));
            },
        }
    }
}

/// Splitting a byte stream into reads at arbitrary offsets does not change the
/// text: what the reads emit, followed by what the end of the stream flushes,
/// is the decoding of all bytes at once.
pub proof fn lemma_streamed_equals_whole(carry: Seq<u8>, reads: Seq<Seq<u8>>)
    ensures
        streamed(carry, reads) == lossy(carry + flatten(reads)),
    decreases reads.len(),
{
    if reads.len() == 0 {
        assert(carry + flatten(reads) =~= carry);
    } else {
        let r = ready(carry + reads[0]);
        lemma_streamed_equals_whole(r.1, reads.drop_first());
        lemma_ready_then_rest(carry + reads[0], flatten(reads.drop_first()));
        assert(carry + reads[0] + flatten(reads.drop_first()) =~= carry + flatten(reads));
    }
}

/// The decoder's output for reads split anywhere is the decoding of their
/// concatenation, with one replacement per maximal invalid sequence; when the
/// stream is valid text, it is exactly that text.
pub proof fn lemma_split_reads_decode_as_whole(reads: Seq<Seq<u8>>)
    ensures
        streamed(seq![], reads) == lossy(flatten(reads)),
        valid_utf8(flatten(reads)) ==> streamed(seq![], reads) == decode_utf8(flatten(reads)),
{
    lemma_streamed_equals_whole(seq![], reads);
    assert(seq![] + flatten(reads) =~= flatten(reads));
    if valid_utf8(flatten(reads)) {
        lemma_lossy_of_valid(flatten(reads));
    }
}


proof fn lemma_low_bits(b: u8)
    ensures
        0x80 <= b <= 0xbf ==> (b & 0x3f) == b - 0x80,
        0xc0 <= b <= 0xdf ==> (b & 0x1f) == b - 0xc0,
        0xe0 <= b <= 0xef ==> (b & 0x0f) == b - 0xe0,
        0xf0 <= b <= 0xf7 ==> (b & 0x07) == b - 0xf0,
        b <= 0x7f ==> (b & 0x7f) == b,
{
    assert(0x80 <= b <= 0xbf ==> (b & 0x3f) == b - 0x80) by (bit_vector);
    assert(0xc0 <= b <= 0xdf ==> (b & 0x1f) == b - 0xc0) by (bit_vector);
    assert(0xe0 <= b <= 0xef ==> (b & 0x0f) == b - 0xe0) by (bit_vector);
    assert(0xf0 <= b <= 0xf7 ==> (b & 0x07) == b - 0xf0) by (bit_vector);
    assert(b <= 0x7f ==> (b & 0x7f) == b) by (bit_vector);
}

proof fn lemma_shift_or(x: u32, y: u32, k: u32)
    requires
        y < 64,
        k == 6 || k == 12 || k == 18,
        x < 0x8000,
        k == 18 ==> x < 8,
    ensures
        k == 6 ==> (x << 6) | y == x * 64 + y,
        k == 12 ==> (x << 12) | (y << 6) == (x * 64 + y) * 64 && x * 64 + y < 0x200000,
        k == 18 ==> (x << 18) | (y << 12) == (x * 64 + y) * 4096 && x * 64 + y < 0x200,
{
    assert(y < 64 && x < 0x8000 ==> (x << 6) | y == x * 64 + y) by (bit_vector);
    if k == 12 {
        assert(y < 64 && x < 0x8000 ==> (x << 12) | (y << 6) == (x * 64 + y) * 64) by (bit_vector);
    }
    if k == 18 {
        assert(y < 64 && x < 8 ==> (x << 18) | (y << 12) == (x * 64 + y) * 4096) by (bit_vector);
    }
}

/// A well-formed first character in the standard definition is a character
/// here too, of the same length and value.
proof fn lemma_standard_first_char(s: Seq<u8>)
    requires
        s.len() > 0,
        valid_first_scalar(s),
    ensures
        unit(s) == Unit::Char(length_of_first_scalar(s) as nat),
        scalar(s, length_of_first_scalar(s) as nat) == decode_first_scalar(s) as int,
{
    lemma_low_bits(s[0]);
    if s.len() > 1 {
        lemma_low_bits(s[1]);
    }
    if s.len() > 2 {
        lemma_low_bits(s[2]);
    }
    if s.len() > 3 {
        lemma_low_bits(s[3]);
    }
    let n = length_of_first_scalar(s);
    if n == 2 {
        lemma_shift_or((s[0] & 0x1f) as u32, (s[1] & 0x3f) as u32, 6);
    } else if n == 3 {
        let x = (s[0] & 0x0f) as u32;
        let y = (s[1] & 0x3f) as u32;
        let z = (s[2] & 0x3f) as u32;
        lemma_shift_or(x, y, 12);
        let xy = ((x << 12) | (y << 6));
        assert(xy & 0x3f == 0 && z < 64 ==> xy | z == xy + z) by (bit_vector);
        assert(xy & 0x3f == 0) by (bit_vector)
            requires
                xy == ((x << 12) | (y << 6)),
        ;
    } else if n == 4 {
        let x = (s[0] & 0x07) as u32;
        let y = (s[1] & 0x3f) as u32;
        let z = (s[2] & 0x3f) as u32;
        let w = (s[3] & 0x3f) as u32;
        lemma_shift_or(x, y, 18);
        let xy = ((x << 18) | (y << 12));
        let zw = (z << 6) | w;
        lemma_shift_or(z, w, 6);
        assert(xy & 0xfff == 0 && zw < 4096 ==> (xy | (z << 6)) | w == xy + zw) by (bit_vector)
            requires
                zw == (z << 6) | w,
        ;
        assert(xy & 0xfff == 0) by (bit_vector)
            requires
                xy == ((x << 18) | (y << 12)),
        ;
    }
}

/// On well-formed input the decoding is the standard UTF-8 decoding.
pub proof fn lemma_lossy_of_valid(s: Seq<u8>)
    requires
        valid_utf8(s),
    ensures
        lossy(s) == decode_utf8(s),
    decreases s.len(),
{
    if s.len() > 0 {
        lemma_standard_first_char(s);
        lemma_unit_bounds(s);
        let n = length_of_first_scalar(s);
        assert(pop_first_scalar(s) == s.subrange(n, s.len() as int));
        lemma_lossy_of_valid(pop_first_scalar(s));
        assert(char_of(s, n as nat) == decode_first_scalar(s) as char);
    }
}

/// Relies on char::from_u32: every Unicode scalar value is a `char`.
#[verifier::external_body]
fn scalar_to_char(v: u32) -> (c: char)
    requires
        is_scalar(v),
    ensures
        c == v as char,
{
    char::from_u32(v).unwrap_or(REPLACEMENT)
}

/// A chunk holding one replacement character.
fn replacement_chunk() -> (r: String)
    ensures
        r@ == seq![REPLACEMENT],
{
    let v: Vec<char> = vec![REPLACEMENT];
    assert(v@ =~= seq![REPLACEMENT]);
    string_from_chars(v.as_slice())
}

/// What stands at one position of a buffer, as found by [`classify`].
pub enum Step {
    Char(char, usize),
    Bad(usize),
    Partial,
}

pub open spec fn step_matches(st: Step, s: Seq<u8>) -> bool {
    match st {
        Step::Char(c, n) => unit(s) == Unit::Char(n as nat) && c == char_of(s, n as nat),
        Step::Bad(n) => unit(s) == Unit::Bad(n as nat),
        Step::Partial => unit(s) is Partial,
    }
}

fn in_range(b: u8, lo: u8, hi: u8) -> (r: bool)
    ensures
        r == (lo <= b && b <= hi),
{
    lo <= b && b <= hi
}

/// Classifies the bytes of `buf` from position `i` on.
pub fn classify(buf: &[u8], i: usize) -> (st: Step)
    requires
        i < buf@.len(),
    ensures
        step_matches(st, buf@.subrange(i as int, buf@.len() as int)),
{
    let ghost s = buf@.subrange(i as int, buf@.len() as int);
    proof {
        lemma_unit_bounds(s);
    }
    let avail = buf.len() - i;
    let b0 = buf[i];
    let n: usize = if b0 <= 0x7f {
        1
    } else if in_range(b0, 0xc2, 0xdf) {
        2
    } else if in_range(b0, 0xe0, 0xef) {
        3
    } else if in_range(b0, 0xf0, 0xf4) {
        4
    } else {
        0
    };
    assert(n == lead_len(s[0]));
    if n == 0 {
        return Step::Bad(1);
    }
    let mut acc: usize = 0;
    if n >= 2 && avail >= 2 {
        let b1 = buf[i + 1];
        let ok1 = if b0 == 0xe0 {
            in_range(b1, 0xa0, 0xbf)
        } else if b0 == 0xed {
            in_range(b1, 0x80, 0x9f)
        } else if b0 == 0xf0 {
            in_range(b1, 0x90, 0xbf)
        } else if b0 == 0xf4 {
            in_range(b1, 0x80, 0x8f)
        } else {
            in_range(b1, 0x80, 0xbf)
        };
        assert(ok1 == cont_ok(s[0], 1, s[1]));
        if ok1 {
            acc = 1;
            if n >= 3 && avail >= 3 && in_range(buf[i + 2], 0x80, 0xbf) {
                acc = 2;
                if n >= 4 && avail >= 4 && in_range(buf[i + 3], 0x80, 0xbf) {
                    acc = 3;
                }
            }
        }
    }
    assert(acc == accepted(s));
    if acc + 1 == n {
        let v: u32 = if n == 1 {
            b0 as u32
        } else if n == 2 {
            (b0 as u32 - 0xc0) * 0x40 + (buf[i + 1] as u32 - 0x80)
        } else if n == 3 {
            (b0 as u32 - 0xe0) * 0x1000 + (buf[i + 1] as u32 - 0x80) * 0x40 + (buf[i + 2] as u32
                - 0x80)
        } else {
            (b0 as u32 - 0xf0) * 0x40000 + (buf[i + 1] as u32 - 0x80) * 0x1000 + (buf[i + 2] as u32
                - 0x80) * 0x40 + (buf[i + 3] as u32 - 0x80)
        };
        assert(v == scalar(s, n as nat));
        Step::Char(scalar_to_char(v), n)
    } else if acc + 1 < avail {
        Step::Bad(acc + 1)
    } else {
        Step::Partial
    }
}

/// Stateful decoder of one run's output pipe: holds the bytes of a character
/// whose end has not been read yet.
pub struct OutputDecoder {
    carry: Vec<u8>,
}

impl View for OutputDecoder {
    type V = Seq<u8>;

    closed spec fn view(&self) -> Seq<u8> {
        self.carry@
    }
}

impl OutputDecoder {
    /// The decoder's invariant: what waits is a proper prefix of a character.
    pub open spec fn wf(&self) -> bool {
        is_carry(self@)
    }

    pub fn new() -> (d: Self)
        ensures
            d@ == Seq::<u8>::empty(),
            d.wf(),
    {
        OutputDecoder { carry: Vec::new() }
    }

    /// Feeds the bytes of one read. Returns the chunks that can be emitted now:
    /// each run of valid text as one chunk, each invalid sequence as a chunk of
    /// one replacement character.
    pub fn feed(&mut self, data: &[u8]) -> (chunks: Vec<String>)
        requires
            old(self).wf(),
        ensures
            final(self).wf(),
            chunk_texts(chunks@) == ready_chunks(old(self)@ + data@),
            joined(chunk_texts(chunks@)) == ready(old(self)@ + data@).0,
            final(self)@ == ready(old(self)@ + data@).1,
            forall|k: int| 0 <= k < chunks@.len() ==> #[trigger] chunks@[k]@.len() > 0,
    {
        let mut buf: Vec<u8> = Vec::new();
        buf.append(&mut self.carry);
        let mut j: usize = 0;
        while j < data.len()
            invariant
                j <= data@.len(),
                buf@ == old(self)@ + data@.subrange(0, j as int),
            decreases data@.len() - j,
        {
            buf.push(data[j]);
            j += 1;
            assert(buf@ =~= old(self)@ + data@.subrange(0, j as int));
        }
        assert(data@.subrange(0, data@.len() as int) =~= data@);
        let (chunks, rest) = decode_ready(&buf);
        proof {
            lemma_ready_then_rest(buf@, seq![]);
            lemma_ready_chunks_text(buf@);
            assert forall|k: int| 0 <= k < chunks@.len() implies #[trigger] chunks@[k]@.len()
                > 0 by {
                assert(chunk_texts(chunks@)[k] == chunks@[k]@);
            }
        }
        self.carry = rest;
        chunks
    }

    /// Ends the stream: a character cut short becomes one replacement character.
    pub fn finish(&mut self) -> (chunks: Vec<String>)
        requires
            old(self).wf(),
        ensures
            final(self)@ == Seq::<u8>::empty(),
            final(self).wf(),
            chunk_texts(chunks@) == if old(self)@.len() > 0 {
                seq![seq![REPLACEMENT]]
            } else {
                Seq::<Seq<char>>::empty()
            },
            joined(chunk_texts(chunks@)) == lossy(old(self)@),
            forall|k: int| 0 <= k < chunks@.len() ==> #[trigger] chunks@[k]@.len() > 0,
    {
        let mut chunks: Vec<String> = Vec::new();
        if self.carry.len() > 0 {
            chunks.push(replacement_chunk());
            proof {
                assert(unit(old(self)@) is Partial);
                assert(chunk_texts(chunks@) =~= seq![seq![REPLACEMENT]]);
                lemma_joined_prepend(seq![REPLACEMENT], Seq::<Seq<char>>::empty());
                assert(seq![seq![REPLACEMENT]] =~= seq![seq![REPLACEMENT]] + Seq::<
                    Seq<char>,
                >::empty());
                assert(seq![REPLACEMENT] + Seq::<char>::empty() =~= seq![REPLACEMENT]);
            }
        } else {
            assert(chunk_texts(chunks@) =~= Seq::<Seq<char>>::empty());
            assert(old(self)@.len() == 0);
        }
        self.carry = Vec::new();
        chunks
    }
}

proof fn lemma_joined_concat(a: Seq<Seq<char>>, b: Seq<Seq<char>>)
    ensures
        joined(a + b) == joined(a) + joined(b),
    decreases a.len(),
{
    if a.len() == 0 {
        assert(a + b =~= b);
    } else {
        lemma_joined_concat(a.drop_first(), b);
        assert((a + b).drop_first() =~= a.drop_first() + b);
    }
}

/// The views of a sequence of byte buffers.
pub open spec fn read_views(reads: Seq<Vec<u8>>) -> Seq<Seq<u8>> {
    reads.map_values(|r: Vec<u8>| r@)
}

/// Runs one decoder over a whole series of reads and the end of the stream,
/// returning every chunk in order: their text is the decoding of all the bytes
/// at once, however the stream was split into reads.
pub fn decode_reads(reads: &Vec<Vec<u8>>) -> (chunks: Vec<String>)
    ensures
        joined(chunk_texts(chunks@)) == lossy(flatten(read_views(reads@))),
        forall|k: int| 0 <= k < chunks@.len() ==> #[trigger] chunks@[k]@.len() > 0,
{
    let ghost all = read_views(reads@);
    let mut d = OutputDecoder::new();
    let mut out: Vec<String> = Vec::new();
    let mut i: usize = 0;
    proof {
        assert(all.subrange(0, all.len() as int) =~= all);
        assert(Seq::<u8>::empty() + flatten(all) =~= flatten(all));
        assert(chunk_texts(out@) =~= Seq::<Seq<char>>::empty());
    }
    while i < reads.len()
        invariant
            i <= reads@.len() == all.len(),
            all == read_views(reads@),
            d.wf(),
            joined(chunk_texts(out@)) + lossy(d@ + flatten(all.subrange(i as int, all.len() as int)))
                == lossy(flatten(all)),
            forall|k: int| 0 <= k < out@.len() ==> #[trigger] out@[k]@.len() > 0,
        decreases reads@.len() - i,
    {
        let ghost before = d@;
        let ghost rest = all.subrange(i as int + 1, all.len() as int);
        let new = d.feed(reads[i].as_slice());
        proof {
            let cur = all.subrange(i as int, all.len() as int);
            assert(cur.drop_first() =~= rest);
            assert(cur[0] == reads@[i as int]@);
            assert(flatten(cur) == reads@[i as int]@ + flatten(rest));
            lemma_ready_then_rest(before + reads@[i as int]@, flatten(rest));
            assert(before + flatten(cur) =~= before + reads@[i as int]@ + flatten(rest));
            lemma_joined_concat(chunk_texts(out@), chunk_texts(new@));
            assert(chunk_texts(out@ + new@) =~= chunk_texts(out@) + chunk_texts(new@));
        }
        let ghost old_out = out@;
        let mut k: usize = 0;
        while k < new.len()
            invariant
                k <= new@.len(),
                out@ == old_out + new@.subrange(0, k as int),
                forall|j: int| 0 <= j < old_out.len() ==> #[trigger] old_out[j]@.len() > 0,
                forall|j: int| 0 <= j < new@.len() ==> #[trigger] new@[j]@.len() > 0,
            decreases new@.len() - k,
        {
            out.push(new[k].clone());
            k += 1;
            assert(out@ =~= old_out + new@.subrange(0, k as int));
        }
        proof {
            assert(new@.subrange(0, new@.len() as int) =~= new@);
            let cur = all.subrange(i as int, all.len() as int);
            assert(joined(chunk_texts(out@)) + lossy(d@ + flatten(rest)) =~= joined(
                chunk_texts(old_out),
            ) + (joined(chunk_texts(new@)) + lossy(d@ + flatten(rest))));
            assert forall|j: int| 0 <= j < out@.len() implies #[trigger] out@[j]@.len() > 0 by {
                if j < old_out.len() {
                    assert(out@[j] == old_out[j]);
                } else {
                    assert(out@[j] == new@[j - old_out.len()]);
                }
            }
        }
        i += 1;
    }
    let ghost before = d@;
    let tail = d.finish();
    proof {
        assert(all.subrange(all.len() as int, all.len() as int) =~= Seq::<Seq<u8>>::empty());
        assert(before + flatten(Seq::<Seq<u8>>::empty()) =~= before);
        lemma_joined_concat(chunk_texts(out@), chunk_texts(tail@));
    }
    let ghost old_out = out@;
    let mut k: usize = 0;
    while k < tail.len()
        invariant
            k <= tail@.len(),
            out@ == old_out + tail@.subrange(0, k as int),
            forall|j: int| 0 <= j < old_out.len() ==> #[trigger] old_out[j]@.len() > 0,
            forall|j: int| 0 <= j < tail@.len() ==> #[trigger] tail@[j]@.len() > 0,
        decreases tail@.len() - k,
    {
        out.push(tail[k].clone());
        k += 1;
        assert(out@ =~= old_out + tail@.subrange(0, k as int));
    }
    proof {
        assert(tail@.subrange(0, tail@.len() as int) =~= tail@);
        assert(chunk_texts(out@) =~= chunk_texts(old_out) + chunk_texts(tail@));
        assert(joined(chunk_texts(out@)) + lossy(Seq::<u8>::empty()) =~= joined(chunk_texts(out@)));
        assert forall|j: int| 0 <= j < out@.len() implies #[trigger] out@[j]@.len() > 0 by {
            if j < old_out.len() {
                assert(out@[j] == old_out[j]);
            } else {
                assert(out@[j] == tail@[j - old_out.len()]);
            }
        }
    }
    out
}

/// Decodes what can be decided in `buf`; returns the chunks and the bytes that
/// wait for more input.
fn decode_ready(buf: &Vec<u8>) -> (res: (Vec<String>, Vec<u8>))
    ensures
        chunk_texts(res.0@) == ready_chunks(buf@),
        res.1@ == ready(buf@).1,
{
    let mut chunks: Vec<String> = Vec::new();
    let mut run: Vec<char> = Vec::new();
    let mut i: usize = 0;
    let len = buf.len();
    proof {
        assert(buf@.subrange(0, len as int) =~= buf@);
        assert(chunk_texts(chunks@) =~= Seq::<Seq<char>>::empty());
        assert(attach(run@, buf@) =~= ready_chunks(buf@));
    }
    while i < len
        invariant_except_break
            i <= len,
            len == buf@.len(),
            chunk_texts(chunks@) + attach(run@, buf@.subrange(i as int, len as int))
                == ready_chunks(buf@),
            ready(buf@.subrange(i as int, len as int)).1 == ready(buf@).1,
        ensures
            i <= len,
            chunk_texts(chunks@) + attach(run@, buf@.subrange(i as int, len as int))
                == ready_chunks(buf@),
            ready_chunks(buf@.subrange(i as int, len as int)) == Seq::<Seq<char>>::empty(),
            !starts_text(buf@.subrange(i as int, len as int)),
            ready(buf@).1 == buf@.subrange(i as int, len as int),
        decreases len - i,
    {
        let ghost t = buf@.subrange(i as int, len as int);
        proof {
            lemma_unit_bounds(t);
        }
        match classify(buf.as_slice(), i) {
            Step::Char(c, n) => {
                let ghost prev = run@;
                run.push(c);
                proof {
                    let t2 = buf@.subrange((i + n) as int, len as int);
                    assert(t.subrange(n as int, t.len() as int) =~= t2);
                    let r = ready_chunks(t2);
                    if prev.len() > 0 {
                        let rt = ready_chunks(t);
                        assert(starts_text(t));
                        if starts_text(t2) && r.len() > 0 {
                            assert(rt == seq![seq![c] + r[0]] + r.drop_first());
                            assert(rt[0] == seq![c] + r[0]);
                            assert(rt.drop_first() =~= r.drop_first());
                            assert(prev + (seq![c] + r[0]) =~= run@ + r[0]);
                        } else {
                            assert(rt == seq![seq![c]] + r);
                            assert(rt[0] == seq![c]);
                            assert(rt.drop_first() =~= r);
                            assert(prev + seq![c] =~= run@);
                        }
                        assert(attach(prev, t) =~= attach(run@, t2));
                    } else {
                        assert(seq![c] =~= run@);
                        assert(attach(prev, t) =~= attach(run@, t2));
                    }
                }
                i = i + n;
            },
            Step::Bad(n) => {
                let ghost t2 = buf@.subrange((i + n) as int, len as int);
                proof {
                    assert(t.subrange(n as int, t.len() as int) =~= t2);
                }
                let ghost before = chunk_texts(chunks@);
                let ghost prev = run@;
                if run.len() > 0 {
                    let piece = string_from_chars(run.as_slice());
                    chunks.push(piece);
                    proof {
                        assert(chunk_texts(chunks@) =~= before.push(prev));
                    }
                } else {
                    assert(chunk_texts(chunks@) =~= before);
                }
                let ghost mid = chunk_texts(chunks@);
                run = Vec::new();
                chunks.push(replacement_chunk());
                proof {
                    assert(chunk_texts(chunks@) =~= mid.push(seq![REPLACEMENT]));
                    assert(attach(run@, t2) == ready_chunks(t2));
                    if prev.len() > 0 {
                        assert(attach(prev, t) =~= seq![prev] + (seq![seq![REPLACEMENT]]
                            + ready_chunks(t2)));
                        assert(before + attach(prev, t) =~= chunk_texts(chunks@) + attach(
                            run@,
                            t2,
                        ));
                    } else {
                        assert(before + attach(prev, t) =~= chunk_texts(chunks@) + attach(
                            run@,
                            t2,
                        ));
                    }
                }
                i = i + n;
            },
            Step::Partial => {
                break;
            },
        }
    }
    let ghost before = chunk_texts(chunks@);
    if run.len() > 0 {
        let piece = string_from_chars(run.as_slice());
        let ghost r = run@;
        chunks.push(piece);
        proof {
            assert(chunk_texts(chunks@) =~= before.push(r));
            assert(before + attach(r, buf@.subrange(i as int, len as int)) =~= chunk_texts(
                chunks@,
            ));
        }
    } else {
        assert(before + attach(run@, buf@.subrange(i as int, len as int)) =~= before);
    }
    let mut rest: Vec<u8> = Vec::new();
    let mut k: usize = i;
    while k < len
        invariant
            i <= k <= len,
            len == buf@.len(),
            rest@ == buf@.subrange(i as int, k as int),
        decreases len - k,
    {
        rest.push(buf[k]);
        k += 1;
        assert(rest@ =~= buf@.subrange(i as int, k as int));
    }
    (chunks, rest)
}

} // verus!
