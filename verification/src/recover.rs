//! Reading a dump back: splitting the text by newlines and re-parsing
//! the hexadecimal digits of each line, together with the proofs that
//! the format keeps its promises.

use vstd::prelude::*;

use crate::dump::byte_hex;
use crate::dump::dump_from;
use crate::dump::dump_text;
use crate::dump::groups_hex;
use crate::dump::hex_char;
use crate::dump::hex_digits;
use crate::dump::line_text;

verus! {

/// The value of a lowercase hexadecimal digit; 15 for any character
/// that is no such digit.
pub open spec fn hex_val(c: char) -> nat {
    if c == '0' {
        0
    } else if c == '1' {
        1
    } else if c == '2' {
        2
    } else if c == '3' {
        3
    } else if c == '4' {
        4
    } else if c == '5' {
        5
    } else if c == '6' {
        6
    } else if c == '7' {
        7
    } else if c == '8' {
        8
    } else if c == '9' {
        9
    } else if c == 'a' {
        10
    } else if c == 'b' {
        11
    } else if c == 'c' {
        12
    } else if c == 'd' {
        13
    } else if c == 'e' {
        14
    } else {
        15
    }
}

/// The byte written as two hexadecimal digits.
pub open spec fn unbyte(cs: Seq<char>) -> u8 {
    (16 * hex_val(cs[0]) + hex_val(cs[1])) as u8
}

/// The bytes of the group tokens of one line, in original order: each
/// token starts with a space; a 4-digit token is a swapped 2-byte group,
/// a final 2-digit token a single byte.
pub open spec fn ungroups(t: Seq<char>) -> Seq<u8>
    decreases t.len(),
{
    if t.len() >= 5 && t[0] == ' ' {
        seq![unbyte(t.subrange(3, 5)), unbyte(t.subrange(1, 3))] + ungroups(t.skip(5))
    } else if t.len() == 3 && t[0] == ' ' {
        seq![unbyte(t.subrange(1, 3))]
    } else {
        Seq::empty()
    }
}

/// The bytes of one dump line: the 8 offset digits are skipped and the
/// group tokens are decoded.
pub open spec fn line_bytes(line: Seq<char>) -> Seq<u8> {
    ungroups(line.skip(8))
}

proof fn lemma_unbyte_byte_hex(b: u8)
    ensures
        unbyte(byte_hex(b)) == b,
{
    assert(hex_val(hex_char(b as nat / 16)) == b as nat / 16);
    assert(hex_val(hex_char(b as nat % 16)) == b as nat % 16);
}

/// Decoding the group tokens of a chunk gives the chunk back.
proof fn lemma_ungroups_groups(chunk: Seq<u8>)
    ensures
        ungroups(groups_hex(chunk)) == chunk,
    decreases chunk.len(),
{
    let t = groups_hex(chunk);
    if chunk.len() == 0 {
        assert(t =~= Seq::<char>::empty());
        assert(ungroups(t) =~= chunk);
    } else if chunk.len() == 1 {
        assert(t.len() == 3);
        assert(t[0] == ' ');
        assert(t.subrange(1, 3) =~= byte_hex(chunk[0]));
        lemma_unbyte_byte_hex(chunk[0]);
        assert(ungroups(t) =~= chunk);
    } else {
        assert(t.len() == 5 + groups_hex(chunk.skip(2)).len());
        assert(t[0] == ' ');
        assert(t.subrange(1, 3) =~= byte_hex(chunk[1]));
        assert(t.subrange(3, 5) =~= byte_hex(chunk[0]));
        assert(t.skip(5) =~= groups_hex(chunk.skip(2)));
        lemma_unbyte_byte_hex(chunk[0]);
        lemma_unbyte_byte_hex(chunk[1]);
        lemma_ungroups_groups(chunk.skip(2));
        assert(ungroups(t) =~= seq![chunk[0], chunk[1]] + chunk.skip(2));
        assert(seq![chunk[0], chunk[1]] + chunk.skip(2) =~= chunk);
    }
}

/// The position of the first newline, or the length when there is none.
pub open spec fn find_nl(t: Seq<char>) -> nat
    decreases t.len(),
{
    if t.len() == 0 {
        0
    } else if t[0] == '\n' {
        0
    } else {
        (1 + find_nl(t.skip(1))) as nat
    }
}

proof fn lemma_find_nl_le(t: Seq<char>)
    ensures
        find_nl(t) <= t.len(),
    decreases t.len(),
{
    if t.len() == 0 {
    } else if t[0] == '\n' {
    } else {
        lemma_find_nl_le(t.skip(1));
    }
}

/// The lines of a text: the maximal newline-free runs, each newline
/// closing one line; a final run without a newline is a line too.
pub open spec fn split_lines(t: Seq<char>) -> Seq<Seq<char>>
    decreases t.len(),
    via split_lines_decreases
{
    if t.len() == 0 {
        Seq::empty()
    } else {
        let k = find_nl(t) as int;
        if k == t.len() {
            seq![t]
        } else {
            seq![t.take(k)] + split_lines(t.skip(k + 1))
        }
    }
}

#[via_fn]
proof fn split_lines_decreases(t: Seq<char>) {
    if t.len() != 0 {
        lemma_find_nl_le(t);
    }
}

/// A text without a newline.
spec fn nl_free(t: Seq<char>) -> bool {
    forall|i: int| 0 <= i < t.len() ==> #[trigger] t[i] != '\n'
}

proof fn lemma_hex_digits_len(n: nat, width: nat)
    ensures
        hex_digits(n, width).len() == width,
    decreases width,
{
    if width > 0 {
        lemma_hex_digits_len(n / 16, (width - 1) as nat);
    }
}

proof fn lemma_hex_digits_nl_free(n: nat, width: nat)
    ensures
        nl_free(hex_digits(n, width)),
    decreases width,
{
    if width > 0 {
        lemma_hex_digits_nl_free(n / 16, (width - 1) as nat);
        lemma_hex_digits_len(n / 16, (width - 1) as nat);
        let prev = hex_digits(n / 16, (width - 1) as nat);
        let whole = hex_digits(n, width);
        assert forall|i: int| 0 <= i < whole.len() implies #[trigger] whole[i] != '\n' by {
            if i < width - 1 {
                assert(whole[i] == prev[i]);
            } else {
                assert(whole[i] == hex_char(n % 16));
            }
        }
    }
}

proof fn lemma_groups_nl_free(chunk: Seq<u8>)
    ensures
        nl_free(groups_hex(chunk)),
    decreases chunk.len(),
{
    let t = groups_hex(chunk);
    if chunk.len() == 0 {
    } else if chunk.len() == 1 {
        assert forall|i: int| 0 <= i < t.len() implies #[trigger] t[i] != '\n' by {
            if i >= 1 {
                assert(t[i] == byte_hex(chunk[0])[i - 1]);
            }
        }
    } else {
        lemma_groups_nl_free(chunk.skip(2));
        let rest = groups_hex(chunk.skip(2));
        assert forall|i: int| 0 <= i < t.len() implies #[trigger] t[i] != '\n' by {
            if 1 <= i < 3 {
                assert(t[i] == byte_hex(chunk[1])[i - 1]);
            } else if 3 <= i < 5 {
                assert(t[i] == byte_hex(chunk[0])[i - 3]);
            } else if i >= 5 {
                assert(t[i] == rest[i - 5]);
            }
        }
    }
}

/// The first newline of a newline-free prefix followed by a text that
/// opens with a newline sits exactly at the prefix's end.
proof fn lemma_find_nl_prefix(body: Seq<char>, tail: Seq<char>)
    requires
        nl_free(body),
        tail.len() > 0,
        tail[0] == '\n',
    ensures
        find_nl(body + tail) == body.len(),
    decreases body.len(),
{
    let t = body + tail;
    if body.len() == 0 {
        assert(t =~= tail);
    } else {
        assert(t[0] == body[0]);
        assert(body[0] != '\n');
        lemma_find_nl_prefix(body.skip(1), tail);
        assert(t.skip(1) =~= body.skip(1) + tail);
    }
}

/// Splitting a text that starts with one newline-terminated line yields
/// that line and then the lines of the rest.
proof fn lemma_split_lines_line(body: Seq<char>, rest: Seq<char>)
    requires
        nl_free(body),
    ensures
        split_lines(body + seq!['\n'] + rest) == seq![body] + split_lines(rest),
{
    let t = body + seq!['\n'] + rest;
    assert(t =~= body + (seq!['\n'] + rest));
    lemma_find_nl_prefix(body, seq!['\n'] + rest);
    let k = body.len() as int;
    assert(find_nl(t) == k);
    assert(k < t.len());
    assert(t.take(k) =~= body);
    assert(t.skip(k + 1) =~= rest);
    assert(split_lines(t) == seq![body] + split_lines(rest));
}

/// The 16-byte chunk of `s` behind line `i`; the last may be shorter.
spec fn chunk_at(s: Seq<u8>, i: int) -> Seq<u8> {
    s.subrange(
        16 * i,
        if 16 * i + 16 <= s.len() {
            16 * i + 16
        } else {
            s.len() as int
        },
    )
}

/// Every dump splits into one line per chunk, and line `i` is the offset
/// of chunk `i` followed by its group tokens.
proof fn lemma_dump_from_lines(s: Seq<u8>, off: nat)
    ensures
        split_lines(dump_from(s, off)).len() == (s.len() + 15) / 16,
        forall|i: int|
            0 <= i < split_lines(dump_from(s, off)).len() ==> #[trigger] split_lines(
                dump_from(s, off),
            )[i] == hex_digits((off + 16 * i) as nat, 8) + groups_hex(chunk_at(s, i)),
    decreases s.len(),
{
    if s.len() == 0 {
        assert(split_lines(dump_from(s, off)) =~= Seq::<Seq<char>>::empty());
    } else {
        let c = if s.len() <= 16 {
            s.len() as int
        } else {
            16
        };
        let chunk = s.take(c);
        let body = hex_digits(off, 8) + groups_hex(chunk);
        let rest_text = dump_from(s.skip(c), off + 16);
        assert(dump_from(s, off) =~= body + seq!['\n'] + rest_text);
        lemma_hex_digits_nl_free(off, 8);
        lemma_hex_digits_len(off, 8);
        lemma_groups_nl_free(chunk);
        assert forall|i: int| 0 <= i < body.len() implies #[trigger] body[i] != '\n' by {
            if i < 8 {
                assert(body[i] == hex_digits(off, 8)[i]);
            } else {
                assert(body[i] == groups_hex(chunk)[i - 8]);
            }
        }
        lemma_split_lines_line(body, rest_text);
        lemma_dump_from_lines(s.skip(c), off + 16);
        let ls = split_lines(dump_from(s, off));
        let ls_rest = split_lines(rest_text);
        assert(ls == seq![body] + ls_rest);
        assert(ls.len() == 1 + ((s.len() - c + 15) / 16));
        assert(ls.len() == (s.len() + 15) / 16);
        assert forall|i: int| 0 <= i < ls.len() implies #[trigger] ls[i] == hex_digits(
            (off + 16 * i) as nat,
            8,
        ) + groups_hex(chunk_at(s, i)) by {
            if i == 0 {
                assert(chunk_at(s, 0) =~= chunk);
                assert(ls[0] == body);
            } else {
                assert(ls[i] == ls_rest[i - 1]);
                assert(ls_rest[i - 1] == hex_digits((off + 16 + 16 * (i - 1)) as nat, 8)
                    + groups_hex(chunk_at(s.skip(c), i - 1)));
                assert(c == 16);
                assert(chunk_at(s.skip(16), i - 1) =~= chunk_at(s, i));
                assert((off + 16 + 16 * (i - 1)) as nat == (off + 16 * i) as nat);
            }
        }
    }
}

/// Law: a buffer of `N` bytes formats to exactly `ceil(N / 16)` lines
/// (none when `N` is zero), and every line but the last carries exactly
/// 16 bytes.
pub proof fn lemma_line_count(s: Seq<u8>)
    ensures
        split_lines(dump_text(s)).len() == (s.len() + 15) / 16,
        forall|i: int|
            0 <= i < split_lines(dump_text(s)).len() - 1 ==> line_bytes(
                #[trigger] split_lines(dump_text(s))[i],
            ).len() == 16,
{
    lemma_dump_from_lines(s, 0);
    let ls = split_lines(dump_text(s));
    assert forall|i: int| 0 <= i < ls.len() - 1 implies line_bytes(#[trigger] ls[i]).len()
        == 16 by {
        assert((s.len() + 15) / 16 >= i + 2);
        assert(s.len() + 15 >= 16 * (i + 2)) by {
            if s.len() + 15 < 16 * (i + 2) {
                assert((s.len() + 15) / 16 < i + 2);
            }
        }
        assert(16 * i + 16 <= s.len());
        let body = hex_digits((16 * i) as nat, 8) + groups_hex(chunk_at(s, i));
        assert(ls[i] == body);
        lemma_hex_digits_len((16 * i) as nat, 8);
        assert(body.skip(8) =~= groups_hex(chunk_at(s, i)));
        lemma_ungroups_groups(chunk_at(s, i));
        assert(chunk_at(s, i).len() == 16);
    }
}

/// Law: line `i` of a dump begins with the byte offset `16 * i` of its
/// chunk, written as exactly 8 zero-padded lowercase hexadecimal digits.
pub proof fn lemma_line_offsets(s: Seq<u8>, i: int)
    requires
        0 <= i < split_lines(dump_text(s)).len(),
    ensures
        split_lines(dump_text(s))[i].len() >= 8,
        split_lines(dump_text(s))[i].take(8) == hex_digits((16 * i) as nat, 8),
{
    lemma_dump_from_lines(s, 0);
    let line = split_lines(dump_text(s))[i];
    lemma_hex_digits_len((16 * i) as nat, 8);
    assert(line.take(8) =~= hex_digits((16 * i) as nat, 8));
}

/// The whole dump decoded: every line's hex groups, in order.
pub open spec fn undump(t: Seq<char>) -> Seq<u8> {
    split_lines(t).map_values(|line: Seq<char>| line_bytes(line)).flatten()
}

proof fn lemma_undump_dump_from(s: Seq<u8>, off: nat)
    ensures
        undump(dump_from(s, off)) == s,
    decreases s.len(),
{
    if s.len() == 0 {
        assert(split_lines(dump_from(s, off)) =~= Seq::<Seq<char>>::empty());
        assert(undump(dump_from(s, off)) =~= s);
    } else {
        let c = if s.len() <= 16 {
            s.len() as int
        } else {
            16
        };
        let chunk = s.take(c);
        let body = hex_digits(off, 8) + groups_hex(chunk);
        let rest_text = dump_from(s.skip(c), off + 16);
        assert(dump_from(s, off) =~= body + seq!['\n'] + rest_text);
        lemma_hex_digits_nl_free(off, 8);
        lemma_hex_digits_len(off, 8);
        lemma_groups_nl_free(chunk);
        assert forall|i: int| 0 <= i < body.len() implies #[trigger] body[i] != '\n' by {
            if i < 8 {
                assert(body[i] == hex_digits(off, 8)[i]);
            } else {
                assert(body[i] == groups_hex(chunk)[i - 8]);
            }
        }
        lemma_split_lines_line(body, rest_text);
        let f = |line: Seq<char>| line_bytes(line);
        let mapped = split_lines(dump_from(s, off)).map_values(f);
        let mapped_rest = split_lines(rest_text).map_values(f);
        assert(mapped =~= seq![line_bytes(body)] + mapped_rest);
        assert(mapped.drop_first() =~= mapped_rest);
        assert(mapped.len() > 0);
        assert(mapped.flatten() == mapped.first() + mapped.drop_first().flatten());
        assert(body.skip(8) =~= groups_hex(chunk));
        lemma_ungroups_groups(chunk);
        lemma_undump_dump_from(s.skip(c), off + 16);
        assert(mapped.flatten() =~= chunk + s.skip(c));
        assert(chunk + s.skip(c) =~= s);
    }
}

/// Law: splitting a dump by newlines and re-parsing each line's hex
/// groups recovers the original bytes exactly.
pub proof fn lemma_round_trip(s: Seq<u8>)
    ensures
        undump(dump_text(s)) == s,
{
    lemma_undump_dump_from(s, 0);
}

} // verus!
