//! The hex formatter: a byte buffer becomes one text line per 16-byte
//! chunk.  Each line is an 8-digit hexadecimal offset followed by
//! space-separated groups of at most two bytes, each two-byte group shown
//! with its bytes swapped (a little-endian 16-bit word), and a final
//! newline.

use vstd::prelude::*;

verus! {

/// The lowercase hexadecimal digit for a value below 16.
pub open spec fn hex_char(d: nat) -> char {
    if d == 0 {
        '0'
    } else if d == 1 {
        '1'
    } else if d == 2 {
        '2'
    } else if d == 3 {
        '3'
    } else if d == 4 {
        '4'
    } else if d == 5 {
        '5'
    } else if d == 6 {
        '6'
    } else if d == 7 {
        '7'
    } else if d == 8 {
        '8'
    } else if d == 9 {
        '9'
    } else if d == 10 {
        'a'
    } else if d == 11 {
        'b'
    } else if d == 12 {
        'c'
    } else if d == 13 {
        'd'
    } else if d == 14 {
        'e'
    } else {
        'f'
    }
}

/// A byte as exactly two lowercase hexadecimal digits.
pub open spec fn byte_hex(b: u8) -> Seq<char> {
    seq![hex_char(b as nat / 16), hex_char(b as nat % 16)]
}

/// The low `width` hexadecimal digits of `n`, zero-padded, most
/// significant digit first.
pub open spec fn hex_digits(n: nat, width: nat) -> Seq<char>
    decreases width,
{
    if width == 0 {
        Seq::empty()
    } else {
        hex_digits(n / 16, (width - 1) as nat).push(hex_char(n % 16))
    }
}

/// The space-separated groups of one chunk: two bytes per group in
/// swapped order, with a final group of a single byte when the chunk
/// length is odd.
pub open spec fn groups_hex(chunk: Seq<u8>) -> Seq<char>
    decreases chunk.len(),
{
    if chunk.len() == 0 {
        Seq::empty()
    } else if chunk.len() == 1 {
        seq![' '] + byte_hex(chunk[0])
    } else {
        seq![' '] + byte_hex(chunk[1]) + byte_hex(chunk[0]) + groups_hex(chunk.skip(2))
    }
}

/// One output line: the chunk's starting offset as 8 hex digits, the
/// chunk's groups, and a newline.
pub open spec fn line_text(offset: nat, chunk: Seq<u8>) -> Seq<char> {
    hex_digits(offset, 8) + groups_hex(chunk) + seq!['\n']
}

/// The dump of `s`, whose first byte sits at byte offset `offset` of the
/// whole input: one line per 16-byte chunk, the last chunk possibly
/// shorter.
pub open spec fn dump_from(s: Seq<u8>, offset: nat) -> Seq<char>
    decreases s.len(),
{
    if s.len() == 0 {
        Seq::empty()
    } else {
        let c = if s.len() <= 16 {
            s.len() as int
        } else {
            16
        };
        line_text(offset, s.take(c)) + dump_from(s.skip(c), offset + 16)
    }
}

/// The full dump text of a byte sequence.
pub open spec fn dump_text(s: Seq<u8>) -> Seq<char> {
    dump_from(s, 0)
}

/// Relies on `String::push`: it appends the given character to the end
/// of the string.
#[verifier::external_body]
fn push_char(out: &mut String, c: char)
    ensures
        final(out)@ == old(out)@.push(c),
{
    out.push(c);
}

/// The lowercase hexadecimal digit for a value below 16.
fn hex_char_of(d: u8) -> (c: char)
    requires
        d < 16,
    ensures
        c == hex_char(d as nat),
{
    if d == 0 {
        '0'
    } else if d == 1 {
        '1'
    } else if d == 2 {
        '2'
    } else if d == 3 {
        '3'
    } else if d == 4 {
        '4'
    } else if d == 5 {
        '5'
    } else if d == 6 {
        '6'
    } else if d == 7 {
        '7'
    } else if d == 8 {
        '8'
    } else if d == 9 {
        '9'
    } else if d == 10 {
        'a'
    } else if d == 11 {
        'b'
    } else if d == 12 {
        'c'
    } else if d == 13 {
        'd'
    } else if d == 14 {
        'e'
    } else {
        'f'
    }
}

/// Appends a byte as its two hexadecimal digits.
fn push_byte_hex(out: &mut String, b: u8)
    ensures
        final(out)@ == old(out)@ + byte_hex(b),
{
    let hi = hex_char_of(b / 16);
    let lo = hex_char_of(b % 16);
    push_char(out, hi);
    push_char(out, lo);
    proof {
        assert(out@ =~= old(out)@ + byte_hex(b));
    }
}

/// Appends the low `width` hexadecimal digits of `n`, zero-padded.
fn push_hex_digits(out: &mut String, n: usize, width: usize)
    ensures
        final(out)@ == old(out)@ + hex_digits(n as nat, width as nat),
    decreases width,
{
    if width == 0 {
        proof {
            assert(out@ =~= old(out)@ + hex_digits(n as nat, 0));
        }
    } else {
        push_hex_digits(out, n / 16, width - 1);
        let c = hex_char_of((n % 16) as u8);
        push_char(out, c);
        proof {
            assert(out@ =~= old(out)@ + hex_digits(n as nat, width as nat));
        }
    }
}

/// Formats a byte buffer as its hex dump.
///
/// Chunks of 16 bytes become one line each: the chunk's starting offset
/// as 8 zero-padded lowercase hex digits, then one leading space and 4
/// hex digits per 2-byte group (second byte first), a lone trailing byte
/// as 2 digits, and a closing newline.  An empty buffer gives the empty
/// string.
pub fn hexdump(data: &[u8]) -> (r: String)
    ensures
        r@ == dump_text(data@),
{
    let len = data.len();
    let mut out = String::new();
    let mut i: usize = 0;
    proof {
        assert(data@.skip(0) =~= data@);
        assert(out@ + dump_from(data@.skip(0), 0) =~= dump_text(data@));
    }
    while i < len
        invariant
            len == data@.len(),
            i <= len,
            out@ + dump_from(data@.skip(i as int), i as nat) == dump_text(data@),
        decreases len - i,
    {
        let end = if len - i < 16 {
            len
        } else {
            i + 16
        };
        let ghost rest = data@.skip(i as int);
        let ghost line_rest = dump_from(data@.skip(end as int), i as nat + 16);
        proof {
            let c = if rest.len() <= 16 {
                rest.len() as int
            } else {
                16
            };
            assert(c == end - i);
            assert(rest.take(c) =~= data@.subrange(i as int, end as int));
            assert(rest.skip(c) =~= data@.skip(end as int));
            assert(dump_from(rest, i as nat) == line_text(
                i as nat,
                data@.subrange(i as int, end as int),
            ) + line_rest);
        }
        push_hex_digits(&mut out, i, 8);
        let mut j = i;
        proof {
            assert(out@ + groups_hex(data@.subrange(j as int, end as int)) + seq!['\n']
                + line_rest =~= dump_text(data@));
        }
        while j < end
            invariant
                len == data@.len(),
                i <= j <= end <= len,
                out@ + groups_hex(data@.subrange(j as int, end as int)) + seq!['\n'] + line_rest
                    == dump_text(data@),
            decreases end - j,
        {
            let ghost group = data@.subrange(j as int, end as int);
            push_char(&mut out, ' ');
            if j + 1 < end {
                let b0 = data[j];
                let b1 = data[j + 1];
                push_byte_hex(&mut out, b1);
                push_byte_hex(&mut out, b0);
                proof {
                    assert(group.skip(2) =~= data@.subrange(j as int + 2, end as int));
                    assert(groups_hex(group) == seq![' '] + byte_hex(group[1]) + byte_hex(group[0])
                        + groups_hex(group.skip(2)));
                    assert(out@ + groups_hex(data@.subrange(j as int + 2, end as int))
                        + seq!['\n'] + line_rest =~= dump_text(data@));
                }
                j += 2;
            } else {
                let b0 = data[j];
                push_byte_hex(&mut out, b0);
                proof {
                    assert(group.len() == 1);
                    assert(groups_hex(group) == seq![' '] + byte_hex(group[0]));
                    assert(data@.subrange(j as int + 1, end as int) =~= Seq::<u8>::empty());
                    assert(out@ + groups_hex(data@.subrange(j as int + 1, end as int))
                        + seq!['\n'] + line_rest =~= dump_text(data@));
                }
                j += 1;
            }
        }
        push_char(&mut out, '\n');
        proof {
            assert(groups_hex(data@.subrange(end as int, end as int)) =~= Seq::<char>::empty());
            assert(out@ + dump_from(data@.skip(end as int), end as nat) =~= dump_text(data@));
        }
        i = end;
    }
    proof {
        assert(data@.skip(len as int) =~= Seq::<u8>::empty());
        assert(out@ =~= dump_text(data@));
    }
    out
}

} // verus!
