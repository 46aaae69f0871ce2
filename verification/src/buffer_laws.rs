//! What buffers give back of what was laid down in them.
use vstd::prelude::*;
use vstd::utf8::*;

use crate::buffer::{concat_bytes, concat_items, plain_bytes};
use crate::buffer_read::{behind, flat, fronted, read_format, read_letter, unpacked, written, Scan};
use crate::cursor::is_sequence;
use crate::pack::{le, Unwritten};
use crate::seri_laws::lemma_le_value_le;
use crate::table::{law_strict_length_means_contiguous, machine_form};
use crate::text::decimal;
use crate::unpack::{lemma_pow256, pow256};
use crate::value::{kind_name, kind_of, Tab, Val};

verus! {

/// A byte of a number laid down in `k` bytes: the digits of the number to the
/// base 256, the lowest first.
pub proof fn law_bytes_are_digits(n: nat, k: nat)
    ensures
        le(n, k).len() == k,
        forall|i: int|
            0 <= i < k ==> #[trigger] le(n, k)[i] as int == n as int / pow256(i as nat) as int
                % 256,
    decreases k,
{
    if k > 0 {
        let less = le(n / 256, (k - 1) as nat);
        law_bytes_are_digits(n / 256, (k - 1) as nat);
        assert forall|i: int| 0 <= i < k implies #[trigger] le(n, k)[i] as int == n as int / pow256(
            i as nat,
        ) as int % 256 by {
            if i == 0 {
                assert(pow256(0) == 1);
            } else {
                assert(le(n, k)[i] == less[i - 1]);
                lemma_pow_positive((i - 1) as nat);
                let p = pow256((i - 1) as nat) as int;
                assert(pow256(i as nat) == 256 * p);
                vstd::arithmetic::div_mod::lemma_div_denominator(n as int, 256, p);
            }
        }
    }
}

proof fn lemma_pow_positive(k: nat)
    ensures
        pow256(k) > 0,
    decreases k,
{
    if k > 0 {
        lemma_pow_positive((k - 1) as nat);
    }
}

/// The number of bytes that a number letter takes.
pub open spec fn width(c: char) -> nat {
    if c == 'h' || c == 'H' {
        2
    } else {
        4
    }
}

/// Whether a letter reads a number, and a number can be read by it.
pub open spec fn readable(c: char, n: int) -> bool {
    ||| c == 'h' && -0x8000 <= n < 0x8000
    ||| c == 'H' && 0 <= n < 0x1_0000
    ||| c == 'i' && -0x8000_0000 <= n < 0x8000_0000
    ||| c == 'I' && 0 <= n < 0x1_0000_0000
}

/// The bytes of a number in two's complement, least or most significant first.
pub open spec fn laid(c: char, n: int, little: bool) -> Seq<u8> {
    let b = le((n % pow256(width(c)) as int) as nat, width(c));
    if little {
        b
    } else {
        b.reverse()
    }
}

/// The bytes of numbers one after another.
pub open spec fn all_laid(items: Seq<(char, int)>, little: bool) -> Seq<u8>
    decreases items.len(),
{
    if items.len() == 0 {
        Seq::empty()
    } else {
        laid(items[0].0, items[0].1, little) + all_laid(items.skip(1), little)
    }
}

proof fn lemma_letter_back(
    buf: Seq<u8>,
    address: u64,
    s: Scan,
    c: char,
    n: int,
)
    requires
        0 <= s.pos,
        readable(c, n),
        s.pos + width(c) <= buf.len(),
        buf.subrange(s.pos, s.pos + width(c)) == laid(c, n, s.little),
    ensures
        read_letter(buf, address, s, c) == Ok::<Scan, Seq<char>>(
            Scan { pos: s.pos + width(c), out: s.out.push(Val::Int(n as i64)), ..s },
        ),
{
    lemma_pow256();
    let turn = pow256(width(c)) as int;
    let m = (n % turn) as nat;
    lemma_le_value_le(m, width(c));
    let b = le(m, width(c));
    assert(b.reverse().reverse() =~= b);
    assert(n < 0 ==> n % turn == n + turn) by {
        if n < 0 {
            vstd::arithmetic::div_mod::lemma_mod_add_multiples_vanish(n, turn);
            vstd::arithmetic::div_mod::lemma_small_mod((n + turn) as nat, turn as nat);
        }
    }
    assert(n >= 0 ==> n % turn == n) by {
        if n >= 0 {
            vstd::arithmetic::div_mod::lemma_small_mod(n as nat, turn as nat);
        }
    }
}

proof fn lemma_laid_len(c: char, n: int, little: bool)
    ensures
        laid(c, n, little).len() == width(c),
{
    law_bytes_are_digits((n % pow256(width(c)) as int) as nat, width(c));
}

/// Numbers that were laid down one after another are read back one after another,
/// by the letters of their kinds and in their byte order, each taking up its own
/// width and no more. What stands before and behind them makes no difference.
pub proof fn law_numbers_are_read_in_turn(
    before: Seq<u8>,
    items: Seq<(char, int)>,
    after: Seq<u8>,
    address: u64,
    little: bool,
    out: Seq<Val>,
)
    requires
        forall|i: int|
            0 <= i < items.len() ==> readable((#[trigger] items[i]).0, items[i].1),
    ensures
        read_format(
            before + all_laid(items, little) + after,
            address,
            Scan { pos: before.len() as int, little, out },
            items.map_values(|e: (char, int)| e.0),
        ) == Ok::<Scan, Seq<char>>(
            Scan {
                pos: (before.len() + all_laid(items, little).len()) as int,
                little,
                out: out + items.map_values(|e: (char, int)| Val::Int(e.1 as i64)),
            },
        ),
    decreases items.len(),
{
    let letters = items.map_values(|e: (char, int)| e.0);
    let values = items.map_values(|e: (char, int)| Val::Int(e.1 as i64));
    let buf = before + all_laid(items, little) + after;
    let s = Scan { pos: before.len() as int, little, out };
    if items.len() == 0 {
        assert(out + values =~= out);
    } else {
        let (c, n) = items[0];
        let rest = items.skip(1);
        let b = laid(c, n, little);
        lemma_laid_len(c, n, little);
        assert(readable(c, n));
        assert(letters[0] == c);
        assert(buf.subrange(s.pos, s.pos + width(c)) =~= b);
        lemma_letter_back(buf, address, s, c, n);
        assert forall|i: int| 0 <= i < rest.len() implies readable(
            (#[trigger] rest[i]).0,
            rest[i].1,
        ) by {
            assert(rest[i] == items[i + 1]);
        }
        let next = out.push(Val::Int(n as i64));
        law_numbers_are_read_in_turn(before + b, rest, after, address, little, next);
        assert(before + b + all_laid(rest, little) + after =~= buf);
        assert(letters.skip(1) =~= rest.map_values(|e: (char, int)| e.0));
        assert(next + rest.map_values(|e: (char, int)| Val::Int(e.1 as i64)) =~= out + values);
    }
}

/// A number that does not lie wholly in the buffer is refused, whatever comes
/// after it in the format.
pub proof fn law_numbers_past_the_end_are_refused(
    buf: Seq<u8>,
    address: u64,
    s: Scan,
    c: char,
    rest: Seq<char>,
)
    requires
        c == 'h' || c == 'H' || c == 'i' || c == 'I',
        buf.len() < s.pos + width(c),
    ensures
        read_format(buf, address, s, seq![c] + rest) == Err::<Scan, Seq<char>>(
            "bad argument #2 (data out of range)"@,
        ),
{
    assert((seq![c] + rest)[0] == c);
}

/// The byte order signs read nothing and hold for all that follows; the last one
/// counts.
pub proof fn law_byte_order_signs_hold(buf: Seq<u8>, address: u64, s: Scan, rest: Seq<char>)
    ensures
        read_format(buf, address, s, seq!['<'] + rest) == read_format(
            buf,
            address,
            Scan { pos: s.pos, little: true, out: s.out },
            rest,
        ),
        read_format(buf, address, s, seq!['>'] + rest) == read_format(
            buf,
            address,
            Scan { pos: s.pos, little: false, out: s.out },
            rest,
        ),
{
    assert((seq!['<'] + rest)[0] == '<');
    assert((seq!['>'] + rest)[0] == '>');
    assert((seq!['<'] + rest).skip(1) =~= rest);
    assert((seq!['>'] + rest).skip(1) =~= rest);
}

/// The letters for what is left move nothing: `C` gives the address of the next
/// byte and the number of bytes from there, `Z` all bytes of the buffer.
pub proof fn law_whole_letters_read_on_the_spot(
    buf: Seq<u8>,
    address: u64,
    s: Scan,
    rest: Seq<char>,
)
    requires
        0 <= s.pos <= buf.len() < 0x8000_0000_0000_0000,
        address + buf.len() <= u64::MAX,
    ensures
        read_format(buf, address, s, seq!['C'] + rest) == read_format(
            buf,
            address,
            Scan {
                pos: s.pos,
                little: s.little,
                out: s.out + seq![
                    Val::Light((address + s.pos) as u64),
                    Val::Int((buf.len() - s.pos) as i64),
                ],
            },
            rest,
        ),
        read_format(buf, address, s, seq!['Z'] + rest) == read_format(
            buf,
            address,
            Scan { pos: s.pos, little: s.little, out: s.out + seq![Val::Str(buf, None)] },
            rest,
        ),
{
    assert((seq!['C'] + rest)[0] == 'C');
    assert((seq!['Z'] + rest)[0] == 'Z');
    assert((seq!['C'] + rest).skip(1) =~= rest);
    assert((seq!['Z'] + rest).skip(1) =~= rest);
    let p = Val::Light((address + s.pos) as u64);
    let n = Val::Int((buf.len() - s.pos) as i64);
    assert(s.out.push(p).push(n) =~= s.out + seq![p, n]);
    assert(s.out.push(Val::Str(buf, None)) =~= s.out + seq![Val::Str(buf, None)]);
}

/// Any other letter is refused by name.
pub proof fn law_other_letters_are_refused(
    buf: Seq<u8>,
    address: u64,
    s: Scan,
    c: char,
    rest: Seq<char>,
)
    requires
        c != '<' && c != '>' && c != 'h' && c != 'H' && c != 'i' && c != 'I' && c != 'C' && c != 'Z',
    ensures
        read_format(buf, address, s, seq![c] + rest) == Err::<Scan, Seq<char>>(
            "invalid format option '"@ + seq![c] + "'"@,
        ),
{
    assert((seq![c] + rest)[0] == c);
}

/// Reading starts at the place that the third argument gives, and little-endian;
/// one behind the last byte is still a place.
pub proof fn law_formats_start_at_their_place(
    buf: Seq<u8>,
    address: u64,
    format: Seq<char>,
    coerced: Option<i64>,
    start: i64,
)
    requires
        buf.len() <= usize::MAX,
        0 <= start <= usize::MAX,
    ensures
        unpacked(
            buf,
            address,
            Some(Val::Str(encode_utf8(format), coerced)),
            Some(Val::Int(start)),
        ) == if start > buf.len() {
            Err::<Seq<Val>, Seq<char>>("bad argument #3 (out of range)"@)
        } else {
            match read_format(
                buf,
                address,
                Scan { pos: start as int, little: true, out: Seq::empty() },
                format,
            ) {
                Ok(s) => Ok(s.out),
                Err(e) => Err(e),
            }
        },
{
    encode_utf8_valid_utf8(format);
    encode_utf8_decode_utf8(format);
    vstd::arithmetic::div_mod::lemma_small_mod(start as nat, (usize::MAX + 1) as nat);
}

/// Without a format, bytes are cut out: those from the place on, as many as asked
/// for, or all there are where more are asked for or none are named.
pub proof fn law_cut_out_bytes_are_those_there(
    buf: Seq<u8>,
    address: u64,
    start: i64,
    count: i64,
    i: int,
)
    requires
        buf.len() <= usize::MAX,
        0 <= start <= buf.len(),
        isize::MIN <= count <= isize::MAX,
    ensures
        unpacked(buf, address, Some(Val::Int(start)), Some(Val::Int(count))) matches Ok(vs) && {
            &&& vs.len() == 1
            &&& vs[0] matches Val::Str(b, None) && {
                &&& b.len() == if 0 <= count < buf.len() - start {
                    count as int
                } else {
                    buf.len() - start
                }
                &&& 0 <= i < b.len() ==> b[i] == buf[start + i]
            }
        },
{
    vstd::arithmetic::div_mod::lemma_small_mod(start as nat, (usize::MAX + 1) as nat);
    vstd::arithmetic::div_mod::lemma_small_mod(
        (count - isize::MIN) as nat,
        (usize::MAX + 1) as nat,
    );
}

/// A list is concatenated piece by piece: what it gives is what its two parts
/// give, one behind the other.
pub proof fn law_concatenation_goes_on(a: Seq<Val>, b: Seq<Val>, depth: int)
    ensures
        concat_items(a + b, depth) == match concat_items(a, depth) {
            Err(e) => Err::<Seq<u8>, Unwritten>(e),
            Ok(x) => match concat_items(b, depth) {
                Ok(y) => Ok(x + y),
                Err(e) => Err(Unwritten { written: x + e.written, message: e.message }),
            },
        },
    decreases a.len(),
{
    if a.len() == 0 {
        assert(a + b =~= b);
        match concat_items(b, depth) {
            Ok(y) => assert(Seq::<u8>::empty() + y =~= y),
            Err(e) => assert(Seq::<u8>::empty() + e.written =~= e.written),
        }
    } else {
        law_concatenation_goes_on(a.skip(1), b, depth);
        assert((a + b).skip(1) =~= a.skip(1) + b);
        assert((a + b)[0] == a[0]);
        if let Ok(v) = concat_bytes(a[0], depth) {
            if let Ok(x) = concat_items(a.skip(1), depth) {
                match concat_items(b, depth) {
                    Ok(y) => assert(v + (x + y) =~= (v + x) + y),
                    Err(e) => assert(v + (x + e.written) =~= (v + x) + e.written),
                }
            }
        }
    }
}

/// What single values add to a concatenation: a string its bytes, nil nothing, a
/// switch its name, an integer its digits, and a value of any other kind that is
/// no table is refused by that kind.
pub proof fn law_values_concatenate_as_text(v: Val, depth: int)
    ensures
        match v {
            Val::Nil => concat_bytes(v, depth) == Ok::<Seq<u8>, Unwritten>(Seq::empty()),
            Val::Str(b, _) => concat_bytes(v, depth) == Ok::<Seq<u8>, Unwritten>(b),
            Val::Bool(true) => concat_bytes(v, depth) == Ok::<Seq<u8>, Unwritten>(
                encode_utf8("true"@),
            ),
            Val::Bool(false) => concat_bytes(v, depth) == Ok::<Seq<u8>, Unwritten>(
                encode_utf8("false"@),
            ),
            Val::Int(i) => concat_bytes(v, depth) == Ok::<Seq<u8>, Unwritten>(
                encode_utf8(decimal(i as int)),
            ),
            Val::Num(_, text) => concat_bytes(v, depth) == Ok::<Seq<u8>, Unwritten>(
                encode_utf8(text),
            ),
            Val::Table(_) => true,
            _ => concat_bytes(v, depth) matches Err(e) && e.written.len() == 0 && e.message
                == "buffer.concat unsupport type :"@ + kind_name(kind_of(v)),
        },
{
}

/// A sequence adds what its elements add; a table with a hole or any other key
/// adds nothing. Tables nest at most 32 deep.
pub proof fn law_tables_concatenate_as_sequences(t: Tab, depth: int)
    requires
        machine_form(t),
    ensures
        depth >= 32 ==> (concat_bytes(Val::Table(t), depth) matches Err(e) && e.written.len() == 0
            && e.message == "buffer.concat too depth table"@),
        depth < 32 && is_sequence(t) ==> concat_bytes(Val::Table(t), depth) == concat_items(
            t.array,
            depth + 1,
        ),
        depth < 32 && !is_sequence(t) ==> concat_bytes(Val::Table(t), depth) == Ok::<
            Seq<u8>,
            Unwritten,
        >(Seq::empty()),
{
    law_strict_length_means_contiguous(t);
}

/// Strings one after another are concatenated to their bytes one after another.
pub proof fn law_strings_concatenate(strs: Seq<Seq<u8>>, depth: int)
    ensures
        concat_items(strs.map_values(|b: Seq<u8>| Val::Str(b, None)), depth) == Ok::<
            Seq<u8>,
            Unwritten,
        >(flat(strs)),
    decreases strs.len(),
{
    let vs = strs.map_values(|b: Seq<u8>| Val::Str(b, None));
    if strs.len() > 0 {
        let less = strs.drop_last();
        let front = less.map_values(|b: Seq<u8>| Val::Str(b, None));
        let last = seq![Val::Str(strs.last(), None)];
        law_strings_concatenate(less, depth);
        assert(vs =~= front + last);
        law_concatenation_goes_on(front, last, depth);
        assert(last.skip(1) =~= Seq::empty());
        assert(concat_items(last, depth) == Ok::<Seq<u8>, Unwritten>(strs.last())) by {
            let b = strs.last();
            assert(last[0] == Val::Str(b, None));
            assert(concat_bytes(last[0], depth) == Ok::<Seq<u8>, Unwritten>(b));
            assert(concat_items(last.skip(1), depth) == Ok::<Seq<u8>, Unwritten>(Seq::empty()));
            assert(strs.last() + Seq::<u8>::empty() =~= strs.last());
        }
    }
}

/// Writing to a buffer goes on behind what is there, value after value, up to the
/// first that is refused.
pub proof fn law_writing_goes_on(bytes: Seq<u8>, a: Seq<Val>, b: Seq<Val>)
    ensures
        bytes.is_prefix_of(written(bytes, a).0),
        written(bytes, a).1 is None ==> written(bytes, a + b) == written(written(bytes, a).0, b),
        written(bytes, a).1 is Some ==> written(bytes, a + b) == written(bytes, a),
    decreases a.len(),
{
    if a.len() == 0 {
        assert(a + b =~= b);
    } else {
        assert((a + b).skip(1) =~= a.skip(1) + b);
        assert((a + b)[0] == a[0]);
        if let Some(x) = plain_bytes(a[0]) {
            law_writing_goes_on(bytes + x, a.skip(1), b);
            let all = written(bytes, a).0;
            assert(all.take(bytes.len() as int) =~= bytes) by {
                assert((bytes + x).is_prefix_of(all));
                assert forall|i: int| 0 <= i < bytes.len() implies all[i] == bytes[i] by {
                    assert(all[i] == (bytes + x)[i]);
                }
            }
        }
    }
}

/// Strings written to a buffer stand behind what was there, in their order.
pub proof fn law_written_strings_are_there(bytes: Seq<u8>, strs: Seq<Seq<u8>>)
    ensures
        written(bytes, strs.map_values(|b: Seq<u8>| Val::Str(b, None))) == (
            bytes + flat(strs),
            None::<Seq<char>>,
        ),
    decreases strs.len(),
{
    let vs = strs.map_values(|b: Seq<u8>| Val::Str(b, None));
    if strs.len() == 0 {
        assert(bytes + flat(strs) =~= bytes);
    } else {
        let less = strs.drop_last();
        let front = less.map_values(|b: Seq<u8>| Val::Str(b, None));
        let last = seq![Val::Str(strs.last(), None)];
        law_written_strings_are_there(bytes, less);
        assert(vs =~= front + last);
        law_writing_goes_on(bytes, front, last);
        assert(last.skip(1) =~= Seq::empty());
        let mid = bytes + flat(less);
        assert(written(mid, last) == written(mid + strs.last(), last.skip(1)));
        assert(mid + strs.last() =~= bytes + flat(strs));
    }
}

/// Values written to a buffer are written as text: a string as its bytes, nil as
/// nothing, a switch by its name, an integer by its digits; a table, a function
/// and the like are refused and leave the buffer as it is.
pub proof fn law_values_are_written_as_text(bytes: Seq<u8>, v: Val)
    ensures
        written(bytes, seq![v]) == match v {
            Val::Nil => (bytes, None::<Seq<char>>),
            Val::Str(b, _) => (bytes + b, None),
            Val::Bool(true) => (bytes + encode_utf8("true"@), None),
            Val::Bool(false) => (bytes + encode_utf8("false"@), None),
            Val::Int(i) => (bytes + encode_utf8(decimal(i as int)), None),
            Val::Num(_, text) => (bytes + encode_utf8(text), None),
            _ => (bytes, Some("unsupport type :"@ + kind_name(kind_of(v)))),
        },
{
    assert(seq![v].skip(1) =~= Seq::empty());
    assert(bytes + Seq::<u8>::empty() =~= bytes);
    if let Some(b) = plain_bytes(v) {
        assert(written(bytes + b, seq![v].skip(1)) == (bytes + b, None::<Seq<char>>));
    }
}

/// Strings that the room in front does not hold are refused, and what did not fit
/// is not there: the bytes that were in the buffer are still its end.
pub proof fn law_front_is_limited(bytes: Seq<u8>, front: int, handle: Val, strs: Seq<Seq<u8>>)
    requires
        0 <= front < flat(strs).len(),
    ensures
        ({
            let (now, left, wrong) = fronted(bytes, front, behind(handle, strs), 1);
            &&& wrong == Some("no more front space"@)
            &&& 0 <= left <= front
            &&& now.len() == bytes.len() + front - left
            &&& now.skip(front - left) == bytes
        }),
    decreases strs.len(),
{
    let vs = behind(handle, strs);
    let b = strs.last();
    let less = strs.drop_last();
    assert(vs.last() == Val::Str(b, None));
    assert(vs.drop_last() =~= behind(handle, less));
    assert(bytes.skip(0) =~= bytes);
    if b.len() <= front {
        law_front_is_limited(b + bytes, front - b.len(), handle, less);
        let (now, left, wrong) = fronted(b + bytes, front - b.len(), behind(handle, less), 1);
        assert(now.skip(front - left) =~= bytes) by {
            assert forall|i: int| 0 <= i < bytes.len() implies now.skip(front - left)[i]
                == bytes[i] by {
                assert(now.skip(front - b.len() - left)[i + b.len()] == (b + bytes)[i + b.len()]);
            }
        }
    }
}

} // verus!
