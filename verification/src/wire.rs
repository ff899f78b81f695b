use vstd::prelude::*;
use vstd::slice::slice_subrange;
use vstd::utf8::*;

verus! {

/// The `width` low-order base-256 digits of `value`, least significant
/// first.
pub open spec fn le_bytes(value: nat, width: nat) -> Seq<u8>
    decreases width,
{
    if width == 0 {
        Seq::empty()
    } else {
        seq![(value % 256) as u8] + le_bytes(value / 256, (width - 1) as nat)
    }
}

/// The number whose base-256 digits, least significant first, are `bytes`.
pub open spec fn le_value(bytes: Seq<u8>) -> nat
    decreases bytes.len(),
{
    if bytes.len() == 0 {
        0
    } else {
        bytes[0] as nat + 256 * le_value(bytes.drop_first())
    }
}

/// The number of values that `width` bytes can tell apart.
pub open spec fn radix(width: nat) -> nat
    decreases width,
{
    if width == 0 {
        1
    } else {
        256 * radix((width - 1) as nat)
    }
}

/// Four bytes tell apart the values of a `u32`, eight those of a `u64`.
pub proof fn lemma_radix_values()
    ensures
        radix(4) == 0x1_0000_0000,
        radix(8) == 0x1_0000_0000_0000_0000,
{
    reveal_with_fuel(radix, 9);
}

/// A number written in `width` digits takes `width` bytes.
pub proof fn lemma_le_bytes_len(value: nat, width: nat)
    ensures
        le_bytes(value, width).len() == width,
    decreases width,
{
    if width > 0 {
        lemma_le_bytes_len(value / 256, (width - 1) as nat);
    }
}

/// The number that some digits stand for is below the radix of their count.
pub proof fn lemma_le_value_bound(bytes: Seq<u8>)
    ensures
        le_value(bytes) < radix(bytes.len()),
    decreases bytes.len(),
{
    if bytes.len() > 0 {
        lemma_le_value_bound(bytes.drop_first());
    }
}

/// The value of some digits is the value of the first `n` of them plus the
/// value of the others, shifted by `n` digits.
pub proof fn lemma_le_value_split(bytes: Seq<u8>, n: nat)
    requires
        n <= bytes.len(),
    ensures
        le_value(bytes) == le_value(bytes.take(n as int)) + radix(n) * le_value(
            bytes.skip(n as int),
        ),
    decreases n,
{
    if n == 0 {
        assert(bytes.skip(0) =~= bytes);
        assert(le_value(bytes.take(0)) == 0);
        assert(radix(0) * le_value(bytes) == le_value(bytes)) by (nonlinear_arith)
            requires
                radix(0) == 1,
        ;
    } else {
        let rest = bytes.drop_first();
        let head = bytes.take(n as int);
        lemma_le_value_split(rest, (n - 1) as nat);
        assert(rest.take(n - 1) =~= head.drop_first());
        assert(rest.skip(n - 1) =~= bytes.skip(n as int));
        let a = le_value(rest.take(n - 1)) as int;
        let b = le_value(bytes.skip(n as int)) as int;
        let r = radix((n - 1) as nat) as int;
        assert(le_value(rest) == a + r * b);
        assert(le_value(head) == head[0] + 256 * a);
        assert(le_value(bytes) == bytes[0] + 256 * (a + r * b));
        assert(radix(n) == 256 * r);
        assert(256 * (a + r * b) == 256 * a + (256 * r) * b) by (nonlinear_arith);
    }
}

/// Reading back the digits of a number that fits gives the number.
pub proof fn lemma_le_value_of_bytes(value: nat, width: nat)
    requires
        value < radix(width),
    ensures
        le_value(le_bytes(value, width)) == value,
    decreases width,
{
    if width > 0 {
        let tail = le_bytes(value / 256, (width - 1) as nat);
        lemma_le_bytes_len(value / 256, (width - 1) as nat);
        lemma_le_value_of_bytes(value / 256, (width - 1) as nat);
        assert(le_bytes(value, width).drop_first() =~= tail);
    }
}

/// Writing the number that some digits stand for gives the digits.
pub proof fn lemma_le_bytes_of_value(bytes: Seq<u8>)
    ensures
        le_bytes(le_value(bytes), bytes.len()) == bytes,
    decreases bytes.len(),
{
    if bytes.len() > 0 {
        let rest = bytes.drop_first();
        lemma_le_bytes_of_value(rest);
        let v = le_value(bytes);
        assert(v % 256 == bytes[0] as nat && v / 256 == le_value(rest)) by {
            let h = bytes[0] as int;
            let t = le_value(rest) as int;
            assert(v == h + 256 * t);
            assert((h + 256 * t) % 256 == h && (h + 256 * t) / 256 == t) by (nonlinear_arith)
                requires
                    0 <= h < 256,
                    0 <= t,
            ;
        }
        assert(le_bytes(v, bytes.len()) =~= bytes);
    }
}

/// Appends a copy of `bytes` to `out`.
pub fn put_bytes(out: &mut Vec<u8>, bytes: &[u8])
    ensures
        final(out)@ == old(out)@ + bytes@,
{
    let mut i: usize = 0;
    while i < bytes.len()
        invariant
            i <= bytes@.len(),
            out@ == old(out)@ + bytes@.take(i as int),
        decreases bytes@.len() - i,
    {
        out.push(bytes[i]);
        i += 1;
        assert(out@ =~= old(out)@ + bytes@.take(i as int));
    }
    assert(bytes@.take(i as int) =~= bytes@);
}

/// Appends the `width` low-order bytes of `value`, least significant first.
pub fn put_le(out: &mut Vec<u8>, value: u64, width: usize)
    ensures
        final(out)@ == old(out)@ + le_bytes(value as nat, width as nat),
{
    let mut rest: u64 = value;
    let mut i: usize = 0;
    while i < width
        invariant
            i <= width,
            old(out)@ + le_bytes(value as nat, width as nat) == out@ + le_bytes(
                rest as nat,
                (width - i) as nat,
            ),
        decreases width - i,
    {
        let ghost before = out@;
        out.push((rest % 256) as u8);
        assert(before + le_bytes(rest as nat, (width - i) as nat) =~= out@ + le_bytes(
            (rest / 256) as nat,
            (width - i - 1) as nat,
        ));
        rest = rest / 256;
        i += 1;
    }
    assert(out@ + le_bytes(rest as nat, 0) =~= out@);
}

/// Reads the four-byte number that starts at `at`.
pub fn read_u32(bytes: &[u8], at: usize) -> (value: u32)
    requires
        at + 4 <= bytes.len(),
    ensures
        value == le_value(bytes@.subrange(at as int, at + 4)),
{
    let b0: u32 = bytes[at] as u32;
    let b1: u32 = bytes[at + 1] as u32;
    let b2: u32 = bytes[at + 2] as u32;
    let b3: u32 = bytes[at + 3] as u32;
    proof {
        let s = bytes@.subrange(at as int, at + 4);
        let s1 = s.drop_first();
        let s2 = s1.drop_first();
        let s3 = s2.drop_first();
        assert(le_value(s3) == b3) by {
            reveal_with_fuel(le_value, 2);
        }
        assert(le_value(s2) == b2 + 256 * le_value(s3));
        assert(le_value(s1) == b1 + 256 * le_value(s2));
        assert(le_value(s) == b0 + 256 * le_value(s1));
    }
    b0 + 256 * (b1 + 256 * (b2 + 256 * b3))
}

/// Reads the eight-byte number that starts at `at`.
pub fn read_u64(bytes: &[u8], at: usize) -> (value: u64)
    requires
        at + 8 <= bytes.len(),
    ensures
        value == le_value(bytes@.subrange(at as int, at + 8)),
{
    let low: u64 = read_u32(bytes, at) as u64;
    let high: u64 = read_u32(bytes, at + 4) as u64;
    proof {
        let s = bytes@.subrange(at as int, at + 8);
        assert(bytes@.subrange(at as int, at + 4) =~= s.take(4));
        assert(bytes@.subrange(at + 4, at + 8) =~= s.skip(4));
        lemma_le_value_split(s, 4);
        lemma_radix_values();
    }
    low + 0x1_0000_0000 * high
}

/// A text on the wire: the number of its UTF-8 bytes in four bytes, then
/// the bytes.
pub open spec fn text_bytes(text: Seq<char>) -> Seq<u8> {
    le_bytes(encode_utf8(text).len(), 4) + encode_utf8(text)
}

/// Whether the length of `text` can be written in four bytes.
pub open spec fn text_fits(text: Seq<char>) -> bool {
    encode_utf8(text).len() <= u32::MAX
}

/// The text at the start of `bytes` and the number of bytes it takes, or
/// `None` when `bytes` do not start with a text.
pub open spec fn parse_text(bytes: Seq<u8>) -> Option<(Seq<char>, nat)> {
    if bytes.len() < 4 {
        None
    } else {
        let n = le_value(bytes.take(4)) as int;
        let body = bytes.subrange(4, 4 + n);
        if bytes.len() < 4 + n || !valid_utf8(body) {
            None
        } else {
            Some((decode_utf8(body), (4 + n) as nat))
        }
    }
}

/// A text that was written is read back, whatever follows it.
pub proof fn lemma_parse_text_bytes(text: Seq<char>, rest: Seq<u8>)
    requires
        text_fits(text),
    ensures
        parse_text(text_bytes(text) + rest) == Some((text, text_bytes(text).len())),
        text_bytes(text).len() == 4 + encode_utf8(text).len(),
{
    let body = encode_utf8(text);
    let bytes = text_bytes(text) + rest;
    lemma_le_bytes_len(body.len(), 4);
    lemma_radix_values();
    lemma_le_value_of_bytes(body.len(), 4);
    assert(bytes.take(4) =~= le_bytes(body.len(), 4));
    assert(bytes.subrange(4, 4 + body.len() as int) =~= body);
    encode_utf8_valid_utf8(text);
    encode_utf8_decode_utf8(text);
}

/// What was read as a text is what writing that text gives.
pub proof fn lemma_text_bytes_parsed(bytes: Seq<u8>, text: Seq<char>, used: nat)
    requires
        parse_text(bytes) == Some((text, used)),
    ensures
        text_fits(text),
        text_bytes(text) == bytes.take(used as int),
        used <= bytes.len(),
{
    let n = le_value(bytes.take(4)) as int;
    let body = bytes.subrange(4, 4 + n);
    decode_utf8_encode_utf8(body);
    lemma_le_value_bound(bytes.take(4));
    lemma_radix_values();
    lemma_le_bytes_of_value(bytes.take(4));
    assert(bytes.take(4) + body =~= bytes.take(4 + n));
}

/// Calls `String::from_utf8`: the text that `bytes` spell in UTF-8, or
/// `None` when they are not UTF-8. The text's own bytes are `bytes`.
#[verifier::external_body]
fn text_from_utf8(bytes: Vec<u8>) -> (text: Option<String>)
    ensures
        text is Some <==> valid_utf8(bytes@),
        text matches Some(s) ==> encode_utf8(s@) == bytes@,
{
    match String::from_utf8(bytes) {
        Ok(text) => Some(text),
        Err(_) => None,
    }
}

/// Appends `text` as it stands on the wire, unless it is too long for that.
pub fn put_text(out: &mut Vec<u8>, text: &str) -> (ok: bool)
    ensures
        ok == text_fits(text@),
        ok ==> final(out)@ == old(out)@ + text_bytes(text@),
        !ok ==> final(out)@ == old(out)@,
{
    let body = text.as_bytes();
    if body.len() > u32::MAX as usize {
        return false;
    }
    put_le(out, body.len() as u64, 4);
    put_bytes(out, body);
    assert(out@ =~= old(out)@ + text_bytes(text@));
    true
}

/// Reads the text that starts at `at`; gives it with the place where it
/// ends.
pub fn read_text(bytes: &[u8], at: usize) -> (r: Option<(String, usize)>)
    requires
        at <= bytes.len(),
    ensures
        match parse_text(bytes@.skip(at as int)) {
            Some((text, n)) => r matches Some(found) && found.0@ == text && found.1 == at + n,
            None => r is None,
        },
{
    let ghost tail = bytes@.skip(at as int);
    if bytes.len() - at < 4 {
        return None;
    }
    let n = read_u32(bytes, at) as usize;
    assert(bytes@.subrange(at as int, at + 4) =~= tail.take(4));
    if bytes.len() - at - 4 < n {
        return None;
    }
    let mut body: Vec<u8> = Vec::new();
    put_bytes(&mut body, slice_subrange(bytes, at + 4, at + 4 + n));
    assert(body@ =~= tail.subrange(4, 4 + n));
    match text_from_utf8(body) {
        Some(text) => {
            proof {
                encode_utf8_decode_utf8(text@);
            }
            Some((text, at + 4 + n))
        },
        None => None,
    }
}

/// The items of a series on the wire: eight bytes each, in order.
pub open spec fn series_items(items: Seq<u64>) -> Seq<u8>
    decreases items.len(),
{
    if items.len() == 0 {
        Seq::empty()
    } else {
        series_items(items.drop_last()) + le_bytes(items.last() as nat, 8)
    }
}

/// A series on the wire: the number of its items in four bytes, then the
/// items.
pub open spec fn series_bytes(items: Seq<u64>) -> Seq<u8> {
    le_bytes(items.len(), 4) + series_items(items)
}

/// Whether the length of `items` can be written in four bytes.
pub open spec fn series_fits(items: Seq<u64>) -> bool {
    items.len() <= u32::MAX
}

/// The `i`-th eight-byte item of `bytes`.
pub open spec fn item_at(bytes: Seq<u8>, i: int) -> u64 {
    le_value(bytes.subrange(8 * i, 8 * i + 8)) as u64
}

/// The series at the start of `bytes` and the number of bytes it takes, or
/// `None` when `bytes` end before the series does.
pub open spec fn parse_series(bytes: Seq<u8>) -> Option<(Seq<u64>, nat)> {
    if bytes.len() < 4 {
        None
    } else {
        let n = le_value(bytes.take(4)) as int;
        if bytes.len() < 4 + 8 * n {
            None
        } else {
            Some((Seq::new(n as nat, |i: int| item_at(bytes.skip(4), i)), (4 + 8 * n) as nat))
        }
    }
}

/// Each item of a written series takes eight bytes.
pub proof fn lemma_series_items_len(items: Seq<u64>)
    ensures
        series_items(items).len() == 8 * items.len(),
    decreases items.len(),
{
    if items.len() > 0 {
        lemma_series_items_len(items.drop_last());
        lemma_le_bytes_len(items.last() as nat, 8);
    }
}

/// The `i`-th eight bytes of a written series are its `i`-th item.
pub proof fn lemma_series_item(items: Seq<u64>, i: int)
    requires
        0 <= i < items.len(),
    ensures
        series_items(items).subrange(8 * i, 8 * i + 8) == le_bytes(items[i] as nat, 8),
    decreases items.len(),
{
    let front = items.drop_last();
    lemma_series_items_len(front);
    lemma_le_bytes_len(items.last() as nat, 8);
    if i == items.len() - 1 {
        assert(series_items(items).subrange(8 * i, 8 * i + 8) =~= le_bytes(
            items.last() as nat,
            8,
        ));
    } else {
        lemma_series_item(front, i);
        assert(series_items(items).subrange(8 * i, 8 * i + 8) =~= series_items(front).subrange(
            8 * i,
            8 * i + 8,
        ));
    }
}

/// Writing the first `n` items that stand in `bytes` gives the first `8 n`
/// bytes.
pub proof fn lemma_series_items_read(bytes: Seq<u8>, n: int)
    requires
        0 <= n,
        8 * n <= bytes.len(),
    ensures
        series_items(Seq::new(n as nat, |i: int| item_at(bytes, i))) == bytes.take(8 * n),
    decreases n,
{
    let items = Seq::new(n as nat, |i: int| item_at(bytes, i));
    if n > 0 {
        let m = n - 1;
        lemma_series_items_read(bytes, m);
        assert(items.drop_last() =~= Seq::new(m as nat, |i: int| item_at(bytes, i)));
        let chunk = bytes.subrange(8 * m, 8 * m + 8);
        lemma_le_value_bound(chunk);
        lemma_radix_values();
        lemma_le_bytes_of_value(chunk);
        assert(items.last() == le_value(chunk));
        assert(bytes.take(8 * m) + chunk =~= bytes.take(8 * n));
    } else {
        assert(bytes.take(0) =~= Seq::<u8>::empty());
    }
}

/// A series that was written is read back, whatever follows it.
pub proof fn lemma_parse_series_bytes(items: Seq<u64>, rest: Seq<u8>)
    requires
        series_fits(items),
    ensures
        parse_series(series_bytes(items) + rest) == Some((items, series_bytes(items).len())),
        series_bytes(items).len() == 4 + 8 * items.len(),
{
    let bytes = series_bytes(items) + rest;
    lemma_le_bytes_len(items.len(), 4);
    lemma_radix_values();
    lemma_le_value_of_bytes(items.len(), 4);
    lemma_series_items_len(items);
    assert(bytes.take(4) =~= le_bytes(items.len(), 4));
    let read = Seq::new(items.len(), |i: int| item_at(bytes.skip(4), i));
    assert forall|i: int| 0 <= i < items.len() implies read[i] == items[i] by {
        lemma_series_item(items, i);
        assert(bytes.skip(4).subrange(8 * i, 8 * i + 8) =~= series_items(items).subrange(
            8 * i,
            8 * i + 8,
        ));
        lemma_le_value_of_bytes(items[i] as nat, 8);
    }
    assert(read =~= items);
}

/// What was read as a series is what writing that series gives.
pub proof fn lemma_series_bytes_parsed(bytes: Seq<u8>, items: Seq<u64>, used: nat)
    requires
        parse_series(bytes) == Some((items, used)),
    ensures
        series_fits(items),
        series_bytes(items) == bytes.take(used as int),
        used <= bytes.len(),
{
    let n = le_value(bytes.take(4)) as int;
    lemma_le_value_bound(bytes.take(4));
    lemma_radix_values();
    lemma_le_bytes_of_value(bytes.take(4));
    lemma_series_items_read(bytes.skip(4), n);
    assert(bytes.take(4) + bytes.skip(4).take(8 * n) =~= bytes.take(4 + 8 * n));
}

/// Appends `items` as they stand on the wire, unless they are too many for
/// that.
pub fn put_series(out: &mut Vec<u8>, items: &Vec<u64>) -> (ok: bool)
    ensures
        ok == series_fits(items@),
        ok ==> final(out)@ == old(out)@ + series_bytes(items@),
        !ok ==> final(out)@ == old(out)@,
{
    if items.len() > u32::MAX as usize {
        return false;
    }
    put_le(out, items.len() as u64, 4);
    let mut i: usize = 0;
    while i < items.len()
        invariant
            i <= items@.len(),
            out@ == old(out)@ + le_bytes(items@.len(), 4) + series_items(items@.take(i as int)),
        decreases items@.len() - i,
    {
        put_le(out, items[i], 8);
        i += 1;
        assert(items@.take(i as int).drop_last() =~= items@.take(i - 1));
        assert(out@ =~= old(out)@ + le_bytes(items@.len(), 4) + series_items(
            items@.take(i as int),
        ));
    }
    assert(items@.take(i as int) =~= items@);
    assert(out@ =~= old(out)@ + series_bytes(items@));
    true
}

/// Reads the series that starts at `at`; gives it with the place where it
/// ends.
pub fn read_series(bytes: &[u8], at: usize) -> (r: Option<(Vec<u64>, usize)>)
    requires
        at <= bytes.len(),
    ensures
        match parse_series(bytes@.skip(at as int)) {
            Some((items, n)) => r matches Some(found) && found.0@ == items && found.1 == at + n,
            None => r is None,
        },
{
    let ghost tail = bytes@.skip(at as int);
    if bytes.len() - at < 4 {
        return None;
    }
    let n = read_u32(bytes, at) as usize;
    assert(bytes@.subrange(at as int, at + 4) =~= tail.take(4));
    if (bytes.len() - at - 4) / 8 < n {
        return None;
    }
    let mut items: Vec<u64> = Vec::new();
    let mut i: usize = 0;
    while i < n
        invariant
            i <= n,
            at + 4 + 8 * n <= bytes.len(),
            tail == bytes@.skip(at as int),
            items@.len() == i,
            forall|k: int| 0 <= k < i ==> items@[k] == item_at(tail.skip(4), k),
        decreases n - i,
    {
        let item = read_u64(bytes, at + 4 + 8 * i);
        assert(bytes@.subrange(at + 4 + 8 * i, at + 4 + 8 * i + 8) =~= tail.skip(4).subrange(
            8 * i,
            8 * i + 8,
        ));
        items.push(item);
        i += 1;
    }
    assert(items@ =~= Seq::new(n as nat, |k: int| item_at(tail.skip(4), k)));
    Some((items, at + 4 + 8 * n))
}

/// A signed 64-bit time as the unsigned number that has the same bits.
pub open spec fn stamp_code(stamp: i64) -> nat {
    if stamp >= 0 {
        stamp as nat
    } else {
        (stamp + 0x1_0000_0000_0000_0000) as nat
    }
}

/// The signed 64-bit time whose bits are those of `code`.
pub open spec fn stamp_of(code: nat) -> i64 {
    if code < 0x8000_0000_0000_0000 {
        code as i64
    } else {
        (code - 0x1_0000_0000_0000_0000) as i64
    }
}

/// The unsigned number that has the bits of `stamp`.
pub fn stamp_to_u64(stamp: i64) -> (code: u64)
    ensures
        code == stamp_code(stamp),
        stamp_of(code as nat) == stamp,
{
    if stamp >= 0 {
        stamp as u64
    } else {
        ((stamp + i64::MAX) + 1) as u64 + 0x8000_0000_0000_0000
    }
}

/// The time that has the bits of `code`.
pub fn stamp_from_u64(code: u64) -> (stamp: i64)
    ensures
        stamp == stamp_of(code as nat),
        stamp_code(stamp) == code,
{
    if code < 0x8000_0000_0000_0000 {
        code as i64
    } else {
        (code - 0x8000_0000_0000_0000) as i64 + i64::MIN
    }
}

} // verus!
