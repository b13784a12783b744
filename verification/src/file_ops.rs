//! The codec: translation between a listing of key/value entries and the
//! bytes of a kv file.
//!
//! The format is plain text, one entry per line: the key's bytes, one space,
//! the value's bytes, then a carriage return and a line feed. Reading splits
//! each line at its first space; a line with no space is malformed. Keys are
//! ASCII text (one byte per character); values are arbitrary bytes without a
//! line feed, so the format is encoding-agnostic on the value side.

use vstd::prelude::*;

use crate::errors::KvError;

verus! {

/// The position of the first occurrence of `b` in `data`, or `data.len()`
/// if `b` does not occur.
pub open spec fn find_byte(data: Seq<u8>, b: u8) -> nat
    decreases data.len(),
{
    if data.len() == 0 {
        0
    } else if data.first() == b {
        0
    } else {
        1 + find_byte(data.drop_first(), b)
    }
}

/// The one position [`find_byte`] can name: a position that no occurrence of
/// `b` precedes and that carries `b` itself, unless it is the end.
pub proof fn lemma_find_byte_is(data: Seq<u8>, b: u8, k: int)
    requires
        0 <= k <= data.len(),
        forall|t: int| 0 <= t < k ==> data[t] != b,
        k < data.len() ==> data[k] == b,
    ensures
        find_byte(data, b) == k,
    decreases data.len(),
{
    if data.len() == 0 {
    } else if data.first() == b {
        assert(data[0] == b);
    } else {
        assert(data[0] != b);
        assert forall|t: int| 0 <= t < k - 1 implies data.drop_first()[t] != b by {
            assert(data.drop_first()[t] == data[t + 1]);
        }
        if k - 1 < data.drop_first().len() {
            assert(data.drop_first()[k - 1] == data[k]);
        }
        lemma_find_byte_is(data.drop_first(), b, k - 1);
    }
}

/// The bytes of an ASCII key: one byte per character.
pub open spec fn key_bytes(k: Seq<char>) -> Seq<u8> {
    Seq::new(k.len(), |i: int| k[i] as u8)
}

/// The characters of an ASCII key read back from its bytes.
pub open spec fn key_chars(kb: Seq<u8>) -> Seq<char> {
    Seq::new(kb.len(), |i: int| kb[i] as char)
}

/// Whether every byte is ASCII, so that the bytes can form a key.
pub open spec fn all_ascii(kb: Seq<u8>) -> bool {
    forall|i: int| 0 <= i < kb.len() ==> (#[trigger] kb[i]) < 128
}

/// A pair that one kv file line can carry faithfully: the key's characters
/// are ASCII, none of them the space that delimits key from value and none a
/// line feed; the value's bytes hold no line feed (the record separator).
/// Carriage returns anywhere are fine: decoding strips exactly the one that
/// encoding appends.
pub open spec fn line_ok(k: Seq<char>, v: Seq<u8>) -> bool {
    &&& vstd::utf8::is_ascii_chars(k)
    &&& forall|i: int| 0 <= i < k.len() ==> (#[trigger] k[i]) != ' ' && k[i] != '\n'
    &&& forall|i: int| 0 <= i < v.len() ==> (#[trigger] v[i]) != 0x0au8
}

/// The bytes of one line: key, one space, value, carriage return, line feed.
pub open spec fn encode_line(k: Seq<char>, v: Seq<u8>) -> Seq<u8> {
    key_bytes(k) + seq![0x20u8] + v + seq![0x0du8, 0x0au8]
}

/// The bytes of a whole kv file: one line per entry, in listing order.
pub open spec fn spec_encode(es: Seq<(Seq<char>, Seq<u8>)>) -> Seq<u8>
    decreases es.len(),
{
    if es.len() == 0 {
        Seq::empty()
    } else {
        encode_line(es.first().0, es.first().1) + spec_encode(es.drop_first())
    }
}

/// The meaning of one line (taken without its line feed): strip the one
/// trailing carriage return if present, then split at the first space into
/// key and value. A line with no space is malformed, as is a key byte that
/// is not ASCII.
pub open spec fn parse_line(line: Seq<u8>) -> Option<(Seq<char>, Seq<u8>)> {
    let stripped = if line.len() > 0 && line.last() == 0x0du8 {
        line.drop_last()
    } else {
        line
    };
    let sp = find_byte(stripped, 0x20u8);
    if sp == stripped.len() {
        None
    } else {
        let kb = stripped.take(sp as int);
        if all_ascii(kb) {
            Some((key_chars(kb), stripped.skip(sp as int + 1)))
        } else {
            None
        }
    }
}

/// The meaning of a whole kv file: the entries of its lines in order, or
/// nothing if some line is malformed. A line feed ends each line; bytes
/// after the last line feed form a final line of their own.
pub open spec fn spec_decode(data: Seq<u8>) -> Option<Seq<(Seq<char>, Seq<u8>)>>
    decreases data.len(),
{
    if data.len() == 0 {
        Some(Seq::empty())
    } else {
        let nl = find_byte(data, 0x0au8);
        let line = data.take(nl as int);
        let rest = if nl < data.len() {
            data.skip(nl as int + 1)
        } else {
            Seq::empty()
        };
        match parse_line(line) {
            None => None,
            Some(e) => match spec_decode(rest) {
                None => None,
                Some(es) => Some(seq![e] + es),
            },
        }
    }
}

/// Joins the entries of the lines already decoded with the meaning of the
/// bytes still to read.
pub open spec fn decode_join(
    done: Seq<(Seq<char>, Seq<u8>)>,
    rest: Option<Seq<(Seq<char>, Seq<u8>)>>,
) -> Option<Seq<(Seq<char>, Seq<u8>)>> {
    match rest {
        Some(es) => Some(done + es),
        None => None,
    }
}

/// The bytes of one encoded line, position by position.
pub proof fn lemma_encode_line_bytes(k: Seq<char>, v: Seq<u8>)
    ensures
        encode_line(k, v).len() == k.len() + v.len() + 3,
        forall|t: int| 0 <= t < k.len() ==> encode_line(k, v)[t] == (k[t] as u8),
        encode_line(k, v)[k.len() as int] == 0x20u8,
        forall|t: int| 0 <= t < v.len() ==> encode_line(k, v)[k.len() + 1 + t] == v[t],
        encode_line(k, v)[k.len() + v.len() + 1 as int] == 0x0du8,
        encode_line(k, v)[k.len() + v.len() + 2 as int] == 0x0au8,
{
}

/// Law: decoding what was encoded yields the same listing back, provided
/// every entry can stand on a line ([`line_ok`]).
pub proof fn lemma_round_trip(es: Seq<(Seq<char>, Seq<u8>)>)
    requires
        forall|i: int| 0 <= i < es.len() ==> line_ok((#[trigger] es[i]).0, es[i].1),
    ensures
        spec_decode(spec_encode(es)) == Some(es),
    decreases es.len(),
{
    if es.len() == 0 {
        assert(spec_encode(es) == Seq::<u8>::empty());
        assert(spec_decode(spec_encode(es)) == Some(Seq::<(Seq<char>, Seq<u8>)>::empty()));
        assert(Seq::<(Seq<char>, Seq<u8>)>::empty() =~= es);
    } else {
        let e = es.first();
        let k = e.0;
        let v = e.1;
        assert(es[0] == e);
        assert(line_ok(k, v));
        let lb = encode_line(k, v);
        let rest = spec_encode(es.drop_first());
        let data = lb + rest;
        assert(spec_encode(es) == data);
        lemma_encode_line_bytes(k, v);
        assert(0x20u8 as char == ' ');
        assert(0x0au8 as char == '\n');
        let nl = k.len() + v.len() + 2;
        // Nothing before position `nl` is a line feed, and `nl` is one.
        assert forall|t: int| 0 <= t < nl implies data[t] != 0x0au8 by {
            assert(data[t] == lb[t]);
            if t < k.len() {
                assert(lb[t] == (k[t] as u8));
                assert(k[t] != '\n' && k[t] <= '\u{7f}');
            } else if t == k.len() {
                assert(lb[t] == 0x20u8);
            } else if t < k.len() + 1 + v.len() {
                assert(lb[t] == v[t - k.len() - 1]);
                assert(v[t - k.len() - 1] != 0x0au8);
            } else {
                assert(lb[t] == 0x0du8);
            }
        }
        assert(data[nl as int] == lb[nl as int] == 0x0au8);
        lemma_find_byte_is(data, 0x0au8, nl as int);
        // The first line is the encoded entry without its line feed; its
        // last byte is the carriage return that parsing strips.
        let line = data.take(nl as int);
        assert(line.len() == nl);
        assert(line.last() == data[nl - 1] == 0x0du8);
        let core = key_bytes(k) + seq![0x20u8] + v;
        assert(core.len() == k.len() + 1 + v.len());
        assert forall|t: int| 0 <= t < core.len() implies core[t] == lb[t] by {
            if t < k.len() {
                assert(core[t] == key_bytes(k)[t]);
            } else if t == k.len() {
                assert(core[t] == 0x20u8);
            } else {
                assert(core[t] == v[t - k.len() - 1]);
            }
        }
        assert(line.drop_last() =~= core);
        // The first space splits the line at the end of the key.
        assert forall|t: int| 0 <= t < k.len() implies core[t] != 0x20u8 by {
            assert(core[t] == (k[t] as u8));
            assert(k[t] != ' ' && k[t] <= '\u{7f}');
        }
        assert(core[k.len() as int] == 0x20u8);
        lemma_find_byte_is(core, 0x20u8, k.len() as int);
        // The key bytes are ASCII and read back as the key's characters.
        let kb = core.take(k.len() as int);
        assert(kb =~= key_bytes(k));
        assert forall|q: int| 0 <= q < kb.len() implies (#[trigger] kb[q]) < 128 by {
            assert(kb[q] == (k[q] as u8));
            assert(k[q] <= '\u{7f}');
        }
        assert(all_ascii(kb));
        assert(key_chars(kb) =~= k);
        assert(core.skip(k.len() as int + 1) =~= v);
        assert(parse_line(line) == Some((k, v)));
        assert(parse_line(line) == Some(e));
        // The remaining bytes are the remaining entries, by induction.
        assert(nl < data.len());
        assert(data.skip(nl as int + 1) =~= rest);
        assert forall|q: int| 0 <= q < es.drop_first().len() implies line_ok(
            (#[trigger] es.drop_first()[q]).0,
            es.drop_first()[q].1,
        ) by {
            assert(es.drop_first()[q] == es[q + 1]);
        }
        lemma_round_trip(es.drop_first());
        assert(seq![e] + es.drop_first() =~= es);
        assert(spec_decode(data) == Some(es));
    }
}

/// Appending one more entry to a listing appends that entry's line to the
/// file bytes.
pub proof fn lemma_spec_encode_push(es: Seq<(Seq<char>, Seq<u8>)>, e: (Seq<char>, Seq<u8>))
    ensures
        spec_encode(es.push(e)) == spec_encode(es) + encode_line(e.0, e.1),
    decreases es.len(),
{
    if es.len() == 0 {
        assert(es.push(e).first() == e);
        assert(es.push(e).drop_first() =~= Seq::<(Seq<char>, Seq<u8>)>::empty());
        assert(spec_encode(Seq::<(Seq<char>, Seq<u8>)>::empty()) =~= Seq::<u8>::empty());
        assert(spec_encode(es.push(e)) =~= spec_encode(es) + encode_line(e.0, e.1));
    } else {
        assert(es.push(e).first() == es.first());
        assert(es.push(e).drop_first() =~= es.drop_first().push(e));
        lemma_spec_encode_push(es.drop_first(), e);
        let a = encode_line(es.first().0, es.first().1);
        let b = spec_encode(es.drop_first());
        let c = encode_line(e.0, e.1);
        assert(spec_encode(es.push(e)) == a + (b + c));
        assert(a + (b + c) =~= (a + b) + c);
    }
}

/// Decides whether one entry can stand on a kv file line (see [`line_ok`]).
#[verifier::loop_isolation(false)]
fn entry_ok(key: &String, value: &Vec<u8>) -> (r: bool)
    ensures
        r == line_ok(key@, value@),
{
    if !key.is_ascii() {
        return false;
    }
    let ks: &str = key.as_str();
    let kb: &[u8] = ks.as_bytes();
    proof {
        assert(vstd::string::is_ascii(ks));
        vstd::string::is_ascii_spec_bytes(ks);
        assert(kb@ =~= key_bytes(key@));
    }
    let m: usize = kb.len();
    let mut t: usize = 0;
    while t < m
        invariant
            t <= m,
            forall|q: int| 0 <= q < t ==> (#[trigger] kb@[q]) != 0x20u8 && kb@[q] != 0x0au8,
        decreases m - t,
    {
        let b: u8 = *vstd::slice::slice_index_get(kb, t);
        if b == 0x20u8 || b == 0x0au8 {
            proof {
                assert(key_bytes(key@)[t as int] == b);
                assert((key@[t as int] as u8) == b);
                assert(key@[t as int] <= '\u{7f}');
                assert(0x20u8 as char == ' ');
                assert(0x0au8 as char == '\n');
                if b == 0x20u8 {
                    assert(key@[t as int] == ' ');
                } else {
                    assert(key@[t as int] == '\n');
                }
                assert(!line_ok(key@, value@));
            }
            return false;
        }
        t = t + 1;
    }
    let vn: usize = value.len();
    let mut u: usize = 0;
    while u < vn
        invariant
            u <= vn,
            forall|q: int| 0 <= q < u ==> (#[trigger] value@[q]) != 0x0au8,
        decreases vn - u,
    {
        if value[u] == 0x0au8 {
            proof {
                assert(value@[u as int] == 0x0au8);
                assert(!line_ok(key@, value@));
            }
            return false;
        }
        u = u + 1;
    }
    proof {
        assert forall|i: int| 0 <= i < key@.len() implies (#[trigger] key@[i]) != ' '
            && key@[i] != '\n' by {
            assert(key_bytes(key@)[i] == (key@[i] as u8));
            assert(kb@[i] != 0x20u8 && kb@[i] != 0x0au8);
        }
        assert(line_ok(key@, value@));
    }
    true
}

/// Writes a listing of entries as the bytes of a kv file, one line per
/// entry, in listing order. Fails with `FormatError` exactly when some
/// entry cannot stand on a line: its key holds a space, a line break or a
/// non-ASCII character, or its value holds a line feed. Nothing is written
/// for a failing listing, so an unrepresentable entry is never silently
/// mangled.
#[verifier::loop_isolation(false)]
#[verifier::rlimit(100)]
pub fn encode_entries(entries: &Vec<(String, Vec<u8>)>) -> (r: Result<Vec<u8>, KvError>)
    ensures
        match r {
            Ok(out) => out@ == spec_encode(entries.deep_view()) && (forall|i: int|
                0 <= i < entries.deep_view().len() ==> line_ok(
                    (#[trigger] entries.deep_view()[i]).0,
                    entries.deep_view()[i].1,
                )),
            Err(e) => e == KvError::FormatError && (exists|i: int|
                0 <= i < entries.deep_view().len() && !line_ok(
                    (#[trigger] entries.deep_view()[i]).0,
                    entries.deep_view()[i].1,
                )),
        },
{
    let ghost dv = entries.deep_view();
    let mut out: Vec<u8> = Vec::new();
    let n: usize = entries.len();
    proof {
        assert(dv.take(0) =~= Seq::<(Seq<char>, Seq<u8>)>::empty());
        assert(out@ =~= spec_encode(dv.take(0)));
    }
    for idx in 0..n
        invariant
            out@ == spec_encode(dv.take(idx as int)),
            forall|q: int|
                0 <= q < idx ==> line_ok((#[trigger] dv[q]).0, dv[q].1),
    {
        proof {
            assert(dv[idx as int] == (entries@[idx as int].0@, entries@[idx as int].1@));
        }
        if !entry_ok(&entries[idx].0, &entries[idx].1) {
            proof {
                assert(!line_ok(dv[idx as int].0, dv[idx as int].1));
            }
            return Err(KvError::FormatError);
        }
        let ghost base = out@;
        let ks: &str = entries[idx].0.as_str();
        let kb: &[u8] = ks.as_bytes();
        proof {
            assert(vstd::string::is_ascii(ks));
            vstd::string::is_ascii_spec_bytes(ks);
            assert(kb@ =~= key_bytes(dv[idx as int].0));
        }
        let m: usize = kb.len();
        let mut t: usize = 0;
        while t < m
            invariant
                t <= m,
                out@ == base + kb@.take(t as int),
            decreases m - t,
        {
            out.push(*vstd::slice::slice_index_get(kb, t));
            proof {
                assert(base + kb@.take(t as int + 1) =~= (base + kb@.take(t as int)).push(
                    kb@[t as int],
                ));
            }
            t = t + 1;
        }
        proof {
            assert(kb@.take(m as int) =~= kb@);
        }
        out.push(0x20u8);
        let ghost mid = out@;
        let vlen: usize = entries[idx].1.len();
        let mut u: usize = 0;
        while u < vlen
            invariant
                u <= vlen,
                out@ == mid + entries@[idx as int].1@.take(u as int),
            decreases vlen - u,
        {
            let b: u8 = entries[idx].1[u];
            out.push(b);
            proof {
                let vv = entries@[idx as int].1@;
                assert(mid + vv.take(u as int + 1) =~= (mid + vv.take(u as int)).push(vv[u as int]));
            }
            u = u + 1;
        }
        out.push(0x0du8);
        out.push(0x0au8);
        proof {
            let vv = entries@[idx as int].1@;
            assert(vv.take(vlen as int) =~= vv);
            assert(out@ =~= base + encode_line(dv[idx as int].0, dv[idx as int].1));
            lemma_spec_encode_push(dv.take(idx as int), dv[idx as int]);
            assert(dv.take(idx as int).push(dv[idx as int]) =~= dv.take(idx as int + 1));
        }
    }
    proof {
        assert(dv.take(n as int) =~= dv);
    }
    Ok(out)
}

/// Relies on `String::from_utf8`: bytes below 0x80 are ASCII, hence valid
/// UTF-8, and decode to one character per byte.
#[verifier::external_body]
fn ascii_to_string(bytes: Vec<u8>) -> (r: String)
    requires
        forall|i: int| 0 <= i < bytes@.len() ==> bytes@[i] < 128,
    ensures
        r@ == key_chars(bytes@),
{
    match String::from_utf8(bytes) {
        Ok(s) => s,
        Err(_) => String::new(),
    }
}

/// Reads one line of a kv file, the bytes `data[from..to]` taken without
/// their line feed, into its entry, as [`parse_line`] gives its meaning.
#[verifier::loop_isolation(false)]
#[verifier::rlimit(100)]
fn parse_line_bytes(data: &[u8], from: usize, to: usize) -> (r: Result<
    (String, Vec<u8>),
    KvError,
>)
    requires
        from <= to <= data@.len(),
    ensures
        match r {
            Ok(p) => parse_line(data@.subrange(from as int, to as int)) == Some(p.deep_view()),
            Err(e) => e == KvError::FormatError && parse_line(
                data@.subrange(from as int, to as int),
            ) is None,
        },
{
    let ghost line = data@.subrange(from as int, to as int);
    // Strip the one trailing carriage return, if present.
    let line_end: usize = if to > from && *vstd::slice::slice_index_get(data, to - 1) == 0x0du8 {
        to - 1
    } else {
        to
    };
    let ghost stripped = data@.subrange(from as int, line_end as int);
    proof {
        assert(line.len() == to - from);
        if to > from {
            assert(line.last() == data@[to - 1]);
        }
        if line.len() > 0 && line.last() == 0x0du8 {
            assert(line.drop_last() =~= stripped);
        } else {
            assert(line =~= stripped);
        }
    }
    // Find the first space of the line.
    let mut sp: usize = from;
    while sp < line_end && *vstd::slice::slice_index_get(data, sp) != 0x20u8
        invariant
            from <= sp <= line_end <= data@.len(),
            forall|t: int| from <= t < sp ==> data@[t] != 0x20u8,
        decreases line_end - sp,
    {
        sp = sp + 1;
    }
    proof {
        assert forall|t: int| 0 <= t < sp - from implies stripped[t] != 0x20u8 by {
            assert(stripped[t] == data@[t + from]);
        }
        if sp < line_end {
            assert(stripped[sp - from] == data@[sp as int]);
        }
        lemma_find_byte_is(stripped, 0x20u8, sp - from);
    }
    if sp == line_end {
        // No space on this line: it is malformed.
        proof {
            assert(parse_line(line) is None);
        }
        return Err(KvError::FormatError);
    }
    // Collect the key's bytes, refusing any that is not ASCII.
    let ghost kb = stripped.take(sp - from);
    let mut key_vec: Vec<u8> = Vec::new();
    let mut t: usize = from;
    while t < sp
        invariant
            from <= t <= sp <= data@.len(),
            key_vec@ =~= data@.subrange(from as int, t as int),
            forall|q: int| 0 <= q < key_vec@.len() ==> key_vec@[q] < 128,
        decreases sp - t,
    {
        let b: u8 = *vstd::slice::slice_index_get(data, t);
        if b >= 128 {
            // A non-ASCII key byte: the line is malformed.
            proof {
                assert(kb[t - from] == data@[t as int]);
                assert(!all_ascii(kb));
                assert(parse_line(line) is None);
            }
            return Err(KvError::FormatError);
        }
        key_vec.push(b);
        t = t + 1;
    }
    proof {
        assert(key_vec@ =~= kb);
    }
    let key: String = ascii_to_string(key_vec);
    let value: Vec<u8> = vstd::slice::slice_to_vec(
        vstd::slice::slice_subrange(data, sp + 1, line_end),
    );
    let ghost e = (key_chars(kb), stripped.skip(sp - from + 1));
    proof {
        assert(parse_line(line) == Some(e));
        assert(value@ =~= stripped.skip(sp - from + 1));
        assert(((key, value)).deep_view() == e);
    }
    Ok((key, value))
}

/// Reads the bytes of a kv file into the listing of its entries, line by
/// line, splitting each line at its first space. Fails with `FormatError`
/// exactly when some line is malformed: it has no space, or a key byte is
/// not ASCII.
#[verifier::loop_isolation(false)]
#[verifier::rlimit(100)]
pub fn decode_entries(data: &[u8]) -> (r: Result<Vec<(String, Vec<u8>)>, KvError>)
    ensures
        match r {
            Ok(es) => spec_decode(data@) == Some(es.deep_view()),
            Err(e) => e == KvError::FormatError && spec_decode(data@) is None,
        },
{
    let n: usize = data.len();
    let mut entries: Vec<(String, Vec<u8>)> = Vec::new();
    let mut i: usize = 0;
    proof {
        assert(data@.skip(0) =~= data@);
        assert(entries.deep_view() =~= Seq::<(Seq<char>, Seq<u8>)>::empty());
        if spec_decode(data@) is Some {
            let es = spec_decode(data@)->Some_0;
            assert(Seq::<(Seq<char>, Seq<u8>)>::empty() + es =~= es);
        }
    }
    while i < n
        invariant
            n == data@.len(),
            i <= n,
            spec_decode(data@) == decode_join(
                entries.deep_view(),
                spec_decode(data@.skip(i as int)),
            ),
        decreases n - i,
    {
        let ghost s = data@.skip(i as int);
        // Find the end of the line: the next line feed, or the end of input.
        let mut j: usize = i;
        while j < n && *vstd::slice::slice_index_get(data, j) != 0x0au8
            invariant
                n == data@.len(),
                i <= j <= n,
                forall|t: int| i <= t < j ==> data@[t] != 0x0au8,
            decreases n - j,
        {
            j = j + 1;
        }
        proof {
            assert forall|t: int| 0 <= t < j - i implies s[t] != 0x0au8 by {
                assert(s[t] == data@[t + i]);
            }
            if j < n {
                assert(s[j - i] == data@[j as int]);
            }
            lemma_find_byte_is(s, 0x0au8, j - i);
            assert(s.take(j - i) =~= data@.subrange(i as int, j as int));
        }
        let ghost line = data@.subrange(i as int, j as int);
        match parse_line_bytes(data, i, j) {
            Err(e) => {
                // The line is malformed, so the whole file is.
                proof {
                    assert(spec_decode(s) is None);
                }
                return Err(e);
            },
            Ok(p) => {
                let ghost e = p.deep_view();
                let ghost old_entries = entries.deep_view();
                entries.push(p);
                let i_next: usize = if j < n {
                    j + 1
                } else {
                    n
                };
                proof {
                    assert(entries.deep_view() =~= old_entries.push(e));
                    let rest = if j < n {
                        s.skip(j - i + 1)
                    } else {
                        Seq::<u8>::empty()
                    };
                    if j < n {
                        assert(s.skip(j - i + 1) =~= data@.skip(i_next as int));
                    } else {
                        assert(data@.skip(i_next as int) =~= Seq::<u8>::empty());
                    }
                    assert(spec_decode(s) == (match spec_decode(rest) {
                        None => None::<Seq<(Seq<char>, Seq<u8>)>>,
                        Some(es) => Some(seq![e] + es),
                    }));
                    match spec_decode(rest) {
                        None => {
                        }
                        Some(es) => {
                            assert(old_entries + (seq![e] + es) =~= old_entries.push(e) + es);
                        }
                    }
                }
                i = i_next;
            },
        }
    }
    proof {
        assert(data@.skip(n as int) =~= Seq::<u8>::empty());
        assert(entries.deep_view() + Seq::<(Seq<char>, Seq<u8>)>::empty() =~= entries.deep_view());
    }
    Ok(entries)
}

} // verus!
