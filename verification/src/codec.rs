use vstd::prelude::*;
use vstd::bytes::*;
use vstd::utf8::*;
use vstd::slice::*;
use crate::topic::{opts_view, bump, TopicModel, Topic};
use crate::MAX_RECORD_SIZE;

verus! {

// A topic record travels to and from the durable map as one byte sequence:
//   owner length (4 bytes, little endian), owner bytes,
//   title length (4 bytes), title as UTF-8,
//   option count (4 bytes), then per option:
//     name length (4 bytes), name as UTF-8, tally (4 bytes).
// Every length field is a little-endian u32. The encoding of a record never
// exceeds MAX_RECORD_SIZE bytes; encoding is asked only of records inside
// that bound.
/// The four little-endian bytes of one u32 field.
pub open spec fn enc_u32(n: u32) -> Seq<u8> {
    spec_u32_to_le_bytes(n)
}

/// A length-prefixed byte blob.
pub open spec fn enc_blob(b: Seq<u8>) -> Seq<u8> {
    enc_u32(b.len() as u32) + b
}

/// A length-prefixed string, as UTF-8 bytes.
pub open spec fn enc_str(s: Seq<char>) -> Seq<u8> {
    enc_blob(encode_utf8(s))
}

/// The encoded option list: each entry is its name then its tally.
pub open spec fn enc_opts(opts: Seq<(Seq<char>, u32)>) -> Seq<u8>
    decreases opts.len(),
{
    if opts.len() == 0 {
        Seq::empty()
    } else {
        enc_str(opts[0].0) + enc_u32(opts[0].1) + enc_opts(opts.drop_first())
    }
}

/// The encoded form of a whole record.
pub open spec fn encoding(m: TopicModel) -> Seq<u8> {
    enc_blob(m.owner) + enc_str(m.title) + enc_u32(m.options.len() as u32) + enc_opts(m.options)
}

/// Whether a record's encoded form stays within the fixed slot size.
pub open spec fn bounded(m: TopicModel) -> bool {
    encoding(m).len() <= MAX_RECORD_SIZE
}

/// Reads one u32 field; what remains follows it.
pub open spec fn parse_u32(b: Seq<u8>) -> Option<(u32, Seq<u8>)> {
    if b.len() >= 4 {
        Some((spec_u32_from_le_bytes(b.take(4)), b.skip(4)))
    } else {
        None
    }
}

/// Reads one length-prefixed blob.
pub open spec fn parse_blob(b: Seq<u8>) -> Option<(Seq<u8>, Seq<u8>)> {
    match parse_u32(b) {
        Some((n, r)) => if r.len() >= n {
            Some((r.take(n as int), r.skip(n as int)))
        } else {
            None
        },
        None => None,
    }
}

/// Reads one length-prefixed string; the bytes must be valid UTF-8.
pub open spec fn parse_str(b: Seq<u8>) -> Option<(Seq<char>, Seq<u8>)> {
    match parse_blob(b) {
        Some((bs, r)) => if valid_utf8(bs) {
            Some((decode_utf8(bs), r))
        } else {
            None
        },
        None => None,
    }
}

/// Reads `n` encoded options.
pub open spec fn parse_opts(b: Seq<u8>, n: nat) -> Option<(Seq<(Seq<char>, u32)>, Seq<u8>)>
    decreases n,
{
    if n == 0 {
        Some((Seq::empty(), b))
    } else {
        match parse_str(b) {
            Some((name, r1)) => match parse_u32(r1) {
                Some((tally, r2)) => match parse_opts(r2, (n - 1) as nat) {
                    Some((rest, r3)) => Some((seq![(name, tally)] + rest, r3)),
                    None => None,
                },
                None => None,
            },
            None => None,
        }
    }
}

/// The record a byte sequence holds, when it is a well-formed encoding read
/// in full; `None` on any malformed input.
pub open spec fn decoding(b: Seq<u8>) -> Option<TopicModel> {
    match parse_blob(b) {
        Some((owner, r1)) => match parse_str(r1) {
            Some((title, r2)) => match parse_u32(r2) {
                Some((count, r3)) => match parse_opts(r3, count as nat) {
                    Some((opts, r4)) => if r4.len() == 0 {
                        Some(TopicModel { title, owner, options: opts })
                    } else {
                        None
                    },
                    None => None,
                },
                None => None,
            },
            None => None,
        },
        None => None,
    }
}

/// The encoded record is its three length fields and count field of four
/// bytes each, the owner bytes, the title bytes, and the option list.
pub proof fn lemma_encoding_len_parts(m: TopicModel)
    ensures
        encoding(m).len() == 12 + m.owner.len() + encode_utf8(m.title).len() + enc_opts(
            m.options,
        ).len(),
{
    lemma_auto_spec_u32_to_from_le_bytes();
}

/// The encoded option list is at least eight bytes per option and holds each
/// encoded name whole.
pub proof fn lemma_enc_opts_lens(opts: Seq<(Seq<char>, u32)>)
    ensures
        enc_opts(opts).len() >= 8 * opts.len(),
        forall|i: int|
            0 <= i < opts.len() ==> enc_opts(opts).len() >= encode_utf8(opts[i].0).len(),
    decreases opts.len(),
{
    lemma_auto_spec_u32_to_from_le_bytes();
    if opts.len() > 0 {
        lemma_enc_opts_lens(opts.drop_first());
        assert forall|i: int| 0 <= i < opts.len() implies enc_opts(opts).len() >= encode_utf8(
            opts[i].0,
        ).len() by {
            if i > 0 {
                assert(opts.drop_first()[i - 1] == opts[i]);
            }
        }
    }
}

/// Appending one option to the list appends its encoding.
pub proof fn lemma_enc_opts_snoc(opts: Seq<(Seq<char>, u32)>, p: (Seq<char>, u32))
    ensures
        enc_opts(opts.push(p)) == enc_opts(opts) + enc_str(p.0) + enc_u32(p.1),
    decreases opts.len(),
{
    if opts.len() == 0 {
        assert(opts.push(p)[0] == p);
        assert(opts.push(p).drop_first() =~= Seq::<(Seq<char>, u32)>::empty());
        assert(enc_opts(opts.push(p)) == enc_str(p.0) + enc_u32(p.1) + enc_opts(
            Seq::<(Seq<char>, u32)>::empty(),
        ));
        assert(enc_str(p.0) + enc_u32(p.1) + Seq::<u8>::empty() =~= enc_opts(opts) + enc_str(p.0)
            + enc_u32(p.1));
    } else {
        assert(opts.push(p)[0] == opts[0]);
        assert(opts.push(p).drop_first() =~= opts.drop_first().push(p));
        lemma_enc_opts_snoc(opts.drop_first(), p);
        assert(enc_opts(opts.push(p)) == enc_str(opts[0].0) + enc_u32(opts[0].1) + (enc_opts(
            opts.drop_first(),
        ) + enc_str(p.0) + enc_u32(p.1)));
        assert(enc_str(opts[0].0) + enc_u32(opts[0].1) + (enc_opts(opts.drop_first()) + enc_str(
            p.0,
        ) + enc_u32(p.1)) =~= enc_opts(opts) + enc_str(p.0) + enc_u32(p.1));
    }
}

/// A vote changes one tally in place and leaves the encoded size as it was.
pub proof fn lemma_bump_enc_len(opts: Seq<(Seq<char>, u32)>, name: Seq<char>)
    ensures
        enc_opts(bump(opts, name)).len() == enc_opts(opts).len(),
    decreases opts.len(),
{
    lemma_auto_spec_u32_to_from_le_bytes();
    if opts.len() > 0 {
        let b = bump(opts, name);
        assert(b[0].0 == opts[0].0);
        assert(b.drop_first() =~= bump(opts.drop_first(), name));
        lemma_bump_enc_len(opts.drop_first(), name);
    }
}

/// Dropping one option never makes the encoded list longer.
pub proof fn lemma_remove_enc_len(opts: Seq<(Seq<char>, u32)>, j: int)
    requires
        0 <= j < opts.len(),
    ensures
        enc_opts(opts.remove(j)).len() <= enc_opts(opts).len(),
    decreases j,
{
    if j == 0 {
        assert(opts.remove(0) =~= opts.drop_first());
    } else {
        assert(opts.remove(j)[0] == opts[0]);
        assert(opts.remove(j).drop_first() =~= opts.drop_first().remove(j - 1));
        lemma_remove_enc_len(opts.drop_first(), j - 1);
    }
}

proof fn lemma_parse_u32_enc(n: u32, rest: Seq<u8>)
    ensures
        parse_u32(enc_u32(n) + rest) == Some((n, rest)),
{
    lemma_auto_spec_u32_to_from_le_bytes();
    let b = enc_u32(n) + rest;
    assert(b.take(4) =~= enc_u32(n));
    assert(b.skip(4) =~= rest);
}

proof fn lemma_parse_blob_enc(data: Seq<u8>, rest: Seq<u8>)
    requires
        data.len() <= u32::MAX,
    ensures
        parse_blob(enc_blob(data) + rest) == Some((data, rest)),
{
    let n = data.len() as u32;
    assert(enc_blob(data) + rest =~= enc_u32(n) + (data + rest));
    lemma_parse_u32_enc(n, data + rest);
    assert((data + rest).take(n as int) =~= data);
    assert((data + rest).skip(n as int) =~= rest);
}

proof fn lemma_parse_str_enc(s: Seq<char>, rest: Seq<u8>)
    requires
        encode_utf8(s).len() <= u32::MAX,
    ensures
        parse_str(enc_str(s) + rest) == Some((s, rest)),
{
    encode_utf8_valid_utf8(s);
    encode_utf8_decode_utf8(s);
    lemma_parse_blob_enc(encode_utf8(s), rest);
}

proof fn lemma_parse_opts_enc(opts: Seq<(Seq<char>, u32)>, rest: Seq<u8>)
    requires
        forall|i: int| 0 <= i < opts.len() ==> encode_utf8(opts[i].0).len() <= u32::MAX,
    ensures
        parse_opts(enc_opts(opts) + rest, opts.len() as nat) == Some((opts, rest)),
    decreases opts.len(),
{
    if opts.len() == 0 {
        assert(enc_opts(opts) + rest =~= rest);
    } else {
        let head = opts[0];
        let tail = opts.drop_first();
        assert(enc_opts(opts) + rest =~= enc_str(head.0) + (enc_u32(head.1) + (enc_opts(tail)
            + rest)));
        lemma_parse_str_enc(head.0, enc_u32(head.1) + (enc_opts(tail) + rest));
        lemma_parse_u32_enc(head.1, enc_opts(tail) + rest);
        assert(forall|i: int|
            0 <= i < tail.len() ==> encode_utf8(#[trigger] tail[i].0).len() <= u32::MAX);
        lemma_parse_opts_enc(tail, rest);
        assert(head == (head.0, head.1));
        assert(seq![head] + tail =~= opts);
    }
}

/// Round trip: decoding the encoding of any record inside the size bound
/// yields that record again — title, owner, and the full option list.
pub proof fn lemma_round_trip(m: TopicModel)
    requires
        bounded(m),
    ensures
        decoding(encoding(m)) == Some(m),
{
    lemma_enc_opts_lens(m.options);
    let cnt = m.options.len() as u32;
    let b = encoding(m);
    let rest1 = enc_str(m.title) + enc_u32(cnt) + enc_opts(m.options);
    assert(b =~= enc_blob(m.owner) + rest1);
    lemma_parse_blob_enc(m.owner, rest1);
    let rest2 = enc_u32(cnt) + enc_opts(m.options);
    assert(rest1 =~= enc_str(m.title) + rest2);
    lemma_parse_str_enc(m.title, rest2);
    lemma_parse_u32_enc(cnt, enc_opts(m.options));
    assert(enc_opts(m.options) =~= enc_opts(m.options) + Seq::<u8>::empty());
    lemma_parse_opts_enc(m.options, Seq::empty());
    assert(cnt as nat == m.options.len());
    assert(decoding(b) == Some(TopicModel { title: m.title, owner: m.owner, options: m.options }));
    assert(TopicModel { title: m.title, owner: m.owner, options: m.options } == m);
}

/// Appends the four little-endian bytes of one u32 field.
fn push_u32(out: &mut Vec<u8>, n: u32)
    ensures
        final(out)@ == old(out)@ + enc_u32(n),
{
    let mut b = u32_to_le_bytes(n);
    out.append(&mut b);
}

/// Appends a byte slice whole.
fn append_slice(out: &mut Vec<u8>, s: &[u8])
    ensures
        final(out)@ == old(out)@ + s@,
{
    let n = s.len();
    assert(old(out)@ + s@.take(0) =~= old(out)@);
    for i in 0..n
        invariant
            n == s@.len(),
            out@ == old(out)@ + s@.take(i as int),
    {
        let ghost before = out@;
        out.push(*slice_index_get(s, i));
        assert(out@ =~= old(out)@ + s@.take(i + 1));
    }
    assert(old(out)@ + s@.take(n as int) =~= old(out)@ + s@);
}

/// Encodes one record into its byte form; asks that the record be inside the
/// fixed slot size, as every record given to the durable map is.
pub fn encode(t: &Topic) -> (out: Vec<u8>)
    requires
        bounded(t@),
    ensures
        out@ == encoding(t@),
        out@.len() <= MAX_RECORD_SIZE,
{
    proof {
        lemma_enc_opts_lens(t@.options);
    }
    let mut out: Vec<u8> = Vec::new();
    let owner = t.owner();
    push_u32(&mut out, owner.len() as u32);
    append_slice(&mut out, owner.as_slice());
    assert(out@ =~= enc_blob(t@.owner));
    let title_bytes = t.title().as_str().as_bytes();
    push_u32(&mut out, title_bytes.len() as u32);
    append_slice(&mut out, title_bytes);
    assert(out@ =~= enc_blob(t@.owner) + enc_str(t@.title));
    let opts = t.options();
    let cnt = opts.len();
    push_u32(&mut out, cnt as u32);
    let ghost head = out@;
    assert(out@ =~= head + enc_opts(t@.options.take(0)));
    for i in 0..cnt
        invariant
            cnt == opts@.len(),
            opts_view(opts@) == t@.options,
            bounded(t@),
            out@ == head + enc_opts(t@.options.take(i as int)),
            head == enc_blob(t@.owner) + enc_str(t@.title) + enc_u32(t@.options.len() as u32),
        decreases cnt - i,
    {
        proof {
            lemma_enc_opts_lens(t@.options);
            assert(t@.options[i as int] == (opts@[i as int].0@, opts@[i as int].1));
        }
        let name_bytes = opts[i].0.as_str().as_bytes();
        push_u32(&mut out, name_bytes.len() as u32);
        append_slice(&mut out, name_bytes);
        push_u32(&mut out, opts[i].1);
        proof {
            lemma_enc_opts_snoc(t@.options.take(i as int), t@.options[i as int]);
            assert(t@.options.take(i + 1) =~= t@.options.take(i as int).push(
                t@.options[i as int],
            ));
            assert(out@ =~= head + enc_opts(t@.options.take(i + 1)));
        }
    }
    proof {
        assert(t@.options.take(cnt as int) =~= t@.options);
        assert(out@ =~= encoding(t@));
    }
    out
}

/// Relies on str::from_utf8: it succeeds exactly on valid UTF-8 and returns
/// those bytes viewed as a string.
#[verifier::external_body]
fn try_str_from_utf8<'a>(v: &'a [u8]) -> (r: Option<&'a str>)
    ensures
        match r {
            Some(s) => valid_utf8(v@) && s@ == decode_utf8(v@),
            None => !valid_utf8(v@),
        },
{
    match core::str::from_utf8(v) {
        Ok(s) => Some(s),
        Err(_) => None,
    }
}

/// Reads one u32 field at byte offset `i`.
fn read_u32(s: &[u8], i: usize) -> (r: Option<(u32, usize)>)
    requires
        i <= s@.len(),
    ensures
        match r {
            Some(p) => parse_u32(s@.skip(i as int)) == Some((p.0, s@.skip(p.1 as int))) && i <= p.1
                <= s@.len(),
            None => parse_u32(s@.skip(i as int)) is None,
        },
{
    if s.len() - i >= 4 {
        let sub = slice_subrange(s, i, i + 4);
        let n = u32_from_le_bytes(sub);
        proof {
            assert(s@.skip(i as int).take(4) =~= s@.subrange(i as int, i + 4));
            assert(s@.skip(i as int).skip(4) =~= s@.skip(i + 4));
        }
        Some((n, i + 4))
    } else {
        None
    }
}

/// Reads one length-prefixed blob at byte offset `i`.
fn read_blob<'a>(s: &'a [u8], i: usize) -> (r: Option<(&'a [u8], usize)>)
    requires
        i <= s@.len(),
    ensures
        match r {
            Some(p) => parse_blob(s@.skip(i as int)) == Some((p.0@, s@.skip(p.1 as int))) && i
                <= p.1 <= s@.len(),
            None => parse_blob(s@.skip(i as int)) is None,
        },
{
    match read_u32(s, i) {
        None => None,
        Some((n, j)) => {
            let len = n as usize;
            if s.len() - j >= len {
                let b = slice_subrange(s, j, j + len);
                proof {
                    assert(s@.skip(j as int).take(n as int) =~= s@.subrange(j as int, j + n));
                    assert(s@.skip(j as int).skip(n as int) =~= s@.skip(j + n));
                }
                Some((b, j + len))
            } else {
                None
            }
        },
    }
}

/// Reads one length-prefixed string at byte offset `i`.
fn read_str(s: &[u8], i: usize) -> (r: Option<(String, usize)>)
    requires
        i <= s@.len(),
    ensures
        match r {
            Some(p) => parse_str(s@.skip(i as int)) == Some((p.0@, s@.skip(p.1 as int))) && i <= p.1
                <= s@.len(),
            None => parse_str(s@.skip(i as int)) is None,
        },
{
    match read_blob(s, i) {
        None => None,
        Some((b, j)) => match try_str_from_utf8(b) {
            None => None,
            Some(st) => Some((st.to_owned(), j)),
        },
    }
}

/// Reads `n` encoded options at byte offset `i`.
fn read_opts(s: &[u8], i: usize, n: u32) -> (r: Option<(Vec<(String, u32)>, usize)>)
    requires
        i <= s@.len(),
    ensures
        match r {
            Some(p) => parse_opts(s@.skip(i as int), n as nat) == Some(
                (opts_view(p.0@), s@.skip(p.1 as int)),
            ) && i <= p.1 <= s@.len(),
            None => parse_opts(s@.skip(i as int), n as nat) is None,
        },
    decreases n,
{
    if n == 0 {
        let v: Vec<(String, u32)> = Vec::new();
        assert(opts_view(v@) =~= Seq::<(Seq<char>, u32)>::empty());
        Some((v, i))
    } else {
        match read_str(s, i) {
            None => None,
            Some((name, j1)) => match read_u32(s, j1) {
                None => None,
                Some((tally, j2)) => match read_opts(s, j2, n - 1) {
                    None => None,
                    Some((mut v, j3)) => {
                        let ghost tail_view = opts_view(v@);
                        v.insert(0, (name, tally));
                        proof {
                            assert(opts_view(v@) =~= seq![(name@, tally)] + tail_view);
                        }
                        Some((v, j3))
                    },
                },
            },
        }
    }
}

/// Decodes a byte sequence back into a record; `None` exactly on bytes that
/// are not the whole encoding of some record. Every stored record was
/// produced by `encode`, so `None` on bytes taken from storage is an
/// unrecoverable integrity fault — storage corruption, never a user error —
/// and a caller outside the durable map must abort on it rather than carry
/// on; inside the map the case is proven unreachable, which is why this
/// function itself can stay total.
pub fn decode(bytes: &[u8]) -> (r: Option<Topic>)
    ensures
        match r {
            Some(t) => decoding(bytes@) == Some(t@),
            None => decoding(bytes@) is None,
        },
{
    proof {
        assert(bytes@.skip(0) =~= bytes@);
    }
    match read_blob(bytes, 0) {
        None => None,
        Some((ob, j1)) => {
            let owner = slice_to_vec(ob);
            match read_str(bytes, j1) {
                None => None,
                Some((title, j2)) => match read_u32(bytes, j2) {
                    None => None,
                    Some((count, j3)) => match read_opts(bytes, j3, count) {
                        None => None,
                        Some((opts, j4)) => {
                            if j4 == bytes.len() {
                                proof {
                                    assert(bytes@.skip(j4 as int).len() == 0);
                                }
                                Some(Topic::from_parts(title, opts, owner))
                            } else {
                                proof {
                                    assert(bytes@.skip(j4 as int).len() != 0);
                                }
                                None
                            }
                        },
                    },
                },
            }
        },
    }
}

} // verus!
