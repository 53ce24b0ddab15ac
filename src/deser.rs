//! The string unescape decoder: decodes a string of the document in place,
//! with a read cursor and a write cursor that never passes it.
use vstd::prelude::*;
use crate::bits::{first_set_bit, lemma_bit_or, CHUNK};
use crate::classify::Stage1Parse;
use crate::error::{Error, ErrorType};
use crate::unicode::{
    codepoint_to_utf8, handle_unicode_codepoint, unicode_escape_len, unicode_escape_value,
    utf8_encode,
};

verus! {

/// The byte that a short escape `\c` stands for, or 0 where `c` starts no
/// short escape.
pub open spec fn escape_value(c: u8) -> u8 {
    if c == 0x22u8 {
        0x22u8
    } else if c == 0x5cu8 {
        0x5cu8
    } else if c == 0x2fu8 {
        0x2fu8
    } else if c == 0x62u8 {
        0x08u8
    } else if c == 0x66u8 {
        0x0cu8
    } else if c == 0x6eu8 {
        0x0au8
    } else if c == 0x72u8 {
        0x0du8
    } else if c == 0x74u8 {
        0x09u8
    } else {
        0u8
    }
}

/// Looks up the byte that the short escape `\c` stands for; 0 where none.
pub fn escape_map(c: u8) -> (r: u8)
    ensures
        r == escape_value(c),
{
    match c {
        0x22 => 0x22,
        0x5c => 0x5c,
        0x2f => 0x2f,
        0x62 => 0x08,
        0x66 => 0x0c,
        0x6e => 0x0a,
        0x72 => 0x0d,
        0x74 => 0x09,
        _ => 0,
    }
}

/// `pre` put in front of a decoded result; an error stays as it is.
pub open spec fn prepend(pre: Seq<u8>, r: Result<Seq<u8>, Error>) -> Result<Seq<u8>, Error> {
    match r {
        Ok(d) => Ok(pre + d),
        Err(e) => Err(e),
    }
}

/// The error for a document that ends inside a string.
pub open spec fn eof_error(s: Seq<u8>) -> Error {
    Error { index: s.len() as usize, character: 0, error: ErrorType::Eof }
}

/// What the escape whose backslash is at `i` decodes to, and how many
/// source bytes it takes.
pub open spec fn escape_step(s: Seq<u8>, i: int) -> Result<(Seq<u8>, int), Error> {
    if i + 1 >= s.len() {
        Err(eof_error(s))
    } else if s[i + 1] == 0x75u8 {
        match unicode_escape_value(s, i) {
            Some(c) => Ok((utf8_encode(c), unicode_escape_len(s, i))),
            None => Err(
                Error {
                    index: (i + 1) as usize,
                    character: 0x75u8,
                    error: ErrorType::InvalidUnicodeCodepoint,
                },
            ),
        }
    } else if escape_value(s[i + 1]) != 0 {
        Ok((seq![escape_value(s[i + 1])], 2))
    } else {
        Err(Error { index: (i + 1) as usize, character: s[i + 1], error: ErrorType::InvalidEscape })
    }
}

/// Decodes the string body that starts at `i`, up to its closing quote.
#[verifier::opaque]
pub open spec fn decode_from(s: Seq<u8>, i: int) -> Result<Seq<u8>, Error>
    decreases s.len() - i,
{
    if i < 0 || i >= s.len() {
        Err(eof_error(s))
    } else if s[i] == 0x22u8 {
        Ok(Seq::empty())
    } else if s[i] == 0x5cu8 {
        match escape_step(s, i) {
            Ok((b, k)) => if 0 < k && i + k <= s.len() {
                prepend(b, decode_from(s, i + k))
            } else {
                Err(eof_error(s))
            },
            Err(e) => Err(e),
        }
    } else {
        prepend(seq![s[i]], decode_from(s, i + 1))
    }
}

/// The decoded content of the string whose opening quote is at `idx`.
pub open spec fn decode_string(s: Seq<u8>, idx: int) -> Result<Seq<u8>, Error> {
    decode_from(s, idx + 1)
}

/// One step of `decode_from`: an end, a closing quote, an escape or a
/// plain byte.
proof fn lemma_decode_step(s: Seq<u8>, i: int)
    ensures
        decode_from(s, i) == (if i < 0 || i >= s.len() {
            Err(eof_error(s))
        } else if s[i] == 0x22u8 {
            Ok(Seq::empty())
        } else if s[i] == 0x5cu8 {
            match escape_step(s, i) {
                Ok((b, k)) => if 0 < k && i + k <= s.len() {
                    prepend(b, decode_from(s, i + k))
                } else {
                    Err(eof_error(s))
                },
                Err(e) => Err(e),
            }
        } else {
            prepend(seq![s[i]], decode_from(s, i + 1))
        }),
{
    reveal(decode_from);
}

proof fn lemma_prepend_prepend(a: Seq<u8>, b: Seq<u8>, r: Result<Seq<u8>, Error>)
    ensures
        prepend(a, prepend(b, r)) == prepend(a + b, r),
{
    match r {
        Ok(d) => {
            assert(a + (b + d) =~= (a + b) + d);
        },
        Err(e) => {},
    }
}

/// A run of bytes that are neither quotes nor backslashes decodes to itself.
proof fn lemma_raw_run(s: Seq<u8>, i: int, k: int)
    requires
        0 <= i,
        0 <= k,
        i + k <= s.len(),
        forall|j: int| i <= j < i + k ==> s[j] != 0x22u8 && s[j] != 0x5cu8,
    ensures
        decode_from(s, i) == prepend(s.subrange(i, i + k), decode_from(s, i + k)),
    decreases k,
{
    lemma_decode_step(s, i);
    if k == 0 {
        match decode_from(s, i) {
            Ok(d) => {
                assert(s.subrange(i, i) + d =~= d);
            },
            Err(e) => {},
        }
    } else {
        lemma_raw_run(s, i + 1, k - 1);
        lemma_prepend_prepend(seq![s[i]], s.subrange(i + 1, i + k), decode_from(s, i + k));
        assert(seq![s[i]] + s.subrange(i + 1, i + k) =~= s.subrange(i, i + k));
    }
}

/// A `\u` escape that decodes takes at least as many source bytes as its
/// encoding needs, and lies inside the document.
proof fn lemma_unicode_shrinks(s: Seq<u8>, p: int)
    requires
        0 <= p,
        unicode_escape_value(s, p) is Some,
    ensures
        unicode_escape_value(s, p).unwrap() <= 0x10FFFF,
        utf8_encode(unicode_escape_value(s, p).unwrap()).len() <= unicode_escape_len(s, p),
        p + unicode_escape_len(s, p) <= s.len(),
{
}

/// The `\u` escape at `p` reads only bytes from `p` on.
proof fn lemma_unicode_same(a: Seq<u8>, b: Seq<u8>, p: int)
    requires
        0 <= p,
        a.len() == b.len(),
        forall|k: int| p <= k < a.len() ==> a[k] == b[k],
    ensures
        unicode_escape_value(a, p) == unicode_escape_value(b, p),
        unicode_escape_len(a, p) == unicode_escape_len(b, p),
{
}

/// Copies the first `run` bytes of `from` into `to` at `at`.
fn write_run(to: &mut Vec<u8>, at: usize, from: &Vec<u8>, run: usize)
    requires
        run <= from@.len(),
        at + run <= old(to)@.len(),
    ensures
        final(to)@ == old(to)@.subrange(0, at as int) + from@.subrange(0, run as int)
            + old(to)@.subrange(at + run, old(to)@.len() as int),
{
    let ghost before = to@;
    let len = to.len();
    let mut j: usize = 0;
    while j < run
        invariant
            j <= run,
            len == before.len(),
            run <= from@.len(),
            at + run <= before.len(),
            to@ == before.subrange(0, at as int) + from@.subrange(0, j as int) + before.subrange(
                at + j,
                before.len() as int,
            ),
        decreases run - j,
    {
        to[at + j] = from[j];
        j = j + 1;
        assert(to@ =~= before.subrange(0, at as int) + from@.subrange(0, j as int) + before.subrange(
            at + j,
            before.len() as int,
        ));
    }
}

/// Fills the first chunk of `buffer` with the bytes of `input` from `src`
/// on, and zeros past its end; returns how many bytes came from `input`.
fn load_scratch(buffer: &mut Vec<u8>, input: &Vec<u8>, src: usize) -> (avail: usize)
    requires
        src < input@.len(),
        old(buffer)@.len() >= CHUNK,
    ensures
        final(buffer)@.len() == old(buffer)@.len(),
        0 < avail <= CHUNK,
        src + avail <= input@.len(),
        avail == CHUNK || src + avail == input@.len(),
        forall|k: int| 0 <= k < CHUNK ==> final(buffer)@[k] == (if k < avail { input@[src + k] } else { 0u8 }),
{
    let n = input.len();
    let avail: usize = if n - src < CHUNK { n - src } else { CHUNK };
    let mut j: usize = 0;
    while j < CHUNK
        invariant
            j <= CHUNK,
            n == input@.len(),
            src + avail <= n,
            avail <= CHUNK,
            buffer@.len() == old(buffer)@.len(),
            buffer@.len() >= CHUNK,
            forall|k: int| 0 <= k < j ==> buffer@[k] == (if k < avail { input@[src + k] } else { 0u8 }),
        decreases CHUNK - j,
    {
        if j < avail {
            buffer[j] = input[src + j];
        } else {
            buffer[j] = 0u8;
        }
        j = j + 1;
    }
    avail
}

/// Decodes the escape whose backslash is at `src` and writes what it stands
/// for at `dst`; returns the cursors past it.
fn decode_escape(input: &mut Vec<u8>, src: usize, dst: usize) -> (r: Result<(usize, usize), Error>)
    requires
        dst <= src < old(input)@.len(),
        old(input)@.len() + 12 <= usize::MAX,
        old(input)@[src as int] == 0x5cu8,
    ensures
        final(input)@.len() == old(input)@.len(),
        match escape_step(old(input)@, src as int) {
            Ok((b, k)) => r == Ok::<(usize, usize), Error>(((src + k) as usize, (dst + b.len()) as usize))
                && 0 < k && b.len() <= k && src + k <= old(input)@.len()
                && final(input)@ == old(input)@.subrange(0, dst as int) + b + old(input)@.subrange(
                dst + b.len(),
                old(input)@.len() as int,
            ),
            Err(e) => r == Err::<(usize, usize), Error>(e) && final(input)@ == old(input)@,
        },
{
    let ghost t = input@;
    let n = input.len();
    if src + 1 >= n {
        return Err(Error::new_c(n, 0, ErrorType::Eof));
    }
    let c = input[src + 1];
    if c == 0x75u8 {
        match handle_unicode_codepoint(input.as_slice(), src) {
            None => Err(Error::new_c(src + 1, 0x75u8, ErrorType::InvalidUnicodeCodepoint)),
            Some((cp, consumed)) => {
                proof {
                    lemma_unicode_shrinks(t, src as int);
                }
                let produced = codepoint_to_utf8(cp, input, dst);
                Ok((src + consumed, dst + produced))
            },
        }
    } else {
        let e = escape_map(c);
        if e == 0 {
            return Err(Error::new_c(src + 1, c, ErrorType::InvalidEscape));
        }
        input[dst] = e;
        assert(input@ =~= t.subrange(0, dst as int) + seq![e] + t.subrange(dst + 1, n as int));
        Ok((src + 2, dst + 1))
    }
}

/// Copies the next chunk from `src` into `buffer`, classifies it there,
/// and moves its leading run of plain bytes (neither quote nor backslash)
/// to `dst`. Returns the length of the run and whether a quote or a
/// backslash ends it.
fn copy_raw_run<S: Stage1Parse>(input: &mut Vec<u8>, buffer: &mut Vec<u8>, src: usize, dst: usize) -> (r: (usize, bool))
    requires
        dst <= src < old(input)@.len(),
        old(buffer)@.len() >= CHUNK,
    ensures
        final(buffer)@.len() == old(buffer)@.len(),
        r.0 > 0 || r.1,
        src + r.0 <= old(input)@.len(),
        forall|k: int| src <= k < src + r.0 ==> old(input)@[k] != 0x22u8 && old(input)@[k] != 0x5cu8,
        r.1 ==> src + r.0 < old(input)@.len() && (old(input)@[src + r.0] == 0x22u8 || old(input)@[src
            + r.0] == 0x5cu8),
        final(input)@ == old(input)@.subrange(0, dst as int) + old(input)@.subrange(src as int, src + r.0)
            + old(input)@.subrange(dst + r.0, old(input)@.len() as int),
{
    let ghost t = input@;
    let avail = load_scratch(buffer, input, src);
    let chunk = S::new(buffer.as_slice());
    let bs = chunk.cmp_mask_against_input(0x5cu8);
    let quotes = chunk.cmp_mask_against_input(0x22u8);
    let first = first_set_bit(bs | quotes);
    let special = first < avail as u64;
    let run: usize = if special { first as usize } else { avail };
    proof {
        assert forall|k: int| src <= k < src + run implies t[k] != 0x22u8 && t[k] != 0x5cu8 by {
            lemma_bit_or(bs, quotes, (k - src) as u64);
        }
        if special {
            lemma_bit_or(bs, quotes, first);
        }
        assert(buffer@.subrange(0, run as int) =~= t.subrange(src as int, src + run));
    }
    if dst < src {
        write_run(input, dst, buffer, run);
    } else {
        assert(t =~= t.subrange(0, dst as int) + t.subrange(src as int, src + run) + t.subrange(
            dst + run,
            t.len() as int,
        ));
    }
    (run, special)
}

/// Decodes in place the string whose opening quote is at `idx`.
///
/// Bytes are read from just after the quote and the decoded bytes are
/// written back over the same storage, from the same offset: the write
/// cursor never passes the read cursor, so no unread byte is overwritten.
/// Each chunk is copied into `buffer` (at least one chunk long) and
/// classified there. On success the decoded string stands at `idx + 1` and
/// its length is returned; the bytes after it are as they were. On failure
/// the bytes up to the opening quote, and those from the failing offset on,
/// are as they were.
#[verifier::rlimit(100)]
#[verifier::spinoff_prover]
pub fn parse_str<S: Stage1Parse>(input: &mut Vec<u8>, buffer: &mut Vec<u8>, idx: usize) -> (r: Result<usize, Error>)
    requires
        idx < old(input)@.len(),
        old(input)@.len() + 12 <= usize::MAX,
        old(buffer)@.len() >= CHUNK,
    ensures
        final(input)@.len() == old(input)@.len(),
        final(buffer)@.len() == old(buffer)@.len(),
        match decode_string(old(input)@, idx as int) {
            Ok(d) => r == Ok::<usize, Error>(d.len() as usize) && idx + 1 + d.len() <= old(input)@.len()
                && final(input)@ == old(input)@.subrange(0, idx + 1) + d + old(input)@.subrange(
                idx + 1 + d.len(),
                old(input)@.len() as int,
            ),
            Err(e) => r == Err::<usize, Error>(e) && final(input)@.subrange(0, idx + 1)
                == old(input)@.subrange(0, idx + 1) && forall|k: int|
                e.index <= k < old(input)@.len() ==> final(input)@[k] == old(input)@[k],
        },
{
    let ghost s = input@;
    let n = input.len();
    let start = idx + 1;
    let mut src: usize = start;
    let mut dst: usize = start;
    proof {
        assert(input@ =~= s.subrange(0, start as int) + input@.subrange(start as int, dst as int)
            + s.subrange(dst as int, n as int));
        match decode_from(s, start as int) {
            Ok(d) => {
                assert(Seq::<u8>::empty() + d =~= d);
            },
            Err(e) => {},
        }
    }
    loop
        invariant
            s == old(input)@,
            n == input@.len(),
            n == s.len(),
            n + 12 <= usize::MAX,
            start == idx + 1,
            start <= dst <= src,
            dst <= n,
            buffer@.len() == old(buffer)@.len(),
            buffer@.len() >= CHUNK,
            input@ == s.subrange(0, start as int) + input@.subrange(start as int, dst as int)
                + s.subrange(dst as int, n as int),
            decode_from(s, start as int) == prepend(
                input@.subrange(start as int, dst as int),
                decode_from(s, src as int),
            ),
        decreases n - src,
    {
        proof {
            lemma_decode_step(s, src as int);
        }
        if src >= n {
            return Err(Error::new_c(n, 0, ErrorType::Eof));
        }
        proof {
            assert forall|k: int| dst <= k < n implies input@[k] == s[k] by {
                assert(input@[k] == s.subrange(dst as int, n as int)[k - dst]);
            }
        }
        let ghost written = input@.subrange(start as int, dst as int);
        let ghost here = input@;
        let (run, special) = copy_raw_run::<S>(input, buffer, src, dst);
        proof {
            assert forall|k: int| src <= k < src + run implies s[k] != 0x22u8 && s[k] != 0x5cu8 by {
                assert(here[k] == s[k]);
            }
            lemma_raw_run(s, src as int, run as int);
            lemma_prepend_prepend(written, s.subrange(src as int, src + run), decode_from(s, src + run));
            assert(here.subrange(src as int, src + run) =~= s.subrange(src as int, src + run));
            assert(input@ =~= s.subrange(0, start as int) + (written + s.subrange(src as int, src + run))
                + s.subrange(dst + run, n as int));
            assert(input@.subrange(start as int, dst + run) =~= written + s.subrange(src as int, src + run));
            if special {
                assert(here[src + run] == s[src + run]);
            }
        }
        src = src + run;
        dst = dst + run;
        if special {
            proof {
                lemma_decode_step(s, src as int);
            }
            if input[src] == 0x22u8 {
                proof {
                    let w = input@.subrange(start as int, dst as int);
                    assert(w + Seq::<u8>::empty() =~= w);
                }
                return Ok(dst - start);
            }
            let ghost cur = input@;
            let ghost w = input@.subrange(start as int, dst as int);
            proof {
                assert forall|k: int| dst <= k < n implies cur[k] == s[k] by {
                    assert(cur[k] == s.subrange(dst as int, n as int)[k - dst]);
                }
                lemma_unicode_same(cur, s, src as int);
                assert(escape_step(cur, src as int) == escape_step(s, src as int));
            }
            match decode_escape(input, src, dst) {
                Err(e) => {
                    return Err(e);
                },
                Ok((next_src, next_dst)) => {
                    proof {
                        let (b, k) = escape_step(s, src as int).unwrap();
                        lemma_prepend_prepend(w, b, decode_from(s, src + k));
                        assert(input@ =~= s.subrange(0, start as int) + (w + b) + s.subrange(next_dst as int, n as int));
                        assert(input@.subrange(start as int, next_dst as int) =~= w + b);
                    }
                    src = next_src;
                    dst = next_dst;
                },
            }
        }
    }
}

/// A string with no backslash decodes to exactly the bytes between its
/// quotes.
pub proof fn lemma_plain_string_unchanged(s: Seq<u8>, idx: int, close: int)
    requires
        0 <= idx < close < s.len(),
        s[close] == 0x22u8,
        forall|j: int| idx < j < close ==> s[j] != 0x22u8 && s[j] != 0x5cu8,
    ensures
        decode_string(s, idx) == Ok::<Seq<u8>, Error>(s.subrange(idx + 1, close)),
{
    lemma_raw_run(s, idx + 1, close - idx - 1);
    lemma_decode_step(s, close);
    assert(s.subrange(idx + 1, close) + Seq::<u8>::empty() =~= s.subrange(idx + 1, close));
}

/// How a byte is written inside a string: quote, backslash and the five
/// control characters with a short name as a short escape, any other byte
/// as itself.
pub open spec fn escape_byte(b: u8) -> Seq<u8> {
    if b == 0x22u8 {
        seq![0x5cu8, 0x22u8]
    } else if b == 0x5cu8 {
        seq![0x5cu8, 0x5cu8]
    } else if b == 0x08u8 {
        seq![0x5cu8, 0x62u8]
    } else if b == 0x0cu8 {
        seq![0x5cu8, 0x66u8]
    } else if b == 0x0au8 {
        seq![0x5cu8, 0x6eu8]
    } else if b == 0x0du8 {
        seq![0x5cu8, 0x72u8]
    } else if b == 0x09u8 {
        seq![0x5cu8, 0x74u8]
    } else {
        seq![b]
    }
}

/// A string body written with `escape_byte` for each byte.
pub open spec fn encode_string(t: Seq<u8>) -> Seq<u8>
    decreases t.len(),
{
    if t.len() == 0 {
        Seq::empty()
    } else {
        escape_byte(t[0]) + encode_string(t.drop_first())
    }
}

proof fn lemma_decode_encoded(u: Seq<u8>, i: int, t: Seq<u8>)
    requires
        0 <= i,
        i + encode_string(t).len() < u.len(),
        u.subrange(i, i + encode_string(t).len()) == encode_string(t),
        u[i + encode_string(t).len()] == 0x22u8,
    ensures
        decode_from(u, i) == Ok::<Seq<u8>, Error>(t),
    decreases t.len(),
{
    let e = encode_string(t);
    lemma_decode_step(u, i);
    if t.len() == 0 {
        assert(t =~= Seq::<u8>::empty());
    } else {
        let b = t[0];
        let rest = t.drop_first();
        let h = escape_byte(b);
        let er = encode_string(rest);
        assert(e == h + er);
        assert(u[i] == e[0]);
        assert forall|j: int| 0 <= j < h.len() implies u[i + j] == h[j] by {
            assert(u.subrange(i, i + e.len())[j] == e[j]);
        }
        assert(u.subrange(i + h.len(), i + h.len() + er.len()) =~= er) by {
            assert forall|j: int| 0 <= j < er.len() implies u[i + h.len() + j] == er[j] by {
                assert(u.subrange(i, i + e.len())[h.len() + j] == e[h.len() + j]);
            }
        }
        lemma_decode_encoded(u, i + h.len(), rest);
        if h.len() == 2 {
            assert(u[i] == 0x5cu8);
            assert(escape_value(u[i + 1]) == b);
            assert(escape_step(u, i) == Ok::<(Seq<u8>, int), Error>((seq![b], 2)));
        } else {
            assert(u[i] == b);
        }
        assert(seq![b] + rest =~= t);
    }
}

/// Writing a byte string with short escapes and decoding it gives the
/// byte string back.
pub proof fn lemma_escape_round_trip(t: Seq<u8>, s: Seq<u8>, idx: int)
    requires
        0 <= idx,
        idx + encode_string(t).len() + 1 < s.len(),
        s[idx] == 0x22u8,
        s.subrange(idx + 1, idx + 1 + encode_string(t).len()) == encode_string(t),
        s[idx + 1 + encode_string(t).len()] == 0x22u8,
    ensures
        decode_string(s, idx) == Ok::<Seq<u8>, Error>(t),
{
    lemma_decode_encoded(s, idx + 1, t);
}

} // verus!
