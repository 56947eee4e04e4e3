//! The statsd export path: an encoder turning a registry into line-protocol
//! bytes, and a chunker splitting that payload into datagram-sized pieces
//! only at line boundaries, so no metric line is ever divided across two
//! datagrams.

use vstd::prelude::*;
use vstd::string::*;
use vstd::utf8::encode_utf8;

use crate::registry::{EntryModel, HandleModel, Handle, Registry};

verus! {

/// The decimal digits of `n`, most significant first, as ASCII bytes.
pub open spec fn dec_digits(n: nat) -> Seq<u8>
    decreases n,
{
    if n < 10 {
        seq![(48 + n) as u8]
    } else {
        dec_digits(n / 10).push((48 + n % 10) as u8)
    }
}

/// The statsd line one entry contributes: `name:value|c` then a newline for
/// a counter, `name:value|g` then a newline for a gauge, and nothing for a
/// histogram, as UTF-8 bytes.
pub open spec fn line_bytes(e: EntryModel) -> Seq<u8> {
    match e.value {
        HandleModel::Counter(c) => encode_utf8(e.name) + seq![58u8] + dec_digits(c as nat) + seq![
            124u8,
            99u8,
            10u8,
        ],
        HandleModel::Gauge(t) => encode_utf8(e.name) + seq![58u8] + encode_utf8(t) + seq![
            124u8,
            103u8,
            10u8,
        ],
        HandleModel::Histogram(_) => Seq::empty(),
    }
}

/// The statsd encoding of a whole registry: each entry's line, concatenated
/// in registry order.
pub open spec fn encoded(s: Seq<EntryModel>) -> Seq<u8>
    decreases s.len(),
{
    if s.len() == 0 {
        Seq::empty()
    } else {
        encoded(s.drop_last()) + line_bytes(s.last())
    }
}

/// Appends the decimal digits of `n` to `out`.
fn push_decimal(out: &mut Vec<u8>, n: u64)
    ensures
        final(out)@ == old(out)@ + dec_digits(n as nat),
    decreases n,
{
    if n >= 10 {
        push_decimal(out, n / 10);
    }
    out.push((n % 10) as u8 + 48);
    proof {
        assert(out@ =~= old(out)@ + dec_digits(n as nat));
    }
}

/// Encodes every counter and gauge in the registry as statsd lines, in
/// registry order; histograms are skipped. The registry is only read.
pub fn encode(registry: &Registry) -> (out: Vec<u8>)
    ensures
        out@ == encoded(registry@),
{
    let mut out: Vec<u8> = Vec::new();
    let n = registry.len();
    let mut i: usize = 0;
    proof {
        assert(registry@.take(0) =~= Seq::<EntryModel>::empty());
    }
    while i < n
        invariant
            i <= n,
            n == registry@.len(),
            out@ == encoded(registry@.take(i as int)),
        decreases n - i,
    {
        let ghost pre = out@;
        let e = registry.entry_at(i);
        match &e.handle {
            Handle::Counter(c) => {
                let mut name_bytes = e.name.as_str().as_bytes_vec();
                out.append(&mut name_bytes);
                out.push(58);  // b':'
                push_decimal(&mut out, *c);
                out.push(124);  // b'|'
                out.push(99);  // b'c'
                out.push(10);  // b'\n'
                proof {
                    assert(out@ =~= pre + line_bytes(registry@[i as int]));
                }
            },
            Handle::Gauge(t) => {
                let mut name_bytes = e.name.as_str().as_bytes_vec();
                out.append(&mut name_bytes);
                out.push(58);  // b':'
                let mut text_bytes = t.as_str().as_bytes_vec();
                out.append(&mut text_bytes);
                out.push(124);  // b'|'
                out.push(103);  // b'g'
                out.push(10);  // b'\n'
                proof {
                    assert(out@ =~= pre + line_bytes(registry@[i as int]));
                }
            },
            Handle::Histogram(_) => {
                proof {
                    assert(line_bytes(registry@[i as int]) =~= Seq::<u8>::empty());
                    assert(out@ =~= pre + line_bytes(registry@[i as int]));
                }
            },
        }
        proof {
            assert(registry@.take(i + 1).drop_last() =~= registry@.take(i as int));
            assert(registry@.take(i + 1).last() == registry@[i as int]);
        }
        i += 1;
    }
    proof {
        assert(registry@.take(n as int) =~= registry@);
    }
    out
}

/// The concatenation of a sequence of byte chunks.
pub open spec fn concat_all(cs: Seq<Seq<u8>>) -> Seq<u8>
    decreases cs.len(),
{
    if cs.len() == 0 {
        Seq::empty()
    } else {
        concat_all(cs.drop_last()) + cs.last()
    }
}

/// Whether a chunk is nonempty and ends with a newline byte.
pub open spec fn newline_terminated(c: Seq<u8>) -> bool {
    c.len() > 0 && c.last() == 10u8
}

/// Whether a chunk holds no newline before its last byte, i.e. spans at
/// most one protocol line.
pub open spec fn at_most_one_line(c: Seq<u8>) -> bool {
    forall|j: int| 0 <= j < c.len() - 1 ==> c[j] != 10u8
}

/// Concatenation distributes over appending one chunk.
proof fn lemma_concat_all_push(cs: Seq<Seq<u8>>, c: Seq<u8>)
    ensures
        concat_all(cs.push(c)) == concat_all(cs) + c,
{
    assert(cs.push(c).drop_last() =~= cs);
    assert(cs.push(c).last() == c);
}

/// A concatenation of chunks whose last chunk is nonempty ends with that
/// chunk's last byte.
proof fn lemma_concat_all_last(cs: Seq<Seq<u8>>)
    requires
        cs.len() > 0,
        cs.last().len() > 0,
    ensures
        concat_all(cs).len() > 0,
        concat_all(cs).last() == cs.last().last(),
{
}

/// A nonempty statsd payload ends with a newline: every line the encoder
/// emits is newline-terminated.
pub proof fn lemma_encoded_newline_terminated(s: Seq<EntryModel>)
    ensures
        encoded(s).len() > 0 ==> newline_terminated(encoded(s)),
    decreases s.len(),
{
    if s.len() > 0 {
        lemma_encoded_newline_terminated(s.drop_last());
        match s.last().value {
            HandleModel::Counter(_) => {
                assert(line_bytes(s.last()).last() == 10u8);
            },
            HandleModel::Gauge(_) => {
                assert(line_bytes(s.last()).last() == 10u8);
            },
            HandleModel::Histogram(_) => {
                assert(encoded(s) =~= encoded(s.drop_last()));
            },
        }
    }
}

/// Splits a payload at newline bytes into whole lines; a trailing fragment
/// without a newline becomes the last piece.
fn split_lines(payload: &Vec<u8>) -> (lines: Vec<Vec<u8>>)
    ensures
        concat_all(lines@.map_values(|l: Vec<u8>| l@)) == payload@,
        forall|k: int| 0 <= k < lines@.len() ==> (#[trigger] lines@[k])@.len() > 0,
        forall|k: int| 0 <= k < lines@.len() ==> at_most_one_line((#[trigger] lines@[k])@),
        forall|k: int| 0 <= k < lines@.len() - 1 ==> newline_terminated((#[trigger] lines@[k])@),
{
    let mut lines: Vec<Vec<u8>> = Vec::new();
    let mut cur: Vec<u8> = Vec::new();
    let n = payload.len();
    let mut i: usize = 0;
    proof {
        assert(payload@.take(0) =~= Seq::<u8>::empty());
        assert(concat_all(lines@.map_values(|l: Vec<u8>| l@)) + cur@ =~= Seq::<u8>::empty());
    }
    while i < n
        invariant
            i <= n,
            n == payload@.len(),
            concat_all(lines@.map_values(|l: Vec<u8>| l@)) + cur@ == payload@.take(i as int),
            forall|j: int| 0 <= j < cur@.len() ==> cur@[j] != 10u8,
            forall|k: int| 0 <= k < lines@.len() ==> newline_terminated((#[trigger] lines@[k])@),
            forall|k: int| 0 <= k < lines@.len() ==> at_most_one_line((#[trigger] lines@[k])@),
        decreases n - i,
    {
        let ghost pre_mapped = lines@.map_values(|l: Vec<u8>| l@);
        let ghost pre_cur = cur@;
        let b = payload[i];
        cur.push(b);
        proof {
            assert(payload@.take(i + 1) =~= payload@.take(i as int).push(payload@[i as int]));
            assert(concat_all(pre_mapped) + pre_cur.push(b) =~= (concat_all(pre_mapped)
                + pre_cur).push(b));
        }
        if b == 10 {
            let ghost full = cur@;
            lines.push(cur);
            cur = Vec::new();
            proof {
                assert(lines@.map_values(|l: Vec<u8>| l@) =~= pre_mapped.push(full));
                lemma_concat_all_push(pre_mapped, full);
                assert(concat_all(lines@.map_values(|l: Vec<u8>| l@)) + cur@ =~= payload@.take(
                    i + 1,
                ));
            }
        } else {
            proof {
                assert(concat_all(lines@.map_values(|l: Vec<u8>| l@)) + cur@ =~= payload@.take(
                    i + 1,
                ));
            }
        }
        i += 1;
    }
    proof {
        assert(payload@.take(n as int) =~= payload@);
    }
    if cur.len() > 0 {
        let ghost pre_mapped = lines@.map_values(|l: Vec<u8>| l@);
        let ghost full = cur@;
        lines.push(cur);
        proof {
            assert(lines@.map_values(|l: Vec<u8>| l@) =~= pre_mapped.push(full));
            lemma_concat_all_push(pre_mapped, full);
        }
    }
    lines
}

/// Packs whole lines greedily into chunks of at most `max` bytes; a single
/// line longer than `max` forms its own chunk rather than being split.
fn pack_lines(lines: Vec<Vec<u8>>, max: usize) -> (chunks: Vec<Vec<u8>>)
    requires
        forall|k: int| 0 <= k < lines@.len() ==> (#[trigger] lines@[k])@.len() > 0,
        forall|k: int| 0 <= k < lines@.len() ==> at_most_one_line((#[trigger] lines@[k])@),
        forall|k: int| 0 <= k < lines@.len() - 1 ==> newline_terminated((#[trigger] lines@[k])@),
    ensures
        concat_all(chunks@.map_values(|c: Vec<u8>| c@)) == concat_all(
            lines@.map_values(|l: Vec<u8>| l@),
        ),
        forall|k: int| 0 <= k < chunks@.len() ==> (#[trigger] chunks@[k])@.len() > 0,
        forall|k: int|
            0 <= k < chunks@.len() - 1 ==> newline_terminated((#[trigger] chunks@[k])@),
        forall|k: int|
            0 <= k < chunks@.len() ==> ((#[trigger] chunks@[k])@.len() <= max || at_most_one_line(
                chunks@[k]@,
            )),
        forall|k: int|
            0 <= k < chunks@.len() - 1 ==> (#[trigger] chunks@[k])@.len() + chunks@[k + 1]@.len()
                > max,
{
    let mut chunks: Vec<Vec<u8>> = Vec::new();
    let mut acc: Vec<u8> = Vec::new();
    let n = lines.len();
    let mut i: usize = 0;
    proof {
        assert(lines@.map_values(|l: Vec<u8>| l@).take(0) =~= Seq::<Seq<u8>>::empty());
        assert(concat_all(chunks@.map_values(|c: Vec<u8>| c@)) + acc@ =~= Seq::<u8>::empty());
    }
    while i < n
        invariant
            i <= n,
            n == lines@.len(),
            forall|k: int| 0 <= k < lines@.len() ==> (#[trigger] lines@[k])@.len() > 0,
            forall|k: int| 0 <= k < lines@.len() ==> at_most_one_line((#[trigger] lines@[k])@),
            forall|k: int|
                0 <= k < lines@.len() - 1 ==> newline_terminated((#[trigger] lines@[k])@),
            concat_all(chunks@.map_values(|c: Vec<u8>| c@)) + acc@ == concat_all(
                lines@.map_values(|l: Vec<u8>| l@).take(i as int),
            ),
            acc@.len() <= max,
            i < n && acc@.len() > 0 ==> newline_terminated(acc@),
            forall|k: int| 0 <= k < chunks@.len() ==> (#[trigger] chunks@[k])@.len() > 0,
            forall|k: int|
                0 <= k < chunks@.len() ==> (newline_terminated((#[trigger] chunks@[k])@) || (k
                    == chunks@.len() - 1 && acc@.len() == 0 && i >= n)),
            forall|k: int|
                0 <= k < chunks@.len() ==> ((#[trigger] chunks@[k])@.len() <= max
                    || at_most_one_line(chunks@[k]@)),
            forall|k: int|
                0 <= k < chunks@.len() - 1 ==> (#[trigger] chunks@[k])@.len() + chunks@[k
                    + 1]@.len() > max,
            chunks@.len() > 0 && acc@.len() > 0 ==> chunks@.last()@.len() + acc@.len() > max,
            i > 0 && chunks@.len() > 0 && acc@.len() == 0 ==> chunks@.last()@.len() > max,
        decreases n - i,
    {
        let ghost mapped_lines = lines@.map_values(|l: Vec<u8>| l@);
        let line = &lines[i];
        if acc.len() > 0 && line.len() > max - acc.len() {
            let ghost pre_mapped = chunks@.map_values(|c: Vec<u8>| c@);
            let ghost flushed = acc@;
            chunks.push(acc);
            acc = Vec::new();
            proof {
                assert(chunks@.map_values(|c: Vec<u8>| c@) =~= pre_mapped.push(flushed));
                lemma_concat_all_push(pre_mapped, flushed);
            }
        }
        acc.extend_from_slice(line.as_slice());
        proof {
            assert(mapped_lines.take(i + 1).drop_last() =~= mapped_lines.take(i as int));
            assert(mapped_lines.take(i + 1).last() == mapped_lines[i as int]);
        }
        if acc.len() > max {
            let ghost pre_mapped = chunks@.map_values(|c: Vec<u8>| c@);
            let ghost flushed = acc@;
            proof {
                assert(flushed =~= lines@[i as int]@);
            }
            chunks.push(acc);
            acc = Vec::new();
            proof {
                assert(chunks@.map_values(|c: Vec<u8>| c@) =~= pre_mapped.push(flushed));
                lemma_concat_all_push(pre_mapped, flushed);
            }
        }
        i += 1;
    }
    if acc.len() > 0 {
        let ghost pre_mapped = chunks@.map_values(|c: Vec<u8>| c@);
        let ghost flushed = acc@;
        chunks.push(acc);
        proof {
            assert(chunks@.map_values(|c: Vec<u8>| c@) =~= pre_mapped.push(flushed));
            lemma_concat_all_push(pre_mapped, flushed);
        }
    }
    proof {
        assert(lines@.map_values(|l: Vec<u8>| l@).take(n as int) =~= lines@.map_values(
            |l: Vec<u8>| l@,
        ));
    }
    chunks
}

/// Splits an encoded payload into datagram-sized chunks, cutting only at
/// line boundaries: the chunks concatenate back to exactly the payload,
/// every chunk but the last ends with a newline, and no chunk exceeds `max`
/// bytes unless it holds a single line longer than `max`.
pub fn chunk_payload(payload: &Vec<u8>, max: usize) -> (chunks: Vec<Vec<u8>>)
    ensures
        concat_all(chunks@.map_values(|c: Vec<u8>| c@)) == payload@,
        forall|k: int| 0 <= k < chunks@.len() ==> (#[trigger] chunks@[k])@.len() > 0,
        forall|k: int|
            0 <= k < chunks@.len() - 1 ==> newline_terminated((#[trigger] chunks@[k])@),
        forall|k: int|
            0 <= k < chunks@.len() ==> ((#[trigger] chunks@[k])@.len() <= max || at_most_one_line(
                chunks@[k]@,
            )),
        forall|k: int|
            0 <= k < chunks@.len() - 1 ==> (#[trigger] chunks@[k])@.len() + chunks@[k + 1]@.len()
                > max,
        newline_terminated(payload@) ==> forall|k: int|
            0 <= k < chunks@.len() ==> newline_terminated((#[trigger] chunks@[k])@),
{
    let lines = split_lines(payload);
    let chunks = pack_lines(lines, max);
    proof {
        if newline_terminated(payload@) && chunks@.len() > 0 {
            let mapped = chunks@.map_values(|c: Vec<u8>| c@);
            lemma_concat_all_last(mapped);
        }
    }
    chunks
}

/// One export pass: encodes the registry and splits the payload into
/// datagrams of at most `max` bytes. Every datagram ends at a line
/// boundary and no metric line is divided across two datagrams.
pub fn export_datagrams(registry: &Registry, max: usize) -> (chunks: Vec<Vec<u8>>)
    ensures
        concat_all(chunks@.map_values(|c: Vec<u8>| c@)) == encoded(registry@),
        forall|k: int| 0 <= k < chunks@.len() ==> newline_terminated((#[trigger] chunks@[k])@),
        forall|k: int|
            0 <= k < chunks@.len() ==> ((#[trigger] chunks@[k])@.len() <= max || at_most_one_line(
                chunks@[k]@,
            )),
        forall|k: int|
            0 <= k < chunks@.len() - 1 ==> (#[trigger] chunks@[k])@.len() + chunks@[k + 1]@.len()
                > max,
{
    let payload = encode(registry);
    proof {
        lemma_encoded_newline_terminated(registry@);
    }
    let chunks = chunk_payload(&payload, max);
    proof {
        if chunks@.len() > 0 {
            let mapped = chunks@.map_values(|c: Vec<u8>| c@);
            lemma_concat_all_last(mapped);
        }
    }
    chunks
}

/// The bytes of a datagram still unsent after a short write of `sent`
/// bytes: the suffix the exporter must transmit before moving on.
pub fn remaining_after(chunk: &Vec<u8>, sent: usize) -> (rest: Vec<u8>)
    requires
        sent <= chunk@.len(),
    ensures
        rest@ == chunk@.skip(sent as int),
{
    let mut rest: Vec<u8> = Vec::new();
    let n = chunk.len();
    let mut i: usize = sent;
    while i < n
        invariant
            sent <= i <= n,
            n == chunk@.len(),
            rest@ == chunk@.subrange(sent as int, i as int),
        decreases n - i,
    {
        rest.push(chunk[i]);
        proof {
            assert(rest@ =~= chunk@.subrange(sent as int, i + 1));
        }
        i += 1;
    }
    proof {
        assert(rest@ =~= chunk@.skip(sent as int));
    }
    rest
}

} // verus!
