//! What holds between reading a tree and writing it down.

use crate::big_endian::{
    be_u16, be_u32, be_u64, lemma_read_of_u16_bytes, lemma_read_of_u32_bytes,
    lemma_read_of_u64_bytes, lemma_u16_bytes_of_read, lemma_u32_bytes_of_read,
    lemma_u64_bytes_of_read, signed, u16_bytes, u32_bytes, u64_bytes, unsigned,
};
use crate::nbt::parse::{elements_at, entries_at, i32s_at, i64s_at, i8s_at, named_at, payload_at};
use crate::nbt::tag::{
    elements_bytes, entries_bytes, i32s_bytes, i64s_bytes, i8s_bytes, kind, named_bytes,
    payload_bytes, well_formed, Node,
};
use vstd::prelude::*;

verus! {

/// The payloads of two runs of elements, one after the other, are the
/// payloads of the joined run.
pub proof fn lemma_elements_bytes_concat(a: Seq<Node>, b: Seq<Node>)
    ensures
        elements_bytes(a + b) == elements_bytes(a) + elements_bytes(b),
    decreases b.len(),
{
    if b.len() == 0 {
        assert(a + b =~= a);
        assert(elements_bytes(a) + elements_bytes(b) =~= elements_bytes(a));
    } else {
        lemma_elements_bytes_concat(a, b.drop_last());
        assert((a + b).drop_last() =~= a + b.drop_last());
        assert((a + b).last() == b.last());
        assert(elements_bytes(a + b) =~= elements_bytes(a) + elements_bytes(b));
    }
}

/// The bytes of two runs of children, one after the other, are the bytes of
/// the joined run.
pub proof fn lemma_entries_bytes_concat(a: Seq<(Seq<u8>, Node)>, b: Seq<(Seq<u8>, Node)>)
    ensures
        entries_bytes(a + b) == entries_bytes(a) + entries_bytes(b),
    decreases b.len(),
{
    if b.len() == 0 {
        assert(a + b =~= a);
        assert(entries_bytes(a) + entries_bytes(b) =~= entries_bytes(a));
    } else {
        lemma_entries_bytes_concat(a, b.drop_last());
        assert((a + b).drop_last() =~= a + b.drop_last());
        assert((a + b).last() == b.last());
        assert(entries_bytes(a + b) =~= entries_bytes(a) + entries_bytes(b));
    }
}

/// The 8-bit numbers read from a run of bytes are written as that run.
pub proof fn lemma_i8s_round_trip(s: Seq<u8>, pos: int, n: int)
    requires
        0 <= pos,
        0 <= n,
        pos + n <= s.len(),
    ensures
        i8s_bytes(i8s_at(s, pos, n)) == s.subrange(pos, pos + n),
{
    assert(i8s_bytes(i8s_at(s, pos, n)) =~= s.subrange(pos, pos + n));
}

/// A 32-bit number that was read is written as the four bytes that it was
/// read from.
pub proof fn lemma_i32_round_trip(s: Seq<u8>, at: int)
    requires
        0 <= at,
        at + 4 <= s.len(),
    ensures
        u32_bytes(unsigned((signed(be_u32(s, at), 4294967296) as i32) as int, 4294967296))
            == s.subrange(at, at + 4),
{
    lemma_u32_bytes_of_read(s, at);
    let v = be_u32(s, at);
    assert(0 <= v < 4294967296);
    let read = signed(v, 4294967296);
    assert(-2147483648 <= read < 2147483648);
    assert(unsigned((read as i32) as int, 4294967296) == v);
}

/// A 64-bit number that was read is written as the eight bytes that it was
/// read from.
pub proof fn lemma_i64_round_trip(s: Seq<u8>, at: int)
    requires
        0 <= at,
        at + 8 <= s.len(),
    ensures
        u64_bytes(
            unsigned(
                (signed(be_u64(s, at), 18446744073709551616) as i64) as int,
                18446744073709551616,
            ),
        ) == s.subrange(at, at + 8),
{
    lemma_u64_bytes_of_read(s, at);
    let v = be_u64(s, at);
    assert(0 <= v < 18446744073709551616);
    let read = signed(v, 18446744073709551616);
    assert(-9223372036854775808 <= read < 9223372036854775808);
    assert(unsigned((read as i64) as int, 18446744073709551616) == v);
}

/// The 32-bit numbers read from a run of bytes are written as that run.
#[verifier::rlimit(60)]
pub proof fn lemma_i32s_round_trip(s: Seq<u8>, pos: int, n: int)
    requires
        0 <= pos,
        0 <= n,
        pos + 4 * n <= s.len(),
    ensures
        i32s_bytes(i32s_at(s, pos, n)) == s.subrange(pos, pos + 4 * n),
    decreases n,
{
    if n == 0 {
        assert(i32s_bytes(i32s_at(s, pos, n)) =~= s.subrange(pos, pos + 4 * n));
    } else {
        lemma_i32s_round_trip(s, pos, n - 1);
        let at = pos + 4 * (n - 1);
        lemma_i32_round_trip(s, at);
        let all = i32s_at(s, pos, n);
        assert(all.drop_last() =~= i32s_at(s, pos, n - 1));
        assert(all.last() == signed(be_u32(s, at), 4294967296) as i32);
        assert(i32s_bytes(all) == s.subrange(pos, at) + s.subrange(at, at + 4));
        assert(s.subrange(pos, at) + s.subrange(at, at + 4) =~= s.subrange(pos, pos + 4 * n));
    }
}

/// The 64-bit numbers read from a run of bytes are written as that run.
#[verifier::rlimit(60)]
pub proof fn lemma_i64s_round_trip(s: Seq<u8>, pos: int, n: int)
    requires
        0 <= pos,
        0 <= n,
        pos + 8 * n <= s.len(),
    ensures
        i64s_bytes(i64s_at(s, pos, n)) == s.subrange(pos, pos + 8 * n),
    decreases n,
{
    if n == 0 {
        assert(i64s_bytes(i64s_at(s, pos, n)) =~= s.subrange(pos, pos + 8 * n));
    } else {
        lemma_i64s_round_trip(s, pos, n - 1);
        let at = pos + 8 * (n - 1);
        lemma_i64_round_trip(s, at);
        let all = i64s_at(s, pos, n);
        assert(all.drop_last() =~= i64s_at(s, pos, n - 1));
        assert(all.last() == signed(be_u64(s, at), 18446744073709551616) as i64);
        assert(i64s_bytes(all) == s.subrange(pos, at) + s.subrange(at, at + 8));
        assert(s.subrange(pos, at) + s.subrange(at, at + 8) =~= s.subrange(pos, pos + 8 * n));
    }
}

/// A payload that was read is well formed, of the kind asked for, and is
/// written as the bytes that it was read from.
pub proof fn lemma_payload_read_then_written(s: Seq<u8>, pos: int, k: u8)
    requires
        payload_at(s, pos, k) is Some,
    ensures
        ({
            let (node, p) = payload_at(s, pos, k).unwrap();
            &&& 0 <= pos <= p <= s.len()
            &&& kind(node) == k
            &&& well_formed(node)
            &&& payload_bytes(node) == s.subrange(pos, p)
        }),
    decreases s.len() - pos, 2int, 0int,
{
    let (node, p) = payload_at(s, pos, k).unwrap();
    if k == 1 {
        assert(payload_bytes(node) =~= s.subrange(pos, p));
    } else if k == 2 {
        lemma_u16_bytes_of_read(s, pos);
    } else if k == 3 {
        lemma_u32_bytes_of_read(s, pos);
    } else if k == 4 {
        lemma_u64_bytes_of_read(s, pos);
    } else if k == 5 {
        lemma_u32_bytes_of_read(s, pos);
    } else if k == 6 {
        lemma_u64_bytes_of_read(s, pos);
    } else if k == 7 {
        let n = signed(be_u32(s, pos), 4294967296);
        lemma_u32_bytes_of_read(s, pos);
        lemma_i8s_round_trip(s, pos + 4, n);
        assert(s.subrange(pos, pos + 4) + s.subrange(pos + 4, p) =~= s.subrange(pos, p));
    } else if k == 8 {
        lemma_u16_bytes_of_read(s, pos);
        assert(s.subrange(pos, pos + 2) + s.subrange(pos + 2, p) =~= s.subrange(pos, p));
    } else if k == 9 {
        let ek = s[pos];
        let n = signed(be_u32(s, pos + 1), 4294967296);
        lemma_u32_bytes_of_read(s, pos + 1);
        lemma_elements_read_then_written(s, pos + 5, ek, n);
        assert(seq![ek] + s.subrange(pos + 1, pos + 5) + s.subrange(pos + 5, p) =~= s.subrange(
            pos,
            p,
        ));
    } else if k == 10 {
        lemma_entries_read_then_written(s, pos);
    } else if k == 11 {
        let n = signed(be_u32(s, pos), 4294967296);
        lemma_u32_bytes_of_read(s, pos);
        lemma_i32s_round_trip(s, pos + 4, n);
        assert(s.subrange(pos, pos + 4) + s.subrange(pos + 4, p) =~= s.subrange(pos, p));
    } else if k == 12 {
        let n = signed(be_u32(s, pos), 4294967296);
        lemma_u32_bytes_of_read(s, pos);
        lemma_i64s_round_trip(s, pos + 4, n);
        assert(s.subrange(pos, pos + 4) + s.subrange(pos + 4, p) =~= s.subrange(pos, p));
    }
}

/// The elements of a list that were read are as many as asked for, each well
/// formed and of the kind asked for, and are written as the bytes that they
/// were read from.
pub proof fn lemma_elements_read_then_written(s: Seq<u8>, pos: int, k: u8, n: int)
    requires
        0 <= pos <= s.len(),
        elements_at(s, pos, k, n) is Some,
    ensures
        ({
            let (elems, p) = elements_at(s, pos, k, n).unwrap();
            &&& pos <= p <= s.len()
            &&& elems.len() == (if n <= 0 {
                0
            } else {
                n
            })
            &&& forall|i: int|
                0 <= i < elems.len() ==> kind(#[trigger] elems[i]) == k && well_formed(elems[i])
            &&& elements_bytes(elems) == s.subrange(pos, p)
        }),
    decreases s.len() - pos, 3int, n,
{
    let (elems, p) = elements_at(s, pos, k, n).unwrap();
    if n <= 0 {
        assert(elements_bytes(elems) =~= s.subrange(pos, p));
    } else {
        lemma_payload_read_then_written(s, pos, k);
        let (first, next) = payload_at(s, pos, k).unwrap();
        lemma_elements_read_then_written(s, next, k, n - 1);
        let (rest, end) = elements_at(s, next, k, n - 1).unwrap();
        lemma_elements_bytes_concat(seq![first], rest);
        assert(seq![first].drop_last() =~= Seq::<Node>::empty());
        assert(elements_bytes(Seq::<Node>::empty()) =~= Seq::<u8>::empty());
        assert(seq![first].last() == first);
        assert(elements_bytes(seq![first]) =~= payload_bytes(first));
        assert(s.subrange(pos, next) + s.subrange(next, end) =~= s.subrange(pos, end));
    }
}

/// The children of a compound that were read are well formed, none of them
/// `End`, and are written, with the closing byte, as the bytes that they were
/// read from.
pub proof fn lemma_entries_read_then_written(s: Seq<u8>, pos: int)
    requires
        entries_at(s, pos) is Some,
    ensures
        ({
            let (entries, p) = entries_at(s, pos).unwrap();
            &&& 0 <= pos < p <= s.len()
            &&& forall|i: int|
                0 <= i < entries.len() ==> {
                    &&& (#[trigger] entries[i]).0.len() <= u16::MAX
                    &&& entries[i].1 != Node::End
                    &&& well_formed(entries[i].1)
                }
            &&& entries_bytes(entries) + seq![0u8] == s.subrange(pos, p)
        }),
    decreases s.len() - pos, 1int, 0int,
{
    let (entries, p) = entries_at(s, pos).unwrap();
    if s[pos] == 0 {
        assert(entries_bytes(entries) + seq![0u8] =~= s.subrange(pos, p));
    } else {
        lemma_named_read_then_written(s, pos);
        let (first, next) = named_at(s, pos).unwrap();
        lemma_entries_read_then_written(s, next);
        let (rest, end) = entries_at(s, next).unwrap();
        lemma_entries_bytes_concat(seq![first], rest);
        assert(seq![first].drop_last() =~= Seq::<(Seq<u8>, Node)>::empty());
        assert(entries_bytes(Seq::<(Seq<u8>, Node)>::empty()) =~= Seq::<u8>::empty());
        assert(seq![first].last() == first);
        assert(entries_bytes(seq![first]) =~= named_bytes(first.0, first.1));
        assert(s.subrange(pos, next) + s.subrange(next, end) =~= s.subrange(pos, end));
    }
}

/// A named value that was read is well formed and is written as the bytes
/// that it was read from.
pub proof fn lemma_named_read_then_written(s: Seq<u8>, pos: int)
    requires
        named_at(s, pos) is Some,
    ensures
        ({
            let ((name, node), p) = named_at(s, pos).unwrap();
            &&& 0 <= pos < p <= s.len()
            &&& name.len() <= u16::MAX
            &&& well_formed(node)
            &&& kind(node) == s[pos]
            &&& named_bytes(name, node) == s.subrange(pos, p)
        }),
    decreases s.len() - pos, 0int, 0int,
{
    let ((name, node), p) = named_at(s, pos).unwrap();
    if s[pos] == 0 {
        assert(named_bytes(name, node) =~= s.subrange(pos, p));
    } else {
        let n = be_u16(s, pos + 1);
        lemma_u16_bytes_of_read(s, pos + 1);
        lemma_payload_read_then_written(s, pos + 3 + n, s[pos]);
        assert(seq![s[pos]] + s.subrange(pos + 1, pos + 3) + s.subrange(pos + 3, pos + 3 + n)
            + s.subrange(pos + 3 + n, p) =~= s.subrange(pos, p));
    }
}

/// Decoding a stream and encoding the tree gives the bytes that were decoded:
/// where the whole of `s` is one tree, the very bytes of `s`.
pub proof fn lemma_decode_then_encode(s: Seq<u8>)
    requires
        named_at(s, 0) is Some,
    ensures
        ({
            let ((name, node), p) = named_at(s, 0).unwrap();
            &&& named_bytes(name, node) == s.subrange(0, p)
            &&& p == s.len() ==> named_bytes(name, node) == s
        }),
{
    lemma_named_read_then_written(s, 0);
    assert(s.subrange(0, s.len() as int) =~= s);
}

/// Where `a + b` stands in `s` at index `pos`, `a` stands there and `b`
/// stands behind it.
pub proof fn lemma_split(s: Seq<u8>, pos: int, a: Seq<u8>, b: Seq<u8>)
    requires
        0 <= pos,
        pos + a.len() + b.len() <= s.len(),
        s.subrange(pos, pos + a.len() + b.len()) == a + b,
    ensures
        s.subrange(pos, pos + a.len()) == a,
        s.subrange(pos + a.len(), pos + a.len() + b.len()) == b,
{
    let w = s.subrange(pos, pos + a.len() + b.len());
    assert forall|i: int| 0 <= i < a.len() implies s[pos + i] == a[i] by {
        assert(w[i] == (a + b)[i]);
    }
    assert forall|i: int| 0 <= i < b.len() implies s[pos + a.len() + i] == b[i] by {
        assert(w[a.len() + i] == (a + b)[a.len() + i]);
    }
    assert(s.subrange(pos, pos + a.len()) =~= a);
    assert(s.subrange(pos + a.len(), pos + a.len() + b.len()) =~= b);
}

/// The bytes of 32-bit numbers are four for each, and those of the number at
/// index `i` stand at index `4 * i`.
pub proof fn lemma_i32s_bytes_index(a: Seq<i32>, i: int)
    requires
        0 <= i < a.len(),
    ensures
        i32s_bytes(a).len() == 4 * a.len(),
        i32s_bytes(a).subrange(4 * i, 4 * i + 4) == u32_bytes(
            unsigned(a[i] as int, 4294967296),
        ),
    decreases a.len(),
{
    lemma_i32s_bytes_len(a);
    lemma_i32s_bytes_len(a.drop_last());
    let front = i32s_bytes(a.drop_last());
    let back = u32_bytes(unsigned(a.last() as int, 4294967296));
    if i == a.len() - 1 {
        assert((front + back).subrange(4 * i, 4 * i + 4) =~= back);
    } else {
        lemma_i32s_bytes_index(a.drop_last(), i);
        assert((front + back).subrange(4 * i, 4 * i + 4) =~= front.subrange(4 * i, 4 * i + 4));
    }
}

/// The bytes of 32-bit numbers are four for each.
pub proof fn lemma_i32s_bytes_len(a: Seq<i32>)
    ensures
        i32s_bytes(a).len() == 4 * a.len(),
    decreases a.len(),
{
    if a.len() > 0 {
        lemma_i32s_bytes_len(a.drop_last());
    }
}

/// The bytes of 64-bit numbers are eight for each.
pub proof fn lemma_i64s_bytes_len(a: Seq<i64>)
    ensures
        i64s_bytes(a).len() == 8 * a.len(),
    decreases a.len(),
{
    if a.len() > 0 {
        lemma_i64s_bytes_len(a.drop_last());
    }
}

/// The bytes of 64-bit numbers are eight for each, and those of the number at
/// index `i` stand at index `8 * i`.
pub proof fn lemma_i64s_bytes_index(a: Seq<i64>, i: int)
    requires
        0 <= i < a.len(),
    ensures
        i64s_bytes(a).len() == 8 * a.len(),
        i64s_bytes(a).subrange(8 * i, 8 * i + 8) == u64_bytes(
            unsigned(a[i] as int, 18446744073709551616),
        ),
    decreases a.len(),
{
    lemma_i64s_bytes_len(a);
    lemma_i64s_bytes_len(a.drop_last());
    let front = i64s_bytes(a.drop_last());
    let back = u64_bytes(unsigned(a.last() as int, 18446744073709551616));
    if i == a.len() - 1 {
        assert((front + back).subrange(8 * i, 8 * i + 8) =~= back);
    } else {
        lemma_i64s_bytes_index(a.drop_last(), i);
        assert((front + back).subrange(8 * i, 8 * i + 8) =~= front.subrange(8 * i, 8 * i + 8));
    }
}

/// The 32-bit numbers written at index `pos` are read back from there.
pub proof fn lemma_i32s_written_then_read(a: Seq<i32>, s: Seq<u8>, pos: int)
    requires
        0 <= pos,
        pos + i32s_bytes(a).len() <= s.len(),
        s.subrange(pos, pos + i32s_bytes(a).len()) == i32s_bytes(a),
    ensures
        i32s_bytes(a).len() == 4 * a.len(),
        i32s_at(s, pos, a.len() as int) == a,
{
    lemma_i32s_bytes_len(a);
    let w = s.subrange(pos, pos + i32s_bytes(a).len());
    assert forall|i: int| 0 <= i < a.len() implies #[trigger] i32s_at(s, pos, a.len() as int)[i]
        == a[i] by {
        lemma_i32s_bytes_index(a, i);
        let v = unsigned(a[i] as int, 4294967296);
        assert(s.subrange(pos + 4 * i, pos + 4 * i + 4) =~= w.subrange(4 * i, 4 * i + 4));
        lemma_read_of_u32_bytes(s, pos + 4 * i, v);
    }
    assert(i32s_at(s, pos, a.len() as int) =~= a);
}

/// The 64-bit numbers written at index `pos` are read back from there.
pub proof fn lemma_i64s_written_then_read(a: Seq<i64>, s: Seq<u8>, pos: int)
    requires
        0 <= pos,
        pos + i64s_bytes(a).len() <= s.len(),
        s.subrange(pos, pos + i64s_bytes(a).len()) == i64s_bytes(a),
    ensures
        i64s_bytes(a).len() == 8 * a.len(),
        i64s_at(s, pos, a.len() as int) == a,
{
    lemma_i64s_bytes_len(a);
    let w = s.subrange(pos, pos + i64s_bytes(a).len());
    assert forall|i: int| 0 <= i < a.len() implies #[trigger] i64s_at(s, pos, a.len() as int)[i]
        == a[i] by {
        lemma_i64s_bytes_index(a, i);
        let v = unsigned(a[i] as int, 18446744073709551616);
        assert(s.subrange(pos + 8 * i, pos + 8 * i + 8) =~= w.subrange(8 * i, 8 * i + 8));
        lemma_read_of_u64_bytes(s, pos + 8 * i, v);
    }
    assert(i64s_at(s, pos, a.len() as int) =~= a);
}

/// The 8-bit numbers written at index `pos` are read back from there.
pub proof fn lemma_i8s_written_then_read(a: Seq<i8>, s: Seq<u8>, pos: int)
    requires
        0 <= pos,
        pos + a.len() <= s.len(),
        s.subrange(pos, pos + a.len()) == i8s_bytes(a),
    ensures
        i8s_at(s, pos, a.len() as int) == a,
{
    let w = s.subrange(pos, pos + a.len());
    assert forall|i: int| 0 <= i < a.len() implies #[trigger] i8s_at(s, pos, a.len() as int)[i]
        == a[i] by {
        assert(w[i] == s[pos + i]);
        assert(i8s_bytes(a)[i] == unsigned(a[i] as int, 256) as u8);
        assert(s[pos + i] == unsigned(a[i] as int, 256) as u8);
        assert(signed(s[pos + i] as int, 256) == a[i] as int);
    }
    assert(i8s_at(s, pos, a.len() as int) =~= a);
}

/// A well-formed value whose payload stands in `s` at index `pos` is read
/// back from there, whatever follows it.
pub proof fn lemma_payload_written_then_read(n: Node, s: Seq<u8>, pos: int)
    requires
        well_formed(n),
        n != Node::End,
        0 <= pos,
        pos + payload_bytes(n).len() <= s.len(),
        s.subrange(pos, pos + payload_bytes(n).len()) == payload_bytes(n),
    ensures
        payload_at(s, pos, kind(n)) == Some((n, pos + payload_bytes(n).len())),
    decreases n, 0int,
{
    let bytes = payload_bytes(n);
    let w = s.subrange(pos, pos + bytes.len());
    match n {
        Node::End => {},
        Node::Byte(v) => {
            assert(w[0] == bytes[0]);
        },
        Node::Short(v) => {
            lemma_read_of_u16_bytes(s, pos, unsigned(v as int, 65536));
        },
        Node::Int(v) => {
            lemma_read_of_u32_bytes(s, pos, unsigned(v as int, 4294967296));
        },
        Node::Long(v) => {
            lemma_read_of_u64_bytes(s, pos, unsigned(v as int, 18446744073709551616));
        },
        Node::Float(v) => {
            lemma_read_of_u32_bytes(s, pos, v as int);
        },
        Node::Double(v) => {
            lemma_read_of_u64_bytes(s, pos, v as int);
        },
        Node::ByteArray(a) => {
            lemma_split(s, pos, u32_bytes(a.len() as int), i8s_bytes(a));
            lemma_read_of_u32_bytes(s, pos, a.len() as int);
            lemma_i8s_written_then_read(a, s, pos + 4);
        },
        Node::String(b) => {
            lemma_split(s, pos, u16_bytes(b.len() as int), b);
            lemma_read_of_u16_bytes(s, pos, b.len() as int);
        },
        Node::List(k, elems) => {
            let head = seq![k] + u32_bytes(elems.len() as int);
            assert(bytes =~= head + elements_bytes(elems));
            lemma_split(s, pos, head, elements_bytes(elems));
            lemma_split(s, pos, seq![k], u32_bytes(elems.len() as int));
            assert(s.subrange(pos, pos + 1)[0] == seq![k][0]);
            lemma_read_of_u32_bytes(s, pos + 1, elems.len() as int);
            lemma_elements_written_then_read(elems, s, pos + 5, k);
        },
        Node::Compound(entries) => {
            lemma_entries_written_then_read(entries, s, pos);
        },
        Node::IntArray(a) => {
            lemma_i32s_bytes_len(a);
            lemma_split(s, pos, u32_bytes(a.len() as int), i32s_bytes(a));
            lemma_read_of_u32_bytes(s, pos, a.len() as int);
            lemma_i32s_written_then_read(a, s, pos + 4);
        },
        Node::LongArray(a) => {
            lemma_i64s_bytes_len(a);
            lemma_split(s, pos, u32_bytes(a.len() as int), i64s_bytes(a));
            lemma_read_of_u32_bytes(s, pos, a.len() as int);
            lemma_i64s_written_then_read(a, s, pos + 4);
        },
    }
}

/// Well-formed elements of one kind whose payloads stand in `s` from index
/// `pos` on are read back from there.
pub proof fn lemma_elements_written_then_read(elems: Seq<Node>, s: Seq<u8>, pos: int, k: u8)
    requires
        forall|i: int|
            0 <= i < elems.len() ==> kind(#[trigger] elems[i]) == k && well_formed(elems[i]),
        elems.len() > 0 ==> 1 <= k <= 12,
        0 <= pos,
        pos + elements_bytes(elems).len() <= s.len(),
        s.subrange(pos, pos + elements_bytes(elems).len()) == elements_bytes(elems),
    ensures
        elements_at(s, pos, k, elems.len() as int) == Some(
            (elems, pos + elements_bytes(elems).len()),
        ),
    decreases elems, 1int,
{
    if elems.len() == 0 {
        assert(elems =~= Seq::<Node>::empty());
        assert(elements_bytes(elems) =~= Seq::<u8>::empty());
    } else {
        let first = elems[0];
        let rest = elems.drop_first();
        assert(elems =~= seq![first] + rest);
        lemma_elements_bytes_concat(seq![first], rest);
        assert(seq![first].drop_last() =~= Seq::<Node>::empty());
        assert(elements_bytes(Seq::<Node>::empty()) =~= Seq::<u8>::empty());
        assert(seq![first].last() == first);
        assert(elements_bytes(seq![first]) =~= payload_bytes(first));
        lemma_split(s, pos, payload_bytes(first), elements_bytes(rest));
        assert(kind(first) == k);
        lemma_payload_written_then_read(first, s, pos);
        let next = pos + payload_bytes(first).len();
        assert forall|i: int| 0 <= i < rest.len() implies kind(#[trigger] rest[i]) == k
            && well_formed(rest[i]) by {
            assert(rest[i] == elems[i + 1]);
        }
        lemma_elements_written_then_read(rest, s, next, k);
    }
}

/// Well-formed children whose bytes stand in `s` from index `pos` on, with
/// the closing byte behind them, are read back from there.
pub proof fn lemma_entries_written_then_read(
    entries: Seq<(Seq<u8>, Node)>,
    s: Seq<u8>,
    pos: int,
)
    requires
        forall|i: int|
            0 <= i < entries.len() ==> {
                &&& (#[trigger] entries[i]).0.len() <= u16::MAX
                &&& entries[i].1 != Node::End
                &&& well_formed(entries[i].1)
            },
        0 <= pos,
        pos + entries_bytes(entries).len() + 1 <= s.len(),
        s.subrange(pos, pos + entries_bytes(entries).len() + 1) == entries_bytes(entries)
            + seq![0u8],
    ensures
        entries_at(s, pos) == Some((entries, pos + entries_bytes(entries).len() + 1)),
    decreases entries, 2int,
{
    let w = s.subrange(pos, pos + entries_bytes(entries).len() + 1);
    if entries.len() == 0 {
        assert(entries =~= Seq::<(Seq<u8>, Node)>::empty());
        assert(entries_bytes(entries) =~= Seq::<u8>::empty());
        assert(w[0] == (entries_bytes(entries) + seq![0u8])[0]);
    } else {
        let first = entries[0];
        let rest = entries.drop_first();
        assert(entries =~= seq![first] + rest);
        lemma_entries_bytes_concat(seq![first], rest);
        assert(seq![first].drop_last() =~= Seq::<(Seq<u8>, Node)>::empty());
        assert(entries_bytes(Seq::<(Seq<u8>, Node)>::empty()) =~= Seq::<u8>::empty());
        assert(seq![first].last() == first);
        assert(entries_bytes(seq![first]) =~= named_bytes(first.0, first.1));
        let head = named_bytes(first.0, first.1);
        let tail = entries_bytes(rest) + seq![0u8];
        assert(entries_bytes(entries) + seq![0u8] =~= head + tail);
        lemma_split(s, pos, head, tail);
        lemma_named_written_then_read(first.0, first.1, s, pos);
        assert(head[0] == kind(first.1));
        assert(s.subrange(pos, pos + head.len())[0] == head[0]);
        let next = pos + head.len();
        assert forall|i: int| 0 <= i < rest.len() implies {
            &&& (#[trigger] rest[i]).0.len() <= u16::MAX
            &&& rest[i].1 != Node::End
            &&& well_formed(rest[i].1)
        } by {
            assert(rest[i] == entries[i + 1]);
        }
        lemma_entries_written_then_read(rest, s, next);
    }
}

/// A well-formed named value whose bytes stand in `s` at index `pos` is read
/// back from there. `End` carries no name, so it is read back only where its
/// name is empty.
pub proof fn lemma_named_written_then_read(name: Seq<u8>, n: Node, s: Seq<u8>, pos: int)
    requires
        name.len() <= u16::MAX,
        well_formed(n),
        n == Node::End ==> name.len() == 0,
        0 <= pos,
        pos + named_bytes(name, n).len() <= s.len(),
        s.subrange(pos, pos + named_bytes(name, n).len()) == named_bytes(name, n),
    ensures
        named_at(s, pos) == Some(((name, n), pos + named_bytes(name, n).len())),
    decreases n, 1int,
{
    let bytes = named_bytes(name, n);
    let w = s.subrange(pos, pos + bytes.len());
    assert(w[0] == bytes[0]);
    if n == Node::End {
        assert(name =~= Seq::<u8>::empty());
    } else {
        let head = seq![kind(n)] + u16_bytes(name.len() as int);
        assert(bytes =~= (head + name) + payload_bytes(n));
        lemma_split(s, pos, head + name, payload_bytes(n));
        lemma_split(s, pos, head, name);
        lemma_split(s, pos, seq![kind(n)], u16_bytes(name.len() as int));
        lemma_read_of_u16_bytes(s, pos + 1, name.len() as int);
        lemma_payload_written_then_read(n, s, pos + 3 + name.len());
    }
}

/// Encoding a well-formed tree and decoding the bytes gives the tree back.
pub proof fn lemma_encode_then_decode(name: Seq<u8>, n: Node)
    requires
        name.len() <= u16::MAX,
        well_formed(n),
        n == Node::End ==> name.len() == 0,
    ensures
        named_at(named_bytes(name, n), 0) == Some(
            ((name, n), named_bytes(name, n).len() as int),
        ),
{
    let s = named_bytes(name, n);
    assert(s.subrange(0, s.len() as int) =~= s);
    lemma_named_written_then_read(name, n, s, 0);
}

} // verus!
