//! Reading a tagged tree from bytes.

use crate::big_endian::{
    be_u16, be_u32, be_u64, read_u16, read_u32, read_u64, signed, to_i16, to_i32, to_i64, to_i8,
};
use crate::nbt::laws::lemma_named_read_then_written;
use crate::nbt::tag::{named_tags_view, tags_view, NamedTag, Node, Tag};
use vstd::prelude::*;
use vstd::slice::slice_subrange;
use vstd::slice::slice_to_vec;

verus! {

/// The `n` 8-bit numbers that stand in `s` from index `pos` on.
pub open spec fn i8s_at(s: Seq<u8>, pos: int, n: int) -> Seq<i8> {
    Seq::new(n as nat, |i: int| signed(s[pos + i] as int, 256) as i8)
}

/// The `n` 32-bit numbers that stand in `s` from index `pos` on.
pub open spec fn i32s_at(s: Seq<u8>, pos: int, n: int) -> Seq<i32> {
    Seq::new(n as nat, |i: int| signed(be_u32(s, pos + 4 * i), 4294967296) as i32)
}

/// The `n` 64-bit numbers that stand in `s` from index `pos` on.
pub open spec fn i64s_at(s: Seq<u8>, pos: int, n: int) -> Seq<i64> {
    Seq::new(n as nat, |i: int| signed(be_u64(s, pos + 8 * i), 18446744073709551616) as i64)
}

/// The value of kind `k` whose payload stands in `s` at index `pos`, with the
/// index behind it; `None` where the bytes end early or name a kind that
/// does not exist.
pub open spec fn payload_at(s: Seq<u8>, pos: int, k: u8) -> Option<(Node, int)>
    decreases s.len() - pos, 2int, 0int,
{
    if pos < 0 || pos > s.len() {
        None
    } else if k == 1 {
        if pos + 1 <= s.len() {
            Some((Node::Byte(signed(s[pos] as int, 256) as i8), pos + 1))
        } else {
            None
        }
    } else if k == 2 {
        if pos + 2 <= s.len() {
            Some((Node::Short(signed(be_u16(s, pos), 65536) as i16), pos + 2))
        } else {
            None
        }
    } else if k == 3 {
        if pos + 4 <= s.len() {
            Some((Node::Int(signed(be_u32(s, pos), 4294967296) as i32), pos + 4))
        } else {
            None
        }
    } else if k == 4 {
        if pos + 8 <= s.len() {
            Some((Node::Long(signed(be_u64(s, pos), 18446744073709551616) as i64), pos + 8))
        } else {
            None
        }
    } else if k == 5 {
        if pos + 4 <= s.len() {
            Some((Node::Float(be_u32(s, pos) as u32), pos + 4))
        } else {
            None
        }
    } else if k == 6 {
        if pos + 8 <= s.len() {
            Some((Node::Double(be_u64(s, pos) as u64), pos + 8))
        } else {
            None
        }
    } else if k == 7 {
        if pos + 4 <= s.len() {
            let n = signed(be_u32(s, pos), 4294967296);
            if 0 <= n && pos + 4 + n <= s.len() {
                Some((Node::ByteArray(i8s_at(s, pos + 4, n)), pos + 4 + n))
            } else {
                None
            }
        } else {
            None
        }
    } else if k == 8 {
        if pos + 2 <= s.len() {
            let n = be_u16(s, pos);
            if pos + 2 + n <= s.len() {
                Some((Node::String(s.subrange(pos + 2, pos + 2 + n)), pos + 2 + n))
            } else {
                None
            }
        } else {
            None
        }
    } else if k == 9 {
        if pos + 5 <= s.len() {
            let ek = s[pos];
            let n = signed(be_u32(s, pos + 1), 4294967296);
            if n < 0 || (n > 0 && !(1 <= ek <= 12)) {
                None
            } else {
                match elements_at(s, pos + 5, ek, n) {
                    Some((elems, p)) => Some((Node::List(ek, elems), p)),
                    None => None,
                }
            }
        } else {
            None
        }
    } else if k == 10 {
        match entries_at(s, pos) {
            Some((entries, p)) => Some((Node::Compound(entries), p)),
            None => None,
        }
    } else if k == 11 {
        if pos + 4 <= s.len() {
            let n = signed(be_u32(s, pos), 4294967296);
            if 0 <= n && pos + 4 + 4 * n <= s.len() {
                Some((Node::IntArray(i32s_at(s, pos + 4, n)), pos + 4 + 4 * n))
            } else {
                None
            }
        } else {
            None
        }
    } else if k == 12 {
        if pos + 4 <= s.len() {
            let n = signed(be_u32(s, pos), 4294967296);
            if 0 <= n && pos + 4 + 8 * n <= s.len() {
                Some((Node::LongArray(i64s_at(s, pos + 4, n)), pos + 4 + 8 * n))
            } else {
                None
            }
        } else {
            None
        }
    } else {
        None
    }
}

/// The `n` values of kind `k` whose payloads stand in `s` from index `pos`
/// on, one after the other, with the index behind the last.
pub open spec fn elements_at(s: Seq<u8>, pos: int, k: u8, n: int) -> Option<(Seq<Node>, int)>
    decreases s.len() - pos, 3int, n,
{
    if n <= 0 {
        Some((Seq::empty(), pos))
    } else {
        match payload_at(s, pos, k) {
            Some((first, next)) => {
                if next < pos || next > s.len() {
                    None
                } else {
                    match elements_at(s, next, k, n - 1) {
                        Some((rest, end)) => Some((seq![first] + rest, end)),
                        None => None,
                    }
                }
            },
            None => None,
        }
    }
}

/// The named values that stand in `s` from index `pos` on, up to the `End`
/// byte that closes them, with the index behind that byte.
pub open spec fn entries_at(s: Seq<u8>, pos: int) -> Option<(Seq<(Seq<u8>, Node)>, int)>
    decreases s.len() - pos, 1int, 0int,
{
    if pos < 0 || pos + 1 > s.len() {
        None
    } else if s[pos] == 0 {
        Some((Seq::empty(), pos + 1))
    } else {
        match named_at(s, pos) {
            Some((first, next)) => {
                if next <= pos || next > s.len() {
                    None
                } else {
                    match entries_at(s, next) {
                        Some((rest, end)) => Some((seq![first] + rest, end)),
                        None => None,
                    }
                }
            },
            None => None,
        }
    }
}

/// The named value that stands in `s` at index `pos`: its kind byte, its
/// name behind a two-byte length, and its payload. The kind byte `End` stands
/// alone and gives `End` with an empty name.
pub open spec fn named_at(s: Seq<u8>, pos: int) -> Option<((Seq<u8>, Node), int)>
    decreases s.len() - pos, 0int, 0int,
{
    if pos < 0 || pos + 1 > s.len() {
        None
    } else if s[pos] == 0 {
        Some(((Seq::empty(), Node::End), pos + 1))
    } else if pos + 3 > s.len() {
        None
    } else {
        let n = be_u16(s, pos + 1);
        if pos + 3 + n > s.len() {
            None
        } else {
            match payload_at(s, pos + 3 + n, s[pos]) {
                Some((node, p)) => Some(((s.subrange(pos + 3, pos + 3 + n), node), p)),
                None => None,
            }
        }
    }
}

/// `found` put in front of what `rest` holds.
pub open spec fn with_front<T>(found: Seq<T>, rest: Option<(Seq<T>, int)>) -> Option<
    (Seq<T>, int),
> {
    match rest {
        Some((more, p)) => Some((found + more, p)),
        None => None,
    }
}

/// Reads `n` 8-bit numbers.
fn parse_i8s(data: &[u8], pos: usize, n: usize) -> (v: Vec<i8>)
    requires
        pos + n <= data.len(),
    ensures
        v@ == i8s_at(data@, pos as int, n as int),
{
    let mut v: Vec<i8> = Vec::new();
    let mut i: usize = 0;
    while i < n
        invariant
            i <= n,
            pos + n <= data.len(),
            v@ == i8s_at(data@, pos as int, i as int),
        decreases n - i,
    {
        v.push(to_i8(data[pos + i]));
        i += 1;
        assert(v@ =~= i8s_at(data@, pos as int, i as int));
    }
    v
}

/// Reads `n` 32-bit numbers.
fn parse_i32s(data: &[u8], pos: usize, n: usize) -> (v: Vec<i32>)
    requires
        pos + 4 * n <= data.len(),
    ensures
        v@ == i32s_at(data@, pos as int, n as int),
{
    let mut v: Vec<i32> = Vec::new();
    let mut i: usize = 0;
    while i < n
        invariant
            i <= n,
            pos + 4 * n <= data.len(),
            v@ == i32s_at(data@, pos as int, i as int),
        decreases n - i,
    {
        v.push(to_i32(read_u32(data, pos + 4 * i)));
        i += 1;
        assert(v@ =~= i32s_at(data@, pos as int, i as int));
    }
    v
}

/// Reads `n` 64-bit numbers.
fn parse_i64s(data: &[u8], pos: usize, n: usize) -> (v: Vec<i64>)
    requires
        pos + 8 * n <= data.len(),
    ensures
        v@ == i64s_at(data@, pos as int, n as int),
{
    let mut v: Vec<i64> = Vec::new();
    let mut i: usize = 0;
    while i < n
        invariant
            i <= n,
            pos + 8 * n <= data.len(),
            v@ == i64s_at(data@, pos as int, i as int),
        decreases n - i,
    {
        v.push(to_i64(read_u64(data, pos + 8 * i)));
        i += 1;
        assert(v@ =~= i64s_at(data@, pos as int, i as int));
    }
    v
}

/// Reads the payload of a value of kind `k` at index `pos`.
pub fn parse_payload(data: &[u8], pos: usize, k: u8) -> (res: Option<(Tag, usize)>)
    requires
        pos <= data.len(),
    ensures
        match res {
            Some((t, p)) => payload_at(data@, pos as int, k) == Some((t@, p as int)) && pos <= p
                <= data.len(),
            None => payload_at(data@, pos as int, k) is None,
        },
    decreases data.len() - pos, 2int, 0int,
{
    let left: usize = data.len() - pos;
    if k == 1 {
        if left < 1 {
            return None;
        }
        Some((Tag::Byte(to_i8(data[pos])), pos + 1))
    } else if k == 2 {
        if left < 2 {
            return None;
        }
        Some((Tag::Short(to_i16(read_u16(data, pos))), pos + 2))
    } else if k == 3 {
        if left < 4 {
            return None;
        }
        Some((Tag::Int(to_i32(read_u32(data, pos))), pos + 4))
    } else if k == 4 {
        if left < 8 {
            return None;
        }
        Some((Tag::Long(to_i64(read_u64(data, pos))), pos + 8))
    } else if k == 5 {
        if left < 4 {
            return None;
        }
        Some((Tag::Float(read_u32(data, pos)), pos + 4))
    } else if k == 6 {
        if left < 8 {
            return None;
        }
        Some((Tag::Double(read_u64(data, pos)), pos + 8))
    } else if k == 7 {
        if left < 4 {
            return None;
        }
        let n: i32 = to_i32(read_u32(data, pos));
        if n < 0 || n as usize > left - 4 {
            return None;
        }
        let v = parse_i8s(data, pos + 4, n as usize);
        Some((Tag::ByteArray(v), pos + 4 + n as usize))
    } else if k == 8 {
        if left < 2 {
            return None;
        }
        let n: usize = read_u16(data, pos) as usize;
        if n > left - 2 {
            return None;
        }
        let v = slice_to_vec(slice_subrange(data, pos + 2, pos + 2 + n));
        Some((Tag::String(v), pos + 2 + n))
    } else if k == 9 {
        if left < 5 {
            return None;
        }
        let ek: u8 = data[pos];
        let n: i32 = to_i32(read_u32(data, pos + 1));
        if n < 0 || (n > 0 && !(1 <= ek && ek <= 12)) {
            return None;
        }
        match parse_elements(data, pos + 5, ek, n as usize) {
            Some((v, p)) => Some((Tag::List(ek, v), p)),
            None => None,
        }
    } else if k == 10 {
        match parse_entries(data, pos) {
            Some((v, p)) => Some((Tag::Compound(v), p)),
            None => None,
        }
    } else if k == 11 {
        if left < 4 {
            return None;
        }
        let n: i32 = to_i32(read_u32(data, pos));
        if n < 0 || n as usize > (left - 4) / 4 {
            return None;
        }
        let v = parse_i32s(data, pos + 4, n as usize);
        Some((Tag::IntArray(v), pos + 4 + 4 * (n as usize)))
    } else if k == 12 {
        if left < 4 {
            return None;
        }
        let n: i32 = to_i32(read_u32(data, pos));
        if n < 0 || n as usize > (left - 4) / 8 {
            return None;
        }
        let v = parse_i64s(data, pos + 4, n as usize);
        Some((Tag::LongArray(v), pos + 4 + 8 * (n as usize)))
    } else {
        None
    }
}

/// Reads the payloads of `n` values of kind `k`, one after the other.
pub fn parse_elements(data: &[u8], pos: usize, k: u8, n: usize) -> (res: Option<(Vec<Tag>, usize)>)
    requires
        pos <= data.len(),
    ensures
        match res {
            Some((v, p)) => elements_at(data@, pos as int, k, n as int) == Some(
                (tags_view(v@), p as int),
            ) && pos <= p <= data.len(),
            None => elements_at(data@, pos as int, k, n as int) is None,
        },
    decreases data.len() - pos, 3int, n,
{
    let mut v: Vec<Tag> = Vec::new();
    let mut cur: usize = pos;
    let mut i: usize = 0;
    assert(with_front(tags_view(v@), elements_at(data@, cur as int, k, n - i)) =~= elements_at(
        data@,
        pos as int,
        k,
        n as int,
    )) by {
        match elements_at(data@, pos as int, k, n as int) {
            Some((more, p)) => {
                assert(tags_view(v@) + more =~= more);
            },
            None => {},
        }
    }
    while i < n
        invariant
            i <= n,
            pos <= cur <= data.len(),
            elements_at(data@, pos as int, k, n as int) == with_front(
                tags_view(v@),
                elements_at(data@, cur as int, k, n - i),
            ),
        decreases n - i,
    {
        match parse_payload(data, cur, k) {
            None => {
                return None;
            },
            Some((t, p)) => {
                proof {
                    let rest = elements_at(data@, p as int, k, n - i - 1);
                    assert(v@.push(t).drop_last() =~= v@);
                    assert(tags_view(v@.push(t)) == tags_view(v@).push(t@));
                    match rest {
                        Some((more, q)) => {
                            assert(tags_view(v@) + (seq![t@] + more) =~= tags_view(v@).push(t@)
                                + more);
                        },
                        None => {},
                    }
                }
                v.push(t);
                cur = p;
                i += 1;
            },
        }
    }
    assert(tags_view(v@) + Seq::<Node>::empty() =~= tags_view(v@));
    Some((v, cur))
}

/// Reads the children of a compound up to the `End` byte that closes it.
pub fn parse_entries(data: &[u8], pos: usize) -> (res: Option<(Vec<NamedTag>, usize)>)
    requires
        pos <= data.len(),
    ensures
        match res {
            Some((v, p)) => entries_at(data@, pos as int) == Some((named_tags_view(v@), p as int))
                && pos < p <= data.len(),
            None => entries_at(data@, pos as int) is None,
        },
    decreases data.len() - pos, 1int, 0int,
{
    let mut v: Vec<NamedTag> = Vec::new();
    let mut cur: usize = pos;
    assert(with_front(named_tags_view(v@), entries_at(data@, cur as int)) =~= entries_at(
        data@,
        pos as int,
    )) by {
        match entries_at(data@, pos as int) {
            Some((more, p)) => {
                assert(named_tags_view(v@) + more =~= more);
            },
            None => {},
        }
    }
    loop
        invariant
            pos <= cur <= data.len(),
            entries_at(data@, pos as int) == with_front(
                named_tags_view(v@),
                entries_at(data@, cur as int),
            ),
        decreases data.len() - cur,
    {
        if cur >= data.len() {
            return None;
        }
        if data[cur] == 0 {
            assert(named_tags_view(v@) + Seq::<(Seq<u8>, Node)>::empty() =~= named_tags_view(v@));
            return Some((v, cur + 1));
        }
        match parse_named(data, cur) {
            None => {
                return None;
            },
            Some((t, p)) => {
                proof {
                    let rest = entries_at(data@, p as int);
                    assert(v@.push(t).drop_last() =~= v@);
                    assert(named_tags_view(v@.push(t)) == named_tags_view(v@).push(t@));
                    match rest {
                        Some((more, q)) => {
                            assert(named_tags_view(v@) + (seq![t@] + more) =~= named_tags_view(
                                v@,
                            ).push(t@) + more);
                        },
                        None => {},
                    }
                }
                v.push(t);
                cur = p;
            },
        }
    }
}

/// Reads a named value at index `pos`.
pub fn parse_named(data: &[u8], pos: usize) -> (res: Option<(NamedTag, usize)>)
    requires
        pos <= data.len(),
    ensures
        match res {
            Some((t, p)) => named_at(data@, pos as int) == Some((t@, p as int)) && pos < p
                <= data.len(),
            None => named_at(data@, pos as int) is None,
        },
    decreases data.len() - pos, 0int, 0int,
{
    let left: usize = data.len() - pos;
    if left < 1 {
        return None;
    }
    let k: u8 = data[pos];
    if k == 0 {
        return Some((NamedTag { name: Vec::new(), tag: Tag::End }, pos + 1));
    }
    if left < 3 {
        return None;
    }
    let n: usize = read_u16(data, pos + 1) as usize;
    if n > left - 3 {
        return None;
    }
    let name = slice_to_vec(slice_subrange(data, pos + 3, pos + 3 + n));
    match parse_payload(data, pos + 3 + n, k) {
        Some((tag, p)) => Some((NamedTag { name, tag }, p)),
        None => None,
    }
}

/// Reads the tree that stands at the start of `data`: the named value at
/// index 0, with the number of bytes that it takes.
pub fn parse_tag(data: &[u8]) -> (res: Option<(NamedTag, usize)>)
    ensures
        match res {
            Some((t, p)) => named_at(data@, 0) == Some((t@, p as int)) && 0 < p <= data.len()
                && t.well_formed(),
            None => named_at(data@, 0) is None,
        },
{
    let res = parse_named(data, 0);
    proof {
        if res is Some {
            lemma_named_read_then_written(data@, 0);
        }
    }
    res
}

} // verus!
