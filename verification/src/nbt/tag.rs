//! The tagged tree: its values, what they are as mathematical trees, and the
//! bytes that write them down.

use crate::big_endian::{
    from_i16, from_i32, from_i64, from_i8, push_u16, push_u32, push_u64, u16_bytes, u32_bytes,
    u64_bytes, unsigned,
};
use vstd::slice::slice_to_vec;
use vstd::string::StringSliceAdditionalSpecFns;
use vstd::prelude::*;

verus! {

/// A value of the tagged tree.
///
/// A float is held as its IEEE-754 bit pattern and a string as the bytes that
/// the stream carries, so that every value is written back bit for bit.
#[derive(Debug, PartialEq, Eq)]
pub enum Tag {
    End,
    Byte(i8),
    Short(i16),
    Int(i32),
    Long(i64),
    Float(u32),
    Double(u64),
    ByteArray(Vec<i8>),
    String(Vec<u8>),
    /// The kind byte of the elements, and the elements.
    List(u8, Vec<Tag>),
    /// The named children, in the order in which they were read.
    Compound(Vec<NamedTag>),
    IntArray(Vec<i32>),
    LongArray(Vec<i64>),
}

/// A value with its name: the root of a tree, or a child of a compound.
#[derive(Debug, PartialEq, Eq)]
pub struct NamedTag {
    pub name: Vec<u8>,
    pub tag: Tag,
}

/// A tagged tree as a mathematical value.
pub enum Node {
    End,
    Byte(i8),
    Short(i16),
    Int(i32),
    Long(i64),
    Float(u32),
    Double(u64),
    ByteArray(Seq<i8>),
    String(Seq<u8>),
    List(u8, Seq<Node>),
    Compound(Seq<(Seq<u8>, Node)>),
    IntArray(Seq<i32>),
    LongArray(Seq<i64>),
}

/// The tree that `t` holds.
pub open spec fn tag_view(t: Tag) -> Node
    decreases t,
{
    match t {
        Tag::End => Node::End,
        Tag::Byte(v) => Node::Byte(v),
        Tag::Short(v) => Node::Short(v),
        Tag::Int(v) => Node::Int(v),
        Tag::Long(v) => Node::Long(v),
        Tag::Float(v) => Node::Float(v),
        Tag::Double(v) => Node::Double(v),
        Tag::ByteArray(v) => Node::ByteArray(v@),
        Tag::String(v) => Node::String(v@),
        Tag::List(k, v) => Node::List(k, tags_view(v@)),
        Tag::Compound(v) => Node::Compound(named_tags_view(v@)),
        Tag::IntArray(v) => Node::IntArray(v@),
        Tag::LongArray(v) => Node::LongArray(v@),
    }
}

/// The trees that the values of `s` hold, one for one.
pub open spec fn tags_view(s: Seq<Tag>) -> Seq<Node>
    decreases s,
{
    if s.len() == 0 {
        Seq::empty()
    } else {
        tags_view(s.drop_last()).push(tag_view(s.last()))
    }
}

/// The names and trees that the named values of `s` hold, one for one.
pub open spec fn named_tags_view(s: Seq<NamedTag>) -> Seq<(Seq<u8>, Node)>
    decreases s,
{
    if s.len() == 0 {
        Seq::empty()
    } else {
        named_tags_view(s.drop_last()).push((s.last().name@, tag_view(s.last().tag)))
    }
}

impl View for Tag {
    type V = Node;

    open spec fn view(&self) -> Node {
        tag_view(*self)
    }
}

impl View for NamedTag {
    type V = (Seq<u8>, Node);

    open spec fn view(&self) -> (Seq<u8>, Node) {
        (self.name@, tag_view(self.tag))
    }
}

/// `tags_view` keeps the length and views each value in its place.
pub proof fn lemma_tags_view(s: Seq<Tag>)
    ensures
        tags_view(s).len() == s.len(),
        forall|i: int| 0 <= i < s.len() ==> #[trigger] tags_view(s)[i] == tag_view(s[i]),
    decreases s.len(),
{
    if s.len() > 0 {
        lemma_tags_view(s.drop_last());
    }
}

/// `named_tags_view` keeps the length and views each value in its place.
pub proof fn lemma_named_tags_view(s: Seq<NamedTag>)
    ensures
        named_tags_view(s).len() == s.len(),
        forall|i: int| 0 <= i < s.len() ==> #[trigger] named_tags_view(s)[i] == s[i]@,
    decreases s.len(),
{
    if s.len() > 0 {
        lemma_named_tags_view(s.drop_last());
    }
}

/// The kind byte under which a value is written.
pub open spec fn kind(n: Node) -> u8 {
    match n {
        Node::End => 0,
        Node::Byte(_) => 1,
        Node::Short(_) => 2,
        Node::Int(_) => 3,
        Node::Long(_) => 4,
        Node::Float(_) => 5,
        Node::Double(_) => 6,
        Node::ByteArray(_) => 7,
        Node::String(_) => 8,
        Node::List(_, _) => 9,
        Node::Compound(_) => 10,
        Node::IntArray(_) => 11,
        Node::LongArray(_) => 12,
    }
}

/// Whether a tree can be written down: every length fits its prefix, a list's
/// elements are all of the kind that the list declares, and `End` stands
/// nowhere inside.
pub open spec fn well_formed(n: Node) -> bool
    decreases n,
{
    match n {
        Node::ByteArray(a) => a.len() <= i32::MAX,
        Node::String(b) => b.len() <= u16::MAX,
        Node::List(k, elems) => {
            &&& elems.len() <= i32::MAX
            &&& elems.len() > 0 ==> 1 <= k <= 12
            &&& forall|i: int|
                0 <= i < elems.len() ==> kind(#[trigger] elems[i]) == k && well_formed(elems[i])
        },
        Node::Compound(entries) => {
            forall|i: int|
                0 <= i < entries.len() ==> {
                    &&& (#[trigger] entries[i]).0.len() <= u16::MAX
                    &&& entries[i].1 != Node::End
                    &&& well_formed(entries[i].1)
                }
        },
        Node::IntArray(a) => a.len() <= i32::MAX,
        Node::LongArray(a) => a.len() <= i32::MAX,
        _ => true,
    }
}

/// The bytes of 8-bit numbers, one byte each.
pub open spec fn i8s_bytes(a: Seq<i8>) -> Seq<u8> {
    Seq::new(a.len(), |i: int| unsigned(a[i] as int, 256) as u8)
}

/// The bytes of 32-bit numbers, four bytes each.
pub open spec fn i32s_bytes(a: Seq<i32>) -> Seq<u8>
    decreases a.len(),
{
    if a.len() == 0 {
        Seq::empty()
    } else {
        i32s_bytes(a.drop_last()) + u32_bytes(unsigned(a.last() as int, 4294967296))
    }
}

/// The bytes of 64-bit numbers, eight bytes each.
pub open spec fn i64s_bytes(a: Seq<i64>) -> Seq<u8>
    decreases a.len(),
{
    if a.len() == 0 {
        Seq::empty()
    } else {
        i64s_bytes(a.drop_last()) + u64_bytes(unsigned(a.last() as int, 18446744073709551616))
    }
}

/// The bytes of a value without its kind byte and name.
pub open spec fn payload_bytes(n: Node) -> Seq<u8>
    decreases n, 0int,
{
    match n {
        Node::End => Seq::empty(),
        Node::Byte(v) => seq![unsigned(v as int, 256) as u8],
        Node::Short(v) => u16_bytes(unsigned(v as int, 65536)),
        Node::Int(v) => u32_bytes(unsigned(v as int, 4294967296)),
        Node::Long(v) => u64_bytes(unsigned(v as int, 18446744073709551616)),
        Node::Float(v) => u32_bytes(v as int),
        Node::Double(v) => u64_bytes(v as int),
        Node::ByteArray(a) => u32_bytes(a.len() as int) + i8s_bytes(a),
        Node::String(b) => u16_bytes(b.len() as int) + b,
        Node::List(k, elems) => seq![k] + u32_bytes(elems.len() as int) + elements_bytes(elems),
        Node::Compound(entries) => entries_bytes(entries) + seq![0u8],
        Node::IntArray(a) => u32_bytes(a.len() as int) + i32s_bytes(a),
        Node::LongArray(a) => u32_bytes(a.len() as int) + i64s_bytes(a),
    }
}

/// The payloads of a list's elements, one after the other.
pub open spec fn elements_bytes(elems: Seq<Node>) -> Seq<u8>
    decreases elems, 0int,
{
    if elems.len() == 0 {
        Seq::empty()
    } else {
        elements_bytes(elems.drop_last()) + payload_bytes(elems.last())
    }
}

/// The children of a compound, each with its kind byte and name, one after
/// the other.
pub open spec fn entries_bytes(entries: Seq<(Seq<u8>, Node)>) -> Seq<u8>
    decreases entries, 0int,
{
    if entries.len() == 0 {
        Seq::empty()
    } else {
        entries_bytes(entries.drop_last()) + named_bytes(entries.last().0, entries.last().1)
    }
}

/// The bytes of a named value: kind byte, name with its length, payload.
/// `End` is its kind byte alone.
pub open spec fn named_bytes(name: Seq<u8>, n: Node) -> Seq<u8>
    decreases n, 1int,
{
    if n == Node::End {
        seq![0u8]
    } else {
        seq![kind(n)] + u16_bytes(name.len() as int) + name + payload_bytes(n)
    }
}

/// The first child of the name `name` among `entries` from index `from` on.
pub open spec fn find_from(entries: Seq<(Seq<u8>, Node)>, name: Seq<u8>, from: int) -> Option<Node>
    decreases entries.len() - from,
{
    if from < 0 || from >= entries.len() {
        None
    } else if entries[from].0 == name {
        Some(entries[from].1)
    } else {
        find_from(entries, name, from + 1)
    }
}

/// The first child of a compound that has the name `name`; `None` where there
/// is none, or where `n` is no compound.
pub open spec fn find(n: Node, name: Seq<u8>) -> Option<Node> {
    match n {
        Node::Compound(entries) => find_from(entries, name, 0),
        _ => None,
    }
}

/// What `find_from` gives is the first entry of that name.
pub proof fn lemma_find_from_is_first(entries: Seq<(Seq<u8>, Node)>, name: Seq<u8>, from: int)
    requires
        0 <= from,
    ensures
        match find_from(entries, name, from) {
            Some(n) => exists|i: int|
                {
                    &&& from <= i < entries.len()
                    &&& (#[trigger] entries[i]).0 == name
                    &&& entries[i].1 == n
                    &&& forall|j: int| from <= j < i ==> (#[trigger] entries[j]).0 != name
                },
            None => forall|j: int| from <= j < entries.len() ==> (#[trigger] entries[j]).0 != name,
        },
    decreases entries.len() - from,
{
    if from < entries.len() {
        if entries[from].0 == name {
            assert(entries[from].0 == name);
        } else {
            lemma_find_from_is_first(entries, name, from + 1);
            match find_from(entries, name, from + 1) {
                Some(n) => {
                    let i = choose|i: int|
                        {
                            &&& from + 1 <= i < entries.len()
                            &&& (#[trigger] entries[i]).0 == name
                            &&& entries[i].1 == n
                            &&& forall|j: int|
                                from + 1 <= j < i ==> (#[trigger] entries[j]).0 != name
                        };
                    assert(entries[i].0 == name);
                },
                None => {},
            }
        }
    }
}

/// Whether two byte slices hold the same bytes.
pub fn bytes_eq(a: &[u8], b: &[u8]) -> (r: bool)
    ensures
        r == (a@ == b@),
{
    if a.len() != b.len() {
        return false;
    }
    let mut i: usize = 0;
    while i < a.len()
        invariant
            a.len() == b.len(),
            i <= a.len(),
            forall|j: int| 0 <= j < i ==> a@[j] == b@[j],
        decreases a.len() - i,
    {
        if a[i] != b[i] {
            return false;
        }
        i += 1;
    }
    assert(a@ =~= b@);
    true
}

impl Tag {
    /// The kind byte under which this value is written.
    pub fn kind(&self) -> (k: u8)
        ensures
            k == kind(self@),
    {
        match self {
            Tag::End => 0,
            Tag::Byte(_) => 1,
            Tag::Short(_) => 2,
            Tag::Int(_) => 3,
            Tag::Long(_) => 4,
            Tag::Float(_) => 5,
            Tag::Double(_) => 6,
            Tag::ByteArray(_) => 7,
            Tag::String(_) => 8,
            Tag::List(_, _) => 9,
            Tag::Compound(_) => 10,
            Tag::IntArray(_) => 11,
            Tag::LongArray(_) => 12,
        }
    }

    /// The first child of this compound whose name is `name`.
    pub fn find_tag(&self, name: &str) -> (res: Option<&Tag>)
        ensures
            match res {
                Some(t) => find(self@, name.spec_bytes()) == Some(t@),
                None => find(self@, name.spec_bytes()) is None,
            },
    {
        match self {
            Tag::Compound(children) => {
                let wanted = name.as_bytes();
                let mut i: usize = 0;
                proof {
                    lemma_named_tags_view(children@);
                }
                while i < children.len()
                    invariant
                        i <= children.len(),
                        wanted@ == name.spec_bytes(),
                        self@ == Node::Compound(named_tags_view(children@)),
                        named_tags_view(children@).len() == children.len(),
                        forall|j: int|
                            0 <= j < children.len() ==> #[trigger] named_tags_view(children@)[j]
                                == children[j]@,
                        find_from(named_tags_view(children@), name.spec_bytes(), 0) == find_from(
                            named_tags_view(children@),
                            name.spec_bytes(),
                            i as int,
                        ),
                    decreases children.len() - i,
                {
                    assert(named_tags_view(children@)[i as int] == children[i as int]@);
                    if bytes_eq(children[i].name.as_slice(), wanted) {
                        let ghost entries = named_tags_view(children@);
                        assert(entries[i as int].0 == name.spec_bytes());
                        assert(find_from(entries, name.spec_bytes(), i as int) == Some(
                            entries[i as int].1,
                        ));
                        assert(entries[i as int].1 == tag_view(children[i as int].tag));
                        assert(self@ == Node::Compound(entries));
                        return Some(&children[i].tag);
                    }
                    assert(named_tags_view(children@)[i as int].0 != name.spec_bytes());
                    i += 1;
                }
                None
            },
            _ => None,
        }
    }

    /// The number that an `Int` holds.
    pub fn get_int(&self) -> (res: Option<&i32>)
        ensures
            match res {
                Some(v) => self@ == Node::Int(*v),
                None => !(self@ is Int),
            },
    {
        match self {
            Tag::Int(v) => Some(v),
            _ => None,
        }
    }

    /// The number that a `Long` holds.
    pub fn get_long(&self) -> (res: Option<&i64>)
        ensures
            match res {
                Some(v) => self@ == Node::Long(*v),
                None => !(self@ is Long),
            },
    {
        match self {
            Tag::Long(v) => Some(v),
            _ => None,
        }
    }

    /// The bytes that a `String` holds.
    pub fn get_string(&self) -> (res: Option<&Vec<u8>>)
        ensures
            match res {
                Some(v) => self@ == Node::String(v@),
                None => !(self@ is String),
            },
    {
        match self {
            Tag::String(v) => Some(v),
            _ => None,
        }
    }

    /// Appends this value's payload to `out`.
    pub fn write_payload(&self, out: &mut Vec<u8>)
        requires
            well_formed(self@),
        ensures
            final(out)@ == old(out)@ + payload_bytes(self@),
        decreases self, 0int,
    {
        let ghost base = out@;
        match self {
            Tag::End => {
                assert(out@ =~= base + payload_bytes(self@));
            },
            Tag::Byte(v) => {
                out.push(from_i8(*v));
                assert(out@ =~= base + payload_bytes(self@));
            },
            Tag::Short(v) => {
                push_u16(out, from_i16(*v));
            },
            Tag::Int(v) => {
                push_u32(out, from_i32(*v));
            },
            Tag::Long(v) => {
                push_u64(out, from_i64(*v));
            },
            Tag::Float(v) => {
                push_u32(out, *v);
            },
            Tag::Double(v) => {
                push_u64(out, *v);
            },
            Tag::ByteArray(a) => {
                push_u32(out, a.len() as u32);
                write_i8s(a, out);
                assert(out@ =~= base + payload_bytes(self@));
            },
            Tag::String(b) => {
                push_u16(out, b.len() as u16);
                out.extend_from_slice(b.as_slice());
                assert(out@ =~= base + payload_bytes(self@));
            },
            Tag::List(k, v) => {
                proof {
                    lemma_tags_view(v@);
                    assert forall|i: int| 0 <= i < v.len() implies well_formed(
                        tag_view(#[trigger] v@[i]),
                    ) by {
                        assert(well_formed(tags_view(v@)[i]));
                    }
                }
                out.push(*k);
                push_u32(out, v.len() as u32);
                write_elements(v, out);
                assert(out@ =~= base + payload_bytes(self@));
            },
            Tag::Compound(v) => {
                proof {
                    lemma_named_tags_view(v@);
                    assert forall|i: int| 0 <= i < v.len() implies (
                    #[trigger] v@[i]).well_formed() by {
                        assert(well_formed(named_tags_view(v@)[i].1));
                    }
                }
                write_entries(v, out);
                out.push(0);
                assert(out@ =~= base + payload_bytes(self@));
            },
            Tag::IntArray(a) => {
                push_u32(out, a.len() as u32);
                write_i32s(a, out);
                assert(out@ =~= base + payload_bytes(self@));
            },
            Tag::LongArray(a) => {
                push_u32(out, a.len() as u32);
                write_i64s(a, out);
                assert(out@ =~= base + payload_bytes(self@));
            },
        }
    }
}

/// Appends 8-bit numbers, one byte each.
fn write_i8s(a: &Vec<i8>, out: &mut Vec<u8>)
    ensures
        final(out)@ == old(out)@ + i8s_bytes(a@),
{
    let ghost base = out@;
    let mut i: usize = 0;
    while i < a.len()
        invariant
            i <= a.len(),
            out@ == base + i8s_bytes(a@).take(i as int),
        decreases a.len() - i,
    {
        out.push(from_i8(a[i]));
        i += 1;
        assert(out@ =~= base + i8s_bytes(a@).take(i as int));
    }
    assert(i8s_bytes(a@).take(i as int) =~= i8s_bytes(a@));
}

/// Appends 32-bit numbers, four bytes each.
fn write_i32s(a: &Vec<i32>, out: &mut Vec<u8>)
    ensures
        final(out)@ == old(out)@ + i32s_bytes(a@),
{
    let ghost base = out@;
    let mut i: usize = 0;
    while i < a.len()
        invariant
            i <= a.len(),
            out@ == base + i32s_bytes(a@.take(i as int)),
        decreases a.len() - i,
    {
        push_u32(out, from_i32(a[i]));
        i += 1;
        assert(a@.take(i as int).drop_last() =~= a@.take(i - 1));
        assert(a@.take(i as int).last() == a@[i - 1]);
        assert(out@ =~= base + i32s_bytes(a@.take(i as int)));
    }
    assert(a@.take(i as int) =~= a@);
}

/// Appends 64-bit numbers, eight bytes each.
fn write_i64s(a: &Vec<i64>, out: &mut Vec<u8>)
    ensures
        final(out)@ == old(out)@ + i64s_bytes(a@),
{
    let ghost base = out@;
    let mut i: usize = 0;
    while i < a.len()
        invariant
            i <= a.len(),
            out@ == base + i64s_bytes(a@.take(i as int)),
        decreases a.len() - i,
    {
        push_u64(out, from_i64(a[i]));
        i += 1;
        assert(a@.take(i as int).drop_last() =~= a@.take(i - 1));
        assert(a@.take(i as int).last() == a@[i - 1]);
        assert(out@ =~= base + i64s_bytes(a@.take(i as int)));
    }
    assert(a@.take(i as int) =~= a@);
}

/// Appends the payloads of a list's elements.
fn write_elements(v: &Vec<Tag>, out: &mut Vec<u8>)
    requires
        forall|i: int| 0 <= i < v.len() ==> well_formed(tag_view(#[trigger] v@[i])),
    ensures
        final(out)@ == old(out)@ + elements_bytes(tags_view(v@)),
    decreases v, 1int,
{
    let ghost base = out@;
    let ghost elems = tags_view(v@);
    proof {
        lemma_tags_view(v@);
    }
    let mut i: usize = 0;
    while i < v.len()
        invariant
            i <= v.len(),
            elems == tags_view(v@),
            elems.len() == v.len(),
            forall|j: int| 0 <= j < v.len() ==> #[trigger] elems[j] == tag_view(v@[j]),
            forall|j: int| 0 <= j < v.len() ==> well_formed(tag_view(#[trigger] v@[j])),
            out@ == base + elements_bytes(elems.take(i as int)),
        decreases v.len() - i,
    {
        assert(well_formed(tag_view(v@[i as int])));
        v[i].write_payload(out);
        i += 1;
        assert(elems.take(i as int).drop_last() =~= elems.take(i - 1));
        assert(elems.take(i as int).last() == elems[i - 1]);
        assert(out@ =~= base + elements_bytes(elems.take(i as int)));
    }
    assert(elems.take(i as int) =~= elems);
}

/// Appends the children of a compound, each with its kind byte and name.
fn write_entries(v: &Vec<NamedTag>, out: &mut Vec<u8>)
    requires
        forall|i: int| 0 <= i < v.len() ==> (#[trigger] v@[i]).well_formed(),
    ensures
        final(out)@ == old(out)@ + entries_bytes(named_tags_view(v@)),
    decreases v, 1int,
{
    let ghost base = out@;
    let ghost entries = named_tags_view(v@);
    proof {
        lemma_named_tags_view(v@);
    }
    let mut i: usize = 0;
    while i < v.len()
        invariant
            i <= v.len(),
            entries == named_tags_view(v@),
            entries.len() == v.len(),
            forall|j: int| 0 <= j < v.len() ==> #[trigger] entries[j] == v@[j]@,
            forall|j: int| 0 <= j < v.len() ==> (#[trigger] v@[j]).well_formed(),
            out@ == base + entries_bytes(entries.take(i as int)),
        decreases v.len() - i,
    {
        assert(v@[i as int].well_formed());
        v[i].write(out);
        i += 1;
        assert(entries.take(i as int).drop_last() =~= entries.take(i - 1));
        assert(entries.take(i as int).last() == entries[i - 1]);
        assert(out@ =~= base + entries_bytes(entries.take(i as int)));
    }
    assert(entries.take(i as int) =~= entries);
}

impl NamedTag {
    /// Whether this named value can be written down.
    pub open spec fn well_formed(&self) -> bool {
        &&& self.name@.len() <= u16::MAX
        &&& well_formed(self.tag@)
    }

    /// Appends this named value to `out`: kind byte, name, payload.
    pub fn write(&self, out: &mut Vec<u8>)
        requires
            self.well_formed(),
        ensures
            final(out)@ == old(out)@ + named_bytes(self.name@, self.tag@),
        decreases self.tag, 1int,
    {
        let ghost base = out@;
        match &self.tag {
            Tag::End => {
                out.push(0);
                assert(out@ =~= base + named_bytes(self.name@, self.tag@));
            },
            _ => {
                out.push(self.tag.kind());
                push_u16(out, self.name.len() as u16);
                out.extend_from_slice(self.name.as_slice());
                self.tag.write_payload(out);
                assert(out@ =~= base + named_bytes(self.name@, self.tag@));
            },
        }
    }

    /// The bytes that write this named value down.
    pub fn to_bytes(&self) -> (bytes: Vec<u8>)
        requires
            self.well_formed(),
        ensures
            bytes@ == named_bytes(self.name@, self.tag@),
    {
        let mut out: Vec<u8> = Vec::new();
        self.write(&mut out);
        assert(out@ =~= named_bytes(self.name@, self.tag@));
        out
    }

    /// The first child of the name `name`, where this value is a compound.
    pub fn find_tag(&self, name: &str) -> (res: Option<&Tag>)
        ensures
            match res {
                Some(t) => find(self.tag@, name.spec_bytes()) == Some(t@),
                None => find(self.tag@, name.spec_bytes()) is None,
            },
    {
        self.tag.find_tag(name)
    }
}

/// Copies of the values of `v`, one for one.
fn duplicate_tags(v: &Vec<Tag>) -> (res: Vec<Tag>)
    ensures
        tags_view(res@) == tags_view(v@),
    decreases v, 1int,
{
    let mut res: Vec<Tag> = Vec::new();
    let mut i: usize = 0;
    assert(v@.take(0) =~= Seq::<Tag>::empty());
    while i < v.len()
        invariant
            i <= v.len(),
            tags_view(res@) == tags_view(v@.take(i as int)),
        decreases v.len() - i,
    {
        let copy = v[i].duplicate();
        assert(res@.push(copy).drop_last() =~= res@);
        assert(v@.take(i + 1).drop_last() =~= v@.take(i as int));
        res.push(copy);
        i += 1;
    }
    assert(v@.take(i as int) =~= v@);
    res
}

/// Copies of the named values of `v`, one for one.
fn duplicate_named_tags(v: &Vec<NamedTag>) -> (res: Vec<NamedTag>)
    ensures
        named_tags_view(res@) == named_tags_view(v@),
    decreases v, 2int,
{
    let mut res: Vec<NamedTag> = Vec::new();
    let mut i: usize = 0;
    assert(v@.take(0) =~= Seq::<NamedTag>::empty());
    while i < v.len()
        invariant
            i <= v.len(),
            named_tags_view(res@) == named_tags_view(v@.take(i as int)),
        decreases v.len() - i,
    {
        let copy = NamedTag {
            name: slice_to_vec(v[i].name.as_slice()),
            tag: v[i].tag.duplicate(),
        };
        assert(res@.push(copy).drop_last() =~= res@);
        assert(v@.take(i + 1).drop_last() =~= v@.take(i as int));
        res.push(copy);
        i += 1;
    }
    assert(v@.take(i as int) =~= v@);
    res
}

impl Tag {
    /// A copy of this value: the same tree in storage of its own.
    pub fn duplicate(&self) -> (res: Tag)
        ensures
            res@ == self@,
        decreases self, 0int,
    {
        match self {
            Tag::End => Tag::End,
            Tag::Byte(v) => Tag::Byte(*v),
            Tag::Short(v) => Tag::Short(*v),
            Tag::Int(v) => Tag::Int(*v),
            Tag::Long(v) => Tag::Long(*v),
            Tag::Float(v) => Tag::Float(*v),
            Tag::Double(v) => Tag::Double(*v),
            Tag::ByteArray(v) => Tag::ByteArray(slice_to_vec(v.as_slice())),
            Tag::String(v) => Tag::String(slice_to_vec(v.as_slice())),
            Tag::List(k, v) => Tag::List(*k, duplicate_tags(v)),
            Tag::Compound(v) => Tag::Compound(duplicate_named_tags(v)),
            Tag::IntArray(v) => Tag::IntArray(slice_to_vec(v.as_slice())),
            Tag::LongArray(v) => Tag::LongArray(slice_to_vec(v.as_slice())),
        }
    }
}

impl Clone for Tag {
    fn clone(&self) -> (res: Self)
        ensures
            res@ == self@,
    {
        self.duplicate()
    }
}

impl Clone for NamedTag {
    fn clone(&self) -> (res: Self)
        ensures
            res@ == self@,
    {
        NamedTag { name: slice_to_vec(self.name.as_slice()), tag: self.tag.duplicate() }
    }
}

} // verus!
