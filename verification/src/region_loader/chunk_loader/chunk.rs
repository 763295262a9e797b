//! A chunk: one record of a region file, with what the optimizer asks of it.

use crate::big_endian::{be_u32, push_u32, u32_bytes};
use crate::nbt::laws::{
    lemma_decode_then_encode, lemma_encode_then_decode, lemma_named_read_then_written,
};
use crate::nbt::parse::{named_at, parse_tag};
use crate::nbt::tag::{
    bytes_eq, find, lemma_tags_view, named_bytes, tag_view, tags_view, well_formed, NamedTag,
    Node, Tag,
};
use crate::region_loader::chunk_loader::compression_scheme::{
    byte_of, decoded, encodes, lemma_plainly_encoded, plainly_encoded, scheme_of,
    CompressionScheme,
};
use crate::region_loader::get_u32::get_u32;
use crate::region_loader::location::Location;
use vstd::prelude::*;
use vstd::slice::slice_subrange;
use vstd::slice::slice_to_vec;
use vstd::string::StringSliceAdditionalSpecFns;

verus! {

/// What a record holds: the tree that its payload decodes to, or, where the
/// payload cannot be decoded, the payload itself.
#[derive(Debug, PartialEq, Eq)]
pub enum Content {
    Tree(NamedTag),
    Opaque(Vec<u8>),
}

/// What a record holds, as a mathematical value.
pub enum ContentView {
    Tree(Seq<u8>, Node),
    Opaque(Seq<u8>),
}

impl View for Content {
    type V = ContentView;

    open spec fn view(&self) -> ContentView {
        match self {
            Content::Tree(t) => ContentView::Tree(t.name@, tag_view(t.tag)),
            Content::Opaque(raw) => ContentView::Opaque(raw@),
        }
    }
}

/// One record of a region file.
#[derive(Debug, PartialEq, Eq)]
pub struct Chunk {
    pub nbt: Content,
    /// Where the record lay in the file that it was read from.
    pub location: Location,
    pub compression_scheme: CompressionScheme,
    /// The slot of the header that named the record.
    pub index: usize,
}

/// A chunk as a mathematical value.
pub struct ChunkView {
    pub nbt: ContentView,
    pub location: Location,
    pub compression_scheme: CompressionScheme,
    pub index: usize,
}

impl View for Chunk {
    type V = ChunkView;

    open spec fn view(&self) -> ChunkView {
        ChunkView {
            nbt: self.nbt@,
            location: self.location,
            compression_scheme: self.compression_scheme,
            index: self.index,
        }
    }
}

impl Clone for Content {
    fn clone(&self) -> (res: Self)
        ensures
            res@ == self@,
    {
        match self {
            Content::Tree(tree) => Content::Tree(tree.clone()),
            Content::Opaque(raw) => Content::Opaque(slice_to_vec(raw.as_slice())),
        }
    }
}

impl Clone for Chunk {
    fn clone(&self) -> (res: Self)
        ensures
            res@ == self@,
    {
        Chunk {
            nbt: self.nbt.clone(),
            location: self.location,
            compression_scheme: self.compression_scheme,
            index: self.index,
        }
    }
}

/// The child of the root that has the name `name`; an opaque record has
/// none.
pub open spec fn field(c: ChunkView, name: Seq<u8>) -> Option<Node> {
    match c.nbt {
        ContentView::Tree(_, root) => find(root, name),
        ContentView::Opaque(_) => None,
    }
}

/// The chunk's coordinates: the `Int` children `xPos` and `zPos` of the root.
pub open spec fn position(c: ChunkView) -> Option<(i32, i32)> {
    match (field(c, "xPos".spec_bytes()), field(c, "zPos".spec_bytes())) {
        (Some(Node::Int(x)), Some(Node::Int(z))) => Some((x, z)),
        _ => None,
    }
}

/// Whether the chunk's `Status` says that it is fully generated. A chunk
/// without that string is not.
pub open spec fn fully_generated(c: ChunkView) -> bool {
    field(c, "Status".spec_bytes()) == Some(Node::String("minecraft:full".spec_bytes()))
}

/// The time that players have spent in the chunk: its `Long` child
/// `InhabitedTime`, or 0 where it has none.
pub open spec fn inhabited_time(c: ChunkView) -> int {
    match field(c, "InhabitedTime".spec_bytes()) {
        Some(Node::Long(t)) => t as int,
        _ => 0,
    }
}

/// Whether the chunk is worthless: it could be decoded, and it was never
/// fully generated or nobody ever stayed in it.
pub open spec fn deletable(c: ChunkView) -> bool {
    c.nbt is Tree && (!fully_generated(c) || inhabited_time(c) <= 0)
}

/// Whether `n` is a compound whose child `Name` is the string `target`.
pub open spec fn names_block(n: Node, target: Seq<u8>) -> bool {
    find(n, "Name".spec_bytes()) == Some(Node::String(target))
}

/// How many of `elems` name the block `target`.
pub open spec fn count_naming(elems: Seq<Node>, target: Seq<u8>) -> nat
    decreases elems.len(),
{
    if elems.len() == 0 {
        0
    } else {
        count_naming(elems.drop_last(), target) + if names_block(elems.last(), target) {
            1nat
        } else {
            0nat
        }
    }
}

/// How often the palette of the chunk names the block `target`: the root's
/// compound `block_states` holds the list `palette`, and each of its elements
/// that is a compound with the string `Name` equal to `target` counts. Where
/// a step of that path is missing or of another kind the count is 0.
pub open spec fn block_count(c: ChunkView, target: Seq<u8>) -> nat {
    match field(c, "block_states".spec_bytes()) {
        Some(states) => match find(states, "palette".spec_bytes()) {
            Some(Node::List(_, elems)) => count_naming(elems, target),
            _ => 0,
        },
        None => 0,
    }
}

/// The bytes that a chunk's payload stands for: the bytes of its tree, or
/// its opaque bytes.
pub open spec fn plain_bytes(c: ChunkView) -> Seq<u8> {
    match c.nbt {
        ContentView::Tree(name, root) => named_bytes(name, root),
        ContentView::Opaque(raw) => raw,
    }
}

/// Whether the chunk may be written with the payload `payload` at the level
/// `level`: the payload stands for the tree's bytes under the chunk's scheme,
/// or is the bytes of an opaque chunk as they are.
pub open spec fn payload_fits(c: ChunkView, level: u32, payload: Seq<u8>) -> bool {
    match c.nbt {
        ContentView::Tree(name, root) => encodes(
            c.compression_scheme,
            named_bytes(name, root),
            level,
            payload,
        ),
        ContentView::Opaque(raw) => payload == raw,
    }
}

/// Whether the payload is the chunk's bytes themselves, or decodes to them
/// under the chunk's scheme, byte for byte.
pub open spec fn faithful(c: ChunkView, payload: Seq<u8>) -> bool {
    payload == plain_bytes(c) || (c.nbt is Tree && decoded(c.compression_scheme, payload) == Some(
        plain_bytes(c),
    ))
}

/// Whether the payload of a decoded chunk decodes to the bytes of the
/// chunk's tree: the compressor took them. Nothing is asked of an opaque
/// chunk.
pub open spec fn unpacks(c: ChunkView, payload: Seq<u8>) -> bool {
    c.nbt is Tree ==> decoded(c.compression_scheme, payload) == Some(plain_bytes(c))
}

/// A payload that fits the chunk whatever the compressors do: for a tree the
/// bytes that `plainly_encoded` gives, for an opaque chunk its bytes.
pub open spec fn plain_payload(c: ChunkView, level: u32) -> Seq<u8> {
    match c.nbt {
        ContentView::Tree(name, root) => plainly_encoded(
            c.compression_scheme,
            named_bytes(name, root),
            level,
        ),
        ContentView::Opaque(raw) => raw,
    }
}

/// A record: the length of what follows in four bytes, the scheme's byte, the
/// payload.
pub open spec fn framed(scheme: CompressionScheme, payload: Seq<u8>) -> Seq<u8> {
    u32_bytes(payload.len() as int + 1) + seq![byte_of(scheme)] + payload
}

/// The record of the chunk with the payload `payload`; `None` where the
/// payload is too long for the four bytes of its length.
pub open spec fn record_with(c: ChunkView, payload: Seq<u8>) -> Option<Seq<u8>> {
    if payload.len() < u32::MAX {
        Some(framed(c.compression_scheme, payload))
    } else {
        None
    }
}

/// Whether `out` is what writing the chunk at the level `level` gives where
/// its payload comes to be `payload`: the payload fits the chunk and is
/// faithful to it, and `out` is the record with that payload.
pub open spec fn written_as(
    c: ChunkView,
    level: u32,
    payload: Seq<u8>,
    out: Option<Seq<u8>>,
) -> bool {
    &&& payload_fits(c, level, payload)
    &&& faithful(c, payload)
    &&& out == record_with(c, payload)
}

/// The bytes that an optional vector holds.
pub open spec fn bytes_of(out: Option<Vec<u8>>) -> Option<Seq<u8>> {
    match out {
        Some(bytes) => Some(bytes@),
        None => None,
    }
}

/// Whether a whole record stands in `buf` at the byte `offset`: its length,
/// its scheme, and as many bytes of payload as the length says.
pub open spec fn record_fits(buf: Seq<u8>, offset: int) -> bool {
    &&& 0 <= offset
    &&& offset + 5 <= buf.len()
    &&& 1 <= be_u32(buf, offset)
    &&& offset + 4 + be_u32(buf, offset) <= buf.len()
}

/// The payload of the record that stands in `buf` at the byte `offset`.
pub open spec fn record_payload(buf: Seq<u8>, offset: int) -> Seq<u8> {
    buf.subrange(offset + 5, offset + 4 + be_u32(buf, offset))
}

/// What a payload under `scheme` holds: the tree at the start of what it
/// decompresses to, or the payload itself where it does not decompress or
/// holds no tree.
pub open spec fn content_of(scheme: CompressionScheme, payload: Seq<u8>) -> ContentView {
    match decoded(scheme, payload) {
        Some(bytes) => match named_at(bytes, 0) {
            Some(((name, root), _)) => ContentView::Tree(name, root),
            None => ContentView::Opaque(payload),
        },
        None => ContentView::Opaque(payload),
    }
}

/// The chunk that stands in `buf` where `location` says; `None` where no
/// whole record stands there.
pub open spec fn chunk_at(buf: Seq<u8>, location: Location, index: usize) -> Option<ChunkView> {
    if record_fits(buf, location.offset()) {
        let scheme = scheme_of(buf[location.offset() + 4]);
        Some(
            ChunkView {
                nbt: content_of(scheme, record_payload(buf, location.offset())),
                location,
                compression_scheme: scheme,
                index,
            },
        )
    } else {
        None
    }
}

/// Whether a record with the payload `payload` holds the chunk's content
/// again when it is read: the payload, under the scheme that the scheme byte
/// names, decodes to the chunk's tree, or stays the opaque payload that it
/// was.
pub open spec fn reads_back(c: ChunkView, payload: Seq<u8>) -> bool {
    content_of(scheme_of(byte_of(c.compression_scheme)), payload) == c.nbt
}

/// Whether the chunk is as a chunk is that was read from a file: a root that
/// is `End` has no name, and opaque bytes are bytes that do not decode under
/// the chunk's scheme.
pub open spec fn settled(c: ChunkView) -> bool {
    match c.nbt {
        ContentView::Tree(name, root) => root == Node::End ==> name.len() == 0,
        ContentView::Opaque(raw) => content_of(scheme_of(byte_of(c.compression_scheme)), raw)
            == c.nbt,
    }
}

/// `plain_payload` fits the chunk.
pub proof fn lemma_plain_payload(c: ChunkView, level: u32)
    ensures
        payload_fits(c, level, plain_payload(c, level)),
{
    match c.nbt {
        ContentView::Tree(name, root) => {
            lemma_plainly_encoded(c.compression_scheme, named_bytes(name, root), level);
        },
        ContentView::Opaque(_) => {},
    }
}

/// A chunk as it is read from a file, written with a payload that fits it
/// and that the compressor took, holds its content again when it is read.
pub proof fn lemma_reads_back(c: ChunkView, level: u32, payload: Seq<u8>)
    requires
        writable(c),
        settled(c),
        payload_fits(c, level, payload),
        unpacks(c, payload),
    ensures
        reads_back(c, payload),
{
    match c.nbt {
        ContentView::Tree(name, root) => {
            lemma_encode_then_decode(name, root);
        },
        ContentView::Opaque(_) => {},
    }
}

/// A chunk that is read from a file can be written down again, and is
/// settled.
pub proof fn lemma_chunk_at(buf: Seq<u8>, location: Location, index: usize)
    requires
        chunk_at(buf, location, index) is Some,
    ensures
        writable(chunk_at(buf, location, index).unwrap()),
        settled(chunk_at(buf, location, index).unwrap()),
{
    let c = chunk_at(buf, location, index).unwrap();
    let payload = record_payload(buf, location.offset());
    if c.nbt is Tree {
        let stream = decoded(c.compression_scheme, payload).unwrap();
        lemma_named_read_then_written(stream, 0);
    }
}

/// The tree of a chunk that was read is written down as the bytes that it
/// was read from: the start of what the payload decompressed to, byte for
/// byte.
pub proof fn lemma_tree_bytes_are_those_read(scheme: CompressionScheme, payload: Seq<u8>)
    requires
        content_of(scheme, payload) is Tree,
    ensures
        ({
            let stream = decoded(scheme, payload).unwrap();
            let ((name, root), taken) = named_at(stream, 0).unwrap();
            &&& decoded(scheme, payload) is Some
            &&& content_of(scheme, payload) == ContentView::Tree(name, root)
            &&& 0 < taken <= stream.len()
            &&& named_bytes(name, root) == stream.subrange(0, taken)
        }),
{
    let stream = decoded(scheme, payload).unwrap();
    lemma_decode_then_encode(stream);
    lemma_named_read_then_written(stream, 0);
}

/// What was read as a tree can be written down again.


pub open spec fn writable(c: ChunkView) -> bool {
    match c.nbt {
        ContentView::Tree(name, root) => name.len() <= u16::MAX && well_formed(root),
        ContentView::Opaque(_) => true,
    }
}

/// A chunk whose status is that of a fully generated chunk and in which
/// players have spent time is never deleted.
pub proof fn lemma_full_and_inhabited_is_kept(c: ChunkView, time: i64)
    requires
        field(c, "Status".spec_bytes()) == Some(Node::String("minecraft:full".spec_bytes())),
        field(c, "InhabitedTime".spec_bytes()) == Some(Node::Long(time)),
        time > 0,
    ensures
        !deletable(c),
{
}

/// A chunk that could be decoded and has neither a status nor an inhabited
/// time is always deleted.
pub proof fn lemma_without_both_fields_is_deleted(c: ChunkView)
    requires
        c.nbt is Tree,
        field(c, "Status".spec_bytes()) is None,
        field(c, "InhabitedTime".spec_bytes()) is None,
    ensures
        deletable(c),
{
}

/// A chunk that could not be decoded is never deleted.
pub proof fn lemma_opaque_is_kept(c: ChunkView)
    requires
        c.nbt is Opaque,
    ensures
        !deletable(c),
        position(c) is None,
{
}

/// Whether the element `t` of a palette names the block `wanted`.
fn names_block_exec(t: &Tag, wanted: &[u8]) -> (r: bool)
    ensures
        r == names_block(t@, wanted@),
{
    match t.find_tag("Name") {
        Some(found) => match found.get_string() {
            Some(s) => bytes_eq(s.as_slice(), wanted),
            None => false,
        },
        None => false,
    }
}

impl Chunk {
    /// Whether the chunk's tree can be written down: see `writable`.
    pub open spec fn wf(&self) -> bool {
        writable(self@)
    }

    /// Reads the record that `location` names from the bytes of a region
    /// file. A payload that cannot be decompressed or holds no tree is kept
    /// as it is; only where no whole record stands at the location is there
    /// no chunk.
    pub fn from_location(buf: &[u8], location: Location, index: usize) -> (res: Result<
        Self,
        &'static str,
    >)
        ensures
            match res {
                Ok(chunk) => chunk_at(buf@, location, index) == Some(chunk@) && chunk.wf()
                    && settled(chunk@),
                Err(e) => chunk_at(buf@, location, index) is None && e@
                    == "no whole record stands at the location"@,
            },
    {
        let len: u64 = buf.len() as u64;
        let offset: u64 = location.get_offset();
        if offset + 5 > len {
            return Err("no whole record stands at the location");
        }
        let start: usize = offset as usize;
        let chunk_size: u64 = get_u32(buf, start) as u64;
        if chunk_size < 1 || offset + 4 + chunk_size > len {
            return Err("no whole record stands at the location");
        }
        let compression_scheme = match CompressionScheme::from_u8(buf[start + 4]) {
            Ok(scheme) => scheme,
            Err(_) => {
                return Err("no whole record stands at the location");
            },
        };
        let raw = slice_subrange(buf, start + 5, start + 4 + chunk_size as usize);
        let nbt = match compression_scheme.decode(raw) {
            Some(bytes) => match parse_tag(bytes.as_slice()) {
                Some((tree, _)) => {
                    proof {
                        lemma_named_read_then_written(bytes@, 0);
                    }
                    Content::Tree(tree)
                },
                None => Content::Opaque(slice_to_vec(raw)),
            },
            None => Content::Opaque(slice_to_vec(raw)),
        };
        Ok(Chunk { nbt, location, compression_scheme, index })
    }

    /// The record that the chunk is written as: its tree under its own
    /// scheme at the level `compression_level`, or its opaque bytes as they
    /// are. `None` where the payload is too long for a record. The payload
    /// is the chunk's bytes themselves or decodes to them.
    pub fn to_bytes(&self, compression_level: u32) -> (res: Option<Vec<u8>>)
        requires
            self.wf(),
            compression_level <= 9,
        ensures
            exists|payload: Seq<u8>| #[trigger]
                written_as(self@, compression_level, payload, bytes_of(res)),
    {
        let payload = self.payload(compression_level);
        let res = if payload.len() >= u32::MAX as usize {
            None
        } else {
            Some(self.to_bytes_compression_scheme(self.compression_scheme, payload.as_slice()))
        };
        assert(written_as(self@, compression_level, payload@, bytes_of(res)));
        res
    }

    /// The payload that the chunk is written with: its tree's bytes under
    /// its own scheme at the level `compression_level`, or its opaque bytes
    /// as they are.
    pub fn payload(&self, compression_level: u32) -> (payload: Vec<u8>)
        requires
            self.wf(),
            compression_level <= 9,
        ensures
            payload_fits(self@, compression_level, payload@),
            faithful(self@, payload@),
    {
        match &self.nbt {
            Content::Tree(tree) => {
                let decoded_bytes = tree.to_bytes();
                self.compression_scheme.encode(decoded_bytes.as_slice(), compression_level)
            },
            Content::Opaque(raw) => slice_to_vec(raw.as_slice()),
        }
    }

    /// The chunk's coordinates, where its tree holds them.
    pub fn get_position(&self) -> (res: Result<(i32, i32), &'static str>)
        ensures
            match res {
                Ok(p) => position(self@) == Some(p),
                Err(e) => position(self@) is None && e@ == "No position for this chunk"@,
            },
    {
        match &self.nbt {
            Content::Tree(tree) => {
                let x_pos_tag = match tree.find_tag("xPos") {
                    Some(tag) => tag.get_int(),
                    None => None,
                };
                let z_pos_tag = match tree.find_tag("zPos") {
                    Some(tag) => tag.get_int(),
                    None => None,
                };
                match (x_pos_tag, z_pos_tag) {
                    (Some(x), Some(z)) => Ok((*x, *z)),
                    _ => Err("No position for this chunk"),
                }
            },
            Content::Opaque(_) => Err("No position for this chunk"),
        }
    }

    /// Whether the chunk is worthless: it could be decoded, and it is not
    /// fully generated or was never inhabited.
    pub fn should_delete(&self) -> (delete: bool)
        ensures
            delete == deletable(self@),
    {
        match &self.nbt {
            Content::Tree(_) => !self.is_fully_generated() || !self.has_been_inhabited(),
            Content::Opaque(_) => false,
        }
    }

    /// Whether the chunk's `Status` is that of a fully generated chunk.
    pub fn is_fully_generated(&self) -> (full: bool)
        ensures
            full == fully_generated(self@),
    {
        match &self.nbt {
            Content::Tree(tree) => match tree.find_tag("Status") {
                Some(tag) => match tag.get_string() {
                    Some(status) => bytes_eq(status.as_slice(), "minecraft:full".as_bytes()),
                    None => false,
                },
                None => false,
            },
            Content::Opaque(_) => false,
        }
    }

    /// Whether players have spent any time in the chunk.
    pub fn has_been_inhabited(&self) -> (inhabited: bool)
        ensures
            inhabited == (inhabited_time(self@) > 0),
    {
        let inhabited_time: i64 = match &self.nbt {
            Content::Tree(tree) => match tree.find_tag("InhabitedTime") {
                Some(tag) => match tag.get_long() {
                    Some(time) => *time,
                    None => 0,
                },
                None => 0,
            },
            Content::Opaque(_) => 0,
        };
        inhabited_time > 0
    }

    /// How often the chunk's palette names the block `id`; a count beyond
    /// `u32::MAX` comes back as `u32::MAX`.
    pub fn count_block(&self, id: &str) -> (count: u32)
        ensures
            count == if block_count(self@, id.spec_bytes()) <= u32::MAX {
                block_count(self@, id.spec_bytes())
            } else {
                u32::MAX as nat
            },
    {
        let tree = match &self.nbt {
            Content::Tree(tree) => tree,
            Content::Opaque(_) => {
                return 0;
            },
        };
        let states = match tree.find_tag("block_states") {
            Some(states) => states,
            None => {
                return 0;
            },
        };
        let palette = match states.find_tag("palette") {
            Some(Tag::List(_, elems)) => elems,
            _ => {
                return 0;
            },
        };
        let wanted = id.as_bytes();
        let ghost elems = tags_view(palette@);
        proof {
            lemma_tags_view(palette@);
        }
        let mut count: usize = 0;
        let mut i: usize = 0;
        while i < palette.len()
            invariant
                i <= palette.len(),
                wanted@ == id.spec_bytes(),
                elems == tags_view(palette@),
                elems.len() == palette.len(),
                forall|j: int|
                    0 <= j < palette.len() ==> #[trigger] elems[j] == tag_view(palette@[j]),
                count == count_naming(elems.take(i as int), wanted@),
                count <= i,
            decreases palette.len() - i,
        {
            let hit = names_block_exec(&palette[i], wanted);
            assert(elems.take(i + 1).drop_last() =~= elems.take(i as int));
            assert(elems.take(i + 1).last() == elems[i as int]);
            if hit {
                count += 1;
            }
            i += 1;
        }
        assert(elems.take(i as int) =~= elems);
        if count > u32::MAX as usize {
            u32::MAX
        } else {
            count as u32
        }
    }

    /// Puts a payload into a record: the length of scheme byte and payload in
    /// four bytes, the scheme's byte, the payload.
    pub fn to_bytes_compression_scheme(
        &self,
        compression_scheme: CompressionScheme,
        nbt_bytes: &[u8],
    ) -> (result: Vec<u8>)
        requires
            nbt_bytes.len() < u32::MAX,
        ensures
            result@ == framed(compression_scheme, nbt_bytes@),
    {
        let size: u32 = (nbt_bytes.len() + 1) as u32;
        let mut result: Vec<u8> = Vec::new();
        push_u32(&mut result, size);
        result.push(compression_scheme.to_u8());
        result.extend_from_slice(nbt_bytes);
        assert(result@ =~= framed(compression_scheme, nbt_bytes@));
        result
    }
}

} // verus!
