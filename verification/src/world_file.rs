//! The world on disk: a gzip stream that holds a document of the tagged
//! binary store, or, in the simple form, the three sides and the blocks.

use vstd::prelude::*;
use crate::gzip::{compress, decompress, gzip_decoding, gzip_encoding};
use crate::nbt::{
    entries_view, entry_place, lemma_compound_view, read_document, NbtError, NbtView,
    Tag, TagView, NBT,
};
use crate::nbt::{entries_canonical, entries_fit, names_distinct};
use crate::nbt_laws::lemma_document_roundtrip;
use crate::packets::{triple_bytes, triple_of};
use crate::util::{
    append_bytes, lemma_bytearray_roundtrip, lemma_short_roundtrip, read_short, sbytes_bits,
    sbytes_of, short_bytes, write_short, Reader,
};
use vstd::utf8::{encode_utf8, is_ascii_chars, is_ascii_chars_encode_utf8};
use crate::world::{World, WorldError, WorldView};
use vstd::slice::{slice_subrange, slice_to_vec};

verus! {

/// The value under `name`, if there is an entry of that name.
pub open spec fn entry_of(entries: Seq<(Seq<char>, TagView)>, name: Seq<char>) -> Option<TagView> {
    let place = entry_place(entries, name, 0);
    if place < entries.len() {
        Some(entries[place].1)
    } else {
        None
    }
}

/// The 16-bit number under `name`, or `default` where there is no such
/// entry or it holds something else.
pub open spec fn short_of_entry(entries: Seq<(Seq<char>, TagView)>, name: Seq<char>, default: i16)
    -> i16 {
    match entry_of(entries, name) {
        Some(TagView::Short(v)) => v,
        _ => default,
    }
}

/// The blocks under `name`, or none where there is no such entry or it
/// holds something else.
pub open spec fn blocks_of_entry(entries: Seq<(Seq<char>, TagView)>, name: Seq<char>) -> Seq<u8> {
    match entry_of(entries, name) {
        Some(TagView::ByteArray(v)) => sbytes_bits(v),
        _ => Seq::empty(),
    }
}

/// The spawn cell under `name`: of a compound its `X`, `Y` and `Z`, each
/// 1 where it is missing.
pub open spec fn spawn_of_entry(entries: Seq<(Seq<char>, TagView)>, name: Seq<char>) -> (
    i16,
    i16,
    i16,
) {
    match entry_of(entries, name) {
        Some(TagView::Compound(v)) => (
            short_of_entry(v, "X"@, 1),
            short_of_entry(v, "Y"@, 1),
            short_of_entry(v, "Z"@, 1),
        ),
        _ => (1i16, 1i16, 1i16),
    }
}

/// What a document tells of a world. Entries that are missing or hold
/// something else leave 1 for a side or a spawn coordinate and no blocks;
/// entries of other names are passed over.
pub open spec fn world_of_document(doc: NbtView) -> WorldView {
    let entries = match doc.tag {
        TagView::Compound(v) => v,
        _ => Seq::empty(),
    };
    WorldView {
        width: short_of_entry(entries, "X"@, 1),
        height: short_of_entry(entries, "Y"@, 1),
        length: short_of_entry(entries, "Z"@, 1),
        blocks: blocks_of_entry(entries, "BlockArray"@),
        spawn: spawn_of_entry(entries, "Spawn"@),
    }
}

/// The world that a document holds, if it describes one.
pub open spec fn world_in_document(doc: NbtView) -> Result<WorldView, WorldError> {
    if world_of_document(doc).wf() {
        Ok(world_of_document(doc))
    } else {
        Err(WorldError::Malformed)
    }
}

/// The world that the bytes of a document hold.
pub open spec fn world_in_bytes(data: Seq<u8>) -> Result<WorldView, WorldError> {
    match read_document(data) {
        Err(e) => Err(WorldError::Store(e)),
        Ok((doc, n)) => world_in_document(doc),
    }
}

/// The world that a file holds.
pub open spec fn world_in_file(file: Seq<u8>) -> Result<WorldView, WorldError> {
    match gzip_decoding(file) {
        None => Err(WorldError::Decompression),
        Some(data) => world_in_bytes(data),
    }
}

/// The entries that tell of a spawn cell.
pub open spec fn spawn_entries(spawn: (i16, i16, i16)) -> Seq<(Seq<char>, TagView)> {
    seq![
        ("X"@, TagView::Short(spawn.0)),
        ("Y"@, TagView::Short(spawn.1)),
        ("Z"@, TagView::Short(spawn.2)),
    ]
}

/// The entries that tell of a world.
pub open spec fn world_entries(world: WorldView) -> Seq<(Seq<char>, TagView)> {
    seq![
        ("FormatVersion"@, TagView::Byte(1)),
        ("X"@, TagView::Short(world.width)),
        ("Y"@, TagView::Short(world.height)),
        ("Z"@, TagView::Short(world.length)),
        ("BlockArray"@, TagView::ByteArray(sbytes_of(world.blocks))),
        ("Spawn"@, TagView::Compound(spawn_entries(world.spawn))),
    ]
}

/// The document in which a world is kept.
pub open spec fn world_document(world: WorldView) -> NbtView {
    NbtView { key: "ClassicWorld"@, tag: TagView::Compound(world_entries(world)) }
}


/// The place of the entry named `name`, if there is one.
fn find(entries: &Vec<(String, Tag)>, name: &str) -> (r: Option<usize>)
    ensures
        match r {
            Some(i) => i < entries@.len() && i == entry_place(entries_view(entries@), name@, 0),
            None => entry_place(entries_view(entries@), name@, 0) >= entries@.len(),
        },
{
    let ghost view = entries_view(entries@);
    let wanted = name.to_owned();
    let n: usize = entries.len();
    let mut i: usize = 0;
    while i < n
        invariant
            i <= n,
            n == entries@.len(),
            wanted@ == name@,
            view == entries_view(entries@),
            entry_place(view, name@, i as int) == entry_place(view, name@, 0),
        decreases n - i,
    {
        if entries[i].0 == wanted {
            assert(view[i as int].0 == name@);
            return Some(i);
        }
        assert(view[i as int].0 != name@);
        i += 1;
    }
    None
}

/// The 16-bit number under `name`, or `default`.
fn short_entry(entries: &Vec<(String, Tag)>, name: &str, default: i16) -> (r: i16)
    ensures
        r == short_of_entry(entries_view(entries@), name@, default),
{
    match find(entries, name) {
        Some(i) => {
            assert(entries_view(entries@)[i as int].1 == entries@[i as int].1@);
            match &entries[i].1 {
                Tag::Short(v) => *v,
                _ => default,
            }
        },
        None => default,
    }
}

/// The blocks under `name`, or none.
fn blocks_entry(entries: &Vec<(String, Tag)>, name: &str) -> (r: Vec<u8>)
    ensures
        r@ == blocks_of_entry(entries_view(entries@), name@),
{
    match find(entries, name) {
        Some(i) => {
            assert(entries_view(entries@)[i as int].1 == entries@[i as int].1@);
            match &entries[i].1 {
                Tag::ByteArray(b) => to_unsigned(b.as_slice()),
                _ => Vec::new(),
            }
        },
        None => Vec::new(),
    }
}

/// The spawn cell under `name`, or `(1, 1, 1)`.
fn spawn_entry(entries: &Vec<(String, Tag)>, name: &str) -> (r: (i16, i16, i16))
    ensures
        r == spawn_of_entry(entries_view(entries@), name@),
{
    match find(entries, name) {
        Some(i) => {
            assert(entries_view(entries@)[i as int].1 == entries@[i as int].1@);
            match &entries[i].1 {
                Tag::Compound(v) => {
                    proof {
                        lemma_compound_view(*v);
                    }
                    (short_entry(v, "X", 1), short_entry(v, "Y", 1), short_entry(v, "Z", 1))
                },
                _ => (1, 1, 1),
            }
        },
        None => (1, 1, 1),
    }
}

/// Signed bytes as the bytes that hold them.
fn to_unsigned(bytes: &[i8]) -> (r: Vec<u8>)
    ensures
        r@ == sbytes_bits(bytes@),
{
    let mut r: Vec<u8> = Vec::new();
    crate::util::write_bytearray(&mut r, bytes);
    assert(r@ =~= sbytes_bits(bytes@));
    r
}

/// Bytes as the signed bytes that they hold.
fn to_signed(bytes: &[u8]) -> (r: Vec<i8>)
    ensures
        r@ == sbytes_of(bytes@),
{
    let n: usize = bytes.len();
    let mut reader = Reader::new(bytes);
    match crate::util::read_bytearray(&mut reader, n) {
        Ok(v) => {
            assert(bytes@.take(n as int) =~= bytes@);
            v
        },
        Err(_) => Vec::new(),
    }
}

impl World {
    /// The world that a document describes. The entries `X`, `Y` and `Z`
    /// give the sides, `BlockArray` the blocks and `Spawn` the spawn cell;
    /// what is missing is 1, or no blocks; other entries are passed over.
    /// A document that describes no well-formed world is refused.
    pub fn from_document(doc: &NBT) -> (r: Result<World, WorldError>)
        ensures
            match r {
                Ok(world) => world_in_document(doc@) == Ok::<WorldView, WorldError>(world@),
                Err(e) => world_in_document(doc@) == Err::<WorldView, WorldError>(e),
            },
    {
        let none: Vec<(String, Tag)> = Vec::new();
        let entries: &Vec<(String, Tag)> = match doc.tag() {
            Tag::Compound(v) => {
                proof {
                    lemma_compound_view(*v);
                }
                v
            },
            _ => {
                assert(entries_view(none@) =~= Seq::<(Seq<char>, TagView)>::empty());
                &none
            },
        };
        let world = World {
            width: short_entry(entries, "X", 1),
            height: short_entry(entries, "Y", 1),
            length: short_entry(entries, "Z", 1),
            blocks: blocks_entry(entries, "BlockArray"),
            spawn: spawn_entry(entries, "Spawn"),
        };
        assert(world@ =~= world_of_document(doc@));
        if world.is_wf() {
            Ok(world)
        } else {
            Err(WorldError::Malformed)
        }
    }

    /// The world that the bytes of a document hold.
    pub fn from_bytes(data: &[u8]) -> (r: Result<World, WorldError>)
        ensures
            match r {
                Ok(world) => world_in_bytes(data@) == Ok::<WorldView, WorldError>(world@),
                Err(e) => world_in_bytes(data@) == Err::<WorldView, WorldError>(e),
            },
    {
        let mut reader = Reader::new(data);
        match NBT::read(&mut reader) {
            Ok(doc) => World::from_document(&doc),
            Err(e) => Err(WorldError::Store(e)),
        }
    }

    /// The world that a file holds: the file is a gzip stream of a
    /// document.
    pub fn load_world(file: &[u8]) -> (r: Result<World, WorldError>)
        ensures
            match r {
                Ok(world) => world@.wf() && world_in_file(file@) == Ok::<WorldView, WorldError>(
                    world@,
                ),
                Err(e) => world_in_file(file@) == Err::<WorldView, WorldError>(e),
            },
    {
        match decompress(file) {
            Some(data) => World::from_bytes(data.as_slice()),
            None => Err(WorldError::Decompression),
        }
    }

    /// The document in which the world is kept.
    pub fn to_document(&self) -> (doc: NBT)
        ensures
            doc@ == world_document(self@),
    {
        let mut sm: Vec<(String, Tag)> = Vec::new();
        sm.push(("X".to_owned(), Tag::Short(self.spawn.0)));
        sm.push(("Y".to_owned(), Tag::Short(self.spawn.1)));
        sm.push(("Z".to_owned(), Tag::Short(self.spawn.2)));
        assert(entries_view(sm@) =~= spawn_entries(self.spawn));
        proof {
            lemma_compound_view(sm);
        }
        let mut m: Vec<(String, Tag)> = Vec::new();
        m.push(("FormatVersion".to_owned(), Tag::Byte(1)));
        m.push(("X".to_owned(), Tag::Short(self.width)));
        m.push(("Y".to_owned(), Tag::Short(self.height)));
        m.push(("Z".to_owned(), Tag::Short(self.length)));
        m.push(("BlockArray".to_owned(), Tag::ByteArray(to_signed(self.blocks.as_slice()))));
        m.push(("Spawn".to_owned(), Tag::Compound(sm)));
        assert(entries_view(m@) =~= world_entries(self@));
        proof {
            lemma_compound_view(m);
        }
        NBT::new("ClassicWorld", Tag::Compound(m))
    }
}


/// The file in which a world is kept: the gzip stream of its document as
/// it is written. There is none where the document cannot be written, for
/// blocks that are more than a file can count, or cannot be compressed.
pub open spec fn world_file(world: WorldView) -> Result<Seq<u8>, WorldError> {
    if !world_document(world).fits() {
        Err(WorldError::Store(NbtError::TooLong))
    } else {
        match gzip_encoding(world_document(world).bytes()) {
            Some(file) => Ok(file),
            None => Err(WorldError::Compression),
        }
    }
}

/// The names of the entries of a world are short and differ from each
/// other.
pub proof fn lemma_names()
    ensures
        encode_utf8("ClassicWorld"@).len() == 12,
        encode_utf8("FormatVersion"@).len() == 13,
        encode_utf8("X"@).len() == 1,
        encode_utf8("Y"@).len() == 1,
        encode_utf8("Z"@).len() == 1,
        encode_utf8("BlockArray"@).len() == 10,
        encode_utf8("Spawn"@).len() == 5,
        "X"@ != "Y"@,
        "X"@ != "Z"@,
        "Y"@ != "Z"@,
        "FormatVersion"@.len() == 13,
        "BlockArray"@.len() == 10,
        "Spawn"@.len() == 5,
        "X"@.len() == 1,
        "Y"@.len() == 1,
        "Z"@.len() == 1,
{
    reveal_strlit("ClassicWorld");
    reveal_strlit("FormatVersion");
    reveal_strlit("X");
    reveal_strlit("Y");
    reveal_strlit("Z");
    reveal_strlit("BlockArray");
    reveal_strlit("Spawn");
    assert(is_ascii_chars("ClassicWorld"@));
    assert(is_ascii_chars("FormatVersion"@));
    assert(is_ascii_chars("X"@));
    assert(is_ascii_chars("Y"@));
    assert(is_ascii_chars("Z"@));
    assert(is_ascii_chars("BlockArray"@));
    assert(is_ascii_chars("Spawn"@));
    is_ascii_chars_encode_utf8("ClassicWorld"@);
    is_ascii_chars_encode_utf8("FormatVersion"@);
    is_ascii_chars_encode_utf8("X"@);
    is_ascii_chars_encode_utf8("Y"@);
    is_ascii_chars_encode_utf8("Z"@);
    is_ascii_chars_encode_utf8("BlockArray"@);
    is_ascii_chars_encode_utf8("Spawn"@);
    assert("X"@[0] != "Y"@[0]);
    assert("X"@[0] != "Z"@[0]);
    assert("Y"@[0] != "Z"@[0]);
}

/// The entries of a spawn cell are canonical, and the cell is found in
/// them.
pub proof fn lemma_spawn_entries(spawn: (i16, i16, i16))
    ensures
        TagView::Compound(spawn_entries(spawn)).canonical(),
        TagView::Compound(spawn_entries(spawn)).fits(),
        short_of_entry(spawn_entries(spawn), "X"@, 1) == spawn.0,
        short_of_entry(spawn_entries(spawn), "Y"@, 1) == spawn.1,
        short_of_entry(spawn_entries(spawn), "Z"@, 1) == spawn.2,
{
    lemma_names();
    let e = spawn_entries(spawn);
    reveal_with_fuel(entries_canonical, 4);
    reveal_with_fuel(entries_fit, 4);
    reveal_with_fuel(entry_place, 4);
    assert(e.len() == 3);
    assert(e[0].0 == "X"@ && e[1].0 == "Y"@ && e[2].0 == "Z"@);
    assert(names_distinct(e));
    assert(entries_canonical(e, 3));
    assert(entries_fit(e, 3));
    assert(entry_place(e, "X"@, 0) == 0);
    assert(entry_place(e, "Y"@, 0) == 1);
    assert(entry_place(e, "Z"@, 0) == 2);
}

/// The document of a world whose blocks a file can count is canonical, and
/// the world is found in it.
pub proof fn lemma_world_entries(world: WorldView)
    requires
        world.blocks.len() <= i32::MAX,
    ensures
        world_document(world).tag.canonical(),
        world_document(world).fits(),
        world_of_document(world_document(world)) == world,
{
    lemma_names();
    lemma_spawn_entries(world.spawn);
    lemma_bytearray_roundtrip(Seq::empty(), world.blocks);
    let e = world_entries(world);
    assert(e.len() == 6);
    assert(e[0].0 == "FormatVersion"@ && e[1].0 == "X"@ && e[2].0 == "Y"@ && e[3].0 == "Z"@
        && e[4].0 == "BlockArray"@ && e[5].0 == "Spawn"@);
    assert(names_distinct(e));
    assert(entries_canonical(e, 6)) by {
        reveal_with_fuel(entries_canonical, 7);
    }
    assert(entries_fit(e, 6)) by {
        reveal_with_fuel(entries_fit, 7);
    }
    assert(entry_place(e, "X"@, 0) == 1 && entry_place(e, "Y"@, 0) == 2 && entry_place(
        e,
        "Z"@,
        0,
    ) == 3 && entry_place(e, "BlockArray"@, 0) == 4 && entry_place(e, "Spawn"@, 0) == 5) by {
        reveal_with_fuel(entry_place, 7);
    }
    assert(world_of_document(world_document(world)) =~= world);
}

/// A world that is written and read again is unchanged: the document of
/// a well-formed world, as it is written, holds that world.
pub proof fn lemma_world_roundtrip(world: WorldView)
    requires
        world.wf(),
    ensures
        world_document(world).fits(),
        world_in_document(world_document(world)) == Ok::<WorldView, WorldError>(world),
        world_in_bytes(world_document(world).bytes()) == Ok::<WorldView, WorldError>(world),
{
    lemma_names();
    lemma_world_entries(world);
    lemma_document_roundtrip(world_document(world), Seq::empty());
    assert(world_document(world).bytes() + Seq::<u8>::empty() =~= world_document(world).bytes());
}

impl World {
    /// The file in which the world is kept: the gzip stream of its
    /// document. A well-formed world is read back from it as it is. It
    /// fails exactly where the document cannot be written, which no
    /// well-formed world brings about, or cannot be compressed.
    pub fn save_world(&self) -> (r: Result<Vec<u8>, WorldError>)
        ensures
            match r {
                Ok(file) => world_file(self@) == Ok::<Seq<u8>, WorldError>(file@),
                Err(e) => world_file(self@) == Err::<Seq<u8>, WorldError>(e),
            },
            r matches Ok(file) ==> (self@.wf() ==> world_in_file(file@) == Ok::<
                WorldView,
                WorldError,
            >(self@)),
            self@.wf() ==> world_document(self@).fits(),
    {
        let doc = self.to_document();
        let mut data: Vec<u8> = Vec::new();
        match doc.write(&mut data) {
            Ok(()) => {},
            Err(e) => {
                proof {
                    if self@.wf() {
                        lemma_world_roundtrip(self@);
                    }
                }
                return Err(WorldError::Store(e));
            },
        }
        assert(data@ =~= world_document(self@).bytes());
        proof {
            if self@.wf() {
                lemma_world_roundtrip(self@);
            }
        }
        match compress(data.as_slice()) {
            Some(file) => Ok(file),
            None => Err(WorldError::Compression),
        }
    }
}


/// The simple form of a world: its three sides as 16-bit numbers, then
/// every block. The spawn cell is not kept.
pub open spec fn simple_bytes(world: WorldView) -> Seq<u8> {
    triple_bytes((world.width, world.height, world.length)) + world.blocks
}

/// The world that the simple form holds, with the spawn cell in its
/// middle, if the bytes describe a world: the three sides, each at least
/// one cell, and one block per cell.
pub open spec fn world_in_simple_bytes(data: Seq<u8>) -> Result<WorldView, WorldError> {
    if data.len() < 6 {
        Err(WorldError::Malformed)
    } else {
        let sides = triple_of(data);
        let world = WorldView {
            width: sides.0,
            height: sides.1,
            length: sides.2,
            blocks: data.skip(6),
            spawn: ((sides.0 / 2) as i16, (sides.1 / 2) as i16, (sides.2 / 2) as i16),
        };
        if world.wf() {
            Ok(world)
        } else {
            Err(WorldError::Malformed)
        }
    }
}

/// The world that a file in the simple form holds.
pub open spec fn world_in_simple_file(file: Seq<u8>) -> Result<WorldView, WorldError> {
    match gzip_decoding(file) {
        None => Err(WorldError::Decompression),
        Some(data) => world_in_simple_bytes(data),
    }
}

/// The simple form of a well-formed world holds that world, but for the
/// spawn cell, which comes back in the middle.
pub proof fn lemma_simple_roundtrip(world: WorldView)
    requires
        world.wf(),
    ensures
        simple_bytes(world).len() == 6 + world.blocks.len(),
        world_in_simple_bytes(simple_bytes(world)) == Ok::<WorldView, WorldError>(
            WorldView {
                spawn: (
                    (world.width / 2) as i16,
                    (world.height / 2) as i16,
                    (world.length / 2) as i16,
                ),
                ..world
            },
        ),
{
    let data = simple_bytes(world);
    let zeros = Seq::new(2, |i: int| 0u8);
    let rest1 = short_bytes(world.height) + short_bytes(world.length) + world.blocks;
    let rest2 = short_bytes(world.length) + world.blocks;
    lemma_short_roundtrip(world.width, rest1, zeros);
    lemma_short_roundtrip(world.height, rest2, zeros);
    lemma_short_roundtrip(world.length, world.blocks, zeros);
    assert(data =~= short_bytes(world.width) + rest1);
    assert(data.skip(2) =~= short_bytes(world.height) + rest2);
    assert(data.skip(4) =~= short_bytes(world.length) + world.blocks);
    assert(data.skip(6) =~= world.blocks);
}

impl World {
    /// The world that the simple form holds, with the spawn cell in its
    /// middle.
    pub fn from_simple_bytes(data: &[u8]) -> (r: Result<World, WorldError>)
        ensures
            match r {
                Ok(world) => world_in_simple_bytes(data@) == Ok::<WorldView, WorldError>(world@),
                Err(e) => world_in_simple_bytes(data@) == Err::<WorldView, WorldError>(e),
            },
    {
        let mut reader = Reader::new(data);
        let width: i16 = match read_short(&mut reader) {
            Ok(v) => v,
            Err(_) => {
                return Err(WorldError::Malformed);
            },
        };
        let height: i16 = match read_short(&mut reader) {
            Ok(v) => v,
            Err(_) => {
                return Err(WorldError::Malformed);
            },
        };
        let length: i16 = match read_short(&mut reader) {
            Ok(v) => v,
            Err(_) => {
                return Err(WorldError::Malformed);
            },
        };
        if width < 1 || height < 1 || length < 1 {
            return Err(WorldError::Malformed);
        }
        let blocks = slice_to_vec(slice_subrange(data, 6, data.len()));
        assert(blocks@ =~= data@.skip(6));
        let world = World {
            width,
            height,
            length,
            blocks,
            spawn: (width / 2, height / 2, length / 2),
        };
        if world.is_wf() {
            Ok(world)
        } else {
            Err(WorldError::Malformed)
        }
    }

    /// The world that a file in the simple form holds: the file is a gzip
    /// stream of the three sides and the blocks.
    pub fn load_simple(file: &[u8]) -> (r: Result<World, WorldError>)
        ensures
            match r {
                Ok(world) => world@.wf() && world_in_simple_file(file@) == Ok::<
                    WorldView,
                    WorldError,
                >(world@),
                Err(e) => world_in_simple_file(file@) == Err::<WorldView, WorldError>(e),
            },
    {
        match decompress(file) {
            Some(data) => World::from_simple_bytes(data.as_slice()),
            None => Err(WorldError::Decompression),
        }
    }

    /// The file that keeps the world in the simple form. A well-formed
    /// world is read back from it as it is, but for the spawn cell, which
    /// comes back in the middle. It fails exactly where the simple form
    /// cannot be compressed.
    pub fn save_simple(&self) -> (r: Result<Vec<u8>, WorldError>)
        ensures
            match r {
                Ok(file) => {
                    &&& gzip_encoding(simple_bytes(self@)) == Some(file@)
                    &&& self@.wf() ==> world_in_simple_file(file@) == Ok::<WorldView, WorldError>(
                        WorldView {
                            spawn: (
                                (self.width / 2) as i16,
                                (self.height / 2) as i16,
                                (self.length / 2) as i16,
                            ),
                            ..self@
                        },
                    )
                },
                Err(e) => e == WorldError::Compression && gzip_encoding(simple_bytes(self@))
                    is None,
            },
    {
        let mut data: Vec<u8> = Vec::new();
        write_short(&mut data, self.width);
        write_short(&mut data, self.height);
        write_short(&mut data, self.length);
        append_bytes(&mut data, self.blocks.as_slice());
        assert(data@ =~= simple_bytes(self@));
        proof {
            if self@.wf() {
                lemma_simple_roundtrip(self@);
            }
        }
        match compress(data.as_slice()) {
            Some(file) => Ok(file),
            None => Err(WorldError::Compression),
        }
    }
}

} // verus!
