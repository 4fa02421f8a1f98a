//! The world: a grid of block ids, its generation, its accessors and the
//! frames that carry it to a client.

use vstd::prelude::*;
use crate::gzip::{compress, gzip_encoding};
use crate::nbt::NbtError;
use crate::packets::{
    level_chunk_data, level_data_frame, level_final_frame, level_finalize, level_init,
    ServerPacket, SERVER_LEVEL_INIT,
};
use crate::util::{append_bytes, int_bytes, short_of, write_int};
use vstd::slice::slice_subrange;

verus! {

/// The id of an empty cell.
pub const AIR: u8 = 0x00;

/// The id of the top layer of a flat map.
pub const GRASS: u8 = 0x02;

/// The id of the layers below the top of a flat map.
pub const DIRT: u8 = 0x03;

/// Why a world could not be brought into or out of its stored form.
#[derive(Clone, Copy, Debug, PartialEq, Eq, Structural)]
pub enum WorldError {
    /// The gzip encoder reported an error.
    Compression,
    /// The bytes are no gzip stream.
    Decompression,
    /// The gzip stream holds no document, or the world makes none.
    Store(NbtError),
    /// The document describes no world: a side is below one cell, the
    /// blocks are not one per cell or more than a file can count, or the
    /// spawn cell lies outside.
    Malformed,
}

/// A box of `width` by `height` by `length` cells, each holding a block id,
/// and the cell in which players appear.
#[derive(Debug, PartialEq)]
pub struct World {
    pub width: i16,
    pub height: i16,
    pub length: i16,
    pub blocks: Vec<u8>,
    pub spawn: (i16, i16, i16),
}

/// The mathematical view of a world.
#[verifier::ext_equal]
pub struct WorldView {
    pub width: i16,
    pub height: i16,
    pub length: i16,
    pub blocks: Seq<u8>,
    pub spawn: (i16, i16, i16),
}

impl View for World {
    type V = WorldView;

    open spec fn view(&self) -> WorldView {
        WorldView {
            width: self.width,
            height: self.height,
            length: self.length,
            blocks: self.blocks@,
            spawn: self.spawn,
        }
    }
}

/// The block of a flat map in layer `y` of a world of the given height: the
/// lower half is filled, grass on top of dirt.
pub open spec fn flat_block(height: int, y: int) -> u8 {
    if y < height / 2 - 1 {
        DIRT
    } else if y < height / 2 {
        GRASS
    } else {
        AIR
    }
}

/// The blocks of a flat map, layer by layer.
pub open spec fn flat_map(width: int, height: int, length: int) -> Seq<u8> {
    Seq::new(
        (width * height * length) as nat,
        |i: int| flat_block(height, i / (width * length)),
    )
}

/// A fresh flat map of the given size, with the spawn cell in its middle.
pub open spec fn flat_world(width: i16, height: i16, length: i16) -> WorldView {
    WorldView {
        width,
        height,
        length,
        blocks: flat_map(width as int, height as int, length as int),
        spawn: ((width / 2) as i16, (height / 2) as i16, (length / 2) as i16),
    }
}

/// Whether a world of the given size can be made: each side is at least
/// one cell, and the cells are no more than a signed 32-bit count tells.
pub open spec fn sides_fit(width: i16, height: i16, length: i16) -> bool {
    width >= 1 && height >= 1 && length >= 1 && width * height * length <= i32::MAX
}

/// `v * 32`, held to the range of a signed 16-bit number.
pub open spec fn to_player_units(v: i16) -> i16 {
    if v * 32 > i16::MAX {
        i16::MAX
    } else if v * 32 < i16::MIN {
        i16::MIN
    } else {
        (v * 32) as i16
    }
}

/// How much of a level has been sent once `sent` of `total` bytes are out,
/// in whole percent.
pub open spec fn percent(sent: int, total: int) -> u8 {
    (100 * sent / total) as u8
}

/// The number of bytes in the chunk that starts `sent` bytes into `total`.
pub open spec fn chunk_length(sent: int, total: int) -> int {
    if total - sent >= 1024 {
        1024
    } else {
        total - sent
    }
}

/// The level chunk frames for the bytes of `gz` from `sent` on: one frame
/// for every 1024 bytes and one for what is left, each telling how far the
/// transfer is once it has arrived.
pub open spec fn chunk_frames(gz: Seq<u8>, sent: int) -> Seq<u8>
    decreases gz.len() - sent,
{
    if sent < 0 || sent >= gz.len() {
        Seq::empty()
    } else {
        let count = chunk_length(sent, gz.len() as int);
        level_data_frame(
            count as i16,
            gz.subrange(sent, sent + count),
            percent(sent + count, gz.len() as int),
        ) + chunk_frames(gz, sent + count)
    }
}

/// The frames of a whole level transfer: the opening frame, the chunks of
/// the compressed level, and the closing frame with the size of the world.
pub open spec fn level_stream(gz: Seq<u8>, width: i16, height: i16, length: i16) -> Seq<u8> {
    seq![SERVER_LEVEL_INIT] + chunk_frames(gz, 0) + level_final_frame(width, height, length)
}

/// What a client puts together from level chunk frames: of each frame the
/// first bytes of its data, as many as its length field tells.
pub open spec fn chunk_payloads(frames: Seq<u8>) -> Seq<u8>
    decreases frames.len(),
{
    if frames.len() < 1028 {
        Seq::empty()
    } else {
        frames.subrange(3, 3 + short_of(frames.skip(1))) + chunk_payloads(frames.skip(1028))
    }
}

/// Appends the frames of a level transfer for a level that is already
/// compressed.
pub fn send_level(writer: &mut Vec<u8>, gz: &[u8], width: i16, height: i16, length: i16)
    ensures
        final(writer)@ == old(writer)@ + level_stream(gz@, width, height, length),
{
    level_init(writer, ServerPacket::LevelInit);
    let ghost start = writer@;
    let total_bytes: usize = gz.len();
    let mut current_bytes: usize = 0;
    while current_bytes < total_bytes
        invariant
            current_bytes <= total_bytes,
            total_bytes == gz@.len(),
            writer@ + chunk_frames(gz@, current_bytes as int) == start + chunk_frames(gz@, 0),
        decreases total_bytes - current_bytes,
    {
        let remaining_bytes: usize = total_bytes - current_bytes;
        let count: usize = if remaining_bytes >= 1024 {
            1024
        } else {
            remaining_bytes
        };
        let sent: usize = current_bytes + count;
        proof {
            lemma_percent(sent as int, total_bytes as int);
        }
        let percentage: u8 = (sent as u128 * 100 / total_bytes as u128) as u8;
        let ghost before = writer@;
        let chunk = slice_subrange(gz, current_bytes, sent);
        level_chunk_data(
            writer,
            ServerPacket::LevelData { length: count as i16, data: chunk, percentage },
        );
        assert(writer@ + chunk_frames(gz@, sent as int) =~= before + chunk_frames(
            gz@,
            current_bytes as int,
        ));
        current_bytes = sent;
    }
    assert(writer@ =~= start + chunk_frames(gz@, 0));
    level_finalize(writer, ServerPacket::LevelFinal { width, height, length });
    assert(final(writer)@ =~= old(writer)@ + level_stream(gz@, width, height, length));
}

/// The percentage of a part is a whole number up to 100.
proof fn lemma_percent(sent: int, total: int)
    requires
        0 <= sent <= total,
        total > 0,
    ensures
        0 <= 100 * sent / total <= 100,
{
    vstd::arithmetic::div_mod::lemma_fundamental_div_mod(100 * sent, total);
    let q = 100 * sent / total;
    assert(0 <= q <= 100) by (nonlinear_arith)
        requires
            0 <= sent <= total,
            total > 0,
            100 * sent == total * q + (100 * sent) % total,
            0 <= (100 * sent) % total < total,
    ;
}

/// The chunk frames for `gz` from `sent` on carry exactly the bytes of `gz`
/// from `sent` on, in order, and every frame is 1028 bytes long.
pub proof fn lemma_chunks_from(gz: Seq<u8>, sent: int)
    requires
        0 <= sent <= gz.len(),
    ensures
        chunk_payloads(chunk_frames(gz, sent)) == gz.skip(sent),
        chunk_frames(gz, sent).len() % 1028 == 0,
        chunk_frames(gz, sent).len() == 1028 * ((gz.len() - sent + 1023) / 1024),
    decreases gz.len() - sent,
{
    if sent >= gz.len() {
        assert(gz.skip(sent) =~= Seq::<u8>::empty());
    } else {
        let count = chunk_length(sent, gz.len() as int);
        let data = gz.subrange(sent, sent + count);
        let frame = level_data_frame(
            count as i16,
            data,
            percent(sent + count, gz.len() as int),
        );
        let rest = chunk_frames(gz, sent + count);
        let frames = chunk_frames(gz, sent);
        lemma_chunks_from(gz, sent + count);
        assert(frame.len() == 1028);
        assert(frames.skip(1028) =~= rest);
        crate::util::lemma_short_roundtrip(
            count as i16,
            frames.skip(3),
            seq![0u8, 0u8],
        );
        assert(frames.skip(1) =~= crate::util::short_bytes(count as i16) + frames.skip(3));
        assert(short_of(frames.skip(1)) == count);
        assert(frames.subrange(3, 3 + count) =~= data);
        assert(data + gz.skip(sent + count) =~= gz.skip(sent));
    }
}

/// The data of the chunk frames of a level, each cut to its length and put
/// together in order, are the compressed level; the frames are 1028 bytes
/// each, also the last one.
pub proof fn lemma_chunks_reassemble(gz: Seq<u8>)
    ensures
        chunk_payloads(chunk_frames(gz, 0)) == gz,
        chunk_frames(gz, 0).len() == 1028 * ((gz.len() + 1023) / 1024),
{
    lemma_chunks_from(gz, 0);
    assert(gz.skip(0) =~= gz);
}

impl WorldView {
    /// The number of cells.
    pub open spec fn volume(self) -> int {
        self.width * self.height * self.length
    }

    /// The place of the cell `(x, y, z)` in `blocks`.
    pub open spec fn index(self, x: int, y: int, z: int) -> int {
        x + self.width * (z + self.length * y)
    }

    /// Whether the place of `(x, y, z)` lies within `blocks`.
    pub open spec fn in_range(self, x: int, y: int, z: int) -> bool {
        0 <= self.index(x, y, z) < self.blocks.len()
    }

    /// What holds of every world that the library hands out: each side is at
    /// least one cell, there is one block per cell, their number fits a
    /// signed 32-bit count, and the spawn cell lies inside.
    pub open spec fn wf(self) -> bool {
        &&& self.width >= 1
        &&& self.height >= 1
        &&& self.length >= 1
        &&& self.volume() <= i32::MAX
        &&& self.blocks.len() == self.volume()
        &&& 0 <= self.spawn.0 < self.width
        &&& 0 <= self.spawn.1 < self.height
        &&& 0 <= self.spawn.2 < self.length
    }

    /// What a client is sent in compressed form: the number of cells as a
    /// 32-bit number, then every block.
    pub open spec fn level_payload(self) -> Seq<u8> {
        int_bytes(self.blocks.len() as i32) + self.blocks
    }

    /// The world after `block_id` was put into `(x, y, z)`: unchanged where
    /// the place of the cell lies outside `blocks`.
    pub open spec fn set_block(self, x: i16, y: i16, z: i16, block_id: u8) -> WorldView {
        if self.in_range(x as int, y as int, z as int) {
            WorldView {
                blocks: self.blocks.update(self.index(x as int, y as int, z as int), block_id),
                ..self
            }
        } else {
            self
        }
    }

    /// The block in the cell `(x, y, z)`, or air where its place lies
    /// outside `blocks`.
    pub open spec fn get_block(self, x: i16, y: i16, z: i16) -> u8 {
        if self.in_range(x as int, y as int, z as int) {
            self.blocks[self.index(x as int, y as int, z as int)]
        } else {
            AIR
        }
    }

    /// The spawn cell in the units of player positions.
    pub open spec fn spawning_point(self) -> (i16, i16, i16) {
        (
            to_player_units(self.spawn.0),
            to_player_units(self.spawn.1),
            to_player_units(self.spawn.2),
        )
    }

    /// The level in the compressed form in which a client takes it, or
    /// nothing where it cannot be compressed.
    pub open spec fn compressed_level(self) -> Option<Seq<u8>> {
        gzip_encoding(self.level_payload())
    }

    /// The stream of frames that carries the world to a client, or nothing
    /// where the level cannot be compressed.
    pub open spec fn level_stream(self) -> Option<Seq<u8>> {
        match self.compressed_level() {
            Some(gz) => Some(level_stream(gz, self.width, self.height, self.length)),
            None => None,
        }
    }
}

/// A block that was put into a cell is found there; putting a block where
/// no place is changes nothing, and looking there finds air.
pub proof fn lemma_block_accessors(world: WorldView, x: i16, y: i16, z: i16, block_id: u8)
    ensures
        world.in_range(x as int, y as int, z as int) ==> world.set_block(
            x,
            y,
            z,
            block_id,
        ).get_block(x, y, z) == block_id,
        !world.in_range(x as int, y as int, z as int) ==> world.set_block(x, y, z, block_id)
            == world && world.get_block(x, y, z) == AIR,
        world.wf() ==> world.set_block(x, y, z, block_id).wf(),
        world.set_block(x, y, z, block_id).blocks.len() == world.blocks.len(),
{
}

/// In a flat map the cell `(x, y, z)` holds the block of its layer.
pub proof fn lemma_flat_map_cell(width: i16, height: i16, length: i16, x: i16, y: i16, z: i16)
    requires
        sides_fit(width, height, length),
        0 <= x < width,
        0 <= y < height,
        0 <= z < length,
    ensures
        flat_world(width, height, length).in_range(x as int, y as int, z as int),
        flat_world(width, height, length).get_block(x, y, z) == flat_block(
            height as int,
            y as int,
        ),
{
    let w = width as int;
    let h = height as int;
    let l = length as int;
    let world = flat_world(width, height, length);
    let k = x + w * z;
    lemma_layers(w, h, l, y as int);
    assert(0 <= k < w * l) by (nonlinear_arith)
        requires
            0 <= x < w,
            0 <= z < l,
            k == x + w * z,
    ;
    assert(world.index(x as int, y as int, z as int) == y * (w * l) + k) by (nonlinear_arith)
        requires
            world.index(x as int, y as int, z as int) == x + w * (z + l * y),
            k == x + w * z,
    ;
    lemma_layer_of(w * l, y as int, k);
}

impl World {
    /// A flat map of the given size, or nothing where no world of that
    /// size can be made.
    pub fn try_new(width: i16, height: i16, length: i16) -> (r: Option<Self>)
        ensures
            match r {
                Some(world) => sides_fit(width, height, length) && world@.wf() && world@
                    == flat_world(width, height, length),
                None => !sides_fit(width, height, length),
            },
    {
        if width < 1 || height < 1 || length < 1 {
            return None;
        }
        assert(0 < width * height <= 0x4000_0000) by (nonlinear_arith)
            requires
                1 <= width <= 0x7fff,
                1 <= height <= 0x7fff,
        ;
        let area: i64 = width as i64 * height as i64;
        assert(0 < area * length <= 0x2000_0000_0000) by (nonlinear_arith)
            requires
                0 < area <= 0x4000_0000,
                1 <= length <= 0x7fff,
        ;
        if area * length as i64 > 0x7fff_ffff {
            return None;
        }
        Some(World::new(width, height, length))
    }

    /// Whether the world is well formed.
    pub fn is_wf(&self) -> (r: bool)
        ensures
            r == self@.wf(),
    {
        if self.width < 1 || self.height < 1 || self.length < 1 {
            return false;
        }
        assert(0 < self.width * self.height <= 0x4000_0000) by (nonlinear_arith)
            requires
                1 <= self.width <= 0x7fff,
                1 <= self.height <= 0x7fff,
        ;
        let area: i64 = self.width as i64 * self.height as i64;
        assert(0 < area * self.length <= 0x2000_0000_0000) by (nonlinear_arith)
            requires
                0 < area <= 0x4000_0000,
                1 <= self.length <= 0x7fff,
        ;
        let volume: i64 = area * self.length as i64;
        volume <= 0x7fff_ffff && self.blocks.len() as u64 == volume as u64 && 0 <= self.spawn.0
            && self.spawn.0 < self.width && 0 <= self.spawn.1 && self.spawn.1 < self.height && 0
            <= self.spawn.2 && self.spawn.2 < self.length
    }

    /// A flat map of the given size, with the spawn cell in its middle.
    pub fn new(width: i16, height: i16, length: i16) -> (r: Self)
        requires
            sides_fit(width, height, length),
        ensures
            r@.wf(),
            r@ == flat_world(width, height, length),
    {
        proof {
            lemma_layers(width as int, height as int, length as int, 0);
        }
        let layer: usize = width as usize * length as usize;
        assert(layer * height == width * height * length) by (nonlinear_arith)
            requires
                layer == width * length,
        ;
        let count: usize = layer * height as usize;
        let mut blocks: Vec<u8> = Vec::new();
        let mut i: usize = 0;
        while i < count
            invariant
                i <= count,
                blocks@.len() == i,
                forall|k: int| 0 <= k < i ==> blocks@[k] == AIR,
            decreases count - i,
        {
            blocks.push(AIR);
            i += 1;
        }
        let mut world = World {
            width,
            height,
            length,
            blocks,
            spawn: (width / 2, height / 2, length / 2),
        };
        world.generate_flat_map();
        world
    }

    /// Fills the lower half of a world of air: grass in the topmost of
    /// those layers, dirt below it.
    fn generate_flat_map(&mut self)
        requires
            old(self).width >= 1,
            old(self).height >= 1,
            old(self).length >= 1,
            old(self)@.volume() <= i32::MAX,
            old(self).blocks@.len() == old(self)@.volume(),
            forall|k: int| 0 <= k < old(self).blocks@.len() ==> old(self).blocks@[k] == AIR,
        ensures
            final(self).width == old(self).width,
            final(self).height == old(self).height,
            final(self).length == old(self).length,
            final(self).spawn == old(self).spawn,
            final(self).blocks@ == flat_map(
                old(self).width as int,
                old(self).height as int,
                old(self).length as int,
            ),
    {
        let ghost w = self.width as int;
        let ghost h = self.height as int;
        let ghost l = self.length as int;
        proof {
            lemma_layers(w, h, l, 0);
        }
        let layer: usize = self.width as usize * self.length as usize;
        let half: i16 = self.height / 2;
        let mut y: i16 = 0;
        let mut base: usize = 0;
        while y < half
            invariant
                0 <= y <= half,
                half == h / 2,
                w >= 1,
                h >= 1,
                l >= 1,
                w * h * l <= i32::MAX,
                layer == w * l,
                base == y * layer,
                self.width == w,
                self.height == h,
                self.length == l,
                self.spawn == old(self).spawn,
                self.blocks@.len() == w * h * l,
                forall|k: int| 0 <= k < base ==> self.blocks@[k] == flat_block(h, k / (w * l)),
                forall|k: int| base <= k < self.blocks@.len() ==> self.blocks@[k] == AIR,
            decreases half - y,
        {
            let id: u8 = if y < half - 1 {
                DIRT
            } else {
                GRASS
            };
            proof {
                lemma_layers(w, h, l, y as int);
            }
            let mut k: usize = 0;
            while k < layer
                invariant
                    0 <= y < half,
                    half == h / 2,
                    k <= layer,
                    layer == w * l,
                    base == y * layer,
                    base + layer <= w * h * l,
                    w * h * l <= i32::MAX,
                    id == flat_block(h, y as int),
                    self.width == w,
                    self.height == h,
                    self.length == l,
                    self.spawn == old(self).spawn,
                    self.blocks@.len() == w * h * l,
                    forall|j: int|
                        0 <= j < base + k ==> self.blocks@[j] == flat_block(h, j / (w * l)),
                    forall|j: int| base + k <= j < self.blocks@.len() ==> self.blocks@[j] == AIR,
                decreases layer - k,
            {
                proof {
                    lemma_layer_of(w * l, y as int, k as int);
                }
                self.blocks.set(base + k, id);
                k += 1;
            }
            base += layer;
            y += 1;
            assert(base == y * layer) by (nonlinear_arith)
                requires
                    base == (y - 1) * layer + layer,
            ;
        }
        assert forall|k: int| 0 <= k < self.blocks@.len() implies self.blocks@[k] == flat_block(
            h,
            k / (w * l),
        ) by {
            if k >= base {
                lemma_layer_from(w * l, half as int, k);
            }
        }
        assert(self.blocks@ =~= flat_map(w, h, l));
    }

    /// The place of the cell `(x, y, z)` in `blocks`, if it lies within.
    fn coord_to_block_idx(&self, x: i16, y: i16, z: i16) -> (r: Option<usize>)
        ensures
            match r {
                Some(i) => i == self@.index(x as int, y as int, z as int) && self@.in_range(
                    x as int,
                    y as int,
                    z as int,
                ),
                None => !self@.in_range(x as int, y as int, z as int),
            },
    {
        assert(-0x4000_0000 <= self.length * y <= 0x4000_0000) by (nonlinear_arith)
            requires
                -0x8000 <= self.length <= 0x7fff,
                -0x8000 <= y <= 0x7fff,
        ;
        let row: i64 = z as i64 + self.length as i64 * y as i64;
        assert(-0x4000_0000_0000 <= self.width * row <= 0x4000_0000_0000) by (nonlinear_arith)
            requires
                -0x8000 <= self.width <= 0x7fff,
                -0x4000_8000 <= row <= 0x4000_8000,
        ;
        let idx: i64 = x as i64 + self.width as i64 * row;
        if idx >= 0 && (idx as u64) < self.blocks.len() as u64 {
            Some(idx as usize)
        } else {
            None
        }
    }

    /// Puts `block_id` into the cell `(x, y, z)`. Where the place of the
    /// cell lies outside `blocks`, nothing changes.
    pub fn set_block(&mut self, x: i16, y: i16, z: i16, block_id: u8)
        ensures
            final(self)@ == old(self)@.set_block(x, y, z, block_id),
    {
        match self.coord_to_block_idx(x, y, z) {
            Some(i) => {
                self.blocks.set(i, block_id);
            },
            None => {},
        }
    }

    /// The block in the cell `(x, y, z)`, or air where the place of the cell
    /// lies outside `blocks`.
    pub fn get_block(&self, x: i16, y: i16, z: i16) -> (r: u8)
        ensures
            r == self@.get_block(x, y, z),
    {
        match self.coord_to_block_idx(x, y, z) {
            Some(i) => self.blocks[i],
            None => AIR,
        }
    }

    /// The level in the compressed form in which a client takes it: the
    /// gzip stream of the number of cells and all blocks. It fails exactly
    /// where the level cannot be compressed.
    pub fn gzip_world(&self) -> (r: Result<Vec<u8>, WorldError>)
        requires
            self@.wf(),
        ensures
            match r {
                Ok(gz) => self@.compressed_level() == Some(gz@),
                Err(e) => e == WorldError::Compression && self@.compressed_level() is None,
            },
    {
        let mut payload: Vec<u8> = Vec::new();
        write_int(&mut payload, self.blocks.len() as i32);
        append_bytes(&mut payload, self.blocks.as_slice());
        assert(payload@ =~= self@.level_payload());
        match compress(payload.as_slice()) {
            Some(gz) => Ok(gz),
            None => Err(WorldError::Compression),
        }
    }

    /// Appends the frames that carry the world to a client: the opening
    /// frame, the chunks of the compressed level and the closing frame. It
    /// fails, and appends nothing, exactly where the level cannot be
    /// compressed.
    pub fn send_world(&self, writer: &mut Vec<u8>) -> (r: Result<(), WorldError>)
        requires
            self@.wf(),
        ensures
            match r {
                Ok(()) => self@.level_stream() matches Some(stream) && final(writer)@
                    == old(writer)@ + stream,
                Err(e) => e == WorldError::Compression && self@.level_stream() is None
                    && final(writer)@ == old(writer)@,
            },
    {
        let gblocks = self.gzip_world()?;
        send_level(writer, gblocks.as_slice(), self.width, self.height, self.length);
        Ok(())
    }

    /// The spawn cell in the units of player positions, 32 to a cell, each
    /// coordinate held to the range of a signed 16-bit number.
    pub fn spawning_point(&self) -> (r: (i16, i16, i16))
        ensures
            r == self@.spawning_point(),
    {
        (scale(self.spawn.0), scale(self.spawn.1), scale(self.spawn.2))
    }
}

/// A world of `h` layers of `w * l` cells each: the layers lie one after
/// the other, and layer `y` ends within the blocks.
proof fn lemma_layers(w: int, h: int, l: int, y: int)
    requires
        w >= 1,
        h >= 1,
        l >= 1,
        0 <= y < h,
    ensures
        1 <= w * l <= w * h * l,
        w * h * l == (w * l) * h,
        y * (w * l) + w * l <= w * h * l,
{
    assert(1 <= w * l && w * l <= w * h * l && w * h * l == (w * l) * h && y * (w * l) + w * l
        <= w * h * l) by (nonlinear_arith)
        requires
            w >= 1,
            h >= 1,
            l >= 1,
            0 <= y < h,
    ;
}

/// The cell at place `y * layer + k` lies in layer `y`.
proof fn lemma_layer_of(layer: int, y: int, k: int)
    requires
        0 <= k < layer,
        0 <= y,
    ensures
        (y * layer + k) / layer == y,
{
    vstd::arithmetic::div_mod::lemma_fundamental_div_mod_converse(y * layer + k, layer, y, k);
}

/// A cell at or behind the start of layer `y` lies in layer `y` or above.
proof fn lemma_layer_from(layer: int, y: int, k: int)
    requires
        layer >= 1,
        0 <= y,
        y * layer <= k,
    ensures
        k / layer >= y,
{
    vstd::arithmetic::div_mod::lemma_fundamental_div_mod(k, layer);
    assert(k / layer >= y) by (nonlinear_arith)
        requires
            layer >= 1,
            y * layer <= k,
            k == layer * (k / layer) + k % layer,
            0 <= k % layer < layer,
    ;
}

/// A cell coordinate in the units of player positions.
fn scale(v: i16) -> (r: i16)
    ensures
        r == to_player_units(v),
{
    let wide: i32 = v as i32 * 32;
    if wide > 0x7fff {
        0x7fff
    } else if wide < -0x8000 {
        -0x8000
    } else {
        wide as i16
    }
}

} // verus!
