use vstd::prelude::*;
use std::collections::HashMap;
use crate::palette::{air, index_of, interned, palette_wf, Palette, MAX_PALETTE};
use crate::varint::{decode_stream, encode_stream, Varint};

verus! {

/// A block position `(x, y, z)`: `x` runs along the length, `y` along the
/// height and `z` along the width.
pub type Coords = (i32, i32, i32);

/// The largest extent of a schematic along one axis.
pub const MAX_EXTENT: i32 = 0x7fff;

/// The state of a schematic as a mathematical value.
pub struct SchematicView {
    /// The identifier with index `i` is `palette[i]`.
    pub palette: Seq<Seq<char>>,
    /// The palette index of every block that has been placed.
    pub blocks: Map<Coords, nat>,
    /// The lowest corner of the bounding box.
    pub low: Coords,
    /// The highest corner of the bounding box.
    pub high: Coords,
}

/// `a <= b` on each axis.
pub open spec fn below(a: Coords, b: Coords) -> bool {
    a.0 <= b.0 && a.1 <= b.1 && a.2 <= b.2
}

pub open spec fn min_i32(a: i32, b: i32) -> i32 {
    if a <= b {
        a
    } else {
        b
    }
}

pub open spec fn max_i32(a: i32, b: i32) -> i32 {
    if a >= b {
        a
    } else {
        b
    }
}

impl SchematicView {
    /// Whether no block has been placed.
    pub open spec fn is_empty(self) -> bool {
        forall|c: Coords| !self.blocks.contains_key(c)
    }

    /// The palette index at `c`, zero (air) where nothing was placed.
    pub open spec fn index_at(self, c: Coords) -> nat {
        if self.blocks.contains_key(c) {
            self.blocks[c]
        } else {
            0
        }
    }

    /// The bounding box holds every placed block, and each of its faces
    /// touches one; before any placement both corners are the origin.
    pub open spec fn bounds_wf(self) -> bool {
        &&& forall|c: Coords| #[trigger]
            self.blocks.contains_key(c) ==> below(self.low, c) && below(c, self.high)
        &&& if self.is_empty() {
            self.low == (0i32, 0i32, 0i32) && self.high == (0i32, 0i32, 0i32)
        } else {
            &&& exists|c: Coords| #[trigger] self.blocks.contains_key(c) && c.0 == self.low.0
            &&& exists|c: Coords| #[trigger] self.blocks.contains_key(c) && c.1 == self.low.1
            &&& exists|c: Coords| #[trigger] self.blocks.contains_key(c) && c.2 == self.low.2
            &&& exists|c: Coords| #[trigger] self.blocks.contains_key(c) && c.0 == self.high.0
            &&& exists|c: Coords| #[trigger] self.blocks.contains_key(c) && c.1 == self.high.1
            &&& exists|c: Coords| #[trigger] self.blocks.contains_key(c) && c.2 == self.high.2
        }
    }

    /// Every state a schematic can be in.
    pub open spec fn wf(self) -> bool {
        &&& palette_wf(self.palette)
        &&& forall|c: Coords| #[trigger]
            self.blocks.contains_key(c) ==> self.blocks[c] < self.palette.len()
        &&& self.bounds_wf()
    }

    /// The extent along `x`.
    pub open spec fn length(self) -> int {
        self.high.0 - self.low.0 + 1
    }

    /// The extent along `y`.
    pub open spec fn height(self) -> int {
        self.high.1 - self.low.1 + 1
    }

    /// The extent along `z`.
    pub open spec fn width(self) -> int {
        self.high.2 - self.low.2 + 1
    }

    /// Whether every extent fits in a signed 16-bit integer.
    pub open spec fn fits(self) -> bool {
        self.length() <= MAX_EXTENT && self.height() <= MAX_EXTENT && self.width() <= MAX_EXTENT
    }

    /// The number of cells in the bounding box.
    pub open spec fn volume(self) -> int {
        self.length() * self.height() * self.width()
    }

    /// The position of the `i`-th cell of the block stream: `x` varies
    /// fastest, then `z`, then `y`.
    pub open spec fn cell_coord(self, i: int) -> Coords {
        let l = self.length();
        let w = self.width();
        (
            (self.low.0 + i % l) as i32,
            (self.low.1 + (i / l) / w) as i32,
            (self.low.2 + (i / l) % w) as i32,
        )
    }

    /// The palette index of each cell of the bounding box, in stream order.
    pub open spec fn cells(self) -> Seq<nat> {
        Seq::new(self.volume() as nat, |i: int| self.index_at(self.cell_coord(i)))
    }

    /// The block stream: the varints of the cells, in stream order.
    pub open spec fn block_data(self) -> Seq<i8> {
        encode_stream(self.cells())
    }

    /// Whether `id` can be placed: it is in the palette, or the palette has
    /// room for it.
    pub open spec fn can_place(self, id: Seq<char>) -> bool {
        self.palette.contains(id) || self.palette.len() < MAX_PALETTE
    }

    /// The state after placing `id` at `c`.
    pub open spec fn placed(self, c: Coords, id: Seq<char>) -> SchematicView {
        let p = interned(self.palette, id);
        SchematicView {
            palette: p,
            blocks: self.blocks.insert(c, index_of(p, id)),
            low: if self.is_empty() {
                c
            } else {
                (min_i32(self.low.0, c.0), min_i32(self.low.1, c.1), min_i32(self.low.2, c.2))
            },
            high: if self.is_empty() {
                c
            } else {
                (max_i32(self.high.0, c.0), max_i32(self.high.1, c.1), max_i32(self.high.2, c.2))
            },
        }
    }
}

/// The key under which the block at `c` is stored: the three coordinates'
/// 32-bit patterns side by side.
pub open spec fn coord_key(c: Coords) -> u128 {
    (((c.0 as u32) as u128) << 64u128) | (((c.1 as u32) as u128) << 32u128) | ((
    c.2 as u32) as u128)
}

proof fn lemma_coord_key_injective(a: Coords, b: Coords)
    requires
        coord_key(a) == coord_key(b),
    ensures
        a == b,
{
    let (a0, a1, a2) = ((a.0 as u32) as u128, (a.1 as u32) as u128, (a.2 as u32) as u128);
    let (b0, b1, b2) = ((b.0 as u32) as u128, (b.1 as u32) as u128, (b.2 as u32) as u128);
    assert(a0 < 0x1_0000_0000 && a1 < 0x1_0000_0000 && a2 < 0x1_0000_0000);
    assert(b0 < 0x1_0000_0000 && b1 < 0x1_0000_0000 && b2 < 0x1_0000_0000);
    assert(((a0 << 64u128) | (a1 << 32u128) | a2) == ((b0 << 64u128) | (b1 << 32u128) | b2) ==> a0
        == b0 && a1 == b1 && a2 == b2) by (bit_vector)
        requires
            a0 < 0x1_0000_0000,
            a1 < 0x1_0000_0000,
            a2 < 0x1_0000_0000,
            b0 < 0x1_0000_0000,
            b1 < 0x1_0000_0000,
            b2 < 0x1_0000_0000,
    ;
    lemma_u32_cast_injective(a.0, b.0);
    lemma_u32_cast_injective(a.1, b.1);
    lemma_u32_cast_injective(a.2, b.2);
}

proof fn lemma_u32_cast_injective(x: i32, y: i32)
    requires
        x as u32 == y as u32,
    ensures
        x == y,
{
    assert((x as u32) == (y as u32) ==> x == y) by (bit_vector);
}

fn key_of(c: Coords) -> (r: u128)
    ensures
        r == coord_key(c),
{
    (((c.0 as u32) as u128) << 64u128) | (((c.1 as u32) as u128) << 32u128) | ((c.2 as u32) as u128)
}

fn min_of(a: i32, b: i32) -> (r: i32)
    ensures
        r == min_i32(a, b),
{
    if a <= b {
        a
    } else {
        b
    }
}

fn max_of(a: i32, b: i32) -> (r: i32)
    ensures
        r == max_i32(a, b),
{
    if a >= b {
        a
    } else {
        b
    }
}

/// A voxel grid under construction: the palette, the placed blocks and their
/// bounding box.
pub struct MCSchematic {
    palette: Palette,
    blocks: HashMap<u128, u32>,
    has_blocks: bool,
    lowest_coords: Coords,
    highest_coords: Coords,
}

impl View for MCSchematic {
    type V = SchematicView;

    closed spec fn view(&self) -> SchematicView {
        SchematicView {
            palette: self.palette@,
            blocks: Map::new(
                |c: Coords| self.blocks@.contains_key(coord_key(c)),
                |c: Coords| self.blocks@[coord_key(c)] as nat,
            ),
            low: self.lowest_coords,
            high: self.highest_coords,
        }
    }
}

impl MCSchematic {
    /// The view is well formed, and the representation agrees with it.
    pub open spec fn wf(&self) -> bool {
        self@.wf() && self.inv()
    }

    /// The representation agrees with the view.
    pub closed spec fn inv(&self) -> bool {
        &&& self.has_blocks == !self@.is_empty()
        &&& vstd::std_specs::hash::obeys_key_model::<u128>()
        &&& vstd::std_specs::hash::builds_valid_hashers::<std::hash::RandomState>()
    }

    /// An empty schematic: the palette holds air alone, nothing is placed and
    /// both corners of the bounding box are the origin.
    pub fn new() -> (r: MCSchematic)
        ensures
            r.wf(),
            r@.palette == seq![air()],
            r@.is_empty(),
            r@.low == (0i32, 0i32, 0i32),
            r@.high == (0i32, 0i32, 0i32),
    {
        broadcast use vstd::std_specs::hash::group_hash_axioms;

        let r = MCSchematic {
            palette: Palette::new(),
            blocks: HashMap::new(),
            has_blocks: false,
            lowest_coords: (0, 0, 0),
            highest_coords: (0, 0, 0),
        };
        assert(r@.blocks =~= Map::empty());
        r
    }

    /// The palette.
    pub fn palette(&self) -> (r: &Palette)
        ensures
            r@ == self@.palette,
    {
        &self.palette
    }

    /// The lowest corner of the bounding box.
    pub fn lowest_coords(&self) -> (r: Coords)
        ensures
            r == self@.low,
    {
        self.lowest_coords
    }

    /// The highest corner of the bounding box.
    pub fn highest_coords(&self) -> (r: Coords)
        ensures
            r == self@.high,
    {
        self.highest_coords
    }

    /// The extents `(length, height, width)` of the bounding box, or `None`
    /// when one of them does not fit in a signed 16-bit integer.
    pub fn get_dimensions(&self) -> (r: Option<(i16, i16, i16)>)
        requires
            self.wf(),
        ensures
            r is Some <==> self@.fits(),
            r matches Some(d) ==> d.0 == self@.length() && d.1 == self@.height() && d.2
                == self@.width(),
    {
        let low = self.lowest_coords;
        let high = self.highest_coords;
        proof {
            lemma_low_below_high(self@);
        }
        let length: i64 = high.0 as i64 - low.0 as i64 + 1;
        let height: i64 = high.1 as i64 - low.1 as i64 + 1;
        let width: i64 = high.2 as i64 - low.2 as i64 + 1;
        if length > MAX_EXTENT as i64 || height > MAX_EXTENT as i64 || width > MAX_EXTENT as i64 {
            None
        } else {
            Some((length as i16, height as i16, width as i16))
        }
    }

    /// The block stream: for `y` over the height, `z` over the width and `x`
    /// over the length, the varint of the palette index at the lowest corner
    /// plus `(x, y, z)`, zero where nothing was placed.
    pub fn generate_block_data(&self, length: i16, height: i16, width: i16) -> (r: Vec<i8>)
        requires
            self.wf(),
            length == self@.length(),
            height == self@.height(),
            width == self@.width(),
        ensures
            r@ == self@.block_data(),
    {
        let ghost m = self@;
        let ghost cells = m.cells();
        let ghost l = m.length();
        let ghost w = m.width();
        proof {
            lemma_low_below_high(m);
        }
        let low = self.lowest_coords;
        let mut bytes: Vec<i8> = Vec::new();
        let mut y: i16 = 0;
        proof {
            assert(cells.take(0) =~= Seq::<nat>::empty());
            assert(0 * w * l == 0) by (nonlinear_arith);
        }
        while y < height
            invariant
                self.wf(),
                m == self@,
                cells == m.cells(),
                l == m.length(),
                w == m.width(),
                low == m.low,
                length == l,
                height == m.height(),
                width == w,
                1 <= l,
                1 <= w,
                0 <= y <= height,
                bytes@ == encode_stream(cells.take(y * w * l)),
            decreases height - y,
        {
            let mut z: i16 = 0;
            proof {
                assert(y * w * l + 0 * l == y * w * l) by (nonlinear_arith);
            }
            while z < width
                invariant
                    self.wf(),
                    m == self@,
                    cells == m.cells(),
                    l == m.length(),
                    w == m.width(),
                    low == m.low,
                    length == l,
                    height == m.height(),
                    width == w,
                    1 <= l,
                    1 <= w,
                    0 <= y < height,
                    0 <= z <= width,
                    bytes@ == encode_stream(cells.take(y * w * l + z * l)),
                decreases width - z,
            {
                let mut x: i16 = 0;
                while x < length
                    invariant
                        self.wf(),
                        m == self@,
                        cells == m.cells(),
                        l == m.length(),
                        w == m.width(),
                        low == m.low,
                        length == l,
                        height == m.height(),
                        width == w,
                        0 <= y < height,
                        0 <= z < width,
                        0 <= x <= length,
                        bytes@ == encode_stream(cells.take(y * w * l + z * l + x)),
                    decreases length - x,
                {
                    let coords: Coords = (low.0 + x as i32, low.1 + y as i32, low.2 + z as i32);
                    let index: u32 = match self.blocks.get(&key_of(coords)) {
                        Some(i) => *i,
                        None => 0,
                    };
                    let mut encoded: Vec<i8> = (index as usize).to_varint();
                    proof {
                        let k = x + z * l + y * w * l;
                        lemma_cell_position(m, x as int, y as int, z as int);
                        assert(y * w * l + z * l + x == k);
                        assert(cells[k] == index as nat);
                        assert(cells.take(k + 1) =~= cells.take(k).push(cells[k]));
                        crate::varint::lemma_encode_stream_push(cells.take(k), cells[k]);
                    }
                    bytes.append(&mut encoded);
                    x += 1;
                }
                z += 1;
                proof {
                    assert(y * w * l + (z - 1) * l + l == y * w * l + z * l) by (nonlinear_arith);
                }
            }
            y += 1;
            proof {
                assert((y - 1) * w * l + w * l == y * w * l) by (nonlinear_arith);
            }
        }
        proof {
            assert(height * w * l == m.volume()) by (nonlinear_arith)
                requires
                    height == m.height(),
                    w == m.width(),
                    l == m.length(),
            ;
            assert(cells.take(m.volume()) =~= cells);
        }
        bytes
    }

    /// The palette index of the block at `coords`, if one was placed there.
    pub fn get_block(&self, coords: Coords) -> (r: Option<u32>)
        requires
            self.wf(),
        ensures
            r is Some <==> self@.blocks.contains_key(coords),
            r matches Some(i) ==> i == self@.blocks[coords],
    {
        match self.blocks.get(&key_of(coords)) {
            Some(i) => Some(*i),
            None => None,
        }
    }

    /// Places the block `block_data` at `coords`, replacing what was there,
    /// interning the identifier and growing the bounding box.
    pub fn set_block(&mut self, coords: Coords, block_data: &str)
        requires
            old(self).wf(),
            old(self)@.can_place(block_data@),
        ensures
            final(self).wf(),
            final(self)@ == old(self)@.placed(coords, block_data@),
    {
        let ghost before = self@;
        let index: u32 = self.palette.intern(block_data);
        let key: u128 = key_of(coords);
        self.blocks.insert(key, index);
        if !self.has_blocks {
            self.lowest_coords = coords;
            self.highest_coords = coords;
            self.has_blocks = true;
        } else {
            self.lowest_coords = (
                min_of(self.lowest_coords.0, coords.0),
                min_of(self.lowest_coords.1, coords.1),
                min_of(self.lowest_coords.2, coords.2),
            );
            self.highest_coords = (
                max_of(self.highest_coords.0, coords.0),
                max_of(self.highest_coords.1, coords.1),
                max_of(self.highest_coords.2, coords.2),
            );
        }
        proof {
            let after = before.placed(coords, block_data@);
            assert forall|c: Coords| #[trigger]
                self@.blocks.contains_key(c) == after.blocks.contains_key(c) by {
                if c != coords && coord_key(c) == coord_key(coords) {
                    lemma_coord_key_injective(c, coords);
                }
            }
            assert forall|c: Coords| #[trigger] self@.blocks.contains_key(c) implies self@.blocks[c]
                == after.blocks[c] by {
                if c != coords && coord_key(c) == coord_key(coords) {
                    lemma_coord_key_injective(c, coords);
                }
            }
            assert(self@.blocks =~= after.blocks);
            assert(self@ == after);
            lemma_placed_wf(before, coords, block_data@);
        }
    }
}

/// The cell at offset `(x, y, z)` from the lowest corner stands at
/// `x + z * length + y * width * length` in the stream.
pub proof fn lemma_cell_position(m: SchematicView, x: int, y: int, z: int)
    requires
        0 <= x < m.length(),
        0 <= y < m.height(),
        0 <= z < m.width(),
    ensures
        0 <= x + z * m.length() + y * m.width() * m.length() < m.volume(),
        m.cell_coord(x + z * m.length() + y * m.width() * m.length()) == (
            (m.low.0 + x) as i32,
            (m.low.1 + y) as i32,
            (m.low.2 + z) as i32,
        ),
{
    let l = m.length();
    let h = m.height();
    let w = m.width();
    let k = x + z * l + y * w * l;
    assert(k == (y * w + z) * l + x) by (nonlinear_arith)
        requires
            k == x + z * l + y * w * l,
    ;
    assert(0 <= y * w + z) by (nonlinear_arith)
        requires
            0 <= y,
            0 <= z,
            0 < w,
    ;
    vstd::arithmetic::div_mod::lemma_fundamental_div_mod_converse(k, l, y * w + z, x);
    vstd::arithmetic::div_mod::lemma_fundamental_div_mod_converse(y * w + z, w, y, z);
    assert(0 <= k < l * h * w) by (nonlinear_arith)
        requires
            k == (y * w + z) * l + x,
            0 <= x < l,
            0 <= y < h,
            0 <= z < w,
    ;
}

/// In a well-formed schematic the lowest corner is below the highest, so
/// every extent is at least one.
pub proof fn lemma_low_below_high(m: SchematicView)
    requires
        m.wf(),
    ensures
        below(m.low, m.high),
        m.length() >= 1 && m.height() >= 1 && m.width() >= 1,
{
    if !m.is_empty() {
        let c = choose|c: Coords| #[trigger] m.blocks.contains_key(c) && c.0 == m.low.0;
        assert(m.blocks.contains_key(c));
    }
}

/// Placing a block keeps a schematic well formed.
pub proof fn lemma_placed_wf(m: SchematicView, c: Coords, id: Seq<char>)
    requires
        m.wf(),
        m.can_place(id),
    ensures
        m.placed(c, id).wf(),
        !m.placed(c, id).is_empty(),
{
    let n = m.placed(c, id);
    assert(n.blocks.contains_key(c));
    assert(n.palette.len() >= m.palette.len());
    if !m.palette.contains(id) {
        assert(n.palette[n.palette.len() - 1] == id);
    }
    assert(n.palette.contains(id));
    assert forall|k: Coords| #[trigger] n.blocks.contains_key(k) implies n.blocks[k]
        < n.palette.len() by {
        if k != c {
            assert(m.blocks.contains_key(k));
        }
    }
    if m.is_empty() {
        assert forall|k: Coords| #[trigger] n.blocks.contains_key(k) implies k == c by {
            if k != c {
                assert(m.blocks.contains_key(k));
            }
        }
    } else {
        let w0 = choose|k: Coords| #[trigger] m.blocks.contains_key(k) && k.0 == m.low.0;
        let w1 = choose|k: Coords| #[trigger] m.blocks.contains_key(k) && k.1 == m.low.1;
        let w2 = choose|k: Coords| #[trigger] m.blocks.contains_key(k) && k.2 == m.low.2;
        let h0 = choose|k: Coords| #[trigger] m.blocks.contains_key(k) && k.0 == m.high.0;
        let h1 = choose|k: Coords| #[trigger] m.blocks.contains_key(k) && k.1 == m.high.1;
        let h2 = choose|k: Coords| #[trigger] m.blocks.contains_key(k) && k.2 == m.high.2;
        assert(n.blocks.contains_key(w0) && n.blocks.contains_key(w1) && n.blocks.contains_key(w2));
        assert(n.blocks.contains_key(h0) && n.blocks.contains_key(h1) && n.blocks.contains_key(h2));
        assert forall|k: Coords| #[trigger] n.blocks.contains_key(k) implies below(n.low, k) && below(
            k,
            n.high,
        ) by {
            if k != c {
                assert(m.blocks.contains_key(k));
            }
        }
    }
}


/// The indices that a schematic's palette hands out are exactly `0 .. size`.
pub proof fn lemma_palette_dense(m: SchematicView)
    requires
        m.wf(),
    ensures
        Set::new(|i: nat| exists|id: Seq<char>| m.palette.contains(id) && index_of(m.palette, id) == i)
            == Set::new(|i: nat| i < m.palette.len()),
{
    let p = m.palette;
    let held = Set::new(|i: nat| exists|id: Seq<char>| p.contains(id) && index_of(p, id) == i);
    let range = Set::new(|i: nat| i < p.len());
    assert forall|i: nat| held.contains(i) implies range.contains(i) by {
        let id = choose|id: Seq<char>| p.contains(id) && index_of(p, id) == i;
        let j = choose|j: int| 0 <= j < p.len() && p[j] == id;
        crate::palette::lemma_index_of_entry(p, j);
    }
    assert forall|i: nat| range.contains(i) implies held.contains(i) by {
        crate::palette::lemma_index_of_entry(p, i as int);
        assert(p.contains(p[i as int]));
    }
    assert(held =~= range);
}

/// Air is in every schematic's palette, at index zero.
pub proof fn lemma_air_is_zero(m: SchematicView)
    requires
        m.wf(),
    ensures
        m.palette.contains(air()),
        index_of(m.palette, air()) == 0,
{
    crate::palette::lemma_index_of_entry(m.palette, 0);
    assert(m.palette.contains(m.palette[0]));
}

/// Every placed block lies within the bounding box, and on each axis both
/// bounds are attained by a placed block, once one has been placed.
pub proof fn lemma_bounding_box(m: SchematicView)
    requires
        m.wf(),
    ensures
        forall|c: Coords|
            #[trigger] m.blocks.contains_key(c) ==> m.low.0 <= c.0 <= m.high.0 && m.low.1 <= c.1
                <= m.high.1 && m.low.2 <= c.2 <= m.high.2,
        !m.is_empty() ==> (exists|c: Coords| #[trigger] m.blocks.contains_key(c) && c.0 == m.low.0)
            && (exists|c: Coords| #[trigger] m.blocks.contains_key(c) && c.1 == m.low.1) && (exists|
            c: Coords,
        | #[trigger] m.blocks.contains_key(c) && c.2 == m.low.2) && (exists|c: Coords|
            #[trigger] m.blocks.contains_key(c) && c.0 == m.high.0) && (exists|c: Coords|
            #[trigger] m.blocks.contains_key(c) && c.1 == m.high.1) && (exists|c: Coords|
            #[trigger] m.blocks.contains_key(c) && c.2 == m.high.2),
{
}

/// The block stream holds one entry per cell of the bounding box, and each
/// entry decodes to the palette index of its cell.
pub proof fn lemma_block_data_entries(m: SchematicView)
    requires
        m.wf(),
    ensures
        decode_stream(m.block_data()) == m.cells(),
        decode_stream(m.block_data()).len() == m.length() * m.height() * m.width(),
{
    lemma_low_below_high(m);
    crate::varint::lemma_stream_round_trip(m.cells());
    assert(m.volume() >= 0) by (nonlinear_arith)
        requires
            m.length() >= 1,
            m.height() >= 1,
            m.width() >= 1,
    ;
}

/// The entry at stream position `x + z * length + y * width * length`
/// decodes to the palette index at the lowest corner plus `(x, y, z)`, zero
/// where nothing was placed.
pub proof fn lemma_canonical_order(m: SchematicView, x: int, y: int, z: int)
    requires
        m.wf(),
        0 <= x < m.length(),
        0 <= y < m.height(),
        0 <= z < m.width(),
    ensures
        decode_stream(m.block_data())[x + z * m.length() + y * m.width() * m.length()]
            == m.index_at(((m.low.0 + x) as i32, (m.low.1 + y) as i32, (m.low.2 + z) as i32)),
{
    lemma_block_data_entries(m);
    lemma_cell_position(m, x, y, z);
}

/// Where the width equals the length, the entry at stream position
/// `x + z * width + y * width * length` decodes to the palette index at the
/// lowest corner plus `(x, y, z)`.
pub proof fn lemma_canonical_order_square(m: SchematicView, x: int, y: int, z: int)
    requires
        m.wf(),
        m.width() == m.length(),
        0 <= x < m.length(),
        0 <= y < m.height(),
        0 <= z < m.width(),
    ensures
        decode_stream(m.block_data())[x + z * m.width() + y * m.width() * m.length()]
            == m.index_at(((m.low.0 + x) as i32, (m.low.1 + y) as i32, (m.low.2 + z) as i32)),
{
    lemma_canonical_order(m, x, y, z);
}

/// After placing `a` and then `b` at `c`, the cell at `c` holds the index of
/// `b`, and so does its entry of the block stream.
pub proof fn lemma_overwrite(m: SchematicView, c: Coords, a: Seq<char>, b: Seq<char>)
    requires
        m.wf(),
        m.can_place(a),
        m.placed(c, a).can_place(b),
    ensures
        ({
            let n = m.placed(c, a).placed(c, b);
            &&& n.palette.contains(b)
            &&& n.index_at(c) == index_of(n.palette, b)
            &&& decode_stream(n.block_data())[(c.0 - n.low.0) + (c.2 - n.low.2) * n.length() + (
            c.1 - n.low.1) * n.width() * n.length()] == index_of(n.palette, b)
        }),
{
    let m1 = m.placed(c, a);
    lemma_placed_wf(m, c, a);
    lemma_placed_wf(m1, c, b);
    let n = m1.placed(c, b);
    assert(n.blocks.contains_key(c));
    lemma_bounding_box(n);
    lemma_canonical_order(n, c.0 - n.low.0, c.1 - n.low.1, c.2 - n.low.2);
    assert(((n.low.0 + (c.0 - n.low.0)) as i32, (n.low.1 + (c.1 - n.low.1)) as i32, (n.low.2 + (
    c.2 - n.low.2)) as i32) == c);
    if !m1.palette.contains(b) {
        assert(n.palette[n.palette.len() - 1] == b);
    }
}

} // verus!
