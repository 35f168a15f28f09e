use mcschematic::{MCSchematic, Palette, SaveError, Varint};
use quartz_nbt::io::{read_nbt, Flavor};
use quartz_nbt::{NbtCompound, NbtList};

fn decode_all(bytes: &[i8]) -> Vec<usize> {
    let mut out = Vec::new();
    let mut value: usize = 0;
    let mut shift = 0;
    for b in bytes {
        let byte = *b as u8;
        value |= ((byte & 0x7f) as usize) << shift;
        if byte & 0x80 == 0 {
            out.push(value);
            value = 0;
            shift = 0;
        } else {
            shift += 7;
        }
    }
    out
}

fn block_data(s: &MCSchematic) -> Vec<i8> {
    let (l, h, w) = s.get_dimensions().unwrap();
    s.generate_block_data(l, h, w)
}

fn index_of(s: &MCSchematic, id: &str) -> u32 {
    s.palette().lookup(id).unwrap()
}

#[test]
fn varint_boundaries() {
    assert_eq!(0usize.to_varint(), vec![0x00]);
    assert_eq!(127usize.to_varint(), vec![0x7f]);
    assert_eq!(128usize.to_varint(), vec![0x80u8 as i8, 0x01]);
    assert_eq!(300usize.to_varint(), vec![0xacu8 as i8, 0x02]);
}

#[test]
fn varint_round_trip_and_lengths() {
    for v in [0usize, 1, 127, 128, 255, 16383, 16384, 2097151, 2097152, 268435455, 268435456, 2147483647] {
        let enc = v.to_varint();
        assert_eq!(decode_all(&enc), vec![v]);
        let bits = (usize::BITS - v.leading_zeros()) as usize;
        let expected = if v == 0 { 1 } else { (bits + 6) / 7 };
        assert_eq!(enc.len(), expected);
        for (i, b) in enc.iter().enumerate() {
            assert_eq!(*b < 0, i + 1 < enc.len());
        }
    }
    assert_eq!(2147483647usize.to_varint().len(), 5);
}

#[test]
fn single_block_at_origin() {
    let mut s = MCSchematic::new();
    s.set_block((0, 0, 0), "minecraft:stone");
    assert_eq!(s.get_dimensions(), Some((1, 1, 1)));
    assert_eq!(s.palette().len(), 2);
    assert_eq!(index_of(&s, "minecraft:air"), 0);
    assert_eq!(index_of(&s, "minecraft:stone"), 1);
    assert_eq!(block_data(&s), vec![0x01]);
}

#[test]
fn negative_coordinates() {
    let mut s = MCSchematic::new();
    s.set_block((-1, -1, -1), "minecraft:stone");
    s.set_block((0, 0, 0), "minecraft:dirt");
    assert_eq!(s.lowest_coords(), (-1, -1, -1));
    assert_eq!(s.highest_coords(), (0, 0, 0));
    assert_eq!(s.get_dimensions(), Some((2, 2, 2)));
    assert_eq!(index_of(&s, "minecraft:stone"), 1);
    assert_eq!(index_of(&s, "minecraft:dirt"), 2);
    let data = decode_all(&block_data(&s));
    assert_eq!(data, vec![1, 0, 0, 0, 0, 0, 0, 2]);
}

#[test]
fn palette_reuse() {
    let mut s = MCSchematic::new();
    s.set_block((0, 0, 0), "A");
    s.set_block((1, 0, 0), "B");
    s.set_block((2, 0, 0), "A");
    assert_eq!(s.palette().len(), 3);
    assert_eq!(index_of(&s, "A"), 1);
    assert_eq!(index_of(&s, "B"), 2);
    assert_eq!(s.get_block((2, 0, 0)), Some(1));
    assert_eq!(block_data(&s), vec![1, 2, 1]);
}

#[test]
fn overwrite_keeps_both_in_palette() {
    let mut s = MCSchematic::new();
    s.set_block((0, 0, 0), "A");
    s.set_block((0, 0, 0), "B");
    assert_eq!(s.palette().len(), 3);
    assert_eq!(index_of(&s, "A"), 1);
    assert_eq!(index_of(&s, "B"), 2);
    assert_eq!(decode_all(&block_data(&s)), vec![2]);
}

#[test]
fn overwrite_inside_larger_box() {
    let mut s = MCSchematic::new();
    s.set_block((3, 1, 2), "minecraft:stone");
    s.set_block((5, 4, 3), "minecraft:glass");
    s.set_block((4, 2, 3), "minecraft:dirt");
    s.set_block((4, 2, 3), "minecraft:sand");
    let (l, _h, w) = s.get_dimensions().unwrap();
    let (lx, ly, lz) = s.lowest_coords();
    let pos = (4 - lx) as usize + (3 - lz) as usize * l as usize + (2 - ly) as usize * (w as usize) * (l as usize);
    let data = decode_all(&block_data(&s));
    assert_eq!(data[pos], index_of(&s, "minecraft:sand") as usize);
}

#[test]
fn traversal_order() {
    let mut s = MCSchematic::new();
    let mut names = Vec::new();
    for y in 0..2 {
        for z in 0..2 {
            for x in 0..2 {
                names.push(format!("block_{}_{}_{}", x, y, z));
            }
        }
    }
    // placed in an order unrelated to the stream order
    for (x, y, z) in [(1, 1, 1), (0, 1, 0), (1, 0, 1), (0, 0, 0), (1, 1, 0), (0, 0, 1), (1, 0, 0), (0, 1, 1)] {
        s.set_block((x, y, z), &format!("block_{}_{}_{}", x, y, z));
    }
    let data = decode_all(&block_data(&s));
    let expected: Vec<usize> = names.iter().map(|n| index_of(&s, n) as usize).collect();
    assert_eq!(data, expected);
}

#[test]
fn first_placement_sets_both_corners() {
    let mut s = MCSchematic::new();
    assert_eq!(s.lowest_coords(), (0, 0, 0));
    assert_eq!(s.highest_coords(), (0, 0, 0));
    s.set_block((5, 6, 7), "minecraft:stone");
    assert_eq!(s.lowest_coords(), (5, 6, 7));
    assert_eq!(s.highest_coords(), (5, 6, 7));
    assert_eq!(s.get_dimensions(), Some((1, 1, 1)));
    s.set_block((7, 2, 9), "minecraft:stone");
    assert_eq!(s.lowest_coords(), (5, 2, 7));
    assert_eq!(s.highest_coords(), (7, 6, 9));
    assert_eq!(s.get_dimensions(), Some((3, 5, 3)));
}

#[test]
fn bounds_contain_every_block() {
    let mut s = MCSchematic::new();
    let coords = [(3, -2, 8), (-5, 4, 1), (0, 0, -7), (2, 9, 2)];
    for c in coords {
        s.set_block(c, "minecraft:stone");
    }
    let low = s.lowest_coords();
    let high = s.highest_coords();
    for c in coords {
        assert!(low.0 <= c.0 && c.0 <= high.0);
        assert!(low.1 <= c.1 && c.1 <= high.1);
        assert!(low.2 <= c.2 && c.2 <= high.2);
    }
    assert_eq!(low, (-5, -2, -7));
    assert_eq!(high, (3, 9, 8));
}

#[test]
fn empty_schematic() {
    let s = MCSchematic::new();
    assert_eq!(s.palette().len(), 1);
    assert_eq!(s.palette().name(0), "minecraft:air");
    assert_eq!(s.get_dimensions(), Some((1, 1, 1)));
    assert_eq!(block_data(&s), vec![0]);
    assert_eq!(s.get_block((0, 0, 0)), None);
}

#[test]
fn palette_is_dense_and_air_is_zero() {
    let mut s = MCSchematic::new();
    for (i, id) in ["a", "b", "a", "c", "minecraft:air", "b", "d"].iter().enumerate() {
        s.set_block((i as i32, 0, 0), id);
    }
    let p = s.palette();
    assert_eq!(p.len(), 5);
    let mut seen: Vec<u32> = ["minecraft:air", "a", "b", "c", "d"].iter().map(|id| p.lookup(id).unwrap()).collect();
    seen.sort();
    assert_eq!(seen, vec![0, 1, 2, 3, 4]);
    assert_eq!(p.lookup("minecraft:air"), Some(0));
    assert_eq!(p.lookup("e"), None);
}

#[test]
fn palette_intern() {
    let mut p = Palette::new();
    assert_eq!(p.intern("x"), 1);
    assert_eq!(p.intern("y"), 2);
    assert_eq!(p.intern("x"), 1);
    assert_eq!(p.intern("minecraft:air"), 0);
    assert_eq!(p.len(), 3);
    assert_eq!(p.name(2), "y");
}

#[test]
fn entry_count_matches_volume() {
    let mut s = MCSchematic::new();
    s.set_block((0, 0, 0), "minecraft:stone");
    s.set_block((3, 1, 4), "minecraft:stone");
    let (l, h, w) = s.get_dimensions().unwrap();
    assert_eq!((l, h, w), (4, 2, 5));
    assert_eq!(decode_all(&block_data(&s)).len(), 40);
}

#[test]
fn large_palette_index_uses_two_bytes() {
    let mut s = MCSchematic::new();
    for i in 0..200 {
        s.set_block((i, 0, 0), &format!("block_{}", i));
    }
    let data = block_data(&s);
    let decoded = decode_all(&data);
    assert_eq!(decoded.len(), 200);
    assert_eq!(decoded[150], 151);
    assert_eq!(data.len(), 127 + 2 * 73);
}

#[test]
fn block_data_is_the_same_twice() {
    let mut s = MCSchematic::new();
    s.set_block((1, 2, 3), "minecraft:stone");
    s.set_block((-4, 0, 2), "minecraft:dirt");
    assert_eq!(block_data(&s), block_data(&s));
    let a = s.to_bytes(3465).unwrap();
    let b = s.to_bytes(3465).unwrap();
    let (ra, _) = read_nbt(&mut a.as_slice(), Flavor::GzCompressed).unwrap();
    let (rb, _) = read_nbt(&mut b.as_slice(), Flavor::GzCompressed).unwrap();
    assert_eq!(ra.get::<_, &[i8]>("BlockData").unwrap(), rb.get::<_, &[i8]>("BlockData").unwrap());
}

#[test]
fn dimension_overflow() {
    let mut s = MCSchematic::new();
    s.set_block((0, 0, 0), "minecraft:stone");
    s.set_block((0, 32767, 0), "minecraft:stone");
    assert_eq!(s.get_dimensions(), None);
    assert!(matches!(s.to_nbt(3465), Err(SaveError::DimensionOverflow)));
    assert!(matches!(s.to_bytes(3465), Err(SaveError::DimensionOverflow)));
}

#[test]
fn largest_extent_fits() {
    let mut s = MCSchematic::new();
    s.set_block((-100, 0, 0), "minecraft:stone");
    s.set_block((32666, 0, 0), "minecraft:stone");
    assert_eq!(s.get_dimensions(), Some((32767, 1, 1)));
}

#[test]
fn document_fields() {
    let mut s = MCSchematic::new();
    s.set_block((-1, -1, -1), "minecraft:stone");
    s.set_block((0, 0, 0), "minecraft:dirt");
    let root: NbtCompound = s.to_nbt(2975).unwrap();
    assert_eq!(root.len(), 10);
    assert_eq!(root.get::<_, i32>("DataVersion").unwrap(), 2975);
    assert_eq!(root.get::<_, i32>("Version").unwrap(), 2);
    assert_eq!(root.get::<_, i16>("Width").unwrap(), 2);
    assert_eq!(root.get::<_, i16>("Height").unwrap(), 2);
    assert_eq!(root.get::<_, i16>("Length").unwrap(), 2);
    assert_eq!(root.get::<_, i32>("PaletteMax").unwrap(), 3);
    let palette = root.get::<_, &NbtCompound>("Palette").unwrap();
    assert_eq!(palette.len(), 3);
    assert_eq!(palette.get::<_, i32>("minecraft:air").unwrap(), 0);
    assert_eq!(palette.get::<_, i32>("minecraft:stone").unwrap(), 1);
    assert_eq!(palette.get::<_, i32>("minecraft:dirt").unwrap(), 2);
    assert_eq!(root.get::<_, &[i8]>("BlockData").unwrap(), &[1, 0, 0, 0, 0, 0, 0, 2][..]);
    assert_eq!(root.get::<_, &NbtList>("BlockEntities").unwrap().len(), 0);
    assert_eq!(root.get::<_, &NbtCompound>("Metadata").unwrap().len(), 0);
}

#[test]
fn bytes_read_back() {
    let mut s = MCSchematic::new();
    s.set_block((0, 0, 0), "minecraft:stone");
    let bytes = s.to_bytes(3465).unwrap();
    assert_eq!(&bytes[..2], &[0x1f, 0x8b]);
    let (root, name) = read_nbt(&mut bytes.as_slice(), Flavor::GzCompressed).unwrap();
    assert_eq!(name, "Schematic");
    assert_eq!(root.get::<_, i32>("DataVersion").unwrap(), 3465);
    assert_eq!(root.get::<_, i16>("Width").unwrap(), 1);
    assert_eq!(root.get::<_, i32>("PaletteMax").unwrap(), 2);
    assert_eq!(root.get::<_, &[i8]>("BlockData").unwrap(), &[1][..]);
}
