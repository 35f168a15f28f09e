use vstd::prelude::*;
use quartz_nbt::io::{Flavor, NbtIoError};
use quartz_nbt::{NbtCompound, NbtList, NbtTag};
use crate::palette::index_of;
use crate::schematic::{MCSchematic, SchematicView};

verus! {

#[verifier::external_type_specification]
#[verifier::external_body]
pub struct ExNbtCompound(NbtCompound);

#[verifier::external_type_specification]
#[verifier::external_body]
pub struct ExNbtIoError(NbtIoError);

/// What an NBT tag holds, as a mathematical value.
pub enum NbtValue {
    Int(i32),
    Short(i16),
    ByteArray(Seq<i8>),
    EmptyList,
    Compound(Map<Seq<char>, NbtValue>),
}

/// The named tags that an NBT compound holds.
pub uninterp spec fn compound_entries(c: NbtCompound) -> Map<Seq<char>, NbtValue>;

/// Relies on `NbtCompound::new`: a compound with no tags.
pub assume_specification[ NbtCompound::new ]() -> (r: NbtCompound)
    ensures
        compound_entries(r).dom().is_empty(),
;

/// A tag to be stored in a compound.
pub enum TagValue {
    Int(i32),
    Short(i16),
    ByteArray(Vec<i8>),
    EmptyList,
    Compound(NbtCompound),
}

impl TagValue {
    /// What the tag holds.
    pub open spec fn model(&self) -> NbtValue {
        match self {
            TagValue::Int(v) => NbtValue::Int(*v),
            TagValue::Short(v) => NbtValue::Short(*v),
            TagValue::ByteArray(v) => NbtValue::ByteArray(v@),
            TagValue::EmptyList => NbtValue::EmptyList,
            TagValue::Compound(c) => NbtValue::Compound(compound_entries(*c)),
        }
    }
}

/// Relies on `NbtCompound::insert`: the tag is stored under `name`, replacing
/// any tag of that name. Each variant becomes the `NbtTag` of the same name
/// (`EmptyList` an empty `NbtTag::List`).
#[verifier::external_body]
fn compound_insert(c: &mut NbtCompound, name: &str, value: TagValue)
    ensures
        compound_entries(*final(c)) == compound_entries(*old(c)).insert(name@, value.model()),
{
    let tag = match value {
        TagValue::Int(v) => NbtTag::Int(v),
        TagValue::Short(v) => NbtTag::Short(v),
        TagValue::ByteArray(v) => NbtTag::ByteArray(v),
        TagValue::EmptyList => NbtTag::List(NbtList::new()),
        TagValue::Compound(v) => NbtTag::Compound(v),
    };
    c.insert(name, tag);
}

/// Relies on `quartz_nbt::io::write_nbt` with gzip compression, writing into
/// a byte buffer. The compound's tags are written in the order of its hash
/// map, which differs between processes, so nothing is stated of the bytes.
#[verifier::external_body]
fn write_gzip_nbt(root_name: &str, root: &NbtCompound) -> (r: Result<Vec<u8>, NbtIoError>) {
    let mut out: Vec<u8> = Vec::new();
    match quartz_nbt::io::write_nbt(&mut out, Some(root_name), root, Flavor::GzCompressed) {
        Ok(()) => Ok(out),
        Err(e) => Err(e),
    }
}

/// Relies on the `Display` impl of `NbtIoError`: a description of the error.
#[verifier::external_body]
fn io_error_message(e: &NbtIoError) -> (r: String) {
    e.to_string()
}

/// Why a schematic could not be saved.
#[derive(Debug)]
pub enum SaveError {
    /// The destination could not be opened for writing; holds the cause.
    SinkOpen(String),
    /// An extent of the bounding box does not fit in a signed 16-bit integer.
    DimensionOverflow,
    /// The NBT writer failed; holds its error.
    Encoder(String),
}

/// The palette compound: each identifier named by its index.
pub open spec fn palette_entries(p: Seq<Seq<char>>) -> Map<Seq<char>, NbtValue> {
    Map::new(|id: Seq<char>| p.contains(id), |id: Seq<char>| NbtValue::Int(index_of(p, id) as i32))
}

/// The root compound of the schematic file of `m`, with data version
/// `version`.
pub open spec fn document(m: SchematicView, version: i32) -> Map<Seq<char>, NbtValue> {
    Map::empty().insert("DataVersion"@, NbtValue::Int(version)).insert(
        "Version"@,
        NbtValue::Int(2),
    ).insert("Width"@, NbtValue::Short(m.width() as i16)).insert(
        "Height"@,
        NbtValue::Short(m.height() as i16),
    ).insert("Length"@, NbtValue::Short(m.length() as i16)).insert(
        "PaletteMax"@,
        NbtValue::Int(m.palette.len() as i32),
    ).insert("Palette"@, NbtValue::Compound(palette_entries(m.palette))).insert(
        "BlockData"@,
        NbtValue::ByteArray(m.block_data()),
    ).insert("BlockEntities"@, NbtValue::EmptyList).insert(
        "Metadata"@,
        NbtValue::Compound(Map::empty()),
    )
}

/// Saving twice gives the same block stream: the `BlockData` entry of the
/// document is the block stream of the schematic's state, whatever the data
/// version, and building the document leaves that state as it was.
pub proof fn lemma_block_data_stable(m: SchematicView, v1: i32, v2: i32)
    ensures
        document(m, v1)["BlockData"@] == NbtValue::ByteArray(m.block_data()),
        document(m, v1)["BlockData"@] == document(m, v2)["BlockData"@],
{
    reveal_strlit("BlockData");
    reveal_strlit("BlockEntities");
    reveal_strlit("Metadata");
    assert("BlockData"@.len() == 9);
    assert("BlockEntities"@.len() == 13);
    assert("Metadata"@.len() == 8);
}

impl MCSchematic {
    /// The palette as a compound from identifier to index.
    pub fn generate_palette_tag(&self) -> (r: NbtCompound)
        requires
            self.wf(),
        ensures
            compound_entries(r) == palette_entries(self@.palette),
    {
        let palette = self.palette();
        let ghost p = palette@;
        proof {
            crate::schematic::lemma_air_is_zero(self@);
        }
        let n: usize = palette.len();
        let mut c: NbtCompound = NbtCompound::new();
        let mut i: usize = 0;
        proof {
            assert(compound_entries(c) =~= Map::new(
                |id: Seq<char>| p.take(0).contains(id),
                |id: Seq<char>| NbtValue::Int(index_of(p, id) as i32),
            ));
        }
        while i < n
            invariant
                p == self@.palette,
                palette@ == p,
                crate::palette::palette_wf(p),
                n == p.len(),
                i <= n,
                compound_entries(c) == Map::new(
                    |id: Seq<char>| p.take(i as int).contains(id),
                    |id: Seq<char>| NbtValue::Int(index_of(p, id) as i32),
                ),
            decreases n - i,
        {
            let name: &str = palette.name(i);
            let ghost before = compound_entries(c);
            compound_insert(&mut c, name, TagValue::Int(i as i32));
            proof {
                crate::palette::lemma_index_of_entry(p, i as int);
                let next = Map::new(
                    |id: Seq<char>| p.take(i + 1).contains(id),
                    |id: Seq<char>| NbtValue::Int(index_of(p, id) as i32),
                );
                assert forall|id: Seq<char>| #[trigger]
                    next.contains_key(id) == compound_entries(c).contains_key(id) by {
                    if p.take(i + 1).contains(id) && id != p[i as int] {
                        let j = choose|j: int| 0 <= j < i + 1 && #[trigger] p.take(i + 1)[j] == id;
                        assert(p.take(i as int)[j] == id);
                    }
                    if p.take(i as int).contains(id) {
                        let j = choose|j: int| 0 <= j < i && #[trigger] p.take(i as int)[j] == id;
                        assert(p.take(i + 1)[j] == id);
                    }
                    if id == p[i as int] {
                        assert(p.take(i + 1)[i as int] == id);
                    }
                }
                assert forall|id: Seq<char>| #[trigger] next.contains_key(id) implies next[id]
                    == compound_entries(c)[id] by {
                    if id == p[i as int] {
                        assert(compound_entries(c)[id] == NbtValue::Int(i as i32));
                    } else {
                        assert(compound_entries(c)[id] == before[id]);
                    }
                }
                assert(next.dom() =~= compound_entries(c).dom());
                assert(compound_entries(c) =~= next);
            }
            i += 1;
        }
        proof {
            assert(p.take(n as int) =~= p);
            assert(compound_entries(c) =~= palette_entries(p));
        }
        c
    }

    /// The root compound of the schematic file with data version `version`,
    /// or `DimensionOverflow` when an extent does not fit in a signed 16-bit
    /// integer.
    pub fn to_nbt(&self, version: i32) -> (r: Result<NbtCompound, SaveError>)
        requires
            self.wf(),
        ensures
            r is Ok <==> self@.fits(),
            r matches Ok(c) ==> compound_entries(c) == document(self@, version),
            r matches Err(e) ==> e is DimensionOverflow,
    {
        let (length, height, width) = match self.get_dimensions() {
            Some(d) => d,
            None => {
                return Err(SaveError::DimensionOverflow);
            },
        };
        let palette_tag = self.generate_palette_tag();
        let block_data = self.generate_block_data(length, height, width);
        let size: usize = self.palette().len();
        let mut root: NbtCompound = NbtCompound::new();
        compound_insert(&mut root, "DataVersion", TagValue::Int(version));
        compound_insert(&mut root, "Version", TagValue::Int(2));
        compound_insert(&mut root, "Width", TagValue::Short(width));
        compound_insert(&mut root, "Height", TagValue::Short(height));
        compound_insert(&mut root, "Length", TagValue::Short(length));
        compound_insert(&mut root, "PaletteMax", TagValue::Int(size as i32));
        compound_insert(&mut root, "Palette", TagValue::Compound(palette_tag));
        compound_insert(&mut root, "BlockData", TagValue::ByteArray(block_data));
        compound_insert(&mut root, "BlockEntities", TagValue::EmptyList);
        let metadata: NbtCompound = NbtCompound::new();
        proof {
            assert(compound_entries(metadata) =~= Map::<Seq<char>, NbtValue>::empty());
        }
        compound_insert(&mut root, "Metadata", TagValue::Compound(metadata));
        Ok(root)
    }

    /// The gzip-compressed NBT bytes of the schematic file, with root name
    /// `Schematic` and data version `version`. Fails with
    /// `DimensionOverflow` exactly when an extent does not fit in a signed
    /// 16-bit integer, and otherwise only with `Encoder`, when the NBT writer
    /// fails.
    pub fn to_bytes(&self, version: i32) -> (r: Result<Vec<u8>, SaveError>)
        requires
            self.wf(),
        ensures
            r matches Err(SaveError::DimensionOverflow) <==> !self@.fits(),
            r matches Err(e) ==> e is DimensionOverflow || e is Encoder,
    {
        let root = match self.to_nbt(version) {
            Ok(c) => c,
            Err(e) => {
                return Err(e);
            },
        };
        match write_gzip_nbt("Schematic", &root) {
            Ok(bytes) => Ok(bytes),
            Err(e) => Err(SaveError::Encoder(io_error_message(&e))),
        }
    }
}

} // verus!
