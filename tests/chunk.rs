use quartz_nbt::io::{write_nbt, Flavor};
use quartz_nbt::{NbtCompound, NbtList, NbtTag};
use world_statistics::chunk::{codec_of, read_chunk, ChunkError, Codec};
use world_statistics::extract::extract_records;
use world_statistics::tree::Tag;

fn to_tag(t: NbtTag) -> Tag {
    match t {
        NbtTag::Byte(v) => Tag::Byte(v),
        NbtTag::Short(v) => Tag::Short(v),
        NbtTag::Int(v) => Tag::Int(v),
        NbtTag::Long(v) => Tag::Long(v),
        NbtTag::Float(v) => Tag::FloatBits(v.to_bits()),
        NbtTag::Double(v) => Tag::DoubleBits(v.to_bits()),
        NbtTag::ByteArray(v) => Tag::ByteArray(v),
        NbtTag::String(v) => Tag::Str(v),
        NbtTag::List(l) => Tag::List(l.into_inner().into_iter().map(to_tag).collect()),
        NbtTag::Compound(c) => compound_to_tag(c),
        NbtTag::IntArray(v) => Tag::IntArray(v),
        NbtTag::LongArray(v) => Tag::LongArray(v),
    }
}

fn compound_to_tag(c: NbtCompound) -> Tag {
    Tag::Compound(c.into_inner().into_iter().map(|(k, v)| (k, to_tag(v))).collect())
}

fn sample_chunk() -> NbtCompound {
    let mut items = NbtList::new();
    for (id, n) in [("minecraft:stone", 64i8), ("minecraft:dirt", 2), ("minecraft:oak_log", 7)] {
        let mut it = NbtCompound::new();
        it.insert("id", id);
        it.insert("Count", n);
        items.push(it);
    }
    let mut chest = NbtCompound::new();
    chest.insert("id", "minecraft:chest");
    chest.insert("Items", items);
    let mut list = NbtList::new();
    list.push(chest);
    let mut root = NbtCompound::new();
    root.insert("DataVersion", 3465i32);
    root.insert("block_entities", list);
    root
}

fn framed(codec: u8, flavor: Flavor) -> Vec<u8> {
    let mut out = vec![codec];
    write_nbt(&mut out, Some(""), &sample_chunk(), flavor).unwrap();
    out
}

#[test]
fn codec_bytes() {
    assert_eq!(codec_of(0), Some(Codec::Uncompressed));
    assert_eq!(codec_of(1), Some(Codec::Gzip));
    assert_eq!(codec_of(2), Some(Codec::Zlib));
    assert_eq!(codec_of(3), None);
    assert_eq!(codec_of(255), None);
}

#[test]
fn unknown_codec_is_refused() {
    assert!(matches!(read_chunk(&[7, 10, 0, 0, 0]), Err(ChunkError::InvalidCompressionType(7))));
}

#[test]
fn empty_sub_record_is_refused() {
    assert!(matches!(read_chunk(&[]), Err(ChunkError::Truncated)));
}

#[test]
fn undecompressable_payload_is_refused() {
    assert!(matches!(read_chunk(&[1, 1, 2, 3]), Err(ChunkError::Decompress)));
    assert!(matches!(read_chunk(&[2, 0xff, 0xff]), Err(ChunkError::Decompress)));
}

#[test]
fn negative_length_is_refused_before_decoding() {
    let buf = [0x00, 0x0a, 0x00, 0x00, 0x07, 0x00, 0x00, 0xff, 0xff, 0xff, 0xff];
    assert!(matches!(read_chunk(&buf), Err(ChunkError::Malformed)));
    let list = [0x00, 0x0a, 0x00, 0x00, 0x09, 0x00, 0x00, 0x01, 0x80, 0x00, 0x00, 0x00, 0x00];
    assert!(matches!(read_chunk(&list), Err(ChunkError::Malformed)));
    let long_array = [0x00, 0x0a, 0x00, 0x00, 0x0c, 0x00, 0x00, 0x00, 0x00, 0x00, 0x09, 0x00];
    assert!(matches!(read_chunk(&long_array), Err(ChunkError::Malformed)));
}

#[test]
fn shapeless_payload_is_malformed() {
    assert!(matches!(read_chunk(&[0]), Err(ChunkError::Malformed)));
    assert!(matches!(read_chunk(&[0, 0x08, 0x00, 0x00]), Err(ChunkError::Malformed)));
    assert!(matches!(read_chunk(&[0, 0x0a, 0x00, 0x00, 0x0d, 0x00, 0x00, 0x00]), Err(ChunkError::Malformed)));
}

#[test]
fn empty_compound_decodes() {
    assert_eq!(read_chunk(&[0, 0x0a, 0x00, 0x00, 0x00]).unwrap(), NbtCompound::new());
}

#[test]
fn bad_name_is_a_decoder_error() {
    let buf = [0, 0x0a, 0x00, 0x00, 0x01, 0x00, 0x01, 0xff, 0x05, 0x00];
    assert!(matches!(read_chunk(&buf), Err(ChunkError::NbtIo(_))));
}

#[test]
fn every_codec_round_trips() {
    let wanted = vec!["minecraft:chest".to_string()];
    for (codec, flavor) in [
        (0u8, Flavor::Uncompressed),
        (1, Flavor::GzCompressed),
        (2, Flavor::ZlibCompressed),
    ] {
        let decoded = read_chunk(&framed(codec, flavor)).unwrap();
        assert_eq!(decoded, sample_chunk());
        let records = extract_records(compound_to_tag(decoded), false, &vec![], &wanted).unwrap();
        assert_eq!(records.len(), 3);
    }
}
