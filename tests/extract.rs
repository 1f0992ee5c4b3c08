use world_statistics::extract::{extract_records, ExtractError};
use world_statistics::tree::Tag;

fn text(s: &str) -> Tag {
    Tag::Str(s.to_string())
}

fn compound(fields: Vec<(&str, Tag)>) -> Tag {
    Tag::Compound(fields.into_iter().map(|(k, v)| (k.to_string(), v)).collect())
}

fn item(id: &str, count: i8) -> Tag {
    compound(vec![("id", text(id)), ("Count", Tag::Byte(count))])
}

fn ids(v: &[&str]) -> Vec<String> {
    v.iter().map(|s| s.to_string()).collect()
}

fn shown(v: &[Tag]) -> Vec<String> {
    v.iter().map(|t| format!("{:?}", t)).collect()
}

fn block_chunk(entities: Vec<Tag>) -> Tag {
    compound(vec![("xPos", Tag::Int(0)), ("block_entities", Tag::List(entities))])
}

fn entity_chunk(entities: Vec<Tag>) -> Tag {
    compound(vec![("Entities", Tag::List(entities))])
}

fn sample_block_chunk() -> Tag {
    block_chunk(vec![
        compound(vec![
            ("id", text("minecraft:chest")),
            ("Items", Tag::List(vec![item("minecraft:stone", 64), item("minecraft:dirt", 3)])),
        ]),
        compound(vec![("id", text("minecraft:furnace")), ("Items", Tag::List(vec![item("minecraft:coal", 1)]))]),
        compound(vec![("id", text("minecraft:sign"))]),
        compound(vec![("id", text("minecraft:barrel"))]),
    ])
}

#[test]
fn block_entities_yield_wanted_items_in_order() {
    let wanted = ids(&["minecraft:chest", "minecraft:barrel", "minecraft:sign"]);
    let r = extract_records(sample_block_chunk(), false, &vec![], &wanted).unwrap();
    assert_eq!(shown(&r), shown(&[item("minecraft:stone", 64), item("minecraft:dirt", 3)]));
}

#[test]
fn extraction_twice_gives_the_same_records() {
    let wanted = ids(&["minecraft:chest", "minecraft:furnace"]);
    let first = extract_records(sample_block_chunk(), false, &vec![], &wanted).unwrap();
    let second = extract_records(sample_block_chunk(), false, &vec![], &wanted).unwrap();
    assert_eq!(first.len(), 3);
    assert_eq!(shown(&first), shown(&second));
}

#[test]
fn shulker_box_yields_nested_items() {
    let nested = Tag::List(vec![item("minecraft:a", 1), item("minecraft:b", 2), item("minecraft:c", 3)]);
    let shulker = compound(vec![
        ("id", text("minecraft:shulker_box")),
        ("tag", compound(vec![("BlockEntityTag", compound(vec![("Items", nested)]))])),
    ]);
    let wanted = ids(&["minecraft:shulker_box"]);
    let r = extract_records(block_chunk(vec![shulker]), false, &vec![], &wanted).unwrap();
    assert_eq!(r.len(), 3);
    assert_eq!(shown(&r)[2], format!("{:?}", item("minecraft:c", 3)));
}

#[test]
fn shulker_box_yields_outer_then_nested_items() {
    let shulker = compound(vec![
        ("id", text("minecraft:red_shulker_box")),
        ("Items", Tag::List(vec![item("minecraft:outer", 1)])),
        (
            "tag",
            compound(vec![("BlockEntityTag", compound(vec![("Items", Tag::List(vec![item("minecraft:inner", 1)]))]))]),
        ),
    ]);
    let wanted = ids(&["minecraft:red_shulker_box"]);
    let r = extract_records(block_chunk(vec![shulker]), false, &vec![], &wanted).unwrap();
    assert_eq!(shown(&r), shown(&[item("minecraft:outer", 1), item("minecraft:inner", 1)]));
}

#[test]
fn entities_yield_their_item_shapes() {
    let chunk = entity_chunk(vec![
        compound(vec![("id", text("minecraft:item")), ("Item", item("minecraft:apple", 5))]),
        compound(vec![("id", text("minecraft:item_frame"))]),
        compound(vec![("id", text("minecraft:zombie"))]),
        compound(vec![
            ("id", text("minecraft:hopper_minecart")),
            ("Items", Tag::List(vec![item("minecraft:x", 1), item("minecraft:y", 2)])),
        ]),
    ]);
    let wanted = ids(&["minecraft:item", "minecraft:item_frame", "minecraft:hopper_minecart"]);
    let r = extract_records(chunk, true, &wanted, &vec![]).unwrap();
    assert_eq!(
        shown(&r),
        shown(&[item("minecraft:apple", 5), item("minecraft:x", 1), item("minecraft:y", 2)])
    );
}

#[test]
fn unknown_wanted_entity_is_an_error() {
    let chunk = entity_chunk(vec![compound(vec![("id", text("minecraft:zombie"))])]);
    let r = extract_records(chunk, true, &ids(&["minecraft:zombie"]), &vec![]);
    assert!(matches!(r, Err(ExtractError::UnexpectedEntity)));
}

#[test]
fn malformed_chunks_are_errors() {
    let no_list = compound(vec![("Entities", Tag::Int(1))]);
    assert!(matches!(extract_records(no_list, true, &vec![], &vec![]), Err(ExtractError::Malformed)));
    let missing = entity_chunk(vec![]);
    assert!(matches!(extract_records(missing, false, &vec![], &vec![]), Err(ExtractError::Malformed)));
    let no_id = block_chunk(vec![compound(vec![("Items", Tag::List(vec![]))])]);
    assert!(matches!(extract_records(no_id, false, &vec![], &vec![]), Err(ExtractError::Malformed)));
    let bad_items = block_chunk(vec![compound(vec![
        ("id", text("minecraft:chest")),
        ("Items", Tag::List(vec![Tag::Int(3)])),
    ])]);
    let r = extract_records(bad_items, false, &vec![], &ids(&["minecraft:chest"]));
    assert!(matches!(r, Err(ExtractError::Malformed)));
    assert!(matches!(extract_records(Tag::Int(0), false, &vec![], &vec![]), Err(ExtractError::Malformed)));
}

#[test]
fn empty_lists_yield_nothing() {
    assert!(extract_records(entity_chunk(vec![]), true, &vec![], &vec![]).unwrap().is_empty());
    assert!(extract_records(block_chunk(vec![]), false, &vec![], &vec![]).unwrap().is_empty());
}
