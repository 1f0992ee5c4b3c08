//! The extraction policy: which payload records a decoded chunk yields for
//! the requested entity and block-entity ids.
use vstd::prelude::*;
use crate::text::{ends_with, has_suffix};
use crate::tree::{field, kept, lemma_kept_field, take_element, take_field, Tag};

verus! {

/// Why a chunk could not be searched.
#[derive(Debug, Clone, Copy, PartialEq, Eq)]
pub enum ExtractError {
    /// A node the policy reads does not have the expected shape.
    Malformed,
    /// An entity passed the id filter but has no known record layout.
    UnexpectedEntity,
}

/// `s` is one of `ids`.
pub open spec fn listed(ids: Seq<String>, s: Seq<char>) -> bool {
    exists|k: int| 0 <= k < ids.len() && ids[k]@ == s
}

/// The records of an optional list field: none when absent, every element
/// when it is a list of compounds.
pub open spec fn list_records(t: Option<Tag>) -> Result<Seq<Tag>, ExtractError> {
    match t {
        None => Ok(Seq::empty()),
        Some(Tag::List(v)) => if forall|i: int| 0 <= i < v@.len() ==> v@[i] is Compound {
            Ok(v@)
        } else {
            Err(ExtractError::Malformed)
        },
        Some(_) => Err(ExtractError::Malformed),
    }
}

/// The inventory a shulker box carries one level deeper, under
/// `tag.BlockEntityTag.Items`.
pub open spec fn nested_records(fs: Seq<(String, Tag)>) -> Result<Seq<Tag>, ExtractError> {
    match field(fs, "tag"@) {
        None => Ok(Seq::empty()),
        Some(Tag::Compound(f1)) => match field(f1@, "BlockEntityTag"@) {
            None => Ok(Seq::empty()),
            Some(Tag::Compound(f2)) => list_records(field(f2@, "Items"@)),
            Some(_) => Err(ExtractError::Malformed),
        },
        Some(_) => Err(ExtractError::Malformed),
    }
}

/// The records of one block entity.
pub open spec fn block_entity_records(e: Tag, wanted: Seq<String>) -> Result<
    Seq<Tag>,
    ExtractError,
> {
    match e {
        Tag::Compound(fs) => match field(fs@, "id"@) {
            Some(Tag::Str(id)) => if !listed(wanted, id@) {
                Ok(Seq::empty())
            } else {
                match list_records(field(fs@, "Items"@)) {
                    Err(x) => Err(x),
                    Ok(outer) => if has_suffix(id@, "shulker_box"@) {
                        match nested_records(fs@) {
                            Err(x) => Err(x),
                            Ok(inner) => Ok(outer + inner),
                        }
                    } else {
                        Ok(outer)
                    },
                }
            },
            _ => Err(ExtractError::Malformed),
        },
        _ => Err(ExtractError::Malformed),
    }
}

/// Entity ids whose record is a single `Item` compound.
pub open spec fn single_item_entity(id: Seq<char>) -> bool {
    id == "minecraft:item"@ || id == "minecraft:item_frame"@ || id == "minecraft:glow_item_frame"@
}

/// Entity ids whose records are the elements of an `Items` list.
pub open spec fn container_entity(id: Seq<char>) -> bool {
    id == "minecraft:chest_minecart"@ || id == "minecraft:hopper_minecart"@
}

/// The records of one entity.
pub open spec fn entity_records(e: Tag, wanted: Seq<String>) -> Result<Seq<Tag>, ExtractError> {
    match e {
        Tag::Compound(fs) => match field(fs@, "id"@) {
            Some(Tag::Str(id)) => if !listed(wanted, id@) {
                Ok(Seq::empty())
            } else if single_item_entity(id@) {
                match field(fs@, "Item"@) {
                    None => Ok(Seq::empty()),
                    Some(Tag::Compound(c)) => Ok(seq![Tag::Compound(c)]),
                    Some(_) => Err(ExtractError::Malformed),
                }
            } else if container_entity(id@) {
                list_records(field(fs@, "Items"@))
            } else {
                Err(ExtractError::UnexpectedEntity)
            },
            _ => Err(ExtractError::Malformed),
        },
        _ => Err(ExtractError::Malformed),
    }
}

/// The records of one element of a chunk's entity or block-entity list.
pub open spec fn element_records(e: Tag, entity_chunk: bool, wanted: Seq<String>) -> Result<
    Seq<Tag>,
    ExtractError,
> {
    if entity_chunk {
        entity_records(e, wanted)
    } else {
        block_entity_records(e, wanted)
    }
}

/// The records of a list of elements, in order; the first failing element
/// decides the error.
pub open spec fn elements_records(es: Seq<Tag>, entity_chunk: bool, wanted: Seq<String>) -> Result<
    Seq<Tag>,
    ExtractError,
>
    decreases es.len(),
{
    if es.len() == 0 {
        Ok(Seq::empty())
    } else {
        match elements_records(es.drop_last(), entity_chunk, wanted) {
            Err(x) => Err(x),
            Ok(acc) => match element_records(es.last(), entity_chunk, wanted) {
                Err(x) => Err(x),
                Ok(r) => Ok(acc + r),
            },
        }
    }
}

/// The name of the list that holds a chunk's elements.
pub open spec fn element_list_name(entity_chunk: bool) -> Seq<char> {
    if entity_chunk {
        "Entities"@
    } else {
        "block_entities"@
    }
}

/// The records a chunk yields: from its `Entities` list for an entity
/// chunk, from its `block_entities` list otherwise.
pub open spec fn chunk_records(
    chunk: Tag,
    entity_chunk: bool,
    entities: Seq<String>,
    block_entities: Seq<String>,
) -> Result<Seq<Tag>, ExtractError> {
    let wanted = if entity_chunk {
        entities
    } else {
        block_entities
    };
    match chunk {
        Tag::Compound(fs) => match field(fs@, element_list_name(entity_chunk)) {
            Some(Tag::List(v)) => elements_records(v@, entity_chunk, wanted),
            _ => Err(ExtractError::Malformed),
        },
        _ => Err(ExtractError::Malformed),
    }
}

/// An executable result carries the records, or the error, of a spec result.
pub open spec fn agrees(r: Result<Vec<Tag>, ExtractError>, s: Result<Seq<Tag>, ExtractError>) -> bool {
    match r {
        Ok(v) => s == Ok::<Seq<Tag>, ExtractError>(v@),
        Err(x) => s == Err::<Seq<Tag>, ExtractError>(x),
    }
}

/// The records of an optional list field.
fn take_list_records(t: Option<Tag>) -> (r: Result<Vec<Tag>, ExtractError>)
    ensures
        agrees(r, list_records(t)),
{
    let ghost t0 = t;
    match t {
        None => Ok(Vec::new()),
        Some(Tag::List(v)) => {
            let mut i: usize = 0;
            while i < v.len()
                invariant
                    i <= v@.len(),
                    t0 == Some(Tag::List(v)),
                    t0 == t,
                    forall|k: int| 0 <= k < i ==> v@[k] is Compound,
                decreases v@.len() - i,
            {
                let is_compound = match &v[i] {
                    Tag::Compound(_) => true,
                    _ => false,
                };
                if !is_compound {
                    proof {
                        assert(!(v@[i as int] is Compound));
                        assert(!(forall|k: int| 0 <= k < v@.len() ==> v@[k] is Compound));
                    }
                    return Err(ExtractError::Malformed);
                }
                i = i + 1;
            }
            Ok(v)
        },
        Some(_) => Err(ExtractError::Malformed),
    }
}

/// The records of one block entity, moved out of it.
fn take_block_entity_records(e: Tag, wanted: &Vec<String>) -> (r: Result<Vec<Tag>, ExtractError>)
    ensures
        agrees(r, block_entity_records(e, wanted@)),
{
    proof {
        reveal_strlit("id");
        reveal_strlit("Items");
        reveal_strlit("tag");
        assert("id"@.len() != "Items"@.len() && "id"@.len() != "tag"@.len());
        assert("Items"@.len() != "tag"@.len());
    }
    match e {
        Tag::Compound(fs0) => {
            let mut fs = fs0;
            let ghost a = fs@;
            let id_tag = take_field(&mut fs, "id");
            let id = match id_tag {
                Some(Tag::Str(id)) => id,
                _ => return Err(ExtractError::Malformed),
            };
            if !is_listed(wanted, &id) {
                return Ok(Vec::new());
            }
            let ghost b = fs@;
            let items = take_field(&mut fs, "Items");
            proof {
                lemma_kept_field(a, b, "id"@, "Items"@);
            }
            let mut outer = match take_list_records(items) {
                Ok(v) => v,
                Err(x) => return Err(x),
            };
            if !ends_with(id.as_str(), "shulker_box") {
                return Ok(outer);
            }
            let ghost c = fs@;
            let tag = take_field(&mut fs, "tag");
            proof {
                lemma_kept_field(a, b, "id"@, "tag"@);
                lemma_kept_field(b, c, "Items"@, "tag"@);
            }
            let mut f1 = match tag {
                None => return Ok(outer),
                Some(Tag::Compound(f1)) => f1,
                Some(_) => return Err(ExtractError::Malformed),
            };
            let bet = take_field(&mut f1, "BlockEntityTag");
            let mut f2 = match bet {
                None => return Ok(outer),
                Some(Tag::Compound(f2)) => f2,
                Some(_) => return Err(ExtractError::Malformed),
            };
            let nested = take_field(&mut f2, "Items");
            match take_list_records(nested) {
                Ok(inner) => {
                    let mut inner = inner;
                    outer.append(&mut inner);
                    Ok(outer)
                },
                Err(x) => Err(x),
            }
        },
        _ => Err(ExtractError::Malformed),
    }
}

/// The records of one entity, moved out of it.
fn take_entity_records(e: Tag, wanted: &Vec<String>) -> (r: Result<Vec<Tag>, ExtractError>)
    ensures
        agrees(r, entity_records(e, wanted@)),
{
    proof {
        reveal_strlit("id");
        reveal_strlit("Item");
        reveal_strlit("Items");
        assert("id"@.len() != "Item"@.len() && "id"@.len() != "Items"@.len());
    }
    match e {
        Tag::Compound(fs0) => {
            let mut fs = fs0;
            let ghost a = fs@;
            let id_tag = take_field(&mut fs, "id");
            let id = match id_tag {
                Some(Tag::Str(id)) => id,
                _ => return Err(ExtractError::Malformed),
            };
            if !is_listed(wanted, &id) {
                return Ok(Vec::new());
            }
            let ghost b = fs@;
            if id == String::from_str("minecraft:item") || id == String::from_str(
                "minecraft:item_frame",
            ) || id == String::from_str("minecraft:glow_item_frame") {
                let item = take_field(&mut fs, "Item");
                proof {
                lemma_kept_field(a, b, "id"@, "Item"@);
                }
                match item {
                    None => Ok(Vec::new()),
                    Some(Tag::Compound(c)) => {
                        let mut v: Vec<Tag> = Vec::new();
                        v.push(Tag::Compound(c));
                        proof {
                            assert(v@ =~= seq![Tag::Compound(c)]);
                        }
                        Ok(v)
                    },
                    Some(_) => Err(ExtractError::Malformed),
                }
            } else if id == String::from_str("minecraft:chest_minecart") || id == String::from_str(
                "minecraft:hopper_minecart",
            ) {
                let items = take_field(&mut fs, "Items");
                proof {
                lemma_kept_field(a, b, "id"@, "Items"@);
                }
                take_list_records(items)
            } else {
                Err(ExtractError::UnexpectedEntity)
            }
        },
        _ => Err(ExtractError::Malformed),
    }
}

/// Once a prefix of the elements fails, the whole list fails the same way.
proof fn lemma_prefix_error(es: Seq<Tag>, n: int, entity_chunk: bool, wanted: Seq<String>)
    requires
        0 <= n <= es.len(),
        elements_records(es.subrange(0, n), entity_chunk, wanted) is Err,
    ensures
        elements_records(es, entity_chunk, wanted) == elements_records(
            es.subrange(0, n),
            entity_chunk,
            wanted,
        ),
    decreases es.len(),
{
    if n == es.len() {
        assert(es.subrange(0, n) =~= es);
    } else {
        assert(es.drop_last().subrange(0, n) =~= es.subrange(0, n));
        lemma_prefix_error(es.drop_last(), n, entity_chunk, wanted);
    }
}

/// Extracts the payload records of a decoded chunk: from its `Entities`
/// list when it comes from an entity container, from its `block_entities`
/// list otherwise, keeping the order in which the chunk holds them. The
/// records are moved out of the chunk.
pub fn extract_records(
    chunk: Tag,
    entity_chunk: bool,
    entities: &Vec<String>,
    block_entities: &Vec<String>,
) -> (r: Result<Vec<Tag>, ExtractError>)
    ensures
        agrees(r, chunk_records(chunk, entity_chunk, entities@, block_entities@)),
{
    let ghost c0 = chunk;
    let ghost wanted = if entity_chunk {
        entities@
    } else {
        block_entities@
    };
    match chunk {
        Tag::Compound(fs0) => {
            let mut fs = fs0;
            let name = if entity_chunk {
                "Entities"
            } else {
                "block_entities"
            };
            let list = take_field(&mut fs, name);
            let mut v = match list {
                Some(Tag::List(v)) => v,
                _ => return Err(ExtractError::Malformed),
            };
            let ghost orig = v@;
            proof {
                assert(chunk_records(c0, entity_chunk, entities@, block_entities@) == elements_records(orig, entity_chunk, wanted));
            }
            let mut out: Vec<Tag> = Vec::new();
            let mut i: usize = 0;
            proof {
                assert(orig.subrange(0, 0) =~= Seq::<Tag>::empty());
            }
            while i < v.len()
                invariant
                    v@.len() == orig.len(),
                    i <= orig.len(),
                    forall|k: int| i <= k < orig.len() ==> v@[k] == orig[k],
                    elements_records(orig.subrange(0, i as int), entity_chunk, wanted) == Ok::<
                        Seq<Tag>,
                        ExtractError,
                    >(out@),
                    chunk_records(c0, entity_chunk, entities@, block_entities@) == elements_records(orig, entity_chunk, wanted),
                    c0 == chunk,
                    wanted == if entity_chunk {
                        entities@
                    } else {
                        block_entities@
                    },
                decreases orig.len() - i,
            {
                let e = take_element(&mut v, i);
                let rr = if entity_chunk {
                    take_entity_records(e, entities)
                } else {
                    take_block_entity_records(e, block_entities)
                };
                proof {
                    assert(orig.subrange(0, i + 1).drop_last() =~= orig.subrange(0, i as int));
                    assert(orig.subrange(0, i + 1).last() == e);
                }
                match rr {
                    Ok(rs) => {
                        let mut rs = rs;
                        out.append(&mut rs);
                    },
                    Err(x) => {
                        proof {
                            assert(element_records(e, entity_chunk, wanted) == Err::<Seq<Tag>, ExtractError>(x));
                            assert(elements_records(orig.subrange(0, i + 1), entity_chunk, wanted) == Err::<Seq<Tag>, ExtractError>(x));
                            lemma_prefix_error(orig, i + 1, entity_chunk, wanted);
                            assert(elements_records(orig, entity_chunk, wanted) == Err::<Seq<Tag>, ExtractError>(x));
                        }
                        return Err(x);
                    },
                }
                i = i + 1;
            }
            proof {
                assert(orig.subrange(0, orig.len() as int) =~= orig);
            }
            Ok(out)
        },
        _ => Err(ExtractError::Malformed),
    }
}

/// A wanted block entity whose id ends in `shulker_box` yields the records
/// of its own `Items` list followed by every record of its
/// `tag.BlockEntityTag.Items` list.
pub proof fn lemma_shulker_box_nesting(
    fs: Vec<(String, Tag)>,
    id: String,
    wanted: Seq<String>,
    outer: Seq<Tag>,
    inner: Seq<Tag>,
)
    requires
        field(fs@, "id"@) == Some(Tag::Str(id)),
        listed(wanted, id@),
        has_suffix(id@, "shulker_box"@),
        list_records(field(fs@, "Items"@)) == Ok::<Seq<Tag>, ExtractError>(outer),
        nested_records(fs@) == Ok::<Seq<Tag>, ExtractError>(inner),
    ensures
        block_entity_records(Tag::Compound(fs), wanted) == Ok::<Seq<Tag>, ExtractError>(
            outer + inner,
        ),
{
}

/// Extraction is a function of the chunk and the filters: two runs on the
/// same decoded chunk yield the same records in the same order, or the same
/// error.
pub proof fn lemma_extraction_repeatable(
    chunk: Tag,
    entity_chunk: bool,
    entities: Seq<String>,
    block_entities: Seq<String>,
    first: Result<Vec<Tag>, ExtractError>,
    second: Result<Vec<Tag>, ExtractError>,
)
    requires
        agrees(first, chunk_records(chunk, entity_chunk, entities, block_entities)),
        agrees(second, chunk_records(chunk, entity_chunk, entities, block_entities)),
    ensures
        first is Ok <==> second is Ok,
        first is Ok ==> first->Ok_0@ == second->Ok_0@,
        first is Err ==> first->Err_0 == second->Err_0,
{
}

/// Tells whether `s` is one of `ids`.
pub fn is_listed(ids: &Vec<String>, s: &String) -> (r: bool)
    ensures
        r == listed(ids@, s@),
{
    let mut k: usize = 0;
    while k < ids.len()
        invariant
            k <= ids@.len(),
            forall|j: int| 0 <= j < k ==> ids@[j]@ != s@,
        decreases ids@.len() - k,
    {
        if ids[k] == *s {
            return true;
        }
        k = k + 1;
    }
    false
}

} // verus!
