//! A generic typed tag tree: named, typed nodes, nested through lists and
//! compounds, as decoded from one sub-record.
use vstd::prelude::*;

verus! {

/// One node of a tag tree. Floating-point payloads are held as their bits.
#[derive(Debug)]
pub enum Tag {
    Byte(i8),
    Short(i16),
    Int(i32),
    Long(i64),
    FloatBits(u32),
    DoubleBits(u64),
    ByteArray(Vec<i8>),
    Str(String),
    List(Vec<Tag>),
    Compound(Vec<(String, Tag)>),
    IntArray(Vec<i32>),
    LongArray(Vec<i64>),
}

/// `j` is the first position in `fs` whose name is `name`.
pub open spec fn is_first(fs: Seq<(String, Tag)>, name: Seq<char>, j: int) -> bool {
    &&& 0 <= j < fs.len()
    &&& fs[j].0@ == name
    &&& forall|k: int| 0 <= k < j ==> fs[k].0@ != name
}

/// The value of the first field of `fs` named `name`, if there is one.
pub open spec fn field(fs: Seq<(String, Tag)>, name: Seq<char>) -> Option<Tag> {
    if exists|j: int| is_first(fs, name, j) {
        Some(fs[choose|j: int| is_first(fs, name, j)].1)
    } else {
        None
    }
}

proof fn lemma_field_at(fs: Seq<(String, Tag)>, name: Seq<char>, j: int)
    requires
        is_first(fs, name, j),
    ensures
        field(fs, name) == Some(fs[j].1),
{
    let c = choose|i: int| is_first(fs, name, i);
    assert(is_first(fs, name, c));
    if c < j {
        assert(fs[c].0@ != name);
    }
    if j < c {
        assert(fs[j].0@ != name);
    }
}

/// Finds the first field of `fs` named `name`.
pub fn find_field(fs: &Vec<(String, Tag)>, name: &str) -> (r: Option<usize>)
    ensures
        r is Some ==> is_first(fs@, name@, r->Some_0 as int) && field(fs@, name@) == Some(
            fs@[r->Some_0 as int].1,
        ),
        r is None ==> field(fs@, name@) is None,
{
    let key = String::from_str(name);
    let mut j: usize = 0;
    while j < fs.len()
        invariant
            key@ == name@,
            j <= fs@.len(),
            forall|k: int| 0 <= k < j ==> fs@[k].0@ != name@,
        decreases fs@.len() - j,
    {
        if fs[j].0 == key {
            proof {
                lemma_field_at(fs@, name@, j as int);
            }
            return Some(j);
        }
        j = j + 1;
    }
    None
}

/// `b` is `a` with the values of the fields named `name` possibly replaced:
/// every name stays, every other field stays whole.
pub open spec fn kept(a: Seq<(String, Tag)>, b: Seq<(String, Tag)>, name: Seq<char>) -> bool {
    &&& a.len() == b.len()
    &&& forall|k: int| 0 <= k < a.len() ==> b[k].0 == a[k].0
    &&& forall|k: int| 0 <= k < a.len() && a[k].0@ != name ==> b[k] == a[k]
}

/// Fields under other names read the same after `name`'s value was taken.
pub proof fn lemma_kept_field(
    a: Seq<(String, Tag)>,
    b: Seq<(String, Tag)>,
    name: Seq<char>,
    other: Seq<char>,
)
    requires
        kept(a, b, name),
        other != name,
    ensures
        field(b, other) == field(a, other),
{
    if exists|j: int| is_first(a, other, j) {
        let j = choose|j: int| is_first(a, other, j);
        assert(is_first(b, other, j));
        lemma_field_at(a, other, j);
        lemma_field_at(b, other, j);
    } else {
        assert forall|j: int| !is_first(b, other, j) by {
            if is_first(b, other, j) {
                assert(is_first(a, other, j));
            }
        }
    }
}

/// Takes the value of the first field named `name` out of `fs`, if there is
/// one, leaving a placeholder value under the same name.
pub fn take_field(fs: &mut Vec<(String, Tag)>, name: &str) -> (r: Option<Tag>)
    ensures
        r == field(old(fs)@, name@),
        kept(old(fs)@, final(fs)@, name@),
{
    match find_field(fs, name) {
        None => None,
        Some(j) => {
            let mut p = (String::new(), Tag::Byte(0));
            std::mem::swap(&mut p, &mut fs[j]);
            let (n, v) = p;
            let mut q = (n, Tag::Byte(0));
            std::mem::swap(&mut q, &mut fs[j]);
            Some(v)
        },
    }
}

/// Takes the element at `j` out of `v`, leaving a placeholder in its place.
pub fn take_element(v: &mut Vec<Tag>, j: usize) -> (r: Tag)
    requires
        j < old(v)@.len(),
    ensures
        r == old(v)@[j as int],
        final(v)@.len() == old(v)@.len(),
        forall|k: int| 0 <= k < old(v)@.len() && k != j ==> final(v)@[k] == old(v)@[k],
{
    let mut t = Tag::Byte(0);
    std::mem::swap(&mut t, &mut v[j]);
    t
}

} // verus!
