//! What a scan is asked to do: the options of a dimension scan and of a
//! player-data scan, and the parsing of their option strings.
use vstd::prelude::*;
use crate::extract::{is_listed, listed};
use crate::text::{cut_at_first, first_at, pieces, split, split_once};

verus! {

/// Options of a scan over one dimension's region files.
#[derive(Debug)]
pub struct ScanDimensionOptions {
    /// The dimension's directory.
    pub dim_path: String,
    /// Entity ids whose records are extracted, each once.
    pub entities: Vec<String>,
    /// Block-entity ids whose records are extracted, each once.
    pub block_entities: Vec<String>,
    /// Only chunks within this many chunks of the origin are scanned.
    pub chunk_radius: Option<u32>,
}

/// Options of a scan over player data.
#[derive(Debug)]
pub struct ScanPlayerDataOptions {
    pub inventory: bool,
    pub ender_chest: bool,
}

/// Why a scan cannot run.
#[derive(Debug, Clone, Copy, PartialEq, Eq)]
pub enum ScanError {
    /// Player-data scanning is not available.
    PlayerDataUnsupported,
}

/// Scanning player data is not available: every request is refused.
pub fn scan_playerdata(_options: ScanPlayerDataOptions) -> (r: Result<(), ScanError>)
    ensures
        r == Err::<(), ScanError>(ScanError::PlayerDataUnsupported),
{
    Err(ScanError::PlayerDataUnsupported)
}

/// The directory, inside a world directory, of the dimension called `name`.
pub open spec fn dimension_dir_spec(name: Seq<char>) -> Option<Seq<char>> {
    if name == "overworld"@ {
        Some(Seq::empty())
    } else if name == "nether"@ {
        Some("DIM-1"@)
    } else if name == "end"@ {
        Some("DIM1"@)
    } else {
        None
    }
}

/// The directory, inside a world directory, of a dimension; `None` for an
/// unknown dimension.
pub fn dimension_dir(name: &str) -> (r: Option<String>)
    ensures
        match r {
            None => dimension_dir_spec(name@) is None,
            Some(d) => dimension_dir_spec(name@) == Some(d@),
        },
{
    proof {
        reveal_strlit("");
    }
    let n = String::from_str(name);
    if n == String::from_str("overworld") {
        Some(String::from_str(""))
    } else if n == String::from_str("nether") {
        Some(String::from_str("DIM-1"))
    } else if n == String::from_str("end") {
        Some(String::from_str("DIM1"))
    } else {
        None
    }
}

/// What a player-data scan covers: with no options both the inventory and
/// the ender chest, else those that the options name.
pub fn player_data_options(opts: &Vec<(String, String)>) -> (r: ScanPlayerDataOptions)
    ensures
        r.inventory == (opts@.len() == 0 || has_name(opts@, "inventory"@)),
        r.ender_chest == (opts@.len() == 0 || has_name(opts@, "ender_chest"@)),
{
    if opts.len() == 0 {
        return ScanPlayerDataOptions { inventory: true, ender_chest: true };
    }
    let inventory = find_name(opts, &String::from_str("inventory"));
    let ender_chest = find_name(opts, &String::from_str("ender_chest"));
    ScanPlayerDataOptions { inventory, ender_chest }
}

/// No two strings of `v` are equal.
pub open spec fn distinct(v: Seq<String>) -> bool {
    forall|i: int, j: int| 0 <= i < j < v.len() ==> v[i]@ != v[j]@
}

/// `x` is an id that the list option `list` asks for: one of `default`
/// for `all`, else one of the comma-separated names under the
/// `minecraft:` namespace.
pub open spec fn requested(list: Seq<char>, default: Seq<&str>, x: Seq<char>) -> bool {
    if list == "all"@ {
        exists|i: int| 0 <= i < default.len() && default[i]@ == x
    } else {
        exists|i: int|
            0 <= i < pieces(list, ',').len() && x == "minecraft:"@ + pieces(list, ',')[i]
    }
}

/// Adds `s` to `v` unless an equal string is there.
fn insert_new(v: &mut Vec<String>, s: String)
    requires
        distinct(old(v)@),
    ensures
        distinct(final(v)@),
        forall|x: Seq<char>| listed(final(v)@, x) <==> listed(old(v)@, x) || x == s@,
{
    if !is_listed(v, &s) {
        let ghost w = v@;
        let ghost t = s@;
        v.push(s);
        proof {
            assert forall|x: Seq<char>| listed(v@, x) implies listed(w, x) || x == t by {
                let k = choose|k: int| 0 <= k < v@.len() && v@[k]@ == x;
                if k < w.len() {
                    assert(w[k]@ == x);
                }
            }
            assert forall|x: Seq<char>| listed(w, x) implies listed(v@, x) by {
                let k = choose|k: int| 0 <= k < w.len() && w[k]@ == x;
                assert(v@[k]@ == x);
            }
            assert(v@[w.len() as int]@ == t);
        }
    }
}

/// Reads an id list option: `all` stands for the ids of `default`; else the
/// option is a comma-separated list of names, each taken in the
/// `minecraft:` namespace. Each id comes out once.
pub fn parse_list(list: &str, default: &[&str]) -> (r: Vec<String>)
    ensures
        distinct(r@),
        forall|x: Seq<char>| listed(r@, x) <==> requested(list@, default@, x),
{
    let mut out: Vec<String> = Vec::new();
    if String::from_str(list) == String::from_str("all") {
        let mut i: usize = 0;
        while i < default.len()
            invariant
                list@ == "all"@,
                i <= default@.len(),
                distinct(out@),
                forall|x: Seq<char>|
                    listed(out@, x) <==> exists|j: int| 0 <= j < i && default@[j]@ == x,
            decreases default@.len() - i,
        {
            let s = String::from_str(default[i]);
            let ghost before = out@;
            insert_new(&mut out, s);
            proof {
                assert forall|x: Seq<char>|
                    listed(out@, x) <==> exists|j: int| 0 <= j < i + 1 && default@[j]@ == x by {
                    if x == s@ {
                        assert(default@[i as int]@ == x);
                    }
                    if exists|j: int| 0 <= j < i + 1 && default@[j]@ == x {
                        let j = choose|j: int| 0 <= j < i + 1 && default@[j]@ == x;
                        if j < i {
                            assert(listed(before, x));
                        }
                    }
                }
            }
            i = i + 1;
        }
    } else {
        let names = split(list, ',');
        let ghost ps = pieces(list@, ',');
        let mut i: usize = 0;
        while i < names.len()
            invariant
                list@ != "all"@,
                ps == pieces(list@, ','),
                names@.len() == ps.len(),
                forall|k: int| 0 <= k < names@.len() ==> names@[k]@ == ps[k],
                i <= names@.len(),
                distinct(out@),
                forall|x: Seq<char>|
                    listed(out@, x) <==> exists|j: int| 0 <= j < i && x == "minecraft:"@ + ps[j],
            decreases names@.len() - i,
        {
            let mut s = String::from_str("minecraft:");
            s.append(names[i].as_str());
            let ghost before = out@;
            let ghost t = s@;
            proof {
                assert(t == "minecraft:"@ + ps[i as int]);
            }
            insert_new(&mut out, s);
            proof {
                assert forall|x: Seq<char>|
                    listed(out@, x) <==> exists|j: int| 0 <= j < i + 1 && x == "minecraft:"@ + ps[j] by {
                    if x == t {
                        assert(x == "minecraft:"@ + ps[i as int]);
                    }
                    if exists|j: int| 0 <= j < i + 1 && x == "minecraft:"@ + ps[j] {
                        let j = choose|j: int| 0 <= j < i + 1 && x == "minecraft:"@ + ps[j];
                        if j < i {
                            assert(listed(before, x));
                        }
                    }
                }
            }
            i = i + 1;
        }
    }
    out
}

/// The comma-separated options of an option string; none when absent.
pub open spec fn option_items(opts: Option<&str>) -> Seq<Seq<char>> {
    match opts {
        None => Seq::empty(),
        Some(t) => pieces(t@, ','),
    }
}

/// An option's name and value: `name=value`, or a bare `name` with an
/// empty value.
pub open spec fn option_entry(item: Seq<char>) -> (Seq<char>, Seq<char>) {
    cut_at_first(item, '=')
}

/// `j` is the last of `items` that sets option `name`.
pub open spec fn last_setting(items: Seq<Seq<char>>, name: Seq<char>, j: int) -> bool {
    &&& 0 <= j < items.len()
    &&& option_entry(items[j]).0 == name
    &&& forall|k: int| j < k < items.len() ==> option_entry(items[k]).0 != name
}

/// `p` is the name of an option together with the value that the last
/// option setting that name gives it.
pub open spec fn last_value(items: Seq<Seq<char>>, p: (String, String)) -> bool {
    exists|j: int| last_setting(items, p.0@, j) && p.1@ == option_entry(items[j]).1
}

/// No name occurs twice among the pairs.
pub open spec fn distinct_names(v: Seq<(String, String)>) -> bool {
    forall|i: int, j: int| 0 <= i < j < v.len() ==> v[i].0@ != v[j].0@
}

/// `v` holds a pair named `name`.
pub open spec fn has_name(v: Seq<(String, String)>, name: Seq<char>) -> bool {
    exists|m: int| 0 <= m < v.len() && v[m].0@ == name
}

fn find_name(v: &Vec<(String, String)>, name: &String) -> (r: bool)
    ensures
        r == has_name(v@, name@),
{
    let mut m: usize = 0;
    while m < v.len()
        invariant
            m <= v@.len(),
            forall|k: int| 0 <= k < m ==> v@[k].0@ != name@,
        decreases v@.len() - m,
    {
        if v[m].0 == *name {
            return true;
        }
        m = m + 1;
    }
    false
}

/// Reads an option string `a,b=c,...` into name and value pairs, one per
/// name: a bare name has an empty value, and a name set twice keeps its
/// last value.
pub fn parse_opts(opts: Option<&str>) -> (r: Vec<(String, String)>)
    ensures
        distinct_names(r@),
        forall|m: int| 0 <= m < r@.len() ==> last_value(option_items(opts), #[trigger] r@[m]),
        forall|j: int|
            0 <= j < option_items(opts).len() ==> has_name(
                r@,
                option_entry(option_items(opts)[j]).0,
            ),
{
    let ghost given = opts;
    let mut out: Vec<(String, String)> = Vec::new();
    let text = match opts {
        None => return out,
        Some(t) => t,
    };
    let items = split(text, ',');
    let ghost ps = pieces(text@, ',');
    let ghost mut wit: Seq<int> = Seq::empty();
    let mut i: usize = items.len();
    while i > 0
        invariant
            ps == option_items(given),
            given == opts,
            items@.len() == ps.len(),
            forall|k: int| 0 <= k < items@.len() ==> items@[k]@ == ps[k],
            i <= items@.len(),
            distinct_names(out@),
            wit.len() == out@.len(),
            forall|m: int|
                0 <= m < out@.len() ==> i <= #[trigger] wit[m] && last_setting(ps, out@[m].0@, wit[m])
                    && out@[m].1@ == option_entry(ps[wit[m]]).1,
            forall|j: int| i <= j < ps.len() ==> has_name(out@, option_entry(ps[j]).0),
        decreases i,
    {
        i = i - 1;
        let (name, value) = match split_once(items[i].as_str(), '=') {
            Some(p) => p,
            None => {
                proof {
                    let it = items@[i as int]@;
                    assert forall|j: int| !first_at(it, '=', j) by {
                        if first_at(it, '=', j) {
                            assert(it[j] == '=');
                        }
                    }
                }
                (String::from_str(items[i].as_str()), String::new())
            },
        };
        proof {
            assert((name@, value@) == option_entry(ps[i as int]));
        }
        if !find_name(&out, &name) {
            let ghost before = out@;
            let ghost nm = name@;
            out.push((name, value));
            proof {
                assert forall|k: int| i < k < ps.len() implies option_entry(ps[k]).0 != nm by {
                    if option_entry(ps[k]).0 == nm {
                        assert(has_name(before, nm));
                    }
                }
                assert(last_setting(ps, nm, i as int));
                wit = wit.push(i as int);
                assert forall|m: int| 0 <= m < out@.len() implies i <= #[trigger] wit[m]
                    && last_setting(ps, out@[m].0@, wit[m]) && out@[m].1@ == option_entry(
                    ps[wit[m]],
                ).1 by {
                    if m < before.len() {
                        assert(out@[m] == before[m]);
                    }
                }
                assert forall|j: int| i <= j < ps.len() implies has_name(
                    out@,
                    option_entry(ps[j]).0,
                ) by {
                    if j == i {
                        assert(out@[before.len() as int].0@ == nm);
                    } else {
                        let m = choose|m: int|
                            0 <= m < before.len() && before[m].0@ == option_entry(ps[j]).0;
                        assert(out@[m] == before[m]);
                    }
                }
            }
        }
    }
    proof {
        assert forall|m: int| 0 <= m < out@.len() implies last_value(option_items(given), #[trigger] out@[m]) by {
            assert(last_setting(option_items(given), out@[m].0@, wit[m]));
        }
    }
    out
}

} // verus!
