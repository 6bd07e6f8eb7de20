//! TOML documents: what a `toml` table holds, as a tree, and the operations of
//! the `toml` crate that the configuration layers need.

use vstd::prelude::*;

verus! {

/// What a TOML value holds. Numbers, booleans and dates are kept as they are.
pub enum Toml {
    Text(Seq<char>),
    Array(Seq<Toml>),
    Table(Map<Seq<char>, Toml>),
    Scalar(toml::Value),
}

/// The map type of the `toml` crate, which its tables are.
#[verifier::external_type_specification]
#[verifier::external_body]
#[verifier::reject_recursive_types(K)]
#[verifier::reject_recursive_types(V)]
pub struct ExTomlMap<K, V>(toml::map::Map<K, V>);

/// The value type of the `toml` crate.
#[verifier::external_type_specification]
#[verifier::external_body]
pub struct ExTomlValue(toml::Value);

/// The error of the `toml` parser.
#[verifier::external_type_specification]
#[verifier::external_body]
pub struct ExTomlParseError(toml::de::Error);

/// The error of the `toml` serializer.
#[verifier::external_type_specification]
#[verifier::external_body]
pub struct ExTomlWriteError(toml::ser::Error);

/// What a value of the `toml` crate holds.
pub uninterp spec fn value_tree(v: toml::Value) -> Toml;

/// What a table of the `toml` crate holds: its values by their keys.
pub uninterp spec fn table_tree(t: toml::map::Map<String, toml::Value>) -> Map<Seq<char>, Toml>;

/// What an empty table holds.
pub open spec fn no_entries() -> Map<Seq<char>, Toml> {
    Map::empty()
}

/// `toml::map::Map::new` makes an empty table.
#[verifier::external_body]
pub(crate) fn new_table() -> (t: toml::map::Map<String, toml::Value>)
    ensures
        table_tree(t) == no_entries(),
{
    toml::map::Map::new()
}

/// `toml::map::Map::contains_key` says whether a key has a value.
#[verifier::external_body]
pub(crate) fn contains_key(t: &toml::map::Map<String, toml::Value>, key: &str) -> (r: bool)
    ensures
        r == table_tree(*t).dom().contains(key@),
{
    t.contains_key(key)
}

/// `toml::map::Map::remove` takes a key out and hands back its value, if it had
/// one. The other keys keep theirs.
#[verifier::external_body]
pub(crate) fn remove(t: &mut toml::map::Map<String, toml::Value>, key: &str) -> (r: Option<
    toml::Value,
>)
    ensures
        table_tree(*final(t)) == table_tree(*old(t)).remove(key@),
        match r {
            Some(v) => table_tree(*old(t)).dom().contains(key@) && value_tree(v) == table_tree(
                *old(t),
            )[key@],
            None => !table_tree(*old(t)).dom().contains(key@),
        },
{
    t.remove(key)
}

/// `toml::map::Map::insert` gives a key a value, in place of the one it has. The
/// other keys keep theirs.
#[verifier::external_body]
pub(crate) fn insert(t: &mut toml::map::Map<String, toml::Value>, key: String, v: toml::Value)
    ensures
        table_tree(*final(t)) == table_tree(*old(t)).insert(key@, value_tree(v)),
{
    t.insert(key, v);
}

/// `toml::map::Map::into_iter` hands out each key with its value, once. The order
/// is left open.
#[verifier::external_body]
pub(crate) fn entries(t: toml::map::Map<String, toml::Value>) -> (r: Vec<(String, toml::Value)>)
    ensures
        forall|i: int, j: int| 0 <= i < j < r@.len() ==> r@[i].0@ != r@[j].0@,
        forall|i: int|
            0 <= i < r@.len() ==> table_tree(t).dom().contains(#[trigger] r@[i].0@) && table_tree(
                t,
            )[r@[i].0@] == value_tree(r@[i].1),
        forall|key: Seq<char>| #[trigger]
            table_tree(t).dom().contains(key) ==> exists|i: int|
                0 <= i < r@.len() && #[trigger] r@[i].0@ == key,
{
    t.into_iter().collect()
}

/// The table that a `toml::Value` is, or the value back where it is none.
#[verifier::external_body]
pub(crate) fn into_table(v: toml::Value) -> (r: Result<
    toml::map::Map<String, toml::Value>,
    toml::Value,
>)
    ensures
        match r {
            Ok(t) => value_tree(v) == Toml::Table(table_tree(t)),
            Err(same) => same == v && !(value_tree(v) is Table),
        },
{
    match v {
        toml::Value::Table(t) => Ok(t),
        other => Err(other),
    }
}

/// The `toml::Value` that a table is.
#[verifier::external_body]
pub(crate) fn from_table(t: toml::map::Map<String, toml::Value>) -> (v: toml::Value)
    ensures
        value_tree(v) == Toml::Table(table_tree(t)),
{
    toml::Value::Table(t)
}

/// `toml::Value::as_array` gives the items of an array, in order, and nothing of
/// any other value.
pub assume_specification[ toml::Value::as_array ](v: &toml::Value) -> (r: Option<&Vec<toml::Value>>)
    ensures
        match r {
            Some(items) => value_tree(*v) == Toml::Array(
                items@.map_values(|item: toml::Value| value_tree(item)),
            ),
            None => !(value_tree(*v) is Array),
        },
;

/// `toml::Value::as_str` gives the text of a string, and nothing of any other
/// value.
pub assume_specification[ toml::Value::as_str ](v: &toml::Value) -> (r: Option<&str>)
    ensures
        match r {
            Some(s) => value_tree(*v) == Toml::Text(s@),
            None => !(value_tree(*v) is Text),
        },
;

/// What the `toml` crate reads `text` as: the top-level table, or its error.
pub uninterp spec fn toml_document(text: Seq<char>) -> Result<
    Map<Seq<char>, Toml>,
    toml::de::Error,
>;

/// The parser behind `FromStr` of the `toml` crate's tables. The result is a
/// function of the text alone; which texts are accepted is left to the name.
#[verifier::external_body]
pub(crate) fn parse_table(text: &str) -> (r: Result<
    toml::map::Map<String, toml::Value>,
    toml::de::Error,
>)
    ensures
        match r {
            Ok(t) => toml_document(text@) == Ok::<_, toml::de::Error>(table_tree(t)),
            Err(e) => toml_document(text@) == Err::<Map<Seq<char>, Toml>, _>(e),
        },
{
    text.parse::<toml::map::Map<String, toml::Value>>()
}

/// What the `toml` crate writes a table as: the text, or its error.
pub uninterp spec fn toml_text(table: Map<Seq<char>, Toml>) -> Result<Seq<char>, toml::ser::Error>;

/// `toml::to_string`, on a table whose keys come in their own order. The result
/// is a function of what the table holds. Where the text can be read back, what
/// is read has the table's top-level keys; that it can be, and that the values
/// are the same, is not claimed. Nor is success: a date that is none fails.
#[verifier::external_body]
pub(crate) fn write_table(t: &toml::map::Map<String, toml::Value>) -> (r: Result<
    String,
    toml::ser::Error,
>)
    ensures
        match r {
            Ok(s) => toml_text(table_tree(*t)) == Ok::<_, toml::ser::Error>(s@),
            Err(e) => toml_text(table_tree(*t)) == Err::<Seq<char>, _>(e),
        },
        r matches Ok(s) ==> (toml_document(s@) matches Ok(doc) ==> doc.dom() == table_tree(
            *t,
        ).dom()),
{
    toml::to_string(t)
}

/// `overlay` on top of `base`: two tables merge key by key; anything else is
/// replaced whole.
pub open spec fn merged(base: Toml, overlay: Toml) -> Toml
    decreases overlay,
{
    match (base, overlay) {
        (Toml::Table(below), Toml::Table(above)) => Toml::Table(
            Map::new(
                |key: Seq<char>| below.dom().contains(key) || above.dom().contains(key),
                |key: Seq<char>|
                    if !above.dom().contains(key) {
                        below[key]
                    } else if !below.dom().contains(key) {
                        above[key]
                    } else {
                        merged(below[key], above[key])
                    },
            ),
        ),
        _ => overlay,
    }
}

/// The table `above` on top of the table `below`.
pub open spec fn merged_tables(below: Map<Seq<char>, Toml>, above: Map<Seq<char>, Toml>) -> Map<
    Seq<char>,
    Toml,
> {
    merged(Toml::Table(below), Toml::Table(above))->Table_0
}

/// The value that the keys of `path` lead to from `t`, one table after another.
pub open spec fn value_at(t: Toml, path: Seq<Seq<char>>) -> Option<Toml>
    decreases path.len(),
{
    if path.len() == 0 {
        Some(t)
    } else {
        match t {
            Toml::Table(entries) => if entries.dom().contains(path[0]) {
                value_at(entries[path[0]], path.skip(1))
            } else {
                None
            },
            _ => None,
        }
    }
}

/// Whether `t` leaves `path` alone: following its keys, a table comes up that
/// lacks the next one.
pub open spec fn silent_on(t: Toml, path: Seq<Seq<char>>) -> bool
    decreases path.len(),
{
    path.len() > 0 && (t matches Toml::Table(entries) && (entries.dom().contains(path[0])
        ==> silent_on(entries[path[0]], path.skip(1))))
}

/// A merged table has the keys of both tables.
pub proof fn law_merge_keys(below: Map<Seq<char>, Toml>, above: Map<Seq<char>, Toml>)
    ensures
        merged_tables(below, above).dom() == below.dom().union(above.dom()),
{
    assert(merged_tables(below, above).dom() =~= below.dom().union(above.dom()));
}

/// A scalar or an array of the overlay comes out of a merge whole, at any
/// depth, whatever the base has there.
pub proof fn law_overlay_wins(base: Toml, overlay: Toml, path: Seq<Seq<char>>)
    requires
        value_at(overlay, path) matches Some(value) && !(value is Table),
    ensures
        value_at(merged(base, overlay), path) == value_at(overlay, path),
    decreases path.len(),
{
    if path.len() > 0 {
        if let (Toml::Table(below), Toml::Table(above)) = (base, overlay) {
            if below.dom().contains(path[0]) {
                law_overlay_wins(below[path[0]], above[path[0]], path.skip(1));
            }
        }
    }
}

/// What the base has where the overlay says nothing survives a merge, at any
/// depth.
pub proof fn law_siblings_survive(base: Toml, overlay: Toml, path: Seq<Seq<char>>)
    requires
        value_at(base, path) is Some,
        silent_on(overlay, path),
    ensures
        value_at(merged(base, overlay), path) == value_at(base, path),
    decreases path.len(),
{
    if let (Toml::Table(below), Toml::Table(above)) = (base, overlay) {
        if above.dom().contains(path[0]) {
            law_siblings_survive(below[path[0]], above[path[0]], path.skip(1));
        }
    }
}

/// Merging a value onto itself changes nothing.
pub proof fn law_merge_onto_itself(t: Toml)
    ensures
        merged(t, t) == t,
    decreases t,
{
    if let Toml::Table(entries) = t {
        assert forall|key: Seq<char>| entries.dom().contains(key) implies merged(
            entries[key],
            entries[key],
        ) == entries[key] by {
            law_merge_onto_itself(entries[key]);
        }
        assert(merged_tables(entries, entries) =~= entries);
    }
}

/// Applying the same overlay again changes nothing.
pub proof fn law_merge_again(base: Toml, overlay: Toml)
    ensures
        merged(merged(base, overlay), overlay) == merged(base, overlay),
    decreases overlay,
{
    if let (Toml::Table(below), Toml::Table(above)) = (base, overlay) {
        let once = merged_tables(below, above);
        assert forall|key: Seq<char>| above.dom().contains(key) implies merged(
            once[key],
            above[key],
        ) == once[key] by {
            if below.dom().contains(key) {
                law_merge_again(below[key], above[key]);
            } else {
                law_merge_onto_itself(above[key]);
            }
        }
        assert(merged_tables(once, above) =~= once);
    } else {
        law_merge_onto_itself(overlay);
    }
}

/// An empty table adds nothing, above or below.
pub proof fn law_merge_empty(table: Map<Seq<char>, Toml>)
    ensures
        merged_tables(table, no_entries()) == table,
        merged_tables(no_entries(), table) == table,
{
    assert(merged_tables(table, no_entries()) =~= table);
    assert(merged_tables(no_entries(), table) =~= table);
}

/// The keys that `entries` hands out are all that the table has, so there are
/// finitely many.
proof fn lemma_entries_finite(table: Map<Seq<char>, Toml>, items: Seq<(String, toml::Value)>)
    requires
        forall|key: Seq<char>| #[trigger]
            table.dom().contains(key) ==> exists|i: int|
                0 <= i < items.len() && #[trigger] items[i].0@ == key,
    ensures
        table.dom().finite(),
{
    let keys: Seq<Seq<char>> = Seq::new(items.len(), |i: int| items[i].0@);
    assert forall|key: Seq<char>| table.dom().contains(key) implies keys.to_set().contains(
        key,
    ) by {
        let i = choose|i: int| 0 <= i < items.len() && #[trigger] items[i].0@ == key;
        assert(keys[i] == key);
    }
    assert(table.dom().subset_of(keys.to_set()));
    vstd::seq_lib::seq_to_set_is_finite(keys);
    vstd::set_lib::lemma_set_subset_finite(keys.to_set(), table.dom());
}

/// Overlays `src` onto `dst`: tables recurse, everything else replaces.
pub fn deep_merge(dst: &mut toml::map::Map<String, toml::Value>, src: toml::map::Map<
    String,
    toml::Value,
>)
    ensures
        table_tree(*final(dst)) == merged_tables(table_tree(*old(dst)), table_tree(src)),
    decreases table_tree(src),
{
    let ghost below = table_tree(*dst);
    let ghost above = table_tree(src);
    let ghost whole = merged_tables(below, above);
    let mut rest: Vec<(String, toml::Value)> = entries(src);
    let ghost all = rest@;
    proof {
        lemma_entries_finite(above, all);
    }
    loop
        invariant
            below == table_tree(*old(dst)),
            above == table_tree(src),
            whole == merged_tables(below, above),
            above.dom().finite(),
            rest@.len() <= all.len(),
            rest@ == all.take(rest@.len() as int),
            forall|i: int, j: int| 0 <= i < j < all.len() ==> all[i].0@ != all[j].0@,
            forall|i: int|
                0 <= i < all.len() ==> above.dom().contains(#[trigger] all[i].0@)
                    && above[all[i].0@] == value_tree(all[i].1),
            forall|key: Seq<char>| #[trigger]
                above.dom().contains(key) ==> exists|i: int|
                    0 <= i < all.len() && #[trigger] all[i].0@ == key,
            forall|i: int|
                0 <= i < rest@.len() ==> table_tree(*dst).dom().contains(#[trigger] all[i].0@)
                    == below.dom().contains(all[i].0@) && table_tree(*dst)[all[i].0@]
                    == below[all[i].0@],
            forall|i: int|
                rest@.len() <= i < all.len() ==> table_tree(*dst).dom().contains(
                    #[trigger] all[i].0@,
                ) && table_tree(*dst)[all[i].0@] == whole[all[i].0@],
            forall|key: Seq<char>|
                !above.dom().contains(key) ==> (#[trigger] table_tree(*dst).dom().contains(key)
                    <==> below.dom().contains(key)) && table_tree(*dst)[key] == below[key],
        decreases rest@.len(),
    {
        match rest.pop() {
            None => {
                assert(table_tree(*dst) =~= whole) by {
                    assert forall|key: Seq<char>|
                        table_tree(*dst).dom().contains(key) <==> whole.dom().contains(key) by {
                        if above.dom().contains(key) {
                            let i = choose|i: int| 0 <= i < all.len() && #[trigger] all[i].0@ == key;
                        }
                    }
                    assert forall|key: Seq<char>| whole.dom().contains(key) implies table_tree(
                        *dst,
                    )[key] == whole[key] by {
                        if above.dom().contains(key) {
                            let i = choose|i: int| 0 <= i < all.len() && #[trigger] all[i].0@ == key;
                        }
                    }
                }
                return ;
            },
            Some((key, value)) => {
                let ghost at = rest@.len() as int;
                assert(all[at].0 == key && all[at].1 == value);
                let removed = remove(dst, key.as_str());
                let merged_value = match into_table(value) {
                    Ok(overlay) => match removed {
                        Some(value_below) => match into_table(value_below) {
                            Ok(mut base) => {
                                assert(decreases_to!(above => above[key@]));
                                assert(decreases_to!(above[key@] => above[key@]->Table_0));
                                deep_merge(&mut base, overlay);
                                from_table(base)
                            },
                            Err(_) => from_table(overlay),
                        },
                        None => from_table(overlay),
                    },
                    Err(overlay) => overlay,
                };
                assert(value_tree(merged_value) == whole[key@]) by {
                    reveal_with_fuel(merged, 2);
                }
                insert(dst, key, merged_value);
            },
        }
    }
}

/// Merging goes key by key: a key of one table alone keeps its value, a key of both
/// has the upper value whole, and only where both values are tables do they merge
/// in turn.
pub proof fn law_merge_goes_key_by_key(
    below: Map<Seq<char>, Toml>,
    above: Map<Seq<char>, Toml>,
    key: Seq<char>,
)
    ensures
        below.dom().contains(key) && !above.dom().contains(key) ==> merged_tables(
            below,
            above,
        )[key] == below[key],
        above.dom().contains(key) && !below.dom().contains(key) ==> merged_tables(
            below,
            above,
        )[key] == above[key],
        below.dom().contains(key) && above.dom().contains(key) && !(below[key] is Table
            && above[key] is Table) ==> merged_tables(below, above)[key] == above[key],
        below.dom().contains(key) && above.dom().contains(key) && below[key] is Table
            && above[key] is Table ==> merged_tables(below, above)[key] == Toml::Table(
            merged_tables(below[key]->Table_0, above[key]->Table_0),
        ),
{
    reveal_with_fuel(merged, 2);
}

/// An empty table holds nothing.
pub proof fn law_no_entries(key: Seq<char>)
    ensures
        !no_entries().dom().contains(key),
{
}

} // verus!
