//! The hash maps that code generation keeps, which are those of [`ahash`].
use ahash::AHashMap;
use vstd::prelude::*;

verus! {

/// What is known of an enum.
#[derive(Clone, Copy, Debug, PartialEq, Eq, Structural)]
pub struct EnumInfo {
    pub is_bitfield: bool,
    /// Whether arguments with this enum are of type `int`. None until one is
    /// seen.
    pub is_int: Option<bool>,
}

/// The hash map of the `ahash` crate.
#[verifier::external_type_specification]
#[verifier::external_body]
#[verifier::reject_recursive_types(K)]
#[verifier::reject_recursive_types(V)]
#[verifier::reject_recursive_types(S)]
pub struct ExAHashMap<K, V, S>(ahash::AHashMap<K, V, S>);

/// The hasher of that map.
#[verifier::external_type_specification]
#[verifier::external_body]
pub struct ExRandomState(ahash::RandomState);

/// The versions of interfaces, by name.
pub uninterp spec fn versions_of(map: AHashMap<String, u32>) -> Map<Seq<char>, u32>;

/// The enums of an interface, by name.
pub uninterp spec fn enums_of(map: AHashMap<String, EnumInfo>) -> Map<Seq<char>, EnumInfo>;

/// The enums of all interfaces, by the name of the interface and their own.
pub uninterp spec fn infos_of(map: AHashMap<String, AHashMap<String, EnumInfo>>) -> Map<
    Seq<char>,
    Map<Seq<char>, EnumInfo>,
>;

/// `AHashMap::new`: the map is empty.
#[verifier::external_body]
pub(crate) fn new_versions() -> (r: AHashMap<String, u32>)
    ensures
        (versions_of(r) == Map::<Seq<char>, u32>::empty()),
{
    AHashMap::new()
}

/// `AHashMap::insert`, as on the standard map: the value takes the place of one
/// with the same key.
#[verifier::external_body]
pub(crate) fn insert_version(map: &mut AHashMap<String, u32>, name: String, version: u32)
    ensures
        versions_of(*final(map)) == versions_of(*old(map)).insert(name@, version),
{
    map.insert(name, version);
}

/// `AHashMap::get`: the value with the given key, if there is one.
#[verifier::external_body]
pub(crate) fn get_version(map: &AHashMap<String, u32>, name: &str) -> (r: Option<u32>)
    ensures
        r == if versions_of(*map).contains_key(name@) {
            Some(versions_of(*map)[name@])
        } else {
            None
        },
{
    map.get(name).copied()
}

/// `AHashMap::new`: the map is empty.
#[verifier::external_body]
pub(crate) fn new_enums() -> (r: AHashMap<String, EnumInfo>)
    ensures
        (enums_of(r) == Map::<Seq<char>, EnumInfo>::empty()),
{
    AHashMap::new()
}

/// `AHashMap::insert`, as on the standard map: the value takes the place of one
/// with the same key.
#[verifier::external_body]
pub(crate) fn insert_enum(map: &mut AHashMap<String, EnumInfo>, name: String, info: EnumInfo)
    ensures
        enums_of(*final(map)) == enums_of(*old(map)).insert(name@, info),
{
    map.insert(name, info);
}

/// `AHashMap::get`: the value with the given key, if there is one.
#[verifier::external_body]
pub(crate) fn get_enum(map: &AHashMap<String, EnumInfo>, name: &str) -> (r: Option<EnumInfo>)
    ensures
        r == if enums_of(*map).contains_key(name@) {
            Some(enums_of(*map)[name@])
        } else {
            None
        },
{
    map.get(name).copied()
}

/// `AHashMap::new`: the map is empty.
#[verifier::external_body]
pub(crate) fn new_infos() -> (r: AHashMap<String, AHashMap<String, EnumInfo>>)
    ensures
        (infos_of(r) == Map::<Seq<char>, Map<Seq<char>, EnumInfo>>::empty()),
{
    AHashMap::new()
}

/// `AHashMap::insert`, as on the standard map: the value takes the place of one
/// with the same key.
#[verifier::external_body]
pub(crate) fn insert_infos(
    map: &mut AHashMap<String, AHashMap<String, EnumInfo>>,
    name: String,
    enums: AHashMap<String, EnumInfo>,
)
    ensures
        infos_of(*final(map)) == infos_of(*old(map)).insert(name@, enums_of(enums)),
{
    map.insert(name, enums);
}

/// `AHashMap::get`: the value with the given key, if there is one.
#[verifier::external_body]
pub(crate) fn get_infos<'a>(map: &'a AHashMap<String, AHashMap<String, EnumInfo>>, name: &str) -> (r: Option<
    &'a AHashMap<String, EnumInfo>,
>)
    ensures
        match r {
            Some(enums) => infos_of(*map).contains_key(name@) && enums_of(*enums) == infos_of(*map)[name@],
            None => !infos_of(*map).contains_key(name@),
        },
{
    map.get(name)
}

/// `AHashMap::get_mut`: the value with the given key, if there is one. What
/// becomes of it becomes of the map.
#[verifier::external_body]
pub(crate) fn get_infos_mut<'a>(map: &'a mut AHashMap<String, AHashMap<String, EnumInfo>>, name: &str) -> (r: Option<
    &'a mut AHashMap<String, EnumInfo>,
>)
    ensures
        match r {
            Some(enums) => {
                &&& infos_of(*old(map)).contains_key(name@)
                &&& enums_of(*enums) == infos_of(*old(map))[name@]
                &&& infos_of(*final(map)) == infos_of(*old(map)).insert(name@, enums_of(*final(enums)))
            },
            None => !infos_of(*old(map)).contains_key(name@) && infos_of(*final(map)) == infos_of(*old(map)),
        },
{
    map.get_mut(name)
}

} // verus!
