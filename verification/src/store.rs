//! A store of boxes, found again by the hash they were stored under or by a name.
//!
//! The maps are `rapidhash` maps, and a box is stored under the hash that the
//! map's hasher gives it.  That hasher is seeded at random when the map is made,
//! so nothing is known of the hash of a box beyond its being one number.
use crate::model::Row;
use crate::variant::BoxVariant;
use crate::BoxKind;
use core::hash::BuildHasher;
use rapidhash::RapidHashMap;
use vstd::prelude::*;

verus! {

#[verifier::external_type_specification]
#[verifier::external_body]
pub struct ExRapidRandomState<const AVALANCHE: bool, const SPONGE: bool, const COMPACT: bool, const PROTECTED: bool>(
    rapidhash::inner::RandomState<AVALANCHE, SPONGE, COMPACT, PROTECTED>,
);

/// What a map of boxes holds: under each hash, the variant and rows of the box and whether
/// its four vectors have one length.
pub uninterp spec fn stored_boxes(m: RapidHashMap<u64, BoxVariant>) -> Map<u64, (BoxKind, Seq<Row>, bool)>;

/// What a map of names holds: the name under each hash.
pub uninterp spec fn stored_names(m: RapidHashMap<u64, String>) -> Map<u64, Seq<char>>;

/// What a map of hashes holds: the hash under each name.
pub uninterp spec fn stored_hashes(m: RapidHashMap<String, u64>) -> Map<Seq<char>, u64>;

/// A new map from `rapidhash::HashMapExt::new`, which holds nothing.
#[verifier::external_body]
fn new_box_map() -> (r: RapidHashMap<u64, BoxVariant>)
    ensures
        stored_boxes(r).dom() == Set::<u64>::empty(),
{
    <RapidHashMap<u64, BoxVariant> as rapidhash::HashMapExt>::new()
}

/// A new map from `rapidhash::HashMapExt::new`, which holds nothing.
#[verifier::external_body]
fn new_name_map() -> (r: RapidHashMap<u64, String>)
    ensures
        stored_names(r).dom() == Set::<u64>::empty(),
{
    <RapidHashMap<u64, String> as rapidhash::HashMapExt>::new()
}

/// A new map from `rapidhash::HashMapExt::new`, which holds nothing.
#[verifier::external_body]
fn new_hash_map() -> (r: RapidHashMap<String, u64>)
    ensures
        stored_hashes(r).dom() == Set::<Seq<char>>::empty(),
{
    <RapidHashMap<String, u64> as rapidhash::HashMapExt>::new()
}

/// The hash that the map's randomly seeded hasher (`BuildHasher::hash_one`) gives a box; nothing
/// is stated of its value.
#[verifier::external_body]
pub(crate) fn hash_box(m: &RapidHashMap<u64, BoxVariant>, value: &BoxVariant) -> (h: u64) {
    m.hasher().hash_one(value)
}

/// `HashMap::insert`: afterwards the map holds the box under the hash, and nothing else changes.
#[verifier::external_body]
fn insert_box(m: &mut RapidHashMap<u64, BoxVariant>, hash: u64, value: BoxVariant)
    ensures
        stored_boxes(*final(m)) == stored_boxes(*old(m)).insert(hash, (value.tag(), value@, value.inv())),
{
    m.insert(hash, value);
}

/// `HashMap::insert`: afterwards the map holds the name under the hash, and nothing else changes.
#[verifier::external_body]
fn insert_name(m: &mut RapidHashMap<u64, String>, hash: u64, name: String)
    ensures
        stored_names(*final(m)) == stored_names(*old(m)).insert(hash, name@),
{
    m.insert(hash, name);
}

/// `HashMap::insert`: afterwards the map holds the hash under the name, and nothing else changes.
#[verifier::external_body]
fn insert_hash(m: &mut RapidHashMap<String, u64>, name: String, hash: u64)
    ensures
        stored_hashes(*final(m)) == stored_hashes(*old(m)).insert(name@, hash),
{
    m.insert(name, hash);
}

/// `HashMap::get` followed by `Option::cloned`: a copy of the box under the hash, if any (a
/// clone of a box copies its four vectors, so their lengths are kept).
#[verifier::external_body]
fn get_box(m: &RapidHashMap<u64, BoxVariant>, hash: u64) -> (r: Option<BoxVariant>)
    ensures
        r is Some <==> stored_boxes(*m).dom().contains(hash),
        r matches Some(v) ==> (v.tag(), v@, v.inv()) == stored_boxes(*m)[hash],
{
    m.get(&hash).cloned()
}

/// `HashMap::get` followed by `Option::cloned`: a copy of the name under the hash, if any.
#[verifier::external_body]
fn get_name(m: &RapidHashMap<u64, String>, hash: u64) -> (r: Option<String>)
    ensures
        r is Some <==> stored_names(*m).dom().contains(hash),
        r matches Some(v) ==> v@ == stored_names(*m)[hash],
{
    m.get(&hash).cloned()
}

/// `HashMap::get` followed by `Option::copied`: the hash under the name, if any.
#[verifier::external_body]
fn get_hash(m: &RapidHashMap<String, u64>, name: &str) -> (r: Option<u64>)
    ensures
        r is Some <==> stored_hashes(*m).dom().contains(name@),
        r matches Some(v) ==> v == stored_hashes(*m)[name@],
{
    m.get(name).copied()
}

/// Global store for box computations
pub struct BoxStore {
    /// Store boxes by their hash
    pub boxes: RapidHashMap<u64, BoxVariant>,
    /// Look up table for variable names
    pub vars: RapidHashMap<u64, String>,
    /// Look up table for variable names
    pub rev_vars: RapidHashMap<String, u64>,
}

impl BoxStore {
    /// The boxes bound to names: the variant, the rows and whether the vectors have one length.
    pub open spec fn env(&self) -> Map<Seq<char>, (BoxKind, Seq<Row>, bool)> {
        Map::new(
            |n: Seq<char>|
                stored_hashes(self.rev_vars).dom().contains(n) && stored_boxes(self.boxes).dom().contains(
                    stored_hashes(self.rev_vars)[n],
                ),
            |n: Seq<char>| stored_boxes(self.boxes)[stored_hashes(self.rev_vars)[n]],
        )
    }

    /// Initialize a new store
    pub fn new() -> (r: Self)
        ensures
            stored_boxes(r.boxes) == Map::<u64, (BoxKind, Seq<Row>, bool)>::empty(),
            stored_names(r.vars) == Map::<u64, Seq<char>>::empty(),
            stored_hashes(r.rev_vars) == Map::<Seq<char>, u64>::empty(),
    {
        BoxStore { boxes: new_box_map(), vars: new_name_map(), rev_vars: new_hash_map() }
    }

    /// Store a box by its hash
    pub fn store(&mut self, value: BoxVariant)
        ensures
            exists|h: u64|
                stored_boxes(final(self).boxes) == stored_boxes(old(self).boxes).insert(h, (value.tag(), value@, value.inv())),
            stored_names(final(self).vars) == stored_names(old(self).vars),
            stored_hashes(final(self).rev_vars) == stored_hashes(old(self).rev_vars),
    {
        let hash = hash_box(&self.boxes, &value);
        insert_box(&mut self.boxes, hash, value);
    }

    /// Store a box and bind it to a variable name
    pub fn store_with_name(&mut self, name: String, value: BoxVariant)
        ensures
            exists|h: u64|
                {
                    &&& stored_boxes(final(self).boxes) == stored_boxes(old(self).boxes).insert(h, (value.tag(), value@, value.inv()))
                    &&& stored_names(final(self).vars) == stored_names(old(self).vars).insert(h, name@)
                    &&& stored_hashes(final(self).rev_vars) == stored_hashes(old(self).rev_vars).insert(name@, h)
                },
            final(self).env().dom().contains(name@),
            final(self).env()[name@] == (value.tag(), value@, value.inv()),
    {
        let hash = hash_box(&self.boxes, &value);
        insert_box(&mut self.boxes, hash, value);
        let key = name.clone();
        insert_name(&mut self.vars, hash, name);
        insert_hash(&mut self.rev_vars, key, hash);
        proof {
            assert(stored_hashes(self.rev_vars)[name@] == hash);
            assert(self.env().dom().contains(name@));
        }
    }

    /// Fetch a name by its hash
    pub fn fetch_name(&self, hash: u64) -> (r: Option<String>)
        ensures
            r is Some <==> stored_names(self.vars).dom().contains(hash),
            r matches Some(v) ==> v@ == stored_names(self.vars)[hash],
    {
        get_name(&self.vars, hash)
    }

    /// Fetch a box by its hash
    pub fn fetch_box(&self, hash: u64) -> (r: Option<BoxVariant>)
        ensures
            r is Some <==> stored_boxes(self.boxes).dom().contains(hash),
            r matches Some(v) ==> (v.tag(), v@, v.inv()) == stored_boxes(self.boxes)[hash],
    {
        get_box(&self.boxes, hash)
    }

    /// Fetch a box by its name
    pub fn fetch_box_by_name(&self, name: &str) -> (r: Option<BoxVariant>)
        ensures
            r is Some <==> (stored_hashes(self.rev_vars).dom().contains(name@) && stored_boxes(self.boxes).dom().contains(
                stored_hashes(self.rev_vars)[name@],
            )),
            r matches Some(v) ==> (v.tag(), v@, v.inv()) == stored_boxes(self.boxes)[stored_hashes(self.rev_vars)[name@]],
            r is Some <==> self.env().dom().contains(name@),
            r matches Some(v) ==> (v.tag(), v@, v.inv()) == self.env()[name@],
    {
        match get_hash(&self.rev_vars, name) {
            Some(hash) => self.fetch_box(hash),
            None => None,
        }
    }
}

/// A box stored under a name is found again by that name, whatever hash it was stored under.
pub proof fn lemma_fetch_after_store(
    boxes: Map<u64, (BoxKind, Seq<Row>, bool)>,
    hashes: Map<Seq<char>, u64>,
    name: Seq<char>,
    h: u64,
    stored: (BoxKind, Seq<Row>, bool),
)
    ensures
        hashes.insert(name, h).dom().contains(name),
        boxes.insert(h, stored).dom().contains(hashes.insert(name, h)[name]),
        boxes.insert(h, stored)[hashes.insert(name, h)[name]] == stored,
{
}

} // verus!
