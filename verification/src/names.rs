use vstd::prelude::*;

verus! {

/// Association of task names to their dense ids, kept in an FNV-hashed
/// table because registration and dependency declaration are name-based.
///
/// The table itself comes from the `fnv` crate (an alias for std's
/// `HashMap` with the FNV hasher), so it is held behind trusted wrappers;
/// `name_index_map` names its contents.
#[verifier::external_body]
pub struct NameIndex {
    table: fnv::FnvHashMap<String, usize>,
}

/// The contents of a `NameIndex`: which id each registered name maps to.
pub uninterp spec fn name_index_map(m: NameIndex) -> Map<Seq<char>, usize>;

impl View for NameIndex {
    type V = Map<Seq<char>, usize>;

    open spec fn view(&self) -> Map<Seq<char>, usize> {
        name_index_map(*self)
    }
}

/// The contents of a table that holds no entries.
pub open spec fn no_names() -> Map<Seq<char>, usize> {
    Map::empty()
}

impl NameIndex {
    /// Relies on std's `HashMap::default` (through fnv's `FnvHashMap`
    /// alias): a fresh table holds no entries.
    #[verifier::external_body]
    pub fn new() -> (r: NameIndex)
        ensures
            r@ == no_names(),
    {
        NameIndex { table: fnv::FnvHashMap::default() }
    }

    /// Relies on std's `HashMap::insert`: afterwards the key maps to the
    /// given value and every other key keeps its binding.
    #[verifier::external_body]
    pub fn insert(&mut self, name: &str, id: usize)
        ensures
            name_index_map(*final(self)) == name_index_map(*old(self)).insert(name@, id),
    {
        self.table.insert(name.to_owned(), id);
    }

    /// Relies on std's `HashMap::get`: returns the value bound to the key,
    /// if the key is present.
    #[verifier::external_body]
    pub fn get(&self, name: &str) -> (r: Option<usize>)
        ensures
            r == if name_index_map(*self).dom().contains(name@) {
                Some(name_index_map(*self)[name@])
            } else {
                None::<usize>
            },
    {
        self.table.get(name).copied()
    }
}

} // verus!
