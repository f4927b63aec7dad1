//! Detection categories and the mapping between category ids and names.

use std::collections::HashMap;
use std::sync::Arc;

use vstd::prelude::*;
use vstd::std_specs::hash::spec_hash_map_iter;
use vstd::std_specs::iter::IteratorSpec;

use crate::model::{decimal, decimal_string, str_is, CategoryRemapper};

verus! {

/// `Arc::<str>::from(&str)`: allocates a shared string holding a copy of `s`. Claims that the
/// result holds the same characters as `s`.
#[verifier::external_body]
fn shared_name(s: &str) -> (r: Arc<str>)
    ensures
        r@ == s@,
{
    Arc::from(s)
}

/// A detection category with ID and name.
///
/// The name is shared (`Arc<str>`), so cloning a category, as happens when the same category
/// appears in many detections, does not copy it.
#[derive(Debug, Clone, PartialEq, Eq, Hash)]
pub struct Category {
    /// Numeric category ID.
    pub id: u32,
    /// Category name, shared between clones.
    name: Arc<str>,
}

impl Category {
    /// The category's id.
    pub closed spec fn id_view(&self) -> u32 {
        self.id
    }

    /// The category's name.
    pub closed spec fn name_view(&self) -> Seq<char> {
        self.name@
    }

    /// Create a new category.
    pub fn new(id: u32, name: &str) -> (c: Self)
        ensures
            c.id_view() == id,
            c.name_view() == name@,
    {
        Category { id, name: shared_name(name) }
    }

    /// Get the category name.
    pub fn name(&self) -> (n: &str)
        ensures
            n@ == self.name_view(),
    {
        &self.name
    }

    /// Create from a static string.
    pub fn from_static(id: u32, name: &'static str) -> (c: Self)
        ensures
            c.id_view() == id,
            c.name_view() == name@,
    {
        Category { id, name: shared_name(name) }
    }

    /// Create a new category (the Python constructor).
    pub fn py_new(id: u32, name: String) -> (c: Self)
        ensures
            c.id_view() == id,
            c.name_view() == name@,
    {
        Self::new(id, name.as_str())
    }

    /// The category id.
    pub fn get_id(&self) -> (i: u32)
        ensures
            i == self.id_view(),
    {
        self.id
    }

    /// The category name.
    pub fn get_name(&self) -> (n: &str)
        ensures
            n@ == self.name_view(),
    {
        self.name()
    }

    /// `Category(id=ID, name='NAME')`, with the id in decimal.
    pub fn __repr__(&self) -> (r: String)
        ensures
            r@ == category_text(self.id_view(), self.name_view()),
    {
        category_repr(self.id, &self.name)
    }
}

/// The text `Category(id=ID, name='NAME')` with the id in decimal.
pub open spec fn category_text(id: u32, name: Seq<char>) -> Seq<char> {
    "Category(id="@ + decimal(id as nat) + ", name='"@ + name + "')"@
}

/// The text `Category(id={}, name='{}')`.
fn category_repr(id: u32, name: &str) -> (r: String)
    ensures
        r@ == category_text(id, name@),
{
    let digits = decimal_string(id);
    String::from_str("Category(id=").concat(digits.as_str()).concat(", name='").concat(name).concat(
        "')",
    )
}

// ---------------------------------------------------------------------------------------------
// Association lists
// ---------------------------------------------------------------------------------------------

/// The map an association list denotes: later pairs take precedence.
pub open spec fn assoc_map<K, V>(s: Seq<(K, V)>) -> Map<K, V>
    decreases s.len(),
{
    if s.len() == 0 {
        Map::empty()
    } else {
        assoc_map(s.drop_last()).insert(s.last().0, s.last().1)
    }
}

/// No key occurs twice in the association list.
pub open spec fn distinct_keys<K, V>(s: Seq<(K, V)>) -> bool {
    forall|i: int, j: int| 0 <= i < j < s.len() ==> #[trigger] s[i].0 != #[trigger] s[j].0
}

proof fn lemma_assoc_lookup<K, V>(s: Seq<(K, V)>, k: int)
    requires
        distinct_keys(s),
        0 <= k < s.len(),
    ensures
        assoc_map(s).contains_key(s[k].0),
        assoc_map(s)[s[k].0] == s[k].1,
    decreases s.len(),
{
    if k < s.len() - 1 {
        assert(s.drop_last()[k] == s[k]);
        lemma_assoc_lookup(s.drop_last(), k);
        assert(s[k].0 != s[s.len() - 1].0);
    }
}

proof fn lemma_assoc_absent<K, V>(s: Seq<(K, V)>, key: K)
    requires
        forall|i: int| 0 <= i < s.len() ==> #[trigger] s[i].0 != key,
    ensures
        !assoc_map(s).contains_key(key),
    decreases s.len(),
{
    if s.len() > 0 {
        lemma_assoc_absent(s.drop_last(), key);
    }
}

proof fn lemma_assoc_update<K, V>(s: Seq<(K, V)>, k: int, v: V)
    requires
        distinct_keys(s),
        0 <= k < s.len(),
    ensures
        assoc_map(s.update(k, (s[k].0, v))) == assoc_map(s).insert(s[k].0, v),
    decreases s.len(),
{
    let t = s.update(k, (s[k].0, v));
    if k == s.len() - 1 {
        assert(t.drop_last() =~= s.drop_last());
        assert(assoc_map(t) =~= assoc_map(s).insert(s[k].0, v));
    } else {
        assert(t.drop_last() =~= s.drop_last().update(k, (s[k].0, v)));
        lemma_assoc_update(s.drop_last(), k, v);
        assert(s[k].0 != s[s.len() - 1].0);
        assert(assoc_map(t) =~= assoc_map(s).insert(s[k].0, v));
    }
}

// ---------------------------------------------------------------------------------------------
// Category mapping
// ---------------------------------------------------------------------------------------------

/// The (name, id) pairs of a name index.
pub open spec fn name_pairs(names: Seq<(Arc<str>, u32)>) -> Seq<(Seq<char>, u32)> {
    names.map_values(|p: (Arc<str>, u32)| (p.0@, p.1))
}

/// Mapping from category IDs to category information, and from names back to IDs.
#[derive(Debug)]
pub struct CategoryMapping {
    /// ID to category mapping.
    by_id: HashMap<u32, Category>,
    /// Name to ID index, one entry per name; each name is shared with its category.
    name_to_id: Vec<(Arc<str>, u32)>,
}

impl CategoryMapping {
    /// The category name of each id.
    pub closed spec fn names_by_id(&self) -> Map<u32, Seq<char>> {
        self.by_id@.map_values(|c: Category| c.name_view())
    }

    /// The id each name was last inserted with.
    pub closed spec fn ids_by_name(&self) -> Map<Seq<char>, u32> {
        assoc_map(name_pairs(self.name_to_id@))
    }

    /// The (name, id) pairs of the name index, in order.
    closed spec fn ids_by_name_pairs(&self) -> Seq<(Seq<char>, u32)> {
        name_pairs(self.name_to_id@)
    }

    /// Each category is filed under its own id, and names are listed once.
    #[verifier::type_invariant]
    closed spec fn well_formed(&self) -> bool {
        &&& forall|id: u32| #[trigger] self.by_id@.contains_key(id) ==> self.by_id@[id].id == id
        &&& distinct_keys(name_pairs(self.name_to_id@))
    }

    /// Create an empty mapping.
    pub fn new() -> (m: Self)
        ensures
            m.names_by_id() == Map::<u32, Seq<char>>::empty(),
            m.ids_by_name() == Map::<Seq<char>, u32>::empty(),
    {
        let m = CategoryMapping { by_id: HashMap::new(), name_to_id: Vec::new() };
        assert(m.names_by_id() =~= Map::<u32, Seq<char>>::empty());
        assert(name_pairs(m.name_to_id@) =~= Seq::<(Seq<char>, u32)>::empty());
        m
    }

    /// Create from a list of (id, name) pairs, inserted in order.
    pub fn from_pairs(pairs: Vec<(u32, &str)>) -> (m: Self)
        ensures
            m.names_by_id() == assoc_map(pairs@.map_values(|p: (u32, &str)| (p.0, p.1@))),
            m.ids_by_name() == assoc_map(pairs@.map_values(|p: (u32, &str)| (p.1@, p.0))),
    {
        let ghost ps = pairs@;
        let mut mapping = Self::new();
        let mut k: usize = 0;
        proof {
            assert(ps.subrange(0, 0).map_values(|p: (u32, &str)| (p.0, p.1@)) =~= Seq::<
                (u32, Seq<char>),
            >::empty());
            assert(ps.subrange(0, 0).map_values(|p: (u32, &str)| (p.1@, p.0)) =~= Seq::<
                (Seq<char>, u32),
            >::empty());
        }
        while k < pairs.len()
            invariant
                k <= ps.len(),
                pairs@ == ps,
                mapping.names_by_id() == assoc_map(
                    ps.subrange(0, k as int).map_values(|p: (u32, &str)| (p.0, p.1@)),
                ),
                mapping.ids_by_name() == assoc_map(
                    ps.subrange(0, k as int).map_values(|p: (u32, &str)| (p.1@, p.0)),
                ),
            decreases ps.len() - k,
        {
            let id = pairs[k].0;
            let name = pairs[k].1;
            mapping.insert(id, name);
            proof {
                let f = |p: (u32, &str)| (p.0, p.1@);
                let g = |p: (u32, &str)| (p.1@, p.0);
                assert(ps.subrange(0, k + 1).map_values(f) =~= ps.subrange(0, k as int).map_values(
                    f,
                ).push(f(ps[k as int])));
                assert(ps.subrange(0, k + 1).map_values(g) =~= ps.subrange(0, k as int).map_values(
                    g,
                ).push(g(ps[k as int])));
                assert(ps.subrange(0, k + 1).map_values(f).drop_last() =~= ps.subrange(
                    0,
                    k as int,
                ).map_values(f));
                assert(ps.subrange(0, k + 1).map_values(g).drop_last() =~= ps.subrange(
                    0,
                    k as int,
                ).map_values(g));
            }
            k = k + 1;
        }
        proof {
            assert(ps.subrange(0, ps.len() as int) =~= ps);
        }
        mapping
    }

    /// Insert a category: `id` now names `name`, and `name` now denotes `id`. Returns the
    /// category that `id` had before, if any.
    pub fn insert(&mut self, id: u32, name: &str) -> (prev: Option<Category>)
        ensures
            final(self).names_by_id() == old(self).names_by_id().insert(id, name@),
            final(self).ids_by_name() == old(self).ids_by_name().insert(name@, id),
            match prev {
                Some(c) => old(self).names_by_id().contains_key(id) && c.id_view() == id
                    && c.name_view() == old(self).names_by_id()[id],
                None => !old(self).names_by_id().contains_key(id),
            },
    {
        proof {
            use_type_invariant(&*self);
            assert(name_pairs(Seq::<(Arc<str>, u32)>::empty()) =~= Seq::<(Seq<char>, u32)>::empty());
        }
        let name: Arc<str> = shared_name(name);
        let mut names: Vec<(Arc<str>, u32)> = Vec::new();
        std::mem::swap(&mut names, &mut self.name_to_id);
        let mut cats: HashMap<u32, Category> = HashMap::new();
        std::mem::swap(&mut cats, &mut self.by_id);
        let ghost old_names = names@;
        let ghost old_cats = cats@;
        let ghost np = name_pairs(old_names);
        assert(np == old(self).ids_by_name_pairs());
        // Name index.
        let mut j: usize = 0;
        let mut found_name = false;
        while j < names.len()
            invariant_except_break
                !found_name,
                j <= names@.len(),
                names@ == old_names,
                forall|i: int| 0 <= i < j ==> #[trigger] old_names[i].0@ != name@,
            ensures
                names@ == old_names,
                j <= old_names.len(),
                found_name ==> j < old_names.len() && old_names[j as int].0@ == name@,
                !found_name ==> forall|i: int|
                    0 <= i < old_names.len() ==> #[trigger] old_names[i].0@ != name@,
            decreases names@.len() - j,
        {
            if str_is(&names[j].0, &name) {
                found_name = true;
                break;
            }
            j = j + 1;
        }
        if found_name {
            let entry = (Arc::clone(&name), id);
            names.set(j, entry);
            proof {
                assert(np[j as int].0 == name@);
                lemma_assoc_update(np, j as int, id);
                assert(name_pairs(names@) =~= np.update(j as int, (np[j as int].0, id)));
                assert forall|a: int, b: int|
                    0 <= a < b < name_pairs(names@).len() implies #[trigger] name_pairs(
                    names@,
                )[a].0 != #[trigger] name_pairs(names@)[b].0 by {
                    assert(np[a].0 != np[b].0);
                }
            }
        } else {
            let entry = (Arc::clone(&name), id);
            names.push(entry);
            proof {
                assert(name_pairs(names@) =~= np.push((name@, id)));
                assert(np.push((name@, id)).drop_last() =~= np);
                assert forall|a: int, b: int|
                    0 <= a < b < name_pairs(names@).len() implies #[trigger] name_pairs(
                    names@,
                )[a].0 != #[trigger] name_pairs(names@)[b].0 by {
                    if b < np.len() {
                        assert(np[a].0 != np[b].0);
                    } else {
                        assert(np[a].0 == old_names[a].0@);
                    }
                }
            }
        }
        // Categories by id.
        let category = Category { id, name };
        let prev = cats.insert(id, category);
        proof {
            assert(cats@ == old_cats.insert(id, Category { id, name }));
            assert(cats@.map_values(|c: Category| c.name_view()) =~= old_cats.map_values(
                |c: Category| c.name_view(),
            ).insert(id, name@));
        }
        std::mem::swap(&mut cats, &mut self.by_id);
        std::mem::swap(&mut names, &mut self.name_to_id);
        prev
    }

    /// Get category by ID.
    pub fn get(&self, id: u32) -> (c: Option<&Category>)
        ensures
            match c {
                Some(c) => self.names_by_id().contains_key(id) && c.id_view() == id && c.name_view()
                    == self.names_by_id()[id],
                None => !self.names_by_id().contains_key(id),
            },
    {
        proof {
            use_type_invariant(self);
        }
        self.by_id.get(&id)
    }

    /// Get category name by ID.
    pub fn get_name(&self, id: u32) -> (n: Option<&str>)
        ensures
            match n {
                Some(n) => self.names_by_id().contains_key(id) && n@ == self.names_by_id()[id],
                None => !self.names_by_id().contains_key(id),
            },
    {
        match self.get(id) {
            Some(c) => Some(c.name()),
            None => None,
        }
    }

    /// Get ID by name.
    pub fn get_id(&self, name: &str) -> (i: Option<u32>)
        ensures
            match i {
                Some(i) => self.ids_by_name().contains_key(name@) && i == self.ids_by_name()[name@],
                None => !self.ids_by_name().contains_key(name@),
            },
    {
        proof {
            use_type_invariant(self);
        }
        let ghost np = name_pairs(self.name_to_id@);
        let mut j: usize = 0;
        while j < self.name_to_id.len()
            invariant
                j <= self.name_to_id@.len(),
                np == name_pairs(self.name_to_id@),
                distinct_keys(np),
                forall|i: int| 0 <= i < j ==> #[trigger] self.name_to_id@[i].0@ != name@,
            decreases self.name_to_id@.len() - j,
        {
            if str_is(&self.name_to_id[j].0, name) {
                proof {
                    lemma_assoc_lookup(np, j as int);
                }
                return Some(self.name_to_id[j].1);
            }
            j = j + 1;
        }
        proof {
            assert forall|i: int| 0 <= i < np.len() implies #[trigger] np[i].0 != name@ by {
                assert(np[i].0 == self.name_to_id@[i].0@);
            }
            lemma_assoc_absent(np, name@);
        }
        None
    }

    /// Check if empty.
    pub fn is_empty(&self) -> (b: bool)
        ensures
            b == (self.names_by_id().dom().len() == 0),
    {
        self.len() == 0
    }

    /// Get number of categories.
    pub fn len(&self) -> (n: usize)
        ensures
            n == self.names_by_id().dom().len(),
    {
        proof {
            use_type_invariant(self);
            assert(self.names_by_id().dom() =~= self.by_id@.dom());
        }
        self.by_id.len()
    }

    /// The categories, each id once.
    pub fn iter(&self) -> (cats: Vec<Category>)
        ensures
            cats@.len() == self.names_by_id().dom().len(),
            forall|k: int|
                0 <= k < cats@.len() ==> self.names_by_id().contains_key(
                    #[trigger] cats@[k].id_view(),
                ) && self.names_by_id()[cats@[k].id_view()] == cats@[k].name_view(),
            forall|id: u32|
                #[trigger] self.names_by_id().contains_key(id) ==> exists|k: int|
                    0 <= k < cats@.len() && #[trigger] cats@[k].id_view() == id,
    {
        proof {
            use_type_invariant(self);
            assert(self.names_by_id().dom() =~= self.by_id@.dom());
        }
        let ghost m = self.by_id@;
        let ghost v = spec_hash_map_iter(&self.by_id).remaining();
        let mut out: Vec<Category> = Vec::new();
        for entry in it: self.by_id.iter()
            invariant
                m == self.by_id@,
                it.seq() == v,
                out@.len() == it.index(),
                forall|i: int| 0 <= i < it.index() ==> #[trigger] out@[i] == *v[i].1,
        {
            out.push(entry.1.clone_category());
        }
        proof {
            assert(out@.len() == v.len());
            assert forall|i: int| 0 <= i < out@.len() implies self.names_by_id().contains_key(
                #[trigger] out@[i].id_view(),
            ) && self.names_by_id()[out@[i].id_view()] == out@[i].name_view() by {
                assert(m.contains_key(*v[i].0) && m[*v[i].0] == *v[i].1);
                assert(m[*v[i].0].id == *v[i].0);
            }
            assert forall|id: u32| #[trigger] self.names_by_id().contains_key(id) implies exists|
                i: int,
            | 0 <= i < out@.len() && #[trigger] out@[i].id_view() == id by {
                assert(m.contains_key(id));
                assert(v.contains((&id, &m[id])));
                let i = choose|i: int| 0 <= i < v.len() && v[i] == (&id, &m[id]);
                assert(out@[i] == m[id]);
                assert(out@[i].id_view() == id);
            }
        }
        out
    }

    /// Create a remapping from one set of IDs to another: for each `(name, new_id)` of `remap`
    /// in turn, the id that `name` denotes is mapped to `new_id`, a later pair overriding an
    /// earlier one for the same id; names that denote no id are skipped.
    pub fn create_remapper(&self, remap: &Vec<(String, u32)>) -> (r: CategoryRemapper)
        ensures
            r.id_map() == remap_by_name(
                self.ids_by_name(),
                remap@.map_values(|p: (String, u32)| (p.0@, p.1)),
            ),
    {
        let ghost rs = remap@.map_values(|p: (String, u32)| (p.0@, p.1));
        let mut id_remap: HashMap<u32, u32> = HashMap::new();
        let mut k: usize = 0;
        while k < remap.len()
            invariant
                k <= remap@.len(),
                rs == remap@.map_values(|p: (String, u32)| (p.0@, p.1)),
                id_remap@ == remap_by_name(self.ids_by_name(), rs.subrange(0, k as int)),
            decreases remap@.len() - k,
        {
            proof {
                assert(rs.subrange(0, k + 1).drop_last() =~= rs.subrange(0, k as int));
            }
            match self.get_id(remap[k].0.as_str()) {
                Some(old_id) => {
                    id_remap.insert(old_id, remap[k].1);
                },
                None => {},
            }
            k = k + 1;
        }
        proof {
            assert(rs.subrange(0, rs.len() as int) =~= rs);
        }
        CategoryRemapper::from_id_map(id_remap)
    }
}

impl Default for CategoryMapping {
    fn default() -> (m: Self)
        ensures
            m.names_by_id() == Map::<u32, Seq<char>>::empty(),
            m.ids_by_name() == Map::<Seq<char>, u32>::empty(),
    {
        Self::new()
    }
}

impl Clone for CategoryMapping {
    fn clone(&self) -> (m: Self)
        ensures
            m.names_by_id() == self.names_by_id(),
            m.ids_by_name() == self.ids_by_name(),
    {
        proof {
            use_type_invariant(self);
        }
        let by_id = self.by_id.clone();
        let mut name_to_id: Vec<(Arc<str>, u32)> = Vec::new();
        let mut j: usize = 0;
        while j < self.name_to_id.len()
            invariant
                j <= self.name_to_id@.len(),
                name_to_id@.len() == j,
                forall|i: int|
                    0 <= i < j ==> #[trigger] name_to_id@[i] == self.name_to_id@[i],
            decreases self.name_to_id@.len() - j,
        {
            let entry = (Arc::clone(&self.name_to_id[j].0), self.name_to_id[j].1);
            name_to_id.push(entry);
            j = j + 1;
        }
        assert(name_to_id@ =~= self.name_to_id@);
        CategoryMapping { by_id, name_to_id }
    }
}

/// The id map that a list of `(name, new_id)` pairs makes through the name index `ids`: the
/// id each listed name denotes goes to its new id, a later pair overriding an earlier one.
pub open spec fn remap_by_name(ids: Map<Seq<char>, u32>, pairs: Seq<(Seq<char>, u32)>) -> Map<
    u32,
    u32,
>
    decreases pairs.len(),
{
    if pairs.len() == 0 {
        Map::empty()
    } else {
        let prev = remap_by_name(ids, pairs.drop_last());
        let (name, new_id) = pairs.last();
        if ids.contains_key(name) {
            prev.insert(ids[name], new_id)
        } else {
            prev
        }
    }
}

/// Bidirectional lookup: once a category is inserted, its id names it and its name denotes
/// its id, and every other id keeps the name it had.
pub proof fn lemma_insert_then_lookup(
    before: CategoryMapping,
    after: CategoryMapping,
    id: u32,
    name: Seq<char>,
    other: u32,
)
    requires
        after.names_by_id() == before.names_by_id().insert(id, name),
        after.ids_by_name() == before.ids_by_name().insert(name, id),
        other != id,
    ensures
        after.names_by_id().contains_key(id),
        after.names_by_id()[id] == name,
        after.ids_by_name().contains_key(name),
        after.ids_by_name()[name] == id,
        after.names_by_id().contains_key(other) == before.names_by_id().contains_key(other),
        before.names_by_id().contains_key(other) ==> after.names_by_id()[other]
            == before.names_by_id()[other],
{
}

/// Pair `k` of `pairs` lists a name that denotes the id `c` in `ids`.
pub open spec fn lists_id(ids: Map<Seq<char>, u32>, pairs: Seq<(Seq<char>, u32)>, k: int, c: u32) -> bool {
    0 <= k < pairs.len() && ids.contains_key(pairs[k].0) && ids[pairs[k].0] == c
}

proof fn lemma_lists_prefix(ids: Map<Seq<char>, u32>, pairs: Seq<(Seq<char>, u32)>, k: int, c: u32)
    requires
        pairs.len() > 0,
        k < pairs.len() - 1,
    ensures
        lists_id(ids, pairs.drop_last(), k, c) == lists_id(ids, pairs, k, c),
{
    if 0 <= k {
        assert(pairs.drop_last()[k] == pairs[k]);
    }
}

/// Remapping by name: an id is remapped exactly when some listed name denotes it.
pub proof fn lemma_remap_domain(ids: Map<Seq<char>, u32>, pairs: Seq<(Seq<char>, u32)>, c: u32)
    ensures
        remap_by_name(ids, pairs).contains_key(c) <==> exists|k: int| #[trigger] lists_id(ids, pairs, k, c),
    decreases pairs.len(),
{
    if pairs.len() > 0 {
        let p = pairs.drop_last();
        let n = pairs.len() - 1;
        lemma_remap_domain(ids, p, c);
        let prev = remap_by_name(ids, p);
        assert(pairs.last() == pairs[n]);
        assert(remap_by_name(ids, pairs).contains_key(c) <==> (prev.contains_key(c) || lists_id(
            ids,
            pairs,
            n,
            c,
        )));
        if exists|k: int| #[trigger] lists_id(ids, pairs, k, c) {
            let k = choose|k: int| #[trigger] lists_id(ids, pairs, k, c);
            if k < n {
                lemma_lists_prefix(ids, pairs, k, c);
                assert(lists_id(ids, p, k, c));
            }
        }
        if prev.contains_key(c) {
            let k = choose|k: int| #[trigger] lists_id(ids, p, k, c);
            lemma_lists_prefix(ids, pairs, k, c);
            assert(lists_id(ids, pairs, k, c));
        }
    }
}

/// Remapping by name: an id that pair `k` names, and no later pair, goes to pair `k`'s new id.
pub proof fn lemma_remap_last_pair_wins(
    ids: Map<Seq<char>, u32>,
    pairs: Seq<(Seq<char>, u32)>,
    k: int,
    c: u32,
)
    requires
        lists_id(ids, pairs, k, c),
        forall|j: int| k < j ==> !#[trigger] lists_id(ids, pairs, j, c),
    ensures
        remap_by_name(ids, pairs).contains_key(c),
        remap_by_name(ids, pairs)[c] == pairs[k].1,
    decreases pairs.len(),
{
    let p = pairs.drop_last();
    let n = pairs.len() - 1;
    if k < n {
        assert(!lists_id(ids, pairs, n, c));
        lemma_lists_prefix(ids, pairs, k, c);
        assert forall|j: int| k < j implies !#[trigger] lists_id(ids, p, j, c) by {
            if j < n {
                lemma_lists_prefix(ids, pairs, j, c);
            }
        }
        lemma_remap_last_pair_wins(ids, p, k, c);
    }
}

impl Category {
    /// A copy of this category.
    fn clone_category(&self) -> (c: Category)
        ensures
            c == *self,
    {
        Category { id: self.id, name: Arc::clone(&self.name) }
    }
}

} // verus!
