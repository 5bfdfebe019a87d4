use vstd::prelude::*;

use crate::strings::{assoc, concat_all, contains_text, find_key, has_key, keys_distinct};

verus! {

/// The text of each string of `names`, in order.
pub open spec fn texts(names: Seq<String>) -> Seq<Seq<char>> {
    names.map_values(|t: String| t@)
}

/// `mapping` binds exactly the declared parameters `types`: no key twice, none
/// missing, none extra.
pub open spec fn variant_matches(types: Seq<String>, mapping: Seq<(String, String)>) -> bool {
    &&& keys_distinct(mapping)
    &&& forall|i: int| 0 <= i < types.len() ==> has_key(mapping, (#[trigger] types[i])@)
    &&& forall|j: int| 0 <= j < mapping.len() ==> contains_text(types, (#[trigger] mapping[j]).0@)
}

/// The resolved type of each declared parameter, in declaration order.
pub open spec fn resolved_in_order(types: Seq<String>, mapping: Seq<(String, String)>) -> Seq<
    Seq<char>,
> {
    Seq::new(
        types.len(),
        |i: int|
            match assoc(mapping, types[i]@) {
                Some(v) => v@,
                None => Seq::empty(),
            },
    )
}

/// The key under which a variant is stored: its resolved types, concatenated in
/// declaration order.
pub open spec fn variant_key(types: Seq<String>, mapping: Seq<(String, String)>) -> Seq<char> {
    concat_all(resolved_in_order(types, mapping))
}

/// The generic parameters of a declaration and the concrete instantiations
/// seen for it.
pub struct GenericContext {
    /// The declared generic parameter names, in order.
    pub types: Vec<String>,
    /// Each variant under its key, with its parameter-to-type mapping.
    pub translation_variants: Vec<(String, Vec<(String, String)>)>,
    /// The key of the variant whose substitutions are currently visible.
    pub currently_used_variant: Option<String>,
}

impl GenericContext {
    /// Every stored variant binds exactly the declared parameters, is stored
    /// under its own key, and no key is stored twice.
    pub open spec fn wf(&self) -> bool {
        &&& keys_distinct(self.translation_variants@)
        &&& forall|k: int|
            0 <= k < self.translation_variants@.len() ==> {
                let (key, mapping) = #[trigger] self.translation_variants@[k];
                variant_matches(self.types@, mapping@) && key@ == variant_key(
                    self.types@,
                    mapping@,
                )
            }
    }

    /// The mapping stored under `key`, if any.
    pub open spec fn variant(&self, key: Seq<char>) -> Option<Seq<(String, String)>> {
        match assoc(self.translation_variants@, key) {
            Some(m) => Some(m@),
            None => None,
        }
    }

    /// `add_generic_variant(mapping)` stores a new variant.
    pub open spec fn accepts(&self, mapping: Seq<(String, String)>) -> bool {
        variant_matches(self.types@, mapping) && self.variant(
            variant_key(self.types@, mapping),
        ) is None
    }

    /// `after` is this record once `add_generic_variant(mapping)` has run: the
    /// mapping is appended under its key if accepted, and nothing changes
    /// otherwise.
    pub open spec fn adds(&self, after: Self, mapping: Seq<(String, String)>) -> bool {
        &&& after.wf()
        &&& after.types == self.types
        &&& after.currently_used_variant == self.currently_used_variant
        &&& self.accepts(mapping) ==> {
            &&& after.translation_variants@.len() == self.translation_variants@.len() + 1
            &&& after.translation_variants@.drop_last() == self.translation_variants@
            &&& after.translation_variants@.last().0@ == variant_key(self.types@, mapping)
            &&& after.translation_variants@.last().1@ == mapping
        }
        &&& !self.accepts(mapping) ==> after.translation_variants == self.translation_variants
    }

    /// What `identifier` stands for under the active variant, if anything.
    pub open spec fn resolve(&self, identifier: Seq<char>) -> Option<Seq<char>> {
        match self.currently_used_variant {
            Some(key) => match assoc(self.translation_variants@, key@) {
                Some(m) => match assoc(m@, identifier) {
                    Some(v) => Some(v@),
                    None => None,
                },
                None => None,
            },
            None => None,
        }
    }

    pub fn new(types: Vec<String>) -> (r: Self)
        ensures
            r.wf(),
            r.types == types,
            r.translation_variants@.len() == 0,
            r.currently_used_variant is None,
    {
        GenericContext { types, translation_variants: Vec::new(), currently_used_variant: None }
    }

    pub fn generic_variant_suffix_from_types(types: &Vec<String>) -> (r: String)
        ensures
            r@ == concat_all(texts(types@)),
    {
        let mut r = String::new();
        let mut i: usize = 0;
        while i < types.len()
            invariant
                i <= types@.len(),
                r@ == concat_all(texts(types@.take(i as int))),
            decreases types@.len() - i,
        {
            proof {
                let next = texts(types@.take(i as int + 1));
                assert(next.drop_last() =~= texts(types@.take(i as int)));
                assert(next.last() == types@[i as int]@);
            }
            r.append(types[i].as_str());
            i += 1;
        }
        proof {
            assert(types@.take(i as int) =~= types@);
        }
        r
    }

    /// Whether `types` binds exactly this declaration's parameters.
    fn is_variant_valid(&self, types: &Vec<(String, String)>) -> (r: bool)
        ensures
            r == variant_matches(self.types@, types@),
    {
        let mut i: usize = 0;
        while i < types.len()
            invariant
                i <= types@.len(),
                forall|a: int, b: int|
                    0 <= a < i && 0 <= b < types@.len() && a != b ==> (#[trigger] types@[a]).0@
                        != (#[trigger] types@[b]).0@,
            decreases types@.len() - i,
        {
            let mut j: usize = 0;
            while j < types.len()
                invariant
                    i < types@.len(),
                    j <= types@.len(),
                    forall|a: int, b: int|
                        0 <= a < i && 0 <= b < types@.len() && a != b ==> (#[trigger] types@[a]).0@
                            != (#[trigger] types@[b]).0@,
                    forall|b: int|
                        0 <= b < j && b != i ==> types@[i as int].0@ != (#[trigger] types@[b]).0@,
                decreases types@.len() - j,
            {
                if j != i && types[i].0.eq(&types[j].0) {
                    return false;
                }
                j += 1;
            }
            i += 1;
        }
        let mut i: usize = 0;
        while i < self.types.len()
            invariant
                i <= self.types@.len(),
                keys_distinct(types@),
                forall|a: int| 0 <= a < i ==> has_key(types@, (#[trigger] self.types@[a])@),
            decreases self.types@.len() - i,
        {
            if find_key(types, &self.types[i]).is_none() {
                return false;
            }
            i += 1;
        }
        let mut j: usize = 0;
        while j < types.len()
            invariant
                j <= types@.len(),
                keys_distinct(types@),
                forall|a: int| 0 <= a < self.types@.len() ==> has_key(types@, (#[trigger] self.types@[a])@),
                forall|b: int| 0 <= b < j ==> contains_text(self.types@, (#[trigger] types@[b]).0@),
            decreases types@.len() - j,
        {
            let mut i: usize = 0;
            let mut found = false;
            while i < self.types.len()
                invariant
                    j < types@.len(),
                    i <= self.types@.len(),
                    found ==> contains_text(self.types@, types@[j as int].0@),
                    !found ==> forall|a: int|
                        0 <= a < i ==> (#[trigger] self.types@[a])@ != types@[j as int].0@,
                decreases self.types@.len() - i,
            {
                if self.types[i].eq(&types[j].0) {
                    found = true;
                }
                i += 1;
            }
            if !found {
                proof {
                    let key = types@[j as int].0@;
                    assert(!contains_text(self.types@, key));
                }
                return false;
            }
            j += 1;
        }
        true
    }

    /// Records `types` as a variant, unless it does not bind exactly the
    /// declared parameters or a variant with the same resolved types exists.
    pub fn add_generic_variant(&mut self, types: Vec<(String, String)>)
        requires
            old(self).wf(),
        ensures
            old(self).adds(*final(self), types@),
    {
        if !self.is_variant_valid(&types) {
            return;
        }
        let mut resolved: Vec<String> = Vec::new();
        let mut i: usize = 0;
        while i < self.types.len()
            invariant
                i <= self.types@.len(),
                variant_matches(self.types@, types@),
                resolved@.len() == i,
                texts(resolved@) =~= resolved_in_order(self.types@, types@).take(i as int),
            decreases self.types@.len() - i,
        {
            let found = find_key(&types, &self.types[i]);
            proof {
                assert(has_key(types@, self.types@[i as int]@));
            }
            let j = found.unwrap();
            let ghost before = resolved@;
            let value = types[j].1.clone();
            resolved.push(value);
            proof {
                assert(resolved@ == before.push(value));
                assert(resolved_in_order(self.types@, types@)[i as int] == value@);
                assert(texts(resolved@)[i as int] == value@);
                assert(texts(resolved@) =~= resolved_in_order(self.types@, types@).take(i as int + 1));
            }
            i += 1;
        }
        let identifier = Self::generic_variant_suffix_from_types(&resolved);
        proof {
            assert(resolved_in_order(self.types@, types@).take(i as int) =~= resolved_in_order(self.types@, types@));
        }
        if find_key(&self.translation_variants, &identifier).is_some() {
            return;
        }
        let ghost prev = self.translation_variants@;
        self.translation_variants.push((identifier, types));
        proof {
            assert(self.translation_variants@.drop_last() =~= prev);
            assert forall|a: int, b: int|
                0 <= a < self.translation_variants@.len() && 0 <= b < self.translation_variants@.len() && a != b
                implies (#[trigger] self.translation_variants@[a]).0@ != (#[trigger] self.translation_variants@[b]).0@ by {
                if a < prev.len() && b < prev.len() {
                    assert(prev[a] == self.translation_variants@[a]);
                    assert(prev[b] == self.translation_variants@[b]);
                } else if a < prev.len() {
                    assert(prev[a] == self.translation_variants@[a]);
                } else {
                    assert(prev[b] == self.translation_variants@[b]);
                }
            }
            assert forall|k: int| 0 <= k < self.translation_variants@.len() implies {
                let (key, mapping) = #[trigger] self.translation_variants@[k];
                variant_matches(self.types@, mapping@) && key@ == variant_key(self.types@, mapping@)
            } by {
                if k < prev.len() {
                    assert(prev[k] == self.translation_variants@[k]);
                }
            }
        }
    }

    /// The resolved type that `identifier` stands for under the active
    /// variant, if it is one of that variant's parameters.
    pub fn transform_if_generic_type(&self, identifier: &String) -> (r: Option<String>)
        ensures
            match r {
                Some(s) => self.resolve(identifier@) == Some(s@),
                None => self.resolve(identifier@) is None,
            },
    {
        match &self.currently_used_variant {
            Some(key) => match find_key(&self.translation_variants, key) {
                Some(k) => match find_key(&self.translation_variants[k].1, identifier) {
                    Some(j) => Some(self.translation_variants[k].1[j].1.clone()),
                    None => None,
                },
                None => None,
            },
            None => None,
        }
    }

    /// Selects the variant whose substitutions `resolve` reads, or none.
    pub fn set_active_variant(&mut self, key: Option<String>)
        requires
            old(self).wf(),
        ensures
            final(self).wf(),
            final(self).types == old(self).types,
            final(self).translation_variants == old(self).translation_variants,
            final(self).currently_used_variant == key,
    {
        self.currently_used_variant = key;
    }
}

/// What `mapping` binds `key` to, as text.
pub open spec fn binding(mapping: Seq<(String, String)>, key: Seq<char>) -> Option<Seq<char>> {
    match assoc(mapping, key) {
        Some(v) => Some(v@),
        None => None,
    }
}

/// A key is bound exactly when some entry has it.
proof fn lemma_binding_some(mapping: Seq<(String, String)>, key: Seq<char>)
    ensures
        binding(mapping, key) is Some <==> has_key(mapping, key),
{
}

/// Registering the same resolved types a second time, with the entries in
/// any order, stores nothing new: one variant holds that combination.
pub proof fn lemma_same_combination_stored_once(
    g0: GenericContext,
    g1: GenericContext,
    g2: GenericContext,
    first: Seq<(String, String)>,
    second: Seq<(String, String)>,
)
    requires
        g0.wf(),
        g0.adds(g1, first),
        g1.adds(g2, second),
        variant_matches(g0.types@, first),
        keys_distinct(second),
        forall|k: Seq<char>| #[trigger] binding(first, k) == binding(second, k),
    ensures
        g2.translation_variants == g1.translation_variants,
        g1.variant(variant_key(g0.types@, first)) is Some,
        variant_key(g0.types@, second) == variant_key(g0.types@, first),
{
    let types = g0.types@;
    assert(resolved_in_order(types, first) =~= resolved_in_order(types, second)) by {
        assert forall|i: int| 0 <= i < types.len() implies resolved_in_order(types, first)[i]
            == resolved_in_order(types, second)[i] by {
            assert(binding(first, types[i]@) == binding(second, types[i]@));
        }
    }
    assert(variant_matches(types, second)) by {
        assert forall|i: int| 0 <= i < types.len() implies has_key(second, (#[trigger] types[i])@) by {
            lemma_binding_some(first, types[i]@);
            lemma_binding_some(second, types[i]@);
            assert(binding(first, types[i]@) == binding(second, types[i]@));
        }
        assert forall|j: int| 0 <= j < second.len() implies contains_text(types, (#[trigger] second[j]).0@) by {
            let k = second[j].0@;
            lemma_binding_some(first, k);
            lemma_binding_some(second, k);
            assert(has_key(second, k));
            assert(binding(first, k) == binding(second, k));
            let m = choose|m: int| 0 <= m < first.len() && (#[trigger] first[m]).0@ == k;
            assert(contains_text(types, first[m].0@));
        }
    }
    let key = variant_key(types, first);
    if g0.accepts(first) {
        let tv = g1.translation_variants@;
        assert(tv[tv.len() - 1].0@ == key);
        assert(has_key(tv, key));
    } else {
        assert(g1.translation_variants == g0.translation_variants);
    }
}

/// A mapping that leaves out a declared parameter, or binds one that is not
/// declared, is not recorded.
pub proof fn lemma_mismatched_mapping_rejected(
    g0: GenericContext,
    g1: GenericContext,
    mapping: Seq<(String, String)>,
)
    requires
        g0.wf(),
        g0.adds(g1, mapping),
        (exists|i: int| 0 <= i < g0.types@.len() && !has_key(mapping, (#[trigger] g0.types@[i])@))
            || (exists|j: int| 0 <= j < mapping.len() && !contains_text(g0.types@, (#[trigger] mapping[j]).0@)),
    ensures
        g1.translation_variants == g0.translation_variants,
{
}

} // verus!
