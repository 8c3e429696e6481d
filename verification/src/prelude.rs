//! Shared, immutable context captured once from the prolog and handed to every
//! record, so that a record reads correctly in isolation.

use vstd::prelude::*;

use crate::text::{boxed, str_eq};

verus! {

/// Resolved document encoding.
#[derive(Debug, Clone, Copy, PartialEq, Eq, Structural)]
pub enum Encoding {
    /// UTF-8, the only encoding that is read.
    Utf8,
}

impl Default for Encoding {
    fn default() -> (r: Self)
        ensures
            r == Encoding::Utf8,
    {
        Encoding::Utf8
    }
}

/// The position of the first pair of `pairs` whose name is `k`.
pub open spec fn first_named(pairs: Seq<(Seq<char>, Seq<char>)>, k: Seq<char>) -> Option<int>
    decreases pairs.len(),
{
    if pairs.len() == 0 {
        None
    } else {
        match first_named(pairs.drop_last(), k) {
            Some(i) => Some(i),
            None => if pairs.last().0 == k {
                Some(pairs.len() - 1)
            } else {
                None
            },
        }
    }
}

/// The map that a list of pairs stands for: a name means its first pair.
pub open spec fn map_of(pairs: Seq<(Seq<char>, Seq<char>)>) -> Map<Seq<char>, Seq<char>> {
    Map::new(
        |k: Seq<char>| first_named(pairs, k) is Some,
        |k: Seq<char>| pairs[first_named(pairs, k)->0].1,
    )
}

proof fn lemma_first_named(pairs: Seq<(Seq<char>, Seq<char>)>, k: Seq<char>)
    ensures
        match first_named(pairs, k) {
            Some(i) => 0 <= i < pairs.len() && pairs[i].0 == k && forall|j: int|
                0 <= j < i ==> (#[trigger] pairs[j]).0 != k,
            None => forall|j: int| 0 <= j < pairs.len() ==> (#[trigger] pairs[j]).0 != k,
        },
    decreases pairs.len(),
{
    if pairs.len() > 0 {
        lemma_first_named(pairs.drop_last(), k);
        let d = pairs.drop_last();
        assert(forall|j: int| 0 <= j < d.len() ==> d[j] == pairs[j]);
    }
}

proof fn lemma_first_named_is(pairs: Seq<(Seq<char>, Seq<char>)>, k: Seq<char>, i: int)
    requires
        0 <= i < pairs.len(),
        pairs[i].0 == k,
        forall|j: int| 0 <= j < i ==> (#[trigger] pairs[j]).0 != k,
    ensures
        first_named(pairs, k) == Some(i),
{
    lemma_first_named(pairs, k);
    let f = first_named(pairs, k);
    assert(f is Some) by {
        if f is None {
            assert(pairs[i].0 != k);
        }
    }
    if f->0 < i {
        assert(pairs[f->0].0 != k);
    }
    if i < f->0 {
        assert(pairs[i].0 != k);
    }
}

/// Putting `v` in place of the first pair named `k`, or behind a list without
/// one, binds `k` to `v` and leaves every other name alone.
proof fn lemma_map_insert(
    before: Seq<(Seq<char>, Seq<char>)>,
    after: Seq<(Seq<char>, Seq<char>)>,
    k: Seq<char>,
    v: Seq<char>,
)
    requires
        match first_named(before, k) {
            Some(i) => after == before.update(i, (k, v)),
            None => after == before.push((k, v)),
        },
    ensures
        map_of(after) == map_of(before).insert(k, v),
{
    lemma_first_named(before, k);
    assert forall|q: Seq<char>| #![trigger first_named(after, q)]
        map_of(after).dom().contains(q) == map_of(before).insert(k, v).dom().contains(q) && (map_of(
            after,
        ).dom().contains(q) ==> map_of(after)[q] == map_of(before).insert(k, v)[q]) by {
        lemma_first_named(before, q);
        lemma_first_named(after, q);
        match first_named(before, k) {
            Some(i) => {
                assert(forall|j: int|
                    0 <= j < before.len() ==> (#[trigger] after[j]).0 == before[j].0);
                match first_named(before, q) {
                    Some(f) => {
                        lemma_first_named_is(after, q, f);
                    },
                    None => {
                        match first_named(after, q) {
                            Some(f) => {
                                assert(before[f].0 == q);
                            },
                            None => {},
                        }
                    },
                }
            },
            None => {
                assert(forall|j: int| 0 <= j < before.len() ==> #[trigger] after[j] == before[j]);
                match first_named(before, q) {
                    Some(f) => {
                        lemma_first_named_is(after, q, f);
                    },
                    None => {
                        if q == k {
                            lemma_first_named_is(after, q, before.len() as int);
                        } else {
                            match first_named(after, q) {
                                Some(f) => {
                                    if f < before.len() {
                                        assert(before[f].0 == q);
                                    }
                                },
                                None => {},
                            }
                        }
                    },
                }
            },
        }
    }
    assert(map_of(after) =~= map_of(before).insert(k, v)) by {
        assert forall|q: Seq<char>| map_of(after).dom().contains(q) == map_of(before).insert(
            k,
            v,
        ).dom().contains(q) by {
            let _ = first_named(after, q);
        }
        assert forall|q: Seq<char>| map_of(after).dom().contains(q) implies map_of(after)[q]
            == map_of(before).insert(k, v)[q] by {
            let _ = first_named(after, q);
        }
    }
}

/// A map from names to text, kept as a list of pairs in which an insertion
/// replaces what the name meant before.
#[derive(Debug)]
pub struct NameMap {
    entries: Vec<(Box<str>, Box<str>)>,
}

impl View for NameMap {
    type V = Map<Seq<char>, Seq<char>>;

    closed spec fn view(&self) -> Map<Seq<char>, Seq<char>> {
        map_of(self.pairs())
    }
}

impl NameMap {
    closed spec fn pairs(&self) -> Seq<(Seq<char>, Seq<char>)> {
        Seq::new(self.entries@.len(), |i: int| (self.entries@[i].0@, self.entries@[i].1@))
    }

    /// The empty map.
    pub fn new() -> (r: Self)
        ensures
            r@ == Map::<Seq<char>, Seq<char>>::empty(),
    {
        let r = NameMap { entries: Vec::new() };
        assert(r@ =~= Map::<Seq<char>, Seq<char>>::empty());
        r
    }

    fn position(&self, name: &str) -> (r: Option<usize>)
        ensures
            match r {
                Some(i) => i < self.entries@.len() && first_named(self.pairs(), name@) == Some(
                    i as int,
                ),
                None => first_named(self.pairs(), name@) is None,
            },
    {
        let mut i: usize = 0;
        while i < self.entries.len()
            invariant
                i <= self.entries@.len(),
                forall|j: int| 0 <= j < i ==> (#[trigger] self.pairs()[j]).0 != name@,
            decreases self.entries@.len() - i,
        {
            if str_eq(&*self.entries[i].0, name) {
                proof {
                    lemma_first_named_is(self.pairs(), name@, i as int);
                }
                return Some(i);
            }
            assert(self.pairs()[i as int].0 != name@);
            i = i + 1;
        }
        proof {
            lemma_first_named(self.pairs(), name@);
        }
        None
    }

    /// Binds `name` to `text`, replacing an earlier binding.
    pub fn insert(&mut self, name: Box<str>, text: Box<str>)
        ensures
            final(self)@ == old(self)@.insert(name@, text@),
    {
        let ghost before = self.pairs();
        let ghost k = name@;
        let ghost v = text@;
        match self.position(&*name) {
            Some(i) => {
                self.entries.set(i, (name, text));
                assert(self.pairs() =~= before.update(i as int, (k, v)));
            },
            None => {
                self.entries.push((name, text));
                assert(self.pairs() =~= before.push((k, v)));
            },
        }
        proof {
            lemma_map_insert(before, self.pairs(), k, v);
        }
    }

    /// What `name` is bound to.
    pub fn get(&self, name: &str) -> (r: Option<&Box<str>>)
        ensures
            match r {
                Some(t) => self@.dom().contains(name@) && t@ == self@[name@],
                None => !self@.dom().contains(name@),
            },
    {
        match self.position(name) {
            Some(i) => Some(&self.entries[i].1),
            None => None,
        }
    }
}

impl Clone for NameMap {
    fn clone(&self) -> (r: Self)
        ensures
            r@ == self@,
    {
        let mut entries: Vec<(Box<str>, Box<str>)> = Vec::new();
        let mut i: usize = 0;
        while i < self.entries.len()
            invariant
                i <= self.entries@.len(),
                entries@.len() == i,
                forall|j: int|
                    0 <= j < i ==> (#[trigger] entries@[j]).0@ == self.entries@[j].0@
                        && entries@[j].1@ == self.entries@[j].1@,
            decreases self.entries@.len() - i,
        {
            let name = boxed(&*self.entries[i].0);
            let text = boxed(&*self.entries[i].1);
            entries.push((name, text));
            i = i + 1;
        }
        let r = NameMap { entries };
        assert(r.pairs() =~= self.pairs());
        r
    }
}

/// Namespace declarations (`xmlns` / `xmlns:prefix`) in effect for the records,
/// captured from the root and from every element descended into on the way to
/// the record container. Declarations made inside a record are local to it and
/// are not stored here.
///
/// This is one flat context shared by all records. Where several containers
/// declare the same prefix, the last declaration in document order wins.
#[derive(Debug)]
pub struct NamespaceContext {
    decls: NameMap,
}

impl View for NamespaceContext {
    type V = Map<Seq<char>, Seq<char>>;

    /// Prefix (empty = default namespace) to namespace URI.
    closed spec fn view(&self) -> Map<Seq<char>, Seq<char>> {
        self.decls@
    }
}

impl NamespaceContext {
    /// An empty context.
    pub fn new() -> (r: Self)
        ensures
            r@ == Map::<Seq<char>, Seq<char>>::empty(),
    {
        NamespaceContext { decls: NameMap::new() }
    }

    /// Record a declaration; a later one for the same prefix replaces it.
    pub fn insert<P, U>(&mut self, prefix: P, uri: U) where P: Into<Box<str>>, U: Into<Box<str>>
        ensures
            exists|p: Box<str>, u: Box<str>|
                {
                    &&& #[trigger] call_ensures(P::into, (prefix,), p)
                    &&& #[trigger] call_ensures(U::into, (uri,), u)
                    &&& final(self)@ == old(self)@.insert(p@, u@)
                },
    {
        let p: Box<str> = prefix.into();
        let u: Box<str> = uri.into();
        self.declare(p, u);
    }

    /// Record a declaration whose prefix and URI are boxed already; a later one
    /// for the same prefix replaces it.
    pub fn declare(&mut self, prefix: Box<str>, uri: Box<str>)
        ensures
            final(self)@ == old(self)@.insert(prefix@, uri@),
    {
        self.decls.insert(prefix, uri);
    }

    /// Resolve a prefix to its namespace URI, if declared.
    pub fn resolve(&self, prefix: &str) -> (r: Option<&str>)
        ensures
            match r {
                Some(u) => self@.dom().contains(prefix@) && u@ == self@[prefix@],
                None => !self@.dom().contains(prefix@),
            },
    {
        match self.decls.get(prefix) {
            Some(u) => Some(&**u),
            None => None,
        }
    }
}

impl Default for NamespaceContext {
    fn default() -> (r: Self)
        ensures
            r@ == Map::<Seq<char>, Seq<char>>::empty(),
    {
        Self::new()
    }
}

impl Clone for NamespaceContext {
    fn clone(&self) -> (r: Self)
        ensures
            r@ == self@,
    {
        NamespaceContext { decls: self.decls.clone() }
    }
}

/// The replacement text of the entities that XML itself defines.
pub open spec fn predefined(name: Seq<char>) -> Option<Seq<char>> {
    if name == "lt"@ {
        Some("<"@)
    } else if name == "gt"@ {
        Some(">"@)
    } else if name == "amp"@ {
        Some("&"@)
    } else if name == "apos"@ {
        Some("'"@)
    } else if name == "quot"@ {
        Some("\""@)
    } else {
        None
    }
}

/// What a reference to the entity `name` stands for: a predefined entity
/// first, otherwise a declared one.
pub open spec fn entity_text(entities: Map<Seq<char>, Seq<char>>, name: Seq<char>) -> Option<
    Seq<char>,
> {
    match predefined(name) {
        Some(t) => Some(t),
        None => if entities.dom().contains(name) {
            Some(entities[name])
        } else {
            None
        },
    }
}

/// Calls `quick_xml::escape::resolve_predefined_entity`. The claim: it knows
/// exactly `lt`, `gt`, `amp`, `apos` and `quot`, and returns the character that
/// each stands for.
#[verifier::external_body]
fn resolve_predefined(name: &str) -> (r: Option<&'static str>)
    ensures
        match r {
            Some(t) => predefined(name@) == Some(t@),
            None => predefined(name@) is None,
        },
{
    quick_xml::escape::resolve_predefined_entity(name)
}

/// Resolve an entity name against the predefined XML entities, then `entities`.
pub fn lookup_entity<'a>(entities: &'a NameMap, name: &str) -> (r: Option<&'a str>)
    ensures
        match r {
            Some(t) => entity_text(entities@, name@) == Some(t@),
            None => entity_text(entities@, name@) is None,
        },
{
    match resolve_predefined(name) {
        Some(t) => Some(t),
        None => match entities.get(name) {
            Some(t) => Some(&**t),
            None => None,
        },
    }
}

/// Immutable context shared by all records.
#[derive(Debug)]
pub struct Prelude {
    /// Resolved encoding of the source document.
    pub encoding: Encoding,
    /// The root element's qualified name.
    pub root_name: Box<str>,
    /// Namespace declarations in effect for every record.
    pub namespaces: NamespaceContext,
    /// Internal-subset `<!ENTITY>` definitions (name to replacement text).
    pub entities: NameMap,
}

/// A [`Prelude`] over mathematical values.
#[verifier::ext_equal]
pub struct Context {
    pub root_name: Seq<char>,
    pub namespaces: Map<Seq<char>, Seq<char>>,
    pub entities: Map<Seq<char>, Seq<char>>,
}

impl View for Prelude {
    type V = Context;

    open spec fn view(&self) -> Context {
        Context {
            root_name: self.root_name@,
            namespaces: self.namespaces@,
            entities: self.entities@,
        }
    }
}

impl Prelude {
    /// Resolve an entity reference by name. Predefined XML entities (`lt`, `gt`,
    /// `amp`, `apos`, `quot`) take precedence over declared ones.
    pub fn resolve_entity(&self, name: &str) -> (r: Option<&str>)
        ensures
            match r {
                Some(t) => entity_text(self@.entities, name@) == Some(t@),
                None => entity_text(self@.entities, name@) is None,
            },
    {
        lookup_entity(&self.entities, name)
    }
}

impl Clone for Prelude {
    fn clone(&self) -> (r: Self)
        ensures
            r@ == self@,
    {
        Prelude {
            encoding: self.encoding,
            root_name: boxed(&*self.root_name),
            namespaces: self.namespaces.clone(),
            entities: self.entities.clone(),
        }
    }
}

/// A predefined entity means what XML says whatever the document declares.
pub proof fn law_predefined_entities_win(
    entities: Map<Seq<char>, Seq<char>>,
    name: Seq<char>,
    text: Seq<char>,
)
    requires
        predefined(name) is Some,
    ensures
        entity_text(entities.insert(name, text), name) == predefined(name),
{
}

} // verus!
