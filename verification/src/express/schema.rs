//! The parsed schema and the attribute layouts it implies.
use vstd::prelude::*;
use vstd::string::*;
use crate::error::Result;

verus! {

/// Inheritance chains deeper than this are treated as unresolvable, so a
/// malformed schema cannot exhaust the stack.
pub const MAX_INHERITANCE_DEPTH: usize = 256;

/// An entity declaration. Names are upper-cased.
#[derive(Debug, Clone, PartialEq, Eq)]
pub struct Entity {
    /// The entity name.
    pub name: String,
    /// True for `ABSTRACT SUPERTYPE`.
    pub is_abstract: bool,
    /// Direct supertypes, in `SUBTYPE OF` order.
    pub supertypes: Vec<String>,
    /// Explicit attributes declared by this entity, in order. These are the
    /// attributes the entity adds to a record.
    pub attributes: Vec<Attribute>,
    /// Inherited explicit attributes this entity redeclares with a narrower
    /// type. A redeclaration adds no attribute to a record.
    pub redeclared: Vec<Redeclaration>,
    /// Inherited explicit attributes this entity redeclares as derived.
    /// Their value is written `*` in a Part 21 record.
    pub derived: Vec<AttributeRef>,
}

/// An explicit attribute.
#[derive(Debug, Clone, PartialEq, Eq)]
pub struct Attribute {
    /// The attribute name.
    pub name: String,
    /// True for `OPTIONAL`: the value may be `$`.
    pub optional: bool,
    /// The declared type.
    pub ty: TypeRef,
}

/// `SELF\entity.attribute` in a redeclaration.
#[derive(Debug, Clone, PartialEq, Eq)]
pub struct AttributeRef {
    /// The supertype named after `SELF\`.
    pub entity: String,
    /// The attribute name.
    pub attribute: String,
}

/// An explicit redeclaration of an inherited attribute.
#[derive(Debug, Clone, PartialEq, Eq)]
pub struct Redeclaration {
    /// The attribute being redeclared.
    pub attribute: AttributeRef,
    /// True if the redeclaration is `OPTIONAL`.
    pub optional: bool,
    /// The narrowed type.
    pub ty: TypeRef,
}

/// A type as written in an attribute or type declaration.
#[derive(Debug, PartialEq, Eq)]
pub enum TypeRef {
    /// A defined type or entity, by upper-cased name.
    Named(String),
    /// A built-in simple type such as `STRING`, `REAL` or `LOGICAL`.
    Builtin(String),
    /// `SET`, `BAG`, `LIST`, `ARRAY` or `AGGREGATE`.
    Aggregate {
        /// Which aggregate.
        kind: AggregateKind,
        /// The lower bound when it is a literal; `SET OF x` without bounds
        /// has lower bound 0. `None` for a bound given as an expression.
        lower: Option<u64>,
        /// The upper bound when it is a literal; `None` for `?` or an
        /// expression.
        upper: Option<u64>,
        /// The element type.
        element: Box<TypeRef>,
    },
}

/// A copy of `t`.
pub fn copy_type(t: &TypeRef) -> (r: TypeRef)
    ensures
        r == *t,
    decreases t,
{
    match t {
        TypeRef::Named(name) => TypeRef::Named(name.clone()),
        TypeRef::Builtin(name) => TypeRef::Builtin(name.clone()),
        TypeRef::Aggregate { kind, lower, upper, element } => TypeRef::Aggregate {
            kind: *kind,
            lower: *lower,
            upper: *upper,
            element: Box::new(copy_type(element)),
        },
    }
}

impl Clone for TypeRef {
    fn clone(&self) -> (r: Self)
        ensures
            r == *self,
    {
        copy_type(self)
    }
}

/// The kind of an aggregate type.
#[derive(Debug, Clone, Copy, PartialEq, Eq, Structural)]
pub enum AggregateKind {
    /// `ARRAY`
    Array,
    /// `BAG`
    Bag,
    /// `LIST`
    List,
    /// `SET` (named so because `Set` is a word of the verifier)
    SetOf,
    /// `AGGREGATE`, in algorithm parameters.
    Aggregate,
}

/// The underlying type of a `TYPE` declaration.
#[derive(Debug, Clone, PartialEq, Eq)]
pub enum TypeDef {
    /// `TYPE t = <type>;`
    Alias(TypeRef),
    /// A `SELECT` or `ENUMERATION`, whose contents do not affect layout.
    Constructed,
}

// ---------------------------------------------------------------------
// Plain views of what a schema holds.
// ---------------------------------------------------------------------

/// A [`TypeRef`] as plain values.
pub enum TypeRefView {
    Named(Seq<char>),
    Builtin(Seq<char>),
    Aggregate { kind: AggregateKind, lower: Option<u64>, upper: Option<u64>, element: Box<TypeRefView> },
}

/// The view of `t`.
pub open spec fn type_view(t: TypeRef) -> TypeRefView
    decreases t,
{
    match t {
        TypeRef::Named(n) => TypeRefView::Named(n@),
        TypeRef::Builtin(n) => TypeRefView::Builtin(n@),
        TypeRef::Aggregate { kind, lower, upper, element } => TypeRefView::Aggregate {
            kind,
            lower,
            upper,
            element: Box::new(type_view(*element)),
        },
    }
}

/// An [`Attribute`] as plain values.
pub struct AttributeView {
    pub name: Seq<char>,
    pub optional: bool,
    pub ty: TypeRefView,
}

/// A [`Redeclaration`] as plain values: the supertype, the attribute,
/// whether it is optional, and the narrowed type.
pub struct RedeclarationView {
    pub entity: Seq<char>,
    pub attribute: Seq<char>,
    pub optional: bool,
    pub ty: TypeRefView,
}

/// An [`Entity`] as plain values; a derived redeclaration is the supertype
/// and the attribute.
pub struct EntityView {
    pub name: Seq<char>,
    pub is_abstract: bool,
    pub supertypes: Seq<Seq<char>>,
    pub attributes: Seq<AttributeView>,
    pub redeclared: Seq<RedeclarationView>,
    pub derived: Seq<(Seq<char>, Seq<char>)>,
}

/// The view of `a`.
pub open spec fn attribute_view(a: Attribute) -> AttributeView {
    AttributeView { name: a.name@, optional: a.optional, ty: type_view(a.ty) }
}

/// The view of `r`.
pub open spec fn redeclaration_view(r: Redeclaration) -> RedeclarationView {
    RedeclarationView { entity: r.attribute.entity@, attribute: r.attribute.attribute@, optional: r.optional, ty: type_view(r.ty) }
}

/// The view of `e`.
pub open spec fn entity_view(e: Entity) -> EntityView {
    EntityView {
        name: e.name@,
        is_abstract: e.is_abstract,
        supertypes: e.supertypes@.map_values(|s: String| s@),
        attributes: e.attributes@.map_values(|a: Attribute| attribute_view(a)),
        redeclared: e.redeclared@.map_values(|r: Redeclaration| redeclaration_view(r)),
        derived: e.derived@.map_values(|r: AttributeRef| (r.entity@, r.attribute@)),
    }
}

/// A [`TypeDef`] as plain values.
pub enum TypeDefView {
    Alias(TypeRefView),
    Constructed,
}

/// The view of a defined type.
pub open spec fn type_def_view(t: (String, TypeDef)) -> (Seq<char>, TypeDefView) {
    (
        t.0@,
        match t.1 {
            TypeDef::Alias(ty) => TypeDefView::Alias(type_view(ty)),
            TypeDef::Constructed => TypeDefView::Constructed,
        },
    )
}

/// A [`Schema`] as plain values.
pub struct SchemaView {
    pub name: Seq<char>,
    pub entities: Seq<EntityView>,
    pub types: Seq<(Seq<char>, TypeDefView)>,
}

impl View for Schema {
    type V = SchemaView;

    open spec fn view(&self) -> SchemaView {
        SchemaView {
            name: self.name_view(),
            entities: self.entities_view().map_values(|e: Entity| entity_view(e)),
            types: self.types_view().map_values(|t: (String, TypeDef)| type_def_view(t)),
        }
    }
}

/// One attribute position in a Part 21 record.
#[derive(Debug, Clone, PartialEq, Eq)]
pub struct Slot {
    /// The entity that declares the attribute.
    pub entity: String,
    /// The attribute name.
    pub name: String,
    /// True if the value may be `$`.
    pub optional: bool,
    /// True if a subtype redeclares the attribute as derived, so the value
    /// is written `*`.
    pub derived: bool,
    /// For an aggregate attribute with a literal lower bound, the minimum
    /// number of elements, taking redeclarations and defined types into
    /// account. `None` otherwise.
    pub min_len: Option<u64>,
}

/// A [`Slot`] as plain values.
pub struct SlotView {
    pub entity: Seq<char>,
    pub name: Seq<char>,
    pub optional: bool,
    pub derived: bool,
    pub min_len: Option<u64>,
}

impl View for Slot {
    type V = SlotView;

    open spec fn view(&self) -> SlotView {
        SlotView {
            entity: self.entity@,
            name: self.name@,
            optional: self.optional,
            derived: self.derived,
            min_len: self.min_len,
        }
    }
}

/// A parsed EXPRESS schema; see the [module documentation](super).
#[derive(Debug, Clone)]
pub struct Schema {
    name: String,
    entities: Vec<Entity>,
    types: Vec<(String, TypeDef)>,
}

// ---------------------------------------------------------------------
// Names.
// ---------------------------------------------------------------------

/// `c` with ASCII lower-case letters mapped to upper case.
pub open spec fn upper_char(c: char) -> char {
    if 'a' <= c <= 'z' {
        ((c as u32) - 32) as char
    } else {
        c
    }
}

/// `s` with ASCII lower-case letters mapped to upper case.
pub open spec fn upper(s: Seq<char>) -> Seq<char> {
    Seq::new(s.len(), |i: int| upper_char(s[i]))
}

/// The last of `names` from those before `k` that equals `key`.
pub open spec fn last_named(names: Seq<Seq<char>>, key: Seq<char>, k: int) -> Option<int>
    decreases k,
{
    if k <= 0 {
        None
    } else if names[k - 1] == key {
        Some(k - 1)
    } else {
        last_named(names, key, k - 1)
    }
}

/// Exec form of [`upper_char`].
fn upper_of(c: char) -> (r: char)
    ensures
        r == upper_char(c),
{
    if 'a' <= c && c <= 'z' {
        let v = (c as u32) - 32;
        match crate::text::char_from_u32(v) {
            Some(u) => u,
            None => c,
        }
    } else {
        c
    }
}

/// The characters of `s`, upper-cased.
pub fn upper_chars(s: &str) -> (v: Vec<char>)
    ensures
        v@ == upper(s@),
{
    let n = s.unicode_len();
    let mut v: Vec<char> = Vec::new();
    let mut i: usize = 0;
    while i < n
        invariant
            n == s@.len(),
            i <= n,
            v@ == upper(s@.take(i as int)),
        decreases n - i,
    {
        let c = s.get_char(i);
        v.push(upper_of(c));
        proof {
            assert(upper(s@.take(i + 1)) =~= upper(s@.take(i as int)).push(upper_char(c)));
        }
        i = i + 1;
    }
    proof {
        assert(s@.take(n as int) =~= s@);
    }
    v
}

/// The characters of `s`.
pub fn chars_of(s: &str) -> (v: Vec<char>)
    ensures
        v@ == s@,
{
    let n = s.unicode_len();
    let mut v: Vec<char> = Vec::new();
    let mut i: usize = 0;
    while i < n
        invariant
            n == s@.len(),
            i <= n,
            v@ == s@.take(i as int),
        decreases n - i,
    {
        v.push(s.get_char(i));
        proof {
            assert(s@.take(i + 1) =~= s@.take(i as int).push(s@[i as int]));
        }
        i = i + 1;
    }
    proof {
        assert(s@.take(n as int) =~= s@);
    }
    v
}

/// True if the characters of `s` are `key`.
fn chars_equal(s: &String, key: &Vec<char>) -> (b: bool)
    ensures
        b == (s@ == key@),
{
    let t = s.as_str();
    let n = t.unicode_len();
    if n != key.len() {
        return false;
    }
    let mut i: usize = 0;
    while i < n
        invariant
            n == t@.len(),
            t@ == s@,
            n == key@.len(),
            i <= n,
            forall|j: int| 0 <= j < i ==> t@[j] == key@[j],
        decreases n - i,
    {
        if t.get_char(i) != key[i] {
            return false;
        }
        i = i + 1;
    }
    proof {
        assert(s@ =~= key@);
    }
    true
}

// ---------------------------------------------------------------------
// The layout model.
// ---------------------------------------------------------------------

/// The entity names of `entities`.
pub open spec fn names_of(entities: Seq<Entity>) -> Seq<Seq<char>> {
    entities.map_values(|e: Entity| e.name@)
}

/// The position of the entity named `key` (upper-cased): the last one
/// declared under that name.
pub open spec fn position_of(entities: Seq<Entity>, key: Seq<char>) -> Option<int> {
    last_named(names_of(entities), key, entities.len() as int)
}

/// Where a depth-first walk of supertypes stands: which entities it has
/// seen and the order in which it finished them.
pub type Walk = (Set<int>, Seq<int>);

/// Visits entity `e` at `depth`: unless already seen, marks it, visits its
/// supertypes (by upper-cased name) in `SUBTYPE OF` order one level deeper,
/// and finishes it.
/// `None` if a supertype is not in the schema or the chain is too deep.
pub open spec fn visit_spec(entities: Seq<Entity>, e: int, walk: Walk, depth: int) -> Option<Walk>
    decreases MAX_INHERITANCE_DEPTH + 2 - depth, 1int, 0int,
    when 0 <= depth <= MAX_INHERITANCE_DEPTH + 1
{
    if walk.0.contains(e) {
        Some(walk)
    } else if depth > MAX_INHERITANCE_DEPTH {
        None
    } else {
        let sups = entities[e].supertypes@.map_values(|s: String| upper(s@));
        match visit_all(entities, sups, 0, (walk.0.insert(e), walk.1), depth + 1) {
            Some(w) => Some((w.0, w.1.push(e))),
            None => None,
        }
    }
}

/// Visits the entities named `names[k..]` in order, at `depth`.
pub open spec fn visit_all(entities: Seq<Entity>, names: Seq<Seq<char>>, k: int, walk: Walk, depth: int) -> Option<Walk>
    decreases MAX_INHERITANCE_DEPTH + 2 - depth, 2int, names.len() - k,
    when 0 <= depth <= MAX_INHERITANCE_DEPTH + 1 && 0 <= k
{
    if k >= names.len() {
        Some(walk)
    } else {
        match position_of(entities, names[k]) {
            None => None,
            Some(p) => match visit_spec(entities, p, walk, depth) {
                Some(w) => visit_all(entities, names, k + 1, w, depth),
                None => None,
            },
        }
    }
}

/// `roots` (upper-cased) and all their supertypes, supertypes before
/// subtypes, each once; `None` if one of them is not in the schema.
pub open spec fn closure_spec(entities: Seq<Entity>, roots: Seq<Seq<char>>) -> Option<Seq<int>> {
    match visit_all(entities, roots, 0, (Set::empty(), Seq::empty()), 0) {
        Some(w) => Some(w.1),
        None => None,
    }
}

/// True if entity `e` declares an explicit attribute named `a`.
pub open spec fn declares(e: Entity, a: Seq<char>) -> bool {
    exists|j: int| 0 <= j < e.attributes@.len() && #[trigger] e.attributes@[j].name@ == a
}

/// The last of `order[..k]` whose entity declares `a`.
pub open spec fn last_declaring(entities: Seq<Entity>, order: Seq<int>, a: Seq<char>, k: int) -> Option<int>
    decreases k,
{
    if k <= 0 {
        None
    } else if declares(entities[order[k - 1]], a) {
        Some(order[k - 1])
    } else {
        last_declaring(entities, order, a, k - 1)
    }
}

/// The entity that declares the explicit attribute `SELF\entity.a`: the
/// named supertype itself or its nearest ancestor declaring it.
pub open spec fn declaring_spec(entities: Seq<Entity>, entity: Seq<char>, a: Seq<char>) -> Option<int> {
    match closure_spec(entities, seq![upper(entity)]) {
        Some(order) => last_declaring(entities, order, a, order.len() as int),
        None => None,
    }
}

/// True if redeclaration `r` is of attribute `a` of entity `i`.
pub open spec fn redeclares(entities: Seq<Entity>, r: AttributeRef, i: int, a: Seq<char>) -> bool {
    declaring_spec(entities, r.entity@, r.attribute@) == Some(i) && r.attribute@ == a
}

/// The type of the last of the first `j` redeclarations of entity `e` that
/// is of attribute `a` of entity `i`.
pub open spec fn last_redeclared(entities: Seq<Entity>, e: int, i: int, a: Seq<char>, j: int) -> Option<TypeRef>
    decreases j,
{
    if j <= 0 {
        None
    } else if redeclares(entities, entities[e].redeclared@[j - 1].attribute, i, a) {
        Some(entities[e].redeclared@[j - 1].ty)
    } else {
        last_redeclared(entities, e, i, a, j - 1)
    }
}

/// The narrowed type of attribute `a` of entity `i` among the entities of
/// `order[..k]`: later (more specific) redeclarations win.
pub open spec fn narrowed(entities: Seq<Entity>, order: Seq<int>, i: int, a: Seq<char>, k: int) -> Option<TypeRef>
    decreases k,
{
    if k <= 0 {
        None
    } else {
        match last_redeclared(entities, order[k - 1], i, a, entities[order[k - 1]].redeclared@.len() as int) {
            Some(t) => Some(t),
            None => narrowed(entities, order, i, a, k - 1),
        }
    }
}

/// True if an entity of `order` redeclares attribute `a` of entity `i` as
/// derived.
pub open spec fn derived_in(entities: Seq<Entity>, order: Seq<int>, i: int, a: Seq<char>) -> bool {
    exists|k: int, j: int|
        0 <= k < order.len() && 0 <= j < entities[order[k]].derived@.len() && #[trigger] redeclares(
            entities,
            entities[order[k]].derived@[j],
            i,
            a,
        )
}

/// The position of the defined type named `key`: the last one declared.
pub open spec fn type_position(types: Seq<(String, TypeDef)>, key: Seq<char>) -> Option<int> {
    last_named(types.map_values(|t: (String, TypeDef)| t.0@), key, types.len() as int)
}

/// The minimum number of elements of `ty` when it is, or is defined as, an
/// aggregate with a literal lower bound, following at most `fuel` type
/// definitions.
pub open spec fn min_len_spec(types: Seq<(String, TypeDef)>, ty: TypeRef, fuel: nat) -> Option<u64>
    decreases fuel,
{
    if fuel == 0 {
        None
    } else {
        match ty {
            TypeRef::Aggregate { lower, .. } => lower,
            TypeRef::Named(name) => match type_position(types, name@) {
                Some(k) => match types[k].1 {
                    TypeDef::Alias(underlying) => min_len_spec(types, underlying, (fuel - 1) as nat),
                    TypeDef::Constructed => None,
                },
                None => None,
            },
            TypeRef::Builtin(_) => None,
        }
    }
}

/// The slot attribute `j` of entity `i` fills in a record laid out by
/// `order`.
pub open spec fn slot_spec(entities: Seq<Entity>, types: Seq<(String, TypeDef)>, order: Seq<int>, i: int, j: int) -> SlotView {
    let e = entities[i];
    let at = e.attributes@[j];
    let ty = match narrowed(entities, order, i, at.name@, order.len() as int) {
        Some(t) => t,
        None => at.ty,
    };
    SlotView {
        entity: e.name@,
        name: at.name@,
        optional: at.optional,
        derived: derived_in(entities, order, i, at.name@),
        min_len: min_len_spec(types, ty, MAX_INHERITANCE_DEPTH as nat),
    }
}

/// The slots entity `i` adds to a record laid out by `order`.
pub open spec fn own_slots_spec(entities: Seq<Entity>, types: Seq<(String, TypeDef)>, order: Seq<int>, i: int) -> Seq<SlotView> {
    Seq::new(entities[i].attributes@.len(), |j: int| slot_spec(entities, types, order, i, j))
}

/// The slots of the entities `order[..k]`, one entity after the other.
pub open spec fn layout_spec(entities: Seq<Entity>, types: Seq<(String, TypeDef)>, order: Seq<int>, k: int) -> Seq<SlotView>
    decreases k,
{
    if k <= 0 {
        Seq::empty()
    } else {
        layout_spec(entities, types, order, k - 1) + own_slots_spec(entities, types, order, order[k - 1])
    }
}

/// The views of `slots`.
pub open spec fn slot_views(slots: Seq<Slot>) -> Seq<SlotView> {
    slots.map_values(|s: Slot| s@)
}

/// `v` as integers.
pub open spec fn ints(v: Seq<usize>) -> Seq<int> {
    v.map_values(|x: usize| x as int)
}

/// A walk as kept in memory: which entities are seen, and the order.
pub open spec fn walk_of(seen: Seq<bool>, order: Seq<usize>) -> Walk {
    (Set::new(|i: int| 0 <= i < seen.len() && seen[i]), ints(order))
}

impl Schema {
    /// The schema's entities, as declared.
    pub closed spec fn entities_view(&self) -> Seq<Entity> {
        self.entities@
    }

    /// The schema's defined types, by upper-cased name, as declared.
    pub closed spec fn types_view(&self) -> Seq<(String, TypeDef)> {
        self.types@
    }

    /// The upper-cased schema name.
    pub closed spec fn name_view(&self) -> Seq<char> {
        self.name@
    }

    pub(crate) fn new(name: String, entities: Vec<Entity>, types: Vec<(String, TypeDef)>) -> (s: Self)
        ensures
            s.name_view() == name@,
            s.entities_view() == entities@,
            s.types_view() == types@,
    {
        Schema { name, entities, types }
    }

    /// The upper-cased schema name, such as `AUTOMOTIVE_DESIGN`.
    pub fn name(&self) -> (r: &str)
        ensures
            r@ == self.name_view(),
    {
        self.name.as_str()
    }

    /// Every entity, in declaration order.
    pub fn entities(&self) -> (r: &[Entity])
        ensures
            r@ == self.entities_view(),
    {
        self.entities.as_slice()
    }

    /// The position of the entity named `key`, already upper-cased.
    fn position_of(&self, key: &Vec<char>) -> (r: Option<usize>)
        ensures
            match position_of(self.entities_view(), key@) {
                Some(p) => r matches Some(i) && i as int == p && p < self.entities_view().len(),
                None => r is None,
            },
    {
        let mut k: usize = self.entities.len();
        while k > 0
            invariant
                k <= self.entities@.len(),
                position_of(self.entities@, key@) == last_named(names_of(self.entities@), key@, k as int),
            decreases k,
        {
            proof {
                assert(names_of(self.entities@)[k - 1] == self.entities@[k - 1].name@);
            }
            if chars_equal(&self.entities[k - 1].name, key) {
                return Some(k - 1);
            }
            k = k - 1;
        }
        None
    }

    /// The position of the entity named `name`, ignoring ASCII case.
    fn position(&self, name: &str) -> (r: Option<usize>)
        ensures
            match position_of(self.entities_view(), upper(name@)) {
                Some(p) => r matches Some(i) && i as int == p && p < self.entities_view().len(),
                None => r is None,
            },
    {
        let key = upper_chars(name);
        self.position_of(&key)
    }

    /// The entity named `name`, ignoring ASCII case.
    pub fn entity(&self, name: &str) -> (r: Option<&Entity>)
        ensures
            match position_of(self.entities_view(), upper(name@)) {
                Some(p) => r == Some(&self.entities_view()[p]),
                None => r is None,
            },
    {
        match self.position(name) {
            Some(i) => Some(&self.entities[i]),
            None => None,
        }
    }

    /// The position of the defined type named `key`, already upper-cased.
    fn type_position(&self, key: &Vec<char>) -> (r: Option<usize>)
        ensures
            match type_position(self.types_view(), key@) {
                Some(p) => r matches Some(i) && i as int == p && p < self.types_view().len(),
                None => r is None,
            },
    {
        let ghost names = self.types@.map_values(|t: (String, TypeDef)| t.0@);
        let mut k: usize = self.types.len();
        while k > 0
            invariant
                k <= self.types@.len(),
                names == self.types@.map_values(|t: (String, TypeDef)| t.0@),
                type_position(self.types@, key@) == last_named(names, key@, k as int),
            decreases k,
        {
            proof {
                assert(names[k - 1] == self.types@[k - 1].0@);
            }
            if chars_equal(&self.types[k - 1].0, key) {
                return Some(k - 1);
            }
            k = k - 1;
        }
        None
    }

    /// The defined type named `name`, ignoring ASCII case.
    pub fn type_def(&self, name: &str) -> (r: Option<&TypeDef>)
        ensures
            match type_position(self.types_view(), upper(name@)) {
                Some(p) => r == Some(&self.types_view()[p].1),
                None => r is None,
            },
    {
        let key = upper_chars(name);
        match self.type_position(&key) {
            Some(i) => Some(&self.types[i].1),
            None => None,
        }
    }

    /// The minimum number of elements of `ty` when it is, or is defined as,
    /// an aggregate with a literal lower bound.
    pub fn min_len(&self, ty: &TypeRef) -> (r: Option<u64>)
        ensures
            r == min_len_spec(self.types_view(), *ty, MAX_INHERITANCE_DEPTH as nat),
    {
        let ghost ty0 = *ty;
        let mut cur = ty;
        let mut i: usize = 0;
        while i < MAX_INHERITANCE_DEPTH
            invariant
                i <= MAX_INHERITANCE_DEPTH,
                ty0 == *ty,
                min_len_spec(self.types@, *cur, (MAX_INHERITANCE_DEPTH - i) as nat) == min_len_spec(
                    self.types@,
                    ty0,
                    MAX_INHERITANCE_DEPTH as nat,
                ),
            decreases MAX_INHERITANCE_DEPTH - i,
        {
            match cur {
                TypeRef::Aggregate { lower, .. } => {
                    proof {
                        assert(min_len_spec(self.types@, *cur, (MAX_INHERITANCE_DEPTH - i) as nat) == *lower);
                    }
                    return *lower;
                },
                TypeRef::Named(name) => {
                    let key = chars_of(name.as_str());
                    match self.type_position(&key) {
                        Some(k) => match &self.types[k].1 {
                            TypeDef::Alias(underlying) => {
                                cur = underlying;
                            },
                            TypeDef::Constructed => {
                                return None;
                            },
                        },
                        None => {
                            return None;
                        },
                    }
                },
                TypeRef::Builtin(_) => {
                    return None;
                },
            }
            i = i + 1;
        }
        None
    }
}

/// The keys of `keys`, as character sequences.
pub open spec fn keys_view(keys: Seq<Vec<char>>) -> Seq<Seq<char>> {
    keys.map_values(|k: Vec<char>| k@)
}

impl Schema {
    /// Visits entity `e` and its supertypes, depth first; false if one of
    /// them is not in the schema or the chain is too deep.
    fn visit(&self, e: usize, seen: &mut Vec<bool>, order: &mut Vec<usize>, depth: usize) -> (ok: bool)
        requires
            e < self.entities@.len(),
            old(seen)@.len() == self.entities@.len(),
            depth <= MAX_INHERITANCE_DEPTH + 1,
            forall|x: int| 0 <= x < old(order)@.len() ==> #[trigger] old(order)@[x] < self.entities@.len(),
        ensures
            final(seen)@.len() == old(seen)@.len(),
            forall|x: int| 0 <= x < final(order)@.len() ==> #[trigger] final(order)@[x] < self.entities@.len(),
            ok == visit_spec(self.entities@, e as int, walk_of(old(seen)@, old(order)@), depth as int) is Some,
            ok ==> visit_spec(self.entities@, e as int, walk_of(old(seen)@, old(order)@), depth as int) == Some(
                walk_of(final(seen)@, final(order)@),
            ),
        decreases MAX_INHERITANCE_DEPTH + 1 - depth,
    {
        let ghost es = self.entities@;
        let ghost w0 = walk_of(seen@, order@);
        if seen[e] {
            proof {
                assert(w0.0.contains(e as int));
            }
            return true;
        }
        proof {
            assert(!w0.0.contains(e as int));
        }
        if depth > MAX_INHERITANCE_DEPTH {
            return false;
        }
        seen.set(e, true);
        let ghost w1 = walk_of(seen@, order@);
        proof {
            assert(w1.0 =~= w0.0.insert(e as int));
            assert(w1.1 =~= w0.1);
            assert(w1 == (w0.0.insert(e as int), w0.1));
        }
        let sups = &self.entities[e].supertypes;
        let ghost names = sups@.map_values(|s: String| upper(s@));
        let mut k: usize = 0;
        while k < sups.len()
            invariant
                es == self.entities@,
                e < es.len(),
                sups@ == es[e as int].supertypes@,
                names == sups@.map_values(|s: String| upper(s@)),
                seen@.len() == es.len(),
                depth <= MAX_INHERITANCE_DEPTH,
                seen@.len() == old(seen)@.len(),
                w0 == walk_of(old(seen)@, old(order)@),
                !w0.0.contains(e as int),
                w1 == (w0.0.insert(e as int), w0.1),
                forall|x: int| 0 <= x < order@.len() ==> #[trigger] order@[x] < es.len(),
                k <= sups@.len(),
                visit_all(es, names, 0, w1, depth + 1) == visit_all(es, names, k as int, walk_of(seen@, order@), depth + 1),
            decreases sups@.len() - k,
        {
            let key = upper_chars(sups[k].as_str());
            proof {
                assert(names[k as int] == key@);
            }
            match self.position_of(&key) {
                None => {
                    return false;
                },
                Some(p) => {
                    let ghost wk = walk_of(seen@, order@);
                    if !self.visit(p, seen, order, depth + 1) {
                        return false;
                    }
                    proof {
                        assert(visit_all(es, names, k as int, wk, depth + 1) == visit_all(
                            es,
                            names,
                            k + 1,
                            walk_of(seen@, order@),
                            depth + 1,
                        ));
                    }
                },
            }
            k = k + 1;
        }
        let ghost wk = walk_of(seen@, order@);
        order.push(e);
        proof {
            assert(walk_of(seen@, order@).0 =~= wk.0);
            assert(walk_of(seen@, order@).1 =~= wk.1.push(e as int));
        }
        true
    }

    /// `keys` (upper-cased names) and all their supertypes, supertypes
    /// before subtypes, each once; `None` if one of them is not in the
    /// schema.
    fn closure(&self, keys: &Vec<Vec<char>>) -> (r: Option<Vec<usize>>)
        ensures
            match closure_spec(self.entities_view(), keys_view(keys@)) {
                Some(order) => r matches Some(v) && ints(v@) == order && forall|x: int|
                    0 <= x < v@.len() ==> #[trigger] v@[x] < self.entities_view().len(),
                None => r is None,
            },
    {
        let ghost es = self.entities@;
        let ghost names = keys_view(keys@);
        let n = self.entities.len();
        let mut seen: Vec<bool> = Vec::new();
        while seen.len() < n
            invariant
                seen@.len() <= n,
                forall|i: int| 0 <= i < seen@.len() ==> !#[trigger] seen@[i],
            decreases n - seen@.len(),
        {
            seen.push(false);
        }
        let mut order: Vec<usize> = Vec::new();
        proof {
            assert(walk_of(seen@, order@).0 =~= Set::<int>::empty());
            assert(walk_of(seen@, order@).1 =~= Seq::<int>::empty());
        }
        let mut k: usize = 0;
        while k < keys.len()
            invariant
                es == self.entities@,
                n == es.len(),
                names == keys_view(keys@),
                seen@.len() == n,
                forall|x: int| 0 <= x < order@.len() ==> #[trigger] order@[x] < n,
                k <= keys@.len(),
                visit_all(es, names, 0, (Set::empty(), Seq::empty()), 0) == visit_all(
                    es,
                    names,
                    k as int,
                    walk_of(seen@, order@),
                    0,
                ),
            decreases keys@.len() - k,
        {
            proof {
                assert(names[k as int] == keys@[k as int]@);
            }
            match self.position_of(&keys[k]) {
                None => {
                    return None;
                },
                Some(p) => {
                    let ghost wk = walk_of(seen@, order@);
                    if !self.visit(p, &mut seen, &mut order, 0) {
                        return None;
                    }
                    proof {
                        assert(visit_all(es, names, k as int, wk, 0) == visit_all(
                            es,
                            names,
                            k + 1,
                            walk_of(seen@, order@),
                            0,
                        ));
                    }
                },
            }
            k = k + 1;
        }
        Some(order)
    }
}

/// Unicode white space, as `char::is_whitespace` takes it: the
/// `White_Space` property.
pub open spec fn is_white(c: char) -> bool {
    let v = c as u32;
    ||| 9 <= v <= 13
    ||| v == 32
    ||| v == 0x85
    ||| v == 0xA0
    ||| v == 0x1680
    ||| 0x2000 <= v <= 0x200A
    ||| v == 0x2028
    ||| v == 0x2029
    ||| v == 0x202F
    ||| v == 0x205F
    ||| v == 0x3000
}

/// The characters of `s` before the first white space or `{`.
pub open spec fn first_word(s: Seq<char>, k: int) -> Seq<char>
    decreases s.len() - k,
{
    if k < 0 || k >= s.len() {
        s
    } else if is_white(s[k]) || s[k] == '{' {
        s.take(k)
    } else {
        first_word(s, k + 1)
    }
}

fn is_white_char(c: char) -> (b: bool)
    ensures
        b == is_white(c),
{
    let v = c as u32;
    (9 <= v && v <= 13) || v == 32 || v == 0x85 || v == 0xA0 || v == 0x1680 || (0x2000 <= v && v <= 0x200A)
        || v == 0x2028 || v == 0x2029 || v == 0x202F || v == 0x205F || v == 0x3000
}

impl Schema {
    /// True if a `FILE_SCHEMA` identifier names this schema. The object
    /// identifier in braces, if any, is ignored.
    pub fn matches(&self, file_schema: &str) -> (b: bool)
        ensures
            b == (upper(first_word(file_schema@, 0)) == upper(self.name_view())),
    {
        let n = file_schema.unicode_len();
        let mut k: usize = 0;
        while k < n
            invariant
                n == file_schema@.len(),
                k <= n,
                first_word(file_schema@, 0) == first_word(file_schema@, k as int),
            ensures
                k <= n,
                first_word(file_schema@, 0) == first_word(file_schema@, k as int),
                k < n ==> is_white(file_schema@[k as int]) || file_schema@[k as int] == '{',
            decreases n - k,
        {
            let c = file_schema.get_char(k);
            if is_white_char(c) || c == '{' {
                break;
            }
            k = k + 1;
        }
        let word = upper_chars(file_schema);
        let name = upper_chars(self.name.as_str());
        let ghost w = first_word(file_schema@, 0);
        proof {
            if k < n {
                assert(w =~= file_schema@.take(k as int));
            } else {
                assert(w =~= file_schema@);
            }
            assert(upper(w) =~= word@.take(k as int));
            assert(upper(self.name@) == name@);
        }
        if k != name.len() {
            proof {
                assert(upper(w).len() != upper(self.name@).len());
            }
            return false;
        }
        let mut i: usize = 0;
        while i < k
            invariant
                k == name@.len(),
                k <= word@.len(),
                i <= k,
                w == first_word(file_schema@, 0),
                upper(w) == word@.take(k as int),
                upper(self.name@) == name@,
                forall|j: int| 0 <= j < i ==> word@[j] == name@[j],
            decreases k - i,
        {
            if word[i] != name[i] {
                proof {
                    assert(word@.take(k as int)[i as int] == word@[i as int]);
                    assert(upper(w)[i as int] != upper(self.name@)[i as int]);
                    assert(upper(w) != upper(self.name@));
                }
                return false;
            }
            i = i + 1;
        }
        proof {
            assert(word@.take(k as int) =~= name@);
        }
        true
    }

    /// True if entity `i` declares an explicit attribute named `a`.
    fn declares(&self, i: usize, a: &Vec<char>) -> (b: bool)
        requires
            i < self.entities@.len(),
        ensures
            b == declares(self.entities@[i as int], a@),
    {
        let attributes = &self.entities[i].attributes;
        let mut j: usize = 0;
        while j < attributes.len()
            invariant
                attributes@ == self.entities@[i as int].attributes@,
                j <= attributes@.len(),
                forall|q: int| 0 <= q < j ==> #[trigger] attributes@[q].name@ != a@,
            decreases attributes@.len() - j,
        {
            if chars_equal(&attributes[j].name, a) {
                return true;
            }
            j = j + 1;
        }
        false
    }

    /// The entity that declares the explicit attribute `reference` names:
    /// the named supertype itself or its nearest ancestor declaring it.
    fn declaring(&self, reference: &AttributeRef) -> (r: Option<usize>)
        ensures
            match declaring_spec(self.entities_view(), reference.entity@, reference.attribute@) {
                Some(i) => r matches Some(x) && x as int == i && i < self.entities_view().len(),
                None => r is None,
            },
    {
        let ghost es = self.entities@;
        let mut keys: Vec<Vec<char>> = Vec::new();
        keys.push(upper_chars(reference.entity.as_str()));
        proof {
            assert(keys_view(keys@) =~= seq![upper(reference.entity@)]);
        }
        let order = match self.closure(&keys) {
            Some(order) => order,
            None => {
                return None;
            },
        };
        let ghost ord = ints(order@);
        let attribute = chars_of(reference.attribute.as_str());
        let mut k: usize = order.len();
        while k > 0
            invariant
                es == self.entities@,
                ord == ints(order@),
                attribute@ == reference.attribute@,
                closure_spec(es, seq![upper(reference.entity@)]) == Some(ord),
                k <= order@.len(),
                forall|x: int| 0 <= x < order@.len() ==> #[trigger] order@[x] < es.len(),
                last_declaring(es, ord, attribute@, ord.len() as int) == last_declaring(es, ord, attribute@, k as int),
            decreases k,
        {
            let i = order[k - 1];
            proof {
                assert(ord[k - 1] == i as int);
            }
            if self.declares(i, &attribute) {
                return Some(i);
            }
            k = k - 1;
        }
        None
    }

    /// True if `reference` is to attribute `a` of entity `i`.
    fn redeclares(&self, reference: &AttributeRef, i: usize, a: &String) -> (b: bool)
        ensures
            b == redeclares(self.entities_view(), *reference, i as int, a@),
    {
        match self.declaring(reference) {
            Some(x) => x == i && reference.attribute.eq(a),
            None => false,
        }
    }

    /// The narrowed type of attribute `a` of entity `i` in a record laid
    /// out by `order`: later redeclarations win.
    fn narrowed(&self, order: &Vec<usize>, i: usize, a: &String) -> (r: Option<&TypeRef>)
        requires
            forall|x: int| 0 <= x < order@.len() ==> #[trigger] order@[x] < self.entities@.len(),
        ensures
            match narrowed(self.entities_view(), ints(order@), i as int, a@, order@.len() as int) {
                Some(t) => r matches Some(u) && *u == t,
                None => r is None,
            },
    {
        let ghost es = self.entities@;
        let ghost ord = ints(order@);
        let mut k: usize = order.len();
        while k > 0
            invariant
                es == self.entities@,
                ord == ints(order@),
                k <= order@.len(),
                forall|x: int| 0 <= x < order@.len() ==> #[trigger] order@[x] < es.len(),
                narrowed(es, ord, i as int, a@, ord.len() as int) == narrowed(es, ord, i as int, a@, k as int),
            decreases k,
        {
            let e = order[k - 1];
            proof {
                assert(ord[k - 1] == e as int);
            }
            let reds = &self.entities[e].redeclared;
            let mut j: usize = reds.len();
            while j > 0
                invariant
                    es == self.entities@,
                    e < es.len(),
                    ord == ints(order@),
                    0 < k <= order@.len(),
                    ord[k - 1] == e as int,
                    narrowed(es, ord, i as int, a@, ord.len() as int) == narrowed(es, ord, i as int, a@, k as int),
                    reds@ == es[e as int].redeclared@,
                    j <= reds@.len(),
                    last_redeclared(es, e as int, i as int, a@, reds@.len() as int) == last_redeclared(
                        es,
                        e as int,
                        i as int,
                        a@,
                        j as int,
                    ),
                decreases j,
            {
                if self.redeclares(&reds[j - 1].attribute, i, a) {
                    return Some(&reds[j - 1].ty);
                }
                j = j - 1;
            }
            k = k - 1;
        }
        None
    }

    /// True if an entity of `order` redeclares attribute `a` of entity `i`
    /// as derived.
    fn derived_in(&self, order: &Vec<usize>, i: usize, a: &String) -> (b: bool)
        requires
            forall|x: int| 0 <= x < order@.len() ==> #[trigger] order@[x] < self.entities@.len(),
        ensures
            b == derived_in(self.entities_view(), ints(order@), i as int, a@),
    {
        let ghost es = self.entities@;
        let ghost ord = ints(order@);
        let mut k: usize = 0;
        while k < order.len()
            invariant
                es == self.entities@,
                ord == ints(order@),
                k <= order@.len(),
                forall|x: int| 0 <= x < order@.len() ==> #[trigger] order@[x] < es.len(),
                forall|q: int, j: int|
                    0 <= q < k && 0 <= j < es[ord[q]].derived@.len() ==> !#[trigger] redeclares(
                        es,
                        es[ord[q]].derived@[j],
                        i as int,
                        a@,
                    ),
            decreases order@.len() - k,
        {
            let e = order[k];
            proof {
                assert(ord[k as int] == e as int);
            }
            let ds = &self.entities[e].derived;
            let mut j: usize = 0;
            while j < ds.len()
                invariant
                    es == self.entities@,
                    e < es.len(),
                    ord == ints(order@),
                    k < order@.len(),
                    ord[k as int] == e as int,
                    forall|q: int, j: int|
                        0 <= q < k && 0 <= j < es[ord[q]].derived@.len() ==> !#[trigger] redeclares(
                            es,
                            es[ord[q]].derived@[j],
                            i as int,
                            a@,
                        ),
                    ds@ == es[e as int].derived@,
                    j <= ds@.len(),
                    forall|q: int| 0 <= q < j ==> !#[trigger] redeclares(es, ds@[q], i as int, a@),
                decreases ds@.len() - j,
            {
                if self.redeclares(&ds[j], i, a) {
                    proof {
                        assert(ord[k as int] == e as int);
                        assert(redeclares(es, es[ord[k as int]].derived@[j as int], i as int, a@));
                    }
                    return true;
                }
                j = j + 1;
            }
            proof {
                assert(ord[k as int] == e as int);
            }
            k = k + 1;
        }
        false
    }

    /// The slots entity `i` adds to a record laid out by `order`.
    fn own_slots(&self, i: usize, order: &Vec<usize>) -> (v: Vec<Slot>)
        requires
            i < self.entities@.len(),
            forall|x: int| 0 <= x < order@.len() ==> #[trigger] order@[x] < self.entities@.len(),
        ensures
            slot_views(v@) == own_slots_spec(self.entities_view(), self.types_view(), ints(order@), i as int),
    {
        let ghost es = self.entities@;
        let declaring = &self.entities[i];
        let attributes = &declaring.attributes;
        let mut v: Vec<Slot> = Vec::new();
        let mut j: usize = 0;
        while j < attributes.len()
            invariant
                es == self.entities@,
                i < es.len(),
                *declaring == es[i as int],
                attributes@ == es[i as int].attributes@,
                forall|x: int| 0 <= x < order@.len() ==> #[trigger] order@[x] < es.len(),
                j <= attributes@.len(),
                slot_views(v@) == own_slots_spec(es, self.types@, ints(order@), i as int).take(j as int),
            decreases attributes@.len() - j,
        {
            let attribute = &attributes[j];
            let ty = match self.narrowed(order, i, &attribute.name) {
                Some(t) => t,
                None => &attribute.ty,
            };
            let slot = Slot {
                entity: declaring.name.clone(),
                name: attribute.name.clone(),
                optional: attribute.optional,
                derived: self.derived_in(order, i, &attribute.name),
                min_len: self.min_len(ty),
            };
            proof {
                assert(slot@ == slot_spec(es, self.types@, ints(order@), i as int, j as int));
            }
            let ghost before = v@;
            v.push(slot);
            proof {
                assert(slot_views(v@) =~= slot_views(before).push(slot@));
                assert(own_slots_spec(es, self.types@, ints(order@), i as int).take(j + 1) =~= own_slots_spec(
                    es,
                    self.types@,
                    ints(order@),
                    i as int,
                ).take(j as int).push(slot_spec(es, self.types@, ints(order@), i as int, j as int)));
            }
            j = j + 1;
        }
        proof {
            assert(own_slots_spec(es, self.types@, ints(order@), i as int).take(j as int) =~= own_slots_spec(
                es,
                self.types@,
                ints(order@),
                i as int,
            ));
        }
        v
    }

    /// The attribute layout of a simple instance of `entity`: the explicit
    /// attributes of every supertype, depth-first in `SUBTYPE OF` order and
    /// each supertype once, followed by the entity's own.
    ///
    /// `None` if the entity, or one of its supertypes, is not in the schema.
    pub fn slots(&self, entity: &str) -> (r: Option<Vec<Slot>>)
        ensures
            match closure_spec(self.entities_view(), seq![upper(entity@)]) {
                Some(order) => r matches Some(v) && slot_views(v@) == layout_spec(
                    self.entities_view(),
                    self.types_view(),
                    order,
                    order.len() as int,
                ),
                None => r is None,
            },
    {
        let ghost es = self.entities@;
        let mut keys: Vec<Vec<char>> = Vec::new();
        keys.push(upper_chars(entity));
        proof {
            assert(keys_view(keys@) =~= seq![upper(entity@)]);
        }
        let order = match self.closure(&keys) {
            Some(order) => order,
            None => {
                return None;
            },
        };
        let ghost ord = ints(order@);
        let mut v: Vec<Slot> = Vec::new();
        let mut k: usize = 0;
        while k < order.len()
            invariant
                es == self.entities@,
                ord == ints(order@),
                k <= order@.len(),
                forall|x: int| 0 <= x < order@.len() ==> #[trigger] order@[x] < es.len(),
                slot_views(v@) == layout_spec(es, self.types@, ord, k as int),
            decreases order@.len() - k,
        {
            let mut own = self.own_slots(order[k], &order);
            let ghost before = v@;
            let ghost added = own@;
            v.append(&mut own);
            proof {
                assert(slot_views(v@) =~= slot_views(before) + slot_views(added));
                assert(ord[k as int] == order@[k as int] as int);
            }
            k = k + 1;
        }
        Some(v)
    }
}

/// True if `slots` are the slots of the entity named `key` in a record
/// laid out by `order`.
pub open spec fn holds_own(entities: Seq<Entity>, types: Seq<(String, TypeDef)>, order: Seq<int>, key: Seq<char>, slots: Seq<Slot>) -> bool {
    match position_of(entities, key) {
        Some(x) => slot_views(slots) == own_slots_spec(entities, types, order, x),
        None => false,
    }
}

/// The upper-cased names `names`.
pub open spec fn upper_all(names: Seq<&str>) -> Seq<Seq<char>> {
    names.map_values(|n: &str| upper(n@))
}

impl Schema {
    /// The attribute layout of each partial record of a complex instance
    /// made of `partials`, in the order given. Each partial record holds
    /// only the attributes its own entity declares; whether one is derived
    /// depends on all the partials together.
    ///
    /// `None` if any partial entity, or a supertype, is not in the schema.
    pub fn complex_slots(&self, partials: &[&str]) -> (r: Option<Vec<Vec<Slot>>>)
        ensures
            match closure_spec(self.entities_view(), upper_all(partials@)) {
                Some(order) => match r {
                    Some(vv) => vv@.len() == partials@.len() && forall|p: int|
                        0 <= p < partials@.len() ==> holds_own(
                            self.entities_view(),
                            self.types_view(),
                            order,
                            upper(partials@[p]@),
                            #[trigger] vv@[p]@,
                        ),
                    None => exists|p: int|
                        0 <= p < partials@.len() && #[trigger] position_of(self.entities_view(), upper(partials@[p]@))
                            is None,
                },
                None => r is None,
            },
    {
        let ghost es = self.entities@;
        let mut keys: Vec<Vec<char>> = Vec::new();
        let mut k: usize = 0;
        while k < partials.len()
            invariant
                k <= partials@.len(),
                keys_view(keys@) == upper_all(partials@).take(k as int),
            decreases partials@.len() - k,
        {
            let key = upper_chars(partials[k]);
            let ghost before = keys@;
            keys.push(key);
            proof {
                assert(keys_view(keys@) =~= keys_view(before).push(key@));
                assert(upper_all(partials@).take(k + 1) =~= upper_all(partials@).take(k as int).push(
                    upper(partials@[k as int]@),
                ));
            }
            k = k + 1;
        }
        proof {
            assert(upper_all(partials@).take(k as int) =~= upper_all(partials@));
        }
        let order = match self.closure(&keys) {
            Some(order) => order,
            None => {
                return None;
            },
        };
        let ghost ord = ints(order@);
        let mut out: Vec<Vec<Slot>> = Vec::new();
        let mut p: usize = 0;
        while p < partials.len()
            invariant
                es == self.entities@,
                ord == ints(order@),
                closure_spec(es, upper_all(partials@)) == Some(ord),
                keys_view(keys@) == upper_all(partials@),
                forall|x: int| 0 <= x < order@.len() ==> #[trigger] order@[x] < es.len(),
                p <= partials@.len(),
                out@.len() == p,
                forall|q: int| 0 <= q < p ==> holds_own(es, self.types@, ord, upper(partials@[q]@), #[trigger] out@[q]@),
            decreases partials@.len() - p,
        {
            proof {
                assert(keys_view(keys@)[p as int] == keys@[p as int]@);
                assert(upper_all(partials@)[p as int] == upper(partials@[p as int]@));
            }
            match self.position_of(&keys[p]) {
                None => {
                    proof {
                        assert(position_of(es, upper(partials@[p as int]@)) is None);
                    }
                    return None;
                },
                Some(i) => {
                    let own = self.own_slots(i, &order);
                    let ghost before = out@;
                    let ghost own_view = slot_views(own@);
                    proof {
                        assert(position_of(es, upper(partials@[p as int]@)) == Some(i as int));
                        assert(own_view == own_slots_spec(es, self.types@, ord, i as int));
                    }
                    out.push(own);
                    proof {
                        assert(slot_views(out@[p as int]@) == own_view);
                        assert forall|q: int|
                            0 <= q < p + 1 implies holds_own(es, self.types@, ord, upper(partials@[q]@), #[trigger] out@[q]@) by {
                            if q < p {
                                assert(out@[q] == before[q]);
                            }
                        }
                    }
                },
            }
            p = p + 1;
        }
        Some(out)
    }
}

impl Schema {
    /// Parses the first schema in an EXPRESS source file.
    ///
    /// # Errors
    ///
    /// Returns [`Error::Syntax`](crate::Error::Syntax) if the parts of the
    /// schema this reader interprets are malformed.
    pub fn parse(src: &[u8]) -> (r: Result<Self>)
        requires
            src@.len() < usize::MAX,
        ensures
            r matches Err(e) ==> e is Syntax,
            match super::lexer::tokens_from(src@, 0) {
                Err(o) => r matches Err(e) && e.is_syntax_at(src@, o),
                Ok(ts) => match super::parser::sp_schema(src@, ts) {
                    Ok(sv) => r matches Ok(s) && s@ == sv,
                    Err(o) => r matches Err(e) && e.is_syntax_at(src@, o),
                },
            },
    {
        super::parser::parse(src)
    }
}

} // verus!
