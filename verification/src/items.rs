//! Module-level items: the signature records collected before any body is
//! lowered, the module item scope that names them, and name resolution.

use vstd::prelude::*;

use rustc_hash::{FxBuildHasher, FxHashMap};

use crate::body::Resolution;
use crate::consts::ConstValue;
use crate::errors::{HirError, ResolveError, TypeError};
use crate::ids::{BodyId, ConstId, EnumId, FieldId, FnId, GlobalId, OpaqueId, StructId, UnionId};
use crate::interner::{name_table, name_table_get, name_table_insert, name_table_new, NameTable};
use crate::scopes::{spec_lookup, Binding, Scopes};
use crate::typed_arena::TypedArena;
use crate::names::{c_keyword_error, reserved_file_scope_error, spec_is_c_keyword};
use crate::text::str_eq;
use crate::types::{all_below, builtin_kinds, kind_interned, KindView, TypeInterner, TypeKind, TypeRef};

verus! {

broadcast use vstd::string::group_string_axioms;

/// A field of a struct or union.
#[derive(Debug, Clone, PartialEq, Eq)]
pub struct Field {
    pub name: String,
    pub ty: TypeRef,
}

/// A function parameter.
#[derive(Debug, Clone, PartialEq, Eq)]
pub struct Param {
    pub name: String,
    pub ty: TypeRef,
}

/// A struct: its name, its fields in declaration order, and each field name
/// to the first field of that name.
#[derive(Debug)]
pub struct Struct {
    pub name: String,
    pub fields: Vec<FieldId>,
    pub field_index: NameTable,
}

/// A union: laid out like a struct, but a value holds one field at a time.
#[derive(Debug)]
pub struct Union {
    pub name: String,
    pub fields: Vec<FieldId>,
    pub field_index: NameTable,
}

/// An enum variant.
#[derive(Debug, Clone, PartialEq, Eq)]
pub struct Variant {
    pub name: String,
}

/// An enum: its variants in declaration order, and each variant name to the
/// position of its first occurrence.
#[derive(Debug)]
pub struct Enum {
    pub name: String,
    pub variants: Vec<Variant>,
    pub variant_index: NameTable,
}

/// A top-level constant: a value with no address; `value` is its folded
/// value, `None` until folded or when folding failed.
#[derive(Debug, Clone, PartialEq, Eq)]
pub struct Const {
    pub name: String,
    pub ty: TypeRef,
    pub value: Option<ConstValue>,
}

/// A top-level global: addressable static storage, writable when `mut`.
#[derive(Debug, Clone, PartialEq, Eq)]
pub struct Global {
    pub name: String,
    pub ty: TypeRef,
    pub mutable: bool,
    pub value: Option<ConstValue>,
}

/// A function signature: defined, or declared in an `extern` block (no body;
/// possibly variadic). `fn_type` is its function-pointer type.
#[derive(Debug, Clone, PartialEq, Eq)]
pub struct Function {
    pub name: String,
    pub params: Vec<Param>,
    pub ret: Option<TypeRef>,
    pub body: Option<BodyId>,
    pub is_extern: bool,
    pub variadic: bool,
    pub fn_type: Option<TypeRef>,
}

/// A type declared `type Name;` in an `extern` block: named, never laid out.
#[derive(Debug, Clone, PartialEq, Eq)]
pub struct OpaqueType {
    pub name: String,
}

/// A map from variant names to their enum and position.
pub type VariantTable = FxHashMap<String, (EnumId, u32)>;

/// The key/value pairs a variant table (an `FxHashMap<String, (EnumId, u32)>`)
/// holds, keys taken by their chars.
pub uninterp spec fn variant_table(m: VariantTable) -> Map<Seq<char>, (EnumId, u32)>;

/// An empty variant table with room for `capacity` entries
/// (`FxHashMap::with_capacity_and_hasher`).
#[verifier::external_body]
fn variant_table_new(capacity: usize) -> (table: VariantTable)
    ensures
        variant_table(table).dom().is_empty(),
{
    FxHashMap::with_capacity_and_hasher(capacity, FxBuildHasher)
}

/// The value stored under the key equal to `s` (`HashMap::get`).
#[verifier::external_body]
fn variant_table_get(m: &VariantTable, s: &str) -> (r: Option<(EnumId, u32)>)
    ensures
        variant_table(*m).contains_key(s@) ==> r == Some(variant_table(*m)[s@]),
        !variant_table(*m).contains_key(s@) ==> r is None,
{
    m.get(s).copied()
}

/// Stores `v` under `k`, replacing any earlier value (`HashMap::insert`).
#[verifier::external_body]
fn variant_table_insert(m: &mut VariantTable, k: String, v: (EnumId, u32))
    ensures
        variant_table(*final(m)) == variant_table(*old(m)).insert(k@, v),
{
    m.insert(k, v);
}

/// The module item scope: one namespace per item kind, plus a flat index of
/// every enum variant by name.
pub struct ItemScope {
    pub functions: NameTable,
    pub structs: NameTable,
    pub unions: NameTable,
    pub enums: NameTable,
    pub consts: NameTable,
    pub globals: NameTable,
    pub opaques: NameTable,
    pub variants: VariantTable,
}

/// The item scope as maps from names to arena positions.
#[verifier::ext_equal]
pub struct ScopeMaps {
    pub functions: Map<Seq<char>, u32>,
    pub structs: Map<Seq<char>, u32>,
    pub unions: Map<Seq<char>, u32>,
    pub enums: Map<Seq<char>, u32>,
    pub consts: Map<Seq<char>, u32>,
    pub globals: Map<Seq<char>, u32>,
    pub opaques: Map<Seq<char>, u32>,
    pub variants: Map<Seq<char>, (EnumId, u32)>,
}

impl View for ItemScope {
    type V = ScopeMaps;

    open spec fn view(&self) -> ScopeMaps {
        ScopeMaps {
            functions: name_table(self.functions),
            structs: name_table(self.structs),
            unions: name_table(self.unions),
            enums: name_table(self.enums),
            consts: name_table(self.consts),
            globals: name_table(self.globals),
            opaques: name_table(self.opaques),
            variants: variant_table(self.variants),
        }
    }
}

/// Every namespace empty.
pub open spec fn empty_scope() -> ScopeMaps {
    ScopeMaps {
        functions: Map::empty(),
        structs: Map::empty(),
        unions: Map::empty(),
        enums: Map::empty(),
        consts: Map::empty(),
        globals: Map::empty(),
        opaques: Map::empty(),
        variants: Map::empty(),
    }
}

impl Default for ItemScope {
    /// Every namespace empty.
    fn default() -> (s: ItemScope)
        ensures
            s@ == empty_scope(),
    {
        let s = ItemScope {
            functions: name_table_new(0),
            structs: name_table_new(0),
            unions: name_table_new(0),
            enums: name_table_new(0),
            consts: name_table_new(0),
            globals: name_table_new(0),
            opaques: name_table_new(0),
            variants: variant_table_new(0),
        };
        assert(s@ =~= empty_scope());
        s
    }
}

/// `scope` declares a type named `n`: a struct, union, enum or opaque type.
pub open spec fn declares_type(scope: ScopeMaps, n: Seq<char>) -> bool {
    scope.structs.contains_key(n) || scope.unions.contains_key(n) || scope.enums.contains_key(n)
        || scope.opaques.contains_key(n)
}

impl ItemScope {
    /// The function named `name`.
    pub fn function(&self, name: &str) -> (r: Option<FnId>)
        ensures
            self@.functions.contains_key(name@) ==> r == Some(FnId(self@.functions[name@])),
            !self@.functions.contains_key(name@) ==> r is None,
    {
        match name_table_get(&self.functions, name) {
            Some(i) => Some(FnId(i)),
            None => None,
        }
    }

    /// The struct named `name`.
    pub fn struct_id(&self, name: &str) -> (r: Option<StructId>)
        ensures
            self@.structs.contains_key(name@) ==> r == Some(StructId(self@.structs[name@])),
            !self@.structs.contains_key(name@) ==> r is None,
    {
        match name_table_get(&self.structs, name) {
            Some(i) => Some(StructId(i)),
            None => None,
        }
    }

    /// Whether a struct, union, enum or opaque type is named `name`.
    pub fn declares_type(&self, name: &str) -> (b: bool)
        ensures
            b == declares_type(self@, name@),
    {
        name_table_get(&self.structs, name).is_some() || name_table_get(&self.unions, name).is_some()
            || name_table_get(&self.enums, name).is_some() || name_table_get(&self.opaques, name).is_some()
    }

    /// The enum and position of the variant named `name`.
    pub fn variant(&self, name: &str) -> (r: Option<(EnumId, u32)>)
        ensures
            self@.variants.contains_key(name@) ==> r == Some(self@.variants[name@]),
            !self@.variants.contains_key(name@) ==> r is None,
    {
        variant_table_get(&self.variants, name)
    }
}

/// `r` is what `name` resolves to: a binding of the lexical scopes first,
/// then a constant, a global, a function, a struct, an enum, an enum variant
/// of the item scope, in that order; otherwise unresolved, keeping the name.
pub open spec fn resolves_to(
    frames: Seq<Map<Seq<char>, Binding>>,
    items: ScopeMaps,
    name: Seq<char>,
    r: Resolution,
) -> bool {
    match spec_lookup(frames, name) {
        Some(Binding::Local(id)) => r == Resolution::Local(id),
        Some(Binding::Const(id)) => r == Resolution::LocalConst(id),
        None => if items.consts.contains_key(name) {
            r == Resolution::Const(ConstId(items.consts[name]))
        } else if items.globals.contains_key(name) {
            r == Resolution::Global(GlobalId(items.globals[name]))
        } else if items.functions.contains_key(name) {
            r == Resolution::Fn(FnId(items.functions[name]))
        } else if items.structs.contains_key(name) {
            r == Resolution::Struct(StructId(items.structs[name]))
        } else if items.enums.contains_key(name) {
            r == Resolution::Enum(EnumId(items.enums[name]))
        } else if items.variants.contains_key(name) {
            r == Resolution::Variant { enum_id: items.variants[name].0, idx: items.variants[name].1 }
        } else {
            r matches Resolution::Unresolved(n) && n@ == name
        },
    }
}

/// Resolves a name in value position against the lexical scopes and the
/// module item scope.
pub fn resolve(scopes: &Scopes, items: &ItemScope, name: &str) -> (r: Resolution)
    ensures
        resolves_to(scopes@, items@, name@, r),
{
    match scopes.lookup(name) {
        Some(Binding::Local(id)) => return Resolution::Local(id),
        Some(Binding::Const(id)) => return Resolution::LocalConst(id),
        None => {},
    }
    if let Some(id) = name_table_get(&items.consts, name) {
        return Resolution::Const(ConstId(id));
    }
    if let Some(id) = name_table_get(&items.globals, name) {
        return Resolution::Global(GlobalId(id));
    }
    if let Some(id) = name_table_get(&items.functions, name) {
        return Resolution::Fn(FnId(id));
    }
    if let Some(id) = name_table_get(&items.structs, name) {
        return Resolution::Struct(StructId(id));
    }
    if let Some(id) = name_table_get(&items.enums, name) {
        return Resolution::Enum(EnumId(id));
    }
    if let Some((enum_id, idx)) = variant_table_get(&items.variants, name) {
        return Resolution::Variant { enum_id, idx };
    }
    Resolution::Unresolved(name.to_owned())
}


/// The arenas, the item scope, the diagnostics and the type table of one
/// file's items.
#[allow(non_camel_case_types)]
pub struct HIR {
    pub structs: TypedArena<Struct, StructId>,
    pub unions: TypedArena<Union, UnionId>,
    pub enums: TypedArena<Enum, EnumId>,
    pub consts: TypedArena<Const, ConstId>,
    pub globals: TypedArena<Global, GlobalId>,
    pub opaques: TypedArena<OpaqueType, OpaqueId>,
    pub fields: TypedArena<Field, FieldId>,
    pub functions: TypedArena<Function, FnId>,
    pub items: ItemScope,
    pub diagnostics: Vec<HirError>,
    pub types: TypeInterner,
}

/// A struct or union as values.
pub struct RecordView {
    pub name: Seq<char>,
    pub fields: Seq<FieldId>,
    pub field_index: Map<Seq<char>, u32>,
}

/// An enum as values.
pub struct EnumView {
    pub name: Seq<char>,
    pub variants: Seq<Seq<char>>,
    pub variant_index: Map<Seq<char>, u32>,
}

/// A function signature as values.
pub struct FnView {
    pub name: Seq<char>,
    pub params: Seq<(Seq<char>, TypeRef)>,
    pub ret: Option<TypeRef>,
    pub body: Option<BodyId>,
    pub is_extern: bool,
    pub variadic: bool,
    pub fn_type: Option<TypeRef>,
}

pub open spec fn struct_view(s: Struct) -> RecordView {
    RecordView { name: s.name@, fields: s.fields@, field_index: name_table(s.field_index) }
}

pub open spec fn union_view(u: Union) -> RecordView {
    RecordView { name: u.name@, fields: u.fields@, field_index: name_table(u.field_index) }
}

pub open spec fn enum_view(e: Enum) -> EnumView {
    EnumView {
        name: e.name@,
        variants: e.variants@.map_values(|v: Variant| v.name@),
        variant_index: name_table(e.variant_index),
    }
}

pub open spec fn field_view(f: Field) -> (Seq<char>, TypeRef) {
    (f.name@, f.ty)
}

pub open spec fn param_view(p: Param) -> (Seq<char>, TypeRef) {
    (p.name@, p.ty)
}

pub open spec fn fn_view(f: Function) -> FnView {
    FnView {
        name: f.name@,
        params: f.params@.map_values(|p: Param| param_view(p)),
        ret: f.ret,
        body: f.body,
        is_extern: f.is_extern,
        variadic: f.variadic,
        fn_type: f.fn_type,
    }
}

pub open spec fn const_view(c: Const) -> (Seq<char>, TypeRef, Option<ConstValue>) {
    (c.name@, c.ty, c.value)
}

pub open spec fn global_view(g: Global) -> (Seq<char>, TypeRef, bool, Option<ConstValue>) {
    (g.name@, g.ty, g.mutable, g.value)
}

/// Everything the item passes read and write, as values.
#[verifier::ext_equal]
pub struct ItemsView {
    pub structs: Seq<RecordView>,
    pub unions: Seq<RecordView>,
    pub enums: Seq<EnumView>,
    pub consts: Seq<(Seq<char>, TypeRef, Option<ConstValue>)>,
    pub globals: Seq<(Seq<char>, TypeRef, bool, Option<ConstValue>)>,
    pub opaques: Seq<Seq<char>>,
    pub fields: Seq<(Seq<char>, TypeRef)>,
    pub functions: Seq<FnView>,
    pub scope: ScopeMaps,
    pub types: Seq<KindView>,
}

impl HIR {
    pub open spec fn items_view(&self) -> ItemsView {
        ItemsView {
            structs: self.structs@.map_values(|s: Struct| struct_view(s)),
            unions: self.unions@.map_values(|u: Union| union_view(u)),
            enums: self.enums@.map_values(|e: Enum| enum_view(e)),
            consts: self.consts@.map_values(|c: Const| const_view(c)),
            globals: self.globals@.map_values(|g: Global| global_view(g)),
            opaques: self.opaques@.map_values(|o: OpaqueType| o.name@),
            fields: self.fields@.map_values(|f: Field| field_view(f)),
            functions: self.functions@.map_values(|f: Function| fn_view(f)),
            scope: self.items@,
            types: self.types@,
        }
    }

    /// The type table is well formed, and every handle the items hold points
    /// into its arena.
    pub open spec fn wf(&self) -> bool {
        &&& self.types.wf()
        &&& items_wf(self.items_view())
    }

    /// No arena, and not the type table, grew by more than `n` entries from
    /// `old` to `self`.
    pub open spec fn grew_within(&self, old: &HIR, n: int) -> bool {
        &&& self.structs@.len() <= old.structs@.len() + n
        &&& self.unions@.len() <= old.unions@.len() + n
        &&& self.enums@.len() <= old.enums@.len() + n
        &&& self.consts@.len() <= old.consts@.len() + n
        &&& self.globals@.len() <= old.globals@.len() + n
        &&& self.opaques@.len() <= old.opaques@.len() + n
        &&& self.fields@.len() <= old.fields@.len() + n
        &&& self.functions@.len() <= old.functions@.len() + n
        &&& self.types@.len() <= old.types@.len() + n
    }

    /// Every arena, and the type table, can take `k` more entries.
    pub open spec fn room(&self, k: int) -> bool {
        &&& self.structs@.len() + k < u32::MAX
        &&& self.unions@.len() + k < u32::MAX
        &&& self.enums@.len() + k < u32::MAX
        &&& self.consts@.len() + k < u32::MAX
        &&& self.globals@.len() + k < u32::MAX
        &&& self.opaques@.len() + k < u32::MAX
        &&& self.fields@.len() + k < u32::MAX
        &&& self.functions@.len() + k < u32::MAX
        &&& self.types@.len() + k < u32::MAX
    }
}

/// Every name of the scope, every variant entry and every field handle of a
/// struct or union points into its arena.
pub open spec fn items_wf(v: ItemsView) -> bool {
    &&& forall|n: Seq<char>|
        #[trigger] v.scope.functions.contains_key(n) ==> (v.scope.functions[n] as int) < v.functions.len()
    &&& forall|n: Seq<char>|
        #[trigger] v.scope.structs.contains_key(n) ==> (v.scope.structs[n] as int) < v.structs.len()
    &&& forall|n: Seq<char>|
        #[trigger] v.scope.unions.contains_key(n) ==> (v.scope.unions[n] as int) < v.unions.len()
    &&& forall|n: Seq<char>| #[trigger] v.scope.enums.contains_key(n) ==> (v.scope.enums[n] as int) < v.enums.len()
    &&& forall|n: Seq<char>|
        #[trigger] v.scope.consts.contains_key(n) ==> (v.scope.consts[n] as int) < v.consts.len()
    &&& forall|n: Seq<char>|
        #[trigger] v.scope.globals.contains_key(n) ==> (v.scope.globals[n] as int) < v.globals.len()
    &&& forall|n: Seq<char>|
        #[trigger] v.scope.opaques.contains_key(n) ==> (v.scope.opaques[n] as int) < v.opaques.len()
    &&& forall|n: Seq<char>|
        #[trigger] v.scope.variants.contains_key(n) ==> (v.scope.variants[n].0.0 as int) < v.enums.len()
    &&& forall|i: int, k: int|
        0 <= i < v.structs.len() && 0 <= k < v.structs[i].fields.len() ==> ((#[trigger] v.structs[i].fields[k]).0 as int)
            < v.fields.len()
    &&& forall|i: int, k: int|
        0 <= i < v.unions.len() && 0 <= k < v.unions[i].fields.len() ==> ((#[trigger] v.unions[i].fields[k]).0 as int)
            < v.fields.len()
    &&& forall|i: int, n: Seq<char>|
        0 <= i < v.structs.len() && #[trigger] v.structs[i].field_index.contains_key(n) ==> (
        v.structs[i].field_index[n] as int) < v.fields.len()
    &&& forall|i: int, n: Seq<char>|
        0 <= i < v.unions.len() && #[trigger] v.unions[i].field_index.contains_key(n) ==> (
        v.unions[i].field_index[n] as int) < v.fields.len()
}

/// Every position `first_index_map` records lies in `base .. base + ns.len()`.
proof fn lemma_first_index_map_bound(ns: Seq<Seq<char>>, base: int)
    requires
        0 <= base,
        base + ns.len() < u32::MAX,
    ensures
        forall|n: Seq<char>|
            #[trigger] first_index_map(ns, base).contains_key(n) ==> base <= first_index_map(ns, base)[n] < base
                + ns.len(),
    decreases ns.len(),
{
    if ns.len() > 0 {
        lemma_first_index_map_bound(ns.drop_last(), base);
        let k = base + ns.len() - 1;
        assert((k as u32) as int == k);
        let m = first_index_map(ns.drop_last(), base);
        assert forall|n: Seq<char>| #[trigger]
            first_index_map(ns, base).contains_key(n) implies base <= first_index_map(ns, base)[n] < base
                + ns.len() by {
            if m.contains_key(n) {
                assert(m[n] < base + ns.len() - 1);
            }
        }
    }
}

/// A top-level item as the collection passes read it: its kind, its name,
/// and the names (and lowered types) of its parts.
#[derive(Debug, Clone, PartialEq, Eq)]
pub enum ItemDecl {
    Const { name: String, ty: TypeRef },
    Global { name: String, ty: TypeRef, mutable: bool },
    Struct { name: String, fields: Vec<Field> },
    Union { name: String, fields: Vec<Field> },
    Fn { name: String, params: Vec<Param>, ret: Option<TypeRef> },
    ExternFn { name: String, params: Vec<Param>, ret: Option<TypeRef>, variadic: bool },
    ExternType { name: String },
    Enum { name: String, variants: Vec<String> },
}

/// A diagnostic of the item passes, as values.
pub enum NameDiag {
    DuplicateItem(Seq<char>),
    CKeyword(Seq<char>, Seq<char>),
    Reserved(Seq<char>, Seq<char>),
    /// A parameter name repeated in one function: the parameter, the function.
    DuplicateParam(Seq<char>, Seq<char>),
    MainHasParams,
    /// A variant name already declared: the variant, the enum declaring it.
    DuplicateVariant(Seq<char>, Seq<char>),
}

/// `e` is the diagnostic `d`.
pub open spec fn is_diag(e: HirError, d: NameDiag) -> bool {
    match d {
        NameDiag::DuplicateItem(n) => e matches HirError::Resolve(ResolveError::DuplicateItem { name })
            && name@ == n,
        NameDiag::CKeyword(n, w) => e matches HirError::Resolve(
            ResolveError::NameIsCKeyword { name, what },
        ) && name@ == n && what@ == w,
        NameDiag::Reserved(n, w) => e matches HirError::Resolve(
            ResolveError::NameIsReserved { name, what },
        ) && name@ == n && what@ == w,
        NameDiag::DuplicateParam(p, f) => e matches HirError::Resolve(
            ResolveError::DuplicateParam { name, function },
        ) && name@ == p && function@ == f,
        NameDiag::MainHasParams => e matches HirError::Type(TypeError::MainHasParams),
        NameDiag::DuplicateVariant(v, en) => e matches HirError::Resolve(
            ResolveError::DuplicateVariantDecl { variant, enum_name },
        ) && variant@ == v && enum_name@ == en,
    }
}

/// `after` is `before` with the diagnostics `ds` appended.
pub open spec fn appends(before: Seq<HirError>, after: Seq<HirError>, ds: Seq<NameDiag>) -> bool {
    &&& after.len() == before.len() + ds.len()
    &&& after.take(before.len() as int) == before
    &&& forall|k: int| 0 <= k < ds.len() ==> is_diag(#[trigger] after[before.len() + k], ds[k])
}

proof fn lemma_appends_trans(a: Seq<HirError>, b: Seq<HirError>, c: Seq<HirError>, d1: Seq<NameDiag>, d2: Seq<NameDiag>)
    requires
        appends(a, b, d1),
        appends(b, c, d2),
    ensures
        appends(a, c, d1 + d2),
{
    assert(c.take(a.len() as int) =~= a) by {
        assert forall|i: int| 0 <= i < a.len() implies c[i] == a[i] by {
            assert(c.take(b.len() as int)[i] == b[i]);
            assert(b.take(a.len() as int)[i] == a[i]);
        }
    }
    assert forall|k: int| 0 <= k < (d1 + d2).len() implies is_diag(#[trigger] c[a.len() + k], (d1 + d2)[k]) by {
        if k < d1.len() {
            assert(is_diag(b[a.len() + k], d1[k]));
            assert(c.take(b.len() as int)[a.len() + k] == b[a.len() + k]);
        } else {
            assert(is_diag(c[b.len() + (k - d1.len())], d2[k - d1.len()]));
        }
    }
}

/// The diagnostic for a name emitted verbatim into C: a C keyword, or a name
/// in the backend's `__eye` namespace.
pub open spec fn c_keyword_diags(n: Seq<char>, what: Seq<char>) -> Seq<NameDiag> {
    if spec_is_c_keyword(n) {
        seq![NameDiag::CKeyword(n, what)]
    } else if n.len() >= 5 && n.take(5) == "__eye"@ {
        seq![NameDiag::Reserved(n, what)]
    } else {
        seq![]
    }
}

/// The diagnostic for a file-scope name that collides with libc `printf`.
pub open spec fn printf_diags(n: Seq<char>, what: Seq<char>) -> Seq<NameDiag> {
    if n == "printf"@ {
        seq![NameDiag::Reserved(n, what)]
    } else {
        seq![]
    }
}

/// The C-keyword diagnostics of each name, in order.
pub open spec fn c_keyword_diags_all(ns: Seq<Seq<char>>, what: Seq<char>) -> Seq<NameDiag>
    decreases ns.len(),
{
    if ns.len() == 0 {
        seq![]
    } else {
        c_keyword_diags_all(ns.drop_last(), what) + c_keyword_diags(ns.last(), what)
    }
}

/// The diagnostics of each variant name: C keyword, then `printf`.
pub open spec fn variant_name_diags(vs: Seq<Seq<char>>) -> Seq<NameDiag>
    decreases vs.len(),
{
    if vs.len() == 0 {
        seq![]
    } else {
        variant_name_diags(vs.drop_last()) + c_keyword_diags(vs.last(), "enum variant"@) + printf_diags(
            vs.last(),
            "enum variant"@,
        )
    }
}

/// The diagnostics of a defined function's parameters: each name's C-keyword
/// diagnostic, then a duplicate diagnostic when an earlier parameter has it.
pub open spec fn param_diags(ps: Seq<Seq<char>>, function: Seq<char>) -> Seq<NameDiag>
    decreases ps.len(),
{
    if ps.len() == 0 {
        seq![]
    } else {
        let p = ps.last();
        param_diags(ps.drop_last(), function) + c_keyword_diags(p, "parameter"@) + if ps.drop_last().contains(p) {
            seq![NameDiag::DuplicateParam(p, function)]
        } else {
            seq![]
        }
    }
}

/// Each name to `base` plus the position of its first occurrence.
pub open spec fn first_index_map(ns: Seq<Seq<char>>, base: int) -> Map<Seq<char>, u32>
    decreases ns.len(),
{
    if ns.len() == 0 {
        Map::empty()
    } else {
        let m = first_index_map(ns.drop_last(), base);
        if m.contains_key(ns.last()) {
            m
        } else {
            m.insert(ns.last(), (base + ns.len() - 1) as u32)
        }
    }
}

/// The field handles `base`, `base + 1`, ... of `n` fields.
pub open spec fn field_ids(base: int, n: int) -> Seq<FieldId> {
    Seq::new(n as nat, |i: int| FieldId((base + i) as u32))
}

/// A `DuplicateItem` diagnostic when `dup` holds.
pub open spec fn dup_diags(dup: bool, n: Seq<char>) -> Seq<NameDiag> {
    if dup {
        seq![NameDiag::DuplicateItem(n)]
    } else {
        seq![]
    }
}

pub open spec fn names_of(fs: Seq<(Seq<char>, TypeRef)>) -> Seq<Seq<char>> {
    fs.map_values(|f: (Seq<char>, TypeRef)| f.0)
}

pub open spec fn types_of(fs: Seq<(Seq<char>, TypeRef)>) -> Seq<TypeRef> {
    fs.map_values(|f: (Seq<char>, TypeRef)| f.1)
}

/// Collecting a struct: its fields join the field arena, the struct the
/// struct arena and namespace.
pub open spec fn struct_step(v: ItemsView, name: Seq<char>, fs: Seq<(Seq<char>, TypeRef)>) -> (ItemsView, Seq<NameDiag>) {
    let rec = RecordView {
        name,
        fields: field_ids(v.fields.len() as int, fs.len() as int),
        field_index: first_index_map(names_of(fs), v.fields.len() as int),
    };
    let dup = v.scope.structs.contains_key(name) || v.scope.functions.contains_key(name)
        || v.scope.consts.contains_key(name);
    (
        ItemsView {
            structs: v.structs.push(rec),
            fields: v.fields + fs,
            scope: ScopeMaps { structs: v.scope.structs.insert(name, v.structs.len() as u32), ..v.scope },
            ..v
        },
        c_keyword_diags(name, "struct"@) + printf_diags(name, "struct"@) + c_keyword_diags_all(names_of(fs), "field"@)
            + dup_diags(dup, name),
    )
}

/// Collecting a union: like a struct, in the union arena and namespace.
pub open spec fn union_step(v: ItemsView, name: Seq<char>, fs: Seq<(Seq<char>, TypeRef)>) -> (ItemsView, Seq<NameDiag>) {
    let rec = RecordView {
        name,
        fields: field_ids(v.fields.len() as int, fs.len() as int),
        field_index: first_index_map(names_of(fs), v.fields.len() as int),
    };
    let dup = v.scope.structs.contains_key(name) || v.scope.unions.contains_key(name)
        || v.scope.functions.contains_key(name) || v.scope.consts.contains_key(name);
    (
        ItemsView {
            unions: v.unions.push(rec),
            fields: v.fields + fs,
            scope: ScopeMaps { unions: v.scope.unions.insert(name, v.unions.len() as u32), ..v.scope },
            ..v
        },
        c_keyword_diags(name, "union"@) + printf_diags(name, "union"@) + c_keyword_diags_all(names_of(fs), "field"@)
            + dup_diags(dup, name),
    )
}

/// Collecting a function signature (`extern` or defined): its
/// function-pointer type is interned and the signature joins the function
/// arena and namespace.
pub open spec fn fn_record_step(
    v: ItemsView,
    name: Seq<char>,
    ps: Seq<(Seq<char>, TypeRef)>,
    ret: Option<TypeRef>,
    is_extern: bool,
    variadic: bool,
) -> ItemsView {
    let (types, t) = kind_interned(v.types, KindView::Fn { params: types_of(ps), ret, variadic });
    let rec = FnView {
        name,
        params: ps,
        ret,
        body: None,
        is_extern,
        variadic,
        fn_type: Some(TypeRef(t as u32)),
    };
    ItemsView {
        functions: v.functions.push(rec),
        types,
        scope: ScopeMaps { functions: v.scope.functions.insert(name, v.functions.len() as u32), ..v.scope },
        ..v
    }
}

/// Collecting a defined function.
pub open spec fn fn_step(v: ItemsView, name: Seq<char>, ps: Seq<(Seq<char>, TypeRef)>, ret: Option<TypeRef>) -> (
    ItemsView,
    Seq<NameDiag>,
) {
    let dup = v.scope.functions.contains_key(name) || v.scope.structs.contains_key(name)
        || v.scope.consts.contains_key(name);
    (
        fn_record_step(v, name, ps, ret, false, false),
        c_keyword_diags(name, "function"@) + printf_diags(name, "function"@) + param_diags(names_of(ps), name) + if name
            == "main"@ && ps.len() > 0 {
            seq![NameDiag::MainHasParams]
        } else {
            seq![]
        } + dup_diags(dup, name),
    )
}

/// Collecting a function declared in an `extern` block: only its own name
/// is checked.
pub open spec fn extern_fn_step(
    v: ItemsView,
    name: Seq<char>,
    ps: Seq<(Seq<char>, TypeRef)>,
    ret: Option<TypeRef>,
    variadic: bool,
) -> (ItemsView, Seq<NameDiag>) {
    let dup = v.scope.functions.contains_key(name) || v.scope.structs.contains_key(name)
        || v.scope.consts.contains_key(name);
    (fn_record_step(v, name, ps, ret, true, variadic), c_keyword_diags(name, "function"@) + dup_diags(dup, name))
}

/// Collecting a `type Name;` declaration.
pub open spec fn extern_type_step(v: ItemsView, name: Seq<char>) -> (ItemsView, Seq<NameDiag>) {
    let dup = v.scope.opaques.contains_key(name) || v.scope.structs.contains_key(name)
        || v.scope.unions.contains_key(name) || v.scope.enums.contains_key(name);
    (
        ItemsView {
            opaques: v.opaques.push(name),
            scope: ScopeMaps { opaques: v.scope.opaques.insert(name, v.opaques.len() as u32), ..v.scope },
            ..v
        },
        c_keyword_diags(name, "type"@) + dup_diags(dup, name),
    )
}

/// The names of the enums `es`, in order.
pub open spec fn enum_names(es: Seq<EnumView>) -> Seq<Seq<char>> {
    es.map_values(|e: EnumView| e.name)
}

/// Registers the variants `vs` of enum `id` in the flat variant index, in
/// order: a name already there is a conflict, reported with the name of the
/// enum that declared it (`enums`: the enum arena's names), and keeps its
/// first entry.
pub open spec fn register_variants(
    m: Map<Seq<char>, (EnumId, u32)>,
    enums: Seq<Seq<char>>,
    id: EnumId,
    vs: Seq<Seq<char>>,
) -> (Map<Seq<char>, (EnumId, u32)>, Seq<NameDiag>)
    decreases vs.len(),
{
    if vs.len() == 0 {
        (m, seq![])
    } else {
        let (m1, d1) = register_variants(m, enums, id, vs.drop_last());
        let n = vs.last();
        if m1.contains_key(n) {
            (m1, d1.push(NameDiag::DuplicateVariant(n, enums[m1[n].0.0 as int])))
        } else {
            (m1.insert(n, (id, (vs.len() - 1) as u32)), d1)
        }
    }
}

/// Collecting an enum: the enum joins its arena, then its variants the flat
/// variant index, then its name the enum namespace; a name a struct, a
/// function, a constant or an earlier enum already holds is a duplicate.
pub open spec fn enum_step(v: ItemsView, name: Seq<char>, vs: Seq<Seq<char>>) -> (ItemsView, Seq<NameDiag>) {
    let rec = EnumView { name, variants: vs, variant_index: first_index_map(vs, 0) };
    let enums = v.enums.push(rec);
    let id = EnumId(v.enums.len() as u32);
    let dup = v.scope.structs.contains_key(name) || v.scope.functions.contains_key(name)
        || v.scope.consts.contains_key(name) || v.scope.enums.contains_key(name);
    let (variants, vdiags) = register_variants(
        v.scope.variants,
        enum_names(enums),
        id,
        vs,
    );
    (
        ItemsView {
            enums,
            scope: ScopeMaps {
                variants,
                enums: v.scope.enums.insert(name, v.enums.len() as u32),
                ..v.scope
            },
            ..v
        },
        c_keyword_diags(name, "enum"@) + printf_diags(name, "enum"@) + variant_name_diags(vs) + dup_diags(dup, name)
            + vdiags,
    )
}

/// Collecting a constant: only other constants are in scope yet.
pub open spec fn const_step(v: ItemsView, name: Seq<char>, ty: TypeRef) -> (ItemsView, Seq<NameDiag>) {
    (
        ItemsView {
            consts: v.consts.push((name, ty, None)),
            scope: ScopeMaps { consts: v.scope.consts.insert(name, v.consts.len() as u32), ..v.scope },
            ..v
        },
        dup_diags(v.scope.consts.contains_key(name), name),
    )
}

/// Collecting a global.
pub open spec fn global_step(v: ItemsView, name: Seq<char>, ty: TypeRef, mutable: bool) -> (ItemsView, Seq<NameDiag>) {
    (
        ItemsView {
            globals: v.globals.push((name, ty, mutable, None)),
            scope: ScopeMaps { globals: v.scope.globals.insert(name, v.globals.len() as u32), ..v.scope },
            ..v
        },
        c_keyword_diags(name, "global"@) + printf_diags(name, "global"@) + dup_diags(
            v.scope.consts.contains_key(name) || v.scope.globals.contains_key(name),
            name,
        ),
    )
}

/// The three item passes: constants first, then globals, then every other
/// item.
#[derive(Debug, Clone, Copy, PartialEq, Eq, Structural)]
pub enum CollectPass {
    Consts,
    Globals,
    Items,
}

/// One item of one pass; an item of another pass is skipped.
pub open spec fn collect_step(v: ItemsView, d: ItemDecl, pass: CollectPass) -> (ItemsView, Seq<NameDiag>) {
    match (pass, d) {
        (CollectPass::Consts, ItemDecl::Const { name, ty }) => const_step(v, name@, ty),
        (CollectPass::Globals, ItemDecl::Global { name, ty, mutable }) => global_step(v, name@, ty, mutable),
        (CollectPass::Items, ItemDecl::Struct { name, fields }) => struct_step(
            v,
            name@,
            fields@.map_values(|f: Field| field_view(f)),
        ),
        (CollectPass::Items, ItemDecl::Union { name, fields }) => union_step(
            v,
            name@,
            fields@.map_values(|f: Field| field_view(f)),
        ),
        (CollectPass::Items, ItemDecl::Fn { name, params, ret }) => fn_step(
            v,
            name@,
            params@.map_values(|p: Param| param_view(p)),
            ret,
        ),
        (CollectPass::Items, ItemDecl::ExternFn { name, params, ret, variadic }) => extern_fn_step(
            v,
            name@,
            params@.map_values(|p: Param| param_view(p)),
            ret,
            variadic,
        ),
        (CollectPass::Items, ItemDecl::ExternType { name }) => extern_type_step(v, name@),
        (CollectPass::Items, ItemDecl::Enum { name, variants }) => enum_step(
            v,
            name@,
            variants@.map_values(|n: String| n@),
        ),
        _ => (v, seq![]),
    }
}

/// The item `d` is handed back by `pass`: a constant, a global, or a defined
/// function.
pub open spec fn is_listed(d: ItemDecl, pass: CollectPass) -> bool {
    match pass {
        CollectPass::Consts => d is Const,
        CollectPass::Globals => d is Global,
        CollectPass::Items => d is Fn,
    }
}

/// The arena position the next listed item of `pass` gets.
pub open spec fn next_listed_id(v: ItemsView, pass: CollectPass) -> u32 {
    match pass {
        CollectPass::Consts => v.consts.len() as u32,
        CollectPass::Globals => v.globals.len() as u32,
        CollectPass::Items => v.functions.len() as u32,
    }
}

/// Running `pass` over `ds`: the items after it, the diagnostics it emits in
/// order, and the arena position and declaration index of each listed item.
pub open spec fn collect_fold(v: ItemsView, ds: Seq<ItemDecl>, pass: CollectPass) -> (ItemsView, Seq<NameDiag>, Seq<(u32, int)>)
    decreases ds.len(),
{
    if ds.len() == 0 {
        (v, seq![], seq![])
    } else {
        let (v1, d1, l1) = collect_fold(v, ds.drop_last(), pass);
        let (v2, d2) = collect_step(v1, ds.last(), pass);
        let l2 = if is_listed(ds.last(), pass) {
            l1.push((next_listed_id(v1, pass), ds.len() - 1))
        } else {
            l1
        };
        (v2, d1 + d2, l2)
    }
}

fn push_c_keyword(diags: &mut Vec<HirError>, name: &str, what: &'static str)
    ensures
        appends(old(diags)@, final(diags)@, c_keyword_diags(name@, what@)),
{
    let ghost before = diags@;
    match c_keyword_error(name, what) {
        Some(e) => {
            diags.push(HirError::Resolve(e));
            assert(diags@.take(before.len() as int) =~= before);
        },
        None => {
            assert(diags@.take(before.len() as int) =~= before);
        },
    }
}

fn push_printf(diags: &mut Vec<HirError>, name: &str, what: &'static str)
    ensures
        appends(old(diags)@, final(diags)@, printf_diags(name@, what@)),
{
    let ghost before = diags@;
    match reserved_file_scope_error(name, what) {
        Some(e) => {
            diags.push(HirError::Resolve(e));
            assert(diags@.take(before.len() as int) =~= before);
        },
        None => {
            assert(diags@.take(before.len() as int) =~= before);
        },
    }
}

fn push_dup(diags: &mut Vec<HirError>, dup: bool, name: &String)
    ensures
        appends(old(diags)@, final(diags)@, dup_diags(dup, name@)),
{
    let ghost before = diags@;
    if dup {
        diags.push(HirError::Resolve(ResolveError::DuplicateItem { name: name.clone() }));
    }
    assert(diags@.take(before.len() as int) =~= before);
}

proof fn lemma_appends_refl(a: Seq<HirError>)
    ensures
        appends(a, a, seq![]),
{
    assert(a.take(a.len() as int) =~= a);
}

/// Allocates `fields` in the field arena, checking each name: the handles in
/// order, and each name to its first field.
fn collect_fields(arena: &mut TypedArena<Field, FieldId>, diags: &mut Vec<HirError>, fields: &Vec<Field>) -> (r: (
    Vec<FieldId>,
    NameTable,
))
    requires
        old(arena)@.len() + fields@.len() < u32::MAX,
    ensures
        final(arena)@.len() == old(arena)@.len() + fields@.len(),
        final(arena)@.map_values(|f: Field| field_view(f)) == old(arena)@.map_values(|f: Field| field_view(f))
            + fields@.map_values(|f: Field| field_view(f)),
        r.0@ == field_ids(old(arena)@.len() as int, fields@.len() as int),
        name_table(r.1) == first_index_map(
            names_of(fields@.map_values(|f: Field| field_view(f))),
            old(arena)@.len() as int,
        ),
        appends(
            old(diags)@,
            final(diags)@,
            c_keyword_diags_all(names_of(fields@.map_values(|f: Field| field_view(f))), "field"@),
        ),
{
    let ghost base = arena@.len() as int;
    let ghost a0 = arena@.map_values(|f: Field| field_view(f));
    let ghost d0 = diags@;
    let ghost fs = fields@.map_values(|f: Field| field_view(f));
    let mut ids: Vec<FieldId> = Vec::new();
    let mut index = name_table_new(fields.len());
    let mut i: usize = 0;
    proof {
        lemma_appends_refl(d0);
        assert(names_of(fs.take(0)) =~= Seq::<Seq<char>>::empty());
        assert(a0 + fs.take(0) =~= a0);
        assert(ids@ =~= field_ids(base, 0));
    }
    while i < fields.len()
        invariant
            i <= fields@.len(),
            base == old(arena)@.len(),
            base + fields@.len() < u32::MAX,
            fs == fields@.map_values(|f: Field| field_view(f)),
            a0 == old(arena)@.map_values(|f: Field| field_view(f)),
            d0 == old(diags)@,
            arena@.map_values(|f: Field| field_view(f)) == a0 + fs.take(i as int),
            arena@.len() == base + i,
            ids@ == field_ids(base, i as int),
            name_table(index) == first_index_map(names_of(fs.take(i as int)), base),
            appends(d0, diags@, c_keyword_diags_all(names_of(fs.take(i as int)), "field"@)),
        decreases fields@.len() - i,
    {
        let f = &fields[i];
        let ghost d1 = diags@;
        push_c_keyword(diags, f.name.as_str(), "field");
        let nf = Field { name: f.name.clone(), ty: f.ty };
        assert(field_view(nf) == field_view(*f));
        let ghost prev = arena@;
        let id = arena.allocate(nf);
        assert(arena@.map_values(|f: Field| field_view(f)) =~= prev.map_values(|f: Field| field_view(f)).push(
            field_view(nf),
        ));
        if name_table_get(&index, f.name.as_str()).is_none() {
            name_table_insert(&mut index, f.name.clone(), id.0);
        }
        ids.push(id);
        proof {
            let t = fs.take(i + 1);
            assert(t.drop_last() =~= fs.take(i as int));
            assert(names_of(t).drop_last() =~= names_of(fs.take(i as int)));
            assert(names_of(t).last() == f.name@);
            assert(t.last() == field_view(*f));
            lemma_appends_trans(d0, d1, diags@, c_keyword_diags_all(names_of(fs.take(i as int)), "field"@), c_keyword_diags(f.name@, "field"@));
            assert(arena@.map_values(|f: Field| field_view(f)) =~= a0 + t);
            assert(ids@ =~= field_ids(base, i + 1));
        }
        i = i + 1;
    }
    proof {
        assert(fs.take(fields@.len() as int) =~= fs);
    }
    (ids, index)
}

fn collect_struct(hir: &mut HIR, name: &String, fields: &Vec<Field>)
    requires
        old(hir).wf(),
        old(hir).room(1 + fields@.len() as int),
    ensures
        final(hir).wf(),
        final(hir).grew_within(&*old(hir), 1 + fields@.len() as int),
        final(hir).items_view() == struct_step(
            old(hir).items_view(),
            name@,
            fields@.map_values(|f: Field| field_view(f)),
        ).0,
        appends(
            old(hir).diagnostics@,
            final(hir).diagnostics@,
            struct_step(old(hir).items_view(), name@, fields@.map_values(|f: Field| field_view(f))).1,
        ),
{
    let ghost v = hir.items_view();
    let ghost fs = fields@.map_values(|f: Field| field_view(f));
    let ghost d0 = hir.diagnostics@;
    push_c_keyword(&mut hir.diagnostics, name.as_str(), "struct");
    let ghost d1 = hir.diagnostics@;
    push_printf(&mut hir.diagnostics, name.as_str(), "struct");
    let ghost d2 = hir.diagnostics@;
    let (ids, index) = collect_fields(&mut hir.fields, &mut hir.diagnostics, fields);
    let ghost d3 = hir.diagnostics@;
    let dup = name_table_get(&hir.items.structs, name.as_str()).is_some() || name_table_get(
        &hir.items.functions,
        name.as_str(),
    ).is_some() || name_table_get(&hir.items.consts, name.as_str()).is_some();
    let rec = Struct { name: name.clone(), fields: ids, field_index: index };
    let ghost prev = hir.structs@;
    let sid = hir.structs.allocate(rec);
    push_dup(&mut hir.diagnostics, dup, name);
    name_table_insert(&mut hir.items.structs, name.clone(), sid.0);
    proof {
        lemma_appends_trans(d0, d1, d2, c_keyword_diags(name@, "struct"@), printf_diags(name@, "struct"@));
        lemma_appends_trans(
            d0,
            d2,
            d3,
            c_keyword_diags(name@, "struct"@) + printf_diags(name@, "struct"@),
            c_keyword_diags_all(names_of(fs), "field"@),
        );
        lemma_appends_trans(
            d0,
            d3,
            hir.diagnostics@,
            c_keyword_diags(name@, "struct"@) + printf_diags(name@, "struct"@) + c_keyword_diags_all(
                names_of(fs),
                "field"@,
            ),
            dup_diags(dup, name@),
        );
        assert(hir.structs@.map_values(|s: Struct| struct_view(s)) =~= prev.map_values(|s: Struct| struct_view(s)).push(
            struct_view(rec),
        ));
        assert(hir.items_view() =~= struct_step(v, name@, fs).0);
        lemma_first_index_map_bound(names_of(fs), v.fields.len() as int);
        assert(items_wf(hir.items_view()));
    }
}

fn collect_union(hir: &mut HIR, name: &String, fields: &Vec<Field>)
    requires
        old(hir).wf(),
        old(hir).room(1 + fields@.len() as int),
    ensures
        final(hir).wf(),
        final(hir).grew_within(&*old(hir), 1 + fields@.len() as int),
        final(hir).items_view() == union_step(
            old(hir).items_view(),
            name@,
            fields@.map_values(|f: Field| field_view(f)),
        ).0,
        appends(
            old(hir).diagnostics@,
            final(hir).diagnostics@,
            union_step(old(hir).items_view(), name@, fields@.map_values(|f: Field| field_view(f))).1,
        ),
{
    let ghost v = hir.items_view();
    let ghost fs = fields@.map_values(|f: Field| field_view(f));
    let ghost d0 = hir.diagnostics@;
    push_c_keyword(&mut hir.diagnostics, name.as_str(), "union");
    let ghost d1 = hir.diagnostics@;
    push_printf(&mut hir.diagnostics, name.as_str(), "union");
    let ghost d2 = hir.diagnostics@;
    let (ids, index) = collect_fields(&mut hir.fields, &mut hir.diagnostics, fields);
    let ghost d3 = hir.diagnostics@;
    let dup = name_table_get(&hir.items.structs, name.as_str()).is_some() || name_table_get(
        &hir.items.unions,
        name.as_str(),
    ).is_some() || name_table_get(&hir.items.functions, name.as_str()).is_some() || name_table_get(
        &hir.items.consts,
        name.as_str(),
    ).is_some();
    let rec = Union { name: name.clone(), fields: ids, field_index: index };
    let ghost prev = hir.unions@;
    let sid = hir.unions.allocate(rec);
    push_dup(&mut hir.diagnostics, dup, name);
    name_table_insert(&mut hir.items.unions, name.clone(), sid.0);
    proof {
        lemma_appends_trans(d0, d1, d2, c_keyword_diags(name@, "union"@), printf_diags(name@, "union"@));
        lemma_appends_trans(
            d0,
            d2,
            d3,
            c_keyword_diags(name@, "union"@) + printf_diags(name@, "union"@),
            c_keyword_diags_all(names_of(fs), "field"@),
        );
        lemma_appends_trans(
            d0,
            d3,
            hir.diagnostics@,
            c_keyword_diags(name@, "union"@) + printf_diags(name@, "union"@) + c_keyword_diags_all(
                names_of(fs),
                "field"@,
            ),
            dup_diags(dup, name@),
        );
        assert(hir.unions@.map_values(|u: Union| union_view(u)) =~= prev.map_values(|u: Union| union_view(u)).push(
            union_view(rec),
        ));
        assert(hir.items_view() =~= union_step(v, name@, fs).0);
        lemma_first_index_map_bound(names_of(fs), v.fields.len() as int);
        assert(items_wf(hir.items_view()));
    }
}

/// Copies the parameters; with `check`, reports each C-keyword name and each
/// name an earlier parameter of `function` already has.
fn collect_params(diags: &mut Vec<HirError>, params: &Vec<Param>, function: &String, check: bool) -> (r: (
    Vec<Param>,
    Vec<TypeRef>,
))
    ensures
        r.0@.map_values(|p: Param| param_view(p)) == params@.map_values(|p: Param| param_view(p)),
        r.1@ == types_of(params@.map_values(|p: Param| param_view(p))),
        check ==> appends(
            old(diags)@,
            final(diags)@,
            param_diags(names_of(params@.map_values(|p: Param| param_view(p))), function@),
        ),
        !check ==> final(diags)@ == old(diags)@,
{
    let ghost ps = params@.map_values(|p: Param| param_view(p));
    let ghost d0 = diags@;
    let mut out: Vec<Param> = Vec::new();
    let mut tys: Vec<TypeRef> = Vec::new();
    let mut i: usize = 0;
    proof {
        lemma_appends_refl(d0);
    }
    while i < params.len()
        invariant
            i <= params@.len(),
            ps == params@.map_values(|p: Param| param_view(p)),
            d0 == old(diags)@,
            out@.map_values(|p: Param| param_view(p)) == ps.take(i as int),
            tys@ == types_of(ps.take(i as int)),
            check ==> appends(d0, diags@, param_diags(names_of(ps.take(i as int)), function@)),
            !check ==> diags@ == d0,
        decreases params@.len() - i,
    {
        let p = &params[i];
        let ghost t = ps.take(i + 1);
        proof {
            assert(t.drop_last() =~= ps.take(i as int));
            assert(names_of(t).drop_last() =~= names_of(ps.take(i as int)));
            assert(names_of(t).last() == p.name@);
        }
        if check {
            let ghost d1 = diags@;
            push_c_keyword(diags, p.name.as_str(), "parameter");
            let ghost d2 = diags@;
            let mut seen = false;
            let mut j: usize = 0;
            while j < i
                invariant
                    j <= i < params@.len(),
                    out@.map_values(|p: Param| param_view(p)) == ps.take(i as int),
                    ps == params@.map_values(|p: Param| param_view(p)),
                    seen == names_of(ps.take(i as int)).take(j as int).contains(params@[i as int].name@),
                    *p == params@[i as int],
                decreases i - j,
            {
                assert(out@.map_values(|p: Param| param_view(p))[j as int] == param_view(out@[j as int]));
                let ghost was = seen;
                let same = str_eq(out[j].name.as_str(), p.name.as_str());
                if same {
                    seen = true;
                }
                assert(seen == (was || same));
                assert(same == (out@[j as int].name@ == params@[i as int].name@));
                proof {
                    let ns = names_of(ps.take(i as int));
                    let pn = params@[i as int].name@;
                    assert(ns.take(j + 1) =~= ns.take(j as int).push(ns[j as int]));
                    assert(ns[j as int] == out@[j as int].name@);
                    let a = ns.take(j as int);
                    let b = ns.take(j + 1);
                    if a.contains(pn) {
                        let k = choose|k: int| 0 <= k < a.len() && #[trigger] a[k] == pn;
                        assert(ns.take(j + 1)[k] == pn);
                    }
                    if ns[j as int] == pn {
                        assert(ns.take(j + 1)[j as int] == pn);
                    }
                    if b.contains(pn) {
                        let k = choose|k: int| 0 <= k < b.len() && #[trigger] b[k] == pn;
                        if k < j {
                            assert(a[k] == pn);
                        }
                    }
                    assert(out@[j as int].name@ == ps[j as int].0);
                    assert(seen == b.contains(pn));
                }
                j = j + 1;
            }
            proof {
                assert(names_of(ps.take(i as int)).take(i as int) =~= names_of(ps.take(i as int)));
            }
            let ghost d3 = diags@;
            if seen {
                diags.push(
                    HirError::Resolve(ResolveError::DuplicateParam { name: p.name.clone(), function: function.clone() }),
                );
            }
            proof {
                let extra = if names_of(t).drop_last().contains(p.name@) {
                    seq![NameDiag::DuplicateParam(p.name@, function@)]
                } else {
                    seq![]
                };
                assert(diags@.take(d3.len() as int) =~= d3);
                assert(appends(d3, diags@, extra));
                lemma_appends_trans(
                    d0,
                    d1,
                    d2,
                    param_diags(names_of(ps.take(i as int)), function@),
                    c_keyword_diags(p.name@, "parameter"@),
                );
                lemma_appends_trans(
                    d0,
                    d2,
                    diags@,
                    param_diags(names_of(ps.take(i as int)), function@) + c_keyword_diags(p.name@, "parameter"@),
                    extra,
                );
            }
        }
        let np = Param { name: p.name.clone(), ty: p.ty };
        assert(param_view(np) == param_view(*p));
        out.push(np);
        tys.push(p.ty);
        proof {
            assert(out@.map_values(|p: Param| param_view(p)) =~= t);
            assert(tys@ =~= types_of(t));
        }
        i = i + 1;
    }
    proof {
        assert(ps.take(params@.len() as int) =~= ps);
    }
    (out, tys)
}

/// Interns a signature's function-pointer type and adds the signature to the
/// function arena and namespace.
fn add_function(
    hir: &mut HIR,
    name: &String,
    params: Vec<Param>,
    tys: Vec<TypeRef>,
    ret: Option<TypeRef>,
    is_extern: bool,
    variadic: bool,
) -> (id: FnId)
    requires
        old(hir).wf(),
        old(hir).room(1),
        tys@ == types_of(params@.map_values(|p: Param| param_view(p))),
        all_below(tys@, old(hir).types@.len() as int),
        ret matches Some(r) ==> (r.0 as int) < old(hir).types@.len(),
    ensures
        final(hir).wf(),
        final(hir).grew_within(&*old(hir), 1),
        final(hir).items_view() == fn_record_step(
            old(hir).items_view(),
            name@,
            params@.map_values(|p: Param| param_view(p)),
            ret,
            is_extern,
            variadic,
        ),
        final(hir).diagnostics@ == old(hir).diagnostics@,
        id.0 == old(hir).functions@.len(),
{
    let ghost v = hir.items_view();
    let ghost ps = params@.map_values(|p: Param| param_view(p));
    let t = hir.types.intern(TypeKind::Fn { params: tys, ret, variadic });
    let f = Function { name: name.clone(), params, ret, body: None, is_extern, variadic, fn_type: Some(t) };
    let ghost prev = hir.functions@;
    let id = hir.functions.allocate(f);
    name_table_insert(&mut hir.items.functions, name.clone(), id.0);
    proof {
        assert(fn_view(f).params == ps);
        assert(hir.functions@.map_values(|f: Function| fn_view(f)) =~= prev.map_values(|f: Function| fn_view(f)).push(
            fn_view(f),
        ));
        assert(hir.items_view() =~= fn_record_step(v, name@, ps, ret, is_extern, variadic));
    }
    id
}

fn collect_fn(hir: &mut HIR, name: &String, params: &Vec<Param>, ret: Option<TypeRef>) -> (id: FnId)
    requires
        old(hir).wf(),
        old(hir).room(1),
        all_below(types_of(params@.map_values(|p: Param| param_view(p))), old(hir).types@.len() as int),
        ret matches Some(r) ==> (r.0 as int) < old(hir).types@.len(),
    ensures
        final(hir).wf(),
        final(hir).grew_within(&*old(hir), 1),
        final(hir).items_view() == fn_step(
            old(hir).items_view(),
            name@,
            params@.map_values(|p: Param| param_view(p)),
            ret,
        ).0,
        appends(
            old(hir).diagnostics@,
            final(hir).diagnostics@,
            fn_step(old(hir).items_view(), name@, params@.map_values(|p: Param| param_view(p)), ret).1,
        ),
        id.0 == old(hir).functions@.len(),
{
    let ghost ps = params@.map_values(|p: Param| param_view(p));
    let ghost d0 = hir.diagnostics@;
    push_c_keyword(&mut hir.diagnostics, name.as_str(), "function");
    let ghost d1 = hir.diagnostics@;
    push_printf(&mut hir.diagnostics, name.as_str(), "function");
    let ghost d2 = hir.diagnostics@;
    let (new_params, tys) = collect_params(&mut hir.diagnostics, params, name, true);
    let ghost d3 = hir.diagnostics@;
    if str_eq(name.as_str(), "main") && new_params.len() > 0 {
        hir.diagnostics.push(HirError::Type(TypeError::MainHasParams));
    }
    let ghost d4 = hir.diagnostics@;
    let ghost main_diags = if name@ == "main"@ && ps.len() > 0 {
        seq![NameDiag::MainHasParams]
    } else {
        seq![]
    };
    proof {
        assert(new_params@.map_values(|p: Param| param_view(p)).len() == new_params@.len());
        assert(hir.diagnostics@.take(d3.len() as int) =~= d3);
        assert(appends(d3, d4, main_diags));
    }
    let dup = name_table_get(&hir.items.functions, name.as_str()).is_some() || name_table_get(
        &hir.items.structs,
        name.as_str(),
    ).is_some() || name_table_get(&hir.items.consts, name.as_str()).is_some();
    let id = add_function(hir, name, new_params, tys, ret, false, false);
    push_dup(&mut hir.diagnostics, dup, name);
    proof {
        let a = c_keyword_diags(name@, "function"@);
        let b = printf_diags(name@, "function"@);
        let c = param_diags(names_of(ps), name@);
        lemma_appends_trans(d0, d1, d2, a, b);
        lemma_appends_trans(d0, d2, d3, a + b, c);
        lemma_appends_trans(d0, d3, d4, a + b + c, main_diags);
        lemma_appends_trans(d0, d4, hir.diagnostics@, a + b + c + main_diags, dup_diags(dup, name@));
    }
    id
}

fn collect_extern_fn(hir: &mut HIR, name: &String, params: &Vec<Param>, ret: Option<TypeRef>, variadic: bool)
    requires
        old(hir).wf(),
        old(hir).room(1),
        all_below(types_of(params@.map_values(|p: Param| param_view(p))), old(hir).types@.len() as int),
        ret matches Some(r) ==> (r.0 as int) < old(hir).types@.len(),
    ensures
        final(hir).wf(),
        final(hir).grew_within(&*old(hir), 1),
        final(hir).items_view() == extern_fn_step(
            old(hir).items_view(),
            name@,
            params@.map_values(|p: Param| param_view(p)),
            ret,
            variadic,
        ).0,
        appends(
            old(hir).diagnostics@,
            final(hir).diagnostics@,
            extern_fn_step(old(hir).items_view(), name@, params@.map_values(|p: Param| param_view(p)), ret, variadic).1,
        ),
{
    let ghost d0 = hir.diagnostics@;
    push_c_keyword(&mut hir.diagnostics, name.as_str(), "function");
    let ghost d1 = hir.diagnostics@;
    let (new_params, tys) = collect_params(&mut hir.diagnostics, params, name, false);
    let dup = name_table_get(&hir.items.functions, name.as_str()).is_some() || name_table_get(
        &hir.items.structs,
        name.as_str(),
    ).is_some() || name_table_get(&hir.items.consts, name.as_str()).is_some();
    let _ = add_function(hir, name, new_params, tys, ret, true, variadic);
    push_dup(&mut hir.diagnostics, dup, name);
    proof {
        lemma_appends_trans(d0, d1, hir.diagnostics@, c_keyword_diags(name@, "function"@), dup_diags(dup, name@));
    }
}

fn collect_extern_type(hir: &mut HIR, name: &String)
    requires
        old(hir).wf(),
        old(hir).room(1),
    ensures
        final(hir).wf(),
        final(hir).grew_within(&*old(hir), 1),
        final(hir).items_view() == extern_type_step(old(hir).items_view(), name@).0,
        appends(old(hir).diagnostics@, final(hir).diagnostics@, extern_type_step(old(hir).items_view(), name@).1),
{
    let ghost v = hir.items_view();
    let ghost d0 = hir.diagnostics@;
    push_c_keyword(&mut hir.diagnostics, name.as_str(), "type");
    let ghost d1 = hir.diagnostics@;
    let dup = name_table_get(&hir.items.opaques, name.as_str()).is_some() || name_table_get(
        &hir.items.structs,
        name.as_str(),
    ).is_some() || name_table_get(&hir.items.unions, name.as_str()).is_some() || name_table_get(
        &hir.items.enums,
        name.as_str(),
    ).is_some();
    let ghost prev = hir.opaques@;
    let id = hir.opaques.allocate(OpaqueType { name: name.clone() });
    push_dup(&mut hir.diagnostics, dup, name);
    name_table_insert(&mut hir.items.opaques, name.clone(), id.0);
    proof {
        lemma_appends_trans(d0, d1, hir.diagnostics@, c_keyword_diags(name@, "type"@), dup_diags(dup, name@));
        assert(hir.opaques@.map_values(|o: OpaqueType| o.name@) =~= prev.map_values(|o: OpaqueType| o.name@).push(name@));
        assert(hir.items_view() =~= extern_type_step(v, name@).0);
    }
}

fn collect_const(hir: &mut HIR, name: &String, ty: TypeRef) -> (id: ConstId)
    requires
        old(hir).wf(),
        old(hir).room(1),
    ensures
        final(hir).wf(),
        final(hir).grew_within(&*old(hir), 1),
        final(hir).items_view() == const_step(old(hir).items_view(), name@, ty).0,
        appends(old(hir).diagnostics@, final(hir).diagnostics@, const_step(old(hir).items_view(), name@, ty).1),
        id.0 == old(hir).consts@.len(),
{
    let ghost v = hir.items_view();
    let ghost prev = hir.consts@;
    let c = Const { name: name.clone(), ty, value: None };
    let id = hir.consts.allocate(c);
    let dup = name_table_get(&hir.items.consts, name.as_str()).is_some();
    push_dup(&mut hir.diagnostics, dup, name);
    name_table_insert(&mut hir.items.consts, name.clone(), id.0);
    proof {
        assert(hir.consts@.map_values(|c: Const| const_view(c)) =~= prev.map_values(|c: Const| const_view(c)).push(
            const_view(c),
        ));
        assert(hir.items_view() =~= const_step(v, name@, ty).0);
    }
    id
}

fn collect_global(hir: &mut HIR, name: &String, ty: TypeRef, mutable: bool) -> (id: GlobalId)
    requires
        old(hir).wf(),
        old(hir).room(1),
    ensures
        final(hir).wf(),
        final(hir).grew_within(&*old(hir), 1),
        final(hir).items_view() == global_step(old(hir).items_view(), name@, ty, mutable).0,
        appends(
            old(hir).diagnostics@,
            final(hir).diagnostics@,
            global_step(old(hir).items_view(), name@, ty, mutable).1,
        ),
        id.0 == old(hir).globals@.len(),
{
    let ghost v = hir.items_view();
    let ghost d0 = hir.diagnostics@;
    push_c_keyword(&mut hir.diagnostics, name.as_str(), "global");
    let ghost d1 = hir.diagnostics@;
    push_printf(&mut hir.diagnostics, name.as_str(), "global");
    let ghost d2 = hir.diagnostics@;
    let ghost prev = hir.globals@;
    let g = Global { name: name.clone(), ty, mutable, value: None };
    let id = hir.globals.allocate(g);
    let dup = name_table_get(&hir.items.consts, name.as_str()).is_some() || name_table_get(
        &hir.items.globals,
        name.as_str(),
    ).is_some();
    push_dup(&mut hir.diagnostics, dup, name);
    name_table_insert(&mut hir.items.globals, name.clone(), id.0);
    proof {
        lemma_appends_trans(d0, d1, d2, c_keyword_diags(name@, "global"@), printf_diags(name@, "global"@));
        lemma_appends_trans(
            d0,
            d2,
            hir.diagnostics@,
            c_keyword_diags(name@, "global"@) + printf_diags(name@, "global"@),
            dup_diags(dup, name@),
        );
        assert(hir.globals@.map_values(|g: Global| global_view(g)) =~= prev.map_values(|g: Global| global_view(g)).push(
            global_view(g),
        ));
        assert(hir.items_view() =~= global_step(v, name@, ty, mutable).0);
    }
    id
}

fn collect_enum(hir: &mut HIR, name: &String, variants: &Vec<String>)
    requires
        old(hir).wf(),
        old(hir).room(1 + variants@.len() as int),
    ensures
        final(hir).wf(),
        final(hir).grew_within(&*old(hir), 1 + variants@.len() as int),
        final(hir).items_view() == enum_step(
            old(hir).items_view(),
            name@,
            variants@.map_values(|n: String| n@),
        ).0,
        appends(
            old(hir).diagnostics@,
            final(hir).diagnostics@,
            enum_step(old(hir).items_view(), name@, variants@.map_values(|n: String| n@)).1,
        ),
{
    let ghost v = hir.items_view();
    let ghost vs = variants@.map_values(|n: String| n@);
    let ghost d0 = hir.diagnostics@;
    push_c_keyword(&mut hir.diagnostics, name.as_str(), "enum");
    let ghost d1 = hir.diagnostics@;
    push_printf(&mut hir.diagnostics, name.as_str(), "enum");
    let ghost d2 = hir.diagnostics@;
    proof {
        lemma_appends_trans(d0, d1, d2, c_keyword_diags(name@, "enum"@), printf_diags(name@, "enum"@));
        assert(vs.take(0) =~= Seq::<Seq<char>>::empty());
    }
    let mut list: Vec<Variant> = Vec::new();
    let mut index = name_table_new(variants.len());
    let mut i: usize = 0;
    while i < variants.len()
        invariant
            i <= variants@.len(),
            vs == variants@.map_values(|n: String| n@),
            variants@.len() < u32::MAX,
            list@.map_values(|v: Variant| v.name@) == vs.take(i as int),
            name_table(index) == first_index_map(vs.take(i as int), 0),
            appends(
                d0,
                hir.diagnostics@,
                c_keyword_diags(name@, "enum"@) + printf_diags(name@, "enum"@) + variant_name_diags(
                    vs.take(i as int),
                ),
            ),
            hir.items_view() == v,
            hir.wf(),
            hir.grew_within(&*old(hir), 0),
        decreases variants@.len() - i,
    {
        let vn = &variants[i];
        let ghost e0 = hir.diagnostics@;
        push_c_keyword(&mut hir.diagnostics, vn.as_str(), "enum variant");
        let ghost e1 = hir.diagnostics@;
        push_printf(&mut hir.diagnostics, vn.as_str(), "enum variant");
        if name_table_get(&index, vn.as_str()).is_none() {
            name_table_insert(&mut index, vn.clone(), i as u32);
        }
        list.push(Variant { name: vn.clone() });
        proof {
            let t = vs.take(i + 1);
            assert(t.drop_last() =~= vs.take(i as int));
            assert(t.last() == vn@);
            let pre = c_keyword_diags(name@, "enum"@) + printf_diags(name@, "enum"@);
            lemma_appends_trans(d0, e0, e1, pre + variant_name_diags(vs.take(i as int)), c_keyword_diags(vn@, "enum variant"@));
            lemma_appends_trans(
                d0,
                e1,
                hir.diagnostics@,
                pre + variant_name_diags(vs.take(i as int)) + c_keyword_diags(vn@, "enum variant"@),
                printf_diags(vn@, "enum variant"@),
            );
            assert(pre + variant_name_diags(t) =~= pre + variant_name_diags(vs.take(i as int)) + c_keyword_diags(
                vn@,
                "enum variant"@,
            ) + printf_diags(vn@, "enum variant"@));
            assert(list@.map_values(|v: Variant| v.name@) =~= t);
        }
        i = i + 1;
    }
    proof {
        assert(vs.take(variants@.len() as int) =~= vs);
    }
    let ghost d3 = hir.diagnostics@;
    let dup = name_table_get(&hir.items.structs, name.as_str()).is_some() || name_table_get(
        &hir.items.functions,
        name.as_str(),
    ).is_some() || name_table_get(&hir.items.consts, name.as_str()).is_some() || name_table_get(
        &hir.items.enums,
        name.as_str(),
    ).is_some();
    let e = Enum { name: name.clone(), variants: list, variant_index: index };
    let ghost prev = hir.enums@;
    let id = hir.enums.allocate(e);
    push_dup(&mut hir.diagnostics, dup, name);
    let ghost d4 = hir.diagnostics@;
    let ghost v4 = hir.items_view();
    let ghost names = enum_names(v4.enums);
    let ghost m0 = v4.scope.variants;
    proof {
        assert(hir.enums@.map_values(|e: Enum| enum_view(e)) =~= prev.map_values(|e: Enum| enum_view(e)).push(
            enum_view(e),
        ));
        lemma_appends_trans(
            d0,
            d3,
            d4,
            c_keyword_diags(name@, "enum"@) + printf_diags(name@, "enum"@) + variant_name_diags(vs),
            dup_diags(dup, name@),
        );
        lemma_appends_refl(d4);
        assert(vs.take(0) =~= Seq::<Seq<char>>::empty());
        assert(v4 =~= ItemsView { enums: v.enums.push(enum_view(e)), ..v });
        assert(v4.enums.len() == v.enums.len() + 1);
        assert forall|i: int, k: int|
            0 <= i < v4.structs.len() && 0 <= k < v4.structs[i].fields.len() implies ((#[trigger] v4.structs[i].fields[k]).0 as int)
                < v4.fields.len() by {
            assert(v4.structs[i] == v.structs[i]);
        }
        assert forall|i: int, k: int|
            0 <= i < v4.unions.len() && 0 <= k < v4.unions[i].fields.len() implies ((#[trigger] v4.unions[i].fields[k]).0 as int)
                < v4.fields.len() by {
            assert(v4.unions[i] == v.unions[i]);
        }
        assert(items_wf(v4));
        assert(hir.items_view() =~= ItemsView {
            scope: ScopeMaps { variants: register_variants(m0, names, id, vs.take(0)).0, ..v4.scope },
            ..v4
        });
    }
    let mut j: usize = 0;
    while j < variants.len()
        invariant
            j <= variants@.len(),
            vs == variants@.map_values(|n: String| n@),
            variants@.len() < u32::MAX,
            hir.enums@.len() == id.0 + 1,
            names == enum_names(v4.enums),
            v4.enums.len() == hir.enums@.len(),
            hir.items_view() == (ItemsView {
                scope: ScopeMaps { variants: register_variants(m0, names, id, vs.take(j as int)).0, ..v4.scope },
                ..v4
            }),
            hir.types.wf(),
            items_wf(v4),
            forall|k: Seq<char>|
                #[trigger] hir.items@.variants.contains_key(k) ==> (hir.items@.variants[k].0.0 as int)
                    < hir.enums@.len(),
            hir.grew_within(&*old(hir), 1),
            appends(d4, hir.diagnostics@, register_variants(m0, names, id, vs.take(j as int)).1),
        decreases variants@.len() - j,
    {
        let vn = &variants[j];
        let ghost t = vs.take(j + 1);
        let ghost before = hir.diagnostics@;
        proof {
            assert(t.drop_last() =~= vs.take(j as int));
            assert(t.last() == vn@);
        }
        match variant_table_get(&hir.items.variants, vn.as_str()) {
            Some(found) => {
                let other = found.0;
                assert(hir.items@.variants.contains_key(vn@));
                let other_name = hir.enums.get(other).name.clone();
                proof {
                    assert(hir.items_view().enums[other.0 as int] == enum_view(hir.enums@[other.0 as int]));
                    assert(names[other.0 as int] == other_name@);
                }
                hir.diagnostics.push(
                    HirError::Resolve(ResolveError::DuplicateVariantDecl { variant: vn.clone(), enum_name: other_name }),
                );
                proof {
                    let x = NameDiag::DuplicateVariant(vn@, names[other.0 as int]);
                    assert(hir.diagnostics@.take(before.len() as int) =~= before);
                    assert(appends(before, hir.diagnostics@, seq![x]));
                    lemma_appends_trans(d4, before, hir.diagnostics@, register_variants(m0, names, id, vs.take(j as int)).1, seq![x]);
                    assert(register_variants(m0, names, id, vs.take(j as int)).1 + seq![x] =~= register_variants(m0, names, id, t).1);
                }
            },
            None => {
                let ghost vm0 = hir.items@.variants;
                variant_table_insert(&mut hir.items.variants, vn.clone(), (id, j as u32));
                proof {
                    assert(hir.diagnostics@ == before);
                    assert(hir.items@.variants == vm0.insert(vn@, (id, j as u32)));
                    assert forall|k: Seq<char>|
                        #[trigger] hir.items@.variants.contains_key(k) implies (hir.items@.variants[k].0.0 as int)
                            < hir.enums@.len() by {
                        if k != vn@ {
                            assert(vm0.contains_key(k));
                        }
                    }
                }
            },
        }
        proof {
            assert(hir.items_view() =~= ItemsView {
                scope: ScopeMaps { variants: register_variants(m0, names, id, t).0, ..v4.scope },
                ..v4
            });
        }
        j = j + 1;
    }
    proof {
        assert(vs.take(variants@.len() as int) =~= vs);
    }
    let ghost vm = hir.items@.variants;
    name_table_insert(&mut hir.items.enums, name.clone(), id.0);
    proof {
        assert(hir.items@.variants == vm);
        lemma_appends_trans(
            d0,
            d4,
            hir.diagnostics@,
            c_keyword_diags(name@, "enum"@) + printf_diags(name@, "enum"@) + variant_name_diags(vs) + dup_diags(dup, name@),
            register_variants(m0, names, id, vs).1,
        );
        assert(enum_view(e).variants == vs);
        assert(hir.items_view() =~= enum_step(v, name@, vs).0);
        assert(items_wf(hir.items_view()));
    }
}
/// How many arena entries an item can add at most.
pub open spec fn decl_size(d: ItemDecl) -> int {
    match d {
        ItemDecl::Struct { fields, .. } => 1 + fields@.len() as int,
        ItemDecl::Union { fields, .. } => 1 + fields@.len() as int,
        ItemDecl::Enum { variants, .. } => 1 + variants@.len() as int,
        _ => 1,
    }
}

/// How many arena entries the items can add at most.
pub open spec fn total_size(ds: Seq<ItemDecl>) -> int
    decreases ds.len(),
{
    if ds.len() == 0 {
        0
    } else {
        decl_size(ds[0]) + total_size(ds.skip(1))
    }
}

proof fn lemma_total_size_nonneg(ds: Seq<ItemDecl>)
    ensures
        total_size(ds) >= 0,
    decreases ds.len(),
{
    if ds.len() > 0 {
        lemma_total_size_nonneg(ds.skip(1));
    }
}

/// A function item's parameter and return types are handles below `bound`.
pub open spec fn fn_types_below(d: ItemDecl, bound: int) -> bool {
    match d {
        ItemDecl::Fn { params, ret, .. } => all_below(types_of(params@.map_values(|p: Param| param_view(p))), bound)
            && (ret matches Some(r) ==> (r.0 as int) < bound),
        ItemDecl::ExternFn { params, ret, .. } => all_below(
            types_of(params@.map_values(|p: Param| param_view(p))),
            bound,
        ) && (ret matches Some(r) ==> (r.0 as int) < bound),
        _ => true,
    }
}

#[verifier::spinoff_prover]
#[verifier::rlimit(50)]
fn run_pass(hir: &mut HIR, items: &Vec<ItemDecl>, pass: CollectPass) -> (out: Vec<(u32, usize)>)
    requires
        old(hir).wf(),
        old(hir).room(total_size(items@)),
        pass == CollectPass::Items ==> forall|k: int|
            0 <= k < items@.len() ==> fn_types_below(#[trigger] items@[k], old(hir).types@.len() as int),
    ensures
        final(hir).wf(),
        final(hir).items_view() == collect_fold(old(hir).items_view(), items@, pass).0,
        appends(old(hir).diagnostics@, final(hir).diagnostics@, collect_fold(old(hir).items_view(), items@, pass).1),
        out@.map_values(|p: (u32, usize)| (p.0, p.1 as int)) == collect_fold(old(hir).items_view(), items@, pass).2,
{
    let ghost v0 = hir.items_view();
    let ghost d0 = hir.diagnostics@;
    let ghost t0 = hir.types@.len() as int;
    let mut out: Vec<(u32, usize)> = Vec::new();
    let mut i: usize = 0;
    proof {
        lemma_appends_refl(d0);
        assert(items@.take(0) =~= Seq::<ItemDecl>::empty());
        assert(items@.skip(0) =~= items@);
        assert(out@.map_values(|p: (u32, usize)| (p.0, p.1 as int)) =~= Seq::<(u32, int)>::empty());
    }
    while i < items.len()
        invariant
            i <= items@.len(),
            v0 == old(hir).items_view(),
            d0 == old(hir).diagnostics@,
            t0 == old(hir).types@.len(),
            t0 <= hir.types@.len(),
            pass == CollectPass::Items ==> forall|k: int|
                0 <= k < items@.len() ==> fn_types_below(#[trigger] items@[k], t0),
            hir.wf(),
            hir.room(total_size(items@.skip(i as int))),
            hir.items_view() == collect_fold(v0, items@.take(i as int), pass).0,
            appends(d0, hir.diagnostics@, collect_fold(v0, items@.take(i as int), pass).1),
            out@.map_values(|p: (u32, usize)| (p.0, p.1 as int)) == collect_fold(v0, items@.take(i as int), pass).2,
        decreases items@.len() - i,
    {
        let ghost before: HIR = *hir;
        let ghost t = items@.take(i + 1);
        let ghost d = items@[i as int];
        let ghost dbefore = hir.diagnostics@;
        proof {
            assert(t.drop_last() =~= items@.take(i as int));
            assert(t.last() == d);
            assert(items@.skip(i as int)[0] == d);
            assert(items@.skip(i as int).skip(1) =~= items@.skip(i + 1));
            lemma_total_size_nonneg(items@.skip(i + 1));
        }
        let ghost out_before = out@;
        match &items[i] {
            ItemDecl::Const { name, ty } => {
                if pass == CollectPass::Consts {
                    let id = collect_const(hir, name, *ty);
                    out.push((id.0, i));
                }
            },
            ItemDecl::Global { name, ty, mutable } => {
                if pass == CollectPass::Globals {
                    let id = collect_global(hir, name, *ty, *mutable);
                    out.push((id.0, i));
                }
            },
            ItemDecl::Struct { name, fields } => {
                if pass == CollectPass::Items {
                    collect_struct(hir, name, fields);
                }
            },
            ItemDecl::Union { name, fields } => {
                if pass == CollectPass::Items {
                    collect_union(hir, name, fields);
                }
            },
            ItemDecl::Fn { name, params, ret } => {
                if pass == CollectPass::Items {
                    let id = collect_fn(hir, name, params, *ret);
                    out.push((id.0, i));
                }
            },
            ItemDecl::ExternFn { name, params, ret, variadic } => {
                if pass == CollectPass::Items {
                    collect_extern_fn(hir, name, params, *ret, *variadic);
                }
            },
            ItemDecl::ExternType { name } => {
                if pass == CollectPass::Items {
                    collect_extern_type(hir, name);
                }
            },
            ItemDecl::Enum { name, variants } => {
                if pass == CollectPass::Items {
                    collect_enum(hir, name, variants);
                }
            },
        }
        proof {
            let (v1, d1, l1) = collect_fold(v0, items@.take(i as int), pass);
            let (v2, d2) = collect_step(v1, d, pass);
            if hir.diagnostics@ == dbefore {
                lemma_appends_refl(dbefore);
            }
            lemma_appends_trans(d0, dbefore, hir.diagnostics@, d1, d2);
            assert(out@.map_values(|p: (u32, usize)| (p.0, p.1 as int)) =~= collect_fold(v0, t, pass).2);
        }
        i = i + 1;
    }
    proof {
        assert(items@.take(items@.len() as int) =~= items@);
    }
    out
}

/// No items, no diagnostics, and the built-in types.
pub open spec fn empty_items() -> ItemsView {
    ItemsView {
        structs: seq![],
        unions: seq![],
        enums: seq![],
        consts: seq![],
        globals: seq![],
        opaques: seq![],
        fields: seq![],
        functions: seq![],
        scope: empty_scope(),
        types: builtin_kinds(),
    }
}

impl Default for HIR {
    /// No items and no diagnostics; the type table holds the built-in types.
    fn default() -> (h: HIR)
        ensures
            h.wf(),
            h.items_view() == empty_items(),
            h.diagnostics@.len() == 0,
    {
        let h = HIR {
            structs: TypedArena::new(),
            unions: TypedArena::new(),
            enums: TypedArena::new(),
            consts: TypedArena::new(),
            globals: TypedArena::new(),
            opaques: TypedArena::new(),
            fields: TypedArena::new(),
            functions: TypedArena::new(),
            items: ItemScope::default(),
            diagnostics: Vec::new(),
            types: TypeInterner::new(),
        };
        assert(h.items_view() =~= empty_items());
        h
    }
}

/// `out` lists, in order, the arena handle (as its position) and the
/// declaration index of each item the pass hands back.
pub open spec fn lists<Id>(out: Seq<(Id, usize)>, expected: Seq<(u32, int)>, pos: spec_fn(Id) -> u32) -> bool {
    &&& out.len() == expected.len()
    &&& forall|k: int|
        0 <= k < out.len() ==> pos((#[trigger] out[k]).0) == expected[k].0 && out[k].1 as int == expected[k].1
}

/// The first item pass: every top-level constant joins the constant arena
/// and namespace (a name already taken by a constant is a `DuplicateItem`).
/// Returns each constant's handle with its declaration's index in `items`.
pub fn collect_consts(hir: &mut HIR, items: &Vec<ItemDecl>) -> (out: Vec<(ConstId, usize)>)
    requires
        old(hir).wf(),
        old(hir).room(total_size(items@)),
    ensures
        final(hir).wf(),
        final(hir).items_view() == collect_fold(old(hir).items_view(), items@, CollectPass::Consts).0,
        appends(
            old(hir).diagnostics@,
            final(hir).diagnostics@,
            collect_fold(old(hir).items_view(), items@, CollectPass::Consts).1,
        ),
        lists(out@, collect_fold(old(hir).items_view(), items@, CollectPass::Consts).2, |id: ConstId| id.0),
{
    let raw = run_pass(hir, items, CollectPass::Consts);
    let ghost expected = raw@.map_values(|p: (u32, usize)| (p.0, p.1 as int));
    let mut out: Vec<(ConstId, usize)> = Vec::new();
    let mut k: usize = 0;
    while k < raw.len()
        invariant
            k <= raw@.len(),
            expected == raw@.map_values(|p: (u32, usize)| (p.0, p.1 as int)),
            lists(out@, expected.take(k as int), |id: ConstId| id.0),
        decreases raw@.len() - k,
    {
        out.push((ConstId(raw[k].0), raw[k].1));
        k = k + 1;
    }
    assert(expected.take(raw@.len() as int) =~= expected);
    out
}

/// The second item pass, after constants are folded: every top-level
/// global joins the global arena and namespace, its name checked against C
/// keywords, `printf`, and the constants and globals already declared.
/// Returns each global's handle with its declaration's index in `items`.
pub fn collect_globals(hir: &mut HIR, items: &Vec<ItemDecl>) -> (out: Vec<(GlobalId, usize)>)
    requires
        old(hir).wf(),
        old(hir).room(total_size(items@)),
    ensures
        final(hir).wf(),
        final(hir).items_view() == collect_fold(old(hir).items_view(), items@, CollectPass::Globals).0,
        appends(
            old(hir).diagnostics@,
            final(hir).diagnostics@,
            collect_fold(old(hir).items_view(), items@, CollectPass::Globals).1,
        ),
        lists(out@, collect_fold(old(hir).items_view(), items@, CollectPass::Globals).2, |id: GlobalId| id.0),
{
    let raw = run_pass(hir, items, CollectPass::Globals);
    let ghost expected = raw@.map_values(|p: (u32, usize)| (p.0, p.1 as int));
    let mut out: Vec<(GlobalId, usize)> = Vec::new();
    let mut k: usize = 0;
    while k < raw.len()
        invariant
            k <= raw@.len(),
            expected == raw@.map_values(|p: (u32, usize)| (p.0, p.1 as int)),
            lists(out@, expected.take(k as int), |id: GlobalId| id.0),
        decreases raw@.len() - k,
    {
        out.push((GlobalId(raw[k].0), raw[k].1));
        k = k + 1;
    }
    assert(expected.take(raw@.len() as int) =~= expected);
    out
}

/// The third item pass: structs, unions, functions (defined and `extern`),
/// opaque `extern` types and enums join their arenas and namespaces in
/// declaration order, with their fields, parameters and variants. A name
/// taken in a conflicting namespace is a `DuplicateItem` (the later item
/// still takes the name); a variant name already declared by an enum is a
/// `DuplicateVariantDecl` (the first keeps it). Returns each defined
/// function's handle with its declaration's index in `items`.
pub fn collect_items(hir: &mut HIR, items: &Vec<ItemDecl>) -> (out: Vec<(FnId, usize)>)
    requires
        old(hir).wf(),
        old(hir).room(total_size(items@)),
        forall|k: int| 0 <= k < items@.len() ==> fn_types_below(#[trigger] items@[k], old(hir).types@.len() as int),
    ensures
        final(hir).wf(),
        final(hir).items_view() == collect_fold(old(hir).items_view(), items@, CollectPass::Items).0,
        appends(
            old(hir).diagnostics@,
            final(hir).diagnostics@,
            collect_fold(old(hir).items_view(), items@, CollectPass::Items).1,
        ),
        lists(out@, collect_fold(old(hir).items_view(), items@, CollectPass::Items).2, |id: FnId| id.0),
{
    let raw = run_pass(hir, items, CollectPass::Items);
    let ghost expected = raw@.map_values(|p: (u32, usize)| (p.0, p.1 as int));
    let mut out: Vec<(FnId, usize)> = Vec::new();
    let mut k: usize = 0;
    while k < raw.len()
        invariant
            k <= raw@.len(),
            expected == raw@.map_values(|p: (u32, usize)| (p.0, p.1 as int)),
            lists(out@, expected.take(k as int), |id: FnId| id.0),
        decreases raw@.len() - k,
    {
        out.push((FnId(raw[k].0), raw[k].1));
        k = k + 1;
    }
    assert(expected.take(raw@.len() as int) =~= expected);
    out
}

/// The names of the types `tys` that name no declared type, in order.
pub open spec fn unknown_type_names_all(kinds: Seq<KindView>, scope: ScopeMaps, tys: Seq<TypeRef>) -> Seq<Seq<char>>
    decreases tys.len(),
{
    if tys.len() == 0 {
        seq![]
    } else {
        unknown_type_names_all(kinds, scope, tys.drop_last()) + crate::checks::unknown_names_of(kinds, scope, tys.last())
    }
}

/// Checks the types of the collected item signatures, `tys`, once every
/// item is declared (a signature may name a type declared later): one
/// `UnknownTypeName` per name that no primitive, struct, union, enum or
/// opaque type has, in order.
pub fn validate_type_names(hir: &mut HIR, tys: &Vec<TypeRef>)
    requires
        old(hir).wf(),
    ensures
        final(hir).wf(),
        final(hir).items_view() == old(hir).items_view(),
        ({
            let names = unknown_type_names_all(old(hir).types@, old(hir).items@, tys@);
            &&& final(hir).diagnostics@.len() == old(hir).diagnostics@.len() + names.len()
            &&& final(hir).diagnostics@.take(old(hir).diagnostics@.len() as int) == old(hir).diagnostics@
            &&& forall|k: int|
                0 <= k < names.len() ==> (#[trigger] final(hir).diagnostics@[old(hir).diagnostics@.len() + k] matches HirError::Resolve(
                    ResolveError::UnknownTypeName { name },
                ) && name@ == names[k])
        }),
{
    let ghost d0 = hir.diagnostics@;
    let ghost kinds = hir.types@;
    let ghost scope = hir.items@;
    let mut i: usize = 0;
    proof {
        assert(tys@.take(0) =~= Seq::<TypeRef>::empty());
        assert(hir.diagnostics@.take(d0.len() as int) =~= d0);
    }
    while i < tys.len()
        invariant
            i <= tys@.len(),
            hir.wf(),
            hir.items_view() == old(hir).items_view(),
            kinds == hir.types@,
            scope == hir.items@,
            d0 == old(hir).diagnostics@,
            ({
                let names = unknown_type_names_all(kinds, scope, tys@.take(i as int));
                &&& hir.diagnostics@.len() == d0.len() + names.len()
                &&& hir.diagnostics@.take(d0.len() as int) == d0
                &&& forall|k: int|
                    0 <= k < names.len() ==> (#[trigger] hir.diagnostics@[d0.len() + k] matches HirError::Resolve(
                        ResolveError::UnknownTypeName { name },
                    ) && name@ == names[k])
            }),
        decreases tys@.len() - i,
    {
        let names = crate::checks::unknown_type_names(tys[i], &hir.types, &*hir);
        let ghost before = hir.diagnostics@;
        let ghost prev = unknown_type_names_all(kinds, scope, tys@.take(i as int));
        proof {
            assert(tys@.take(i + 1).drop_last() =~= tys@.take(i as int));
            assert(tys@.take(i + 1).last() == tys@[i as int]);
        }
        let mut j: usize = 0;
        while j < names.len()
            invariant
                j <= names@.len(),
                hir.wf(),
                hir.items_view() == old(hir).items_view(),
                kinds == hir.types@,
                scope == hir.items@,
                hir.diagnostics@.len() == before.len() + j,
                hir.diagnostics@.take(before.len() as int) == before,
                forall|k: int|
                    0 <= k < j ==> (#[trigger] hir.diagnostics@[before.len() + k] matches HirError::Resolve(
                        ResolveError::UnknownTypeName { name },
                    ) && name@ == names@[k]@),
            decreases names@.len() - j,
        {
            let ghost b2 = hir.diagnostics@;
            hir.diagnostics.push(HirError::Resolve(ResolveError::UnknownTypeName { name: names[j].clone() }));
            proof {
                assert(hir.diagnostics@.take(before.len() as int) =~= before) by {
                    assert(b2.take(before.len() as int) == before);
                    assert forall|x: int| 0 <= x < before.len() implies hir.diagnostics@[x] == before[x] by {
                        assert(b2.take(before.len() as int)[x] == b2[x]);
                    }
                }
            }
            j = j + 1;
        }
        proof {
            let nv = names@.map_values(|s: String| s@);
            let all = unknown_type_names_all(kinds, scope, tys@.take(i + 1));
            assert(all =~= prev + nv);
            assert(hir.diagnostics@.take(d0.len() as int) =~= d0) by {
                assert forall|x: int| 0 <= x < d0.len() implies hir.diagnostics@[x] == d0[x] by {
                    assert(hir.diagnostics@.take(before.len() as int)[x] == before[x]);
                    assert(before.take(d0.len() as int)[x] == d0[x]);
                }
            }
            assert forall|k: int| 0 <= k < all.len() implies (#[trigger] hir.diagnostics@[d0.len() + k] matches HirError::Resolve(
                ResolveError::UnknownTypeName { name },
            ) && name@ == all[k]) by {
                if k < prev.len() {
                    assert(hir.diagnostics@.take(before.len() as int)[d0.len() + k] == before[d0.len() + k]);
                } else {
                    assert(hir.diagnostics@[before.len() + (k - prev.len())] == hir.diagnostics@[d0.len() + k]);
                }
            }
        }
        i = i + 1;
    }
    proof {
        assert(tys@.take(tys@.len() as int) =~= tys@);
    }
}

} // verus!
