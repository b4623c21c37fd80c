//! Name rules for declared items: primitive type names, C keywords, and
//! the names reserved for the compiler's C output.

use vstd::prelude::*;

use crate::errors::ResolveError;
use crate::text::{str_eq, str_starts_with};

verus! {

/// Whether `n` is a C keyword: the C backend emits declared names verbatim, so such a name would be illegal C.
pub open spec fn spec_is_c_keyword(n: Seq<char>) -> bool {
    n == "auto"@ ||
        n == "bool"@ ||
        n == "break"@ ||
        n == "case"@ ||
        n == "char"@ ||
        n == "const"@ ||
        n == "constexpr"@ ||
        n == "continue"@ ||
        n == "default"@ ||
        n == "do"@ ||
        n == "double"@ ||
        n == "else"@ ||
        n == "enum"@ ||
        n == "extern"@ ||
        n == "false"@ ||
        n == "float"@ ||
        n == "for"@ ||
        n == "goto"@ ||
        n == "if"@ ||
        n == "inline"@ ||
        n == "int"@ ||
        n == "long"@ ||
        n == "nullptr"@ ||
        n == "register"@ ||
        n == "restrict"@ ||
        n == "return"@ ||
        n == "short"@ ||
        n == "signed"@ ||
        n == "sizeof"@ ||
        n == "static"@ ||
        n == "static_assert"@ ||
        n == "struct"@ ||
        n == "switch"@ ||
        n == "thread_local"@ ||
        n == "true"@ ||
        n == "typedef"@ ||
        n == "typeof"@ ||
        n == "typeof_unqual"@ ||
        n == "union"@ ||
        n == "unsigned"@ ||
        n == "void"@ ||
        n == "volatile"@ ||
        n == "while"@
}

/// Whether `n` is a C keyword: the C backend emits declared names verbatim, so such a name would be illegal C.
pub fn is_c_keyword(name: &str) -> (b: bool)
    ensures
        b == spec_is_c_keyword(name@),
{
    str_eq(name, "auto") ||
        str_eq(name, "bool") ||
        str_eq(name, "break") ||
        str_eq(name, "case") ||
        str_eq(name, "char") ||
        str_eq(name, "const") ||
        str_eq(name, "constexpr") ||
        str_eq(name, "continue") ||
        str_eq(name, "default") ||
        str_eq(name, "do") ||
        str_eq(name, "double") ||
        str_eq(name, "else") ||
        str_eq(name, "enum") ||
        str_eq(name, "extern") ||
        str_eq(name, "false") ||
        str_eq(name, "float") ||
        str_eq(name, "for") ||
        str_eq(name, "goto") ||
        str_eq(name, "if") ||
        str_eq(name, "inline") ||
        str_eq(name, "int") ||
        str_eq(name, "long") ||
        str_eq(name, "nullptr") ||
        str_eq(name, "register") ||
        str_eq(name, "restrict") ||
        str_eq(name, "return") ||
        str_eq(name, "short") ||
        str_eq(name, "signed") ||
        str_eq(name, "sizeof") ||
        str_eq(name, "static") ||
        str_eq(name, "static_assert") ||
        str_eq(name, "struct") ||
        str_eq(name, "switch") ||
        str_eq(name, "thread_local") ||
        str_eq(name, "true") ||
        str_eq(name, "typedef") ||
        str_eq(name, "typeof") ||
        str_eq(name, "typeof_unqual") ||
        str_eq(name, "union") ||
        str_eq(name, "unsigned") ||
        str_eq(name, "void") ||
        str_eq(name, "volatile") ||
        str_eq(name, "while")
}

/// Whether `n` names a primitive integer type.
pub open spec fn spec_is_int_type(n: Seq<char>) -> bool {
    n == "int8"@ ||
        n == "int16"@ ||
        n == "int32"@ ||
        n == "int64"@ ||
        n == "uint8"@ ||
        n == "uint16"@ ||
        n == "uint32"@ ||
        n == "uint64"@ ||
        n == "usize"@ ||
        n == "isize"@
}

/// Whether `n` names a primitive integer type.
pub fn is_int_type(name: &str) -> (b: bool)
    ensures
        b == spec_is_int_type(name@),
{
    str_eq(name, "int8") ||
        str_eq(name, "int16") ||
        str_eq(name, "int32") ||
        str_eq(name, "int64") ||
        str_eq(name, "uint8") ||
        str_eq(name, "uint16") ||
        str_eq(name, "uint32") ||
        str_eq(name, "uint64") ||
        str_eq(name, "usize") ||
        str_eq(name, "isize")
}

/// Whether `n` names a primitive float type.
pub open spec fn spec_is_float_type(n: Seq<char>) -> bool {
    n == "float32"@ ||
        n == "float64"@
}

/// Whether `n` names a primitive float type.
pub fn is_float_type(name: &str) -> (b: bool)
    ensures
        b == spec_is_float_type(name@),
{
    str_eq(name, "float32") ||
        str_eq(name, "float64")
}

/// Whether `n` names a primitive type the pipeline accepts in a named type.
pub open spec fn spec_is_primitive_type_name(n: Seq<char>) -> bool {
    n == "int8"@ ||
        n == "int16"@ ||
        n == "int32"@ ||
        n == "int64"@ ||
        n == "uint8"@ ||
        n == "uint16"@ ||
        n == "uint32"@ ||
        n == "uint64"@ ||
        n == "usize"@ ||
        n == "isize"@ ||
        n == "float32"@ ||
        n == "float64"@ ||
        n == "bool"@ ||
        n == "char"@ ||
        n == "string"@
}

/// Whether `n` names a primitive type the pipeline accepts in a named type.
pub fn is_primitive_type_name(name: &str) -> (b: bool)
    ensures
        b == spec_is_primitive_type_name(name@),
{
    str_eq(name, "int8") ||
        str_eq(name, "int16") ||
        str_eq(name, "int32") ||
        str_eq(name, "int64") ||
        str_eq(name, "uint8") ||
        str_eq(name, "uint16") ||
        str_eq(name, "uint32") ||
        str_eq(name, "uint64") ||
        str_eq(name, "usize") ||
        str_eq(name, "isize") ||
        str_eq(name, "float32") ||
        str_eq(name, "float64") ||
        str_eq(name, "bool") ||
        str_eq(name, "char") ||
        str_eq(name, "string")
}

/// The diagnostic for a declared name the C backend emits verbatim: a C
/// keyword, or a name in the backend's own `__eye` namespace.
pub fn c_keyword_error(name: &str, what: &'static str) -> (e: Option<ResolveError>)
    ensures
        spec_is_c_keyword(name@) ==> (e matches Some(ResolveError::NameIsCKeyword { name: n, what: w })
            && n@ == name@ && w == what),
        !spec_is_c_keyword(name@) && name@.len() >= 5 && name@.take(5) == "__eye"@ ==> (e matches Some(
            ResolveError::NameIsReserved { name: n, what: w },
        ) && n@ == name@ && w == what),
        !spec_is_c_keyword(name@) && !(name@.len() >= 5 && name@.take(5) == "__eye"@) ==> e is None,
{
    if is_c_keyword(name) {
        Some(ResolveError::NameIsCKeyword { name: name.to_owned(), what })
    } else if str_starts_with(name, "__eye") {
        proof {
            reveal_strlit("__eye");
        }
        Some(ResolveError::NameIsReserved { name: name.to_owned(), what })
    } else {
        proof {
            reveal_strlit("__eye");
        }
        None
    }
}

/// The diagnostic for a file-scope name that collides with the libc
/// `printf` the `println` intrinsic lowers to.
pub fn reserved_file_scope_error(name: &str, what: &'static str) -> (e: Option<ResolveError>)
    ensures
        name@ == "printf"@ ==> (e matches Some(ResolveError::NameIsReserved { name: n, what: w })
            && n@ == name@ && w == what),
        name@ != "printf"@ ==> e is None,
{
    if str_eq(name, "printf") {
        Some(ResolveError::NameIsReserved { name: name.to_owned(), what })
    } else {
        None
    }
}

} // verus!
