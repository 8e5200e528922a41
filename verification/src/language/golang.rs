//! Go.

use crate::language::{LanguageSpec, MemoizedQuery};
use crate::treesitter::{ascii, ends_safely, go_language, handed};
use vstd::prelude::*;

verus! {

/// The id under which Go is registered.
pub const GO_ID: &'static str = "go";

/// The scopes and definitions of Go. A function, a method and a function
/// literal each open a scope. Parameters, receivers and the variables and
/// constants that a statement declares are definitions.
pub const GO_LOCAL_QUERY: &'static str = "
(function_declaration) @scope
(method_declaration) @scope
(func_literal) @scope

(parameter_declaration name: (identifier) @definition)
(variadic_parameter_declaration name: (identifier) @definition)
(short_var_declaration left: (expression_list (identifier) @definition))
(range_clause left: (expression_list (identifier) @definition))
(var_spec name: (identifier) @definition)
(const_spec name: (identifier) @definition)
";

/// The query holds ASCII characters only and ends with a line break, so that
/// the compiler is handed the query itself.
pub proof fn lemma_query_is_plain()
    ensures
        ascii(GO_LOCAL_QUERY@),
        ends_safely(GO_LOCAL_QUERY@),
        handed(GO_LOCAL_QUERY@) == GO_LOCAL_QUERY@,
{
    reveal_strlit("
(function_declaration) @scope
(method_declaration) @scope
(func_literal) @scope

(parameter_declaration name: (identifier) @definition)
(variadic_parameter_declaration name: (identifier) @definition)
(short_var_declaration left: (expression_list (identifier) @definition))
(range_clause left: (expression_list (identifier) @definition))
(var_spec name: (identifier) @definition)
(const_spec name: (identifier) @definition)
");
    assert(GO_LOCAL_QUERY@.last() == '\n');
}

/// Go, with its grammar and its query.
pub fn go() -> (language: LanguageSpec)
    ensures
        language.lang_id@ == GO_ID@,
        language.local_query.pattern() == GO_LOCAL_QUERY@,
{
    LanguageSpec {
        lang_id: GO_ID,
        lang: go_language(),
        local_query: MemoizedQuery::new(GO_LOCAL_QUERY),
    }
}

} // verus!
