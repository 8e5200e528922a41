//! The languages that can be analysed, each with its grammar and the pattern
//! that picks out its scopes and definitions.

pub mod golang;

use crate::capture::str_equal;
use crate::treesitter::{ascii, compile_query, ends_safely, handed, query_fault};
use vstd::prelude::*;

verus! {

#[verifier::external_type_specification]
#[verifier::external_body]
#[verifier::reject_recursive_types(T)]
pub struct ExOnceCell<T>(once_cell::sync::OnceCell<T>);

/// What a cell holds once it holds something: a cell is written at most once,
/// so that whoever reads it finds the same query.
pub uninterp spec fn settled(
    cell: once_cell::sync::OnceCell<tree_sitter::Query>,
) -> tree_sitter::Query;

/// `once_cell::sync::OnceCell::new`: an empty cell.
#[verifier::external_body]
fn new_cell() -> (cell: once_cell::sync::OnceCell<tree_sitter::Query>) {
    once_cell::sync::OnceCell::new()
}

/// A language that can be analysed.
#[derive(Debug)]
pub struct LanguageSpec {
    /// The id of the language, in lower case; no two languages share one.
    pub lang_id: &'static str,
    /// The grammar of the language.
    pub lang: tree_sitter::Language,
    /// The query that resolves scopes and definitions: it captures a scope as
    /// `@scope` and a definition as `@definition`. References need no mark.
    pub local_query: MemoizedQuery,
}

/// A query pattern that is compiled when it is first asked for, and once only.
#[derive(Debug)]
pub struct MemoizedQuery {
    slot: once_cell::sync::OnceCell<tree_sitter::Query>,
    scope_query: &'static str,
}

impl MemoizedQuery {
    /// The text of the pattern.
    pub closed spec fn pattern(&self) -> Seq<char> {
        self.scope_query@
    }

    /// A query over `scope_query`, whatever text that is, that is not compiled
    /// yet.
    pub fn new(scope_query: &'static str) -> (memo: Self)
        ensures
            memo.pattern() == scope_query@,
    {
        MemoizedQuery { slot: new_cell(), scope_query }
    }

    /// The query that every successful call of `query` hands out.
    pub closed spec fn compiled(&self) -> tree_sitter::Query {
        settled(self.slot)
    }

    /// The compiled query. The pattern is compiled against `grammar` if it has
    /// not been compiled before, and the same query is handed out from then on.
    /// The compiler is handed the pattern itself where it ends safely, and the
    /// pattern followed by a line break where it does not. The call fails only
    /// where that text does not compile against `grammar`, with the compiler's
    /// diagnostic; a failure is not kept.
    pub fn query(&self, grammar: tree_sitter::Language) -> (outcome: Result<
        &tree_sitter::Query,
        tree_sitter::QueryError,
    >)
        ensures
            ascii(self.pattern()) && query_fault(grammar, handed(self.pattern())) is None
                ==> outcome is Ok,
            ascii(self.pattern()) ==> (outcome matches Err(e) ==> query_fault(
                grammar,
                handed(self.pattern()),
            ) == Some(e)),
            outcome matches Ok(query) ==> *query == self.compiled(),
    {
        if pattern_ends_safely(self.scope_query) {
            get_or_compile(&self.slot, grammar, self.scope_query)
        } else {
            let mut text = self.scope_query.to_owned();
            text.append("\n");
            proof {
                reveal_strlit("\n");
                assert("\n"@ =~= seq!['\n']);
                assert(text@ =~= handed(self.scope_query@));
                assert(text@.last() == '\n');
                assert forall|i: int| 0 <= i < text@.len() && ascii(self.scope_query@) implies (
                #[trigger] text@[i]) <= '\x7f' by {
                    if i < self.scope_query@.len() {
                        assert(text@[i] == self.scope_query@[i]);
                    }
                }
            }
            get_or_compile(&self.slot, grammar, text.as_str())
        }
    }
}

/// `once_cell::sync::OnceCell::get_or_try_init`: what the cell holds; an empty
/// cell is first filled with the compiled pattern, and stays empty where the
/// pattern does not compile. So the call fails only where the cell was empty
/// and the pattern did not compile, with the compiler's diagnostic, and
/// otherwise hands out what the cell holds. The diagnostic is claimed for a
/// pattern of ASCII characters; the pattern has to end safely, as the
/// compiler asks.
#[verifier::external_body]
fn get_or_compile<'a>(
    cell: &'a once_cell::sync::OnceCell<tree_sitter::Query>,
    grammar: tree_sitter::Language,
    pattern: &str,
) -> (held: Result<&'a tree_sitter::Query, tree_sitter::QueryError>)
    requires
        ends_safely(pattern@),
    ensures
        ascii(pattern@) && query_fault(grammar, pattern@) is None ==> held is Ok,
        ascii(pattern@) ==> (held matches Err(e) ==> query_fault(grammar, pattern@) == Some(e)),
        held matches Ok(query) ==> *query == settled(*cell),
{
    cell.get_or_try_init(|| compile_query(grammar, pattern))
}

/// Tests whether a pattern ends safely.
pub fn pattern_ends_safely(pattern: &str) -> (safe: bool)
    ensures
        safe == ends_safely(pattern@),
{
    let length = pattern.unicode_len();
    if length == 0 {
        return true;
    }
    let last = pattern.get_char(length - 1);
    let name = ('a' <= last && last <= 'z') || ('A' <= last && last <= 'Z') || ('0' <= last && last
        <= '9') || last == '_' || last == '-';
    last <= '\x7f' && !name
}

/// Whether a language is registered under `lang_id`.
pub open spec fn registered(registry: Seq<LanguageSpec>, lang_id: Seq<char>) -> bool {
    exists|i: int| 0 <= i < registry.len() && (#[trigger] registry[i]).lang_id@ == lang_id
}

/// The languages that come with the library.
pub fn languages() -> (registry: Vec<LanguageSpec>)
    ensures
        registry@.len() == 1,
        registry@[0].lang_id@ == golang::GO_ID@,
        registry@[0].local_query.pattern() == golang::GO_LOCAL_QUERY@,
{
    let mut registry: Vec<LanguageSpec> = Vec::new();
    registry.push(golang::go());
    registry
}

/// Finds the first language registered under `lang_id`.
pub fn find_language(registry: &Vec<LanguageSpec>, lang_id: &str) -> (found: Option<usize>)
    ensures
        match found {
            Some(i) => i < registry@.len() && registry@[i as int].lang_id@ == lang_id@
                && forall|j: int| 0 <= j < i ==> (#[trigger] registry@[j]).lang_id@ != lang_id@,
            None => !registered(registry@, lang_id@),
        },
{
    let mut i: usize = 0;
    while i < registry.len()
        invariant
            i <= registry.len(),
            forall|j: int| 0 <= j < i ==> (#[trigger] registry@[j]).lang_id@ != lang_id@,
        decreases registry.len() - i,
    {
        if str_equal(registry[i].lang_id, lang_id) {
            return Some(i);
        }
        i += 1;
    }
    None
}

} // verus!
