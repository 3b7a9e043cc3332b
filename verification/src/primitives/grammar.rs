//! The TextMate grammar engine, as far as the highlighter uses it: parse
//! states and scope stacks of `syntect`, carried through as opaque values,
//! and the calls that make, advance and read them.

use syntect::parsing::{ParseState, ParsingError, ScopeStack, ScopeStackOp, SyntaxSet};
use vstd::prelude::*;

verus! {

/// A set of grammars.
#[verifier::external_type_specification]
#[verifier::external_body]
pub struct ExSyntaxSet(SyntaxSet);

/// The parser's state between two lines.
#[verifier::external_type_specification]
#[verifier::external_body]
pub struct ExParseState(ParseState);

/// The stack of scopes in effect at a point of the text.
#[verifier::external_type_specification]
#[verifier::external_body]
pub struct ExScopeStack(ScopeStack);

/// A change to a scope stack.
#[verifier::external_type_specification]
#[verifier::external_body]
pub struct ExScopeStackOp(ScopeStackOp);

/// What the parser reports when a grammar cannot be followed.
#[verifier::external_type_specification]
#[verifier::external_body]
pub struct ExParsingError(ParsingError);

/// The names of the scopes on a stack, the bottom of the stack first.
pub uninterp spec fn scope_stack_names(stack: ScopeStack) -> Seq<Seq<char>>;

/// The names of the grammars that a set holds.
pub uninterp spec fn syntax_set_names(set: SyntaxSet) -> Set<Seq<char>>;

/// Whether the grammars of the set are ones that the engine can run: each
/// was read by the engine's own loader of syntax definitions, which gives
/// every grammar its start context and tests that every pattern compiles,
/// the set is the linked and complete one that the loader built, and no
/// grammar pops its bottom context. With such a set the engine reports what
/// it cannot parse as an error and does not panic.
pub uninterp spec fn grammars_loaded(set: SyntaxSet) -> bool;

/// The parse state that a set gives for its grammar of the given name,
/// fresh, before any line is parsed; `None` if the set has no such grammar.
pub uninterp spec fn started_state(set: SyntaxSet, name: Seq<char>) -> Option<ParseState>;

/// What the parser makes of a line: the state it is left in, and the
/// changes to the scope stack along the line, or `None` where the parser
/// fails on the line.
pub uninterp spec fn parsed_line(state: ParseState, line: Seq<char>, set: SyntaxSet) -> (
    ParseState,
    Option<Seq<(usize, ScopeStackOp)>>,
);

/// The scope stack after a change is applied to it.
pub uninterp spec fn scope_stack_applied(stack: ScopeStack, op: ScopeStackOp) -> ScopeStack;

/// The state that the parser is left in after it has parsed `lines`, one
/// after the other, from `state` on.
pub open spec fn state_after_lines(state: ParseState, lines: Seq<Seq<char>>, set: SyntaxSet) -> ParseState
    decreases lines.len(),
{
    if lines.len() == 0 {
        state
    } else {
        parsed_line(state_after_lines(state, lines.drop_last(), set), lines.last(), set).0
    }
}

/// The state that a set reaches when it starts its grammar `name` and
/// parses `lines`; `None` if the set has no such grammar.
pub open spec fn state_reached(set: SyntaxSet, name: Seq<char>, lines: Seq<Seq<char>>) -> Option<
    ParseState,
> {
    match started_state(set, name) {
        Some(state) => Some(state_after_lines(state, lines, set)),
        None => None,
    }
}

/// Whether a parse state belongs to the set: the set started it for one of
/// its grammars, and every line it has parsed since was parsed with the set.
/// This is the set that the state may go on parsing with.
pub open spec fn state_fits_set(state: ParseState, set: SyntaxSet) -> bool {
    exists|name: Seq<char>, lines: Seq<Seq<char>>| #[trigger]
        state_reached(set, name, lines) == Some(state)
}

/// A state that a set has just started belongs to the set.
pub proof fn lemma_started_state_fits(set: SyntaxSet, name: Seq<char>)
    requires
        started_state(set, name) is Some,
    ensures
        state_fits_set(started_state(set, name)->0, set),
{
    let state = started_state(set, name)->0;
    assert(state_reached(set, name, Seq::<Seq<char>>::empty()) == Some(state));
}

/// A state that belongs to a set still does after parsing a line with it.
pub proof fn lemma_parsed_state_fits(state: ParseState, line: Seq<char>, set: SyntaxSet)
    requires
        state_fits_set(state, set),
    ensures
        state_fits_set(parsed_line(state, line, set).0, set),
{
    let (name, lines) = choose|name: Seq<char>, lines: Seq<Seq<char>>| #[trigger]
        state_reached(set, name, lines) == Some(state);
    let more = lines.push(line);
    assert(more.drop_last() =~= lines);
    assert(state_reached(set, name, more) == Some(parsed_line(state, line, set).0));
}

/// `SyntaxSet::load_defaults_newlines`: the set of grammars that comes
/// with the engine, for lines that end in a line feed. It is unpacked from
/// data that the engine's build made, with the engine's own loader, from
/// the syntax definitions it ships: these are grammars that the engine can
/// run.
#[verifier::external_body]
pub(crate) fn load_default_grammars() -> (set: SyntaxSet)
    ensures
        grammars_loaded(set),
{
    SyntaxSet::load_defaults_newlines()
}

/// `SyntaxSet::find_syntax_by_name`, then `ParseState::new` on what it
/// finds: a fresh parse state for the grammar of that name, or `None` if the
/// set has no such grammar. The state depends on nothing but the set and
/// the name.
/// `ParseState::new` looks up the start context of the grammar and panics
/// where there is none, so the set must be one of loaded grammars.
#[verifier::external_body]
pub(crate) fn start_parse(set: &SyntaxSet, name: &str) -> (state: Option<ParseState>)
    requires
        grammars_loaded(*set),
    ensures
        state == started_state(*set, name@),
        state is Some <==> syntax_set_names(*set).contains(name@),
{
    match set.find_syntax_by_name(name) {
        Some(syntax) => Some(ParseState::new(syntax)),
        None => None,
    }
}

/// `ParseState::parse_line`: parses one line and returns the changes to the
/// scope stack along it, each with the byte offset in the line at which it
/// applies. What it returns, and the state it leaves, depend on nothing but
/// the state, the line and the set. Nothing is claimed of the order of the
/// offsets. The set must be one of loaded grammars and the one the state
/// was made from: with another set, or with a grammar whose patterns do not
/// compile or whose bottom context pops, the method panics.
#[verifier::external_body]
pub(crate) fn parse_line(state: &mut ParseState, line: &str, set: &SyntaxSet) -> (ops: Result<
    Vec<(usize, ScopeStackOp)>,
    ParsingError,
>)
    requires
        grammars_loaded(*set),
        state_fits_set(*old(state), *set),
    ensures
        *final(state) == parsed_line(*old(state), line@, *set).0,
        match ops {
            Ok(changes) => parsed_line(*old(state), line@, *set).1 == Some(changes@),
            Err(_) => parsed_line(*old(state), line@, *set).1 is None,
        },
{
    state.parse_line(line, set)
}

/// `ScopeStack::new`: a stack with no scope on it.
#[verifier::external_body]
pub(crate) fn new_scope_stack() -> (stack: ScopeStack)
    ensures
        scope_stack_names(stack).len() == 0,
{
    ScopeStack::new()
}

/// `ScopeStack::apply`: changes the stack as the operation says. An
/// operation that cannot be applied leaves the stack as it is. The stack
/// afterwards depends on nothing but the stack before and the operation.
#[verifier::external_body]
pub(crate) fn apply_scope_op(stack: &mut ScopeStack, op: &ScopeStackOp)
    ensures
        *final(stack) == scope_stack_applied(*old(stack), *op),
{
    let _ = stack.apply(op);
}

/// `ScopeStack::len`: the number of scopes on the stack.
#[verifier::external_body]
pub(crate) fn scope_stack_len(stack: &ScopeStack) -> (len: usize)
    ensures
        len == scope_stack_names(*stack).len(),
{
    stack.len()
}

/// `Scope::build_string` on one scope of `ScopeStack::as_slice`: the name
/// of the scope at `index`, counted from the bottom of the stack.
#[verifier::external_body]
pub(crate) fn scope_name_at(stack: &ScopeStack, index: usize) -> (name: String)
    requires
        index < scope_stack_names(*stack).len(),
    ensures
        name@ == scope_stack_names(*stack)[index as int],
{
    stack.as_slice()[index].build_string()
}

} // verus!
