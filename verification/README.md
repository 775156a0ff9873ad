# regex_nfa

A small regular-expression engine: a pattern is parsed into tokens
(literals, bracket expressions, groups, alternatives and quantifiers), the
tokens are compiled into a nondeterministic automaton with epsilon
transitions, and the automaton is run on an input.

Every function of the library is verified with Verus:

- `src/parser.rs`: the parser, specified by a mathematical model of one
  parsing step (`process_spec`) and of a whole parse (`parse_spec`);
- `src/token.rs`: tokens and their mathematical views;
- `src/state.rs`: the automaton, its construction (`build`, `chain`,
  `ctx_build`) and the search (`acc`, `accepts`), which `NFA::matches`
  computes exactly;
- `src/language.rs`, `src/acceptance.rs` and `src/groups.rs`: the language
  of the automaton built for a sequence of literals, bracket expressions,
  quantified ones and groups of them (`law_simple_language`,
  `law_group_language`);
- `src/literal.rs`: a pattern without special bytes matches exactly itself
  (`law_literal_pattern`).

`app/main.rs` builds the automaton for an e-mail pattern and prints, for
each command-line argument, whether it is accepted.
