//! A wildcard (fuzzy point) pattern-matching obfuscation scheme: a secret
//! pattern over `{0,1,*}` is encoded as a public matrix of group elements
//! that lets any holder test whether a binary string matches the hidden
//! pattern, without learning the pattern beyond its matching behaviour.
pub mod mpzops;
pub mod numtheory;
pub mod protocol;
