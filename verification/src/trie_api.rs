//! Trusted interface to the `trie_rs` crate.
//!
//! The dictionary trie itself lives in `trie_rs`; this module declares the
//! outside types and gives each call the library makes a contract stated over
//! the abstract word set of a trie (`trie_words`), the word set accumulated in
//! a builder (`builder_words`), and the string a search position has consumed
//! (`pos_str`).

use crate::dict::Status;
use crate::dict::prefix_of_some;
use crate::dict::status_of;
use trie_rs::Trie;
use trie_rs::TrieBuilder;
use trie_rs::inc_search::Answer;
use trie_rs::inc_search::IncSearch;
use trie_rs::inc_search::Position;
use vstd::prelude::*;

verus! {

#[verifier::external_type_specification]
#[verifier::external_body]
#[verifier::reject_recursive_types(Label)]
pub struct ExTrie<Label>(Trie<Label>);

#[verifier::external_type_specification]
#[verifier::external_body]
#[verifier::reject_recursive_types(Label)]
pub struct ExTrieBuilder<Label>(TrieBuilder<Label>);

#[verifier::external_type_specification]
#[verifier::external_body]
pub struct ExPosition(Position);

/// The set of words a trie accepts: the (nonempty) character sequences that
/// were pushed into the builder it was built from.
pub uninterp spec fn trie_words(t: Trie<u8>) -> Set<Seq<char>>;

/// The set of words pushed into a builder so far.
pub uninterp spec fn builder_words(b: TrieBuilder<u8>) -> Set<Seq<char>>;

/// The string consumed so far by a search position of trie `t`, for positions
/// reached from the root by a sequence of whole string tokens.
pub uninterp spec fn pos_str(t: Trie<u8>, p: Position) -> Seq<char>;

/// Whether `p` is a search position of trie `t` reached from the root by a
/// sequence of whole string tokens.
pub uninterp spec fn pos_in_trie(t: Trie<u8>, p: Position) -> bool;

/// The lowercase form of a string, as `str::to_lowercase` computes it.
pub uninterp spec fn lower_of(s: Seq<char>) -> Seq<char>;

/// Every character of `s` is ASCII.
pub open spec fn ascii_seq(s: Seq<char>) -> bool {
    forall|i: int| 0 <= i < s.len() ==> (s[i] as int) < 128
}

/// The ASCII lowercasing of one character: `A`-`Z` map to `a`-`z`, all else
/// is unchanged.
pub open spec fn ascii_lower_char(c: char) -> char {
    if 'A' <= c <= 'Z' {
        (((c as u8) + 32) as char)
    } else {
        c
    }
}

/// The ASCII lowercasing of a string, character by character.
pub open spec fn ascii_lower(s: Seq<char>) -> Seq<char> {
    s.map_values(|c: char| ascii_lower_char(c))
}

/// Relies on `trie_rs::TrieBuilder::new`: a fresh builder holds no entries.
#[verifier::external_body]
pub(crate) fn builder_new() -> (b: TrieBuilder<u8>)
    ensures
        builder_words(b) == Set::<Seq<char>>::empty(),
{
    TrieBuilder::new()
}

/// Relies on `trie_rs::TrieBuilder::push`: adds one entry to the builder's
/// set; duplicates are idempotent.  Pushing an empty entry panics inside
/// `trie_rs`, so it is excluded here.
#[verifier::external_body]
pub(crate) fn builder_push(b: &mut TrieBuilder<u8>, w: &str)
    requires
        w@.len() > 0,
    ensures
        builder_words(*final(b)) == builder_words(*old(b)).insert(w@),
{
    b.push(w)
}

/// Relies on `trie_rs::TrieBuilder::build`: the trie accepts exactly the
/// entries pushed into the builder.
#[verifier::external_body]
pub(crate) fn builder_build(b: TrieBuilder<u8>) -> (t: Trie<u8>)
    ensures
        trie_words(t) == builder_words(b),
{
    b.build()
}

/// Relies on `trie_rs::Trie::exact_match`: true exactly for accepted entries;
/// an empty query never matches (its node walk visits no node).
#[verifier::external_body]
pub(crate) fn trie_exact_match(t: &Trie<u8>, w: &str) -> (r: bool)
    ensures
        r == (w@.len() > 0 && trie_words(*t).contains(w@)),
{
    t.exact_match(w)
}

/// Relies on `trie_rs::map::Trie::inc_search`: a search starting at the root
/// has consumed nothing.
#[verifier::external_body]
pub(crate) fn root_pos(t: &Trie<u8>) -> (p: Position)
    ensures
        pos_in_trie(*t, p),
        pos_str(*t, p) == Seq::<char>::empty(),
{
    Position::from(t.0.inc_search())
}

/// Relies on `trie_rs::inc_search`'s `IncSearch::resume`, `query_until` and
/// `Position::from`: consuming `token` from position `p` succeeds exactly when
/// the extended string is a prefix of some accepted word (an empty token
/// always fails), and the answer reports whether that string is itself a word
/// and whether a longer word extends it.
#[verifier::external_body]
pub(crate) fn advance_pos(t: &Trie<u8>, p: Position, token: &str) -> (r: Option<
    (Position, Status),
>)
    requires
        pos_in_trie(*t, p),
    ensures
        r is Some <==> (token@.len() > 0 && prefix_of_some(trie_words(*t), pos_str(*t, p) + token@)),
        r matches Some(q) ==> pos_in_trie(*t, q.0) && pos_str(*t, q.0) == pos_str(*t, p) + token@
            && q.1 == status_of(trie_words(*t), pos_str(*t, p) + token@),
{
    let mut search = IncSearch::resume(&t.0, p);
    match search.query_until(token) {
        Ok(answer) => {
            let st = match answer {
                Answer::Prefix => Status::Prefix,
                Answer::Match => Status::Match,
                Answer::PrefixAndMatch => Status::PrefixAndMatch,
            };
            Some((Position::from(search), st))
        },
        Err(_) => None,
    }
}

/// Relies on `str::to_lowercase`: the result depends on the characters
/// alone, is empty exactly when the input is empty, and on an ASCII string
/// it maps `A`-`Z` to `a`-`z` and leaves every other character unchanged.
#[verifier::external_body]
pub(crate) fn lowercase(s: &str) -> (r: String)
    ensures
        r@ == lower_of(s@),
        (r@.len() == 0) == (s@.len() == 0),
        ascii_seq(s@) ==> r@ == ascii_lower(s@),
{
    s.to_lowercase()
}

} // verus!
