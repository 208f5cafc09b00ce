//! The dictionary: a trie over a lowercased word list, with exact-match
//! queries and resumable prefix-search cursors.

use crate::trie_api::advance_pos;
use crate::trie_api::ascii_lower;
use crate::trie_api::ascii_seq;
use crate::trie_api::builder_build;
use crate::trie_api::builder_new;
use crate::trie_api::builder_push;
use crate::trie_api::builder_words;
use crate::trie_api::lower_of;
use crate::trie_api::lowercase;
use crate::trie_api::pos_in_trie;
use crate::trie_api::pos_str;
use crate::trie_api::root_pos;
use crate::trie_api::trie_exact_match;
use crate::trie_api::trie_words;
use trie_rs::Trie;
use trie_rs::inc_search::Position;
use vstd::prelude::*;

verus! {

/// The relationship between a consumed string and the dictionary's word set.
#[derive(Clone, Copy, Debug, PartialEq, Eq, Structural)]
pub enum Status {
    /// No word begins with the consumed string.
    NoMatch,
    /// Some word strictly extends the consumed string, which is not a word.
    Prefix,
    /// The consumed string is a word and no word strictly extends it.
    Match,
    /// The consumed string is a word and some word strictly extends it.
    PrefixAndMatch,
}

/// Some word of `words` has `s` as a (possibly equal) prefix.
pub open spec fn prefix_of_some(words: Set<Seq<char>>, s: Seq<char>) -> bool {
    exists|w: Seq<char>| words.contains(w) && s.is_prefix_of(w)
}

/// Some word of `words` strictly extends `s`.
pub open spec fn strictly_extended(words: Set<Seq<char>>, s: Seq<char>) -> bool {
    exists|w: Seq<char>| words.contains(w) && s.is_prefix_of(w) && s.len() < w.len()
}

/// The status a cursor reports after consuming `s` against `words`.
pub open spec fn status_of(words: Set<Seq<char>>, s: Seq<char>) -> Status {
    if !prefix_of_some(words, s) {
        Status::NoMatch
    } else if words.contains(s) && strictly_extended(words, s) {
        Status::PrefixAndMatch
    } else if words.contains(s) {
        Status::Match
    } else {
        Status::Prefix
    }
}

/// Pruning correctness: once a string is a prefix of no dictionary word, no
/// extension of it is either, so a search that abandons such a string can
/// never miss a word reachable through it.
pub proof fn lemma_pruned_stays_pruned(words: Set<Seq<char>>, s: Seq<char>, t: Seq<char>)
    requires
        !prefix_of_some(words, s),
        s.is_prefix_of(t),
    ensures
        !prefix_of_some(words, t),
{
    if prefix_of_some(words, t) {
        let w = choose|w: Seq<char>| words.contains(w) && t.is_prefix_of(w);
        assert(s.is_prefix_of(w)) by {
            assert forall|i: int| 0 <= i < s.len() implies s[i] == w[i] by {
                assert(s[i] == t[i]);
                assert(t[i] == w[i]);
            }
            assert(s =~= w.subrange(0, s.len() as int));
        }
    }
}

/// The word set a list of entries builds: each entry lowercased, empty
/// entries ignored.
pub open spec fn words_model(ws: Seq<Seq<char>>) -> Set<Seq<char>>
    decreases ws.len(),
{
    if ws.len() == 0 {
        Set::<Seq<char>>::empty()
    } else {
        let rest = words_model(ws.drop_last());
        let lw = lower_of(ws.last());
        if lw.len() == 0 {
            rest
        } else {
            rest.insert(lw)
        }
    }
}

/// The built word set holds exactly the nonempty lowercasings of the entries:
/// no entry is lost and nothing else is added.
pub proof fn lemma_words_model_members(ws: Seq<Seq<char>>, w: Seq<char>)
    ensures
        words_model(ws).contains(w) <==> (exists|i: int|
            0 <= i < ws.len() && lower_of(#[trigger] ws[i]) == w && w.len() > 0),
    decreases ws.len(),
{
    if ws.len() > 0 {
        let rest = ws.drop_last();
        let lw = lower_of(ws.last());
        lemma_words_model_members(rest, w);
        if words_model(ws).contains(w) {
            if words_model(rest).contains(w) {
                let i = choose|i: int|
                    0 <= i < rest.len() && lower_of(#[trigger] rest[i]) == w && w.len() > 0;
                assert(lower_of(ws[i]) == w);
            } else {
                assert(w == lw && lw.len() > 0);
                assert(lower_of(ws[ws.len() - 1]) == w);
            }
        }
        if exists|i: int| 0 <= i < ws.len() && lower_of(#[trigger] ws[i]) == w && w.len() > 0 {
            let i = choose|i: int|
                0 <= i < ws.len() && lower_of(#[trigger] ws[i]) == w && w.len() > 0;
            if i < ws.len() - 1 {
                assert(lower_of(rest[i]) == w);
                assert(words_model(rest).contains(w));
                assert(words_model(ws).contains(w));
            } else {
                assert(w == lw);
                assert(words_model(ws).contains(w));
            }
        }
    }
}

/// An ordered-character trie over a lowercased word list.  Immutable after
/// construction.
pub struct Dictionary {
    pub(crate) trie: Trie<u8>,
}

/// The dictionary's word set is its trie's word set.
pub(crate) proof fn lemma_words_def(d: &Dictionary)
    ensures
        d.words() == trie_words(d.trie),
{
}

impl Dictionary {
    /// The set of words this dictionary holds.
    pub closed spec fn words(&self) -> Set<Seq<char>> {
        trie_words(self.trie)
    }

    /// Builds a dictionary from a word list.  Each entry is lowercased;
    /// duplicates are idempotent and empty entries are ignored.  For an
    /// all-ASCII entry the lowercasing is pinned down exactly, so the word
    /// set of a concrete ASCII word list is fully determined.
    pub fn build(entries: &Vec<String>) -> (d: Dictionary)
        ensures
            d.words() == words_model(entries@.map_values(|w: String| w@)),
            forall|i: int|
                0 <= i < entries@.len() && ascii_seq(entries@[i]@) ==> #[trigger] lower_of(
                    entries@[i]@,
                ) == ascii_lower(entries@[i]@),
    {
        let ghost ws = entries@.map_values(|w: String| w@);
        let mut b = builder_new();
        let mut i: usize = 0;
        while i < entries.len()
            invariant
                i <= entries.len(),
                ws == entries@.map_values(|w: String| w@),
                builder_words(b) == words_model(ws.take(i as int)),
                forall|k: int|
                    0 <= k < i && ascii_seq(ws[k]) ==> #[trigger] lower_of(ws[k]) == ascii_lower(
                        ws[k],
                    ),
            decreases entries.len() - i,
        {
            let lw = lowercase(entries[i].as_str());
            if !lw.as_str().is_empty() {
                builder_push(&mut b, lw.as_str());
            }
            i += 1;
            proof {
                assert(ws.take(i as int).drop_last() =~= ws.take(i - 1));
                assert(ws.take(i as int).last() == ws[i - 1]);
            }
        }
        proof {
            assert(ws.take(entries@.len() as int) =~= ws);
            assert forall|k: int|
                0 <= k < entries@.len() && ascii_seq(entries@[k]@) implies #[trigger] lower_of(
                entries@[k]@,
            ) == ascii_lower(entries@[k]@) by {
                assert(ws[k] == entries@[k]@);
                assert(lower_of(ws[k]) == ascii_lower(ws[k]));
            }
        }
        Dictionary { trie: builder_build(b) }
    }

    /// Exact-match query: true exactly when `word` is in the dictionary.
    /// The empty string is never a dictionary word.
    pub fn contains(&self, word: &str) -> (r: bool)
        ensures
            r == (word@.len() > 0 && self.words().contains(word@)),
    {
        trie_exact_match(&self.trie, word)
    }

    /// A cursor positioned at the trie root, having consumed nothing.
    pub fn cursor<'a>(&'a self) -> (c: Cursor<'a>)
        ensures
            c.wf(),
            !c.is_dead(),
            c.consumed() == Seq::<char>::empty(),
            c.words() == self.words(),
    {
        Cursor { dict: self, pos: root_pos(&self.trie), dead: false }
    }
}

/// A resumable prefix-search position in a dictionary.  Copyable: exploring
/// sibling branches from the same depth never disturbs a sibling's cursor.
pub struct Cursor<'a> {
    dict: &'a Dictionary,
    pos: Position,
    dead: bool,
}

impl<'a> Cursor<'a> {
    /// The word set of the dictionary this cursor searches.
    pub closed spec fn words(&self) -> Set<Seq<char>> {
        trie_words(self.dict.trie)
    }

    /// Whether a failed advance has invalidated this cursor.
    pub closed spec fn is_dead(&self) -> bool {
        self.dead
    }

    /// The string this cursor has consumed so far.
    pub closed spec fn consumed(&self) -> Seq<char> {
        pos_str(self.dict.trie, self.pos)
    }

    /// A live cursor sits at a position actually reached in the trie.
    pub closed spec fn wf(&self) -> bool {
        !self.dead ==> pos_in_trie(self.dict.trie, self.pos)
    }

    /// Consumes `token` character by character from the current position and
    /// returns the cumulative status.  On failure (or once dead, or for an
    /// empty token) the cursor reports `NoMatch` and is dead from then on.
    pub fn advance(&mut self, token: &str) -> (st: Status)
        requires
            old(self).wf(),
        ensures
            final(self).wf(),
            final(self).words() == old(self).words(),
            (old(self).is_dead() || token@.len() == 0) ==> (st == Status::NoMatch
                && final(self).is_dead()),
            (!old(self).is_dead() && token@.len() > 0) ==> ({
                let s = old(self).consumed() + token@;
                &&& st == status_of(old(self).words(), s)
                &&& (st == Status::NoMatch ==> final(self).is_dead())
                &&& (st != Status::NoMatch ==> !final(self).is_dead() && final(self).consumed()
                    == s)
            }),
    {
        if self.dead {
            return Status::NoMatch;
        }
        match advance_pos(&self.dict.trie, self.pos, token) {
            Some((p, st)) => {
                self.pos = p;
                st
            },
            None => {
                self.dead = true;
                Status::NoMatch
            },
        }
    }
}

/// A cursor is a copyable value type.
impl<'a> Clone for Cursor<'a> {
    fn clone(&self) -> (c: Self)
        ensures
            c == *self,
    {
        Cursor { dict: self.dict, pos: self.pos, dead: self.dead }
    }
}

} // verus!
