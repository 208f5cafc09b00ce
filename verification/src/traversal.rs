//! The traversal: a lazy, resumable depth-first search over board paths,
//! pruned by an incremental dictionary cursor.

use crate::dict::Dictionary;
use crate::dict::Status;
use crate::dict::prefix_of_some;
use crate::dict::status_of;
use crate::grid::Board;
use crate::trie_api::advance_pos;
use crate::trie_api::pos_in_trie;
use crate::trie_api::pos_str;
use crate::trie_api::root_pos;
use crate::trie_api::trie_words;
use trie_rs::inc_search::Position;
use vstd::arithmetic::mul::lemma_mul_nonnegative;
use vstd::prelude::*;
use vstd::set_lib::lemma_int_range;
use vstd::set_lib::lemma_len_subset;
use vstd::set_lib::set_int_range;

verus! {

/// Relies on `String::push_str`: appends the given string slice.
#[verifier::external_body]
fn append_str(s: &mut String, t: &str)
    ensures
        final(s)@ == old(s)@ + t@,
{
    s.push_str(t)
}

/// Relies on `String::truncate`, called at the char boundary in front of a
/// suffix the string is known to end with, so it keeps exactly the remaining
/// prefix.
#[verifier::external_body]
fn truncate_suffix(s: &mut String, suffix: &str)
    requires
        suffix@.len() <= old(s)@.len(),
        old(s)@.skip(old(s)@.len() - suffix@.len()) == suffix@,
    ensures
        final(s)@ == old(s)@.take(old(s)@.len() - suffix@.len()),
{
    let n = s.len() - suffix.len();
    s.truncate(n);
}

/// The concatenation of the tile strings along path `p` of board `b`.
pub open spec fn path_string(b: Board, p: Seq<int>) -> Seq<char>
    decreases p.len(),
{
    if p.len() == 0 {
        Seq::<char>::empty()
    } else {
        path_string(b, p.drop_last()) + b.tile(p.last())
    }
}

/// A simple path: in-bounds cells, consecutive cells adjacent, no cell
/// repeated.
pub open spec fn is_simple_path(b: Board, p: Seq<int>) -> bool {
    &&& forall|k: int| 0 <= k < p.len() ==> 0 <= #[trigger] p[k] < b.size()
    &&& forall|k: int| 1 <= k < p.len() ==> b.adjacent(#[trigger] p[k - 1], p[k])
    &&& forall|k1: int, k2: int| 0 <= k1 < k2 < p.len() ==> #[trigger] p[k1] != #[trigger] p[k2]
}

/// Some nonempty simple path of adjacent cells of `b` spells `w`.
pub open spec fn has_word_path(b: Board, w: Seq<char>) -> bool {
    exists|p: Seq<int>| is_simple_path(b, p) && p.len() > 0 && path_string(b, p) == w
}

/// A distinct sequence of values drawn from `[0, n)` has at most `n` entries.
proof fn lemma_distinct_bounded(p: Seq<int>, n: int)
    requires
        n >= 0,
        forall|k: int| 0 <= k < p.len() ==> 0 <= #[trigger] p[k] < n,
        forall|k1: int, k2: int| 0 <= k1 < k2 < p.len() ==> #[trigger] p[k1] != #[trigger] p[k2],
    ensures
        p.len() <= n,
{
    assert(p.no_duplicates()) by {
        assert forall|i: int, j: int|
            0 <= i < p.len() && 0 <= j < p.len() && i != j implies p[i] != p[j] by {
            if i < j {
                assert(p[i] != p[j]);
            } else {
                assert(p[j] != p[i]);
            }
        }
    }
    p.unique_seq_to_set();
    lemma_int_range(0, n);
    assert(p.to_set().subset_of(set_int_range(0, n))) by {
        assert forall|x: int| p.to_set().contains(x) implies set_int_range(0, n).contains(x) by {
            assert(p.contains(x));
            let k = choose|k: int| 0 <= k < p.len() && p[k] == x;
            assert(0 <= p[k] < n);
        }
    }
    lemma_len_subset(p.to_set(), set_int_range(0, n));
}

/// The weight of one open search frame with `n` free cells below it; grows
/// fast enough that finishing a frame always outweighs opening a child.
pub open spec fn pow9(n: nat) -> int
    decreases n,
{
    if n == 0 {
        2
    } else {
        9 * pow9((n - 1) as nat)
    }
}

proof fn lemma_pow9_pos(n: nat)
    ensures
        pow9(n) >= 2,
    decreases n,
{
    if n > 0 {
        lemma_pow9_pos((n - 1) as nat);
    }
}

/// The cells of an abstract frame stack, bottom first.
pub open spec fn model_cells(fs: Seq<(int, int)>) -> Seq<int> {
    fs.map_values(|f: (int, int)| f.0)
}

pub open spec fn clamp8(o: int) -> int {
    if o < 0 {
        0
    } else if o > 8 {
        8
    } else {
        o
    }
}

pub open spec fn model_pot(fs: Seq<(int, int)>, size: int) -> int
    decreases fs.len(),
{
    if fs.len() == 0 {
        0
    } else {
        model_pot(fs.drop_last(), size) + (8 - clamp8(fs.last().1)) * pow9(
            (size - fs.len()) as nat,
        ) + 1
    }
}

proof fn lemma_model_pot_nonneg(fs: Seq<(int, int)>, size: int)
    ensures
        model_pot(fs, size) >= 0,
    decreases fs.len(),
{
    if fs.len() > 0 {
        lemma_model_pot_nonneg(fs.drop_last(), size);
        lemma_pow9_pos((size - fs.len()) as nat);
        lemma_mul_nonnegative(8 - clamp8(fs.last().1), pow9((size - fs.len()) as nat));
    }
}

/// One pull of the traversal, as a function of its abstract state: the board,
/// the dictionary's word set, the next start cell, and the frame stack of
/// (cell, next neighbor offset) pairs.  Returns the yielded string (if any),
/// the new start counter, and the new stack.  The three early tuple returns
/// in malformed branches (an offset outside `0..=8`, or more frames than
/// cells) cannot arise from a well-formed traversal; they only keep the
/// recursion well-founded on arbitrary arguments.
pub open spec fn spec_next(b: Board, words: Set<Seq<char>>, start: int, fs: Seq<(int, int)>) -> (
    Option<Seq<char>>,
    int,
    Seq<(int, int)>,
)
    decreases b.size() - start, model_pot(fs, b.size()),
    via spec_next_dec
{
    if fs.len() == 0 {
        if start >= b.size() {
            (None, start, fs)
        } else {
            let s = b.tile(start);
            if s.len() == 0 || !prefix_of_some(words, s) {
                spec_next(b, words, start + 1, fs)
            } else if words.contains(s) {
                (Some(s), start + 1, fs.push((start, 0)))
            } else {
                spec_next(b, words, start + 1, fs.push((start, 0)))
            }
        }
    } else {
        let top = fs.last();
        if top.1 < 0 || top.1 > 8 || fs.len() > b.size() {
            (None, start, fs)
        } else if top.1 == 8 {
            spec_next(b, words, start, fs.drop_last())
        } else {
            let fs2 = fs.drop_last().push((top.0, top.1 + 1));
            match b.spec_candidate(top.0, top.1) {
                Some(j) => {
                    if model_cells(fs).contains(j) {
                        spec_next(b, words, start, fs2)
                    } else {
                        let s = path_string(b, model_cells(fs)) + b.tile(j);
                        if b.tile(j).len() == 0 || !prefix_of_some(words, s) {
                            spec_next(b, words, start, fs2)
                        } else if fs.len() >= b.size() {
                            (None, start, fs)
                        } else if words.contains(s) {
                            (Some(s), start, fs2.push((j, 0)))
                        } else {
                            spec_next(b, words, start, fs2.push((j, 0)))
                        }
                    }
                },
                None => spec_next(b, words, start, fs2),
            }
        }
    }
}

#[via_fn]
proof fn spec_next_dec(b: Board, words: Set<Seq<char>>, start: int, fs: Seq<(int, int)>) {
    b.lemma_size_nonneg();
    let size = b.size();
    lemma_model_pot_nonneg(fs, size);
    if fs.len() > 0 {
        let top = fs.last();
        let n = fs.len() as int;
        if 0 <= top.1 <= 8 && n <= size {
            lemma_pow9_pos((size - n) as nat);
            let w = pow9((size - n) as nat);
            if top.1 == 8 {
                lemma_model_pot_nonneg(fs.drop_last(), size);
                assert(model_pot(fs, size) == model_pot(fs.drop_last(), size) + (8 - 8) * w + 1);
                assert((8 - 8) * w == 0) by (nonlinear_arith);
            } else {
                let fs2 = fs.drop_last().push((top.0, top.1 + 1));
                assert(fs2.drop_last() =~= fs.drop_last());
                assert(model_pot(fs2, size) == model_pot(fs, size) - w) by {
                    assert((8 - top.1) * w - (8 - (top.1 + 1)) * w == w) by (nonlinear_arith);
                }
                lemma_model_pot_nonneg(fs2, size);
                if n < size {
                    let w1 = pow9((size - n - 1) as nat);
                    lemma_pow9_pos((size - n - 1) as nat);
                    assert(w == 9 * w1);
                    match b.spec_candidate(top.0, top.1) {
                        Some(j) => {
                            let fs3 = fs2.push((j, 0));
                            assert(fs3.drop_last() =~= fs2);
                            assert(model_pot(fs3, size) == model_pot(fs2, size) + (8 - 0) * w1
                                + 1);
                            assert(8 * w1 + 1 < w);
                            lemma_model_pot_nonneg(fs3, size);
                        },
                        None => {},
                    }
                }
            }
        }
    }
}

/// One frame of the depth-first stack: a cell, the next neighbor offset to
/// try, and the dictionary position after consuming this cell's tile.
#[derive(Clone, Copy)]
pub(crate) struct Frame {
    pub(crate) current_index: usize,
    pub(crate) neighbor_offset_index: usize,
    pub(crate) trie_position: Position,
}

fn make_mask(n: usize) -> (v: Vec<bool>)
    ensures
        v@.len() == n,
        forall|i: int| 0 <= i < n ==> !v@[i],
{
    let mut v: Vec<bool> = Vec::new();
    let mut k: usize = 0;
    while k < n
        invariant
            k <= n,
            v@.len() == k,
            forall|i: int| 0 <= i < k ==> !v@[i],
        decreases n - k,
    {
        v.push(false);
        k += 1;
    }
    v
}

/// The state of a lazy depth-first word search over a board: the current
/// path's concatenated string, the frame stack, the set of cells on the path,
/// and the next start cell to try once the stack empties.
pub struct Traversal<'a> {
    buffer: String,
    stack: Vec<Frame>,
    visit_mask: Vec<bool>,
    start_index: usize,
    board: &'a Board,
    dict: &'a Dictionary,
}

impl<'a> Traversal<'a> {
    /// The board being searched.
    pub closed spec fn spec_board(&self) -> Board {
        *self.board
    }

    /// The dictionary's word set.
    pub closed spec fn words(&self) -> Set<Seq<char>> {
        trie_words(self.dict.trie)
    }

    /// The cells of the current path, bottom of the stack first.
    pub closed spec fn cells(&self) -> Seq<int> {
        self.stack@.map_values(|f: Frame| f.current_index as int)
    }

    /// The traversal is exhausted: every start cell has been tried and the
    /// stack is empty.
    pub closed spec fn exhausted(&self) -> bool {
        self.stack@.len() == 0 && self.start_index == self.spec_board().size()
    }

    /// The next start cell to try once the stack empties.
    pub closed spec fn started(&self) -> int {
        self.start_index as int
    }

    /// The abstract state of the frame stack: each frame's cell and its next
    /// neighbor offset to try.
    pub closed spec fn model(&self) -> Seq<(int, int)> {
        self.stack@.map_values(
            |f: Frame| (f.current_index as int, f.neighbor_offset_index as int),
        )
    }

    proof fn lemma_model_cells(&self)
        ensures
            model_cells(self.model()) =~= self.cells(),
    {
        assert forall|k: int| 0 <= k < self.stack@.len() implies model_cells(self.model())[k]
            == self.cells()[k] by {
            assert(self.model()[k].0 == self.stack@[k].current_index as int);
        }
    }

    proof fn lemma_model_bound(&self)
        requires
            self.wf(),
        ensures
            model_cells(self.model()) =~= self.cells(),
            self.model().len() == self.cells().len() <= self.spec_board().size(),
    {
        self.lemma_model_cells();
        self.spec_board().lemma_size_nonneg();
        assert forall|k: int| 0 <= k < self.cells().len() implies 0 <= #[trigger] self.cells()[k]
            < self.spec_board().size() by {
            assert(self.frame_ok(k));
        }
        lemma_distinct_bounded(self.cells(), self.spec_board().size());
    }

    proof fn lemma_push_fits(&self, j: int)
        requires
            self.wf(),
            0 <= j < self.spec_board().size(),
            !self.cells().contains(j),
        ensures
            self.cells().len() < self.spec_board().size(),
    {
        let p = self.cells().push(j);
        assert forall|k: int| 0 <= k < p.len() implies 0 <= #[trigger] p[k]
            < self.spec_board().size() by {
            if k < self.cells().len() {
                assert(self.frame_ok(k));
                assert(p[k] == self.cells()[k]);
            } else {
                assert(p[k] == j);
            }
        }
        assert forall|k1: int, k2: int| 0 <= k1 < k2 < p.len() implies #[trigger] p[k1]
            != #[trigger] p[k2] by {
            if k2 < self.cells().len() {
                assert(self.cells()[k1] != self.cells()[k2]);
            } else {
                assert(p[k2] == j);
                assert(self.cells().contains(self.cells()[k1]));
            }
        }
        self.spec_board().lemma_size_nonneg();
        lemma_distinct_bounded(p, self.spec_board().size());
    }

    spec fn frame_ok(&self, k: int) -> bool {
        let f = self.stack@[k];
        let s = path_string(*self.board, self.cells().take(k + 1));
        &&& f.current_index < self.board.size()
        &&& f.neighbor_offset_index <= 8
        &&& (k > 0 ==> self.board.adjacent(self.cells()[k - 1], self.cells()[k]))
        &&& pos_in_trie(self.dict.trie, f.trie_position)
        &&& pos_str(self.dict.trie, f.trie_position) == s
        &&& prefix_of_some(self.words(), s)
    }

    /// The traversal invariant, established at construction and preserved by
    /// every `next` call.
    pub closed spec fn wf(&self) -> bool {
        &&& self.board.wf()
        &&& self.visit_mask@.len() == self.board.size()
        &&& self.start_index <= self.board.size()
        &&& forall|k: int| 0 <= k < self.stack@.len() ==> self.frame_ok(k)
        &&& forall|k1: int, k2: int|
            0 <= k1 < k2 < self.cells().len() ==> self.cells()[k1] != self.cells()[k2]
        &&& forall|i: int|
            0 <= i < self.board.size() ==> self.visit_mask@[i] == self.cells().contains(i)
        &&& self.buffer@ == path_string(*self.board, self.cells())
    }

    /// Every prefix of the path a well-formed traversal currently explores is
    /// a prefix of some dictionary word: a pruned branch is never entered.
    pub proof fn lemma_explored_prefix_live(&self, k: int)
        requires
            self.wf(),
            0 <= k < self.cells().len(),
        ensures
            prefix_of_some(self.words(), path_string(self.spec_board(), self.cells().take(k + 1))),
    {
        assert(self.frame_ok(k));
    }

    /// Tries to extend the current path by `index`, advancing the dictionary
    /// position `pos` by that cell's tile.  On `NoMatch` (or an empty tile)
    /// nothing changes and the branch is pruned; otherwise the frame is
    /// pushed and the cumulative status returned.
    fn push(&mut self, index: usize, pos: Position) -> (r: Option<Status>)
        requires
            old(self).wf(),
            index < old(self).spec_board().size(),
            !old(self).cells().contains(index as int),
            old(self).stack@.len() > 0 ==> old(self).spec_board().adjacent(
                old(self).cells().last(),
                index as int,
            ),
            pos_in_trie(old(self).dict.trie, pos),
            pos_str(old(self).dict.trie, pos) == old(self).buffer@,
        ensures
            final(self).wf(),
            final(self).board == old(self).board,
            final(self).dict == old(self).dict,
            final(self).start_index == old(self).start_index,
            r is None ==> *final(self) == *old(self),
            r is None <==> (old(self).spec_board().tile(index as int).len() == 0
                || !prefix_of_some(
                old(self).words(),
                old(self).buffer@ + old(self).spec_board().tile(index as int),
            )),
            r matches Some(st) ==> ({
                let s = old(self).buffer@ + old(self).spec_board().tile(index as int);
                &&& st == status_of(old(self).words(), s)
                &&& st != Status::NoMatch
                &&& final(self).cells() == old(self).cells().push(index as int)
                &&& final(self).buffer@ == s
                &&& final(self).stack@.len() == old(self).stack@.len() + 1
                &&& final(self).stack@.last().neighbor_offset_index == 0
                &&& final(self).stack@.drop_last() == old(self).stack@
                &&& final(self).visit_mask@ == old(self).visit_mask@.update(index as int, true)
            }),
    {
        let board = self.board;
        let cube = board.tile_str(index);
        match advance_pos(&self.dict.trie, pos, cube.as_str()) {
            None => None,
            Some((p2, st)) => {
                let ghost old_stack = self.stack@;
                let ghost old_cells = self.cells();
                let ghost old_mask = self.visit_mask@;
                let ghost s = self.buffer@ + board.tile(index as int);
                self.stack.push(
                    Frame { current_index: index, neighbor_offset_index: 0, trie_position: p2 },
                );
                append_str(&mut self.buffer, cube.as_str());
                self.visit_mask[index] = true;
                proof {
                    let b = *self.board;
                    let n = old_stack.len() as int;
                    assert(self.cells() =~= old_cells.push(index as int));
                    assert(self.cells().drop_last() =~= old_cells);
                    assert(self.buffer@ == s);
                    assert(path_string(b, self.cells()) == path_string(b, old_cells) + b.tile(
                        index as int,
                    ));
                    assert(self.visit_mask@ =~= old_mask.update(index as int, true));
                    assert forall|k: int| 0 <= k < self.stack@.len() implies self.frame_ok(k) by {
                        if k < n {
                            assert(old(self).frame_ok(k));
                            assert(self.stack@[k] == old_stack[k]);
                            assert(self.cells().take(k + 1) =~= old_cells.take(k + 1));
                        } else {
                            assert(self.cells().take(k + 1) =~= self.cells());
                            assert(self.stack@[k].trie_position == p2);
                            assert(pos_str(self.dict.trie, p2) == s);
                        }
                    }
                    assert forall|k1: int, k2: int|
                        0 <= k1 < k2 < self.cells().len() implies self.cells()[k1]
                        != self.cells()[k2] by {
                        if k2 < n {
                            assert(old_cells[k1] != old_cells[k2]);
                        } else {
                            assert(old_cells.contains(old_cells[k1]));
                        }
                    }
                    assert forall|i: int| 0 <= i < self.board.size() implies self.visit_mask@[i]
                        == self.cells().contains(i) by {
                        if i == index as int {
                            assert(self.cells()[n] == i);
                            assert(self.cells().contains(i));
                        } else {
                            if self.cells().contains(i) {
                                let k = choose|k: int|
                                    0 <= k < self.cells().len() && self.cells()[k] == i;
                                assert(old_cells[k] == i);
                                assert(old_cells.contains(i));
                            }
                            if old_cells.contains(i) {
                                let k = choose|k: int|
                                    0 <= k < old_cells.len() && old_cells[k] == i;
                                assert(self.cells()[k] == i);
                                assert(self.cells().contains(i));
                            }
                        }
                    }
                }
                Some(st)
            },
        }
    }

    /// Removes the top frame, restoring the path string and visited set to
    /// the state before that frame was pushed.
    fn pop(&mut self)
        requires
            old(self).wf(),
        ensures
            final(self).wf(),
            final(self).board == old(self).board,
            final(self).dict == old(self).dict,
            final(self).start_index == old(self).start_index,
            old(self).stack@.len() == 0 ==> *final(self) == *old(self),
            old(self).stack@.len() > 0 ==> final(self).stack@ == old(self).stack@.drop_last()
                && final(self).buffer@ == path_string(
                old(self).spec_board(),
                old(self).cells().drop_last(),
            ),
    {
        if self.stack.len() == 0 {
            return ;
        }
        let ghost old_stack = self.stack@;
        let ghost old_cells = self.cells();
        let ghost old_buffer = self.buffer@;
        let ghost b = *self.board;
        let f = self.stack.pop().unwrap();
        let board = self.board;
        proof {
            assert(old(self).frame_ok(old_cells.len() - 1));
        }
        let cube = board.tile_str(f.current_index);
        proof {
            let n = old_cells.len() as int;
            assert(old(self).frame_ok(n - 1));
            assert(old_cells.take(n) =~= old_cells);
            assert(old_buffer == path_string(b, old_cells.drop_last()) + b.tile(old_cells.last()));
            assert(old_buffer.skip(old_buffer.len() - cube@.len()) =~= cube@);
            assert(old_buffer.take(old_buffer.len() - cube@.len()) =~= path_string(
                b,
                old_cells.drop_last(),
            ));
        }
        truncate_suffix(&mut self.buffer, cube.as_str());
        self.visit_mask[f.current_index] = false;
        proof {
            let n = old_cells.len() as int;
            assert(self.stack@ =~= old_stack.drop_last());
            assert(self.cells() =~= old_cells.drop_last());
            assert forall|k: int| 0 <= k < self.stack@.len() implies self.frame_ok(k) by {
                assert(old(self).frame_ok(k));
                assert(self.stack@[k] == old_stack[k]);
                assert(self.cells().take(k + 1) =~= old_cells.take(k + 1));
            }
            assert forall|i: int| 0 <= i < self.board.size() implies self.visit_mask@[i]
                == self.cells().contains(i) by {
                if i == f.current_index as int {
                    if self.cells().contains(i) {
                        let k = choose|k: int| 0 <= k < self.cells().len() && self.cells()[k] == i;
                        assert(old_cells[k] == i);
                        assert(old_cells[n - 1] == i);
                    }
                    assert(!self.cells().contains(i));
                } else {
                    if self.cells().contains(i) {
                        let k = choose|k: int| 0 <= k < self.cells().len() && self.cells()[k] == i;
                        assert(old_cells[k] == i);
                        assert(old_cells.contains(i));
                    }
                    if old_cells.contains(i) {
                        let k = choose|k: int| 0 <= k < old_cells.len() && old_cells[k] == i;
                        assert(k < n - 1);
                        assert(self.cells()[k] == i);
                        assert(self.cells().contains(i));
                    }
                }
            }
        }
    }

    /// Bumping the top frame's next-offset index preserves the invariant and
    /// leaves the path unchanged: `before` and `after` agree everywhere but
    /// in the top frame's offset.
    proof fn lemma_offset_bump(before: Traversal<'a>, after: Traversal<'a>, off: int)
        requires
            before.wf(),
            before.stack@.len() > 0,
            0 <= off < 8,
            before.stack@.last().neighbor_offset_index == off,
            after.board == before.board,
            after.dict == before.dict,
            after.buffer == before.buffer,
            after.visit_mask == before.visit_mask,
            after.start_index == before.start_index,
            after.stack@ =~= before.stack@.drop_last().push(
                (Frame {
                    neighbor_offset_index: (off + 1) as usize,
                    ..before.stack@.last()
                }),
            ),
        ensures
            after.wf(),
            after.cells() =~= before.cells(),
            after.buffer@ == before.buffer@,
    {
        let n = before.stack@.len() as int;
        assert(after.cells() =~= before.cells());
        assert forall|k: int| 0 <= k < after.stack@.len() implies after.frame_ok(k) by {
            assert(before.frame_ok(k));
            assert(after.cells().take(k + 1) =~= before.cells().take(k + 1));
            if k < n - 1 {
                assert(after.stack@[k] == before.stack@[k]);
            } else {
                assert(after.stack@[k].current_index == before.stack@[k].current_index);
                assert(after.stack@[k].trie_position == before.stack@[k].trie_position);
                assert(after.stack@[k].neighbor_offset_index == off + 1);
            }
        }
    }

    /// The loop's potential shrinks in every non-seed, non-pop iteration:
    /// spending one offset of the top frame outweighs any child frame it
    /// opens.
    proof fn lemma_pot_decreases(
        &self,
        ms0: Seq<(int, int)>,
        fs2: Seq<(int, int)>,
        off: int,
        b: Board,
    )
        requires
            ms0.len() > 0,
            0 <= off < 8,
            ms0.last().1 == off,
            fs2 =~= ms0.drop_last().push((ms0.last().0, off + 1)),
            self.model() == fs2 || (self.model().len() == fs2.len() + 1
                && self.model().drop_last() == fs2 && self.model().last().1 == 0 && ms0.len()
                < b.size()),
        ensures
            model_pot(self.model(), b.size()) < model_pot(ms0, b.size()),
    {
        let size = b.size();
        let n = ms0.len() as int;
        let w = pow9((size - n) as nat);
        lemma_pow9_pos((size - n) as nat);
        assert(fs2.drop_last() =~= ms0.drop_last());
        assert(fs2.len() == n && fs2.last() == (ms0.last().0, off + 1));
        assert(model_pot(fs2, size) == model_pot(ms0, size) - w) by {
            assert((8 - off) * w - (8 - (off + 1)) * w == w) by (nonlinear_arith);
        }
        if self.model() == fs2 {
        } else {
            let w1 = pow9((size - n - 1) as nat);
            lemma_pow9_pos((size - n - 1) as nat);
            assert(w == 9 * w1);
            assert(model_pot(self.model(), size) == model_pot(fs2, size) + (8 - 0) * w1 + 1);
            assert(8 * w1 + 1 < w);
        }
    }

    /// At a yield point the current stack is the witness path.
    proof fn lemma_yield_witness(&self)
        requires
            self.wf(),
            self.cells().len() > 0,
        ensures
            is_simple_path(self.spec_board(), self.cells()),
            path_string(self.spec_board(), self.cells()) == self.buffer@,
    {
        assert forall|k: int| 0 <= k < self.cells().len() implies 0 <= #[trigger] self.cells()[k]
            < self.spec_board().size() by {
            assert(self.frame_ok(k));
        }
        assert forall|k: int| 1 <= k < self.cells().len() implies self.spec_board().adjacent(
            #[trigger] self.cells()[k - 1],
            self.cells()[k],
        ) by {
            assert(self.frame_ok(k));
        }
    }

    /// Produces the next found word: the string of the next path, in the
    /// fixed depth-first order, that spells a dictionary word; `None` once
    /// every start cell and extension has been tried.  Every yielded string
    /// is a dictionary word spelled by a simple path of adjacent cells, and
    /// after `None` the traversal stays exhausted.  The result and the new
    /// state equal [`spec_next`] of the old abstract state, so the whole
    /// yielded sequence is a function of the board and the word set:
    /// traversals in equal states yield equal words in equal order.
    #[verifier::rlimit(60)]
    pub fn next(&mut self) -> (r: Option<String>)
        requires
            old(self).wf(),
        ensures
            final(self).wf(),
            final(self).spec_board() == old(self).spec_board(),
            final(self).words() == old(self).words(),
            r matches Some(w) ==> old(self).words().contains(w@) && has_word_path(
                old(self).spec_board(),
                w@,
            ),
            r is None ==> final(self).exhausted(),
            old(self).exhausted() ==> r is None && *final(self) == *old(self),
            ({
                let step = spec_next(
                    old(self).spec_board(),
                    old(self).words(),
                    old(self).started(),
                    old(self).model(),
                );
                &&& step.0 == (match r {
                    Some(w) => Some(w@),
                    None => None::<Seq<char>>,
                })
                &&& step.1 == final(self).started()
                &&& step.2 == final(self).model()
            }),
    {
        let ghost b = *self.board;
        let ghost w_set = trie_words(self.dict.trie);
        let ghost step0 = spec_next(b, w_set, old(self).started(), old(self).model());
        let size = self.visit_mask.len();
        loop
            invariant
                self.wf(),
                self.board == old(self).board,
                self.dict == old(self).dict,
                b == *self.board,
                w_set == self.words(),
                size == self.spec_board().size(),
                old(self).exhausted() ==> *self == *old(self),
                spec_next(b, w_set, self.started(), self.model()) == step0,
                step0 == spec_next(b, w_set, old(self).started(), old(self).model()),
            decreases
                    self.spec_board().size() - self.start_index,
                    model_pot(self.model(), self.spec_board().size()),
        {
            proof {
                assert(forall|k: int|
                    0 <= k < self.stack@.len() ==> #[trigger] self.frame_ok(k));
                lemma_model_pot_nonneg(self.model(), b.size());
            }
            if self.stack.len() == 0 {
                if self.start_index == size {
                    proof {
                        assert(self.model().len() == 0);
                        assert(spec_next(b, w_set, self.started(), self.model()) == (
                            None::<Seq<char>>,
                            self.started(),
                            self.model(),
                        ));
                    }
                    return None;
                }
                let idx = self.start_index;
                let ghost ms0 = self.model();
                self.start_index = idx + 1;
                let rp = root_pos(&self.dict.trie);
                proof {
                    assert(self.cells().len() == 0);
                    assert(path_string(b, self.cells()) =~= Seq::<char>::empty());
                    assert(ms0 =~= Seq::<(int, int)>::empty());
                    assert(Seq::<char>::empty() + b.tile(idx as int) =~= b.tile(idx as int));
                }
                match self.push(idx, rp) {
                    Some(st) => {
                        proof {
                            assert(self.model() =~= ms0.push((idx as int, 0)));
                            assert(self.buffer@ == b.tile(idx as int));
                            assert(prefix_of_some(w_set, b.tile(idx as int)));
                            assert(b.tile(idx as int).len() > 0);
                        }
                        match st {
                            Status::Match | Status::PrefixAndMatch => {
                                proof {
                                    self.lemma_yield_witness();
                                    assert(self.words().contains(self.buffer@));
                                    assert(is_simple_path(b, self.cells()) && self.cells().len()
                                        > 0 && path_string(b, self.cells()) == self.buffer@);
                                    assert(has_word_path(b, self.buffer@));
                                    assert(spec_next(b, w_set, idx as int, ms0) == (
                                        Some(b.tile(idx as int)),
                                        idx + 1,
                                        ms0.push((idx as int, 0)),
                                    ));
                                }
                                return Some(self.buffer.clone());
                            },
                            _ => {
                                proof {
                                    assert(!w_set.contains(b.tile(idx as int)));
                                    assert(spec_next(b, w_set, idx as int, ms0) == spec_next(
                                        b,
                                        w_set,
                                        idx + 1,
                                        ms0.push((idx as int, 0)),
                                    ));
                                }
                            },
                        }
                    },
                    None => {
                        proof {
                            assert(b.tile(idx as int).len() == 0 || !prefix_of_some(
                                w_set,
                                b.tile(idx as int),
                            ));
                            assert(spec_next(b, w_set, idx as int, ms0) == spec_next(
                                b,
                                w_set,
                                idx + 1,
                                ms0,
                            ));
                        }
                    },
                }
            } else {
                let ghost self0 = *self;
                let ghost ms0 = self.model();
                let ghost st0 = self.started();
                let top_k = self.stack.len() - 1;
                let f = self.stack[top_k];
                proof {
                    self0.lemma_model_bound();
                    assert(ms0.last() == (
                        f.current_index as int,
                        f.neighbor_offset_index as int,
                    ));
                }
                if f.neighbor_offset_index >= 8 {
                    proof {
                        assert(self.frame_ok(top_k as int));
                    }
                    self.pop();
                    proof {
                        assert(self.model() =~= ms0.drop_last());
                        assert(spec_next(b, w_set, st0, ms0) == spec_next(
                            b,
                            w_set,
                            st0,
                            ms0.drop_last(),
                        ));
                        assert(ms0.last().1 == 8);
                        assert(clamp8(8) == 8);
                        assert((8 - 8) * pow9((b.size() - ms0.len()) as nat) == 0)
                            by (nonlinear_arith);
                        assert(model_pot(ms0, b.size()) == model_pot(
                            ms0.drop_last(),
                            b.size(),
                        ) + 1);
                        lemma_model_pot_nonneg(self.model(), b.size());
                    }
                } else {
                    let off = f.neighbor_offset_index;
                    let mut top = self.stack.pop().unwrap();
                    top.neighbor_offset_index = off + 1;
                    self.stack.push(top);
                    proof {
                        assert(self0.wf());
                        assert(self.stack@ =~= self0.stack@.drop_last().push(
                            (Frame {
                                neighbor_offset_index: (off + 1) as usize,
                                ..self0.stack@.last()
                            }),
                        ));
                        Self::lemma_offset_bump(self0, *self, off as int);
                    }
                    let ghost fs2 = ms0.drop_last().push((f.current_index as int, off + 1));
                    proof {
                        assert(self0.frame_ok(top_k as int));
                        assert(f.current_index < b.size());
                        assert(self.model() =~= fs2);
                        assert(self.buffer@ == path_string(b, model_cells(ms0))) by {
                            assert(model_cells(ms0) =~= self0.cells());
                        }
                    }
                    match self.board.neighbor_candidate(f.current_index, off) {
                        Some(j) => {
                            proof {
                                assert(self.cells().contains(j as int) == model_cells(
                                    ms0,
                                ).contains(j as int)) by {
                                    assert(model_cells(ms0) =~= self.cells());
                                }
                            }
                            if !self.visit_mask[j] {
                                proof {
                                    let n = self.cells().len() as int;
                                    assert(self.frame_ok(n - 1));
                                    assert(self.cells().take(n) =~= self.cells());
                                    assert(self.cells().last() == f.current_index as int);
                                    assert(self.stack@[n - 1].trie_position == f.trie_position);
                                    assert(pos_str(self.dict.trie, f.trie_position)
                                        == self.buffer@);
                                    self.lemma_push_fits(j as int);
                                    assert(ms0.len() < b.size());
                                }
                                let ghost s_spec = path_string(b, model_cells(ms0)) + b.tile(
                                    j as int,
                                );
                                match self.push(j, f.trie_position) {
                                    Some(st) => {
                                        proof {
                                            assert(self.model() =~= fs2.push((j as int, 0)));
                                            assert(self.buffer@ == s_spec);
                                            assert(prefix_of_some(w_set, s_spec));
                                            assert(b.tile(j as int).len() > 0);
                                        }
                                        match st {
                                            Status::Match | Status::PrefixAndMatch => {
                                                proof {
                                                    self.lemma_yield_witness();
                                                    assert(self.words().contains(self.buffer@));
                                                    assert(is_simple_path(b, self.cells())
                                                        && self.cells().len() > 0 && path_string(
                                                        b,
                                                        self.cells(),
                                                    ) == self.buffer@);
                                                    assert(has_word_path(b, self.buffer@));
                                                    assert(spec_next(b, w_set, st0, ms0) == (
                                                        Some(s_spec),
                                                        st0,
                                                        fs2.push((j as int, 0)),
                                                    ));
                                                }
                                                return Some(self.buffer.clone());
                                            },
                                            _ => {
                                                proof {
                                                    assert(!w_set.contains(s_spec));
                                                    assert(self.model().drop_last() =~= fs2);
                                                    assert(spec_next(b, w_set, st0, ms0)
                                                        == spec_next(
                                                        b,
                                                        w_set,
                                                        st0,
                                                        fs2.push((j as int, 0)),
                                                    ));
                                                }
                                            },
                                        }
                                    },
                                    None => {
                                        proof {
                                            assert(b.tile(j as int).len() == 0
                                                || !prefix_of_some(w_set, s_spec));
                                            assert(spec_next(b, w_set, st0, ms0) == spec_next(
                                                b,
                                                w_set,
                                                st0,
                                                fs2,
                                            ));
                                        }
                                    },
                                }
                            } else {
                                proof {
                                    assert(model_cells(ms0).contains(j as int));
                                    assert(spec_next(b, w_set, st0, ms0) == spec_next(
                                        b,
                                        w_set,
                                        st0,
                                        fs2,
                                    ));
                                }
                            }
                        },
                        None => {
                            proof {
                                assert(spec_next(b, w_set, st0, ms0) == spec_next(
                                    b,
                                    w_set,
                                    st0,
                                    fs2,
                                ));
                            }
                        },
                    }
                    proof {
                        self.lemma_pot_decreases(ms0, fs2, off as int, b);
                        lemma_model_pot_nonneg(self.model(), b.size());
                    }
                }
            }
        }
    }
}

impl Board {
    /// A fresh traversal of this board bound to `dict`: no path yet, the
    /// first start cell still to try.
    pub fn traversal<'b>(&'b self, dict: &'b Dictionary) -> (t: Traversal<'b>)
        requires
            self.wf(),
        ensures
            t.wf(),
            t.spec_board() == *self,
            t.words() == dict.words(),
            t.cells() == Seq::<int>::empty(),
            t.started() == 0,
            t.model() == Seq::<(int, int)>::empty(),
    {
        let n = self.cubes.len();
        let t = Traversal {
            buffer: String::new(),
            stack: Vec::new(),
            visit_mask: make_mask(n),
            start_index: 0,
            board: self,
            dict,
        };
        proof {
            self.lemma_wf_len();
            crate::dict::lemma_words_def(dict);
            assert(vstd::std_specs::vec::spec_vec_len(&self.cubes) == self.cubes@.len());
            assert(t.cells() =~= Seq::<int>::empty());
            assert(path_string(*self, t.cells()) =~= Seq::<char>::empty());
        }
        t
    }
}

} // verus!
