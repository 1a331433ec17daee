//! The double-buffered canvas.
//!
//! A `Screen` owns two sparse mappings from `Position` to character: the
//! committed cells (what the caller has already reconciled onto the
//! terminal) and a staging buffer of pending writes. `write` stages,
//! `read` queries committed state only, and `flush` reconciles the buffer
//! into the committed cells, returning the minimal diff of cells whose
//! visible value changed. Positions outside `[(0,0), extent]` may be
//! staged but are silently dropped at flush time.

use vstd::prelude::*;

use crate::position::Position;

verus! {

/// The character a cell holds before anything is committed at it.
pub const BLANK: char = ' ';

/// Each position occurs at most once in the association list.
pub open spec fn unique_keys(s: Seq<(Position, char)>) -> bool {
    forall|i: int, j: int|
        0 <= i < j < s.len() ==> (#[trigger] s[i]).0 != (#[trigger] s[j]).0
}

/// Some entry of the list carries this position.
pub open spec fn has_key(s: Seq<(Position, char)>, p: Position) -> bool {
    exists|i: int| 0 <= i < s.len() && (#[trigger] s[i]).0 == p
}

/// The index of the entry carrying this position (unique under `unique_keys`).
pub open spec fn index_of_key(s: Seq<(Position, char)>, p: Position) -> int {
    choose|i: int| 0 <= i < s.len() && (#[trigger] s[i]).0 == p
}

/// The character stored under this position (meaningful only when present).
pub open spec fn value_at(s: Seq<(Position, char)>, p: Position) -> char {
    s[index_of_key(s, p)].1
}

/// The character bound to this position, if any.
pub open spec fn bound_at(s: Seq<(Position, char)>, p: Position) -> Option<char> {
    if has_key(s, p) {
        Some(value_at(s, p))
    } else {
        None
    }
}

/// The character stored under this position, or `BLANK` if absent.
pub open spec fn entry_char(s: Seq<(Position, char)>, p: Position) -> char {
    if has_key(s, p) {
        value_at(s, p)
    } else {
        BLANK
    }
}

/// The association list after binding `p` to `c`: the entry carrying `p`
/// is overwritten in place if present, else a new entry is appended.
pub open spec fn assoc_set(s: Seq<(Position, char)>, p: Position, c: char) -> Seq<
    (Position, char),
> {
    if has_key(s, p) {
        s.update(index_of_key(s, p), (p, c))
    } else {
        s.push((p, c))
    }
}

/// Under `unique_keys`, an entry's index determines the stored value.
pub proof fn lemma_value_at(s: Seq<(Position, char)>, p: Position, i: int)
    requires
        unique_keys(s),
        0 <= i < s.len(),
        s[i].0 == p,
    ensures
        has_key(s, p),
        index_of_key(s, p) == i,
        value_at(s, p) == s[i].1,
{
    assert(has_key(s, p));
    let k = index_of_key(s, p);
    if k != i {
        if k < i {
            assert(s[k].0 != s[i].0);
        } else {
            assert(s[i].0 != s[k].0);
        }
    }
}

/// A prefix of a duplicate-free list is duplicate-free.
pub proof fn lemma_unique_take(s: Seq<(Position, char)>, i: int)
    requires
        unique_keys(s),
        0 <= i <= s.len(),
    ensures
        unique_keys(s.take(i)),
{
    assert forall|a: int, b: int| 0 <= a < b < s.take(i).len() implies (#[trigger] s.take(i)[a]).0
        != (#[trigger] s.take(i)[b]).0 by {
        assert(s.take(i)[a] == s[a]);
        assert(s.take(i)[b] == s[b]);
    }
}

/// Extending a prefix by one entry binds that entry's key and leaves
/// every other binding as it was.
pub proof fn lemma_bound_take_step(s: Seq<(Position, char)>, i: int, q: Position)
    requires
        unique_keys(s),
        0 <= i < s.len(),
    ensures
        s[i].0 == q ==> bound_at(s.take(i + 1), q) == Some(s[i].1),
        s[i].0 != q ==> bound_at(s.take(i + 1), q) == bound_at(s.take(i), q),
{
    assert(s.take(i + 1) =~= s.take(i).push(s[i]));
    lemma_unique_take(s, i + 1);
    lemma_unique_take(s, i);
    if s[i].0 == q {
        assert(s.take(i + 1)[i].0 == q);
        lemma_value_at(s.take(i + 1), q, i);
    } else {
        if has_key(s.take(i), q) {
            let k = index_of_key(s.take(i), q);
            assert(s.take(i)[k].0 == q);
            lemma_value_at(s.take(i), q, k);
            assert(s.take(i + 1)[k].0 == q);
            lemma_value_at(s.take(i + 1), q, k);
        } else {
            if has_key(s.take(i + 1), q) {
                let k = index_of_key(s.take(i + 1), q);
                assert(s.take(i + 1)[k].0 == q);
                assert(k != i);
                assert(s.take(i)[k].0 == q);
            }
        }
    }
}

/// What `assoc_set` does to the mapping: the bound position now carries
/// the new character, every other binding is untouched, and the list
/// grows by at most one entry.
pub proof fn lemma_assoc_set(s: Seq<(Position, char)>, p: Position, c: char)
    requires
        unique_keys(s),
    ensures
        unique_keys(assoc_set(s, p, c)),
        bound_at(assoc_set(s, p, c), p) == Some(c),
        forall|q: Position|
            q != p ==> #[trigger] bound_at(assoc_set(s, p, c), q) == bound_at(s, q),
        assoc_set(s, p, c).len() <= s.len() + 1,
        s.len() <= assoc_set(s, p, c).len(),
{
    let t = assoc_set(s, p, c);
    if has_key(s, p) {
        let i = index_of_key(s, p);
        assert(0 <= i < s.len() && s[i].0 == p);
        assert(forall|j: int| 0 <= j < t.len() ==> (#[trigger] t[j]).0 == s[j].0);
        lemma_value_at(t, p, i);
        assert forall|q: Position| q != p implies #[trigger] bound_at(t, q) == bound_at(
            s,
            q,
        ) by {
            if has_key(s, q) {
                let k = index_of_key(s, q);
                assert(s[k].0 == q);
                lemma_value_at(s, q, k);
                assert(t[k].0 == q);
                lemma_value_at(t, q, k);
            } else {
                if has_key(t, q) {
                    let k = index_of_key(t, q);
                    assert(t[k].0 == q);
                    assert(s[k].0 == q);
                }
            }
        }
    } else {
        assert(t == s.push((p, c)));
        assert forall|i: int, j: int| 0 <= i < j < t.len() implies (#[trigger] t[i]).0 != (
        #[trigger] t[j]).0 by {
            if j == s.len() {
                assert(t[i].0 == s[i].0);
                if s[i].0 == p {
                    assert(has_key(s, p));
                }
            }
        }
        lemma_value_at(t, p, s.len() as int);
        assert forall|q: Position| q != p implies #[trigger] bound_at(t, q) == bound_at(
            s,
            q,
        ) by {
            if has_key(s, q) {
                let k = index_of_key(s, q);
                assert(s[k].0 == q);
                lemma_value_at(s, q, k);
                assert(t[k].0 == q);
                lemma_value_at(t, q, k);
            } else {
                if has_key(t, q) {
                    let k = index_of_key(t, q);
                    assert(t[k].0 == q);
                    assert(k < s.len());
                    assert(s[k].0 == q);
                }
            }
        }
    }
}

/// The entry of the list carrying this position, if any.
fn find_entry(entries: &Vec<(Position, char)>, p: Position) -> (r: Option<usize>)
    ensures
        match r {
            Some(i) => i < entries@.len() && entries@[i as int].0 == p,
            None => !has_key(entries@, p),
        },
{
    let mut i: usize = 0;
    while i < entries.len()
        invariant
            i <= entries@.len(),
            forall|j: int| 0 <= j < i ==> (#[trigger] entries@[j]).0 != p,
        decreases entries@.len() - i,
    {
        if entries[i].0 == p {
            return Some(i);
        }
        i = i + 1;
    }
    None
}

/// Binds `p` to `ch` in the list and hands back the character it carried
/// before, if any.
fn upsert(entries: &mut Vec<(Position, char)>, p: Position, ch: char) -> (prev: Option<char>)
    requires
        unique_keys(old(entries)@),
    ensures
        final(entries)@ == assoc_set(old(entries)@, p, ch),
        prev == bound_at(old(entries)@, p),
{
    match find_entry(entries, p) {
        Some(i) => {
            let prev_ch = entries[i].1;
            proof {
                lemma_value_at(entries@, p, i as int);
            }
            entries[i] = (p, ch);
            Some(prev_ch)
        },
        None => {
            entries.push((p, ch));
            None
        },
    }
}

/// The double-buffered canvas: committed cells, pending writes, and the
/// inclusive extent of the visible rectangle.
pub struct Screen {
    /// Maximum visible column (the origin is `(0, 0)`, inclusive).
    pub cols: i32,
    /// Maximum visible row (the origin is `(0, 0)`, inclusive).
    pub rows: i32,
    /// Committed cells: what the caller has already reconciled. Treat as
    /// read-only; it is populated only by `flush`.
    pub written: Vec<(Position, char)>,
    /// Pending writes, staged by `write` and drained by `flush`.
    pub buffer: Vec<(Position, char)>,
}

impl Screen {
    /// The extent is non-negative and both cell maps bind each position
    /// at most once.
    pub open spec fn wf(self) -> bool {
        &&& 0 <= self.cols
        &&& 0 <= self.rows
        &&& unique_keys(self.written_seq())
        &&& unique_keys(self.buffer_seq())
    }

    /// The committed cells, as an association list.
    pub open spec fn written_seq(self) -> Seq<(Position, char)> {
        self.written@
    }

    /// The pending writes, as an association list.
    pub open spec fn buffer_seq(self) -> Seq<(Position, char)> {
        self.buffer@
    }

    /// The committed entry at a position, if the position was ever
    /// committed.
    pub open spec fn committed_at(self, p: Position) -> Option<char> {
        bound_at(self.written_seq(), p)
    }

    /// The committed character at a position, or `BLANK`.
    pub open spec fn committed_char(self, p: Position) -> char {
        entry_char(self.written_seq(), p)
    }

    /// The pending character staged at a position, if any.
    pub open spec fn buffered(self, p: Position) -> Option<char> {
        bound_at(self.buffer_seq(), p)
    }

    /// Whether a position lies inside `[(0,0), (cols, rows)]`.
    pub open spec fn in_bounds(self, p: Position) -> bool {
        0 <= p.col <= self.cols && 0 <= p.row <= self.rows
    }

    /// A fresh canvas of the given extent, with nothing committed and
    /// nothing pending.
    pub fn with_size(col_row: Position) -> (s: Screen)
        requires
            0 <= col_row.col,
            0 <= col_row.row,
        ensures
            s.wf(),
            s.cols == col_row.col,
            s.rows == col_row.row,
            s.written_seq().len() == 0,
            s.buffer_seq().len() == 0,
            forall|q: Position| #[trigger] s.committed_char(q) == BLANK,
            forall|q: Position| #[trigger] s.buffered(q) is None,
    {
        Screen { cols: col_row.col, rows: col_row.row, written: Vec::new(), buffer: Vec::new() }
    }

    /// Stages `ch` at `position` in the pending buffer; the committed
    /// cells are untouched. Hands back the character previously staged
    /// there, or `BLANK` if none was.
    pub fn write(&mut self, position: &Position, ch: char) -> (prev: char)
        requires
            old(self).wf(),
        ensures
            final(self).wf(),
            final(self).cols == old(self).cols,
            final(self).rows == old(self).rows,
            final(self).written_seq() == old(self).written_seq(),
            final(self).buffer_seq() == assoc_set(old(self).buffer_seq(), *position, ch),
            final(self).buffered(*position) == Some(ch),
            forall|q: Position|
                q != *position ==> #[trigger] final(self).buffered(q) == old(self).buffered(q),
            prev == (match old(self).buffered(*position) {
                Some(c) => c,
                None => BLANK,
            }),
    {
        proof {
            lemma_assoc_set(self.buffer@, *position, ch);
        }
        let prev = upsert(&mut self.buffer, *position, ch);
        match prev {
            Some(c) => c,
            None => BLANK,
        }
    }

    /// The committed character at `position`, or `BLANK` if the position
    /// was never committed. Pending writes are never reflected here.
    pub fn read(&self, position: &Position) -> (r: char)
        requires
            self.wf(),
        ensures
            r == self.committed_char(*position),
    {
        match find_entry(&self.written, *position) {
            Some(i) => {
                proof {
                    lemma_value_at(self.written@, *position, i as int);
                }
                self.written[i].1
            },
            None => BLANK,
        }
    }

    /// The position clamped into the visible rectangle `[(0,0), extent]`.
    pub fn clamp(&self, position: &Position) -> (r: Position)
        requires
            self.wf(),
        ensures
            r == position.clamp_spec(
                Position { row: 0, col: 0 },
                Position { row: self.rows, col: self.cols },
            ),
            r == *position <==> self.in_bounds(*position),
    {
        position.clamp(Position::new(0, 0), Position::new(self.cols, self.rows))
    }

    /// Stages `BLANK` at every currently-committed position. Pending
    /// writes at positions that were never committed are left alone.
    pub fn clear(&mut self)
        requires
            old(self).wf(),
        ensures
            final(self).wf(),
            final(self).cols == old(self).cols,
            final(self).rows == old(self).rows,
            final(self).written_seq() == old(self).written_seq(),
            forall|q: Position|
                #[trigger] final(self).buffered(q) == (if has_key(old(self).written_seq(), q) {
                    Some(BLANK)
                } else {
                    old(self).buffered(q)
                }),
    {
        let ghost s0 = *old(self);
        let ghost w = self.written@;
        let mut i: usize = 0;
        while i < self.written.len()
            invariant
                s0.wf(),
                i <= w.len(),
                self.cols == s0.cols,
                self.rows == s0.rows,
                self.written@ == w,
                w == s0.written_seq(),
                unique_keys(self.buffer@),
                self.buffer@ == cleared_buffer(s0, i as int),
            decreases w.len() - i,
        {
            let p = self.written[i].0;
            proof {
                lemma_assoc_set(self.buffer@, p, BLANK);
            }
            upsert(&mut self.buffer, p, BLANK);
            i = i + 1;
        }
        proof {
            lemma_cleared_buffer(s0, w.len() as int);
            assert(w.take(w.len() as int) =~= w);
        }
    }

    /// Reconciles every pending write into the committed cells and
    /// returns the diff: the in-bounds cells whose visible value changed,
    /// in staging order. Out-of-bounds entries are dropped, unchanged
    /// cells produce no diff entry, and the pending buffer is left empty.
    pub fn flush(&mut self) -> (updates: Vec<(Position, char)>)
        requires
            old(self).wf(),
        ensures
            final(self).wf(),
            final(self).cols == old(self).cols,
            final(self).rows == old(self).rows,
            final(self).buffer_seq().len() == 0,
            forall|q: Position|
                #[trigger] final(self).committed_at(q) == flushed_at(
                    *old(self),
                    old(self).buffer_seq(),
                    q,
                ),
            forall|q: Position|
                #[trigger] final(self).committed_char(q) == flushed_char(
                    *old(self),
                    old(self).buffer_seq(),
                    q,
                ),
            updates@ == diff_spec(*old(self), old(self).buffer_seq()),
    {
        let ghost s0 = *old(self);
        let ghost buf = self.buffer@;
        let mut updates: Vec<(Position, char)> = Vec::new();
        let mut i: usize = 0;
        while i < self.buffer.len()
            invariant
                s0.wf(),
                i <= buf.len(),
                self.cols == s0.cols,
                self.rows == s0.rows,
                self.buffer@ == buf,
                buf == s0.buffer_seq(),
                unique_keys(self.written@),
                self.written@ == flushed_written(s0, i as int),
                updates@ == diff_spec(s0, buf.take(i as int)),
            decreases buf.len() - i,
        {
            let (position, ch) = self.buffer[i];
            let clipped = self.clamp(&position);
            let in_range = clipped.col == position.col && clipped.row == position.row;
            proof {
                assert(in_range == s0.in_bounds(position));
                lemma_unique_take(buf, i as int);
                assert(!has_key(buf.take(i as int), position)) by {
                    if has_key(buf.take(i as int), position) {
                        let k = index_of_key(buf.take(i as int), position);
                        assert(buf.take(i as int)[k].0 == position);
                        assert(buf[k].0 == buf[i as int].0);
                    }
                }
                lemma_flushed_written(s0, i as int);
                assert(bound_at(flushed_written(s0, i as int), position) == flushed_at(
                    s0,
                    buf.take(i as int),
                    position,
                ));
                assert(bound_at(self.written@, position) == s0.committed_at(position));
            }
            let kept: bool;
            if in_range {
                proof {
                    lemma_assoc_set(self.written@, position, ch);
                }
                let original = upsert(&mut self.written, position, ch);
                kept = match original {
                    Some(prev) => prev != ch,
                    None => true,
                };
            } else {
                kept = false;
            }
            proof {
                assert(kept == keep_entry(s0, buf[i as int]));
            }
            if kept {
                updates.push((position, ch));
            }
            proof {
                assert(buf.take(i + 1).drop_last() =~= buf.take(i as int));
                assert(buf.take(i + 1).last() == buf[i as int]);
                assert(updates@ == diff_spec(s0, buf.take(i + 1)));
                assert(self.written@ == flushed_written(s0, i + 1));
            }
            i = i + 1;
        }
        proof {
            lemma_flushed_written(s0, buf.len() as int);
            assert(buf.take(buf.len() as int) =~= buf);
        }
        self.buffer = Vec::new();
        proof {
            assert forall|q: Position| #[trigger] self.committed_char(q) == flushed_char(
                s0,
                buf,
                q,
            ) by {
                assert(bound_at(flushed_written(s0, buf.len() as int), q) == flushed_at(
                    s0,
                    buf.take(buf.len() as int),
                    q,
                ));
            }
        }
        updates
    }
}

/// The staging buffer after writing a text at a column and row: each
/// character is staged and advances the column; a line break moves to
/// the start of the next row instead.
pub open spec fn staged_text(
    buf: Seq<(Position, char)>,
    col: int,
    row: int,
    text: Seq<char>,
) -> Seq<(Position, char)>
    decreases text.len(),
{
    if text.len() == 0 {
        buf
    } else {
        let ch = text[0];
        if ch == '\n' {
            staged_text(buf, 0, row + 1, text.drop_first())
        } else {
            staged_text(
                assoc_set(buf, Position { row: row as i32, col: col as i32 }, ch),
                col + 1,
                row,
                text.drop_first(),
            )
        }
    }
}

/// Writing a text never unstages anything and keeps the buffer
/// duplicate-free.
pub proof fn lemma_staged_text_wf(buf: Seq<(Position, char)>, col: int, row: int, text: Seq<char>)
    requires
        unique_keys(buf),
    ensures
        unique_keys(staged_text(buf, col, row, text)),
    decreases text.len(),
{
    if text.len() > 0 {
        let ch = text[0];
        if ch == '\n' {
            lemma_staged_text_wf(buf, 0, row + 1, text.drop_first());
        } else {
            let p = Position { row: row as i32, col: col as i32 };
            lemma_assoc_set(buf, p, ch);
            lemma_staged_text_wf(assoc_set(buf, p, ch), col + 1, row, text.drop_first());
        }
    }
}

/// The committed characters of one row between two columns, in order,
/// skipping cells that were never committed.
pub open spec fn row_chars(s: Screen, row: int, c0: int, n: nat) -> Seq<char>
    decreases n,
{
    if n == 0 {
        Seq::empty()
    } else {
        row_chars(s, row, c0, (n - 1) as nat) + (match s.committed_at(
            Position { row: row as i32, col: (c0 + n - 1) as i32 },
        ) {
            Some(c) => seq![c],
            None => Seq::empty(),
        })
    }
}

/// The committed characters of a rectangle, row-major, skipping cells
/// that were never committed.
pub open spec fn rect_chars(s: Screen, r0: int, c0: int, width: nat, m: nat) -> Seq<char>
    decreases m,
{
    if m == 0 {
        Seq::empty()
    } else {
        rect_chars(s, r0, c0, width, (m - 1) as nat) + row_chars(s, r0 + m - 1, c0, width)
    }
}

impl Screen {
    /// Stages a text starting at `start`: each character lands one cell
    /// to the right of the previous, and a line break continues at the
    /// start of the next row. The committed cells are untouched.
    #[verifier::loop_isolation(false)]
    pub fn writes(&mut self, start: &Position, text: &str)
        requires
            old(self).wf(),
            text@.len() <= i32::MAX,
            start.col + text@.len() <= i32::MAX,
            start.row + text@.len() <= i32::MAX,
        ensures
            final(self).wf(),
            final(self).cols == old(self).cols,
            final(self).rows == old(self).rows,
            final(self).written_seq() == old(self).written_seq(),
            final(self).buffer_seq() == staged_text(
                old(self).buffer_seq(),
                start.col as int,
                start.row as int,
                text@,
            ),
    {
        let ghost t = text@;
        let n = text.unicode_len();
        let mut col: i32 = start.col;
        let mut row: i32 = start.row;
        let mut i: usize = 0;
        proof {
            assert(t.skip(0) =~= t);
        }
        while i < n
            invariant
                i <= n,
                n == t.len(),
                self.wf(),
                self.cols == old(self).cols,
                self.rows == old(self).rows,
                self.written_seq() == old(self).written_seq(),
                n - i <= i32::MAX,
                col + (n - i) <= i32::MAX,
                row + (n - i) <= i32::MAX,
                staged_text(
                    old(self).buffer_seq(),
                    start.col as int,
                    start.row as int,
                    t,
                ) == staged_text(self.buffer_seq(), col as int, row as int, t.skip(i as int)),
            decreases n - i,
        {
            let ch = text.get_char(i);
            let ghost buf_pre = self.buffer@;
            proof {
                assert(t.skip(i as int)[0] == t[i as int]);
                assert(t.skip(i as int).drop_first() =~= t.skip(i + 1));
            }
            if ch == '\n' {
                row = row + 1;
                col = 0;
            } else {
                self.write(&Position { row, col }, ch);
                col = col + 1;
            }
            i = i + 1;
        }
        proof {
            assert(t.skip(n as int).len() == 0);
        }
    }

    /// The committed characters of the rectangle from `start` to `end`
    /// (both inclusive), row-major, skipping cells that were never
    /// committed.
    #[verifier::loop_isolation(false)]
    pub fn reads(&self, start: &Position, end: &Position) -> (r: String)
        requires
            self.wf(),
            start.col <= end.col,
            start.row <= end.row,
            end.col < i32::MAX,
            end.row < i32::MAX,
        ensures
            r@ == rect_chars(
                *self,
                start.row as int,
                start.col as int,
                (end.col - start.col + 1) as nat,
                (end.row - start.row + 1) as nat,
            ),
    {
        let ghost width = (end.col - start.col + 1) as nat;
        let mut r = String::new();
        let mut row: i32 = start.row;
        proof {
            assert(rect_chars(*self, start.row as int, start.col as int, width, 0) =~= Seq::<
                char,
            >::empty());
        }
        while row <= end.row
            invariant
                start.row <= row,
                row <= end.row + 1,
                r@ == rect_chars(
                    *self,
                    start.row as int,
                    start.col as int,
                    width,
                    (row - start.row) as nat,
                ),
            decreases end.row + 1 - row,
        {
            let mut col: i32 = start.col;
            proof {
                assert(row_chars(*self, row as int, start.col as int, 0) =~= Seq::<char>::empty());
                assert(r@ + Seq::<char>::empty() =~= r@);
            }
            while col <= end.col
                invariant
                    start.row <= row <= end.row,
                    start.col <= col,
                    col <= end.col + 1,
                    r@ == rect_chars(
                        *self,
                        start.row as int,
                        start.col as int,
                        width,
                        (row - start.row) as nat,
                    ) + row_chars(*self, row as int, start.col as int, (col - start.col) as nat),
                decreases end.col + 1 - col,
            {
                let p = Position { row, col };
                match find_entry(&self.written, p) {
                    Some(idx) => {
                        proof {
                            lemma_value_at(self.written@, p, idx as int);
                        }
                        let c = self.written[idx].1;
                        crate::text::push_char(&mut r, c);
                    },
                    None => {
                    },
                }
                proof {
                    assert(row_chars(*self, row as int, start.col as int, (col - start.col + 1) as nat)
                        == row_chars(*self, row as int, start.col as int, (col - start.col) as nat)
                        + (match self.committed_at(p) {
                        Some(c) => seq![c],
                        None => Seq::<char>::empty(),
                    }));
                }
                col = col + 1;
            }
            proof {
                assert(rect_chars(
                    *self,
                    start.row as int,
                    start.col as int,
                    width,
                    (row + 1 - start.row) as nat,
                ) == rect_chars(
                    *self,
                    start.row as int,
                    start.col as int,
                    width,
                    (row - start.row) as nat,
                ) + row_chars(*self, row as int, start.col as int, width));
            }
            row = row + 1;
        }
        r
    }
}

impl Default for Screen {
    /// A canvas with the conventional hundred-by-hundred extent.
    fn default() -> (s: Screen)
        ensures
            s.wf(),
            s.cols == 100,
            s.rows == 100,
            s.written_seq().len() == 0,
            s.buffer_seq().len() == 0,
    {
        Screen::with_size(Position::new(100, 100))
    }
}

/// Whether a flush keeps a staged entry in the diff: the position is
/// visible and the staged character differs from the committed entry
/// (a never-committed cell always differs).
pub open spec fn keep_entry(s: Screen, e: (Position, char)) -> bool {
    s.in_bounds(e.0) && s.committed_at(e.0) != Some(e.1)
}

/// The diff a flush of `buf` produces against the pre-flush canvas `s`,
/// in staging order.
pub open spec fn diff_spec(s: Screen, buf: Seq<(Position, char)>) -> Seq<(Position, char)>
    decreases buf.len(),
{
    if buf.len() == 0 {
        Seq::empty()
    } else {
        diff_spec(s, buf.drop_last()) + (if keep_entry(s, buf.last()) {
            seq![buf.last()]
        } else {
            Seq::empty()
        })
    }
}

/// The committed entry at `q` after a flush of `buf` against the
/// pre-flush canvas `s`.
pub open spec fn flushed_at(s: Screen, buf: Seq<(Position, char)>, q: Position) -> Option<char> {
    if s.in_bounds(q) && has_key(buf, q) {
        Some(value_at(buf, q))
    } else {
        s.committed_at(q)
    }
}

/// The committed character at `q` after a flush of `buf` against the
/// pre-flush canvas `s`, or `BLANK`.
pub open spec fn flushed_char(s: Screen, buf: Seq<(Position, char)>, q: Position) -> char {
    match flushed_at(s, buf, q) {
        Some(c) => c,
        None => BLANK,
    }
}

/// The staging buffer after `clear` has walked the first `i` committed
/// entries: each of their positions has been bound to `BLANK`.
pub open spec fn cleared_buffer(s0: Screen, i: int) -> Seq<(Position, char)>
    decreases i,
{
    if i <= 0 {
        s0.buffer_seq()
    } else {
        assoc_set(cleared_buffer(s0, i - 1), s0.written_seq()[i - 1].0, BLANK)
    }
}

/// What the walked prefix of `clear` has done to the staging buffer.
pub proof fn lemma_cleared_buffer(s0: Screen, i: int)
    requires
        s0.wf(),
        0 <= i <= s0.written_seq().len(),
    ensures
        unique_keys(cleared_buffer(s0, i)),
        forall|q: Position|
            #[trigger] bound_at(cleared_buffer(s0, i), q) == (if has_key(
                s0.written_seq().take(i),
                q,
            ) {
                Some(BLANK)
            } else {
                s0.buffered(q)
            }),
    decreases i,
{
    let w = s0.written_seq();
    if i <= 0 {
        assert(w.take(0) =~= Seq::<(Position, char)>::empty());
        assert(forall|q: Position| !has_key(w.take(0), q));
    } else {
        lemma_cleared_buffer(s0, i - 1);
        let p = w[i - 1].0;
        lemma_assoc_set(cleared_buffer(s0, i - 1), p, BLANK);
        assert forall|q: Position|
            #[trigger] bound_at(cleared_buffer(s0, i), q) == (if has_key(w.take(i), q) {
                Some(BLANK)
            } else {
                s0.buffered(q)
            }) by {
            lemma_bound_take_step(w, i - 1, q);
            if q == p {
                assert(w.take(i)[i - 1].0 == q);
                assert(has_key(w.take(i), q));
            } else {
                assert(has_key(w.take(i), q) == has_key(w.take(i - 1), q)) by {
                    lemma_unique_take(w, i);
                    lemma_unique_take(w, i - 1);
                    if has_key(w.take(i), q) {
                        let k = index_of_key(w.take(i), q);
                        assert(w.take(i)[k].0 == q);
                        assert(k != i - 1);
                        assert(w.take(i - 1)[k].0 == q);
                    } else {
                        if has_key(w.take(i - 1), q) {
                            let k = index_of_key(w.take(i - 1), q);
                            assert(w.take(i - 1)[k].0 == q);
                            assert(w.take(i)[k].0 == q);
                        }
                    }
                }
            }
        }
    }
}

/// Staging a character equal to the one already committed at its
/// position, on a canvas with no other pending writes, makes the
/// subsequent flush yield an empty diff: flushing unchanged cells is
/// idempotent.
pub proof fn lemma_unchanged_write_empty_diff(s: Screen, p: Position, c: char)
    requires
        s.wf(),
        s.buffer_seq().len() == 0,
        s.committed_at(p) == Some(c),
    ensures
        diff_spec(s, assoc_set(s.buffer_seq(), p, c)).len() == 0,
{
    let b = assoc_set(s.buffer_seq(), p, c);
    assert(!has_key(s.buffer_seq(), p));
    assert(b == s.buffer_seq().push((p, c)));
    assert(b.drop_last() =~= s.buffer_seq());
    assert(diff_spec(s, s.buffer_seq()).len() == 0);
    assert(!keep_entry(s, (p, c)));
}

/// A flush leaves nothing pending, so a second flush with no intervening
/// writes yields an empty diff.
pub proof fn lemma_flush_drains(s: Screen)
    requires
        s.buffer_seq().len() == 0,
    ensures
        diff_spec(s, s.buffer_seq()).len() == 0,
{
}

/// The diff of a flush holds exactly the staged, visible entries whose
/// character differs from the committed one — every diff entry is such a
/// staged entry, every such staged entry appears — and so the diff is
/// never longer than the buffer.
pub proof fn lemma_diff_exact(s: Screen, buf: Seq<(Position, char)>)
    ensures
        diff_spec(s, buf).len() <= buf.len(),
        forall|k: int|
            0 <= k < diff_spec(s, buf).len() ==> keep_entry(s, #[trigger] diff_spec(s, buf)[k])
                && buf.contains(diff_spec(s, buf)[k]),
        forall|j: int|
            0 <= j < buf.len() && keep_entry(s, #[trigger] buf[j]) ==> diff_spec(s, buf).contains(
                buf[j],
            ),
    decreases buf.len(),
{
    let d = diff_spec(s, buf);
    if buf.len() > 0 {
        let dl = buf.drop_last();
        lemma_diff_exact(s, dl);
        let dd = diff_spec(s, dl);
        assert forall|k: int| 0 <= k < d.len() implies keep_entry(s, #[trigger] d[k])
            && buf.contains(d[k]) by {
            if k < dd.len() {
                assert(d[k] == dd[k]);
                let j = choose|j: int| 0 <= j < dl.len() && dl[j] == dd[k];
                assert(buf[j] == dl[j]);
                assert(buf.contains(d[k]));
            } else {
                assert(d[k] == buf.last());
                assert(buf[buf.len() - 1] == buf.last());
                assert(buf.contains(d[k]));
            }
        }
        assert forall|j: int| 0 <= j < buf.len() && keep_entry(s, #[trigger] buf[j]) implies d
            .contains(buf[j]) by {
            if j < buf.len() - 1 {
                assert(dl[j] == buf[j]);
                assert(dd.contains(dl[j]));
                let k = choose|k: int| 0 <= k < dd.len() && dd[k] == dl[j];
                assert(d[k] == dd[k]);
                assert(d.contains(buf[j]));
            } else {
                assert(keep_entry(s, buf.last()));
                assert(d[d.len() - 1] == buf.last());
                assert(d.contains(buf[j]));
            }
        }
    }
}

/// Buffers that differ only in entries a flush would drop or skip
/// produce the same diff.
proof fn lemma_diff_same(s: Screen, b1: Seq<(Position, char)>, b2: Seq<(Position, char)>)
    requires
        b1.len() == b2.len(),
        forall|i: int|
            0 <= i < b1.len() ==> #[trigger] b1[i] == b2[i] || (!keep_entry(s, b1[i])
                && !keep_entry(s, b2[i])),
    ensures
        diff_spec(s, b1) == diff_spec(s, b2),
    decreases b1.len(),
{
    if b1.len() > 0 {
        assert forall|i: int| 0 <= i < b1.drop_last().len() implies #[trigger] b1.drop_last()[i]
            == b2.drop_last()[i] || (!keep_entry(s, b1.drop_last()[i]) && !keep_entry(
            s,
            b2.drop_last()[i],
        )) by {
            assert(b1.drop_last()[i] == b1[i]);
            assert(b2.drop_last()[i] == b2[i]);
        }
        lemma_diff_same(s, b1.drop_last(), b2.drop_last());
        assert(b1[b1.len() - 1] == b2[b1.len() - 1] || (!keep_entry(s, b1[b1.len() - 1])
            && !keep_entry(s, b2[b1.len() - 1])));
    }
}

/// Staging at a position outside `[(0,0), extent]` is inert: the flush
/// diff is that of the canvas without the stage, and so is the committed
/// entry the flush leaves at every position.
pub proof fn lemma_out_of_bounds_write_inert(s: Screen, p: Position, c: char)
    requires
        s.wf(),
        !s.in_bounds(p),
    ensures
        diff_spec(s, assoc_set(s.buffer_seq(), p, c)) == diff_spec(s, s.buffer_seq()),
        forall|q: Position|
            #[trigger] flushed_at(s, assoc_set(s.buffer_seq(), p, c), q) == flushed_at(
                s,
                s.buffer_seq(),
                q,
            ),
{
    let b0 = s.buffer_seq();
    let b1 = assoc_set(b0, p, c);
    lemma_assoc_set(b0, p, c);
    if has_key(b0, p) {
        let i = index_of_key(b0, p);
        assert(0 <= i < b0.len() && b0[i].0 == p);
        assert forall|j: int| 0 <= j < b0.len() implies #[trigger] b0[j] == b1[j] || (!keep_entry(
            s,
            b0[j],
        ) && !keep_entry(s, b1[j])) by {
            if j == i {
                assert(b1[j] == (p, c));
                assert(b0[j].0 == p);
            }
        }
        lemma_diff_same(s, b1, b0);
    } else {
        assert(b1 == b0.push((p, c)));
        assert(b1.drop_last() =~= b0);
        assert(!keep_entry(s, (p, c)));
    }
    assert forall|q: Position| #[trigger] flushed_at(s, b1, q) == flushed_at(s, b0, q) by {
        if q != p {
            assert(bound_at(b1, q) == bound_at(b0, q));
            assert(has_key(b1, q) == has_key(b0, q));
            if has_key(b0, q) {
                assert(value_at(b1, q) == value_at(b0, q));
            }
        }
    }
}

/// The committed cells after `flush` has walked the first `i` staged
/// entries: each visible one has been bound, out-of-bounds ones dropped.
pub open spec fn flushed_written(s0: Screen, i: int) -> Seq<(Position, char)>
    decreases i,
{
    if i <= 0 {
        s0.written_seq()
    } else {
        let prev = flushed_written(s0, i - 1);
        let e = s0.buffer_seq()[i - 1];
        if s0.in_bounds(e.0) {
            assoc_set(prev, e.0, e.1)
        } else {
            prev
        }
    }
}

/// What the walked prefix of `flush` has done to the committed cells.
pub proof fn lemma_flushed_written(s0: Screen, i: int)
    requires
        s0.wf(),
        0 <= i <= s0.buffer_seq().len(),
    ensures
        unique_keys(flushed_written(s0, i)),
        forall|q: Position|
            #[trigger] bound_at(flushed_written(s0, i), q) == flushed_at(
                s0,
                s0.buffer_seq().take(i),
                q,
            ),
    decreases i,
{
    let buf = s0.buffer_seq();
    if i <= 0 {
        assert(buf.take(0) =~= Seq::<(Position, char)>::empty());
        assert(forall|q: Position| !has_key(buf.take(0), q));
    } else {
        lemma_flushed_written(s0, i - 1);
        let e = buf[i - 1];
        let p = e.0;
        if s0.in_bounds(p) {
            lemma_assoc_set(flushed_written(s0, i - 1), p, e.1);
        }
        assert forall|q: Position|
            #[trigger] bound_at(flushed_written(s0, i), q) == flushed_at(s0, buf.take(i), q) by {
            lemma_bound_take_step(buf, i - 1, q);
            lemma_unique_take(buf, i);
            lemma_unique_take(buf, i - 1);
            assert(has_key(buf.take(i), q) == (has_key(buf.take(i - 1), q) || q == p)) by {
                if has_key(buf.take(i), q) {
                    let k = index_of_key(buf.take(i), q);
                    assert(buf.take(i)[k].0 == q);
                    if k != i - 1 {
                        assert(buf.take(i - 1)[k].0 == q);
                    }
                } else {
                    if has_key(buf.take(i - 1), q) {
                        let k = index_of_key(buf.take(i - 1), q);
                        assert(buf.take(i - 1)[k].0 == q);
                        assert(buf.take(i)[k].0 == q);
                    }
                    if q == p {
                        assert(buf.take(i)[i - 1].0 == q);
                    }
                }
            }
        }
    }
}

} // verus!
