use vstd::prelude::*;

use crate::rope::rope_byte_at;
use crate::rope::rope_byte_len;
use crate::rope::rope_byte_of_line;
use crate::rope::rope_delete;
use crate::rope::rope_from;
use crate::rope::rope_insert;
use crate::rope::rope_line_byte_len;
use crate::rope::rope_line_len;
use crate::rope::rope_line_of_byte;
use crate::rope::rope_line_slice_to_string;
use crate::rope::rope_new;
use crate::rope::rope_slice_to_string;
use crate::rope::rope_text;
use crate::rope::rope_to_string;
use crate::seed::random_seed;
use crate::text::count_nl;
use crate::text::is_nl;
use crate::text::lemma_count_nl_append;
use crate::text::lemma_count_nl_le_len;
use crate::text::lemma_count_nl_singleton;
use crate::text::lemma_count_nl_take_full;
use crate::text::lemma_count_nl_take_le;
use crate::text::lemma_line_of_line_start;
use crate::text::lemma_nl_pos_props;
use crate::text::lemma_num_lines_le_len;
use crate::text::lemma_offset_within_line;
use crate::text::lemma_prefix_rows_stable;
use crate::text::lemma_replace_suffix_row;
use crate::text::line_content;
use crate::text::line_content_len;
use crate::text::line_of;
use crate::text::line_start;
use crate::text::num_lines;
use vstd::utf8::decode_utf8;
use vstd::utf8::encode_utf8;
use vstd::utf8::encode_utf8_valid_utf8;
use vstd::utf8::is_char_boundary;
use vstd::utf8::is_char_boundary_start_end_of_seq;
use vstd::utf8::valid_utf8;
use vstd::utf8::valid_utf8_concat;
use vstd::utf8::valid_utf8_split;

verus! {

/// Order on (length, row) pairs: by length first, then by row.
pub open spec fn pair_lt(a: (usize, usize), b: (usize, usize)) -> bool {
    a.0 < b.0 || (a.0 == b.0 && a.1 < b.1)
}

/// Strictly ascending in the pair order; in particular, no pair repeats.
pub open spec fn index_sorted(v: Seq<(usize, usize)>) -> bool {
    forall|i: int, j: int| 0 <= i < j < v.len() ==> pair_lt(v[i], v[j])
}

/// The pair occurs in the sequence.
pub open spec fn index_has(v: Seq<(usize, usize)>, p: (usize, usize)) -> bool {
    exists|k: int| 0 <= k < v.len() && v[k] == p
}

fn pair_before(a: (usize, usize), b: (usize, usize)) -> (r: bool)
    ensures
        r == pair_lt(a, b),
{
    a.0 < b.0 || (a.0 == b.0 && a.1 < b.1)
}

/// Inserts a pair that is not yet present, keeping the order.
fn index_insert(v: &mut Vec<(usize, usize)>, p: (usize, usize))
    requires
        index_sorted(old(v)@),
        !index_has(old(v)@, p),
    ensures
        index_sorted(final(v)@),
        final(v)@.len() == old(v)@.len() + 1,
        forall|x: (usize, usize)|
            index_has(final(v)@, x) <==> (index_has(old(v)@, x) || x == p),
{
    let ghost v0 = v@;
    let mut i: usize = 0;
    loop
        invariant_except_break
            v@ == v0,
            index_sorted(v0),
            !index_has(v0, p),
            0 <= i <= v0.len(),
            forall|k: int| 0 <= k < i ==> pair_lt(v0[k], p),
        ensures
            v@ == v0,
            0 <= i <= v0.len(),
            forall|k: int| 0 <= k < i ==> pair_lt(v0[k], p),
            i < v0.len() ==> !pair_lt(v0[i as int], p),
        decreases v0.len() - i,
    {
        if i >= v.len() {
            break;
        }
        if !pair_before(v[i], p) {
            break;
        }
        i = i + 1;
    }
    assert(forall|k: int| i <= k < v0.len() ==> pair_lt(p, v0[k])) by {
        assert forall|k: int| i <= k < v0.len() implies pair_lt(p, v0[k]) by {
            assert(!pair_lt(v0[i as int], p));
            assert(v0[i as int] != p) by {
                if v0[i as int] == p {
                    assert(index_has(v0, p));
                }
            }
            assert(pair_lt(p, v0[i as int]));
            if k > i {
                assert(pair_lt(v0[i as int], v0[k]));
            }
        }
    }
    v.insert(i, p);
    assert forall|x: (usize, usize)| index_has(v@, x) implies (index_has(v0, x) || x == p) by {
        let k = choose|k: int| 0 <= k < v@.len() && v@[k] == x;
        if k < i {
            assert(v0[k] == x);
        } else if k > i {
            assert(v0[k - 1] == x);
        }
    }
    assert forall|x: (usize, usize)| index_has(v0, x) implies index_has(v@, x) by {
        let k = choose|k: int| 0 <= k < v0.len() && v0[k] == x;
        if k < i {
            assert(v@[k] == x);
        } else {
            assert(v@[k + 1] == x);
        }
    }
    assert(index_has(v@, p)) by {
        assert(v@[i as int] == p);
    }
}

/// Removes a pair that is present; the order keeps every pair unique, so
/// exactly one entry goes.
fn index_remove(v: &mut Vec<(usize, usize)>, p: (usize, usize))
    requires
        index_sorted(old(v)@),
        index_has(old(v)@, p),
    ensures
        index_sorted(final(v)@),
        final(v)@.len() == old(v)@.len() - 1,
        forall|x: (usize, usize)|
            index_has(final(v)@, x) <==> (index_has(old(v)@, x) && x != p),
{
    let ghost v0 = v@;
    let n = v.len();
    let mut i: usize = 0;
    loop
        invariant_except_break
            v@ == v0,
            v0.len() == n,
            index_sorted(v0),
            0 <= i < v0.len(),
            forall|k: int| 0 <= k < i ==> v0[k] != p,
            index_has(v0, p),
        ensures
            v@ == v0,
            0 <= i < v0.len(),
            v0[i as int] == p,
        decreases v0.len() - i,
    {
        let q = v[i];
        if q.0 == p.0 && q.1 == p.1 {
            break;
        }
        proof {
            let k = choose|k: int| 0 <= k < v0.len() && v0[k] == p;
            assert(k > i);
        }
        i = i + 1;
    }
    v.remove(i);
    assert forall|x: (usize, usize)| index_has(v@, x) implies (index_has(v0, x) && x != p) by {
        let k = choose|k: int| 0 <= k < v@.len() && v@[k] == x;
        if k < i {
            assert(v0[k] == x);
            assert(x != p) by {
                if x == p {
                    assert(pair_lt(v0[k], v0[i as int]));
                }
            }
        } else {
            assert(v0[k + 1] == x);
            assert(x != p) by {
                if x == p {
                    assert(pair_lt(v0[i as int], v0[k + 1]));
                }
            }
        }
    }
    assert forall|x: (usize, usize)| index_has(v0, x) && x != p implies index_has(v@, x) by {
        let k = choose|k: int| 0 <= k < v0.len() && v0[k] == x;
        if k < i {
            assert(v@[k] == x);
        } else if k > i {
            assert(v@[k - 1] == x);
        }
    }
}


/// The linear offset that a (row, column) position denotes: the row's start
/// offset plus the column; zero in an empty document.
pub open spec fn spec_row_column_to_idx(s: Seq<u8>, row: int, column: int) -> int {
    if s.len() == 0 {
        0
    } else {
        line_start(s, row as nat) + column
    }
}

/// The (row, column) position that a linear offset denotes: the row holding
/// the offset and the distance to that row's start; (0, 0) in an empty
/// document.
pub open spec fn spec_idx_to_row_column(s: Seq<u8>, idx: int) -> (int, int) {
    if s.len() == 0 {
        (0int, 0int)
    } else {
        (line_of(s, idx) as int, idx - line_start(s, line_of(s, idx)))
    }
}


/// The two cached structures stay in bijection: every recorded row appears
/// as a pair of the ordered index carrying exactly its recorded length, and
/// in exactly one position of the index.
pub proof fn lemma_index_bijection(b: Buffer, r: usize)
    requires
        b.wf(),
        (r as int) < b.lengths().len(),
    ensures
        index_has(b.index(), (b.spec_line_len(r as int), r)),
        forall|k1: int, k2: int|
            0 <= k1 < b.index().len() && 0 <= k2 < b.index().len() && (#[trigger] b.index()[k1]).1
                == r && (#[trigger] b.index()[k2]).1 == r ==> k1 == k2,
{
    assert(index_has(b.index(), (b.lengths()[r as int], r)));
    assert forall|k1: int, k2: int|
        0 <= k1 < b.index().len() && 0 <= k2 < b.index().len() && (#[trigger] b.index()[k1]).1
            == r && (#[trigger] b.index()[k2]).1 == r implies k1 == k2 by {
        assert(b.index()[k1].0 == b.lengths()[r as int]);
        assert(b.index()[k2].0 == b.lengths()[r as int]);
        if k1 < k2 {
            assert(pair_lt(b.index()[k1], b.index()[k2]));
        }
        if k2 < k1 {
            assert(pair_lt(b.index()[k2], b.index()[k1]));
        }
    }
}

/// The clearing rule of ranged deletion: the whole document goes when it is
/// already empty, or when the range runs from the first row through the last
/// one, whatever the end column says.
pub open spec fn spec_should_clear(s: Seq<u8>, start_row: int, end_row: int) -> bool {
    s.len() == 0 || (start_row == 0 && end_row + 1 == if num_lines(s) == 0 {
        1int
    } else {
        num_lines(s) as int
    })
}

/// One row's clipped piece of the per-row ranged read: the byte range
/// [start, end) clipped against the row's own content length, decoded; empty
/// when the start lies at or past the row's end.
pub open spec fn spec_row_clip(s: Seq<u8>, row: nat, so: int, eo: int) -> Seq<char> {
    let ll = line_content_len(s, row);
    if so >= ll {
        seq![]
    } else {
        let e = if eo < ll {
            eo
        } else {
            ll
        };
        if so < e {
            decode_utf8(line_content(s, row).subrange(so, e))
        } else {
            seq![]
        }
    }
}

/// The slicing offsets of one row's clipped piece lie on character
/// boundaries of that row's content whenever a piece is actually cut.
pub open spec fn spec_row_clip_ok(s: Seq<u8>, row: nat, so: int, eo: int) -> bool {
    let ll = line_content_len(s, row);
    let e = if eo < ll {
        eo
    } else {
        ll
    };
    (so < ll && so < e) ==> (is_char_boundary(line_content(s, row), so) && is_char_boundary(
        line_content(s, row),
        e,
    ))
}

/// The per-row ranged read over the rows of [start_row, end_row): every row
/// clipped on its own, the pieces joined by single line feeds.
pub open spec fn spec_char_range_text(
    s: Seq<u8>,
    start_row: nat,
    end_row: nat,
    so: int,
    eo: int,
) -> Seq<char>
    decreases end_row - start_row,
{
    if end_row <= start_row {
        seq![]
    } else if end_row == start_row + 1 {
        spec_row_clip(s, start_row, so, eo)
    } else {
        spec_row_clip(s, start_row, so, eo) + seq!['\n'] + spec_char_range_text(
            s,
            (start_row + 1) as nat,
            end_row,
            so,
            eo,
        )
    }
}

/// Extending the per-row ranged read by one more row appends one line feed
/// and that row's clipped piece.
pub proof fn lemma_char_range_snoc(s: Seq<u8>, a: nat, b: nat, so: int, eo: int)
    requires
        a < b,
    ensures
        spec_char_range_text(s, a, (b + 1) as nat, so, eo) == spec_char_range_text(s, a, b, so, eo)
            + seq!['\n'] + spec_row_clip(s, b, so, eo),
    decreases b - a,
{
    if b == a + 1 {
        assert(spec_char_range_text(s, (a + 1) as nat, (b + 1) as nat, so, eo) == spec_row_clip(
            s,
            b,
            so,
            eo,
        ));
        assert(spec_char_range_text(s, a, (b + 1) as nat, so, eo) =~= spec_char_range_text(
            s,
            a,
            b,
            so,
            eo,
        ) + seq!['\n'] + spec_row_clip(s, b, so, eo));
    } else {
        lemma_char_range_snoc(s, (a + 1) as nat, b, so, eo);
        assert(spec_char_range_text(s, a, (b + 1) as nat, so, eo) =~= spec_char_range_text(
            s,
            a,
            b,
            so,
            eo,
        ) + seq!['\n'] + spec_row_clip(s, b, so, eo));
    }
}

/// Round trip: translating any in-bounds offset to a (row, column) position
/// and back yields the same offset.
pub proof fn lemma_round_trip(s: Seq<u8>, idx: int)
    requires
        0 <= idx <= s.len(),
    ensures
        spec_row_column_to_idx(
            s,
            spec_idx_to_row_column(s, idx).0,
            spec_idx_to_row_column(s, idx).1,
        ) == idx,
{
    if s.len() > 0 {
        lemma_offset_within_line(s, idx);
    }
}

/// The text-buffer engine: a rope holding the document, a version counter,
/// the cached length of every row, and an ordered index of (length, row)
/// pairs answering longest-line queries.
pub struct Buffer {
    text: crop::Rope,
    pub version: usize,
    line_lengths: Vec<usize>,
    length_index: Vec<(usize, usize)>,
}

impl Buffer {
    /// The bytes of the document.
    pub closed spec fn text_bytes(self) -> Seq<u8> {
        rope_text(self.text)
    }

    /// The version counter.
    pub closed spec fn spec_version(self) -> usize {
        self.version
    }

    /// The cached row lengths, one per recorded row.
    pub closed spec fn lengths(self) -> Seq<usize> {
        self.line_lengths@
    }

    /// The ordered (length, row) index.
    pub closed spec fn index(self) -> Seq<(usize, usize)> {
        self.length_index@
    }

    /// The two cached structures hold exactly the same association of rows to
    /// lengths: every recorded row appears as one pair of the index, and every
    /// pair of the index points back at its recorded row.
    pub open spec fn index_consistent(self) -> bool {
        &&& index_sorted(self.index())
        &&& self.index().len() == self.lengths().len()
        &&& forall|r: int|
            0 <= r < self.lengths().len() ==> index_has(
                self.index(),
                (#[trigger] self.lengths()[r], r as usize),
            )
        &&& forall|k: int|
            0 <= k < self.index().len() ==> (#[trigger] self.index()[k]).1 < self.lengths().len()
                && self.lengths()[self.index()[k].1 as int] == self.index()[k].0
    }

    /// Well-formed buffer: the document is valid UTF-8 and the two cached
    /// structures agree.
    pub open spec fn wf(self) -> bool {
        &&& valid_utf8(self.text_bytes())
        &&& self.index_consistent()
    }

    /// The core accuracy invariant: every row of the document has its true
    /// content length on record, so line_len answers from the cache alone.
    pub open spec fn lengths_accurate(self) -> bool {
        forall|r: int|
            0 <= r < num_lines(self.text_bytes()) ==> #[trigger] self.spec_line_len(r)
                == Self::spec_actual_line_len(self.text_bytes(), r)
    }

    /// What the engine reports as the number of rows: the rope's line count,
    /// except that an empty document still counts one empty row — a buffer is
    /// never reduced to zero rows.
    pub open spec fn spec_line_count(self) -> nat {
        if num_lines(self.text_bytes()) == 0 {
            1
        } else {
            num_lines(self.text_bytes())
        }
    }

    /// The recorded length of a row; an unrecorded row reads as zero.
    pub open spec fn spec_line_len(self, row: int) -> usize {
        if 0 <= row < self.lengths().len() {
            self.lengths()[row]
        } else {
            0
        }
    }

    /// The true length of a row, read from the document itself: the byte
    /// length of the row's content, or zero for a row past the document.
    pub open spec fn spec_actual_line_len(s: Seq<u8>, row: int) -> int {
        if 0 <= row < num_lines(s) {
            line_content_len(s, row as nat)
        } else {
            0
        }
    }

    /// A fresh starting value for the version counter: an arbitrary draw,
    /// held strictly below the counter's ceiling so that a mutation can
    /// always move it up.
    fn fresh_version() -> (v: usize)
        ensures
            v < usize::MAX,
            v <= u32::MAX as usize,
    {
        let seed = random_seed();
        let v = seed as usize;
        if v == usize::MAX {
            0
        } else {
            v
        }
    }

    /// A fresh, empty buffer: one row of length zero, recorded in both
    /// structures; the version counter starts at a fresh arbitrary value.
    pub fn new() -> (b: Buffer)
        ensures
            b.wf(),
            b.text_bytes() == Seq::<u8>::empty(),
            b.lengths() == seq![0usize],
            b.spec_line_count() == 1,
            b.lengths_accurate(),
            b.spec_version() <= u32::MAX as usize,
            b.spec_version() < usize::MAX,
    {
        let mut line_lengths: Vec<usize> = Vec::new();
        let mut length_index: Vec<(usize, usize)> = Vec::new();
        line_lengths.push(0);
        length_index.push((0, 0));
        let version = Self::fresh_version();
        let text = rope_new();
        let b = Buffer { text, version, line_lengths, length_index };
        proof {
            assert(b.lengths() =~= seq![0usize]);
            assert(b.index() =~= seq![(0usize, 0usize)]);
            assert(index_has(b.index(), (0usize, 0usize))) by {
                assert(b.index()[0] == (0usize, 0usize));
            }
        }
        b
    }

    /// Number of rows of the document; an empty document counts one empty row.
    pub fn line_count(&self) -> (n: usize)
        ensures
            n == self.spec_line_count(),
    {
        let n = rope_line_len(&self.text);
        if n == 0 {
            1
        } else {
            n
        }
    }

    /// The current value of the version counter.
    pub fn version(&self) -> (v: usize)
        ensures
            v == self.spec_version(),
    {
        self.version
    }

    /// The cached length of the given row, without touching the document;
    /// an out-of-range row reads as zero.
    pub fn line_len(&self, row: usize) -> (n: usize)
        ensures
            n == self.spec_line_len(row as int),
    {
        if row < self.line_lengths.len() {
            self.line_lengths[row]
        } else {
            0
        }
    }

    /// Length of the longest recorded row: the length component of the
    /// greatest pair of the index, or zero when nothing is recorded.
    pub fn max_line_length(&self) -> (n: usize)
        requires
            self.wf(),
        ensures
            self.lengths().len() == 0 ==> n == 0,
            self.lengths().len() > 0 ==> (exists|r: int|
                0 <= r < self.lengths().len() && self.lengths()[r] == n),
            forall|r: int| 0 <= r < self.lengths().len() ==> #[trigger] self.lengths()[r] <= n,
    {
        if self.length_index.len() == 0 {
            0
        } else {
            let last = self.length_index.len() - 1;
            let n = self.length_index[last].0;
            proof {
                let p = self.index()[last as int];
                assert(self.lengths()[p.1 as int] == n);
                assert forall|r: int|
                    0 <= r < self.lengths().len() implies #[trigger] self.lengths()[r] <= n by {
                    let k = choose|k: int|
                        0 <= k < self.index().len() && self.index()[k] == (self.lengths()[r],
                        r as usize);
                    assert(index_has(self.index(), (self.lengths()[r], r as usize)));
                    if k < last {
                        assert(pair_lt(self.index()[k], p));
                    }
                }
            }
            n
        }
    }

    /// The true length of a row, read from the rope; rows past the document
    /// read as zero.
    fn actual_line_len(&self, row: usize) -> (n: usize)
        ensures
            n == Self::spec_actual_line_len(self.text_bytes(), row as int),
    {
        if row >= rope_line_len(&self.text) {
            0
        } else {
            rope_line_byte_len(&self.text, row)
        }
    }

    /// Recomputes one row's length from the document and reconciles both
    /// cached structures. Rows between the recorded tail and `row` are first
    /// recorded with length zero, so the recorded rows stay contiguous.
    fn update_single_line_length(&mut self, row: usize)
        requires
            old(self).wf(),
        ensures
            final(self).wf(),
            final(self).text == old(self).text,
            final(self).spec_version() == old(self).spec_version(),
            final(self).lengths().len() == if row < old(self).lengths().len() {
                old(self).lengths().len() as int
            } else {
                row + 1
            },
            final(self).lengths()[row as int] == Self::spec_actual_line_len(
                old(self).text_bytes(),
                row as int,
            ),
            forall|r: int|
                0 <= r < final(self).lengths().len() && r != row ==> final(self).lengths()[r]
                    == (if r < old(self).lengths().len() {
                    old(self).lengths()[r]
                } else {
                    0usize
                }),
    {
        let new_length = self.actual_line_len(row);
        if row < self.line_lengths.len() {
            let n = self.line_lengths.len();
            let old_length = self.line_lengths[row];
            if old_length != new_length {
                assert(index_has(self.index(), (old_length, row)));
                index_remove(&mut self.length_index, (old_length, row));
                assert(!index_has(self.index(), (new_length, row))) by {
                    if index_has(self.index(), (new_length, row)) {
                        assert(index_has(old(self).index(), (new_length, row)));
                        let k = choose|k: int|
                            0 <= k < old(self).index().len() && old(self).index()[k] == (
                            new_length,
                            row,
                            );
                        assert(old(self).lengths()[row as int] == new_length);
                    }
                }
                index_insert(&mut self.length_index, (new_length, row));
                self.line_lengths.set(row, new_length);
                proof {
                    assert(old(self).lengths().len() == n);
                    self.lemma_reestablish(*old(self), row, old_length, new_length);
                }
            }
        } else {
            while self.line_lengths.len() < row
                invariant
                    self.wf(),
                    self.text == old(self).text,
                    self.spec_version() == old(self).spec_version(),
                    old(self).lengths().len() <= self.lengths().len() <= row,
                    forall|r: int|
                        0 <= r < self.lengths().len() ==> #[trigger] self.lengths()[r] == (if r
                            < old(self).lengths().len() {
                            old(self).lengths()[r]
                        } else {
                            0usize
                        }),
                decreases row - self.line_lengths.len(),
            {
                let at = self.line_lengths.len();
                let ghost mid = *self;
                assert(!index_has(self.index(), (0usize, at))) by {
                    if index_has(self.index(), (0usize, at)) {
                        let k = choose|k: int|
                            0 <= k < mid.index().len() && mid.index()[k] == (0usize, at);
                    }
                }
                index_insert(&mut self.length_index, (0usize, at));
                self.line_lengths.push(0);
                proof {
                    self.lemma_reestablish_append(mid, 0usize, at);
                }
            }
            let at = self.line_lengths.len();
            let ghost mid = *self;
            assert(!index_has(self.index(), (new_length, at))) by {
                if index_has(self.index(), (new_length, at)) {
                    let k = choose|k: int|
                        0 <= k < mid.index().len() && mid.index()[k] == (new_length, at);
                }
            }
            index_insert(&mut self.length_index, (new_length, at));
            self.line_lengths.push(new_length);
            proof {
                self.lemma_reestablish_append(mid, new_length, at);
            }
        }
    }


    /// Recomputes the cached lengths of every row of `[start, end]`, both
    /// bounds included; an empty interval changes nothing.
    fn update_line_lengths_range(&mut self, start: usize, end: usize)
        requires
            old(self).wf(),
        ensures
            final(self).wf(),
            final(self).text == old(self).text,
            final(self).spec_version() == old(self).spec_version(),
            final(self).lengths().len() == if start <= end && end + 1 > old(self).lengths().len() {
                end + 1
            } else {
                old(self).lengths().len() as int
            },
            forall|r: int|
                0 <= r < final(self).lengths().len() ==> #[trigger] final(self).lengths()[r]
                    == (if start <= r <= end {
                    Self::spec_actual_line_len(old(self).text_bytes(), r)
                } else if r < old(self).lengths().len() {
                    old(self).lengths()[r] as int
                } else {
                    0
                }),
    {
        if start > end {
            return ;
        }
        let mut row = start;
        while row < end
            invariant
                start <= row <= end,
                self.wf(),
                self.text == old(self).text,
                self.spec_version() == old(self).spec_version(),
                self.lengths().len() == if start < row && row > old(self).lengths().len() {
                    row as int
                } else {
                    old(self).lengths().len() as int
                },
                forall|r: int|
                    0 <= r < self.lengths().len() ==> #[trigger] self.lengths()[r] == (if start
                        <= r < row {
                        Self::spec_actual_line_len(old(self).text_bytes(), r)
                    } else if r < old(self).lengths().len() {
                        old(self).lengths()[r] as int
                    } else {
                        0
                    }),
            decreases end - row,
        {
            self.update_single_line_length(row);
            row = row + 1;
        }
        self.update_single_line_length(end);
    }

    /// Discards every cached entry at or after `start_row` and recomputes the
    /// tail of both structures from the document itself.
    fn rebuild_line_lengths_from(&mut self, start_row: usize)
        requires
            old(self).wf(),
        ensures
            final(self).wf(),
            final(self).text == old(self).text,
            final(self).spec_version() == old(self).spec_version(),
            final(self).lengths().len() == if start_row < old(self).spec_line_count() {
                old(self).spec_line_count() as int
            } else if old(self).lengths().len() < start_row {
                old(self).lengths().len() as int
            } else {
                start_row as int
            },
            forall|r: int|
                0 <= r < final(self).lengths().len() ==> #[trigger] final(self).lengths()[r]
                    == (if start_row <= r {
                    Self::spec_actual_line_len(old(self).text_bytes(), r)
                } else if r < old(self).lengths().len() {
                    old(self).lengths()[r] as int
                } else {
                    0
                }),
    {
        while self.line_lengths.len() > start_row
            invariant
                self.wf(),
                self.text == old(self).text,
                self.spec_version() == old(self).spec_version(),
                self.lengths().len() <= old(self).lengths().len(),
                forall|r: int|
                    0 <= r < self.lengths().len() ==> #[trigger] self.lengths()[r] == old(
                        self,
                    ).lengths()[r],
                self.lengths().len() >= if old(self).lengths().len() < start_row {
                    old(self).lengths().len() as int
                } else {
                    start_row as int
                },
            decreases self.lengths().len(),
        {
            let last = self.line_lengths.len() - 1;
            let len_val = self.line_lengths[last];
            assert(index_has(self.index(), (len_val, last)));
            let ghost mid = *self;
            index_remove(&mut self.length_index, (len_val, last));
            self.line_lengths.pop();
            proof {
                self.lemma_reestablish_pop(mid, len_val, last);
            }
        }
        let lc = self.line_count();
        if start_row < lc {
            self.update_line_lengths_range(start_row, lc - 1);
        }
    }

    /// After dropping the last recorded row from both structures, they agree
    /// again.
    proof fn lemma_reestablish_pop(self, prev: Buffer, val: usize, at: usize)
        requires
            index_sorted(self.index()),
            prev.index_consistent(),
            at + 1 == prev.lengths().len(),
            prev.lengths()[at as int] == val,
            self.lengths().len() == at,
            forall|r: int| 0 <= r < at ==> #[trigger] self.lengths()[r] == prev.lengths()[r],
            self.index().len() + 1 == prev.index().len(),
            forall|x: (usize, usize)|
                index_has(self.index(), x) <==> (index_has(prev.index(), x) && x != (val, at)),
        ensures
            self.index_consistent(),
    {
        assert forall|r: int|
            0 <= r < self.lengths().len() implies index_has(
            self.index(),
            (#[trigger] self.lengths()[r], r as usize),
        ) by {
            assert(self.lengths()[r] == prev.lengths()[r]);
            assert(index_has(prev.index(), (prev.lengths()[r], r as usize)));
            assert((prev.lengths()[r], r as usize) != (val, at));
        }
        assert forall|k: int|
            0 <= k < self.index().len() implies (#[trigger] self.index()[k]).1
                < self.lengths().len() && self.lengths()[self.index()[k].1 as int]
                == self.index()[k].0 by {
            let x = self.index()[k];
            assert(index_has(self.index(), x));
            assert(index_has(prev.index(), x));
            let k0 = choose|k0: int| 0 <= k0 < prev.index().len() && prev.index()[k0] == x;
            assert(prev.lengths()[x.1 as int] == x.0);
            assert(x.1 != at);
        }
    }

    /// A buffer holding the given text: the rope takes the text over and the
    /// cached structures are built from it, one entry per row.
    pub fn from(text: String) -> (b: Buffer)
        ensures
            b.wf(),
            b.text_bytes() == encode_utf8(text@),
            b.lengths().len() == b.spec_line_count(),
            forall|r: int|
                0 <= r < b.lengths().len() ==> #[trigger] b.lengths()[r]
                    == Self::spec_actual_line_len(b.text_bytes(), r),
            b.lengths_accurate(),
            b.spec_version() <= u32::MAX as usize,
            b.spec_version() < usize::MAX,
    {
        let version = Self::fresh_version();
        let rope = rope_from(text.as_str());
        proof {
            encode_utf8_valid_utf8(text@);
        }
        let mut b = Buffer {
            text: rope,
            version,
            line_lengths: Vec::new(),
            length_index: Vec::new(),
        };
        b.rebuild_line_lengths_from(0);
        proof {
            assert forall|r: int|
                0 <= r < num_lines(b.text_bytes()) implies #[trigger] b.spec_line_len(r)
                == Self::spec_actual_line_len(b.text_bytes(), r) by {
                assert(b.lengths()[r] == Self::spec_actual_line_len(b.text_bytes(), r));
            }
        }
        b
    }

    /// The whole document as one string.
    pub fn to_string(&self) -> (out: String)
        requires
            self.wf(),
        ensures
            out@ == decode_utf8(self.text_bytes()),
            encode_utf8(out@) == self.text_bytes(),
    {
        rope_to_string(&self.text)
    }

    /// Linear byte offset of a (row, column) position: the row's start offset
    /// plus the column; zero for an empty document, whatever the position.
    pub fn row_column_to_idx(&self, row: usize, column: usize) -> (idx: usize)
        requires
            self.text_bytes().len() > 0 ==> row as nat <= num_lines(self.text_bytes())
                && line_start(self.text_bytes(), row as nat) + column <= usize::MAX,
        ensures
            idx == spec_row_column_to_idx(self.text_bytes(), row as int, column as int),
    {
        if rope_byte_len(&self.text) == 0 {
            return 0;
        }
        let start = rope_byte_of_line(&self.text, row);
        start + column
    }

    /// Byte offset at which the given row starts; zero for an empty document.
    pub fn byte_of_line(&self, row: usize) -> (idx: usize)
        requires
            self.text_bytes().len() > 0 ==> row as nat <= num_lines(self.text_bytes()),
        ensures
            idx == if self.text_bytes().len() == 0 {
                0int
            } else {
                line_start(self.text_bytes(), row as nat)
            },
    {
        if rope_byte_len(&self.text) == 0 {
            return 0;
        }
        rope_byte_of_line(&self.text, row)
    }

    /// The (row, column) position of a linear byte offset: the row holding
    /// the offset, and the distance to that row's start; (0, 0) for an empty
    /// document.
    pub fn idx_to_row_column(&self, idx: usize) -> (rc: (usize, usize))
        requires
            self.text_bytes().len() > 0 ==> idx as nat <= self.text_bytes().len(),
        ensures
            rc.0 == spec_idx_to_row_column(self.text_bytes(), idx as int).0,
            rc.1 == spec_idx_to_row_column(self.text_bytes(), idx as int).1,
    {
        if rope_byte_len(&self.text) == 0 {
            return (0, 0);
        }
        let ghost s = self.text_bytes();
        let row = rope_line_of_byte(&self.text, idx);
        proof {
            lemma_offset_within_line(s, idx as int);
            lemma_count_nl_take_full(s, idx as int);
        }
        let start = rope_byte_of_line(&self.text, row);
        (row, idx - start)
    }


    /// Inserts text at a (row, column) position. Returns the caret position
    /// just after the inserted text; the version counter moves up by one, and
    /// the cached lengths of the rows the insertion touched are recomputed.
    pub fn insert(&mut self, row: usize, column: usize, text: String) -> (pos: (usize, usize))
        requires
            old(self).wf(),
            old(self).spec_version() < usize::MAX,
            old(self).text_bytes().len() + encode_utf8(text@).len() < usize::MAX,
            old(self).text_bytes().len() > 0 ==> row as nat <= num_lines(old(self).text_bytes()),
            spec_row_column_to_idx(old(self).text_bytes(), row as int, column as int) <= old(
                self,
            ).text_bytes().len(),
            is_char_boundary(
                old(self).text_bytes(),
                spec_row_column_to_idx(old(self).text_bytes(), row as int, column as int),
            ),
        ensures
            final(self).wf(),
            final(self).text_bytes() == old(self).text_bytes().take(
                spec_row_column_to_idx(old(self).text_bytes(), row as int, column as int),
            ) + encode_utf8(text@) + old(self).text_bytes().skip(
                spec_row_column_to_idx(old(self).text_bytes(), row as int, column as int),
            ),
            final(self).spec_version() == old(self).spec_version() + 1,
            pos.0 == spec_idx_to_row_column(
                final(self).text_bytes(),
                spec_row_column_to_idx(old(self).text_bytes(), row as int, column as int)
                    + encode_utf8(text@).len(),
            ).0,
            pos.1 == spec_idx_to_row_column(
                final(self).text_bytes(),
                spec_row_column_to_idx(old(self).text_bytes(), row as int, column as int)
                    + encode_utf8(text@).len(),
            ).1,
            final(self).lengths().len() == if row <= pos.0 && pos.0 + 1 > old(
                self,
            ).lengths().len() {
                pos.0 + 1
            } else {
                old(self).lengths().len() as int
            },
            forall|r: int|
                0 <= r < final(self).lengths().len() ==> #[trigger] final(self).lengths()[r]
                    == (if row <= r <= pos.0 {
                    Self::spec_actual_line_len(final(self).text_bytes(), r)
                } else if r < old(self).lengths().len() {
                    old(self).lengths()[r] as int
                } else {
                    0
                }),
            (old(self).lengths_accurate() && count_nl(encode_utf8(text@)) == 0 && row as nat
                == line_of(
                old(self).text_bytes(),
                spec_row_column_to_idx(old(self).text_bytes(), row as int, column as int),
            )) ==> final(self).lengths_accurate(),
    {
        let ghost s = old(self).text_bytes();
        let ghost p = spec_row_column_to_idx(s, row as int, column as int);
        let char_idx = self.row_column_to_idx(row, column);
        rope_insert(&mut self.text, char_idx, text.as_str());
        proof {
            let ghost s2 = self.text_bytes();
            valid_utf8_split(s, p);
            encode_utf8_valid_utf8(text@);
            valid_utf8_concat(s.take(p), encode_utf8(text@));
            valid_utf8_concat(s.take(p) + encode_utf8(text@), s.skip(p));
            assert(s2 =~= (s.take(p) + encode_utf8(text@)) + s.skip(p));
        }
        self.version = self.version + 1;
        let new_idx = char_idx + text.as_str().len();
        let rc = self.idx_to_row_column(new_idx);
        self.update_line_lengths_range(row, rc.0);
        proof {
            let m = encode_utf8(text@);
            let s2 = self.text_bytes();
            if old(self).lengths_accurate() && count_nl(m) == 0 && row as nat == line_of(s, p) {
                assert(s2.take(p + m.len()) =~= s.take(p) + m);
                lemma_count_nl_append(s.take(p), m);
                assert(rc.0 == row);
                assert forall|r: int|
                    0 <= r < num_lines(s2) implies #[trigger] self.spec_line_len(r)
                    == Self::spec_actual_line_len(s2, r) by {
                    if r != row {
                        if r < row {
                            assert(s2.take(p) =~= s.take(p));
                            lemma_prefix_rows_stable(s, s2, p, r as nat);
                        } else {
                            assert(s.subrange(p, p) =~= Seq::<u8>::empty());
                            lemma_replace_suffix_row(s, p, p, m, r as nat);
                        }
                        assert(self.spec_line_len(r) == old(self).spec_line_len(r));
                    }
                }
            }
        }
        rc
    }

    /// Deletes the single byte just before a (row, column) position. At the
    /// very start of the document nothing is deleted and the position comes
    /// back unchanged; otherwise the version counter moves up by one, the
    /// caret position of the deletion point comes back, and the cached
    /// lengths of the touched rows are recomputed.
    pub fn remove_char(&mut self, row: usize, column: usize) -> (pos: (usize, usize))
        requires
            old(self).wf(),
            old(self).text_bytes().len() > 0 ==> row as nat <= num_lines(old(self).text_bytes())
                && line_start(old(self).text_bytes(), row as nat) + column <= usize::MAX,
            spec_row_column_to_idx(old(self).text_bytes(), row as int, column as int) > 0 ==> {
                &&& old(self).spec_version() < usize::MAX
                &&& spec_row_column_to_idx(old(self).text_bytes(), row as int, column as int)
                    <= old(self).text_bytes().len()
                &&& is_char_boundary(
                    old(self).text_bytes(),
                    spec_row_column_to_idx(old(self).text_bytes(), row as int, column as int),
                )
                &&& is_char_boundary(
                    old(self).text_bytes(),
                    spec_row_column_to_idx(old(self).text_bytes(), row as int, column as int) - 1,
                )
            },
        ensures
            spec_row_column_to_idx(old(self).text_bytes(), row as int, column as int) == 0
                ==> *final(self) == *old(self) && pos == (row, column),
            spec_row_column_to_idx(old(self).text_bytes(), row as int, column as int) > 0 ==> {
                let p = spec_row_column_to_idx(old(self).text_bytes(), row as int, column as int);
                &&& final(self).wf()
                &&& final(self).text_bytes() == old(self).text_bytes().take(p - 1) + old(
                    self,
                ).text_bytes().skip(p)
                &&& final(self).spec_version() == old(self).spec_version() + 1
                &&& pos.0 == spec_idx_to_row_column(final(self).text_bytes(), p - 1).0
                &&& pos.1 == spec_idx_to_row_column(final(self).text_bytes(), p - 1).1
                &&& final(self).lengths().len() == if (if pos.0 > row {
                    pos.0 + 1
                } else {
                    row + 1
                }) > old(self).lengths().len() {
                    (if pos.0 > row {
                        pos.0 + 1
                    } else {
                        row + 1
                    })
                } else {
                    old(self).lengths().len() as int
                }
                &&& forall|r: int|
                    0 <= r < final(self).lengths().len() ==> #[trigger] final(self).lengths()[r]
                        == (if (if pos.0 < row {
                        pos.0 as int
                    } else {
                        row as int
                    }) <= r <= (if pos.0 > row {
                        pos.0 as int
                    } else {
                        row as int
                    }) {
                        Self::spec_actual_line_len(final(self).text_bytes(), r)
                    } else if r < old(self).lengths().len() {
                        old(self).lengths()[r] as int
                    } else {
                        0
                    })
            },
            (old(self).lengths_accurate() && spec_row_column_to_idx(
                old(self).text_bytes(),
                row as int,
                column as int,
            ) > 0 && !is_nl(
                old(self).text_bytes()[spec_row_column_to_idx(
                    old(self).text_bytes(),
                    row as int,
                    column as int,
                ) - 1],
            ) && row as nat == line_of(
                old(self).text_bytes(),
                spec_row_column_to_idx(old(self).text_bytes(), row as int, column as int),
            )) ==> final(self).lengths_accurate(),
    {
        let ghost s = old(self).text_bytes();
        let ghost p = spec_row_column_to_idx(s, row as int, column as int);
        let char_idx = self.row_column_to_idx(row, column);
        if char_idx == 0 {
            return (row, column);
        }
        rope_delete(&mut self.text, char_idx - 1, char_idx);
        proof {
            valid_utf8_split(s, p - 1);
            valid_utf8_split(s, p);
            assert(s.skip(p) =~= s.subrange(p, s.len() as int));
            assert(s.take(p - 1) =~= s.subrange(0, p - 1));
            valid_utf8_concat(s.take(p - 1), s.skip(p));
            assert(self.text_bytes() =~= s.take(p - 1) + s.skip(p));
        }
        self.version = self.version + 1;
        let new_idx = char_idx - 1;
        let rc = self.idx_to_row_column(new_idx);
        let lo = if rc.0 < row {
            rc.0
        } else {
            row
        };
        let hi = if rc.0 > row {
            rc.0
        } else {
            row
        };
        self.update_line_lengths_range(lo, hi);
        proof {
            let s2 = self.text_bytes();
            if old(self).lengths_accurate() && !is_nl(s[p - 1]) && row as nat == line_of(s, p) {
                assert(s.subrange(p - 1, p) =~= seq![s[p - 1]]);
                lemma_count_nl_singleton(s[p - 1]);
                assert(count_nl(s.subrange(p - 1, p)) == 0);
                assert(s.take(p) =~= s.take(p - 1) + s.subrange(p - 1, p));
                lemma_count_nl_append(s.take(p - 1), s.subrange(p - 1, p));
                assert(line_of(s, p - 1) == row);
                assert(s2.take(p - 1) =~= s.take(p - 1));
                assert(rc.0 == row);
                assert(lo == row && hi == row);
                assert forall|r: int|
                    0 <= r < num_lines(s2) implies #[trigger] self.spec_line_len(r)
                    == Self::spec_actual_line_len(s2, r) by {
                    if r != row {
                        if r < row {
                            lemma_prefix_rows_stable(s, s2, p - 1, r as nat);
                        } else {
                            lemma_replace_suffix_row(
                                s,
                                p - 1,
                                p,
                                Seq::<u8>::empty(),
                                r as nat,
                            );
                            assert(s.take(p - 1) + Seq::<u8>::empty() + s.skip(p) =~= s2);
                        }
                        assert(self.spec_line_len(r) == old(self).spec_line_len(r));
                    }
                }
            }
        }
        rc
    }

    /// Deletes the span between two (row, column) positions. When the range
    /// runs from the first row through the last one — or the document is
    /// already empty — the entire document is deleted, whatever the start
    /// and end columns say, and the cached structures reset to the single
    /// empty row. Otherwise the resolved span is deleted and the cached tail
    /// is rebuilt from the start row on. The version counter always moves up
    /// by one, and the start position comes back as the caret.
    pub fn remove_range(
        &mut self,
        start_row: usize,
        start_column: usize,
        end_row: usize,
        end_column: usize,
    ) -> (pos: (usize, usize))
        requires
            old(self).wf(),
            old(self).spec_version() < usize::MAX,
            old(self).text_bytes().len() < usize::MAX,
            old(self).text_bytes().len() > 0 ==> end_row as nat <= num_lines(
                old(self).text_bytes(),
            ),
            !spec_should_clear(old(self).text_bytes(), start_row as int, end_row as int) ==> {
                &&& start_row as nat <= num_lines(old(self).text_bytes())
                &&& line_start(old(self).text_bytes(), start_row as nat) + start_column
                    <= usize::MAX
                &&& line_start(old(self).text_bytes(), end_row as nat) + end_column <= usize::MAX
                &&& spec_row_column_to_idx(
                    old(self).text_bytes(),
                    start_row as int,
                    start_column as int,
                ) <= spec_row_column_to_idx(
                    old(self).text_bytes(),
                    end_row as int,
                    end_column as int,
                ) <= old(self).text_bytes().len()
                &&& is_char_boundary(
                    old(self).text_bytes(),
                    spec_row_column_to_idx(
                        old(self).text_bytes(),
                        start_row as int,
                        start_column as int,
                    ),
                )
                &&& is_char_boundary(
                    old(self).text_bytes(),
                    spec_row_column_to_idx(
                        old(self).text_bytes(),
                        end_row as int,
                        end_column as int,
                    ),
                )
            },
        ensures
            pos == (start_row, start_column),
            final(self).spec_version() == old(self).spec_version() + 1,
            final(self).wf(),
            spec_should_clear(old(self).text_bytes(), start_row as int, end_row as int) ==> {
                &&& final(self).text_bytes() == Seq::<u8>::empty()
                &&& final(self).lengths() == seq![0usize]
                &&& final(self).spec_line_count() == 1
                &&& final(self).lengths_accurate()
            },
            !spec_should_clear(old(self).text_bytes(), start_row as int, end_row as int) ==> {
                let a = spec_row_column_to_idx(
                    old(self).text_bytes(),
                    start_row as int,
                    start_column as int,
                );
                let b = spec_row_column_to_idx(
                    old(self).text_bytes(),
                    end_row as int,
                    end_column as int,
                );
                &&& final(self).text_bytes() == old(self).text_bytes().take(a) + old(
                    self,
                ).text_bytes().skip(b)
                &&& final(self).lengths().len() == if start_row
                    < final(self).spec_line_count() {
                    final(self).spec_line_count() as int
                } else if old(self).lengths().len() < start_row {
                    old(self).lengths().len() as int
                } else {
                    start_row as int
                }
                &&& forall|r: int|
                    0 <= r < final(self).lengths().len() ==> #[trigger] final(self).lengths()[r]
                        == (if start_row <= r {
                        Self::spec_actual_line_len(final(self).text_bytes(), r)
                    } else if r < old(self).lengths().len() {
                        old(self).lengths()[r] as int
                    } else {
                        0
                    })
            },
            (!spec_should_clear(old(self).text_bytes(), start_row as int, end_row as int) && old(
                self,
            ).lengths_accurate()) ==> final(self).lengths_accurate(),
    {
        let ghost s = old(self).text_bytes();
        proof {
            lemma_num_lines_le_len(s);
        }
        let should_clear = rope_byte_len(&self.text) == 0 || (start_row == 0 && end_row + 1
            == self.line_count());
        assert(should_clear == spec_should_clear(s, start_row as int, end_row as int));
        if should_clear {
            // the entire document goes, whatever offsets the arguments resolve to
            let whole = rope_byte_len(&self.text);
            proof {
                is_char_boundary_start_end_of_seq(s);
            }
            rope_delete(&mut self.text, 0, whole);
            self.version = self.version + 1;
            self.line_lengths = Vec::new();
            self.length_index = Vec::new();
            self.line_lengths.push(0);
            self.length_index.push((0, 0));
            proof {
                assert(self.text_bytes() =~= Seq::<u8>::empty());
                assert(self.lengths() =~= seq![0usize]);
                assert(self.index() =~= seq![(0usize, 0usize)]);
                assert(index_has(self.index(), (0usize, 0usize))) by {
                    assert(self.index()[0] == (0usize, 0usize));
                }
            }
        } else {
            let start_idx = self.row_column_to_idx(start_row, start_column);
            let end_idx = self.row_column_to_idx(end_row, end_column);
            rope_delete(&mut self.text, start_idx, end_idx);
            proof {
                valid_utf8_split(s, end_idx as int);
                valid_utf8_split(s, start_idx as int);
                assert(s.skip(end_idx as int) =~= s.subrange(end_idx as int, s.len() as int));
                assert(s.take(start_idx as int) =~= s.subrange(0, start_idx as int));
                valid_utf8_concat(s.take(start_idx as int), s.skip(end_idx as int));
            }
            self.version = self.version + 1;
            let ghost a = start_idx as int;
            let ghost b = end_idx as int;
            self.rebuild_line_lengths_from(start_row);
            proof {
                let s2 = self.text_bytes();
                if old(self).lengths_accurate() {
                    assert forall|r: int|
                        0 <= r < num_lines(s2) implies #[trigger] self.spec_line_len(r)
                        == Self::spec_actual_line_len(s2, r) by {
                        if r >= start_row {
                            assert(num_lines(s2) <= self.spec_line_count());
                        } else {
                            if start_row as nat <= count_nl(s) {
                                lemma_line_of_line_start(s, start_row as nat);
                                if start_row > 0 {
                                    lemma_nl_pos_props(s, (start_row - 1) as nat);
                                }
                                lemma_count_nl_take_le(s, line_start(s, start_row as nat), a);
                                assert(r < count_nl(s.take(a)));
                                assert(s2.take(a) =~= s.take(a));
                                lemma_prefix_rows_stable(s, s2, a, r as nat);
                            } else {
                                // the start row lies just past the last line feed, so the
                                // start offset is the document length and nothing was cut
                                assert(a == s.len());
                                assert(b == s.len());
                                assert(s2 =~= s);
                            }
                            assert(self.spec_line_len(r) == old(self).spec_line_len(r));
                        }
                    }
                }
            }
        }
        (start_row, start_column)
    }

    /// The document's line count plus one virtual empty row when the last
    /// byte is a line feed.
    pub fn line_count_with_trailing_newline(&self) -> (n: usize)
        requires
            self.text_bytes().len() < usize::MAX,
        ensures
            n == num_lines(self.text_bytes()) + (if self.text_bytes().len() > 0 && is_nl(
                self.text_bytes().last(),
            ) {
                1int
            } else {
                0
            }),
    {
        let bl = rope_byte_len(&self.text);
        let n = rope_line_len(&self.text);
        if bl != 0 && rope_byte_at(&self.text, bl - 1) == 10 {
            proof {
                lemma_count_nl_le_len(self.text_bytes());
            }
            n + 1
        } else {
            n
        }
    }

    /// The text between two (row, column) positions, read as one contiguous
    /// slice of the document; empty for an empty document.
    pub fn text_in_range(
        &self,
        start_row: usize,
        start_column: usize,
        end_row: usize,
        end_column: usize,
    ) -> (out: String)
        requires
            self.wf(),
            self.text_bytes().len() > 0 ==> start_row as nat <= num_lines(self.text_bytes())
                && end_row as nat <= num_lines(self.text_bytes()) && line_start(
                self.text_bytes(),
                start_row as nat,
            ) + start_column <= usize::MAX && line_start(self.text_bytes(), end_row as nat)
                + end_column <= usize::MAX && spec_row_column_to_idx(
                self.text_bytes(),
                start_row as int,
                start_column as int,
            ) <= spec_row_column_to_idx(self.text_bytes(), end_row as int, end_column as int)
                <= self.text_bytes().len() && is_char_boundary(
                self.text_bytes(),
                spec_row_column_to_idx(self.text_bytes(), start_row as int, start_column as int),
            ) && is_char_boundary(
                self.text_bytes(),
                spec_row_column_to_idx(self.text_bytes(), end_row as int, end_column as int),
            ),
        ensures
            self.text_bytes().len() == 0 ==> out@ == Seq::<char>::empty(),
            self.text_bytes().len() > 0 ==> out@ == decode_utf8(
                self.text_bytes().subrange(
                    spec_row_column_to_idx(
                        self.text_bytes(),
                        start_row as int,
                        start_column as int,
                    ),
                    spec_row_column_to_idx(self.text_bytes(), end_row as int, end_column as int),
                ),
            ) && encode_utf8(out@) == self.text_bytes().subrange(
                spec_row_column_to_idx(self.text_bytes(), start_row as int, start_column as int),
                spec_row_column_to_idx(self.text_bytes(), end_row as int, end_column as int),
            ),
    {
        if rope_byte_len(&self.text) == 0 {
            return String::new();
        }
        let a = self.row_column_to_idx(start_row, start_column);
        let b = self.row_column_to_idx(end_row, end_column);
        rope_slice_to_string(&self.text, a, b)
    }


    /// One row's clipped piece of the per-row ranged read.
    fn row_clip(&self, row: usize, start_char_offset: usize, end_char_offset: usize) -> (out:
        String)
        requires
            self.wf(),
            (row as nat) < num_lines(self.text_bytes()),
            spec_row_clip_ok(
                self.text_bytes(),
                row as nat,
                start_char_offset as int,
                end_char_offset as int,
            ),
        ensures
            out@ == spec_row_clip(
                self.text_bytes(),
                row as nat,
                start_char_offset as int,
                end_char_offset as int,
            ),
    {
        let ll = rope_line_byte_len(&self.text, row);
        if start_char_offset >= ll {
            return String::new();
        }
        let slice_end = if end_char_offset < ll {
            end_char_offset
        } else {
            ll
        };
        if start_char_offset < slice_end {
            rope_line_slice_to_string(&self.text, row, start_char_offset, slice_end)
        } else {
            String::new()
        }
    }

    /// The text between two rows read row by row: each row's byte range
    /// [start_char_offset, end_char_offset) is clipped against that row's own
    /// length, and the pieces are joined by single line feeds — unlike
    /// text_in_range, which takes one contiguous slice of the document.
    pub fn text_in_range_char_offset(
        &self,
        start_row: usize,
        end_row: usize,
        start_char_offset: usize,
        end_char_offset: usize,
    ) -> (out: String)
        requires
            self.wf(),
            self.text_bytes().len() > 0 && start_row < end_row ==> end_row as nat <= num_lines(
                self.text_bytes(),
            ) && (forall|r: nat|
                start_row <= r < end_row ==> #[trigger] spec_row_clip_ok(
                    self.text_bytes(),
                    r,
                    start_char_offset as int,
                    end_char_offset as int,
                )),
        ensures
            out@ == if self.text_bytes().len() == 0 || start_row >= end_row {
                Seq::<char>::empty()
            } else {
                spec_char_range_text(
                    self.text_bytes(),
                    start_row as nat,
                    end_row as nat,
                    start_char_offset as int,
                    end_char_offset as int,
                )
            },
    {
        if rope_byte_len(&self.text) == 0 || start_row >= end_row {
            return String::new();
        }
        let ghost s = self.text_bytes();
        let ghost so = start_char_offset as int;
        let ghost eo = end_char_offset as int;
        assert(spec_row_clip_ok(s, start_row as nat, so, eo));
        let mut out = self.row_clip(start_row, start_char_offset, end_char_offset);
        let mut row = start_row + 1;
        while row < end_row
            invariant
                self.wf(),
                s == self.text_bytes(),
                so == start_char_offset as int,
                eo == end_char_offset as int,
                s.len() > 0,
                start_row < row <= end_row,
                end_row as nat <= num_lines(s),
                forall|r: nat|
                    start_row <= r < end_row ==> #[trigger] spec_row_clip_ok(s, r, so, eo),
                out@ == spec_char_range_text(s, start_row as nat, row as nat, so, eo),
            decreases end_row - row,
        {
            out.append("\n");
            proof {
                reveal_strlit("\n");
                assert(("\n")@ =~= seq!['\n']);
            }
            assert(spec_row_clip_ok(s, row as nat, so, eo));
            let part = self.row_clip(row, start_char_offset, end_char_offset);
            out.append(part.as_str());
            proof {
                lemma_char_range_snoc(s, start_row as nat, row as nat, so, eo);
                assert(out@ =~= spec_char_range_text(s, start_row as nat, (row + 1) as nat, so, eo));
            }
            row = row + 1;
        }
        out
    }

    /// After swapping one row's pair in the index and its recorded length,
    /// the two structures agree again.
    proof fn lemma_reestablish(
        self,
        prev: Buffer,
        row: usize,
        old_length: usize,
        new_length: usize,
    )
        requires
            index_sorted(self.index()),
            prev.index_consistent(),
            prev.lengths().len() <= usize::MAX,
            row < prev.lengths().len(),
            prev.lengths()[row as int] == old_length,
            self.lengths() == prev.lengths().update(row as int, new_length),
            self.index().len() == prev.index().len(),
            forall|x: (usize, usize)|
                index_has(self.index(), x) <==> ((index_has(prev.index(), x) && x != (
                old_length,
                row,
                )) || x == (new_length, row)),
        ensures
            self.index_consistent(),
    {
        assert forall|r: int|
            0 <= r < self.lengths().len() implies index_has(
            self.index(),
            (#[trigger] self.lengths()[r], r as usize),
        ) by {
            if r == row {
            } else {
                assert(index_has(prev.index(), (prev.lengths()[r], r as usize)));
                assert((prev.lengths()[r], r as usize) != (old_length, row));
            }
        }
        assert forall|k: int|
            0 <= k < self.index().len() implies (#[trigger] self.index()[k]).1
                < self.lengths().len() && self.lengths()[self.index()[k].1 as int]
                == self.index()[k].0 by {
            let x = self.index()[k];
            assert(index_has(self.index(), x));
            if x == (new_length, row) {
            } else {
                assert(index_has(prev.index(), x) && x != (old_length, row));
                let k0 = choose|k0: int|
                    0 <= k0 < prev.index().len() && prev.index()[k0] == x;
                assert(prev.lengths()[x.1 as int] == x.0);
                assert(x.1 != row);
            }
        }
    }
    /// After appending a fresh row to both structures, they agree again.
    proof fn lemma_reestablish_append(self, prev: Buffer, val: usize, at: usize)
        requires
            index_sorted(self.index()),
            prev.index_consistent(),
            at == prev.lengths().len(),
            self.lengths() == prev.lengths().push(val),
            self.index().len() == prev.index().len() + 1,
            forall|x: (usize, usize)|
                index_has(self.index(), x) <==> (index_has(prev.index(), x) || x == (val, at)),
        ensures
            self.index_consistent(),
    {
        assert forall|r: int|
            0 <= r < self.lengths().len() implies index_has(
            self.index(),
            (#[trigger] self.lengths()[r], r as usize),
        ) by {
            if r < at {
                assert(self.lengths()[r] == prev.lengths()[r]);
                assert(index_has(prev.index(), (prev.lengths()[r], r as usize)));
            } else {
                assert(self.lengths()[r] == val);
            }
        }
        assert forall|k: int|
            0 <= k < self.index().len() implies (#[trigger] self.index()[k]).1
                < self.lengths().len() && self.lengths()[self.index()[k].1 as int]
                == self.index()[k].0 by {
            let x = self.index()[k];
            assert(index_has(self.index(), x));
            if x == (val, at) {
            } else {
                assert(index_has(prev.index(), x));
                let k0 = choose|k0: int|
                    0 <= k0 < prev.index().len() && prev.index()[k0] == x;
                assert(prev.lengths()[x.1 as int] == x.0);
            }
        }
    }
}

} // verus!
