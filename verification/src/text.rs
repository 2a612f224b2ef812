use vstd::prelude::*;

verus! {

// The document is modelled as a sequence of bytes; rows are the maximal
// stretches between line-feed bytes. All spec functions here speak of that
// byte sequence alone.

/// The line-feed byte, the one line terminator of the model.
pub open spec fn is_nl(b: u8) -> bool {
    b == 10u8
}

/// Number of line-feed bytes in `s`.
pub open spec fn count_nl(s: Seq<u8>) -> nat
    decreases s.len(),
{
    if s.len() == 0 {
        0
    } else {
        (if is_nl(s[0]) {
            1nat
        } else {
            0nat
        }) + count_nl(s.drop_first())
    }
}

/// Byte position of the `k`-th line feed of `s` (0-based).
pub open spec fn nl_pos(s: Seq<u8>, k: nat) -> int
    recommends
        k < count_nl(s),
    decreases s.len(),
{
    if s.len() == 0 {
        0
    } else if is_nl(s[0]) {
        if k == 0 {
            0
        } else {
            1 + nl_pos(s.drop_first(), (k - 1) as nat)
        }
    } else {
        1 + nl_pos(s.drop_first(), k)
    }
}

/// Number of rows of `s`: one more than the number of line feeds, except that
/// a final line feed closes the last row instead of opening a new one, and an
/// empty document has no rows.
pub open spec fn num_lines(s: Seq<u8>) -> nat {
    if s.len() == 0 {
        0
    } else if is_nl(s.last()) {
        count_nl(s)
    } else {
        count_nl(s) + 1
    }
}

/// Byte offset at which row `r` starts; the document length when `r` lies
/// just past the last row.
pub open spec fn line_start(s: Seq<u8>, r: nat) -> int {
    if r == 0 {
        0
    } else if r <= count_nl(s) {
        nl_pos(s, (r - 1) as nat) + 1
    } else {
        s.len() as int
    }
}

/// Byte offset at which the content of row `r` ends: the position of the
/// row's line feed, or the document length for an unterminated last row.
pub open spec fn line_raw_end(s: Seq<u8>, r: nat) -> int {
    if r < count_nl(s) {
        nl_pos(s, r)
    } else {
        s.len() as int
    }
}

/// The row containing byte offset `i`: the number of line feeds before it.
pub open spec fn line_of(s: Seq<u8>, i: int) -> nat {
    count_nl(s.take(i))
}

/// Byte offset at which the content of row `r` ends once its line terminator
/// is stripped: a terminating line feed is excluded, and so is a carriage
/// return directly before it.
pub open spec fn line_content_end(s: Seq<u8>, r: nat) -> int {
    let e = line_raw_end(s, r);
    if r < count_nl(s) && e - 1 >= line_start(s, r) && s[e - 1] == 13u8 {
        e - 1
    } else {
        e
    }
}

/// Length in bytes of the content of row `r`, its line terminator excluded.
pub open spec fn line_content_len(s: Seq<u8>, r: nat) -> int {
    line_content_end(s, r) - line_start(s, r)
}

/// The content bytes of row `r`, its line terminator excluded.
pub open spec fn line_content(s: Seq<u8>, r: nat) -> Seq<u8> {
    s.subrange(line_start(s, r), line_content_end(s, r))
}

/// A one-byte sequence holds one line feed exactly when that byte is one.
pub proof fn lemma_count_nl_singleton(b: u8)
    ensures
        count_nl(seq![b]) == if is_nl(b) {
            1nat
        } else {
            0nat
        },
{
    assert(seq![b].drop_first() =~= Seq::<u8>::empty());
    assert(count_nl(Seq::<u8>::empty()) == 0);
}

/// Counting line feeds distributes over concatenation.
pub proof fn lemma_count_nl_append(a: Seq<u8>, b: Seq<u8>)
    ensures
        count_nl(a + b) == count_nl(a) + count_nl(b),
    decreases a.len(),
{
    if a.len() == 0 {
        assert(a + b =~= b);
    } else {
        assert((a + b).drop_first() =~= a.drop_first() + b);
        lemma_count_nl_append(a.drop_first(), b);
    }
}

/// There are never more line feeds than bytes.
pub proof fn lemma_count_nl_le_len(s: Seq<u8>)
    ensures
        count_nl(s) <= s.len(),
    decreases s.len(),
{
    if s.len() > 0 {
        lemma_count_nl_le_len(s.drop_first());
    }
}

/// There are never more rows than bytes.
pub proof fn lemma_num_lines_le_len(s: Seq<u8>)
    ensures
        num_lines(s) <= s.len(),
{
    lemma_count_nl_le_len(s);
    if s.len() > 0 && !is_nl(s.last()) {
        assert(s =~= s.drop_last() + seq![s.last()]);
        lemma_count_nl_append(s.drop_last(), seq![s.last()]);
        lemma_count_nl_singleton(s.last());
        lemma_count_nl_le_len(s.drop_last());
    }
}

/// A prefix holds no more line feeds than the whole.
pub proof fn lemma_count_nl_take_le(s: Seq<u8>, i: int, j: int)
    requires
        0 <= i <= j <= s.len(),
    ensures
        count_nl(s.take(i)) <= count_nl(s.take(j)),
{
    assert(s.take(j) =~= s.take(i) + s.subrange(i, j));
    lemma_count_nl_append(s.take(i), s.subrange(i, j));
}

/// The whole document holds at least as many line feeds as any prefix.
pub proof fn lemma_count_nl_take_full(s: Seq<u8>, i: int)
    requires
        0 <= i <= s.len(),
    ensures
        count_nl(s.take(i)) <= count_nl(s),
{
    assert(s.take(s.len() as int) =~= s);
    lemma_count_nl_take_le(s, i, s.len() as int);
}

/// The `k`-th line feed lies inside the document, is a line feed, and has
/// exactly `k` line feeds before it.
pub proof fn lemma_nl_pos_props(s: Seq<u8>, k: nat)
    requires
        k < count_nl(s),
    ensures
        0 <= nl_pos(s, k) < s.len(),
        is_nl(s[nl_pos(s, k)]),
        count_nl(s.take(nl_pos(s, k))) == k,
        count_nl(s.take(nl_pos(s, k) + 1)) == k + 1,
    decreases s.len(),
{
    if is_nl(s[0]) {
        if k == 0 {
            assert(s.take(0) =~= Seq::<u8>::empty());
            assert(s.take(1) =~= seq![s[0]]);
            lemma_count_nl_singleton(s[0]);
        } else {
            lemma_nl_pos_props(s.drop_first(), (k - 1) as nat);
            let p = nl_pos(s.drop_first(), (k - 1) as nat);
            assert(s.take(1 + p) =~= seq![s[0]] + s.drop_first().take(p));
            assert(s.take(1 + p + 1) =~= seq![s[0]] + s.drop_first().take(p + 1));
            lemma_count_nl_append(seq![s[0]], s.drop_first().take(p));
            lemma_count_nl_append(seq![s[0]], s.drop_first().take(p + 1));
            lemma_count_nl_singleton(s[0]);
        }
    } else {
        lemma_nl_pos_props(s.drop_first(), k);
        let p = nl_pos(s.drop_first(), k);
        assert(s.take(1 + p) =~= seq![s[0]] + s.drop_first().take(p));
        assert(s.take(1 + p + 1) =~= seq![s[0]] + s.drop_first().take(p + 1));
        lemma_count_nl_append(seq![s[0]], s.drop_first().take(p));
        lemma_count_nl_append(seq![s[0]], s.drop_first().take(p + 1));
        lemma_count_nl_singleton(s[0]);
    }
}

/// A line feed of the prefix of a concatenation keeps its position in the whole.
pub proof fn lemma_nl_pos_prefix(a: Seq<u8>, b: Seq<u8>, k: nat)
    requires
        k < count_nl(a),
    ensures
        nl_pos(a + b, k) == nl_pos(a, k),
    decreases a.len(),
{
    if a.len() == 0 {
    } else {
        assert((a + b).drop_first() =~= a.drop_first() + b);
        if is_nl(a[0]) {
            if k > 0 {
                lemma_nl_pos_prefix(a.drop_first(), b, (k - 1) as nat);
            }
        } else {
            lemma_nl_pos_prefix(a.drop_first(), b, k);
        }
    }
}

/// A line feed of the suffix of a concatenation is shifted by the prefix length.
pub proof fn lemma_nl_pos_suffix(a: Seq<u8>, b: Seq<u8>, k: nat)
    requires
        count_nl(a) <= k < count_nl(a) + count_nl(b),
    ensures
        nl_pos(a + b, k) == a.len() + nl_pos(b, (k - count_nl(a)) as nat),
    decreases a.len(),
{
    if a.len() == 0 {
        assert(a + b =~= b);
    } else {
        assert((a + b).drop_first() =~= a.drop_first() + b);
        if is_nl(a[0]) {
            lemma_nl_pos_suffix(a.drop_first(), b, (k - 1) as nat);
        } else {
            lemma_nl_pos_suffix(a.drop_first(), b, k);
        }
    }
}

/// An offset with `r` line feeds before it lies in row `r`: at or after the
/// row's start and at or before the row's content end.
pub proof fn lemma_offset_within_line(s: Seq<u8>, i: int)
    requires
        0 <= i <= s.len(),
    ensures
        line_start(s, line_of(s, i)) <= i,
        i <= line_raw_end(s, line_of(s, i)),
        line_of(s, i) <= count_nl(s),
    decreases s.len(),
{
    let r = line_of(s, i);
    lemma_count_nl_take_full(s, i);
    if r > 0 {
        // the (r-1)-th line feed lies strictly before i
        assert(s =~= s.take(i) + s.skip(i));
        lemma_nl_pos_prefix(s.take(i), s.skip(i), (r - 1) as nat);
        lemma_nl_pos_props(s.take(i), (r - 1) as nat);
        assert(s.take(i).take(nl_pos(s.take(i), (r - 1) as nat)) =~= s.take(
            nl_pos(s.take(i), (r - 1) as nat),
        ));
    }
    if r < count_nl(s) {
        // the r-th line feed lies at or after i
        lemma_nl_pos_props(s, r);
        if nl_pos(s, r) < i {
            lemma_count_nl_take_le(s, nl_pos(s, r) + 1, i);
        }
    }
}


/// A line feed counted inside a prefix keeps its position in the whole, and
/// lies inside that prefix.
pub proof fn lemma_nl_pos_within_prefix(s: Seq<u8>, a: int, k: nat)
    requires
        0 <= a <= s.len(),
        k < count_nl(s.take(a)),
    ensures
        k < count_nl(s),
        nl_pos(s, k) == nl_pos(s.take(a), k),
        0 <= nl_pos(s, k) < a,
{
    assert(s =~= s.take(a) + s.skip(a));
    lemma_count_nl_append(s.take(a), s.skip(a));
    lemma_nl_pos_prefix(s.take(a), s.skip(a), k);
    lemma_nl_pos_props(s.take(a), k);
}

/// Two documents with a common prefix agree on every row whose line feed
/// lies inside that prefix: the row exists in both and has the same content
/// length.
pub proof fn lemma_prefix_rows_stable(s: Seq<u8>, s2: Seq<u8>, a: int, r: nat)
    requires
        0 <= a <= s.len(),
        a <= s2.len(),
        s.take(a) == s2.take(a),
        r < count_nl(s.take(a)),
    ensures
        r < num_lines(s),
        r < num_lines(s2),
        line_content_len(s2, r) == line_content_len(s, r),
{
    lemma_nl_pos_within_prefix(s, a, r);
    lemma_nl_pos_within_prefix(s2, a, r);
    lemma_count_nl_take_full(s, a);
    lemma_count_nl_take_full(s2, a);
    if r > 0 {
        lemma_nl_pos_within_prefix(s, a, (r - 1) as nat);
        lemma_nl_pos_within_prefix(s2, a, (r - 1) as nat);
    }
    assert forall|i: int| 0 <= i < a implies s[i] == #[trigger] s2[i] by {
        assert(s.take(a)[i] == s[i]);
        assert(s2.take(a)[i] == s2[i]);
        assert(s.take(a)[i] == s2.take(a)[i]);
    }
    assert(line_start(s2, r) == line_start(s, r));
    assert(line_raw_end(s2, r) == line_raw_end(s, r));
}

/// Replacing a stretch of bytes that holds no line feed by another such
/// stretch leaves every later row in place: the row exists on both sides
/// and keeps its content length.
pub proof fn lemma_replace_suffix_row(s: Seq<u8>, aa: int, bb: int, m: Seq<u8>, r: nat)
    requires
        0 <= aa <= bb <= s.len(),
        count_nl(s.subrange(aa, bb)) == 0,
        count_nl(m) == 0,
        r > line_of(s, aa),
        r < num_lines(s.take(aa) + m + s.skip(bb)),
    ensures
        r < num_lines(s),
        line_content_len(s.take(aa) + m + s.skip(bb), r) == line_content_len(s, r),
{
    let s2 = s.take(aa) + m + s.skip(bb);
    let ca = count_nl(s.take(aa));
    let d = m.len() - (bb - aa);
    assert(s.take(bb) =~= s.take(aa) + s.subrange(aa, bb));
    lemma_count_nl_append(s.take(aa), s.subrange(aa, bb));
    assert(count_nl(s.take(bb)) == ca);
    assert(s =~= s.take(bb) + s.skip(bb));
    lemma_count_nl_append(s.take(bb), s.skip(bb));
    let cs = count_nl(s.skip(bb));
    assert(count_nl(s) == ca + cs);
    lemma_count_nl_append(s.take(aa), m);
    assert(count_nl(s.take(aa) + m) == ca);
    assert(s2 =~= (s.take(aa) + m) + s.skip(bb));
    lemma_count_nl_append(s.take(aa) + m, s.skip(bb));
    assert(count_nl(s2) == ca + cs);
    assert(r <= count_nl(s2));
    if bb == s.len() {
        assert(s.skip(bb) =~= Seq::<u8>::empty());
        assert(cs == 0);
        assert(num_lines(s2) <= ca + 1);
        assert(false);
    }
    // the last byte is shared, so both sides count their rows the same way
    assert(s2.len() == s.len() + d);
    assert(s2[s2.len() - 1] == s.skip(bb)[s.len() - bb - 1]);
    assert(s2[s2.len() - 1] == s[s.len() - 1]);
    assert(num_lines(s2) == num_lines(s));
    assert(r < num_lines(s));
    // every line feed from the shared suffix shifts by the replacement's drift
    assert forall|k: nat| ca <= k < ca + cs implies nl_pos(s2, k as nat) == nl_pos(s, k as nat)
        + d && nl_pos(s, k as nat) >= bb by {
        lemma_nl_pos_suffix(s.take(bb), s.skip(bb), k);
        lemma_nl_pos_suffix(s.take(aa) + m, s.skip(bb), k);
        lemma_nl_pos_props(s.skip(bb), (k - ca) as nat);
    }
    // bytes of the shared suffix
    assert forall|i: int| bb <= i < s.len() implies s2[i + d] == s[i] by {
        assert(s2[i + d] == s.skip(bb)[i - bb]);
    }
    assert(r >= 1);
    assert(line_start(s2, r) == line_start(s, r) + d);
    assert(line_raw_end(s2, r) == line_raw_end(s, r) + d);
    assert(nl_pos(s, (r - 1) as nat) >= bb);
    assert(line_start(s, r) >= bb + 1);
    if r < ca + cs {
        assert(line_raw_end(s, r) == nl_pos(s, r));
    }
    assert(line_content_end(s2, r) == line_content_end(s, r) + d) by {
        let e = line_raw_end(s, r);
        let ls = line_start(s, r);
        if r < ca + cs && e - 1 >= ls {
            lemma_nl_pos_props(s, r);
            assert(e < s.len());
            assert(e - 1 >= bb);
            assert((s.take(aa) + m).len() == aa + m.len());
            assert(s2[e - 1 + d] == s.skip(bb)[e - 1 + d - (aa + m.len())]);
            assert(s.skip(bb)[e - 1 - bb] == s[e - 1]);
        }
    }
}

/// The start offset of a row translates back to that row.
pub proof fn lemma_line_of_line_start(s: Seq<u8>, rr: nat)
    requires
        rr <= count_nl(s),
    ensures
        line_of(s, line_start(s, rr)) == rr,
{
    if rr == 0 {
        assert(s.take(0) =~= Seq::<u8>::empty());
    } else {
        lemma_nl_pos_props(s, (rr - 1) as nat);
    }
}

} // verus!
