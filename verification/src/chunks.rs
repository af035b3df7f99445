//! Chunk partitioning of an order's row space, and output-name formatting.
//!
//! An order's `total_rows` rows are split into consecutive chunks of
//! `chunk_size` rows, the last possibly narrower, so that the chunks cover
//! `[0, total_rows)` exactly, with no gap and no overlap.  Each chunk's
//! output file is named from the order, the chunk index and a declared
//! chunk-count label, both zero-padded to five digits.

use vstd::prelude::*;

verus! {

/// The number of chunks that cover `total` rows in steps of `size`: one
/// per started step.
pub open spec fn spec_num_chunks(total: int, size: int) -> int
    recommends
        size > 0,
{
    (total + size - 1) / size
}

/// The declared chunk-count label carried in output names:
/// `total / size + 1`.  A cosmetic value: one above the true chunk count
/// when `total` is an exact multiple of `size` (and for an empty row
/// space), equal to it otherwise.
pub open spec fn spec_chunk_label(total: int, size: int) -> int
    recommends
        size > 0,
{
    total / size + 1
}

/// The width of chunk `i`: `size`, narrowed to what remains of `total`.
pub open spec fn spec_chunk_width(total: int, size: int, i: int) -> int
    recommends
        size > 0,
{
    if total - i * size < size {
        total - i * size
    } else {
        size
    }
}

/// The declared chunk-count label for an order of `total_rows` rows.
pub fn chunk_count_label(total_rows: u64, chunk_size: u64) -> (r: u64)
    requires
        chunk_size > 0,
        !(chunk_size == 1 && total_rows == u64::MAX),
    ensures
        r as int == spec_chunk_label(total_rows as int, chunk_size as int),
{
    proof {
        assert((total_rows as int) / (chunk_size as int) <= total_rows as int) by (nonlinear_arith)
            requires
                chunk_size >= 1,
                total_rows >= 0;
        if chunk_size >= 2 {
            assert((total_rows as int) / (chunk_size as int) < u64::MAX) by (nonlinear_arith)
                requires
                    chunk_size >= 2,
                    0 <= total_rows <= u64::MAX;
        }
    }
    total_rows / chunk_size + 1
}

/// The chunk layout of an order: for each chunk, its start offset and its
/// width.  The starts step by `chunk_size` from zero; each width is
/// `chunk_size`, narrowed to what remains for the last chunk.
pub fn chunk_bounds(total_rows: u64, chunk_size: u64) -> (r: Vec<(u64, u64)>)
    requires
        chunk_size > 0,
    ensures
        r@.len() == spec_num_chunks(total_rows as int, chunk_size as int),
        forall|i: int|
            0 <= i < r@.len() ==> (#[trigger] r@[i]).0 == i * chunk_size as int,
        forall|i: int|
            0 <= i < r@.len() ==> (#[trigger] r@[i]).1 == spec_chunk_width(
                total_rows as int,
                chunk_size as int,
                i,
            ),
{
    let mut r: Vec<(u64, u64)> = Vec::new();
    let mut offset: u64 = 0;
    proof {
        assert(0int * (chunk_size as int) == 0) by (nonlinear_arith);
        if total_rows == 0 {
            assert(spec_num_chunks(total_rows as int, chunk_size as int) == 0) by (nonlinear_arith)
                requires
                    chunk_size > 0,
                    total_rows == 0;
        }
    }
    while offset < total_rows
        invariant
            chunk_size > 0,
            offset <= total_rows,
            offset < total_rows ==> offset == r@.len() * chunk_size,
            offset == total_rows ==> r@.len() == spec_num_chunks(
                total_rows as int,
                chunk_size as int,
            ),
            forall|i: int|
                0 <= i < r@.len() ==> (#[trigger] r@[i]).0 == i * chunk_size as int,
            forall|i: int|
                0 <= i < r@.len() ==> (#[trigger] r@[i]).1 == spec_chunk_width(
                    total_rows as int,
                    chunk_size as int,
                    i,
                ),
        decreases total_rows - offset,
    {
        let ghost len0 = r@.len();
        let remaining = total_rows - offset;
        let width = if remaining < chunk_size {
            remaining
        } else {
            chunk_size
        };
        proof {
            assert(width as int == spec_chunk_width(
                total_rows as int,
                chunk_size as int,
                len0 as int,
            ));
        }
        r.push((offset, width));
        if remaining <= chunk_size {
            proof {
                assert(spec_num_chunks(total_rows as int, chunk_size as int) == len0 + 1)
                    by (nonlinear_arith)
                    requires
                        chunk_size > 0,
                        len0 >= 0,
                        len0 * chunk_size < total_rows <= len0 * chunk_size + chunk_size;
            }
            offset = total_rows;
        } else {
            proof {
                assert((len0 + 1) * (chunk_size as int) == len0 * (chunk_size as int)
                    + chunk_size as int) by (nonlinear_arith);
            }
            offset = offset + chunk_size;
        }
    }
    r
}

/// Law: the chunks partition the row space.  Every row index in
/// `[0, total)` lies in exactly one chunk: the one whose index is the
/// row's offset divided by the chunk size.
pub proof fn lemma_chunks_partition(total: int, size: int, row: int)
    requires
        size > 0,
        0 <= row < total,
    ensures
        0 <= row / size < spec_num_chunks(total, size),
        (row / size) * size <= row < (row / size) * size + spec_chunk_width(
            total,
            size,
            row / size,
        ),
        forall|c: int|
            0 <= c < spec_num_chunks(total, size) && c * size <= row < c * size
                + #[trigger] spec_chunk_width(total, size, c) ==> c == row / size,
{
    let q = row / size;
    assert(0 <= q && q * size <= row < q * size + size) by (nonlinear_arith)
        requires
            size > 0,
            0 <= row,
            q == row / size;
    assert(q < spec_num_chunks(total, size)) by (nonlinear_arith)
        requires
            size > 0,
            0 <= row < total,
            q == row / size,
            q * size <= row;
    assert(row < q * size + spec_chunk_width(total, size, q)) by (nonlinear_arith)
        requires
            size > 0,
            0 <= row < total,
            q * size <= row < q * size + size;
    assert forall|c: int|
        0 <= c < spec_num_chunks(total, size) && c * size <= row < c * size
            + #[trigger] spec_chunk_width(total, size, c) implies c == row / size by {
        assert(c * size <= row < c * size + size ==> c == row / size) by (nonlinear_arith)
            requires
                size > 0,
                0 <= row;
        assert(spec_chunk_width(total, size, c) <= size);
    }
}

/// The declared chunk-count label is one above the true chunk count when
/// the row count is an exact multiple of the chunk size (and for an empty
/// row space), and equal to it otherwise.
pub proof fn lemma_label_off_by_one(total: int, size: int)
    requires
        size > 0,
        total >= 0,
    ensures
        total % size == 0 ==> spec_chunk_label(total, size) == spec_num_chunks(total, size) + 1,
        total % size != 0 ==> spec_chunk_label(total, size) == spec_num_chunks(total, size),
{
    assert(total % size == 0 ==> (total + size - 1) / size == total / size) by (nonlinear_arith)
        requires
            size > 0,
            total >= 0;
    assert(total % size != 0 ==> (total + size - 1) / size == total / size + 1)
        by (nonlinear_arith)
        requires
            size > 0,
            total >= 0;
}

/// The decimal digit character for `d` (0 through 9).
pub open spec fn digit_char(d: int) -> char {
    if d == 0 {
        '0'
    } else if d == 1 {
        '1'
    } else if d == 2 {
        '2'
    } else if d == 3 {
        '3'
    } else if d == 4 {
        '4'
    } else if d == 5 {
        '5'
    } else if d == 6 {
        '6'
    } else if d == 7 {
        '7'
    } else if d == 8 {
        '8'
    } else {
        '9'
    }
}

/// The decimal representation of a non-negative value.
pub open spec fn spec_decimal(v: int) -> Seq<char>
    recommends
        v >= 0,
    decreases v,
{
    if v < 10 {
        seq![digit_char(v)]
    } else {
        spec_decimal(v / 10).push(digit_char(v % 10))
    }
}

/// How many leading zeros pad `v`'s decimal form to five digits.
pub open spec fn spec_pad_len(v: int) -> int {
    if spec_decimal(v).len() >= 5 {
        0
    } else {
        5 - spec_decimal(v).len()
    }
}

/// `v` in decimal, zero-padded on the left to at least five digits.
pub open spec fn spec_padded5(v: int) -> Seq<char> {
    Seq::new(spec_pad_len(v) as nat, |i: int| '0') + spec_decimal(v)
}

/// The output name of one chunk: the order, then the chunk index and the
/// declared chunk-count label, the last two zero-padded to five digits.
pub open spec fn spec_chunk_name(n: int, idx: int, label: int) -> Seq<char> {
    spec_decimal(n) + seq!['-'] + spec_padded5(idx) + seq!['-', 'o', 'f', '-'] + spec_padded5(
        label,
    )
}

/// The decimal form of `v` has one digit per power of ten reached.
pub proof fn lemma_decimal_len(v: int)
    requires
        v >= 0,
    ensures
        v < 10 ==> spec_decimal(v).len() == 1,
        10 <= v < 100 ==> spec_decimal(v).len() == 2,
        100 <= v < 1000 ==> spec_decimal(v).len() == 3,
        1000 <= v < 10000 ==> spec_decimal(v).len() == 4,
        10000 <= v ==> spec_decimal(v).len() >= 5,
    decreases v,
{
    if v >= 10 {
        lemma_decimal_len(v / 10);
    }
}

/// One decimal digit as text.
fn digit_str(d: u64) -> (r: &'static str)
    requires
        d < 10,
    ensures
        r@ == seq![digit_char(d as int)],
{
    let r: &'static str = if d == 0 {
        "0"
    } else if d == 1 {
        "1"
    } else if d == 2 {
        "2"
    } else if d == 3 {
        "3"
    } else if d == 4 {
        "4"
    } else if d == 5 {
        "5"
    } else if d == 6 {
        "6"
    } else if d == 7 {
        "7"
    } else if d == 8 {
        "8"
    } else {
        "9"
    };
    proof {
        reveal_strlit("0");
        reveal_strlit("1");
        reveal_strlit("2");
        reveal_strlit("3");
        reveal_strlit("4");
        reveal_strlit("5");
        reveal_strlit("6");
        reveal_strlit("7");
        reveal_strlit("8");
        reveal_strlit("9");
        assert(r@ =~= seq![digit_char(d as int)]);
    }
    r
}

/// Appends `v`'s decimal form to `s`.
fn push_decimal(s: &mut String, v: u64)
    ensures
        final(s)@ == old(s)@ + spec_decimal(v as int),
    decreases v,
{
    if v >= 10 {
        push_decimal(s, v / 10);
        let d = digit_str(v % 10);
        s.append(d);
        proof {
            assert(s@ =~= old(s)@ + spec_decimal(v as int));
        }
    } else {
        let d = digit_str(v);
        s.append(d);
        proof {
            assert(s@ =~= old(s)@ + spec_decimal(v as int));
        }
    }
}

/// Appends `v`'s decimal form to `s`, zero-padded to at least five digits.
fn push_padded5(s: &mut String, v: u64)
    ensures
        final(s)@ == old(s)@ + spec_padded5(v as int),
{
    proof {
        lemma_decimal_len(v as int);
        reveal_strlit("0000");
        reveal_strlit("000");
        reveal_strlit("00");
        reveal_strlit("0");
    }
    if v < 10 {
        s.append("0000");
    } else if v < 100 {
        s.append("000");
    } else if v < 1000 {
        s.append("00");
    } else if v < 10000 {
        s.append("0");
    }
    push_decimal(s, v);
    proof {
        assert(s@ =~= old(s)@ + spec_padded5(v as int));
    }
}

/// The output name of one chunk: `<order>-<index>-of-<label>`, the index
/// and the label zero-padded to at least five digits.
pub fn chunk_name(order: u64, idx: u64, label: u64) -> (r: String)
    ensures
        r@ == spec_chunk_name(order as int, idx as int, label as int),
{
    let mut s = String::new();
    push_decimal(&mut s, order);
    s.append("-");
    push_padded5(&mut s, idx);
    s.append("-of-");
    push_padded5(&mut s, label);
    proof {
        reveal_strlit("-");
        reveal_strlit("-of-");
        assert(s@ =~= spec_chunk_name(order as int, idx as int, label as int));
    }
    s
}

} // verus!
