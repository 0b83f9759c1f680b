//! The snapshot byte format and its proofs.
//!
//! The whole store is encoded in one shot: every integer as eight
//! little-endian bytes, every text as its character count followed by one
//! integer per character code, and every sequence as its count followed by
//! its items. Decoding checks the same shape and fails on anything else, so
//! a snapshot round-trips exactly.
use vstd::prelude::*;

use crate::chars::{char_from_u32, push_char};
use crate::schema::{Row, RowModel, Table, TableModel};
use crate::storage_engine::{engine_wf, EngineModel, StorageEngine};

verus! {

pub open spec fn spec_ser_u64(v: u64) -> Seq<u8> {
    seq![
        (v & 0xff) as u8,
        ((v >> 8) & 0xff) as u8,
        ((v >> 16) & 0xff) as u8,
        ((v >> 24) & 0xff) as u8,
        ((v >> 32) & 0xff) as u8,
        ((v >> 40) & 0xff) as u8,
        ((v >> 48) & 0xff) as u8,
        ((v >> 56) & 0xff) as u8,
    ]
}

/// The integer read from eight little-endian bytes at `p`.
pub open spec fn u64_from_le(b: Seq<u8>, p: int) -> u64
    recommends
        0 <= p,
        p + 8 <= b.len(),
{
    (b[p] as u64) | ((b[p + 1] as u64) << 8) | ((b[p + 2] as u64) << 16) | ((b[p + 3] as u64)
        << 24) | ((b[p + 4] as u64) << 32) | ((b[p + 5] as u64) << 40) | ((b[p + 6] as u64) << 48)
        | ((b[p + 7] as u64) << 56)
}

pub open spec fn char_code(c: char) -> u64 {
    (c as u32) as u64
}

pub open spec fn spec_ser_chars(s: Seq<char>) -> Seq<u8>
    decreases s.len(),
{
    if s.len() == 0 {
        Seq::empty()
    } else {
        spec_ser_u64(char_code(s[0])) + spec_ser_chars(s.drop_first())
    }
}

pub open spec fn spec_ser_text(s: Seq<char>) -> Seq<u8> {
    spec_ser_u64(s.len() as u64) + spec_ser_chars(s)
}

pub open spec fn spec_ser_texts_items(l: Seq<Seq<char>>) -> Seq<u8>
    decreases l.len(),
{
    if l.len() == 0 {
        Seq::empty()
    } else {
        spec_ser_text(l[0]) + spec_ser_texts_items(l.drop_first())
    }
}

pub open spec fn spec_ser_texts(l: Seq<Seq<char>>) -> Seq<u8> {
    spec_ser_u64(l.len() as u64) + spec_ser_texts_items(l)
}

pub open spec fn spec_ser_pairs(r: RowModel) -> Seq<u8>
    decreases r.len(),
{
    if r.len() == 0 {
        Seq::empty()
    } else {
        spec_ser_text(r[0].0) + spec_ser_text(r[0].1) + spec_ser_pairs(r.drop_first())
    }
}

pub open spec fn spec_ser_row(r: RowModel) -> Seq<u8> {
    spec_ser_u64(r.len() as u64) + spec_ser_pairs(r)
}

pub open spec fn spec_ser_rows_items(rows: Seq<(u64, RowModel)>) -> Seq<u8>
    decreases rows.len(),
{
    if rows.len() == 0 {
        Seq::empty()
    } else {
        spec_ser_u64(rows[0].0) + spec_ser_row(rows[0].1) + spec_ser_rows_items(rows.drop_first())
    }
}

pub open spec fn spec_ser_table(t: TableModel) -> Seq<u8> {
    spec_ser_texts(t.columns) + spec_ser_u64(t.rows.len() as u64) + spec_ser_rows_items(t.rows)
        + spec_ser_u64(t.next_row_id)
}

pub open spec fn spec_ser_tables_items(e: EngineModel) -> Seq<u8>
    decreases e.len(),
{
    if e.len() == 0 {
        Seq::empty()
    } else {
        spec_ser_text(e[0].0) + spec_ser_table(e[0].1) + spec_ser_tables_items(e.drop_first())
    }
}

/// The snapshot encoding of a whole store.
pub open spec fn spec_serialize(e: EngineModel) -> Seq<u8> {
    spec_ser_u64(e.len() as u64) + spec_ser_tables_items(e)
}

// Machine bounds: a sequence can only be rebuilt when its length fits the
// address space, so decoding checks every count against it.
pub open spec fn text_bounded(s: Seq<char>) -> bool {
    s.len() <= usize::MAX
}

pub open spec fn texts_bounded(l: Seq<Seq<char>>) -> bool {
    &&& l.len() <= usize::MAX
    &&& forall|i: int| 0 <= i < l.len() ==> text_bounded(#[trigger] l[i])
}

pub open spec fn row_bounded(r: RowModel) -> bool {
    &&& r.len() <= usize::MAX
    &&& forall|i: int| 0 <= i < r.len() ==> text_bounded(#[trigger] r[i].0) && text_bounded(r[i].1)
}

pub open spec fn table_bounded(t: TableModel) -> bool {
    &&& texts_bounded(t.columns)
    &&& t.rows.len() <= usize::MAX
    &&& forall|i: int| 0 <= i < t.rows.len() ==> row_bounded(#[trigger] t.rows[i].1)
}

pub open spec fn engine_bounded(e: EngineModel) -> bool {
    &&& e.len() <= usize::MAX
    &&& forall|i: int|
        0 <= i < e.len() ==> text_bounded(#[trigger] e[i].0) && table_bounded(e[i].1)
}

// Decoders: each yields the decoded value and the position just past it, or
// nothing where the bytes do not carry the shape it expects.
pub open spec fn spec_de_u64(b: Seq<u8>, p: int) -> Option<(u64, int)> {
    if 0 <= p && p + 8 <= b.len() {
        Some((u64_from_le(b, p), p + 8))
    } else {
        None
    }
}

pub open spec fn spec_de_char(b: Seq<u8>, p: int) -> Option<(char, int)> {
    match spec_de_u64(b, p) {
        Some((u, q)) => if u <= u32::MAX as u64 && vstd::utf8::is_scalar(u as u32) {
            Some(((u as u32) as char, q))
        } else {
            None
        },
        None => None,
    }
}

pub open spec fn spec_de_chars(b: Seq<u8>, p: int, n: nat) -> Option<(Seq<char>, int)>
    decreases n,
{
    if n == 0 {
        Some((Seq::empty(), p))
    } else {
        match spec_de_char(b, p) {
            Some((c, q)) => match spec_de_chars(b, q, (n - 1) as nat) {
                Some((rest, end)) => Some((seq![c] + rest, end)),
                None => None,
            },
            None => None,
        }
    }
}

pub open spec fn spec_de_text(b: Seq<u8>, p: int) -> Option<(Seq<char>, int)> {
    match spec_de_u64(b, p) {
        Some((count, q)) => if count <= usize::MAX as u64 {
            spec_de_chars(b, q, count as nat)
        } else {
            None
        },
        None => None,
    }
}

pub open spec fn spec_de_texts_items(b: Seq<u8>, p: int, n: nat) -> Option<(Seq<Seq<char>>, int)>
    decreases n,
{
    if n == 0 {
        Some((Seq::empty(), p))
    } else {
        match spec_de_text(b, p) {
            Some((s, q)) => match spec_de_texts_items(b, q, (n - 1) as nat) {
                Some((rest, end)) => Some((seq![s] + rest, end)),
                None => None,
            },
            None => None,
        }
    }
}

pub open spec fn spec_de_texts(b: Seq<u8>, p: int) -> Option<(Seq<Seq<char>>, int)> {
    match spec_de_u64(b, p) {
        Some((count, q)) => if count <= usize::MAX as u64 {
            spec_de_texts_items(b, q, count as nat)
        } else {
            None
        },
        None => None,
    }
}

pub open spec fn spec_de_pairs(b: Seq<u8>, p: int, n: nat) -> Option<(RowModel, int)>
    decreases n,
{
    if n == 0 {
        Some((Seq::empty(), p))
    } else {
        match spec_de_text(b, p) {
            Some((k, q1)) => match spec_de_text(b, q1) {
                Some((v, q2)) => match spec_de_pairs(b, q2, (n - 1) as nat) {
                    Some((rest, end)) => Some((seq![(k, v)] + rest, end)),
                    None => None,
                },
                None => None,
            },
            None => None,
        }
    }
}

pub open spec fn spec_de_row(b: Seq<u8>, p: int) -> Option<(RowModel, int)> {
    match spec_de_u64(b, p) {
        Some((count, q)) => if count <= usize::MAX as u64 {
            spec_de_pairs(b, q, count as nat)
        } else {
            None
        },
        None => None,
    }
}

pub open spec fn spec_de_rows_items(b: Seq<u8>, p: int, n: nat) -> Option<
    (Seq<(u64, RowModel)>, int),
>
    decreases n,
{
    if n == 0 {
        Some((Seq::empty(), p))
    } else {
        match spec_de_u64(b, p) {
            Some((id, q1)) => match spec_de_row(b, q1) {
                Some((row, q2)) => match spec_de_rows_items(b, q2, (n - 1) as nat) {
                    Some((rest, end)) => Some((seq![(id, row)] + rest, end)),
                    None => None,
                },
                None => None,
            },
            None => None,
        }
    }
}

pub open spec fn spec_de_table(b: Seq<u8>, p: int) -> Option<(TableModel, int)> {
    match spec_de_texts(b, p) {
        Some((columns, q1)) => match spec_de_u64(b, q1) {
            Some((count, q2)) => if count <= usize::MAX as u64 {
                match spec_de_rows_items(b, q2, count as nat) {
                    Some((rows, q3)) => match spec_de_u64(b, q3) {
                        Some((next_row_id, q4)) => Some(
                            (TableModel { columns, rows, next_row_id }, q4),
                        ),
                        None => None,
                    },
                    None => None,
                }
            } else {
                None
            },
            None => None,
        },
        None => None,
    }
}

pub open spec fn spec_de_tables_items(b: Seq<u8>, p: int, n: nat) -> Option<(EngineModel, int)>
    decreases n,
{
    if n == 0 {
        Some((Seq::empty(), p))
    } else {
        match spec_de_text(b, p) {
            Some((name, q1)) => match spec_de_table(b, q1) {
                Some((t, q2)) => match spec_de_tables_items(b, q2, (n - 1) as nat) {
                    Some((rest, end)) => Some((seq![(name, t)] + rest, end)),
                    None => None,
                },
                None => None,
            },
            None => None,
        }
    }
}

pub open spec fn spec_de_engine(b: Seq<u8>, p: int) -> Option<(EngineModel, int)> {
    match spec_de_u64(b, p) {
        Some((count, q)) => if count <= usize::MAX as u64 {
            spec_de_tables_items(b, q, count as nat)
        } else {
            None
        },
        None => None,
    }
}

/// What deserialization accepts: a buffer that decodes as one whole store,
/// with nothing after it, whose content is well formed.
pub open spec fn spec_deserialize(b: Seq<u8>) -> Option<EngineModel> {
    match spec_de_engine(b, 0) {
        Some((e, q)) => if q == b.len() && engine_wf(e) {
            Some(e)
        } else {
            None
        },
        None => None,
    }
}

// What decoding makes of what encoding wrote: each level reads back exactly
// the value written, consuming exactly its bytes.
proof fn lemma_u64_codes(v: u64)
    ensures
        u64_from_le(spec_ser_u64(v), 0) == v,
{
    assert(((v & 0xff) as u8 as u64) | (((v >> 8) & 0xff) as u8 as u64) << 8 | (((v >> 16)
        & 0xff) as u8 as u64) << 16 | (((v >> 24) & 0xff) as u8 as u64) << 24 | (((v >> 32)
        & 0xff) as u8 as u64) << 32 | (((v >> 40) & 0xff) as u8 as u64) << 40 | (((v >> 48)
        & 0xff) as u8 as u64) << 48 | (((v >> 56) & 0xff) as u8 as u64) << 56 == v)
        by (bit_vector);
}

/// A subrange equal to a concatenation splits into its two parts.
proof fn lemma_split(b: Seq<u8>, p: int, x: Seq<u8>, y: Seq<u8>)
    requires
        0 <= p,
        p + x.len() + y.len() <= b.len(),
        b.subrange(p, p + x.len() + y.len()) == x + y,
    ensures
        b.subrange(p, p + x.len()) == x,
        b.subrange(p + x.len(), p + x.len() + y.len()) == y,
{
    let whole = b.subrange(p, p + x.len() + y.len());
    assert forall|i: int| 0 <= i < x.len() implies b.subrange(p, p + x.len())[i] == x[i] by {
        assert(b.subrange(p, p + x.len())[i] == b[p + i]);
        assert(whole[i] == b[p + i]);
        assert((x + y)[i] == x[i]);
    }
    assert(b.subrange(p, p + x.len()) =~= x);
    assert forall|i: int|
        0 <= i < y.len() implies b.subrange(p + x.len(), p + x.len() + y.len())[i] == y[i] by {
        assert(b.subrange(p + x.len(), p + x.len() + y.len())[i] == b[p + x.len() + i]);
        assert(whole[x.len() + i] == b[p + x.len() + i]);
        assert((x + y)[x.len() + i] == y[i]);
    }
    assert(b.subrange(p + x.len(), p + x.len() + y.len()) =~= y);
}

proof fn lemma_de_u64(b: Seq<u8>, p: int, v: u64)
    requires
        0 <= p,
        p + 8 <= b.len(),
        b.subrange(p, p + 8) == spec_ser_u64(v),
    ensures
        spec_de_u64(b, p) == Some((v, p + 8)),
{
    let sub = b.subrange(p, p + 8);
    assert(forall|i: int| 0 <= i < 8 ==> b[p + i] == #[trigger] sub[i]);
    lemma_u64_codes(v);
    assert(u64_from_le(b, p) == u64_from_le(spec_ser_u64(v), 0));
}

proof fn lemma_de_char(b: Seq<u8>, p: int, c: char)
    requires
        0 <= p,
        p + 8 <= b.len(),
        b.subrange(p, p + 8) == spec_ser_u64(char_code(c)),
    ensures
        spec_de_char(b, p) == Some((c, p + 8)),
{
    lemma_de_u64(b, p, char_code(c));
    vstd::utf8::char_is_scalar(c);
    vstd::utf8::char_u32_cast(c, c as u32);
}

proof fn lemma_de_chars(b: Seq<u8>, p: int, s: Seq<char>)
    requires
        0 <= p,
        p + spec_ser_chars(s).len() <= b.len(),
        b.subrange(p, p + spec_ser_chars(s).len()) == spec_ser_chars(s),
    ensures
        spec_de_chars(b, p, s.len()) == Some((s, p + spec_ser_chars(s).len())),
    decreases s.len(),
{
    if s.len() == 0 {
        assert(s =~= Seq::<char>::empty());
    } else {
        let x = spec_ser_u64(char_code(s[0]));
        let y = spec_ser_chars(s.drop_first());
        lemma_split(b, p, x, y);
        lemma_de_char(b, p, s[0]);
        lemma_de_chars(b, p + 8, s.drop_first());
        assert(seq![s[0]] + s.drop_first() =~= s);
    }
}

proof fn lemma_de_text(b: Seq<u8>, p: int, s: Seq<char>)
    requires
        0 <= p,
        text_bounded(s),
        p + spec_ser_text(s).len() <= b.len(),
        b.subrange(p, p + spec_ser_text(s).len()) == spec_ser_text(s),
    ensures
        spec_de_text(b, p) == Some((s, p + spec_ser_text(s).len())),
{
    let x = spec_ser_u64(s.len() as u64);
    let y = spec_ser_chars(s);
    lemma_split(b, p, x, y);
    lemma_de_u64(b, p, s.len() as u64);
    lemma_de_chars(b, p + 8, s);
}

proof fn lemma_de_texts_items(b: Seq<u8>, p: int, l: Seq<Seq<char>>)
    requires
        0 <= p,
        texts_bounded(l),
        p + spec_ser_texts_items(l).len() <= b.len(),
        b.subrange(p, p + spec_ser_texts_items(l).len()) == spec_ser_texts_items(l),
    ensures
        spec_de_texts_items(b, p, l.len()) == Some((l, p + spec_ser_texts_items(l).len())),
    decreases l.len(),
{
    if l.len() == 0 {
        assert(l =~= Seq::<Seq<char>>::empty());
    } else {
        let x = spec_ser_text(l[0]);
        let y = spec_ser_texts_items(l.drop_first());
        lemma_split(b, p, x, y);
        lemma_de_text(b, p, l[0]);
        lemma_de_texts_items(b, p + x.len(), l.drop_first());
        assert(seq![l[0]] + l.drop_first() =~= l);
    }
}

proof fn lemma_de_texts(b: Seq<u8>, p: int, l: Seq<Seq<char>>)
    requires
        0 <= p,
        texts_bounded(l),
        p + spec_ser_texts(l).len() <= b.len(),
        b.subrange(p, p + spec_ser_texts(l).len()) == spec_ser_texts(l),
    ensures
        spec_de_texts(b, p) == Some((l, p + spec_ser_texts(l).len())),
{
    let x = spec_ser_u64(l.len() as u64);
    let y = spec_ser_texts_items(l);
    lemma_split(b, p, x, y);
    lemma_de_u64(b, p, l.len() as u64);
    lemma_de_texts_items(b, p + 8, l);
}

proof fn lemma_de_pairs(b: Seq<u8>, p: int, r: RowModel)
    requires
        0 <= p,
        row_bounded(r),
        p + spec_ser_pairs(r).len() <= b.len(),
        b.subrange(p, p + spec_ser_pairs(r).len()) == spec_ser_pairs(r),
    ensures
        spec_de_pairs(b, p, r.len()) == Some((r, p + spec_ser_pairs(r).len())),
    decreases r.len(),
{
    if r.len() == 0 {
        assert(r =~= Seq::<(Seq<char>, Seq<char>)>::empty());
    } else {
        let x = spec_ser_text(r[0].0);
        let y = spec_ser_text(r[0].1);
        let z = spec_ser_pairs(r.drop_first());
        assert(x + y + z =~= x + (y + z));
        lemma_split(b, p, x, y + z);
        lemma_split(b, p + x.len(), y, z);
        lemma_de_text(b, p, r[0].0);
        lemma_de_text(b, p + x.len(), r[0].1);
        lemma_de_pairs(b, p + x.len() + y.len(), r.drop_first());
        assert(seq![(r[0].0, r[0].1)] + r.drop_first() =~= r);
    }
}

proof fn lemma_de_row(b: Seq<u8>, p: int, r: RowModel)
    requires
        0 <= p,
        row_bounded(r),
        p + spec_ser_row(r).len() <= b.len(),
        b.subrange(p, p + spec_ser_row(r).len()) == spec_ser_row(r),
    ensures
        spec_de_row(b, p) == Some((r, p + spec_ser_row(r).len())),
{
    let x = spec_ser_u64(r.len() as u64);
    let y = spec_ser_pairs(r);
    lemma_split(b, p, x, y);
    lemma_de_u64(b, p, r.len() as u64);
    lemma_de_pairs(b, p + 8, r);
}

proof fn lemma_de_rows_items(b: Seq<u8>, p: int, rows: Seq<(u64, RowModel)>)
    requires
        0 <= p,
        rows.len() <= usize::MAX,
        forall|i: int| 0 <= i < rows.len() ==> row_bounded(#[trigger] rows[i].1),
        p + spec_ser_rows_items(rows).len() <= b.len(),
        b.subrange(p, p + spec_ser_rows_items(rows).len()) == spec_ser_rows_items(rows),
    ensures
        spec_de_rows_items(b, p, rows.len()) == Some((rows, p + spec_ser_rows_items(rows).len())),
    decreases rows.len(),
{
    if rows.len() == 0 {
        assert(rows =~= Seq::<(u64, RowModel)>::empty());
    } else {
        let x = spec_ser_u64(rows[0].0);
        let y = spec_ser_row(rows[0].1);
        let z = spec_ser_rows_items(rows.drop_first());
        assert(x + y + z =~= x + (y + z));
        lemma_split(b, p, x, y + z);
        lemma_split(b, p + x.len(), y, z);
        lemma_de_u64(b, p, rows[0].0);
        lemma_de_row(b, p + x.len(), rows[0].1);
        lemma_de_rows_items(b, p + x.len() + y.len(), rows.drop_first());
        assert(seq![(rows[0].0, rows[0].1)] + rows.drop_first() =~= rows);
    }
}

#[verifier::rlimit(60)]
proof fn lemma_de_table(b: Seq<u8>, p: int, t: TableModel)
    requires
        0 <= p,
        table_bounded(t),
        p + spec_ser_table(t).len() <= b.len(),
        b.subrange(p, p + spec_ser_table(t).len()) == spec_ser_table(t),
    ensures
        spec_de_table(b, p) == Some((t, p + spec_ser_table(t).len())),
{
    let x = spec_ser_texts(t.columns);
    let y = spec_ser_u64(t.rows.len() as u64);
    let z = spec_ser_rows_items(t.rows);
    let w = spec_ser_u64(t.next_row_id);
    assert(x + y + z + w =~= x + (y + (z + w)));
    lemma_split(b, p, x, y + (z + w));
    lemma_split(b, p + x.len(), y, z + w);
    lemma_split(b, p + x.len() + y.len(), z, w);
    lemma_de_texts(b, p, t.columns);
    lemma_de_u64(b, p + x.len(), t.rows.len() as u64);
    lemma_de_rows_items(b, p + x.len() + y.len(), t.rows);
    lemma_de_u64(b, p + x.len() + y.len() + z.len(), t.next_row_id);
}

proof fn lemma_de_tables_items(b: Seq<u8>, p: int, e: EngineModel)
    requires
        0 <= p,
        engine_bounded(e),
        p + spec_ser_tables_items(e).len() <= b.len(),
        b.subrange(p, p + spec_ser_tables_items(e).len()) == spec_ser_tables_items(e),
    ensures
        spec_de_tables_items(b, p, e.len()) == Some((e, p + spec_ser_tables_items(e).len())),
    decreases e.len(),
{
    if e.len() == 0 {
        assert(e =~= Seq::<(Seq<char>, TableModel)>::empty());
    } else {
        let x = spec_ser_text(e[0].0);
        let y = spec_ser_table(e[0].1);
        let z = spec_ser_tables_items(e.drop_first());
        assert(x + y + z =~= x + (y + z));
        lemma_split(b, p, x, y + z);
        lemma_split(b, p + x.len(), y, z);
        lemma_de_text(b, p, e[0].0);
        lemma_de_table(b, p + x.len(), e[0].1);
        assert(forall|i: int|
            0 <= i < e.drop_first().len() ==> #[trigger] e.drop_first()[i] == e[i + 1]);
        lemma_de_tables_items(b, p + x.len() + y.len(), e.drop_first());
        assert(seq![(e[0].0, e[0].1)] + e.drop_first() =~= e);
    }
}

/// The round trip: the snapshot of a well-formed store, decoded, is the
/// store itself.
// Concatenation distributes over each item encoder; the loops below extend
// their output one item at a time and rest on these.
proof fn lemma_ser_chars_concat(a: Seq<char>, c: Seq<char>)
    ensures
        spec_ser_chars(a + c) == spec_ser_chars(a) + spec_ser_chars(c),
    decreases a.len(),
{
    if a.len() == 0 {
        assert(a + c =~= c);
        assert(spec_ser_chars(a) + spec_ser_chars(c) =~= spec_ser_chars(c));
    } else {
        assert((a + c).drop_first() =~= a.drop_first() + c);
        lemma_ser_chars_concat(a.drop_first(), c);
        assert((a + c)[0] == a[0]);
        assert(spec_ser_u64(char_code(a[0])) + (spec_ser_chars(a.drop_first()) + spec_ser_chars(c))
            =~= (spec_ser_u64(char_code(a[0])) + spec_ser_chars(a.drop_first())) + spec_ser_chars(
            c,
        ));
    }
}

proof fn lemma_ser_chars_snoc(s: Seq<char>, i: int)
    requires
        0 <= i < s.len(),
    ensures
        spec_ser_chars(s.take(i + 1)) == spec_ser_chars(s.take(i)) + spec_ser_u64(
            char_code(s[i]),
        ),
{
    assert(s.take(i + 1) =~= s.take(i) + seq![s[i]]);
    lemma_ser_chars_concat(s.take(i), seq![s[i]]);
    assert(seq![s[i]].drop_first() =~= Seq::<char>::empty());
    assert(spec_ser_chars(Seq::<char>::empty()) =~= Seq::<u8>::empty());
    assert(spec_ser_chars(seq![s[i]]) =~= spec_ser_u64(char_code(s[i])));
}

proof fn lemma_ser_texts_items_concat(a: Seq<Seq<char>>, c: Seq<Seq<char>>)
    ensures
        spec_ser_texts_items(a + c) == spec_ser_texts_items(a) + spec_ser_texts_items(c),
    decreases a.len(),
{
    if a.len() == 0 {
        assert(a + c =~= c);
        assert(spec_ser_texts_items(a) + spec_ser_texts_items(c) =~= spec_ser_texts_items(c));
    } else {
        assert((a + c).drop_first() =~= a.drop_first() + c);
        lemma_ser_texts_items_concat(a.drop_first(), c);
        assert((a + c)[0] == a[0]);
        assert(spec_ser_text(a[0]) + (spec_ser_texts_items(a.drop_first()) + spec_ser_texts_items(
            c,
        )) =~= (spec_ser_text(a[0]) + spec_ser_texts_items(a.drop_first()))
            + spec_ser_texts_items(c));
    }
}

proof fn lemma_ser_texts_items_snoc(l: Seq<Seq<char>>, i: int)
    requires
        0 <= i < l.len(),
    ensures
        spec_ser_texts_items(l.take(i + 1)) == spec_ser_texts_items(l.take(i)) + spec_ser_text(
            l[i],
        ),
{
    assert(l.take(i + 1) =~= l.take(i) + seq![l[i]]);
    lemma_ser_texts_items_concat(l.take(i), seq![l[i]]);
    assert(seq![l[i]].drop_first() =~= Seq::<Seq<char>>::empty());
    assert(spec_ser_texts_items(Seq::<Seq<char>>::empty()) =~= Seq::<u8>::empty());
    assert(spec_ser_texts_items(seq![l[i]]) =~= spec_ser_text(l[i]));
}

proof fn lemma_ser_pairs_concat(a: RowModel, c: RowModel)
    ensures
        spec_ser_pairs(a + c) == spec_ser_pairs(a) + spec_ser_pairs(c),
    decreases a.len(),
{
    if a.len() == 0 {
        assert(a + c =~= c);
        assert(spec_ser_pairs(a) + spec_ser_pairs(c) =~= spec_ser_pairs(c));
    } else {
        assert((a + c).drop_first() =~= a.drop_first() + c);
        lemma_ser_pairs_concat(a.drop_first(), c);
        assert((a + c)[0] == a[0]);
        assert((spec_ser_text(a[0].0) + spec_ser_text(a[0].1)) + (spec_ser_pairs(a.drop_first())
            + spec_ser_pairs(c)) =~= ((spec_ser_text(a[0].0) + spec_ser_text(a[0].1))
            + spec_ser_pairs(a.drop_first())) + spec_ser_pairs(c));
    }
}

proof fn lemma_ser_pairs_snoc(r: RowModel, i: int)
    requires
        0 <= i < r.len(),
    ensures
        spec_ser_pairs(r.take(i + 1)) == spec_ser_pairs(r.take(i)) + spec_ser_text(r[i].0)
            + spec_ser_text(r[i].1),
{
    assert(r.take(i + 1) =~= r.take(i) + seq![r[i]]);
    lemma_ser_pairs_concat(r.take(i), seq![r[i]]);
    assert(seq![r[i]].drop_first() =~= Seq::<(Seq<char>, Seq<char>)>::empty());
    assert(spec_ser_pairs(Seq::<(Seq<char>, Seq<char>)>::empty()) =~= Seq::<u8>::empty());
    assert(spec_ser_pairs(seq![r[i]]) =~= spec_ser_text(r[i].0) + spec_ser_text(r[i].1));
    assert(spec_ser_pairs(r.take(i)) + (spec_ser_text(r[i].0) + spec_ser_text(r[i].1))
        =~= spec_ser_pairs(r.take(i)) + spec_ser_text(r[i].0) + spec_ser_text(r[i].1));
}

proof fn lemma_ser_rows_items_concat(a: Seq<(u64, RowModel)>, c: Seq<(u64, RowModel)>)
    ensures
        spec_ser_rows_items(a + c) == spec_ser_rows_items(a) + spec_ser_rows_items(c),
    decreases a.len(),
{
    if a.len() == 0 {
        assert(a + c =~= c);
        assert(spec_ser_rows_items(a) + spec_ser_rows_items(c) =~= spec_ser_rows_items(c));
    } else {
        assert((a + c).drop_first() =~= a.drop_first() + c);
        lemma_ser_rows_items_concat(a.drop_first(), c);
        assert((a + c)[0] == a[0]);
        assert((spec_ser_u64(a[0].0) + spec_ser_row(a[0].1)) + (spec_ser_rows_items(a.drop_first())
            + spec_ser_rows_items(c)) =~= ((spec_ser_u64(a[0].0) + spec_ser_row(a[0].1))
            + spec_ser_rows_items(a.drop_first())) + spec_ser_rows_items(c));
    }
}

proof fn lemma_ser_rows_items_snoc(rows: Seq<(u64, RowModel)>, i: int)
    requires
        0 <= i < rows.len(),
    ensures
        spec_ser_rows_items(rows.take(i + 1)) == spec_ser_rows_items(rows.take(i)) + spec_ser_u64(
            rows[i].0,
        ) + spec_ser_row(rows[i].1),
{
    assert(rows.take(i + 1) =~= rows.take(i) + seq![rows[i]]);
    lemma_ser_rows_items_concat(rows.take(i), seq![rows[i]]);
    assert(seq![rows[i]].drop_first() =~= Seq::<(u64, RowModel)>::empty());
    assert(spec_ser_rows_items(Seq::<(u64, RowModel)>::empty()) =~= Seq::<u8>::empty());
    assert(spec_ser_rows_items(seq![rows[i]]) =~= spec_ser_u64(rows[i].0) + spec_ser_row(
        rows[i].1,
    ));
    assert(spec_ser_rows_items(rows.take(i)) + (spec_ser_u64(rows[i].0) + spec_ser_row(rows[i].1))
        =~= spec_ser_rows_items(rows.take(i)) + spec_ser_u64(rows[i].0) + spec_ser_row(rows[i].1));
}

#[verifier::rlimit(60)]
proof fn lemma_ser_tables_items_concat(a: EngineModel, c: EngineModel)
    ensures
        spec_ser_tables_items(a + c) == spec_ser_tables_items(a) + spec_ser_tables_items(c),
    decreases a.len(),
{
    if a.len() == 0 {
        assert(a + c =~= c);
        assert(spec_ser_tables_items(a) + spec_ser_tables_items(c) =~= spec_ser_tables_items(c));
    } else {
        assert((a + c).drop_first() =~= a.drop_first() + c);
        lemma_ser_tables_items_concat(a.drop_first(), c);
        assert((a + c)[0] == a[0]);
        assert((spec_ser_text(a[0].0) + spec_ser_table(a[0].1)) + (spec_ser_tables_items(
            a.drop_first(),
        ) + spec_ser_tables_items(c)) =~= ((spec_ser_text(a[0].0) + spec_ser_table(a[0].1))
            + spec_ser_tables_items(a.drop_first())) + spec_ser_tables_items(c));
    }
}

#[verifier::rlimit(60)]
proof fn lemma_ser_tables_items_snoc(e: EngineModel, i: int)
    requires
        0 <= i < e.len(),
    ensures
        spec_ser_tables_items(e.take(i + 1)) == spec_ser_tables_items(e.take(i)) + spec_ser_text(
            e[i].0,
        ) + spec_ser_table(e[i].1),
{
    assert(e.take(i + 1) =~= e.take(i) + seq![e[i]]);
    lemma_ser_tables_items_concat(e.take(i), seq![e[i]]);
    assert(seq![e[i]].drop_first() =~= Seq::<(Seq<char>, TableModel)>::empty());
    assert(spec_ser_tables_items(Seq::<(Seq<char>, TableModel)>::empty()) =~= Seq::<u8>::empty());
    assert(spec_ser_tables_items(seq![e[i]]) =~= spec_ser_text(e[i].0) + spec_ser_table(e[i].1));
    assert(spec_ser_tables_items(e.take(i)) + (spec_ser_text(e[i].0) + spec_ser_table(e[i].1))
        =~= spec_ser_tables_items(e.take(i)) + spec_ser_text(e[i].0) + spec_ser_table(e[i].1));
}

// Executable encoders, each appending one value's encoding to the buffer.
pub(crate) fn ser_u64_into(out: &mut Vec<u8>, v: u64)
    ensures
        final(out)@ == old(out)@ + spec_ser_u64(v),
{
    out.push((v & 0xff) as u8);
    out.push(((v >> 8) & 0xff) as u8);
    out.push(((v >> 16) & 0xff) as u8);
    out.push(((v >> 24) & 0xff) as u8);
    out.push(((v >> 32) & 0xff) as u8);
    out.push(((v >> 40) & 0xff) as u8);
    out.push(((v >> 48) & 0xff) as u8);
    out.push(((v >> 56) & 0xff) as u8);
    proof {
        assert(out@ =~= old(out)@ + spec_ser_u64(v));
    }
}

pub(crate) fn ser_text_into(out: &mut Vec<u8>, s: &str)
    ensures
        final(out)@ == old(out)@ + spec_ser_text(s@),
{
    let n = s.unicode_len();
    ser_u64_into(out, n as u64);
    proof {
        assert(out@ =~= old(out)@ + spec_ser_u64(n as u64) + spec_ser_chars(s@.take(0)));
    }
    let mut i: usize = 0;
    while i < n
        invariant
            n == s@.len(),
            i <= n,
            out@ == old(out)@ + spec_ser_u64(n as u64) + spec_ser_chars(s@.take(i as int)),
        decreases n - i,
    {
        let c = s.get_char(i);
        ser_u64_into(out, (c as u32) as u64);
        proof {
            lemma_ser_chars_snoc(s@, i as int);
            assert(old(out)@ + spec_ser_u64(n as u64) + (spec_ser_chars(s@.take(i as int))
                + spec_ser_u64(char_code(c))) =~= (old(out)@ + spec_ser_u64(n as u64)
                + spec_ser_chars(s@.take(i as int))) + spec_ser_u64(char_code(c)));
        }
        i = i + 1;
    }
    proof {
        assert(s@.take(n as int) =~= s@);
        assert(old(out)@ + spec_ser_u64(n as u64) + spec_ser_chars(s@) =~= old(out)@
            + spec_ser_text(s@));
    }
}

pub(crate) fn ser_texts_into(out: &mut Vec<u8>, l: &Vec<String>)
    ensures
        final(out)@ == old(out)@ + spec_ser_texts(l.deep_view()),
{
    let ghost lv = l.deep_view();
    let n = l.len();
    ser_u64_into(out, n as u64);
    proof {
        assert(out@ =~= old(out)@ + spec_ser_u64(n as u64) + spec_ser_texts_items(lv.take(0)));
    }
    let mut i: usize = 0;
    while i < n
        invariant
            n == lv.len(),
            lv == l.deep_view(),
            i <= n,
            out@ == old(out)@ + spec_ser_u64(n as u64) + spec_ser_texts_items(lv.take(i as int)),
        decreases n - i,
    {
        ser_text_into(out, l[i].as_str());
        proof {
            lemma_ser_texts_items_snoc(lv, i as int);
            assert(old(out)@ + spec_ser_u64(n as u64) + (spec_ser_texts_items(lv.take(i as int))
                + spec_ser_text(lv[i as int])) =~= (old(out)@ + spec_ser_u64(n as u64)
                + spec_ser_texts_items(lv.take(i as int))) + spec_ser_text(lv[i as int]));
        }
        i = i + 1;
    }
    proof {
        assert(lv.take(n as int) =~= lv);
        assert(old(out)@ + spec_ser_u64(n as u64) + spec_ser_texts_items(lv) =~= old(out)@
            + spec_ser_texts(lv));
    }
}

pub(crate) fn ser_row_into(out: &mut Vec<u8>, r: &Row)
    ensures
        final(out)@ == old(out)@ + spec_ser_row(r@),
{
    let ghost rv = r@;
    let n = r.data.len();
    ser_u64_into(out, n as u64);
    proof {
        assert(out@ =~= old(out)@ + spec_ser_u64(n as u64) + spec_ser_pairs(rv.take(0)));
    }
    let mut i: usize = 0;
    while i < n
        invariant
            n == rv.len(),
            rv == r@,
            i <= n,
            out@ == old(out)@ + spec_ser_u64(n as u64) + spec_ser_pairs(rv.take(i as int)),
        decreases n - i,
    {
        ser_text_into(out, r.data[i].0.as_str());
        ser_text_into(out, r.data[i].1.as_str());
        proof {
            lemma_ser_pairs_snoc(rv, i as int);
            assert(old(out)@ + spec_ser_u64(n as u64) + spec_ser_pairs(rv.take(i as int))
                + spec_ser_text(rv[i as int].0) + spec_ser_text(rv[i as int].1) =~= old(out)@
                + spec_ser_u64(n as u64) + (spec_ser_pairs(rv.take(i as int)) + spec_ser_text(
                rv[i as int].0,
            ) + spec_ser_text(rv[i as int].1)));
        }
        i = i + 1;
    }
    proof {
        assert(rv.take(n as int) =~= rv);
        assert(old(out)@ + spec_ser_u64(n as u64) + spec_ser_pairs(rv) =~= old(out)@ + spec_ser_row(
            rv,
        ));
    }
}

pub(crate) fn ser_table_into(out: &mut Vec<u8>, t: &Table)
    ensures
        final(out)@ == old(out)@ + spec_ser_table(t@),
{
    let ghost tv = t@;
    ser_texts_into(out, &t.columns);
    let n = t.rows.len();
    ser_u64_into(out, n as u64);
    proof {
        assert(out@ =~= old(out)@ + spec_ser_texts(tv.columns) + spec_ser_u64(n as u64)
            + spec_ser_rows_items(tv.rows.take(0)));
    }
    let mut i: usize = 0;
    while i < n
        invariant
            n == tv.rows.len(),
            tv == t@,
            i <= n,
            out@ == old(out)@ + spec_ser_texts(tv.columns) + spec_ser_u64(n as u64)
                + spec_ser_rows_items(tv.rows.take(i as int)),
        decreases n - i,
    {
        ser_u64_into(out, t.rows[i].0);
        ser_row_into(out, &t.rows[i].1);
        proof {
            lemma_ser_rows_items_snoc(tv.rows, i as int);
            assert(old(out)@ + spec_ser_texts(tv.columns) + spec_ser_u64(n as u64)
                + spec_ser_rows_items(tv.rows.take(i as int)) + spec_ser_u64(tv.rows[i as int].0)
                + spec_ser_row(tv.rows[i as int].1) =~= old(out)@ + spec_ser_texts(tv.columns)
                + spec_ser_u64(n as u64) + (spec_ser_rows_items(tv.rows.take(i as int))
                + spec_ser_u64(tv.rows[i as int].0) + spec_ser_row(tv.rows[i as int].1)));
        }
        i = i + 1;
    }
    ser_u64_into(out, t.next_row_id);
    proof {
        assert(tv.rows.take(n as int) =~= tv.rows);
        assert(old(out)@ + spec_ser_texts(tv.columns) + spec_ser_u64(n as u64)
            + spec_ser_rows_items(tv.rows) + spec_ser_u64(tv.next_row_id) =~= old(out)@
            + spec_ser_table(tv));
    }
}

/// Encodes the whole store into `out`, which it first clears.
pub(crate) fn ser_engine_into(out: &mut Vec<u8>, engine: &StorageEngine)
    ensures
        final(out)@ == spec_serialize(engine@),
{
    let ghost ev = engine@;
    out.clear();
    let n = engine.tables.len();
    ser_u64_into(out, n as u64);
    proof {
        assert(out@ =~= spec_ser_u64(n as u64) + spec_ser_tables_items(ev.take(0)));
    }
    let mut i: usize = 0;
    while i < n
        invariant
            n == ev.len(),
            ev == engine@,
            i <= n,
            out@ == spec_ser_u64(n as u64) + spec_ser_tables_items(ev.take(i as int)),
        decreases n - i,
    {
        ser_text_into(out, engine.tables[i].0.as_str());
        ser_table_into(out, &engine.tables[i].1);
        proof {
            lemma_ser_tables_items_snoc(ev, i as int);
            assert(spec_ser_u64(n as u64) + spec_ser_tables_items(ev.take(i as int))
                + spec_ser_text(ev[i as int].0) + spec_ser_table(ev[i as int].1) =~= spec_ser_u64(
                n as u64,
            ) + (spec_ser_tables_items(ev.take(i as int)) + spec_ser_text(ev[i as int].0)
                + spec_ser_table(ev[i as int].1)));
        }
        i = i + 1;
    }
    proof {
        assert(ev.take(n as int) =~= ev);
    }
}

// Executable decoders, each the exact mirror of its specification decoder.
pub(crate) fn de_u64(b: &[u8], p: usize) -> (r: Option<(u64, usize)>)
    ensures
        ({
            match spec_de_u64(b@, p as int) {
                Some((v, q)) => r matches Some(pr) && pr.0 == v && pr.1 as int == q,
                None => r is None,
            }
        }),
{
    if b.len() < 8 || p > b.len() - 8 {
        return None;
    }
    let v = (b[p] as u64) | ((b[p + 1] as u64) << 8) | ((b[p + 2] as u64) << 16) | ((b[p
        + 3] as u64) << 24) | ((b[p + 4] as u64) << 32) | ((b[p + 5] as u64) << 40) | ((b[p
        + 6] as u64) << 48) | ((b[p + 7] as u64) << 56);
    Some((v, p + 8))
}

pub(crate) fn de_char(b: &[u8], p: usize) -> (r: Option<(char, usize)>)
    ensures
        ({
            match spec_de_char(b@, p as int) {
                Some((c, q)) => r matches Some(pr) && pr.0 == c && pr.1 as int == q,
                None => r is None,
            }
        }),
{
    match de_u64(b, p) {
        Some((u, q)) => {
            if u > u32::MAX as u64 {
                return None;
            }
            match char_from_u32(u as u32) {
                Some(c) => Some((c, q)),
                None => None,
            }
        },
        None => None,
    }
}

pub(crate) fn de_text(b: &[u8], p: usize) -> (r: Option<(String, usize)>)
    ensures
        ({
            match spec_de_text(b@, p as int) {
                Some((s, q)) => r matches Some(pr) && pr.0@ == s && pr.1 as int == q,
                None => r is None,
            }
        }),
{
    let (count, q0) = match de_u64(b, p) {
        Some(x) => x,
        None => {
            return None;
        },
    };
    if count > usize::MAX as u64 {
        return None;
    }
    let cnt = count as usize;
    let mut s = String::new();
    let mut pos = q0;
    let mut i: usize = 0;
    while i < cnt
        invariant
            i <= cnt,
            spec_de_text(b@, p as int) == spec_de_chars(b@, q0 as int, cnt as nat),
            spec_de_chars(b@, q0 as int, cnt as nat) == (match spec_de_chars(
                b@,
                pos as int,
                (cnt - i) as nat,
            ) {
                Some((rest, e)) => Some((s@ + rest, e)),
                None => None::<(Seq<char>, int)>,
            }),
        decreases cnt - i,
    {
        match de_char(b, pos) {
            Some((c, q2)) => {
                let ghost prev = s@;
                push_char(&mut s, c);
                proof {
                    if spec_de_chars(b@, q2 as int, (cnt - i - 1) as nat) is Some {
                        let rest = spec_de_chars(b@, q2 as int, (cnt - i - 1) as nat)->Some_0.0;
                        assert(prev + (seq![c] + rest) =~= s@ + rest);
                    }
                }
                pos = q2;
            },
            None => {
                return None;
            },
        }
        i = i + 1;
    }
    proof {
        assert(s@ + Seq::<char>::empty() =~= s@);
    }
    Some((s, pos))
}

#[verifier::rlimit(60)]
pub(crate) fn de_texts(b: &[u8], p: usize) -> (r: Option<(Vec<String>, usize)>)
    ensures
        ({
            match spec_de_texts(b@, p as int) {
                Some((l, q)) => r matches Some(pr) && pr.0.deep_view() == l && pr.1 as int == q,
                None => r is None,
            }
        }),
{
    let (count, q0) = match de_u64(b, p) {
        Some(x) => x,
        None => {
            return None;
        },
    };
    if count > usize::MAX as u64 {
        return None;
    }
    let cnt = count as usize;
    let mut l: Vec<String> = Vec::new();
    let mut pos = q0;
    let mut i: usize = 0;
    while i < cnt
        invariant
            i <= cnt,
            spec_de_texts(b@, p as int) == spec_de_texts_items(b@, q0 as int, cnt as nat),
            spec_de_texts_items(b@, q0 as int, cnt as nat) == (match spec_de_texts_items(
                b@,
                pos as int,
                (cnt - i) as nat,
            ) {
                Some((rest, e)) => Some((l.deep_view() + rest, e)),
                None => None::<(Seq<Seq<char>>, int)>,
            }),
        decreases cnt - i,
    {
        match de_text(b, pos) {
            Some((s, q2)) => {
                let ghost prev = l.deep_view();
                let ghost sv = s@;
                l.push(s);
                proof {
                    assert(l.deep_view() =~= prev.push(sv));
                    if spec_de_texts_items(b@, q2 as int, (cnt - i - 1) as nat) is Some {
                        let rest = spec_de_texts_items(
                            b@,
                            q2 as int,
                            (cnt - i - 1) as nat,
                        )->Some_0.0;
                        assert(prev + (seq![sv] + rest) =~= l.deep_view() + rest);
                    }
                }
                pos = q2;
            },
            None => {
                return None;
            },
        }
        i = i + 1;
    }
    proof {
        assert(l.deep_view() + Seq::<Seq<char>>::empty() =~= l.deep_view());
    }
    Some((l, pos))
}

#[verifier::rlimit(60)]
pub(crate) fn de_row(b: &[u8], p: usize) -> (r: Option<(Row, usize)>)
    ensures
        ({
            match spec_de_row(b@, p as int) {
                Some((m, q)) => r matches Some(pr) && pr.0@ == m && pr.1 as int == q,
                None => r is None,
            }
        }),
{
    let (count, q0) = match de_u64(b, p) {
        Some(x) => x,
        None => {
            return None;
        },
    };
    if count > usize::MAX as u64 {
        return None;
    }
    let cnt = count as usize;
    let mut data: Vec<(String, String)> = Vec::new();
    let mut pos = q0;
    let mut i: usize = 0;
    while i < cnt
        invariant
            i <= cnt,
            spec_de_row(b@, p as int) == spec_de_pairs(b@, q0 as int, cnt as nat),
            spec_de_pairs(b@, q0 as int, cnt as nat) == (match spec_de_pairs(
                b@,
                pos as int,
                (cnt - i) as nat,
            ) {
                Some((rest, e)) => Some(
                    (data@.map_values(|pr: (String, String)| (pr.0@, pr.1@)) + rest, e),
                ),
                None => None::<(RowModel, int)>,
            }),
        decreases cnt - i,
    {
        let (k, q1) = match de_text(b, pos) {
            Some(x) => x,
            None => {
                return None;
            },
        };
        let (v, q2) = match de_text(b, q1) {
            Some(x) => x,
            None => {
                return None;
            },
        };
        let ghost prev = data@.map_values(|pr: (String, String)| (pr.0@, pr.1@));
        let ghost kv = (k@, v@);
        let pair = (k, v);
        data.push(pair);
        proof {
            assert(data@.map_values(|pr: (String, String)| (pr.0@, pr.1@)) =~= prev.push(kv));
            if spec_de_pairs(b@, q2 as int, (cnt - i - 1) as nat) is Some {
                let rest = spec_de_pairs(b@, q2 as int, (cnt - i - 1) as nat)->Some_0.0;
                assert(prev + (seq![kv] + rest) =~= prev.push(kv) + rest);
            }
        }
        pos = q2;
        i = i + 1;
    }
    let row = Row { data };
    proof {
        assert(row@ + Seq::<(Seq<char>, Seq<char>)>::empty() =~= row@);
    }
    Some((row, pos))
}

#[verifier::rlimit(100)]
pub(crate) fn de_table(b: &[u8], p: usize) -> (r: Option<(Table, usize)>)
    ensures
        ({
            match spec_de_table(b@, p as int) {
                Some((m, q)) => r matches Some(pr) && pr.0@ == m && pr.1 as int == q,
                None => r is None,
            }
        }),
{
    let (columns, q1) = match de_texts(b, p) {
        Some(x) => x,
        None => {
            return None;
        },
    };
    let (count, q2) = match de_u64(b, q1) {
        Some(x) => x,
        None => {
            return None;
        },
    };
    if count > usize::MAX as u64 {
        return None;
    }
    let cnt = count as usize;
    let ghost colsv = columns.deep_view();
    let mut rows: Vec<(u64, Row)> = Vec::new();
    let mut pos = q2;
    let mut i: usize = 0;
    while i < cnt
        invariant
            i <= cnt,
            colsv == columns.deep_view(),
            spec_de_table(b@, p as int) == (match spec_de_rows_items(b@, q2 as int, cnt as nat) {
                Some((rws, q3)) => match spec_de_u64(b@, q3) {
                    Some((nxt, q4)) => Some(
                        (TableModel { columns: colsv, rows: rws, next_row_id: nxt }, q4),
                    ),
                    None => None::<(TableModel, int)>,
                },
                None => None::<(TableModel, int)>,
            }),
            spec_de_rows_items(b@, q2 as int, cnt as nat) == (match spec_de_rows_items(
                b@,
                pos as int,
                (cnt - i) as nat,
            ) {
                Some((rest, e)) => Some(
                    (rows@.map_values(|en: (u64, Row)| (en.0, en.1@)) + rest, e),
                ),
                None => None::<(Seq<(u64, RowModel)>, int)>,
            }),
        decreases cnt - i,
    {
        let (id, r1) = match de_u64(b, pos) {
            Some(x) => x,
            None => {
                return None;
            },
        };
        let (row, r2) = match de_row(b, r1) {
            Some(x) => x,
            None => {
                return None;
            },
        };
        let ghost prev = rows@.map_values(|en: (u64, Row)| (en.0, en.1@));
        let ghost item = (id, row@);
        let entry = (id, row);
        rows.push(entry);
        proof {
            assert(rows@.map_values(|en: (u64, Row)| (en.0, en.1@)) =~= prev.push(item));
            if spec_de_rows_items(b@, r2 as int, (cnt - i - 1) as nat) is Some {
                let rest = spec_de_rows_items(b@, r2 as int, (cnt - i - 1) as nat)->Some_0.0;
                assert(prev + (seq![item] + rest) =~= prev.push(item) + rest);
            }
        }
        pos = r2;
        i = i + 1;
    }
    let (next_row_id, q4) = match de_u64(b, pos) {
        Some(x) => x,
        None => {
            return None;
        },
    };
    let t = Table { columns, rows, next_row_id };
    proof {
        assert(t@.rows + Seq::<(u64, RowModel)>::empty() =~= t@.rows);
        assert(spec_de_rows_items(b@, q2 as int, cnt as nat) == Some(
            (t@.rows, pos as int),
        ));
    }
    Some((t, q4))
}

#[verifier::rlimit(100)]
pub(crate) fn de_engine(b: &[u8], p: usize) -> (r: Option<(StorageEngine, usize)>)
    ensures
        ({
            match spec_de_engine(b@, p as int) {
                Some((m, q)) => r matches Some(pr) && pr.0@ == m && pr.1 as int == q,
                None => r is None,
            }
        }),
{
    let (count, q0) = match de_u64(b, p) {
        Some(x) => x,
        None => {
            return None;
        },
    };
    if count > usize::MAX as u64 {
        return None;
    }
    let cnt = count as usize;
    let mut tables: Vec<(String, Table)> = Vec::new();
    let mut pos = q0;
    let mut i: usize = 0;
    while i < cnt
        invariant
            i <= cnt,
            spec_de_engine(b@, p as int) == spec_de_tables_items(b@, q0 as int, cnt as nat),
            spec_de_tables_items(b@, q0 as int, cnt as nat) == (match spec_de_tables_items(
                b@,
                pos as int,
                (cnt - i) as nat,
            ) {
                Some((rest, e)) => Some(
                    (tables@.map_values(|en: (String, Table)| (en.0@, en.1@)) + rest, e),
                ),
                None => None::<(EngineModel, int)>,
            }),
        decreases cnt - i,
    {
        let (name, r1) = match de_text(b, pos) {
            Some(x) => x,
            None => {
                return None;
            },
        };
        let (t, r2) = match de_table(b, r1) {
            Some(x) => x,
            None => {
                return None;
            },
        };
        let ghost prev = tables@.map_values(|en: (String, Table)| (en.0@, en.1@));
        let ghost item = (name@, t@);
        let entry = (name, t);
        tables.push(entry);
        proof {
            assert(tables@.map_values(|en: (String, Table)| (en.0@, en.1@)) =~= prev.push(item));
            if spec_de_tables_items(b@, r2 as int, (cnt - i - 1) as nat) is Some {
                let rest = spec_de_tables_items(b@, r2 as int, (cnt - i - 1) as nat)->Some_0.0;
                assert(prev + (seq![item] + rest) =~= prev.push(item) + rest);
            }
        }
        pos = r2;
        i = i + 1;
    }
    let engine = StorageEngine { tables };
    proof {
        assert(engine@ + Seq::<(Seq<char>, TableModel)>::empty() =~= engine@);
    }
    Some((engine, pos))
}

#[verifier::rlimit(100)]
pub proof fn lemma_deserialize_serialize(e: EngineModel)
    requires
        engine_wf(e),
        engine_bounded(e),
    ensures
        spec_deserialize(spec_serialize(e)) == Some(e),
{
    let b = spec_serialize(e);
    let x = spec_ser_u64(e.len() as u64);
    let y = spec_ser_tables_items(e);
    assert(b.subrange(0, b.len() as int) =~= x + y);
    lemma_split(b, 0, x, y);
    lemma_de_u64(b, 0, e.len() as u64);
    lemma_de_tables_items(b, 8, e);
}

} // verus!
