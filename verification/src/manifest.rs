//! The structural log: the append-only, durable record of table, row-group
//! and delete-vector lifecycle events, and the sole source of truth for
//! recovery.
//!
//! Entries are serialized as tagged records. A log is the concatenation of
//! records; decoding tolerates a truncated final record (a partial last
//! write) by discarding it, and replay additionally discards a trailing
//! epoch whose `Begin` marker has no matching `End`.

use vstd::prelude::*;
use crate::keys::{RowSetKey, DvKey};

verus! {

/// Registers a table: its stable numeric identity and its schema, as the
/// ordered sequence of numeric column identifiers.
#[derive(PartialEq, Eq, Debug)]
pub struct CreateTableEntry {
    pub table_id: u32,
    pub columns: Vec<u32>,
}

/// Removes a table from the catalog.
#[derive(Clone, Copy, PartialEq, Eq, Structural, Debug)]
pub struct DropTableEntry {
    pub table_id: u32,
}

/// A structural operation recorded in the log. `Begin` and `End` bracket a
/// logical epoch of related entries and carry no payload.
#[derive(PartialEq, Eq, Debug)]
pub enum ManifestOperation {
    CreateTable(CreateTableEntry),
    DropTable(DropTableEntry),
    AddRowSet(RowSetKey),
    DeleteRowSet(RowSetKey),
    AddDV(DvKey),
    DeleteDV(DvKey),
    Begin,
    End,
}

/// The mathematical form of a structural operation, with the schema as a
/// sequence; contracts and the replay model speak of this form.
pub enum OpView {
    CreateTable { table_id: u32, columns: Seq<u32> },
    DropTable { table_id: u32 },
    AddRowSet(RowSetKey),
    DeleteRowSet(RowSetKey),
    AddDV(DvKey),
    DeleteDV(DvKey),
    Begin,
    End,
}

impl View for ManifestOperation {
    type V = OpView;

    open spec fn view(&self) -> OpView {
        match self {
            ManifestOperation::CreateTable(e) => OpView::CreateTable {
                table_id: e.table_id,
                columns: e.columns@,
            },
            ManifestOperation::DropTable(e) => OpView::DropTable { table_id: e.table_id },
            ManifestOperation::AddRowSet(k) => OpView::AddRowSet(*k),
            ManifestOperation::DeleteRowSet(k) => OpView::DeleteRowSet(*k),
            ManifestOperation::AddDV(k) => OpView::AddDV(*k),
            ManifestOperation::DeleteDV(k) => OpView::DeleteDV(*k),
            ManifestOperation::Begin => OpView::Begin,
            ManifestOperation::End => OpView::End,
        }
    }
}

pub open spec fn ops_view(s: Seq<ManifestOperation>) -> Seq<OpView> {
    s.map_values(|op: ManifestOperation| op@)
}

/// Replay or recovery found the log internally inconsistent. The log is
/// assumed consistent by construction, so any of these indicates a bug or
/// disk corruption and is surfaced rather than silently patched.
#[derive(Clone, Copy, PartialEq, Eq, Structural, Debug)]
pub enum CorruptionError {
    /// A record starts with a byte that names no operation.
    InvalidTag(u8),
    /// `CreateTable` for a table identifier already registered.
    DuplicateTable(u32),
    /// `DropTable` for a table identifier not registered.
    UnknownTable(u32),
    /// A surviving row group references a table absent from the catalog.
    DanglingRowSet(RowSetKey),
    /// A surviving delete vector references a table absent from the catalog.
    DanglingDeleteVector(DvKey),
    /// An `Add*` entry carries the largest representable identifier, so the
    /// allocator's next value would not be representable.
    IdentifierOverflow,
}

pub const TAG_CREATE_TABLE: u8 = 1;

pub const TAG_DROP_TABLE: u8 = 2;

pub const TAG_ADD_ROWSET: u8 = 3;

pub const TAG_DELETE_ROWSET: u8 = 4;

pub const TAG_ADD_DV: u8 = 5;

pub const TAG_DELETE_DV: u8 = 6;

pub const TAG_BEGIN: u8 = 7;

pub const TAG_END: u8 = 8;

pub open spec fn u32_le(x: u32) -> Seq<u8> {
    seq![
        (x & 0xff) as u8,
        ((x >> 8) & 0xff) as u8,
        ((x >> 16) & 0xff) as u8,
        ((x >> 24) & 0xff) as u8,
    ]
}

pub open spec fn u32_of_le(b0: u8, b1: u8, b2: u8, b3: u8) -> u32 {
    (b0 as u32) | ((b1 as u32) << 8) | ((b2 as u32) << 16) | ((b3 as u32) << 24)
}

pub open spec fn u64_le(x: u64) -> Seq<u8> {
    seq![
        (x & 0xff) as u8,
        ((x >> 8) & 0xff) as u8,
        ((x >> 16) & 0xff) as u8,
        ((x >> 24) & 0xff) as u8,
        ((x >> 32) & 0xff) as u8,
        ((x >> 40) & 0xff) as u8,
        ((x >> 48) & 0xff) as u8,
        ((x >> 56) & 0xff) as u8,
    ]
}

pub open spec fn u64_of_le(
    b0: u8,
    b1: u8,
    b2: u8,
    b3: u8,
    b4: u8,
    b5: u8,
    b6: u8,
    b7: u8,
) -> u64 {
    (b0 as u64) | ((b1 as u64) << 8) | ((b2 as u64) << 16) | ((b3 as u64) << 24) | ((b4 as u64)
        << 32) | ((b5 as u64) << 40) | ((b6 as u64) << 48) | ((b7 as u64) << 56)
}

proof fn lemma_u32_le_round_trip(x: u32)
    ensures
        u32_of_le(u32_le(x)[0], u32_le(x)[1], u32_le(x)[2], u32_le(x)[3]) == x,
{
    assert((((x & 0xff) as u8) as u32) | (((((x >> 8) & 0xff) as u8) as u32) << 8) | (((((x >> 16)
        & 0xff) as u8) as u32) << 16) | (((((x >> 24) & 0xff) as u8) as u32) << 24) == x)
        by (bit_vector);
}

proof fn lemma_u64_le_round_trip(x: u64)
    ensures
        u64_of_le(
            u64_le(x)[0],
            u64_le(x)[1],
            u64_le(x)[2],
            u64_le(x)[3],
            u64_le(x)[4],
            u64_le(x)[5],
            u64_le(x)[6],
            u64_le(x)[7],
        ) == x,
{
    assert((((x & 0xff) as u8) as u64) | (((((x >> 8) & 0xff) as u8) as u64) << 8) | (((((x >> 16)
        & 0xff) as u8) as u64) << 16) | (((((x >> 24) & 0xff) as u8) as u64) << 24) | (((((x >> 32)
        & 0xff) as u8) as u64) << 32) | (((((x >> 40) & 0xff) as u8) as u64) << 40) | (((((x >> 48)
        & 0xff) as u8) as u64) << 48) | (((((x >> 56) & 0xff) as u8) as u64) << 56) == x)
        by (bit_vector);
}

/// Little-endian value of the four bytes of `b` starting at `p`.
pub open spec fn u32_at(b: Seq<u8>, p: int) -> u32 {
    u32_of_le(b[p], b[p + 1], b[p + 2], b[p + 3])
}

/// Little-endian value of the eight bytes of `b` starting at `p`.
pub open spec fn u64_at(b: Seq<u8>, p: int) -> u64 {
    u64_of_le(b[p], b[p + 1], b[p + 2], b[p + 3], b[p + 4], b[p + 5], b[p + 6], b[p + 7])
}

pub open spec fn spec_encode_cols(cols: Seq<u32>) -> Seq<u8>
    decreases cols.len(),
{
    if cols.len() == 0 {
        Seq::empty()
    } else {
        u32_le(cols[0]) + spec_encode_cols(cols.drop_first())
    }
}

/// The byte encoding of one structural operation.
pub open spec fn spec_encode_op(op: OpView) -> Seq<u8> {
    match op {
        OpView::CreateTable { table_id, columns } => seq![TAG_CREATE_TABLE] + u32_le(table_id)
            + u32_le(columns.len() as u32) + spec_encode_cols(columns),
        OpView::DropTable { table_id } => seq![TAG_DROP_TABLE] + u32_le(table_id),
        OpView::AddRowSet(k) => seq![TAG_ADD_ROWSET] + u32_le(k.table_id) + u32_le(k.rowset_id),
        OpView::DeleteRowSet(k) => seq![TAG_DELETE_ROWSET] + u32_le(k.table_id) + u32_le(
            k.rowset_id,
        ),
        OpView::AddDV(k) => seq![TAG_ADD_DV] + u32_le(k.table_id) + u32_le(k.rowset_id) + u64_le(
            k.dv_id,
        ),
        OpView::DeleteDV(k) => seq![TAG_DELETE_DV] + u32_le(k.table_id) + u32_le(k.rowset_id)
            + u64_le(k.dv_id),
        OpView::Begin => seq![TAG_BEGIN],
        OpView::End => seq![TAG_END],
    }
}

/// A `CreateTable` schema must fit the record's 32-bit column count.
pub open spec fn wf_op(op: OpView) -> bool {
    match op {
        OpView::CreateTable { table_id, columns } => columns.len() <= 0xffff_ffff,
        _ => true,
    }
}

/// A log is the concatenation of its records, in append order.
pub open spec fn spec_encode_log(ops: Seq<OpView>) -> Seq<u8>
    decreases ops.len(),
{
    if ops.len() == 0 {
        Seq::empty()
    } else {
        spec_encode_op(ops[0]) + spec_encode_log(ops.drop_first())
    }
}

pub open spec fn dec_cons(op: OpView, rest: Result<Seq<OpView>, CorruptionError>) -> Result<
    Seq<OpView>,
    CorruptionError,
> {
    match rest {
        Ok(s) => Ok(seq![op] + s),
        Err(e) => Err(e),
    }
}

pub open spec fn spec_decode_cols(b: Seq<u8>, n: int) -> Seq<u32>
    decreases n,
{
    if n <= 0 {
        Seq::empty()
    } else {
        seq![u32_at(b, 0)] + spec_decode_cols(b.skip(4), n - 1)
    }
}

/// What decoding a byte sequence yields: the decoded operations in order, an
/// incomplete trailing record discarded; or the first unknown tag met.
pub open spec fn spec_decode(b: Seq<u8>) -> Result<Seq<OpView>, CorruptionError>
    decreases b.len(),
{
    if b.len() == 0 {
        Ok(Seq::empty())
    } else {
        let tag = b[0];
        if tag == TAG_CREATE_TABLE {
            if b.len() < 9 {
                Ok(Seq::empty())
            } else {
                let n = u32_at(b, 5) as int;
                if b.len() < 9 + 4 * n {
                    Ok(Seq::empty())
                } else {
                    dec_cons(
                        OpView::CreateTable {
                            table_id: u32_at(b, 1),
                            columns: spec_decode_cols(b.skip(9), n),
                        },
                        spec_decode(b.skip(9 + 4 * n)),
                    )
                }
            }
        } else if tag == TAG_DROP_TABLE {
            if b.len() < 5 {
                Ok(Seq::empty())
            } else {
                dec_cons(OpView::DropTable { table_id: u32_at(b, 1) }, spec_decode(b.skip(5)))
            }
        } else if tag == TAG_ADD_ROWSET {
            if b.len() < 9 {
                Ok(Seq::empty())
            } else {
                dec_cons(
                    OpView::AddRowSet(RowSetKey { table_id: u32_at(b, 1), rowset_id: u32_at(b, 5) }),
                    spec_decode(b.skip(9)),
                )
            }
        } else if tag == TAG_DELETE_ROWSET {
            if b.len() < 9 {
                Ok(Seq::empty())
            } else {
                dec_cons(
                    OpView::DeleteRowSet(
                        RowSetKey { table_id: u32_at(b, 1), rowset_id: u32_at(b, 5) },
                    ),
                    spec_decode(b.skip(9)),
                )
            }
        } else if tag == TAG_ADD_DV {
            if b.len() < 17 {
                Ok(Seq::empty())
            } else {
                dec_cons(
                    OpView::AddDV(
                        DvKey {
                            table_id: u32_at(b, 1),
                            rowset_id: u32_at(b, 5),
                            dv_id: u64_at(b, 9),
                        },
                    ),
                    spec_decode(b.skip(17)),
                )
            }
        } else if tag == TAG_DELETE_DV {
            if b.len() < 17 {
                Ok(Seq::empty())
            } else {
                dec_cons(
                    OpView::DeleteDV(
                        DvKey {
                            table_id: u32_at(b, 1),
                            rowset_id: u32_at(b, 5),
                            dv_id: u64_at(b, 9),
                        },
                    ),
                    spec_decode(b.skip(17)),
                )
            }
        } else if tag == TAG_BEGIN {
            dec_cons(OpView::Begin, spec_decode(b.skip(1)))
        } else if tag == TAG_END {
            dec_cons(OpView::End, spec_decode(b.skip(1)))
        } else {
            Err(CorruptionError::InvalidTag(tag))
        }
    }
}

fn push_u32_le(out: &mut Vec<u8>, x: u32)
    ensures
        final(out)@ == old(out)@ + u32_le(x),
{
    out.push((x & 0xff) as u8);
    out.push(((x >> 8) & 0xff) as u8);
    out.push(((x >> 16) & 0xff) as u8);
    out.push(((x >> 24) & 0xff) as u8);
    proof {
        assert(out@ =~= old(out)@ + u32_le(x));
    }
}

fn push_u64_le(out: &mut Vec<u8>, x: u64)
    ensures
        final(out)@ == old(out)@ + u64_le(x),
{
    out.push((x & 0xff) as u8);
    out.push(((x >> 8) & 0xff) as u8);
    out.push(((x >> 16) & 0xff) as u8);
    out.push(((x >> 24) & 0xff) as u8);
    out.push(((x >> 32) & 0xff) as u8);
    out.push(((x >> 40) & 0xff) as u8);
    out.push(((x >> 48) & 0xff) as u8);
    out.push(((x >> 56) & 0xff) as u8);
    proof {
        assert(out@ =~= old(out)@ + u64_le(x));
    }
}

fn read_u32_le(bytes: &Vec<u8>, p: usize) -> (x: u32)
    requires
        p + 4 <= bytes@.len(),
    ensures
        x == u32_at(bytes@, p as int),
{
    let n = bytes.len();
    (bytes[p] as u32) | ((bytes[p + 1] as u32) << 8u32) | ((bytes[p + 2] as u32) << 16u32) | ((
    bytes[p + 3] as u32) << 24u32)
}

fn read_u64_le(bytes: &Vec<u8>, p: usize) -> (x: u64)
    requires
        p + 8 <= bytes@.len(),
    ensures
        x == u64_at(bytes@, p as int),
{
    let n = bytes.len();
    (bytes[p] as u64) | ((bytes[p + 1] as u64) << 8u64) | ((bytes[p + 2] as u64) << 16u64) | ((
    bytes[p + 3] as u64) << 24u64) | ((bytes[p + 4] as u64) << 32u64) | ((bytes[p + 5] as u64)
        << 40u64) | ((bytes[p + 6] as u64) << 48u64) | ((bytes[p + 7] as u64) << 56u64)
}

proof fn lemma_encode_cols_push(cols: Seq<u32>, c: u32)
    ensures
        spec_encode_cols(cols.push(c)) == spec_encode_cols(cols) + u32_le(c),
    decreases cols.len(),
{
    if cols.len() == 0 {
        assert(cols.push(c)[0] == c);
        assert(cols.push(c).drop_first() =~= Seq::<u32>::empty());
        assert(spec_encode_cols(cols.push(c)) == u32_le(c) + spec_encode_cols(
            Seq::<u32>::empty(),
        ));
        assert(u32_le(c) + Seq::<u8>::empty() =~= Seq::<u8>::empty() + u32_le(c));
    } else {
        lemma_encode_cols_push(cols.drop_first(), c);
        assert(cols.push(c)[0] == cols[0]);
        assert(cols.push(c).drop_first() =~= cols.drop_first().push(c));
        assert(spec_encode_cols(cols.push(c)) == u32_le(cols[0]) + spec_encode_cols(
            cols.drop_first().push(c),
        ));
        assert(u32_le(cols[0]) + (spec_encode_cols(cols.drop_first()) + u32_le(c)) =~= (u32_le(
            cols[0],
        ) + spec_encode_cols(cols.drop_first())) + u32_le(c));
    }
}

proof fn lemma_encode_log_push(ops: Seq<OpView>, op: OpView)
    ensures
        spec_encode_log(ops.push(op)) == spec_encode_log(ops) + spec_encode_op(op),
    decreases ops.len(),
{
    if ops.len() == 0 {
        assert(ops.push(op)[0] == op);
        assert(ops.push(op).drop_first() =~= Seq::<OpView>::empty());
        assert(spec_encode_log(ops.push(op)) == spec_encode_op(op) + spec_encode_log(
            Seq::<OpView>::empty(),
        ));
        assert(spec_encode_op(op) + Seq::<u8>::empty() =~= Seq::<u8>::empty() + spec_encode_op(
            op,
        ));
    } else {
        lemma_encode_log_push(ops.drop_first(), op);
        assert(ops.push(op)[0] == ops[0]);
        assert(ops.push(op).drop_first() =~= ops.drop_first().push(op));
        assert(spec_encode_log(ops.push(op)) == spec_encode_op(ops[0]) + spec_encode_log(
            ops.drop_first().push(op),
        ));
        assert(spec_encode_op(ops[0]) + (spec_encode_log(ops.drop_first()) + spec_encode_op(op))
            =~= (spec_encode_op(ops[0]) + spec_encode_log(ops.drop_first())) + spec_encode_op(op));
    }
}

/// Serializes one structural operation to the bytes of its record.
pub fn encode_op(op: &ManifestOperation) -> (r: Vec<u8>)
    requires
        wf_op(op@),
    ensures
        r@ == spec_encode_op(op@),
{
    let mut out: Vec<u8> = Vec::new();
    match op {
        ManifestOperation::CreateTable(e) => {
            out.push(TAG_CREATE_TABLE);
            push_u32_le(&mut out, e.table_id);
            push_u32_le(&mut out, e.columns.len() as u32);
            let n = e.columns.len();
            let mut j: usize = 0;
            while j < n
                invariant
                    j <= n,
                    n == e.columns@.len(),
                    out@ == seq![TAG_CREATE_TABLE] + u32_le(e.table_id) + u32_le(n as u32)
                        + spec_encode_cols(e.columns@.take(j as int)),
                decreases n - j,
            {
                proof {
                    lemma_encode_cols_push(e.columns@.take(j as int), e.columns@[j as int]);
                    assert(e.columns@.take(j as int).push(e.columns@[j as int]) =~= e.columns@.take(
                        j as int + 1,
                    ));
                }
                push_u32_le(&mut out, e.columns[j]);
                j += 1;
            }
            proof {
                assert(e.columns@.take(n as int) =~= e.columns@);
            }
        },
        ManifestOperation::DropTable(e) => {
            out.push(TAG_DROP_TABLE);
            push_u32_le(&mut out, e.table_id);
        },
        ManifestOperation::AddRowSet(k) => {
            out.push(TAG_ADD_ROWSET);
            push_u32_le(&mut out, k.table_id);
            push_u32_le(&mut out, k.rowset_id);
        },
        ManifestOperation::DeleteRowSet(k) => {
            out.push(TAG_DELETE_ROWSET);
            push_u32_le(&mut out, k.table_id);
            push_u32_le(&mut out, k.rowset_id);
        },
        ManifestOperation::AddDV(k) => {
            out.push(TAG_ADD_DV);
            push_u32_le(&mut out, k.table_id);
            push_u32_le(&mut out, k.rowset_id);
            push_u64_le(&mut out, k.dv_id);
        },
        ManifestOperation::DeleteDV(k) => {
            out.push(TAG_DELETE_DV);
            push_u32_le(&mut out, k.table_id);
            push_u32_le(&mut out, k.rowset_id);
            push_u64_le(&mut out, k.dv_id);
        },
        ManifestOperation::Begin => {
            out.push(TAG_BEGIN);
        },
        ManifestOperation::End => {
            out.push(TAG_END);
        },
    }
    proof {
        assert(out@ =~= spec_encode_op(op@));
    }
    out
}

/// Serializes a sequence of operations to the bytes of a log, in order:
/// what `append` hands to durable storage.
pub fn encode_log(ops: &Vec<ManifestOperation>) -> (r: Vec<u8>)
    requires
        forall|i: int| 0 <= i < ops@.len() ==> wf_op(#[trigger] ops@[i]@),
    ensures
        r@ == spec_encode_log(ops_view(ops@)),
{
    let n = ops.len();
    let mut out: Vec<u8> = Vec::new();
    let mut i: usize = 0;
    while i < n
        invariant
            i <= n,
            n == ops@.len(),
            forall|j: int| 0 <= j < ops@.len() ==> wf_op(#[trigger] ops@[j]@),
            out@ == spec_encode_log(ops_view(ops@).take(i as int)),
        decreases n - i,
    {
        proof {
            lemma_encode_log_push(ops_view(ops@).take(i as int), ops@[i as int]@);
            assert(ops_view(ops@).take(i as int).push(ops@[i as int]@) =~= ops_view(ops@).take(
                i as int + 1,
            ));
        }
        let mut rec = encode_op(&ops[i]);
        out.append(&mut rec);
        i += 1;
    }
    proof {
        assert(ops_view(ops@).take(n as int) =~= ops_view(ops@));
    }
    out
}

pub open spec fn dec_concat(pre: Seq<OpView>, rest: Result<Seq<OpView>, CorruptionError>) -> Result<
    Seq<OpView>,
    CorruptionError,
> {
    match rest {
        Ok(s) => Ok(pre + s),
        Err(e) => Err(e),
    }
}

proof fn lemma_dec_concat_nil(rest: Result<Seq<OpView>, CorruptionError>)
    ensures
        dec_concat(Seq::empty(), rest) == rest,
{
    match rest {
        Ok(s) => {
            assert(Seq::<OpView>::empty() + s =~= s);
        },
        Err(e) => {},
    }
}

proof fn lemma_dec_concat_push(
    pre: Seq<OpView>,
    op: OpView,
    rest: Result<Seq<OpView>, CorruptionError>,
)
    ensures
        dec_concat(pre.push(op), rest) == dec_concat(pre, dec_cons(op, rest)),
{
    match rest {
        Ok(s) => {
            assert(pre.push(op) + s =~= pre + (seq![op] + s));
        },
        Err(e) => {},
    }
}

proof fn lemma_ops_view_push(s: Seq<ManifestOperation>, op: ManifestOperation)
    ensures
        ops_view(s.push(op)) == ops_view(s).push(op@),
{
    assert(ops_view(s.push(op)) =~= ops_view(s).push(op@));
}

proof fn lemma_decode_cols_index(b: Seq<u8>, n: int)
    requires
        0 <= 4 * n <= b.len(),
    ensures
        spec_decode_cols(b, n).len() == n,
        forall|i: int| 0 <= i < n ==> spec_decode_cols(b, n)[i] == u32_at(b, 4 * i),
    decreases n,
{
    if n > 0 {
        lemma_decode_cols_index(b.skip(4), n - 1);
        assert forall|i: int| 0 <= i < n implies spec_decode_cols(b, n)[i] == u32_at(b, 4 * i) by {
            if i > 0 {
                assert(spec_decode_cols(b, n)[i] == spec_decode_cols(b.skip(4), n - 1)[i - 1]);
                assert(b.skip(4)[4 * (i - 1)] == b[4 * i]);
                assert(b.skip(4)[4 * (i - 1) + 1] == b[4 * i + 1]);
                assert(b.skip(4)[4 * (i - 1) + 2] == b[4 * i + 2]);
                assert(b.skip(4)[4 * (i - 1) + 3] == b[4 * i + 3]);
            }
        }
    }
}

/// Reads the record that starts at `p`: `Ok(Some(entry, next))` for a
/// complete record, `Ok(None)` for an incomplete trailing one, `Err` for an
/// unknown tag.
#[verifier::rlimit(100)]
fn decode_record(bytes: &Vec<u8>, p: usize) -> (r: Result<
    Option<(ManifestOperation, usize)>,
    CorruptionError,
>)
    requires
        p < bytes@.len(),
    ensures
        (match r {
            Ok(Some((op, p2))) => p < p2 <= bytes@.len() && spec_decode(bytes@.skip(p as int))
                == dec_cons(op@, spec_decode(bytes@.skip(p2 as int))),
            Ok(None) => spec_decode(bytes@.skip(p as int)) == Ok::<Seq<OpView>, CorruptionError>(
                Seq::empty(),
            ),
            Err(e) => spec_decode(bytes@.skip(p as int)) == Err::<Seq<OpView>, CorruptionError>(e),
        }),
{
    let n = bytes.len();
    let ghost s = bytes@.skip(p as int);
    proof {
        assert(s.len() == n - p);
        assert forall|m: int| 0 <= m < s.len() implies s[m] == bytes@[p + m] by {}
    }
    let tag = bytes[p];
    if tag == TAG_CREATE_TABLE {
        decode_create_table(bytes, p)
    } else if tag == TAG_DROP_TABLE {
        if n - p < 5 {
            return Ok(None);
        }
        let table_id = read_u32_le(bytes, p + 1);
        let op = ManifestOperation::DropTable(DropTableEntry { table_id });
        proof {
            assert(u32_at(s, 1) == table_id);
            assert(s.skip(5) =~= bytes@.skip(p + 5));
            assert(spec_decode(s) == dec_cons(op@, spec_decode(bytes@.skip(p + 5))));
        }
        Ok(Some((op, p + 5)))
    } else if tag == TAG_ADD_ROWSET || tag == TAG_DELETE_ROWSET {
        if n - p < 9 {
            return Ok(None);
        }
        let table_id = read_u32_le(bytes, p + 1);
        let rowset_id = read_u32_le(bytes, p + 5);
        let k = RowSetKey { table_id, rowset_id };
        let op = if tag == TAG_ADD_ROWSET {
            ManifestOperation::AddRowSet(k)
        } else {
            ManifestOperation::DeleteRowSet(k)
        };
        proof {
            assert(u32_at(s, 1) == table_id);
            assert(u32_at(s, 5) == rowset_id);
            assert(s.skip(9) =~= bytes@.skip(p + 9));
            assert(spec_decode(s) == dec_cons(op@, spec_decode(bytes@.skip(p + 9))));
        }
        Ok(Some((op, p + 9)))
    } else if tag == TAG_ADD_DV || tag == TAG_DELETE_DV {
        if n - p < 17 {
            return Ok(None);
        }
        let table_id = read_u32_le(bytes, p + 1);
        let rowset_id = read_u32_le(bytes, p + 5);
        let dv_id = read_u64_le(bytes, p + 9);
        let k = DvKey { table_id, rowset_id, dv_id };
        let op = if tag == TAG_ADD_DV {
            ManifestOperation::AddDV(k)
        } else {
            ManifestOperation::DeleteDV(k)
        };
        proof {
            assert(u32_at(s, 1) == table_id);
            assert(u32_at(s, 5) == rowset_id);
            assert(u64_at(s, 9) == dv_id);
            assert(s.skip(17) =~= bytes@.skip(p + 17));
            assert(spec_decode(s) == dec_cons(op@, spec_decode(bytes@.skip(p + 17))));
        }
        Ok(Some((op, p + 17)))
    } else if tag == TAG_BEGIN || tag == TAG_END {
        let op = if tag == TAG_BEGIN {
            ManifestOperation::Begin
        } else {
            ManifestOperation::End
        };
        proof {
            assert(s.skip(1) =~= bytes@.skip(p + 1));
            assert(spec_decode(s) == dec_cons(op@, spec_decode(bytes@.skip(p + 1))));
        }
        Ok(Some((op, p + 1)))
    } else {
        proof {
            assert(spec_decode(s) == Err::<Seq<OpView>, CorruptionError>(
                CorruptionError::InvalidTag(tag),
            ));
        }
        Err(CorruptionError::InvalidTag(tag))
    }
}

/// The `CreateTable` record alone has a variable length: its header names
/// how many column identifiers follow.
#[verifier::rlimit(100)]
fn decode_create_table(bytes: &Vec<u8>, p: usize) -> (r: Result<
    Option<(ManifestOperation, usize)>,
    CorruptionError,
>)
    requires
        p < bytes@.len(),
        bytes@[p as int] == TAG_CREATE_TABLE,
    ensures
        (match r {
            Ok(Some((op, p2))) => p < p2 <= bytes@.len() && spec_decode(bytes@.skip(p as int))
                == dec_cons(op@, spec_decode(bytes@.skip(p2 as int))),
            Ok(None) => spec_decode(bytes@.skip(p as int)) == Ok::<Seq<OpView>, CorruptionError>(
                Seq::empty(),
            ),
            Err(e) => spec_decode(bytes@.skip(p as int)) == Err::<Seq<OpView>, CorruptionError>(e),
        }),
{
    let n = bytes.len();
    let ghost s = bytes@.skip(p as int);
    proof {
        assert(s.len() == n - p);
        assert forall|m: int| 0 <= m < s.len() implies s[m] == bytes@[p + m] by {}
    }
    if n - p < 9 {
        return Ok(None);
    }
    let table_id = read_u32_le(bytes, p + 1);
    let ncols = read_u32_le(bytes, p + 5);
    proof {
        assert(u32_at(s, 1) == table_id);
        assert(u32_at(s, 5) == ncols);
    }
    let ghost nc = ncols as int;
    let rem = n - p - 9;
    if ((rem as u64) / 4) < (ncols as u64) {
        proof {
            assert((rem as int) / 4 < nc ==> (rem as int) < 4 * nc) by (nonlinear_arith)
                requires
                    rem as int >= 0 && nc >= 0,
            ;
            assert(s.len() < 9 + 4 * nc);
        }
        return Ok(None);
    }
    proof {
        assert((rem as int) / 4 >= nc ==> (rem as int) >= 4 * nc) by (nonlinear_arith)
            requires
                rem as int >= 0 && nc >= 0,
        ;
        assert(s.len() >= 9 + 4 * nc);
    }
    let ncs = ncols as usize;
    let mut cols: Vec<u32> = Vec::new();
    let mut j: usize = 0;
    while j < ncs
        invariant
            j <= ncs,
            ncs == nc,
            n == bytes@.len(),
            p + 9 + 4 * ncs <= n,
            cols@.len() == j,
            forall|i: int| 0 <= i < j ==> cols@[i] == u32_at(bytes@, p + 9 + 4 * i),
        decreases ncs - j,
    {
        let c = read_u32_le(bytes, p + 9 + 4 * j);
        cols.push(c);
        j += 1;
    }
    proof {
        lemma_decode_cols_index(bytes@.skip(p + 9), nc);
        assert forall|i: int| 0 <= i < nc implies spec_decode_cols(bytes@.skip(p + 9), nc)[i]
            == cols@[i] by {
            assert(bytes@.skip(p + 9)[4 * i] == bytes@[p + 9 + 4 * i]);
            assert(bytes@.skip(p + 9)[4 * i + 1] == bytes@[p + 9 + 4 * i + 1]);
            assert(bytes@.skip(p + 9)[4 * i + 2] == bytes@[p + 9 + 4 * i + 2]);
            assert(bytes@.skip(p + 9)[4 * i + 3] == bytes@[p + 9 + 4 * i + 3]);
        }
        assert(cols@ =~= spec_decode_cols(bytes@.skip(p + 9), nc));
        assert(s.skip(9) =~= bytes@.skip(p + 9));
        assert(s.skip(9 + 4 * nc) =~= bytes@.skip(p + 9 + 4 * nc));
    }
    let p2 = p + 9 + 4 * ncs;
    let op = ManifestOperation::CreateTable(CreateTableEntry { table_id, columns: cols });
    proof {
        assert(spec_decode(s) == dec_cons(op@, spec_decode(bytes@.skip(p2 as int))));
    }
    Ok(Some((op, p2)))
}

/// Deserializes a log. An incomplete trailing record is discarded, because a
/// partial last write must not be mistaken for a committed entry; an unknown
/// tag is corruption.
pub fn decode_log(bytes: &Vec<u8>) -> (r: Result<Vec<ManifestOperation>, CorruptionError>)
    ensures
        spec_decode(bytes@) matches Ok(ops) ==> (r matches Ok(v) && ops_view(v@) == ops),
        spec_decode(bytes@) matches Err(e) ==> r == Result::<
            Vec<ManifestOperation>,
            CorruptionError,
        >::Err(e),
{
    let n = bytes.len();
    let mut acc: Vec<ManifestOperation> = Vec::new();
    let mut p: usize = 0;
    proof {
        assert(bytes@.skip(0) =~= bytes@);
        assert(ops_view(acc@) =~= Seq::<OpView>::empty());
        lemma_dec_concat_nil(spec_decode(bytes@));
    }
    while p < n
        invariant
            p <= n,
            n == bytes@.len(),
            spec_decode(bytes@) == dec_concat(ops_view(acc@), spec_decode(bytes@.skip(p as int))),
        decreases n - p,
    {
        match decode_record(bytes, p) {
            Ok(Some(op_next)) => {
                let (op, p2) = op_next;
                proof {
                    lemma_dec_concat_push(ops_view(acc@), op@, spec_decode(bytes@.skip(p2 as int)));
                    lemma_ops_view_push(acc@, op);
                }
                acc.push(op);
                p = p2;
            },
            Ok(None) => {
                proof {
                    assert(ops_view(acc@) + Seq::<OpView>::empty() =~= ops_view(acc@));
                }
                return Ok(acc);
            },
            Err(e) => {
                return Err(e);
            },
        }
    }
    proof {
        assert(bytes@.skip(n as int) =~= Seq::<u8>::empty());
        assert(spec_decode(bytes@.skip(n as int)) == Ok::<Seq<OpView>, CorruptionError>(
            Seq::empty(),
        ));
        assert(ops_view(acc@) + Seq::<OpView>::empty() =~= ops_view(acc@));
    }
    Ok(acc)
}

/// Where replay cuts the entry sequence: everything from the first `Begin`
/// that no later `End` matches is part of a half-written epoch and is
/// discarded; with no such `Begin`, nothing is.
pub open spec fn cut_point(ops: Seq<OpView>) -> int
    decreases ops.len(),
{
    if ops.len() == 0 {
        0
    } else if ops.last() == OpView::End {
        ops.len() as int
    } else if ops.last() == OpView::Begin {
        cut_point(ops.drop_last())
    } else {
        let c = cut_point(ops.drop_last());
        if c == ops.len() - 1 {
            ops.len() as int
        } else {
            c
        }
    }
}

/// Discards a trailing epoch left open by a crash: every entry from the
/// first unmatched `Begin` on. A `Begin` matched by a later `End` keeps its
/// epoch's entries.
pub fn strip_incomplete_epoch(ops: Vec<ManifestOperation>) -> (r: Vec<ManifestOperation>)
    ensures
        ops_view(r@) == ops_view(ops@).take(cut_point(ops_view(ops@))),
{
    let mut v = ops;
    let ghost full = ops_view(v@);
    let n = v.len();
    let mut c: usize = 0;
    let mut i: usize = 0;
    proof {
        assert(full.take(0) =~= Seq::<OpView>::empty());
    }
    while i < n
        invariant
            i <= n,
            c <= i,
            n == v@.len(),
            full == ops_view(v@),
            c as int == cut_point(full.take(i as int)),
        decreases n - i,
    {
        proof {
            assert(full.take(i as int + 1).drop_last() =~= full.take(i as int));
            assert(full.take(i as int + 1).last() == v@[i as int]@);
        }
        match &v[i] {
            ManifestOperation::End => {
                c = i + 1;
            },
            ManifestOperation::Begin => {},
            _ => {
                if c == i {
                    c = i + 1;
                }
            },
        }
        i += 1;
    }
    proof {
        assert(full.take(n as int) =~= full);
    }
    v.truncate(c);
    proof {
        assert(ops_view(v@) =~= full.take(c as int));
    }
    v
}

/// What replay yields from the bytes of a log: the decoded entries with any
/// half-written trailing epoch discarded, or the corruption met.
pub open spec fn spec_replay(b: Seq<u8>) -> Result<Seq<OpView>, CorruptionError> {
    match spec_decode(b) {
        Ok(ops) => Ok(ops.take(cut_point(ops))),
        Err(e) => Err(e),
    }
}

/// Reads the entire log once, in write order, and returns the surviving
/// entries verbatim; folding them is the caller's concern.
pub fn replay(bytes: &Vec<u8>) -> (r: Result<Vec<ManifestOperation>, CorruptionError>)
    ensures
        spec_replay(bytes@) matches Ok(ops) ==> (r matches Ok(v) && ops_view(v@) == ops),
        spec_replay(bytes@) matches Err(e) ==> r == Result::<
            Vec<ManifestOperation>,
            CorruptionError,
        >::Err(e),
{
    match decode_log(bytes) {
        Ok(v) => Ok(strip_incomplete_epoch(v)),
        Err(e) => Err(e),
    }
}


proof fn lemma_encode_cols_len(cols: Seq<u32>)
    ensures
        spec_encode_cols(cols).len() == 4 * cols.len(),
    decreases cols.len(),
{
    if cols.len() > 0 {
        lemma_encode_cols_len(cols.drop_first());
    }
}

proof fn lemma_cols_round_trip(cols: Seq<u32>, rest: Seq<u8>)
    ensures
        spec_decode_cols(spec_encode_cols(cols) + rest, cols.len() as int) == cols,
    decreases cols.len(),
{
    if cols.len() == 0 {
        assert(spec_decode_cols(spec_encode_cols(cols) + rest, 0) =~= cols);
    } else {
        let b = spec_encode_cols(cols) + rest;
        assert(spec_encode_cols(cols) == u32_le(cols[0]) + spec_encode_cols(cols.drop_first()));
        assert(b =~= u32_le(cols[0]) + (spec_encode_cols(cols.drop_first()) + rest));
        lemma_u32_le_round_trip(cols[0]);
        assert(b[0] == u32_le(cols[0])[0]);
        assert(b[1] == u32_le(cols[0])[1]);
        assert(b[2] == u32_le(cols[0])[2]);
        assert(b[3] == u32_le(cols[0])[3]);
        assert(u32_at(b, 0) == cols[0]);
        lemma_encode_cols_len(cols);
        assert(b.skip(4) =~= spec_encode_cols(cols.drop_first()) + rest);
        lemma_cols_round_trip(cols.drop_first(), rest);
        assert(spec_decode_cols(b, cols.len() as int) =~= cols);
    }
}

/// Decoding steps over one well-formed record and goes on with the rest.
#[verifier::rlimit(100)]
proof fn lemma_decode_one(op: OpView, rest: Seq<u8>)
    requires
        wf_op(op),
    ensures
        spec_decode(spec_encode_op(op) + rest) == dec_cons(op, spec_decode(rest)),
{
    let enc = spec_encode_op(op);
    let b = enc + rest;
    match op {
        OpView::CreateTable { table_id, columns } => {
            let nc = columns.len() as int;
            lemma_encode_cols_len(columns);
            assert(enc.len() == 9 + 4 * nc);
            assert(b[0] == TAG_CREATE_TABLE);
            lemma_u32_le_round_trip(table_id);
            lemma_u32_le_round_trip(columns.len() as u32);
            assert(b[1] == u32_le(table_id)[0]);
            assert(b[2] == u32_le(table_id)[1]);
            assert(b[3] == u32_le(table_id)[2]);
            assert(b[4] == u32_le(table_id)[3]);
            assert(b[5] == u32_le(columns.len() as u32)[0]);
            assert(b[6] == u32_le(columns.len() as u32)[1]);
            assert(b[7] == u32_le(columns.len() as u32)[2]);
            assert(b[8] == u32_le(columns.len() as u32)[3]);
            assert(u32_at(b, 1) == table_id);
            assert(u32_at(b, 5) == columns.len() as u32);
            assert((columns.len() as u32) as int == nc);
            assert(b.skip(9) =~= spec_encode_cols(columns) + rest);
            lemma_cols_round_trip(columns, rest);
            assert(spec_decode_cols(b.skip(9), nc) == columns);
            assert(b.skip(9 + 4 * nc) =~= rest);
        },
        OpView::DropTable { table_id } => {
            assert(b[0] == TAG_DROP_TABLE);
            lemma_u32_le_round_trip(table_id);
            assert(b[1] == u32_le(table_id)[0]);
            assert(b[2] == u32_le(table_id)[1]);
            assert(b[3] == u32_le(table_id)[2]);
            assert(b[4] == u32_le(table_id)[3]);
            assert(u32_at(b, 1) == table_id);
            assert(b.skip(5) =~= rest);
        },
        OpView::AddRowSet(k) => {
            assert(b[0] == TAG_ADD_ROWSET);
            lemma_u32_le_round_trip(k.table_id);
            lemma_u32_le_round_trip(k.rowset_id);
            assert(b[1] == u32_le(k.table_id)[0]);
            assert(b[2] == u32_le(k.table_id)[1]);
            assert(b[3] == u32_le(k.table_id)[2]);
            assert(b[4] == u32_le(k.table_id)[3]);
            assert(b[5] == u32_le(k.rowset_id)[0]);
            assert(b[6] == u32_le(k.rowset_id)[1]);
            assert(b[7] == u32_le(k.rowset_id)[2]);
            assert(b[8] == u32_le(k.rowset_id)[3]);
            assert(u32_at(b, 1) == k.table_id);
            assert(u32_at(b, 5) == k.rowset_id);
            assert(b.skip(9) =~= rest);
        },
        OpView::DeleteRowSet(k) => {
            assert(b[0] == TAG_DELETE_ROWSET);
            lemma_u32_le_round_trip(k.table_id);
            lemma_u32_le_round_trip(k.rowset_id);
            assert(b[1] == u32_le(k.table_id)[0]);
            assert(b[2] == u32_le(k.table_id)[1]);
            assert(b[3] == u32_le(k.table_id)[2]);
            assert(b[4] == u32_le(k.table_id)[3]);
            assert(b[5] == u32_le(k.rowset_id)[0]);
            assert(b[6] == u32_le(k.rowset_id)[1]);
            assert(b[7] == u32_le(k.rowset_id)[2]);
            assert(b[8] == u32_le(k.rowset_id)[3]);
            assert(u32_at(b, 1) == k.table_id);
            assert(u32_at(b, 5) == k.rowset_id);
            assert(b.skip(9) =~= rest);
        },
        OpView::AddDV(k) => {
            assert(b[0] == TAG_ADD_DV);
            lemma_u32_le_round_trip(k.table_id);
            lemma_u32_le_round_trip(k.rowset_id);
            lemma_u64_le_round_trip(k.dv_id);
            assert(b[1] == u32_le(k.table_id)[0]);
            assert(b[2] == u32_le(k.table_id)[1]);
            assert(b[3] == u32_le(k.table_id)[2]);
            assert(b[4] == u32_le(k.table_id)[3]);
            assert(b[5] == u32_le(k.rowset_id)[0]);
            assert(b[6] == u32_le(k.rowset_id)[1]);
            assert(b[7] == u32_le(k.rowset_id)[2]);
            assert(b[8] == u32_le(k.rowset_id)[3]);
            assert(b[9] == u64_le(k.dv_id)[0]);
            assert(b[10] == u64_le(k.dv_id)[1]);
            assert(b[11] == u64_le(k.dv_id)[2]);
            assert(b[12] == u64_le(k.dv_id)[3]);
            assert(b[13] == u64_le(k.dv_id)[4]);
            assert(b[14] == u64_le(k.dv_id)[5]);
            assert(b[15] == u64_le(k.dv_id)[6]);
            assert(b[16] == u64_le(k.dv_id)[7]);
            assert(u32_at(b, 1) == k.table_id);
            assert(u32_at(b, 5) == k.rowset_id);
            assert(u64_at(b, 9) == k.dv_id);
            assert(b.skip(17) =~= rest);
        },
        OpView::DeleteDV(k) => {
            assert(b[0] == TAG_DELETE_DV);
            lemma_u32_le_round_trip(k.table_id);
            lemma_u32_le_round_trip(k.rowset_id);
            lemma_u64_le_round_trip(k.dv_id);
            assert(b[1] == u32_le(k.table_id)[0]);
            assert(b[2] == u32_le(k.table_id)[1]);
            assert(b[3] == u32_le(k.table_id)[2]);
            assert(b[4] == u32_le(k.table_id)[3]);
            assert(b[5] == u32_le(k.rowset_id)[0]);
            assert(b[6] == u32_le(k.rowset_id)[1]);
            assert(b[7] == u32_le(k.rowset_id)[2]);
            assert(b[8] == u32_le(k.rowset_id)[3]);
            assert(b[9] == u64_le(k.dv_id)[0]);
            assert(b[10] == u64_le(k.dv_id)[1]);
            assert(b[11] == u64_le(k.dv_id)[2]);
            assert(b[12] == u64_le(k.dv_id)[3]);
            assert(b[13] == u64_le(k.dv_id)[4]);
            assert(b[14] == u64_le(k.dv_id)[5]);
            assert(b[15] == u64_le(k.dv_id)[6]);
            assert(b[16] == u64_le(k.dv_id)[7]);
            assert(u32_at(b, 1) == k.table_id);
            assert(u32_at(b, 5) == k.rowset_id);
            assert(u64_at(b, 9) == k.dv_id);
            assert(b.skip(17) =~= rest);
        },
        OpView::Begin => {
            assert(b[0] == TAG_BEGIN);
            assert(b.skip(1) =~= rest);
        },
        OpView::End => {
            assert(b[0] == TAG_END);
            assert(b.skip(1) =~= rest);
        },
    }
}

proof fn lemma_decode_append(ops: Seq<OpView>, tail: Seq<u8>)
    requires
        forall|i: int| 0 <= i < ops.len() ==> wf_op(#[trigger] ops[i]),
    ensures
        spec_decode(spec_encode_log(ops) + tail) == dec_concat(ops, spec_decode(tail)),
    decreases ops.len(),
{
    if ops.len() == 0 {
        assert(spec_encode_log(ops) + tail =~= tail);
        assert(ops =~= Seq::<OpView>::empty());
        lemma_dec_concat_nil(spec_decode(tail));
    } else {
        assert(spec_encode_log(ops) == spec_encode_op(ops[0]) + spec_encode_log(ops.drop_first()));
        assert(spec_encode_log(ops) + tail =~= spec_encode_op(ops[0]) + (spec_encode_log(
            ops.drop_first(),
        ) + tail));
        lemma_decode_one(ops[0], spec_encode_log(ops.drop_first()) + tail);
        assert(forall|i: int|
            0 <= i < ops.drop_first().len() ==> wf_op(#[trigger] ops.drop_first()[i]));
        lemma_decode_append(ops.drop_first(), tail);
        match spec_decode(tail) {
            Ok(s) => {
                assert(seq![ops[0]] + (ops.drop_first() + s) =~= ops + s);
            },
            Err(e) => {},
        }
    }
}

/// A strict prefix of one record decodes to nothing: the truncated record
/// is discarded.
proof fn lemma_partial_record(op: OpView, k: int)
    requires
        wf_op(op),
        0 <= k < spec_encode_op(op).len(),
    ensures
        spec_decode(spec_encode_op(op).take(k)) == Ok::<Seq<OpView>, CorruptionError>(Seq::empty()),
{
    let enc = spec_encode_op(op);
    let t = enc.take(k);
    if k == 0 {
    } else {
        assert(t[0] == enc[0]);
        match op {
            OpView::CreateTable { table_id, columns } => {
                let nc = columns.len() as int;
                lemma_encode_cols_len(columns);
                assert(enc.len() == 9 + 4 * nc);
                assert(t[0] == TAG_CREATE_TABLE);
                if k >= 9 {
                    lemma_u32_le_round_trip(columns.len() as u32);
                    assert(t[5] == enc[5] && t[6] == enc[6] && t[7] == enc[7] && t[8] == enc[8]);
                    assert(enc[5] == u32_le(columns.len() as u32)[0]);
                    assert(enc[6] == u32_le(columns.len() as u32)[1]);
                    assert(enc[7] == u32_le(columns.len() as u32)[2]);
                    assert(enc[8] == u32_le(columns.len() as u32)[3]);
                    assert(u32_at(t, 5) == columns.len() as u32);
                    assert(t.len() < 9 + 4 * nc);
                }
            },
            OpView::DropTable { table_id } => {
                assert(t[0] == TAG_DROP_TABLE && t.len() < 5);
            },
            OpView::AddRowSet(key) => {
                assert(t[0] == TAG_ADD_ROWSET && t.len() < 9);
            },
            OpView::DeleteRowSet(key) => {
                assert(t[0] == TAG_DELETE_ROWSET && t.len() < 9);
            },
            OpView::AddDV(key) => {
                assert(t[0] == TAG_ADD_DV && t.len() < 17);
            },
            OpView::DeleteDV(key) => {
                assert(t[0] == TAG_DELETE_DV && t.len() < 17);
            },
            OpView::Begin => {
                assert(false);
            },
            OpView::End => {
                assert(false);
            },
        }
    }
}

/// What `encode_log` wrote, `decode_log` reads back unchanged: the log
/// format loses nothing.
pub proof fn lemma_log_round_trip(ops: Seq<OpView>)
    requires
        forall|i: int| 0 <= i < ops.len() ==> wf_op(#[trigger] ops[i]),
    ensures
        spec_decode(spec_encode_log(ops)) == Ok::<Seq<OpView>, CorruptionError>(ops),
{
    lemma_decode_append(ops, Seq::empty());
    assert(spec_encode_log(ops) + Seq::<u8>::empty() =~= spec_encode_log(ops));
    assert(ops + Seq::<OpView>::empty() =~= ops);
}

/// A log whose last record was cut short by a crash still decodes, to
/// exactly the records before it: only the incomplete trailing entry is
/// discarded.
pub proof fn lemma_truncation_tolerance(ops: Seq<OpView>, op: OpView, k: int)
    requires
        forall|i: int| 0 <= i < ops.len() ==> wf_op(#[trigger] ops[i]),
        wf_op(op),
        0 <= k < spec_encode_op(op).len(),
    ensures
        spec_decode(spec_encode_log(ops) + spec_encode_op(op).take(k)) == Ok::<
            Seq<OpView>,
            CorruptionError,
        >(ops),
{
    lemma_decode_append(ops, spec_encode_op(op).take(k));
    lemma_partial_record(op, k);
    assert(ops + Seq::<OpView>::empty() =~= ops);
}


/// Whether some `End` follows position `i`.
pub open spec fn epoch_closed_after(ops: Seq<OpView>, i: int) -> bool {
    exists|j: int| i < j < ops.len() && (#[trigger] ops[j]) == OpView::End
}

/// `cut_point` is exactly the position of the first `Begin` that no later
/// `End` matches — the start of a half-written epoch — or the sequence's
/// length when every epoch is closed.
pub proof fn lemma_cut_point_marks_open_epoch(ops: Seq<OpView>)
    ensures
        0 <= cut_point(ops) <= ops.len(),
        cut_point(ops) < ops.len() ==> ops[cut_point(ops)] == OpView::Begin
            && !epoch_closed_after(ops, cut_point(ops)),
        forall|i: int|
            0 <= i < cut_point(ops) && (#[trigger] ops[i]) == OpView::Begin ==> epoch_closed_after(
                ops,
                i,
            ),
    decreases ops.len(),
{
    if ops.len() > 0 {
        let pre = ops.drop_last();
        lemma_cut_point_marks_open_epoch(pre);
        let c = cut_point(pre);
        let n = ops.len() - 1;
        assert(forall|j: int| 0 <= j < n ==> (#[trigger] ops[j]) == pre[j]);
        if ops.last() == OpView::End {
            assert forall|i: int|
                0 <= i < cut_point(ops) && (#[trigger] ops[i]) == OpView::Begin implies
                epoch_closed_after(ops, i) by {
                assert(ops[n] == OpView::End);
            }
        } else if ops.last() == OpView::Begin {
            if c < n {
                assert(ops[c] == pre[c]);
                if epoch_closed_after(ops, c) {
                    let j = choose|j: int| c < j < ops.len() && (#[trigger] ops[j]) == OpView::End;
                    assert(j < n);
                    assert(pre[j] == OpView::End);
                    assert(epoch_closed_after(pre, c));
                    assert(false);
                }
            }
            assert forall|i: int|
                0 <= i < cut_point(ops) && (#[trigger] ops[i]) == OpView::Begin implies
                epoch_closed_after(ops, i) by {
                assert(pre[i] == OpView::Begin);
                assert(epoch_closed_after(pre, i));
                let j = choose|j: int| i < j < pre.len() && (#[trigger] pre[j]) == OpView::End;
                assert(ops[j] == OpView::End);
            }
        } else {
            assert forall|i: int|
                0 <= i < cut_point(ops) && (#[trigger] ops[i]) == OpView::Begin implies
                epoch_closed_after(ops, i) by {
                assert(i < n);
                assert(pre[i] == OpView::Begin);
                assert(i < c);
                assert(epoch_closed_after(pre, i));
                let j = choose|j: int| i < j < pre.len() && (#[trigger] pre[j]) == OpView::End;
                assert(ops[j] == OpView::End);
            }
            if c != n && c < n {
                assert(ops[c] == pre[c]);
                if epoch_closed_after(ops, c) {
                    let j = choose|j: int| c < j < ops.len() && (#[trigger] ops[j]) == OpView::End;
                    assert(j != n);
                    assert(pre[j] == OpView::End);
                    assert(epoch_closed_after(pre, c));
                    assert(false);
                }
            }
        }
    }
}

} // verus!
