//! Writing into pool memory.

use vstd::prelude::*;
use vstd::slice::slice_subrange;

use crate::client::model;
use crate::client::{BufferInfo, Client, ClientError};
use crate::ids::ObjectId;
use crate::ordered;

verus! {

/// Writes `data` over `storage` from `at` on.
pub fn overlay(storage: &mut Vec<u8>, at: usize, data: &[u8])
    requires
        at + data@.len() <= old(storage)@.len(),
    ensures
        final(storage)@ == model::overlaid(old(storage)@, at as int, data@),
{
    let ghost before = storage@;
    let len: usize = storage.len();
    let mut i: usize = 0;
    while i < data.len()
        invariant
            i <= data@.len(),
            storage@.len() == before.len(),
            before.len() == len,
            at + data@.len() <= before.len(),
            forall|j: int| 0 <= j < before.len() ==> storage@[j] == (if at <= j < at + i {
                data@[j - at]
            } else {
                before[j]
            }),
        decreases data@.len() - i,
    {
        storage.set(at + i, data[i]);
        i += 1;
    }
    proof {
        assert(storage@ =~= model::overlaid(before, at as int, data@));
    }
}

/// Row `row` of a strided write lies inside the write.
proof fn lemma_row_inside(at: int, stride: int, row_bytes: int, rows: int, row: int)
    requires
        0 <= at,
        0 <= row < rows,
        0 <= stride,
    ensures
        0 <= row * stride,
        at + row * stride + row_bytes <= at + (rows - 1) * stride + row_bytes,
{
    assert(0 <= row * stride <= (rows - 1) * stride) by (nonlinear_arith)
        requires
            0 <= row <= rows - 1,
            0 <= stride,
    ;
}

proof fn lemma_row_source(row_bytes: int, rows: int, row: int)
    requires
        0 <= row < rows,
        0 <= row_bytes,
    ensures
        0 <= row * row_bytes,
        (row + 1) * row_bytes == row * row_bytes + row_bytes,
        (row + 1) * row_bytes <= rows * row_bytes,
{
    assert(0 <= row * row_bytes && (row + 1) * row_bytes == row * row_bytes + row_bytes && (row + 1)
        * row_bytes <= rows * row_bytes) by (nonlinear_arith)
        requires
            0 <= row < rows,
            0 <= row_bytes,
    ;
}

/// Writes `rows` rows of `data` over `storage`, a stride apart.
pub fn overlay_rows(
    storage: &mut Vec<u8>,
    at: usize,
    stride: usize,
    row_bytes: usize,
    data: &[u8],
    rows: usize,
)
    requires
        rows > 0,
        at + (rows - 1) * stride + row_bytes <= old(storage)@.len(),
        data@.len() == rows * row_bytes,
    ensures
        final(storage)@ == model::rows_overlaid(
            old(storage)@,
            at as int,
            stride as int,
            row_bytes as int,
            data@,
            rows as nat,
        ),
        final(storage)@.len() == old(storage)@.len(),
{
    let ghost before = storage@;
    let len: usize = storage.len();
    let data_len: usize = data.len();
    let mut row: usize = 0;
    while row < rows
        invariant
            row <= rows,
            rows > 0,
            storage@.len() == before.len(),
            at + (rows - 1) * stride + row_bytes <= before.len(),
            before.len() == len,
            data@.len() == rows * row_bytes,
            data@.len() == data_len,
            storage@ == model::rows_overlaid(
                before,
                at as int,
                stride as int,
                row_bytes as int,
                data@,
                row as nat,
            ),
        decreases rows - row,
    {
        proof {
            lemma_row_inside(at as int, stride as int, row_bytes as int, rows as int, row as int);
            lemma_row_source(row_bytes as int, rows as int, row as int);
        }
        let source: usize = row * row_bytes;
        let destination: usize = at + row * stride;
        overlay(storage, destination, slice_subrange(data, source, source + row_bytes));
        row += 1;
    }
}

/// Whether a strided write lies inside the memory it is made to, and has a
/// source for every row.
pub open spec fn rows_fit(
    storage: Seq<u8>,
    at: int,
    stride: int,
    row_bytes: int,
    data: Seq<u8>,
    rows: nat,
) -> bool {
    &&& 0 <= at
    &&& 0 <= row_bytes <= stride
    &&& rows > 0 ==> at + (rows - 1) * stride + row_bytes <= storage.len()
    &&& rows * row_bytes <= data.len()
}

/// What was written to rows is read back from them, byte by byte.
pub proof fn law_written_rows_are_read_back(
    storage: Seq<u8>,
    at: int,
    stride: int,
    row_bytes: int,
    data: Seq<u8>,
    rows: nat,
    row: int,
    i: int,
)
    requires
        rows_fit(storage, at, stride, row_bytes, data, rows),
        0 <= row < rows,
        0 <= i < row_bytes,
    ensures
        model::rows_overlaid(storage, at, stride, row_bytes, data, rows)[at + row * stride + i]
            == data[row * row_bytes + i],
    decreases rows,
{
    let fewer = (rows - 1) as nat;
    lemma_fewer_rows_fit(storage, at, stride, row_bytes, data, rows);
    lemma_rows_keep_length(storage, at, stride, row_bytes, data, fewer);
    lemma_row_inside(at, stride, row_bytes, rows as int, row);
    lemma_row_inside(at, stride, row_bytes, rows as int, rows - 1);
    lemma_row_source(row_bytes, rows as int, rows - 1);
    if row < rows - 1 {
        law_written_rows_are_read_back(storage, at, stride, row_bytes, data, fewer, row, i);
        assert(row * stride + stride <= (rows - 1) * stride) by (nonlinear_arith)
            requires
                row + 1 <= rows - 1,
                0 <= stride,
        ;
    }
}

/// A strided write changes no byte outside its rows, and not how many there
/// are.
pub proof fn law_rows_leave_the_rest_alone(
    storage: Seq<u8>,
    at: int,
    stride: int,
    row_bytes: int,
    data: Seq<u8>,
    rows: nat,
    place: int,
)
    requires
        rows_fit(storage, at, stride, row_bytes, data, rows),
        0 <= place < storage.len(),
        !model::some_row_meets(at, row_bytes, rows as int, stride, place, place + 1),
    ensures
        model::rows_overlaid(storage, at, stride, row_bytes, data, rows).len() == storage.len(),
        model::rows_overlaid(storage, at, stride, row_bytes, data, rows)[place] == storage[place],
    decreases rows,
{
    lemma_rows_keep_length(storage, at, stride, row_bytes, data, rows);
    if rows > 0 {
        let fewer = (rows - 1) as nat;
        lemma_fewer_rows_fit(storage, at, stride, row_bytes, data, rows);
        lemma_rows_keep_length(storage, at, stride, row_bytes, data, fewer);
        lemma_row_inside(at, stride, row_bytes, rows as int, rows - 1);
        lemma_row_source(row_bytes, rows as int, rows - 1);
        assert(!model::row_meets(at, row_bytes, stride, rows - 1, place, place + 1));
        law_rows_leave_the_rest_alone(storage, at, stride, row_bytes, data, fewer, place);
    }
}

proof fn lemma_fewer_rows_fit(
    storage: Seq<u8>,
    at: int,
    stride: int,
    row_bytes: int,
    data: Seq<u8>,
    rows: nat,
)
    requires
        rows > 0,
        rows_fit(storage, at, stride, row_bytes, data, rows),
    ensures
        rows_fit(storage, at, stride, row_bytes, data, (rows - 1) as nat),
{
    assert((rows - 2) * stride <= (rows - 1) * stride && (rows - 1) * row_bytes <= rows
        * row_bytes) by (nonlinear_arith)
        requires
            0 <= stride,
            0 <= row_bytes,
    ;
}

proof fn lemma_rows_keep_length(
    storage: Seq<u8>,
    at: int,
    stride: int,
    row_bytes: int,
    data: Seq<u8>,
    rows: nat,
)
    requires
        rows_fit(storage, at, stride, row_bytes, data, rows),
    ensures
        model::rows_overlaid(storage, at, stride, row_bytes, data, rows).len() == storage.len(),
    decreases rows,
{
    if rows > 0 {
        lemma_fewer_rows_fit(storage, at, stride, row_bytes, data, rows);
        lemma_rows_keep_length(storage, at, stride, row_bytes, data, (rows - 1) as nat);
        lemma_row_inside(at, stride, row_bytes, rows as int, rows - 1);
        lemma_row_source(row_bytes, rows as int, rows - 1);
    }
}

/// The first row of a strided write that ends after `start`.
proof fn lemma_first_row(at: int, row_bytes: int, stride: int, start: int, row: int)
    requires
        0 <= at,
        0 < row_bytes <= stride,
        0 <= start,
        at + row_bytes > start ==> row == 0,
        at + row_bytes <= start ==> row == (start - at - row_bytes) / stride + 1,
    ensures
        0 <= row,
        start < at + row * stride + row_bytes,
        forall|r: int| 0 <= r < row ==> #[trigger] (r * stride) + at + row_bytes <= start,
        forall|r: int| row <= r ==> #[trigger] (r * stride) >= row * stride,
{
    if at + row_bytes > start {
        assert(0 * stride == 0);
        assert forall|r: int| row <= r implies #[trigger] (r * stride) >= row * stride by {
            assert(r * stride >= 0) by (nonlinear_arith)
                requires
                    r >= 0,
                    stride > 0,
            ;
        }
    } else {
        let gap = start - at - row_bytes;
        let q = gap / stride;
        assert(q * stride <= gap < q * stride + stride && 0 <= q) by (nonlinear_arith)
            requires
                q == gap / stride,
                0 <= gap,
                stride > 0,
        ;
        assert(row * stride == q * stride + stride) by (nonlinear_arith)
            requires
                row == q + 1,
        ;
        assert forall|r: int| 0 <= r < row implies #[trigger] (r * stride) + at + row_bytes
            <= start by {
            assert(r * stride <= q * stride) by (nonlinear_arith)
                requires
                    r <= q,
                    stride > 0,
            ;
        }
        assert forall|r: int| row <= r implies #[trigger] (r * stride) >= row * stride by {
            assert(r * stride >= row * stride) by (nonlinear_arith)
                requires
                    row <= r,
                    stride > 0,
            ;
        }
    }
}

/// Whether a row of a strided write meets the bytes from `start` to `end`.
fn does_some_row_meet(at: u64, row_bytes: u64, rows: u64, stride: u64, start: u64, end: u64) -> (r:
    bool)
    requires
        0 < row_bytes <= stride,
        0 < rows,
        at + (rows - 1) * stride + row_bytes <= u64::MAX,
    ensures
        r == model::some_row_meets(
            at as int,
            row_bytes as int,
            rows as int,
            stride as int,
            start as int,
            end as int,
        ),
{
    proof {
        assert((rows - 1) * stride >= 0) by (nonlinear_arith)
            requires
                rows >= 1,
                stride >= 0,
        ;
    }
    let row: u64 = if at + row_bytes > start {
        0
    } else {
        proof {
            let gap = start - at - row_bytes;
            assert(gap / stride as int <= gap) by (nonlinear_arith)
                requires
                    gap >= 0,
                    stride > 0,
            ;
        }
        (start - at - row_bytes) / stride + 1
    };
    proof {
        lemma_first_row(at as int, row_bytes as int, stride as int, start as int, row as int);
    }
    if row >= rows {
        proof {
            assert forall|r: int| 0 <= r < rows implies !#[trigger] model::row_meets(
                at as int,
                row_bytes as int,
                stride as int,
                r,
                start as int,
                end as int,
            ) by {
                assert((r * stride) + at + row_bytes <= start);
            }
        }
        return false;
    }
    proof {
        lemma_row_inside(at as int, stride as int, row_bytes as int, rows as int, row as int);
    }
    let first: u64 = at + row * stride;
    proof {
        if first < end {
            assert(model::row_meets(
                at as int,
                row_bytes as int,
                stride as int,
                row as int,
                start as int,
                end as int,
            ));
        } else {
            assert forall|r: int| 0 <= r < rows implies !#[trigger] model::row_meets(
                at as int,
                row_bytes as int,
                stride as int,
                r,
                start as int,
                end as int,
            ) by {
                if r < row {
                    assert((r * stride) + at + row_bytes <= start);
                } else {
                    assert((r * stride) >= row * stride);
                }
            }
        }
    }
    first < end
}

impl Client {
    /// The buffer's extent, if it lies inside a pool that is there.
    pub(crate) fn backed_buffer(&self, buffer_id: ObjectId) -> (r: Option<BufferInfo>)
        ensures
            match r {
                Some(info) => self@.is_backed(buffer_id) && info == self@.buffers[buffer_id],
                None => !self@.is_backed(buffer_id),
            },
    {
        let info = match self.buffers.get(buffer_id) {
            Some(info) => *info,
            None => {
                return None;
            },
        };
        let pool = match self.pools.get(info.pool_id) {
            Some(pool) => pool,
            None => {
                return None;
            },
        };
        let end: u64 = info.byte_end();
        if end > pool.size as u64 || end > pool.storage.len() as u64 {
            return None;
        }
        Some(info)
    }

    /// Refuses a strided write that would change bytes a surface shows.
    pub(crate) fn ensure_pool_write_rows_not_current(
        &self,
        pool_id: ObjectId,
        at: u64,
        row_bytes: u64,
        rows: u64,
        stride: u64,
    ) -> (r: Result<(), ClientError>)
        requires
            row_bytes > 0 && rows > 0 ==> row_bytes <= stride && at + (rows - 1) * stride
                + row_bytes <= u64::MAX,
        ensures
            match r {
                Ok(_) => self@.writes_fault(
                    pool_id,
                    at as int,
                    row_bytes as int,
                    rows as int,
                    stride as int,
                ) is None,
                Err(e) => self@.writes_fault(
                    pool_id,
                    at as int,
                    row_bytes as int,
                    rows as int,
                    stride as int,
                ) == Some(e),
            },
    {
        if row_bytes == 0 || rows == 0 {
            return Ok(());
        }
        let ids = self.surfaces.keys();
        let mut i: usize = 0;
        while i < ids.len()
            invariant
                i <= ids@.len(),
                0 < row_bytes <= stride,
                0 < rows,
                at + (rows - 1) * stride + row_bytes <= u64::MAX,
                ids@ == ordered::ascending_keys(self@.surfaces.dom()),
                ids@.to_set() == self@.surfaces.dom(),
                self@.writes_fault(
                    pool_id,
                    at as int,
                    row_bytes as int,
                    rows as int,
                    stride as int,
                ) == self@.write_fault_among(
                    ids@,
                    pool_id,
                    at as int,
                    row_bytes as int,
                    rows as int,
                    stride as int,
                    i as nat,
                ),
            decreases ids@.len() - i,
        {
            let surface_id = ids[i];
            proof {
                assert(ids@.to_set().contains(ids@[i as int]));
            }
            if let Some(surface) = self.surfaces.get(surface_id) {
                if let Some(attachment) = surface.current_buffer {
                    let buffer_id = attachment.buffer_id;
                    match self.backed_buffer(buffer_id) {
                        None => {
                            return Err(
                                ClientError::PoolWriteInvalidCurrentBacking {
                                    surface_id,
                                    buffer_id,
                                },
                            );
                        },
                        Some(info) => {
                            if info.pool_id == pool_id && does_some_row_meet(
                                at,
                                row_bytes,
                                rows,
                                stride,
                                info.offset as u64,
                                info.byte_end(),
                            ) {
                                return Err(
                                    ClientError::PoolWriteIntersectsCurrentBuffer {
                                        pool_id,
                                        surface_id,
                                        buffer_id,
                                    },
                                );
                            }
                        },
                    }
                }
            }
            i += 1;
        }
        Ok(())
    }
}

} // verus!
