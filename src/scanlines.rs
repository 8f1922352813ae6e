//! Scanline scheduling and the assembly of rendered scanlines into one image.
//!
//! Scanline `j` is the `j`-th row of the picture counted from the bottom. The
//! renderer works on scanlines in any order, each tagged with its index; the
//! assembler puts the rows back in order, top row first.
use vstd::prelude::*;

verus! {

/// The order in which scanlines are handed out: from the top of the picture
/// down, `height - 1` first and `0` last.
pub fn scanline_order(height: usize) -> (r: Vec<usize>)
    ensures
        r@ == Seq::new(height as nat, |i: int| (height - 1 - i) as usize),
{
    let mut r: Vec<usize> = Vec::new();
    let mut i: usize = 0;
    while i < height
        invariant
            i <= height,
            r@ == Seq::new(i as nat, |k: int| (height - 1 - k) as usize),
        decreases height - i,
    {
        r.push(height - 1 - i);
        i = i + 1;
        assert(r@ =~= Seq::new(i as nat, |k: int| (height - 1 - k) as usize));
    }
    r
}

/// The seed of the random draws for pixel `x` of scanline `j`, in a picture
/// `width` pixels wide: the render's `base` seed advanced by the pixel's index,
/// wrapping around. A pixel's samples then do not depend on which worker
/// renders it, nor when.
pub fn pixel_seed(base: u64, width: usize, x: usize, j: usize) -> (r: u64)
    requires
        x < width,
        j * width + x <= u64::MAX,
    ensures
        r == (base + j * width + x) % 0x1_0000_0000_0000_0000,
{
    assert(j * width <= j * width + x);
    let index = (j as u64) * (width as u64) + x as u64;
    let r = base.wrapping_add(index);
    assert(r == (base + index) % 0x1_0000_0000_0000_0000) by {
        if base + index > u64::MAX {
            vstd::arithmetic::div_mod::lemma_mod_sub_multiples_vanish(
                base + index,
                0x1_0000_0000_0000_0000,
            );
            vstd::arithmetic::div_mod::lemma_small_mod(
                (base + index - 0x1_0000_0000_0000_0000) as nat,
                0x1_0000_0000_0000_0000,
            );
        } else {
            vstd::arithmetic::div_mod::lemma_small_mod((base + index) as nat, 0x1_0000_0000_0000_0000);
        }
    }
    r
}

/// Different pixels of one picture draw from different seeds.
pub proof fn lemma_pixel_seeds_distinct(
    base: u64,
    width: usize,
    height: usize,
    x: int,
    j: int,
    x2: int,
    j2: int,
)
    requires
        width * height <= u64::MAX + 1,
        0 <= x < width,
        0 <= x2 < width,
        0 <= j < height,
        0 <= j2 < height,
        x != x2 || j != j2,
    ensures
        (base + j * width + x) % 0x1_0000_0000_0000_0000 != (base + j2 * width + x2)
            % 0x1_0000_0000_0000_0000,
{
    let m: int = 0x1_0000_0000_0000_0000;
    let i1 = j * width + x;
    let i2 = j2 * width + x2;
    assert(0 <= i1 < width * height && 0 <= i2 < width * height && i1 != i2) by (nonlinear_arith)
        requires
            0 <= x < width,
            0 <= x2 < width,
            0 <= j < height,
            0 <= j2 < height,
            x != x2 || j != j2,
            i1 == j * width + x,
            i2 == j2 * width + x2,
    {
        assert(j * width + x < (j + 1) * width);
        assert(j2 * width + x2 < (j2 + 1) * width);
        if j < j2 {
            assert((j + 1) * width <= j2 * width);
        } else if j2 < j {
            assert((j2 + 1) * width <= j * width);
        }
    }
    vstd::arithmetic::div_mod::lemma_fundamental_div_mod(base + i1, m);
    vstd::arithmetic::div_mod::lemma_fundamental_div_mod(base + i2, m);
    vstd::arithmetic::div_mod::lemma_mod_bound(base + i1, m);
    vstd::arithmetic::div_mod::lemma_mod_bound(base + i2, m);
    if (base + i1) % m == (base + i2) % m {
        let d1 = (base + i1) / m;
        let d2 = (base + i2) / m;
        assert(m * d1 - m * d2 == i1 - i2);
        assert(0 <= d1 <= 1 && 0 <= d2 <= 1) by {
            vstd::arithmetic::div_mod::lemma_div_is_ordered(base + i1, 2 * m - 1, m);
            vstd::arithmetic::div_mod::lemma_div_is_ordered(base + i2, 2 * m - 1, m);
            vstd::arithmetic::div_mod::lemma_div_is_ordered(0, base + i1, m);
            vstd::arithmetic::div_mod::lemma_div_is_ordered(0, base + i2, m);
        }
        assert(d1 == d2) by {
            if d1 != d2 {
                assert(m * d1 - m * d2 == m || m * d1 - m * d2 == -m);
            }
        }
    }
}

/// Why a set of rendered scanlines does not make up a picture.
#[derive(Debug, PartialEq, Eq, Structural)]
pub enum AssembleError {
    /// A scanline's index is not below the picture's height.
    RowOutOfRange { row: usize },
    /// A scanline was delivered a second time.
    DuplicateRow { row: usize },
    /// No scanline was delivered for this index.
    MissingRow { row: usize },
}

/// Message `k` is taken: its scanline is in range and no earlier message
/// carried the same scanline.
pub open spec fn accepted(rows: Seq<(usize, Vec<u8>)>, height: usize, k: int) -> bool {
    &&& rows[k].0 < height
    &&& forall|i: int| 0 <= i < k ==> rows[i].0 != #[trigger] rows[k].0
}

pub open spec fn all_accepted(rows: Seq<(usize, Vec<u8>)>, height: usize) -> bool {
    forall|k: int| 0 <= k < rows.len() ==> #[trigger] accepted(rows, height, k)
}

/// Message `k` is the first one that is not taken.
pub open spec fn first_rejected(rows: Seq<(usize, Vec<u8>)>, height: usize, k: int) -> bool {
    &&& 0 <= k < rows.len()
    &&& !accepted(rows, height, k)
    &&& forall|i: int| 0 <= i < k ==> #[trigger] accepted(rows, height, i)
}

/// Some message carries scanline `j`.
pub open spec fn delivered(rows: Seq<(usize, Vec<u8>)>, j: int) -> bool {
    exists|k: int| 0 <= k < rows.len() && #[trigger] rows[k].0 == j
}

/// Scanline `j` is the lowest one that no message carries.
pub open spec fn first_missing(rows: Seq<(usize, Vec<u8>)>, height: usize, j: int) -> bool {
    &&& 0 <= j < height
    &&& !delivered(rows, j)
    &&& forall|i: int| 0 <= i < j ==> #[trigger] delivered(rows, i)
}

/// Each scanline `0..height` is delivered exactly once, and no other.
pub open spec fn rows_complete(rows: Seq<(usize, Vec<u8>)>, height: usize) -> bool {
    &&& all_accepted(rows, height)
    &&& forall|j: int| 0 <= j < height ==> #[trigger] delivered(rows, j)
}

/// The bytes delivered for scanline `j`.
pub open spec fn row_bytes(rows: Seq<(usize, Vec<u8>)>, j: int) -> Seq<u8> {
    rows[choose|k: int| 0 <= k < rows.len() && #[trigger] rows[k].0 == j].1@
}

/// The picture: the bytes of scanlines `height - 1` down to `0`, one after the
/// other.
pub open spec fn assembled(rows: Seq<(usize, Vec<u8>)>, height: usize) -> Seq<u8> {
    Seq::new(height as nat, |i: int| row_bytes(rows, height - 1 - i)).flatten()
}

/// `b` holds the messages of `a` in another order: `b[i] == a[p[i]]`, where
/// `p` maps the positions one-to-one onto themselves and `q` undoes it.
pub open spec fn reordered(
    a: Seq<(usize, Vec<u8>)>,
    b: Seq<(usize, Vec<u8>)>,
    p: Seq<int>,
    q: Seq<int>,
) -> bool {
    &&& b.len() == a.len()
    &&& p.len() == a.len()
    &&& forall|i: int| 0 <= i < b.len() ==> 0 <= #[trigger] p[i] < a.len() && b[i] == a[p[i]]
    &&& forall|i: int, j: int| 0 <= i < p.len() && 0 <= j < p.len() && i != j ==> #[trigger] p[i] != #[trigger] p[j]
    &&& q.len() == a.len()
    &&& forall|k: int| 0 <= k < a.len() ==> 0 <= #[trigger] q[k] < p.len() && p[q[k]] == k
}

proof fn lemma_unique_messages(rows: Seq<(usize, Vec<u8>)>, height: usize)
    requires
        all_accepted(rows, height),
    ensures
        forall|k: int, x: int|
            0 <= k < rows.len() && 0 <= x < rows.len() && #[trigger] rows[k].0 == #[trigger] rows[x].0
                ==> k == x,
{
    assert forall|k: int, x: int|
        0 <= k < rows.len() && 0 <= x < rows.len() && #[trigger] rows[k].0 == #[trigger] rows[x].0 implies k
        == x by {
        if k < x {
            assert(accepted(rows, height, x));
        } else if x < k {
            assert(accepted(rows, height, k));
        }
    }
}

/// The order in which scanlines arrive does not change the picture: the
/// messages of a complete delivery, in any other order, are complete as well
/// and assemble into the same bytes.
pub proof fn lemma_delivery_order_irrelevant(
    a: Seq<(usize, Vec<u8>)>,
    b: Seq<(usize, Vec<u8>)>,
    p: Seq<int>,
    q: Seq<int>,
    height: usize,
)
    requires
        reordered(a, b, p, q),
        rows_complete(a, height),
    ensures
        rows_complete(b, height),
        assembled(b, height) == assembled(a, height),
{
    lemma_unique_messages(a, height);
    assert forall|k: int| 0 <= k < b.len() implies #[trigger] accepted(b, height, k) by {
        assert(accepted(a, height, p[k]));
        assert forall|i: int| 0 <= i < k implies b[i].0 != #[trigger] b[k].0 by {
            assert(p[i] != p[k]);
            assert(a[p[i]].0 != a[p[k]].0);
        }
    }
    assert forall|j: int| 0 <= j < height implies #[trigger] delivered(b, j) by {
        assert(delivered(a, j));
        let k = choose|k: int| 0 <= k < a.len() && #[trigger] a[k].0 == j;
        let i = q[k];
        assert(b[i].0 == j);
    }
    assert forall|j: int| 0 <= j < height implies #[trigger] row_bytes(b, j) == row_bytes(a, j) by {
        assert(delivered(b, j));
        assert(delivered(a, j));
        let kb = choose|k: int| 0 <= k < b.len() && #[trigger] b[k].0 == j;
        let ka = choose|k: int| 0 <= k < a.len() && #[trigger] a[k].0 == j;
        assert(a[p[kb]].0 == j);
        assert(p[kb] == ka);
    }
    assert(Seq::new(height as nat, |i: int| row_bytes(b, height - 1 - i)) =~= Seq::new(
        height as nat,
        |i: int| row_bytes(a, height - 1 - i),
    ));
}

/// Puts rendered scanlines, delivered in any order as `(index, bytes)`, into
/// one picture: the bytes of the top scanline first. Succeeds exactly when
/// each scanline `0..height` is delivered once; otherwise names the first
/// message out of range or repeated, or else the lowest scanline missing.
pub fn assemble_rows(height: usize, rows: Vec<(usize, Vec<u8>)>) -> (r: Result<
    Vec<u8>,
    AssembleError,
>)
    ensures
        r is Ok <==> rows_complete(rows@, height),
        match r {
            Ok(out) => out@ == assembled(rows@, height),
            Err(AssembleError::RowOutOfRange { row }) => exists|k: int|
                first_rejected(rows@, height, k) && #[trigger] rows@[k].0 == row && row >= height,
            Err(AssembleError::DuplicateRow { row }) => exists|k: int|
                first_rejected(rows@, height, k) && #[trigger] rows@[k].0 == row && row < height,
            Err(AssembleError::MissingRow { row }) => all_accepted(rows@, height) && first_missing(
                rows@,
                height,
                row as int,
            ),
        },
{
    let ghost msgs = rows@;
    let n = rows.len();
    let mut seen: Vec<bool> = Vec::new();
    let mut j: usize = 0;
    while j < height
        invariant
            j <= height,
            seen@ == Seq::new(j as nat, |i: int| false),
        decreases height - j,
    {
        seen.push(false);
        j = j + 1;
        assert(seen@ =~= Seq::new(j as nat, |i: int| false));
    }
    let mut k: usize = 0;
    while k < n
        invariant
            k <= n,
            n == msgs.len(),
            rows@ == msgs,
            seen@.len() == height,
            forall|i: int| 0 <= i < k ==> #[trigger] accepted(msgs, height, i),
            forall|x: int|
                0 <= x < height ==> (#[trigger] seen@[x] <==> exists|i: int|
                    0 <= i < k && #[trigger] msgs[i].0 == x),
        decreases n - k,
    {
        let row = rows[k].0;
        if row >= height {
            assert(first_rejected(msgs, height, k as int));
            return Err(AssembleError::RowOutOfRange { row });
        }
        if seen[row] {
            assert(!accepted(msgs, height, k as int)) by {
                let i = choose|i: int| 0 <= i < k && #[trigger] msgs[i].0 == row;
                assert(msgs[i].0 == msgs[k as int].0);
            }
            assert(first_rejected(msgs, height, k as int));
            return Err(AssembleError::DuplicateRow { row });
        }
        seen.set(row, true);
        assert(accepted(msgs, height, k as int));
        assert forall|x: int| 0 <= x < height implies (#[trigger] seen@[x] <==> exists|i: int|
            0 <= i < k + 1 && #[trigger] msgs[i].0 == x) by {
            if x == row {
                assert(msgs[k as int].0 == x);
            } else if seen@[x] {
                let i = choose|i: int| 0 <= i < k && #[trigger] msgs[i].0 == x;
                assert(0 <= i < k + 1 && msgs[i].0 == x);
            }
        }
        k = k + 1;
    }
    assert(all_accepted(msgs, height));
    let mut j: usize = 0;
    while j < height
        invariant
            j <= height,
            n == msgs.len(),
            rows@ == msgs,
            seen@.len() == height,
            all_accepted(msgs, height),
            forall|x: int|
                0 <= x < height ==> (#[trigger] seen@[x] <==> exists|i: int|
                    0 <= i < n && #[trigger] msgs[i].0 == x),
            forall|x: int| 0 <= x < j ==> #[trigger] delivered(msgs, x),
        decreases height - j,
    {
        if !seen[j] {
            assert(!delivered(msgs, j as int));
            assert(first_missing(msgs, height, j as int));
            assert(!rows_complete(msgs, height));
            return Err(AssembleError::MissingRow { row: j });
        }
        assert(delivered(msgs, j as int)) by {
            assert(seen@[j as int]);
        }
        j = j + 1;
    }
    assert(rows_complete(msgs, height));
    Ok(place_rows(height, rows))
}

/// The picture of a complete set of scanlines.
fn place_rows(height: usize, rows: Vec<(usize, Vec<u8>)>) -> (out: Vec<u8>)
    requires
        rows_complete(rows@, height),
    ensures
        out@ == assembled(rows@, height),
{
    let ghost msgs = rows@;
    let mut rows = rows;
    let mut slots: Vec<Option<Vec<u8>>> = Vec::new();
    let mut j: usize = 0;
    while j < height
        invariant
            j <= height,
            slots@.len() == j,
            forall|x: int| 0 <= x < j ==> #[trigger] slots@[x] is None,
        decreases height - j,
    {
        slots.push(None);
        j = j + 1;
    }
    proof {
        lemma_unique_messages(msgs, height);
    }
    assert forall|k: int| 0 <= k < msgs.len() implies #[trigger] msgs[k].0 < height by {
        assert(accepted(msgs, height, k));
    }
    while rows.len() > 0
        invariant
            rows@.len() <= msgs.len(),
            forall|k: int| 0 <= k < msgs.len() ==> #[trigger] msgs[k].0 < height,
            rows@ == msgs.subrange(0, rows@.len() as int),
            slots@.len() == height,
            rows_complete(msgs, height),
            forall|k: int, x: int|
                0 <= k < msgs.len() && 0 <= x < msgs.len() && #[trigger] msgs[k].0 == #[trigger] msgs[x].0
                    ==> k == x,
            forall|k: int|
                rows@.len() <= k < msgs.len() ==> #[trigger] slots@[msgs[k].0 as int] == Some(
                    msgs[k].1,
                ),
            forall|k: int| 0 <= k < rows@.len() ==> #[trigger] slots@[msgs[k].0 as int] is None,
        decreases rows@.len(),
    {
        let ghost before = slots@;
        let ghost last = rows@.len() - 1;
        let (row, bytes) = rows.pop().unwrap();
        assert(msgs[last].0 == row);
        assert(accepted(msgs, height, last));
        slots.set(row, Some(bytes));
        assert forall|k: int| rows@.len() <= k < msgs.len() implies #[trigger] slots@[msgs[k].0 as int]
            == Some(msgs[k].1) by {
            if k != last {
                assert(msgs[k].0 != msgs[last].0);
            }
        }
        assert forall|k: int| 0 <= k < rows@.len() implies #[trigger] slots@[msgs[k].0 as int] is None by {
            assert(msgs[k] == rows@[k]);
            assert(msgs[k].0 != msgs[last].0);
        }
    }
    assert forall|x: int| 0 <= x < height implies #[trigger] slots@[x] is Some && slots@[x]->0@ == row_bytes(
        msgs,
        x,
    ) by {
        assert(delivered(msgs, x));
        let k = choose|k: int| 0 <= k < msgs.len() && #[trigger] msgs[k].0 == x;
        assert(slots@[msgs[k].0 as int] == Some(msgs[k].1));
    }
    let ghost all = Seq::new(height as nat, |i: int| row_bytes(msgs, height - 1 - i));
    let mut out: Vec<u8> = Vec::new();
    let mut i: usize = 0;
    assert(all.take(0).flatten() =~= Seq::<u8>::empty());
    while i < height
        invariant
            i <= height,
            slots@.len() == height - i,
            all == Seq::new(height as nat, |i: int| row_bytes(msgs, height - 1 - i)),
            forall|x: int| 0 <= x < slots@.len() ==> #[trigger] slots@[x] is Some && slots@[x]->0@ == row_bytes(
                msgs,
                x,
            ),
            out@ == all.take(i as int).flatten(),
        decreases height - i,
    {
        let slot = slots.pop().unwrap();
        let mut bytes = slot.unwrap();
        assert(bytes@ == all[i as int]);
        out.append(&mut bytes);
        proof {
            assert(all.take(i as int + 1) =~= all.take(i as int).push(all[i as int]));
            all.take(i as int).lemma_flatten_push(all[i as int]);
        }
        i = i + 1;
    }
    assert(all.take(height as int) =~= all);
    out
}

} // verus!
