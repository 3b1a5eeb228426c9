//! Matrices as one flat buffer, and back.
use vstd::prelude::*;
use vstd::arithmetic::div_mod::*;
use vstd::arithmetic::mul::*;

verus! {

/// The rows of a matrix as sequences.
pub open spec fn views<T>(rows: Seq<Vec<T>>) -> Seq<Seq<T>> {
    rows.map_values(|row: Vec<T>| row@)
}

/// The rows of a matrix, one after the other.
pub open spec fn flattened<T>(rows: Seq<Seq<T>>) -> Seq<T>
    decreases rows.len(),
{
    if rows.len() == 0 {
        Seq::empty()
    } else {
        flattened(rows.drop_last()) + rows.last()
    }
}

/// The number of runs of `n` elements that `len` elements are cut into, the last one
/// possibly shorter.
pub open spec fn chunk_count(len: nat, n: nat) -> nat {
    (len + n - 1) as nat / n
}

/// Run `i` of `n` elements, or of what is left of them.
pub open spec fn chunk<T>(s: Seq<T>, n: nat, i: nat) -> Seq<T> {
    s.subrange(
        (i * n) as int,
        if (i + 1) * n <= s.len() {
            ((i + 1) * n) as int
        } else {
            s.len() as int
        },
    )
}

/// The elements of `v` from `start` up to `end`.
pub fn copy_range<T: Copy>(v: &[T], start: usize, end: usize) -> (r: Vec<T>)
    requires
        start <= end <= v@.len(),
    ensures
        r@ == v@.subrange(start as int, end as int),
{
    let mut r: Vec<T> = Vec::new();
    let mut i: usize = start;
    while i < end
        invariant
            start <= i <= end <= v@.len(),
            r@ == v@.subrange(start as int, i as int),
        decreases end - i,
    {
        r.push(v[i]);
        i = i + 1;
    }
    r
}

/// A copy of all elements.
pub fn copy_all<T: Copy>(v: &Vec<T>) -> (r: Vec<T>)
    ensures
        r@ == v@,
{
    let r = copy_range(v.as_slice(), 0, v.len());
    assert(r@ =~= v@);
    r
}

/// One more row adds its elements at the end.
pub proof fn lemma_flattened_step<T>(rows: Seq<Seq<T>>, i: int)
    requires
        0 <= i < rows.len(),
    ensures
        flattened(rows.take(i + 1)) == flattened(rows.take(i)) + rows[i],
{
    assert(rows.take(i + 1).drop_last() =~= rows.take(i));
}

/// The rows of a matrix, one after the other.
pub fn flatten<T: Copy>(rows: &[Vec<T>]) -> (r: Vec<T>)
    ensures
        r@ == flattened(views(rows@)),
{
    let mut r: Vec<T> = Vec::new();
    let mut i: usize = 0;
    while i < rows.len()
        invariant
            i <= rows@.len(),
            r@ == flattened(views(rows@).take(i as int)),
        decreases rows@.len() - i,
    {
        let mut copy = copy_all(&rows[i]);
        proof {
            lemma_flattened_step(views(rows@), i as int);
        }
        r.append(&mut copy);
        i = i + 1;
    }
    proof {
        assert(views(rows@).take(i as int) =~= views(rows@));
    }
    r
}

/// Cuts a buffer into runs of `n` elements; the last one has what is left.
pub fn split_chunks<T: Copy>(s: &[T], n: usize) -> (r: Vec<Vec<T>>)
    requires
        n > 0,
    ensures
        r@.len() == chunk_count(s@.len(), n as nat),
        forall|i: int|
            0 <= i < r@.len() ==> (#[trigger] r@[i])@ == chunk(s@, n as nat, i as nat),
        flattened(views(r@)) == s@,
{
    let len: usize = s.len();
    let mut r: Vec<Vec<T>> = Vec::new();
    let mut start: usize = 0;
    proof {
        lemma_mul_basics(n as int);
    }
    while start < len
        invariant
            n > 0,
            len == s@.len(),
            start <= len,
            start == r@.len() * n || (start == len && (r@.len() - 1) * n < len < r@.len() * n),
            forall|i: int|
                0 <= i < r@.len() ==> (#[trigger] r@[i])@ == chunk(s@, n as nat, i as nat),
        decreases len - start,
    {
        let end: usize = if len - start <= n {
            len
        } else {
            start + n
        };
        let ghost i = r@.len();
        proof {
            lemma_mul_is_distributive_add_other_way(n as int, i as int, 1);
            lemma_mul_basics(n as int);
        }
        let part = copy_range(s, start, end);
        assert(part@ =~= chunk(s@, n as nat, i));
        r.push(part);
        start = end;
    }
    proof {
        let k = r@.len() as int;
        let m = n as int;
        let total = len as int;
        assert((total + m - 1) / m == k) by (nonlinear_arith)
            requires
                m > 0,
                k >= 0,
                total == k * m || (k - 1) * m < total < k * m,
        ;
    }
    proof {
        let count = r@.len();
        lemma_chunk_elements(s@, n as nat, 0);
        lemma_joined_chunks(s@, n as nat, count);
        assert(views(r@) =~= Seq::new(count, |i: int| chunk(s@, n as nat, i as nat)));
        if count * n <= s@.len() {
            assert(s@.take((count * n) as int) =~= s@);
        }
    }
    r
}

/// A buffer is its own only run of its length.
pub proof fn lemma_whole_chunk<T>(s: Seq<T>)
    requires
        s.len() > 0,
    ensures
        chunk_count(s.len(), s.len()) == 1,
        chunk(s, s.len(), 0) == s,
{
    let n = s.len() as int;
    assert((n + n - 1) / n == 1) by (nonlinear_arith)
        requires
            n > 0,
    ;
    lemma_mul_basics(n);
    assert(chunk(s, s.len(), 0) =~= s);
}

/// Cutting undoes joining, where all rows have the same length.
pub proof fn lemma_chunks_of_flattened<T>(rows: Seq<Seq<T>>, n: nat)
    requires
        n > 0,
        forall|i: int| 0 <= i < rows.len() ==> (#[trigger] rows[i]).len() == n,
    ensures
        flattened(rows).len() == rows.len() * n,
        chunk_count(flattened(rows).len(), n) == rows.len(),
        forall|i: int| 0 <= i < rows.len() ==> #[trigger] chunk(flattened(rows), n, i as nat)
            == rows[i],
    decreases rows.len(),
{
    let k = rows.len();
    if k == 0 {
        lemma_mul_basics(n as int);
        lemma_small_mod((n - 1) as nat, n);
        lemma_basic_div((n - 1) as int, n as int);
    } else {
        let rest = rows.drop_last();
        lemma_chunks_of_flattened(rest, n);
        lemma_mul_is_distributive_add_other_way(n as int, (k - 1) as int, 1);
        lemma_mul_basics(n as int);
        let s = flattened(rows);
        assert((k * n + n - 1) / (n as int) == k) by (nonlinear_arith)
            requires
                n > 0,
                k >= 0,
        ;
        assert forall|i: int| 0 <= i < rows.len() implies #[trigger] chunk(s, n, i as nat)
            == rows[i] by {
            lemma_mul_is_distributive_add_other_way(n as int, i, 1);
            lemma_mul_nonnegative(i, n as int);
            if i < k - 1 {
                lemma_mul_inequality(i + 1, (k - 1) as int, n as int);
                assert(chunk(flattened(rest), n, i as nat) == rest[i]);
                assert(chunk(s, n, i as nat) =~= chunk(flattened(rest), n, i as nat));
            } else {
                assert(chunk(s, n, i as nat) =~= rows[i]);
            }
        }
    }
}

/// Joining two lists of rows joins what each of them is joined to.
pub proof fn lemma_flattened_concat<T>(a: Seq<Seq<T>>, b: Seq<Seq<T>>)
    ensures
        flattened(a + b) == flattened(a) + flattened(b),
        b.len() == 1 ==> flattened(b) == b[0],
    decreases b.len(),
{
    if b.len() == 0 {
        assert(a + b =~= a);
        assert(flattened(a + b) =~= flattened(a) + flattened(b));
    } else {
        assert((a + b).drop_last() =~= a + b.drop_last());
        lemma_flattened_concat(a, b.drop_last());
        assert(flattened(a + b) =~= flattened(a) + flattened(b));
        if b.len() == 1 {
            assert(b.drop_last() =~= Seq::empty());
            assert(flattened(b) =~= b[0]);
        }
    }
}

/// Element `j` of row `i` stands at place `i * n + j`, where all rows have `n` elements.
pub proof fn lemma_flattened_place<T>(rows: Seq<Seq<T>>, n: nat, i: int, j: int)
    requires
        forall|r: int| 0 <= r < rows.len() ==> (#[trigger] rows[r]).len() == n,
        0 <= i < rows.len(),
        0 <= j < n,
    ensures
        flattened(rows).len() == rows.len() * n,
        0 <= i * n + j < flattened(rows).len(),
        flattened(rows)[i * n + j] == rows[i][j],
{
    lemma_chunks_of_flattened(rows, n);
    lemma_mul_inequality(i + 1, rows.len() as int, n as int);
    lemma_mul_is_distributive_add_other_way(n as int, i, 1);
    lemma_mul_nonnegative(i, n as int);
    assert(chunk(flattened(rows), n, i as nat) == rows[i]);
}

/// A buffer is cut into as few runs as it takes. Run `i` starts at place `i * n` and has `n`
/// elements, the last one what is left.
pub proof fn lemma_chunk_elements<T>(s: Seq<T>, n: nat, i: nat)
    requires
        n > 0,
    ensures
        s.len() <= chunk_count(s.len(), n) * n < s.len() + n,
        i < chunk_count(s.len(), n) ==> {
            let part = chunk(s, n, i);
            &&& i * n < s.len()
            &&& part.len() == if i * n + n <= s.len() {
                n as int
            } else {
                s.len() - i * n
            }
            &&& forall|k: int| 0 <= k < part.len() ==> #[trigger] part[k] == s[i * n + k]
        },
{
    let m = n as int;
    let total = s.len() as int;
    let k = chunk_count(s.len(), n) as int;
    lemma_fundamental_div_mod(total + m - 1, m);
    lemma_mod_bound(total + m - 1, m);
    lemma_mul_is_commutative(m, k);
    lemma_mul_is_distributive_add_other_way(m, i as int, 1);
    lemma_mul_nonnegative(i as int, m);
    if i < k {
        lemma_mul_inequality((i + 1) as int, k, m);
    }
}

/// The runs of a buffer, joined, are the buffer.
pub proof fn lemma_joined_chunks<T>(s: Seq<T>, n: nat, count: nat)
    requires
        n > 0,
        count <= chunk_count(s.len(), n),
    ensures
        flattened(Seq::new(count, |i: int| chunk(s, n, i as nat))) == if count * n <= s.len() {
            s.take((count * n) as int)
        } else {
            s
        },
    decreases count,
{
    let parts = Seq::new(count, |i: int| chunk(s, n, i as nat));
    if count == 0 {
        lemma_mul_basics(n as int);
        assert(flattened(parts) =~= s.take(0));
    } else {
        let less = (count - 1) as nat;
        lemma_joined_chunks(s, n, less);
        assert(parts.drop_last() =~= Seq::new(less, |i: int| chunk(s, n, i as nat)));
        lemma_chunk_elements(s, n, less);
        lemma_mul_is_distributive_add_other_way(n as int, less as int, 1);
        lemma_mul_nonnegative(less as int, n as int);
        assert(flattened(parts) =~= if count * n <= s.len() {
            s.take((count * n) as int)
        } else {
            s
        });
    }
}

/// Row `i` as a sequence.
pub proof fn lemma_views<T>(rows: Seq<Vec<T>>)
    ensures
        views(rows).len() == rows.len(),
        forall|i: int| 0 <= i < rows.len() ==> #[trigger] views(rows)[i] == rows[i]@,
{
}

} // verus!
