use vstd::prelude::*;
use crate::graph::{Graph, SeparationError};
use crate::bfs::{all_pairs_distances, distance_table, view_rows};

verus! {

/// The entries of a table, row after row.
pub open spec fn flat(t: Seq<Seq<Option<u32>>>) -> Seq<Option<u32>>
    decreases t.len(),
{
    if t.len() == 0 {
        Seq::empty()
    } else {
        flat(t.drop_last()) + t.last()
    }
}

/// An entry counts under threshold `degree` when it is a distance `d` with `0 < d <= degree`.
pub open spec fn is_valid(e: Option<u32>, degree: u32) -> bool {
    e matches Some(d) && 0 < d <= degree
}

/// The distance held by an entry, zero for none.
pub open spec fn value(e: Option<u32>) -> nat {
    match e {
        Some(d) => d as nat,
        None => 0,
    }
}

/// Number of valid entries.
pub open spec fn count_valid(s: Seq<Option<u32>>, degree: u32) -> nat
    decreases s.len(),
{
    if s.len() == 0 {
        0
    } else {
        count_valid(s.drop_last(), degree) + if is_valid(s.last(), degree) { 1nat } else { 0nat }
    }
}

/// Sum of the valid entries.
pub open spec fn sum_valid(s: Seq<Option<u32>>, degree: u32) -> nat
    decreases s.len(),
{
    if s.len() == 0 {
        0
    } else {
        sum_valid(s.drop_last(), degree) + if is_valid(s.last(), degree) { value(s.last()) } else { 0 }
    }
}

/// Largest valid entry, zero when there is none.
pub open spec fn max_valid(s: Seq<Option<u32>>, degree: u32) -> nat
    decreases s.len(),
{
    if s.len() == 0 {
        0
    } else {
        let m = max_valid(s.drop_last(), degree);
        if is_valid(s.last(), degree) && value(s.last()) > m { value(s.last()) } else { m }
    }
}

/// Number of valid entries equal to `x`.
pub open spec fn freq(s: Seq<Option<u32>>, degree: u32, x: int) -> nat
    decreases s.len(),
{
    if s.len() == 0 {
        0
    } else {
        freq(s.drop_last(), degree, x) + if is_valid(s.last(), degree) && value(s.last()) == x {
            1nat
        } else {
            0nat
        }
    }
}

/// `m` is the most frequent valid entry, the smallest one among equally frequent ones.
pub open spec fn is_mode(s: Seq<Option<u32>>, degree: u32, m: int) -> bool {
    &&& freq(s, degree, m) > 0
    &&& forall|x: int| #[trigger] freq(s, degree, x) <= freq(s, degree, m)
    &&& forall|x: int| x < m ==> #[trigger] freq(s, degree, x) < freq(s, degree, m)
}

/// The summary statistics of a table under one threshold.
#[derive(Debug, Clone, Copy, PartialEq, Eq, Structural)]
pub struct Summary {
    /// Number of entries, that is of ordered vertex pairs.
    pub total_pairs: u64,
    /// Number of valid entries.
    pub valid_pairs: u64,
    /// Sum of the valid entries.
    pub distance_sum: u128,
    /// Largest valid entry, zero when there is none.
    pub maximum: u32,
}

proof fn lemma_flat_step(t: Seq<Seq<Option<u32>>>, i: int, j: int)
    requires
        0 <= i < t.len(),
        0 <= j < t[i].len(),
    ensures
        flat(t.take(i)) + t[i].take(j + 1) == (flat(t.take(i)) + t[i].take(j)).push(t[i][j]),
{
    assert(flat(t.take(i)) + t[i].take(j + 1) =~= (flat(t.take(i)) + t[i].take(j)).push(t[i][j]));
}

proof fn lemma_flat_row(t: Seq<Seq<Option<u32>>>, i: int)
    requires
        0 <= i < t.len(),
    ensures
        flat(t.take(i)) + t[i].take(t[i].len() as int) == flat(t.take(i + 1)),
{
    assert(t.take(i + 1).drop_last() =~= t.take(i));
    assert(t[i].take(t[i].len() as int) =~= t[i]);
}

proof fn lemma_flat_take_len(t: Seq<Seq<Option<u32>>>, i: int)
    requires
        0 <= i <= t.len(),
    ensures
        flat(t.take(i)).len() <= flat(t).len(),
    decreases t.len() - i,
{
    if i == t.len() {
        assert(t.take(i) =~= t);
    } else {
        lemma_flat_take_len(t, i + 1);
        lemma_flat_row(t, i);
    }
}

/// A table of `rows` rows of `n` entries each has `rows * n` entries.
proof fn lemma_flat_square(t: Seq<Seq<Option<u32>>>, n: nat)
    requires
        forall|u: int| 0 <= u < t.len() ==> (#[trigger] t[u]).len() == n,
    ensures
        flat(t).len() == t.len() * n,
    decreases t.len(),
{
    if t.len() > 0 {
        lemma_flat_square(t.drop_last(), n);
        assert(t.last().len() == n);
        assert((t.len() - 1) * n + n == t.len() * n) by (nonlinear_arith);
    }
}

proof fn lemma_counts_bounded(s: Seq<Option<u32>>, degree: u32, x: int)
    ensures
        count_valid(s, degree) <= s.len(),
        freq(s, degree, x) <= count_valid(s, degree),
        sum_valid(s, degree) <= count_valid(s, degree) * degree,
        max_valid(s, degree) <= degree,
        count_valid(s, degree) == 0 ==> max_valid(s, degree) == 0,
    decreases s.len(),
{
    if s.len() > 0 {
        let r = s.drop_last();
        lemma_counts_bounded(r, degree, x);
        let c = count_valid(r, degree);
        assert(c * degree + degree == (c + 1) * degree) by (nonlinear_arith);
    }
}

/// A value that occurs as a valid entry is at most the largest one.
proof fn lemma_freq_below_max(s: Seq<Option<u32>>, degree: u32, x: int)
    requires
        freq(s, degree, x) > 0,
    ensures
        0 < x <= max_valid(s, degree),
    decreases s.len(),
{
    let r = s.drop_last();
    if freq(r, degree, x) > 0 {
        lemma_freq_below_max(r, degree, x);
    }
}

/// When some entry is valid, the largest valid entry occurs.
proof fn lemma_max_occurs(s: Seq<Option<u32>>, degree: u32)
    requires
        count_valid(s, degree) > 0,
    ensures
        max_valid(s, degree) > 0,
        freq(s, degree, max_valid(s, degree) as int) > 0,
    decreases s.len(),
{
    let r = s.drop_last();
    let m = max_valid(s, degree) as int;
    lemma_counts_bounded(r, degree, 0);
    if count_valid(r, degree) > 0 {
        lemma_max_occurs(r, degree);
    }
    if is_valid(s.last(), degree) && value(s.last()) > max_valid(r, degree) {
        assert(freq(s, degree, m) >= 1);
    } else {
        assert(freq(r, degree, m) > 0);
    }
}

/// Adds up an entry of the table into the running summary.
proof fn lemma_summary_push(s: Seq<Option<u32>>, e: Option<u32>, degree: u32)
    ensures
        count_valid(s.push(e), degree) == count_valid(s, degree) + if is_valid(e, degree) { 1nat } else { 0nat },
        sum_valid(s.push(e), degree) == sum_valid(s, degree) + if is_valid(e, degree) { value(e) } else { 0 },
        max_valid(s.push(e), degree) == if is_valid(e, degree) && value(e) > max_valid(s, degree) {
            value(e)
        } else {
            max_valid(s, degree)
        },
        forall|x: int| #[trigger] freq(s.push(e), degree, x) == freq(s, degree, x) + if is_valid(e, degree) && value(e) == x {
            1nat
        } else {
            0nat
        },
{
    assert(s.push(e).drop_last() =~= s);
}

/// Counts the pairs of `table` and sums up its distances that are valid under `degree`
/// (present, and in `1..=degree`).
pub fn summarize(table: &Vec<Vec<Option<u32>>>, degree: u32) -> (r: Summary)
    requires
        flat(view_rows(table)).len() <= u64::MAX,
    ensures
        r.total_pairs == flat(view_rows(table)).len(),
        r.valid_pairs == count_valid(flat(view_rows(table)), degree),
        r.distance_sum == sum_valid(flat(view_rows(table)), degree),
        r.maximum == max_valid(flat(view_rows(table)), degree),
{
    let ghost t = view_rows(table);
    let mut total: u64 = 0;
    let mut valid: u64 = 0;
    let mut sum: u128 = 0;
    let mut maximum: u32 = 0;
    let mut i: usize = 0;
    while i < table.len()
        invariant
            t == view_rows(table),
            flat(t).len() <= u64::MAX,
            i <= t.len(),
            total == flat(t.take(i as int)).len(),
            valid == count_valid(flat(t.take(i as int)), degree),
            sum == sum_valid(flat(t.take(i as int)), degree),
            maximum == max_valid(flat(t.take(i as int)), degree),
        decreases t.len() - i,
    {
        let row = &table[i];
        let mut j: usize = 0;
        proof {
            assert(row@.take(0) =~= Seq::<Option<u32>>::empty());
            assert(flat(t.take(i as int)) + row@.take(0) =~= flat(t.take(i as int)));
            lemma_flat_take_len(t, i as int + 1);
            lemma_flat_row(t, i as int);
        }
        while j < row.len()
            invariant
                t == view_rows(table),
                i < t.len(),
                row@ == t[i as int],
                j <= row@.len(),
                flat(t.take(i as int)).len() + row@.len() <= u64::MAX,
                total == (flat(t.take(i as int)) + row@.take(j as int)).len(),
                valid == count_valid(flat(t.take(i as int)) + row@.take(j as int), degree),
                sum == sum_valid(flat(t.take(i as int)) + row@.take(j as int), degree),
                maximum == max_valid(flat(t.take(i as int)) + row@.take(j as int), degree),
            decreases row@.len() - j,
        {
            let ghost prefix = flat(t.take(i as int)) + row@.take(j as int);
            let e = row[j];
            proof {
                lemma_flat_step(t, i as int, j as int);
                lemma_summary_push(prefix, e, degree);
                lemma_counts_bounded(prefix, degree, 0);
                let c = count_valid(prefix, degree);
                assert(c * degree <= 0xffff_ffff_ffff_ffffnat * 0xffff_ffffnat) by (nonlinear_arith)
                    requires c <= 0xffff_ffff_ffff_ffffnat, degree <= 0xffff_ffffnat;
            }
            total = total + 1;
            if let Some(d) = e {
                if 0 < d && d <= degree {
                    valid = valid + 1;
                    sum = sum + d as u128;
                    if d > maximum {
                        maximum = d;
                    }
                }
            }
            j = j + 1;
        }
        proof {
            lemma_flat_row(t, i as int);
        }
        i = i + 1;
    }
    proof {
        assert(t.take(t.len() as int) =~= t);
    }
    Summary { total_pairs: total, valid_pairs: valid, distance_sum: sum, maximum }
}

/// The most frequent distance of `table` that is valid under `degree`; among
/// equally frequent ones the smallest. Fails with `EmptyDistribution` when no
/// entry is valid.
pub fn mode_in_table(table: &Vec<Vec<Option<u32>>>, degree: u32) -> (r: Result<u32, SeparationError>)
    requires
        flat(view_rows(table)).len() <= u64::MAX,
    ensures
        r.is_err() <==> count_valid(flat(view_rows(table)), degree) == 0,
        r.is_err() ==> r == Err::<u32, SeparationError>(SeparationError::EmptyDistribution),
        r matches Ok(m) ==> is_mode(flat(view_rows(table)), degree, m as int),
{
    let ghost t = view_rows(table);
    let ghost all = flat(t);
    let summary = summarize(table, degree);
    if summary.valid_pairs == 0 {
        return Err(SeparationError::EmptyDistribution);
    }
    let top = summary.maximum as usize;
    proof {
        lemma_max_occurs(all, degree);
    }
    let mut counts: Vec<u64> = Vec::new();
    let mut k: usize = 0;
    while k < top
        invariant
            k <= top,
            counts@.len() == k,
            forall|x: int| 0 <= x < k ==> counts@[x] == 0,
        decreases top - k,
    {
        counts.push(0);
        k = k + 1;
    }
    let mut i: usize = 0;
    while i < table.len()
        invariant
            t == view_rows(table),
            flat(t).len() <= u64::MAX,
            i <= t.len(),
            counts@.len() == top,
            forall|x: int| 0 <= x < top ==> #[trigger] counts@[x] == freq(flat(t.take(i as int)), degree, x + 1),
        decreases t.len() - i,
    {
        let row = &table[i];
        let mut j: usize = 0;
        proof {
            assert(flat(t.take(i as int)) + row@.take(0) =~= flat(t.take(i as int)));
            lemma_flat_take_len(t, i as int + 1);
            lemma_flat_row(t, i as int);
        }
        while j < row.len()
            invariant
                t == view_rows(table),
                i < t.len(),
                row@ == t[i as int],
                j <= row@.len(),
                flat(t.take(i as int)).len() + row@.len() <= u64::MAX,
                counts@.len() == top,
                forall|x: int| 0 <= x < top ==> #[trigger] counts@[x]
                    == freq(flat(t.take(i as int)) + row@.take(j as int), degree, x + 1),
            decreases row@.len() - j,
        {
            let ghost prefix = flat(t.take(i as int)) + row@.take(j as int);
            let e = row[j];
            proof {
                lemma_flat_step(t, i as int, j as int);
                lemma_summary_push(prefix, e, degree);
            }
            if let Some(d) = e {
                if 0 < d && d <= degree && (d as usize) <= top {
                    let slot = (d - 1) as usize;
                    proof {
                        lemma_counts_bounded(prefix, degree, d as int);
                    }
                    counts.set(slot, counts[slot] + 1);
                }
            }
            proof {
                assert forall|x: int| 0 <= x < top implies #[trigger] counts@[x]
                    == freq(prefix.push(e), degree, x + 1) by {
                    assert(freq(prefix.push(e), degree, x + 1) == freq(prefix, degree, x + 1) + if is_valid(e, degree) && value(e) == x + 1 { 1nat } else { 0nat });
                }
            }
            j = j + 1;
        }
        proof {
            lemma_flat_row(t, i as int);
        }
        i = i + 1;
    }
    proof {
        assert(t.take(t.len() as int) =~= t);
    }
    let mut best: usize = 0;
    let mut best_count: u64 = counts[0];
    let mut x: usize = 1;
    while x < top
        invariant
            counts@.len() == top,
            best < x <= top,
            best_count == counts@[best as int],
            forall|y: int| 0 <= y < x ==> counts@[y] <= best_count,
            forall|y: int| 0 <= y < best ==> counts@[y] < best_count,
        decreases top - x,
    {
        if counts[x] > best_count {
            best = x;
            best_count = counts[x];
        }
        x = x + 1;
    }
    let m = (best + 1) as u32;
    proof {
        assert(counts@[top - 1] == freq(all, degree, top as int));
        assert forall|y: int| #[trigger] freq(all, degree, y) <= freq(all, degree, m as int) by {
            if freq(all, degree, y) > 0 {
                lemma_freq_below_max(all, degree, y);
                assert(counts@[y - 1] == freq(all, degree, y));
            }
        }
        assert forall|y: int| y < m implies #[trigger] freq(all, degree, y) < freq(all, degree, m as int) by {
            if freq(all, degree, y) > 0 {
                lemma_freq_below_max(all, degree, y);
                assert(counts@[y - 1] == freq(all, degree, y));
            }
        }
    }
    Ok(m)
}

/// The mode is unique: a threshold admits one most frequent distance once ties
/// go to the smallest value, so repeated calls agree.
pub proof fn lemma_mode_unique(s: Seq<Option<u32>>, degree: u32, m1: int, m2: int)
    requires
        is_mode(s, degree, m1),
        is_mode(s, degree, m2),
    ensures
        m1 == m2,
{
    if m1 < m2 {
        assert(freq(s, degree, m1) < freq(s, degree, m2));
    } else if m2 < m1 {
        assert(freq(s, degree, m2) < freq(s, degree, m1));
    }
}

/// Under threshold zero no pair counts: the count, the sum and the largest
/// distance are zero, and no distance occurs, so the mode fails.
pub proof fn lemma_degree_zero(s: Seq<Option<u32>>)
    ensures
        count_valid(s, 0) == 0,
        sum_valid(s, 0) == 0,
        max_valid(s, 0) == 0,
        forall|x: int| #[trigger] freq(s, 0, x) == 0,
    decreases s.len(),
{
    if s.len() > 0 {
        lemma_degree_zero(s.drop_last());
    }
    assert forall|x: int| #[trigger] freq(s, 0, x) == 0 by {
        lemma_counts_bounded(s, 0, x);
    }
}

/// The distance table of a graph on `n` vertices has `n * n` entries, which fit
/// in a `u64` when `n` fits in a `u32`.
proof fn lemma_table_size(g: &Graph)
    requires
        g.n <= u32::MAX,
    ensures
        flat(distance_table(g)).len() == g.n * g.n,
        flat(distance_table(g)).len() <= u64::MAX,
{
    lemma_flat_square(distance_table(g), g.n as nat);
    let n = g.n as int;
    assert(n * n <= 0xffff_ffffint * 0xffff_ffffint) by (nonlinear_arith)
        requires 0 <= n <= 0xffff_ffffint;
}

/// The largest distance of `graph` that is at most `degree`, zero when none is
/// (self-pairs and unreachable pairs never count).
pub fn max_distance(graph: &Graph, degree: u32) -> (r: u32)
    requires
        graph.wf(),
        graph.n <= u32::MAX,
    ensures
        r == max_valid(flat(distance_table(graph)), degree),
{
    let table = all_pairs_distances(graph);
    proof {
        lemma_table_size(graph);
    }
    summarize(&table, degree).maximum
}

/// The most frequent distance of `graph` that is at most `degree`, the
/// smallest among equally frequent ones; `EmptyDistribution` when none is.
pub fn mode_distance(graph: &Graph, degree: u32) -> (r: Result<u32, SeparationError>)
    requires
        graph.wf(),
        graph.n <= u32::MAX,
    ensures
        r.is_err() <==> count_valid(flat(distance_table(graph)), degree) == 0,
        r.is_err() ==> r == Err::<u32, SeparationError>(SeparationError::EmptyDistribution),
        r matches Ok(m) ==> is_mode(flat(distance_table(graph)), degree, m as int),
{
    let table = all_pairs_distances(graph);
    proof {
        lemma_table_size(graph);
    }
    mode_in_table(&table, degree)
}

/// The summary of `graph` under `degree`, from its all-pairs table.
pub fn summarize_graph(graph: &Graph, degree: u32) -> (r: Summary)
    requires
        graph.wf(),
        graph.n <= u32::MAX,
    ensures
        r.total_pairs == graph.n * graph.n,
        r.valid_pairs == count_valid(flat(distance_table(graph)), degree),
        r.distance_sum == sum_valid(flat(distance_table(graph)), degree),
        r.maximum == max_valid(flat(distance_table(graph)), degree),
{
    let table = all_pairs_distances(graph);
    proof {
        lemma_table_size(graph);
    }
    summarize(&table, degree)
}

/// The all-pairs table of `graph` with every entry that is not a distance in
/// `1..=degree` replaced by `None`.
pub fn filtered_distances(graph: &Graph, degree: u32) -> (r: Vec<Vec<Option<u32>>>)
    requires
        graph.wf(),
        graph.n <= u32::MAX,
    ensures
        r@.len() == graph.n,
        forall|u: int| 0 <= u < graph.n ==> (#[trigger] r@[u])@.len() == graph.n,
        forall|u: int, v: int| 0 <= u < graph.n && 0 <= v < graph.n ==> #[trigger] r@[u]@[v]
            == if is_valid(distance_table(graph)[u][v], degree) {
                distance_table(graph)[u][v]
            } else {
                None
            },
{
    let table = all_pairs_distances(graph);
    let ghost full = distance_table(graph);
    let mut out: Vec<Vec<Option<u32>>> = Vec::new();
    let mut i: usize = 0;
    while i < table.len()
        invariant
            view_rows(&table) == full,
            full.len() == graph.n,
            forall|u: int| 0 <= u < graph.n ==> (#[trigger] full[u]).len() == graph.n,
            i <= table@.len(),
            out@.len() == i,
            forall|u: int| 0 <= u < i ==> (#[trigger] out@[u])@.len() == graph.n,
            forall|u: int, v: int| 0 <= u < i && 0 <= v < graph.n ==> #[trigger] out@[u]@[v]
                == if is_valid(full[u][v], degree) { full[u][v] } else { None },
        decreases table@.len() - i,
    {
        let row = &table[i];
        assert(row@ == full[i as int]);
        let mut kept: Vec<Option<u32>> = Vec::new();
        let mut j: usize = 0;
        while j < row.len()
            invariant
                row@ == full[i as int],
                j <= row@.len(),
                kept@.len() == j,
                forall|v: int| 0 <= v < j ==> #[trigger] kept@[v]
                    == if is_valid(row@[v], degree) { row@[v] } else { None },
            decreases row@.len() - j,
        {
            let e = match row[j] {
                Some(val) => if val <= degree && val > 0 { Some(val) } else { None },
                None => None,
            };
            kept.push(e);
            j = j + 1;
        }
        out.push(kept);
        i = i + 1;
    }
    out
}

} // verus!
