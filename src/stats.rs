use vstd::prelude::*;
use crate::measure::{Fraction, Quantity};
use vstd::multiset::Multiset;
use vstd::relations::{sorted_by, total_ordering};
use crate::record::Cell;
use crate::text::{parse_u32, single_token, token_count, u32_of};

verus! {

/// How many records of `cs` satisfy `p`.
pub open spec fn count_where(cs: Seq<Cell>, p: spec_fn(Cell) -> bool) -> nat
    decreases cs.len(),
{
    if cs.len() == 0 {
        0
    } else {
        count_where(cs.drop_last(), p) + if p(cs.last()) {
            1nat
        } else {
            0nat
        }
    }
}

proof fn lemma_count_step(cs: Seq<Cell>, p: spec_fn(Cell) -> bool, i: int)
    requires
        0 <= i < cs.len(),
    ensures
        count_where(cs.take(i + 1), p) == count_where(cs.take(i), p) + if p(cs[i]) {
            1nat
        } else {
            0nat
        },
{
    assert(cs.take(i + 1).drop_last() =~= cs.take(i));
}

proof fn lemma_count_bound(cs: Seq<Cell>, p: spec_fn(Cell) -> bool)
    ensures
        count_where(cs, p) <= cs.len(),
    decreases cs.len(),
{
    if cs.len() > 0 {
        lemma_count_bound(cs.drop_last(), p);
    }
}

proof fn lemma_count_positive(cs: Seq<Cell>, p: spec_fn(Cell) -> bool, i: int)
    requires
        0 <= i < cs.len(),
        p(cs[i]),
    ensures
        count_where(cs, p) >= 1,
    decreases cs.len(),
{
    if i < cs.len() - 1 {
        lemma_count_positive(cs.drop_last(), p, i);
    }
}

pub open spec fn has_year(y: u32) -> spec_fn(Cell) -> bool {
    |c: Cell| c.launch_announced == Some(y)
}

pub open spec fn has_oem(m: Seq<char>) -> spec_fn(Cell) -> bool {
    |c: Cell| c.oem is Some && c.oem->0@ == m
}

pub open spec fn has_size(q: Quantity) -> spec_fn(Cell) -> bool {
    |c: Cell| c.display_size == Some(q)
}

pub open spec fn single_sensor() -> spec_fn(Cell) -> bool {
    |c: Cell| c.features_sensors is Some && token_count(c.features_sensors->0@) == 1
}

/// The record was announced in a year later than `t`.
pub open spec fn announced_after(c: Cell, t: u32) -> bool {
    c.launch_announced is Some && c.launch_announced->0 > t
}

fn count_year(cells: &[Cell], y: u32) -> (r: usize)
    ensures
        r == count_where(cells@, has_year(y)),
{
    let mut n: usize = 0;
    let mut j: usize = 0;
    while j < cells.len()
        invariant
            j <= cells@.len(),
            n == count_where(cells@.take(j as int), has_year(y)),
            n <= j,
        decreases cells@.len() - j,
    {
        proof {
            lemma_count_step(cells@, has_year(y), j as int);
        }
        if cells[j].launch_announced == Some(y) {
            n = n + 1;
        }
        j = j + 1;
    }
    assert(cells@.take(cells@.len() as int) =~= cells@);
    n
}

/// Among the records announced after `threshold`, a year with the most
/// launches; absent when there is no such record.
pub fn year_with_most_launches_after(cells: &[Cell], threshold: u32) -> (r: Option<u32>)
    ensures
        r is None <==> forall|i: int| 0 <= i < cells@.len() ==> !announced_after(
            #[trigger] cells@[i],
            threshold,
        ),
        r is Some ==> r->0 > threshold && count_where(cells@, has_year(r->0)) >= 1,
        r is Some ==> forall|i: int|
            0 <= i < cells@.len() && announced_after(#[trigger] cells@[i], threshold) ==> count_where(
                cells@,
                has_year(cells@[i].launch_announced->0),
            ) <= count_where(cells@, has_year(r->0)),
{
    let mut found = false;
    let mut best_year: u32 = 0;
    let mut best_n: usize = 0;
    let mut i: usize = 0;
    while i < cells.len()
        invariant
            i <= cells@.len(),
            !found <==> forall|k: int| 0 <= k < i ==> !announced_after(
                #[trigger] cells@[k],
                threshold,
            ),
            found ==> best_year > threshold && best_n == count_where(cells@, has_year(best_year))
                && best_n >= 1,
            forall|k: int|
                0 <= k < i && announced_after(#[trigger] cells@[k], threshold) ==> found
                    && count_where(cells@, has_year(cells@[k].launch_announced->0)) <= best_n,
        decreases cells@.len() - i,
    {
        if let Some(y) = cells[i].launch_announced {
            if y > threshold {
                let n = count_year(cells, y);
                proof {
                    lemma_count_positive(cells@, has_year(y), i as int);
                }
                if !found || n > best_n {
                    found = true;
                    best_year = y;
                    best_n = n;
                }
            }
        }
        i = i + 1;
    }
    if found {
        Some(best_year)
    } else {
        None
    }
}

/// Counts the records whose sensor list is present and holds a single item.
pub fn count_single_sensor_phones(cells: &[Cell]) -> (r: usize)
    ensures
        r == count_where(cells@, single_sensor()),
{
    let mut n: usize = 0;
    let mut j: usize = 0;
    while j < cells.len()
        invariant
            j <= cells@.len(),
            n == count_where(cells@.take(j as int), single_sensor()),
            n <= j,
        decreases cells@.len() - j,
    {
        proof {
            lemma_count_step(cells@, single_sensor(), j as int);
        }
        match &cells[j].features_sensors {
            Some(s) => {
                if single_token(s.as_str()) {
                    n = n + 1;
                }
            },
            None => {},
        }
        j = j + 1;
    }
    assert(cells@.take(cells@.len() as int) =~= cells@);
    n
}

/// Compares two texts character by character.
fn same_text(a: &String, b: &String) -> (r: bool)
    ensures
        r == (a@ == b@),
{
    let x = a.as_str();
    let y = b.as_str();
    let n = x.unicode_len();
    if n != y.unicode_len() {
        return false;
    }
    let mut i: usize = 0;
    while i < n
        invariant
            i <= n == x@.len() == y@.len(),
            x@ == a@ && y@ == b@,
            forall|k: int| 0 <= k < i ==> x@[k] == y@[k],
        decreases n - i,
    {
        if x.get_char(i) != y.get_char(i) {
            return false;
        }
        i = i + 1;
    }
    assert(x@ =~= y@);
    true
}

fn count_oem(cells: &[Cell], m: &String) -> (r: usize)
    ensures
        r == count_where(cells@, has_oem(m@)),
{
    let mut n: usize = 0;
    let mut j: usize = 0;
    while j < cells.len()
        invariant
            j <= cells@.len(),
            n == count_where(cells@.take(j as int), has_oem(m@)),
            n <= j,
        decreases cells@.len() - j,
    {
        proof {
            lemma_count_step(cells@, has_oem(m@), j as int);
        }
        match &cells[j].oem {
            Some(o) => {
                if same_text(o, m) {
                    n = n + 1;
                }
            },
            None => {},
        }
        j = j + 1;
    }
    assert(cells@.take(cells@.len() as int) =~= cells@);
    n
}

/// A manufacturer that occurs most often among the records that name one;
/// absent when none does.
pub fn most_common_manufacturer(cells: &[Cell]) -> (r: Option<String>)
    ensures
        r is None <==> forall|i: int| 0 <= i < cells@.len() ==> (#[trigger] cells@[i]).oem is None,
        r is Some ==> count_where(cells@, has_oem(r->0@)) >= 1,
        r is Some ==> forall|i: int|
            0 <= i < cells@.len() && (#[trigger] cells@[i]).oem is Some ==> count_where(
                cells@,
                has_oem(cells@[i].oem->0@),
            ) <= count_where(cells@, has_oem(r->0@)),
{
    let mut best: Option<String> = None;
    let mut best_n: usize = 0;
    let mut i: usize = 0;
    while i < cells.len()
        invariant
            i <= cells@.len(),
            best is None <==> forall|k: int| 0 <= k < i ==> (#[trigger] cells@[k]).oem is None,
            best is Some ==> best_n == count_where(cells@, has_oem(best->0@)) && best_n >= 1,
            forall|k: int|
                0 <= k < i && (#[trigger] cells@[k]).oem is Some ==> best is Some && count_where(
                    cells@,
                    has_oem(cells@[k].oem->0@),
                ) <= best_n,
        decreases cells@.len() - i,
    {
        match &cells[i].oem {
            Some(m) => {
                let n = count_oem(cells, m);
                proof {
                    lemma_count_positive(cells@, has_oem(m@), i as int);
                }
                if best.is_none() || n > best_n {
                    best = Some(m.clone());
                    best_n = n;
                }
            },
            None => {},
        }
        i = i + 1;
    }
    best
}

fn count_size(cells: &[Cell], q: Quantity) -> (r: usize)
    ensures
        r == count_where(cells@, has_size(q)),
{
    let mut n: usize = 0;
    let mut j: usize = 0;
    while j < cells.len()
        invariant
            j <= cells@.len(),
            n == count_where(cells@.take(j as int), has_size(q)),
            n <= j,
        decreases cells@.len() - j,
    {
        proof {
            lemma_count_step(cells@, has_size(q), j as int);
        }
        match cells[j].display_size {
            Some(d) => {
                if d.nanos == q.nanos {
                    n = n + 1;
                }
            },
            None => {},
        }
        j = j + 1;
    }
    assert(cells@.take(cells@.len() as int) =~= cells@);
    n
}

/// A display size that occurs most often among the records that give one;
/// absent when none does. Sizes are compared by value.
pub fn most_common_display_size(cells: &[Cell]) -> (r: Option<Quantity>)
    ensures
        r is None <==> forall|i: int| 0 <= i < cells@.len() ==> (#[trigger] cells@[i]).display_size is None,
        r is Some ==> count_where(cells@, has_size(r->0)) >= 1,
        r is Some ==> forall|i: int|
            0 <= i < cells@.len() && (#[trigger] cells@[i]).display_size is Some ==> count_where(
                cells@,
                has_size(cells@[i].display_size->0),
            ) <= count_where(cells@, has_size(r->0)),
{
    let mut best: Option<Quantity> = None;
    let mut best_n: usize = 0;
    let mut i: usize = 0;
    while i < cells.len()
        invariant
            i <= cells@.len(),
            best is None <==> forall|k: int| 0 <= k < i ==> (#[trigger] cells@[k]).display_size is None,
            best is Some ==> best_n == count_where(cells@, has_size(best->0)) && best_n >= 1,
            forall|k: int|
                0 <= k < i && (#[trigger] cells@[k]).display_size is Some ==> best is Some
                    && count_where(cells@, has_size(cells@[k].display_size->0)) <= best_n,
        decreases cells@.len() - i,
    {
        match cells[i].display_size {
            Some(q) => {
                let n = count_size(cells, q);
                proof {
                    lemma_count_positive(cells@, has_size(q), i as int);
                }
                if best.is_none() || n > best_n {
                    best = Some(q);
                    best_n = n;
                }
            },
            None => {},
        }
        i = i + 1;
    }
    best
}

/// The body weights that the records give, in billionths, in record order.
pub open spec fn weights_of(cs: Seq<Cell>) -> Seq<u64>
    decreases cs.len(),
{
    if cs.len() == 0 {
        Seq::empty()
    } else {
        let w = weights_of(cs.drop_last());
        match cs.last().body_weight {
            Some(q) => w.push(q.nanos),
            None => w,
        }
    }
}

pub open spec fn sum_of(s: Seq<u64>) -> int
    decreases s.len(),
{
    if s.len() == 0 {
        0
    } else {
        sum_of(s.drop_last()) + s.last()
    }
}

proof fn lemma_weights_step(cs: Seq<Cell>, i: int)
    requires
        0 <= i < cs.len(),
    ensures
        weights_of(cs.take(i + 1)) == match cs[i].body_weight {
            Some(q) => weights_of(cs.take(i)).push(q.nanos),
            None => weights_of(cs.take(i)),
        },
{
    assert(cs.take(i + 1).drop_last() =~= cs.take(i));
}

/// The mean body weight, as the sum of the weights over their number;
/// absent when no record gives a weight.
pub fn mean_body_weight(cells: &[Cell]) -> (r: Option<Fraction>)
    ensures
        r is None <==> weights_of(cells@).len() == 0,
        r is Some ==> r->0.num == sum_of(weights_of(cells@)) && r->0.den == weights_of(
            cells@,
        ).len(),
{
    let mut sum: u128 = 0;
    let mut n: usize = 0;
    let mut j: usize = 0;
    while j < cells.len()
        invariant
            j <= cells@.len(),
            n == weights_of(cells@.take(j as int)).len(),
            sum == sum_of(weights_of(cells@.take(j as int))),
            n <= j,
            sum <= n * (u64::MAX as int),
        decreases cells@.len() - j,
    {
        proof {
            lemma_weights_step(cells@, j as int);
        }
        match cells[j].body_weight {
            Some(q) => {
                proof {
                    let w = weights_of(cells@.take(j as int));
                    assert(w.push(q.nanos).drop_last() =~= w);
                    assert(n <= usize::MAX);
                    assert((n as int) * (u64::MAX as int) <= (usize::MAX as int) * (u64::MAX as int))
                        by (nonlinear_arith)
                        requires
                            n <= usize::MAX,
                    ;
                    assert((n as int + 1) * (u64::MAX as int) == n * (u64::MAX as int) + u64::MAX)
                        by (nonlinear_arith);
                }
                sum = sum + q.nanos as u128;
                n = n + 1;
            },
            None => {},
        }
        j = j + 1;
    }
    assert(cells@.take(cells@.len() as int) =~= cells@);
    if n == 0 {
        None
    } else {
        Some(Fraction { num: sum, den: n as u128 })
    }
}

pub open spec fn nanos_leq() -> spec_fn(u64, u64) -> bool {
    |a: u64, b: u64| a <= b
}

/// The median of a sorted run of weights: its middle one, or the mean of
/// its two middle ones; absent for an empty run.
pub open spec fn median_of(s: Seq<u64>) -> Option<Fraction> {
    if s.len() == 0 {
        None
    } else if s.len() % 2 == 1 {
        let m = s.len() as int / 2;
        Some(Fraction { num: s[m] as u128, den: 1 })
    } else {
        let m = s.len() as int / 2;
        Some(Fraction { num: (s[m - 1] + s[m]) as u128, den: 2 })
    }
}

proof fn lemma_nanos_leq_total()
    ensures
        total_ordering(nanos_leq()),
{
}

/// The weights in ascending order.
fn sort_nanos(v: &Vec<u64>) -> (r: Vec<u64>)
    ensures
        sorted_by(r@, nanos_leq()),
        r@.to_multiset() == v@.to_multiset(),
{
    broadcast use vstd::seq_lib::group_to_multiset_ensures;
    broadcast use vstd::multiset::group_multiset_axioms;

    let mut out: Vec<u64> = Vec::new();
    let mut i: usize = 0;
    while i < v.len()
        invariant
            i <= v@.len(),
            sorted_by(out@, nanos_leq()),
            out@.to_multiset() == v@.take(i as int).to_multiset(),
        decreases v@.len() - i,
    {
        let x = v[i];
        let mut p: usize = 0;
        while p < out.len() && out[p] <= x
            invariant
                p <= out@.len(),
                forall|k: int| 0 <= k < p ==> out@[k] <= x,
            decreases out@.len() - p,
        {
            p = p + 1;
        }
        let ghost before = out@;
        proof {
            assert forall|k: int| p <= k < before.len() implies x < #[trigger] before[k] by {
                assert(nanos_leq()(before[p as int], before[k]) || k == p);
            }
        }
        out.insert(p, x);
        proof {
            assert forall|a: int, b: int| 0 <= a < b < out@.len() implies (nanos_leq())(
                #[trigger] out@[a],
                #[trigger] out@[b],
            ) by {
                if b < p {
                    assert(nanos_leq()(before[a], before[b]));
                } else if b == p {
                } else if a < p {
                    assert(before[a] <= x);
                } else if a == p {
                } else {
                    assert(nanos_leq()(before[a - 1], before[b - 1]));
                }
            }
            assert(before.take(p as int) + seq![x] + before.skip(p as int) =~= out@);
            assert(before.take(p as int) + before.skip(p as int) =~= before);
            vstd::seq_lib::lemma_multiset_commutative(before.take(p as int), before.skip(p as int));
            vstd::seq_lib::lemma_multiset_commutative(before.take(p as int) + seq![x], before.skip(p as int));
            vstd::seq_lib::lemma_multiset_commutative(before.take(p as int), seq![x]);
            let a = before.take(p as int);
            let b = before.skip(p as int);
            assert(seq![x] =~= Seq::<u64>::empty().push(x));
            Seq::<u64>::empty().to_multiset_ensures();
            Seq::<u64>::empty().push(x).to_multiset_ensures();
            assert(seq![x].to_multiset() =~= Multiset::<u64>::empty().insert(x));
            assert(out@.to_multiset() =~= a.to_multiset().add(seq![x].to_multiset()).add(
                b.to_multiset(),
            ));
            assert(out@.to_multiset() =~= before.to_multiset().insert(x));
            assert(v@.take(i + 1) =~= v@.take(i as int).push(x));
            v@.take(i as int).to_multiset_ensures();
        }
        i = i + 1;
    }
    assert(v@.take(v@.len() as int) =~= v@);
    out
}

/// The median body weight; absent when no record gives a weight.
pub fn median_body_weight(cells: &[Cell]) -> (r: Option<Fraction>)
    ensures
        r == median_of(weights_of(cells@).sort_by(nanos_leq())),
{
    let mut ws: Vec<u64> = Vec::new();
    let mut j: usize = 0;
    while j < cells.len()
        invariant
            j <= cells@.len(),
            ws@ == weights_of(cells@.take(j as int)),
        decreases cells@.len() - j,
    {
        proof {
            lemma_weights_step(cells@, j as int);
        }
        match cells[j].body_weight {
            Some(q) => ws.push(q.nanos),
            None => {},
        }
        j = j + 1;
    }
    assert(cells@.take(cells@.len() as int) =~= cells@);
    let sorted = sort_nanos(&ws);
    proof {
        lemma_nanos_leq_total();
        ws@.lemma_sort_by_ensures(nanos_leq());
        vstd::seq_lib::lemma_sorted_unique(sorted@, ws@.sort_by(nanos_leq()), nanos_leq());
        assert(sorted@.len() == ws@.len()) by {
            assert(sorted@.to_multiset().len() == ws@.to_multiset().len());
            sorted@.to_multiset_ensures();
            ws@.to_multiset_ensures();
        }
    }
    let len = sorted.len();
    if len == 0 {
        None
    } else if len % 2 == 1 {
        Some(Fraction { num: sorted[len / 2] as u128, den: 1 })
    } else {
        Some(Fraction { num: sorted[len / 2 - 1] as u128 + sorted[len / 2] as u128, den: 2 })
    }
}

/// The record names a manufacturer and gives a weight.
pub open spec fn weighs(c: Cell) -> bool {
    c.oem is Some && c.body_weight is Some
}

pub open spec fn weighs_for(m: Seq<char>) -> spec_fn(Cell) -> bool {
    |c: Cell| weighs(c) && c.oem->0@ == m
}

/// The total weight, in billionths, of the records of manufacturer `m`.
pub open spec fn oem_weight_sum(cs: Seq<Cell>, m: Seq<char>) -> int
    decreases cs.len(),
{
    if cs.len() == 0 {
        0
    } else {
        oem_weight_sum(cs.drop_last(), m) + if weighs_for(m)(cs.last()) {
            cs.last().body_weight->0.nanos as int
        } else {
            0
        }
    }
}

pub open spec fn oem_weight_count(cs: Seq<Cell>, m: Seq<char>) -> nat {
    count_where(cs, weighs_for(m))
}

/// The mean weight of manufacturer `a` is at most that of manufacturer `b`.
pub open spec fn mean_at_most(cs: Seq<Cell>, a: Seq<char>, b: Seq<char>) -> bool {
    oem_weight_sum(cs, a) * oem_weight_count(cs, b) <= oem_weight_sum(cs, b) * oem_weight_count(
        cs,
        a,
    )
}

struct Tally {
    sum: u128,
    count: u128,
}

fn oem_tally(cells: &[Cell], m: &String) -> (t: Tally)
    requires
        cells@.len() <= u32::MAX,
    ensures
        t.sum == oem_weight_sum(cells@, m@),
        t.count == oem_weight_count(cells@, m@),
        t.count <= cells@.len(),
        t.sum <= t.count * (u64::MAX as int),
{
    let mut sum: u128 = 0;
    let mut count: u128 = 0;
    let mut j: usize = 0;
    while j < cells.len()
        invariant
            j <= cells@.len() <= u32::MAX,
            sum == oem_weight_sum(cells@.take(j as int), m@),
            count == count_where(cells@.take(j as int), weighs_for(m@)),
            count <= j,
            sum <= count * (u64::MAX as int),
        decreases cells@.len() - j,
    {
        proof {
            lemma_count_step(cells@, weighs_for(m@), j as int);
            assert(cells@.take(j + 1).drop_last() =~= cells@.take(j as int));
        }
        match (&cells[j].oem, cells[j].body_weight) {
            (Some(o), Some(q)) => {
                if same_text(o, m) {
                    proof {
                        assert((count + 1) * (u64::MAX as int) == count * (u64::MAX as int)
                            + u64::MAX) by (nonlinear_arith);
                        assert(count * (u64::MAX as int) <= (u32::MAX as int) * (u64::MAX as int))
                            by (nonlinear_arith)
                            requires
                                count <= u32::MAX,
                        ;
                    }
                    sum = sum + q.nanos as u128;
                    count = count + 1;
                }
            },
            _ => {},
        }
        j = j + 1;
    }
    assert(cells@.take(cells@.len() as int) =~= cells@);
    Tally { sum, count }
}

proof fn lemma_mean_order(a: int, ca: int, b: int, cb: int, c: int, cc: int)
    requires
        ca >= 0,
        cb > 0,
        cc >= 0,
        a * cb <= b * ca,
        b * cc <= c * cb,
    ensures
        a * cc <= c * ca,
{
    assert(a * cb * cc <= b * ca * cc) by (nonlinear_arith)
        requires
            a * cb <= b * ca,
            cc >= 0,
    ;
    assert(b * cc * ca <= c * cb * ca) by (nonlinear_arith)
        requires
            b * cc <= c * cb,
            ca >= 0,
    ;
    assert(cb * (a * cc) <= cb * (c * ca)) by (nonlinear_arith)
        requires
            a * cb * cc <= b * ca * cc,
            b * cc * ca <= c * cb * ca,
    ;
    assert(a * cc <= c * ca) by (nonlinear_arith)
        requires
            cb > 0,
            cb * (a * cc) <= cb * (c * ca),
    ;
}

/// A manufacturer whose records have the highest mean weight, among the
/// records that name a manufacturer and give a weight; absent when there are
/// none.
pub fn manufacturer_with_highest_avg_weight(cells: &[Cell]) -> (r: Option<String>)
    requires
        cells@.len() <= u32::MAX,
    ensures
        r is None <==> forall|i: int| 0 <= i < cells@.len() ==> !weighs(#[trigger] cells@[i]),
        r is Some ==> oem_weight_count(cells@, r->0@) >= 1,
        r is Some ==> forall|i: int|
            0 <= i < cells@.len() && weighs(#[trigger] cells@[i]) ==> mean_at_most(
                cells@,
                cells@[i].oem->0@,
                r->0@,
            ),
{
    let mut best: Option<String> = None;
    let mut best_sum: u128 = 0;
    let mut best_count: u128 = 0;
    let mut i: usize = 0;
    while i < cells.len()
        invariant
            i <= cells@.len() <= u32::MAX,
            best is None <==> forall|k: int| 0 <= k < i ==> !weighs(#[trigger] cells@[k]),
            best is Some ==> best_sum == oem_weight_sum(cells@, best->0@) && best_count
                == oem_weight_count(cells@, best->0@) && best_count >= 1 && best_count
                <= u32::MAX && best_sum <= best_count * (u64::MAX as int),
            forall|k: int|
                0 <= k < i && weighs(#[trigger] cells@[k]) ==> best is Some && mean_at_most(
                    cells@,
                    cells@[k].oem->0@,
                    best->0@,
                ),
        decreases cells@.len() - i,
    {
        if cells[i].body_weight.is_some() {
            match &cells[i].oem {
                Some(m) => {
                    let t = oem_tally(cells, m);
                    proof {
                        lemma_count_positive(cells@, weighs_for(m@), i as int);
                    }
                    let better = match &best {
                        None => true,
                        Some(_) => {
                            proof {
                                assert(t.sum * best_count <= (u32::MAX as int) * (u64::MAX as int)
                                    * (u32::MAX as int)) by (nonlinear_arith)
                                    requires
                                        t.sum <= t.count * (u64::MAX as int),
                                        t.count <= u32::MAX,
                                        best_count <= u32::MAX,
                                ;
                                assert(best_sum * t.count <= (u32::MAX as int) * (u64::MAX as int)
                                    * (u32::MAX as int)) by (nonlinear_arith)
                                    requires
                                        best_sum <= best_count * (u64::MAX as int),
                                        t.count <= u32::MAX,
                                        best_count <= u32::MAX,
                                ;
                            }
                            t.sum * best_count > best_sum * t.count
                        },
                    };
                    if better {
                        proof {
                            assert forall|k: int|
                                0 <= k < i && weighs(#[trigger] cells@[k]) implies mean_at_most(
                                cells@,
                                cells@[k].oem->0@,
                                m@,
                            ) by {
                                let mk = cells@[k].oem->0@;
                                lemma_mean_order(
                                    oem_weight_sum(cells@, mk),
                                    oem_weight_count(cells@, mk) as int,
                                    best_sum as int,
                                    best_count as int,
                                    t.sum as int,
                                    t.count as int,
                                );
                            }
                        }
                        best = Some(m.clone());
                        best_sum = t.sum;
                        best_count = t.count;
                    }
                },
                None => {},
            }
        }
        i = i + 1;
    }
    best
}

/// What a status reads as for the year comparison: its integer value, or 0.
pub open spec fn status_year(s: Seq<char>) -> u32 {
    match u32_of(s) {
        Some(v) => v,
        None => 0,
    }
}

/// The record was announced in one year and released in another, and names
/// its manufacturer and model.
pub open spec fn mismatched(c: Cell) -> bool {
    &&& c.launch_announced is Some
    &&& c.launch_status is Some
    &&& c.launch_announced->0 != status_year(c.launch_status->0@)
    &&& c.oem is Some
    &&& c.model is Some
}

/// The (manufacturer, model) pairs of the mismatched records, in order.
pub open spec fn mismatches(cs: Seq<Cell>) -> Seq<(Seq<char>, Seq<char>)>
    decreases cs.len(),
{
    if cs.len() == 0 {
        Seq::empty()
    } else if mismatched(cs.last()) {
        mismatches(cs.drop_last()).push((cs.last().oem->0@, cs.last().model->0@))
    } else {
        mismatches(cs.drop_last())
    }
}

pub open spec fn pair_view(p: (String, String)) -> (Seq<char>, Seq<char>) {
    (p.0@, p.1@)
}

/// The manufacturer and model of each record announced in one year and
/// released in another. A status that does not read as a year counts as 0.
pub fn mismatched_announce_release_years(cells: &[Cell]) -> (r: Vec<(String, String)>)
    ensures
        r@.map_values(|p: (String, String)| pair_view(p)) == mismatches(cells@),
{
    let mut out: Vec<(String, String)> = Vec::new();
    let mut j: usize = 0;
    while j < cells.len()
        invariant
            j <= cells@.len(),
            out@.map_values(|p: (String, String)| pair_view(p)) == mismatches(
                cells@.take(j as int),
            ),
        decreases cells@.len() - j,
    {
        assert(cells@.take(j + 1).drop_last() =~= cells@.take(j as int));
        let c = &cells[j];
        match (c.launch_announced, &c.launch_status, &c.oem, &c.model) {
            (Some(a), Some(st), Some(o), Some(m)) => {
                let released = match parse_u32(st.as_str()) {
                    Some(v) => v,
                    None => 0,
                };
                if a != released {
                    let ghost prev = out@;
                    out.push((o.clone(), m.clone()));
                    assert(out@.map_values(|p: (String, String)| pair_view(p)) =~= prev.map_values(
                        |p: (String, String)| pair_view(p),
                    ).push((o@, m@)));
                }
            },
            _ => {},
        }
        j = j + 1;
    }
    assert(cells@.take(cells@.len() as int) =~= cells@);
    out
}

} // verus!
