use vstd::prelude::*;

use crate::errors::EngineError;
use crate::value::Value;

verus! {

/// The atomic unit flowing between operators: a value together with a
/// signed multiplicity. A positive multiplicity asserts presence, a
/// negative one retracts it.
#[derive(Clone, Copy, Debug, PartialEq, Eq, Structural)]
pub struct Record {
    pub value: Value,
    pub multiplicity: i64,
}

/// What a single record contributes to the net multiplicity of `v`.
pub open spec fn share_of(r: Record, v: Value) -> int {
    if r.value == v {
        r.multiplicity as int
    } else {
        0
    }
}

/// The net multiplicity of `v` in a batch of records: the algebraic sum of
/// every contribution for `v`. This is the mathematical model every
/// contract of the engine is stated over.
pub open spec fn sum_of(s: Seq<Record>, v: Value) -> int
    decreases s.len(),
{
    if s.len() == 0 {
        0
    } else {
        sum_of(s.drop_last(), v) + share_of(s.last(), v)
    }
}

/// A batch with no net effect: every value sums to zero.
pub open spec fn net_zero(s: Seq<Record>) -> bool {
    forall|v: Value| sum_of(s, v) == 0
}

/// No two records of the batch carry the same value.
pub open spec fn distinct_values(s: Seq<Record>) -> bool {
    forall|i: int, j: int| 0 <= i < j < s.len() ==> s[i].value != s[j].value
}

/// Every net multiplicity of `base` plus `extra` stays representable as a
/// machine multiplicity.
pub open spec fn fits(base: Seq<Record>, extra: Seq<Record>) -> bool {
    forall|v: Value|
        i64::MIN <= #[trigger] sum_of(base, v) + sum_of(extra, v) <= i64::MAX
}

/// Every record carries multiplicity one: the batch describes a plain set.
pub open spec fn all_unit(s: Seq<Record>) -> bool {
    forall|k: int| 0 <= k < s.len() ==> #[trigger] s[k].multiplicity == 1
}

/// A versioned bag of values with signed multiplicities, held in canonical
/// form: one record per value, none of them zero. Under this invariant a
/// record's multiplicity is exactly the net multiplicity of its value.
#[derive(Debug)]
pub struct Collection {
    pub records: Vec<Record>,
}

impl Collection {
    /// Canonical form: distinct values, no zero multiplicities.
    pub open spec fn wf(self) -> bool {
        &&& distinct_values(self.records@)
        &&& forall|k: int|
            0 <= k < self.records@.len() ==> #[trigger] self.records@[k].multiplicity != 0
    }

    /// The net multiplicity of `v` in this collection.
    pub open spec fn mult(self, v: Value) -> int {
        sum_of(self.records@, v)
    }

    /// The collection with no values at all.
    pub fn empty() -> (c: Collection)
        ensures
            c.wf(),
            c.records@.len() == 0,
            forall|v: Value| c.mult(v) == 0,
    {
        Collection { records: Vec::new() }
    }

    pub fn len(&self) -> (n: usize)
        ensures
            n == self.records@.len(),
    {
        self.records.len()
    }

    pub fn is_empty(&self) -> (b: bool)
        ensures
            b == (self.records@.len() == 0),
    {
        self.records.len() == 0
    }

    /// A structural copy: the same records in the same order.
    pub fn duplicate(&self) -> (c: Collection)
        ensures
            c.records@ == self.records@,
    {
        let mut out: Vec<Record> = Vec::new();
        let n = self.records.len();
        let mut i: usize = 0;
        while i < n
            invariant
                n == self.records@.len(),
                i <= n,
                out@ == self.records@.take(i as int),
            decreases n - i,
        {
            out.push(self.records[i]);
            proof {
                assert(self.records@.take(i + 1) =~= self.records@.take(i as int).push(
                    self.records@[i as int],
                ));
            }
            i += 1;
        }
        proof {
            assert(self.records@.take(n as int) =~= self.records@);
        }
        Collection { records: out }
    }

    /// Looks up the net multiplicity of a value; absent values report zero.
    pub fn get_multiplicity(&self, v: &Value) -> (m: i64)
        requires
            self.wf(),
        ensures
            m as int == self.mult(*v),
    {
        let n = self.records.len();
        let mut i: usize = 0;
        while i < n
            invariant
                self.wf(),
                n == self.records@.len(),
                i <= n,
                forall|k: int| 0 <= k < i ==> self.records@[k].value != *v,
            decreases n - i,
        {
            if self.records[i].value == *v {
                proof {
                    lemma_sum_of_entry(self.records@, i as int);
                }
                return self.records[i].multiplicity;
            }
            i += 1;
        }
        proof {
            lemma_sum_of_absent(self.records@, *v);
        }
        0
    }
}

pub proof fn lemma_sum_of_push(s: Seq<Record>, r: Record, v: Value)
    ensures
        sum_of(s.push(r), v) == sum_of(s, v) + share_of(r, v),
{
    assert(s.push(r).drop_last() =~= s);
}

pub proof fn lemma_sum_of_take_succ(s: Seq<Record>, i: int, v: Value)
    requires
        0 <= i < s.len(),
    ensures
        sum_of(s.take(i + 1), v) == sum_of(s.take(i), v) + share_of(s[i], v),
{
    assert(s.take(i + 1) =~= s.take(i).push(s[i]));
    lemma_sum_of_push(s.take(i), s[i], v);
}

pub proof fn lemma_sum_of_concat(a: Seq<Record>, b: Seq<Record>, v: Value)
    ensures
        sum_of(a + b, v) == sum_of(a, v) + sum_of(b, v),
    decreases b.len(),
{
    if b.len() == 0 {
        assert(a + b =~= a);
    } else {
        assert((a + b).drop_last() =~= a + b.drop_last());
        lemma_sum_of_concat(a, b.drop_last(), v);
    }
}

pub proof fn lemma_sum_of_remove(s: Seq<Record>, i: int, v: Value)
    requires
        0 <= i < s.len(),
    ensures
        sum_of(s.remove(i), v) == sum_of(s, v) - share_of(s[i], v),
    decreases s.len(),
{
    if i == s.len() - 1 {
        assert(s.remove(i) =~= s.drop_last());
    } else {
        assert(s.remove(i).drop_last() =~= s.drop_last().remove(i));
        assert(s.remove(i).last() == s.last());
        lemma_sum_of_remove(s.drop_last(), i, v);
    }
}

/// A value no record carries nets to zero.
pub proof fn lemma_sum_of_absent(s: Seq<Record>, v: Value)
    requires
        forall|k: int| 0 <= k < s.len() ==> s[k].value != v,
    ensures
        sum_of(s, v) == 0,
    decreases s.len(),
{
    if s.len() > 0 {
        lemma_sum_of_absent(s.drop_last(), v);
    }
}

/// In a batch of pairwise-distinct values, a record's multiplicity is
/// exactly the net multiplicity of its value.
pub proof fn lemma_sum_of_entry(s: Seq<Record>, k: int)
    requires
        distinct_values(s),
        0 <= k < s.len(),
    ensures
        sum_of(s, s[k].value) == s[k].multiplicity as int,
    decreases s.len(),
{
    if k == s.len() - 1 {
        assert(forall|j: int|
            0 <= j < s.drop_last().len() ==> s.drop_last()[j].value != s[k].value);
        lemma_sum_of_absent(s.drop_last(), s[k].value);
    } else {
        lemma_sum_of_entry(s.drop_last(), k);
        assert(s.last().value != s[k].value);
    }
}

/// A canonical plain set holds each value at most once.
pub proof fn lemma_unit_mult_bounds(c: Collection, v: Value)
    requires
        c.wf(),
        all_unit(c.records@),
    ensures
        0 <= c.mult(v) <= 1,
{
    if exists|t: int| 0 <= t < c.records@.len() && c.records@[t].value == v {
        let t = choose|t: int| 0 <= t < c.records@.len() && c.records@[t].value == v;
        lemma_sum_of_entry(c.records@, t);
    } else {
        lemma_sum_of_absent(c.records@, v);
    }
}

/// In canonical form every net multiplicity is a machine multiplicity.
pub proof fn lemma_wf_mult_bounded(c: Collection, v: Value)
    requires
        c.wf(),
    ensures
        i64::MIN <= c.mult(v) <= i64::MAX,
{
    if exists|t: int| 0 <= t < c.records@.len() && c.records@[t].value == v {
        let t = choose|t: int| 0 <= t < c.records@.len() && c.records@[t].value == v;
        lemma_sum_of_entry(c.records@, t);
    } else {
        lemma_sum_of_absent(c.records@, v);
    }
}

proof fn lemma_sum_of_multiset(s1: Seq<Record>, s2: Seq<Record>, v: Value)
    requires
        s1.to_multiset() == s2.to_multiset(),
    ensures
        sum_of(s1, v) == sum_of(s2, v),
    decreases s1.len(),
{
    broadcast use vstd::seq_lib::group_to_multiset_ensures;

    if s1.len() == 0 {
        assert(s1.len() == s1.to_multiset().len());
        assert(s2.len() == s2.to_multiset().len());
    } else {
        let r = s1.last();
        assert(s1.contains(r));
        assert(s2.to_multiset().count(r) > 0);
        assert(s2.contains(r));
        let j = choose|j: int| 0 <= j < s2.len() && s2[j] == r;
        assert(s1.drop_last() =~= s1.remove(s1.len() - 1));
        assert(s1.drop_last().to_multiset() == s1.to_multiset().remove(r));
        assert(s2.remove(j).to_multiset() == s2.to_multiset().remove(r));
        lemma_sum_of_multiset(s1.drop_last(), s2.remove(j), v);
        lemma_sum_of_remove(s2, j, v);
    }
}

/// Accumulation is commutative and associative: the canonical result of
/// folding a batch of records depends only on which records were offered,
/// never on the order they arrived in. Any permutation of a batch nets to
/// the same multiplicity for every value.
pub proof fn lemma_fold_permutation(s1: Seq<Record>, s2: Seq<Record>)
    requires
        s1.to_multiset() == s2.to_multiset(),
    ensures
        forall|v: Value| sum_of(s1, v) == sum_of(s2, v),
{
    assert forall|v: Value| sum_of(s1, v) == sum_of(s2, v) by {
        lemma_sum_of_multiset(s1, s2, v);
    }
}

/// The batch that inserts `v` once and retracts it once at the same time.
pub open spec fn insert_remove_pair(v: Value) -> Seq<Record> {
    seq![
        Record { value: v, multiplicity: 1 },
        Record { value: v, multiplicity: (-1) as i64 },
    ]
}

/// Zero-cancellation: inserting a value and retracting it again leaves no
/// net entry for any value at all.
pub proof fn lemma_insert_remove_cancels(v: Value)
    ensures
        net_zero(insert_remove_pair(v)),
{
    let s = insert_remove_pair(v);
    assert forall|u: Value| sum_of(s, u) == 0 by {
        assert(s.drop_last() =~= seq![Record { value: v, multiplicity: 1 }]);
        assert(s.drop_last().drop_last() =~= Seq::<Record>::empty());
        assert(sum_of(s.drop_last().drop_last(), u) == 0);
        assert(sum_of(s.drop_last(), u) == share_of(s.drop_last().last(), u));
        assert(sum_of(s, u) == share_of(s.drop_last().last(), u) + share_of(s.last(), u));
    }
}

// ----------------------------------------------------------------------
// The difference accumulator. Net multiplicities are gathered in i128
// working entries so that no intermediate sum can leave the representable
// range; only the final per-value nets must fit a machine multiplicity.
// ----------------------------------------------------------------------

pub(crate) open spec fn pair_share(p: (Value, i128), v: Value) -> int {
    if p.0 == v {
        p.1 as int
    } else {
        0
    }
}

pub(crate) open spec fn pair_sum(s: Seq<(Value, i128)>, v: Value) -> int
    decreases s.len(),
{
    if s.len() == 0 {
        0
    } else {
        pair_sum(s.drop_last(), v) + pair_share(s.last(), v)
    }
}

pub(crate) open spec fn pairs_distinct(s: Seq<(Value, i128)>) -> bool {
    forall|i: int, j: int| 0 <= i < j < s.len() ==> s[i].0 != s[j].0
}

proof fn lemma_pair_sum_push(s: Seq<(Value, i128)>, p: (Value, i128), v: Value)
    ensures
        pair_sum(s.push(p), v) == pair_sum(s, v) + pair_share(p, v),
{
    assert(s.push(p).drop_last() =~= s);
}

proof fn lemma_pair_sum_take_succ(s: Seq<(Value, i128)>, i: int, v: Value)
    requires
        0 <= i < s.len(),
    ensures
        pair_sum(s.take(i + 1), v) == pair_sum(s.take(i), v) + pair_share(s[i], v),
{
    assert(s.take(i + 1) =~= s.take(i).push(s[i]));
    lemma_pair_sum_push(s.take(i), s[i], v);
}

proof fn lemma_pair_sum_update(s: Seq<(Value, i128)>, k: int, p: (Value, i128), v: Value)
    requires
        0 <= k < s.len(),
    ensures
        pair_sum(s.update(k, p), v) == pair_sum(s, v) - pair_share(s[k], v) + pair_share(p, v),
    decreases s.len(),
{
    if k == s.len() - 1 {
        assert(s.update(k, p).drop_last() =~= s.drop_last());
        assert(s.update(k, p).last() == p);
    } else {
        assert(s.update(k, p).drop_last() =~= s.drop_last().update(k, p));
        assert(s.update(k, p).last() == s.last());
        lemma_pair_sum_update(s.drop_last(), k, p, v);
    }
}

proof fn lemma_pair_sum_absent(s: Seq<(Value, i128)>, v: Value)
    requires
        forall|k: int| 0 <= k < s.len() ==> s[k].0 != v,
    ensures
        pair_sum(s, v) == 0,
    decreases s.len(),
{
    if s.len() > 0 {
        lemma_pair_sum_absent(s.drop_last(), v);
    }
}

proof fn lemma_pair_sum_entry(s: Seq<(Value, i128)>, k: int)
    requires
        pairs_distinct(s),
        0 <= k < s.len(),
    ensures
        pair_sum(s, s[k].0) == s[k].1 as int,
    decreases s.len(),
{
    if k == s.len() - 1 {
        lemma_pair_sum_absent(s.drop_last(), s[k].0);
    } else {
        lemma_pair_sum_entry(s.drop_last(), k);
        assert(s.last().0 != s[k].0);
    }
}

fn find_value(acc: &Vec<(Value, i128)>, v: &Value) -> (r: Option<usize>)
    ensures
        match r {
            Some(k) => (k as int) < acc@.len() && acc@[k as int].0 == *v,
            None => forall|t: int| 0 <= t < acc@.len() ==> acc@[t].0 != *v,
        },
{
    let n = acc.len();
    let mut k: usize = 0;
    while k < n
        invariant
            n == acc@.len(),
            k <= n,
            forall|t: int| 0 <= t < k ==> acc@[t].0 != *v,
        decreases n - k,
    {
        if acc[k].0 == *v {
            return Some(k);
        }
        k += 1;
    }
    None
}

pub(crate) fn accumulate_checked(existing: &Collection, records: &Vec<Record>) -> (r: Option<
    Collection,
>)
    requires
        existing.wf(),
    ensures
        match r {
            Some(c) => {
                &&& fits(existing.records@, records@)
                &&& c.wf()
                &&& forall|v: Value| #[trigger] c.mult(v) == existing.mult(v) + sum_of(
                    records@,
                    v,
                )
            },
            None => !fits(existing.records@, records@),
        },
{
    let mut acc: Vec<(Value, i128)> = Vec::new();
    let n0 = existing.records.len();
    let mut i: usize = 0;
    while i < n0
        invariant
            existing.wf(),
            n0 == existing.records@.len(),
            i <= n0,
            acc@.len() == i,
            forall|k: int|
                0 <= k < i ==> #[trigger] acc@[k] == (
                    existing.records@[k].value,
                    existing.records@[k].multiplicity as i128,
                ),
        decreases n0 - i,
    {
        let rec = existing.records[i];
        acc.push((rec.value, rec.multiplicity as i128));
        i += 1;
    }
    proof {
        assert forall|v: Value| pair_sum(acc@, v) == sum_of(existing.records@, v) by {
            lemma_pair_sum_matches(existing.records@, acc@, v);
        }
    }
    let n1 = records.len();
    let mut j: usize = 0;
    while j < n1
        invariant
            n1 == records@.len(),
            j <= n1,
            pairs_distinct(acc@),
            forall|v: Value| #[trigger] pair_sum(acc@, v) == sum_of(existing.records@, v)
                + sum_of(records@.take(j as int), v),
            forall|k: int|
                0 <= k < acc@.len() ==> -0x8000_0000_0000_0000 - (j as int)
                    * 0x8000_0000_0000_0000 <= #[trigger] acc@[k].1 as int <= 0x7FFF_FFFF_FFFF_FFFF
                    + (j as int) * 0x8000_0000_0000_0000,
        decreases n1 - j,
    {
        let rec = records[j];
        let ghost prev = acc@;
        proof {
            assert(usize::MAX as int <= u64::MAX as int);
            assert((j as int) * 0x8000_0000_0000_0000 <= (usize::MAX as int)
                * 0x8000_0000_0000_0000);
        }
        match find_value(&acc, &rec.value) {
            Some(k) => {
                let entry = acc[k];
                let m2: i128 = entry.1 + (rec.multiplicity as i128);
                acc.set(k, (entry.0, m2));
                proof {
                    assert forall|v: Value| pair_sum(acc@, v) == sum_of(existing.records@, v)
                        + sum_of(records@.take(j + 1), v) by {
                        lemma_pair_sum_update(prev, k as int, (entry.0, m2), v);
                        lemma_sum_of_take_succ(records@, j as int, v);
                    }
                }
            },
            None => {
                acc.push((rec.value, rec.multiplicity as i128));
                proof {
                    assert forall|v: Value| pair_sum(acc@, v) == sum_of(existing.records@, v)
                        + sum_of(records@.take(j + 1), v) by {
                        lemma_pair_sum_push(prev, (rec.value, rec.multiplicity as i128), v);
                        lemma_sum_of_take_succ(records@, j as int, v);
                    }
                }
            },
        }
        j += 1;
    }
    proof {
        assert(records@.take(n1 as int) =~= records@);
    }
    let alen = acc.len();
    let mut out: Vec<Record> = Vec::new();
    let mut k: usize = 0;
    while k < alen
        invariant
            alen == acc@.len(),
            k <= alen,
            pairs_distinct(acc@),
            forall|v: Value| #[trigger] pair_sum(acc@, v) == sum_of(existing.records@, v) + sum_of(
                records@,
                v,
            ),
            distinct_values(out@),
            forall|t: int| 0 <= t < out@.len() ==> #[trigger] out@[t].multiplicity != 0,
            forall|t: int|
                0 <= t < out@.len() ==> exists|s: int|
                    0 <= s < k && #[trigger] out@[t].value == acc@[s].0,
            forall|v: Value| #[trigger] sum_of(out@, v) == pair_sum(acc@.take(k as int), v),
        decreases alen - k,
    {
        let (val, m) = acc[k];
        let ghost prev_out = out@;
        if m != 0 {
            if m < i64::MIN as i128 || m > i64::MAX as i128 {
                proof {
                    lemma_pair_sum_entry(acc@, k as int);
                }
                return None;
            }
            out.push(Record { value: val, multiplicity: m as i64 });
        }
        proof {
            assert forall|v: Value| sum_of(out@, v) == pair_sum(acc@.take(k + 1), v) by {
                lemma_pair_sum_take_succ(acc@, k as int, v);
                if m != 0 {
                    lemma_sum_of_push(prev_out, Record { value: val, multiplicity: m as i64 }, v);
                }
            }
        }
        k += 1;
    }
    proof {
        assert(acc@.take(alen as int) =~= acc@);
        let c = Collection { records: out };
        assert forall|v: Value| i64::MIN <= #[trigger] sum_of(existing.records@, v) + sum_of(
            records@,
            v,
        ) <= i64::MAX by {
            if exists|t: int| 0 <= t < out@.len() && out@[t].value == v {
                let t = choose|t: int| 0 <= t < out@.len() && out@[t].value == v;
                lemma_sum_of_entry(out@, t);
            } else {
                lemma_sum_of_absent(out@, v);
            }
        }
    }
    Some(Collection { records: out })
}

proof fn lemma_pair_sum_matches(rs: Seq<Record>, ps: Seq<(Value, i128)>, v: Value)
    requires
        ps.len() == rs.len(),
        forall|k: int|
            0 <= k < rs.len() ==> #[trigger] ps[k] == (rs[k].value, rs[k].multiplicity as i128),
    ensures
        pair_sum(ps, v) == sum_of(rs, v),
    decreases rs.len(),
{
    if rs.len() > 0 {
        lemma_pair_sum_matches(rs.drop_last(), ps.drop_last(), v);
    }
}

/// The Difference Accumulator: merges a batch of records into a prior
/// canonical state. Every value's new net multiplicity is the sum of its
/// prior net and every incoming contribution; values netting to zero are
/// removed. It succeeds exactly when every net stays representable, and
/// reports `Overflow` otherwise.
pub fn accumulate(existing: &Collection, records: &Vec<Record>) -> (r: Result<
    Collection,
    EngineError,
>)
    requires
        existing.wf(),
    ensures
        match r {
            Ok(c) => {
                &&& fits(existing.records@, records@)
                &&& c.wf()
                &&& forall|v: Value| #[trigger] c.mult(v) == existing.mult(v) + sum_of(
                    records@,
                    v,
                )
            },
            Err(e) => e == EngineError::Overflow && !fits(existing.records@, records@),
        },
{
    match accumulate_checked(existing, records) {
        Some(c) => Ok(c),
        None => Err(EngineError::Overflow),
    }
}

/// Canonicalize a raw batch from scratch: group records by value, sum the
/// multiplicities, and drop the zero nets.
pub fn fold_records(records: &Vec<Record>) -> (r: Result<Collection, EngineError>)
    ensures
        match r {
            Ok(c) => {
                &&& c.wf()
                &&& forall|v: Value| #[trigger] c.mult(v) == sum_of(records@, v)
            },
            Err(e) => e == EngineError::Overflow && !fits(Seq::<Record>::empty(), records@),
        },
{
    let start = Collection::empty();
    proof {
        assert(start.records@ =~= Seq::<Record>::empty());
    }
    accumulate(&start, records)
}

} // verus!
