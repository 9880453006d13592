//! Queries over a schema: filters on subject, predicate, object and
//! confidence, an optional stable ordering by confidence, and a limit.
//!
//! Confidences are IEEE-754 doubles carried as bit patterns; the order used
//! here is the IEEE order of non-NaN numbers, with -0.0 equal to 0.0.
use crate::column::Schema;
use crate::types::{Fact, ObjectID, PredicateID, SubjectID, NEG_ZERO_BITS};
use vstd::prelude::*;

verus! {

/// Whether a bit pattern is a NaN.
pub open spec fn is_nan_bits(b: u64) -> bool {
    (b & 0x7FF0_0000_0000_0000u64) == 0x7FF0_0000_0000_0000u64 && (b & 0x000F_FFFF_FFFF_FFFFu64) != 0
}

/// An integer whose order is the IEEE order of the non-NaN double with bit
/// pattern `b` (negative numbers below positive ones, -0.0 equal to 0.0).
pub open spec fn order_key(b: u64) -> u64 {
    if b == NEG_ZERO_BITS {
        NEG_ZERO_BITS
    } else if b & NEG_ZERO_BITS != 0 {
        !b
    } else {
        b | NEG_ZERO_BITS
    }
}

/// IEEE `a >= b` of two doubles given by their bit patterns.
pub open spec fn f64_ge(a: u64, b: u64) -> bool {
    !is_nan_bits(a) && !is_nan_bits(b) && order_key(a) >= order_key(b)
}

fn nan_bits(b: u64) -> (r: bool)
    ensures
        r == is_nan_bits(b),
{
    (b & 0x7FF0_0000_0000_0000u64) == 0x7FF0_0000_0000_0000u64 && (b & 0x000F_FFFF_FFFF_FFFFu64) != 0
}

fn key_of(b: u64) -> (r: u64)
    ensures
        r == order_key(b),
{
    if b == NEG_ZERO_BITS {
        NEG_ZERO_BITS
    } else if b & NEG_ZERO_BITS != 0 {
        !b
    } else {
        b | NEG_ZERO_BITS
    }
}

/// The requested order of results.
#[derive(Clone, Copy, Debug, PartialEq, Eq, Structural)]
pub enum QueryOrder {
    ConfidenceAsc,
    ConfidenceDesc,
}

/// The ordering key of a fact: its confidence's.
pub open spec fn conf_key(f: Fact) -> u64 {
    order_key(f.confidence_bits)
}

/// Whether `a` belongs strictly after `b` in the order.
pub open spec fn strictly_after(a: Fact, b: Fact, desc: bool) -> bool {
    if desc {
        conf_key(a) < conf_key(b)
    } else {
        conf_key(a) > conf_key(b)
    }
}

/// The facts are in the order: ascending by confidence, or descending.
pub open spec fn sorted_by_conf(s: Seq<Fact>, desc: bool) -> bool {
    forall|i: int, j: int| 0 <= i < j < s.len() ==> !strictly_after(#[trigger] s[i], #[trigger] s[j], desc)
}

/// The facts whose confidence has key `k`.
pub open spec fn key_is(k: u64) -> spec_fn(Fact) -> bool {
    |f: Fact| conf_key(f) == k
}

/// `s` is `base` sorted by confidence keeping the order of equal
/// confidences.
pub open spec fn is_stable_sort(s: Seq<Fact>, base: Seq<Fact>, desc: bool) -> bool {
    &&& sorted_by_conf(s, desc)
    &&& forall|k: u64| #[trigger] s.filter(key_is(k)) == base.filter(key_is(k))
}

/// The first `limit` facts, when a limit is given.
pub open spec fn limited(s: Seq<Fact>, limit: Option<usize>) -> Seq<Fact> {
    match limit {
        Some(l) => if l < s.len() {
            s.take(l as int)
        } else {
            s
        },
        None => s,
    }
}

/// Whether a fact passes the given filters.
pub open spec fn fact_matches(
    f: Fact,
    subject: Option<SubjectID>,
    predicate: Option<PredicateID>,
    object: Option<ObjectID>,
    confidence: Option<u64>,
) -> bool {
    &&& subject matches Some(s) ==> f.subject == s
    &&& predicate matches Some(p) ==> f.predicate == p
    &&& object matches Some(o) ==> f.object == o
    &&& confidence matches Some(t) ==> f64_ge(f.confidence_bits, t)
}

proof fn lemma_filter_none(s: Seq<Fact>, p: spec_fn(Fact) -> bool)
    requires
        forall|i: int| 0 <= i < s.len() ==> !p(#[trigger] s[i]),
    ensures
        s.filter(p) == Seq::<Fact>::empty(),
    decreases s.len(),
{
    if s.len() > 0 {
        let t = s.drop_last();
        assert forall|i: int| 0 <= i < t.len() implies !p(#[trigger] t[i]) by {
            assert(t[i] == s[i]);
        }
        lemma_filter_none(t, p);
        assert(s =~= t.push(s.last()));
        t.lemma_filter_push(s.last(), p);
        assert(!p(s[s.len() - 1]));
    }
}

/// Whether key `kp` belongs strictly after key `kx`.
fn goes_after(kp: u64, kx: u64, desc: bool) -> (r: bool)
    ensures
        r == (if desc { kp < kx } else { kp > kx }),
{
    if desc {
        kp < kx
    } else {
        kp > kx
    }
}

/// Sorts by confidence, stably.
fn stable_sort_by_confidence(v: &Vec<Fact>, desc: bool) -> (r: Vec<Fact>)
    ensures
        is_stable_sort(r@, v@, desc),
{
    let mut out: Vec<Fact> = Vec::new();
    let n = v.len();
    let mut i: usize = 0;
    assert(v@.subrange(0, 0) =~= Seq::<Fact>::empty());
    while i < n
        invariant
            n == v@.len(),
            i <= n,
            is_stable_sort(out@, v@.subrange(0, i as int), desc),
        decreases n - i,
    {
        let x = v[i];
        let kx = key_of(x.confidence_bits);
        let mut p: usize = 0;
        while p < out.len() && !goes_after(key_of(out[p].confidence_bits), kx, desc)
            invariant
                p <= out@.len(),
                kx == conf_key(x),
                forall|q: int| 0 <= q < p ==> !strictly_after(#[trigger] out@[q], x, desc),
            decreases out@.len() - p,
        {
            p = p + 1;
        }
        let ghost old_out = out@;
        let ghost a = old_out.subrange(0, p as int);
        let ghost b = old_out.subrange(p as int, old_out.len() as int);
        proof {
            assert forall|q: int| 0 <= q < b.len() implies strictly_after(#[trigger] b[q], x, desc) by {
                assert(b[q] == old_out[p + q]);
                assert(p < old_out.len());
                if q > 0 {
                    assert(!strictly_after(old_out[p as int], old_out[p + q], desc));
                }
            }
        }
        out.insert(p, x);
        proof {
            let new = out@;
            assert(new =~= a + seq![x] + b);
            assert(old_out =~= a + b);
            let pre = v@.subrange(0, i as int);
            let pre1 = v@.subrange(0, i + 1);
            assert(pre1 =~= pre.push(x));
            assert forall|s1: int, s2: int| 0 <= s1 < s2 < new.len() implies !strictly_after(#[trigger] new[s1], #[trigger] new[s2], desc) by {
                if s2 < p {
                    assert(new[s1] == old_out[s1] && new[s2] == old_out[s2]);
                } else if s2 == p {
                    assert(new[s1] == old_out[s1]);
                } else if s1 > p {
                    assert(new[s1] == old_out[s1 - 1] && new[s2] == old_out[s2 - 1]);
                } else if s1 == p {
                    assert(new[s2] == b[s2 - p - 1]);
                } else {
                    assert(new[s1] == old_out[s1] && new[s2] == old_out[s2 - 1]);
                }
            }
            assert forall|k: u64| #[trigger] new.filter(key_is(k)) == pre1.filter(key_is(k)) by {
                let f = key_is(k);
                Seq::<Fact>::filter_distributes_over_add(a + seq![x], b, f);
                Seq::<Fact>::filter_distributes_over_add(a, seq![x], f);
                Seq::<Fact>::filter_distributes_over_add(a, b, f);
                pre.lemma_filter_push(x, f);
                reveal_with_fuel(Seq::filter, 2);
                assert(seq![x] =~= Seq::<Fact>::empty().push(x));
                Seq::<Fact>::empty().lemma_filter_push(x, f);
                assert(Seq::<Fact>::empty().filter(f) =~= Seq::<Fact>::empty());
                if conf_key(x) == k {
                    assert forall|q: int| 0 <= q < b.len() implies !f(#[trigger] b[q]) by {
                        assert(strictly_after(b[q], x, desc));
                    }
                    lemma_filter_none(b, f);
                    assert(new.filter(f) =~= a.filter(f).push(x));
                    assert(old_out.filter(f) =~= a.filter(f));
                } else {
                    assert(new.filter(f) =~= a.filter(f) + b.filter(f));
                }
            }
        }
        i = i + 1;
    }
    assert(v@.subrange(0, n as int) =~= v@);
    out
}

/// A query under construction over a schema.
pub struct QueryBuilder<'a> {
    schema: &'a Schema,
    subject_filter: Option<SubjectID>,
    predicate_filter: Option<PredicateID>,
    object_filter: Option<ObjectID>,
    confidence_filter: Option<u64>,
    row_count: usize,
    order_by: Option<QueryOrder>,
    limit: Option<usize>,
}

impl<'a> QueryBuilder<'a> {
    pub closed spec fn spec_schema(&self) -> Schema {
        *self.schema
    }

    pub closed spec fn spec_subject(&self) -> Option<SubjectID> {
        self.subject_filter
    }

    pub closed spec fn spec_predicate(&self) -> Option<PredicateID> {
        self.predicate_filter
    }

    pub closed spec fn spec_object(&self) -> Option<ObjectID> {
        self.object_filter
    }

    /// The confidence threshold, as a bit pattern.
    pub closed spec fn spec_confidence(&self) -> Option<u64> {
        self.confidence_filter
    }

    pub closed spec fn spec_order(&self) -> Option<QueryOrder> {
        self.order_by
    }

    pub closed spec fn spec_limit(&self) -> Option<usize> {
        self.limit
    }

    pub closed spec fn spec_row_count(&self) -> usize {
        self.row_count
    }

    /// Schema, subject, predicate, object, confidence threshold, row count,
    /// order and limit.
    pub open spec fn settings(&self) -> (Schema, Option<SubjectID>, Option<PredicateID>, Option<ObjectID>, Option<u64>, usize, Option<QueryOrder>, Option<usize>) {
        (
            self.spec_schema(),
            self.spec_subject(),
            self.spec_predicate(),
            self.spec_object(),
            self.spec_confidence(),
            self.spec_row_count(),
            self.spec_order(),
            self.spec_limit(),
        )
    }

    /// Whether any filter is set.
    pub open spec fn has_filters(&self) -> bool {
        self.spec_subject() is Some || self.spec_predicate() is Some || self.spec_object() is Some
            || self.spec_confidence() is Some
    }

    /// Whether a fact passes this query's filters.
    pub open spec fn passes(&self, f: Fact) -> bool {
        fact_matches(f, self.spec_subject(), self.spec_predicate(), self.spec_object(), self.spec_confidence())
    }

    /// The live facts of the schema, in row order.
    pub open spec fn live_facts(&self) -> Seq<Fact> {
        self.spec_schema().spec_active().map_values(|p: (usize, Fact)| p.1)
    }

    /// The live facts passing the filters, in row order.
    pub open spec fn matching(&self) -> Seq<Fact> {
        self.live_facts().filter(|f: Fact| self.passes(f))
    }

    /// A query with no filter, order or limit.
    pub fn new(schema: &'a Schema, row_count: usize) -> (r: QueryBuilder<'a>)
        ensures
            r.spec_schema() == *schema,
            r.spec_row_count() == row_count,
            r.spec_subject() is None && r.spec_predicate() is None && r.spec_object() is None && r.spec_confidence() is None,
            r.spec_order() is None && r.spec_limit() is None,
    {
        QueryBuilder {
            schema,
            subject_filter: None,
            predicate_filter: None,
            object_filter: None,
            confidence_filter: None,
            row_count,
            order_by: None,
            limit: None,
        }
    }

    pub fn with_subject(self, subject: SubjectID) -> (r: QueryBuilder<'a>)
        ensures
            r.settings() == (self.settings().0, Some(subject), self.settings().2, self.settings().3, self.settings().4, self.settings().5, self.settings().6, self.settings().7),
    {
        QueryBuilder { subject_filter: Some(subject), ..self }
    }

    pub fn with_predicate(self, predicate: PredicateID) -> (r: QueryBuilder<'a>)
        ensures
            r.settings() == (self.settings().0, self.settings().1, Some(predicate), self.settings().3, self.settings().4, self.settings().5, self.settings().6, self.settings().7),
    {
        QueryBuilder { predicate_filter: Some(predicate), ..self }
    }

    pub fn with_object(self, object: ObjectID) -> (r: QueryBuilder<'a>)
        ensures
            r.settings() == (self.settings().0, self.settings().1, self.settings().2, Some(object), self.settings().4, self.settings().5, self.settings().6, self.settings().7),
    {
        QueryBuilder { object_filter: Some(object), ..self }
    }

    /// Keeps facts whose confidence is at least the double with bit pattern
    /// `threshold_bits`.
    pub fn with_confidence(self, threshold_bits: u64) -> (r: QueryBuilder<'a>)
        ensures
            r.settings() == (self.settings().0, self.settings().1, self.settings().2, self.settings().3, Some(threshold_bits), self.settings().5, self.settings().6, self.settings().7),
    {
        QueryBuilder { confidence_filter: Some(threshold_bits), ..self }
    }

    pub fn with_order_by_confidence_desc(self) -> (r: QueryBuilder<'a>)
        ensures
            r.settings() == (self.settings().0, self.settings().1, self.settings().2, self.settings().3, self.settings().4, self.settings().5, Some(QueryOrder::ConfidenceDesc), self.settings().7),
    {
        QueryBuilder { order_by: Some(QueryOrder::ConfidenceDesc), ..self }
    }

    pub fn with_order_by_confidence_asc(self) -> (r: QueryBuilder<'a>)
        ensures
            r.settings() == (self.settings().0, self.settings().1, self.settings().2, self.settings().3, self.settings().4, self.settings().5, Some(QueryOrder::ConfidenceAsc), self.settings().7),
    {
        QueryBuilder { order_by: Some(QueryOrder::ConfidenceAsc), ..self }
    }

    pub fn with_limit(self, limit: usize) -> (r: QueryBuilder<'a>)
        ensures
            r.settings() == (self.settings().0, self.settings().1, self.settings().2, self.settings().3, self.settings().4, self.settings().5, self.settings().6, Some(limit)),
    {
        QueryBuilder { limit: Some(limit), ..self }
    }

    fn passes_exec(&self, f: &Fact) -> (r: bool)
        ensures
            r == self.passes(*f),
    {
        if let Some(s) = self.subject_filter {
            if f.subject.0 != s.0 {
                return false;
            }
        }
        if let Some(p) = self.predicate_filter {
            if f.predicate.0 != p.0 {
                return false;
            }
        }
        if let Some(o) = self.object_filter {
            if f.object.0 != o.0 {
                return false;
            }
        }
        if let Some(t) = self.confidence_filter {
            if nan_bits(f.confidence_bits) || nan_bits(t) || key_of(f.confidence_bits) < key_of(t) {
                return false;
            }
        }
        true
    }

    /// Runs the query. Without filters it returns every live fact in row
    /// order, ignoring order and limit; otherwise the live facts passing
    /// every filter, in row order or stably ordered by confidence, cut to
    /// the limit.
    pub fn execute(self) -> (r: Result<Vec<Fact>, crate::types::KcmError>)
        requires
            self.spec_schema().wf(),
        ensures
            r is Ok,
            r matches Ok(v) ==> if !self.has_filters() {
                v@ == self.live_facts()
            } else {
                match self.spec_order() {
                    None => v@ == limited(self.matching(), self.spec_limit()),
                    Some(o) => exists|s: Seq<Fact>|
                        is_stable_sort(s, self.matching(), o == QueryOrder::ConfidenceDesc) && v@ == #[trigger] limited(s, self.spec_limit()),
                }
            },
    {
        let actives = self.schema.iter_active();
        let n = actives.len();
        let filtered = self.subject_filter.is_some() || self.predicate_filter.is_some() || self.object_filter.is_some()
            || self.confidence_filter.is_some();
        let ghost pred = |f: Fact| self.passes(f);
        let mut result: Vec<Fact> = Vec::new();
        let mut i: usize = 0;
        while i < n
            invariant
                n == actives@.len(),
                actives@ == self.spec_schema().spec_active(),
                i <= n,
                pred == (|f: Fact| self.passes(f)),
                filtered == self.has_filters(),
                !filtered ==> result@ == actives@.subrange(0, i as int).map_values(|p: (usize, Fact)| p.1),
                filtered ==> result@ == actives@.subrange(0, i as int).map_values(|p: (usize, Fact)| p.1).filter(pred),
            decreases n - i,
        {
            let (_, f) = actives[i];
            let ghost pre = actives@.subrange(0, i as int).map_values(|p: (usize, Fact)| p.1);
            proof {
                assert(actives@.subrange(0, i + 1).map_values(|p: (usize, Fact)| p.1) =~= pre.push(f));
                pre.lemma_filter_push(f, pred);
            }
            if !filtered || self.passes_exec(&f) {
                result.push(f);
            }
            i = i + 1;
        }
        assert(actives@.subrange(0, n as int) =~= actives@);
        if !filtered {
            return Ok(result);
        }
        assert(result@ =~= self.matching());
        let ordered = match self.order_by {
            Some(QueryOrder::ConfidenceAsc) => stable_sort_by_confidence(&result, false),
            Some(QueryOrder::ConfidenceDesc) => stable_sort_by_confidence(&result, true),
            None => result,
        };
        let ghost sorted = ordered@;
        let mut out = ordered;
        if let Some(l) = self.limit {
            if l < out.len() {
                out.truncate(l);
                assert(out@ =~= sorted.take(l as int));
            }
        }
        proof {
            if self.spec_order() is Some {
                assert(out@ == limited(sorted, self.spec_limit()));
            }
        }
        Ok(out)
    }
}

/// Every fact a filtered query answers is a live fact of its schema with
/// the subject, predicate and object the query asks for, and a confidence
/// at least its threshold, whatever other filters, order and limit are set.
pub proof fn law_query_answers_pass_every_filter<'a>(q: QueryBuilder<'a>, v: Seq<Fact>, f: Fact)
    requires
        q.has_filters(),
        match q.spec_order() {
            None => v == limited(q.matching(), q.spec_limit()),
            Some(o) => exists|s: Seq<Fact>|
                is_stable_sort(s, q.matching(), o == QueryOrder::ConfidenceDesc) && v == #[trigger] limited(s, q.spec_limit()),
        },
        v.contains(f),
    ensures
        q.live_facts().contains(f),
        q.spec_subject() matches Some(s) ==> f.subject == s,
        q.spec_predicate() matches Some(p) ==> f.predicate == p,
        q.spec_object() matches Some(o) ==> f.object == o,
        q.spec_confidence() matches Some(t) ==> f64_ge(f.confidence_bits, t),
{
    let m = q.matching();
    let pred = |g: Fact| q.passes(g);
    let base = match q.spec_order() {
        None => m,
        Some(o) => choose|s: Seq<Fact>|
            is_stable_sort(s, q.matching(), o == QueryOrder::ConfidenceDesc) && v == #[trigger] limited(s, q.spec_limit()),
    };
    assert(v == limited(base, q.spec_limit()));
    let j = choose|j: int| 0 <= j < v.len() && v[j] == f;
    if let Some(l) = q.spec_limit() {
        if l < base.len() {
            assert(v[j] == base[j]);
        }
    }
    assert(base.contains(f));
    if let Some(o) = q.spec_order() {
        let k = conf_key(f);
        let jb = choose|jb: int| 0 <= jb < base.len() && base[jb] == f;
        base.lemma_filter_contains(key_is(k), jb);
        assert(base.filter(key_is(k)) == m.filter(key_is(k)));
        m.lemma_filter_contains_rev(key_is(k), f);
    }
    assert(m.contains(f));
    let jm = choose|jm: int| 0 <= jm < m.len() && m[jm] == f;
    q.live_facts().lemma_filter_pred(pred, jm);
    q.live_facts().lemma_filter_contains_rev(pred, f);
}

/// A live fact with the subject, predicate and object a query asks for and
/// a confidence at least its threshold is among the facts it matches.
pub proof fn law_query_keeps_every_match<'a>(q: QueryBuilder<'a>, f: Fact)
    requires
        q.live_facts().contains(f),
        q.spec_subject() matches Some(s) ==> f.subject == s,
        q.spec_predicate() matches Some(p) ==> f.predicate == p,
        q.spec_object() matches Some(o) ==> f.object == o,
        q.spec_confidence() matches Some(t) ==> f64_ge(f.confidence_bits, t),
    ensures
        q.matching().contains(f),
{
    let pred = |g: Fact| q.passes(g);
    let j = choose|j: int| 0 <= j < q.live_facts().len() && q.live_facts()[j] == f;
    q.live_facts().lemma_filter_contains(pred, j);
}

/// A filtered query without a limit answers every live fact that passes
/// its filters, whatever order is asked for; with a limit it answers at
/// most that many facts.
pub proof fn law_query_answers_every_match<'a>(q: QueryBuilder<'a>, v: Seq<Fact>, f: Fact)
    requires
        q.has_filters(),
        match q.spec_order() {
            None => v == limited(q.matching(), q.spec_limit()),
            Some(o) => exists|s: Seq<Fact>|
                is_stable_sort(s, q.matching(), o == QueryOrder::ConfidenceDesc) && v == #[trigger] limited(s, q.spec_limit()),
        },
    ensures
        q.spec_limit() matches Some(l) ==> v.len() <= l,
        q.spec_limit() is None && q.live_facts().contains(f) && (q.spec_subject() matches Some(s) ==> f.subject == s) && (
        q.spec_predicate() matches Some(p) ==> f.predicate == p) && (q.spec_object() matches Some(o) ==> f.object == o) && (
        q.spec_confidence() matches Some(t) ==> f64_ge(f.confidence_bits, t)) ==> v.contains(f),
{
    let m = q.matching();
    let base = match q.spec_order() {
        None => m,
        Some(o) => choose|s: Seq<Fact>|
            is_stable_sort(s, q.matching(), o == QueryOrder::ConfidenceDesc) && v == #[trigger] limited(s, q.spec_limit()),
    };
    assert(v == limited(base, q.spec_limit()));
    if q.spec_limit() is None && q.live_facts().contains(f) && (q.spec_subject() matches Some(s) ==> f.subject == s) && (
    q.spec_predicate() matches Some(p) ==> f.predicate == p) && (q.spec_object() matches Some(o) ==> f.object == o) && (
    q.spec_confidence() matches Some(t) ==> f64_ge(f.confidence_bits, t)) {
        law_query_keeps_every_match(q, f);
        assert(v == base);
        if let Some(o) = q.spec_order() {
            let k = conf_key(f);
            let jm = choose|jm: int| 0 <= jm < m.len() && m[jm] == f;
            m.lemma_filter_contains(key_is(k), jm);
            assert(base.filter(key_is(k)) == m.filter(key_is(k)));
            base.lemma_filter_contains_rev(key_is(k), f);
        }
    }
}

} // verus!
