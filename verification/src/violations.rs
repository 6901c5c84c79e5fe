//! Accumulates constraint failures keyed by section descriptor, kept in
//! ascending lexicographic descriptor order, and flattens them to one
//! formatted line per section.

use vstd::prelude::*;
use vstd::string::StringExecFns;
use crate::text::joined;
use crate::text::lex_lt;
use crate::text::lemma_lex_lt_total;
use crate::text::lemma_lex_lt_trans;
use crate::text::str_lt;

verus! {

/// The effect of one `upsert`: walking the entries in order, the
/// violation is appended to the entry whose descriptor matches, or a new
/// entry is inserted before the first lexicographically greater
/// descriptor, so that sorted entries stay sorted.
pub open spec fn upsert_entries(
    es: Seq<(Seq<char>, Seq<Seq<char>>)>,
    d: Seq<char>,
    v: Seq<char>,
) -> Seq<(Seq<char>, Seq<Seq<char>>)>
    decreases es.len(),
{
    if es.len() == 0 {
        seq![(d, seq![v])]
    } else if es[0].0 == d {
        seq![(es[0].0, es[0].1.push(v))] + es.skip(1)
    } else if lex_lt(d, es[0].0) {
        seq![(d, seq![v])] + es
    } else {
        seq![es[0]] + upsert_entries(es.skip(1), d, v)
    }
}

/// Entries in strictly ascending lexicographic descriptor order.
pub open spec fn entries_sorted(es: Seq<(Seq<char>, Seq<Seq<char>>)>) -> bool {
    forall|i: int, j: int|
        0 <= i < j < es.len() ==> lex_lt((#[trigger] es[i]).0, (#[trigger] es[j]).0)
}

/// One line of the flattened result: the descriptor, a colon, and the
/// entry's violations joined with `", "`.
pub open spec fn entry_line(e: (Seq<char>, Seq<Seq<char>>)) -> Seq<char> {
    e.0 + ": "@ + joined(e.1)
}

/// When the descriptor is greater than every recorded one, `upsert`
/// appends a new entry at the end.
pub proof fn lemma_upsert_append(es: Seq<(Seq<char>, Seq<Seq<char>>)>, d: Seq<char>, v: Seq<char>)
    requires
        forall|j: int|
            0 <= j < es.len() ==> (#[trigger] es[j]).0 != d && !lex_lt(d, es[j].0),
    ensures
        upsert_entries(es, d, v) =~= es.push((d, seq![v])),
    decreases es.len(),
{
    if es.len() > 0 {
        assert(es[0].0 != d);
        lemma_upsert_append(es.skip(1), d, v);
        assert(seq![es[0]] + es.skip(1).push((d, seq![v])) =~= es.push((d, seq![v])));
    }
}

/// When the descriptor is new and smaller than the one at `i`, with all
/// earlier ones smaller than it, `upsert` inserts the new entry at `i`.
pub proof fn lemma_upsert_inserts(
    es: Seq<(Seq<char>, Seq<Seq<char>>)>,
    d: Seq<char>,
    v: Seq<char>,
    i: int,
)
    requires
        0 <= i < es.len(),
        es[i].0 != d,
        lex_lt(d, es[i].0),
        forall|j: int| 0 <= j < i ==> (#[trigger] es[j]).0 != d && !lex_lt(d, es[j].0),
    ensures
        upsert_entries(es, d, v) =~= es.insert(i, (d, seq![v])),
    decreases i,
{
    es.insert_ensures(i, (d, seq![v]));
    if i == 0 {
        assert(seq![(d, seq![v])] + es =~= es.insert(0, (d, seq![v])));
    } else {
        assert(es[0].0 != d);
        assert(es.skip(1)[i - 1].0 == es[i].0);
        assert(forall|j: int|
            0 <= j < i - 1 ==> (#[trigger] es.skip(1)[j]).0 != d && !lex_lt(d, es.skip(1)[j].0));
        lemma_upsert_inserts(es.skip(1), d, v, i - 1);
        es.skip(1).insert_ensures(i - 1, (d, seq![v]));
        assert(seq![es[0]] + es.skip(1).insert(i - 1, (d, seq![v])) =~= es.insert(
            i,
            (d, seq![v]),
        ));
    }
}

/// Every descriptor after an `upsert` is the upserted one or was already
/// recorded.
proof fn lemma_upsert_keys(es: Seq<(Seq<char>, Seq<Seq<char>>)>, d: Seq<char>, v: Seq<char>)
    ensures
        forall|i: int|
            0 <= i < upsert_entries(es, d, v).len() ==> (#[trigger] upsert_entries(es, d, v)[i]).0
                == d || exists|j: int| 0 <= j < es.len() && (#[trigger] es[j]).0 == upsert_entries(
                es,
                d,
                v,
            )[i].0,
    decreases es.len(),
{
    let r = upsert_entries(es, d, v);
    if es.len() == 0 {
    } else if es[0].0 == d {
        assert forall|i: int| 0 <= i < r.len() implies (#[trigger] r[i]).0 == d || exists|j: int|
            0 <= j < es.len() && (#[trigger] es[j]).0 == r[i].0 by {
            if i > 0 {
                assert(r[i] == es[i]);
                assert(es[i].0 == r[i].0);
            }
        }
    } else if lex_lt(d, es[0].0) {
        assert forall|i: int| 0 <= i < r.len() implies (#[trigger] r[i]).0 == d || exists|j: int|
            0 <= j < es.len() && (#[trigger] es[j]).0 == r[i].0 by {
            if i > 0 {
                assert(r[i] == es[i - 1]);
                assert(es[i - 1].0 == r[i].0);
            }
        }
    } else {
        lemma_upsert_keys(es.skip(1), d, v);
        let rr = upsert_entries(es.skip(1), d, v);
        assert forall|i: int| 0 <= i < r.len() implies (#[trigger] r[i]).0 == d || exists|j: int|
            0 <= j < es.len() && (#[trigger] es[j]).0 == r[i].0 by {
            if i == 0 {
                assert(es[0].0 == r[0].0);
            } else {
                assert(r[i] == rr[i - 1]);
                if rr[i - 1].0 != d {
                    let j = choose|j: int|
                        0 <= j < es.skip(1).len() && (#[trigger] es.skip(1)[j]).0 == rr[i - 1].0;
                    assert(es[j + 1].0 == r[i].0);
                }
            }
        }
    }
}

/// Upserting into sorted entries keeps them sorted.
pub proof fn lemma_upsert_sorted(es: Seq<(Seq<char>, Seq<Seq<char>>)>, d: Seq<char>, v: Seq<char>)
    requires
        entries_sorted(es),
    ensures
        entries_sorted(upsert_entries(es, d, v)),
    decreases es.len(),
{
    let r = upsert_entries(es, d, v);
    if es.len() == 0 {
    } else if es[0].0 == d {
        assert forall|i: int, j: int| 0 <= i < j < r.len() implies lex_lt(
            (#[trigger] r[i]).0,
            (#[trigger] r[j]).0,
        ) by {
            assert(r[j] == es[j]);
            if i > 0 {
                assert(r[i] == es[i]);
            }
            assert(r[i].0 == es[i].0);
            assert(lex_lt(es[i].0, es[j].0));
        }
    } else if lex_lt(d, es[0].0) {
        assert forall|i: int, j: int| 0 <= i < j < r.len() implies lex_lt(
            (#[trigger] r[i]).0,
            (#[trigger] r[j]).0,
        ) by {
            assert(r[j] == es[j - 1]);
            if i == 0 {
                if j > 1 {
                    assert(lex_lt(es[0].0, es[j - 1].0));
                    lemma_lex_lt_trans(d, es[0].0, es[j - 1].0);
                }
            } else {
                assert(r[i] == es[i - 1]);
                assert(lex_lt(es[i - 1].0, es[j - 1].0));
            }
        }
    } else {
        lemma_lex_lt_total(es[0].0, d);
        assert(lex_lt(es[0].0, d));
        assert(entries_sorted(es.skip(1))) by {
            assert forall|i: int, j: int| 0 <= i < j < es.skip(1).len() implies lex_lt(
                (#[trigger] es.skip(1)[i]).0,
                (#[trigger] es.skip(1)[j]).0,
            ) by {
                assert(lex_lt(es[i + 1].0, es[j + 1].0));
            }
        }
        lemma_upsert_sorted(es.skip(1), d, v);
        lemma_upsert_keys(es.skip(1), d, v);
        let rr = upsert_entries(es.skip(1), d, v);
        assert forall|k: int| 0 <= k < rr.len() implies lex_lt(es[0].0, (#[trigger] rr[k]).0) by {
            if rr[k].0 == d {
            } else {
                let j = choose|j: int|
                    0 <= j < es.skip(1).len() && (#[trigger] es.skip(1)[j]).0 == rr[k].0;
                assert(lex_lt(es[0].0, es[j + 1].0));
            }
        }
        assert forall|i: int, j: int| 0 <= i < j < r.len() implies lex_lt(
            (#[trigger] r[i]).0,
            (#[trigger] r[j]).0,
        ) by {
            assert(r[j] == rr[j - 1]);
            if i == 0 {
                assert(lex_lt(es[0].0, rr[j - 1].0));
            } else {
                assert(r[i] == rr[i - 1]);
            }
        }
    }
}

/// When the matching entry sits at index `i`, with all earlier
/// descriptors smaller, `upsert` extends that entry's list in place.
pub proof fn lemma_upsert_found(
    es: Seq<(Seq<char>, Seq<Seq<char>>)>,
    d: Seq<char>,
    v: Seq<char>,
    i: int,
)
    requires
        0 <= i < es.len(),
        es[i].0 == d,
        forall|j: int| 0 <= j < i ==> (#[trigger] es[j]).0 != d && !lex_lt(d, es[j].0),
    ensures
        upsert_entries(es, d, v) =~= es.update(i, (es[i].0, es[i].1.push(v))),
    decreases i,
{
    if i == 0 {
        assert(seq![(es[0].0, es[0].1.push(v))] + es.skip(1) =~= es.update(
            0,
            (es[0].0, es[0].1.push(v)),
        ));
    } else {
        assert(es[0].0 != d);
        assert(es.skip(1)[i - 1].0 == d);
        assert(forall|j: int|
            0 <= j < i - 1 ==> (#[trigger] es.skip(1)[j]).0 != d && !lex_lt(d, es.skip(1)[j].0));
        lemma_upsert_found(es.skip(1), d, v, i - 1);
        assert(seq![es[0]] + es.skip(1).update(i - 1, (es.skip(1)[i - 1].0, es.skip(1)[i - 1].1.push(v)))
            =~= es.update(i, (es[i].0, es[i].1.push(v))));
    }
}

/// The collector of named constraint failures.  Its view is the sequence
/// of `(descriptor, violations)` entries; `upsert` keeps it in ascending
/// lexicographic descriptor order.
pub struct SectionViolations {
    inner: Vec<(String, Vec<String>)>,
}

impl View for SectionViolations {
    type V = Seq<(Seq<char>, Seq<Seq<char>>)>;

    closed spec fn view(&self) -> Seq<(Seq<char>, Seq<Seq<char>>)> {
        Seq::new(
            self.inner@.len() as nat,
            |i: int|
                (
                    self.inner@[i].0@,
                    Seq::new(self.inner@[i].1@.len() as nat, |j: int| self.inner@[i].1@[j]@),
                ),
        )
    }
}

impl SectionViolations {
    /// An empty collector.
    pub fn new() -> (r: SectionViolations)
        ensures
            r@ =~= Seq::<(Seq<char>, Seq<Seq<char>>)>::empty(),
            entries_sorted(r@),
    {
        SectionViolations { inner: Vec::new() }
    }

    /// Appends `violation` to the list recorded under `descriptor`,
    /// creating the list if the descriptor is new; entries stay ordered
    /// lexicographically by descriptor.
    pub fn upsert(&mut self, descriptor: &str, violation: &str)
        ensures
            final(self)@ =~= upsert_entries(old(self)@, descriptor@, violation@),
            entries_sorted(old(self)@) ==> entries_sorted(final(self)@),
    {
        let d = String::from_str(descriptor);
        let v = String::from_str(violation);
        let n = self.inner.len();
        let mut i: usize = 0;
        while i < n
            invariant
                n == self.inner@.len(),
                i <= n,
                *self == *old(self),
                d@ == descriptor@,
                v@ == violation@,
                forall|j: int|
                    0 <= j < i ==> (#[trigger] self@[j]).0 != descriptor@ && !lex_lt(
                        descriptor@,
                        self@[j].0,
                    ),
            decreases n - i,
        {
            if self.inner[i].0 == d {
                let entry = self.inner.remove(i);
                let (dkey, mut vlist) = entry;
                vlist.push(v);
                self.inner.insert(i, (dkey, vlist));
                proof {
                    assert(self.inner@ =~= old(self).inner@.update(i as int, (dkey, vlist)));
                    assert(dkey == old(self).inner@[i as int].0);
                    assert(vlist@ =~= old(self).inner@[i as int].1@.push(v));
                    let pre = old(self)@;
                    let post = self@;
                    let tgt = pre.update(
                        i as int,
                        (pre[i as int].0, pre[i as int].1.push(violation@)),
                    );
                    assert forall|k: int| 0 <= k < post.len() implies post[k] == tgt[k] by {
                        if k == i as int {
                            assert(self.inner@[k] == (dkey, vlist));
                            assert(post[k].0 == tgt[k].0);
                            let pk = post[k].1;
                            let tk = tgt[k].1;
                            assert(pk.len() == tk.len());
                            assert forall|j: int| 0 <= j < pk.len() implies pk[j] == tk[j] by {
                                assert(pk[j] == vlist@[j]@);
                                if j < old(self).inner@[k].1@.len() {
                                    assert(vlist@[j] == old(self).inner@[k].1@[j]);
                                    assert(tk[j] == pre[k].1[j]);
                                    assert(pre[k].1[j] == old(self).inner@[k].1@[j]@);
                                } else {
                                    assert(vlist@[j] == v);
                                    assert(tk[j] == violation@);
                                }
                            }
                            assert(post[k].1 =~= tgt[k].1);
                        } else {
                            assert(self.inner@[k] == old(self).inner@[k]);
                            assert(post[k].0 == tgt[k].0);
                            assert(post[k].1 =~= tgt[k].1);
                        }
                    }
                    assert(post =~= tgt);
                    lemma_upsert_found(old(self)@, descriptor@, violation@, i as int);
                    if entries_sorted(old(self)@) {
                        lemma_upsert_sorted(old(self)@, descriptor@, violation@);
                    }
                }
                return ;
            }
            if str_lt(d.as_str(), self.inner[i].0.as_str()) {
                let mut vs: Vec<String> = Vec::new();
                vs.push(v);
                self.inner.insert(i, (d, vs));
                proof {
                    let pre = old(self)@;
                    let post = self@;
                    lemma_upsert_inserts(pre, descriptor@, violation@, i as int);
                    pre.insert_ensures(i as int, (descriptor@, seq![violation@]));
                    old(self).inner@.insert_ensures(i as int, (d, vs));
                    let tgt = pre.insert(i as int, (descriptor@, seq![violation@]));
                    assert(post.len() == tgt.len());
                    assert forall|k: int| 0 <= k < post.len() implies post[k] == tgt[k] by {
                        if k < i as int {
                            assert(self.inner@[k] == old(self).inner@[k]);
                            assert(tgt[k] == pre[k]);
                            assert(post[k].0 == tgt[k].0);
                            assert(post[k].1 =~= tgt[k].1);
                        } else if k == i as int {
                            assert(self.inner@[k] == (d, vs));
                            assert(tgt[k] == (descriptor@, seq![violation@]));
                            assert(vs@.len() == 1 && vs@[0]@ == violation@);
                            assert(post[k].0 == tgt[k].0);
                            assert(post[k].1 =~= tgt[k].1);
                        } else {
                            assert(self.inner@[k] == old(self).inner@[k - 1]);
                            assert(tgt[k] == pre[k - 1]);
                            assert(post[k].0 == tgt[k].0);
                            assert(post[k].1 =~= tgt[k].1);
                        }
                    }
                    assert(post =~= tgt);
                    if entries_sorted(old(self)@) {
                        lemma_upsert_sorted(old(self)@, descriptor@, violation@);
                    }
                }
                return ;
            }
            i = i + 1;
        }
        let mut vs: Vec<String> = Vec::new();
        vs.push(v);
        self.inner.push((d, vs));
        proof {
            assert(self@ =~~= old(self)@.push((descriptor@, seq![violation@])));
            lemma_upsert_append(old(self)@, descriptor@, violation@);
            if entries_sorted(old(self)@) {
                lemma_upsert_sorted(old(self)@, descriptor@, violation@);
            }
        }
    }

    /// True iff no descriptor has been recorded.
    pub fn is_empty(&self) -> (r: bool)
        ensures
            r == (self@.len() == 0),
    {
        self.inner.len() == 0
    }

    /// Flattens the collector to one formatted line per recorded
    /// descriptor, in the entries' order: ascending lexicographic by
    /// descriptor for a collector built through `upsert`.
    pub fn result(&self) -> (r: Vec<String>)
        ensures
            r@.len() == self@.len(),
            forall|i: int| 0 <= i < self@.len() ==> (#[trigger] r@[i])@ == entry_line(self@[i]),
    {
        let mut r: Vec<String> = Vec::new();
        let n = self.inner.len();
        let mut i: usize = 0;
        while i < n
            invariant
                n == self.inner@.len(),
                i <= n,
                r@.len() == i,
                forall|j: int| 0 <= j < i ==> (#[trigger] r@[j])@ == entry_line(self@[j]),
            decreases n - i,
        {
            let mut line = String::from_str(self.inner[i].0.as_str());
            line.append(": ");
            proof {
                assert(line@ =~= self@[i as int].0 + ": "@ + joined(
                    self@[i as int].1.take(0),
                ));
            }
            let vs = &self.inner[i].1;
            let m = vs.len();
            let mut j: usize = 0;
            while j < m
                invariant
                    0 <= i < self.inner@.len(),
                    m == self.inner@[i as int].1@.len(),
                    j <= m,
                    vs@ == self.inner@[i as int].1@,
                    line@ == self@[i as int].0 + ": "@ + joined(self@[i as int].1.take(j as int)),
                decreases m - j,
            {
                if j > 0 {
                    line.append(", ");
                }
                line.append(vs[j].as_str());
                proof {
                    let e0 = self@[i as int].0;
                    let evs = self@[i as int].1;
                    assert(vs@[j as int]@ == evs[j as int]);
                    assert(evs.take(j as int + 1).drop_last() =~= evs.take(j as int));
                    assert(evs.take(j as int + 1).last() == evs[j as int]);
                    if j == 0 {
                        assert(joined(evs.take(1)) == evs[0]);
                        assert(line@ =~= e0 + ": "@ + joined(evs.take(1)));
                    } else {
                        assert(joined(evs.take(j as int + 1)) == joined(evs.take(j as int)) + ", "@
                            + evs[j as int]);
                        assert(line@ =~= e0 + ": "@ + joined(evs.take(j as int + 1)));
                    }
                }
                j = j + 1;
            }
            proof {
                assert(self@[i as int].1.take(m as int) =~= self@[i as int].1);
            }
            r.push(line);
            i = i + 1;
        }
        r
    }
}

} // verus!
