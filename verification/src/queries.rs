//! Address listing queries over the wallet's transaction history.
//!
//! The ledger collaborator owns the history; the caller reads it under the
//! wallet lock and hands the rows over as plain values. Everything after
//! that — classifying by keychain, de-duplicating, summing per address, and
//! ordering by address text — is decided and proved here.
use vstd::prelude::*;
use vstd::string::*;

verus! {

/// Strict lexicographic order on character sequences, by scalar value.
pub open spec fn spec_str_lt(a: Seq<char>, b: Seq<char>) -> bool
    decreases a.len(),
{
    if b.len() == 0 {
        false
    } else if a.len() == 0 {
        true
    } else if (a[0] as u32) != (b[0] as u32) {
        (a[0] as u32) < (b[0] as u32)
    } else {
        spec_str_lt(a.drop_first(), b.drop_first())
    }
}

/// The order is asymmetric: at most one of two sequences precedes the other.
pub proof fn lemma_str_lt_asymm(a: Seq<char>, b: Seq<char>)
    ensures
        spec_str_lt(a, b) ==> !spec_str_lt(b, a),
    decreases a.len(),
{
    if b.len() == 0 || a.len() == 0 {
    } else if (a[0] as u32) != (b[0] as u32) {
    } else {
        lemma_str_lt_asymm(a.drop_first(), b.drop_first());
    }
}

/// Sorting no earlier than a sequence that sorts no earlier than a third is
/// itself no earlier: what does not precede `a` and precedes `c` places `a`
/// before `c`.
pub proof fn lemma_str_le_lt_trans(a: Seq<char>, b: Seq<char>, c: Seq<char>)
    ensures
        (!spec_str_lt(b, a) && spec_str_lt(b, c)) ==> spec_str_lt(a, c),
    decreases a.len(),
{
    if !spec_str_lt(b, a) && spec_str_lt(b, c) {
        assert(c.len() > 0);
        if a.len() == 0 {
        } else {
            assert(b.len() > 0);
            if (a[0] as u32) == (c[0] as u32) {
                assert((b[0] as u32) == (a[0] as u32));
                lemma_str_le_lt_trans(a.drop_first(), b.drop_first(), c.drop_first());
            } else {
                assert((a[0] as u32) <= (b[0] as u32));
            }
        }
    }
}

/// Whether `a`'s text sorts strictly before `b`'s.
pub fn str_lt(a: &str, b: &str) -> (r: bool)
    ensures
        r == spec_str_lt(a@, b@),
{
    let alen = a.unicode_len();
    let blen = b.unicode_len();
    proof {
        assert(a@.skip(0) =~= a@);
        assert(b@.skip(0) =~= b@);
    }
    let mut i: usize = 0;
    loop
        invariant
            i <= alen,
            i <= blen,
            alen == a@.len(),
            blen == b@.len(),
            spec_str_lt(a@, b@) == spec_str_lt(a@.skip(i as int), b@.skip(i as int)),
        decreases alen - i,
    {
        if i >= blen {
            assert(b@.skip(i as int).len() == 0);
            return false;
        }
        if i >= alen {
            assert(a@.skip(i as int).len() == 0);
            return true;
        }
        let ca = a.get_char(i);
        let cb = b.get_char(i);
        proof {
            assert(a@.skip(i as int)[0] == a@[i as int]);
            assert(b@.skip(i as int)[0] == b@[i as int]);
            assert(a@.skip(i as int).drop_first() =~= a@.skip(i as int + 1));
            assert(b@.skip(i as int).drop_first() =~= b@.skip(i as int + 1));
        }
        if (ca as u32) != (cb as u32) {
            return (ca as u32) < (cb as u32);
        }
        i += 1;
    }
}

/// Whether two strings hold the same text.
fn str_eq(a: &str, b: &str) -> (r: bool)
    ensures
        r == (a@ == b@),
{
    let a_owned: String = a.to_owned();
    let b_owned: String = b.to_owned();
    a_owned == b_owned
}

/// Address/is-change pairs in non-descending address order.
pub open spec fn spec_sorted_pairs(s: Seq<(Seq<char>, bool)>) -> bool {
    forall|i: int, j: int|
        0 <= i < j < s.len() ==> !spec_str_lt(#[trigger] s[j].0, #[trigger] s[i].0)
}

/// No entry occurs twice.
pub open spec fn spec_distinct_pairs(s: Seq<(Seq<char>, bool)>) -> bool {
    forall|i: int, j: int| 0 <= i < j < s.len() ==> #[trigger] s[i] != #[trigger] s[j]
}

/// Whether the collected pairs already hold this entry.
fn contains_pair(v: &Vec<(String, bool)>, x: &(String, bool)) -> (r: bool)
    ensures
        r == v.deep_view().contains((x.0@, x.1)),
{
    let mut i: usize = 0;
    while i < v.len()
        invariant
            i <= v@.len(),
            forall|k: int| 0 <= k < i ==> #[trigger] v.deep_view()[k] != (x.0@, x.1),
        decreases v@.len() - i,
    {
        if str_eq(v[i].0.as_str(), x.0.as_str()) && v[i].1 == x.1 {
            assert(v.deep_view()[i as int] == (x.0@, x.1));
            return true;
        }
        i += 1;
    }
    proof {
        if v.deep_view().contains((x.0@, x.1)) {
            let k = choose|k: int|
                0 <= k < v.deep_view().len() && v.deep_view()[k] == (x.0@, x.1);
            assert(v.deep_view()[k] != (x.0@, x.1));
        }
    }
    false
}

/// Place one pair into a run of pairs kept in non-descending address order:
/// the result holds the run's entries and the new one, still in order, and
/// stays duplicate-free when the entry was not already present.
fn insert_sorted_pair(v: &Vec<(String, bool)>, x: (String, bool)) -> (r: Vec<(String, bool)>)
    requires
        spec_sorted_pairs(v.deep_view()),
    ensures
        spec_sorted_pairs(r.deep_view()),
        r.deep_view().len() == v.deep_view().len() + 1,
        forall|q: (Seq<char>, bool)|
            #[trigger] r.deep_view().contains(q) <==> (v.deep_view().contains(q) || q == (
                x.0@,
                x.1,
            )),
        (spec_distinct_pairs(v.deep_view()) && !v.deep_view().contains((x.0@, x.1)))
            ==> spec_distinct_pairs(r.deep_view()),
{
    let ghost vdv = v.deep_view();
    let ghost xdv = (x.0@, x.1);
    let mut p: usize = 0;
    while p < v.len() && str_lt(v[p].0.as_str(), x.0.as_str())
        invariant
            p <= vdv.len(),
            vdv == v.deep_view(),
            forall|k: int| 0 <= k < p ==> spec_str_lt(#[trigger] vdv[k].0, x.0@),
        decreases vdv.len() - p,
    {
        p += 1;
    }
    let mut out: Vec<(String, bool)> = Vec::new();
    proof {
        assert(out.deep_view() =~= vdv.take(0));
    }
    let mut k: usize = 0;
    while k < p
        invariant
            k <= p <= vdv.len(),
            vdv == v.deep_view(),
            out@.len() == k,
            out.deep_view() == vdv.take(k as int),
        decreases p - k,
    {
        let elem = (v[k].0.clone(), v[k].1);
        let ghost edv = (elem.0@, elem.1);
        let ghost oldv = out@;
        let ghost olddv = out.deep_view();
        let ghost ev = elem;
        out.push(elem);
        proof {
            assert(edv == vdv[k as int]);
            assert(out@ == oldv.push(ev));
            assert forall|idx: int| 0 <= idx < out.deep_view().len() implies out.deep_view()[idx]
                == vdv.take(k as int + 1)[idx] by {
                assert(out.deep_view()[idx] == out@[idx].deep_view());
                if idx < k as int {
                    assert(oldv.push(ev)[idx] == oldv[idx]);
                    assert(out@[idx] == oldv[idx]);
                    assert(olddv[idx] == oldv[idx].deep_view());
                    assert(out.deep_view()[idx] == olddv[idx]);
                } else {
                    assert(oldv.push(ev)[idx] == ev);
                    assert(out.deep_view()[idx] == edv);
                }
            }
            assert(out.deep_view() =~= vdv.take(k as int + 1));
        }
        k += 1;
    }
    let ghost predv = out.deep_view();
    out.push(x);
    proof {
        assert forall|idx: int| 0 <= idx < out.deep_view().len() implies out.deep_view()[idx] == (
        vdv.take(p as int) + seq![xdv])[idx] by {
            if idx < p as int {
                assert(out.deep_view()[idx] == predv[idx]);
            } else {
                assert(out.deep_view()[idx] == xdv);
            }
        }
        assert(out.deep_view() =~= vdv.take(p as int) + seq![xdv]);
        assert(out.deep_view() =~= vdv.take(p as int) + seq![xdv] + vdv.subrange(
            p as int,
            p as int,
        ));
    }
    let mut k2: usize = p;
    while k2 < v.len()
        invariant
            p <= k2 <= vdv.len(),
            vdv == v.deep_view(),
            out@.len() == k2 + 1,
            out.deep_view() == vdv.take(p as int) + seq![xdv] + vdv.subrange(p as int, k2 as int),
        decreases vdv.len() - k2,
    {
        let elem = (v[k2].0.clone(), v[k2].1);
        let ghost edv = (elem.0@, elem.1);
        let ghost olddv = out.deep_view();
        out.push(elem);
        proof {
            assert(edv == vdv[k2 as int]);
            let ghost target = vdv.take(p as int) + seq![xdv] + vdv.subrange(
                p as int,
                k2 as int + 1,
            );
            assert forall|idx: int| 0 <= idx < out.deep_view().len() implies out.deep_view()[idx]
                == target[idx] by {
                if idx < olddv.len() {
                    assert(out.deep_view()[idx] == olddv[idx]);
                } else {
                    assert(out.deep_view()[idx] == edv);
                    assert(target[idx] == vdv.subrange(p as int, k2 as int + 1)[k2 - p]);
                }
            }
            assert(out.deep_view() =~= target);
        }
        k2 += 1;
    }
    let ghost rdv = out.deep_view();
    proof {
        assert(vdv.subrange(p as int, vdv.len() as int) =~= vdv.skip(p as int));
        assert(rdv == vdv.take(p as int) + seq![xdv] + vdv.skip(p as int));
        // position facts
        assert(forall|idx: int| 0 <= idx < p ==> rdv[idx] == vdv[idx]);
        assert(rdv[p as int] == xdv);
        assert(forall|idx: int| p < idx < rdv.len() ==> rdv[idx] == vdv[idx - 1]);
        // order around the insertion point
        assert forall|i: int, j: int| 0 <= i < j < rdv.len() implies !spec_str_lt(
            rdv[j].0,
            rdv[i].0,
        ) by {
            if i < p && j == p {
                lemma_str_lt_asymm(vdv[i].0, xdv.0);
            } else if i == p && j > p {
                assert(rdv[j] == vdv[j - 1]);
                assert(!spec_str_lt(vdv[p as int].0, xdv.0));
                if j - 1 > p {
                    assert(!spec_str_lt(vdv[j - 1].0, vdv[p as int].0));
                    if spec_str_lt(vdv[j - 1].0, xdv.0) {
                        lemma_str_le_lt_trans(vdv[p as int].0, vdv[j - 1].0, xdv.0);
                    }
                }
            } else if i < p && j > p {
                assert(!spec_str_lt(vdv[j - 1].0, vdv[i].0));
            }
        }
        // membership in both directions
        assert forall|q: (Seq<char>, bool)| #[trigger] rdv.contains(q) implies (vdv.contains(q)
            || q == xdv) by {
            let idx = choose|idx: int| 0 <= idx < rdv.len() && rdv[idx] == q;
            if idx < p {
                assert(vdv[idx] == q);
            } else if idx > p {
                assert(vdv[idx - 1] == q);
            }
        }
        assert forall|q: (Seq<char>, bool)| (vdv.contains(q) || q == xdv) implies
            #[trigger] rdv.contains(q) by {
            if q == xdv {
                assert(rdv[p as int] == q);
            } else {
                let idx = choose|idx: int| 0 <= idx < vdv.len() && vdv[idx] == q;
                if idx < p {
                    assert(rdv[idx] == q);
                } else {
                    assert(rdv[idx + 1] == q);
                }
            }
        }
        // distinctness when the entry is new
        if spec_distinct_pairs(vdv) && !vdv.contains(xdv) {
            assert forall|i: int, j: int| 0 <= i < j < rdv.len() implies #[trigger] rdv[i]
                != #[trigger] rdv[j] by {
                if i == p {
                    assert(rdv[j] == vdv[j - 1]);
                    if rdv[j] == xdv {
                        assert(vdv.contains(xdv));
                    }
                } else if j == p {
                    assert(rdv[i] == vdv[i]);
                    if rdv[i] == xdv {
                        assert(vdv.contains(xdv));
                    }
                }
            }
        }
    }
    out
}

/// All addresses the wallet's history has touched, as `(address, is_change)`
/// pairs: each distinct pair of the rows exactly once, ordered by address
/// text.
pub fn get_all_addresses(rows: &Vec<(String, bool)>) -> (r: Vec<(String, bool)>)
    ensures
        forall|q: (Seq<char>, bool)|
            #[trigger] r.deep_view().contains(q) <==> rows.deep_view().contains(q),
        spec_sorted_pairs(r.deep_view()),
        spec_distinct_pairs(r.deep_view()),
{
    let ghost rowsdv = rows.deep_view();
    let mut out: Vec<(String, bool)> = Vec::new();
    let mut n: usize = 0;
    while n < rows.len()
        invariant
            n <= rowsdv.len(),
            rowsdv == rows.deep_view(),
            spec_sorted_pairs(out.deep_view()),
            spec_distinct_pairs(out.deep_view()),
            forall|q: (Seq<char>, bool)|
                #[trigger] out.deep_view().contains(q) <==> rowsdv.take(n as int).contains(q),
        decreases rowsdv.len() - n,
    {
        let entry = (rows[n].0.clone(), rows[n].1);
        let ghost edv = (entry.0@, entry.1);
        assert(edv == rowsdv[n as int]);
        let ghost beforedv = out.deep_view();
        if !contains_pair(&out, &entry) {
            let replaced = insert_sorted_pair(&out, entry);
            out = replaced;
        }
        proof {
            assert(rowsdv.take(n as int + 1) =~~= rowsdv.take(n as int) + seq![rowsdv[n as int]]);
            assert forall|q: (Seq<char>, bool)| #[trigger] out.deep_view().contains(q) implies
                rowsdv.take(n as int + 1).contains(q) by {
                if beforedv.contains(q) || q == edv {
                    if q == edv {
                        assert(rowsdv.take(n as int + 1)[n as int] == q);
                    } else {
                        let idx = choose|idx: int|
                            0 <= idx < rowsdv.take(n as int).len() && (#[trigger] rowsdv.take(
                                n as int,
                            )[idx]) == q;
                        assert(rowsdv.take(n as int + 1)[idx] == q);
                    }
                }
            }
            assert forall|q: (Seq<char>, bool)| rowsdv.take(n as int + 1).contains(q) implies
                #[trigger] out.deep_view().contains(q) by {
                let idx = choose|idx: int|
                    0 <= idx < rowsdv.take(n as int + 1).len() && (#[trigger] rowsdv.take(
                        n as int + 1,
                    )[idx]) == q;
                if idx < n {
                    assert(rowsdv.take(n as int)[idx] == q);
                    assert(rowsdv.take(n as int).contains(q));
                } else {
                    assert(q == edv);
                }
            }
        }
        n += 1;
    }
    proof {
        assert(rowsdv.take(rowsdv.len() as int) =~~= rowsdv);
    }
    out
}

/// Address texts in non-descending order.
pub open spec fn spec_sorted_strings(s: Seq<Seq<char>>) -> bool {
    forall|i: int, j: int| 0 <= i < j < s.len() ==> !spec_str_lt(#[trigger] s[j], #[trigger] s[i])
}

/// No address occurs twice.
pub open spec fn spec_distinct_strings(s: Seq<Seq<char>>) -> bool {
    forall|i: int, j: int| 0 <= i < j < s.len() ==> #[trigger] s[i] != #[trigger] s[j]
}

/// Whether the collected addresses already hold this one.
fn contains_string(v: &Vec<String>, x: &String) -> (r: bool)
    ensures
        r == v.deep_view().contains(x@),
{
    let mut i: usize = 0;
    while i < v.len()
        invariant
            i <= v@.len(),
            forall|k: int| 0 <= k < i ==> #[trigger] v.deep_view()[k] != x@,
        decreases v@.len() - i,
    {
        if str_eq(v[i].as_str(), x.as_str()) {
            assert(v.deep_view()[i as int] == x@);
            return true;
        }
        i += 1;
    }
    proof {
        if v.deep_view().contains(x@) {
            let k = choose|k: int| 0 <= k < v.deep_view().len() && v.deep_view()[k] == x@;
            assert(v.deep_view()[k] != x@);
        }
    }
    false
}

/// Place one address into a run of addresses kept in non-descending order.
fn insert_sorted_string(v: &Vec<String>, x: String) -> (r: Vec<String>)
    requires
        spec_sorted_strings(v.deep_view()),
    ensures
        spec_sorted_strings(r.deep_view()),
        r.deep_view().len() == v.deep_view().len() + 1,
        forall|q: Seq<char>|
            #[trigger] r.deep_view().contains(q) <==> (v.deep_view().contains(q) || q == x@),
        (spec_distinct_strings(v.deep_view()) && !v.deep_view().contains(x@))
            ==> spec_distinct_strings(r.deep_view()),
{
    let ghost vdv = v.deep_view();
    let ghost xdv = x@;
    let mut p: usize = 0;
    while p < v.len() && str_lt(v[p].as_str(), x.as_str())
        invariant
            p <= vdv.len(),
            vdv == v.deep_view(),
            forall|k: int| 0 <= k < p ==> spec_str_lt(#[trigger] vdv[k], x@),
        decreases vdv.len() - p,
    {
        p += 1;
    }
    let mut out: Vec<String> = Vec::new();
    proof {
        assert(out.deep_view() =~= vdv.take(0));
    }
    let mut k: usize = 0;
    while k < p
        invariant
            k <= p <= vdv.len(),
            vdv == v.deep_view(),
            out@.len() == k,
            out.deep_view() == vdv.take(k as int),
        decreases p - k,
    {
        let elem = v[k].clone();
        let ghost edv = elem@;
        let ghost oldv = out@;
        let ghost olddv = out.deep_view();
        let ghost ev = elem;
        out.push(elem);
        proof {
            assert(edv == vdv[k as int]);
            assert(out@ == oldv.push(ev));
            assert forall|idx: int| 0 <= idx < out.deep_view().len() implies out.deep_view()[idx]
                == vdv.take(k as int + 1)[idx] by {
                assert(out.deep_view()[idx] == out@[idx].deep_view());
                if idx < k as int {
                    assert(oldv.push(ev)[idx] == oldv[idx]);
                    assert(olddv[idx] == oldv[idx].deep_view());
                } else {
                    assert(oldv.push(ev)[idx] == ev);
                }
            }
            assert(out.deep_view() =~= vdv.take(k as int + 1));
        }
        k += 1;
    }
    let ghost predv = out.deep_view();
    let ghost prev = out@;
    let ghost xv = x;
    out.push(x);
    proof {
        assert(out@ == prev.push(xv));
        assert forall|idx: int| 0 <= idx < out.deep_view().len() implies out.deep_view()[idx] == (
        vdv.take(p as int) + seq![xdv])[idx] by {
            assert(out.deep_view()[idx] == out@[idx].deep_view());
            if idx < p as int {
                assert(prev.push(xv)[idx] == prev[idx]);
                assert(predv[idx] == prev[idx].deep_view());
            } else {
                assert(prev.push(xv)[idx] == xv);
            }
        }
        assert(out.deep_view() =~= vdv.take(p as int) + seq![xdv]);
        assert(out.deep_view() =~= vdv.take(p as int) + seq![xdv] + vdv.subrange(
            p as int,
            p as int,
        ));
    }
    let mut k2: usize = p;
    while k2 < v.len()
        invariant
            p <= k2 <= vdv.len(),
            vdv == v.deep_view(),
            out@.len() == k2 + 1,
            out.deep_view() == vdv.take(p as int) + seq![xdv] + vdv.subrange(p as int, k2 as int),
        decreases vdv.len() - k2,
    {
        let elem = v[k2].clone();
        let ghost edv = elem@;
        let ghost oldv = out@;
        let ghost olddv = out.deep_view();
        let ghost ev = elem;
        out.push(elem);
        proof {
            assert(edv == vdv[k2 as int]);
            assert(out@ == oldv.push(ev));
            let ghost target = vdv.take(p as int) + seq![xdv] + vdv.subrange(
                p as int,
                k2 as int + 1,
            );
            assert forall|idx: int| 0 <= idx < out.deep_view().len() implies out.deep_view()[idx]
                == target[idx] by {
                assert(out.deep_view()[idx] == out@[idx].deep_view());
                if idx < olddv.len() {
                    assert(oldv.push(ev)[idx] == oldv[idx]);
                    assert(olddv[idx] == oldv[idx].deep_view());
                } else {
                    assert(oldv.push(ev)[idx] == ev);
                    assert(target[idx] == vdv.subrange(p as int, k2 as int + 1)[k2 - p]);
                }
            }
            assert(out.deep_view() =~= target);
        }
        k2 += 1;
    }
    let ghost rdv = out.deep_view();
    proof {
        assert(vdv.subrange(p as int, vdv.len() as int) =~= vdv.skip(p as int));
        assert(rdv == vdv.take(p as int) + seq![xdv] + vdv.skip(p as int));
        assert(forall|idx: int| 0 <= idx < p ==> rdv[idx] == vdv[idx]);
        assert(rdv[p as int] == xdv);
        assert(forall|idx: int| p < idx < rdv.len() ==> rdv[idx] == vdv[idx - 1]);
        assert forall|i: int, j: int| 0 <= i < j < rdv.len() implies !spec_str_lt(
            rdv[j],
            rdv[i],
        ) by {
            if i < p && j == p {
                lemma_str_lt_asymm(vdv[i], xdv);
            } else if i == p && j > p {
                assert(rdv[j] == vdv[j - 1]);
                assert(!spec_str_lt(vdv[p as int], xdv));
                if j - 1 > p {
                    assert(!spec_str_lt(vdv[j - 1], vdv[p as int]));
                    if spec_str_lt(vdv[j - 1], xdv) {
                        lemma_str_le_lt_trans(vdv[p as int], vdv[j - 1], xdv);
                    }
                }
            } else if i < p && j > p {
                assert(!spec_str_lt(vdv[j - 1], vdv[i]));
            }
        }
        assert forall|q: Seq<char>| #[trigger] rdv.contains(q) implies (vdv.contains(q) || q
            == xdv) by {
            let idx = choose|idx: int| 0 <= idx < rdv.len() && rdv[idx] == q;
            if idx < p {
                assert(vdv[idx] == q);
            } else if idx > p {
                assert(vdv[idx - 1] == q);
            }
        }
        assert forall|q: Seq<char>| (vdv.contains(q) || q == xdv) implies #[trigger] rdv.contains(
            q,
        ) by {
            if q == xdv {
                assert(rdv[p as int] == q);
            } else {
                let idx = choose|idx: int| 0 <= idx < vdv.len() && vdv[idx] == q;
                if idx < p {
                    assert(rdv[idx] == q);
                } else {
                    assert(rdv[idx + 1] == q);
                }
            }
        }
        if spec_distinct_strings(vdv) && !vdv.contains(xdv) {
            assert forall|i: int, j: int| 0 <= i < j < rdv.len() implies #[trigger] rdv[i]
                != #[trigger] rdv[j] by {
                if i == p {
                    assert(rdv[j] == vdv[j - 1]);
                    if rdv[j] == xdv {
                        assert(vdv.contains(xdv));
                    }
                } else if j == p {
                    assert(rdv[i] == vdv[i]);
                    if rdv[i] == xdv {
                        assert(vdv.contains(xdv));
                    }
                }
            }
        }
    }
    out
}

/// The change (internal-keychain) addresses the wallet's history has
/// touched: each address that appears in the rows flagged as change, exactly
/// once, ordered by address text.
pub fn get_change_addresses(rows: &Vec<(String, bool)>) -> (r: Vec<String>)
    ensures
        forall|a: Seq<char>|
            #[trigger] r.deep_view().contains(a) <==> rows.deep_view().contains((a, true)),
        spec_sorted_strings(r.deep_view()),
        spec_distinct_strings(r.deep_view()),
{
    let ghost rowsdv = rows.deep_view();
    let mut out: Vec<String> = Vec::new();
    let mut n: usize = 0;
    while n < rows.len()
        invariant
            n <= rowsdv.len(),
            rowsdv == rows.deep_view(),
            spec_sorted_strings(out.deep_view()),
            spec_distinct_strings(out.deep_view()),
            forall|a: Seq<char>|
                #[trigger] out.deep_view().contains(a) <==> rowsdv.take(n as int).contains((
                    a,
                    true,
                )),
        decreases rowsdv.len() - n,
    {
        let ghost beforedv = out.deep_view();
        let ghost rowdv = (rows.deep_view()[n as int].0, rows.deep_view()[n as int].1);
        assert(rowdv == rowsdv[n as int]);
        if rows[n].1 {
            let addr = rows[n].0.clone();
            if !contains_string(&out, &addr) {
                let replaced = insert_sorted_string(&out, addr);
                out = replaced;
            }
        }
        proof {
            assert(rowsdv.take(n as int + 1) =~= rowsdv.take(n as int) + seq![rowsdv[n as int]]);
            assert forall|a: Seq<char>| #[trigger] out.deep_view().contains(a) implies
                rowsdv.take(n as int + 1).contains((a, true)) by {
                if beforedv.contains(a) {
                    let idx = choose|idx: int|
                        0 <= idx < rowsdv.take(n as int).len() && (#[trigger] rowsdv.take(
                            n as int,
                        )[idx]) == (a, true);
                    assert(rowsdv.take(n as int + 1)[idx] == (a, true));
                } else {
                    assert(a == rowsdv[n as int].0 && rowsdv[n as int].1);
                    assert(rowsdv.take(n as int + 1)[n as int] == (a, true));
                }
            }
            assert forall|a: Seq<char>| rowsdv.take(n as int + 1).contains((a, true)) implies
                #[trigger] out.deep_view().contains(a) by {
                let idx = choose|idx: int|
                    0 <= idx < rowsdv.take(n as int + 1).len() && (#[trigger] rowsdv.take(
                        n as int + 1,
                    )[idx]) == (a, true);
                if idx < n {
                    assert(rowsdv.take(n as int)[idx] == (a, true));
                    assert(rowsdv.take(n as int).contains((a, true)));
                    assert(beforedv.contains(a));
                }
            }
        }
        n += 1;
    }
    proof {
        assert(rowsdv.take(rowsdv.len() as int) =~= rowsdv);
    }
    out
}

/// The satoshis the rows assign to one address: the sum of the values of its
/// entries.
pub open spec fn spec_addr_sum(rows: Seq<(Seq<char>, u64)>, addr: Seq<char>) -> int
    decreases rows.len(),
{
    if rows.len() == 0 {
        0
    } else {
        (if rows[0].0 == addr {
            rows[0].1 as int
        } else {
            0
        }) + spec_addr_sum(rows.drop_first(), addr)
    }
}

/// The satoshis of all rows together.
pub open spec fn spec_total(rows: Seq<(Seq<char>, u64)>) -> int
    decreases rows.len(),
{
    if rows.len() == 0 {
        0
    } else {
        rows[0].1 as int + spec_total(rows.drop_first())
    }
}

/// Appending a row adds its value to the total, and to its own address's sum
/// alone.
proof fn lemma_sums_snoc(rows: Seq<(Seq<char>, u64)>, x: (Seq<char>, u64), addr: Seq<char>)
    ensures
        spec_total(rows.push(x)) == spec_total(rows) + x.1,
        spec_addr_sum(rows.push(x), addr) == spec_addr_sum(rows, addr) + (if x.0 == addr {
            x.1 as int
        } else {
            0
        }),
    decreases rows.len(),
{
    if rows.len() == 0 {
        assert(rows.push(x)[0] == x);
        assert(rows.push(x).drop_first() =~= Seq::<(Seq<char>, u64)>::empty());
        assert(spec_total(rows.push(x).drop_first()) == 0);
        assert(spec_addr_sum(rows.push(x).drop_first(), addr) == 0);
    } else {
        assert(rows.push(x)[0] == rows[0]);
        assert(rows.push(x).drop_first() =~= rows.drop_first().push(x));
        lemma_sums_snoc(rows.drop_first(), x, addr);
    }
}

/// An address's sum is bounded by the total, and both are non-negative.
proof fn lemma_addr_sum_bounds(rows: Seq<(Seq<char>, u64)>, addr: Seq<char>)
    ensures
        0 <= spec_addr_sum(rows, addr) <= spec_total(rows),
    decreases rows.len(),
{
    if rows.len() > 0 {
        lemma_addr_sum_bounds(rows.drop_first(), addr);
    }
}

/// An address none of the rows name sums to nothing.
proof fn lemma_addr_sum_absent(rows: Seq<(Seq<char>, u64)>, addr: Seq<char>)
    requires
        forall|i: int| 0 <= i < rows.len() ==> (#[trigger] rows[i]).0 != addr,
    ensures
        spec_addr_sum(rows, addr) == 0,
    decreases rows.len(),
{
    if rows.len() > 0 {
        assert(rows[0].0 != addr);
        assert forall|i: int| 0 <= i < rows.drop_first().len() implies (#[trigger] rows.drop_first(
        )[i]).0 != addr by {
            assert(rows.drop_first()[i] == rows[i + 1]);
        }
        lemma_addr_sum_absent(rows.drop_first(), addr);
    }
}

/// A prefix's total never exceeds the whole's.
proof fn lemma_total_take_le(rows: Seq<(Seq<char>, u64)>, k: int)
    requires
        0 <= k <= rows.len(),
    ensures
        spec_total(rows.take(k)) <= spec_total(rows),
    decreases rows.len() - k,
{
    if k == rows.len() {
        assert(rows.take(k) =~= rows);
    } else {
        assert(rows.take(k + 1) =~= rows.take(k).push(rows[k]));
        lemma_sums_snoc(rows.take(k), rows[k], Seq::empty());
        lemma_total_take_le(rows, k + 1);
    }
}

/// Balance rows in non-descending address order.
pub open spec fn spec_sorted_sums(s: Seq<(Seq<char>, u64)>) -> bool {
    forall|i: int, j: int|
        0 <= i < j < s.len() ==> !spec_str_lt(#[trigger] s[j].0, #[trigger] s[i].0)
}

/// No address is listed twice.
pub open spec fn spec_distinct_keys(s: Seq<(Seq<char>, u64)>) -> bool {
    forall|i: int, j: int| 0 <= i < j < s.len() ==> (#[trigger] s[i]).0 != (#[trigger] s[j]).0
}

/// Whether some row names this address.
pub open spec fn spec_has_key(s: Seq<(Seq<char>, u64)>, addr: Seq<char>) -> bool {
    exists|i: int| 0 <= i < s.len() && (#[trigger] s[i]).0 == addr
}

/// The index of the entry holding this address, if one does.
fn find_addr(v: &Vec<(String, u64)>, addr: &str) -> (r: Option<usize>)
    ensures
        match r {
            Some(i) => i < v@.len() && v.deep_view()[i as int].0 == addr@,
            None => !spec_has_key(v.deep_view(), addr@),
        },
{
    let mut i: usize = 0;
    while i < v.len()
        invariant
            i <= v@.len(),
            forall|k: int| 0 <= k < i ==> (#[trigger] v.deep_view()[k]).0 != addr@,
        decreases v@.len() - i,
    {
        if str_eq(v[i].0.as_str(), addr) {
            assert(v.deep_view()[i as int].0 == addr@);
            return Some(i);
        }
        i += 1;
    }
    None
}

/// The rows with one entry's value raised.
fn bump_value(v: &Vec<(String, u64)>, i: usize, add: u64) -> (r: Vec<(String, u64)>)
    requires
        i < v@.len(),
        v.deep_view()[i as int].1 + add <= u64::MAX,
    ensures
        r.deep_view() == v.deep_view().update(
            i as int,
            (v.deep_view()[i as int].0, (v.deep_view()[i as int].1 + add) as u64),
        ),
{
    let ghost vdv = v.deep_view();
    let ghost target = vdv.update(i as int, (vdv[i as int].0, (vdv[i as int].1 + add) as u64));
    let mut out: Vec<(String, u64)> = Vec::new();
    proof {
        assert(out.deep_view() =~= target.take(0));
    }
    let mut k: usize = 0;
    while k < v.len()
        invariant
            k <= v@.len(),
            vdv == v.deep_view(),
            i < v@.len(),
            vdv[i as int].1 + add <= u64::MAX,
            target == vdv.update(i as int, (vdv[i as int].0, (vdv[i as int].1 + add) as u64)),
            out@.len() == k,
            out.deep_view() == target.take(k as int),
        decreases v@.len() - k,
    {
        let elem = if k == i {
            (v[k].0.clone(), v[k].1 + add)
        } else {
            (v[k].0.clone(), v[k].1)
        };
        let ghost edv = (elem.0@, elem.1);
        let ghost oldv = out@;
        let ghost olddv = out.deep_view();
        let ghost ev = elem;
        out.push(elem);
        proof {
            assert(edv == target[k as int]);
            assert(out@ == oldv.push(ev));
            assert forall|idx: int| 0 <= idx < out.deep_view().len() implies out.deep_view()[idx]
                == target.take(k as int + 1)[idx] by {
                assert(out.deep_view()[idx] == out@[idx].deep_view());
                if idx < k as int {
                    assert(oldv.push(ev)[idx] == oldv[idx]);
                    assert(olddv[idx] == oldv[idx].deep_view());
                } else {
                    assert(oldv.push(ev)[idx] == ev);
                }
            }
            assert(out.deep_view() =~= target.take(k as int + 1));
        }
        k += 1;
    }
    proof {
        assert(target.take(target.len() as int) =~= target);
    }
    out
}

/// Place one balance row into a run kept in non-descending address order.
fn insert_sorted_sum(v: &Vec<(String, u64)>, x: (String, u64)) -> (r: Vec<(String, u64)>)
    requires
        spec_sorted_sums(v.deep_view()),
    ensures
        spec_sorted_sums(r.deep_view()),
        r.deep_view().len() == v.deep_view().len() + 1,
        forall|q: (Seq<char>, u64)|
            #[trigger] r.deep_view().contains(q) <==> (v.deep_view().contains(q) || q == (
                x.0@,
                x.1,
            )),
        (spec_distinct_keys(v.deep_view()) && !spec_has_key(v.deep_view(), x.0@))
            ==> spec_distinct_keys(r.deep_view()),
        forall|a: Seq<char>|
            #[trigger] spec_has_key(r.deep_view(), a) <==> (spec_has_key(v.deep_view(), a) || a
                == x.0@),
{
    let ghost vdv = v.deep_view();
    let ghost xdv = (x.0@, x.1);
    let mut p: usize = 0;
    while p < v.len() && str_lt(v[p].0.as_str(), x.0.as_str())
        invariant
            p <= vdv.len(),
            vdv == v.deep_view(),
            forall|k: int| 0 <= k < p ==> spec_str_lt((#[trigger] vdv[k]).0, x.0@),
        decreases vdv.len() - p,
    {
        p += 1;
    }
    let mut out: Vec<(String, u64)> = Vec::new();
    proof {
        assert(out.deep_view() =~= vdv.take(0));
    }
    let mut k: usize = 0;
    while k < p
        invariant
            k <= p <= vdv.len(),
            vdv == v.deep_view(),
            out@.len() == k,
            out.deep_view() == vdv.take(k as int),
        decreases p - k,
    {
        let elem = (v[k].0.clone(), v[k].1);
        let ghost edv = (elem.0@, elem.1);
        let ghost oldv = out@;
        let ghost olddv = out.deep_view();
        let ghost ev = elem;
        out.push(elem);
        proof {
            assert(edv == vdv[k as int]);
            assert(out@ == oldv.push(ev));
            assert forall|idx: int| 0 <= idx < out.deep_view().len() implies out.deep_view()[idx]
                == vdv.take(k as int + 1)[idx] by {
                assert(out.deep_view()[idx] == out@[idx].deep_view());
                if idx < k as int {
                    assert(oldv.push(ev)[idx] == oldv[idx]);
                    assert(olddv[idx] == oldv[idx].deep_view());
                } else {
                    assert(oldv.push(ev)[idx] == ev);
                }
            }
            assert(out.deep_view() =~= vdv.take(k as int + 1));
        }
        k += 1;
    }
    let ghost predv = out.deep_view();
    let ghost prev = out@;
    let ghost xv = x;
    out.push(x);
    proof {
        assert(out@ == prev.push(xv));
        assert forall|idx: int| 0 <= idx < out.deep_view().len() implies out.deep_view()[idx] == (
        vdv.take(p as int) + seq![xdv])[idx] by {
            assert(out.deep_view()[idx] == out@[idx].deep_view());
            if idx < p as int {
                assert(prev.push(xv)[idx] == prev[idx]);
                assert(predv[idx] == prev[idx].deep_view());
            } else {
                assert(prev.push(xv)[idx] == xv);
            }
        }
        assert(out.deep_view() =~= vdv.take(p as int) + seq![xdv]);
        assert(out.deep_view() =~= vdv.take(p as int) + seq![xdv] + vdv.subrange(
            p as int,
            p as int,
        ));
    }
    let mut k2: usize = p;
    while k2 < v.len()
        invariant
            p <= k2 <= vdv.len(),
            vdv == v.deep_view(),
            out@.len() == k2 + 1,
            out.deep_view() == vdv.take(p as int) + seq![xdv] + vdv.subrange(p as int, k2 as int),
        decreases vdv.len() - k2,
    {
        let elem = (v[k2].0.clone(), v[k2].1);
        let ghost edv = (elem.0@, elem.1);
        let ghost oldv = out@;
        let ghost olddv = out.deep_view();
        let ghost ev = elem;
        out.push(elem);
        proof {
            assert(edv == vdv[k2 as int]);
            assert(out@ == oldv.push(ev));
            let ghost target = vdv.take(p as int) + seq![xdv] + vdv.subrange(
                p as int,
                k2 as int + 1,
            );
            assert forall|idx: int| 0 <= idx < out.deep_view().len() implies out.deep_view()[idx]
                == target[idx] by {
                assert(out.deep_view()[idx] == out@[idx].deep_view());
                if idx < olddv.len() {
                    assert(oldv.push(ev)[idx] == oldv[idx]);
                    assert(olddv[idx] == oldv[idx].deep_view());
                } else {
                    assert(oldv.push(ev)[idx] == ev);
                    assert(target[idx] == vdv.subrange(p as int, k2 as int + 1)[k2 - p]);
                }
            }
            assert(out.deep_view() =~= target);
        }
        k2 += 1;
    }
    let ghost rdv = out.deep_view();
    proof {
        assert(vdv.subrange(p as int, vdv.len() as int) =~= vdv.skip(p as int));
        assert(rdv == vdv.take(p as int) + seq![xdv] + vdv.skip(p as int));
        assert(forall|idx: int| 0 <= idx < p ==> rdv[idx] == vdv[idx]);
        assert(rdv[p as int] == xdv);
        assert(forall|idx: int| p < idx < rdv.len() ==> rdv[idx] == vdv[idx - 1]);
        assert forall|i: int, j: int| 0 <= i < j < rdv.len() implies !spec_str_lt(
            rdv[j].0,
            rdv[i].0,
        ) by {
            if i < p && j == p {
                lemma_str_lt_asymm(vdv[i].0, xdv.0);
            } else if i == p && j > p {
                assert(rdv[j] == vdv[j - 1]);
                assert(!spec_str_lt(vdv[p as int].0, xdv.0));
                if j - 1 > p {
                    assert(!spec_str_lt(vdv[j - 1].0, vdv[p as int].0));
                    if spec_str_lt(vdv[j - 1].0, xdv.0) {
                        lemma_str_le_lt_trans(vdv[p as int].0, vdv[j - 1].0, xdv.0);
                    }
                }
            } else if i < p && j > p {
                assert(!spec_str_lt(vdv[j - 1].0, vdv[i].0));
            }
        }
        assert forall|q: (Seq<char>, u64)| #[trigger] rdv.contains(q) implies (vdv.contains(q) || q
            == xdv) by {
            let idx = choose|idx: int| 0 <= idx < rdv.len() && rdv[idx] == q;
            if idx < p {
                assert(vdv[idx] == q);
            } else if idx > p {
                assert(vdv[idx - 1] == q);
            }
        }
        assert forall|q: (Seq<char>, u64)| (vdv.contains(q) || q == xdv) implies
            #[trigger] rdv.contains(q) by {
            if q == xdv {
                assert(rdv[p as int] == q);
            } else {
                let idx = choose|idx: int| 0 <= idx < vdv.len() && vdv[idx] == q;
                if idx < p {
                    assert(rdv[idx] == q);
                } else {
                    assert(rdv[idx + 1] == q);
                }
            }
        }
        if spec_distinct_keys(vdv) && !spec_has_key(vdv, xdv.0) {
            assert forall|i: int, j: int| 0 <= i < j < rdv.len() implies (#[trigger] rdv[i]).0 != (
            #[trigger] rdv[j]).0 by {
                if i == p {
                    assert(rdv[j] == vdv[j - 1]);
                    if rdv[j].0 == xdv.0 {
                        assert(spec_has_key(vdv, xdv.0));
                    }
                } else if j == p {
                    assert(rdv[i] == vdv[i]);
                    if rdv[i].0 == xdv.0 {
                        assert(spec_has_key(vdv, xdv.0));
                    }
                }
            }
        }
        assert forall|a: Seq<char>| #[trigger] spec_has_key(rdv, a) implies (spec_has_key(vdv, a)
            || a == xdv.0) by {
            let idx = choose|idx: int| 0 <= idx < rdv.len() && (#[trigger] rdv[idx]).0 == a;
            if idx < p {
                assert(vdv[idx].0 == a);
            } else if idx > p {
                assert(vdv[idx - 1].0 == a);
            }
        }
        assert forall|a: Seq<char>| (spec_has_key(vdv, a) || a == xdv.0) implies
            #[trigger] spec_has_key(rdv, a) by {
            if a == xdv.0 {
                assert(rdv[p as int].0 == a);
            } else {
                let idx = choose|idx: int| 0 <= idx < vdv.len() && (#[trigger] vdv[idx]).0 == a;
                if idx < p {
                    assert(rdv[idx].0 == a);
                } else {
                    assert(rdv[idx + 1].0 == a);
                }
            }
        }
    }
    out
}

/// External-keychain balances grouped by address: one row per address the
/// unspent outputs name, carrying exactly the sum of that address's values,
/// ordered by address text. The total of all values must fit the satoshi
/// counter, which every real chain is far below.
pub fn get_addresses_with_balance(utxos: &Vec<(String, u64)>) -> (r: Vec<(String, u64)>)
    requires
        spec_total(utxos.deep_view()) <= u64::MAX,
    ensures
        forall|q: (Seq<char>, u64)|
            #[trigger] r.deep_view().contains(q) ==> q.1 == spec_addr_sum(
                utxos.deep_view(),
                q.0,
            ),
        forall|a: Seq<char>|
            #[trigger] spec_has_key(r.deep_view(), a) <==> spec_has_key(utxos.deep_view(), a),
        spec_sorted_sums(r.deep_view()),
        spec_distinct_keys(r.deep_view()),
{
    let ghost udv = utxos.deep_view();
    let mut out: Vec<(String, u64)> = Vec::new();
    let mut n: usize = 0;
    while n < utxos.len()
        invariant
            n <= udv.len(),
            udv == utxos.deep_view(),
            spec_total(udv) <= u64::MAX,
            spec_sorted_sums(out.deep_view()),
            spec_distinct_keys(out.deep_view()),
            forall|q: (Seq<char>, u64)|
                #[trigger] out.deep_view().contains(q) ==> q.1 == spec_addr_sum(
                    udv.take(n as int),
                    q.0,
                ),
            forall|a: Seq<char>|
                #[trigger] spec_has_key(out.deep_view(), a) <==> spec_has_key(
                    udv.take(n as int),
                    a,
                ),
        decreases udv.len() - n,
    {
        let ghost beforedv = out.deep_view();
        let ghost rowdv = (udv[n as int].0, udv[n as int].1);
        let value = utxos[n].1;
        proof {
            assert(udv.take(n as int + 1) =~= udv.take(n as int).push(rowdv));
            lemma_total_take_le(udv, n as int + 1);
            lemma_sums_snoc(udv.take(n as int), rowdv, rowdv.0);
            lemma_addr_sum_bounds(udv.take(n as int), rowdv.0);
        }
        match find_addr(&out, utxos[n].0.as_str()) {
            Some(i) => {
                proof {
                    assert(beforedv.contains(beforedv[i as int]));
                    assert(beforedv[i as int].1 == spec_addr_sum(udv.take(n as int), rowdv.0));
                }
                let replaced = bump_value(&out, i, value);
                out = replaced;
                proof {
                    let rdv = out.deep_view();
                    assert(rdv.len() == beforedv.len());
                    assert(rdv[i as int] == (rowdv.0, (beforedv[i as int].1 + value) as u64));
                    assert(forall|idx: int|
                        0 <= idx < rdv.len() && idx != i ==> rdv[idx] == beforedv[idx]);
                    assert(forall|idx: int| 0 <= idx < rdv.len() ==> (#[trigger] rdv[idx]).0
                        == beforedv[idx].0);
                    assert forall|q: (Seq<char>, u64)| #[trigger] rdv.contains(q) implies q.1
                        == spec_addr_sum(udv.take(n as int + 1), q.0) by {
                        let idx = choose|idx: int| 0 <= idx < rdv.len() && rdv[idx] == q;
                        lemma_sums_snoc(udv.take(n as int), rowdv, q.0);
                        if idx == i {
                            assert(q == (rowdv.0, (beforedv[i as int].1 + value) as u64));
                        } else {
                            assert(beforedv.contains(beforedv[idx]));
                            assert(q == beforedv[idx]);
                            if q.0 == rowdv.0 {
                                assert(beforedv[idx].0 == beforedv[i as int].0);
                                assert(false);
                            }
                        }
                    }
                    assert(beforedv[i as int].0 == rowdv.0);
                    assert(spec_has_key(beforedv, rowdv.0));
                    assert forall|a: Seq<char>| #[trigger] spec_has_key(rdv, a) <==> spec_has_key(
                        beforedv,
                        a,
                    ) by {
                        if spec_has_key(rdv, a) {
                            let idx = choose|idx: int|
                                0 <= idx < rdv.len() && (#[trigger] rdv[idx]).0 == a;
                            assert(beforedv[idx].0 == a);
                            assert(spec_has_key(beforedv, a));
                        }
                        if spec_has_key(beforedv, a) {
                            let idx = choose|idx: int|
                                0 <= idx < beforedv.len() && (#[trigger] beforedv[idx]).0 == a;
                            assert(rdv[idx].0 == a);
                            assert(spec_has_key(rdv, a));
                        }
                    }
                    assert forall|a: Seq<char>| #[trigger] spec_has_key(udv.take(n as int + 1), a)
                        <==> (spec_has_key(udv.take(n as int), a) || a == rowdv.0) by {
                        if spec_has_key(udv.take(n as int + 1), a) {
                            let idx = choose|idx: int|
                                0 <= idx < udv.take(n as int + 1).len() && (#[trigger] udv.take(
                                    n as int + 1,
                                )[idx]).0 == a;
                            if idx < n {
                                assert(udv.take(n as int)[idx].0 == a);
                                assert(spec_has_key(udv.take(n as int), a));
                            } else {
                                assert(a == rowdv.0);
                            }
                        }
                        if spec_has_key(udv.take(n as int), a) {
                            let idx = choose|idx: int|
                                0 <= idx < udv.take(n as int).len() && (#[trigger] udv.take(
                                    n as int,
                                )[idx]).0 == a;
                            assert(udv.take(n as int + 1)[idx].0 == a);
                            assert(spec_has_key(udv.take(n as int + 1), a));
                        }
                        if a == rowdv.0 {
                            assert(udv.take(n as int + 1)[n as int].0 == a);
                            assert(spec_has_key(udv.take(n as int + 1), a));
                        }
                    }
                }
            },
            None => {
                let entry = (utxos[n].0.clone(), value);
                proof {
                    assert forall|idx: int|
                        0 <= idx < udv.take(n as int).len() implies (#[trigger] udv.take(
                        n as int,
                    )[idx]).0 != rowdv.0 by {
                        if udv.take(n as int)[idx].0 == rowdv.0 {
                            assert(spec_has_key(udv.take(n as int), rowdv.0));
                        }
                    }
                    lemma_addr_sum_absent(udv.take(n as int), rowdv.0);
                }
                let replaced = insert_sorted_sum(&out, entry);
                out = replaced;
                proof {
                    let rdv = out.deep_view();
                    assert forall|q: (Seq<char>, u64)| #[trigger] rdv.contains(q) implies q.1
                        == spec_addr_sum(udv.take(n as int + 1), q.0) by {
                        lemma_sums_snoc(udv.take(n as int), rowdv, q.0);
                        if beforedv.contains(q) {
                            if q.0 == rowdv.0 {
                                assert(spec_has_key(beforedv, q.0));
                                assert(spec_has_key(udv.take(n as int), rowdv.0));
                                let bidx = choose|bidx: int|
                                    0 <= bidx < udv.take(n as int).len() && (#[trigger] udv.take(
                                        n as int,
                                    )[bidx]).0 == rowdv.0;
                                assert(false);
                            }
                        } else {
                            assert(q == (rowdv.0, value));
                        }
                    }
                    assert forall|a: Seq<char>| #[trigger] spec_has_key(rdv, a) <==> spec_has_key(
                        udv.take(n as int + 1),
                        a,
                    ) by {
                        if spec_has_key(rdv, a) {
                            if a == rowdv.0 {
                                assert(udv.take(n as int + 1)[n as int].0 == a);
                            } else {
                                assert(spec_has_key(beforedv, a));
                                let bidx = choose|bidx: int|
                                    0 <= bidx < udv.take(n as int).len() && (#[trigger] udv.take(
                                        n as int,
                                    )[bidx]).0 == a;
                                assert(udv.take(n as int + 1)[bidx].0 == a);
                            }
                        }
                        if spec_has_key(udv.take(n as int + 1), a) {
                            let idx = choose|idx: int|
                                0 <= idx < udv.take(n as int + 1).len() && (#[trigger] udv.take(
                                    n as int + 1,
                                )[idx]).0 == a;
                            if idx < n {
                                assert(udv.take(n as int)[idx].0 == a);
                                assert(spec_has_key(udv.take(n as int), a));
                                assert(spec_has_key(beforedv, a));
                                assert(spec_has_key(rdv, a));
                            } else {
                                assert(a == rowdv.0);
                                assert(spec_has_key(rdv, a));
                            }
                        }
                    }
                }
            },
        }
        n += 1;
    }
    proof {
        assert(udv.take(udv.len() as int) =~= udv);
    }
    out
}

} // verus!
