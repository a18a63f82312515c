//! The scanner: out of an arbitrarily ordered directory listing, the
//! candidates for transfer — names matching the target extension whose stem
//! carries an identifier above the watermark — as a list sorted ascending by
//! identifier.

use vstd::prelude::*;

use crate::names::{candidate_id, spec_candidate_id};
use vstd::multiset::group_multiset_axioms;
use vstd::seq_lib::group_to_multiset_ensures;

verus! {

/// A file eligible for transfer this run: its extracted identifier and its
/// plain file name (the destination keeps the name).
pub struct Candidate {
    pub id: u32,
    pub name: String,
}

/// Mathematical content of one candidate.
pub open spec fn cand_view(c: Candidate) -> (u32, Seq<char>) {
    (c.id, c.name@)
}

/// Mathematical content of a candidate list.
pub open spec fn views_of(s: Seq<Candidate>) -> Seq<(u32, Seq<char>)> {
    s.map_values(|c: Candidate| (c.id, c.name@))
}

/// The candidates among `names`, in listing order: names that split into stem
/// and matching extension, whose stem carries an identifier strictly above
/// the watermark `w`.
pub open spec fn spec_candidates(names: Seq<Seq<char>>, ext: Seq<char>, w: u32) -> Seq<
    (u32, Seq<char>),
>
    decreases names.len(),
{
    if names.len() == 0 {
        Seq::empty()
    } else {
        let rest = spec_candidates(names.drop_last(), ext, w);
        match spec_candidate_id(names.last(), ext) {
            Some(d) => if d > w {
                rest.push((d, names.last()))
            } else {
                rest
            },
            None => rest,
        }
    }
}

/// Stable insertion of `x` into an id-sorted list, after equal identifiers.
pub open spec fn insert_by_id(s: Seq<(u32, Seq<char>)>, x: (u32, Seq<char>)) -> Seq<
    (u32, Seq<char>),
>
    decreases s.len(),
{
    if s.len() == 0 {
        seq![x]
    } else if s.last().0 <= x.0 {
        s.push(x)
    } else {
        insert_by_id(s.drop_last(), x).push(s.last())
    }
}

/// Insertion sort by identifier.
pub open spec fn sort_by_id(s: Seq<(u32, Seq<char>)>) -> Seq<(u32, Seq<char>)>
    decreases s.len(),
{
    if s.len() == 0 {
        Seq::empty()
    } else {
        insert_by_id(sort_by_id(s.drop_last()), s.last())
    }
}

/// Identifiers ascend along the list.
pub open spec fn sorted_by_id(s: Seq<(u32, Seq<char>)>) -> bool {
    forall|i: int, j: int| 0 <= i <= j < s.len() ==> s[i].0 <= s[j].0
}

/// What a scan of `names` under watermark `w` yields: the candidates, sorted
/// ascending by identifier.
pub open spec fn spec_scan(names: Seq<Seq<char>>, ext: Seq<char>, w: u32) -> Seq<
    (u32, Seq<char>),
> {
    sort_by_id(spec_candidates(names, ext, w))
}

proof fn lemma_insert_multiset(s: Seq<(u32, Seq<char>)>, x: (u32, Seq<char>))
    ensures
        insert_by_id(s, x).to_multiset() =~= s.to_multiset().insert(x),
    decreases s.len(),
{
    broadcast use group_to_multiset_ensures, group_multiset_axioms;

    if s.len() == 0 {
        assert(seq![x] =~= Seq::<(u32, Seq<char>)>::empty().push(x));
    } else if s.last().0 <= x.0 {
    } else {
        lemma_insert_multiset(s.drop_last(), x);
        assert(s =~= s.drop_last().push(s.last()));
        assert(s.to_multiset() =~= s.drop_last().to_multiset().insert(s.last()));
    }
}

proof fn lemma_sort_multiset(s: Seq<(u32, Seq<char>)>)
    ensures
        sort_by_id(s).to_multiset() =~= s.to_multiset(),
    decreases s.len(),
{
    broadcast use group_to_multiset_ensures, group_multiset_axioms;

    if s.len() == 0 {
    } else {
        lemma_sort_multiset(s.drop_last());
        lemma_insert_multiset(sort_by_id(s.drop_last()), s.last());
        assert(s =~= s.drop_last().push(s.last()));
        assert(s.to_multiset() =~= s.drop_last().to_multiset().insert(s.last()));
    }
}

/// The sorted list holds exactly the elements of the unsorted one.
pub proof fn lemma_sort_membership(s: Seq<(u32, Seq<char>)>, y: (u32, Seq<char>))
    ensures
        sort_by_id(s).contains(y) <==> s.contains(y),
{
    broadcast use group_to_multiset_ensures, group_multiset_axioms;

    lemma_sort_multiset(s);
    assert(sort_by_id(s).contains(y) <==> sort_by_id(s).to_multiset().count(y) > 0);
    assert(s.contains(y) <==> s.to_multiset().count(y) > 0);
}

proof fn lemma_insert_sorted(s: Seq<(u32, Seq<char>)>, x: (u32, Seq<char>))
    requires
        sorted_by_id(s),
    ensures
        sorted_by_id(insert_by_id(s, x)),
    decreases s.len(),
{
    broadcast use group_to_multiset_ensures, group_multiset_axioms;

    if s.len() == 0 {
    } else if s.last().0 <= x.0 {
        let r = s.push(x);
        assert forall|i: int, j: int| 0 <= i <= j < r.len() implies r[i].0 <= r[j].0 by {
            if j < s.len() {
            } else {
                if i < s.len() {
                    assert(s[i].0 <= s.last().0);
                }
            }
        }
    } else {
        assert(sorted_by_id(s.drop_last()));
        lemma_insert_sorted(s.drop_last(), x);
        lemma_insert_multiset(s.drop_last(), x);
        let t = insert_by_id(s.drop_last(), x);
        let r = t.push(s.last());
        assert forall|i: int, j: int| 0 <= i <= j < r.len() implies r[i].0 <= r[j].0 by {
            if j < t.len() {
            } else {
                if i < t.len() {
                    let e = r[i];
                    assert(t.contains(e));
                    assert(t.to_multiset().count(e) > 0);
                    if e == x {
                        assert(e.0 <= s.last().0);
                    } else {
                        assert(s.drop_last().to_multiset().count(e) > 0);
                        assert(s.drop_last().contains(e));
                        let k = choose|k: int|
                            0 <= k < s.drop_last().len() && s.drop_last()[k] == e;
                        assert(s[k] == e);
                        assert(s[k].0 <= s.last().0);
                    }
                }
            }
        }
    }
}

/// A sorted scan result is indeed sorted.
pub proof fn lemma_sort_sorted(s: Seq<(u32, Seq<char>)>)
    ensures
        sorted_by_id(sort_by_id(s)),
    decreases s.len(),
{
    if s.len() == 0 {
    } else {
        lemma_sort_sorted(s.drop_last());
        lemma_insert_sorted(sort_by_id(s.drop_last()), s.last());
    }
}

/// A pair is a candidate of the listing exactly when some listed name is its
/// name, that name's identifier under the target extension is its identifier,
/// and the identifier lies strictly above the watermark.
pub proof fn lemma_candidates_membership(
    names: Seq<Seq<char>>,
    ext: Seq<char>,
    w: u32,
    p: (u32, Seq<char>),
)
    ensures
        spec_candidates(names, ext, w).contains(p) <==> exists|i: int|
            0 <= i < names.len() && names[i] == p.1 && spec_candidate_id(p.1, ext) == Some(p.0)
                && p.0 > w,
    decreases names.len(),
{
    broadcast use group_to_multiset_ensures, group_multiset_axioms;

    if names.len() == 0 {
    } else {
        let rest = spec_candidates(names.drop_last(), ext, w);
        lemma_candidates_membership(names.drop_last(), ext, w, p);
        let cur = spec_candidates(names, ext, w);
        // Whatever the last name contributes, membership in `cur` reduces to
        // membership in `rest` or being the contributed pair.
        match spec_candidate_id(names.last(), ext) {
            Some(d) => {
                if d > w {
                    let q = (d, names.last());
                    assert(cur == rest.push(q));
                    assert(cur.to_multiset() =~= rest.to_multiset().insert(q));
                    assert(cur.contains(p) <==> cur.to_multiset().count(p) > 0);
                    assert(rest.contains(p) <==> rest.to_multiset().count(p) > 0);
                    assert(cur.to_multiset().count(p) == rest.to_multiset().count(p) + (
                    if p == q {
                        1int
                    } else {
                        0int
                    }));
                    assert(cur.contains(p) <==> (rest.contains(p) || p == q));
                } else {
                    assert(cur == rest);
                }
            },
            None => {
                assert(cur == rest);
            },
        }
        if cur.contains(p) {
            if rest.contains(p) {
                let i = choose|i: int|
                    0 <= i < names.drop_last().len() && names.drop_last()[i] == p.1
                        && spec_candidate_id(p.1, ext) == Some(p.0) && p.0 > w;
                assert(names[i] == p.1);
            } else {
                assert(names[names.len() - 1] == p.1);
            }
        }
        if exists|i: int|
            0 <= i < names.len() && names[i] == p.1 && spec_candidate_id(p.1, ext) == Some(p.0)
                && p.0 > w {
            let i = choose|i: int|
                0 <= i < names.len() && names[i] == p.1 && spec_candidate_id(p.1, ext) == Some(
                    p.0,
                ) && p.0 > w;
            if i < names.len() - 1 {
                assert(names.drop_last()[i] == p.1);
                assert(rest.contains(p));
                assert(cur.to_multiset().count(p) > 0);
            } else {
                assert(names.last() == p.1);
                assert(cur.contains(p));
            }
        }
    }
}

/// A file whose name carries identifier `d` under the target extension is a
/// candidate of the scan exactly when `d` lies above the watermark.
pub proof fn lemma_candidate_iff(names: Seq<Seq<char>>, ext: Seq<char>, w: u32, i: int, d: u32)
    requires
        0 <= i < names.len(),
        spec_candidate_id(names[i], ext) == Some(d),
    ensures
        spec_scan(names, ext, w).contains((d, names[i])) <==> d > w,
{
    lemma_sort_membership(spec_candidates(names, ext, w), (d, names[i]));
    lemma_candidates_membership(names, ext, w, (d, names[i]));
}

/// A name without an identifier under the target extension — no matching
/// extension, no digit run in the stem, or a run past `u32::MAX` — is never a
/// candidate, whatever the watermark.
pub proof fn lemma_never_candidate(names: Seq<Seq<char>>, ext: Seq<char>, w: u32, n: Seq<char>, d: u32)
    requires
        spec_candidate_id(n, ext) is None,
    ensures
        !spec_scan(names, ext, w).contains((d, n)),
{
    lemma_sort_membership(spec_candidates(names, ext, w), (d, n));
    lemma_candidates_membership(names, ext, w, (d, n));
}

/// Every scanned candidate's identifier lies strictly above the watermark.
pub proof fn lemma_scan_above_watermark(names: Seq<Seq<char>>, ext: Seq<char>, w: u32, j: int)
    requires
        0 <= j < spec_scan(names, ext, w).len(),
    ensures
        spec_scan(names, ext, w)[j].0 > w,
{
    let p = spec_scan(names, ext, w)[j];
    assert(spec_scan(names, ext, w).contains(p));
    lemma_sort_membership(spec_candidates(names, ext, w), p);
    lemma_candidates_membership(names, ext, w, p);
}

proof fn lemma_insert_splice(s: Seq<(u32, Seq<char>)>, x: (u32, Seq<char>), j: int)
    requires
        sorted_by_id(s),
        0 <= j <= s.len(),
        forall|k: int| 0 <= k < j ==> s[k].0 <= x.0,
        forall|k: int| j <= k < s.len() ==> s[k].0 > x.0,
    ensures
        insert_by_id(s, x) =~= s.insert(j, x),
    decreases s.len(),
{
    if s.len() == 0 {
        assert(s.insert(0, x) =~= seq![x]);
    } else if s.last().0 <= x.0 {
        assert(j == s.len());
        assert(s.insert(j, x) =~= s.push(x));
    } else {
        assert(j < s.len());
        assert(sorted_by_id(s.drop_last()));
        lemma_insert_splice(s.drop_last(), x, j);
        assert(insert_by_id(s.drop_last(), x).push(s.last()) =~= s.drop_last().insert(
            j,
            x,
        ).push(s.last()));
        assert(s.drop_last().insert(j, x).push(s.last()) =~= s.insert(j, x));
    }
}

proof fn lemma_views_insert(s: Seq<Candidate>, j: int, c: Candidate)
    requires
        0 <= j <= s.len(),
    ensures
        views_of(s.insert(j, c)) =~= views_of(s).insert(j, cand_view(c)),
{
    assert forall|k: int| 0 <= k < s.len() + 1 implies views_of(s.insert(j, c))[k] == views_of(
        s,
    ).insert(j, cand_view(c))[k] by {
        if k < j {
        } else if k == j {
        } else {
        }
    }
}

/// Scan a directory listing: keep the names that match the target extension
/// and carry an identifier strictly above `watermark`, and return them sorted
/// ascending by identifier. Listing order does not matter; equal identifiers
/// keep their listing order.
pub fn scan(names: &Vec<String>, target_ext: &str, watermark: u32) -> (r: Vec<Candidate>)
    ensures
        views_of(r@) == spec_scan(names.deep_view(), target_ext@, watermark),
        sorted_by_id(views_of(r@)),
        forall|j: int| 0 <= j < r@.len() ==> r@[j].id > watermark,
{
    let ghost deep = names.deep_view();
    let ghost ext = target_ext@;
    let mut out: Vec<Candidate> = Vec::new();
    proof {
        assert(deep.subrange(0, 0) =~= Seq::<Seq<char>>::empty());
        assert(views_of(out@) =~= Seq::<(u32, Seq<char>)>::empty());
    }
    let mut i: usize = 0;
    while i < names.len()
        invariant
            0 <= i <= names.len(),
            deep == names.deep_view(),
            ext == target_ext@,
            deep.len() == names@.len(),
            views_of(out@) == sort_by_id(
                spec_candidates(deep.subrange(0, i as int), ext, watermark),
            ),
        decreases names.len() - i,
    {
        let name: &String = &names[i];
        proof {
            assert(deep[i as int] == names@[i as int]@);
        }
        let cid = candidate_id(name.as_str(), target_ext);
        let ghost pre = deep.subrange(0, i as int);
        let ghost cur = deep.subrange(0, i as int + 1);
        proof {
            assert(cur.drop_last() =~= pre);
            assert(cur.last() == deep[i as int]);
        }
        match cid {
            Some(d) => {
                if d > watermark {
                    let ghost p = (d, name@);
                    proof {
                        assert(spec_candidates(cur, ext, watermark) == spec_candidates(
                            pre,
                            ext,
                            watermark,
                        ).push(p));
                        let q = spec_candidates(pre, ext, watermark).push(p);
                        assert(q.drop_last() =~= spec_candidates(pre, ext, watermark));
                        assert(sort_by_id(q) == insert_by_id(
                            sort_by_id(spec_candidates(pre, ext, watermark)),
                            p,
                        ));
                        lemma_sort_sorted(spec_candidates(pre, ext, watermark));
                    }
                    // Find the insertion point from the back.
                    let mut j: usize = out.len();
                    while j > 0 && out[j - 1].id > d
                        invariant
                            0 <= j <= out@.len(),
                            forall|k: int| j <= k < out@.len() ==> out@[k].id > d,
                        decreases j,
                    {
                        j = j - 1;
                    }
                    proof {
                        let v = views_of(out@);
                        assert(sorted_by_id(v));
                        assert(forall|k: int| 0 <= k < v.len() ==> v[k].0 == out@[k].id);
                        if j > 0 {
                            assert(out@[j - 1].id <= d);
                            assert(forall|k: int| 0 <= k < j ==> #[trigger] v[k].0 <= v[j - 1].0);
                        }
                        lemma_insert_splice(v, p, j as int);
                    }
                    let ghost old_out = out@;
                    let c = Candidate { id: d, name: name.clone() };
                    out.insert(j, c);
                    proof {
                        assert(cand_view(out@[j as int]) == p);
                        lemma_views_insert(old_out, j as int, out@[j as int]);
                        assert(views_of(out@) =~= sort_by_id(
                            spec_candidates(cur, ext, watermark),
                        ));
                    }
                } else {
                    proof {
                        assert(spec_candidates(cur, ext, watermark) == spec_candidates(
                            pre,
                            ext,
                            watermark,
                        ));
                    }
                }
            },
            None => {
                proof {
                    assert(spec_candidates(cur, ext, watermark) == spec_candidates(
                        pre,
                        ext,
                        watermark,
                    ));
                }
            },
        }
        i = i + 1;
    }
    proof {
        assert(deep.subrange(0, names@.len() as int) =~= deep);
        lemma_sort_sorted(spec_candidates(deep, ext, watermark));
        assert forall|j: int| 0 <= j < out@.len() implies out@[j].id > watermark by {
            assert(views_of(out@)[j].0 == out@[j].id);
            lemma_scan_above_watermark(deep, ext, watermark, j);
        }
    }
    out
}

} // verus!
