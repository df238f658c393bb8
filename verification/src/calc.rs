//! The search engine: enumerates the full cross product of the configured
//! value series in slot-major order (slot 1 varies slowest), scores every
//! candidate, and collects the accepted ones into a result set sorted
//! ascending by quantized error.

use vstd::prelude::*;

use crate::bounds::Scorer;
use vstd::multiset::Multiset;
use crate::rset::RSet;
use crate::series::{is_e12, is_e24, is_e3, is_e6, RSeries};

verus! {

broadcast use vstd::seq_lib::group_to_multiset_ensures;

/// The value sequences of a sequence of series.
pub open spec fn views(rs: Seq<RSeries>) -> Seq<Seq<u32>> {
    rs.map_values(|s: RSeries| s@)
}

/// Every candidate of the given slots, in slot-major order: the first
/// slot's value varies slowest. No slots at all yield exactly one empty
/// candidate.
pub open spec fn cross(slots: Seq<Seq<u32>>) -> Seq<Seq<u32>>
    decreases slots.len(),
{
    if slots.len() == 0 {
        seq![Seq::<u32>::empty()]
    } else {
        let rest = cross(slots.drop_first());
        if rest.len() == 0 {
            Seq::<Seq<u32>>::empty()
        } else {
            Seq::new(
                slots[0].len() * rest.len(),
                |i: int| seq![slots[0][i / (rest.len() as int)]] + rest[i % (rest.len() as int)],
            )
        }
    }
}

/// The product of the slots' series lengths.
pub open spec fn product_of(slots: Seq<Seq<u32>>) -> int
    decreases slots.len(),
{
    if slots.len() == 0 {
        1
    } else {
        slots[0].len() * product_of(slots.drop_first())
    }
}

/// The number of candidates enumerated is exactly the product of the
/// per-slot series lengths.
pub proof fn lemma_cross_len(slots: Seq<Seq<u32>>)
    ensures
        cross(slots).len() == product_of(slots),
        product_of(slots) >= 0,
    decreases slots.len(),
{
    if slots.len() == 0 {
    } else {
        lemma_cross_len(slots.drop_first());
        let rest = cross(slots.drop_first());
        let a = slots[0].len() as int;
        let b = rest.len() as int;
        assert(a * b >= 0) by (nonlinear_arith)
            requires
                a >= 0,
                b >= 0,
        ;
        if rest.len() == 0 {
            assert(a * 0 == 0) by (nonlinear_arith);
        }
    }
}

/// A product of series lengths with a zero factor is zero.
proof fn lemma_product_zero(slots: Seq<Seq<u32>>, q: int)
    requires
        0 <= q < slots.len(),
        slots[q].len() == 0,
    ensures
        product_of(slots) == 0,
    decreases slots.len(),
{
    if q == 0 {
        assert(slots[0].len() as int * product_of(slots.drop_first()) == 0) by (nonlinear_arith)
            requires
                slots[0].len() == 0,
        ;
    } else {
        lemma_product_zero(slots.drop_first(), q - 1);
        assert(slots[0].len() as int * 0 == 0) by (nonlinear_arith);
    }
}

/// With every series so far non-empty, dropping leading slots cannot grow
/// the product.
proof fn lemma_product_suffix(slots: Seq<Seq<u32>>, i: int)
    requires
        0 <= i <= slots.len(),
        forall|q: int| 0 <= q < slots.len() ==> (#[trigger] slots[q]).len() >= 1,
    ensures
        1 <= product_of(slots.skip(i)) <= product_of(slots),
    decreases slots.len() - i,
{
    if i == slots.len() {
        assert(slots.skip(i) =~= Seq::<Seq<u32>>::empty());
        lemma_product_ge_suffixes(slots, i);
    } else {
        lemma_product_suffix(slots, i + 1);
        assert(slots.skip(i).drop_first() =~= slots.skip(i + 1));
        assert(slots.skip(i)[0] == slots[i]);
        let a = slots[i].len() as int;
        let p = product_of(slots.skip(i + 1));
        assert(p <= a * p) by (nonlinear_arith)
            requires
                a >= 1,
                p >= 1,
        ;
        lemma_product_ge_suffixes(slots, i);
    }
}

/// With every series non-empty, the whole product dominates each suffix
/// product.
proof fn lemma_product_ge_suffixes(slots: Seq<Seq<u32>>, i: int)
    requires
        0 <= i <= slots.len(),
        forall|q: int| 0 <= q < slots.len() ==> (#[trigger] slots[q]).len() >= 1,
        product_of(slots.skip(i)) >= 1 || i == slots.len(),
    ensures
        product_of(slots.skip(i)) <= product_of(slots),
        product_of(slots.skip(i)) >= 1,
    decreases i,
{
    if i == slots.len() {
        assert(slots.skip(i) =~= Seq::<Seq<u32>>::empty());
    }
    if i == 0 {
        assert(slots.skip(0) =~= slots);
    } else {
        assert(slots.skip(i - 1).drop_first() =~= slots.skip(i));
        assert(slots.skip(i - 1)[0] == slots[i - 1]);
        let a = slots[i - 1].len() as int;
        let p = product_of(slots.skip(i));
        assert(p <= a * p && a * p >= 1) by (nonlinear_arith)
            requires
                a >= 1,
                p >= 1,
        ;
        lemma_product_ge_suffixes(slots, i - 1);
    }
}

/// A result entry reduced to its mathematical content.
pub open spec fn entry_view(p: (u64, RSet)) -> (u64, Seq<u32>) {
    (p.0, p.1@)
}

/// A sequence of result entries reduced to mathematical content.
pub open spec fn entries_view(v: Seq<(u64, RSet)>) -> Seq<(u64, Seq<u32>)> {
    v.map_values(|p: (u64, RSet)| entry_view(p))
}

/// Quantized errors never decrease along the sequence.
pub open spec fn sorted_by_err(s: Seq<(u64, Seq<u32>)>) -> bool {
    forall|i: int, j: int| 0 <= i < j < s.len() ==> (#[trigger] s[i]).0 <= (#[trigger] s[j]).0
}

/// The entries carrying one given error value, in their original order.
pub open spec fn with_key(s: Seq<(u64, Seq<u32>)>, k: u64) -> Seq<(u64, Seq<u32>)> {
    s.filter(|p: (u64, Seq<u32>)| p.0 == k)
}

/// Appending one entry extends its own error value's subsequence and no
/// other.
proof fn lemma_with_key_push(s: Seq<(u64, Seq<u32>)>, p: (u64, Seq<u32>), k: u64)
    ensures
        with_key(s.push(p), k) == (if p.0 == k {
            with_key(s, k).push(p)
        } else {
            with_key(s, k)
        }),
{
    reveal(Seq::filter);
    assert(s.push(p).drop_last() =~= s);
    assert(s.push(p).last() == p);
}

/// A sequence without the error value filters to nothing.
proof fn lemma_with_key_absent(s: Seq<(u64, Seq<u32>)>, k: u64)
    requires
        forall|i: int| 0 <= i < s.len() ==> (#[trigger] s[i]).0 != k,
    ensures
        with_key(s, k) == Seq::<(u64, Seq<u32>)>::empty(),
    decreases s.len(),
{
    reveal(Seq::filter);
    if s.len() == 0 {
        assert(with_key(s, k) =~= Seq::<(u64, Seq<u32>)>::empty());
    } else {
        assert forall|i: int| 0 <= i < s.drop_last().len() implies (#[trigger] s.drop_last()[i]).0
            != k by {
            assert(s.drop_last()[i] == s[i]);
        }
        lemma_with_key_absent(s.drop_last(), k);
        assert(s.last().0 != k);
    }
}

/// `with_key` distributes over concatenation.
proof fn lemma_with_key_concat(a: Seq<(u64, Seq<u32>)>, b: Seq<(u64, Seq<u32>)>, k: u64)
    ensures
        with_key(a + b, k) == with_key(a, k) + with_key(b, k),
    decreases b.len(),
{
    reveal(Seq::filter);
    if b.len() == 0 {
        assert(a + b =~= a);
        assert(with_key(b, k) =~= Seq::<(u64, Seq<u32>)>::empty());
        assert(with_key(a, k) + with_key(b, k) =~= with_key(a, k));
    } else {
        lemma_with_key_concat(a, b.drop_last(), k);
        assert((a + b).drop_last() =~= a + b.drop_last());
        assert((a + b).last() == b.last());
        if b.last().0 == k {
            assert((with_key(a, k) + with_key(b.drop_last(), k)).push(b.last()) =~= with_key(a, k)
                + with_key(b.drop_last(), k).push(b.last()));
        }
    }
}

/// A non-empty error subsequence comes from some entry of the sequence.
proof fn lemma_with_key_member(s: Seq<(u64, Seq<u32>)>, k: u64)
    requires
        with_key(s, k).len() > 0,
    ensures
        exists|j: int| 0 <= j < s.len() && (#[trigger] s[j]).0 == k,
    decreases s.len(),
{
    reveal(Seq::filter);
    if s.len() == 0 {
    } else if s.last().0 == k {
        assert(s[s.len() - 1].0 == k);
    } else {
        lemma_with_key_member(s.drop_last(), k);
        let j = choose|j: int| 0 <= j < s.drop_last().len() && (#[trigger] s.drop_last()[j]).0 == k;
        assert(s[j].0 == k);
    }
}

/// A ranking is pinned: a sequence sorted ascending by error whose
/// subsequence at every error value is given is unique. Together with
/// `calc`'s contract this makes rankings reproducible: two searches over
/// the same slots with the same scorer return identical entry sequences,
/// run to run.
pub proof fn lemma_ranking_pinned(a: Seq<(u64, Seq<u32>)>, b: Seq<(u64, Seq<u32>)>)
    requires
        sorted_by_err(a),
        sorted_by_err(b),
        forall|k: u64| #[trigger] with_key(a, k) == with_key(b, k),
    ensures
        a == b,
    decreases a.len() + b.len(),
{
    reveal(Seq::filter);
    if a.len() == 0 && b.len() == 0 {
        assert(a =~= b);
    } else if a.len() == 0 {
        let k0 = b.last().0;
        assert(with_key(b, k0).len() > 0);
        lemma_with_key_absent(a, k0);
        assert(false);
    } else if b.len() == 0 {
        let k0 = a.last().0;
        assert(with_key(a, k0).len() > 0);
        lemma_with_key_absent(b, k0);
        assert(false);
    } else {
        let ka = a.last().0;
        let kb = b.last().0;
        assert(with_key(a, ka) == with_key(a.drop_last(), ka).push(a.last()));
        assert(with_key(b, kb) == with_key(b.drop_last(), kb).push(b.last()));
        assert(with_key(b, ka).len() > 0);
        lemma_with_key_member(b, ka);
        let jb = choose|j: int| 0 <= j < b.len() && (#[trigger] b[j]).0 == ka;
        assert(ka <= kb) by {
            if jb < b.len() - 1 {
                assert(b[jb].0 <= b[b.len() - 1].0);
            }
        }
        assert(with_key(a, kb).len() > 0);
        lemma_with_key_member(a, kb);
        let ja = choose|j: int| 0 <= j < a.len() && (#[trigger] a[j]).0 == kb;
        assert(kb <= ka) by {
            if ja < a.len() - 1 {
                assert(a[ja].0 <= a[a.len() - 1].0);
            }
        }
        assert(ka == kb);
        assert(a.last() == b.last()) by {
            assert(with_key(a, ka).last() == a.last());
            assert(with_key(b, ka).last() == b.last());
        }
        assert forall|k: u64| #[trigger] with_key(a.drop_last(), k) == with_key(
            b.drop_last(),
            k,
        ) by {
            if k == ka {
                let xa = with_key(a.drop_last(), k);
                let xb = with_key(b.drop_last(), k);
                assert(xa.push(a.last()) == xb.push(b.last()));
                assert(xa.len() == xb.len());
                assert forall|i: int| 0 <= i < xa.len() implies xa[i] == xb[i] by {
                    assert(xa.push(a.last())[i] == xa[i]);
                    assert(xb.push(b.last())[i] == xb[i]);
                }
                assert(xa =~= xb);
            } else {
                assert(with_key(a, k) == with_key(a.drop_last(), k));
                assert(with_key(b, k) == with_key(b.drop_last(), k));
            }
        }
        assert(sorted_by_err(a.drop_last())) by {
            assert forall|i: int, j: int| 0 <= i < j < a.drop_last().len() implies (
            #[trigger] a.drop_last()[i]).0 <= (#[trigger] a.drop_last()[j]).0 by {
                assert(a.drop_last()[i] == a[i] && a.drop_last()[j] == a[j]);
            }
        }
        assert(sorted_by_err(b.drop_last())) by {
            assert forall|i: int, j: int| 0 <= i < j < b.drop_last().len() implies (
            #[trigger] b.drop_last()[i]).0 <= (#[trigger] b.drop_last()[j]).0 by {
                assert(b.drop_last()[i] == b[i] && b.drop_last()[j] == b[j]);
            }
        }
        lemma_ranking_pinned(a.drop_last(), b.drop_last());
        assert(a.len() == b.len());
        assert forall|i: int| 0 <= i < a.len() implies a[i] == b[i] by {
            if i < a.len() - 1 {
                assert(a.drop_last()[i] == a[i]);
                assert(b.drop_last()[i] == b[i]);
            }
        }
        assert(a =~= b);
    }
}

/// The accepted candidates among `cands`, in order, each paired with its
/// score.
pub open spec fn accepted<F: Scorer>(f: &F, cands: Seq<Seq<u32>>) -> Seq<(u64, Seq<u32>)>
    decreases cands.len(),
{
    if cands.len() == 0 {
        Seq::<(u64, Seq<u32>)>::empty()
    } else {
        let rest = accepted(f, cands.drop_first());
        match f.spec_score(cands[0]) {
            Some(e) => seq![(e, cands[0])] + rest,
            None => rest,
        }
    }
}

/// Each candidate of `cands` extended on the left by a fixed prefix.
pub open spec fn with_prefix(prefix: Seq<u32>, cands: Seq<Seq<u32>>) -> Seq<Seq<u32>> {
    cands.map_values(|t: Seq<u32>| prefix + t)
}

/// Acceptance distributes over splitting the candidate list.
proof fn lemma_accepted_concat<F: Scorer>(f: &F, a: Seq<Seq<u32>>, b: Seq<Seq<u32>>)
    ensures
        accepted(f, a + b) == accepted(f, a) + accepted(f, b),
    decreases a.len(),
{
    if a.len() == 0 {
        assert(a + b =~= b);
        assert(accepted(f, a) + accepted(f, b) =~= accepted(f, b));
    } else {
        assert((a + b).drop_first() =~= a.drop_first() + b);
        assert((a + b)[0] == a[0]);
        lemma_accepted_concat(f, a.drop_first(), b);
        match f.spec_score(a[0]) {
            Some(e) => {
                assert(seq![(e, a[0])] + (accepted(f, a.drop_first()) + accepted(f, b)) =~= (
                seq![(e, a[0])] + accepted(f, a.drop_first())) + accepted(f, b));
            },
            None => {},
        }
    }
}

/// Copies a candidate's values.
fn copy_vals(v: &Vec<u32>) -> (r: Vec<u32>)
    ensures
        r@ == v@,
{
    let mut r: Vec<u32> = Vec::new();
    let mut i: usize = 0;
    while i < v.len()
        invariant
            i <= v@.len(),
            r@ =~= v@.take(i as int),
        decreases v@.len() - i,
    {
        r.push(v[i]);
        proof {
            assert(r@ =~= v@.take(i + 1));
        }
        i = i + 1;
    }
    proof {
        assert(v@.take(v@.len() as int) =~= v@);
    }
    r
}

/// Walks every completion of the current prefix across the slots from `k`
/// on, scoring each finished candidate and collecting the accepted ones.
fn enumerate<F: Scorer>(slots: &Vec<RSeries>, k: usize, cur: &mut Vec<u32>, f: &F, out: &mut Vec<
    (u64, RSet),
>)
    requires
        k <= slots@.len(),
    ensures
        final(cur)@ == old(cur)@,
        entries_view(final(out)@) == entries_view(old(out)@) + accepted(
            f,
            with_prefix(old(cur)@, cross(views(slots@).skip(k as int))),
        ),
    decreases slots@.len() - k,
{
    let nslots = slots.len();
    if k == nslots {
        let vals = copy_vals(cur);
        let rs = RSet::from_values(vals);
        let ghost rsv = rs@;
        let sc = f.score(&rs);
        proof {
            assert(rsv == cur@);
            assert(sc == f.spec_score(cur@));
            assert(views(slots@).skip(k as int) =~= Seq::<Seq<u32>>::empty());
            let single = cross(views(slots@).skip(k as int));
            assert(single =~= seq![Seq::<u32>::empty()]);
            assert(cur@ + Seq::<u32>::empty() =~= cur@);
            assert(with_prefix(cur@, single) =~= seq![cur@]);
            assert(seq![cur@].drop_first() =~= Seq::<Seq<u32>>::empty());
            assert(accepted(f, seq![cur@].drop_first()) =~= Seq::<(u64, Seq<u32>)>::empty());
            assert(seq![cur@][0] == cur@);
        }
        match sc {
            Some(e) => {
                proof {
                    assert(accepted(f, seq![cur@]) == seq![(e, cur@)] + accepted(
                        f,
                        seq![cur@].drop_first(),
                    ));
                    assert(accepted(f, seq![cur@]) =~= seq![(e, cur@)]);
                }
                out.push((e, rs));
                proof {
                    assert(entries_view(out@) =~= entries_view(old(out)@).push((e, rsv)));
                    assert(entries_view(old(out)@) + seq![(e, cur@)] =~= entries_view(
                        old(out)@,
                    ).push((e, cur@)));
                }
            },
            None => {
                proof {
                    assert(accepted(f, seq![cur@]) =~= Seq::<(u64, Seq<u32>)>::empty());
                    assert(entries_view(old(out)@) + accepted(f, seq![cur@]) =~= entries_view(
                        old(out)@,
                    ));
                }
            },
        }
        return ;
    }
    let n = slots[k].len();
    let ghost pre0 = cur@;
    let ghost out0 = out@;
    let ghost cr = cross(views(slots@).skip(k as int));
    let ghost rest = cross(views(slots@).skip(k as int + 1));
    let ghost rl = rest.len() as int;
    proof {
        assert(views(slots@).skip(k as int).drop_first() =~= views(slots@).skip(k as int + 1));
        assert(views(slots@).skip(k as int)[0] == views(slots@)[k as int]);
        assert(views(slots@)[k as int] == slots@[k as int]@);
    }
    let mut idx: usize = 0;
    while idx < n
        invariant
            nslots == slots@.len(),
            k < nslots,
            n == slots@[k as int]@.len(),
            idx <= n,
            cur@ == pre0,
            cr == cross(views(slots@).skip(k as int)),
            rest == cross(views(slots@).skip(k as int + 1)),
            rl == rest.len() as int,
            cr == (if rest.len() == 0 {
                Seq::<Seq<u32>>::empty()
            } else {
                Seq::new(
                    (n * rest.len()) as nat,
                    |i: int| seq![slots@[k as int]@[i / rl]] + rest[i % rl],
                )
            }),
            entries_view(out@) == entries_view(out0) + accepted(
                f,
                with_prefix(pre0, cr.take(idx * rl)),
            ),
        decreases n - idx,
    {
        let v = slots[k].value_at(idx);
        cur.push(v);
        enumerate(slots, k + 1, cur, f, out);
        let ghost mid = cur@;
        let _ = cur.pop();
        proof {
            assert(mid == pre0.push(v));
            assert(mid.drop_last() =~= pre0);
            assert(cur@ == pre0);
            if rl == 0 {
                assert(rest =~= Seq::<Seq<u32>>::empty());
                assert(with_prefix(mid, rest) =~= Seq::<Seq<u32>>::empty());
                assert(accepted(f, with_prefix(mid, rest)) =~= Seq::<(u64, Seq<u32>)>::empty());
                assert(entries_view(out@) =~= entries_view(out0) + accepted(
                    f,
                    with_prefix(pre0, cr.take((idx + 1) * 0)),
                ));
            } else {
                assert((idx + 1) * rl <= n * rl && idx * rl + rl == (idx + 1) * rl && 0 <= idx * rl)
                    by (nonlinear_arith)
                    requires
                        0 <= idx < n,
                        rl >= 1,
                ;
                let seg = cr.subrange(idx * rl, (idx + 1) * rl);
                assert(cr.take((idx + 1) * rl) =~= cr.take(idx * rl) + seg);
                assert forall|m: int| 0 <= m < rl implies with_prefix(pre0, seg)[m]
                    == with_prefix(mid, rest)[m] by {
                    assert((idx * rl + m) / rl == idx && (idx * rl + m) % rl == m)
                        by (nonlinear_arith)
                        requires
                            0 <= m < rl,
                            0 <= idx,
                            rl >= 1,
                    ;
                    assert(seg[m] == cr[idx * rl + m]);
                    assert(seg[m] == seq![slots@[k as int]@[idx as int]] + rest[m]);
                    assert(v == slots@[k as int]@[idx as int]);
                    assert(pre0 + (seq![v] + rest[m]) =~= (pre0.push(v)) + rest[m]);
                    assert(with_prefix(pre0, seg)[m] == pre0 + seg[m]);
                    assert(with_prefix(mid, rest)[m] == mid + rest[m]);
                }
                assert(with_prefix(pre0, seg) =~= with_prefix(mid, rest));
                assert(with_prefix(pre0, cr.take(idx * rl) + seg) =~= with_prefix(
                    pre0,
                    cr.take(idx * rl),
                ) + with_prefix(pre0, seg));
                lemma_accepted_concat(f, with_prefix(pre0, cr.take(idx * rl)), with_prefix(
                    pre0,
                    seg,
                ));
                assert(with_prefix(pre0, seg) =~= with_prefix(mid, rest));
                assert(entries_view(out@) =~= (entries_view(out0) + accepted(
                    f,
                    with_prefix(pre0, cr.take(idx * rl)),
                )) + accepted(f, with_prefix(mid, rest)));
                assert(entries_view(out@) =~= entries_view(out0) + (accepted(
                    f,
                    with_prefix(pre0, cr.take(idx * rl)),
                ) + accepted(f, with_prefix(pre0, seg))));
                assert(entries_view(out@) =~= entries_view(out0) + accepted(
                    f,
                    with_prefix(pre0, cr.take((idx + 1) * rl)),
                ));
            }
        }
        idx = idx + 1;
    }
    proof {
        if rl == 0 {
            assert(cr.take(n * rl) =~= cr);
        } else {
            assert(n * rl == cr.len()) ;
            assert(cr.take(n * rl) =~= cr);
        }
    }
}

/// Sorts result entries ascending by quantized error, stably: the set of
/// entries is kept exactly, and entries of equal error keep their
/// relative input order (each error value's subsequence is unchanged).
fn sort_entries(v: Vec<(u64, RSet)>) -> (r: Vec<(u64, RSet)>)
    ensures
        entries_view(r@).to_multiset() == entries_view(v@).to_multiset(),
        sorted_by_err(entries_view(r@)),
        forall|k: u64| #[trigger] with_key(entries_view(r@), k) == with_key(entries_view(v@), k),
{
    let ghost origv = v@;
    let mut src = v;
    let mut out: Vec<(u64, RSet)> = Vec::new();
    proof {
        assert(entries_view(out@).to_multiset().add(entries_view(src@).to_multiset())
            =~= entries_view(origv).to_multiset());
        assert forall|k: u64|
            #[trigger] with_key(entries_view(out@), k) + with_key(entries_view(src@), k)
                == with_key(entries_view(origv), k) by {
            lemma_with_key_absent(entries_view(out@), k);
            assert(Seq::<(u64, Seq<u32>)>::empty() + with_key(entries_view(src@), k)
                =~= with_key(entries_view(src@), k));
        }
    }
    while src.len() > 0
        invariant
            entries_view(out@).to_multiset().add(entries_view(src@).to_multiset())
                == entries_view(origv).to_multiset(),
            sorted_by_err(entries_view(out@)),
            forall|a: int, b: int|
                0 <= a < out@.len() && 0 <= b < src@.len() ==> (#[trigger] entries_view(out@)[a]).0
                    <= (#[trigger] entries_view(src@)[b]).0,
            forall|k: u64|
                #[trigger] with_key(entries_view(out@), k) + with_key(entries_view(src@), k)
                    == with_key(entries_view(origv), k),
        decreases src@.len(),
    {
        let mut mi: usize = 0;
        let mut mk: u64 = src[0].0;
        let mut t: usize = 1;
        while t < src.len()
            invariant
                0 < src@.len(),
                mi < src@.len(),
                t <= src@.len(),
                mk == src@[mi as int].0,
                forall|q: int| 0 <= q < t ==> mk <= (#[trigger] src@[q]).0,
                forall|q: int| 0 <= q < mi ==> mk < (#[trigger] src@[q]).0,
            decreases src@.len() - t,
        {
            if src[t].0 < mk {
                mi = t;
                mk = src[t].0;
            }
            t = t + 1;
        }
        let ghost srcpre = src@;
        let ghost outpre = out@;
        let e = src.remove(mi);
        out.push(e);
        proof {
            assert(e == srcpre[mi as int]);
            assert(entries_view(src@) =~= entries_view(srcpre).remove(mi as int));
            assert(entries_view(out@) =~= entries_view(outpre).push(entry_view(e)));
            let ms = entries_view(srcpre).to_multiset();
            let x = entries_view(srcpre)[mi as int];
            assert(entries_view(srcpre).remove(mi as int).to_multiset() =~= ms.remove(x));
            assert(entries_view(outpre).push(entry_view(e)).to_multiset() =~= entries_view(
                outpre,
            ).to_multiset().insert(entry_view(e)));
            assert(entry_view(e) == x);
            assert(ms.count(x) >= 1) by {
                assert(entries_view(srcpre)[mi as int] == x);
                assert(entries_view(srcpre).contains(x));
            }
            assert(entries_view(outpre).to_multiset().insert(x).add(ms.remove(x))
                =~= entries_view(outpre).to_multiset().add(ms));
            assert forall|a: int, b: int|
                0 <= a < out@.len() && 0 <= b < src@.len() implies (#[trigger] entries_view(
                out@,
            )[a]).0 <= (#[trigger] entries_view(src@)[b]).0 by {
                if b < mi {
                    assert(entries_view(src@)[b] == entries_view(srcpre)[b]);
                } else {
                    assert(entries_view(src@)[b] == entries_view(srcpre)[b + 1]);
                }
                if a < outpre.len() {
                    assert(entries_view(out@)[a] == entries_view(outpre)[a]);
                } else {
                    assert(entries_view(out@)[a] == entry_view(e));
                }
            }
            let evpre = entries_view(srcpre);
            let evnew = entries_view(src@);
            let take_part = evpre.take(mi as int);
            let skip_part = evpre.skip(mi + 1);
            assert(evpre =~= take_part + (seq![x] + skip_part));
            assert(evnew =~= take_part + skip_part);
            assert(x.0 == mk);
            assert forall|q: int| 0 <= q < take_part.len() implies (#[trigger] take_part[q]).0
                != x.0 by {
                assert(take_part[q] == evpre[q]);
                assert(evpre[q] == entry_view(srcpre[q]));
                assert(srcpre[q].0 > mk);
            }
            assert(entries_view(out@) == entries_view(outpre).push(x));
            assert forall|k: u64|
                #[trigger] with_key(entries_view(out@), k) + with_key(evnew, k) == with_key(
                entries_view(origv),
                k,
            ) by {
                lemma_with_key_concat(take_part, seq![x] + skip_part, k);
                lemma_with_key_concat(seq![x], skip_part, k);
                lemma_with_key_concat(take_part, skip_part, k);
                lemma_with_key_push(entries_view(outpre), x, k);
                lemma_with_key_absent(Seq::<(u64, Seq<u32>)>::empty(), k);
                lemma_with_key_push(Seq::<(u64, Seq<u32>)>::empty(), x, k);
                assert(Seq::<(u64, Seq<u32>)>::empty().push(x) =~= seq![x]);
                assert(with_key(entries_view(outpre), k) + with_key(evpre, k) == with_key(
                    entries_view(origv),
                    k,
                ));
                if k == x.0 {
                    lemma_with_key_absent(take_part, k);
                    assert(with_key(seq![x], k) =~= seq![x]);
                    assert(with_key(evpre, k) =~= seq![x] + with_key(skip_part, k));
                    assert(with_key(evnew, k) =~= with_key(skip_part, k));
                    assert(with_key(entries_view(out@), k) + with_key(evnew, k)
                        =~= with_key(entries_view(outpre), k).push(x) + with_key(skip_part, k));
                    assert(with_key(entries_view(outpre), k).push(x) + with_key(skip_part, k)
                        =~= with_key(entries_view(outpre), k) + (seq![x] + with_key(
                        skip_part,
                        k,
                    )));
                } else {
                    assert(with_key(seq![x], k) =~= Seq::<(u64, Seq<u32>)>::empty());
                    assert(with_key(evpre, k) =~= with_key(take_part, k) + with_key(skip_part, k));
                    assert(with_key(evnew, k) =~= with_key(take_part, k) + with_key(skip_part, k));
                    assert(with_key(entries_view(out@), k) == with_key(entries_view(outpre), k));
                }
            }
        }
    }
    proof {
        assert(entries_view(src@) =~= Seq::<(u64, Seq<u32>)>::empty());
        assert(entries_view(src@).to_multiset() =~= Multiset::<(u64, Seq<u32>)>::empty());
        assert(entries_view(out@).to_multiset().add(Multiset::<(u64, Seq<u32>)>::empty())
            =~= entries_view(out@).to_multiset());
        assert forall|k: u64|
            #[trigger] with_key(entries_view(out@), k) == with_key(entries_view(origv), k) by {
            lemma_with_key_absent(entries_view(src@), k);
            assert(with_key(entries_view(out@), k) + with_key(entries_view(src@), k) == with_key(
                entries_view(origv),
                k,
            ));
            assert(with_key(entries_view(out@), k) + Seq::<(u64, Seq<u32>)>::empty() =~= with_key(
                entries_view(out@),
                k,
            ));
        }
    }
    out
}

/// Stores the result of a calculation: the accepted candidates, each with
/// its quantized error in parts per billion, sorted ascending by error.
#[derive(Debug)]
pub struct RRes {
    res: Vec<(u64, RSet)>,
}

impl View for RRes {
    type V = Seq<(u64, Seq<u32>)>;

    closed spec fn view(&self) -> Seq<(u64, Seq<u32>)> {
        entries_view(self.res@)
    }
}

impl RRes {
    #[verifier::type_invariant]
    spec fn inv(&self) -> bool {
        self.res@.len() > 0 && sorted_by_err(entries_view(self.res@))
    }

    /// The entries, from lowest to highest error value. Each entry pairs
    /// the error in integer parts per billion with its value set; a result
    /// set built by `calc` keeps combinations of equal error in their
    /// enumeration order.
    pub fn iter(&self) -> (r: &Vec<(u64, RSet)>)
        ensures
            entries_view(r@) == self@,
            sorted_by_err(self@),
            self@.len() > 0,
    {
        proof {
            use_type_invariant(self);
        }
        &self.res
    }

    /// Number of entries; a result set is never empty.
    pub fn len(&self) -> (n: usize)
        ensures
            n == self@.len(),
            n > 0,
    {
        proof {
            use_type_invariant(self);
        }
        self.res.len()
    }

    /// How many leading entries share the lowest error: the best matches
    /// are exactly the first `best_count()` entries.
    pub fn best_count(&self) -> (n: usize)
        ensures
            1 <= n <= self@.len(),
            forall|i: int| 0 <= i < n ==> (#[trigger] self@[i]).0 == self@[0].0,
            n < self@.len() ==> self@[n as int].0 != self@[0].0,
    {
        proof {
            use_type_invariant(self);
        }
        let best = self.res[0].0;
        let mut n: usize = 1;
        while n < self.res.len() && self.res[n].0 == best
            invariant
                1 <= n <= self.res@.len(),
                best == self.res@[0].0,
                forall|i: int| 0 <= i < n ==> (#[trigger] self.res@[i]).0 == best,
            decreases self.res@.len() - n,
        {
            n = n + 1;
        }
        proof {
            assert forall|i: int| 0 <= i < n implies (#[trigger] self@[i]).0 == self@[0].0 by {
                assert(self@[i] == entry_view(self.res@[i]));
            }
        }
        n
    }
}

/// Main calculator struct: one value series per resistor slot.
#[derive(Debug)]
pub struct RCalc {
    rs: Vec<RSeries>,
}

impl View for RCalc {
    type V = Seq<Seq<u32>>;

    closed spec fn view(&self) -> Seq<Seq<u32>> {
        views(self.rs@)
    }
}

impl RCalc {
    /// Creates a new calculator with the series used for the R values
    /// provided as a vec, one per slot.
    pub fn new(rs: Vec<RSeries>) -> (r: RCalc)
        ensures
            r@ == views(rs@),
    {
        RCalc { rs }
    }

    /// Creates a new calculator with `count` resistors drawn from the E3
    /// series.
    pub fn e3(count: usize) -> (r: RCalc)
        ensures
            r@.len() == count,
            forall|i: int| 0 <= i < count ==> is_e3(#[trigger] r@[i]),
    {
        let mut rs: Vec<RSeries> = Vec::new();
        let mut i: usize = 0;
        while i < count
            invariant
                i <= count,
                rs@.len() == i,
                forall|q: int| 0 <= q < i ==> is_e3(#[trigger] views(rs@)[q]),
            decreases count - i,
        {
            let ghost prev = rs@;
            rs.push(RSeries::e3());
            proof {
                assert forall|q: int| 0 <= q < i + 1 implies is_e3(#[trigger] views(rs@)[q]) by {
                    assert(views(rs@)[q] == rs@[q]@);
                    if q < i {
                        assert(rs@[q] == prev[q]);
                        assert(views(prev)[q] == prev[q]@);
                    }
                }
            }
            i = i + 1;
        }
        RCalc { rs }
    }

    /// Creates a new calculator with `count` resistors drawn from the E6
    /// series.
    pub fn e6(count: usize) -> (r: RCalc)
        ensures
            r@.len() == count,
            forall|i: int| 0 <= i < count ==> is_e6(#[trigger] r@[i]),
    {
        let mut rs: Vec<RSeries> = Vec::new();
        let mut i: usize = 0;
        while i < count
            invariant
                i <= count,
                rs@.len() == i,
                forall|q: int| 0 <= q < i ==> is_e6(#[trigger] views(rs@)[q]),
            decreases count - i,
        {
            let ghost prev = rs@;
            rs.push(RSeries::e6());
            proof {
                assert forall|q: int| 0 <= q < i + 1 implies is_e6(#[trigger] views(rs@)[q]) by {
                    assert(views(rs@)[q] == rs@[q]@);
                    if q < i {
                        assert(rs@[q] == prev[q]);
                        assert(views(prev)[q] == prev[q]@);
                    }
                }
            }
            i = i + 1;
        }
        RCalc { rs }
    }

    /// Creates a new calculator with `count` resistors drawn from the E12
    /// series.
    pub fn e12(count: usize) -> (r: RCalc)
        ensures
            r@.len() == count,
            forall|i: int| 0 <= i < count ==> is_e12(#[trigger] r@[i]),
    {
        let mut rs: Vec<RSeries> = Vec::new();
        let mut i: usize = 0;
        while i < count
            invariant
                i <= count,
                rs@.len() == i,
                forall|q: int| 0 <= q < i ==> is_e12(#[trigger] views(rs@)[q]),
            decreases count - i,
        {
            let ghost prev = rs@;
            rs.push(RSeries::e12());
            proof {
                assert forall|q: int| 0 <= q < i + 1 implies is_e12(#[trigger] views(rs@)[q]) by {
                    assert(views(rs@)[q] == rs@[q]@);
                    if q < i {
                        assert(rs@[q] == prev[q]);
                        assert(views(prev)[q] == prev[q]@);
                    }
                }
            }
            i = i + 1;
        }
        RCalc { rs }
    }

    /// Creates a new calculator with `count` resistors drawn from the E24
    /// series.
    pub fn e24(count: usize) -> (r: RCalc)
        ensures
            r@.len() == count,
            forall|i: int| 0 <= i < count ==> is_e24(#[trigger] r@[i]),
    {
        let mut rs: Vec<RSeries> = Vec::new();
        let mut i: usize = 0;
        while i < count
            invariant
                i <= count,
                rs@.len() == i,
                forall|q: int| 0 <= q < i ==> is_e24(#[trigger] views(rs@)[q]),
            decreases count - i,
        {
            let ghost prev = rs@;
            rs.push(RSeries::e24());
            proof {
                assert forall|q: int| 0 <= q < i + 1 implies is_e24(#[trigger] views(rs@)[q]) by {
                    assert(views(rs@)[q] == rs@[q]@);
                    if q < i {
                        assert(rs@[q] == prev[q]);
                        assert(views(prev)[q] == prev[q]@);
                    }
                }
            }
            i = i + 1;
        }
        RCalc { rs }
    }

    /// Returns the number of combinations of values that exist for the
    /// configured resistors and series. This maps fairly directly to the
    /// time a calculation takes.
    pub fn combinations(&self) -> (n: u128)
        requires
            product_of(self@) <= u128::MAX,
        ensures
            n == product_of(self@),
    {
        let len = self.rs.len();
        let mut i: usize = 0;
        while i < len
            invariant
                len == self.rs@.len(),
                i <= len,
                forall|q: int| 0 <= q < i ==> (#[trigger] self@[q]).len() >= 1,
            decreases len - i,
        {
            proof {
                assert(self@[i as int] == self.rs@[i as int]@);
            }
            if self.rs[i].len() == 0 {
                proof {
                    lemma_product_zero(self@, i as int);
                }
                return 0;
            }
            i = i + 1;
        }
        let mut acc: u128 = 1;
        let mut j: usize = len;
        proof {
            assert(self@.skip(len as int) =~= Seq::<Seq<u32>>::empty());
        }
        while j > 0
            invariant
                len == self.rs@.len(),
                j <= len,
                forall|q: int| 0 <= q < len ==> (#[trigger] self@[q]).len() >= 1,
                product_of(self@) <= u128::MAX,
                acc == product_of(self@.skip(j as int)),
            decreases j,
        {
            proof {
                assert(self@[j - 1] == self.rs@[j - 1]@);
                assert(self@.skip(j - 1).drop_first() =~= self@.skip(j as int));
                assert(self@.skip(j - 1)[0] == self@[j - 1]);
                lemma_product_suffix(self@, j - 1);
                lemma_product_suffix(self@, j as int);
            }
            let l = self.rs[j - 1].len();
            acc = (l as u128) * acc;
            j = j - 1;
        }
        proof {
            assert(self@.skip(0) =~= self@);
        }
        acc
    }

    /// Given a scorer `f` that maps a set of input resistor values to
    /// nothing (unsuitable combination) or to a quantized error (suitable,
    /// with the error saying how far from perfect the combination is),
    /// enumerates every combination of the configured series, scores each,
    /// and returns the accepted ones sorted ascending by error; entries of
    /// equal error keep their enumeration order, so the ranking is the
    /// stable sort of the accepted candidates and is reproducible from the
    /// slots and the scorer alone (`lemma_ranking_pinned`). Returns
    /// nothing when no combination is accepted. `f` is often supplied with
    /// the use of the `ROpBuilder` struct.
    pub fn calc<F: Scorer>(&self, f: &F) -> (r: Option<RRes>)
        ensures
            (match r {
                Some(res) => {
                    &&& accepted(f, cross(self@)).len() > 0
                    &&& res@.len() == accepted(f, cross(self@)).len()
                    &&& res@.to_multiset() == accepted(f, cross(self@)).to_multiset()
                    &&& sorted_by_err(res@)
                    &&& forall|k: u64|
                        #[trigger] with_key(res@, k) == with_key(accepted(f, cross(self@)), k)
                },
                None => accepted(f, cross(self@)).len() == 0,
            }),
    {
        let mut cur: Vec<u32> = Vec::new();
        let mut out: Vec<(u64, RSet)> = Vec::new();
        enumerate(&self.rs, 0, &mut cur, f, &mut out);
        proof {
            assert(views(self.rs@).skip(0) =~= self@);
            let cr = cross(self@);
            assert forall|m: int| 0 <= m < cr.len() implies with_prefix(Seq::<u32>::empty(), cr)[m]
                == cr[m] by {
                assert(Seq::<u32>::empty() + cr[m] =~= cr[m]);
            }
            assert(with_prefix(Seq::<u32>::empty(), cr) =~= cr);
            assert(entries_view(out@) =~= accepted(f, cr));
        }
        if out.len() == 0 {
            proof {
                assert(entries_view(out@) =~= Seq::<(u64, Seq<u32>)>::empty());
            }
            None
        } else {
            let ghost pre_sorted = entries_view(out@);
            let sorted = sort_entries(out);
            proof {
                assert(entries_view(sorted@).to_multiset().len() == pre_sorted.to_multiset().len());
            }
            Some(RRes { res: sorted })
        }
    }
}

} // verus!

