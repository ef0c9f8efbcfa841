//! The disambiguation pass: across all retained entries of all groups — the
//! launcher's list is flat — any two entries sharing a display name each get
//! the shortened parent-directory fragment folded into their text, so the
//! user can tell them apart. Attachment is idempotent and one-way.

use vstd::prelude::*;

use itertools::Itertools;

use crate::file::{attach_spec, lemma_attach_idempotent, EntryModel};
use crate::store::{group_wf, wf_groups, GroupModel, ProgramGroup};

verus! {

/// A flat position: group index and entry index of one retained entry.
pub open spec fn valid_pos(gs: Seq<GroupModel>, p: (usize, usize)) -> bool {
    p.0 < gs.len() && p.1 < gs[p.0 as int].entries.len()
}

/// The entry at a flat position.
pub open spec fn entry_at(gs: Seq<GroupModel>, p: (usize, usize)) -> EntryModel {
    gs[p.0 as int].entries[p.1 as int]
}

/// Whether the entry at `p` shares its display name with another retained
/// entry anywhere, regardless of group.
pub open spec fn collides(gs: Seq<GroupModel>, p: (usize, usize)) -> bool {
    exists|q: (usize, usize)|
        valid_pos(gs, q) && q != p && entry_at(gs, q).filename == entry_at(gs, p).filename
}

/// An index pair, named so quantifiers over pairs have a handle.
pub open spec fn pair_of(a: usize, b: usize) -> (usize, usize) {
    (a, b)
}

/// Strict flat order on positions: by group, then entry index.
pub open spec fn pos_lt(p: (usize, usize), q: (usize, usize)) -> bool {
    p.0 < q.0 || (p.0 == q.0 && p.1 < q.1)
}

/// Strict combination order on listed pairs: by first position, then second.
pub open spec fn pair_lt(
    x: ((usize, usize), (usize, usize)),
    y: ((usize, usize), (usize, usize)),
) -> bool {
    pos_lt(x.0, y.0) || (x.0 == y.0 && pos_lt(x.1, y.1))
}

/// Relies on `itertools::Itertools::tuple_combinations`: all pairs drawn
/// from `0..n`, each in increasing order, every such pair present, and the
/// list itself strictly increasing in pair order — so no pair twice.
#[verifier::external_body]
#[allow(deprecated)]
fn index_pairs(n: usize) -> (r: Vec<(usize, usize)>)
    ensures
        forall|k: int| 0 <= k < r@.len() ==> (#[trigger] r@[k]).0 < r@[k].1 < n,
        forall|a: usize, b: usize|
            a < b < n ==> exists|k: int|
                0 <= k < r@.len() && r@[k] == #[trigger] pair_of(a, b),
        forall|k1: int, k2: int|
            0 <= k1 < k2 < r@.len() ==> (#[trigger] r@[k1]).0 < (#[trigger] r@[k2]).0 || (
            r@[k1].0 == r@[k2].0 && r@[k1].1 < r@[k2].1),
{
    (0..n).tuple_combinations().collect()
}

/// Lists every retained entry's flat position: each listed position is
/// valid, every valid position is listed, and the list is strictly
/// increasing in flat order — so no position repeats.
fn entry_positions(files: &Vec<ProgramGroup>) -> (r: Vec<(usize, usize)>)
    ensures
        forall|k: int| 0 <= k < r@.len() ==> valid_pos(files.deep_view(), #[trigger] r@[k]),
        forall|k1: int, k2: int|
            0 <= k1 < k2 < r@.len() ==> pos_lt(#[trigger] r@[k1], #[trigger] r@[k2]),
        forall|k1: int, k2: int|
            0 <= k1 < k2 < r@.len() ==> #[trigger] r@[k1] != #[trigger] r@[k2],
        forall|p: (usize, usize)| valid_pos(files.deep_view(), p) ==> r@.contains(p),
{
    let ghost gs = files.deep_view();
    let mut out: Vec<(usize, usize)> = Vec::new();
    let ng = files.len();
    let mut g: usize = 0;
    while g < ng
        invariant
            0 <= g <= ng,
            ng == files@.len(),
            gs == files.deep_view(),
            gs.len() == ng,
            forall|k: int| 0 <= k < out@.len() ==> valid_pos(gs, #[trigger] out@[k])
                && out@[k].0 < g,
            forall|k1: int, k2: int|
                0 <= k1 < k2 < out@.len() ==> pos_lt(#[trigger] out@[k1], #[trigger] out@[k2]),
            forall|k1: int, k2: int|
                0 <= k1 < k2 < out@.len() ==> #[trigger] out@[k1] != #[trigger] out@[k2],
            forall|p: (usize, usize)|
                valid_pos(gs, p) && p.0 < g ==> out@.contains(p),
        decreases ng - g,
    {
        let ne = files[g].entries.len();
        proof {
            assert(files@[g as int].deep_view() == gs[g as int]);
            assert(gs[g as int].entries.len() == ne);
        }
        let mut e: usize = 0;
        while e < ne
            invariant
                0 <= e <= ne,
                0 <= g < ng,
                ng == files@.len(),
                gs == files.deep_view(),
                gs.len() == ng,
                gs[g as int].entries.len() == ne,
                forall|k: int| 0 <= k < out@.len() ==> valid_pos(gs, #[trigger] out@[k])
                    && (out@[k].0 < g || (out@[k].0 == g && out@[k].1 < e)),
                forall|k1: int, k2: int|
                    0 <= k1 < k2 < out@.len() ==> pos_lt(#[trigger] out@[k1], #[trigger] out@[k2]),
                forall|k1: int, k2: int|
                    0 <= k1 < k2 < out@.len() ==> #[trigger] out@[k1] != #[trigger] out@[k2],
                forall|p: (usize, usize)|
                    valid_pos(gs, p) && (p.0 < g || (p.0 == g && p.1 < e)) ==> out@.contains(p),
            decreases ne - e,
        {
            let ghost before = out@;
            out.push((g, e));
            proof {
                assert(out@ == before.push((g, e)));
                assert(out@[out@.len() - 1] == (g, e));
                assert(forall|k: int| 0 <= k < before.len() ==> #[trigger] out@[k] == before[k]);
                assert forall|p: (usize, usize)|
                    valid_pos(gs, p) && (p.0 < g || (p.0 == g && p.1 < e + 1)) implies
                    out@.contains(p) by {
                    if p.0 < g || (p.0 == g && p.1 < e) {
                        let k = choose|k: int| 0 <= k < before.len() && before[k] == p;
                        assert(out@[k] == p);
                    } else {
                        assert(p == (g, e));
                        assert(out@[out@.len() - 1] == p);
                    }
                }
            }
            e = e + 1;
        }
        g = g + 1;
    }
    out
}

/// Finds every unordered pair of retained entries whose display names are
/// equal: each listed pair is two valid positions with one display name, the
/// earlier position first; every such pair appears; and the list is strictly
/// increasing in combination order — so each unordered pair is listed
/// exactly once.
pub fn need_path(files: &Vec<ProgramGroup>) -> (r: Vec<((usize, usize), (usize, usize))>)
    ensures
        forall|k: int| 0 <= k < r@.len() ==> {
            let pr = #[trigger] r@[k];
            valid_pos(files.deep_view(), pr.0) && valid_pos(files.deep_view(), pr.1) && pr.0
                != pr.1 && entry_at(files.deep_view(), pr.0).filename == entry_at(
                files.deep_view(),
                pr.1,
            ).filename
        },
        forall|p: (usize, usize), q: (usize, usize)|
            valid_pos(files.deep_view(), p) && valid_pos(files.deep_view(), q) && p != q
                && entry_at(files.deep_view(), p).filename == entry_at(files.deep_view(), q).filename
                ==> exists|k: int|
                0 <= k < r@.len() && (#[trigger] r@[k] == (p, q) || r@[k] == (q, p)),
        forall|k: int| 0 <= k < r@.len() ==> pos_lt((#[trigger] r@[k]).0, r@[k].1),
        forall|k1: int, k2: int|
            0 <= k1 < k2 < r@.len() ==> pair_lt(#[trigger] r@[k1], #[trigger] r@[k2]),
        forall|k1: int, k2: int|
            0 <= k1 < k2 < r@.len() ==> #[trigger] r@[k1] != #[trigger] r@[k2],
{
    let ghost gs = files.deep_view();
    let positions = entry_positions(files);
    let ghost posv = positions@;
    let n = positions.len();
    let pairs = index_pairs(n);
    let np = pairs.len();
    let mut out: Vec<((usize, usize), (usize, usize))> = Vec::new();
    let ghost mut srcs: Seq<int> = Seq::empty();
    let mut k: usize = 0;
    while k < np
        invariant
            0 <= k <= np,
            np == pairs@.len(),
            n == posv.len(),
            positions@ == posv,
            gs == files.deep_view(),
            forall|k1: int| 0 <= k1 < pairs@.len() ==> (#[trigger] pairs@[k1]).0
                < pairs@[k1].1 < n,
            forall|k1: int, k2: int|
                0 <= k1 < k2 < pairs@.len() ==> (#[trigger] pairs@[k1]).0 < (
                #[trigger] pairs@[k2]).0 || (pairs@[k1].0 == pairs@[k2].0 && pairs@[k1].1
                    < pairs@[k2].1),
            forall|k1: int| 0 <= k1 < posv.len() ==> valid_pos(gs, #[trigger] posv[k1]),
            forall|k1: int, k2: int|
                0 <= k1 < k2 < posv.len() ==> pos_lt(#[trigger] posv[k1], #[trigger] posv[k2]),
            forall|j: int| 0 <= j < out@.len() ==> {
                let pr = #[trigger] out@[j];
                valid_pos(gs, pr.0) && valid_pos(gs, pr.1) && pos_lt(pr.0, pr.1) && entry_at(gs,
                    pr.0).filename == entry_at(gs, pr.1).filename
            },
            forall|j1: int, j2: int|
                0 <= j1 < j2 < out@.len() ==> pair_lt(#[trigger] out@[j1], #[trigger] out@[j2]),
            forall|k1: int|
                0 <= k1 < k && entry_at(gs, posv[(#[trigger] pairs@[k1]).0 as int]).filename
                    == entry_at(gs, posv[pairs@[k1].1 as int]).filename ==> out@.contains(
                    (posv[pairs@[k1].0 as int], posv[pairs@[k1].1 as int]),
                ),
            srcs.len() == out@.len(),
            forall|j: int| 0 <= j < srcs.len() ==> 0 <= #[trigger] srcs[j] < k,
            forall|j: int|
                0 <= j < srcs.len() ==> out@[j] == (
                posv[pairs@[#[trigger] srcs[j]].0 as int],
                posv[pairs@[srcs[j]].1 as int],
                ),
            forall|j1: int, j2: int|
                0 <= j1 < j2 < out@.len() ==> #[trigger] out@[j1] != #[trigger] out@[j2],
        decreases np - k,
    {
        let pr = pairs[k];
        let a = positions[pr.0];
        let b = positions[pr.1];
        assert(a == posv[pr.0 as int] && b == posv[pr.1 as int]);
        assert(valid_pos(gs, a) && valid_pos(gs, b));
        let ea = &files[a.0].entries[a.1];
        let eb = &files[b.0].entries[b.1];
        proof {
            assert(files@[a.0 as int].deep_view() == gs[a.0 as int]);
            assert(files@[b.0 as int].deep_view() == gs[b.0 as int]);
            assert(ea.deep_view() == entry_at(gs, a));
            assert(eb.deep_view() == entry_at(gs, b));
        }
        let ghost before = out@;
        if ea.filename.eq(&eb.filename) {
            proof {
                // every earlier listing is the image of an earlier source
                // pair, which precedes this one in combination order
                assert forall|j: int| 0 <= j < before.len() implies pair_lt(
                    #[trigger] before[j],
                    (a, b),
                ) by {
                    let s = srcs[j];
                    assert(0 <= s < k);
                    assert(before[j] == (posv[pairs@[s].0 as int], posv[pairs@[s].1 as int]));
                    assert(pairs@[s].0 < pr.0 || (pairs@[s].0 == pr.0 && pairs@[s].1 < pr.1));
                    if pairs@[s].0 < pr.0 {
                        assert(pos_lt(posv[pairs@[s].0 as int], posv[pr.0 as int]));
                    } else {
                        assert(pos_lt(posv[pairs@[s].1 as int], posv[pr.1 as int]));
                    }
                }
            }
            out.push((a, b));
            proof {
                srcs = srcs.push(k as int);
                assert(forall|j: int| 0 <= j < before.len() ==> #[trigger] out@[j] == before[j]);
                assert(out@[out@.len() - 1] == (a, b));
                assert(pos_lt(a, b)) by {
                    assert(pos_lt(posv[pr.0 as int], posv[pr.1 as int]));
                }
                assert forall|j1: int, j2: int|
                    0 <= j1 < j2 < out@.len() implies pair_lt(
                    #[trigger] out@[j1],
                    #[trigger] out@[j2],
                ) by {
                    if j2 == out@.len() - 1 {
                        assert(out@[j1] == before[j1]);
                        assert(pair_lt(before[j1], (a, b)));
                    }
                }
                assert forall|j1: int, j2: int|
                    0 <= j1 < j2 < out@.len() implies #[trigger] out@[j1] != #[trigger] out@[j2] by {
                    assert(pair_lt(out@[j1], out@[j2]));
                }
                assert forall|j: int|
                    0 <= j < srcs.len() implies out@[j] == (
                    posv[pairs@[#[trigger] srcs[j]].0 as int],
                    posv[pairs@[srcs[j]].1 as int],
                ) by {
                    if j < srcs.len() - 1 {
                        assert(out@[j] == before[j]);
                    } else {
                        assert(srcs[j] == k as int);
                        assert(out@[j] == (a, b));
                    }
                }
            }
        }
        proof {
            assert forall|k1: int|
                0 <= k1 < k + 1 && entry_at(gs, posv[(#[trigger] pairs@[k1]).0 as int]).filename
                    == entry_at(gs, posv[pairs@[k1].1 as int]).filename implies out@.contains(
                (posv[pairs@[k1].0 as int], posv[pairs@[k1].1 as int]),
            ) by {
                if k1 < k {
                    let j = choose|j: int|
                        0 <= j < before.len() && before[j] == (
                        posv[pairs@[k1].0 as int],
                        posv[pairs@[k1].1 as int],
                        );
                    assert(out@[j] == (posv[pairs@[k1].0 as int], posv[pairs@[k1].1 as int]));
                } else {
                    assert(out@[out@.len() - 1] == (a, b));
                }
            }
        }
        k = k + 1;
    }
    proof {
        assert forall|p: (usize, usize), q: (usize, usize)|
            valid_pos(gs, p) && valid_pos(gs, q) && p != q && entry_at(gs, p).filename == entry_at(
            gs,
            q,
        ).filename implies exists|j: int|
            0 <= j < out@.len() && (#[trigger] out@[j] == (p, q) || out@[j] == (q, p)) by {
            let u = choose|u: int| 0 <= u < posv.len() && posv[u] == p;
            let v = choose|v: int| 0 <= v < posv.len() && posv[v] == q;
            assert(posv[u] == p && posv[v] == q);
            assert(u != v);
            if u < v {
                assert(pair_of(u as usize, v as usize) == (u as usize, v as usize));
                let kk = choose|kk: int|
                    0 <= kk < pairs@.len() && pairs@[kk] == (u as usize, v as usize);
                assert(entry_at(gs, posv[pairs@[kk].0 as int]).filename == entry_at(
                    gs,
                    posv[pairs@[kk].1 as int],
                ).filename);
                assert(out@.contains((p, q)));
                let j = choose|j: int| 0 <= j < out@.len() && out@[j] == (p, q);
                assert(out@[j] == (p, q));
            } else {
                assert(pair_of(v as usize, u as usize) == (v as usize, u as usize));
                let kk = choose|kk: int|
                    0 <= kk < pairs@.len() && pairs@[kk] == (v as usize, u as usize);
                assert(entry_at(gs, posv[pairs@[kk].0 as int]).filename == entry_at(
                    gs,
                    posv[pairs@[kk].1 as int],
                ).filename);
                assert(out@.contains((q, p)));
                let j = choose|j: int| 0 <= j < out@.len() && out@[j] == (q, p);
                assert(out@[j] == (q, p));
            }
        }
    }
    out
}

/// The image of the whole pass: every entry whose display name collides
/// anywhere is attached, every other entry untouched; groups, programs and
/// entry order as they were.
pub open spec fn spec_disambiguate(gs: Seq<GroupModel>, home: Seq<char>) -> Seq<GroupModel> {
    Seq::new(
        gs.len(),
        |g: int|
            GroupModel {
                program: gs[g].program,
                entries: Seq::new(
                    gs[g].entries.len(),
                    |i: int|
                        if collides(gs, ((g as usize), (i as usize))) {
                            attach_spec(gs[g].entries[i], home)
                        } else {
                            gs[g].entries[i]
                        },
                ),
            },
    )
}

/// Grouping correctness survives the disambiguation pass: attachment only
/// rewrites an entry's text and flag, so a state that agrees with a sound
/// grouping up to attachment is itself sound.
pub proof fn lemma_attach_pass_wf(gs0: Seq<GroupModel>, gs1: Seq<GroupModel>, home: Seq<char>)
    requires
        wf_groups(gs0),
        gs0.len() <= usize::MAX,
        forall|g: int| 0 <= g < gs0.len() ==> (#[trigger] gs0[g]).entries.len() <= usize::MAX,
        gs1.len() == gs0.len(),
        forall|g: int|
            0 <= g < gs0.len() ==> (#[trigger] gs1[g]).program == gs0[g].program
                && gs1[g].entries.len() == gs0[g].entries.len(),
        forall|p: (usize, usize)|
            valid_pos(gs0, p) ==> #[trigger] entry_at(gs1, p) == attach_spec(
                entry_at(gs0, p),
                home,
            ) || entry_at(gs1, p) == entry_at(gs0, p),
    ensures
        wf_groups(gs1),
{
    assert forall|g: int| 0 <= g < gs1.len() implies group_wf(#[trigger] gs1[g]) by {
        assert forall|i: int, j: int|
            0 <= i < j < gs1[g].entries.len() implies gs1[g].entries[i].path
            != gs1[g].entries[j].path by {
            let pi = (g as usize, i as usize);
            let pj = (g as usize, j as usize);
            assert(valid_pos(gs0, pi) && valid_pos(gs0, pj));
            assert(entry_at(gs1, pi) == gs1[g].entries[i]);
            assert(entry_at(gs1, pj) == gs1[g].entries[j]);
            crate::file::lemma_attach_sets_flag(entry_at(gs0, pi), home);
            crate::file::lemma_attach_sets_flag(entry_at(gs0, pj), home);
            assert(gs1[g].entries[i].path == gs0[g].entries[i].path);
            assert(gs1[g].entries[j].path == gs0[g].entries[j].path);
        }
    }
}

/// Attaches the path fragment to the entry at one position; everything else
/// stays as it was.
fn attach_at(files: &mut Vec<ProgramGroup>, pos: (usize, usize), home: &str)
    requires
        valid_pos(old(files).deep_view(), pos),
    ensures
        final(files).deep_view() == old(files).deep_view().update(
            pos.0 as int,
            GroupModel {
                program: old(files).deep_view()[pos.0 as int].program,
                entries: old(files).deep_view()[pos.0 as int].entries.update(
                    pos.1 as int,
                    attach_spec(entry_at(old(files).deep_view(), pos), home@),
                ),
            },
        ),
{
    let ghost gs0 = files.deep_view();
    proof {
        assert(files.deep_view().len() == files@.len());
    }
    let mut g = files.remove(pos.0);
    assert(g.deep_view() == gs0[pos.0 as int]);
    proof {
        assert(g.entries.deep_view().len() == g.entries@.len());
    }
    let mut e = g.entries.remove(pos.1);
    assert(e.deep_view() == gs0[pos.0 as int].entries[pos.1 as int]);
    e.add_path(home);
    assert(e@ == attach_spec(entry_at(gs0, pos), home@));
    let ghost ev = e@;
    g.entries.insert(pos.1, e);
    assert(g.entries.deep_view() =~= gs0[pos.0 as int].entries.update(pos.1 as int, ev));
    let ghost g2 = g@;
    files.insert(pos.0, g);
    proof {
        assert(files.deep_view() =~= gs0.update(pos.0 as int, g2));
        assert(g2 =~= GroupModel {
            program: gs0[pos.0 as int].program,
            entries: gs0[pos.0 as int].entries.update(pos.1 as int, ev),
        });
    }
}

/// Whether some pair of the list touches position `p`.
pub open spec fn touched(prs: Seq<((usize, usize), (usize, usize))>, p: (usize, usize)) -> bool {
    exists|k: int| 0 <= k < prs.len() && ((#[trigger] prs[k]).0 == p || prs[k].1 == p)
}

/// One more pair touches `p` exactly when it names `p` on either side.
proof fn lemma_touched_step(
    prs: Seq<((usize, usize), (usize, usize))>,
    k: int,
    p: (usize, usize),
)
    requires
        0 <= k < prs.len(),
    ensures
        touched(prs.take(k + 1), p) == (touched(prs.take(k), p) || prs[k].0 == p || prs[k].1
            == p),
{
    let shorter = prs.take(k);
    let longer = prs.take(k + 1);
    assert(longer.len() == k + 1);
    assert(forall|j: int| 0 <= j < k + 1 ==> #[trigger] longer[j] == prs[j]);
    assert(forall|j: int| 0 <= j < k ==> #[trigger] shorter[j] == prs[j]);
    if touched(longer, p) {
        let j = choose|j: int| 0 <= j < longer.len() && ((#[trigger] longer[j]).0 == p
            || longer[j].1 == p);
        if j < k {
            assert(shorter[j].0 == p || shorter[j].1 == p);
            assert(touched(shorter, p));
        } else {
            assert(prs[k].0 == p || prs[k].1 == p);
        }
    }
    if touched(shorter, p) {
        let j = choose|j: int| 0 <= j < shorter.len() && ((#[trigger] shorter[j]).0 == p
            || shorter[j].1 == p);
        assert(longer[j].0 == p || longer[j].1 == p);
        assert(touched(longer, p));
    }
    if prs[k].0 == p || prs[k].1 == p {
        assert(longer[k].0 == p || longer[k].1 == p);
        assert(touched(longer, p));
    }
}

/// The disambiguation pass: every retained entry whose display name occurs
/// elsewhere in the listing — in any group — gets the path fragment
/// attached; entries with a unique display name are left exactly as they
/// were. Group structure, programs and entry order do not change.
pub fn show_paths_when_needed(files: &mut Vec<ProgramGroup>, home: &str)
    ensures
        final(files).deep_view().len() == old(files).deep_view().len(),
        forall|g: int|
            0 <= g < old(files).deep_view().len()
                ==> (#[trigger] final(files).deep_view()[g]).program
                    == old(files).deep_view()[g].program
                && final(files).deep_view()[g].entries.len()
                    == old(files).deep_view()[g].entries.len(),
        forall|p: (usize, usize)|
            valid_pos(old(files).deep_view(), p) ==> #[trigger] entry_at(final(files).deep_view(), p)
                == if collides(old(files).deep_view(), p) {
                attach_spec(entry_at(old(files).deep_view(), p), home@)
            } else {
                entry_at(old(files).deep_view(), p)
            },
        final(files).deep_view() == spec_disambiguate(old(files).deep_view(), home@),
{
    let ghost gs0 = files.deep_view();
    proof {
        assert(gs0.len() == files.len());
        assert forall|g: int| 0 <= g < gs0.len() implies (#[trigger] gs0[g]).entries.len()
            <= usize::MAX by {
            assert(gs0[g] == files@[g].deep_view());
            assert(files@[g].entries@.len() == files@[g].entries.len());
            assert(gs0[g].entries.len() == files@[g].entries@.len());
        }
    }
    let prs = need_path(files);
    let ghost prsv = prs@;
    let np = prs.len();
    let mut k: usize = 0;
    proof {
        assert(prsv.take(0) =~= Seq::<((usize, usize), (usize, usize))>::empty());
    }
    while k < np
        invariant
            0 <= k <= np,
            np == prsv.len(),
            prs@ == prsv,
            forall|j: int| 0 <= j < prsv.len() ==> {
                let pr = #[trigger] prsv[j];
                valid_pos(gs0, pr.0) && valid_pos(gs0, pr.1) && pr.0 != pr.1 && entry_at(gs0,
                    pr.0).filename == entry_at(gs0, pr.1).filename
            },
            files.deep_view().len() == gs0.len(),
            forall|g: int|
                0 <= g < gs0.len() ==> (#[trigger] files.deep_view()[g]).program == gs0[g].program
                    && files.deep_view()[g].entries.len() == gs0[g].entries.len(),
            forall|p: (usize, usize)|
                valid_pos(gs0, p) ==> #[trigger] entry_at(files.deep_view(), p) == if touched(
                    prsv.take(k as int),
                    p,
                ) {
                    attach_spec(entry_at(gs0, p), home@)
                } else {
                    entry_at(gs0, p)
                },
        decreases np - k,
    {
        let pr = prs[k];
        let a = pr.0;
        let b = pr.1;
        assert(valid_pos(gs0, a) && valid_pos(gs0, b) && a != b);
        let ghost cur0 = files.deep_view();
        proof {
            assert(valid_pos(cur0, a));
        }
        attach_at(files, a, home);
        let ghost cur1 = files.deep_view();
        proof {
            assert(cur1.len() == gs0.len());
            assert forall|g: int| 0 <= g < gs0.len() implies (#[trigger] cur1[g]).program
                == gs0[g].program && cur1[g].entries.len() == gs0[g].entries.len() by {
                if g != a.0 {
                    assert(cur1[g] == cur0[g]);
                }
            }
            assert(valid_pos(cur1, b));
        }
        attach_at(files, b, home);
        let ghost cur2 = files.deep_view();
        proof {
            assert forall|g: int| 0 <= g < gs0.len() implies (#[trigger] cur2[g]).program
                == gs0[g].program && cur2[g].entries.len() == gs0[g].entries.len() by {
                if g != b.0 {
                    assert(cur2[g] == cur1[g]);
                }
            }
            // how each position moved through the two attachments
            assert forall|p: (usize, usize)| valid_pos(gs0, p) implies #[trigger] entry_at(
                cur2,
                p,
            ) == if touched(prsv.take(k + 1), p) {
                attach_spec(entry_at(gs0, p), home@)
            } else {
                entry_at(gs0, p)
            } by {
                lemma_touched_step(prsv, k as int, p);
                let e0 = entry_at(gs0, p);
                let ec = entry_at(cur0, p);
                // the first attachment changes only position `a`
                let e1 = entry_at(cur1, p);
                if p == a {
                    assert(e1 == attach_spec(ec, home@));
                } else {
                    if p.0 == a.0 {
                        assert(cur1[p.0 as int].entries[p.1 as int]
                            == cur0[p.0 as int].entries[p.1 as int]);
                    } else {
                        assert(cur1[p.0 as int] == cur0[p.0 as int]);
                    }
                    assert(e1 == ec);
                }
                // the second changes only position `b`
                let e2 = entry_at(cur2, p);
                if p == b {
                    assert(e2 == attach_spec(e1, home@));
                } else {
                    if p.0 == b.0 {
                        assert(cur2[p.0 as int].entries[p.1 as int]
                            == cur1[p.0 as int].entries[p.1 as int]);
                    } else {
                        assert(cur2[p.0 as int] == cur1[p.0 as int]);
                    }
                    assert(e2 == e1);
                }
                if p == a || p == b {
                    lemma_attach_idempotent(e0, home@);
                    assert(e2 == attach_spec(e0, home@));
                } else {
                    assert(e2 == ec);
                }
            }
        }
        k = k + 1;
    }
    proof {
        assert(prsv.take(np as int) =~= prsv);
        // a position is touched by some colliding pair exactly when it
        // collides with some partner
        assert forall|p: (usize, usize)| valid_pos(gs0, p) implies touched(prsv, p) == collides(
            gs0,
            p,
        ) by {
            if touched(prsv, p) {
                let j = choose|j: int| 0 <= j < prsv.len() && ((#[trigger] prsv[j]).0 == p
                    || prsv[j].1 == p);
                let pr = prsv[j];
                if pr.0 == p {
                    assert(valid_pos(gs0, pr.1) && pr.1 != p && entry_at(gs0, pr.1).filename
                        == entry_at(gs0, p).filename);
                } else {
                    assert(valid_pos(gs0, pr.0) && pr.0 != p && entry_at(gs0, pr.0).filename
                        == entry_at(gs0, p).filename);
                }
                assert(collides(gs0, p));
            }
            if collides(gs0, p) {
                let q = choose|q: (usize, usize)|
                    valid_pos(gs0, q) && q != p && entry_at(gs0, q).filename == entry_at(
                        gs0,
                        p,
                    ).filename;
                let j = choose|j: int|
                    0 <= j < prsv.len() && (#[trigger] prsv[j] == (p, q) || prsv[j] == (q, p));
                assert(prsv[j].0 == p || prsv[j].1 == p);
                assert(touched(prsv, p));
            }
        }
        // the pointwise picture is exactly the pass's image
        let gs2 = files.deep_view();
        let dis = spec_disambiguate(gs0, home@);
        assert forall|g: int| 0 <= g < gs0.len() implies gs2[g] == dis[g] by {
            assert forall|i: int| 0 <= i < gs0[g].entries.len() implies gs2[g].entries[i]
                == dis[g].entries[i] by {
                let p = ((g as usize), (i as usize));
                assert(valid_pos(gs0, p));
                assert(entry_at(gs2, p) == gs2[g].entries[i]);
                assert(entry_at(gs0, p) == gs0[g].entries[i]);
                assert(gs2[g].entries[i] == if collides(gs0, p) {
                    attach_spec(gs0[g].entries[i], home@)
                } else {
                    gs0[g].entries[i]
                });
            }
            assert(gs2[g].entries =~= dis[g].entries);
            assert(gs2[g] =~= dis[g]);
        }
        assert(gs2 =~= dis);
    }
}

} // verus!
