//! Ranking and truncation: each program's entries are ordered most recent
//! first — stably, so ties keep their merge order — and the group is capped
//! at the configured limit; a limit of zero means unlimited.

use vstd::prelude::*;

use crate::file::{EntryModel, File};
use crate::store::{group_wf, path_in, paths_distinct, wf_groups, GroupModel, ProgramGroup};
use crate::text::{lemma_lex_le_total, lemma_lex_le_trans, lex_le, str_lex_le};

verus! {

/// Where a later entry lands among already-ranked ones: after every entry at
/// least as recent, before the first strictly older one.
pub open spec fn insert_ranked(e: EntryModel, s: Seq<EntryModel>) -> Seq<EntryModel>
    decreases s.len(),
{
    if s.len() > 0 && lex_le(e.date, s[0].date) {
        seq![s[0]] + insert_ranked(e, s.drop_first())
    } else {
        seq![e] + s
    }
}

/// The stable most-recent-first ordering of a group's entries.
pub open spec fn spec_rank(s: Seq<EntryModel>) -> Seq<EntryModel>
    decreases s.len(),
{
    if s.len() == 0 {
        s
    } else {
        insert_ranked(s.last(), spec_rank(s.drop_last()))
    }
}

/// Most-recent-first: timestamps never increase along the sequence.
pub open spec fn sorted_desc(s: Seq<EntryModel>) -> bool {
    forall|i: int, j: int| 0 <= i <= j < s.len() ==> lex_le(s[j].date, s[i].date)
}

/// Every timestamp of `s` is at most `d`.
pub open spec fn all_dates_le(s: Seq<EntryModel>, d: Seq<char>) -> bool {
    forall|i: int| 0 <= i < s.len() ==> lex_le(#[trigger] s[i].date, d)
}

/// Inserting keeps a timestamp bound.
proof fn lemma_insert_ranked_le(e: EntryModel, s: Seq<EntryModel>, d: Seq<char>)
    requires
        lex_le(e.date, d),
        all_dates_le(s, d),
    ensures
        all_dates_le(insert_ranked(e, s), d),
    decreases s.len(),
{
    if s.len() > 0 && lex_le(e.date, s[0].date) {
        assert forall|i: int| 0 <= i < s.drop_first().len() implies lex_le(
            #[trigger] s.drop_first()[i].date,
            d,
        ) by {
            assert(s.drop_first()[i] == s[i + 1]);
        }
        lemma_insert_ranked_le(e, s.drop_first(), d);
        let t = insert_ranked(e, s.drop_first());
        assert forall|i: int| 0 <= i < insert_ranked(e, s).len() implies lex_le(
            #[trigger] insert_ranked(e, s)[i].date,
            d,
        ) by {
            if i > 0 {
                assert(insert_ranked(e, s)[i] == t[i - 1]);
            }
        }
    } else {
        assert forall|i: int| 0 <= i < insert_ranked(e, s).len() implies lex_le(
            #[trigger] insert_ranked(e, s)[i].date,
            d,
        ) by {
            if i > 0 {
                assert(insert_ranked(e, s)[i] == s[i - 1]);
            }
        }
    }
}

/// Inserting into a ranked sequence keeps it ranked.
proof fn lemma_insert_ranked_sorted(e: EntryModel, s: Seq<EntryModel>)
    requires
        sorted_desc(s),
    ensures
        sorted_desc(insert_ranked(e, s)),
    decreases s.len(),
{
    if s.len() > 0 && lex_le(e.date, s[0].date) {
        let rest = s.drop_first();
        assert forall|i: int, j: int| 0 <= i <= j < rest.len() implies lex_le(
            rest[j].date,
            rest[i].date,
        ) by {
            assert(rest[i] == s[i + 1]);
            assert(rest[j] == s[j + 1]);
        }
        lemma_insert_ranked_sorted(e, rest);
        assert forall|i: int| 0 <= i < rest.len() implies lex_le(
            #[trigger] rest[i].date,
            s[0].date,
        ) by {
            assert(rest[i] == s[i + 1]);
        }
        lemma_insert_ranked_le(e, rest, s[0].date);
        let t = insert_ranked(e, rest);
        let whole = insert_ranked(e, s);
        assert forall|i: int, j: int| 0 <= i <= j < whole.len() implies lex_le(
            whole[j].date,
            whole[i].date,
        ) by {
            if i > 0 {
                assert(whole[i] == t[i - 1]);
                assert(whole[j] == t[j - 1]);
            } else if j > 0 {
                assert(whole[j] == t[j - 1]);
                assert(lex_le(t[j - 1].date, s[0].date));
            } else {
                crate::text::lemma_lex_le_refl(s[0].date);
            }
        }
    } else {
        if s.len() > 0 {
            lemma_lex_le_total(e.date, s[0].date);
        }
        let whole = insert_ranked(e, s);
        assert forall|i: int, j: int| 0 <= i <= j < whole.len() implies lex_le(
            whole[j].date,
            whole[i].date,
        ) by {
            if i > 0 {
                assert(whole[i] == s[i - 1]);
                assert(whole[j] == s[j - 1]);
            } else if j > 0 {
                assert(whole[j] == s[j - 1]);
                assert(lex_le(s[0].date, e.date));
                lemma_lex_le_trans(s[j - 1].date, s[0].date, e.date);
            } else {
                crate::text::lemma_lex_le_refl(e.date);
            }
        }
    }
}

/// Ranking monotonicity: the ranked sequence is most-recent-first.
pub proof fn lemma_rank_sorted(s: Seq<EntryModel>)
    ensures
        sorted_desc(spec_rank(s)),
    decreases s.len(),
{
    if s.len() != 0 {
        lemma_rank_sorted(s.drop_last());
        lemma_insert_ranked_sorted(s.last(), spec_rank(s.drop_last()));
    }
}

/// Ranking drops nothing: the ranked sequence has the same length.
pub proof fn lemma_rank_len(s: Seq<EntryModel>)
    ensures
        spec_rank(s).len() == s.len(),
    decreases s.len(),
{
    if s.len() != 0 {
        lemma_rank_len(s.drop_last());
        lemma_insert_ranked_len(s.last(), spec_rank(s.drop_last()));
    }
}

/// Inserting adds exactly the one entry.
proof fn lemma_insert_ranked_len(e: EntryModel, s: Seq<EntryModel>)
    ensures
        insert_ranked(e, s).len() == s.len() + 1,
    decreases s.len(),
{
    if s.len() > 0 && lex_le(e.date, s[0].date) {
        lemma_insert_ranked_len(e, s.drop_first());
    }
}

/// Inserting neither adds nor loses a path.
proof fn lemma_insert_ranked_path_in(e: EntryModel, s: Seq<EntryModel>, q: Seq<char>)
    ensures
        path_in(insert_ranked(e, s), q) == (path_in(s, q) || e.path == q),
    decreases s.len(),
{
    let t = insert_ranked(e, s);
    if s.len() > 0 && lex_le(e.date, s[0].date) {
        let rest = s.drop_first();
        let t2 = insert_ranked(e, rest);
        lemma_insert_ranked_path_in(e, rest, q);
        if path_in(t, q) {
            let i = choose|i: int| 0 <= i < t.len() && #[trigger] t[i].path == q;
            if i == 0 {
                assert(s[0].path == q);
            } else {
                assert(t2[i - 1].path == q);
                assert(path_in(t2, q));
                if path_in(rest, q) {
                    let j = choose|j: int| 0 <= j < rest.len() && #[trigger] rest[j].path == q;
                    assert(s[j + 1].path == q);
                }
            }
        }
        if path_in(s, q) {
            let i = choose|i: int| 0 <= i < s.len() && #[trigger] s[i].path == q;
            if i == 0 {
                assert(t[0].path == q);
            } else {
                assert(rest[i - 1].path == q);
                assert(path_in(rest, q));
                assert(path_in(t2, q));
                let j = choose|j: int| 0 <= j < t2.len() && #[trigger] t2[j].path == q;
                assert(t[j + 1].path == q);
            }
            assert(path_in(t, q));
        }
        if e.path == q {
            assert(path_in(t2, q));
            let j = choose|j: int| 0 <= j < t2.len() && #[trigger] t2[j].path == q;
            assert(t[j + 1].path == q);
            assert(path_in(t, q));
        }
    } else {
        if path_in(t, q) {
            let i = choose|i: int| 0 <= i < t.len() && #[trigger] t[i].path == q;
            if i > 0 {
                assert(s[i - 1].path == q);
            }
        }
        if path_in(s, q) {
            let i = choose|i: int| 0 <= i < s.len() && #[trigger] s[i].path == q;
            assert(t[i + 1].path == q);
        }
        if e.path == q {
            assert(t[0].path == q);
        }
    }
}

/// Inserting an unseen path among distinct paths keeps them distinct.
proof fn lemma_insert_ranked_distinct(e: EntryModel, s: Seq<EntryModel>)
    requires
        paths_distinct(s),
        !path_in(s, e.path),
    ensures
        paths_distinct(insert_ranked(e, s)),
    decreases s.len(),
{
    let t = insert_ranked(e, s);
    if s.len() > 0 && lex_le(e.date, s[0].date) {
        let rest = s.drop_first();
        let t2 = insert_ranked(e, rest);
        assert forall|i: int, j: int| 0 <= i < j < rest.len() implies rest[i].path
            != rest[j].path by {
            assert(rest[i] == s[i + 1] && rest[j] == s[j + 1]);
        }
        assert(!path_in(rest, e.path)) by {
            if path_in(rest, e.path) {
                let i = choose|i: int| 0 <= i < rest.len() && #[trigger] rest[i].path == e.path;
                assert(s[i + 1].path == e.path);
            }
        }
        lemma_insert_ranked_distinct(e, rest);
        lemma_insert_ranked_path_in(e, rest, s[0].path);
        assert(!path_in(rest, s[0].path)) by {
            if path_in(rest, s[0].path) {
                let i = choose|i: int|
                    0 <= i < rest.len() && #[trigger] rest[i].path == s[0].path;
                assert(s[i + 1].path == s[0].path);
            }
        }
        assert(e.path != s[0].path);
        assert(!path_in(t2, s[0].path));
        assert forall|i: int, j: int| 0 <= i < j < t.len() implies t[i].path != t[j].path by {
            if i == 0 {
                assert(t[j] == t2[j - 1]);
                if t[0].path == t2[j - 1].path {
                    assert(path_in(t2, s[0].path));
                }
            } else {
                assert(t[i] == t2[i - 1] && t[j] == t2[j - 1]);
            }
        }
    } else {
        assert forall|i: int, j: int| 0 <= i < j < t.len() implies t[i].path != t[j].path by {
            if i == 0 {
                assert(t[j] == s[j - 1]);
                if t[0].path == s[j - 1].path {
                    assert(path_in(s, e.path));
                }
            } else {
                assert(t[i] == s[i - 1] && t[j] == s[j - 1]);
            }
        }
    }
}

/// Ranking keeps exactly the paths it was given.
proof fn lemma_rank_path_in(s: Seq<EntryModel>, q: Seq<char>)
    ensures
        path_in(spec_rank(s), q) == path_in(s, q),
    decreases s.len(),
{
    if s.len() != 0 {
        let prev = s.drop_last();
        lemma_rank_path_in(prev, q);
        lemma_insert_ranked_path_in(s.last(), spec_rank(prev), q);
        if path_in(prev, q) {
            let i = choose|i: int| 0 <= i < prev.len() && #[trigger] prev[i].path == q;
            assert(s[i].path == q);
            assert(path_in(s, q));
        }
        if s.last().path == q {
            assert(s[s.len() - 1].path == q);
            assert(path_in(s, q));
        }
        if path_in(s, q) {
            let i = choose|i: int| 0 <= i < s.len() && #[trigger] s[i].path == q;
            if i < s.len() - 1 {
                assert(prev[i].path == q);
                assert(path_in(prev, q));
            }
        }
    }
}

/// Grouping correctness survives ranking: distinct paths stay distinct.
pub proof fn lemma_rank_preserves_distinct_paths(s: Seq<EntryModel>)
    requires
        paths_distinct(s),
    ensures
        paths_distinct(spec_rank(s)),
    decreases s.len(),
{
    if s.len() != 0 {
        let prev = s.drop_last();
        assert forall|i: int, j: int| 0 <= i < j < prev.len() implies prev[i].path
            != prev[j].path by {
            assert(prev[i] == s[i] && prev[j] == s[j]);
        }
        lemma_rank_preserves_distinct_paths(prev);
        lemma_rank_path_in(prev, s.last().path);
        assert(!path_in(prev, s.last().path)) by {
            if path_in(prev, s.last().path) {
                let i = choose|i: int|
                    0 <= i < prev.len() && #[trigger] prev[i].path == s.last().path;
                assert(s[i].path == s[s.len() - 1].path);
            }
        }
        lemma_insert_ranked_distinct(s.last(), spec_rank(prev));
    }
}

/// Grouping correctness survives ranking and truncation: no program owns two
/// groups, and within each capped group paths stay pairwise distinct.
pub proof fn lemma_rank_groups_wf(gs: Seq<GroupModel>, limit: usize)
    requires
        wf_groups(gs),
    ensures
        wf_groups(spec_rank_groups(gs, limit)),
{
    let out = spec_rank_groups(gs, limit);
    assert forall|i: int| 0 <= i < out.len() implies group_wf(#[trigger] out[i]) by {
        lemma_rank_preserves_distinct_paths(gs[i].entries);
        let ranked = spec_rank(gs[i].entries);
        let capped = spec_truncated(ranked, limit);
        assert forall|a: int, b: int| 0 <= a < b < capped.len() implies capped[a].path
            != capped[b].path by {
            assert(capped[a] == ranked[a] && capped[b] == ranked[b]);
        }
    }
}

/// Where the scan of the exec sort stops is where `insert_ranked` puts the
/// entry.
proof fn lemma_insert_ranked_at(e: EntryModel, s: Seq<EntryModel>, i: int)
    requires
        0 <= i <= s.len(),
        forall|j: int| 0 <= j < i ==> lex_le(e.date, #[trigger] s[j].date),
        i < s.len() ==> !lex_le(e.date, s[i].date),
    ensures
        insert_ranked(e, s) == s.take(i) + seq![e] + s.skip(i),
    decreases i,
{
    if i == 0 {
        assert(insert_ranked(e, s) =~= s.take(0) + seq![e] + s.skip(0));
    } else {
        let rest = s.drop_first();
        assert forall|j: int| 0 <= j < i - 1 implies lex_le(e.date, #[trigger] rest[j].date) by {
            assert(rest[j] == s[j + 1]);
        }
        if i - 1 < rest.len() {
            assert(rest[i - 1] == s[i]);
        }
        lemma_insert_ranked_at(e, rest, i - 1);
        assert(insert_ranked(e, s) == seq![s[0]] + (rest.take(i - 1) + seq![e] + rest.skip(i - 1)));
        assert(seq![s[0]] + (rest.take(i - 1) + seq![e] + rest.skip(i - 1)) =~= s.take(i) + seq![e]
            + s.skip(i));
    }
}

/// Ranks one group's entries, most recent first, stably.
fn sort_entries(entries: Vec<File>) -> (r: Vec<File>)
    ensures
        r.deep_view() == spec_rank(entries.deep_view()),
{
    let ghost orig = entries.deep_view();
    let mut rest = entries;
    let mut out: Vec<File> = Vec::new();
    let ghost mut k: int = 0;
    proof {
        assert(rest.deep_view() =~= orig.skip(0));
        assert(out.deep_view() =~= spec_rank(orig.take(0)));
    }
    while rest.len() > 0
        invariant
            0 <= k <= orig.len(),
            rest.deep_view() =~= orig.skip(k),
            out.deep_view() =~= spec_rank(orig.take(k)),
        decreases rest.len(),
    {
        let ghost outv = out.deep_view();
        proof {
            assert(rest.deep_view().len() == rest@.len());
            assert(orig.skip(k).len() == orig.len() - k);
            assert(k < orig.len());
        }
        let ghost prev_vec = rest@;
        let ghost prevd = rest.deep_view();
        let e = rest.remove(0);
        assert(e.deep_view() == orig.skip(k)[0]);
        assert(e@ == orig[k]);
        proof {
            assert forall|i: int| 0 <= i < rest@.len() implies rest.deep_view()[i] == orig.skip(
                k + 1,
            )[i] by {
                assert(rest@[i] == prev_vec[i + 1]);
                assert(rest.deep_view()[i] == prev_vec[i + 1].deep_view());
                assert(prev_vec[i + 1].deep_view() == prevd[i + 1]);
                assert(prevd[i + 1] == orig.skip(k)[i + 1]);
                assert(orig.skip(k)[i + 1] == orig.skip(k + 1)[i]);
            }
            assert(rest.deep_view().len() == orig.skip(k + 1).len());
            assert(rest.deep_view() =~= orig.skip(k + 1));
        }
        let n = out.len();
        let mut idx: usize = 0;
        while idx < n && str_lex_le(e.date.as_str(), out[idx].date.as_str())
            invariant
                0 <= idx <= n,
                n == out@.len(),
                out.deep_view() == outv,
                outv.len() == n,
                e@ == orig[k as int],
                forall|j: int| 0 <= j < idx ==> lex_le(e@.date, #[trigger] outv[j].date),
            decreases n - idx,
        {
            assert(out.deep_view()[idx as int] == outv[idx as int]);
            idx = idx + 1;
        }
        proof {
            if idx < n {
                assert(out.deep_view()[idx as int] == outv[idx as int]);
            }
            lemma_insert_ranked_at(e@, outv, idx as int);
        }
        let ghost before_insert = out@;
        out.insert(idx, e);
        proof {
            assert forall|i: int| 0 <= i < out@.len() implies out.deep_view()[i] == insert_ranked(
                e@,
                outv,
            )[i] by {
                assert(out@ == before_insert.insert(idx as int, e));
                if i < idx {
                    assert(out@[i] == before_insert[i]);
                } else if i == idx {
                    assert(out@[i] == e);
                } else {
                    assert(out@[i] == before_insert[i - 1]);
                }
                assert(insert_ranked(e@, outv) == outv.take(idx as int) + seq![e@] + outv.skip(
                    idx as int,
                ));
            }
            assert(out.deep_view().len() == insert_ranked(e@, outv).len());
            assert(out.deep_view() =~= insert_ranked(e@, outv));
            assert(orig.take(k + 1).drop_last() =~= orig.take(k));
            assert(orig.take(k + 1).last() == orig[k]);
            assert(out.deep_view() =~= spec_rank(orig.take(k + 1)));
            k = k + 1;
        }
    }
    proof {
        assert(orig.take(orig.len() as int) =~= orig);
    }
    out
}

/// A ranked group after the cap: its first `limit` entries when a nonzero
/// limit cuts it, all of it otherwise.
pub open spec fn spec_truncated(s: Seq<EntryModel>, limit: usize) -> Seq<EntryModel> {
    if limit > 0 && s.len() > limit {
        s.take(limit as int)
    } else {
        s
    }
}

/// Every group ranked and capped; programs and their order unchanged.
pub open spec fn spec_rank_groups(gs: Seq<GroupModel>, limit: usize) -> Seq<GroupModel> {
    Seq::new(
        gs.len(),
        |i: int|
            GroupModel {
                program: gs[i].program,
                entries: spec_truncated(spec_rank(gs[i].entries), limit),
            },
    )
}

/// Ranking monotonicity and the truncation bound, for every group: ranked
/// entries are most-recent-first; a nonzero limit caps each group's length,
/// and a zero limit drops nothing.
pub proof fn lemma_rank_groups_props(gs: Seq<GroupModel>, limit: usize)
    ensures
        forall|i: int| 0 <= i < gs.len() ==> sorted_desc(
            #[trigger] spec_rank_groups(gs, limit)[i].entries,
        ),
        limit > 0 ==> forall|i: int| 0 <= i < gs.len() ==> #[trigger] spec_rank_groups(
            gs,
            limit,
        )[i].entries.len() <= limit,
        limit == 0 ==> forall|i: int| 0 <= i < gs.len() ==> #[trigger] spec_rank_groups(
            gs,
            limit,
        )[i].entries.len() == gs[i].entries.len(),
{
    assert forall|i: int| 0 <= i < gs.len() implies sorted_desc(
        #[trigger] spec_rank_groups(gs, limit)[i].entries,
    ) by {
        lemma_rank_sorted(gs[i].entries);
        let ranked = spec_rank(gs[i].entries);
        let capped = spec_truncated(ranked, limit);
        assert forall|a: int, b: int| 0 <= a <= b < capped.len() implies lex_le(
            capped[b].date,
            capped[a].date,
        ) by {
            assert(capped[a] == ranked[a]);
            assert(capped[b] == ranked[b]);
        }
    }
    assert forall|i: int| 0 <= i < gs.len() implies #[trigger] spec_rank_groups(
        gs,
        limit,
    )[i].entries.len() == spec_truncated(spec_rank(gs[i].entries), limit).len() by {
    }
    assert forall|i: int| 0 <= i < gs.len() implies spec_rank(gs[i].entries).len()
        == gs[i].entries.len() by {
        lemma_rank_len(gs[i].entries);
    }
}

/// Ranks every group most recent first and caps it at the limit; the
/// merge order is the tiebreak, and a zero limit means unlimited.
pub fn sort_and_truncate_files(files: &mut Vec<ProgramGroup>, limit: usize)
    ensures
        final(files).deep_view() == spec_rank_groups(old(files).deep_view(), limit),
{
    let ghost orig = old(files).deep_view();
    let n = files.len();
    let mut i: usize = 0;
    while i < n
        invariant
            0 <= i <= n,
            n == files@.len(),
            orig.len() == n,
            forall|j: int| i <= j < n ==> files.deep_view()[j] == orig[j],
            forall|j: int| 0 <= j < i ==> files.deep_view()[j] == spec_rank_groups(orig, limit)[j],
        decreases n - i,
    {
        let ghost gm = files.deep_view()[i as int];
        let ghost before = files.deep_view();
        let g = files.remove(i);
        assert(g.deep_view() == gm);
        let ProgramGroup { program, entries } = g;
        let mut entries = sort_entries(entries);
        assert(entries.deep_view() == spec_rank(gm.entries));
        if limit > 0 {
            let ghost pre_trunc = entries.deep_view();
            let ghost pre_vec = entries@;
            entries.truncate(limit);
            proof {
                assert forall|t: int| 0 <= t < entries@.len() implies entries.deep_view()[t]
                    == spec_truncated(pre_trunc, limit)[t] by {
                    assert(entries@[t] == pre_vec[t]);
                    assert(entries.deep_view()[t] == pre_vec[t].deep_view());
                    assert(pre_vec[t].deep_view() == pre_trunc[t]);
                }
                assert(entries.deep_view().len() == spec_truncated(pre_trunc, limit).len());
                assert(entries.deep_view() =~= spec_truncated(pre_trunc, limit));
            }
        }
        assert(entries.deep_view() == spec_truncated(spec_rank(gm.entries), limit));
        let g2 = ProgramGroup { program, entries };
        assert(g2@ =~= GroupModel {
            program: gm.program,
            entries: spec_truncated(spec_rank(gm.entries), limit),
        });
        let ghost g2v = g2@;
        files.insert(i, g2);
        proof {
            assert forall|j: int| 0 <= j < files@.len() implies files.deep_view()[j]
                == before.update(i as int, g2v)[j] by {
            }
            assert(files.deep_view() =~= before.update(i as int, g2v));
            assert(files.deep_view()[i as int] == spec_rank_groups(orig, limit)[i as int]);
        }
        i = i + 1;
    }
    proof {
        assert(files.deep_view() =~= spec_rank_groups(orig, limit));
    }
}

} // verus!
