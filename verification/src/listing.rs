//! The whole compute pipeline in one call: aggregate the records, rank and
//! cap each group, and mark colliding display names — everything between
//! reading the registry and printing the lines.

use vstd::prelude::*;

use crate::disambig::{
    entry_at, lemma_attach_pass_wf, show_paths_when_needed, spec_disambiguate, valid_pos,
};
use crate::file::{attach_spec, lemma_attach_sets_flag};
use crate::rank::{
    lemma_rank_groups_props, lemma_rank_groups_wf, sort_and_truncate_files, sorted_desc,
    spec_rank_groups,
};
use crate::recently_used_xbel::RecentlyUsed;
use crate::store::{
    spec_aggregate, spec_expand, spec_resolve, store_files, wf_groups, ProgramGroup,
};
use crate::text::lex_le;

verus! {

/// What the pipeline leaves: the records expanded, resolved and aggregated,
/// each group ranked and capped, and — unless every path is shown anyway —
/// the disambiguation image of that.
pub open spec fn spec_listing(
    records: Seq<crate::recently_used_xbel::BookmarkModel>,
    limit: usize,
    show_all_paths: bool,
    excluded: Seq<Seq<char>>,
    home: Seq<char>,
) -> Seq<crate::store::GroupModel> {
    let ranked = spec_rank_groups(
        spec_aggregate(spec_resolve(spec_expand(records, excluded)), show_all_paths, home),
        limit,
    );
    if show_all_paths {
        ranked
    } else {
        spec_disambiguate(ranked, home)
    }
}

/// Builds the listing: groups the records by owning program (unique paths
/// within each group, no program twice), ranks every group most recent
/// first, caps it when the limit is nonzero, and — unless every path is
/// shown anyway — folds a parent-directory fragment into every entry whose
/// display name collides anywhere. The result is exactly `spec_listing` of
/// the inputs.
pub fn build_listing(
    recently_used: &RecentlyUsed,
    limit: usize,
    show_all_paths: bool,
    excluded: &Vec<String>,
    home: &str,
) -> (files: Vec<ProgramGroup>)
    ensures
        files.deep_view() == spec_listing(
            recently_used@,
            limit,
            show_all_paths,
            excluded.deep_view(),
            home@,
        ),
        wf_groups(files.deep_view()),
        forall|g: int|
            0 <= g < files.deep_view().len() ==> sorted_desc(
                (#[trigger] files.deep_view()[g]).entries,
            ),
        limit > 0 ==> forall|g: int|
            0 <= g < files.deep_view().len() ==> (#[trigger] files.deep_view()[g]).entries.len()
                <= limit,
{
    let mut files = store_files(recently_used, show_all_paths, excluded, home);
    let ghost gs0 = files.deep_view();
    sort_and_truncate_files(&mut files, limit);
    let ghost gs1 = files.deep_view();
    proof {
        lemma_rank_groups_wf(gs0, limit);
        lemma_rank_groups_props(gs0, limit);
    }
    if !show_all_paths {
        proof {
            assert(gs1.len() == files@.len());
            assert(files@.len() == files.len());
            assert forall|g: int| 0 <= g < gs1.len() implies (#[trigger] gs1[g]).entries.len()
                <= usize::MAX by {
                assert(gs1[g] == files@[g].deep_view());
                assert(files@[g].entries@.len() == files@[g].entries.len());
                assert(gs1[g].entries.len() == files@[g].entries@.len());
            }
        }
        show_paths_when_needed(&mut files, home);
        let ghost gs2 = files.deep_view();
        proof {
            assert forall|p: (usize, usize)| valid_pos(gs1, p) implies #[trigger] entry_at(
                gs2,
                p,
            ) == attach_spec(entry_at(gs1, p), home@) || entry_at(gs2, p) == entry_at(gs1, p) by {
            }
            lemma_attach_pass_wf(gs1, gs2, home@);
            assert forall|g: int| 0 <= g < gs2.len() implies sorted_desc(
                (#[trigger] gs2[g]).entries,
            ) by {
                assert forall|i: int, j: int| 0 <= i <= j < gs2[g].entries.len() implies lex_le(
                    gs2[g].entries[j].date,
                    gs2[g].entries[i].date,
                ) by {
                    let pi = (g as usize, i as usize);
                    let pj = (g as usize, j as usize);
                    assert(valid_pos(gs1, pi) && valid_pos(gs1, pj));
                    assert(entry_at(gs2, pi) == gs2[g].entries[i]);
                    assert(entry_at(gs2, pj) == gs2[g].entries[j]);
                    lemma_attach_sets_flag(entry_at(gs1, pi), home@);
                    lemma_attach_sets_flag(entry_at(gs1, pj), home@);
                    assert(gs2[g].entries[i].date == gs1[g].entries[i].date);
                    assert(gs2[g].entries[j].date == gs1[g].entries[j].date);
                    assert(sorted_desc(gs1[g].entries));
                }
            }
        }
    }
    files
}

} // verus!
