//! Presentation: formats each retained entry into the launcher's line
//! protocol — one line of program token, display name and metadata — and the
//! header that switches the launcher's rows to markup. Writing the lines out
//! happens outside the verified library.

use vstd::prelude::*;
use vstd::string::StringExecFns;

use crate::file::{EntryModel, File};
use crate::store::{GroupModel, ProgramGroup};

verus! {

/// The header line that turns markup on in the launcher's rows.
pub fn header_line() -> (r: String)
    ensures
        r@ == "\u{0}markup-rows\u{1f}true\n"@,
{
    "\u{0}markup-rows\u{1f}true\n".to_owned()
}

/// One rendered line: program token, display name and metadata,
/// space-separated.
pub open spec fn line_spec(program: Seq<char>, e: EntryModel) -> Seq<char> {
    program + " "@ + e.filename + " "@ + e.output
}

/// Renders one entry's line.
pub fn render_line(program: &str, entry: &File) -> (r: String)
    ensures
        r@ == line_spec(program@, entry@),
{
    let mut out = program.to_owned();
    out.append(" ");
    out.append(entry.filename.as_str());
    out.append(" ");
    out.append(entry.output.as_str());
    assert(out@ =~= line_spec(program@, entry@));
    out
}

/// All lines of one group, in entry order.
pub open spec fn group_lines_spec(g: GroupModel) -> Seq<Seq<char>> {
    Seq::new(g.entries.len(), |i: int| line_spec(g.program, g.entries[i]))
}

/// All lines of the listing, group by group.
pub open spec fn lines_spec(gs: Seq<GroupModel>) -> Seq<Seq<char>>
    decreases gs.len(),
{
    if gs.len() == 0 {
        Seq::empty()
    } else {
        lines_spec(gs.drop_last()) + group_lines_spec(gs.last())
    }
}

/// Renders every retained entry's line, group by group.
pub fn render_lines(files: &Vec<ProgramGroup>) -> (r: Vec<String>)
    ensures
        r.deep_view() == lines_spec(files.deep_view()),
{
    let ghost gs = files.deep_view();
    let mut out: Vec<String> = Vec::new();
    let ng = files.len();
    let mut g: usize = 0;
    proof {
        assert(out.deep_view() =~= lines_spec(gs.take(0)));
    }
    while g < ng
        invariant
            0 <= g <= ng,
            ng == files@.len(),
            gs == files.deep_view(),
            gs.len() == ng,
            out.deep_view() =~= lines_spec(gs.take(g as int)),
        decreases ng - g,
    {
        let ghost pre = out.deep_view();
        let ghost gm = gs[g as int];
        let group = &files[g];
        assert(group.deep_view() == gm);
        let ne = group.entries.len();
        proof {
            assert(gm.entries.len() == ne);
        }
        let mut e: usize = 0;
        while e < ne
            invariant
                0 <= e <= ne,
                0 <= g < ng,
                ng == files@.len(),
                group.deep_view() == gm,
                gm.entries.len() == ne,
                ne == group.entries@.len(),
                out.deep_view() =~= pre + group_lines_spec(gm).take(e as int),
            decreases ne - e,
        {
            let entry = &group.entries[e];
            assert(entry.deep_view() == gm.entries[e as int]);
            let line = render_line(group.program.as_str(), entry);
            assert(line@ == line_spec(gm.program, gm.entries[e as int]));
            let ghost before = out.deep_view();
            out.push(line);
            proof {
                assert(out.deep_view() =~= before.push(line@));
                assert(group_lines_spec(gm).take(e + 1) =~= group_lines_spec(gm).take(e as int)
                    .push(line_spec(gm.program, gm.entries[e as int])));
                assert(out.deep_view() =~= pre + group_lines_spec(gm).take(e + 1));
            }
            e = e + 1;
        }
        proof {
            assert(group_lines_spec(gm).take(ne as int) =~= group_lines_spec(gm));
            assert(gs.take(g + 1).drop_last() =~= gs.take(g as int));
            assert(gs.take(g + 1).last() == gm);
            assert(out.deep_view() =~= lines_spec(gs.take(g + 1)));
        }
        g = g + 1;
    }
    proof {
        assert(gs.take(ng as int) =~= gs);
    }
    out
}

} // verus!
