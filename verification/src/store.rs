//! The aggregation engine: walks the usage records, derives each
//! registration's owning program, resolves its location to an absolute path,
//! and builds per-program groups of deduplicated entries, merging repeated
//! registrations of one path into one entry's searchable metadata.

use vstd::prelude::*;
use vstd::string::StrSliceExecFns;

use crate::file::{
    attach_spec, file_name_of, file_name_spec, format_output, format_output_tail, mime_suffix,
    mime_suffix_spec, output_spec, output_tail_spec, EntryModel, File,
};
use crate::recently_used_xbel::{ApplicationModel, BookmarkModel, MetadataModel, RecentlyUsed};
use crate::text::{lemma_token_len, replace_char, replaced, token_end, token_len, vec_contains_string};

verus! {

/// The owning-program token of a launch command: the first space-delimited
/// token after the leading invocation marker; nothing when the command is
/// empty or the token is.
pub open spec fn extracted_program(cmd: Seq<char>) -> Option<Seq<char>> {
    if cmd.len() == 0 {
        None
    } else {
        let t = cmd.drop_first().take(token_len(cmd.drop_first()) as int);
        if t.len() == 0 {
            None
        } else {
            Some(t)
        }
    }
}

/// Derives the owning-program token of a launch command.
pub fn extract_program(cmd: &str) -> (r: Option<String>)
    ensures
        match r {
            Some(t) => extracted_program(cmd@) == Some(t@),
            None => extracted_program(cmd@) is None,
        },
{
    let n = cmd.unicode_len();
    if n == 0 {
        return None;
    }
    let e = token_end(cmd, 1);
    proof {
        assert(cmd@.drop_first() =~= cmd@.skip(1));
        lemma_token_len(cmd@.skip(1));
    }
    if e == 1 {
        return None;
    }
    let t = cmd.substring_char(1, e);
    assert(t@ =~= cmd@.skip(1).take(e - 1));
    Some(t.to_owned())
}

/// One registration drawn from a usage record, before its location has been
/// resolved: the record's fields beside the one application that made it and
/// the program token derived from its launch command.
pub struct RawRegistration {
    pub href: String,
    pub modified: String,
    pub mimetype: String,
    pub program: String,
    pub app_name: String,
    pub app_exec: String,
}

/// Mathematical image of a [`RawRegistration`].
#[verifier::ext_equal]
pub ghost struct RawRegModel {
    pub href: Seq<char>,
    pub modified: Seq<char>,
    pub mimetype: Seq<char>,
    pub program: Seq<char>,
    pub app_name: Seq<char>,
    pub app_exec: Seq<char>,
}

impl View for RawRegistration {
    type V = RawRegModel;

    open spec fn view(&self) -> RawRegModel {
        RawRegModel {
            href: self.href@,
            modified: self.modified@,
            mimetype: self.mimetype@,
            program: self.program@,
            app_name: self.app_name@,
            app_exec: self.app_exec@,
        }
    }
}

impl DeepView for RawRegistration {
    type V = RawRegModel;

    open spec fn deep_view(&self) -> RawRegModel {
        self.view()
    }
}

/// A record without a reported content type counts as generic.
pub open spec fn mime_or_default(m: Option<Seq<char>>) -> Seq<char> {
    match m {
        Some(s) => s,
        None => "application/x-generic"@,
    }
}

/// The registrations one application entry of a record contributes: none when
/// its command has no usable token or the token is excluded.
pub open spec fn expand_app(
    b: BookmarkModel,
    meta: MetadataModel,
    a: ApplicationModel,
    excluded: Seq<Seq<char>>,
) -> Seq<RawRegModel> {
    match extracted_program(a.exec_command) {
        None => Seq::empty(),
        Some(tok) => if excluded.contains(tok) {
            Seq::empty()
        } else {
            seq![RawRegModel {
                href: b.href,
                modified: b.modified,
                mimetype: mime_or_default(meta.mime_type),
                program: tok,
                app_name: a.name,
                app_exec: a.exec_command,
            }]
        },
    }
}

/// The registrations of a record's first `n` application entries, in order.
pub open spec fn expand_apps(
    b: BookmarkModel,
    meta: MetadataModel,
    apps: Seq<ApplicationModel>,
    excluded: Seq<Seq<char>>,
) -> Seq<RawRegModel>
    decreases apps.len(),
{
    if apps.len() == 0 {
        Seq::empty()
    } else {
        expand_apps(b, meta, apps.drop_last(), excluded) + expand_app(b, meta, apps.last(), excluded)
    }
}

/// The registrations of one record: none when it carries no metadata.
pub open spec fn expand_bookmark(b: BookmarkModel, excluded: Seq<Seq<char>>) -> Seq<RawRegModel> {
    match b.info {
        None => Seq::empty(),
        Some(meta) => expand_apps(b, meta, meta.apps, excluded),
    }
}

/// All registrations of a record sequence, in traversal order.
pub open spec fn spec_expand(bs: Seq<BookmarkModel>, excluded: Seq<Seq<char>>) -> Seq<RawRegModel>
    decreases bs.len(),
{
    if bs.len() == 0 {
        Seq::empty()
    } else {
        spec_expand(bs.drop_last(), excluded) + expand_bookmark(bs.last(), excluded)
    }
}

/// Walks the records and lists every registration whose launch command
/// yields a usable, non-excluded program token.
pub fn expand_registrations(recently_used: &RecentlyUsed, excluded: &Vec<String>) -> (regs: Vec<
    RawRegistration,
>)
    ensures
        regs.deep_view() == spec_expand(recently_used@, excluded.deep_view()),
{
    let mut out: Vec<RawRegistration> = Vec::new();
    let nb = recently_used.bookmarks.len();
    let mut i: usize = 0;
    assert(recently_used@.take(0) =~= Seq::<BookmarkModel>::empty());
    while i < nb
        invariant
            0 <= i <= nb,
            nb == recently_used.bookmarks@.len(),
            recently_used@.len() == nb,
            out.deep_view() =~= spec_expand(recently_used@.take(i as int), excluded.deep_view()),
        decreases nb - i,
    {
        let ghost pre = out.deep_view();
        let ghost bm = recently_used@[i as int];
        let bookmark = &recently_used.bookmarks[i];
        assert(bookmark@ == bm);
        match &bookmark.info {
            None => {
                assert(expand_bookmark(bm, excluded.deep_view()) =~= Seq::<RawRegModel>::empty());
            },
            Some(info) => {
                let ghost meta = bm.info->Some_0;
                let mimetype: String = match &info.metadata.mime_type {
                    None => "application/x-generic".to_owned(),
                    Some(x) => x.mimetype.clone(),
                };
                assert(mimetype@ == mime_or_default(meta.mime_type));
                let na = info.metadata.app_parent.apps.len();
                let mut j: usize = 0;
                assert(meta.apps.take(0) =~= Seq::<ApplicationModel>::empty());
                while j < na
                    invariant
                        0 <= j <= na,
                        na == info.metadata.app_parent.apps@.len(),
                        meta.apps.len() == na,
                        info.metadata@ == meta,
                        mimetype@ == mime_or_default(meta.mime_type),
                        bookmark@ == bm,
                        out.deep_view() =~= pre + expand_apps(bm, meta, meta.apps.take(j as int),
                            excluded.deep_view()),
                    decreases na - j,
                {
                    let ghost appsp = meta.apps.take(j as int);
                    let app = &info.metadata.app_parent.apps[j];
                    assert(app@ == meta.apps[j as int]);
                    match extract_program(app.exec_command.as_str()) {
                        None => {},
                        Some(tok) => {
                            if !vec_contains_string(excluded, &tok) {
                                let reg = RawRegistration {
                                    href: bookmark.href.clone(),
                                    modified: bookmark.modified.clone(),
                                    mimetype: mimetype.clone(),
                                    program: tok,
                                    app_name: app.name.clone(),
                                    app_exec: app.exec_command.clone(),
                                };
                                assert(seq![reg@] =~= expand_app(bm, meta, meta.apps[j as int],
                                    excluded.deep_view()));
                                let ghost before = out.deep_view();
                                out.push(reg);
                                assert(out.deep_view() =~= before.push(reg@));
                            }
                        },
                    }
                    proof {
                        assert(meta.apps.take(j + 1).drop_last() =~= appsp);
                        assert(meta.apps.take(j + 1).last() == meta.apps[j as int]);
                        assert(expand_apps(bm, meta, meta.apps.take(j + 1), excluded.deep_view())
                            == expand_apps(bm, meta, appsp, excluded.deep_view())
                                + expand_app(bm, meta, meta.apps[j as int], excluded.deep_view()));
                        assert(out.deep_view() =~= pre + expand_apps(bm, meta, meta.apps.take(j + 1),
                            excluded.deep_view()));
                    }
                    j = j + 1;
                }
                proof {
                    assert(meta.apps.take(na as int) =~= meta.apps);
                }
            },
        }
        proof {
            assert(recently_used@.take(i + 1).drop_last() =~= recently_used@.take(i as int));
            assert(recently_used@.take(i + 1).last() == bm);
            assert(out.deep_view() =~= spec_expand(recently_used@.take(i + 1),
                excluded.deep_view()));
        }
        i = i + 1;
    }
    proof {
        assert(recently_used@.take(nb as int) =~= recently_used@);
    }
    out
}

/// A registration whose location has been resolved to an absolute path.
pub struct Registration {
    pub path: String,
    pub modified: String,
    pub mimetype: String,
    pub program: String,
    pub app_name: String,
    pub app_exec: String,
}

/// Mathematical image of a [`Registration`].
#[verifier::ext_equal]
pub ghost struct RegModel {
    pub path: Seq<char>,
    pub modified: Seq<char>,
    pub mimetype: Seq<char>,
    pub program: Seq<char>,
    pub app_name: Seq<char>,
    pub app_exec: Seq<char>,
}

impl View for Registration {
    type V = RegModel;

    open spec fn view(&self) -> RegModel {
        RegModel {
            path: self.path@,
            modified: self.modified@,
            mimetype: self.mimetype@,
            program: self.program@,
            app_name: self.app_name@,
            app_exec: self.app_exec@,
        }
    }
}

impl DeepView for Registration {
    type V = RegModel;

    open spec fn deep_view(&self) -> RegModel {
        self.view()
    }
}

/// Names the result of resolving a location to a path: `url::Url::parse`
/// and `url::Url::to_file_path` read nothing but the URL text, so the
/// resolved path is a function of the location alone.
pub uninterp spec fn url_resolved(href: Seq<char>) -> Option<Seq<char>>;

/// Relies on `url::Url::parse` and `url::Url::to_file_path`: parses the
/// location and converts a local `file` URL to a file-system path; `None`
/// when the location is not a URL, does not name a local file, or the path
/// is not UTF-8. A path that comes back is absolute.
#[verifier::external_body]
fn resolve_file_url(href: &str) -> (r: Option<String>)
    ensures
        match r {
            Some(p) => url_resolved(href@) == Some(p@) && p@.len() > 0 && p@[0] == '/',
            None => url_resolved(href@) is None,
        },
{
    let url = match url::Url::parse(href) {
        Ok(u) => u,
        Err(_) => return None,
    };
    let path = match url.to_file_path() {
        Ok(p) => p,
        Err(_) => return None,
    };
    path.to_str().map(|s| s.to_string())
}

/// A raw registration whose resolution came back with path `p`.
pub open spec fn resolved_reg(rr: RawRegModel, p: Seq<char>) -> RegModel {
    RegModel {
        path: p,
        modified: rr.modified,
        mimetype: rr.mimetype,
        program: rr.program,
        app_name: rr.app_name,
        app_exec: rr.app_exec,
    }
}

/// The registrations that survive resolution: those whose location resolves
/// to a path, in order, carrying it.
pub open spec fn spec_resolve(raw: Seq<RawRegModel>) -> Seq<RegModel>
    decreases raw.len(),
{
    if raw.len() == 0 {
        Seq::empty()
    } else {
        let rest = spec_resolve(raw.drop_last());
        match url_resolved(raw.last().href) {
            Some(p) => rest + seq![resolved_reg(raw.last(), p)],
            None => rest,
        }
    }
}

/// Resolves each registration's location; a registration whose location does
/// not resolve is dropped, never failing the run.
pub fn resolve_registrations(raw: Vec<RawRegistration>) -> (r: Vec<Registration>)
    ensures
        r.deep_view() == spec_resolve(raw.deep_view()),
{
    let ghost raw0 = raw.deep_view();
    let mut rest = raw;
    let mut out: Vec<Registration> = Vec::new();
    let ghost mut k: int = 0;
    proof {
        assert(rest.deep_view() =~= raw0.skip(0));
        assert(out.deep_view() =~= spec_resolve(raw0.take(0)));
    }
    while rest.len() > 0
        invariant
            0 <= k <= raw0.len(),
            rest.deep_view() =~= raw0.skip(k),
            out.deep_view() =~= spec_resolve(raw0.take(k)),
        decreases rest.len(),
    {
        let ghost pre = out.deep_view();
        proof {
            assert(rest.deep_view().len() == rest@.len());
            assert(raw0.skip(k).len() == raw0.len() - k);
            assert(k < raw0.len());
        }
        let ghost prev_vec = rest@;
        let ghost prevd = rest.deep_view();
        let rr = rest.remove(0);
        assert(rr.deep_view() == raw0.skip(k)[0]);
        assert(rr@ == raw0[k]);
        proof {
            assert(rest@ =~= prev_vec.subrange(1, prev_vec.len() as int));
            assert forall|i: int| 0 <= i < rest@.len() implies rest.deep_view()[i] == raw0.skip(
                k + 1,
            )[i] by {
                assert(rest@[i] == prev_vec[i + 1]);
                assert(rest.deep_view()[i] == prev_vec[i + 1].deep_view());
                assert(prev_vec[i + 1].deep_view() == prevd[i + 1]);
                assert(prevd[i + 1] == raw0.skip(k)[i + 1]);
                assert(raw0.skip(k)[i + 1] == raw0.skip(k + 1)[i]);
            }
            assert(rest.deep_view().len() == raw0.skip(k + 1).len());
            assert(rest.deep_view() =~= raw0.skip(k + 1));
        }
        match resolve_file_url(rr.href.as_str()) {
            Some(p) => {
                let ghost pv = p@;
                assert(url_resolved(raw0[k].href) == Some(pv));
                let reg = Registration {
                    path: p,
                    modified: rr.modified,
                    mimetype: rr.mimetype,
                    program: rr.program,
                    app_name: rr.app_name,
                    app_exec: rr.app_exec,
                };
                assert(reg@ == resolved_reg(raw0[k], pv));
                out.push(reg);
                proof {
                    assert(out.deep_view() =~= pre.push(reg@));
                }
            },
            None => {
                assert(url_resolved(raw0[k].href) is None);
            },
        }
        proof {
            assert(raw0.take(k + 1).drop_last() =~= raw0.take(k));
            assert(raw0.take(k + 1).last() == raw0[k]);
            assert(out.deep_view() =~= spec_resolve(raw0.take(k + 1)));
            k = k + 1;
        }
    }
    proof {
        assert(k == raw0.len());
        assert(raw0.take(raw0.len() as int) =~= raw0);
        assert(out.deep_view() == spec_resolve(raw0));
    }
    out
}

/// One program's group: the owning-program token and its file entries.
pub struct ProgramGroup {
    pub program: String,
    pub entries: Vec<File>,
}

/// Mathematical image of a [`ProgramGroup`].
#[verifier::ext_equal]
pub ghost struct GroupModel {
    pub program: Seq<char>,
    pub entries: Seq<EntryModel>,
}

impl View for ProgramGroup {
    type V = GroupModel;

    open spec fn view(&self) -> GroupModel {
        GroupModel { program: self.program@, entries: self.entries.deep_view() }
    }
}

impl DeepView for ProgramGroup {
    type V = GroupModel;

    open spec fn deep_view(&self) -> GroupModel {
        self.view()
    }
}

/// First group, if any, owned by `program`.
pub open spec fn find_group(gs: Seq<GroupModel>, program: Seq<char>) -> Option<int>
    decreases gs.len(),
{
    if gs.len() == 0 {
        None
    } else if gs[0].program == program {
        Some(0)
    } else {
        match find_group(gs.drop_first(), program) {
            Some(k) => Some(k + 1),
            None => None,
        }
    }
}

/// What `find_group` finds: the first group owned by `program`, if any.
pub proof fn lemma_find_group_props(gs: Seq<GroupModel>, program: Seq<char>)
    ensures
        match find_group(gs, program) {
            Some(i) => 0 <= i < gs.len() && gs[i].program == program && forall|j: int|
                0 <= j < i ==> gs[j].program != program,
            None => forall|i: int| 0 <= i < gs.len() ==> gs[i].program != program,
        },
    decreases gs.len(),
{
    if gs.len() != 0 && gs[0].program != program {
        lemma_find_group_props(gs.drop_first(), program);
        match find_group(gs.drop_first(), program) {
            Some(k) => {
                assert(gs[k + 1] == gs.drop_first()[k]);
                assert forall|j: int| 0 <= j < k + 1 implies gs[j].program != program by {
                    if j > 0 {
                        assert(gs.drop_first()[j - 1] == gs[j]);
                    }
                }
            },
            None => {
                assert forall|i: int| 0 <= i < gs.len() implies gs[i].program != program by {
                    if i > 0 {
                        assert(gs.drop_first()[i - 1] == gs[i]);
                    }
                }
            },
        }
    }
}

/// Any index with the properties of `lemma_find_group_props` is what
/// `find_group` returns.
pub proof fn lemma_find_group_unique(gs: Seq<GroupModel>, program: Seq<char>, i: int)
    requires
        0 <= i <= gs.len(),
        forall|j: int| 0 <= j < i ==> gs[j].program != program,
        i < gs.len() ==> gs[i].program == program,
    ensures
        find_group(gs, program) == if i < gs.len() {
            Some(i)
        } else {
            Option::<int>::None
        },
    decreases gs.len(),
{
    if gs.len() != 0 && gs[0].program != program {
        assert(forall|j: int| 0 <= j < gs.drop_first().len() ==> gs.drop_first()[j] == gs[j + 1]);
        lemma_find_group_unique(gs.drop_first(), program, i - 1);
    }
}

/// Finds the first group owned by `program`.
pub fn find_group_idx(files: &Vec<ProgramGroup>, program: &String) -> (r: Option<usize>)
    ensures
        match r {
            Some(u) => find_group(files.deep_view(), program@) == Some(u as int),
            None => find_group(files.deep_view(), program@) is None,
        },
{
    let n = files.len();
    let mut i: usize = 0;
    while i < n
        invariant
            0 <= i <= n,
            n == files@.len(),
            forall|j: int| 0 <= j < i ==> files.deep_view()[j].program != program@,
        decreases n - i,
    {
        if files[i].program.eq(program) {
            assert(files.deep_view()[i as int].program == program@);
            proof {
                lemma_find_group_unique(files.deep_view(), program@, i as int);
            }
            return Some(i);
        }
        i = i + 1;
    }
    proof {
        lemma_find_group_unique(files.deep_view(), program@, n as int);
    }
    None
}

/// First entry, if any, holding `path`.
pub open spec fn find_entry(es: Seq<EntryModel>, path: Seq<char>) -> Option<int>
    decreases es.len(),
{
    if es.len() == 0 {
        None
    } else if es[0].path == path {
        Some(0)
    } else {
        match find_entry(es.drop_first(), path) {
            Some(k) => Some(k + 1),
            None => None,
        }
    }
}

/// What `find_entry` finds: the first entry holding `path`, if any.
pub proof fn lemma_find_entry_props(es: Seq<EntryModel>, path: Seq<char>)
    ensures
        match find_entry(es, path) {
            Some(i) => 0 <= i < es.len() && es[i].path == path && forall|j: int|
                0 <= j < i ==> es[j].path != path,
            None => forall|i: int| 0 <= i < es.len() ==> es[i].path != path,
        },
    decreases es.len(),
{
    if es.len() != 0 && es[0].path != path {
        lemma_find_entry_props(es.drop_first(), path);
        match find_entry(es.drop_first(), path) {
            Some(k) => {
                assert(es[k + 1] == es.drop_first()[k]);
                assert forall|j: int| 0 <= j < k + 1 implies es[j].path != path by {
                    if j > 0 {
                        assert(es.drop_first()[j - 1] == es[j]);
                    }
                }
            },
            None => {
                assert forall|i: int| 0 <= i < es.len() implies es[i].path != path by {
                    if i > 0 {
                        assert(es.drop_first()[i - 1] == es[i]);
                    }
                }
            },
        }
    }
}

/// Any index with the properties of `lemma_find_entry_props` is what
/// `find_entry` returns.
pub proof fn lemma_find_entry_unique(es: Seq<EntryModel>, path: Seq<char>, i: int)
    requires
        0 <= i <= es.len(),
        forall|j: int| 0 <= j < i ==> es[j].path != path,
        i < es.len() ==> es[i].path == path,
    ensures
        find_entry(es, path) == if i < es.len() {
            Some(i)
        } else {
            Option::<int>::None
        },
    decreases es.len(),
{
    if es.len() != 0 && es[0].path != path {
        assert(forall|j: int| 0 <= j < es.drop_first().len() ==> es.drop_first()[j] == es[j + 1]);
        lemma_find_entry_unique(es.drop_first(), path, i - 1);
    }
}

/// Finds the first entry holding `path`.
pub fn find_entry_idx(entries: &Vec<File>, path: &String) -> (r: Option<usize>)
    ensures
        match r {
            Some(u) => find_entry(entries.deep_view(), path@) == Some(u as int),
            None => find_entry(entries.deep_view(), path@) is None,
        },
{
    let n = entries.len();
    let mut i: usize = 0;
    while i < n
        invariant
            0 <= i <= n,
            n == entries@.len(),
            forall|j: int| 0 <= j < i ==> entries.deep_view()[j].path != path@,
        decreases n - i,
    {
        if entries[i].path.eq(path) {
            assert(entries.deep_view()[i as int].path == path@);
            proof {
                lemma_find_entry_unique(entries.deep_view(), path@, i as int);
            }
            return Some(i);
        }
        i = i + 1;
    }
    proof {
        lemma_find_entry_unique(entries.deep_view(), path@, n as int);
    }
    None
}

/// The entry a registration creates: display name from the path's final
/// component, the launcher metadata formatted once, the record's timestamp;
/// attached at birth when every path is to be shown.
pub open spec fn new_entry_spec(r: RegModel, show_all_paths: bool, home: Seq<char>) -> EntryModel {
    let base = EntryModel {
        path: r.path,
        path_added: false,
        filename: file_name_spec(r.path),
        output: output_spec(
            replaced(r.mimetype, '/', '-'),
            r.path,
            r.app_name,
            r.app_exec,
            mime_suffix_spec(r.mimetype),
        ),
        date: r.modified,
    };
    if show_all_paths {
        attach_spec(base, home)
    } else {
        base
    }
}

/// Merging a repeated registration of one path appends its searchable tail
/// to the existing entry's metadata; nothing else of the entry changes.
pub open spec fn merged_entry(e: EntryModel, r: RegModel) -> EntryModel {
    EntryModel {
        path: e.path,
        path_added: e.path_added,
        filename: e.filename,
        output: e.output + output_tail_spec(r.app_name, r.app_exec, mime_suffix_spec(r.mimetype)),
        date: e.date,
    }
}

/// How one registration lands in the groups: a new group for an unseen
/// program; a new entry in its group for an unseen path; a merge into the
/// first entry already holding the path.
pub open spec fn insert_reg(
    gs: Seq<GroupModel>,
    r: RegModel,
    show_all_paths: bool,
    home: Seq<char>,
) -> Seq<GroupModel> {
    match find_group(gs, r.program) {
        None => gs.push(
            GroupModel { program: r.program, entries: seq![new_entry_spec(r, show_all_paths, home)] },
        ),
        Some(gi) => {
            let g = gs[gi];
            match find_entry(g.entries, r.path) {
                None => gs.update(
                    gi,
                    GroupModel {
                        program: g.program,
                        entries: g.entries.push(new_entry_spec(r, show_all_paths, home)),
                    },
                ),
                Some(ei) => gs.update(
                    gi,
                    GroupModel {
                        program: g.program,
                        entries: g.entries.update(ei, merged_entry(g.entries[ei], r)),
                    },
                ),
            }
        },
    }
}

/// The groups built from a registration sequence, in traversal order.
pub open spec fn spec_aggregate(
    regs: Seq<RegModel>,
    show_all_paths: bool,
    home: Seq<char>,
) -> Seq<GroupModel>
    decreases regs.len(),
{
    if regs.len() == 0 {
        Seq::empty()
    } else {
        insert_reg(
            spec_aggregate(regs.drop_last(), show_all_paths, home),
            regs.last(),
            show_all_paths,
            home,
        )
    }
}

/// Builds the entry a registration creates.
fn make_entry(r: &Registration, show_all_paths: bool, home: &str) -> (e: File)
    ensures
        e@ == new_entry_spec(r@, show_all_paths, home@),
{
    let icon = replace_char(r.mimetype.as_str(), '/', '-');
    let suffix = mime_suffix(r.mimetype.as_str());
    let filename = file_name_of(r.path.as_str());
    let output = format_output(
        icon.as_str(),
        r.path.as_str(),
        r.app_name.as_str(),
        r.app_exec.as_str(),
        suffix.as_str(),
    );
    let mut e = File {
        path: r.path.clone(),
        path_added: false,
        filename,
        output,
        date: r.modified.clone(),
    };
    if show_all_paths {
        e.add_path(home);
    }
    e
}

/// Groups the resolved registrations by owning program, deduplicating by
/// path within each group and merging repeats into the entry's metadata.
pub fn aggregate_registrations(
    regs: Vec<Registration>,
    show_all_paths: bool,
    home: &str,
) -> (files: Vec<ProgramGroup>)
    ensures
        files.deep_view() == spec_aggregate(regs.deep_view(), show_all_paths, home@),
{
    let ghost regs0 = regs.deep_view();
    let mut rest = regs;
    let mut files: Vec<ProgramGroup> = Vec::new();
    let ghost mut k: int = 0;
    proof {
        assert(rest.deep_view() =~= regs0.skip(0));
        assert(files.deep_view() =~= spec_aggregate(regs0.take(0), show_all_paths, home@));
    }
    while rest.len() > 0
        invariant
            0 <= k <= regs0.len(),
            rest.deep_view() =~= regs0.skip(k),
            files.deep_view() =~= spec_aggregate(regs0.take(k), show_all_paths, home@),
        decreases rest.len(),
    {
        let ghost fsv = files.deep_view();
        proof {
            assert(rest.deep_view().len() == rest@.len());
            assert(regs0.skip(k).len() == regs0.len() - k);
            assert(k < regs0.len());
        }
        let ghost prev_vec = rest@;
        let ghost prevd = rest.deep_view();
        let r = rest.remove(0);
        assert(r.deep_view() == regs0.skip(k)[0]);
        assert(r@ == regs0[k]);
        proof {
            assert forall|i: int| 0 <= i < rest@.len() implies rest.deep_view()[i] == regs0.skip(
                k + 1,
            )[i] by {
                assert(rest@[i] == prev_vec[i + 1]);
                assert(rest.deep_view()[i] == prev_vec[i + 1].deep_view());
                assert(prev_vec[i + 1].deep_view() == prevd[i + 1]);
                assert(prevd[i + 1] == regs0.skip(k)[i + 1]);
                assert(regs0.skip(k)[i + 1] == regs0.skip(k + 1)[i]);
            }
            assert(rest.deep_view().len() == regs0.skip(k + 1).len());
            assert(rest.deep_view() =~= regs0.skip(k + 1));
        }
        match find_group_idx(&files, &r.program) {
            None => {
                let entry = make_entry(&r, show_all_paths, home);
                let ghost ev = entry@;
                let mut es: Vec<File> = Vec::new();
                es.push(entry);
                assert(es.deep_view() =~= seq![ev]);
                let g = ProgramGroup { program: r.program, entries: es };
                assert(g@ =~= GroupModel {
                    program: regs0[k].program,
                    entries: seq![new_entry_spec(regs0[k], show_all_paths, home@)],
                });
                files.push(g);
                proof {
                    assert(files.deep_view() =~= fsv.push(
                        GroupModel {
                            program: regs0[k].program,
                            entries: seq![new_entry_spec(regs0[k], show_all_paths, home@)],
                        },
                    ));
                    assert(files.deep_view() =~= insert_reg(fsv, regs0[k], show_all_paths, home@));
                }
            },
            Some(gi) => {
                proof {
                    lemma_find_group_props(fsv, regs0[k].program);
                    assert(files.deep_view().len() == files@.len());
                    assert(gi < files@.len());
                }
                let ghost gm = fsv[gi as int];
                match find_entry_idx(&files[gi].entries, &r.path) {
                    None => {
                        let entry = make_entry(&r, show_all_paths, home);
                        let ghost ev = entry@;
                        let mut g = files.remove(gi);
                        assert(g@ == gm);
                        g.entries.push(entry);
                        assert(g@ =~= GroupModel {
                            program: gm.program,
                            entries: gm.entries.push(ev),
                        });
                        let ghost g2 = g@;
                        files.insert(gi, g);
                        proof {
                            assert(files.deep_view() =~= fsv.update(gi as int, g2));
                            assert(files.deep_view() =~= insert_reg(fsv, regs0[k], show_all_paths,
                                home@));
                        }
                    },
                    Some(ei) => {
                        proof {
                            assert(gm == files@[gi as int].deep_view());
                            assert(find_entry(gm.entries, regs0[k].path) == Some(ei as int));
                            lemma_find_entry_props(gm.entries, regs0[k].path);
                        }
                        let suffix = mime_suffix(r.mimetype.as_str());
                        let tail = format_output_tail(
                            r.app_name.as_str(),
                            r.app_exec.as_str(),
                            suffix.as_str(),
                        );
                        let mut g = files.remove(gi);
                        assert(g@ == gm);
                        proof {
                            assert(g.entries.deep_view().len() == g.entries@.len());
                            assert(ei < g.entries@.len());
                        }
                        let mut entry = g.entries.remove(ei);
                        assert(entry.deep_view() == gm.entries[ei as int]);
                        assert(entry@ == gm.entries[ei as int]);
                        entry.output.append(tail.as_str());
                        assert(entry@ =~= merged_entry(gm.entries[ei as int], regs0[k]));
                        let ghost ev = entry@;
                        g.entries.insert(ei, entry);
                        assert(g.entries.deep_view() =~= gm.entries.update(ei as int, ev));
                        let ghost g2 = g@;
                        files.insert(gi, g);
                        proof {
                            assert(files.deep_view() =~= fsv.update(gi as int, g2));
                            assert(files.deep_view() =~= insert_reg(fsv, regs0[k], show_all_paths,
                                home@));
                        }
                    },
                }
            },
        }
        proof {
            assert(regs0.take(k + 1).drop_last() =~= regs0.take(k));
            assert(regs0.take(k + 1).last() == regs0[k]);
            assert(files.deep_view() =~= spec_aggregate(regs0.take(k + 1), show_all_paths, home@));
            k = k + 1;
        }
    }
    proof {
        assert(regs0.take(regs0.len() as int) =~= regs0);
    }
    files
}

/// The registrations whose program is `p` and path is `q`, in input order.
pub open spec fn regs_matching(regs: Seq<RegModel>, p: Seq<char>, q: Seq<char>) -> Seq<RegModel>
    decreases regs.len(),
{
    if regs.len() == 0 {
        Seq::empty()
    } else {
        let rest = regs_matching(regs.drop_last(), p, q);
        if regs.last().program == p && regs.last().path == q {
            rest + seq![regs.last()]
        } else {
            rest
        }
    }
}

/// The entry a run of same-program same-path registrations accumulates: the
/// first creates it, each later one merges its searchable tail, in order.
pub open spec fn entry_of_matches(
    ms: Seq<RegModel>,
    show_all_paths: bool,
    home: Seq<char>,
) -> EntryModel
    decreases ms.len(),
{
    if ms.len() <= 1 {
        new_entry_spec(ms[0], show_all_paths, home)
    } else {
        merged_entry(entry_of_matches(ms.drop_last(), show_all_paths, home), ms.last())
    }
}

/// Merge additivity, characterized: for any program `p` and path `q`, the
/// groups hold an entry for them exactly when some registration carries
/// them, and that entry is the fold of all such registrations, in input
/// order: created by the first, each later one appending its term group.
pub proof fn lemma_aggregate_entries(
    regs: Seq<RegModel>,
    show_all_paths: bool,
    home: Seq<char>,
    p: Seq<char>,
    q: Seq<char>,
)
    ensures
        ({
            let gs = spec_aggregate(regs, show_all_paths, home);
            let ms = regs_matching(regs, p, q);
            match find_group(gs, p) {
                Some(gi) => match find_entry(gs[gi].entries, q) {
                    Some(ei) => ms.len() > 0 && gs[gi].entries[ei] == entry_of_matches(
                        ms,
                        show_all_paths,
                        home,
                    ),
                    None => ms.len() == 0,
                },
                None => ms.len() == 0,
            }
        }),
    decreases regs.len(),
{
    if regs.len() == 0 {
        lemma_find_group_props(spec_aggregate(regs, show_all_paths, home), p);
        return;
    }
    let prev = regs.drop_last();
    let r = regs.last();
    let gsp = spec_aggregate(prev, show_all_paths, home);
    let gs = spec_aggregate(regs, show_all_paths, home);
    let msp = regs_matching(prev, p, q);
    let ms = regs_matching(regs, p, q);
    lemma_aggregate_entries(prev, show_all_paths, home, p, q);
    lemma_find_group_props(gsp, r.program);
    lemma_find_group_props(gsp, p);
    assert(gs == insert_reg(gsp, r, show_all_paths, home));
    match find_group(gsp, r.program) {
        None => {
            let g = GroupModel {
                program: r.program,
                entries: seq![new_entry_spec(r, show_all_paths, home)],
            };
            assert(gs == gsp.push(g));
            assert(forall|i: int| 0 <= i < gsp.len() ==> #[trigger] gs[i] == gsp[i]);
            assert(gs[gsp.len() as int] == g);
            if r.program == p {
                // the program was unseen: a fresh group lands at the end
                assert(find_group(gsp, p) is None);
                assert(msp.len() == 0);
                lemma_find_group_unique(gs, p, gsp.len() as int);
                assert(find_group(gs, p) == Some(gsp.len() as int));
                if r.path == q {
                    assert(g.entries[0].path == q);
                    lemma_find_entry_unique(g.entries, q, 0);
                    assert(ms =~= msp + seq![r]);
                    assert(ms.len() == 1);
                    assert(ms[0] == r);
                    assert(g.entries[0] == entry_of_matches(ms, show_all_paths, home));
                } else {
                    assert(g.entries[0].path != q);
                    lemma_find_entry_unique(g.entries, q, 1);
                    assert(find_entry(g.entries, q) is None);
                    assert(ms =~= msp);
                }
            } else {
                // some other program's group appears; group `p` is untouched
                assert(ms =~= msp);
                match find_group(gsp, p) {
                    Some(gi) => {
                        lemma_find_group_unique(gs, p, gi);
                        assert(gs[gi] == gsp[gi]);
                    },
                    None => {
                        lemma_find_group_unique(gs, p, gs.len() as int);
                    },
                }
            }
        },
        Some(gi0) => {
            let g0 = gsp[gi0];
            lemma_find_entry_props(g0.entries, r.path);
            lemma_find_entry_props(g0.entries, q);
            let g2 = match find_entry(g0.entries, r.path) {
                None => GroupModel {
                    program: g0.program,
                    entries: g0.entries.push(new_entry_spec(r, show_all_paths, home)),
                },
                Some(ei0) => GroupModel {
                    program: g0.program,
                    entries: g0.entries.update(ei0, merged_entry(g0.entries[ei0], r)),
                },
            };
            assert(gs == gsp.update(gi0, g2));
            assert(forall|i: int|
                0 <= i < gsp.len() && i != gi0 ==> #[trigger] gs[i] == gsp[i]);
            assert(gs[gi0] == g2);
            assert(g2.program == g0.program);
            assert(forall|i: int| 0 <= i < gsp.len() ==> #[trigger] gs[i].program
                == gsp[i].program);
            if r.program == p {
                assert(gi0 == find_group(gsp, p)->Some_0);
                lemma_find_group_unique(gs, p, gi0);
                assert(find_group(gs, p) == Some(gi0));
                match find_entry(g0.entries, r.path) {
                    None => {
                        let ne = new_entry_spec(r, show_all_paths, home);
                        assert(g2.entries == g0.entries.push(ne));
                        assert(forall|i: int| 0 <= i < g0.entries.len()
                            ==> #[trigger] g2.entries[i] == g0.entries[i]);
                        assert(g2.entries[g0.entries.len() as int] == ne);
                        if r.path == q {
                            assert(find_entry(g0.entries, q) is None);
                            assert(msp.len() == 0);
                            lemma_find_entry_unique(g2.entries, q, g0.entries.len() as int);
                            assert(ms =~= msp + seq![r]);
                            assert(ms.len() == 1);
                            assert(ms[0] == r);
                            assert(g2.entries[g0.entries.len() as int] == entry_of_matches(
                                ms,
                                show_all_paths,
                                home,
                            ));
                        } else {
                            assert(ms =~= msp);
                            match find_entry(g0.entries, q) {
                                Some(ei) => {
                                    lemma_find_entry_unique(g2.entries, q, ei);
                                },
                                None => {
                                    lemma_find_entry_unique(
                                        g2.entries,
                                        q,
                                        g2.entries.len() as int,
                                    );
                                },
                            }
                        }
                    },
                    Some(ei0) => {
                        let me = merged_entry(g0.entries[ei0], r);
                        assert(g2.entries == g0.entries.update(ei0, me));
                        assert(forall|i: int| 0 <= i < g0.entries.len() && i != ei0
                            ==> #[trigger] g2.entries[i] == g0.entries[i]);
                        assert(g2.entries[ei0] == me);
                        assert(forall|i: int| 0 <= i < g0.entries.len()
                            ==> #[trigger] g2.entries[i].path == g0.entries[i].path);
                        if r.path == q {
                            assert(find_entry(g0.entries, q) == Some(ei0));
                            assert(msp.len() > 0);
                            assert(g0.entries[ei0] == entry_of_matches(msp, show_all_paths, home));
                            lemma_find_entry_unique(g2.entries, q, ei0);
                            assert(ms =~= msp + seq![r]);
                            assert(ms.drop_last() =~= msp);
                            assert(ms.last() == r);
                            assert(ms.len() > 1);
                            assert(g2.entries[ei0] == entry_of_matches(ms, show_all_paths, home));
                        } else {
                            assert(ms =~= msp);
                            match find_entry(g0.entries, q) {
                                Some(ei) => {
                                    assert(ei != ei0);
                                    lemma_find_entry_unique(g2.entries, q, ei);
                                    assert(g2.entries[ei] == g0.entries[ei]);
                                },
                                None => {
                                    lemma_find_entry_unique(
                                        g2.entries,
                                        q,
                                        g2.entries.len() as int,
                                    );
                                },
                            }
                        }
                    },
                }
            } else {
                // another program's group changed; group `p` is untouched
                assert(ms =~= msp);
                match find_group(gsp, p) {
                    Some(gi) => {
                        assert(gi != gi0);
                        lemma_find_group_unique(gs, p, gi);
                        assert(gs[gi] == gsp[gi]);
                    },
                    None => {
                        lemma_find_group_unique(gs, p, gs.len() as int);
                    },
                }
            }
        },
    }
}

/// The term groups that later matching registrations append, in order.
pub open spec fn tails_concat(ms: Seq<RegModel>) -> Seq<char>
    decreases ms.len(),
{
    if ms.len() == 0 {
        Seq::empty()
    } else {
        tails_concat(ms.drop_last()) + output_tail_spec(
            ms.last().app_name,
            ms.last().app_exec,
            mime_suffix_spec(ms.last().mimetype),
        )
    }
}

/// Merge additivity, spelled out: N matching registrations leave one entry
/// whose metadata is the first registration's followed by exactly the N-1
/// later term groups in input order, while display name, timestamp, path
/// and the attachment flag come from the first registration alone.
pub proof fn lemma_entry_of_matches_shape(ms: Seq<RegModel>, show_all_paths: bool, home: Seq<char>)
    requires
        ms.len() > 0,
    ensures
        ({
            let e = entry_of_matches(ms, show_all_paths, home);
            let first = new_entry_spec(ms[0], show_all_paths, home);
            &&& e.path == first.path
            &&& e.path_added == first.path_added
            &&& e.filename == first.filename
            &&& e.date == first.date
            &&& e.output == first.output + tails_concat(ms.drop_first())
        }),
    decreases ms.len(),
{
    let e = entry_of_matches(ms, show_all_paths, home);
    let first = new_entry_spec(ms[0], show_all_paths, home);
    if ms.len() == 1 {
        assert(ms.drop_first().len() == 0);
        assert(first.output + tails_concat(ms.drop_first()) =~= first.output);
    } else {
        lemma_entry_of_matches_shape(ms.drop_last(), show_all_paths, home);
        assert(ms.drop_last()[0] == ms[0]);
        assert(ms.drop_last().drop_first() =~= ms.drop_first().drop_last());
        assert(ms.drop_first().last() == ms.last());
        assert(ms.drop_first().len() > 0);
        assert(tails_concat(ms.drop_first()) == tails_concat(ms.drop_first().drop_last())
            + output_tail_spec(
            ms.last().app_name,
            ms.last().app_exec,
            mime_suffix_spec(ms.last().mimetype),
        ));
        assert(e.output =~= first.output + tails_concat(ms.drop_first()));
    }
}

/// The paths of `s` are pairwise distinct.
pub open spec fn paths_distinct(s: Seq<EntryModel>) -> bool {
    forall|i: int, j: int| 0 <= i < j < s.len() ==> s[i].path != s[j].path
}

/// Whether some entry of `s` holds path `q`.
pub open spec fn path_in(s: Seq<EntryModel>, q: Seq<char>) -> bool {
    exists|i: int| 0 <= i < s.len() && #[trigger] s[i].path == q
}

/// Within one group, entries' paths are pairwise distinct.
pub open spec fn group_wf(g: GroupModel) -> bool {
    paths_distinct(g.entries)
}

/// Grouping is sound: no two groups share a program, and within each group
/// no two entries share a path.
pub open spec fn wf_groups(gs: Seq<GroupModel>) -> bool {
    &&& forall|i: int, j: int| 0 <= i < j < gs.len() ==> gs[i].program != gs[j].program
    &&& forall|i: int| 0 <= i < gs.len() ==> group_wf(#[trigger] gs[i])
}

/// Landing one registration keeps the grouping sound.
pub proof fn lemma_insert_reg_wf(
    gs: Seq<GroupModel>,
    r: RegModel,
    show_all_paths: bool,
    home: Seq<char>,
)
    requires
        wf_groups(gs),
    ensures
        wf_groups(insert_reg(gs, r, show_all_paths, home)),
{
    lemma_find_group_props(gs, r.program);
    let gs2 = insert_reg(gs, r, show_all_paths, home);
    match find_group(gs, r.program) {
        None => {
            let g = GroupModel {
                program: r.program,
                entries: seq![new_entry_spec(r, show_all_paths, home)],
            };
            assert(group_wf(g));
            assert(forall|i: int| 0 <= i < gs.len() ==> #[trigger] gs2[i] == gs[i]);
            assert(gs2[gs.len() as int] == g);
        },
        Some(gi) => {
            let g = gs[gi];
            lemma_find_entry_props(g.entries, r.path);
            match find_entry(g.entries, r.path) {
                None => {
                    let g2 = GroupModel {
                        program: g.program,
                        entries: g.entries.push(new_entry_spec(r, show_all_paths, home)),
                    };
                    assert(new_entry_spec(r, show_all_paths, home).path == r.path);
                    assert forall|i: int, j: int|
                        0 <= i < j < g2.entries.len() implies g2.entries[i].path
                        != g2.entries[j].path by {
                        if j < g.entries.len() {
                            assert(g2.entries[i] == g.entries[i]);
                            assert(g2.entries[j] == g.entries[j]);
                        } else {
                            assert(g2.entries[i] == g.entries[i]);
                            assert(g2.entries[j] == new_entry_spec(r, show_all_paths, home));
                        }
                    }
                    assert(group_wf(g2));
                },
                Some(ei) => {
                    let g2 = GroupModel {
                        program: g.program,
                        entries: g.entries.update(ei, merged_entry(g.entries[ei], r)),
                    };
                    assert(merged_entry(g.entries[ei], r).path == g.entries[ei].path);
                    assert forall|i: int, j: int|
                        0 <= i < j < g2.entries.len() implies g2.entries[i].path
                        != g2.entries[j].path by {
                        assert(g2.entries[i].path == g.entries[i].path);
                        assert(g2.entries[j].path == g.entries[j].path);
                    }
                    assert(group_wf(g2));
                },
            }
        },
    }
}

/// Grouping correctness: however the registrations run, every entry of a
/// program's group holds a path unique within that group, and no program
/// owns two groups.
pub proof fn lemma_aggregate_wf(regs: Seq<RegModel>, show_all_paths: bool, home: Seq<char>)
    ensures
        wf_groups(spec_aggregate(regs, show_all_paths, home)),
    decreases regs.len(),
{
    if regs.len() != 0 {
        lemma_aggregate_wf(regs.drop_last(), show_all_paths, home);
        lemma_insert_reg_wf(
            spec_aggregate(regs.drop_last(), show_all_paths, home),
            regs.last(),
            show_all_paths,
            home,
        );
    }
}

/// Runs the whole aggregation: expands the records into registrations,
/// resolves each location, and groups what resolves. The result is exactly
/// the fold of the three phases — so two runs on equal inputs agree — and
/// its grouping is sound.
pub fn store_files(
    recently_used: &RecentlyUsed,
    show_all_paths: bool,
    excluded: &Vec<String>,
    home: &str,
) -> (files: Vec<ProgramGroup>)
    ensures
        files.deep_view() == spec_aggregate(
            spec_resolve(spec_expand(recently_used@, excluded.deep_view())),
            show_all_paths,
            home@,
        ),
        wf_groups(files.deep_view()),
{
    let raw = expand_registrations(recently_used, excluded);
    let ghost rawv = raw.deep_view();
    let regs = resolve_registrations(raw);
    let files = aggregate_registrations(regs, show_all_paths, home);
    proof {
        lemma_aggregate_wf(spec_resolve(rawv), show_all_paths, home@);
    }
    files
}

} // verus!
