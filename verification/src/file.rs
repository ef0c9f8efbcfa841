//! One listed file entry and its renderable text: how the launcher line's
//! metadata is formatted, and how a shortened parent-directory fragment is
//! folded into an entry's text when display names collide.

use vstd::prelude::*;
use vstd::string::StrSliceExecFns;
use vstd::string::StringExecFns;

use crate::text::{
    find_from, find_split_idx, has_prefix, lemma_find_from_bounds, lemma_split_idx,
    lemma_trim_slashes_unique, split_idx, str_has_prefix, trim_slashes,
};

verus! {

/// One entry of the listing: a file, the program group it belongs to knows
/// it by `path`; `filename` is what the user sees, `output` the launcher
/// metadata, `date` the last-modified timestamp, and `path_added` whether a
/// parent-directory fragment has already been folded into `output`.
pub struct File {
    pub path: String,
    pub path_added: bool,
    pub filename: String,
    pub output: String,
    pub date: String,
}

/// Mathematical image of a [`File`].
#[verifier::ext_equal]
pub ghost struct EntryModel {
    pub path: Seq<char>,
    pub path_added: bool,
    pub filename: Seq<char>,
    pub output: Seq<char>,
    pub date: Seq<char>,
}

impl View for File {
    type V = EntryModel;

    open spec fn view(&self) -> EntryModel {
        EntryModel {
            path: self.path@,
            path_added: self.path_added,
            filename: self.filename@,
            output: self.output@,
            date: self.date@,
        }
    }
}

impl DeepView for File {
    type V = EntryModel;

    open spec fn deep_view(&self) -> EntryModel {
        self.view()
    }
}

/// The file-name component of a path: its last non-empty segment — trailing
/// slashes dropped, then everything after the last remaining `/` — or the
/// sentinel `/` when the path has no non-empty segment at all.
pub open spec fn file_name_spec(p: Seq<char>) -> Seq<char> {
    let t = trim_slashes(p);
    if t.len() == 0 {
        "/"@
    } else {
        t.skip(split_idx(t) as int)
    }
}

/// Extracts the file-name component of a path.
pub fn file_name_of(path: &str) -> (r: String)
    ensures
        r@ == file_name_spec(path@),
{
    let n = path.unicode_len();
    let mut j: usize = n;
    while j > 0 && path.get_char(j - 1) == '/'
        invariant
            0 <= j <= n,
            n == path@.len(),
            forall|t: int| j <= t < n ==> path@[t] == '/',
        decreases j,
    {
        j = j - 1;
    }
    proof {
        lemma_trim_slashes_unique(path@, j as int);
    }
    if j == 0 {
        assert(trim_slashes(path@) =~= Seq::<char>::empty());
        return "/".to_owned();
    }
    let t = path.substring_char(0, j);
    assert(t@ =~= path@.take(j as int));
    let k = find_split_idx(t);
    proof {
        lemma_split_idx(t@);
        assert(t@[j - 1] != '/');
        assert(split_idx(t@) < j);
    }
    let tail = t.substring_char(k, j);
    assert(tail@ =~= t@.skip(k as int));
    tail.to_owned()
}

/// The searchable tail of an entry's metadata: application name, launch
/// command and content-type suffix, each preceded by one space.
pub open spec fn output_tail_spec(app_name: Seq<char>, app_exec: Seq<char>, mimetype: Seq<char>) -> Seq<char> {
    " "@ + app_name + " "@ + app_exec + " "@ + mimetype
}

/// Formats the searchable tail of an entry's metadata.
pub fn format_output_tail(app_name: &str, app_exec: &str, mimetype: &str) -> (r: String)
    ensures
        r@ == output_tail_spec(app_name@, app_exec@, mimetype@),
{
    let mut out = " ".to_owned();
    out.append(app_name);
    out.append(" ");
    out.append(app_exec);
    out.append(" ");
    out.append(mimetype);
    assert(out@ =~= output_tail_spec(app_name@, app_exec@, mimetype@));
    out
}

/// An entry's full launcher metadata: icon identifier, the absolute path for
/// re-launching, and the searchable tail.
pub open spec fn output_spec(
    icon: Seq<char>,
    absolute_path: Seq<char>,
    app_name: Seq<char>,
    app_exec: Seq<char>,
    mimetype: Seq<char>,
) -> Seq<char> {
    "\u{0}icon\u{1f}"@ + icon + "\u{1f}info\u{1f}"@ + absolute_path + "\u{1f}meta\u{1f}"@
        + output_tail_spec(app_name, app_exec, mimetype)
}

/// Formats an entry's full launcher metadata.
pub fn format_output(
    icon: &str,
    absolute_path: &str,
    app_name: &str,
    app_exec: &str,
    mimetype: &str,
) -> (r: String)
    ensures
        r@ == output_spec(icon@, absolute_path@, app_name@, app_exec@, mimetype@),
{
    let mut out = "\u{0}icon\u{1f}".to_owned();
    out.append(icon);
    out.append("\u{1f}info\u{1f}");
    out.append(absolute_path);
    out.append("\u{1f}meta\u{1f}");
    let tail = format_output_tail(app_name, app_exec, mimetype);
    out.append(tail.as_str());
    assert(out@ =~= output_spec(icon@, absolute_path@, app_name@, app_exec@, mimetype@));
    out
}

/// The content-type suffix: what follows the first `application/x-` of the
/// reported type, up to its next occurrence; empty when the marker is absent.
pub open spec fn mime_suffix_spec(m: Seq<char>) -> Seq<char> {
    let d = "application/x-"@;
    match find_from(m, d, 0) {
        None => Seq::empty(),
        Some(i) => {
            let rest = m.skip(i + d.len());
            match find_from(rest, d, 0) {
                None => rest,
                Some(j) => rest.take(j),
            }
        },
    }
}

/// Extracts the content-type suffix of a reported type.
pub fn mime_suffix(mimetype: &str) -> (r: String)
    ensures
        r@ == mime_suffix_spec(mimetype@),
{
    let delim = "application/x-";
    let dlen = delim.unicode_len();
    let mlen = mimetype.unicode_len();
    match crate::text::find_sub(mimetype, delim) {
        None => String::new(),
        Some(i) => {
            proof {
                lemma_find_from_bounds(mimetype@, delim@, 0, i as int);
            }
            let rest = mimetype.substring_char(i + dlen, mlen);
            assert(rest@ =~= mimetype@.skip(i + dlen));
            match crate::text::find_sub(rest, delim) {
                None => rest.to_owned(),
                Some(j) => {
                    proof {
                        lemma_find_from_bounds(rest@, delim@, 0, j as int);
                    }
                    let piece = rest.substring_char(0, j);
                    assert(piece@ =~= rest@.take(j as int));
                    piece.to_owned()
                },
            }
        },
    }
}

/// Names the result of `urlencoding::decode`: percent-decoding is a function
/// of the characters alone; `None` exactly when the decoded bytes are not
/// valid UTF-8.
pub uninterp spec fn url_decoded(s: Seq<char>) -> Option<Seq<char>>;

/// Relies on `urlencoding::decode`: percent-decodes the string, `Err` exactly
/// when the decoded bytes are not valid UTF-8; never panics.
#[verifier::external_body]
fn percent_decode(s: &str) -> (r: Option<String>)
    ensures
        match r {
            Some(d) => url_decoded(s@) == Some(d@),
            None => url_decoded(s@) is None,
        },
{
    urlencoding::decode(s).ok().map(|c| c.into_owned())
}

/// How `htmlescape::encode_minimal` rewrites one character.
pub open spec fn escaped_char(c: char) -> Seq<char> {
    if c == '"' {
        "&quot;"@
    } else if c == '&' {
        "&amp;"@
    } else if c == '\'' {
        "&#x27;"@
    } else if c == '<' {
        "&lt;"@
    } else if c == '>' {
        "&gt;"@
    } else {
        seq![c]
    }
}

/// A string with its five markup-significant characters entity-encoded.
pub open spec fn html_escaped(s: Seq<char>) -> Seq<char>
    decreases s.len(),
{
    if s.len() == 0 {
        Seq::empty()
    } else {
        escaped_char(s[0]) + html_escaped(s.drop_first())
    }
}

/// Relies on `htmlescape::encode_minimal`: entity-encodes `"`, `&`, `'`, `<`
/// and `>`, leaving every other character as it is.
#[verifier::external_body]
fn encode_minimal_str(s: &str) -> (r: String)
    ensures
        r@ == html_escaped(s@),
{
    htmlescape::encode_minimal(s)
}

/// The parent-directory fragment attached to a colliding entry: the decoded
/// path up to and including its last `/` (the raw path when decoding fails),
/// with a home-directory prefix abbreviated to `~`.
pub open spec fn attach_frag(path: Seq<char>, home: Seq<char>) -> Seq<char> {
    let d = match url_decoded(path) {
        Some(d) => d,
        None => path,
    };
    let parent = d.take(split_idx(d) as int);
    if home.len() > 0 && has_prefix(parent, home) {
        "~"@ + parent.skip(home.len() as int)
    } else {
        parent
    }
}

/// One path attachment: a no-op on an already-attached entry; otherwise the
/// escaped parent fragment is put in front of the entry's text, once, and the
/// one-way flag is set. Nothing else changes.
pub open spec fn attach_spec(e: EntryModel, home: Seq<char>) -> EntryModel {
    if e.path_added {
        e
    } else {
        EntryModel {
            path: e.path,
            path_added: true,
            filename: e.filename,
            output: " <i><small>"@ + html_escaped(attach_frag(e.path, home))
                + "</small></i> "@ + e.output,
            date: e.date,
        }
    }
}

/// Attaching is idempotent: a second attachment changes nothing.
pub proof fn lemma_attach_idempotent(e: EntryModel, home: Seq<char>)
    ensures
        attach_spec(attach_spec(e, home), home) == attach_spec(e, home),
{
}

/// Attaching always leaves the one-way flag set, and touches nothing but the
/// renderable text and the flag.
pub proof fn lemma_attach_sets_flag(e: EntryModel, home: Seq<char>)
    ensures
        attach_spec(e, home).path_added,
        attach_spec(e, home).path == e.path,
        attach_spec(e, home).filename == e.filename,
        attach_spec(e, home).date == e.date,
{
}

impl File {
    /// Folds the shortened parent-directory fragment into the entry's text;
    /// a no-op when it has been folded in before.
    pub fn add_path(&mut self, home: &str)
        ensures
            final(self)@ == attach_spec(old(self)@, home@),
    {
        if self.path_added {
            return;
        }
        let decoded: String = match percent_decode(self.path.as_str()) {
            Some(d) => d,
            None => self.path.clone(),
        };
        let k = find_split_idx(decoded.as_str());
        proof {
            lemma_split_idx(decoded@);
        }
        let parent = decoded.as_str().substring_char(0, k);
        assert(parent@ =~= decoded@.take(k as int));
        let plen = parent.unicode_len();
        let hlen = home.unicode_len();
        let frag: String = if hlen > 0 && str_has_prefix(parent, home) {
            let mut t = "~".to_owned();
            let rest = parent.substring_char(hlen, plen);
            t.append(rest);
            assert(t@ =~= attach_frag(self.path@, home@));
            t
        } else {
            parent.to_owned()
        };
        let escaped = encode_minimal_str(frag.as_str());
        let mut out = " <i><small>".to_owned();
        out.append(escaped.as_str());
        out.append("</small></i> ");
        out.append(self.output.as_str());
        assert(out@ =~= " <i><small>"@ + html_escaped(attach_frag(self.path@, home@))
            + "</small></i> "@ + self.output@);
        self.output = out;
        self.path_added = true;
        assert(self@ =~= attach_spec(old(self)@, home@));
    }
}

} // verus!
