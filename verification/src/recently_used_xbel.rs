//! The shape of the desktop's recently-used registry, as the engine consumes
//! it: one bookmark per historical file-open event, carrying the file's
//! location, its last-modified timestamp, a reported content type, and the
//! applications known to have opened it. Reading and deserializing the
//! registry file itself happens outside the verified library; the engine
//! receives these plain values.

use vstd::prelude::*;

verus! {

/// One application registration: the application's name and the shell
/// command it is launched with.
pub struct Application {
    pub name: String,
    pub exec_command: String,
}

/// Mathematical image of an [`Application`].
#[verifier::ext_equal]
pub ghost struct ApplicationModel {
    pub name: Seq<char>,
    pub exec_command: Seq<char>,
}

impl View for Application {
    type V = ApplicationModel;

    open spec fn view(&self) -> ApplicationModel {
        ApplicationModel { name: self.name@, exec_command: self.exec_command@ }
    }
}

impl DeepView for Application {
    type V = ApplicationModel;

    open spec fn deep_view(&self) -> ApplicationModel {
        self.view()
    }
}

/// Parent of the application registrations of one bookmark.
pub struct ApplicationParent {
    pub apps: Vec<Application>,
}

/// A bookmark's reported content type.
pub struct MimeType {
    pub mimetype: String,
}

/// Metadata of one bookmark: its content type, when reported, and the
/// applications that opened the file.
pub struct Metadata {
    pub mime_type: Option<MimeType>,
    pub app_parent: ApplicationParent,
}

/// Mathematical image of a [`Metadata`].
#[verifier::ext_equal]
pub ghost struct MetadataModel {
    pub mime_type: Option<Seq<char>>,
    pub apps: Seq<ApplicationModel>,
}

impl View for Metadata {
    type V = MetadataModel;

    open spec fn view(&self) -> MetadataModel {
        MetadataModel {
            mime_type: match self.mime_type {
                Some(m) => Some(m.mimetype@),
                None => None,
            },
            apps: self.app_parent.apps.deep_view(),
        }
    }
}

/// Info element of one bookmark.
pub struct Info {
    pub metadata: Metadata,
}

/// A file that was recently opened by the desktop user.
pub struct Bookmark {
    /// The location of the file, normally a `file://` URL.
    pub href: String,
    /// Last-modified timestamp, ISO-8601 text.
    pub modified: String,
    /// Metadata; a bookmark without it carries nothing to list.
    pub info: Option<Info>,
}

/// Mathematical image of a [`Bookmark`].
#[verifier::ext_equal]
pub ghost struct BookmarkModel {
    pub href: Seq<char>,
    pub modified: Seq<char>,
    pub info: Option<MetadataModel>,
}

impl View for Bookmark {
    type V = BookmarkModel;

    open spec fn view(&self) -> BookmarkModel {
        BookmarkModel {
            href: self.href@,
            modified: self.modified@,
            info: match self.info {
                Some(i) => Some(i.metadata@),
                None => None,
            },
        }
    }
}

impl DeepView for Bookmark {
    type V = BookmarkModel;

    open spec fn deep_view(&self) -> BookmarkModel {
        self.view()
    }
}

/// Recently-opened files accessed by the desktop user.
pub struct RecentlyUsed {
    pub bookmarks: Vec<Bookmark>,
}

impl View for RecentlyUsed {
    type V = Seq<BookmarkModel>;

    open spec fn view(&self) -> Seq<BookmarkModel> {
        self.bookmarks.deep_view()
    }
}

} // verus!
