//! The fixed application categories.
//!
//! Each category carries static tables: a display name, an icon name, the
//! MIME types it stands for, and the desktop-file categories to search
//! when an application declares no MIME types. The tables are fixed at
//! build time; each accessor's contract states its table in full.

use vstd::prelude::*;

verus! {

/// A kind of application a desktop lets the user pick a default for.
#[derive(Debug, Clone, Copy, PartialEq, Eq, Hash, Structural)]
pub enum AppCategory {
    WebBrowser,
    EmailClient,
    FileManager,
    TerminalEmulator,
    TextEditor,
    MusicPlayer,
    VideoPlayer,
    ImageViewer,
    DocumentViewer,
    ArchiveManager,
    Calculator,
    Calendar,
    WordProcessor,
    Spreadsheet,
}

/// Every category, in display order.
pub open spec fn all_spec() -> Seq<AppCategory> {
    seq![
        AppCategory::WebBrowser,
        AppCategory::EmailClient,
        AppCategory::FileManager,
        AppCategory::TerminalEmulator,
        AppCategory::TextEditor,
        AppCategory::MusicPlayer,
        AppCategory::VideoPlayer,
        AppCategory::ImageViewer,
        AppCategory::DocumentViewer,
        AppCategory::ArchiveManager,
        AppCategory::Calculator,
        AppCategory::Calendar,
        AppCategory::WordProcessor,
        AppCategory::Spreadsheet,
    ]
}

/// The human-readable name of the category.
pub open spec fn display_name_spec(c: AppCategory) -> Seq<char> {
    match c {
        AppCategory::WebBrowser => "Web Browser"@,
        AppCategory::EmailClient => "Email Client"@,
        AppCategory::FileManager => "File Manager"@,
        AppCategory::TerminalEmulator => "Terminal"@,
        AppCategory::TextEditor => "Text Editor"@,
        AppCategory::MusicPlayer => "Music Player"@,
        AppCategory::VideoPlayer => "Video Player"@,
        AppCategory::ImageViewer => "Image Viewer"@,
        AppCategory::DocumentViewer => "Document Viewer"@,
        AppCategory::ArchiveManager => "Archive Manager"@,
        AppCategory::Calculator => "Calculator"@,
        AppCategory::Calendar => "Calendar"@,
        AppCategory::WordProcessor => "Word Processor"@,
        AppCategory::Spreadsheet => "Spreadsheet"@,
    }
}

/// The themed icon of the category.
pub open spec fn icon_name_spec(c: AppCategory) -> Seq<char> {
    match c {
        AppCategory::WebBrowser => "web-browser"@,
        AppCategory::EmailClient => "mail-client"@,
        AppCategory::FileManager => "system-file-manager"@,
        AppCategory::TerminalEmulator => "utilities-terminal"@,
        AppCategory::TextEditor => "accessories-text-editor"@,
        AppCategory::MusicPlayer => "applications-multimedia"@,
        AppCategory::VideoPlayer => "video-x-generic"@,
        AppCategory::ImageViewer => "image-x-generic"@,
        AppCategory::DocumentViewer => "x-office-document"@,
        AppCategory::ArchiveManager => "package-x-generic"@,
        AppCategory::Calculator => "accessories-calculator"@,
        AppCategory::Calendar => "x-office-calendar"@,
        AppCategory::WordProcessor => "x-office-document"@,
        AppCategory::Spreadsheet => "x-office-spreadsheet"@,
    }
}

/// The MIME types a default is set for when this category is chosen.
pub open spec fn primary_mime_types_spec(c: AppCategory) -> Seq<Seq<char>> {
    match c {
        AppCategory::WebBrowser => seq![
            "x-scheme-handler/http"@,
            "x-scheme-handler/https"@,
            "text/html"@,
            "application/xhtml+xml"@,
        ],
        AppCategory::EmailClient => seq![
            "x-scheme-handler/mailto"@,
            "application/x-extension-eml"@,
            "message/rfc822"@,
        ],
        AppCategory::FileManager => seq!["inode/directory"@],
        AppCategory::TerminalEmulator => Seq::empty(),
        AppCategory::TextEditor => seq!["text/plain"@],
        AppCategory::MusicPlayer => seq![
            "audio/mpeg"@,
            "audio/mp3"@,
            "audio/ogg"@,
            "audio/flac"@,
            "audio/x-wav"@,
            "audio/x-vorbis+ogg"@,
        ],
        AppCategory::VideoPlayer => seq![
            "video/mp4"@,
            "video/x-matroska"@,
            "video/webm"@,
            "video/mpeg"@,
            "video/x-msvideo"@,
            "video/quicktime"@,
        ],
        AppCategory::ImageViewer => seq![
            "image/png"@,
            "image/jpeg"@,
            "image/gif"@,
            "image/webp"@,
            "image/bmp"@,
            "image/svg+xml"@,
        ],
        AppCategory::DocumentViewer => seq![
            "application/pdf"@,
            "application/postscript"@,
            "application/x-bzpdf"@,
            "application/x-gzpdf"@,
        ],
        AppCategory::ArchiveManager => seq![
            "application/zip"@,
            "application/x-tar"@,
            "application/gzip"@,
            "application/x-gzip"@,
            "application/x-bzip2"@,
            "application/x-xz"@,
            "application/x-7z-compressed"@,
            "application/vnd.rar"@,
            "application/x-rar"@,
        ],
        AppCategory::Calculator => Seq::empty(),
        AppCategory::Calendar => seq!["text/calendar"@, "application/x-extension-ics"@],
        AppCategory::WordProcessor => seq![
            "application/msword"@,
            "application/vnd.openxmlformats-officedocument.wordprocessingml.document"@,
            "application/vnd.oasis.opendocument.text"@,
            "application/rtf"@,
        ],
        AppCategory::Spreadsheet => seq![
            "application/vnd.ms-excel"@,
            "application/vnd.openxmlformats-officedocument.spreadsheetml.sheet"@,
            "application/vnd.oasis.opendocument.spreadsheet"@,
            "text/csv"@,
        ],
    }
}

/// Further MIME types offered in a drill-down view.
pub open spec fn extended_mime_types_spec(c: AppCategory) -> Seq<Seq<char>> {
    match c {
        AppCategory::MusicPlayer => seq![
            "audio/aac"@,
            "audio/mp4"@,
            "audio/x-m4a"@,
            "audio/x-aiff"@,
            "audio/x-ape"@,
            "audio/opus"@,
            "audio/x-opus+ogg"@,
        ],
        AppCategory::VideoPlayer => seq![
            "video/x-flv"@,
            "video/3gpp"@,
            "video/ogg"@,
            "video/x-ogm+ogg"@,
        ],
        AppCategory::ImageViewer => seq![
            "image/tiff"@,
            "image/x-icon"@,
            "image/heic"@,
            "image/heif"@,
            "image/avif"@,
        ],
        AppCategory::TextEditor => seq![
            "text/x-csrc"@,
            "text/x-c++src"@,
            "text/x-python"@,
            "text/x-shellscript"@,
            "text/x-rust"@,
            "application/json"@,
            "application/xml"@,
            "text/markdown"@,
            "text/x-ini"@,
            "application/x-wine-extension-ini"@,
            "text/x-yaml"@,
            "text/x-toml"@,
            "text/x-cmake"@,
            "text/x-makefile"@,
            "text/x-log"@,
            "application/x-desktop"@,
            "text/x-java"@,
            "text/x-javascript"@,
            "text/x-typescript"@,
            "text/css"@,
            "text/html"@,
        ],
        _ => Seq::empty(),
    }
}

/// The desktop-file categories searched for applications of this kind.
pub open spec fn desktop_categories_spec(c: AppCategory) -> Seq<Seq<char>> {
    match c {
        AppCategory::Calculator => seq!["Calculator"@],
        AppCategory::Calendar => seq!["Calendar"@],
        AppCategory::TerminalEmulator => seq!["TerminalEmulator"@],
        AppCategory::WebBrowser => seq!["WebBrowser"@],
        AppCategory::EmailClient => seq!["Email"@],
        AppCategory::FileManager => seq!["FileManager"@],
        AppCategory::TextEditor => seq!["TextEditor"@],
        AppCategory::MusicPlayer => seq!["Audio"@, "Music"@, "Player"@],
        AppCategory::VideoPlayer => seq!["Video"@, "AudioVideo"@],
        AppCategory::ImageViewer => seq!["Viewer"@, "Graphics"@],
        AppCategory::DocumentViewer => seq!["Viewer"@, "Office"@],
        AppCategory::ArchiveManager => seq!["Archiving"@, "Compression"@],
        AppCategory::WordProcessor => seq!["WordProcessor"@, "Office"@],
        AppCategory::Spreadsheet => seq!["Spreadsheet"@, "Office"@],
    }
}

impl AppCategory {
    /// Every category, in display order.
    pub fn all() -> (r: Vec<AppCategory>)
        ensures
            r@ == all_spec(),
    {
        let mut r: Vec<AppCategory> = Vec::new();
        r.push(AppCategory::WebBrowser);
        r.push(AppCategory::EmailClient);
        r.push(AppCategory::FileManager);
        r.push(AppCategory::TerminalEmulator);
        r.push(AppCategory::TextEditor);
        r.push(AppCategory::MusicPlayer);
        r.push(AppCategory::VideoPlayer);
        r.push(AppCategory::ImageViewer);
        r.push(AppCategory::DocumentViewer);
        r.push(AppCategory::ArchiveManager);
        r.push(AppCategory::Calculator);
        r.push(AppCategory::Calendar);
        r.push(AppCategory::WordProcessor);
        r.push(AppCategory::Spreadsheet);
        proof {
            assert(r@ =~= all_spec());
        }
        r
    }

    /// The human-readable name of this category.
    pub fn display_name(&self) -> (r: &'static str)
        ensures
            r@ == display_name_spec(*self),
    {
        match self {
            AppCategory::WebBrowser => "Web Browser",
            AppCategory::EmailClient => "Email Client",
            AppCategory::FileManager => "File Manager",
            AppCategory::TerminalEmulator => "Terminal",
            AppCategory::TextEditor => "Text Editor",
            AppCategory::MusicPlayer => "Music Player",
            AppCategory::VideoPlayer => "Video Player",
            AppCategory::ImageViewer => "Image Viewer",
            AppCategory::DocumentViewer => "Document Viewer",
            AppCategory::ArchiveManager => "Archive Manager",
            AppCategory::Calculator => "Calculator",
            AppCategory::Calendar => "Calendar",
            AppCategory::WordProcessor => "Word Processor",
            AppCategory::Spreadsheet => "Spreadsheet",
        }
    }

    /// The themed icon of this category.
    pub fn icon_name(&self) -> (r: &'static str)
        ensures
            r@ == icon_name_spec(*self),
    {
        match self {
            AppCategory::WebBrowser => "web-browser",
            AppCategory::EmailClient => "mail-client",
            AppCategory::FileManager => "system-file-manager",
            AppCategory::TerminalEmulator => "utilities-terminal",
            AppCategory::TextEditor => "accessories-text-editor",
            AppCategory::MusicPlayer => "applications-multimedia",
            AppCategory::VideoPlayer => "video-x-generic",
            AppCategory::ImageViewer => "image-x-generic",
            AppCategory::DocumentViewer => "x-office-document",
            AppCategory::ArchiveManager => "package-x-generic",
            AppCategory::Calculator => "accessories-calculator",
            AppCategory::Calendar => "x-office-calendar",
            AppCategory::WordProcessor => "x-office-document",
            AppCategory::Spreadsheet => "x-office-spreadsheet",
        }
    }

    /// The MIME types a default is set for when this category is chosen.
    pub fn primary_mime_types(&self) -> (r: Vec<&'static str>)
        ensures
            r.deep_view() == primary_mime_types_spec(*self),
    {
        let mut r: Vec<&'static str> = Vec::new();
        match self {
            AppCategory::WebBrowser => {
                r.push("x-scheme-handler/http");
                r.push("x-scheme-handler/https");
                r.push("text/html");
                r.push("application/xhtml+xml");
            },
            AppCategory::EmailClient => {
                r.push("x-scheme-handler/mailto");
                r.push("application/x-extension-eml");
                r.push("message/rfc822");
            },
            AppCategory::FileManager => {
                r.push("inode/directory");
            },
            AppCategory::TerminalEmulator => {},
            AppCategory::TextEditor => {
                r.push("text/plain");
            },
            AppCategory::MusicPlayer => {
                r.push("audio/mpeg");
                r.push("audio/mp3");
                r.push("audio/ogg");
                r.push("audio/flac");
                r.push("audio/x-wav");
                r.push("audio/x-vorbis+ogg");
            },
            AppCategory::VideoPlayer => {
                r.push("video/mp4");
                r.push("video/x-matroska");
                r.push("video/webm");
                r.push("video/mpeg");
                r.push("video/x-msvideo");
                r.push("video/quicktime");
            },
            AppCategory::ImageViewer => {
                r.push("image/png");
                r.push("image/jpeg");
                r.push("image/gif");
                r.push("image/webp");
                r.push("image/bmp");
                r.push("image/svg+xml");
            },
            AppCategory::DocumentViewer => {
                r.push("application/pdf");
                r.push("application/postscript");
                r.push("application/x-bzpdf");
                r.push("application/x-gzpdf");
            },
            AppCategory::ArchiveManager => {
                r.push("application/zip");
                r.push("application/x-tar");
                r.push("application/gzip");
                r.push("application/x-gzip");
                r.push("application/x-bzip2");
                r.push("application/x-xz");
                r.push("application/x-7z-compressed");
                r.push("application/vnd.rar");
                r.push("application/x-rar");
            },
            AppCategory::Calculator => {},
            AppCategory::Calendar => {
                r.push("text/calendar");
                r.push("application/x-extension-ics");
            },
            AppCategory::WordProcessor => {
                r.push("application/msword");
                r.push("application/vnd.openxmlformats-officedocument.wordprocessingml.document");
                r.push("application/vnd.oasis.opendocument.text");
                r.push("application/rtf");
            },
            AppCategory::Spreadsheet => {
                r.push("application/vnd.ms-excel");
                r.push("application/vnd.openxmlformats-officedocument.spreadsheetml.sheet");
                r.push("application/vnd.oasis.opendocument.spreadsheet");
                r.push("text/csv");
            },
        }
        proof {
            assert(r.deep_view() =~= primary_mime_types_spec(*self));
        }
        r
    }

    /// Further MIME types offered in a drill-down view.
    pub fn extended_mime_types(&self) -> (r: Vec<&'static str>)
        ensures
            r.deep_view() == extended_mime_types_spec(*self),
    {
        let mut r: Vec<&'static str> = Vec::new();
        match self {
            AppCategory::MusicPlayer => {
                r.push("audio/aac");
                r.push("audio/mp4");
                r.push("audio/x-m4a");
                r.push("audio/x-aiff");
                r.push("audio/x-ape");
                r.push("audio/opus");
                r.push("audio/x-opus+ogg");
            },
            AppCategory::VideoPlayer => {
                r.push("video/x-flv");
                r.push("video/3gpp");
                r.push("video/ogg");
                r.push("video/x-ogm+ogg");
            },
            AppCategory::ImageViewer => {
                r.push("image/tiff");
                r.push("image/x-icon");
                r.push("image/heic");
                r.push("image/heif");
                r.push("image/avif");
            },
            AppCategory::TextEditor => {
                r.push("text/x-csrc");
                r.push("text/x-c++src");
                r.push("text/x-python");
                r.push("text/x-shellscript");
                r.push("text/x-rust");
                r.push("application/json");
                r.push("application/xml");
                r.push("text/markdown");
                r.push("text/x-ini");
                r.push("application/x-wine-extension-ini");
                r.push("text/x-yaml");
                r.push("text/x-toml");
                r.push("text/x-cmake");
                r.push("text/x-makefile");
                r.push("text/x-log");
                r.push("application/x-desktop");
                r.push("text/x-java");
                r.push("text/x-javascript");
                r.push("text/x-typescript");
                r.push("text/css");
                r.push("text/html");
            },
            _ => {},
        }
        proof {
            assert(r.deep_view() =~= extended_mime_types_spec(*self));
        }
        r
    }

    /// The desktop-file categories searched for applications of this kind.
    pub fn desktop_categories(&self) -> (r: Vec<&'static str>)
        ensures
            r.deep_view() == desktop_categories_spec(*self),
    {
        let mut r: Vec<&'static str> = Vec::new();
        match self {
            AppCategory::Calculator => {
                r.push("Calculator");
            },
            AppCategory::Calendar => {
                r.push("Calendar");
            },
            AppCategory::TerminalEmulator => {
                r.push("TerminalEmulator");
            },
            AppCategory::WebBrowser => {
                r.push("WebBrowser");
            },
            AppCategory::EmailClient => {
                r.push("Email");
            },
            AppCategory::FileManager => {
                r.push("FileManager");
            },
            AppCategory::TextEditor => {
                r.push("TextEditor");
            },
            AppCategory::MusicPlayer => {
                r.push("Audio");
                r.push("Music");
                r.push("Player");
            },
            AppCategory::VideoPlayer => {
                r.push("Video");
                r.push("AudioVideo");
            },
            AppCategory::ImageViewer => {
                r.push("Viewer");
                r.push("Graphics");
            },
            AppCategory::DocumentViewer => {
                r.push("Viewer");
                r.push("Office");
            },
            AppCategory::ArchiveManager => {
                r.push("Archiving");
                r.push("Compression");
            },
            AppCategory::WordProcessor => {
                r.push("WordProcessor");
                r.push("Office");
            },
            AppCategory::Spreadsheet => {
                r.push("Spreadsheet");
                r.push("Office");
            },
        }
        proof {
            assert(r.deep_view() =~= desktop_categories_spec(*self));
        }
        r
    }

    /// The MIME type used to look up the current default of this category:
    /// the first primary MIME type, if the category has any.
    pub fn default_query_mime(&self) -> (r: Option<&'static str>)
        ensures
            match r {
                Some(m) => primary_mime_types_spec(*self).len() > 0 && m@
                    == primary_mime_types_spec(*self)[0],
                None => primary_mime_types_spec(*self).len() == 0,
            },
    {
        let primary = self.primary_mime_types();
        if primary.len() > 0 {
            proof {
                assert(primary.deep_view()[0] == primary@[0]@);
            }
            Some(primary[0])
        } else {
            None
        }
    }
}

} // verus!
