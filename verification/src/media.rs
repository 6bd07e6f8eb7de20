//! Media that arrives with a message.

use vstd::prelude::*;

use crate::text;

verus! {

/// A file that arrived with a message.
#[derive(Debug)]
pub struct MediaAttachment {
    pub file_name: String,
    pub data: Vec<u8>,
    pub mime_type: Option<String>,
}

/// A `MediaAttachment` with its parts as sequences.
pub struct AttachmentView {
    pub file_name: Seq<char>,
    pub data: Seq<u8>,
    pub mime_type: Option<Seq<char>>,
}

impl View for MediaAttachment {
    type V = AttachmentView;

    open spec fn view(&self) -> AttachmentView {
        AttachmentView {
            file_name: self.file_name@,
            data: self.data@,
            mime_type: match self.mime_type {
                Some(mime) => Some(mime@),
                None => None,
            },
        }
    }
}

/// What an attachment is, by its MIME type or its name.
#[derive(Debug, Clone, Copy, PartialEq, Eq, Structural)]
pub enum MediaKind {
    Audio,
    Image,
    Video,
    Document,
    Unknown,
}

/// The part of a name behind its last dot, in small letters; nothing where
/// there is no dot.
pub open spec fn extension(name: Seq<char>) -> Seq<char> {
    match text::rsplit_once(name, '.') {
        Some((_, ext)) => text::ascii_lowercase(ext),
        None => Seq::empty(),
    }
}

/// The extensions of audio files.
pub open spec fn audio_extension(ext: Seq<char>) -> bool {
    ||| ext == "flac"@
    ||| ext == "mp3"@
    ||| ext == "mpeg"@
    ||| ext == "mpga"@
    ||| ext == "m4a"@
    ||| ext == "ogg"@
    ||| ext == "oga"@
    ||| ext == "opus"@
    ||| ext == "wav"@
    ||| ext == "webm"@
}

fn is_audio_extension(ext: &str) -> (r: bool)
    ensures
        r == audio_extension(ext@),
{
    text::same_text(ext, "flac")
        || text::same_text(ext, "mp3")
        || text::same_text(ext, "mpeg")
        || text::same_text(ext, "mpga")
        || text::same_text(ext, "m4a")
        || text::same_text(ext, "ogg")
        || text::same_text(ext, "oga")
        || text::same_text(ext, "opus")
        || text::same_text(ext, "wav")
        || text::same_text(ext, "webm")
}

/// The extensions of image files.
pub open spec fn image_extension(ext: Seq<char>) -> bool {
    ||| ext == "png"@
    ||| ext == "jpg"@
    ||| ext == "jpeg"@
    ||| ext == "gif"@
    ||| ext == "bmp"@
    ||| ext == "webp"@
    ||| ext == "heic"@
    ||| ext == "tiff"@
    ||| ext == "svg"@
}

fn is_image_extension(ext: &str) -> (r: bool)
    ensures
        r == image_extension(ext@),
{
    text::same_text(ext, "png")
        || text::same_text(ext, "jpg")
        || text::same_text(ext, "jpeg")
        || text::same_text(ext, "gif")
        || text::same_text(ext, "bmp")
        || text::same_text(ext, "webp")
        || text::same_text(ext, "heic")
        || text::same_text(ext, "tiff")
        || text::same_text(ext, "svg")
}

/// The extensions of video files.
pub open spec fn video_extension(ext: Seq<char>) -> bool {
    ||| ext == "mp4"@
    ||| ext == "mkv"@
    ||| ext == "avi"@
    ||| ext == "mov"@
    ||| ext == "flv"@
    ||| ext == "wmv"@
}

fn is_video_extension(ext: &str) -> (r: bool)
    ensures
        r == video_extension(ext@),
{
    text::same_text(ext, "mp4")
        || text::same_text(ext, "mkv")
        || text::same_text(ext, "avi")
        || text::same_text(ext, "mov")
        || text::same_text(ext, "flv")
        || text::same_text(ext, "wmv")
}

/// The extensions of documents.
pub open spec fn document_extension(ext: Seq<char>) -> bool {
    ||| ext == "pdf"@
    ||| ext == "doc"@
    ||| ext == "docx"@
    ||| ext == "xls"@
    ||| ext == "xlsx"@
    ||| ext == "ppt"@
    ||| ext == "pptx"@
    ||| ext == "odt"@
    ||| ext == "ods"@
    ||| ext == "odp"@
    ||| ext == "rtf"@
    ||| ext == "txt"@
    ||| ext == "md"@
    ||| ext == "csv"@
    ||| ext == "json"@
    ||| ext == "xml"@
    ||| ext == "html"@
    ||| ext == "epub"@
    ||| ext == "zip"@
}

fn is_document_extension(ext: &str) -> (r: bool)
    ensures
        r == document_extension(ext@),
{
    text::same_text(ext, "pdf")
        || text::same_text(ext, "doc")
        || text::same_text(ext, "docx")
        || text::same_text(ext, "xls")
        || text::same_text(ext, "xlsx")
        || text::same_text(ext, "ppt")
        || text::same_text(ext, "pptx")
        || text::same_text(ext, "odt")
        || text::same_text(ext, "ods")
        || text::same_text(ext, "odp")
        || text::same_text(ext, "rtf")
        || text::same_text(ext, "txt")
        || text::same_text(ext, "md")
        || text::same_text(ext, "csv")
        || text::same_text(ext, "json")
        || text::same_text(ext, "xml")
        || text::same_text(ext, "html")
        || text::same_text(ext, "epub")
        || text::same_text(ext, "zip")
}

/// Whether a MIME type begins with `start`, whatever the case of its letters.
pub open spec fn mime_begins(mime: Option<Seq<char>>, start: Seq<char>) -> bool {
    mime matches Some(mime) && start.is_prefix_of(text::ascii_lowercase(mime))
}

/// What an attachment is: its MIME type decides between audio, image and video;
/// where it does not say, the extension; and what is left is a document where
/// the MIME type is of an application or of text, or the extension is of a
/// document.
pub open spec fn kind_of(attachment: AttachmentView) -> MediaKind {
    let mime = attachment.mime_type;
    let ext = extension(attachment.file_name);
    if mime_begins(mime, "audio/"@) {
        MediaKind::Audio
    } else if mime_begins(mime, "image/"@) {
        MediaKind::Image
    } else if mime_begins(mime, "video/"@) {
        MediaKind::Video
    } else if audio_extension(ext) {
        MediaKind::Audio
    } else if image_extension(ext) {
        MediaKind::Image
    } else if video_extension(ext) {
        MediaKind::Video
    } else if mime_begins(mime, "application/"@) || mime_begins(mime, "text/"@)
        || document_extension(ext) {
        MediaKind::Document
    } else {
        MediaKind::Unknown
    }
}

fn lowercase_extension(name: &str) -> (ext: String)
    ensures
        ext@ == extension(name@),
{
    let chars = text::chars_of(name);
    match text::rfind(chars.as_slice(), '.') {
        None => String::new(),
        Some(i) => {
            let n: usize = chars.len();
            let ext = text::string_of(chars.as_slice(), i + 1, n);
            assert(ext@ =~= name@.skip(i + 1));
            let lower = text::lowercase_chars(ext.as_str());
            let s = text::string_of(lower.as_slice(), 0, lower.len());
            assert(s@ =~= lower@);
            s
        },
    }
}

fn begins(mime: &Option<Vec<char>>, start: &str) -> (r: bool)
    ensures
        r == (mime matches Some(mime) && start@.is_prefix_of(mime@)),
{
    match mime {
        None => false,
        Some(mime) => {
            let start = text::chars_of(start);
            text::starts_with(mime.as_slice(), start.as_slice())
        },
    }
}

impl MediaAttachment {
    /// What the attachment is.
    pub fn kind(&self) -> (kind: MediaKind)
        ensures
            kind == kind_of(self@),
    {
        let mime: Option<Vec<char>> = match &self.mime_type {
            Some(mime) => Some(text::lowercase_chars(mime.as_str())),
            None => None,
        };
        let ext = lowercase_extension(self.file_name.as_str());
        let ext = ext.as_str();
        if begins(&mime, "audio/") {
            MediaKind::Audio
        } else if begins(&mime, "image/") {
            MediaKind::Image
        } else if begins(&mime, "video/") {
            MediaKind::Video
        } else if is_audio_extension(ext) {
            MediaKind::Audio
        } else if is_image_extension(ext) {
            MediaKind::Image
        } else if is_video_extension(ext) {
            MediaKind::Video
        } else if begins(&mime, "application/") || begins(&mime, "text/")
            || is_document_extension(ext) {
            MediaKind::Document
        } else {
            MediaKind::Unknown
        }
    }
}

// ---------------------------------------------------------------------------
// Laws
// ---------------------------------------------------------------------------
/// The extension is what stands behind the last dot, whole, in small letters; a
/// name without a dot has none.
pub proof fn law_extension(before: Seq<char>, ext: Seq<char>)
    requires
        !ext.contains('.'),
    ensures
        extension(before.push('.') + ext) == text::ascii_lowercase(ext),
        extension(ext) == Seq::<char>::empty(),
{
    text::law_split_is_unique(before, '.', ext);
    text::law_split_at_the_last(ext, '.');
    if let Some((a, b)) = text::rsplit_once(ext, '.') {
        assert(ext[a.len() as int] == '.');
    }
}

/// A MIME type begins with a word where its first characters are that word, in
/// capitals or not.
pub proof fn law_mime_begins(mime: Seq<char>, start: Seq<char>)
    ensures
        mime_begins(Some(mime), start) <==> start.len() <= mime.len() && text::ascii_lowercase(
            mime.take(start.len() as int),
        ) == start,
        !mime_begins(None, start),
{
    let lower = text::ascii_lowercase(mime);
    if start.len() <= mime.len() {
        assert(lower.take(start.len() as int) =~= text::ascii_lowercase(
            mime.take(start.len() as int),
        ));
    }
}

/// The extensions by which a file without a telling MIME type is known: those of
/// audio, of images, of video and of documents.
pub proof fn law_known_extensions(ext: Seq<char>)
    ensures
        audio_extension(ext) <==> seq![
            "flac"@,
            "m4a"@,
            "mp3"@,
            "mpeg"@,
            "mpga"@,
            "oga"@,
            "ogg"@,
            "opus"@,
            "wav"@,
            "webm"@,
        ].contains(ext),
        image_extension(ext) <==> seq![
            "bmp"@,
            "gif"@,
            "heic"@,
            "jpeg"@,
            "jpg"@,
            "png"@,
            "svg"@,
            "tiff"@,
            "webp"@,
        ].contains(ext),
        video_extension(ext) <==> seq![
            "avi"@,
            "flv"@,
            "mkv"@,
            "mov"@,
            "mp4"@,
            "wmv"@,
        ].contains(ext),
        document_extension(ext) <==> seq![
            "csv"@,
            "doc"@,
            "docx"@,
            "epub"@,
            "html"@,
            "json"@,
            "md"@,
            "odp"@,
            "ods"@,
            "odt"@,
            "pdf"@,
            "ppt"@,
            "pptx"@,
            "rtf"@,
            "txt"@,
            "xls"@,
            "xlsx"@,
            "xml"@,
            "zip"@,
        ].contains(ext),
{
    let audio = seq![
        "flac"@,
        "m4a"@,
        "mp3"@,
        "mpeg"@,
        "mpga"@,
        "oga"@,
        "ogg"@,
        "opus"@,
        "wav"@,
        "webm"@,
    ];
    assert(audio[0] == "flac"@ && audio[1] == "m4a"@ && audio[2] == "mp3"@ && audio[3] == "mpeg"@
        && audio[4] == "mpga"@ && audio[5] == "oga"@ && audio[6] == "ogg"@ && audio[7] == "opus"@
        && audio[8] == "wav"@ && audio[9] == "webm"@);
    let image = seq![
        "bmp"@,
        "gif"@,
        "heic"@,
        "jpeg"@,
        "jpg"@,
        "png"@,
        "svg"@,
        "tiff"@,
        "webp"@,
    ];
    assert(image[0] == "bmp"@ && image[1] == "gif"@ && image[2] == "heic"@ && image[3] == "jpeg"@
        && image[4] == "jpg"@ && image[5] == "png"@ && image[6] == "svg"@ && image[7] == "tiff"@
        && image[8] == "webp"@);
    let video = seq!["avi"@, "flv"@, "mkv"@, "mov"@, "mp4"@, "wmv"@];
    assert(video[0] == "avi"@ && video[1] == "flv"@ && video[2] == "mkv"@ && video[3] == "mov"@
        && video[4] == "mp4"@ && video[5] == "wmv"@);
    let document = seq![
        "csv"@,
        "doc"@,
        "docx"@,
        "epub"@,
        "html"@,
        "json"@,
        "md"@,
        "odp"@,
        "ods"@,
        "odt"@,
        "pdf"@,
        "ppt"@,
        "pptx"@,
        "rtf"@,
        "txt"@,
        "xls"@,
        "xlsx"@,
        "xml"@,
        "zip"@,
    ];
    assert(document[0] == "csv"@ && document[1] == "doc"@ && document[2] == "docx"@ && document[3]
        == "epub"@ && document[4] == "html"@ && document[5] == "json"@ && document[6] == "md"@
        && document[7] == "odp"@ && document[8] == "ods"@ && document[9] == "odt"@ && document[10]
        == "pdf"@ && document[11] == "ppt"@ && document[12] == "pptx"@ && document[13] == "rtf"@
        && document[14] == "txt"@ && document[15] == "xls"@ && document[16] == "xlsx"@
        && document[17] == "xml"@ && document[18] == "zip"@);
}

/// A MIME type of audio, images or video decides whatever the name is.
pub proof fn law_media_mime_decides(name: Seq<char>, data: Seq<u8>, start: Seq<char>, rest: Seq<char>)
    ensures
        ({
            let kind = kind_of(
                AttachmentView { file_name: name, data, mime_type: Some(start + rest) },
            );
            &&& text::ascii_lowercase(start) == "audio/"@ ==> kind == MediaKind::Audio
            &&& text::ascii_lowercase(start) == "image/"@ ==> kind == MediaKind::Image
            &&& text::ascii_lowercase(start) == "video/"@ ==> kind == MediaKind::Video
        }),
{
    let mime = start + rest;
    reveal_strlit("audio/");
    reveal_strlit("image/");
    reveal_strlit("video/");
    law_mime_begins(mime, "audio/"@);
    law_mime_begins(mime, "image/"@);
    law_mime_begins(mime, "video/"@);
    text::law_lowercase_is_character_by_character(start);
    assert(mime.take(start.len() as int) =~= start);
    assert("audio/"@[0] == 'a' && "image/"@[0] == 'i' && "video/"@[0] == 'v');
    if start.len() == 6 {
        assert(mime.take(6) =~= start);
    }
}

/// Where the MIME type does not say audio, image or video, the extension does;
/// and what no extension tells is a document exactly where the MIME type is of an
/// application or of text or the extension is of a document.
pub proof fn law_extension_decides_the_rest(attachment: AttachmentView)
    requires
        attachment.mime_type matches Some(mime) ==> !"audio/"@.is_prefix_of(
            text::ascii_lowercase(mime),
        ) && !"image/"@.is_prefix_of(text::ascii_lowercase(mime)) && !"video/"@.is_prefix_of(
            text::ascii_lowercase(mime),
        ),
    ensures
        ({
            let ext = extension(attachment.file_name);
            let kind = kind_of(attachment);
            let other = attachment.mime_type matches Some(mime) && ("application/"@.is_prefix_of(
                text::ascii_lowercase(mime),
            ) || "text/"@.is_prefix_of(text::ascii_lowercase(mime)));
            &&& kind == MediaKind::Audio <==> audio_extension(ext)
            &&& kind == MediaKind::Image <==> image_extension(ext)
            &&& kind == MediaKind::Video <==> video_extension(ext)
            &&& kind == MediaKind::Document <==> !audio_extension(ext) && !image_extension(ext)
                && !video_extension(ext) && (document_extension(ext) || other)
        }),
{
    let ext = extension(attachment.file_name);
    reveal_strlit("flac");
    reveal_strlit("mp3");
    reveal_strlit("mpeg");
    reveal_strlit("mpga");
    reveal_strlit("m4a");
    reveal_strlit("ogg");
    reveal_strlit("oga");
    reveal_strlit("opus");
    reveal_strlit("wav");
    reveal_strlit("webm");
    reveal_strlit("png");
    reveal_strlit("jpg");
    reveal_strlit("jpeg");
    reveal_strlit("gif");
    reveal_strlit("bmp");
    reveal_strlit("webp");
    reveal_strlit("heic");
    reveal_strlit("tiff");
    reveal_strlit("svg");
    reveal_strlit("mp4");
    reveal_strlit("mkv");
    reveal_strlit("avi");
    reveal_strlit("mov");
    reveal_strlit("flv");
    reveal_strlit("wmv");
    assert("flac"@[0] == 'f' && "flac"@[1] == 'l' && "flac"@[2] == 'a' && "flac"@[3] == 'c');
    assert("mp3"@[0] == 'm' && "mp3"@[1] == 'p' && "mp3"@[2] == '3');
    assert("mpeg"@[0] == 'm' && "mpeg"@[1] == 'p' && "mpeg"@[2] == 'e' && "mpeg"@[3] == 'g');
    assert("mpga"@[0] == 'm' && "mpga"@[1] == 'p' && "mpga"@[2] == 'g' && "mpga"@[3] == 'a');
    assert("m4a"@[0] == 'm' && "m4a"@[1] == '4' && "m4a"@[2] == 'a');
    assert("ogg"@[0] == 'o' && "ogg"@[1] == 'g' && "ogg"@[2] == 'g');
    assert("oga"@[0] == 'o' && "oga"@[1] == 'g' && "oga"@[2] == 'a');
    assert("opus"@[0] == 'o' && "opus"@[1] == 'p' && "opus"@[2] == 'u' && "opus"@[3] == 's');
    assert("wav"@[0] == 'w' && "wav"@[1] == 'a' && "wav"@[2] == 'v');
    assert("webm"@[0] == 'w' && "webm"@[1] == 'e' && "webm"@[2] == 'b' && "webm"@[3] == 'm');
    assert("png"@[0] == 'p' && "png"@[1] == 'n' && "png"@[2] == 'g');
    assert("jpg"@[0] == 'j' && "jpg"@[1] == 'p' && "jpg"@[2] == 'g');
    assert("jpeg"@[0] == 'j' && "jpeg"@[1] == 'p' && "jpeg"@[2] == 'e' && "jpeg"@[3] == 'g');
    assert("gif"@[0] == 'g' && "gif"@[1] == 'i' && "gif"@[2] == 'f');
    assert("bmp"@[0] == 'b' && "bmp"@[1] == 'm' && "bmp"@[2] == 'p');
    assert("webp"@[0] == 'w' && "webp"@[1] == 'e' && "webp"@[2] == 'b' && "webp"@[3] == 'p');
    assert("heic"@[0] == 'h' && "heic"@[1] == 'e' && "heic"@[2] == 'i' && "heic"@[3] == 'c');
    assert("tiff"@[0] == 't' && "tiff"@[1] == 'i' && "tiff"@[2] == 'f' && "tiff"@[3] == 'f');
    assert("svg"@[0] == 's' && "svg"@[1] == 'v' && "svg"@[2] == 'g');
    assert("mp4"@[0] == 'm' && "mp4"@[1] == 'p' && "mp4"@[2] == '4');
    assert("mkv"@[0] == 'm' && "mkv"@[1] == 'k' && "mkv"@[2] == 'v');
    assert("avi"@[0] == 'a' && "avi"@[1] == 'v' && "avi"@[2] == 'i');
    assert("mov"@[0] == 'm' && "mov"@[1] == 'o' && "mov"@[2] == 'v');
    assert("flv"@[0] == 'f' && "flv"@[1] == 'l' && "flv"@[2] == 'v');
    assert("wmv"@[0] == 'w' && "wmv"@[1] == 'm' && "wmv"@[2] == 'v');
    if audio_extension(ext) {
        assert(!image_extension(ext) && !video_extension(ext));
    }
    if image_extension(ext) {
        assert(!video_extension(ext));
    }
}

/// A view shows the name, the bytes and the MIME type of an attachment.
pub proof fn law_view_shows_the_attachment(attachment: MediaAttachment)
    ensures
        attachment@.file_name == attachment.file_name@,
        attachment@.data == attachment.data@,
        attachment.mime_type matches Some(mime) ==> attachment@.mime_type == Some(mime@),
        attachment.mime_type is None ==> attachment@.mime_type is None,
{
}

} // verus!
