//! Automatic media understanding pipeline for inbound channel messages.
//!
//! The pipeline turns a message's text and attachments into enriched text with
//! media annotations prepended. Writing files, transcribing audio and converting
//! the richer WebP files are left to the caller: `save_request` says what to
//! write, `wants_transcript` what to transcribe, `wants_png` what to convert, and
//! `process` takes what came of it.

use vstd::prelude::*;

use crate::encoding;
use crate::landed_files;
use crate::media;
use crate::media::{AttachmentView, MediaAttachment, MediaKind};
use crate::text;

verus! {

/// `std::path::PathBuf`, which the pipeline only carries.
#[verifier::external_type_specification]
#[verifier::external_body]
pub struct ExPathBuf(std::path::PathBuf);

/// The error of the `image` crate.
#[verifier::external_type_specification]
#[verifier::external_body]
pub struct ExImageError(image::ImageError);

/// Which media the pipeline deals with, and how long landed files stay.
#[derive(Debug)]
pub struct MediaPipelineConfig {
    pub enabled: bool,
    pub transcribe_audio: bool,
    pub describe_images: bool,
    pub summarize_video: bool,
    pub announce_documents: bool,
    pub retention_hours: u64,
}

// ---------------------------------------------------------------------------
// Images for vision
// ---------------------------------------------------------------------------
/// The MIME type of an image; JPEG where the attachment gives none.
pub open spec fn image_mime(attachment: AttachmentView) -> Seq<char> {
    match attachment.mime_type {
        Some(mime) => mime,
        None => "image/jpeg"@,
    }
}

/// Whether an image is WebP, by its MIME type or its extension.
pub open spec fn webp_attachment(attachment: AttachmentView, mime: Seq<char>) -> bool {
    ||| text::same_ignoring_ascii_case(mime, "image/webp"@)
    ||| text::rsplit_once(attachment.file_name, '.') matches Some((_, ext))
        && text::same_ignoring_ascii_case(ext, "webp"@)
}

/// Whether an image is WebP.
pub fn is_webp_attachment(attachment: &MediaAttachment, mime: &str) -> (r: bool)
    ensures
        r == webp_attachment(attachment@, mime@),
{
    if text::eq_ignore_ascii_case(mime, "image/webp") {
        return true;
    }
    let chars = text::chars_of(attachment.file_name.as_str());
    match text::rfind(chars.as_slice(), '.') {
        None => false,
        Some(i) => {
            let n: usize = chars.len();
            let ext = text::string_of(chars.as_slice(), i + 1, n);
            assert(ext@ =~= attachment.file_name@.skip(i + 1));
            text::eq_ignore_ascii_case(ext.as_str(), "webp")
        },
    }
}

/// Whether a WebP file has the lossless layout (`VP8L`) or the extended one
/// (`VP8X`, with transparency or frames) rather than that of one lossy picture.
/// The name of the first chunk tells; it follows the twelve bytes that every file
/// begins with.
pub open spec fn beyond_lossy(data: Seq<u8>) -> bool {
    &&& data.len() >= 16
    &&& data[12] == 0x56
    &&& data[13] == 0x50
    &&& data[14] == 0x38
    &&& data[15] == 0x4c || data[15] == 0x58
}

/// Says whether a WebP file has the lossless layout or the extended one.
pub fn is_beyond_lossy(data: &[u8]) -> (r: bool)
    ensures
        r == beyond_lossy(data@),
{
    data.len() >= 16 && data[12] == 0x56 && data[13] == 0x50 && data[14] == 0x38 && (data[15]
        == 0x4c || data[15] == 0x58)
}

/// The PNG image that a WebP image becomes; `None` where it cannot be decoded
/// or encoded.
pub uninterp spec fn png_from_webp(data: Seq<u8>) -> Option<Seq<u8>>;

/// `image::load_from_memory_with_format` for WebP, and `DynamicImage::write_to`
/// for PNG on what it gives. The result is a function of the bytes alone.
///
/// The lossless layout and the extended one are left out, because the decoder can
/// panic on them: it tests in 16 bits that a lossless prefix code is complete, so
/// that one with too many short codes can pass and index its table out of range,
/// and it fills the buffer of a transparent frame without holding the size of
/// the picture against it.
#[verifier::external_body]
fn webp_to_png(data: &[u8]) -> (r: Result<Vec<u8>, image::ImageError>)
    requires
        !beyond_lossy(data@),
    ensures
        match r {
            Ok(png) => png_from_webp(data@) == Some(png@),
            Err(_) => png_from_webp(data@) is None,
        },
{
    let decoded = image::load_from_memory_with_format(data, image::ImageFormat::WebP)?;
    let mut cursor = std::io::Cursor::new(Vec::new());
    decoded.write_to(&mut cursor, image::ImageFormat::Png)?;
    Ok(cursor.into_inner())
}

/// An image as a vision model takes it.
#[derive(Debug)]
pub struct ImagePayload {
    pub mime: String,
    pub data: Vec<u8>,
}

/// An `ImagePayload` with its parts as sequences.
pub struct PayloadView {
    pub mime: Seq<char>,
    pub data: Seq<u8>,
}

impl View for ImagePayload {
    type V = PayloadView;

    open spec fn view(&self) -> PayloadView {
        PayloadView { mime: self.mime@, data: self.data@ }
    }
}

/// The PNG image in place of the attachment, where there is one.
pub open spec fn payload_with(attachment: AttachmentView, png: Option<Seq<u8>>) -> PayloadView {
    match png {
        Some(png) => PayloadView { mime: "image/png"@, data: png },
        None => PayloadView { mime: image_mime(attachment), data: attachment.data },
    }
}

/// The PNG image for an attachment that is WebP. `converted` is what the caller
/// made of a file in one of the richer layouts, `None` where that failed.
pub open spec fn png_for(attachment: AttachmentView, converted: Option<Seq<u8>>) -> Option<
    Seq<u8>,
> {
    if !webp_attachment(attachment, image_mime(attachment)) {
        None
    } else if beyond_lossy(attachment.data) {
        converted
    } else {
        png_from_webp(attachment.data)
    }
}

/// The image as a vision model takes it: WebP becomes PNG where that succeeds,
/// and everything else stays as it is.
pub open spec fn vision_payload(
    attachment: AttachmentView,
    converted: Option<Seq<u8>>,
) -> PayloadView {
    payload_with(attachment, png_for(attachment, converted))
}

/// Whether an attachment is WebP and could not be made PNG.
pub open spec fn stays_webp(attachment: AttachmentView, converted: Option<Seq<u8>>) -> bool {
    webp_attachment(attachment, image_mime(attachment)) && png_for(attachment, converted) is None
}

/// The view of bytes that may be missing.
pub open spec fn bytes_view(data: Option<Vec<u8>>) -> Option<Seq<u8>> {
    match data {
        Some(data) => Some(data@),
        None => None,
    }
}

/// The view of borrowed bytes that may be missing.
pub open spec fn slice_view(data: Option<&[u8]>) -> Option<Seq<u8>> {
    match data {
        Some(data) => Some(data@),
        None => None,
    }
}

/// The bytes of `data`, copied.
fn copied(data: &[u8]) -> (v: Vec<u8>)
    ensures
        v@ == data@,
{
    let mut v: Vec<u8> = Vec::new();
    let mut i: usize = 0;
    while i < data.len()
        invariant
            i <= data@.len(),
            v@ == data@.take(i as int),
        decreases data@.len() - i,
    {
        v.push(data[i]);
        i += 1;
    }
    assert(data@.take(i as int) =~= data@);
    v
}

fn mime_of(attachment: &MediaAttachment) -> (mime: String)
    ensures
        mime@ == image_mime(attachment@),
{
    match &attachment.mime_type {
        Some(mime) => mime.clone(),
        None => "image/jpeg".to_owned(),
    }
}

/// Puts the PNG image in place of the attachment, where there is one.
pub fn normalized_payload(attachment: &MediaAttachment, png: Option<Vec<u8>>) -> (p: ImagePayload)
    ensures
        p@ == payload_with(attachment@, bytes_view(png)),
{
    match png {
        Some(png) => ImagePayload { mime: "image/png".to_owned(), data: png },
        None => ImagePayload {
            mime: mime_of(attachment),
            data: copied(attachment.data.as_slice()),
        },
    }
}

/// The image as a vision model takes it, and whether it is WebP that could not be
/// made PNG. `converted` is what the caller made of a file in one of the richer
/// layouts.
pub fn image_payload_for_vision(attachment: &MediaAttachment, converted: Option<&[u8]>) -> (r: (
    ImagePayload,
    bool,
))
    ensures
        r.0@ == vision_payload(attachment@, slice_view(converted)),
        r.1 == stays_webp(attachment@, slice_view(converted)),
{
    let mime = mime_of(attachment);
    if !is_webp_attachment(attachment, mime.as_str()) {
        return (normalized_payload(attachment, None), false);
    }
    let data = attachment.data.as_slice();
    let png: Option<Vec<u8>> = if is_beyond_lossy(data) {
        match converted {
            Some(png) => Some(copied(png)),
            None => None,
        }
    } else {
        match webp_to_png(data) {
            Ok(png) => Some(png),
            Err(_) => None,
        }
    };
    let failed: bool = png.is_none();
    (normalized_payload(attachment, png), failed)
}

// ---------------------------------------------------------------------------
// Annotations
// ---------------------------------------------------------------------------
/// The view of a text that may be missing.
pub open spec fn text_view(s: Option<&str>) -> Option<Seq<char>> {
    match s {
        Some(s) => Some(s@),
        None => None,
    }
}

/// Where the audio file is.
pub open spec fn audio_file_note(name: Seq<char>, saved_at: Option<Seq<char>>) -> Seq<char> {
    match saved_at {
        Some(path) => "\n[Audio file: "@ + name + " saved at "@ + path + "]"@,
        None => Seq::empty(),
    }
}

/// What is said of an audio attachment. `transcript` is what the transcription
/// gave, `None` where it failed.
pub open spec fn audio_annotation(
    name: Seq<char>,
    transcribed: bool,
    transcript: Option<Seq<char>>,
    saved_at: Option<Seq<char>>,
) -> Seq<char> {
    let note = audio_file_note(name, saved_at);
    if !transcribed {
        "[Audio: attached]"@ + note
    } else {
        match transcript {
            None => "[Audio: transcription failed]"@ + note,
            Some(transcript) => if text::trimmed(transcript).len() == 0 {
                "[Audio transcription: (empty)]"@ + note
            } else {
                "[Audio transcription: "@ + text::trimmed(transcript) + "]"@ + note
            },
        }
    }
}

/// What is said of an image attachment.
pub open spec fn image_annotation(
    name: Seq<char>,
    payload: PayloadView,
    vision: bool,
    saved_at: Option<Seq<char>>,
) -> Seq<char> {
    match saved_at {
        Some(path) => if vision {
            "[Image: "@ + name + " attached, saved at "@ + path
                + " — the path works with file tools]\n[IMAGE:"@ + path + "]"@
        } else {
            "[Image: "@ + name + " attached, saved at "@ + path + "]"@
        },
        None => if vision {
            "[Image: "@ + name + " attached, will be processed by vision model]\n[IMAGE:data:"@
                + payload.mime + ";base64,"@ + encoding::base64_text(payload.data) + "]"@
        } else {
            "[Image: "@ + name + " attached]"@
        },
    }
}

/// What is said of a video attachment.
pub open spec fn video_annotation(name: Seq<char>, saved_at: Option<Seq<char>>) -> Seq<char> {
    match saved_at {
        Some(path) => "[Video: "@ + name + " attached, saved at "@ + path + "]"@,
        None => "[Video: "@ + name + " attached]"@,
    }
}

/// What is said of a document: its name, its type where that is known, its size,
/// and where it is.
pub open spec fn document_annotation(
    attachment: AttachmentView,
    saved_at: Option<Seq<char>>,
) -> Seq<char> {
    "[Document: "@ + attachment.file_name + " attached"@ + (match attachment.mime_type {
        Some(mime) => ", type "@ + mime,
        None => Seq::empty(),
    }) + ", "@ + text::decimal(attachment.data.len()) + " bytes"@ + (match saved_at {
        Some(path) => ", saved at "@ + path,
        None => Seq::empty(),
    }) + "]"@
}

/// Annotates an image for a vision model, with its bytes inline.
pub fn inline_image(file_name: &str, payload: &ImagePayload) -> (s: String)
    ensures
        s@ == image_annotation(file_name@, payload@, true, None),
{
    let mut s = "[Image: ".to_owned();
    s.append(file_name);
    s.append(" attached, will be processed by vision model]\n[IMAGE:data:");
    s.append(payload.mime.as_str());
    s.append(";base64,");
    s.append(encoding::base64_encode(payload.data.as_slice()).as_str());
    s.append("]");
    s
}

// ---------------------------------------------------------------------------
// The pipeline
// ---------------------------------------------------------------------------
/// The media understanding pipeline. Consumes a message's text and attachments,
/// returning enriched text with media annotations prepended.
#[derive(Debug)]
pub struct MediaPipeline<'a> {
    pub config: &'a MediaPipelineConfig,
    pub transcription_available: bool,
    pub vision_available: bool,
    pub files_root: Option<std::path::PathBuf>,
}

/// A file to write under the files root.
#[derive(Debug)]
pub struct SaveRequest {
    pub file_name: String,
    pub data: Vec<u8>,
}

/// A `SaveRequest` with its parts as sequences.
pub struct SaveView {
    pub file_name: Seq<char>,
    pub data: Seq<u8>,
}

/// The view of a file that may be to write.
pub open spec fn save_view(r: Option<SaveRequest>) -> Option<SaveView> {
    match r {
        Some(r) => Some(SaveView { file_name: r.file_name@, data: r.data@ }),
        None => None,
    }
}

/// An attachment with what came of it: the path that its bytes were saved at,
/// what the transcription gave, `None` where it failed, and the PNG image that
/// the caller made of it.
#[derive(Debug)]
pub struct HandledMedia {
    pub attachment: MediaAttachment,
    pub saved_at: Option<String>,
    pub transcript: Option<String>,
    pub converted: Option<Vec<u8>>,
}

/// A `HandledMedia` with its parts as sequences.
pub struct HandledView {
    pub attachment: AttachmentView,
    pub saved_at: Option<Seq<char>>,
    pub transcript: Option<Seq<char>>,
    pub converted: Option<Seq<u8>>,
}

impl View for HandledMedia {
    type V = HandledView;

    open spec fn view(&self) -> HandledView {
        HandledView {
            attachment: self.attachment@,
            saved_at: match self.saved_at {
                Some(path) => Some(path@),
                None => None,
            },
            transcript: match self.transcript {
                Some(transcript) => Some(transcript@),
                None => None,
            },
            converted: bytes_view(self.converted),
        }
    }
}

/// The views of a list of handled attachments.
pub open spec fn handled_views(items: Seq<HandledMedia>) -> Seq<HandledView> {
    items.map_values(|item: HandledMedia| item@)
}

/// Whether the configuration has the pipeline deal with media of this kind.
pub open spec fn deals_with(config: MediaPipelineConfig, kind: MediaKind) -> bool {
    match kind {
        MediaKind::Audio => config.transcribe_audio,
        MediaKind::Image => config.describe_images,
        MediaKind::Video => config.summarize_video,
        MediaKind::Document => config.announce_documents,
        MediaKind::Unknown => false,
    }
}

/// The annotations in order, each on lines of its own.
pub open spec fn annotation_lines(annotations: Seq<Seq<char>>) -> Seq<char>
    decreases annotations.len(),
{
    if annotations.len() == 0 {
        Seq::empty()
    } else {
        annotation_lines(annotations.drop_last()) + annotations.last() + "\n"@
    }
}

/// The text with the annotations in front of it, and unchanged where there are
/// none.
pub open spec fn enriched(original: Seq<char>, annotations: Seq<Seq<char>>) -> Seq<char> {
    if annotations.len() == 0 {
        original
    } else {
        text::trimmed(
            annotation_lines(annotations) + (if original.len() == 0 {
                Seq::empty()
            } else {
                "\n"@ + original
            }),
        )
    }
}

impl<'a> MediaPipeline<'a> {
    /// Where the bytes of an attachment are: nowhere without a files root.
    pub open spec fn landed_at(self, saved_at: Option<Seq<char>>) -> Option<Seq<char>> {
        if self.files_root is Some {
            saved_at
        } else {
            None
        }
    }

    /// What is said of an attachment that the pipeline deals with.
    pub open spec fn annotation(self, item: HandledView) -> Option<Seq<char>> {
        let kind = media::kind_of(item.attachment);
        let name = item.attachment.file_name;
        let saved_at = self.landed_at(item.saved_at);
        if !deals_with(*self.config, kind) {
            None
        } else {
            match kind {
                MediaKind::Audio => Some(
                    audio_annotation(
                        name,
                        self.transcription_available,
                        item.transcript,
                        saved_at,
                    ),
                ),
                MediaKind::Image => Some(
                    image_annotation(
                        name,
                        vision_payload(item.attachment, item.converted),
                        self.vision_available,
                        saved_at,
                    ),
                ),
                MediaKind::Video => Some(video_annotation(name, saved_at)),
                MediaKind::Document => Some(document_annotation(item.attachment, saved_at)),
                MediaKind::Unknown => None,
            }
        }
    }

    /// What is said of the attachments, in their order.
    pub open spec fn annotations(self, items: Seq<HandledView>) -> Seq<Seq<char>>
        decreases items.len(),
    {
        if items.len() == 0 {
            Seq::empty()
        } else {
            let before = self.annotations(items.drop_last());
            match self.annotation(items.last()) {
                Some(annotation) => before.push(annotation),
                None => before,
            }
        }
    }

    /// The text with its attachments annotated; unchanged where the pipeline is
    /// disabled.
    pub open spec fn processed(self, original: Seq<char>, items: Seq<HandledView>) -> Seq<char> {
        if !self.config.enabled {
            original
        } else {
            enriched(original, self.annotations(items))
        }
    }

    /// What is to be written for an attachment. An image is written as a vision
    /// model takes it, under a name that matches.
    pub open spec fn to_save(
        self,
        attachment: AttachmentView,
        converted: Option<Seq<u8>>,
    ) -> Option<SaveView> {
        let kind = media::kind_of(attachment);
        if !self.config.enabled || self.files_root is None || !deals_with(*self.config, kind) {
            None
        } else if kind == MediaKind::Image {
            let payload = vision_payload(attachment, converted);
            Some(
                SaveView {
                    file_name: landed_files::image_name(attachment.file_name, payload.mime),
                    data: payload.data,
                },
            )
        } else {
            Some(SaveView { file_name: attachment.file_name, data: attachment.data })
        }
    }

    /// Creates a new pipeline. `vision_available` indicates whether the current
    /// model provider supports vision (image description).
    /// `transcription_available` is false when transcription is disabled at the
    /// channel level: audio attachments then fall back to `[Audio: attached]`
    /// annotations.
    pub fn new(
        config: &'a MediaPipelineConfig,
        transcription_available: bool,
        vision_available: bool,
    ) -> (r: Self)
        ensures
            r == (MediaPipeline {
                config,
                transcription_available,
                vision_available,
                files_root: None,
            }),
    {
        MediaPipeline { config, transcription_available, vision_available, files_root: None }
    }

    /// Lands attachment bytes as files under `root` so annotations can carry a
    /// path instead of megabytes of base64. Without a root the pipeline keeps
    /// its inline/announce-only behavior.
    #[must_use]
    pub fn with_files_root(self, root: Option<std::path::PathBuf>) -> (r: Self)
        ensures
            r == (MediaPipeline { files_root: root, ..self }),
    {
        MediaPipeline {
            config: self.config,
            transcription_available: self.transcription_available,
            vision_available: self.vision_available,
            files_root: root,
        }
    }

    fn handles(&self, kind: MediaKind) -> (r: bool)
        ensures
            r == deals_with(*self.config, kind),
    {
        match kind {
            MediaKind::Audio => self.config.transcribe_audio,
            MediaKind::Image => self.config.describe_images,
            MediaKind::Video => self.config.summarize_video,
            MediaKind::Document => self.config.announce_documents,
            MediaKind::Unknown => false,
        }
    }

    fn landed<'b>(&self, saved_at: Option<&'b str>) -> (r: Option<&'b str>)
        ensures
            text_view(r) == self.landed_at(text_view(saved_at)),
    {
        if self.files_root.is_some() {
            saved_at
        } else {
            None
        }
    }

    /// Says whether an attachment is to be transcribed.
    pub fn wants_transcript(&self, attachment: &MediaAttachment) -> (r: bool)
        ensures
            r == (self.config.enabled && self.config.transcribe_audio
                && self.transcription_available && media::kind_of(attachment@)
                == MediaKind::Audio),
    {
        self.config.enabled && self.config.transcribe_audio && self.transcription_available
            && attachment.kind() == MediaKind::Audio
    }

    /// Says whether the caller is to make a PNG image of an attachment.
    pub fn wants_png(&self, attachment: &MediaAttachment) -> (r: bool)
        ensures
            r == (self.config.enabled && self.config.describe_images && media::kind_of(
                attachment@,
            ) == MediaKind::Image && webp_attachment(attachment@, image_mime(attachment@))
                && beyond_lossy(attachment.data@)),
    {
        self.config.enabled && self.config.describe_images && attachment.kind()
            == MediaKind::Image && is_webp_attachment(attachment, mime_of(attachment).as_str())
            && is_beyond_lossy(attachment.data.as_slice())
    }

    /// Says whether an image that the pipeline deals with is WebP and could not be
    /// made PNG, which is worth a warning.
    pub fn leaves_webp(&self, attachment: &MediaAttachment, converted: Option<&[u8]>) -> (r: bool)
        ensures
            r == (self.config.enabled && self.config.describe_images && media::kind_of(
                attachment@,
            ) == MediaKind::Image && stays_webp(attachment@, slice_view(converted))),
    {
        if !self.config.enabled || !self.config.describe_images || attachment.kind()
            != MediaKind::Image {
            return false;
        }
        image_payload_for_vision(attachment, converted).1
    }

    /// Says what is to be written for an attachment under the files root, where
    /// there is one.
    pub fn save_request(&self, attachment: &MediaAttachment, converted: Option<&[u8]>) -> (r:
        Option<SaveRequest>)
        ensures
            save_view(r) == self.to_save(attachment@, slice_view(converted)),
    {
        let kind = attachment.kind();
        if !self.config.enabled || self.files_root.is_none() || !self.handles(kind) {
            return None;
        }
        if kind == MediaKind::Image {
            let (payload, _) = image_payload_for_vision(attachment, converted);
            let file_name = landed_files::image_file_name(
                attachment.file_name.as_str(),
                payload.mime.as_str(),
            );
            Some(SaveRequest { file_name, data: payload.data })
        } else {
            Some(
                SaveRequest {
                    file_name: attachment.file_name.clone(),
                    data: copied(attachment.data.as_slice()),
                },
            )
        }
    }

    /// Annotates audio with what the transcription gave. The raw audio also
    /// lands as a file when a files root is set, so "save that voice note" stays
    /// possible after the transcription is delivered.
    pub fn process_audio(
        &self,
        attachment: &MediaAttachment,
        transcript: Option<&str>,
        saved_at: Option<&str>,
    ) -> (s: String)
        ensures
            s@ == audio_annotation(
                attachment.file_name@,
                self.transcription_available,
                text_view(transcript),
                self.landed_at(text_view(saved_at)),
            ),
    {
        let mut note = String::new();
        match self.landed(saved_at) {
            Some(path) => {
                note.append("\n[Audio file: ");
                note.append(attachment.file_name.as_str());
                note.append(" saved at ");
                note.append(path);
                note.append("]");
            },
            None => {},
        }
        assert(note@ =~= audio_file_note(
            attachment.file_name@,
            self.landed_at(text_view(saved_at)),
        ));
        let mut s = if !self.transcription_available {
            "[Audio: attached]".to_owned()
        } else {
            match transcript {
                None => "[Audio: transcription failed]".to_owned(),
                Some(transcript) => {
                    let trimmed = text::trim(transcript);
                    if trimmed.as_str().is_empty() {
                        "[Audio transcription: (empty)]".to_owned()
                    } else {
                        let mut s = "[Audio transcription: ".to_owned();
                        s.append(trimmed.as_str());
                        s.append("]");
                        s
                    }
                },
            }
        };
        s.append(note.as_str());
        s
    }

    /// Annotates an image. With a files root the (vision-normalized) bytes land
    /// on disk and the annotation carries `[IMAGE:<path>]`, which is real input
    /// for file tools. Inline base64 remains the fallback when no root is set or
    /// the write fails.
    pub fn process_image(
        &self,
        attachment: &MediaAttachment,
        converted: Option<&[u8]>,
        saved_at: Option<&str>,
    ) -> (s: String)
        ensures
            s@ == image_annotation(
                attachment.file_name@,
                vision_payload(attachment@, slice_view(converted)),
                self.vision_available,
                self.landed_at(text_view(saved_at)),
            ),
    {
        let file_name = attachment.file_name.as_str();
        match self.landed(saved_at) {
            Some(path) => {
                let mut s = "[Image: ".to_owned();
                s.append(file_name);
                s.append(" attached, saved at ");
                s.append(path);
                if self.vision_available {
                    s.append(" — the path works with file tools]\n[IMAGE:");
                    s.append(path);
                }
                s.append("]");
                s
            },
            None => if self.vision_available {
                let (payload, _) = image_payload_for_vision(attachment, converted);
                inline_image(file_name, &payload)
            } else {
                let mut s = "[Image: ".to_owned();
                s.append(file_name);
                s.append(" attached]");
                s
            },
        }
    }

    /// Annotates a video. There is no analysis, but the bytes still land as a
    /// reusable file when a root is set.
    pub fn process_video(&self, attachment: &MediaAttachment, saved_at: Option<&str>) -> (s: String)
        ensures
            s@ == video_annotation(
                attachment.file_name@,
                self.landed_at(text_view(saved_at)),
            ),
    {
        let mut s = "[Video: ".to_owned();
        s.append(attachment.file_name.as_str());
        match self.landed(saved_at) {
            Some(path) => {
                s.append(" attached, saved at ");
                s.append(path);
                s.append("]");
            },
            None => {
                s.append(" attached]");
            },
        }
        s
    }

    /// Announces a document. There is no extraction step: the point is that the
    /// agent learns a file arrived, what it is, and (with a files root) where
    /// its bytes are.
    pub fn process_document(
        &self,
        attachment: &MediaAttachment,
        saved_at: Option<&str>,
    ) -> (s: String)
        ensures
            s@ == document_annotation(attachment@, self.landed_at(text_view(saved_at))),
    {
        let mut s = "[Document: ".to_owned();
        s.append(attachment.file_name.as_str());
        s.append(" attached");
        match &attachment.mime_type {
            Some(mime) => {
                s.append(", type ");
                s.append(mime.as_str());
            },
            None => {},
        }
        s.append(", ");
        s.append(text::decimal_text(attachment.data.len() as u128).as_str());
        s.append(" bytes");
        match self.landed(saved_at) {
            Some(path) => {
                s.append(", saved at ");
                s.append(path);
            },
            None => {},
        }
        s.append("]");
        assert(s@ =~= document_annotation(attachment@, self.landed_at(text_view(saved_at))));
        s
    }

    /// Annotates an attachment that the pipeline deals with.
    pub fn annotate(&self, item: &HandledMedia) -> (r: Option<String>)
        ensures
            match r {
                Some(s) => self.annotation(item@) == Some(s@),
                None => self.annotation(item@) is None,
            },
    {
        let kind = item.attachment.kind();
        if !self.handles(kind) {
            return None;
        }
        let saved_at: Option<&str> = match &item.saved_at {
            Some(path) => Some(path.as_str()),
            None => None,
        };
        match kind {
            MediaKind::Audio => {
                let transcript: Option<&str> = match &item.transcript {
                    Some(transcript) => Some(transcript.as_str()),
                    None => None,
                };
                Some(self.process_audio(&item.attachment, transcript, saved_at))
            },
            MediaKind::Image => {
                let converted: Option<&[u8]> = match &item.converted {
                    Some(png) => Some(png.as_slice()),
                    None => None,
                };
                Some(self.process_image(&item.attachment, converted, saved_at))
            },
            MediaKind::Video => Some(self.process_video(&item.attachment, saved_at)),
            MediaKind::Document => Some(self.process_document(&item.attachment, saved_at)),
            MediaKind::Unknown => None,
        }
    }

    /// Processes a message's attachments and returns enriched text. If the
    /// pipeline is disabled via config, returns `original_text` unchanged.
    pub fn process(&self, original_text: &str, items: &[HandledMedia]) -> (s: String)
        ensures
            s@ == self.processed(original_text@, handled_views(items@)),
    {
        if !self.config.enabled {
            return original_text.to_owned();
        }
        let mut lines = String::new();
        let mut any: bool = false;
        let mut i: usize = 0;
        assert(handled_views(items@).take(0) =~= Seq::empty());
        while i < items.len()
            invariant
                i <= items@.len(),
                any == (self.annotations(handled_views(items@).take(i as int)).len() > 0),
                lines@ == annotation_lines(
                    self.annotations(handled_views(items@).take(i as int)),
                ),
            decreases items@.len() - i,
        {
            let ghost before = handled_views(items@).take(i as int);
            let ghost now = handled_views(items@).take(i + 1);
            proof {
                assert(now.drop_last() =~= before);
                assert(now.last() == items@[i as int]@);
            }
            match self.annotate(&items[i]) {
                Some(annotation) => {
                    lines.append(annotation.as_str());
                    lines.append("\n");
                    any = true;
                    proof {
                        let all = self.annotations(now);
                        assert(all.drop_last() =~= self.annotations(before));
                    }
                },
                None => {},
            }
            i += 1;
        }
        assert(handled_views(items@).take(i as int) =~= handled_views(items@));
        if !any {
            return original_text.to_owned();
        }
        if !original_text.is_empty() {
            lines.append("\n");
            lines.append(original_text);
        }
        proof {
            let all = annotation_lines(self.annotations(handled_views(items@)));
            assert(all + Seq::<char>::empty() =~= all);
            assert(all + "\n"@ + original_text@ =~= all + ("\n"@ + original_text@));
        }
        text::trim(lines.as_str())
    }
}

// ---------------------------------------------------------------------------
// Laws
// ---------------------------------------------------------------------------
/// The text comes back unchanged where the pipeline is disabled, where there are
/// no attachments, and where it deals with none of them.
pub proof fn law_nothing_to_say(
    pipeline: MediaPipeline<'_>,
    original: Seq<char>,
    items: Seq<HandledView>,
)
    requires
        !pipeline.config.enabled || forall|i: int|
            0 <= i < items.len() ==> !deals_with(
                *pipeline.config,
                media::kind_of((#[trigger] items[i]).attachment),
            ),
    ensures
        pipeline.processed(original, items) == original,
{
    if pipeline.config.enabled {
        lemma_silent(pipeline, items);
    }
}

proof fn lemma_silent(pipeline: MediaPipeline<'_>, items: Seq<HandledView>)
    requires
        forall|i: int|
            0 <= i < items.len() ==> !deals_with(
                *pipeline.config,
                media::kind_of((#[trigger] items[i]).attachment),
            ),
    ensures
        pipeline.annotations(items).len() == 0,
    decreases items.len(),
{
    if items.len() > 0 {
        assert forall|i: int| 0 <= i < items.drop_last().len() implies !deals_with(
            *pipeline.config,
            media::kind_of((#[trigger] items.drop_last()[i]).attachment),
        ) by {
            assert(items.drop_last()[i] == items[i]);
        }
        lemma_silent(pipeline, items.drop_last());
        assert(items.last() == items[items.len() - 1]);
    }
}

/// The annotations come in the order of the attachments.
pub proof fn law_annotations_in_order(
    pipeline: MediaPipeline<'_>,
    first: Seq<HandledView>,
    rest: Seq<HandledView>,
)
    ensures
        pipeline.annotations(first + rest) == pipeline.annotations(first)
            + pipeline.annotations(rest),
    decreases rest.len(),
{
    if rest.len() == 0 {
        assert(first + rest =~= first);
        assert(pipeline.annotations(first) + pipeline.annotations(rest) =~= pipeline.annotations(
            first,
        ));
    } else {
        law_annotations_in_order(pipeline, first, rest.drop_last());
        assert((first + rest).drop_last() =~= first + rest.drop_last());
        assert((first + rest).last() == rest.last());
        assert(pipeline.annotations(first + rest) =~= pipeline.annotations(first)
            + pipeline.annotations(rest));
    }
}

/// An annotation begins with a bracket.
proof fn lemma_annotation_begins(pipeline: MediaPipeline<'_>, item: HandledView)
    ensures
        pipeline.annotation(item) matches Some(s) ==> s.len() > 0 && s[0] == '[',
{
    reveal_strlit("[Audio: attached]");
    reveal_strlit("[Audio: transcription failed]");
    reveal_strlit("[Audio transcription: (empty)]");
    reveal_strlit("[Audio transcription: ");
    reveal_strlit("[Image: ");
    reveal_strlit("[Video: ");
    reveal_strlit("[Document: ");
}

proof fn lemma_lines_begin(pipeline: MediaPipeline<'_>, items: Seq<HandledView>)
    ensures
        pipeline.annotations(items).len() > 0 ==> annotation_lines(
            pipeline.annotations(items),
        ).len() > 0 && annotation_lines(pipeline.annotations(items))[0] == '[',
    decreases items.len(),
{
    if items.len() > 0 {
        lemma_lines_begin(pipeline, items.drop_last());
        lemma_annotation_begins(pipeline, items.last());
        let before = pipeline.annotations(items.drop_last());
        let all = pipeline.annotations(items);
        if let Some(s) = pipeline.annotation(items.last()) {
            assert(all.drop_last() =~= before);
            assert(annotation_lines(all) == annotation_lines(before) + s + "\n"@);
        }
    }
}

/// The text follows the annotations and an empty line, as it was but for the
/// white space at its end.
pub proof fn law_text_follows_annotations(
    pipeline: MediaPipeline<'_>,
    original: Seq<char>,
    items: Seq<HandledView>,
)
    requires
        pipeline.config.enabled,
        pipeline.annotations(items).len() > 0,
        text::trimmed_end(original).len() > 0,
    ensures
        pipeline.processed(original, items) == annotation_lines(pipeline.annotations(items)) + "\n"@
            + text::trimmed_end(original),
{
    let lines = annotation_lines(pipeline.annotations(items));
    let kept = text::trimmed_end(original);
    let whole = lines + ("\n"@ + original);
    let white = text::is_white();
    lemma_lines_begin(pipeline, items);
    text::lemma_strip_front(whole, white, 0);
    assert(whole.skip(0) =~= whole);
    text::lemma_strip_back_part(original, white);
    let n = lines.len() + 1 + kept.len();
    reveal_strlit("\n");
    assert(original.take(kept.len() as int) == kept);
    assert forall|j: int| n <= j < whole.len() implies white(#[trigger] whole[j]) by {
        assert(whole[j] == original[j - lines.len() - 1]);
    }
    assert(whole[n - 1] == kept.last());
    text::lemma_strip_back(whole, white, n as int);
    assert(whole.take(n as int) =~= lines + "\n"@ + kept);
}

/// A saved image is announced by its path alone: however large it is, the
/// annotation is the same.
pub proof fn law_saved_image_carries_no_bytes(
    name: Seq<char>,
    payload: PayloadView,
    other: PayloadView,
    vision: bool,
    path: Seq<char>,
)
    ensures
        image_annotation(name, payload, vision, Some(path)) == image_annotation(
            name,
            other,
            vision,
            Some(path),
        ),
{
}

/// Without vision no bytes are inlined either.
pub proof fn law_no_bytes_without_vision(
    name: Seq<char>,
    payload: PayloadView,
    other: PayloadView,
    saved_at: Option<Seq<char>>,
)
    ensures
        image_annotation(name, payload, false, saved_at) == image_annotation(
            name,
            other,
            false,
            saved_at,
        ),
{
}

/// Without a files root nothing is saved, and nothing is said to be.
pub proof fn law_nothing_lands_without_a_root(pipeline: MediaPipeline<'_>, item: HandledView)
    requires
        pipeline.files_root is None,
    ensures
        pipeline.to_save(item.attachment, item.converted) is None,
        pipeline.annotation(item) == pipeline.annotation(HandledView { saved_at: None, ..item }),
{
}

/// With a files root, what the pipeline announces is what it has saved: each
/// attachment that gets an annotation, and no other.
pub proof fn law_what_is_announced_is_saved(pipeline: MediaPipeline<'_>, item: HandledView)
    requires
        pipeline.config.enabled,
        pipeline.files_root is Some,
    ensures
        pipeline.to_save(item.attachment, item.converted) is Some <==> pipeline.annotation(item) is Some,
{
}

/// A vision model gets no WebP image but one that could not be made PNG; that one,
/// and every image that is not WebP, it gets as it came.
pub proof fn law_webp_becomes_png(attachment: AttachmentView, converted: Option<Seq<u8>>)
    ensures
        webp_attachment(attachment, image_mime(attachment)) && !stays_webp(attachment, converted)
            ==> vision_payload(attachment, converted).mime == "image/png"@,
        !webp_attachment(attachment, image_mime(attachment)) || stays_webp(attachment, converted)
            ==> vision_payload(attachment, converted) == (PayloadView {
            mime: image_mime(attachment),
            data: attachment.data,
        }),
{
}

/// What the caller converted counts only where the caller was asked to: for any
/// other attachment it changes neither what is said nor what is saved.
pub proof fn law_only_what_was_asked_for_counts(
    pipeline: MediaPipeline<'_>,
    item: HandledView,
    other: Option<Seq<u8>>,
)
    requires
        !(media::kind_of(item.attachment) == MediaKind::Image && webp_attachment(
            item.attachment,
            image_mime(item.attachment),
        ) && beyond_lossy(item.attachment.data)),
    ensures
        pipeline.annotation(item) == pipeline.annotation(HandledView { converted: other, ..item }),
        pipeline.to_save(item.attachment, item.converted) == pipeline.to_save(
            item.attachment,
            other,
        ),
{
}

/// An image that is saved as PNG has a name that says so.
pub proof fn law_saved_png_is_named_so(
    pipeline: MediaPipeline<'_>,
    attachment: AttachmentView,
    converted: Option<Seq<u8>>,
)
    requires
        media::kind_of(attachment) == MediaKind::Image,
    ensures
        pipeline.to_save(attachment, converted) matches Some(saved) ==> {
            let payload = vision_payload(attachment, converted);
            &&& saved.data == payload.data
            &&& landed_files::png_mime(payload.mime) ==> landed_files::png_named(saved.file_name)
        },
{
    landed_files::law_image_names(
        attachment.file_name,
        vision_payload(attachment, converted).mime,
    );
}

// ---------------------------------------------------------------------------
// Laws of the images
// ---------------------------------------------------------------------------
/// An image has the MIME type that it came with, and that of JPEG where it came
/// with none.
pub proof fn law_image_mime(name: Seq<char>, data: Seq<u8>, mime: Seq<char>)
    ensures
        image_mime(AttachmentView { file_name: name, data, mime_type: Some(mime) }) == mime,
        image_mime(AttachmentView { file_name: name, data, mime_type: None }) == "image/jpeg"@,
{
}

/// An image is WebP where its MIME type says so or its name ends in the extension,
/// in capitals or not, and nowhere else.
pub proof fn law_webp_is_told_in_any_case(attachment: AttachmentView, mime: Seq<char>)
    ensures
        webp_attachment(attachment, mime) <==> text::ascii_lowercase(mime) == "image/webp"@ || {
            let name = attachment.file_name;
            name.len() >= 5 && text::ascii_lowercase(name.skip(name.len() - 5)) == ".webp"@
        },
{
    let name = attachment.file_name;
    let n = name.len() as int;
    reveal_strlit("image/webp");
    reveal_strlit("webp");
    reveal_strlit(".webp");
    assert(text::ascii_lowercase("image/webp"@) =~= "image/webp"@);
    assert(text::ascii_lowercase("webp"@) =~= "webp"@);
    assert(".webp"@[0] == '.' && ".webp"@[1] == 'w' && ".webp"@[2] == 'e' && ".webp"@[3] == 'b'
        && ".webp"@[4] == 'p');
    assert("webp"@[0] == 'w' && "webp"@[1] == 'e' && "webp"@[2] == 'b' && "webp"@[3] == 'p');
    text::law_split_at_the_last(name, '.');
    if n >= 5 {
        let five = name.skip(n - 5);
        let lower = text::ascii_lowercase(five);
        if lower == ".webp"@ {
            assert(lower[0] == text::ascii_lower(five[0]));
            text::lemma_only_a_dot_is_made_a_dot(five[0]);
            let ext = five.skip(1);
            assert forall|k: int| 0 <= k < ext.len() implies ext[k] != '.' by {
                assert(lower[k + 1] == text::ascii_lower(five[k + 1]));
                text::lemma_only_a_dot_is_made_a_dot(five[k + 1]);
            }
            text::law_split_is_unique(name.take(n - 5), '.', ext);
            assert(name =~= name.take(n - 5).push('.') + ext);
            assert(text::ascii_lowercase(ext) =~= "webp"@) by {
                assert(lower[1] == text::ascii_lower(five[1]));
                assert(lower[2] == text::ascii_lower(five[2]));
                assert(lower[3] == text::ascii_lower(five[3]));
                assert(lower[4] == text::ascii_lower(five[4]));
            }
        }
    }
    if let Some((before, ext)) = text::rsplit_once(name, '.') {
        if text::same_ignoring_ascii_case(ext, "webp"@) {
            assert(text::ascii_lowercase(ext).len() == 4);
            let five = name.skip(n - 5);
            assert(five =~= seq!['.'] + ext);
            text::lemma_only_a_dot_is_made_a_dot('.');
            assert(text::ascii_lowercase(five) =~= ".webp"@) by {
                let lower = text::ascii_lowercase(ext);
                assert(lower[0] == text::ascii_lower(ext[0]) && lower[1] == text::ascii_lower(
                    ext[1],
                ) && lower[2] == text::ascii_lower(ext[2]) && lower[3] == text::ascii_lower(
                    ext[3],
                ));
            }
        }
    }
}

/// The layout of a WebP file is told by the four bytes behind the first twelve.
pub proof fn law_first_chunk_tells_the_layout(header: Seq<u8>, chunk: Seq<u8>, rest: Seq<u8>)
    requires
        header.len() == 12,
        chunk.len() == 4,
    ensures
        beyond_lossy(header + chunk + rest) <==> chunk == seq![86u8, 80u8, 56u8, 76u8] || chunk
            == seq![86u8, 80u8, 56u8, 88u8],
        !beyond_lossy(header + chunk.drop_last()),
{
    let data = header + chunk + rest;
    assert(data[12] == chunk[0] && data[13] == chunk[1] && data[14] == chunk[2] && data[15]
        == chunk[3]);
    if beyond_lossy(data) {
        assert(chunk =~= seq![86u8, 80u8, 56u8, chunk[3]]);
    }
}

/// An image goes to a vision model as it came, byte by byte and under its own MIME
/// type, unless it is WebP for which there is a PNG image; then that image goes, as
/// PNG. For the richer layouts it is the caller's, for the others the converter's.
pub proof fn law_payload_for_vision(attachment: AttachmentView, png: Seq<u8>)
    ensures
        ({
            let webp = webp_attachment(attachment, image_mime(attachment));
            let rich = beyond_lossy(attachment.data);
            let given = vision_payload(attachment, Some(png));
            let none = vision_payload(attachment, None);
            let as_it_came = |p: PayloadView|
                p.data == attachment.data && p.mime == image_mime(attachment);
            let as_png = |p: PayloadView, data: Seq<u8>| p.data == data && p.mime == "image/png"@;
            &&& !webp ==> as_it_came(given) && as_it_came(none)
            &&& webp && rich ==> as_png(given, png) && as_it_came(none)
            &&& webp && !rich ==> match png_from_webp(attachment.data) {
                Some(converted) => as_png(given, converted) && as_png(none, converted),
                None => as_it_came(given) && as_it_came(none),
            }
            &&& stays_webp(attachment, None) <==> webp && (rich || png_from_webp(
                attachment.data,
            ) is None)
            &&& stays_webp(attachment, Some(png)) <==> webp && !rich && png_from_webp(
                attachment.data,
            ) is None
        }),
{
}

/// A payload is the PNG image whole, where there is one.
pub proof fn law_normalized_payload(attachment: AttachmentView, png: Seq<u8>)
    ensures
        payload_with(attachment, Some(png)).data == png,
        payload_with(attachment, Some(png)).mime == "image/png"@,
        payload_with(attachment, None).data == attachment.data,
        payload_with(attachment, None).mime == image_mime(attachment),
{
}

// ---------------------------------------------------------------------------
// Laws of the annotations
// ---------------------------------------------------------------------------
/// Where a transcription gave text, the annotation holds the whole of it, white
/// space at its ends aside: the opening, the text, a bracket and where the file is.
/// Where it gave none, failed or was not made, the annotation says that.
pub proof fn law_transcript_is_kept_whole(
    name: Seq<char>,
    transcript: Seq<char>,
    saved_at: Option<Seq<char>>,
)
    ensures
        ({
            let note = audio_file_note(name, saved_at);
            let kept = text::trimmed(transcript);
            let said = audio_annotation(name, true, Some(transcript), saved_at);
            &&& kept.len() > 0 ==> said == "[Audio transcription: "@ + kept + "]"@ + note
            &&& kept.len() > 0 ==> said.len() == 22 + kept.len() + 1 + note.len() && said.subrange(
                22,
                22 + kept.len() as int,
            ) == kept
            &&& kept.len() == 0 ==> said == "[Audio transcription: (empty)]"@ + note
            &&& audio_annotation(name, true, None, saved_at) == "[Audio: transcription failed]"@
                + note
            &&& audio_annotation(name, false, Some(transcript), saved_at) == "[Audio: attached]"@
                + note
            &&& audio_annotation(name, false, None, saved_at) == "[Audio: attached]"@ + note
        }),
{
    reveal_strlit("[Audio transcription: ");
    reveal_strlit("]");
    let kept = text::trimmed(transcript);
    if kept.len() > 0 {
        let said = audio_annotation(name, true, Some(transcript), saved_at);
        assert(said.subrange(22, 22 + kept.len() as int) =~= kept);
    }
}

/// Two transcripts that differ by more than the white space at their ends have
/// different annotations.
pub proof fn law_transcripts_stay_apart(
    name: Seq<char>,
    a: Seq<char>,
    b: Seq<char>,
    saved_at: Option<Seq<char>>,
)
    requires
        text::trimmed(a).len() > 0,
        text::trimmed(b).len() > 0,
        text::trimmed(a) != text::trimmed(b),
    ensures
        audio_annotation(name, true, Some(a), saved_at) != audio_annotation(
            name,
            true,
            Some(b),
            saved_at,
        ),
{
    law_transcript_is_kept_whole(name, a, saved_at);
    law_transcript_is_kept_whole(name, b, saved_at);
}

/// A landed audio file is named with the whole of its name and of its path, on a
/// line of its own; one that did not land is not spoken of.
pub proof fn law_audio_file_is_named(name: Seq<char>, path: Seq<char>)
    ensures
        audio_file_note(name, Some(path)) == "\n[Audio file: "@ + name + " saved at "@ + path
            + "]"@,
        audio_file_note(name, None).len() == 0,
{
}

/// A landed image is announced by its whole name and path, and to a vision model
/// by the path in a marker of its own; one that did not land goes to a vision model
/// with all of its bytes, and is otherwise announced by its name.
pub proof fn law_image_is_announced(name: Seq<char>, payload: PayloadView, path: Seq<char>)
    ensures
        image_annotation(name, payload, true, Some(path)) == "[Image: "@ + name
            + " attached, saved at "@ + path + " — the path works with file tools]\n[IMAGE:"@ + path
            + "]"@,
        image_annotation(name, payload, false, Some(path)) == "[Image: "@ + name
            + " attached, saved at "@ + path + "]"@,
        image_annotation(name, payload, false, None) == "[Image: "@ + name + " attached]"@,
        image_annotation(name, payload, true, None) == "[Image: "@ + name
            + " attached, will be processed by vision model]\n[IMAGE:data:"@ + payload.mime
            + ";base64,"@ + encoding::base64_text(payload.data) + "]"@,
{
}

/// Images whose bytes differ are inlined for a vision model as texts that differ.
pub proof fn law_inlined_images_stay_apart(
    name: Seq<char>,
    mime: Seq<char>,
    a: Seq<u8>,
    b: Seq<u8>,
)
    requires
        a != b,
    ensures
        image_annotation(name, PayloadView { mime, data: a }, true, None) != image_annotation(
            name,
            PayloadView { mime, data: b },
            true,
            None,
        ),
{
    let head = "[Image: "@ + name + " attached, will be processed by vision model]\n[IMAGE:data:"@
        + mime + ";base64,"@;
    let x = image_annotation(name, PayloadView { mime, data: a }, true, None);
    let y = image_annotation(name, PayloadView { mime, data: b }, true, None);
    reveal_strlit("]");
    if x == y {
        assert(x.subrange(head.len() as int, x.len() - 1) =~= encoding::base64_text(a));
        assert(y.subrange(head.len() as int, y.len() - 1) =~= encoding::base64_text(b));
        encoding::law_base64_reads_back(a);
        encoding::law_base64_reads_back(b);
    }
}

/// A video is announced by its whole name, and by its path where it landed.
pub proof fn law_video_is_announced(name: Seq<char>, path: Seq<char>)
    ensures
        video_annotation(name, Some(path)) == "[Video: "@ + name + " attached, saved at "@ + path
            + "]"@,
        video_annotation(name, None) == "[Video: "@ + name + " attached]"@,
{
}

/// A document is announced by its whole name, the type that it came with if it came
/// with one, the number of all of its bytes, and its path where it landed.
pub proof fn law_document_is_announced(
    name: Seq<char>,
    data: Seq<u8>,
    mime: Seq<char>,
    path: Seq<char>,
)
    ensures
        ({
            let typed = AttachmentView { file_name: name, data, mime_type: Some(mime) };
            let plain = AttachmentView { file_name: name, data, mime_type: None };
            let size = text::decimal(data.len());
            &&& document_annotation(typed, Some(path)) == "[Document: "@ + name + " attached"@ + (
            ", type "@ + mime) + ", "@ + size + " bytes"@ + (", saved at "@ + path) + "]"@
            &&& document_annotation(typed, None) == "[Document: "@ + name + " attached"@ + (
            ", type "@ + mime) + ", "@ + size + " bytes"@ + "]"@
            &&& document_annotation(plain, Some(path)) == "[Document: "@ + name + " attached"@
                + ", "@ + size + " bytes"@ + (", saved at "@ + path) + "]"@
            &&& document_annotation(plain, None) == "[Document: "@ + name + " attached"@ + ", "@
                + size + " bytes"@ + "]"@
        }),
{
    let typed = AttachmentView { file_name: name, data, mime_type: Some(mime) };
    let plain = AttachmentView { file_name: name, data, mime_type: None };
    let size = text::decimal(data.len());
    assert(document_annotation(typed, None) =~= "[Document: "@ + name + " attached"@ + (", type "@
        + mime) + ", "@ + size + " bytes"@ + "]"@);
    assert(document_annotation(plain, Some(path)) =~= "[Document: "@ + name + " attached"@ + ", "@
        + size + " bytes"@ + (", saved at "@ + path) + "]"@);
    assert(document_annotation(plain, None) =~= "[Document: "@ + name + " attached"@ + ", "@ + size
        + " bytes"@ + "]"@);
}

/// Each attachment is announced by what it is, if the configuration has it so, and
/// with the path that it landed at only where there is a files root.
pub proof fn law_each_kind_has_its_annotation(pipeline: MediaPipeline<'_>, item: HandledView)
    ensures
        ({
            let kind = media::kind_of(item.attachment);
            let name = item.attachment.file_name;
            let path = if pipeline.files_root is Some {
                item.saved_at
            } else {
                None
            };
            let said = pipeline.annotation(item);
            &&& kind == MediaKind::Audio ==> said == (if pipeline.config.transcribe_audio {
                Some(
                    audio_annotation(
                        name,
                        pipeline.transcription_available,
                        item.transcript,
                        path,
                    ),
                )
            } else {
                None
            })
            &&& kind == MediaKind::Image ==> said == (if pipeline.config.describe_images {
                Some(
                    image_annotation(
                        name,
                        vision_payload(item.attachment, item.converted),
                        pipeline.vision_available,
                        path,
                    ),
                )
            } else {
                None
            })
            &&& kind == MediaKind::Video ==> said == (if pipeline.config.summarize_video {
                Some(video_annotation(name, path))
            } else {
                None
            })
            &&& kind == MediaKind::Document ==> said == (if pipeline.config.announce_documents {
                Some(document_annotation(item.attachment, path))
            } else {
                None
            })
            &&& kind == MediaKind::Unknown ==> said is None
            &&& pipeline.landed_at(item.saved_at) == path
        }),
{
}

/// One attachment gives its annotation and nothing else.
pub proof fn law_one_attachment(pipeline: MediaPipeline<'_>, item: HandledView)
    ensures
        pipeline.annotations(seq![item]) == (match pipeline.annotation(item) {
            Some(said) => seq![said],
            None => Seq::empty(),
        }),
        pipeline.annotations(Seq::empty()) == Seq::<Seq<char>>::empty(),
{
    let one = seq![item];
    assert(one.drop_last() =~= Seq::empty());
    reveal_with_fuel(MediaPipeline::annotations, 2);
    assert(pipeline.annotations(one) =~= (match pipeline.annotation(item) {
        Some(said) => seq![said],
        None => Seq::empty(),
    }));
}

/// Each annotation stands whole, with the end of a line behind it, in order.
pub proof fn law_each_annotation_has_its_line(
    first: Seq<Seq<char>>,
    said: Seq<char>,
    rest: Seq<Seq<char>>,
)
    ensures
        annotation_lines(Seq::empty()) == Seq::<char>::empty(),
        annotation_lines(seq![said]) == said.push('\n'),
        annotation_lines(first + rest) == annotation_lines(first) + annotation_lines(rest),
    decreases rest.len(),
{
    reveal_strlit("\n");
    let one = seq![said];
    assert(one.drop_last() =~= Seq::empty());
    reveal_with_fuel(annotation_lines, 2);
    assert(annotation_lines(one) =~= said.push('\n'));
    if rest.len() == 0 {
        assert(first + rest =~= first);
        assert(annotation_lines(first) + annotation_lines(rest) =~= annotation_lines(first));
    } else {
        law_each_annotation_has_its_line(first, said, rest.drop_last());
        assert((first + rest).drop_last() =~= first + rest.drop_last());
        assert((first + rest).last() == rest.last());
        assert(annotation_lines(first + rest) =~= annotation_lines(first) + annotation_lines(rest));
    }
}

/// A blank text adds nothing: what is said then are the annotations alone, up to
/// the white space at their end.
pub proof fn law_blank_text_adds_nothing(
    pipeline: MediaPipeline<'_>,
    original: Seq<char>,
    items: Seq<HandledView>,
)
    requires
        pipeline.config.enabled,
        pipeline.annotations(items).len() > 0,
        text::trimmed_end(original).len() == 0,
    ensures
        pipeline.processed(original, items) == text::trimmed_end(
            annotation_lines(pipeline.annotations(items)),
        ),
{
    let lines = annotation_lines(pipeline.annotations(items));
    let white = text::is_white();
    let added = if original.len() == 0 {
        Seq::empty()
    } else {
        "\n"@ + original
    };
    let whole = lines + added;
    lemma_lines_begin(pipeline, items);
    text::lemma_strip_front(whole, white, 0);
    assert(whole.skip(0) =~= whole);
    text::lemma_strip_back_part(original, white);
    text::lemma_strip_back_part(lines, white);
    reveal_strlit("\n");
    let n = text::trimmed_end(lines).len() as int;
    assert forall|j: int| n <= j < whole.len() implies white(#[trigger] whole[j]) by {
        if j < lines.len() {
            assert(white(lines[j]));
        } else if j > lines.len() {
            assert(whole[j] == original[j - lines.len() - 1]);
            assert(white(original[j - lines.len() - 1]));
        }
    }
    if n > 0 {
        assert(lines.take(n).last() == whole[n - 1]);
    }
    text::lemma_strip_back(whole, white, n);
    assert(whole.take(n) =~= lines.take(n));
}

/// A message that is a voice note comes to its transcript: where no file lands and
/// there is no text, all that is said is the transcript in its brackets.
pub proof fn law_voice_note_becomes_its_transcript(
    pipeline: MediaPipeline<'_>,
    item: HandledView,
    transcript: Seq<char>,
)
    requires
        pipeline.config.enabled,
        pipeline.config.transcribe_audio,
        pipeline.transcription_available,
        pipeline.files_root is None,
        media::kind_of(item.attachment) == MediaKind::Audio,
        item.transcript == Some(transcript),
        text::trimmed(transcript).len() > 0,
    ensures
        pipeline.processed(Seq::empty(), seq![item]) == "[Audio transcription: "@ + text::trimmed(
            transcript,
        ) + "]"@,
{
    let said = "[Audio transcription: "@ + text::trimmed(transcript) + "]"@;
    let name = item.attachment.file_name;
    law_each_kind_has_its_annotation(pipeline, item);
    law_transcript_is_kept_whole(name, transcript, None);
    law_audio_file_is_named(name, Seq::empty());
    assert(pipeline.annotation(item) =~= Some(said)) by {
        assert(said + audio_file_note(name, None) =~= said);
    }
    law_one_attachment(pipeline, item);
    law_each_annotation_has_its_line(Seq::empty(), said, Seq::empty());
    let none = Seq::<char>::empty();
    let white = text::is_white();
    text::lemma_strip_back(none, white, 0);
    assert(none.take(0) =~= none);
    law_blank_text_adds_nothing(pipeline, none, seq![item]);
    let line = said.push('\n');
    reveal_strlit("]");
    assert(line[line.len() - 1] == '\n');
    assert(said.last() == ']');
    text::lemma_strip_back(line, white, said.len() as int);
    assert(line.take(said.len() as int) =~= said);
}

// ---------------------------------------------------------------------------
// Laws of the files
// ---------------------------------------------------------------------------
/// An attachment that is not an image is saved under its own name with exactly its
/// own bytes, and an image with exactly the bytes that a vision model takes.
pub proof fn law_files_hold_the_bytes(
    pipeline: MediaPipeline<'_>,
    attachment: AttachmentView,
    converted: Option<Seq<u8>>,
)
    ensures
        pipeline.to_save(attachment, converted) matches Some(saved) ==> {
            &&& media::kind_of(attachment) != MediaKind::Image ==> saved.file_name
                == attachment.file_name && saved.data == attachment.data
            &&& media::kind_of(attachment) == MediaKind::Image ==> saved.data == vision_payload(
                attachment,
                converted,
            ).data && saved.file_name == landed_files::image_name(
                attachment.file_name,
                vision_payload(attachment, converted).mime,
            )
            &&& !webp_attachment(attachment, image_mime(attachment)) ==> saved.data
                == attachment.data
        },
{
}

/// Attachments that differ in name or bytes are saved as files that differ in them,
/// where neither is an image.
pub proof fn law_files_stay_apart(
    pipeline: MediaPipeline<'_>,
    a: AttachmentView,
    b: AttachmentView,
    converted: Option<Seq<u8>>,
)
    requires
        media::kind_of(a) != MediaKind::Image,
        media::kind_of(b) != MediaKind::Image,
        a.file_name != b.file_name || a.data != b.data,
        pipeline.to_save(a, converted) is Some,
    ensures
        pipeline.to_save(a, converted) != pipeline.to_save(b, converted),
{
    law_files_hold_the_bytes(pipeline, a, converted);
    law_files_hold_the_bytes(pipeline, b, converted);
}

/// A file is written exactly where the pipeline is enabled, has a files root and is
/// to deal with attachments of that kind.
pub proof fn law_what_is_saved(
    pipeline: MediaPipeline<'_>,
    attachment: AttachmentView,
    converted: Option<Seq<u8>>,
)
    ensures
        pipeline.to_save(attachment, converted) is Some <==> pipeline.config.enabled
            && pipeline.files_root is Some && match media::kind_of(attachment) {
            MediaKind::Audio => pipeline.config.transcribe_audio,
            MediaKind::Image => pipeline.config.describe_images,
            MediaKind::Video => pipeline.config.summarize_video,
            MediaKind::Document => pipeline.config.announce_documents,
            MediaKind::Unknown => false,
        },
{
}

/// A view shows each part of what it is of.
pub proof fn law_views_show_each_part(
    payload: ImagePayload,
    request: SaveRequest,
    item: HandledMedia,
    items: Seq<HandledMedia>,
    data: Vec<u8>,
    slice: &[u8],
    s: &str,
)
    ensures
        payload@.mime == payload.mime@,
        payload@.data == payload.data@,
        save_view(None) is None,
        save_view(Some(request)) matches Some(shown) && shown.file_name == request.file_name@
            && shown.data == request.data@,
        item@.attachment == item.attachment@,
        item.saved_at matches Some(path) ==> item@.saved_at == Some(path@),
        item.saved_at is None ==> item@.saved_at is None,
        item.transcript matches Some(transcript) ==> item@.transcript == Some(transcript@),
        item.transcript is None ==> item@.transcript is None,
        item.converted matches Some(png) ==> item@.converted == Some(png@),
        item.converted is None ==> item@.converted is None,
        handled_views(items).len() == items.len(),
        forall|i: int| 0 <= i < items.len() ==> #[trigger] handled_views(items)[i] == items[i]@,
        bytes_view(Some(data)) == Some(data@),
        bytes_view(None) is None,
        slice_view(Some(slice)) == Some(slice@),
        slice_view(None) is None,
        text_view(Some(s)) == Some(s@),
        text_view(None) is None,
{
}

} // verus!
