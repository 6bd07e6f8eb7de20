use std::path::PathBuf;
use zeroclaw::media::{MediaAttachment, MediaKind};
use zeroclaw::media_pipeline::{
    image_payload_for_vision, inline_image, is_beyond_lossy, is_webp_attachment, normalized_payload, HandledMedia,
    ImagePayload, MediaPipeline, MediaPipelineConfig,
};
use zeroclaw::landed_files::{
    image_file_name, retention_secs, sanitize_file_name, sweep_old_files, LandedFile, LandingName,
    LandingStep,
};

fn default_pipeline_config(enabled: bool) -> MediaPipelineConfig {
    MediaPipelineConfig {
        enabled,
        transcribe_audio: true,
        describe_images: true,
        summarize_video: true,
        announce_documents: true,
        retention_hours: 24,
    }
}

fn sample_audio() -> MediaAttachment {
    MediaAttachment {
        file_name: "voice.ogg".to_string(),
        data: vec![0u8; 100],
        mime_type: Some("audio/ogg".to_string()),
    }
}

fn sample_image() -> MediaAttachment {
    MediaAttachment {
        file_name: "photo.jpg".to_string(),
        data: vec![0u8; 50],
        mime_type: Some("image/jpeg".to_string()),
    }
}

fn sample_document() -> MediaAttachment {
    MediaAttachment {
        file_name: "invoice.pdf".to_string(),
        data: vec![0u8; 4096],
        mime_type: Some("application/pdf".to_string()),
    }
}

fn sample_video() -> MediaAttachment {
    MediaAttachment {
        file_name: "clip.mp4".to_string(),
        data: vec![0u8; 200],
        mime_type: Some("video/mp4".to_string()),
    }
}

/// Attachments of which nothing was saved, transcribed or converted.
fn untouched(attachments: Vec<MediaAttachment>) -> Vec<HandledMedia> {
    attachments
        .into_iter()
        .map(|attachment| HandledMedia {
            attachment,
            saved_at: None,
            transcript: None,
            converted: None,
        })
        .collect()
}

/// A directory in memory that the pipeline's files land in, at one point in time.
struct Landed {
    files: Vec<(String, Vec<u8>)>,
}

impl Landed {
    fn free_name(&self, file_name: &str) -> String {
        let mut name = LandingName::new(1_700_000_000_000, file_name);
        loop {
            let taken = self.files.iter().any(|(other, _)| *other == name.candidate());
            match name.step(taken) {
                LandingStep::Use(free) => return free,
                LandingStep::Try(next) => name = next,
            }
        }
    }

    fn handle(
        &mut self,
        pipeline: &MediaPipeline<'_>,
        attachments: Vec<MediaAttachment>,
    ) -> Vec<HandledMedia> {
        let mut items = Vec::new();
        for attachment in attachments {
            let converted = converted(pipeline, &attachment);
            let request = pipeline.save_request(&attachment, converted.as_deref());
            let saved_at = request.map(|request| {
                let free = self.free_name(&request.file_name);
                self.files.push((free.clone(), request.data));
                format!("/root/media/{free}")
            });
            items.push(HandledMedia {
                attachment,
                saved_at,
                transcript: None,
                converted,
            });
        }
        items
    }
}

/// The PNG image that the pipeline asks for, where it does.
fn converted(pipeline: &MediaPipeline<'_>, attachment: &MediaAttachment) -> Option<Vec<u8>> {
    if !pipeline.wants_png(attachment) {
        return None;
    }
    let decoded =
        image::load_from_memory_with_format(&attachment.data, image::ImageFormat::WebP).ok()?;
    let mut cursor = std::io::Cursor::new(Vec::new());
    decoded.write_to(&mut cursor, image::ImageFormat::Png).ok()?;
    Some(cursor.into_inner())
}

/// Attachments that are converted where the pipeline asks for it, and not saved.
fn seen(pipeline: &MediaPipeline<'_>, attachments: Vec<MediaAttachment>) -> Vec<HandledMedia> {
    attachments
        .into_iter()
        .map(|attachment| HandledMedia {
            converted: converted(pipeline, &attachment),
            attachment,
            saved_at: None,
            transcript: None,
        })
        .collect()
}

fn webp_named(file_name: &str, data: Vec<u8>) -> MediaAttachment {
    MediaAttachment {
        file_name: file_name.to_string(),
        data,
        mime_type: Some("image/webp".to_string()),
    }
}

/// One pixel in the lossy layout.
fn lossy_pixel() -> Vec<u8> {
    let mut file = b"RIFF\x22\0\0\0WEBPVP8 \x16\0\0\0".to_vec();
    file.extend_from_slice(&[
        0x30, 0x01, 0x00, 0x9d, 0x01, 0x2a, 0x01, 0x00, 0x01, 0x00, 0x0e, 0xc0, 0xfe, 0x25,
        0xa4, 0x00, 0x03, 0x70, 0x00, 0x00, 0x00, 0x00,
    ]);
    file
}

/// One pixel in the lossless layout.
fn webp_pixel() -> Vec<u8> {
    let mut cursor = std::io::Cursor::new(Vec::new());
    let webp = image::DynamicImage::ImageRgba8(image::RgbaImage::from_pixel(
        1,
        1,
        image::Rgba([255, 0, 0, 255]),
    ));
    webp.write_to(&mut cursor, image::ImageFormat::WebP)
        .expect("test WebP should encode");
    cursor.into_inner()
}

#[test]
fn media_kind_from_mime() {
    let audio = MediaAttachment {
        file_name: "file".to_string(),
        data: vec![],
        mime_type: Some("audio/ogg".to_string()),
    };
    assert_eq!(audio.kind(), MediaKind::Audio);

    let image = MediaAttachment {
        file_name: "file".to_string(),
        data: vec![],
        mime_type: Some("image/png".to_string()),
    };
    assert_eq!(image.kind(), MediaKind::Image);

    let video = MediaAttachment {
        file_name: "file".to_string(),
        data: vec![],
        mime_type: Some("video/mp4".to_string()),
    };
    assert_eq!(video.kind(), MediaKind::Video);
}

#[test]
fn media_kind_from_extension() {
    let audio = MediaAttachment {
        file_name: "voice.ogg".to_string(),
        data: vec![],
        mime_type: None,
    };
    assert_eq!(audio.kind(), MediaKind::Audio);

    let image = MediaAttachment {
        file_name: "photo.png".to_string(),
        data: vec![],
        mime_type: None,
    };
    assert_eq!(image.kind(), MediaKind::Image);

    let video = MediaAttachment {
        file_name: "clip.mp4".to_string(),
        data: vec![],
        mime_type: None,
    };
    assert_eq!(video.kind(), MediaKind::Video);

    let unknown = MediaAttachment {
        file_name: "data.bin".to_string(),
        data: vec![],
        mime_type: None,
    };
    assert_eq!(unknown.kind(), MediaKind::Unknown);
}

#[test]
fn media_kind_ignores_case_and_prefers_the_mime_type() {
    let attachment = |name: &str, mime: Option<&str>| MediaAttachment {
        file_name: name.to_string(),
        data: vec![],
        mime_type: mime.map(str::to_string),
    };
    assert_eq!(attachment("x.PNG", Some("AUDIO/ogg")).kind(), MediaKind::Audio);
    assert_eq!(attachment("x.tar.PNG", None).kind(), MediaKind::Image);
    assert_eq!(
        attachment("note.ogg", Some("application/octet-stream")).kind(),
        MediaKind::Audio
    );
    assert_eq!(attachment("invoice.pdf", Some("application/pdf")).kind(), MediaKind::Document);
    assert_eq!(attachment("readme", Some("text/plain")).kind(), MediaKind::Document);
    assert_eq!(attachment("report.docx", None).kind(), MediaKind::Document);
    assert_eq!(attachment("png", None).kind(), MediaKind::Unknown);
    assert_eq!(attachment("", None).kind(), MediaKind::Unknown);
}

#[test]
fn disabled_pipeline_returns_original_text() {
    let config = default_pipeline_config(false);
    let pipeline = MediaPipeline::new(&config, false, false);

    let result = pipeline.process("hello", &untouched(vec![sample_audio()]));
    assert_eq!(result, "hello");
}

#[test]
fn empty_attachments_returns_original_text() {
    let config = default_pipeline_config(true);
    let pipeline = MediaPipeline::new(&config, false, false);

    let result = pipeline.process("hello", &[]);
    assert_eq!(result, "hello");
}

#[test]
fn image_annotation_with_vision() {
    let config = default_pipeline_config(true);
    let pipeline = MediaPipeline::new(&config, false, true);

    let result = pipeline.process("check this", &untouched(vec![sample_image()]));
    assert!(
        result.contains("[Image: photo.jpg attached, will be processed by vision model]"),
        "expected vision annotation, got: {result}"
    );
    assert!(
        result.contains("[IMAGE:data:image/jpeg;base64,"),
        "expected image data marker, got: {result}"
    );
    assert!(result.contains("check this"));
}

#[test]
fn webp_image_is_normalized_to_png_for_vision() {
    let config = default_pipeline_config(true);
    let pipeline = MediaPipeline::new(&config, false, true);

    let sticker = MediaAttachment {
        file_name: "sticker.webp".to_string(),
        data: webp_pixel(),
        mime_type: Some("image/webp".to_string()),
    };

    let result = pipeline.process("what is this?", &seen(&pipeline, vec![sticker]));

    assert!(result.contains("[IMAGE:data:image/png;base64,"));
    assert!(!result.contains("[IMAGE:data:image/webp;base64,"));
    assert!(result.contains("what is this?"));
}

#[test]
fn image_annotation_without_vision() {
    let config = default_pipeline_config(true);
    let pipeline = MediaPipeline::new(&config, false, false);

    let result = pipeline.process("check this", &untouched(vec![sample_image()]));
    assert!(
        result.contains("[Image: photo.jpg attached]"),
        "expected basic image annotation, got: {result}"
    );
    assert!(
        !result.contains("[IMAGE:data:"),
        "non-vision path must not inline image data, got: {result}"
    );
}

#[test]
fn video_annotation() {
    let config = default_pipeline_config(true);
    let pipeline = MediaPipeline::new(&config, false, false);

    let result = pipeline.process("watch", &untouched(vec![sample_video()]));
    assert!(
        result.contains("[Video: clip.mp4 attached]"),
        "expected video annotation, got: {result}"
    );
}

#[test]
fn audio_without_transcription_enabled() {
    let config = default_pipeline_config(true);
    let pipeline = MediaPipeline::new(&config, false, false);

    let result = pipeline.process("", &untouched(vec![sample_audio()]));
    assert_eq!(result, "[Audio: attached]");
}

#[test]
fn multiple_attachments_produce_multiple_annotations() {
    let config = default_pipeline_config(true);
    let pipeline = MediaPipeline::new(&config, false, false);

    let attachments = untouched(vec![sample_audio(), sample_image(), sample_video()]);
    let result = pipeline.process("context", &attachments);

    assert!(
        result.contains("[Audio: attached]"),
        "missing audio annotation"
    );
    assert!(
        result.contains("[Image: photo.jpg attached]"),
        "missing image annotation"
    );
    assert!(
        result.contains("[Video: clip.mp4 attached]"),
        "missing video annotation"
    );
    assert!(result.contains("context"), "missing original text");
    assert_eq!(
        result,
        "[Audio: attached]\n[Image: photo.jpg attached]\n[Video: clip.mp4 attached]\n\ncontext"
    );
}

#[test]
fn disabled_sub_features_skip_processing() {
    let config = MediaPipelineConfig {
        enabled: true,
        transcribe_audio: false,
        describe_images: false,
        summarize_video: false,
        announce_documents: false,
        ..default_pipeline_config(true)
    };
    let pipeline = MediaPipeline::new(&config, false, false);

    let attachments = untouched(vec![
        sample_audio(),
        sample_image(),
        sample_video(),
        sample_document(),
    ]);
    let result = pipeline.process("hello", &attachments);
    assert_eq!(result, "hello");
}

#[test]
fn documents_are_announced_with_name_type_and_size() {
    let config = default_pipeline_config(true);
    let pipeline = MediaPipeline::new(&config, false, false);

    let result = pipeline.process("please read it", &untouched(vec![sample_document()]));
    assert_eq!(
        result,
        "[Document: invoice.pdf attached, type application/pdf, 4096 bytes]\n\nplease read it"
    );
}

#[test]
fn image_lands_as_file_with_path_marker_for_vision() {
    let config = default_pipeline_config(true);
    let pipeline = MediaPipeline::new(&config, false, true)
        .with_files_root(Some(PathBuf::from("/root/media")));
    let mut dir = Landed { files: Vec::new() };

    let items = dir.handle(&pipeline, vec![sample_image()]);
    let result = pipeline.process("check this", &items);

    assert!(
        !result.contains("[IMAGE:data:"),
        "with a files root the annotation must not inline base64, got: {result}"
    );
    let marker_path = result
        .split("[IMAGE:")
        .nth(1)
        .and_then(|rest| rest.split(']').next())
        .expect("path marker present");
    let landed = dir
        .files
        .iter()
        .find(|(name, _)| format!("/root/media/{name}") == marker_path);
    assert!(
        landed.is_some(),
        "marker must point at a real file: {marker_path}"
    );
    assert_eq!(landed.unwrap().1, sample_image().data);
    assert!(result.contains("saved at"), "got: {result}");
    assert!(result.contains("check this"));
    assert_eq!(
        result,
        "[Image: photo.jpg attached, saved at /root/media/1700000000000_photo.jpg — the path works with file tools]\n[IMAGE:/root/media/1700000000000_photo.jpg]\n\ncheck this"
    );
}

#[test]
fn document_lands_as_file_and_annotation_names_the_path() {
    let config = default_pipeline_config(true);
    let pipeline = MediaPipeline::new(&config, false, false)
        .with_files_root(Some(PathBuf::from("/root/media")));
    let mut dir = Landed { files: Vec::new() };

    let items = dir.handle(&pipeline, vec![sample_document()]);
    let result = pipeline.process("", &items);

    assert!(result.contains("saved at"), "got: {result}");
    assert_eq!(dir.files.len(), 1);
    let name = &dir.files[0].0;
    assert!(
        name.ends_with("_invoice.pdf"),
        "unexpected landed name: {name:?}"
    );
    assert_eq!(
        result,
        "[Document: invoice.pdf attached, type application/pdf, 4096 bytes, saved at /root/media/1700000000000_invoice.pdf]"
    );
}

#[test]
fn unwritable_files_root_falls_back_to_inline() {
    let config = default_pipeline_config(true);
    let pipeline = MediaPipeline::new(&config, false, true)
        .with_files_root(Some(PathBuf::from("/dev/null/not-a-dir")));

    // The write fails, so nothing is saved.
    let result = pipeline.process("check this", &untouched(vec![sample_image()]));
    assert!(
        result.contains("[IMAGE:data:image/jpeg;base64,"),
        "fallback must keep the vision flow alive, got: {result}"
    );
}

#[test]
fn same_name_attachments_do_not_collide() {
    let config = default_pipeline_config(true);
    let pipeline = MediaPipeline::new(&config, false, false)
        .with_files_root(Some(PathBuf::from("/root/media")));
    let mut dir = Landed { files: Vec::new() };

    let items = dir.handle(&pipeline, vec![sample_document(), sample_document()]);
    let result = pipeline.process("", &items);

    assert_eq!(result.matches("saved at").count(), 2);
    assert_eq!(dir.files.len(), 2);
    assert_eq!(dir.files[0].0, "1700000000000_invoice.pdf");
    assert_eq!(dir.files[1].0, "1700000000000-1_invoice.pdf");
}

#[test]
fn sweep_removes_only_stale_files() {
    let hour = 3600 * 1_000_000_000u128;
    let stale = LandedFile {
        is_file: true,
        age_nanos: Some(10 * hour),
    };
    let fresh = LandedFile {
        is_file: true,
        age_nanos: Some(0),
    };
    let swept = sweep_old_files(&[stale, fresh], 3600);
    assert!(swept.contains(&0), "stale file must be swept");
    assert!(!swept.contains(&1), "fresh file must survive");
}

#[test]
fn sweep_leaves_what_it_cannot_tell_and_directories() {
    let hour = 3600 * 1_000_000_000u128;
    let entry = |is_file, age_nanos| LandedFile { is_file, age_nanos };
    let entries = [
        entry(false, Some(10 * hour)),
        entry(true, None),
        entry(true, Some(hour)),
        entry(true, Some(hour + 1)),
        entry(true, Some(u128::MAX)),
    ];
    assert_eq!(sweep_old_files(&entries, 3600), vec![3, 4]);
    assert!(sweep_old_files(&entries, 0).is_empty());
    assert_eq!(sweep_old_files(&entries, u64::MAX), vec![4]);
}

#[test]
fn retention_is_counted_in_seconds() {
    assert_eq!(retention_secs(0), 0);
    assert_eq!(retention_secs(24), 86_400);
    assert_eq!(retention_secs(u64::MAX / 3600), u64::MAX / 3600 * 3600);
    assert_eq!(retention_secs(u64::MAX / 3600 + 1), u64::MAX);
    assert_eq!(retention_secs(u64::MAX), u64::MAX);
}

#[test]
fn sanitize_strips_traversal_and_junk() {
    assert_eq!(sanitize_file_name("../../etc/passwd"), "passwd");
    assert_eq!(sanitize_file_name("my photo (1).jpg"), "my_photo__1_.jpg");
    assert_eq!(sanitize_file_name("..."), "attachment");
    assert_eq!(sanitize_file_name("c:\\x\\évil né.pdf"), "vil_n_.pdf");
}

#[test]
fn sanitizing_again_changes_nothing() {
    for name in ["", "/", "a/b\\", "..x..", "ok.txt", "日本.png", "_-_", "a b"] {
        let once = sanitize_file_name(name);
        assert!(!once.is_empty());
        assert_eq!(sanitize_file_name(&once), once);
    }
    assert_eq!(sanitize_file_name("_-_"), "-");
    assert_eq!(sanitize_file_name("dir/"), "attachment");
}

#[test]
fn image_file_name_tracks_png_normalization() {
    assert_eq!(image_file_name("sticker.webp", "image/png"), "sticker.png");
    assert_eq!(image_file_name("photo.jpg", "image/jpeg"), "photo.jpg");
    assert_eq!(image_file_name("shot.png", "image/png"), "shot.png");
}

#[test]
fn image_file_name_handles_case_and_missing_extensions() {
    assert_eq!(image_file_name("shot.PNG", "Image/Png"), "shot.PNG");
    assert_eq!(image_file_name("shot", "image/png"), "shot.png");
    assert_eq!(image_file_name("a.b.webp", "IMAGE/PNG"), "a.b.png");
    assert_eq!(image_file_name(".webp", "image/png"), ".png");
}

#[test]
fn landing_names_count_up() {
    let name = LandingName::new(5, "a/ü.txt");
    assert_eq!(name.candidate(), "5_txt");
    let name = name.next();
    assert_eq!(name.candidate(), "5-1_txt");
    let name = name.next();
    assert_eq!(name.candidate(), "5-2_txt");
}

#[test]
fn audio_is_annotated_with_its_transcript() {
    let config = default_pipeline_config(true);
    let pipeline = MediaPipeline::new(&config, true, false);
    let heard = |transcript: Option<&str>| {
        pipeline.process(
            "",
            &[HandledMedia {
                attachment: sample_audio(),
                saved_at: None,
                transcript: transcript.map(str::to_string),
                converted: None,
            }],
        )
    };
    assert_eq!(heard(Some("  hi there \n")), "[Audio transcription: hi there]");
    assert_eq!(heard(Some(" \n")), "[Audio transcription: (empty)]");
    assert_eq!(heard(None), "[Audio: transcription failed]");
    assert!(pipeline.wants_transcript(&sample_audio()));
    assert!(!pipeline.wants_transcript(&sample_video()));
    assert!(!MediaPipeline::new(&config, false, false).wants_transcript(&sample_audio()));
}

#[test]
fn saved_audio_is_named_next_to_its_transcript() {
    let config = default_pipeline_config(true);
    let pipeline =
        MediaPipeline::new(&config, true, false).with_files_root(Some(PathBuf::from("/m")));
    let item = HandledMedia {
        attachment: sample_audio(),
        saved_at: Some("/m/1_voice.ogg".to_string()),
        transcript: Some("hi".to_string()),
        converted: None,
    };
    assert_eq!(
        pipeline.process("", &[item]),
        "[Audio transcription: hi]\n[Audio file: voice.ogg saved at /m/1_voice.ogg]"
    );
    let request = pipeline.save_request(&sample_audio(), None).unwrap();
    assert_eq!(request.file_name, "voice.ogg");
    assert_eq!(request.data, sample_audio().data);
}

#[test]
fn saved_images_and_videos_name_their_paths() {
    let config = default_pipeline_config(true);
    let pipeline =
        MediaPipeline::new(&config, false, false).with_files_root(Some(PathBuf::from("/m")));
    let saved = |attachment| HandledMedia {
        attachment,
        saved_at: Some("/m/x".to_string()),
        transcript: None,
        converted: None,
    };
    assert_eq!(
        pipeline.process("", &[saved(sample_image()), saved(sample_video())]),
        "[Image: photo.jpg attached, saved at /m/x]\n[Video: clip.mp4 attached, saved at /m/x]"
    );
}

#[test]
fn nothing_lands_without_a_root() {
    let config = default_pipeline_config(true);
    let pipeline = MediaPipeline::new(&config, false, false);
    assert!(pipeline.save_request(&sample_document(), None).is_none());
    let item = HandledMedia {
        attachment: sample_video(),
        saved_at: Some("/m/x".to_string()),
        transcript: None,
        converted: None,
    };
    assert_eq!(pipeline.process("", &[item]), "[Video: clip.mp4 attached]");

    let off = default_pipeline_config(false);
    let pipeline = MediaPipeline::new(&off, true, true).with_files_root(Some(PathBuf::from("/m")));
    assert!(pipeline.save_request(&sample_document(), None).is_none());
    assert!(!pipeline.wants_transcript(&sample_audio()));
}

#[test]
fn webp_lands_as_png() {
    let config = default_pipeline_config(true);
    let pipeline =
        MediaPipeline::new(&config, false, false).with_files_root(Some(PathBuf::from("/m")));
    let sticker = MediaAttachment {
        file_name: "sticker.webp".to_string(),
        data: webp_pixel(),
        mime_type: None,
    };
    assert!(is_webp_attachment(&sticker, "image/jpeg"));
    let png = converted(&pipeline, &sticker);
    let request = pipeline.save_request(&sticker, png.as_deref()).unwrap();
    assert_eq!(request.file_name, "sticker.png");
    assert_eq!(&request.data[..8], b"\x89PNG\r\n\x1a\n");
    let decoded = image::load_from_memory_with_format(&request.data, image::ImageFormat::Png)
        .unwrap()
        .to_rgba8();
    assert_eq!(decoded.get_pixel(0, 0).0, [255, 0, 0, 255]);
}

#[test]
fn what_cannot_be_normalized_stays_as_it_is() {
    let broken = MediaAttachment {
        file_name: "sticker.webp".to_string(),
        data: b"no image".to_vec(),
        mime_type: Some("image/webp".to_string()),
    };
    let (payload, failed) = image_payload_for_vision(&broken, Some(&[1, 2]));
    assert!(failed);
    assert_eq!(payload.mime, "image/webp");
    assert_eq!(payload.data, b"no image");

    let unnamed = MediaAttachment {
        file_name: "x".to_string(),
        data: b"abc".to_vec(),
        mime_type: None,
    };
    assert!(!is_webp_attachment(&unnamed, "image/jpeg"));
    let (payload, failed) = image_payload_for_vision(&unnamed, Some(&[1, 2]));
    assert!(!failed);
    assert_eq!(payload.mime, "image/jpeg");
    assert_eq!(payload.data, b"abc");

    let payload = normalized_payload(&broken, Some(vec![1, 2]));
    assert_eq!(payload.mime, "image/png");
    assert_eq!(payload.data, vec![1, 2]);
}

#[test]
fn lossy_webp_becomes_png() {
    let photo = webp_named("photo.webp", lossy_pixel());
    assert!(!is_beyond_lossy(&photo.data));
    let (payload, failed) = image_payload_for_vision(&photo, None);
    assert!(!failed);
    assert_eq!(payload.mime, "image/png");
    let png = image::load_from_memory_with_format(&payload.data, image::ImageFormat::Png)
        .unwrap()
        .to_rgb8();
    let webp = image::load_from_memory_with_format(&photo.data, image::ImageFormat::WebP)
        .unwrap()
        .to_rgb8();
    assert_eq!(png.dimensions(), (1, 1));
    assert_eq!(png, webp);

    let config = default_pipeline_config(true);
    let pipeline = MediaPipeline::new(&config, false, true);
    assert!(!pipeline.wants_png(&photo));
    assert!(!pipeline.leaves_webp(&photo, None));
    let result = pipeline.process("", &untouched(vec![photo]));
    assert!(result.contains("[IMAGE:data:image/png;base64,iVBORw0KGgo"));
}

#[test]
fn the_first_chunk_tells_the_layout() {
    let file = |chunk: &[u8]| [b"RIFF\x0c\0\0\0WEBP".as_slice(), chunk].concat();
    assert!(is_beyond_lossy(&file(b"VP8L")));
    assert!(is_beyond_lossy(&file(b"VP8X\x0a\0\0\0")));
    assert!(!is_beyond_lossy(&file(b"VP8 ")));
    assert!(!is_beyond_lossy(&file(b"VP8")));
    assert!(!is_beyond_lossy(&file(b"ICCP")));
    assert!(!is_beyond_lossy(b"VP8L"));
    assert!(!is_beyond_lossy(b""));
    assert!(is_beyond_lossy(&webp_pixel()));
}

#[test]
fn richer_webp_is_what_the_caller_made_of_it() {
    let sticker = webp_named("sticker.webp", webp_pixel());
    let (payload, failed) = image_payload_for_vision(&sticker, Some(&[7, 8]));
    assert!(!failed);
    assert_eq!(payload.mime, "image/png");
    assert_eq!(payload.data, vec![7, 8]);

    let (payload, failed) = image_payload_for_vision(&sticker, None);
    assert!(failed);
    assert_eq!(payload.mime, "image/webp");
    assert_eq!(payload.data, sticker.data);

    let config = default_pipeline_config(true);
    let pipeline =
        MediaPipeline::new(&config, false, true).with_files_root(Some(PathBuf::from("/m")));
    let request = pipeline.save_request(&sticker, Some(&[7, 8])).unwrap();
    assert_eq!(request.file_name, "sticker.png");
    assert_eq!(request.data, vec![7, 8]);
    let request = pipeline.save_request(&sticker, None).unwrap();
    assert_eq!(request.file_name, "sticker.webp");
    assert_eq!(request.data, sticker.data);
    let text = pipeline.process_image(&sticker, Some(&[7, 8]), None);
    assert!(text.ends_with("[IMAGE:data:image/png;base64,Bwg=]"));
}

#[test]
fn a_png_is_asked_for_where_it_is_used() {
    let sticker = webp_named("sticker.webp", webp_pixel());
    let config = default_pipeline_config(true);
    let pipeline = MediaPipeline::new(&config, false, true);
    assert!(pipeline.wants_png(&sticker));
    assert!(pipeline.leaves_webp(&sticker, None));
    assert!(!pipeline.leaves_webp(&sticker, Some(&[7, 8])));
    assert!(pipeline.leaves_webp(&webp_named("x.webp", b"no image".to_vec()), None));
    assert!(!pipeline.wants_png(&sample_image()));
    assert!(!pipeline.leaves_webp(&sample_image(), None));

    let off = default_pipeline_config(false);
    let pipeline = MediaPipeline::new(&off, false, true);
    assert!(!pipeline.wants_png(&sticker));
    assert!(!pipeline.leaves_webp(&sticker, None));

    let blind = MediaPipelineConfig {
        describe_images: false,
        ..default_pipeline_config(true)
    };
    let pipeline = MediaPipeline::new(&blind, false, true);
    assert!(!pipeline.wants_png(&sticker));
    assert!(!pipeline.leaves_webp(&sticker, None));
}

#[test]
fn a_conversion_nobody_asked_for_changes_nothing() {
    let config = default_pipeline_config(true);
    let pipeline =
        MediaPipeline::new(&config, false, true).with_files_root(Some(PathBuf::from("/m")));
    for attachment in [sample_image(), webp_named("photo.webp", lossy_pixel())] {
        let plain = pipeline.save_request(&attachment, None).unwrap();
        let other = pipeline.save_request(&attachment, Some(&[7, 8])).unwrap();
        assert_eq!(plain.file_name, other.file_name);
        assert_eq!(plain.data, other.data);
        assert_eq!(
            pipeline.process_image(&attachment, None, None),
            pipeline.process_image(&attachment, Some(&[7, 8]), None)
        );
    }
}

#[test]
fn inline_images_carry_their_bytes() {
    let payload = ImagePayload {
        mime: "image/gif".to_string(),
        data: b"foob".to_vec(),
    };
    assert_eq!(
        inline_image("a.gif", &payload),
        "[Image: a.gif attached, will be processed by vision model]\n[IMAGE:data:image/gif;base64,Zm9vYg==]"
    );
}

#[test]
fn text_follows_the_annotations() {
    let config = default_pipeline_config(true);
    let pipeline = MediaPipeline::new(&config, false, false);
    let video = || untouched(vec![sample_video()]);
    assert_eq!(pipeline.process("  a b \n", &video()), "[Video: clip.mp4 attached]\n\n  a b");
    assert_eq!(pipeline.process(" \n", &video()), "[Video: clip.mp4 attached]");
    assert_eq!(pipeline.process("  a b \n", &[]), "  a b \n");
}

#[test]
fn the_search_ends_on_the_least_free_name() {
    let mut dir = Landed { files: Vec::new() };
    for taken in [
        "1700000000000_a.txt",
        "1700000000000-1_a.txt",
        "1700000000000-3_a.txt",
        "1700000000000-2_b.txt",
    ] {
        dir.files.push((taken.to_string(), Vec::new()));
    }
    assert_eq!(dir.free_name("a.txt"), "1700000000000-2_a.txt");
    assert_eq!(dir.free_name("x/a.txt"), "1700000000000-2_a.txt");
    assert_eq!(dir.free_name("c.txt"), "1700000000000_c.txt");
}

#[test]
fn directories_do_not_change_a_safe_name() {
    for name in ["a.txt", "", "..", "b/c", "é"] {
        let plain = sanitize_file_name(name);
        assert_eq!(sanitize_file_name(&format!("dir/{name}")), plain);
        assert_eq!(sanitize_file_name(&format!("..\\up\\{name}")), plain);
    }
}
