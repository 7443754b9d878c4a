use wimg::manifest::Manifest;
use wimg::pipeline::{
    base_size, density_label, inside_base, jobs, output_name, relative_parts, scaled_size,
    source_format, total_seed, InputError, Job, OutputFormat, ParseOutputFormatError,
    SourceFormat,
};

fn path(parts: &[&str]) -> Vec<String> {
    parts.iter().map(|p| p.to_string()).collect()
}

#[test]
fn inputs_under_the_base_directory() {
    let base = path(&["/", "srv", "images"]);
    assert!(inside_base(&base, &path(&["/", "srv", "images", "a.jpg"])));
    assert!(inside_base(&base, &path(&["/", "srv", "images", "2023", "a.jpg"])));
    assert!(inside_base(&base, &path(&["/", "srv", "images"])));
    assert!(!inside_base(&base, &path(&["/", "srv", "a.jpg"])));
    assert!(!inside_base(&base, &path(&["/", "srv", "images2", "a.jpg"])));
    assert!(!inside_base(&base, &path(&["/", "srv"])));
    assert!(!inside_base(&base, &path(&[])));
    assert!(inside_base(&path(&[]), &path(&["a.jpg"])));
}

#[test]
fn names_under_the_base_directory() {
    let base = path(&["/", "srv", "images"]);
    assert_eq!(relative_parts(&base, &path(&["/", "srv", "images", "a.jpg"])), Some(path(&["a.jpg"])));
    assert_eq!(
        relative_parts(&base, &path(&["/", "srv", "images", "2023", "a.jpg"])),
        Some(path(&["2023", "a.jpg"]))
    );
    assert_eq!(relative_parts(&base, &path(&["/", "srv", "images"])), Some(path(&[])));
    assert_eq!(relative_parts(&base, &path(&["/", "etc", "images", "a.jpg"])), None);
}

#[test]
fn formats_by_name() {
    for (word, format) in [
        ("avif", OutputFormat::Avif),
        ("AVIF", OutputFormat::Avif),
        ("jpg", OutputFormat::Jpeg),
        ("jpeg", OutputFormat::Jpeg),
        ("JpEg", OutputFormat::Jpeg),
        ("png", OutputFormat::Png),
        ("Png", OutputFormat::Png),
        ("webp", OutputFormat::Webp),
        ("WEBP", OutputFormat::Webp),
    ] {
        assert_eq!(OutputFormat::parse(word), Ok(format), "{word}");
    }
    for word in ["", "gif", "jp", "jpegs", " png", "png ", "avi", "webpp", "pñg", "jpg\0"] {
        assert_eq!(OutputFormat::parse(word), Err(ParseOutputFormatError), "{word}");
    }
    assert_eq!(ParseOutputFormatError.message(), "invalid output format");
}

#[test]
fn endings_and_media_types() {
    assert_eq!(OutputFormat::Avif.ext(), "avif");
    assert_eq!(OutputFormat::Jpeg.ext(), "jpg");
    assert_eq!(OutputFormat::Png.ext(), "png");
    assert_eq!(OutputFormat::Webp.ext(), "webp");
    assert_eq!(OutputFormat::Avif.mime_type(), "image/avif");
    assert_eq!(OutputFormat::Jpeg.mime_type(), "image/jpeg");
    assert_eq!(OutputFormat::Png.mime_type(), "image/png");
    assert_eq!(OutputFormat::Webp.mime_type(), "image/webp");
}

#[test]
fn seeds_of_formats() {
    assert_eq!(OutputFormat::Avif.seed(), wimg::avif::seed());
    assert_eq!(OutputFormat::Jpeg.seed(), wimg::jpeg::seed());
    assert_eq!(OutputFormat::Png.seed(), wimg::png::seed());
    assert_eq!(OutputFormat::Webp.seed(), wimg::webp::seed());
    assert_eq!(total_seed(OutputFormat::Webp), 1);
    assert_eq!(total_seed(OutputFormat::Jpeg), 2);
    assert_eq!(total_seed(OutputFormat::Png), 3);
    assert_eq!(total_seed(OutputFormat::Avif), 4);
}

#[test]
fn no_two_formats_are_hashed_under_one_seed() {
    let all = [OutputFormat::Avif, OutputFormat::Jpeg, OutputFormat::Png, OutputFormat::Webp];
    for a in all {
        for b in all {
            assert_eq!(a == b, a.seed() == b.seed());
            assert_eq!(a == b, total_seed(a) == total_seed(b));
            if a != b {
                let source = b"the same source bytes";
                assert_ne!(
                    wimg::hash::content_hash(source, None, total_seed(a)),
                    wimg::hash::content_hash(source, None, total_seed(b))
                );
            }
        }
    }
}

#[test]
fn manifest_put_together_by_hand() {
    let mut m = Manifest::new();
    assert!(m.is_well_formed());
    m.record("a.jpg", "thumb", 2, 1, "image/avif", "1x", "a.avif");
    m.record("a.jpg", "thumb", 2, 1, "image/avif", "2x", "a@2x.avif");
    m.record("b.jpg", "thumb", 2, 1, "image/png", "1x", "b.png");
    assert!(m.is_well_formed());
    // A key of a density twice under one media type.
    let mut twice = m.clone();
    let again = twice.images[0].variants[0].formats[0].outputs[0].clone();
    twice.images[0].variants[0].formats[0].outputs.push(again);
    assert!(!twice.is_well_formed());
    // A media type twice under one variant.
    let mut twice = m.clone();
    let again = twice.images[0].variants[0].formats[0].clone();
    twice.images[0].variants[0].formats.push(again);
    assert!(!twice.is_well_formed());
    // A variant twice under one input.
    let mut twice = m.clone();
    let again = twice.images[1].variants[0].clone();
    twice.images[1].variants.push(again);
    assert!(!twice.is_well_formed());
    // An input twice.
    let mut twice = m.clone();
    let again = twice.images[0].clone();
    twice.images.push(again);
    assert!(!twice.is_well_formed());
}

#[test]
fn sources_by_ending() {
    assert_eq!(source_format(Some("jpg")), Ok(SourceFormat::Jpeg));
    assert_eq!(source_format(Some("png")), Ok(SourceFormat::Png));
    for other in ["jpeg", "JPG", "PNG", "gif", "", "webp", "pngx"] {
        assert_eq!(source_format(Some(other)), Err(InputError::UnsupportedFormat), "{other}");
    }
    assert_eq!(source_format(None), Err(InputError::MissingExtension));
}

#[test]
fn sizes_by_density() {
    assert_eq!(scaled_size(200, 100, 0), None);
    assert_eq!(scaled_size(200, 100, 1), Some((200, 100)));
    assert_eq!(scaled_size(200, 100, 2), Some((400, 200)));
    assert_eq!(scaled_size(200, 100, 255), Some((51000, 25500)));
    assert_eq!(scaled_size(0, 0, 3), Some((0, 0)));
    assert_eq!(base_size(400, 200, 2), (200, 100));
    assert_eq!(base_size(401, 201, 2), (200, 100));
    assert_eq!(base_size(400, 200, 1), (400, 200));
}

#[test]
fn names_of_outputs() {
    assert_eq!(output_name("photo", 255, 1, OutputFormat::Jpeg), "photo-00000000000000ff.jpg");
    assert_eq!(output_name("photo", 255, 2, OutputFormat::Avif), "photo-00000000000000ff@2x.avif");
    assert_eq!(
        output_name("a.b", 0x0123456789abcdef, 10, OutputFormat::Webp),
        "a.b-0123456789abcdef@10x.webp"
    );
    assert_eq!(output_name("", u64::MAX, 0, OutputFormat::Png), "-ffffffffffffffff.png");
    assert_eq!(density_label(1), "1x");
    assert_eq!(density_label(3), "3x");
    assert_eq!(density_label(255), "255x");
}

#[test]
fn jobs_fan_out() {
    let formats = [OutputFormat::Avif, OutputFormat::Jpeg];
    let list = jobs(2, &[1, 0, 3], &formats);
    let job = |image, density, format| Job { image, density, format };
    assert_eq!(
        list,
        vec![
            job(0, 1, OutputFormat::Avif),
            job(0, 1, OutputFormat::Jpeg),
            job(0, 3, OutputFormat::Avif),
            job(0, 3, OutputFormat::Jpeg),
            job(1, 1, OutputFormat::Avif),
            job(1, 1, OutputFormat::Jpeg),
            job(1, 3, OutputFormat::Avif),
            job(1, 3, OutputFormat::Jpeg),
        ]
    );
}

#[test]
fn jobs_count_is_images_times_densities_times_formats() {
    let all = [OutputFormat::Avif, OutputFormat::Jpeg, OutputFormat::Png, OutputFormat::Webp];
    for images in 0..5usize {
        for formats in 0..=4usize {
            for densities in [&[][..], &[1], &[0], &[1, 2], &[0, 0, 2], &[3, 0, 1, 2, 0]] {
                let live = densities.iter().filter(|d| **d != 0).count();
                let list = jobs(images, densities, &all[..formats]);
                assert_eq!(list.len(), images * live * formats);
                assert!(list.iter().all(|j| j.density != 0 && j.image < images));
            }
        }
    }
}

fn outputs(m: &Manifest, image: &str, variant: &str, mime: &str) -> Vec<(String, String)> {
    let entry = m.images.iter().find(|e| e.path == image).unwrap();
    let v = entry.variants.iter().find(|v| v.name == variant).unwrap();
    let f = v.formats.iter().find(|f| f.mime == mime).unwrap();
    f.outputs.iter().map(|o| (o.label.clone(), o.path.clone())).collect()
}

#[test]
fn manifest_records_outputs() {
    let mut m = Manifest::new();
    assert!(m.images.is_empty());
    m.record("a.jpg", "thumb", 200, 100, "image/avif", "1x", "a-1.avif");
    m.record("a.jpg", "thumb", 999, 999, "image/avif", "2x", "a-1@2x.avif");
    m.record("a.jpg", "thumb", 200, 100, "image/jpeg", "1x", "a-2.jpg");
    m.record("b.png", "thumb", 50, 60, "image/avif", "1x", "b-3.avif");
    m.record("a.jpg", "large", 800, 400, "image/avif", "1x", "a-4.avif");
    assert_eq!(m.images.len(), 2);
    assert_eq!(m.images[0].path, "a.jpg");
    assert_eq!(m.images[1].path, "b.png");
    assert_eq!(m.images[0].variants.len(), 2);
    let thumb = &m.images[0].variants[0];
    // The size first written for a variant stays.
    assert_eq!((thumb.name.as_str(), thumb.width, thumb.height), ("thumb", 200, 100));
    assert_eq!(thumb.formats.len(), 2);
    assert_eq!(
        outputs(&m, "a.jpg", "thumb", "image/avif"),
        vec![("1x".to_string(), "a-1.avif".to_string()), ("2x".to_string(), "a-1@2x.avif".to_string())]
    );
    assert_eq!(outputs(&m, "a.jpg", "thumb", "image/jpeg"), vec![("1x".to_string(), "a-2.jpg".to_string())]);
    assert_eq!(outputs(&m, "b.png", "thumb", "image/avif"), vec![("1x".to_string(), "b-3.avif".to_string())]);
    assert_eq!((m.images[0].variants[1].width, m.images[0].variants[1].height), (800, 400));
}

#[test]
fn manifest_replaces_an_output_under_the_same_key() {
    let mut m = Manifest::new();
    m.record("a.jpg", "thumb", 200, 100, "image/avif", "1x", "old.avif");
    m.record("a.jpg", "thumb", 200, 100, "image/avif", "1x", "new.avif");
    assert_eq!(outputs(&m, "a.jpg", "thumb", "image/avif"), vec![("1x".to_string(), "new.avif".to_string())]);
    assert_eq!(m.images.len(), 1);
}

#[test]
fn manifest_has_one_entry_for_each_input() {
    let names = ["one.jpg", "two.jpg", "three.png"];
    let formats = [OutputFormat::Avif, OutputFormat::Webp];
    let mut m = Manifest::new();
    let list = jobs(names.len(), &[1, 0, 2], &formats);
    assert_eq!(list.len(), 3 * 2 * 2);
    for job in list.iter().rev() {
        let name = output_name("stem", job.image as u64, job.density, job.format);
        m.record(names[job.image], "v", 10, 10, job.format.mime_type(), &density_label(job.density), &name);
    }
    assert_eq!(m.images.len(), 3);
    let written: usize = m
        .images
        .iter()
        .map(|i| i.variants.iter().map(|v| v.formats.iter().map(|f| f.outputs.len()).sum::<usize>()).sum::<usize>())
        .sum();
    assert_eq!(written, 12);
}
