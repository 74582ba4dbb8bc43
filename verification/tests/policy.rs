use gma::extract::{ExtractAction, ExtractProgress};
use gma::publishing::{
    icon_attempt_step, icon_format_candidates, icon_size_ok, verify_whitelist, ContentPath,
    IconAttempt, IconFormat, IconProbe, PublishError,
};
use gma::whitelist::{check, filter_default_ignored, is_ignored, wild_match};
use gma::write::build_container;
use gma::{CandidateFile, FileInput, GMAFile, GMAMetadata};

#[test]
fn wildcard_matching() {
    assert!(wild_match("lua/*.lua", "lua/autorun/init.lua"));
    assert!(wild_match("*", "anything at all"));
    assert!(wild_match("maps/*.bsp", "maps/gm_flat.bsp"));
    assert!(!wild_match("maps/*.bsp", "maps/gm_flat.bsp.txt"));
    assert!(!wild_match("lua/*.lua", "materials/x.vmt"));
    assert!(wild_match("", ""));
    assert!(!wild_match("", "x"));
}

#[test]
fn whitelist_allows_and_denies() {
    assert!(check("lua/autorun/init.lua"));
    assert!(check("models/props/chair.mdl"));
    assert!(check("sound/music/theme.ogg"));
    assert!(!check("evil.exe"));
    assert!(!check("lua/virus.dll"));
    assert!(!check("readme.txt"));
}

#[test]
fn default_ignore_filter() {
    assert!(!filter_default_ignored(".git/config"));
    assert!(!filter_default_ignored("materials/source.psd"));
    assert!(filter_default_ignored("lua/autorun/init.lua"));
}

#[test]
fn user_ignore_patterns() {
    let patterns = vec![String::from("lua/tests/*"), String::from("*.tmp")];
    assert!(is_ignored("lua/tests/spec.lua", &patterns));
    assert!(is_ignored("scratch.tmp", &patterns));
    assert!(!is_ignored("lua/autorun/init.lua", &patterns));
    assert!(!is_ignored("anything", &vec![]));
}

fn mixed_container() -> (Vec<u8>, usize, usize) {
    // Five entries, two of them disallowed by the whitelist.
    let metadata = GMAMetadata::Standard {
        title: String::from("Mixed"),
        addon_type: String::from("tool"),
        tags: vec![],
        ignore: vec![],
    };
    let files = vec![
        FileInput { path: String::from("lua/ok1.lua"), contents: vec![1], crc: 0 },
        FileInput { path: String::from("bad.exe"), contents: vec![2], crc: 0 },
        FileInput { path: String::from("models/ok2.mdl"), contents: vec![3], crc: 0 },
        FileInput { path: String::from("bad2.dll"), contents: vec![4], crc: 0 },
        FileInput { path: String::from("sound/ok3.wav"), contents: vec![5], crc: 0 },
    ];
    let container = build_container(&metadata, &files).unwrap();
    (container, 5, 2)
}

#[test]
fn partial_whitelist_rejection() {
    let (container, n, m) = mixed_container();
    let mut gma = GMAFile::read_header(&container, "mixed.gma", container.len() as u64).unwrap();
    gma.entries(&container).unwrap();
    let plan = gma.extract_plan().unwrap();
    assert_eq!(plan.len(), n);
    let writes = plan.iter().filter(|a| matches!(a, ExtractAction::Write { .. })).count();
    let rejects = plan.iter().filter(|a| matches!(a, ExtractAction::Reject { .. })).count();
    // Exactly N - M files are written and M rejections are reported.
    assert_eq!(writes, n - m);
    assert_eq!(rejects, m);

    // Every entry, written or rejected, advances the completion counter,
    // so finalization is still reached exactly once.
    let mut progress = ExtractProgress::new(plan.len());
    let mut finalizations = 0;
    for _ in &plan {
        if progress.record_done() {
            finalizations += 1;
        }
    }
    assert_eq!(finalizations, 1);
}

#[test]
fn finalization_exactly_once_and_last() {
    let n = 17;
    let mut progress = ExtractProgress::new(n);
    for step in 1..=n {
        let finalize = progress.record_done();
        assert_eq!(finalize, step == n, "only the last completion finalizes");
    }
    let (done, total) = progress.fraction();
    assert_eq!((done, total), (n, n));
}

#[test]
fn plan_carries_absolute_offsets() {
    let (container, _, _) = mixed_container();
    let mut gma = GMAFile::read_header(&container, "mixed.gma", container.len() as u64).unwrap();
    gma.entries(&container).unwrap();
    let plan = gma.extract_plan().unwrap();
    for action in &plan {
        if let ExtractAction::Write { path, offset, size } = action {
            let (o, s) = gma.entry_location(path).unwrap();
            assert_eq!((o, s), (*offset, *size));
        }
    }
}

fn cand(path: &str, size: u64) -> CandidateFile {
    CandidateFile { path: String::from(path), size }
}

#[test]
fn verify_whitelist_accepts_clean_content() {
    let files = vec![
        cand("lua/a.lua", 10),
        cand("models/b.mdl", 20),
        cand(".git/config", 999),
        cand("lua/tests/skip.lua", 5),
    ];
    let ignore = vec![String::from("lua/tests/*")];
    let (entries, total) = verify_whitelist(&files, &ignore).unwrap();
    assert_eq!(entries.len(), 2);
    assert_eq!(total, 30);
    assert_eq!(entries[0].path, "lua/a.lua");
    assert_eq!(entries[0].size, 10);
    assert_eq!(entries[0].crc, 0);
}

#[test]
fn verify_whitelist_reports_sorted_failures() {
    let files = vec![
        cand("zz.exe", 1),
        cand("lua/a.lua", 1),
        cand("aa.dll", 1),
    ];
    let (code, failed) = verify_whitelist(&files, &vec![]).unwrap_err();
    assert_eq!(code, "ERR_WHITELIST");
    assert_eq!(failed, vec![String::from("aa.dll"), String::from("zz.exe")]);
}

#[test]
fn verify_whitelist_truncates_long_reports() {
    let mut files: Vec<CandidateFile> = Vec::new();
    for i in 0..12 {
        files.push(cand(&format!("bad{:02}.exe", i), 1));
    }
    let (code, failed) = verify_whitelist(&files, &vec![]).unwrap_err();
    assert_eq!(code, "ERR_WHITELIST");
    assert_eq!(failed.len(), 10);
    assert!(failed.contains(&String::from("...")));
    assert!(failed.contains(&String::from("bad00.exe")));
    assert!(failed.contains(&String::from("bad08.exe")));
    assert!(!failed.contains(&String::from("bad09.exe")));
}

#[test]
fn verify_whitelist_empty_content() {
    let files = vec![cand(".git/config", 1)];
    let (code, failed) = verify_whitelist(&files, &vec![]).unwrap_err();
    assert_eq!(code, "ERR_NO_ENTRIES");
    assert!(failed.is_empty());
}

#[test]
fn content_path_selects_the_single_container() {
    let entries = vec![
        String::from("/c/readme.txt"),
        String::from("/c/pack.gma"),
        String::from("/c/icon.png"),
    ];
    let cp = ContentPath::new(true, &entries).unwrap();
    assert_eq!(cp.path(), "/c/pack.gma");
}

#[test]
fn content_path_rejects_bad_directories() {
    assert!(matches!(
        ContentPath::new(false, &vec![String::from("/c/pack.gma")]),
        Err(PublishError::InvalidContentPath)
    ));
    assert!(matches!(
        ContentPath::new(true, &vec![String::from("/c/readme.txt")]),
        Err(PublishError::InvalidContentPath)
    ));
    assert!(matches!(
        ContentPath::new(true, &vec![String::from("/c/a.gma"), String::from("/c/b.gma")]),
        Err(PublishError::MultipleGMAs)
    ));
}

#[test]
fn icon_size_bounds() {
    assert!(icon_size_ok(16).is_ok());
    assert!(icon_size_ok(1000000).is_ok());
    assert!(matches!(icon_size_ok(15), Err(PublishError::IconTooSmall)));
    assert!(matches!(icon_size_ok(1000001), Err(PublishError::IconTooLarge)));
}

#[test]
fn icon_format_candidate_order() {
    assert_eq!(
        icon_format_candidates("png"),
        vec![IconFormat::Png, IconFormat::Jpeg, IconFormat::Gif]
    );
    assert_eq!(
        icon_format_candidates("gif"),
        vec![IconFormat::Gif, IconFormat::Jpeg, IconFormat::Png]
    );
    assert_eq!(
        icon_format_candidates("jpg"),
        vec![IconFormat::Jpeg, IconFormat::Png, IconFormat::Gif]
    );
}

#[test]
fn icon_attempt_follows_the_decoder_hint_once() {
    let att = IconAttempt {
        format: IconFormat::Jpeg,
        remaining: vec![IconFormat::Png, IconFormat::Gif],
        tried_best_guess: false,
    };
    let next = icon_attempt_step(att, IconProbe::DecodeFailedWithHint(IconFormat::Gif))
        .unwrap()
        .unwrap();
    assert_eq!(next.format, IconFormat::Gif);
    assert!(next.tried_best_guess);
    assert_eq!(next.remaining, vec![IconFormat::Png]);

    // With the guess already taken, the next candidate is tried in order.
    let again = icon_attempt_step(next, IconProbe::DecodeFailedWithHint(IconFormat::Png))
        .unwrap()
        .unwrap();
    assert_eq!(again.format, IconFormat::Png);
    assert!(again.remaining.is_empty());

    // Exhaustion is an invalid format.
    assert!(matches!(
        icon_attempt_step(again, IconProbe::DecodeFailed),
        Err(PublishError::IconInvalidFormat)
    ));
}

#[test]
fn icon_attempt_terminal_probes() {
    let att = IconAttempt {
        format: IconFormat::Jpeg,
        remaining: vec![],
        tried_best_guess: false,
    };
    assert!(matches!(
        icon_attempt_step(att.clone(), IconProbe::Accepted),
        Ok(None)
    ));
    assert!(matches!(
        icon_attempt_step(att, IconProbe::Failed),
        Err(PublishError::ImageError)
    ));
}

#[test]
fn publish_error_messages_are_stable() {
    assert_eq!(PublishError::NotWhitelisted(vec![]).message(), "ERR_WHITELIST");
    assert_eq!(PublishError::NoEntries.message(), "ERR_NO_ENTRIES");
    assert_eq!(PublishError::InvalidContentPath.message(), "ERR_INVALID_CONTENT_PATH");
    assert_eq!(PublishError::MultipleGMAs.message(), "ERR_MULTIPLE_GMAS");
    assert_eq!(PublishError::IconTooLarge.message(), "ERR_ICON_TOO_LARGE");
    assert_eq!(PublishError::IconTooSmall.message(), "ERR_ICON_TOO_SMALL");
    assert_eq!(PublishError::IconInvalidFormat.message(), "ERR_ICON_INVALID_FORMAT");
}
