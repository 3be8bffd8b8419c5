use asr_core::models::{
    catalog, check_download, model_status, plan_download, should_report_progress, statuses, ModelError,
};

#[test]
fn catalogue_entries() {
    let c = catalog();
    let ids: Vec<&str> = c.iter().map(|e| e.id).collect();
    assert_eq!(ids, vec!["ggml-large-v3-turbo-q5_0", "qwen", "sensevoice", "diar"]);
    assert_eq!(c[1].files.len(), 5);
    assert_eq!(c[1].files[2].bytes, 1_876_091_704);
    assert!(c[2].files.is_empty() && c[3].files.is_empty());
}

#[test]
fn statuses_follow_the_catalogue() {
    let c = catalog();
    let st = statuses(&c, &vec![true, false, false, true]);
    assert_eq!(st.len(), 4);
    assert_eq!(st[0].id, "ggml-large-v3-turbo-q5_0");
    assert!(st[0].present && st[0].downloadable);
    assert_eq!(st[0].approx_mb, 547);
    assert!(!st[1].present && st[1].downloadable);
    assert!(!st[2].downloadable);
    assert_eq!(st[3].label, "화자분리(pyannote + CAM++)");
    let one = model_status(&c[2], true);
    assert_eq!((one.id.as_str(), one.present, one.downloadable), ("sensevoice", true, false));
}

#[test]
fn download_plans_and_refusals() {
    let c = catalog();
    assert!(matches!(plan_download(&c, "qwen"), Ok(1)));
    assert!(matches!(plan_download(&c, "ggml-large-v3-turbo-q5_0"), Ok(0)));
    match plan_download(&c, "nope") {
        Err(e @ ModelError::Unknown(_)) => assert_eq!(e.message(), "알 수 없는 모델: nope"),
        _ => panic!("unknown model accepted"),
    }
    match plan_download(&c, "sensevoice") {
        Err(e @ ModelError::ManualOnly(_)) => {
            assert_eq!(e.message(), "SenseVoice 다국어 은(는) 자동 다운로드 미지원입니다(수동 배치 필요).")
        }
        _ => panic!("manual model accepted"),
    }
}

#[test]
fn download_progress_and_integrity() {
    assert!(!should_report_progress(3_999_999, 0, 0));
    assert!(should_report_progress(4_000_000, 0, 0));
    assert!(should_report_progress(100, 0, 100));
    assert!(!should_report_progress(100, 0, 200));
    assert!(check_download("a.bin", 10, 10).is_ok());
    assert!(check_download("a.bin", 10, 0).is_ok());
    match check_download("qwen/vocab.json", 5, 10) {
        Err(e @ ModelError::Incomplete { .. }) => {
            assert_eq!(e.message(), "qwen/vocab.json 다운로드 손상: 5/10B. 다시 시도하세요.")
        }
        _ => panic!("short download accepted"),
    }
}
