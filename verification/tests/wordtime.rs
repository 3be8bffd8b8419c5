use asr_core::timestamps::{timestamp_repair_plan, TimestampFix};
use asr_core::wordtime::{clean_align_token, is_cjk_char, is_kept_char, split_align_words, time_weight_units};

/// Order keys for timestamps: the number of timestamps strictly below each.
fn order_keys(values: &[f64]) -> Vec<u64> {
    values
        .iter()
        .map(|v| values.iter().filter(|w| *w < v).count() as u64)
        .collect()
}

/// Applies a repair plan to the timestamps it was made for.
fn apply_plan(values: &[f64]) -> Vec<f64> {
    let plan = timestamp_repair_plan(&order_keys(values));
    let mut out = values.to_vec();
    for (k, fix) in plan.iter().enumerate() {
        match *fix {
            TimestampFix::Keep => {}
            TimestampFix::Copy(j) => out[k] = values[j],
            TimestampFix::Between { left, right, step, count } => {
                let l = values[left];
                let r = values[right];
                let d = (r - l) / (count as f64 + 1.0);
                out[k] = l + d * (step as f64);
            }
        }
    }
    out
}

#[test]
fn cjk_split_keeps_hangul_and_latin_as_runs() {
    assert_eq!(split_align_words("你好 world"), vec!["你", "好", "world"]);
    assert_eq!(split_align_words("안녕하세요 hi!"), vec!["안녕하세요", "hi"]);
}

#[test]
fn time_weight_counts_kept_chars() {
    assert_eq!(time_weight_units("안녕하세요") as f64, 5.0);
    assert_eq!(time_weight_units("hello") as f64, 5.0);
    assert_eq!(time_weight_units("...") as f64, 1.0);
    assert_eq!(time_weight_units("don't") as f64, 5.0);
}

#[test]
fn fix_timestamps_repairs_non_monotonic() {
    let out = apply_plan(&[0.0, 2.0, 1.0, 3.0]);
    assert_eq!(out, vec![0.0, 2.0, 2.0, 3.0]);
}

#[test]
fn fix_timestamps_noop_when_monotonic() {
    let v = vec![0.0, 0.5, 1.0, 1.5];
    assert_eq!(apply_plan(&v), v);
}

#[test]
fn repair_plan_of_sorted_keys_keeps_everything() {
    let plan = timestamp_repair_plan(&vec![1, 1, 2, 5, 5, 9]);
    assert!(plan.iter().all(|f| *f == TimestampFix::Keep));
}

#[test]
fn repair_plan_copies_nearer_neighbour() {
    // keys 0 2 1 3: the run 0,2,3 is kept (first longest), position 2 copies position 1.
    let plan = timestamp_repair_plan(&vec![0, 2, 1, 3]);
    assert_eq!(
        plan,
        vec![TimestampFix::Keep, TimestampFix::Keep, TimestampFix::Copy(1), TimestampFix::Keep]
    );
}

#[test]
fn repair_plan_spreads_long_runs() {
    // 0 9 9 9 1 2 3 4: the kept run is 0 1 2 3 4; the three 9s sit between 0 and 1.
    let plan = timestamp_repair_plan(&vec![0, 9, 9, 9, 1, 2, 3, 4]);
    assert_eq!(plan[0], TimestampFix::Keep);
    assert_eq!(plan[1], TimestampFix::Between { left: 0, right: 4, step: 1, count: 3 });
    assert_eq!(plan[2], TimestampFix::Between { left: 0, right: 4, step: 2, count: 3 });
    assert_eq!(plan[3], TimestampFix::Between { left: 0, right: 4, step: 3, count: 3 });
    assert!(plan[4..].iter().all(|f| *f == TimestampFix::Keep));
    let out = apply_plan(&[0.0, 9.0, 9.0, 9.0, 1.0, 2.0, 3.0, 4.0]);
    assert_eq!(out, vec![0.0, 0.25, 0.5, 0.75, 1.0, 2.0, 3.0, 4.0]);
}

#[test]
fn repair_plan_edges_copy_the_only_neighbour() {
    // 5 6 0 1 2 3: the kept run is 0 1 2 3 at the end; the two leading values copy position 2.
    let plan = timestamp_repair_plan(&vec![5, 6, 0, 1, 2, 3]);
    assert_eq!(plan[0], TimestampFix::Copy(2));
    assert_eq!(plan[1], TimestampFix::Copy(2));
    // 0 1 2 9 8 7 6 ... trailing run without a right neighbour copies the left one.
    let plan = timestamp_repair_plan(&vec![0, 1, 2, 3, 1, 0, 0]);
    assert_eq!(&plan[..4], &[TimestampFix::Keep; 4]);
    assert_eq!(&plan[4..], &[TimestampFix::Copy(3); 3]);
}

#[test]
fn repair_plan_of_tiny_inputs() {
    assert!(timestamp_repair_plan(&vec![]).is_empty());
    assert_eq!(timestamp_repair_plan(&vec![7]), vec![TimestampFix::Keep]);
    assert_eq!(timestamp_repair_plan(&vec![2, 1]), vec![TimestampFix::Keep, TimestampFix::Copy(0)]);
}

#[test]
fn cjk_and_kept_chars() {
    assert!(is_cjk_char('你'));
    assert!(!is_cjk_char('안'));
    assert!(!is_cjk_char('a'));
    assert!(is_kept_char('\''));
    assert!(is_kept_char('7'));
    assert!(!is_kept_char('!'));
}

#[test]
fn align_token_drops_punctuation() {
    assert_eq!(clean_align_token("hi!"), "hi");
    assert_eq!(clean_align_token("...don't?"), "don't");
    assert_eq!(clean_align_token("..."), "");
}

#[test]
fn repairing_twice_changes_nothing() {
    for v in [
        vec![0.0, 2.0, 1.0, 3.0],
        vec![0.0, 9.0, 9.0, 9.0, 1.0, 2.0, 3.0, 4.0],
        vec![5.0, 6.0, 0.0, 1.0, 2.0, 3.0],
        vec![3.0, 1.0, 2.0, 0.5, 4.0, 0.25, 5.0],
    ] {
        let once = apply_plan(&v);
        assert!(once.windows(2).all(|w| w[0] <= w[1]), "{once:?}");
        assert_eq!(apply_plan(&once), once);
    }
}

#[test]
fn alignment_split_of_joined_text() {
    for (a, b) in [("你好 wor-ld", "안녕하세요 hi!"), ("", "x"), ("a...b", "   c 好")] {
        let joined = format!("{a} {b}");
        let mut both = split_align_words(a);
        both.extend(split_align_words(b));
        assert_eq!(split_align_words(&joined), both);
    }
}
