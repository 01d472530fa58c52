use vivian_memory::takes_fence::{normalize_claim, TakeStatus, TakesFence};

fn make_test_fence() -> TakesFence {
    TakesFence::new()
}

#[test]
fn test_add_take_basic() {
    let mut fence = make_test_fence();
    let row_num = fence.add_take("腾讯", "职位", "CEO", "mem1", 1_000_000);
    assert_eq!(row_num, 1);

    let active = fence.active_takes("腾讯");
    assert_eq!(active.len(), 1);
    assert_eq!(active[0].value, "CEO");
    assert_eq!(active[0].status, TakeStatus::Active);
}

#[test]
fn test_supersede_same_claim() {
    let mut fence = make_test_fence();
    fence.add_take("腾讯", "职位", "CEO", "mem1", 1_000_000);
    let row2 = fence.add_take("腾讯", "职位", "CTO", "mem2", 2_000_000);

    // 旧行应被 supersede
    let active = fence.active_takes("腾讯");
    assert_eq!(active.len(), 1);
    assert_eq!(active[0].row_num, row2);
    assert_eq!(active[0].value, "CTO");
}

#[test]
fn test_different_claims_coexist() {
    let mut fence = make_test_fence();
    fence.add_take("腾讯", "职位", "CEO", "mem1", 1_000_000);
    fence.add_take("腾讯", "所在地", "深圳", "mem2", 2_000_000);

    let active = fence.active_takes("腾讯");
    assert_eq!(active.len(), 2);
}

#[test]
fn test_row_num_never_reused() {
    let mut fence = make_test_fence();
    let r1 = fence.add_take("X", "claim", "v1", "mem1", 1_000_000);
    let r2 = fence.add_take("X", "claim", "v2", "mem2", 2_000_000);
    let r3 = fence.add_take("X", "claim", "v3", "mem3", 3_000_000);

    assert_eq!(r1, 1);
    assert_eq!(r2, 2);
    assert_eq!(r3, 3);

    // 只有最后一行 active
    let active = fence.active_takes("X");
    assert_eq!(active.len(), 1);
    assert_eq!(active[0].row_num, 3);
}

#[test]
fn test_render_compact() {
    let mut fence = make_test_fence();
    fence.add_take("腾讯", "职位", "CEO", "mem1", 1_000_000);
    fence.add_take("腾讯", "所在地", "深圳", "mem2", 2_000_000);

    let compact = fence.render_compact("腾讯");
    assert!(compact.contains("职位=CEO"));
    assert!(compact.contains("所在地=深圳"));
}

#[test]
fn test_render_markdown() {
    let mut fence = make_test_fence();
    fence.add_take("腾讯", "职位", "CEO", "mem1", 1_000_000);
    fence.add_take("腾讯", "职位", "CTO", "mem2", 2_000_000);

    let md = fence.render_markdown("腾讯");
    assert!(md.contains("~~CEO~~")); // 旧行被划线
    assert!(md.contains("CTO")); // 新行正常
    assert!(md.contains("superseded"));
    assert!(md.contains("active"));
}

#[test]
fn test_normalize_claim() {
    assert_eq!(normalize_claim("  职位  "), "职位");
    assert_eq!(normalize_claim("Job Title"), "jobtitle");
    assert_eq!(normalize_claim("职位\n"), "职位");
}

#[test]
fn test_nonexistent_subject() {
    let fence = make_test_fence();
    assert!(fence.active_takes("不存在").is_empty());
    assert_eq!(fence.render_compact("不存在"), "");
}

#[test]
fn test_save_and_load() {
    let mut fence = make_test_fence();
    fence.add_take("腾讯", "职位", "CEO", "mem1", 1_000_000);
    let fence2 = TakesFence { tables: fence.tables };
    assert_eq!(fence2.subject_count(), 1);
    let active = fence2.active_takes("腾讯");
    assert_eq!(active.len(), 1);
}

#[test]
fn test_ingest_from_memory() {
    let mut fence = make_test_fence();
    let row = fence.ingest_from_memory("腾讯", "马化腾是创始人", "mem1", 1_000_000);
    assert!(row >= 1);
    let active = fence.active_takes("腾讯");
    assert_eq!(active.len(), 1);
    assert_eq!(active[0].claim, "mentioned");
}

#[test]
fn rows_are_counted_and_never_lost() {
    let mut fence = make_test_fence();
    fence.add_take("A", "c", "1", "m", 1);
    fence.add_take("A", "c", "2", "m", 2);
    fence.add_take("B", "c", "3", "m", 3);
    assert_eq!(fence.total_rows(), 3);
    assert_eq!(fence.subject_count(), 2);
    let mut subjects = fence.list_subjects();
    subjects.sort();
    assert_eq!(subjects, vec!["A", "B"]);
    assert_eq!(fence.active_takes("A")[0].superseded_by, None);
}

#[test]
fn what_is_ingested_is_one_row_of_its_subject() {
    let mut fence = make_test_fence();
    fence.add_take("A", "c", "1", "m", 1);
    fence.ingest_from_memory("A", "x", "m1", 2);
    assert_eq!((fence.subject_count(), fence.total_rows()), (1, 2));
    fence.ingest_from_memory("B", "y", "m2", 3);
    assert_eq!((fence.subject_count(), fence.total_rows()), (2, 3));
    assert_eq!(fence.active_takes("A").len(), 2);
}
