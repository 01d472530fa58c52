use vivian_memory::memory_md::{append_memory_md, compose_memory_md, enforce_char_budget, is_date_header,
    merge_entries, normalize_line, parse_replace, read_memory_md, read_memory_md_raw, split_regions,
    strip_bullet, strip_file_header, tidy_need, tidy_need_for_text, write_memory_md, TidyNeed,
    MEMORY_MD_HEADER, MEMORY_MD_MAX_CHARS, MEMORY_MD_RECENT_HEADING};

fn sample_file() -> String {
    format!(
        "{}\n## 相处约定\n- 主人不吃香菜\n- 周五晚上一起看番\n\n\
         ## 2026-09-14 21:03\n- 今天聊到了大学的事\n\n\
         ## 2026-09-16 19:53\n- 答应了下周陪她看《夏日大作战》\n",
        MEMORY_MD_HEADER
    )
}

#[test]
fn split_regions_separates_dated_sediment_from_theme_sections() {
    let r = split_regions(&sample_file());
    assert!(r.consolidated_body.starts_with("## 相处约定"));
    assert!(r.consolidated_body.contains("主人不吃香菜"));
    assert!(!r.consolidated_body.contains("2026-09-14"));
    assert!(r.pending_body.starts_with("## 2026-09-14 21:03"));
    assert!(r.pending_body.contains("夏日大作战"));
    assert!(!r.pending_body.contains("相处约定"));
    // 文件头不落在任何一区（写回时由 compose_memory_md 重新加）
    assert!(!r.consolidated_body.contains("# 长期记忆笔记"));
    assert!(!r.consolidated_body.contains("> 本文件随对话自动沉淀"));
}

#[test]
fn split_regions_handles_file_without_sections() {
    let r = split_regions(&format!("{}\n## 承诺\n- 每天说晚安\n", MEMORY_MD_HEADER));
    assert_eq!(r.pending_body, "");
    assert!(r.consolidated_body.contains("每天说晚安"));

    let empty = split_regions(MEMORY_MD_HEADER);
    assert_eq!(empty.consolidated_body, "");
    assert_eq!(empty.pending_body, "");
}

#[test]
fn tidy_need_picks_incremental_only_when_sediment_accumulates() {
    // 少量沉淀：不动
    assert_eq!(tidy_need_for_text(&sample_file()), TidyNeed::NotNeeded);

    // 沉淀攒够行数：增量
    let mut text = sample_file();
    for i in 0..6 {
        text.push_str(&format!("\n## 2026-09-16 2{i}:00\n- 沉淀条目 {i}\n"));
    }
    assert_eq!(tidy_need_for_text(&text), TidyNeed::Incremental);

    // 逼近上限：全量压缩优先
    let mut big = sample_file();
    big.push_str(&"\n## 2026-09-16 23:00\n- ".to_string());
    big.push_str(&"很长的内容".repeat(400));
    assert_eq!(tidy_need_for_text(&big), TidyNeed::FullCompaction);
}

#[test]
fn merge_entries_appends_new_items_under_recent_heading() {
    let body = "## 相处约定\n- 主人不吃香菜";
    let merged = merge_entries(body, "- 主人养了一只叫团子的猫\n- 主人不吃香菜\n");
    assert!(merged.contains("## 近期补充"));
    assert!(merged.contains("主人养了一只叫团子的猫"));
    // 与已有条目重复 → 不新增
    assert_eq!(merged.matches("主人不吃香菜").count(), 1);

    // 再跑一次：并入同一分节，不重复建标题
    let merged2 = merge_entries(&merged, "- 主人讨厌下雨天");
    assert_eq!(merged2.matches(MEMORY_MD_RECENT_HEADING).count(), 1);
    assert!(merged2.contains("主人讨厌下雨天"));
    assert!(merged2.contains("主人养了一只叫团子的猫"));
}

#[test]
fn merge_entries_normalizes_bullets_whitespace_and_trailing_punctuation() {
    let body = "## 教训\n- 别在她累的时候追问工作";
    let merged = merge_entries(body, "* 别在她累的时候追问工作。\n");
    assert_eq!(merged, body, "等价条目应被机械去重：{merged}");
}

#[test]
fn merge_entries_applies_replace_and_degrades_to_append() {
    let body = "## 相处约定\n- 主人不喝咖啡";
    let merged = merge_entries(body, "REPLACE: 主人不喝咖啡 => 主人现在改喝无咖啡因拿铁了");
    assert!(merged.contains("- 主人现在改喝无咖啡因拿铁了"));
    assert!(!merged.contains("主人不喝咖啡"));

    // 找不到旧条目 → 退化为新增而不是丢弃
    let degraded = merge_entries(body, "REPLACE: 主人从没提过的事 => 新条目");
    assert!(degraded.contains("主人不喝咖啡"));
    assert!(degraded.contains("新条目"));
}

#[test]
fn merge_entries_keeps_sections_after_recent_heading_intact() {
    let body = "## 相处约定\n- 甲\n\n## 近期补充\n\n- 乙\n\n## 教训\n- 丙";
    let merged = merge_entries(body, "- 丁");
    assert!(merged.contains("- 丁"));
    // 丁 落在 `## 近期补充` 分节内，没有跑到 `## 教训` 之后
    let recent_pos = merged.find(MEMORY_MD_RECENT_HEADING).unwrap();
    let lesson_pos = merged.find("## 教训").unwrap();
    let new_pos = merged.find("- 丁").unwrap();
    assert!(recent_pos < new_pos && new_pos < lesson_pos, "{merged}");
    assert!(merged.contains("- 丙"));
}

#[test]
fn merge_entries_is_noop_on_empty_entries() {
    let body = "## 相处约定\n- 甲";
    assert_eq!(merge_entries(body, ""), body);
    assert_eq!(merge_entries(body, "\n\n# 标题\n"), body);
}

#[test]
fn merge_then_split_round_trips_into_consolidated_region() {
    // 增量整理后，新增内容必须落在「已整理区」，否则下一轮会被重复整理
    let file = sample_file();
    let regions = split_regions(&file);
    let merged = merge_entries(&regions.consolidated_body, "- 新条目");
    let reassembled = format!("{}\n{merged}\n", MEMORY_MD_HEADER);
    let again = split_regions(&reassembled);
    assert_eq!(again.pending_body, "", "增量整理后待整理区应清空");
    assert!(again.consolidated_body.contains("新条目"));
}

#[test]
fn enforce_budget_evicts_dated_sections_before_consolidated_ones() {
    let mut content = String::from(MEMORY_MD_HEADER);
    content.push_str("\n## 相处约定\n- 重要的长期约定");
    content.push_str(&"很长的内容".repeat(60));
    for i in 0..6 {
        content.push_str(&format!("\n## 2026-09-0{i} 10:00\n- 原始沉淀 {i} "));
        content.push_str(&"很长的内容".repeat(60));
    }
    assert!(
        content.chars().count() > MEMORY_MD_MAX_CHARS,
        "夹具本身必须超限，否则这个用例什么也没测"
    );
    let (evicted, out) = enforce_char_budget(content);
    assert!(evicted > 0);
    assert!(out.chars().count() <= MEMORY_MD_MAX_CHARS);
    // 已整理的正文分节必须活着——它比原始沉淀值钱
    assert!(out.contains("重要的长期约定"), "正文分节被误驱逐：{out}");
    // 最旧的日期分节先走
    assert!(!out.contains("原始沉淀 0"));
    assert!(out.contains("原始沉淀 5"));
    assert!(out.starts_with("# 长期记忆笔记"));
}

#[test]
fn enforce_budget_falls_back_to_evicting_consolidated_when_only_dates_are_gone() {
    let mut content = String::from(MEMORY_MD_HEADER);
    // 分节必须够大才越得过上限：6 节 × ~415 字符 ≈ 2490，加上文件头稳超 2000。
    // （早先写 60 次重复时总量只有 ~1963，压根没触发驱逐，断言 `evicted > 0` 就假失败了。）
    for i in 0..6 {
        content.push_str(&format!("\n## 主题{i}\n- 条目 {i} "));
        content.push_str(&"很长的内容".repeat(80));
    }
    assert!(
        content.chars().count() > MEMORY_MD_MAX_CHARS,
        "夹具本身必须超限，否则这个用例什么也没测"
    );
    let (evicted, out) = enforce_char_budget(content);
    assert!(evicted > 0);
    assert!(out.chars().count() <= MEMORY_MD_MAX_CHARS);
    assert!(!out.contains("条目 0"));
    assert!(out.contains("条目 5"));
}

#[test]
fn enforce_budget_noop_within_limit() {
    let content = String::from("# 长期记忆笔记\n\n## 2026-09-01\n- 短条目\n");
    let (evicted, out) = enforce_char_budget(content.clone());
    assert_eq!(evicted, 0);
    assert_eq!(out, content);
}

#[test]
fn write_compose_rejects_over_budget() {
    let body = "长".repeat(MEMORY_MD_MAX_CHARS);
    let err = compose_memory_md(&body).unwrap_err();
    assert!(err.contains("超过上限"));
    assert!(compose_memory_md("## 约定\n- 周五一起看番").is_ok());
}

#[test]
fn date_header_detection_is_strict_enough() {
    assert!(is_date_header("2026-09-16 19:53"));
    assert!(is_date_header("  2026-09-16T19:53  "));
    assert!(!is_date_header("2026-09-16"));
    assert!(!is_date_header("相处约定"));
    assert!(!is_date_header("2026-09-16 19:53 的对话"));
    assert!(!is_date_header(""));
}

#[test]
fn strip_file_header_tolerates_manual_edits() {
    assert_eq!(strip_file_header("# 标题\n> 说明\n\n## 甲\n- 乙"), "## 甲\n- 乙");
    assert_eq!(strip_file_header("## 甲\n- 乙"), "## 甲\n- 乙");
    assert_eq!(strip_file_header("# 只有标题"), "");
    assert_eq!(strip_file_header(""), "");
}

#[test]
fn budget_holds_for_a_note_without_sections() {
    let content = "长".repeat(3 * MEMORY_MD_MAX_CHARS);
    let (_, out) = enforce_char_budget(content);
    assert!(out.chars().count() <= MEMORY_MD_MAX_CHARS);
}

#[test]
fn merging_twice_changes_nothing_more() {
    let body = "## 相处约定\n- 甲";
    let once = merge_entries(body, "- 乙\n- 丙");
    assert_eq!(merge_entries(&once, "- 乙\n- 丙"), once);
}

#[test]
fn merging_keeps_every_entry() {
    let body = "## 相处约定\n- 甲\n\n## 教训\n- 丙";
    let merged = merge_entries(body, "- 丁");
    for line in body.lines() {
        assert!(merged.lines().any(|l| l == line), "{line}");
    }
}

#[test]
fn replacing_marks_are_read() {
    assert_eq!(
        parse_replace("REPLACE: 甲 => 乙"),
        Some(("甲".to_string(), "乙".to_string()))
    );
    assert_eq!(
        parse_replace("UPDATE: 甲 => 乙"),
        Some(("甲".to_string(), "乙".to_string()))
    );
    assert_eq!(parse_replace("甲 => 乙"), None);
}

#[test]
fn bullets_and_stops_do_not_count() {
    assert_eq!(strip_bullet("- 甲"), "甲");
    assert_eq!(strip_bullet("* 甲"), "甲");
    assert_eq!(strip_bullet("甲"), "甲");
    assert_eq!(normalize_line("- 主人  不吃香菜。"), normalize_line("* 主人 不吃香菜"));
}

#[test]
fn notes_are_read_and_written() {
    assert_eq!(read_memory_md_raw("vivian", None), None);
    assert_eq!(read_memory_md_raw("", Some("x".to_string())), None);
    let file = compose_memory_md("## 约定\n- 甲").unwrap();
    assert!(file.starts_with(MEMORY_MD_HEADER));
    assert!(read_memory_md("vivian", Some(file.clone())).is_some());
    assert_eq!(tidy_need("vivian", Some(file.clone())), TidyNeed::NotNeeded);
    assert_eq!(tidy_need("vivian", None), TidyNeed::NotNeeded);
    assert_eq!(write_memory_md("vivian", "## 约定\n- 甲"), Ok(file));
    assert_eq!(write_memory_md(" ", "甲"), Err("缺少角色 ID".to_string()));
    assert!(write_memory_md("vivian", &"长".repeat(MEMORY_MD_MAX_CHARS)).is_err());
}

#[test]
fn appending_adds_a_dated_section() {
    assert!(append_memory_md("", "", "2026-09-16 19:53", "- 甲").is_err());
    let r = append_memory_md("vivian", "", "2026-09-16 19:53", "- 甲").unwrap();
    let text = format!("{r:?}");
    assert!(text.contains("2026-09-16 19:53"));
    assert!(text.contains("- 甲"));
}

#[test]
fn an_appended_section_waits_until_it_is_tidied() {
    let file = append_memory_md("vivian", &sample_file(), "2026-09-17 08:00", "- 乙").unwrap().unwrap();
    let regions = split_regions(&file);
    assert!(regions.pending_body.ends_with("## 2026-09-17 08:00\n- 乙"));
    let merged = merge_entries(&regions.consolidated_body, "## 2026-09-17 08:00\n- ## 2026-09-18 09:00\n- 乙");
    assert!(merged.contains("- ## 2026-09-18 09:00\n- 乙"));
    let tidied = compose_memory_md(&merged).unwrap();
    assert_eq!(split_regions(&tidied).pending_body, "");
}

#[test]
fn a_written_note_is_read_back() {
    let body = "\n## 相处约定\n- 主人不吃香菜\n\n\n## 承诺\n- 每天说晚安\n> 引用\n\n";
    let regions = split_regions(&compose_memory_md(body).unwrap());
    assert_eq!(regions.consolidated_body, body.trim());
    assert_eq!(regions.pending_body, "");
    let plain = "- 主人不吃香菜\n\n- 每天说晚安 ";
    let regions = split_regions(&compose_memory_md(plain).unwrap());
    assert_eq!(regions.consolidated_body, plain.trim());
    assert_eq!(regions.pending_body, "");
    let regions = split_regions(&compose_memory_md(" \n").unwrap());
    assert_eq!(regions.consolidated_body, "");
}

#[test]
fn the_same_entries_merged_again_change_nothing() {
    let body = "## 相处约定\n- 主人不吃香菜\r\n\n## 近期补充\n- 旧的\n\n## 承诺\n- 晚安";
    let entries = "# 标题\n* 新的一条。\n\n  + 又一条  \n- 新的一条\n- 主人不吃香菜！";
    let once = merge_entries(body, entries);
    assert!(once.contains("- 新的一条。\n- 又一条"));
    assert_eq!(merge_entries(&once, entries), once);
    let fresh = merge_entries("", entries);
    assert_eq!(merge_entries(&fresh, entries), fresh);
    assert_eq!(fresh.matches(MEMORY_MD_RECENT_HEADING).count(), 1);
}
