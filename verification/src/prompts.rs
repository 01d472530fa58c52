//! What a model is asked when memories are consolidated.

use crate::text::{count_chars, join, join_strings, texts};
use crate::types::{item_views, list_at, text_at, ItemView, MemoryItem};
use vstd::prelude::*;
use vstd::string::*;

verus! {

/// What is asked of a model about short memories: the task.
pub const SUMMARY_TASK: &'static str = "请将以下多条短期记忆摘要为1-3条主题级会话摘要。每条摘要应保留关键事实、情感和关系信息，去除冗余细节。\n";

/// What is asked of a model about short memories: the form of the answer.
pub const SUMMARY_FORM: &'static str = "输出JSON数组，每项含：\n- \"summary\"(string)：会话摘要\n- \"importance\"(0.0-1.0)，评分标准（统一适用）：\n- 0.9-1.0：硬性约束、核心身份属性、健康/过敏信息、重大关系里程碑\n- 0.6-0.8：长期偏好、项目背景、关键决策、关系事件、共同经历\n- 0.3-0.5：一般事实、上下文信息、解释性内容\n- 0.0-0.2：闲聊、寒暄、临时性问题、一次性话题\n- \"mood_tags\"(string[])：本段摘要的情感余温，0-3 个标签，从以下 16 个中选：\ncalm, warm, affectionate, happy, playful, curious, thoughtful,\ntouched, proud, worried, lonely, sad, embarrassed, tense, annoyed, determined\n- \"date_labels\"(string[])：本段摘要覆盖的日期（YYYY-MM-DD），可多天，从原始对话的时间标签提取\n- \"time_of_days\"(string[])：本段摘要覆盖的时段，可多选，从 morning/afternoon/evening/night 中选\n仅输出JSON，无其他文本。\n\n短期记忆：\n";

/// What stands before the identity of a character.
pub const IDENTITY_HEAD: &'static str = "\n[角色身份]\n下面是你此刻的角色身份；整理记忆时就按这个身份记。\n角色设定只决定你的记忆口吻、在意点和情感余温，不是这段对话发生过的事实。\n";

/// What stands before earlier summaries.
pub const REFERENCE_HEAD: &'static str = "\n[可参考的既有阶段摘要]\n只用于保持人物关系、项目脉络、时间线和记忆口吻一致；\n不要把参考摘要里出现、但本段原始对话没有出现的内容写成这段的新事实。\n";

/// What is asked of a model: who the user is and what the user likes.
pub const PROFILE_TASK: &'static str = "请从以下会话摘要中抽取用户的身份事实和偏好。\n\n关注：姓名、年龄、职业、所在地、技能、喜好（食物/音乐/活动等）、\n持续性偏好（非一次性提及）。\n\n输出JSON数组，每项含：\n- \"fact\"(string): 一条简洁事实陈述\n- \"type\"(string): \"user\" 或 \"preference\"\n- \"importance\"(0.0-1.0)，评分标准：\n0.9-1.0 硬性约束/核心身份/健康信息；0.6-0.8 长期偏好/关键决策；\n0.3-0.5 一般事实/上下文；0.0-0.2 闲聊/临时话题\n- \"topic\"(string): 主题标签（如\"identity\"/\"food\"/\"hobby\"，\n无明确主题时填\"general\"）\n仅输出JSON，无其他文本。\n\n会话摘要：\n";

/// What is asked of a model: what happened between the user and the character.
pub const RELATION_TASK: &'static str = "请从以下会话摘要中抽取用户与 Vivian 之间的关系事件和情感变化。\n\n关注：约定/承诺、共同经历、关系里程碑、情感转折点、冲突与和解、\n信任变化、亲密度变化。\n\n输出JSON数组，每项含：\n- \"fact\"(string): 一条简洁关系事实陈述\n- \"type\"(string): \"relationship\"\n- \"importance\"(0.0-1.0)，评分标准：\n0.9-1.0 重大关系里程碑；0.6-0.8 关系事件/共同经历；\n0.3-0.5 一般关系上下文；0.0-0.2 闲聊/临时话题\n- \"topic\"(string): 主题标签（如\"milestone\"/\"conflict\"/\"promise\"，\n无明确主题时填\"relationship\"）\n仅输出JSON，无其他文本。\n\n会话摘要：\n";

/// What is asked of a model: what the user does and says of the answers.
pub const HABIT_TASK: &'static str = "请从以下会话摘要中抽取用户的行为模式、反馈和习惯，并跨摘要归并同一主题。\n\n## 任务\n1. 识别跨多个摘要的同一主题（如「项目 X」、「健康习惯」、「学习计划」），\n将相关片段归并为主题级事实，避免碎片化重复。\n2. 抽取用户对 Vivian 的反馈（喜欢/不喜欢的回复方式、话题偏好）。\n3. 抽取用户的行为习惯（作息、工作模式、互动节奏）。\n\n输出JSON数组，每项含：\n- \"fact\"(string): 一条简洁事实陈述（已归并的主题用一句话概括）\n- \"type\"(string): \"feedback\"\n- \"importance\"(0.0-1.0)，评分标准：\n0.9-1.0 硬性约束/核心偏好；0.6-0.8 长期反馈/习惯；\n0.3-0.5 一般行为模式；0.0-0.2 闲聊/临时话题\n- \"topic\"(string): 主题标签（如\"project_x\"/\"health\"/\"work_pattern\"，\n无明确主题时填\"general\"）\n仅输出JSON，无其他文本。\n\n会话摘要：\n";

/// What is asked of a model: moods and signals.
pub const SIGNAL_TASK: &'static str = "请从以下会话摘要中识别用户与 Vivian 互动时的关系信号和情绪状态。\n\n## 任务\n为摘要中每个可识别的互动片段抽取一组关系信号：\n1. **user_mood**(string): 用户当时的情绪状态\n如「疲惫」「焦虑」「低落」「开心」「平静」「烦躁」「兴奋」「失落」\n2. **relationship_signal**(string): 用户对 Vivian 的态度信号\n如「亲近」「疏远」「信任」「试探」「依赖」「敷衍」「真诚」「回避」\n3. **important_moment**(string, 可选): 值得记住的关系瞬间\n如里程碑、第一次某行为、情感转折点；无则留空\n4. **next_care_cue**(string): 基于 Vivian 的视角，下次该如何回应\n如「用户疲惫时少打扰」「主动关心项目进度」「避免追问」\n## 抽取原则\n- 基于用户在对话中表现出的情绪和态度，不臆测\n- next_care_cue 要具体可操作，避免空泛（如「对用户好」过于空泛）\n- 每个摘要最多抽取 2 组信号，避免噪音\n- 没有明确信号时返回空数组\n## 输出格式\nJSON 数组，每项含上述四个字段。仅输出 JSON，无其他文本。\n\n会话摘要：\n";

/// What is asked of a model: what the user is up to.
pub const RECENT_TASK: &'static str = "请从以下会话摘要中识别用户最近的动态状态。\n\n## 任务\n抽取三类近期状态：\n1. **recent_goals**(string[]): 用户最近的目标或想做的事\n如「准备考研」「找工作」「想学吉他」「计划减肥」\n2. **current_projects**(string[]): 用户当前正在进行的项目或任务\n如「在开发一个网站」「在写毕业论文」「在做XX项目」\n3. **recent_preferences**(string[]): 用户最近表现出的偏好或兴趣\n如「最近在听后摇」「最近迷上原神」「最近喜欢熬夜」\n## 抽取原则\n- 只抽取「最近」的状态，不抽取长期稳定的身份信息（姓名/职业等）\n- 基于用户在对话中明确表达的内容，不臆测\n- 每类最多 3 条，避免噪音\n- 没有明确信号时对应字段返回空数组\n- 如果三类都没有明确信号，整体返回空 JSON 对象\n## 输出格式\nJSON 对象，含上述三个字段。仅输出 JSON，无其他文本。\n\n会话摘要：\n";

/// What is asked of a model: what several memories tell together.
pub const INSIGHT_TASK: &'static str = "请从以下长期记忆中发现模式、规律或高层洞察。生成1-3条洞察。\n洞察应是超越单条事实的抽象结论，如行为模式、关系变化趋势、深层偏好等。\n输出JSON数组，每项含：\n- \"insight\"(string): 一条洞察陈述\n- \"importance\"(0.0-1.0)，评分标准：\n0.9-1.0 核心性格洞察/重大关系趋势；0.6-0.8 重要行为模式/偏好规律；\n0.3-0.5 一般观察；0.0-0.2 浅层/临时观察\n- \"source_ids\"(string[]): 支持此洞察的记忆ID列表\n仅输出JSON，无其他文本。\n\n长期记忆：\n";

/// What is asked of a model: how the character itself behaves.
pub const PERSONA_TASK: &'static str = "请从以下会话摘要中归纳 **Vivian 自己** 已表现出的稳定行为模式。\n\n## 任务\n抽取四类语义级行为：\n1. **language_style**（语言风格）：句式、词汇偏好、语气特征\n如「常用短句+语气词」「偶尔中英混用」「喜欢用反问句」\n2. **behavior**（行为举止）：Vivian 主动做出的稳定行为\n如「主动追问项目进度」「用户疲惫时主动安慰」「记得用户提到的人名」\n3. **interaction**（互动方式）：沟通节奏、提问方式\n如「不直接否定用户」「用问句开启新话题」「吐槽后补一句软话」\n4. **skill**（习得能力）：新学会的工具或技能\n如「学会了查询天气」「能识别用户工作日程」「知道用日历工具」\n## 抽取原则\n- 只抽取 Vivian **已经表现出**的行为，不抽取用户的行为\n- 只抽取 **稳定** 的模式（多次出现或一次明确表现），不抽取一次性偶发行为\n- 描述要具体可操作，避免空泛（如「对用户友好」过于空泛）\n- 每类最多抽取 2 条，避免噪音";

/// The form of the answer about the character.
pub const PERSONA_FORM: &'static str = "\n## 输出格式\nJSON 数组，每项含：\n- \"category\"(string): \"language_style\" / \"behavior\" / \"interaction\" / \"skill\"\n- \"description\"(string): 一句话描述\n- \"confidence\"(0.0-1.0): 置信度（多次出现≥0.7，单次明确≥0.5）\n仅输出JSON，无其他文本。\n\n会话摘要：\n";

/// What is asked of a model: what the user cares about.
pub const CONCEPT_TASK: &'static str = "请从以下高层洞察中归纳用户的长期概念（\"用户长期在乎什么\"）。\n\n## 任务\n识别跨主题的稳定概念，如自主性、可靠性、UI 审美、工作效率等。\n每个概念应：\n- key：概念名（英文小写蛇形，如 agent_autonomy / ui_aesthetic）\n- value：简要状态（如 high / prefers_soft_ui）\n- meaning：一句话说明\"用户为什么在乎\"\n- related_topics：与之关联的主题标签（跨主题关联，如 proactive、inner_monologue、observation）\n- evidence_ids：支持该概念的洞察来源 ID（直接引用输入的 [id]）\n- strength：0.0-1.0，该概念对用户的重要程度\n若某洞察与【已有概念】语义相同，应归并到已有概念而非新建（related_topics 合并）。\n\n## 已有概念\n";

/// What stands before new insights.
pub const CONCEPT_NEW: &'static str = "\n\n## 新洞察\n";

/// The form of the answer about concepts.
pub const CONCEPT_FORM: &'static str = "\n\n输出JSON数组，仅输出JSON，无其他文本。";

/// What stands behind the part of a character that never changes.
pub const CORE_TAIL: &'static str = "\n（上述为不可修改的人设核心，抽取的动态行为不得与之冲突）\n";

// ---------------------------------------------------------------------------
// Memories in a question
// ---------------------------------------------------------------------------

/// The mood of a memory in brackets.
pub open spec fn mood_note(m: ItemView) -> Seq<char> {
    let moods = list_at(m.metadata, "mood_tags"@);
    if moods.len() == 0 {
        Seq::empty()
    } else {
        " [情绪余温: "@ + join(moods, ","@) + "]"@
    }
}

/// The day of a memory in brackets.
pub open spec fn date_note(m: ItemView) -> Seq<char> {
    match text_at(m.metadata, "date_label"@) {
        Some(d) => " [日期: "@ + d + "]"@,
        None => Seq::empty(),
    }
}

/// The time of day of a memory in brackets.
pub open spec fn time_note(m: ItemView) -> Seq<char> {
    match text_at(m.metadata, "time_of_day"@) {
        Some(t) => " [时段: "@ + t + "]"@,
        None => Seq::empty(),
    }
}

/// A memory with its identifier, time and mood.
pub open spec fn full_line(m: ItemView) -> Seq<char> {
    "["@ + m.id + "]"@ + date_note(m) + time_note(m) + mood_note(m) + " "@ + m.content
}

/// A memory with its identifier.
pub open spec fn short_line(m: ItemView) -> Seq<char> {
    "["@ + m.id + "] "@ + m.content
}

/// An earlier summary with its mood.
pub open spec fn reference_line(m: ItemView) -> Seq<char> {
    "- "@ + m.content + mood_note(m)
}

/// The memories line by line, with time and mood.
pub open spec fn full_lines(s: Seq<ItemView>) -> Seq<char> {
    join(s.map_values(|m: ItemView| full_line(m)), "\n"@)
}

/// The memories line by line.
pub open spec fn short_lines(s: Seq<ItemView>) -> Seq<char> {
    join(s.map_values(|m: ItemView| short_line(m)), "\n"@)
}

/// The earlier summaries line by line.
pub open spec fn reference_lines(s: Seq<ItemView>) -> Seq<char> {
    join(s.map_values(|m: ItemView| reference_line(m)), "\n"@)
}

fn mood_text(m: &MemoryItem) -> (r: String)
    ensures
        r@ == mood_note(m@),
{
    let moods = m.mood_tags();
    assert(texts(moods@).len() == moods@.len());
    if moods.len() == 0 {
        return String::new();
    }
    let mut out: String = " [情绪余温: ".to_owned();
    out.append(join_strings(&moods, ",").as_str());
    out.append("]");
    out
}

fn noted_text(head: &str, o: Option<String>) -> (r: String)
    ensures
        r@ == (match o {
            Some(s) => head@ + s@ + "]"@,
            None => Seq::<char>::empty(),
        }),
{
    match o {
        Some(s) => {
            let mut out: String = head.to_owned();
            out.append(s.as_str());
            out.append("]");
            out
        },
        None => String::new(),
    }
}

fn write_full_line(m: &MemoryItem) -> (r: String)
    ensures
        r@ == full_line(m@),
{
    let mut out: String = "[".to_owned();
    out.append(m.id.as_str());
    out.append("]");
    out.append(noted_text(" [日期: ", m.date_label()).as_str());
    out.append(noted_text(" [时段: ", m.time_of_day()).as_str());
    out.append(mood_text(m).as_str());
    out.append(" ");
    out.append(m.content.as_str());
    out
}

fn write_short_line(m: &MemoryItem) -> (r: String)
    ensures
        r@ == short_line(m@),
{
    let mut out: String = "[".to_owned();
    out.append(m.id.as_str());
    out.append("] ");
    out.append(m.content.as_str());
    out
}

fn write_reference_line(m: &MemoryItem) -> (r: String)
    ensures
        r@ == reference_line(m@),
{
    let mut out: String = "- ".to_owned();
    out.append(m.content.as_str());
    out.append(mood_text(m).as_str());
    out
}

fn write_lines<F: Fn(&MemoryItem) -> String>(
    items: &[MemoryItem],
    f: F,
    Ghost(line): Ghost<spec_fn(ItemView) -> Seq<char>>,
) -> (r: String)
    requires
        forall|m: &MemoryItem| #[trigger] f.requires((m,)),
        forall|m: &MemoryItem, s: String| #[trigger] f.ensures((m,), s) ==> s@ == line(m@),
    ensures
        r@ == join(item_views(items@).map_values(line), "\n"@),
{
    let mut lines: Vec<String> = Vec::new();
    let mut i: usize = 0;
    while i < items.len()
        invariant
            i <= items@.len(),
            lines@.len() == i,
            forall|m: &MemoryItem| #[trigger] f.requires((m,)),
            forall|m: &MemoryItem, s: String| #[trigger] f.ensures((m,), s) ==> s@ == line(m@),
            forall|k: int| 0 <= k < i ==> (#[trigger] lines@[k])@ == line(items@[k]@),
        decreases items@.len() - i,
    {
        lines.push(f(&items[i]));
        i += 1;
    }
    assert(texts(lines@) =~= item_views(items@).map_values(line));
    join_strings(&lines, "\n")
}

/// The memories line by line, with time and mood.
pub fn write_full_lines(items: &[MemoryItem]) -> (r: String)
    ensures
        r@ == full_lines(item_views(items@)),
{
    let f = |m: &MemoryItem| -> (s: String)
        ensures
            s@ == full_line(m@),
        { write_full_line(m) };
    write_lines(items, f, Ghost(|m: ItemView| full_line(m)))
}

/// The memories line by line.
pub fn write_short_lines(items: &[MemoryItem]) -> (r: String)
    ensures
        r@ == short_lines(item_views(items@)),
{
    let f = |m: &MemoryItem| -> (s: String)
        ensures
            s@ == short_line(m@),
        { write_short_line(m) };
    write_lines(items, f, Ghost(|m: ItemView| short_line(m)))
}

/// The earlier summaries line by line.
pub fn write_reference_lines(items: &[MemoryItem]) -> (r: String)
    ensures
        r@ == reference_lines(item_views(items@)),
{
    let f = |m: &MemoryItem| -> (s: String)
        ensures
            s@ == reference_line(m@),
        { write_reference_line(m) };
    write_lines(items, f, Ghost(|m: ItemView| reference_line(m)))
}

// ---------------------------------------------------------------------------
// The questions
// ---------------------------------------------------------------------------

/// The identity of the character, where it is given.
pub open spec fn identity_section(core: Seq<char>) -> Seq<char> {
    if core.len() == 0 {
        Seq::empty()
    } else {
        IDENTITY_HEAD@ + core + "\n\n"@
    }
}

/// Earlier summaries, where there are any.
pub open spec fn reference_section(recent: Seq<ItemView>) -> Seq<char> {
    if recent.len() == 0 {
        Seq::empty()
    } else {
        REFERENCE_HEAD@ + reference_lines(recent) + "\n\n"@
    }
}

/// The question for summaries of short memories.
pub open spec fn summary_prompt(core: Seq<char>, recent: Seq<ItemView>, short: Seq<ItemView>) -> Seq<char> {
    identity_section(core) + SUMMARY_TASK@ + reference_section(recent) + SUMMARY_FORM@ + full_lines(short)
}

/// The question for summaries of short memories.
pub fn stage1_prompt(core: &str, recent: &[MemoryItem], short: &[MemoryItem]) -> (r: String)
    ensures
        r@ == summary_prompt(core@, item_views(recent@), item_views(short@)),
{
    let mut out: String = String::new();
    if count_chars(core) > 0 {
        out.append(IDENTITY_HEAD);
        out.append(core);
        out.append("\n\n");
    }
    assert(out@ =~= identity_section(core@));
    out.append(SUMMARY_TASK);
    let mut reference: String = String::new();
    assert(item_views(recent@).len() == recent@.len());
    if recent.len() > 0 {
        reference.append(REFERENCE_HEAD);
        reference.append(write_reference_lines(recent).as_str());
        reference.append("\n\n");
    }
    assert(reference@ =~= reference_section(item_views(recent@)));
    out.append(reference.as_str());
    out.append(SUMMARY_FORM);
    out.append(write_full_lines(short).as_str());
    out
}

/// The question who the user is and what the user likes.
pub open spec fn profile_prompt(text: Seq<char>) -> Seq<char> {
    PROFILE_TASK@ + text
}

/// The question who the user is and what the user likes.
pub fn stage2_extract_profile(text: &str) -> (r: String)
    ensures
        r@ == profile_prompt(text@),
{
    let mut out: String = PROFILE_TASK.to_owned();
    out.append(text);
    out
}

/// The question what happened between the user and the character.
pub open spec fn relation_prompt(text: Seq<char>) -> Seq<char> {
    RELATION_TASK@ + text
}

/// The question what happened between the user and the character.
pub fn stage2_extract_relationships(text: &str) -> (r: String)
    ensures
        r@ == relation_prompt(text@),
{
    let mut out: String = RELATION_TASK.to_owned();
    out.append(text);
    out
}

/// The question what the user does and says of the answers.
pub open spec fn habit_prompt(text: Seq<char>) -> Seq<char> {
    HABIT_TASK@ + text
}

/// The question what the user does and says of the answers.
pub fn stage2_extract_behaviors(text: &str) -> (r: String)
    ensures
        r@ == habit_prompt(text@),
{
    let mut out: String = HABIT_TASK.to_owned();
    out.append(text);
    out
}

/// The question for moods and signals.
pub open spec fn signal_prompt(text: Seq<char>) -> Seq<char> {
    SIGNAL_TASK@ + text
}

/// The question for moods and signals.
pub fn stage2_extract_relationship_signal(text: &str) -> (r: String)
    ensures
        r@ == signal_prompt(text@),
{
    let mut out: String = SIGNAL_TASK.to_owned();
    out.append(text);
    out
}

/// The question what the user is up to.
pub open spec fn recent_prompt(text: Seq<char>) -> Seq<char> {
    RECENT_TASK@ + text
}

/// The question what the user is up to.
pub fn stage2_extract_recent_state(text: &str) -> (r: String)
    ensures
        r@ == recent_prompt(text@),
{
    let mut out: String = RECENT_TASK.to_owned();
    out.append(text);
    out
}

/// The question what several memories tell together.
pub open spec fn insight_prompt(text: Seq<char>) -> Seq<char> {
    INSIGHT_TASK@ + text
}

/// The question what several memories tell together.
pub fn stage3_prompt(text: &str) -> (r: String)
    ensures
        r@ == insight_prompt(text@),
{
    let mut out: String = INSIGHT_TASK.to_owned();
    out.append(text);
    out
}

/// The part of the character that never changes, where it is given.
pub open spec fn core_section(core: Seq<char>) -> Seq<char> {
    if core.len() == 0 {
        Seq::empty()
    } else {
        "\n"@ + core + CORE_TAIL@
    }
}

/// The question how the character itself behaves.
pub open spec fn persona_prompt(core: Seq<char>, text: Seq<char>) -> Seq<char> {
    PERSONA_TASK@ + core_section(core) + PERSONA_FORM@ + text
}

/// The question how the character itself behaves.
pub fn stage2_extract_dynamic_persona(core: &str, text: &str) -> (r: String)
    ensures
        r@ == persona_prompt(core@, text@),
{
    let mut section: String = String::new();
    if count_chars(core) > 0 {
        section.append("\n");
        section.append(core);
        section.append(CORE_TAIL);
    }
    assert(section@ =~= core_section(core@));
    let mut out: String = PERSONA_TASK.to_owned();
    out.append(section.as_str());
    out.append(PERSONA_FORM);
    out.append(text);
    out
}

/// Something that the user is known to care about.
pub struct KnownConcept {
    pub key: String,
    pub value: String,
    pub meaning: String,
    pub related_topics: Vec<String>,
}

/// A known concept in a question.
pub open spec fn concept_line(c: KnownConcept) -> Seq<char> {
    "- "@ + c.key@ + "（"@ + (if c.meaning@.len() == 0 {
        c.value@
    } else {
        c.meaning@
    }) + "）相关主题："@ + (if c.related_topics@.len() == 0 {
        "无"@
    } else {
        join(texts(c.related_topics@), " / "@)
    })
}

/// The known concepts line by line.
pub open spec fn concept_lines(s: Seq<KnownConcept>) -> Seq<char> {
    if s.len() == 0 {
        "（暂无）"@
    } else {
        join(s.map_values(|c: KnownConcept| concept_line(c)), "\n"@)
    }
}

fn write_concept_line(c: &KnownConcept) -> (r: String)
    ensures
        r@ == concept_line(*c),
{
    let mut out: String = "- ".to_owned();
    out.append(c.key.as_str());
    out.append("（");
    if count_chars(c.meaning.as_str()) == 0 {
        out.append(c.value.as_str());
    } else {
        out.append(c.meaning.as_str());
    }
    out.append("）相关主题：");
    if c.related_topics.len() == 0 {
        out.append("无");
    } else {
        out.append(join_strings(&c.related_topics, " / ").as_str());
    }
    out
}

fn write_concept_lines(known: &Vec<KnownConcept>) -> (r: String)
    ensures
        r@ == concept_lines(known@),
{
    if known.len() == 0 {
        return "（暂无）".to_owned();
    }
    let mut lines: Vec<String> = Vec::new();
    let mut i: usize = 0;
    while i < known.len()
        invariant
            i <= known@.len(),
            lines@.len() == i,
            forall|k: int| 0 <= k < i ==> (#[trigger] lines@[k])@ == concept_line(known@[k]),
        decreases known@.len() - i,
    {
        lines.push(write_concept_line(&known[i]));
        i += 1;
    }
    let out = join_strings(&lines, "\n");
    proof {
        let all = known@.map_values(|c: KnownConcept| concept_line(c));
        assert(texts(lines@) =~= all);
        assert(concept_lines(known@) == join(all, "\n"@));
    }
    out
}

/// An insight in a question.
pub open spec fn insight_line(source_ids: Seq<Seq<char>>, insight: Seq<char>) -> Seq<char> {
    "- ["@ + join(source_ids, ","@) + "] "@ + insight
}

/// An insight in a question.
pub fn write_insight_line(source_ids: &Vec<String>, insight: &str) -> (r: String)
    ensures
        r@ == insight_line(texts(source_ids@), insight@),
{
    let mut out: String = "- [".to_owned();
    out.append(join_strings(source_ids, ",").as_str());
    out.append("] ");
    out.append(insight);
    out
}

/// The question what the user cares about.
pub open spec fn concept_prompt(known: Seq<KnownConcept>, insight_lines: Seq<Seq<char>>) -> Seq<char> {
    CONCEPT_TASK@ + concept_lines(known) + CONCEPT_NEW@ + join(insight_lines, "\n"@) + CONCEPT_FORM@
}

/// The question what the user cares about.
pub fn stage3_concept_prompt(known: &Vec<KnownConcept>, insight_lines: &Vec<String>) -> (r: String)
    ensures
        r@ == concept_prompt(known@, texts(insight_lines@)),
{
    let mut out: String = CONCEPT_TASK.to_owned();
    out.append(write_concept_lines(known).as_str());
    out.append(CONCEPT_NEW);
    out.append(join_strings(insight_lines, "\n").as_str());
    out.append(CONCEPT_FORM);
    out
}

} // verus!
