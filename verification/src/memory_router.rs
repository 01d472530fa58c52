//! Which layer a memory is written to: rules first, and for the candidates of a
//! shared layer the verdict of a model.

use crate::json::{json_item, read_item, read_single, single_field, FieldView, JsonField};
use crate::text::{begins, chars_of, contains_any, decimal, ends, ends_with_chars, has_any, opt_text,
    push_decimal, same, starts_with_chars, string_of, strs, trim, trim_chars, trimmed};
use vstd::array::*;
use vstd::prelude::*;
use vstd::slice::*;
use vstd::string::*;

verus! {

/// A layer of storage.
#[derive(Debug, Clone, Copy, PartialEq, Eq, Structural)]
pub enum MemoryDestination {
    /// The character's own memory.
    Personal,
    /// What one character knows of another.
    RelationshipFact,
    /// What all characters know of the world.
    SharedWorld,
    /// Not kept.
    Ephemeral,
}

/// What the rules look at.
pub struct RouteContext<'a> {
    pub content: &'a str,
    /// In millionths.
    pub importance: i64,
    pub channel: &'a str,
    pub speaker: &'a str,
    pub listener: &'a str,
    pub perspective: &'a str,
    pub char_id: &'a str,
}

/// Words that speak of something lasting.
pub open spec fn persistence_words() -> Seq<Seq<char>> {
    seq![
        "喜欢"@, "讨厌"@, "总是"@, "从来"@, "习惯"@, "规则"@, "约定"@, "住"@, "工作"@, "职业"@,
    ]
}

/// Whether the content holds a word that speaks of something lasting.
pub fn contains_persistence_keyword(content: &str) -> (r: bool)
    ensures
        r == has_any(content@, persistence_words()),
{
    let words = ["喜欢", "讨厌", "总是", "从来", "习惯", "规则", "约定", "住", "工作", "职业"];
    let s = array_as_slice(&words);
    assert(strs(s@) =~= persistence_words());
    contains_any(content, s)
}

/// The rules, in the order of their precedence.
pub open spec fn routed(content: Seq<char>, importance: i64, channel: Seq<char>) -> MemoryDestination {
    if importance < 200_000 && channel != "cross_character"@ {
        MemoryDestination::Ephemeral
    } else if channel == "cross_character"@ && importance >= 500_000 {
        MemoryDestination::RelationshipFact
    } else if has_any(content, persistence_words()) {
        MemoryDestination::SharedWorld
    } else {
        MemoryDestination::Personal
    }
}

/// Where the rules send a memory.
pub fn route_sync(ctx: &RouteContext) -> (r: MemoryDestination)
    ensures
        r == routed(ctx.content@, ctx.importance, ctx.channel@),
{
    let cross = same(ctx.channel, "cross_character");
    if ctx.importance < 200_000 && !cross {
        MemoryDestination::Ephemeral
    } else if cross && ctx.importance >= 500_000 {
        MemoryDestination::RelationshipFact
    } else if contains_persistence_keyword(ctx.content) {
        MemoryDestination::SharedWorld
    } else {
        MemoryDestination::Personal
    }
}

/// Whether a model is to confirm the destination.
pub open spec fn is_candidate(d: MemoryDestination) -> bool {
    d == MemoryDestination::RelationshipFact || d == MemoryDestination::SharedWorld
}

/// Whether a model is to confirm the destination.
pub fn needs_arbitration(d: MemoryDestination) -> (r: bool)
    ensures
        r == is_candidate(d),
{
    d == MemoryDestination::RelationshipFact || d == MemoryDestination::SharedWorld
}

/// The verdict of a model.
#[derive(Debug)]
pub struct RouterVerdict {
    pub destination: String,
    pub reason: Option<String>,
}

/// The destination that a verdict names.
pub open spec fn named_destination(s: Seq<char>) -> Option<MemoryDestination> {
    let t = trim(s);
    if t == "personal"@ {
        Some(MemoryDestination::Personal)
    } else if t == "relationship_fact"@ {
        Some(MemoryDestination::RelationshipFact)
    } else if t == "shared_world"@ {
        Some(MemoryDestination::SharedWorld)
    } else if t == "ephemeral"@ {
        Some(MemoryDestination::Ephemeral)
    } else {
        None
    }
}

/// The destination that a verdict names.
pub fn map_verdict(s: &str) -> (r: Option<MemoryDestination>)
    ensures
        r == named_destination(s@),
{
    let t = trimmed(s);
    if same(t.as_str(), "personal") {
        Some(MemoryDestination::Personal)
    } else if same(t.as_str(), "relationship_fact") {
        Some(MemoryDestination::RelationshipFact)
    } else if same(t.as_str(), "shared_world") {
        Some(MemoryDestination::SharedWorld)
    } else if same(t.as_str(), "ephemeral") {
        Some(MemoryDestination::Ephemeral)
    } else {
        None
    }
}

/// `s` without the fences at its end.
pub open spec fn without_fences(s: Seq<char>) -> Seq<char>
    decreases s.len(),
{
    if "```"@.len() > 0 && ends(s, "```"@) {
        without_fences(s.take(s.len() - "```"@.len()))
    } else {
        s
    }
}

/// The text inside a code fence, or the text itself, trimmed.
pub open spec fn unfenced(s: Seq<char>) -> Seq<char> {
    let t = trim(s);
    if begins(t, "```json"@) {
        trim(without_fences(trim(t.skip("```json"@.len() as int))))
    } else if begins(t, "```"@) {
        trim(without_fences(trim(t.skip("```"@.len() as int))))
    } else {
        t
    }
}

fn drop_fences(cs: &[char]) -> (r: &[char])
    ensures
        r@ == without_fences(cs@),
    decreases cs@.len(),
{
    proof {
        reveal_strlit("```");
    }
    let fence = chars_of("```");
    if ends_with_chars(cs, fence.as_slice()) {
        let rest = slice_subrange(cs, 0, cs.len() - 3);
        assert(rest@ =~= cs@.take(cs@.len() - 3));
        drop_fences(rest)
    } else {
        cs
    }
}

/// The text inside a code fence, or the text itself, trimmed.
pub fn strip_code_fence(s: &str) -> (r: String)
    ensures
        r@ == unfenced(s@),
{
    let cs = chars_of(s);
    let t = trim_chars(cs.as_slice());
    let json = chars_of("```json");
    let fence = chars_of("```");
    let skip: usize = if starts_with_chars(t, json.as_slice()) {
        json.len()
    } else if starts_with_chars(t, fence.as_slice()) {
        fence.len()
    } else {
        return string_of(t);
    };
    let rest = slice_subrange(t, skip, t.len());
    assert(rest@ =~= t@.skip(skip as int));
    string_of(trim_chars(drop_fences(trim_chars(rest))))
}

/// The verdict that two fields make: the destination must be a text, the reason
/// may be missing.
pub open spec fn verdict_of(destination: FieldView, reason: FieldView) -> Option<
    (Seq<char>, Option<Seq<char>>),
> {
    match destination {
        FieldView::Text(d) => match reason {
            FieldView::Text(r) => Some((d, Some(r))),
            FieldView::Missing => Some((d, None)),
            FieldView::Null => Some((d, None)),
            _ => None,
        },
        _ => None,
    }
}

/// What an optional verdict says.
pub open spec fn verdict_view(v: Option<RouterVerdict>) -> Option<(Seq<char>, Option<Seq<char>>)> {
    match v {
        Some(x) => Some((x.destination@, opt_text(x.reason))),
        None => None,
    }
}

/// The verdict that two fields make.
pub fn verdict_from_fields(destination: JsonField, reason: JsonField) -> (r: Option<RouterVerdict>)
    ensures
        verdict_view(r) == verdict_of(destination@, reason@),
{
    match destination {
        JsonField::Text(d) => match reason {
            JsonField::Text(t) => Some(RouterVerdict { destination: d, reason: Some(t) }),
            JsonField::Missing => Some(RouterVerdict { destination: d, reason: None }),
            JsonField::Null => Some(RouterVerdict { destination: d, reason: None }),
            _ => None,
        },
        _ => None,
    }
}

/// The verdict that a list makes of which those are the first three values: it holds the
/// destination and then the reason, which may be missing, and nothing else.
pub open spec fn listed_verdict(first: FieldView, second: FieldView, third: FieldView) -> Option<
    (Seq<char>, Option<Seq<char>>),
> {
    if third is Missing {
        verdict_of(first, second)
    } else {
        None
    }
}

/// The verdict that a list makes of which those are the first three values.
pub fn verdict_from_items(first: JsonField, second: JsonField, third: JsonField) -> (r: Option<RouterVerdict>)
    ensures
        verdict_view(r) == listed_verdict(first@, second@, third@),
{
    match third {
        JsonField::Missing => verdict_from_fields(first, second),
        _ => None,
    }
}

/// The verdict in a JSON text, an object or a list.
pub open spec fn written_verdict(text: Seq<char>) -> Option<(Seq<char>, Option<Seq<char>>)> {
    match verdict_of(single_field(text, "destination"@), single_field(text, "reason"@)) {
        Some(v) => Some(v),
        None => listed_verdict(json_item(text, 0), json_item(text, 1), json_item(text, 2)),
    }
}

/// The verdict in the reply of a model, with or without a code fence. An object that holds
/// a field of the verdict twice is none.
pub fn parse_verdict(raw: &str) -> (r: Option<RouterVerdict>)
    ensures
        verdict_view(r) == written_verdict(unfenced(raw@)),
{
    let cleaned = strip_code_fence(raw);
    let t = cleaned.as_str();
    match verdict_from_fields(read_single(t, "destination"), read_single(t, "reason")) {
        Some(v) => Some(v),
        None => verdict_from_items(read_item(t, 0), read_item(t, 1), read_item(t, 2)),
    }
}

/// The final destination: that of the rules, unless it is a candidate and the
/// model's verdict names another.
pub open spec fn arbitrated(
    by_rules: MemoryDestination,
    verdict: Option<(Seq<char>, Option<Seq<char>>)>,
) -> MemoryDestination {
    if !is_candidate(by_rules) {
        by_rules
    } else {
        match verdict {
            Some(v) => match named_destination(v.0) {
                Some(d) => d,
                None => by_rules,
            },
            None => by_rules,
        }
    }
}

/// The final destination, given the model's verdict.
pub fn arbitrate(by_rules: MemoryDestination, verdict: Option<RouterVerdict>) -> (r:
    MemoryDestination)
    ensures
        r == arbitrated(by_rules, verdict_view(verdict)),
{
    if !needs_arbitration(by_rules) {
        return by_rules;
    }
    match verdict {
        Some(v) => match map_verdict(v.destination.as_str()) {
            Some(d) => d,
            None => by_rules,
        },
        None => by_rules,
    }
}

/// The final destination, given the reply of the model; `None` where it gave none.
pub fn route_with_reply(ctx: &RouteContext, reply: Option<String>) -> (r: MemoryDestination)
    ensures
        r == arbitrated(
            routed(ctx.content@, ctx.importance, ctx.channel@),
            match reply {
                Some(t) => written_verdict(unfenced(t@)),
                None => None,
            },
        ),
{
    let by_rules = route_sync(ctx);
    match reply {
        Some(t) => arbitrate(by_rules, parse_verdict(t.as_str())),
        None => arbitrate(by_rules, None),
    }
}

/// Without a usable verdict the rules decide.
pub proof fn rules_decide_without_verdict(by_rules: MemoryDestination)
    ensures
        arbitrated(by_rules, None) == by_rules,
{
}

/// A memory that is no candidate never depends on the model.
pub proof fn private_memories_skip_the_model(
    by_rules: MemoryDestination,
    verdict: Option<(Seq<char>, Option<Seq<char>>)>,
)
    requires
        by_rules == MemoryDestination::Personal || by_rules == MemoryDestination::Ephemeral,
    ensures
        arbitrated(by_rules, verdict) == by_rules,
{
}

// ---------------------------------------------------------------------------
// The question to the model
// ---------------------------------------------------------------------------

/// The digits of a fraction in millionths, without zeros at the end.
pub open spec fn fraction(n: nat, width: nat) -> Seq<char>
    decreases width,
{
    if width == 0 {
        Seq::<char>::empty()
    } else if n % 10 == 0 {
        fraction(n / 10, (width - 1) as nat)
    } else {
        padded(n, width)
    }
}

/// `n` in decimal, with `width` digits.
pub open spec fn padded(n: nat, width: nat) -> Seq<char>
    decreases width,
{
    if width == 0 {
        Seq::<char>::empty()
    } else {
        padded(n / 10, (width - 1) as nat) + decimal((n % 10) as nat)
    }
}

/// A number in millionths, as a decimal number.
pub open spec fn micros_text(n: int) -> Seq<char> {
    let a = if n < 0 {
        -n
    } else {
        n
    };
    (if n < 0 {
        "-"@
    } else {
        Seq::<char>::empty()
    }) + decimal((a / 1_000_000) as nat) + (if a % 1_000_000 == 0 {
        Seq::<char>::empty()
    } else {
        "."@ + fraction((a % 1_000_000) as nat, 6)
    })
}

fn push_padded(out: &mut String, n: u64, width: u64)
    ensures
        final(out)@ == old(out)@ + padded(n as nat, width as nat),
    decreases width,
{
    let ghost start = out@;
    if width > 0 {
        push_padded(out, n / 10, width - 1);
        push_decimal(out, n % 10);
    }
    assert(out@ =~= start + padded(n as nat, width as nat));
}

fn push_fraction(out: &mut String, n: u64, width: u64)
    ensures
        final(out)@ == old(out)@ + fraction(n as nat, width as nat),
    decreases width,
{
    let ghost start = out@;
    if width > 0 {
        if n % 10 == 0 {
            push_fraction(out, n / 10, width - 1);
        } else {
            push_padded(out, n, width);
        }
    }
    assert(out@ =~= start + fraction(n as nat, width as nat));
}

/// A number in millionths, as a decimal number.
pub fn micros_to_string(n: i64) -> (out: String)
    ensures
        out@ == micros_text(n as int),
{
    let mut out: String = String::new();
    let wide: i128 = n as i128;
    let a: u64 = if wide < 0 {
        (-wide) as u64
    } else {
        wide as u64
    };
    if n < 0 {
        out.append("-");
    }
    push_decimal(&mut out, a / 1_000_000);
    if a % 1_000_000 != 0 {
        out.append(".");
        push_fraction(&mut out, a % 1_000_000, 6);
    }
    assert(out@ =~= micros_text(n as int));
    out
}

/// The languages of the question.
#[derive(Debug, Clone, Copy, PartialEq, Eq, Structural)]
pub enum PromptLanguage {
    Chinese,
    English,
    Japanese,
}

/// The language for a normalised language code.
pub fn prompt_language(code: &str) -> (r: PromptLanguage)
    ensures
        r == (if code@ == "en"@ {
            PromptLanguage::English
        } else if code@ == "ja"@ {
            PromptLanguage::Japanese
        } else {
            PromptLanguage::Chinese
        }),
{
    if same(code, "en") {
        PromptLanguage::English
    } else if same(code, "ja") {
        PromptLanguage::Japanese
    } else {
        PromptLanguage::Chinese
    }
}

/// The fixed texts of the question, around content, channel, speaker, listener,
/// importance, perspective, character, remark on the perspective, and once more
/// the character.
pub open spec fn prompt_parts(lang: PromptLanguage) -> Seq<Seq<char>> {
    match lang {
        PromptLanguage::English => seq![
            "You are a memory classifier. Determine which layer the following content should be stored in:\n\nContent: "@,
            "\nChannel: "@,
            "\nSpeaker: "@,
            "\nListener: "@,
            "\nImportance: "@,
            "\nPerspective: "@,
            "\nCurrent Character: "@,
            "\n"@,
            "Classification rules:\n- personal: the character's personal conversational memory (conversations about "@,
            " itself → personal), not involving the other party's personality or shared facts\n- relationship_fact: cognition about another agent's personality/preferences/habits (e.g., \"she likes to tease me\")\n- shared_world: world facts both characters know (e.g., \"the user likes Genshin Impact\", \"don't disturb the user when working\")\n- ephemeral: low-information temporary conversation, not worth long-term storage\n\nReturn JSON: {\"destination\": \"personal|relationship_fact|shared_world|ephemeral\", \"reason\": \"brief reason\"}"@,
        ],
        PromptLanguage::Japanese => seq![
            "あなたはメモリー分類器です。以下の内容をどの層に保存すべきか判断してください：\n\n内容："@,
            "\nチャネル："@,
            "\n話者："@,
            "\n聞き手："@,
            "\n重要度："@,
            "\n視点："@,
            "\n現在のキャラクター："@,
            "\n"@,
            "分類ルール：\n- personal：キャラクター個人の会話メモリー（"@,
            " 自身に関する会話 → personal）、相手の人格や共有事実には関与しない\n- relationship_fact：別のエージェントの人格/好み/習慣に対する認知（例：「彼女は私をツッコミたがる」）\n- shared_world：二人のキャラクターが共に知っている世界の事実（例：「ユーザーは原神が好き」「ユーザーが仕事中は邪魔しない」）\n- ephemeral：情報量の少ない一時的な会話、長期保存に値しない\n\nJSON を返してください：{\"destination\": \"personal|relationship_fact|shared_world|ephemeral\", \"reason\": \"簡潔な理由\"}"@,
        ],
        PromptLanguage::Chinese => seq![
            "你是一个记忆分类器。请判断以下内容应该存储在哪一层：\n\n内容："@,
            "\n渠道："@,
            "\n说话者："@,
            "\n听话者："@,
            "\n重要性："@,
            "\n视角："@,
            "\n当前角色："@,
            "\n"@,
            "分类规则：\n- personal：角色个人的对话记忆（关于 "@,
            " 自己的对话 → personal），不涉及对方人格或共享事实\n- relationship_fact：对另一个智能体的人格/偏好/习惯的认知（如\"她喜欢吐槽我\"）\n- shared_world：两个角色共同知晓的世界事实（如\"用户喜欢原神\"\"用户工作时不要打扰\"）\n- ephemeral：低信息量的临时对话，不值得长期存储\n\n请返回 JSON：{\"destination\": \"personal|relationship_fact|shared_world|ephemeral\", \"reason\": \"简要原因\"}"@,
        ],
    }
}

/// The remark on the perspective.
pub open spec fn observer_remark(lang: PromptLanguage, perspective: Seq<char>) -> Seq<char> {
    if perspective == "observer"@ {
        match lang {
            PromptLanguage::English => "Note: This is a memory from an observer perspective.\n"@,
            PromptLanguage::Japanese => "注意：これは傍観視点の記憶です。\n"@,
            PromptLanguage::Chinese => "注意：这是旁观视角的记忆。\n"@,
        }
    } else {
        Seq::<char>::empty()
    }
}

/// The question to the model.
pub open spec fn router_prompt(ctx: RouteContext, lang: PromptLanguage) -> Seq<char> {
    let p = prompt_parts(lang);
    p[0] + ctx.content@ + p[1] + ctx.channel@ + p[2] + ctx.speaker@ + p[3] + ctx.listener@ + p[4]
        + micros_text(ctx.importance as int) + p[5] + ctx.perspective@ + p[6] + ctx.char_id@ + p[7]
        + observer_remark(lang, ctx.perspective@) + p[8] + ctx.char_id@ + p[9]
}

fn prompt_texts(lang: PromptLanguage) -> (r: [&'static str; 10])
    ensures
        strs(r@) == prompt_parts(lang),
{
    match lang {
        PromptLanguage::English => {
            let r = [
                "You are a memory classifier. Determine which layer the following content should be stored in:\n\nContent: ",
                "\nChannel: ",
                "\nSpeaker: ",
                "\nListener: ",
                "\nImportance: ",
                "\nPerspective: ",
                "\nCurrent Character: ",
                "\n",
                "Classification rules:\n- personal: the character's personal conversational memory (conversations about ",
                " itself → personal), not involving the other party's personality or shared facts\n- relationship_fact: cognition about another agent's personality/preferences/habits (e.g., \"she likes to tease me\")\n- shared_world: world facts both characters know (e.g., \"the user likes Genshin Impact\", \"don't disturb the user when working\")\n- ephemeral: low-information temporary conversation, not worth long-term storage\n\nReturn JSON: {\"destination\": \"personal|relationship_fact|shared_world|ephemeral\", \"reason\": \"brief reason\"}",
            ];
            assert(strs(r@) =~= prompt_parts(lang));
            r
        },
        PromptLanguage::Japanese => {
            let r = [
                "あなたはメモリー分類器です。以下の内容をどの層に保存すべきか判断してください：\n\n内容：",
                "\nチャネル：",
                "\n話者：",
                "\n聞き手：",
                "\n重要度：",
                "\n視点：",
                "\n現在のキャラクター：",
                "\n",
                "分類ルール：\n- personal：キャラクター個人の会話メモリー（",
                " 自身に関する会話 → personal）、相手の人格や共有事実には関与しない\n- relationship_fact：別のエージェントの人格/好み/習慣に対する認知（例：「彼女は私をツッコミたがる」）\n- shared_world：二人のキャラクターが共に知っている世界の事実（例：「ユーザーは原神が好き」「ユーザーが仕事中は邪魔しない」）\n- ephemeral：情報量の少ない一時的な会話、長期保存に値しない\n\nJSON を返してください：{\"destination\": \"personal|relationship_fact|shared_world|ephemeral\", \"reason\": \"簡潔な理由\"}",
            ];
            assert(strs(r@) =~= prompt_parts(lang));
            r
        },
        PromptLanguage::Chinese => {
            let r = [
                "你是一个记忆分类器。请判断以下内容应该存储在哪一层：\n\n内容：",
                "\n渠道：",
                "\n说话者：",
                "\n听话者：",
                "\n重要性：",
                "\n视角：",
                "\n当前角色：",
                "\n",
                "分类规则：\n- personal：角色个人的对话记忆（关于 ",
                " 自己的对话 → personal），不涉及对方人格或共享事实\n- relationship_fact：对另一个智能体的人格/偏好/习惯的认知（如\"她喜欢吐槽我\"）\n- shared_world：两个角色共同知晓的世界事实（如\"用户喜欢原神\"\"用户工作时不要打扰\"）\n- ephemeral：低信息量的临时对话，不值得长期存储\n\n请返回 JSON：{\"destination\": \"personal|relationship_fact|shared_world|ephemeral\", \"reason\": \"简要原因\"}",
            ];
            assert(strs(r@) =~= prompt_parts(lang));
            r
        },
    }
}

fn observer_text(lang: PromptLanguage, perspective: &str) -> (r: &'static str)
    ensures
        r@ == observer_remark(lang, perspective@),
{
    if same(perspective, "observer") {
        match lang {
            PromptLanguage::English => "Note: This is a memory from an observer perspective.\n",
            PromptLanguage::Japanese => "注意：これは傍観視点の記憶です。\n",
            PromptLanguage::Chinese => "注意：这是旁观视角的记忆。\n",
        }
    } else {
        proof {
            reveal_strlit("");
            assert(""@ =~= Seq::<char>::empty());
        }
        ""
    }
}

/// The question to the model.
pub fn build_router_prompt(ctx: &RouteContext, lang: PromptLanguage) -> (out: String)
    ensures
        out@ == router_prompt(*ctx, lang),
{
    let p = prompt_texts(lang);
    let importance = micros_to_string(ctx.importance);
    let remark = observer_text(lang, ctx.perspective);
    let ghost parts = strs(p@);
    assert(forall|i: int| 0 <= i < 10 ==> #[trigger] parts[i] == p@[i]@);
    let mut out: String = p[0].to_owned();
    out.append(ctx.content);
    out.append(p[1]);
    out.append(ctx.channel);
    out.append(p[2]);
    out.append(ctx.speaker);
    out.append(p[3]);
    out.append(ctx.listener);
    out.append(p[4]);
    out.append(importance.as_str());
    out.append(p[5]);
    out.append(ctx.perspective);
    out.append(p[6]);
    out.append(ctx.char_id);
    out.append(p[7]);
    out.append(remark);
    out.append(p[8]);
    out.append(ctx.char_id);
    out.append(p[9]);
    out
}

} // verus!
