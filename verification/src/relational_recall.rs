//! Questions about relations ("who works at X") and the memories that the
//! knowledge graph has for them.

use crate::pattern::{capture_groups, group, group_texts, regex_groups};
use crate::rank::{order_desc, order_of, order_sorts, positions, ranked};
use crate::select::{kept, take_flagged};
use crate::strategy::{last_with_id, position_by_id};
use crate::text::{contains_any, has_any, one_of, opt_text, same, strs, texts, trim, trimmed, is_blank, count_chars};
use crate::types::{item_views, ItemView, MemoryItem, MetaValue, MetaView};
use vstd::array::*;
use vstd::prelude::*;
use vstd::string::*;

verus! {

/// Relations between entities.
#[derive(Debug, Clone, Copy, PartialEq, Eq, Structural)]
pub enum RelationType {
    InvestedIn,
    Founded,
    Advises,
    WorksAt,
    Mentions,
    Knows,
    Likes,
    Dislikes,
    Trusts,
    Misses,
    CaresFor,
    FamilyOf,
    FriendOf,
}

impl RelationType {
    /// The name under which the relation is stored.
    pub open spec fn name(self) -> Seq<char> {
        match self {
            RelationType::InvestedIn => "invested_in"@,
            RelationType::Founded => "founded"@,
            RelationType::Advises => "advises"@,
            RelationType::WorksAt => "works_at"@,
            RelationType::Mentions => "mentions"@,
            RelationType::Knows => "knows"@,
            RelationType::Likes => "likes"@,
            RelationType::Dislikes => "dislikes"@,
            RelationType::Trusts => "trusts"@,
            RelationType::Misses => "misses"@,
            RelationType::CaresFor => "cares_for"@,
            RelationType::FamilyOf => "family_of"@,
            RelationType::FriendOf => "friend_of"@,
        }
    }

    pub fn as_str(&self) -> (r: &'static str)
        ensures
            r@ == self.name(),
    {
        match self {
            RelationType::InvestedIn => "invested_in",
            RelationType::Founded => "founded",
            RelationType::Advises => "advises",
            RelationType::WorksAt => "works_at",
            RelationType::Mentions => "mentions",
            RelationType::Knows => "knows",
            RelationType::Likes => "likes",
            RelationType::Dislikes => "dislikes",
            RelationType::Trusts => "trusts",
            RelationType::Misses => "misses",
            RelationType::CaresFor => "cares_for",
            RelationType::FamilyOf => "family_of",
            RelationType::FriendOf => "friend_of",
        }
    }
}

/// Kinds of questions about relations.
#[derive(Debug, Clone, Copy, PartialEq, Eq, Structural)]
pub enum RelationalKind {
    /// Who invested in X, who founded X.
    WhoRel,
    /// Who works at X.
    WhoAt,
    /// How X and Y are related.
    Connects,
    /// Who introduced me to X.
    Intro,
    /// Who likes X, who dislikes X.
    WhoFeels,
    /// Who the friends of X are.
    WhoSocial,
}

/// Direction in which the graph is walked.
#[derive(Debug, Clone, Copy, PartialEq, Eq, Structural)]
pub enum RelationDirection {
    In,
    Out,
    Both,
}

/// A question about relations.
#[derive(Debug)]
pub struct ParsedRelationalQuery {
    pub kind: RelationalKind,
    /// The entities that the question names.
    pub seeds: Vec<String>,
    /// The relations that count; all where there are none.
    pub relation_types: Vec<RelationType>,
    pub direction: RelationDirection,
}

/// What a question is.
pub struct QueryView {
    pub kind: RelationalKind,
    pub seeds: Seq<Seq<char>>,
    pub relation_types: Seq<RelationType>,
    pub direction: RelationDirection,
}

impl View for ParsedRelationalQuery {
    type V = QueryView;

    open spec fn view(&self) -> QueryView {
        QueryView {
            kind: self.kind,
            seeds: texts(self.seeds@),
            relation_types: self.relation_types@,
            direction: self.direction,
        }
    }
}

// ---------------------------------------------------------------------------
// Reading a question
// ---------------------------------------------------------------------------

/// Who invested in, founded or advises something.
pub const WHO_REL_PATTERN: &'static str = r"(?:谁|什么人|哪家公司|哪个机构).*?(?:投资了?|注资|领投|参投|创建了?|创办了?|成立了?|创立了?|担任.*顾问|给.*当顾问)\s*(.{1,40}?)\s*[？?！!。]*$";

/// Who works somewhere.
pub const WHO_AT_PATTERN: &'static str = r"(?:谁|什么人|哪些人).*?(?:在|就职于|任职于)\s*(.{1,40}?)\s*(?:工作|任职|就职|效力|做事)";

/// How two entities are related.
pub const CONNECTS_PATTERN: &'static str = r"(.{1,40}?)\s*(?:和|与|跟)\s*(.{1,40}?)\s*(?:的关系|的关系是|有什么关系|怎么认识的|如何认识)";

/// Who introduced somebody.
pub const INTRO_PATTERN: &'static str = r"(?:谁|什么人).*?(?:介绍|引荐|带我认识|引见)(?:.*认识)?\s*(.{1,40}?)\s*[？?！!。]*$";

/// Who feels something for somebody.
pub const WHO_FEELS_PATTERN: &'static str = r"(?:谁|什么人|哪些人).*?(?:喜欢|喜爱|讨厌|不喜欢|反感|信任|想念|思念|关心|在意)\s*(.{1,40}?)\s*[？?！!。]*$";

/// Who the friends or the family of somebody are.
pub const WHO_SOCIAL_PATTERN: &'static str = r"(.{1,40}?)\s*(?:的)?(?:朋友|好友|闺蜜|哥们|家人|哥哥|弟弟|姐姐|妹妹|爸爸|妈妈|父亲|母亲|儿子|女儿|丈夫|妻子|老公|老婆)(?:是谁|有哪些|都有谁)";

/// Words that name no entity.
pub open spec fn stopword_seeds() -> Seq<Seq<char>> {
    seq![
        "他"@, "她"@, "它"@, "他们"@, "她们"@, "它们"@,
        "这"@, "那"@, "这个"@, "那个"@, "这些"@, "那些"@,
        "什么"@, "怎么"@, "为什么"@, "哪里"@, "怎样"@,
        "我"@, "你"@, "我们"@, "你们"@,
        "人"@, "公司"@, "事情"@, "东西"@, "地方"@,
    ]
}

/// A name of an entity: two characters at least, and no stop word.
pub open spec fn valid_seed(seed: Seq<char>) -> bool {
    seed.len() >= 2 && !stopword_seeds().contains(seed)
}

/// Whether the text can name an entity.
pub fn is_valid_seed(seed: &str) -> (r: bool)
    ensures
        r == valid_seed(seed@),
{
    let stop = [
        "他", "她", "它", "他们", "她们", "它们",
        "这", "那", "这个", "那个", "这些", "那些",
        "什么", "怎么", "为什么", "哪里", "怎样",
        "我", "你", "我们", "你们",
        "人", "公司", "事情", "东西", "地方",
    ];
    let s = array_as_slice(&stop);
    assert(strs(s@) =~= stopword_seeds());
    count_chars(seed) >= 2 && !one_of(seed, s)
}

/// One relation where the test holds.
pub open spec fn one_if(b: bool, t: RelationType) -> Seq<RelationType> {
    if b {
        seq![t]
    } else {
        Seq::<RelationType>::empty()
    }
}

/// The relations, or the one that is meant where none is named.
pub open spec fn or_default(s: Seq<RelationType>, t: RelationType) -> Seq<RelationType> {
    if s.len() == 0 {
        seq![t]
    } else {
        s
    }
}

/// The relations that a question about companies names.
pub open spec fn company_relations(q: Seq<char>) -> Seq<RelationType> {
    or_default(
        one_if(has_any(q, seq!["投资"@, "注资"@, "领投"@]), RelationType::InvestedIn) + one_if(
            has_any(q, seq!["创建"@, "创办"@, "成立"@]),
            RelationType::Founded,
        ) + one_if(has_any(q, seq!["顾问"@]), RelationType::Advises) + one_if(
            has_any(q, seq!["工作"@, "就职"@]),
            RelationType::WorksAt,
        ),
        RelationType::Mentions,
    )
}

/// The relations that a question about feelings names.
pub open spec fn feeling_relations(q: Seq<char>) -> Seq<RelationType> {
    or_default(
        one_if(has_any(q, seq!["喜欢"@, "喜爱"@]), RelationType::Likes) + one_if(
            has_any(q, seq!["讨厌"@, "不喜欢"@, "反感"@]),
            RelationType::Dislikes,
        ) + one_if(has_any(q, seq!["信任"@]), RelationType::Trusts) + one_if(
            has_any(q, seq!["想念"@, "思念"@]),
            RelationType::Misses,
        ) + one_if(has_any(q, seq!["关心"@, "在意"@]), RelationType::CaresFor),
        RelationType::Likes,
    )
}

/// The relations that a question about people names.
pub open spec fn social_relations(q: Seq<char>) -> Seq<RelationType> {
    or_default(
        one_if(
            has_any(
                q,
                seq![
                    "家人"@, "哥哥"@, "弟弟"@, "姐姐"@, "妹妹"@, "爸爸"@, "妈妈"@, "父亲"@,
                    "母亲"@, "儿子"@, "女儿"@, "丈夫"@, "妻子"@, "老公"@, "老婆"@,
                ],
            ),
            RelationType::FamilyOf,
        ) + one_if(
            has_any(q, seq!["朋友"@, "好友"@, "闺蜜"@, "哥们"@]),
            RelationType::FriendOf,
        ),
        RelationType::FriendOf,
    )
}

/// Adds the relation where one of the words stands in the query.
fn push_if(out: &mut Vec<RelationType>, query: &str, words: &[&str], t: RelationType)
    ensures
        final(out)@ == old(out)@ + one_if(has_any(query@, strs(words@)), t),
{
    let ghost start = out@;
    if contains_any(query, words) {
        out.push(t);
        assert(out@ =~= start + seq![t]);
    } else {
        assert(out@ =~= start + Seq::<RelationType>::empty());
    }
}

/// The relations that a question about companies names.
pub fn infer_relation_types_from_query(query: &str) -> (out: Vec<RelationType>)
    ensures
        out@ == company_relations(query@),
{
    let invest = ["投资", "注资", "领投"];
    let found = ["创建", "创办", "成立"];
    let advise = ["顾问"];
    let work = ["工作", "就职"];
    assert(strs(invest@) =~= seq!["投资"@, "注资"@, "领投"@]);
    assert(strs(found@) =~= seq!["创建"@, "创办"@, "成立"@]);
    assert(strs(advise@) =~= seq!["顾问"@]);
    assert(strs(work@) =~= seq!["工作"@, "就职"@]);
    let mut out: Vec<RelationType> = Vec::new();
    push_if(&mut out, query, array_as_slice(&invest), RelationType::InvestedIn);
    assert(out@ =~= one_if(has_any(query@, strs(invest@)), RelationType::InvestedIn));
    push_if(&mut out, query, array_as_slice(&found), RelationType::Founded);
    push_if(&mut out, query, array_as_slice(&advise), RelationType::Advises);
    push_if(&mut out, query, array_as_slice(&work), RelationType::WorksAt);
    if out.len() == 0 {
        out.push(RelationType::Mentions);
        assert(out@ =~= seq![RelationType::Mentions]);
    }
    out
}

/// The relations that a question about feelings names.
pub fn infer_feeling_relation_types_from_query(query: &str) -> (out: Vec<RelationType>)
    ensures
        out@ == feeling_relations(query@),
{
    let like = ["喜欢", "喜爱"];
    let dislike = ["讨厌", "不喜欢", "反感"];
    let trust = ["信任"];
    let miss = ["想念", "思念"];
    let care = ["关心", "在意"];
    assert(strs(like@) =~= seq!["喜欢"@, "喜爱"@]);
    assert(strs(dislike@) =~= seq!["讨厌"@, "不喜欢"@, "反感"@]);
    assert(strs(trust@) =~= seq!["信任"@]);
    assert(strs(miss@) =~= seq!["想念"@, "思念"@]);
    assert(strs(care@) =~= seq!["关心"@, "在意"@]);
    let mut out: Vec<RelationType> = Vec::new();
    push_if(&mut out, query, array_as_slice(&like), RelationType::Likes);
    assert(out@ =~= one_if(has_any(query@, strs(like@)), RelationType::Likes));
    push_if(&mut out, query, array_as_slice(&dislike), RelationType::Dislikes);
    push_if(&mut out, query, array_as_slice(&trust), RelationType::Trusts);
    push_if(&mut out, query, array_as_slice(&miss), RelationType::Misses);
    push_if(&mut out, query, array_as_slice(&care), RelationType::CaresFor);
    if out.len() == 0 {
        out.push(RelationType::Likes);
        assert(out@ =~= seq![RelationType::Likes]);
    }
    out
}

/// The relations that a question about people names.
pub fn infer_social_relation_types_from_query(query: &str) -> (out: Vec<RelationType>)
    ensures
        out@ == social_relations(query@),
{
    let family = [
        "家人", "哥哥", "弟弟", "姐姐", "妹妹", "爸爸", "妈妈", "父亲", "母亲", "儿子", "女儿",
        "丈夫", "妻子", "老公", "老婆",
    ];
    let friends = ["朋友", "好友", "闺蜜", "哥们"];
    assert(strs(family@) =~= seq![
        "家人"@, "哥哥"@, "弟弟"@, "姐姐"@, "妹妹"@, "爸爸"@, "妈妈"@, "父亲"@,
        "母亲"@, "儿子"@, "女儿"@, "丈夫"@, "妻子"@, "老公"@, "老婆"@,
    ]);
    assert(strs(friends@) =~= seq!["朋友"@, "好友"@, "闺蜜"@, "哥们"@]);
    let mut out: Vec<RelationType> = Vec::new();
    push_if(&mut out, query, array_as_slice(&family), RelationType::FamilyOf);
    assert(out@ =~= one_if(has_any(query@, strs(family@)), RelationType::FamilyOf));
    push_if(&mut out, query, array_as_slice(&friends), RelationType::FriendOf);
    if out.len() == 0 {
        out.push(RelationType::FriendOf);
        assert(out@ =~= seq![RelationType::FriendOf]);
    }
    out
}

/// What the patterns find in a question.
pub struct QueryGroups {
    pub connects: Option<Vec<Option<String>>>,
    pub who_social: Option<Vec<Option<String>>>,
    pub who_feels: Option<Vec<Option<String>>>,
    pub intro: Option<Vec<Option<String>>>,
    pub who_at: Option<Vec<Option<String>>>,
    pub who_rel: Option<Vec<Option<String>>>,
}

/// What the patterns find, as texts.
pub struct GroupsView {
    pub connects: Option<Seq<Option<Seq<char>>>>,
    pub who_social: Option<Seq<Option<Seq<char>>>>,
    pub who_feels: Option<Seq<Option<Seq<char>>>>,
    pub intro: Option<Seq<Option<Seq<char>>>>,
    pub who_at: Option<Seq<Option<Seq<char>>>>,
    pub who_rel: Option<Seq<Option<Seq<char>>>>,
}

/// The texts of the groups of a match.
pub open spec fn opt_groups(o: Option<Vec<Option<String>>>) -> Option<Seq<Option<Seq<char>>>> {
    match o {
        Some(v) => Some(group_texts(v@)),
        None => None,
    }
}

impl View for QueryGroups {
    type V = GroupsView;

    open spec fn view(&self) -> GroupsView {
        GroupsView {
            connects: opt_groups(self.connects),
            who_social: opt_groups(self.who_social),
            who_feels: opt_groups(self.who_feels),
            intro: opt_groups(self.intro),
            who_at: opt_groups(self.who_at),
            who_rel: opt_groups(self.who_rel),
        }
    }
}

/// What the patterns find in a trimmed question.
pub open spec fn groups_in(q: Seq<char>) -> GroupsView {
    GroupsView {
        connects: regex_groups(CONNECTS_PATTERN@, q),
        who_social: regex_groups(WHO_SOCIAL_PATTERN@, q),
        who_feels: regex_groups(WHO_FEELS_PATTERN@, q),
        intro: regex_groups(INTRO_PATTERN@, q),
        who_at: regex_groups(WHO_AT_PATTERN@, q),
        who_rel: regex_groups(WHO_REL_PATTERN@, q),
    }
}

/// The name in the `i`-th group of a match, trimmed; empty where there is none.
pub open spec fn seed_in(g: Option<Seq<Option<Seq<char>>>>, i: int) -> Seq<char> {
    match group(g, i) {
        Some(s) => trim(s),
        None => Seq::<char>::empty(),
    }
}

/// The question that the finds make: two related entities first, then people,
/// feelings, introductions, places of work, and companies.
pub open spec fn classified(q: Seq<char>, g: GroupsView) -> Option<QueryView> {
    if valid_seed(seed_in(g.connects, 1)) && valid_seed(seed_in(g.connects, 2)) {
        Some(
            QueryView {
                kind: RelationalKind::Connects,
                seeds: seq![seed_in(g.connects, 1), seed_in(g.connects, 2)],
                relation_types: Seq::empty(),
                direction: RelationDirection::Both,
            },
        )
    } else if valid_seed(seed_in(g.who_social, 1)) {
        Some(
            QueryView {
                kind: RelationalKind::WhoSocial,
                seeds: seq![seed_in(g.who_social, 1)],
                relation_types: social_relations(q),
                direction: RelationDirection::Out,
            },
        )
    } else if valid_seed(seed_in(g.who_feels, 1)) {
        Some(
            QueryView {
                kind: RelationalKind::WhoFeels,
                seeds: seq![seed_in(g.who_feels, 1)],
                relation_types: feeling_relations(q),
                direction: RelationDirection::In,
            },
        )
    } else if valid_seed(seed_in(g.intro, 1)) {
        Some(
            QueryView {
                kind: RelationalKind::Intro,
                seeds: seq![seed_in(g.intro, 1)],
                relation_types: seq![RelationType::Knows],
                direction: RelationDirection::In,
            },
        )
    } else if valid_seed(seed_in(g.who_at, 1)) {
        Some(
            QueryView {
                kind: RelationalKind::WhoAt,
                seeds: seq![seed_in(g.who_at, 1)],
                relation_types: seq![RelationType::WorksAt],
                direction: RelationDirection::In,
            },
        )
    } else if valid_seed(seed_in(g.who_rel, 1)) {
        Some(
            QueryView {
                kind: RelationalKind::WhoRel,
                seeds: seq![seed_in(g.who_rel, 1)],
                relation_types: company_relations(q),
                direction: RelationDirection::In,
            },
        )
    } else {
        None
    }
}

fn seed_of(g: &Option<Vec<Option<String>>>, i: usize) -> (r: String)
    ensures
        r@ == seed_in(opt_groups(*g), i as int),
{
    match g {
        Some(v) => {
            if i < v.len() {
                assert(group_texts(v@)[i as int] == opt_text(v@[i as int]));
                match &v[i] {
                    Some(s) => trimmed(s.as_str()),
                    None => String::new(),
                }
            } else {
                String::new()
            }
        },
        None => String::new(),
    }
}

fn single(kind: RelationalKind, seed: String, relation_types: Vec<RelationType>, direction: RelationDirection) -> (r:
    ParsedRelationalQuery)
    ensures
        r@ == (QueryView {
            kind,
            seeds: seq![seed@],
            relation_types: relation_types@,
            direction,
        }),
{
    let mut seeds: Vec<String> = Vec::new();
    seeds.push(seed);
    assert(texts(seeds@) =~= seq![seed@]);
    ParsedRelationalQuery { kind, seeds, relation_types, direction }
}

/// What an optional question is.
pub open spec fn opt_query(o: Option<ParsedRelationalQuery>) -> Option<QueryView> {
    match o {
        Some(p) => Some(p@),
        None => None,
    }
}

/// The question that the finds of the patterns make.
pub fn classify_query(query: &str, g: &QueryGroups) -> (r: Option<ParsedRelationalQuery>)
    ensures
        opt_query(r) == classified(query@, g@),
{
    let first = seed_of(&g.connects, 1);
    let second = seed_of(&g.connects, 2);
    if is_valid_seed(first.as_str()) && is_valid_seed(second.as_str()) {
        let mut seeds: Vec<String> = Vec::new();
        seeds.push(first);
        seeds.push(second);
        assert(texts(seeds@) =~= seq![first@, second@]);
        let none: Vec<RelationType> = Vec::new();
        assert(none@ =~= Seq::<RelationType>::empty());
        return Some(
            ParsedRelationalQuery {
                kind: RelationalKind::Connects,
                seeds,
                relation_types: none,
                direction: RelationDirection::Both,
            },
        );
    }
    let social = seed_of(&g.who_social, 1);
    if is_valid_seed(social.as_str()) {
        return Some(
            single(
                RelationalKind::WhoSocial,
                social,
                infer_social_relation_types_from_query(query),
                RelationDirection::Out,
            ),
        );
    }
    let feels = seed_of(&g.who_feels, 1);
    if is_valid_seed(feels.as_str()) {
        return Some(
            single(
                RelationalKind::WhoFeels,
                feels,
                infer_feeling_relation_types_from_query(query),
                RelationDirection::In,
            ),
        );
    }
    let intro = seed_of(&g.intro, 1);
    if is_valid_seed(intro.as_str()) {
        let knows = vec![RelationType::Knows];
        assert(knows@ =~= seq![RelationType::Knows]);
        return Some(single(RelationalKind::Intro, intro, knows, RelationDirection::In));
    }
    let at = seed_of(&g.who_at, 1);
    if is_valid_seed(at.as_str()) {
        let works = vec![RelationType::WorksAt];
        assert(works@ =~= seq![RelationType::WorksAt]);
        return Some(single(RelationalKind::WhoAt, at, works, RelationDirection::In));
    }
    let rel = seed_of(&g.who_rel, 1);
    if is_valid_seed(rel.as_str()) {
        return Some(
            single(
                RelationalKind::WhoRel,
                rel,
                infer_relation_types_from_query(query),
                RelationDirection::In,
            ),
        );
    }
    None
}

/// Reads a question about relations; `None` for anything else.
pub fn parse_relational_query(query: &str) -> (r: Option<ParsedRelationalQuery>)
    ensures
        opt_query(r) == (if is_blank(query@) {
            None
        } else {
            classified(trim(query@), groups_in(trim(query@)))
        }),
{
    let t = trimmed(query);
    if t.as_str().is_empty() {
        return None;
    }
    let g = QueryGroups {
        connects: capture_groups(CONNECTS_PATTERN, t.as_str()),
        who_social: capture_groups(WHO_SOCIAL_PATTERN, t.as_str()),
        who_feels: capture_groups(WHO_FEELS_PATTERN, t.as_str()),
        intro: capture_groups(INTRO_PATTERN, t.as_str()),
        who_at: capture_groups(WHO_AT_PATTERN, t.as_str()),
        who_rel: capture_groups(WHO_REL_PATTERN, t.as_str()),
    };
    classify_query(t.as_str(), &g)
}

/// Every entity that a question names can name one, and only a question about two
/// entities names two.
pub proof fn seeds_are_valid(q: Seq<char>, g: GroupsView, i: int)
    requires
        classified(q, g) is Some,
        0 <= i < classified(q, g)->0.seeds.len(),
    ensures
        valid_seed(classified(q, g)->0.seeds[i]),
        classified(q, g)->0.seeds.len() == (if classified(q, g)->0.kind
            == RelationalKind::Connects {
            2nat
        } else {
            1nat
        }),
{
}

// ---------------------------------------------------------------------------
// The arm of the search along the graph
// ---------------------------------------------------------------------------

/// An entity that the graph reaches from a seed.
#[derive(Debug)]
pub struct FanoutResult {
    pub entity_name: String,
    /// Number of steps.
    pub hop: u32,
    pub via_relation: RelationType,
    /// In millionths.
    pub edge_weight: i64,
}

/// An entity that a memory mentions.
#[derive(Debug)]
pub struct EntityMention {
    pub entity_name: String,
    pub memory_id: String,
}

/// A memory that the graph reaches.
#[derive(Debug)]
pub struct RelationalHit {
    pub memory_id: String,
    pub hop: u64,
    pub via_relation: RelationType,
    /// The entity or entities that the question names.
    pub seed: String,
    pub edge_weight: i64,
}

/// What a hit is.
pub struct HitView {
    pub memory_id: Seq<char>,
    pub hop: u64,
    pub via_relation: RelationType,
    pub seed: Seq<char>,
    pub edge_weight: i64,
}

impl View for RelationalHit {
    type V = HitView;

    open spec fn view(&self) -> HitView {
        HitView {
            memory_id: self.memory_id@,
            hop: self.hop,
            via_relation: self.via_relation,
            seed: self.seed@,
            edge_weight: self.edge_weight,
        }
    }
}

impl Clone for RelationalHit {
    fn clone(&self) -> (r: RelationalHit)
        ensures
            r@ == self@,
    {
        RelationalHit {
            memory_id: self.memory_id.clone(),
            hop: self.hop,
            via_relation: self.via_relation,
            seed: self.seed.clone(),
            edge_weight: self.edge_weight,
        }
    }
}

/// What the hits of a list are.
pub open spec fn hit_views(v: Seq<RelationalHit>) -> Seq<HitView> {
    v.map_values(|h: RelationalHit| h@)
}

/// The hits of an entity: one for each memory that mentions it.
pub open spec fn entity_hits(
    mentions: Seq<EntityMention>,
    name: Seq<char>,
    hop: u64,
    via: RelationType,
    seed: Seq<char>,
    weight: i64,
) -> Seq<HitView>
    decreases mentions.len(),
{
    if mentions.len() == 0 {
        Seq::<HitView>::empty()
    } else {
        let rest = entity_hits(mentions.drop_last(), name, hop, via, seed, weight);
        if mentions.last().entity_name@ == name {
            rest.push(
                HitView {
                    memory_id: mentions.last().memory_id@,
                    hop,
                    via_relation: via,
                    seed,
                    edge_weight: weight,
                },
            )
        } else {
            rest
        }
    }
}

/// The hits of a question with one entity.
pub open spec fn single_hits(
    fanout: Seq<FanoutResult>,
    mentions: Seq<EntityMention>,
    seed: Seq<char>,
) -> Seq<HitView>
    decreases fanout.len(),
{
    if fanout.len() == 0 {
        Seq::<HitView>::empty()
    } else {
        let r = fanout.last();
        single_hits(fanout.drop_last(), mentions, seed) + entity_hits(
            mentions,
            r.entity_name@,
            r.hop as u64,
            r.via_relation,
            seed,
            r.edge_weight,
        )
    }
}

/// The position of the last result for an entity.
pub open spec fn last_named(fanout: Seq<FanoutResult>, name: Seq<char>) -> Option<int>
    decreases fanout.len(),
{
    if fanout.len() == 0 {
        None
    } else if fanout.last().entity_name@ == name {
        Some(fanout.len() - 1)
    } else {
        last_named(fanout.drop_last(), name)
    }
}

/// Half the sum of two weights, rounded down.
pub open spec fn mean(a: i64, b: i64) -> i64 {
    ((a + b) / 2) as i64
}

/// The hits of a question with two entities, from the first `n` results for the
/// first: the entities that both reach. Of several results for an entity the last
/// counts.
pub open spec fn common_hits(
    first: Seq<FanoutResult>,
    second: Seq<FanoutResult>,
    mentions: Seq<EntityMention>,
    seed: Seq<char>,
    n: nat,
) -> Seq<HitView>
    decreases n,
{
    if n == 0 {
        Seq::<HitView>::empty()
    } else {
        let rest = common_hits(first, second, mentions, seed, (n - 1) as nat);
        let a = first[n - 1];
        match (last_named(first, a.entity_name@), last_named(second, a.entity_name@)) {
            (Some(i), Some(j)) => if i == n - 1 {
                rest + entity_hits(
                    mentions,
                    a.entity_name@,
                    (a.hop + second[j].hop) as u64,
                    a.via_relation,
                    seed,
                    mean(a.edge_weight, second[j].edge_weight),
                )
            } else {
                rest
            },
            _ => rest,
        }
    }
}

/// By the number of steps, fewest first.
pub open spec fn hop_keys(s: Seq<HitView>) -> Seq<i128> {
    s.map_values(|h: HitView| (-(h.hop as int)) as i128)
}

/// Whether an earlier hit is for the same memory.
pub open spec fn seen_before(s: Seq<HitView>, i: int) -> bool {
    exists|j: int| 0 <= j < i && (#[trigger] s[j]).memory_id == s[i].memory_id
}

/// The first hit for each memory.
pub open spec fn first_hits(s: Seq<HitView>) -> Seq<HitView> {
    kept(s, Seq::new(s.len(), |i: int| !seen_before(s, i)))
}

/// The nearest hit for each memory, nearest first, at most `limit`.
pub open spec fn nearest_hits(s: Seq<HitView>, limit: int) -> Seq<HitView> {
    let f = first_hits(ranked(s, hop_keys(s), s.len() as int));
    if limit < f.len() {
        f.take(limit)
    } else {
        f
    }
}

fn push_entity_hits(
    out: &mut Vec<RelationalHit>,
    mentions: &Vec<EntityMention>,
    name: &str,
    hop: u64,
    via: RelationType,
    seed: &str,
    weight: i64,
)
    ensures
        hit_views(final(out)@) == hit_views(old(out)@) + entity_hits(
            mentions@,
            name@,
            hop,
            via,
            seed@,
            weight,
        ),
{
    let ghost start = hit_views(out@);
    let mut i: usize = 0;
    assert(hit_views(out@) =~= start + entity_hits(mentions@.take(0), name@, hop, via, seed@, weight));
    while i < mentions.len()
        invariant
            i <= mentions@.len(),
            hit_views(out@) == start + entity_hits(
                mentions@.take(i as int),
                name@,
                hop,
                via,
                seed@,
                weight,
            ),
        decreases mentions@.len() - i,
    {
        proof {
            assert(mentions@.take(i + 1).drop_last() =~= mentions@.take(i as int));
            assert(mentions@.take(i + 1).last() == mentions@[i as int]);
        }
        let ghost prev = hit_views(out@);
        if same(mentions[i].entity_name.as_str(), name) {
            let h = RelationalHit {
                memory_id: mentions[i].memory_id.clone(),
                hop,
                via_relation: via,
                seed: seed.to_owned(),
                edge_weight: weight,
            };
            let ghost hv = h@;
            out.push(h);
            assert(hit_views(out@) =~= prev.push(hv));
        }
        i += 1;
        assert(hit_views(out@) =~= start + entity_hits(
            mentions@.take(i as int),
            name@,
            hop,
            via,
            seed@,
            weight,
        ));
    }
    assert(mentions@.take(i as int) =~= mentions@);
}

fn find_named(fanout: &Vec<FanoutResult>, name: &str) -> (r: Option<usize>)
    ensures
        match r {
            Some(i) => last_named(fanout@, name@) == Some(i as int) && i < fanout@.len(),
            None => last_named(fanout@, name@) is None,
        },
{
    let mut i: usize = fanout.len();
    assert(fanout@.take(i as int) =~= fanout@);
    while i > 0
        invariant
            i <= fanout@.len(),
            last_named(fanout@.take(i as int), name@) == last_named(fanout@, name@),
        decreases i,
    {
        assert(fanout@.take(i as int).drop_last() =~= fanout@.take(i - 1));
        assert(fanout@.take(i as int).last() == fanout@[i - 1]);
        if same(fanout[i - 1].entity_name.as_str(), name) {
            return Some(i - 1);
        }
        i -= 1;
    }
    None
}

fn mean_of(a: i64, b: i64) -> (r: i64)
    ensures
        r == mean(a, b),
{
    let s: i128 = a as i128 + b as i128;
    let q: i128 = if s >= 0 {
        s / 2
    } else {
        -((1 - s) / 2)
    };
    q as i64
}

/// The hits of a question with one entity, given what the graph reaches from it.
pub fn hits_from_fanout(fanout: &Vec<FanoutResult>, mentions: &Vec<EntityMention>, seed: &str) -> (out: Vec<
    RelationalHit,
>)
    ensures
        hit_views(out@) == single_hits(fanout@, mentions@, seed@),
{
    let mut out: Vec<RelationalHit> = Vec::new();
    let mut i: usize = 0;
    assert(hit_views(out@) =~= single_hits(fanout@.take(0), mentions@, seed@));
    while i < fanout.len()
        invariant
            i <= fanout@.len(),
            hit_views(out@) == single_hits(fanout@.take(i as int), mentions@, seed@),
        decreases fanout@.len() - i,
    {
        proof {
            assert(fanout@.take(i + 1).drop_last() =~= fanout@.take(i as int));
            assert(fanout@.take(i + 1).last() == fanout@[i as int]);
        }
        let r = &fanout[i];
        push_entity_hits(
            &mut out,
            mentions,
            r.entity_name.as_str(),
            r.hop as u64,
            r.via_relation,
            seed,
            r.edge_weight,
        );
        i += 1;
    }
    assert(fanout@.take(i as int) =~= fanout@);
    out
}

/// The hits of a question with two entities, given what the graph reaches from each.
pub fn hits_from_common(
    first: &Vec<FanoutResult>,
    second: &Vec<FanoutResult>,
    mentions: &Vec<EntityMention>,
    seed: &str,
) -> (out: Vec<RelationalHit>)
    ensures
        hit_views(out@) == common_hits(first@, second@, mentions@, seed@, first@.len()),
{
    let mut out: Vec<RelationalHit> = Vec::new();
    let mut i: usize = 0;
    assert(hit_views(out@) =~= common_hits(first@, second@, mentions@, seed@, 0));
    while i < first.len()
        invariant
            i <= first@.len(),
            hit_views(out@) == common_hits(first@, second@, mentions@, seed@, i as nat),
        decreases first@.len() - i,
    {
        let a = &first[i];
        let mine = find_named(first, a.entity_name.as_str());
        let other = find_named(second, a.entity_name.as_str());
        if let (Some(m), Some(j)) = (mine, other) {
            if m == i {
                push_entity_hits(
                    &mut out,
                    mentions,
                    a.entity_name.as_str(),
                    a.hop as u64 + second[j].hop as u64,
                    a.via_relation,
                    seed,
                    mean_of(a.edge_weight, second[j].edge_weight),
                );
            }
        }
        i += 1;
    }
    out
}

/// The nearest hit for each memory, nearest first.
pub fn keep_nearest(hits: Vec<RelationalHit>, limit: usize) -> (out: Vec<RelationalHit>)
    ensures
        hit_views(out@) == nearest_hits(hit_views(hits@), limit as int),
{
    let ghost all = hit_views(hits@);
    let mut keys: Vec<i128> = Vec::new();
    let mut i: usize = 0;
    while i < hits.len()
        invariant
            i <= hits@.len(),
            all == hit_views(hits@),
            keys@ == hop_keys(all).take(i as int),
        decreases hits@.len() - i,
    {
        keys.push(-(hits[i].hop as i128));
        i += 1;
        assert(all[i - 1] == hits@[i - 1]@);
        assert(hop_keys(all).take(i as int) =~= hop_keys(all).take(i - 1).push(
            hop_keys(all)[i - 1],
        ));
    }
    assert(hop_keys(all).take(i as int) =~= hop_keys(all));
    let p = order_desc(&keys);
    proof {
        order_sorts(hop_keys(all));
    }
    let ghost sorted = ranked(all, hop_keys(all), all.len() as int);
    let mut out: Vec<RelationalHit> = Vec::new();
    let mut k: usize = 0;
    assert(hit_views(out@) =~= sorted.take(0));
    while k < p.len()
        invariant
            k <= p@.len(),
            p@.len() == hits@.len(),
            all == hit_views(hits@),
            sorted == ranked(all, hop_keys(all), all.len() as int),
            sorted.len() == p@.len(),
            positions(p@) == order_of(hop_keys(all)),
            forall|j: int| 0 <= j < p@.len() ==> (#[trigger] p@[j]) < hits@.len(),
            hit_views(out@) == sorted.take(k as int),
        decreases p@.len() - k,
    {
        let at: usize = p[k];
        let ghost prev = hit_views(out@);
        out.push(hits[at].clone());
        assert(positions(p@)[k as int] == at as int);
        assert(all[at as int] == hits@[at as int]@);
        assert(hit_views(out@) =~= prev.push(sorted[k as int]));
        k += 1;
        assert(sorted.take(k as int) =~= sorted.take(k - 1).push(sorted[k - 1]));
    }
    assert(sorted.take(k as int) =~= sorted);
    let mut flags: Vec<bool> = Vec::new();
    let mut a: usize = 0;
    while a < out.len()
        invariant
            a <= out@.len(),
            sorted == hit_views(out@),
            flags@.len() == a,
            forall|j: int| 0 <= j < a ==> #[trigger] flags@[j] == !seen_before(sorted, j),
        decreases out@.len() - a,
    {
        let mut seen: bool = false;
        let mut b: usize = 0;
        assert(sorted[a as int] == out@[a as int]@);
        while b < a
            invariant
                b <= a < out@.len(),
                sorted == hit_views(out@),
                sorted[a as int] == out@[a as int]@,
                seen == exists|j: int|
                    0 <= j < b && (#[trigger] sorted[j]).memory_id == sorted[a as int].memory_id,
            decreases a - b,
        {
            assert(sorted[b as int] == out@[b as int]@);
            if same(out[b].memory_id.as_str(), out[a].memory_id.as_str()) {
                seen = true;
            }
            b += 1;
        }
        flags.push(!seen);
        a += 1;
    }
    let ghost raw = out@;
    let mut unique = take_flagged(out, &flags);
    proof {
        crate::select::kept_map(raw, flags@, |h: RelationalHit| h@);
        assert(flags@ =~= Seq::new(sorted.len(), |i: int| !seen_before(sorted, i)));
        assert(hit_views(unique@) == first_hits(sorted));
    }
    let ghost before = unique@;
    if limit < unique.len() {
        unique.truncate(limit);
        assert(hit_views(unique@) =~= first_hits(sorted).take(limit as int));
    }
    unique
}

/// The hits that the graph gives for a question. `second` is what it reaches from
/// the second entity, for a question that names two.
pub open spec fn arm_hits(
    q: QueryView,
    first: Seq<FanoutResult>,
    second: Seq<FanoutResult>,
    mentions: Seq<EntityMention>,
    limit: int,
) -> Seq<HitView> {
    if q.seeds.len() == 0 {
        Seq::<HitView>::empty()
    } else if q.kind == RelationalKind::Connects && q.seeds.len() >= 2 {
        nearest_hits(
            common_hits(first, second, mentions, q.seeds[0] + "+"@ + q.seeds[1], first.len()),
            limit,
        )
    } else {
        nearest_hits(single_hits(first, mentions, q.seeds[0]), limit)
    }
}

/// The hits that the graph gives for a question.
pub fn build_relational_arm(
    parsed: &ParsedRelationalQuery,
    first: &Vec<FanoutResult>,
    second: &Vec<FanoutResult>,
    mentions: &Vec<EntityMention>,
    limit: usize,
) -> (out: Vec<RelationalHit>)
    ensures
        hit_views(out@) == arm_hits(parsed@, first@, second@, mentions@, limit as int),
{
    assert(texts(parsed.seeds@).len() == parsed.seeds@.len());
    if parsed.seeds.len() == 0 {
        let none: Vec<RelationalHit> = Vec::new();
        assert(hit_views(none@) =~= Seq::<HitView>::empty());
        return none;
    }
    assert(parsed@.seeds[0] == parsed.seeds@[0]@);
    if parsed.kind == RelationalKind::Connects && parsed.seeds.len() >= 2 {
        assert(parsed@.seeds[1] == parsed.seeds@[1]@);
        let mut seed: String = parsed.seeds[0].clone();
        seed.append("+");
        seed.append(parsed.seeds[1].as_str());
        keep_nearest(hits_from_common(first, second, mentions, seed.as_str()), limit)
    } else {
        keep_nearest(hits_from_fanout(first, mentions, parsed.seeds[0].as_str()), limit)
    }
}

/// No memory is hit twice, and at most `limit` memories are.
pub proof fn arm_hits_are_unique(s: Seq<HitView>, limit: int)
    requires
        0 <= limit,
    ensures
        nearest_hits(s, limit).len() <= limit || nearest_hits(s, limit).len() <= s.len(),
        forall|i: int, j: int|
            0 <= i < j < nearest_hits(s, limit).len() ==> (#[trigger] nearest_hits(
                s,
                limit,
            )[i]).memory_id != (#[trigger] nearest_hits(s, limit)[j]).memory_id,
        nearest_hits(s, limit).len() <= limit || limit >= s.len(),
{
    order_sorts(hop_keys(s));
    let sorted = ranked(s, hop_keys(s), s.len() as int);
    let flags = Seq::new(sorted.len(), |i: int| !seen_before(sorted, i));
    lemma_first_distinct(sorted, flags, sorted.len());
    assert(sorted.take(sorted.len() as int) =~= sorted);
    let f = first_hits(sorted);
    let n = nearest_hits(s, limit);
    assert(f.len() <= sorted.len());
    assert forall|i: int, j: int| 0 <= i < j < n.len() implies (#[trigger] n[i]).memory_id
        != (#[trigger] n[j]).memory_id by {
        assert(n[i] == f[i] && n[j] == f[j]);
    }
}

proof fn lemma_first_distinct(s: Seq<HitView>, flags: Seq<bool>, n: nat)
    requires
        n <= s.len(),
        flags.len() == s.len(),
        forall|i: int| 0 <= i < s.len() ==> #[trigger] flags[i] == !seen_before(s, i),
    ensures
        ({
            let k = kept(s.take(n as int), flags);
            &&& k.len() <= n
            &&& forall|i: int, j: int|
                0 <= i < j < k.len() ==> (#[trigger] k[i]).memory_id != (#[trigger] k[j]).memory_id
            &&& forall|i: int|
                0 <= i < k.len() ==> exists|w: int|
                    0 <= w < n && (#[trigger] s[w]).memory_id == (#[trigger] k[i]).memory_id
        }),
    decreases n,
{
    if n > 0 {
        lemma_first_distinct(s, flags, (n - 1) as nat);
        assert(s.take(n as int).drop_last() =~= s.take(n - 1));
        let p = kept(s.take(n - 1), flags);
        let k = kept(s.take(n as int), flags);
        if flags[n - 1] {
            assert(k == p.push(s[n - 1]));
            assert(!seen_before(s, n - 1));
            assert forall|i: int, j: int| 0 <= i < j < k.len() implies (#[trigger] k[i]).memory_id
                != (#[trigger] k[j]).memory_id by {
                assert(k[i] == p[i]);
                if j == p.len() {
                    let w = choose|w: int|
                        0 <= w < n - 1 && (#[trigger] s[w]).memory_id == p[i].memory_id;
                    assert(s[w].memory_id != s[n - 1].memory_id);
                } else {
                    assert(k[j] == p[j]);
                }
            }
            assert forall|i: int| 0 <= i < k.len() implies exists|w: int|
                0 <= w < n && (#[trigger] s[w]).memory_id == (#[trigger] k[i]).memory_id by {
                if i == p.len() {
                    assert(s[n - 1].memory_id == k[i].memory_id);
                } else {
                    assert(k[i] == p[i]);
                }
            }
        }
    }
}

/// The memory of a hit with the way to it in its metadata.
pub open spec fn graph_item(m: ItemView, h: HitView) -> ItemView {
    ItemView {
        metadata: m.metadata.insert("graph_hop"@, MetaView::Int(h.hop as i64)).insert(
            "graph_relation"@,
            MetaView::Text(h.via_relation.name()),
        ).insert("graph_seed"@, MetaView::Text(h.seed)).insert(
            "graph_weight"@,
            MetaView::Micros(h.edge_weight),
        ),
        ..m
    }
}

/// The memories of the hits that are known.
pub open spec fn graph_items(entries: Seq<ItemView>, hits: Seq<HitView>) -> Seq<ItemView>
    decreases hits.len(),
{
    if hits.len() == 0 {
        Seq::<ItemView>::empty()
    } else {
        let rest = graph_items(entries, hits.drop_last());
        match last_with_id(entries, hits.last().memory_id) {
            Some(i) => rest.push(graph_item(entries[i], hits.last())),
            None => rest,
        }
    }
}

/// The memories of the hits, with the way to each in its metadata.
pub fn attach_graph_hits(entries: &[MemoryItem], hits: &Vec<RelationalHit>) -> (out: Vec<MemoryItem>)
    requires
        forall|i: int| 0 <= i < hits@.len() ==> (#[trigger] hits@[i]).hop <= i64::MAX,
    ensures
        item_views(out@) == graph_items(item_views(entries@), hit_views(hits@)),
{
    let ghost all = item_views(entries@);
    let ghost hv = hit_views(hits@);
    let mut out: Vec<MemoryItem> = Vec::new();
    let mut i: usize = 0;
    assert(item_views(out@) =~= graph_items(all, hv.take(0)));
    while i < hits.len()
        invariant
            i <= hits@.len(),
            all == item_views(entries@),
            hv == hit_views(hits@),
            forall|k: int| 0 <= k < hits@.len() ==> (#[trigger] hits@[k]).hop <= i64::MAX,
            item_views(out@) == graph_items(all, hv.take(i as int)),
        decreases hits@.len() - i,
    {
        let h = &hits[i];
        proof {
            assert(hits@[i as int].hop <= i64::MAX);
            assert(hv.take(i + 1).drop_last() =~= hv.take(i as int));
            assert(hv.take(i + 1).last() == h@);
        }
        if let Some(at) = position_by_id(entries, h.memory_id.as_str()) {
            let mut m = entries[at].clone();
            assert(all[at as int] == entries@[at as int]@);
            m.metadata.insert("graph_hop", MetaValue::Int(h.hop as i64));
            m.metadata.insert("graph_relation", MetaValue::Text(h.via_relation.as_str().to_owned()));
            m.metadata.insert("graph_seed", MetaValue::Text(h.seed.clone()));
            m.metadata.insert("graph_weight", MetaValue::Micros(h.edge_weight));
            let ghost prev = item_views(out@);
            let ghost mv = m@;
            out.push(m);
            assert(mv == graph_item(all[at as int], h@));
            assert(item_views(out@) =~= prev.push(mv));
        }
        i += 1;
    }
    assert(hv.take(i as int) =~= hv);
    out
}

} // verus!
