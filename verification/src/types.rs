//! The vocabulary of the memory system: kinds, metadata and memory items.
//!
//! Scores are fixed-point numbers in millionths, times are milliseconds since
//! the Unix epoch.

use crate::assoc::{distinct, first_with, lemma_first_with, lemma_lookup_none, lookup, lookup_after_put,
    lookup_listed, Assoc};
use crate::redact::{copy_spans, spans, PiiSpan, SpanView};
use crate::text::{contains, copy_option, copy_strings, first_chars, has_sub, head_of, lower, lowercase,
    one_of, same, strs, texts, opt_text};
use vstd::prelude::*;
use vstd::string::*;

verus! {

/// One, in the millionths in which scores are kept.
pub const ONE: i64 = 1_000_000;

// ---------------------------------------------------------------------------
// Semantic type
// ---------------------------------------------------------------------------

/// What a memory is about.
#[derive(Debug, Clone, Copy, PartialEq, Eq, Hash, Structural)]
pub enum SemanticType {
    /// Identity, preferences and character of the user.
    User,
    /// Feedback on the agent's behaviour.
    Feedback,
    /// Events of the relationship.
    Relationship,
    /// Things lived through together.
    SharedMemory,
    /// The user's current project or task.
    Project,
    /// A pointer to outside information.
    Reference,
    /// Ordinary conversation.
    General,
}

impl SemanticType {
    /// The name under which the type is stored.
    pub open spec fn name(self) -> Seq<char> {
        match self {
            SemanticType::User => "user"@,
            SemanticType::Feedback => "feedback"@,
            SemanticType::Relationship => "relationship"@,
            SemanticType::SharedMemory => "shared_memory"@,
            SemanticType::Project => "project"@,
            SemanticType::Reference => "reference"@,
            SemanticType::General => "general"@,
        }
    }

    /// Every type, in declaration order.
    pub fn all() -> (r: Vec<SemanticType>)
        ensures
            r@ == seq![
                SemanticType::User,
                SemanticType::Feedback,
                SemanticType::Relationship,
                SemanticType::SharedMemory,
                SemanticType::Project,
                SemanticType::Reference,
                SemanticType::General,
            ],
    {
        let r = vec![
            SemanticType::User,
            SemanticType::Feedback,
            SemanticType::Relationship,
            SemanticType::SharedMemory,
            SemanticType::Project,
            SemanticType::Reference,
            SemanticType::General,
        ];
        assert(r@ =~= seq![
            SemanticType::User,
            SemanticType::Feedback,
            SemanticType::Relationship,
            SemanticType::SharedMemory,
            SemanticType::Project,
            SemanticType::Reference,
            SemanticType::General,
        ]);
        r
    }

    pub fn as_str(&self) -> (r: &'static str)
        ensures
            r@ == self.name(),
    {
        match self {
            SemanticType::User => "user",
            SemanticType::Feedback => "feedback",
            SemanticType::Relationship => "relationship",
            SemanticType::SharedMemory => "shared_memory",
            SemanticType::Project => "project",
            SemanticType::Reference => "reference",
            SemanticType::General => "general",
        }
    }

    /// The type of that name, if there is one.
    pub fn from_str(s: &str) -> (r: Option<SemanticType>)
        ensures
            r == semantic_named(s@),
    {
        if same(s, "user") {
            Some(SemanticType::User)
        } else if same(s, "feedback") {
            Some(SemanticType::Feedback)
        } else if same(s, "relationship") {
            Some(SemanticType::Relationship)
        } else if same(s, "shared_memory") {
            Some(SemanticType::SharedMemory)
        } else if same(s, "project") {
            Some(SemanticType::Project)
        } else if same(s, "reference") {
            Some(SemanticType::Reference)
        } else if same(s, "general") {
            Some(SemanticType::General)
        } else {
            None
        }
    }

    /// Lowest importance that a memory of this type is given, in millionths.
    pub open spec fn floor(self) -> i64 {
        match self {
            SemanticType::User => 800_000,
            SemanticType::Feedback | SemanticType::Relationship => 700_000,
            SemanticType::SharedMemory | SemanticType::Project => 500_000,
            SemanticType::Reference => 400_000,
            SemanticType::General => 200_000,
        }
    }

    pub fn default_importance(&self) -> (r: i64)
        ensures
            r == self.floor(),
    {
        match self {
            SemanticType::User => 800_000,
            SemanticType::Feedback | SemanticType::Relationship => 700_000,
            SemanticType::SharedMemory | SemanticType::Project => 500_000,
            SemanticType::Reference => 400_000,
            SemanticType::General => 200_000,
        }
    }
}

/// The semantic type of that name.
pub open spec fn semantic_named(s: Seq<char>) -> Option<SemanticType> {
    if s == "user"@ {
        Some(SemanticType::User)
    } else if s == "feedback"@ {
        Some(SemanticType::Feedback)
    } else if s == "relationship"@ {
        Some(SemanticType::Relationship)
    } else if s == "shared_memory"@ {
        Some(SemanticType::SharedMemory)
    } else if s == "project"@ {
        Some(SemanticType::Project)
    } else if s == "reference"@ {
        Some(SemanticType::Reference)
    } else if s == "general"@ {
        Some(SemanticType::General)
    } else {
        None
    }
}

/// Reading the name of a semantic type back gives the type, and only its name does.
pub proof fn semantic_name_round_trip(t: SemanticType, s: Seq<char>)
    ensures
        semantic_named(t.name()) == Some(t),
        semantic_named(s) == Some(t) ==> s == t.name(),
{
    match semantic_named(t.name()) {
        Some(u) => semantic_names_distinct(u, t),
        None => {},
    }
}

/// No two semantic types have the same name.
pub proof fn semantic_names_distinct(a: SemanticType, b: SemanticType)
    requires
        a.name() == b.name(),
    ensures
        a == b,
{
    reveal_strlit("user");
    reveal_strlit("feedback");
    reveal_strlit("relationship");
    reveal_strlit("shared_memory");
    reveal_strlit("project");
    reveal_strlit("reference");
    reveal_strlit("general");
    let x = a.name();
    let y = b.name();
    assert(x[0] == y[0]);
    assert(x[1] == y[1]);
    assert(x.len() == y.len());
    match a {
        SemanticType::User => assert(b == a),
        SemanticType::Feedback => assert(b == a),
        SemanticType::Relationship => assert(b == a),
        SemanticType::SharedMemory => assert(b == a),
        SemanticType::Project => assert(b == a),
        SemanticType::Reference => assert(b == a),
        SemanticType::General => assert(b == a),
    }
}

// ---------------------------------------------------------------------------
// Canonical tags
// ---------------------------------------------------------------------------

/// The tags that the tag field of a memory may hold.
pub open spec fn canonical() -> Seq<Seq<char>> {
    seq![
        "short_term"@, "mid_term"@, "long_term"@,
        "user"@, "feedback"@, "project"@, "reference"@, "general"@,
        "preference"@, "identity"@, "important_event"@, "knowledge"@,
        "temporary_context"@, "casual_conversation"@,
        "session_summary"@, "insight"@, "inner_monologue"@,
        "shared_memory"@, "relationship"@,
        "llm_generated"@, "inner_os"@, "autonomous"@,
        "vivian"@,
        "user_profile"@, "project_context"@, "health"@,
        "long_term_preference"@, "daily_diary"@, "diary"@,
        "joy"@, "sadness"@, "anger"@, "fear"@, "closeness"@, "loneliness"@, "curiosity"@,
        "neutral"@, "happy"@, "shy"@, "curious"@, "excited"@, "bored"@,
        "caring"@, "sleepy"@, "playful"@, "proud"@, "grateful"@, "apologetic"@,
    ]
}

/// The canonical tags.
pub fn canonical_tags() -> (r: Vec<&'static str>)
    ensures
        strs(r@) == canonical(),
{
    let r = vec![
        "short_term", "mid_term", "long_term",
        "user", "feedback", "project", "reference", "general",
        "preference", "identity", "important_event", "knowledge",
        "temporary_context", "casual_conversation",
        "session_summary", "insight", "inner_monologue",
        "shared_memory", "relationship",
        "llm_generated", "inner_os", "autonomous",
        "vivian",
        "user_profile", "project_context", "health",
        "long_term_preference", "daily_diary", "diary",
        "joy", "sadness", "anger", "fear", "closeness", "loneliness", "curiosity",
        "neutral", "happy", "shy", "curious", "excited", "bored",
        "caring", "sleepy", "playful", "proud", "grateful", "apologetic",
    ];
    assert(strs(r@) =~= canonical());
    r
}

/// Whether the tag is canonical.
pub fn is_canonical_tag(tag: &str) -> (r: bool)
    ensures
        r == canonical().contains(tag@),
{
    let tags = canonical_tags();
    one_of(tag, tags.as_slice())
}

/// The name of every semantic type is a canonical tag.
pub proof fn semantic_names_canonical(t: SemanticType)
    ensures
        canonical().contains(t.name()),
{
    let c = canonical();
    match t {
        SemanticType::User => assert(c[3] == t.name()),
        SemanticType::Feedback => assert(c[4] == t.name()),
        SemanticType::Relationship => assert(c[18] == t.name()),
        SemanticType::SharedMemory => assert(c[17] == t.name()),
        SemanticType::Project => assert(c[5] == t.name()),
        SemanticType::Reference => assert(c[6] == t.name()),
        SemanticType::General => assert(c[7] == t.name()),
    }
}

// ---------------------------------------------------------------------------
// Granularity
// ---------------------------------------------------------------------------

/// The extent of the conversation that a memory covers.
#[derive(Debug, Clone, Copy, PartialEq, Eq, Hash, Structural)]
pub enum Granularity {
    Turn,
    Session,
    Summary,
    Keyword,
}

impl Granularity {
    /// The name under which the granularity is stored.
    pub open spec fn name(self) -> Seq<char> {
        match self {
            Granularity::Turn => "turn"@,
            Granularity::Session => "session"@,
            Granularity::Summary => "summary"@,
            Granularity::Keyword => "keyword"@,
        }
    }

    /// Every granularity, in declaration order.
    pub fn all() -> (r: Vec<Granularity>)
        ensures
            r@ == seq![
                Granularity::Turn,
                Granularity::Session,
                Granularity::Summary,
                Granularity::Keyword,
            ],
    {
        let r = vec![
            Granularity::Turn,
            Granularity::Session,
            Granularity::Summary,
            Granularity::Keyword,
        ];
        assert(r@ =~= seq![
            Granularity::Turn,
            Granularity::Session,
            Granularity::Summary,
            Granularity::Keyword,
        ]);
        r
    }

    pub fn as_str(&self) -> (r: &'static str)
        ensures
            r@ == self.name(),
    {
        match self {
            Granularity::Turn => "turn",
            Granularity::Session => "session",
            Granularity::Summary => "summary",
            Granularity::Keyword => "keyword",
        }
    }

    /// The granularity of that name, or a message with the unknown name.
    pub fn parse(s: &str) -> (r: Result<Granularity, String>)
        ensures
            match r {
                Ok(g) => g.name() == s@,
                Err(e) => e@ == "未知粒度: "@ + s@ && forall|g: Granularity|
                    #[trigger] g.name() != s@,
            },
    {
        if same(s, "turn") {
            Ok(Granularity::Turn)
        } else if same(s, "session") {
            Ok(Granularity::Session)
        } else if same(s, "summary") {
            Ok(Granularity::Summary)
        } else if same(s, "keyword") {
            Ok(Granularity::Keyword)
        } else {
            let mut e: String = "未知粒度: ".to_owned();
            e.append(s);
            Err(e)
        }
    }
}

impl std::str::FromStr for Granularity {
    type Err = String;

    fn from_str(s: &str) -> Result<Granularity, String> {
        Granularity::parse(s)
    }
}

/// No two granularities have the same name.
pub proof fn granularity_names_distinct(a: Granularity, b: Granularity)
    requires
        a.name() == b.name(),
    ensures
        a == b,
{
    reveal_strlit("turn");
    reveal_strlit("session");
    reveal_strlit("summary");
    reveal_strlit("keyword");
    let x = a.name();
    let y = b.name();
    assert(x[0] == y[0]);
    assert(x[1] == y[1]);
}

// ---------------------------------------------------------------------------
// Memory type
// ---------------------------------------------------------------------------

/// Where a memory comes from and how long it is meant to last.
#[derive(Debug, Clone, Copy, PartialEq, Eq, Hash, Structural)]
pub enum MemoryType {
    ShortTerm,
    MidTerm,
    LongTerm,
    User,
    Feedback,
    Project,
    Reference,
    General,
    Preference,
    Identity,
    ImportantEvent,
    Knowledge,
    TemporaryContext,
    CasualConversation,
    /// A conversation of others, watched from outside.
    ObservationNote,
    /// Summary of several turns.
    SessionSummary,
    /// Insight drawn from several long-term memories.
    Insight,
    /// The agent's thoughts while nobody talks to it.
    InnerMonologue,
}

impl MemoryType {
    /// The name under which the type is stored.
    pub open spec fn name(self) -> Seq<char> {
        match self {
            MemoryType::ShortTerm => "short_term"@,
            MemoryType::MidTerm => "mid_term"@,
            MemoryType::LongTerm => "long_term"@,
            MemoryType::User => "user"@,
            MemoryType::Feedback => "feedback"@,
            MemoryType::Project => "project"@,
            MemoryType::Reference => "reference"@,
            MemoryType::General => "general"@,
            MemoryType::Preference => "preference"@,
            MemoryType::Identity => "identity"@,
            MemoryType::ImportantEvent => "important_event"@,
            MemoryType::Knowledge => "knowledge"@,
            MemoryType::TemporaryContext => "temporary_context"@,
            MemoryType::CasualConversation => "casual_conversation"@,
            MemoryType::ObservationNote => "observation_note"@,
            MemoryType::SessionSummary => "session_summary"@,
            MemoryType::Insight => "insight"@,
            MemoryType::InnerMonologue => "inner_monologue"@,
        }
    }

    /// The type of that name, if there is one.
    pub fn from_str(s: &str) -> (r: Option<MemoryType>)
        ensures
            match r {
                Some(t) => t.name() == s@ && memory_type_named(s@) == Some(t),
                None => memory_type_named(s@) is None && forall|t: MemoryType|
                    #[trigger] t.name() != s@,
            },
    {
        if same(s, "short_term") {
            Some(MemoryType::ShortTerm)
        } else if same(s, "mid_term") {
            Some(MemoryType::MidTerm)
        } else if same(s, "long_term") {
            Some(MemoryType::LongTerm)
        } else if same(s, "user") {
            Some(MemoryType::User)
        } else if same(s, "feedback") {
            Some(MemoryType::Feedback)
        } else if same(s, "project") {
            Some(MemoryType::Project)
        } else if same(s, "reference") {
            Some(MemoryType::Reference)
        } else if same(s, "general") {
            Some(MemoryType::General)
        } else if same(s, "preference") {
            Some(MemoryType::Preference)
        } else if same(s, "identity") {
            Some(MemoryType::Identity)
        } else if same(s, "important_event") {
            Some(MemoryType::ImportantEvent)
        } else if same(s, "knowledge") {
            Some(MemoryType::Knowledge)
        } else if same(s, "temporary_context") {
            Some(MemoryType::TemporaryContext)
        } else if same(s, "casual_conversation") {
            Some(MemoryType::CasualConversation)
        } else if same(s, "observation_note") {
            Some(MemoryType::ObservationNote)
        } else if same(s, "session_summary") {
            Some(MemoryType::SessionSummary)
        } else if same(s, "insight") {
            Some(MemoryType::Insight)
        } else if same(s, "inner_monologue") {
            Some(MemoryType::InnerMonologue)
        } else {
            None
        }
    }

    pub fn as_str(&self) -> (r: &'static str)
        ensures
            r@ == self.name(),
    {
        match self {
            MemoryType::ShortTerm => "short_term",
            MemoryType::MidTerm => "mid_term",
            MemoryType::LongTerm => "long_term",
            MemoryType::User => "user",
            MemoryType::Feedback => "feedback",
            MemoryType::Project => "project",
            MemoryType::Reference => "reference",
            MemoryType::General => "general",
            MemoryType::Preference => "preference",
            MemoryType::Identity => "identity",
            MemoryType::ImportantEvent => "important_event",
            MemoryType::Knowledge => "knowledge",
            MemoryType::TemporaryContext => "temporary_context",
            MemoryType::CasualConversation => "casual_conversation",
            MemoryType::ObservationNote => "observation_note",
            MemoryType::SessionSummary => "session_summary",
            MemoryType::Insight => "insight",
            MemoryType::InnerMonologue => "inner_monologue",
        }
    }

    /// The granularity at which a memory of this type is kept.
    pub open spec fn kept_at(self) -> Granularity {
        match self {
            MemoryType::ShortTerm | MemoryType::CasualConversation => Granularity::Turn,
            MemoryType::MidTerm | MemoryType::TemporaryContext => Granularity::Session,
            _ => Granularity::Summary,
        }
    }

    pub fn default_granularity(&self) -> (r: Granularity)
        ensures
            r == self.kept_at(),
    {
        match self {
            MemoryType::ShortTerm | MemoryType::CasualConversation => Granularity::Turn,
            MemoryType::MidTerm | MemoryType::TemporaryContext => Granularity::Session,
            _ => Granularity::Summary,
        }
    }
}

/// The memory type of that name.
pub open spec fn memory_type_named(s: Seq<char>) -> Option<MemoryType> {
    if s == "short_term"@ {
        Some(MemoryType::ShortTerm)
    } else if s == "mid_term"@ {
        Some(MemoryType::MidTerm)
    } else if s == "long_term"@ {
        Some(MemoryType::LongTerm)
    } else if s == "user"@ {
        Some(MemoryType::User)
    } else if s == "feedback"@ {
        Some(MemoryType::Feedback)
    } else if s == "project"@ {
        Some(MemoryType::Project)
    } else if s == "reference"@ {
        Some(MemoryType::Reference)
    } else if s == "general"@ {
        Some(MemoryType::General)
    } else if s == "preference"@ {
        Some(MemoryType::Preference)
    } else if s == "identity"@ {
        Some(MemoryType::Identity)
    } else if s == "important_event"@ {
        Some(MemoryType::ImportantEvent)
    } else if s == "knowledge"@ {
        Some(MemoryType::Knowledge)
    } else if s == "temporary_context"@ {
        Some(MemoryType::TemporaryContext)
    } else if s == "casual_conversation"@ {
        Some(MemoryType::CasualConversation)
    } else if s == "observation_note"@ {
        Some(MemoryType::ObservationNote)
    } else if s == "session_summary"@ {
        Some(MemoryType::SessionSummary)
    } else if s == "insight"@ {
        Some(MemoryType::Insight)
    } else if s == "inner_monologue"@ {
        Some(MemoryType::InnerMonologue)
    } else {
        None
    }
}

/// Reading the name of a memory type back gives the type, and only its name does.
pub proof fn memory_type_name_round_trip(t: MemoryType, s: Seq<char>)
    ensures
        memory_type_named(t.name()) == Some(t),
        memory_type_named(s) == Some(t) ==> s == t.name(),
{
    match memory_type_named(t.name()) {
        Some(u) => memory_type_names_distinct(u, t),
        None => {},
    }
}

/// No two memory types have the same name.
pub proof fn memory_type_names_distinct(a: MemoryType, b: MemoryType)
    requires
        a.name() == b.name(),
    ensures
        a == b,
{
    reveal_strlit("short_term");
    reveal_strlit("mid_term");
    reveal_strlit("long_term");
    reveal_strlit("user");
    reveal_strlit("feedback");
    reveal_strlit("project");
    reveal_strlit("reference");
    reveal_strlit("general");
    reveal_strlit("preference");
    reveal_strlit("identity");
    reveal_strlit("important_event");
    reveal_strlit("knowledge");
    reveal_strlit("temporary_context");
    reveal_strlit("casual_conversation");
    reveal_strlit("observation_note");
    reveal_strlit("session_summary");
    reveal_strlit("insight");
    reveal_strlit("inner_monologue");
    let x = a.name();
    let y = b.name();
    assert(x[0] == y[0]);
    assert(x[1] == y[1]);
    assert(x.len() == y.len());
    match a {
        MemoryType::ShortTerm => assert(b == a),
        MemoryType::MidTerm => assert(b == a),
        MemoryType::LongTerm => assert(b == a),
        MemoryType::User => assert(b == a),
        MemoryType::Feedback => assert(b == a),
        MemoryType::Project => assert(b == a),
        MemoryType::Reference => assert(b == a),
        MemoryType::General => assert(b == a),
        MemoryType::Preference => assert(b == a),
        MemoryType::Identity => assert(b == a),
        MemoryType::ImportantEvent => assert(b == a),
        MemoryType::Knowledge => assert(b == a),
        MemoryType::TemporaryContext => assert(b == a),
        MemoryType::CasualConversation => assert(b == a),
        MemoryType::ObservationNote => assert(b == a),
        MemoryType::SessionSummary => assert(b == a),
        MemoryType::Insight => assert(b == a),
        MemoryType::InnerMonologue => assert(b == a),
    }
}

// ---------------------------------------------------------------------------
// Retrieval strategy
// ---------------------------------------------------------------------------

/// How memories are looked up.
#[derive(Debug, Clone, Copy, PartialEq, Eq, Structural)]
pub enum RetrievalStrategy {
    Auto,
    Keyword,
    Vector,
    Hybrid,
    /// Along the knowledge graph only.
    Graph,
}

/// The strategy that a name in lower case stands for.
pub open spec fn strategy_named(s: Seq<char>) -> RetrievalStrategy {
    if s == "keyword"@ {
        RetrievalStrategy::Keyword
    } else if s == "vector"@ {
        RetrievalStrategy::Vector
    } else if s == "hybrid"@ {
        RetrievalStrategy::Hybrid
    } else if s == "graph"@ {
        RetrievalStrategy::Graph
    } else {
        RetrievalStrategy::Auto
    }
}

impl RetrievalStrategy {
    /// The strategy of that name, whatever its case; `Auto` for any other name.
    pub fn from_str(s: &str) -> (r: RetrievalStrategy)
        ensures
            r == strategy_named(lowercase(s@)),
    {
        let l = lower(s);
        Self::from_lower(l.as_str())
    }

    /// The strategy that a name in lower case stands for.
    pub fn from_lower(l: &str) -> (r: RetrievalStrategy)
        ensures
            r == strategy_named(l@),
    {
        if same(l, "keyword") {
            RetrievalStrategy::Keyword
        } else if same(l, "vector") {
            RetrievalStrategy::Vector
        } else if same(l, "hybrid") {
            RetrievalStrategy::Hybrid
        } else if same(l, "graph") {
            RetrievalStrategy::Graph
        } else {
            RetrievalStrategy::Auto
        }
    }
}

// ---------------------------------------------------------------------------
// Metadata
// ---------------------------------------------------------------------------

/// A value of a metadata entry.
#[derive(Debug)]
pub enum MetaValue {
    Null,
    Bool(bool),
    Int(i64),
    /// A number in millionths.
    Micros(i64),
    Text(String),
    /// The texts of a list.
    List(Vec<String>),
    /// Personal data that was found.
    Spans(Vec<PiiSpan>),
}

/// What a metadata value is.
pub enum MetaView {
    Null,
    Bool(bool),
    Int(i64),
    Micros(i64),
    Text(Seq<char>),
    List(Seq<Seq<char>>),
    Spans(Seq<SpanView>),
}

impl View for MetaValue {
    type V = MetaView;

    open spec fn view(&self) -> MetaView {
        match self {
            MetaValue::Null => MetaView::Null,
            MetaValue::Bool(b) => MetaView::Bool(*b),
            MetaValue::Int(n) => MetaView::Int(*n),
            MetaValue::Micros(n) => MetaView::Micros(*n),
            MetaValue::Text(s) => MetaView::Text(s@),
            MetaValue::List(v) => MetaView::List(texts(v@)),
            MetaValue::Spans(v) => MetaView::Spans(spans(v@)),
        }
    }
}

impl Clone for MetaValue {
    fn clone(&self) -> (r: MetaValue)
        ensures
            r@ == self@,
    {
        match self {
            MetaValue::Null => MetaValue::Null,
            MetaValue::Bool(b) => MetaValue::Bool(*b),
            MetaValue::Int(n) => MetaValue::Int(*n),
            MetaValue::Micros(n) => MetaValue::Micros(*n),
            MetaValue::Text(s) => MetaValue::Text(s.clone()),
            MetaValue::List(v) => MetaValue::List(copy_strings(v)),
            MetaValue::Spans(v) => MetaValue::Spans(copy_spans(v)),
        }
    }
}

/// Free-form entries of a memory, by key.
#[derive(Debug)]
pub struct Metadata {
    entries: Assoc<MetaValue>,
}

impl View for Metadata {
    type V = Map<Seq<char>, MetaView>;

    closed spec fn view(&self) -> Map<Seq<char>, MetaView> {
        Map::new(
            |k: Seq<char>| lookup(self.entries@, k) is Some,
            |k: Seq<char>| lookup(self.entries@, k)->0@,
        )
    }
}

impl Metadata {
    /// No entries.
    pub fn new() -> (r: Metadata)
        ensures
            r@ == Map::<Seq<char>, MetaView>::empty(),
    {
        let r = Metadata { entries: Assoc::new() };
        assert(r@ =~= Map::<Seq<char>, MetaView>::empty());
        r
    }

    /// The value under `key`.
    pub fn get(&self, key: &str) -> (r: Option<&MetaValue>)
        ensures
            match r {
                Some(v) => self@.contains_key(key@) && v@ == self@[key@],
                None => !self@.contains_key(key@),
            },
    {
        self.entries.get(key)
    }

    /// Puts `value` under `key`, in the place of what stood there.
    pub fn insert(&mut self, key: &str, value: MetaValue)
        ensures
            final(self)@ == old(self)@.insert(key@, value@),
    {
        let ghost was = self@;
        let ghost before = self.entries@;
        self.entries.insert(key, value);
        proof {
            lookup_after_put(before, key@, value, key@);
            assert forall|k: Seq<char>| k != key@ implies lookup(self.entries@, k) == lookup(
                before,
                k,
            ) by {
                lookup_after_put(before, key@, value, k);
            }
        }
        assert(self@ =~= was.insert(key@, value@));
    }

    /// The keys, in the order in which they came.
    pub closed spec fn keys(&self) -> Seq<Seq<char>> {
        self.entries@.map_values(|e: (Seq<char>, MetaValue)| e.0)
    }

    /// The number of keys.
    pub fn len(&self) -> (n: usize)
        ensures
            n == self.keys().len(),
            n == self@.dom().len(),
            self.keys().no_duplicates(),
            self.keys().to_set() == self@.dom(),
    {
        let n: usize = self.entries.len();
        proof {
            self.lemma_keys();
        }
        n
    }

    proof fn lemma_keys(&self)
        requires
            distinct(self.entries@),
        ensures
            self.keys().no_duplicates(),
            self.keys().to_set() == self@.dom(),
            self.keys().len() == self@.dom().len(),
    {
        let s = self.entries@;
        let ks = self.keys();
        assert forall|i: int, j: int|
            0 <= i < ks.len() && 0 <= j < ks.len() && i != j implies ks[i] != ks[j] by {
            if i < j {
                assert(s[i].0 != s[j].0);
            } else {
                assert(s[j].0 != s[i].0);
            }
        }
        assert forall|k: Seq<char>| ks.to_set().contains(k) <==> self@.dom().contains(k) by {
            if ks.contains(k) {
                let i = ks.index_of(k);
                lookup_listed(s, i);
                assert(s[i].0 == k);
            }
            if lookup(s, k) is Some {
                let i = first_with(s, k);
                lemma_first_with(s, k);
                if i == s.len() {
                    lemma_lookup_none(s, k);
                }
                assert(ks[i] == k);
            }
        }
        assert(ks.to_set() =~= self@.dom());
        ks.unique_seq_to_set();
    }

    /// The `i`-th key; there is one for each position below the number of keys.
    pub fn key_at(&self, i: usize) -> (r: Option<&str>)
        ensures
            match r {
                Some(k) => i < self@.dom().len() && k@ == self.keys()[i as int] && self@.contains_key(k@),
                None => i >= self@.dom().len(),
            },
            self.keys().len() == self@.dom().len(),
            self.keys().no_duplicates(),
            self.keys().to_set() == self@.dom(),
    {
        let n: usize = self.entries.len();
        proof {
            self.lemma_keys();
        }
        if i < n {
            proof {
                lookup_listed(self.entries@, i as int);
            }
            Some(self.entries.key_at(i))
        } else {
            None
        }
    }

    /// The text under `key`.
    pub fn text(&self, key: &str) -> (r: Option<String>)
        ensures
            opt_text(r) == text_at(self@, key@),
    {
        match self.get(key) {
            Some(MetaValue::Text(s)) => Some(s.clone()),
            _ => None,
        }
    }

    /// The texts of the list under `key`; none where there is no list.
    pub fn list(&self, key: &str) -> (r: Vec<String>)
        ensures
            texts(r@) == list_at(self@, key@),
    {
        match self.get(key) {
            Some(MetaValue::List(v)) => copy_strings(v),
            _ => {
                let r: Vec<String> = Vec::new();
                assert(texts(r@) =~= Seq::<Seq<char>>::empty());
                r
            },
        }
    }

    /// Whether `true` stands under `key`.
    pub fn flag(&self, key: &str) -> (r: bool)
        ensures
            r == flag_at(self@, key@),
    {
        match self.get(key) {
            Some(MetaValue::Bool(b)) => *b,
            _ => false,
        }
    }

    /// The number under `key`, in millionths.
    pub fn micros(&self, key: &str) -> (r: Option<i128>)
        ensures
            r == micros_at(self@, key@),
    {
        match self.get(key) {
            Some(MetaValue::Int(n)) => Some(*n as i128 * 1_000_000),
            Some(MetaValue::Micros(n)) => Some(*n as i128),
            _ => None,
        }
    }

    /// The whole number from zero up under `key`.
    pub fn count(&self, key: &str) -> (r: Option<u64>)
        ensures
            r == count_at(self@, key@),
    {
        match self.get(key) {
            Some(MetaValue::Int(n)) => {
                if *n >= 0 {
                    Some(*n as u64)
                } else {
                    None
                }
            },
            _ => None,
        }
    }
}

impl Metadata {
    /// Puts the entries of `patch` in; they take the place of what stood under their keys.
    pub fn merge(&mut self, patch: &Metadata)
        ensures
            final(self)@ == old(self)@.union_prefer_right(patch@),
    {
        let ghost was = self@;
        let ghost all = patch.entries@;
        let mut i: usize = patch.entries.len();
        proof {
            assert(all.skip(i as int) =~= Seq::empty());
            assert(self@ =~= was.union_prefer_right(entry_map(all.skip(i as int))));
        }
        while i > 0
            invariant
                i <= all.len(),
                all == patch.entries@,
                self@ == was.union_prefer_right(entry_map(all.skip(i as int))),
            decreases i,
        {
            let ghost prev = self@;
            let ghost rest = all.skip(i as int);
            i -= 1;
            let v = patch.entries.value_at(i).clone();
            let ghost vv = v@;
            self.insert(patch.entries.key_at(i), v);
            proof {
                let here = all.skip(i as int);
                assert(here[0] == all[i as int]);
                assert(here.skip(1) =~= rest);
                assert(entry_map(here) =~= entry_map(rest).insert(all[i as int].0, vv));
                assert(self@ =~= was.union_prefer_right(entry_map(here)));
            }
        }
        proof {
            assert(all.skip(0) =~= all);
            assert(entry_map(all) =~= patch@);
        }
    }

    /// Puts `value` under `key` where nothing stands there.
    pub fn insert_if_absent(&mut self, key: &str, value: MetaValue)
        ensures
            final(self)@ == (if old(self)@.contains_key(key@) {
                old(self)@
            } else {
                old(self)@.insert(key@, value@)
            }),
    {
        if self.get(key).is_none() {
            self.insert(key, value);
        }
    }
}

/// What the entries of a list hold, by key.
spec fn entry_map(s: Seq<(Seq<char>, MetaValue)>) -> Map<Seq<char>, MetaView> {
    Map::new(|k: Seq<char>| lookup(s, k) is Some, |k: Seq<char>| lookup(s, k)->0@)
}

impl Clone for Metadata {
    fn clone(&self) -> (r: Metadata)
        ensures
            r@ == self@,
    {
        let mut out: Metadata = Metadata { entries: Assoc::new() };
        let mut i: usize = 0;
        let n: usize = self.entries.len();
        let ghost all = self.entries@;
        while i < n
            invariant
                i <= n,
                n == all.len(),
                all == self.entries@,
                distinct(all),
                out.entries@.len() == i,
                forall|j: int| 0 <= j < i ==> (#[trigger] out.entries@[j]).0 == all[j].0
                    && out.entries@[j].1@ == all[j].1@,
            decreases n - i,
        {
            let v = self.entries.value_at(i).clone();
            proof {
                assert forall|k: int| 0 <= k < out.entries@.len() implies (#[trigger] out.entries@[k]).0
                    != all[i as int].0 by {
                    assert(all[k].0 != all[i as int].0);
                }
                lemma_lookup_none(out.entries@, all[i as int].0);
            }
            out.entries.push(self.entries.key_at(i), v);
            i += 1;
        }
        proof {
            assert forall|k: Seq<char>|
                (lookup(out.entries@, k) is Some) == (lookup(all, k) is Some) && (lookup(
                    all,
                    k,
                ) is Some ==> lookup(out.entries@, k)->0@ == lookup(all, k)->0@) by {
                lemma_lookup_copy(out.entries@, all, k);
            }
        }
        assert(out@ =~= self@);
        out
    }
}

proof fn lemma_lookup_copy(a: Seq<(Seq<char>, MetaValue)>, b: Seq<(Seq<char>, MetaValue)>, key: Seq<char>)
    requires
        a.len() == b.len(),
        forall|j: int| 0 <= j < a.len() ==> (#[trigger] a[j]).0 == b[j].0 && a[j].1@ == b[j].1@,
    ensures
        (lookup(a, key) is Some) == (lookup(b, key) is Some),
        lookup(b, key) is Some ==> lookup(a, key)->0@ == lookup(b, key)->0@,
    decreases a.len(),
{
    if a.len() > 0 {
        assert(a[0].0 == b[0].0);
        assert forall|j: int| 0 <= j < a.len() - 1 implies (#[trigger] a.skip(1)[j]).0 == b.skip(
            1,
        )[j].0 && a.skip(1)[j].1@ == b.skip(1)[j].1@ by {
            assert(a.skip(1)[j] == a[j + 1]);
        }
        lemma_lookup_copy(a.skip(1), b.skip(1), key);
    }
}

/// A time whose microseconds fit the metadata.
pub open spec fn is_storable_time(millis: i64) -> bool {
    i64::MIN <= millis * 1000 <= i64::MAX
}

/// A time as metadata keep it: in seconds, to the millionth.
pub open spec fn seconds_view(millis: i64) -> MetaView {
    MetaView::Micros((millis * 1000) as i64)
}

/// A time as metadata keep it.
pub fn seconds_value(millis: i64) -> (r: MetaValue)
    requires
        is_storable_time(millis),
    ensures
        r@ == seconds_view(millis),
{
    MetaValue::Micros(millis * 1000)
}

/// The text under `key`, if a text stands there.
pub open spec fn text_at(m: Map<Seq<char>, MetaView>, key: Seq<char>) -> Option<Seq<char>> {
    if m.contains_key(key) {
        match m[key] {
            MetaView::Text(s) => Some(s),
            _ => None,
        }
    } else {
        None
    }
}

/// The texts of the list under `key`.
pub open spec fn list_at(m: Map<Seq<char>, MetaView>, key: Seq<char>) -> Seq<Seq<char>> {
    if m.contains_key(key) {
        match m[key] {
            MetaView::List(v) => v,
            _ => Seq::<Seq<char>>::empty(),
        }
    } else {
        Seq::<Seq<char>>::empty()
    }
}

/// Whether `true` stands under `key`.
pub open spec fn flag_at(m: Map<Seq<char>, MetaView>, key: Seq<char>) -> bool {
    m.contains_key(key) && m[key] == MetaView::Bool(true)
}

/// The number under `key`, in millionths.
pub open spec fn micros_at(m: Map<Seq<char>, MetaView>, key: Seq<char>) -> Option<i128> {
    if m.contains_key(key) {
        match m[key] {
            MetaView::Int(n) => Some((n * 1_000_000) as i128),
            MetaView::Micros(n) => Some(n as i128),
            _ => None,
        }
    } else {
        None
    }
}

/// The whole number from zero up under `key`.
pub open spec fn count_at(m: Map<Seq<char>, MetaView>, key: Seq<char>) -> Option<u64> {
    if m.contains_key(key) {
        match m[key] {
            MetaView::Int(n) => if n >= 0 {
                Some(n as u64)
            } else {
                None
            },
            _ => None,
        }
    } else {
        None
    }
}

// ---------------------------------------------------------------------------
// Open hooks
// ---------------------------------------------------------------------------

/// Something that a memory leaves unfinished: a promise, a plan, a question.
#[derive(Debug)]
pub struct OpenHook {
    /// `promise`, `follow_up`, `schedule` or `question`.
    pub hook_type: String,
    /// When the hook counts as closed, in words.
    pub condition: String,
    pub created_at: i64,
    /// When it was closed; `None` while it is open.
    pub closed_at: Option<i64>,
    /// The memory that closed it.
    pub closed_by: Option<String>,
}

/// What a hook is.
pub struct HookView {
    pub hook_type: Seq<char>,
    pub condition: Seq<char>,
    pub created_at: i64,
    pub closed_at: Option<i64>,
    pub closed_by: Option<Seq<char>>,
}

impl View for OpenHook {
    type V = HookView;

    open spec fn view(&self) -> HookView {
        HookView {
            hook_type: self.hook_type@,
            condition: self.condition@,
            created_at: self.created_at,
            closed_at: self.closed_at,
            closed_by: opt_text(self.closed_by),
        }
    }
}

impl Clone for OpenHook {
    fn clone(&self) -> (r: OpenHook)
        ensures
            r@ == self@,
    {
        OpenHook {
            hook_type: self.hook_type.clone(),
            condition: self.condition.clone(),
            created_at: self.created_at,
            closed_at: self.closed_at,
            closed_by: copy_option(&self.closed_by),
        }
    }
}

impl OpenHook {
    /// An open hook that was made at `now`.
    pub fn new(hook_type: &str, condition: &str, now: i64) -> (r: OpenHook)
        ensures
            r@ == (HookView {
                hook_type: hook_type@,
                condition: condition@,
                created_at: now,
                closed_at: None,
                closed_by: None,
            }),
    {
        OpenHook {
            hook_type: hook_type.to_owned(),
            condition: condition.to_owned(),
            created_at: now,
            closed_at: None,
            closed_by: None,
        }
    }

    pub fn is_open(&self) -> (r: bool)
        ensures
            r == (self@.closed_at is None),
    {
        self.closed_at.is_none()
    }

    /// Closes the hook at `now`.
    pub fn close(&mut self, closed_by: Option<String>, now: i64)
        ensures
            final(self)@ == (HookView {
                closed_at: Some(now),
                closed_by: opt_text(closed_by),
                ..old(self)@
            }),
    {
        self.closed_at = Some(now);
        self.closed_by = closed_by;
    }
}

/// Copies of the hooks.
pub fn copy_hooks(v: &Vec<OpenHook>) -> (out: Vec<OpenHook>)
    ensures
        hook_views(out@) == hook_views(v@),
{
    let mut out: Vec<OpenHook> = Vec::new();
    let mut i: usize = 0;
    while i < v.len()
        invariant
            i <= v@.len(),
            out@.len() == i,
            forall|j: int| 0 <= j < i ==> (#[trigger] out@[j])@ == v@[j]@,
        decreases v@.len() - i,
    {
        out.push(v[i].clone());
        i += 1;
    }
    assert(hook_views(out@) =~= hook_views(v@));
    out
}

/// What the hooks of a list are.
pub open spec fn hook_views(v: Seq<OpenHook>) -> Seq<HookView> {
    v.map_values(|h: OpenHook| h@)
}

// ---------------------------------------------------------------------------
// Memory items
// ---------------------------------------------------------------------------

/// One memory.
#[derive(Debug)]
pub struct MemoryItem {
    pub id: String,
    pub content: String,
    /// Name of the granularity.
    pub granularity: String,
    /// Name of the memory type.
    pub memory_type: String,
    pub importance: i64,
    /// When the memory was made.
    pub timestamp: i64,
    /// The bits of the components of the embedding.
    pub embedding: Option<Vec<u64>>,
    pub tags: Vec<String>,
    pub metadata: Metadata,
    pub related_ids: Vec<String>,
    pub description: Option<String>,
    /// How often a search has found it.
    pub visit_count: u32,
    pub last_visit_at: i64,
    pub heat_score: i64,
    pub open_hooks: Vec<OpenHook>,
    /// Evidence for it.
    pub reinforcement: i64,
    /// Evidence against it.
    pub disputation: i64,
    pub rein_last_signal_at: i64,
    pub disp_last_signal_at: i64,
    /// Days on which the evidence stood against it.
    pub sub_zero_days: u32,
    pub sub_zero_last_increment_date: String,
    pub user_fact_reinforce_count: u32,
    /// Never expires.
    pub protected: bool,
    pub episode_id: Option<String>,
    pub rebuttal_grace_remaining: u32,
    /// Archived: kept, but no longer found.
    pub consolidated: bool,
}

/// What a memory is.
pub struct ItemView {
    pub id: Seq<char>,
    pub content: Seq<char>,
    pub granularity: Seq<char>,
    pub memory_type: Seq<char>,
    pub importance: i64,
    pub timestamp: i64,
    pub embedding: Option<Seq<u64>>,
    pub tags: Seq<Seq<char>>,
    pub metadata: Map<Seq<char>, MetaView>,
    pub related_ids: Seq<Seq<char>>,
    pub description: Option<Seq<char>>,
    pub visit_count: u32,
    pub last_visit_at: i64,
    pub heat_score: i64,
    pub open_hooks: Seq<HookView>,
    pub reinforcement: i64,
    pub disputation: i64,
    pub rein_last_signal_at: i64,
    pub disp_last_signal_at: i64,
    pub sub_zero_days: u32,
    pub sub_zero_last_increment_date: Seq<char>,
    pub user_fact_reinforce_count: u32,
    pub protected: bool,
    pub episode_id: Option<Seq<char>>,
    pub rebuttal_grace_remaining: u32,
    pub consolidated: bool,
}

/// The components of an optional embedding.
pub open spec fn opt_bits(o: Option<Vec<u64>>) -> Option<Seq<u64>> {
    match o {
        Some(v) => Some(v@),
        None => None,
    }
}

impl View for MemoryItem {
    type V = ItemView;

    open spec fn view(&self) -> ItemView {
        ItemView {
            id: self.id@,
            content: self.content@,
            granularity: self.granularity@,
            memory_type: self.memory_type@,
            importance: self.importance,
            timestamp: self.timestamp,
            embedding: opt_bits(self.embedding),
            tags: texts(self.tags@),
            metadata: self.metadata@,
            related_ids: texts(self.related_ids@),
            description: opt_text(self.description),
            visit_count: self.visit_count,
            last_visit_at: self.last_visit_at,
            heat_score: self.heat_score,
            open_hooks: hook_views(self.open_hooks@),
            reinforcement: self.reinforcement,
            disputation: self.disputation,
            rein_last_signal_at: self.rein_last_signal_at,
            disp_last_signal_at: self.disp_last_signal_at,
            sub_zero_days: self.sub_zero_days,
            sub_zero_last_increment_date: self.sub_zero_last_increment_date@,
            user_fact_reinforce_count: self.user_fact_reinforce_count,
            protected: self.protected,
            episode_id: opt_text(self.episode_id),
            rebuttal_grace_remaining: self.rebuttal_grace_remaining,
            consolidated: self.consolidated,
        }
    }
}

/// What the memories of a list are.
pub open spec fn item_views(v: Seq<MemoryItem>) -> Seq<ItemView> {
    v.map_values(|m: MemoryItem| m@)
}

fn copy_bits(o: &Option<Vec<u64>>) -> (r: Option<Vec<u64>>)
    ensures
        opt_bits(r) == opt_bits(*o),
{
    match o {
        Some(v) => {
            let mut out: Vec<u64> = Vec::new();
            let mut i: usize = 0;
            while i < v.len()
                invariant
                    i <= v@.len(),
                    out@ == v@.take(i as int),
                decreases v@.len() - i,
            {
                out.push(v[i]);
                i += 1;
                assert(v@.take(i as int) =~= v@.take(i - 1).push(v@[i - 1]));
            }
            assert(v@.take(i as int) =~= v@);
            Some(out)
        },
        None => None,
    }
}

impl Clone for MemoryItem {
    fn clone(&self) -> (r: MemoryItem)
        ensures
            r@ == self@,
    {
        MemoryItem {
            id: self.id.clone(),
            content: self.content.clone(),
            granularity: self.granularity.clone(),
            memory_type: self.memory_type.clone(),
            importance: self.importance,
            timestamp: self.timestamp,
            embedding: copy_bits(&self.embedding),
            tags: copy_strings(&self.tags),
            metadata: self.metadata.clone(),
            related_ids: copy_strings(&self.related_ids),
            description: copy_option(&self.description),
            visit_count: self.visit_count,
            last_visit_at: self.last_visit_at,
            heat_score: self.heat_score,
            open_hooks: copy_hooks(&self.open_hooks),
            reinforcement: self.reinforcement,
            disputation: self.disputation,
            rein_last_signal_at: self.rein_last_signal_at,
            disp_last_signal_at: self.disp_last_signal_at,
            sub_zero_days: self.sub_zero_days,
            sub_zero_last_increment_date: self.sub_zero_last_increment_date.clone(),
            user_fact_reinforce_count: self.user_fact_reinforce_count,
            protected: self.protected,
            episode_id: copy_option(&self.episode_id),
            rebuttal_grace_remaining: self.rebuttal_grace_remaining,
            consolidated: self.consolidated,
        }
    }
}

/// A new memory with that identifier, made at `now`.
pub open spec fn fresh_item(
    id: Seq<char>,
    content: Seq<char>,
    granularity: Granularity,
    importance: i64,
    now: i64,
) -> ItemView {
    ItemView {
        id,
        content,
        granularity: granularity.name(),
        memory_type: Seq::empty(),
        importance,
        timestamp: now,
        embedding: None,
        tags: Seq::empty(),
        metadata: Map::empty(),
        related_ids: Seq::empty(),
        description: None,
        visit_count: 0,
        last_visit_at: 0,
        heat_score: 0,
        open_hooks: Seq::empty(),
        reinforcement: 0,
        disputation: 0,
        rein_last_signal_at: 0,
        disp_last_signal_at: 0,
        sub_zero_days: 0,
        sub_zero_last_increment_date: Seq::empty(),
        user_fact_reinforce_count: 0,
        protected: false,
        episode_id: None,
        rebuttal_grace_remaining: 0,
        consolidated: false,
    }
}

/// The identifier made of a random text: its first twelve characters.
pub open spec fn item_id(random: Seq<char>) -> Seq<char> {
    "mem_"@ + first_chars(random, 12)
}

/// The layer that a granularity name stands for.
pub open spec fn layer_of(granularity: Seq<char>) -> Seq<char> {
    if granularity == "turn"@ {
        "raw"@
    } else if granularity == "session"@ {
        "episodic"@
    } else {
        "semantic"@
    }
}

/// Whether the query stands in the content or in a tag, whatever the case.
pub open spec fn mentions(m: ItemView, query: Seq<char>) -> bool {
    has_sub(lowercase(m.content), lowercase(query)) || exists|k: int|
        0 <= k < m.tags.len() && has_sub(lowercase(#[trigger] m.tags[k]), lowercase(query))
}

/// In how many of the texts the query stands, whatever the case.
pub open spec fn count_mentions(tags: Seq<Seq<char>>, query: Seq<char>) -> nat
    decreases tags.len(),
{
    if tags.len() == 0 {
        0
    } else {
        count_mentions(tags.drop_last(), query) + (if has_sub(lowercase(tags.last()), lowercase(query)) {
            1nat
        } else {
            0nat
        })
    }
}

/// How well a memory fits a query, in units of one part in ten to the eighteenth: its
/// importance, one where the content holds the query, a half for each tag that does; seven
/// tenths of that count whatever the age, three tenths as far as the memory is recent.
pub open spec fn fit_of(m: ItemView, query: Seq<char>, recency: i64) -> int {
    let base = m.importance + (if has_sub(lowercase(m.content), lowercase(query)) {
        1_000_000int
    } else {
        0int
    }) + count_mentions(m.tags, query) * 500_000;
    base * (700_000_000_000 + 300_000 * recency)
}

/// The semantic type that a memory's metadata name; `General` where they name none.
pub open spec fn semantic(m: ItemView) -> SemanticType {
    match text_at(m.metadata, "semantic_type"@) {
        Some(s) => match semantic_named(s) {
            Some(t) => t,
            None => SemanticType::General,
        },
        None => SemanticType::General,
    }
}

/// `uuid::Uuid::new_v4` written with hyphens: 36 characters. Which, is left to chance.
#[verifier::external_body]
pub(crate) fn random_uuid() -> (r: String)
    ensures
        r@.len() == 36,
{
    uuid::Uuid::new_v4().to_string()
}

/// `std::time::SystemTime::now`: milliseconds since the Unix epoch, zero for a
/// clock before it. Nothing is promised of the value.
#[verifier::external_body]
pub fn current_timestamp() -> (r: i64)
{
    std::time::SystemTime::now().duration_since(std::time::UNIX_EPOCH).map(|d| d.as_millis() as i64).unwrap_or(0)
}

impl MemoryItem {
    /// A new memory with a random identifier, made now.
    pub fn new(content: String, granularity: Granularity, importance: i64) -> (r: MemoryItem)
        ensures
            exists|u: Seq<char>|
                u.len() == 36 && r@ == fresh_item(
                    #[trigger] item_id(u),
                    content@,
                    granularity,
                    importance,
                    r.timestamp,
                ),
    {
        let u = random_uuid();
        let now: i64 = current_timestamp();
        let r = Self::with_id(u.as_str(), content, granularity, importance, now);
        assert(item_id(u@).len() >= 0);
        r
    }

    /// A new memory whose identifier is made of `random`, made at `now`.
    pub fn with_id(
        random: &str,
        content: String,
        granularity: Granularity,
        importance: i64,
        now: i64,
    ) -> (r: MemoryItem)
        ensures
            r@ == fresh_item(item_id(random@), content@, granularity, importance, now),
    {
        let mut id: String = "mem_".to_owned();
        let head = head_of(random, 12);
        id.append(head.as_str());
        let r = MemoryItem {
            id,
            content,
            granularity: granularity.as_str().to_owned(),
            memory_type: String::new(),
            importance,
            timestamp: now,
            embedding: None,
            tags: Vec::new(),
            metadata: Metadata::new(),
            related_ids: Vec::new(),
            description: None,
            visit_count: 0,
            last_visit_at: 0,
            heat_score: 0,
            open_hooks: Vec::new(),
            reinforcement: 0,
            disputation: 0,
            rein_last_signal_at: 0,
            disp_last_signal_at: 0,
            sub_zero_days: 0,
            sub_zero_last_increment_date: String::new(),
            user_fact_reinforce_count: 0,
            protected: false,
            episode_id: None,
            rebuttal_grace_remaining: 0,
            consolidated: false,
        };
        assert(r@.tags =~= Seq::<Seq<char>>::empty());
        assert(r@.related_ids =~= Seq::<Seq<char>>::empty());
        assert(r@.open_hooks =~= Seq::<HookView>::empty());
        r
    }

    /// How well the memory fits a query, in the units of `fit_of`: `recency` is one for a new
    /// memory and falls with its age, in millionths.
    pub fn match_score(&self, query: &str, recency: i64) -> (r: i128)
        requires
            0 <= recency <= ONE,
        ensures
            r == fit_of(self@, query@, recency),
    {
        let q = lower(query);
        let mut score: i128 = self.importance as i128;
        let content = lower(self.content.as_str());
        if contains(content.as_str(), q.as_str()) {
            score = score + 1_000_000;
        }
        let ghost base = score as int;
        let ghost all = self@.tags;
        assert(all == texts(self.tags@));
        let mut hits: usize = 0;
        let mut i: usize = 0;
        assert(all.take(0) =~= Seq::empty());
        while i < self.tags.len()
            invariant
                i <= self.tags@.len(),
                hits <= i,
                all == texts(self.tags@),
                q@ == lowercase(query@),
                hits == count_mentions(all.take(i as int), query@),
            decreases self.tags@.len() - i,
        {
            proof {
                assert(all.take(i + 1).drop_last() =~= all.take(i as int));
                assert(all.take(i + 1).last() == self.tags@[i as int]@);
            }
            let t = lower(self.tags[i].as_str());
            if contains(t.as_str(), q.as_str()) {
                hits += 1;
            }
            i += 1;
        }
        assert(all.take(i as int) =~= all);
        score = score + hits as i128 * 500_000;
        let weight: i128 = 700_000_000_000 + 300_000 * recency as i128;
        proof {
            let s = score as int;
            let w = weight as int;
            assert(-0x8000_0000_0000_0000 <= s <= 0x1_0000_0000_0000_0000 * 500_001);
            assert(-0x8000_0000_0000_0000 * 1_000_000_000_000 <= s * w <= 0x1_0000_0000_0000_0000
                * 500_001 * 1_000_000_000_000) by (nonlinear_arith)
                requires
                    -0x8000_0000_0000_0000 <= s <= 0x1_0000_0000_0000_0000 * 500_001,
                    0 < w <= 1_000_000_000_000,
            ;
        }
        score * weight
    }

    /// Whether the query stands in the content or in a tag, whatever the case.
    pub fn matches_query(&self, query: &str) -> (r: bool)
        ensures
            r == mentions(self@, query@),
    {
        let q = lower(query);
        let c = lower(self.content.as_str());
        if contains(c.as_str(), q.as_str()) {
            return true;
        }
        let mut i: usize = 0;
        while i < self.tags.len()
            invariant
                i <= self.tags@.len(),
                q@ == lowercase(query@),
                forall|k: int| 0 <= k < i ==> !has_sub(lowercase(#[trigger] self@.tags[k]), q@),
            decreases self.tags@.len() - i,
        {
            assert(self@.tags[i as int] == self.tags@[i as int]@);
            let t = lower(self.tags[i].as_str());
            if contains(t.as_str(), q.as_str()) {
                return true;
            }
            i += 1;
        }
        false
    }

    /// The semantic type that the metadata names.
    pub fn semantic_type(&self) -> (r: SemanticType)
        ensures
            r == semantic(self@),
    {
        match self.metadata.text("semantic_type") {
            Some(s) => match SemanticType::from_str(s.as_str()) {
                Some(t) => t,
                None => SemanticType::General,
            },
            None => SemanticType::General,
        }
    }

    pub fn keywords(&self) -> (r: Vec<String>)
        ensures
            texts(r@) == list_at(self@.metadata, "keywords"@),
    {
        self.metadata.list("keywords")
    }

    /// Whom the memory is about.
    pub fn subject_scopes(&self) -> (r: Vec<String>)
        ensures
            texts(r@) == list_at(self@.metadata, "subject_scopes"@),
    {
        self.metadata.list("subject_scopes")
    }

    pub fn categories(&self) -> (r: Vec<String>)
        ensures
            texts(r@) == list_at(self@.metadata, "categories"@),
    {
        self.metadata.list("categories")
    }

    /// The part of the day in which the memory was made.
    pub fn time_of_day(&self) -> (r: Option<String>)
        ensures
            opt_text(r) == text_at(self@.metadata, "time_of_day"@),
    {
        self.metadata.text("time_of_day")
    }

    pub fn mood_tags(&self) -> (r: Vec<String>)
        ensures
            texts(r@) == list_at(self@.metadata, "mood_tags"@),
    {
        self.metadata.list("mood_tags")
    }

    /// The day on which the memory was made.
    pub fn date_label(&self) -> (r: Option<String>)
        ensures
            opt_text(r) == text_at(self@.metadata, "date_label"@),
    {
        self.metadata.text("date_label")
    }

    /// The number of the message in the conversation.
    pub fn seq_no(&self) -> (r: Option<u64>)
        ensures
            r == count_at(self@.metadata, "seq_no"@),
    {
        self.metadata.count("seq_no")
    }

    /// `raw`, `episodic` or `semantic`.
    pub fn source_layer(&self) -> (r: &'static str)
        ensures
            r@ == layer_of(self@.granularity),
    {
        if same(self.granularity.as_str(), "turn") {
            "raw"
        } else if same(self.granularity.as_str(), "session") {
            "episodic"
        } else {
            "semantic"
        }
    }

    /// The episode that the memory belongs to.
    pub fn episode_id(&self) -> (r: Option<&str>)
        ensures
            match r {
                Some(s) => self@.episode_id == Some(s@),
                None => self@.episode_id is None,
            },
    {
        match &self.episode_id {
            Some(s) => Some(s.as_str()),
            None => None,
        }
    }
}

/// What a memory store keeps on disk.
#[derive(Debug)]
pub struct MemoryStoreData {
    pub version: u32,
    pub entries: Vec<MemoryItem>,
}

impl Default for MemoryStoreData {
    fn default() -> (r: MemoryStoreData)
        ensures
            r.version == 4,
            r.entries@.len() == 0,
    {
        MemoryStoreData { version: 4, entries: Vec::new() }
    }
}

/// Copies of the memories.
pub fn copy_items(v: &[MemoryItem]) -> (out: Vec<MemoryItem>)
    ensures
        item_views(out@) == item_views(v@),
{
    let mut out: Vec<MemoryItem> = Vec::new();
    let mut i: usize = 0;
    while i < v.len()
        invariant
            i <= v@.len(),
            out@.len() == i,
            forall|j: int| 0 <= j < i ==> (#[trigger] out@[j])@ == v@[j]@,
        decreases v@.len() - i,
    {
        out.push(v[i].clone());
        i += 1;
    }
    assert(item_views(out@) =~= item_views(v@));
    out
}

} // verus!
