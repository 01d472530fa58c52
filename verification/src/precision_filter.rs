//! Filtering by the conditions of a request, weakened step by step until enough
//! memories pass.

use crate::assoc::{lookup, Assoc};
use crate::rank::{rank_items, ranked};
use crate::relaxation::{stage_flags, winning, RelaxationLadder, STAGES};
use crate::select::{count_set, kept, kept_is_filter, kept_map, take_flagged};
use crate::text::{contains, has_sub, list_has, lower, lowercase, same, texts};
use crate::types::{copy_items, item_views, layer_of, list_at, text_at, ItemView, MemoryItem};
use vstd::prelude::*;

verus! {

/// How many memories a stage must let through unless the request says otherwise.
pub const RELAXATION_MIN_RESULTS_DEFAULT: usize = 3;

/// Whose conversations count.
#[derive(Debug)]
pub enum EntityScope {
    /// Those with the user.
    WithUser,
    /// Those in which the character takes part.
    WithAgent(String),
    /// All.
    All,
}

/// What a scope is.
pub enum ScopeView {
    WithUser,
    WithAgent(Seq<char>),
    All,
}

impl View for EntityScope {
    type V = ScopeView;

    open spec fn view(&self) -> ScopeView {
        match self {
            EntityScope::WithUser => ScopeView::WithUser,
            EntityScope::WithAgent(s) => ScopeView::WithAgent(s@),
            EntityScope::All => ScopeView::All,
        }
    }
}

/// The conditions of a request. An empty list or `None` is no condition.
#[derive(Debug)]
pub struct PrecisionFilterCriteria {
    /// One of them stands in the keywords, the content or a tag.
    pub keywords: Vec<String>,
    /// One of them is a subject of the memory.
    pub subject_scopes: Vec<String>,
    /// One of them is a category or a tag.
    pub categories: Vec<String>,
    /// Smallest importance.
    pub importance_min: Option<i64>,
    /// Stands in the part of the day, the date or the content.
    pub time_hint: Option<String>,
    /// The layer of the memory is one of them.
    pub source_layers: Vec<String>,
    /// Whose conversations count.
    pub entity_scope: Option<EntityScope>,
    /// What attention is on, with weights in millionths; it changes the ranking only.
    pub attention_weights: Option<Assoc<i64>>,
}

impl Default for PrecisionFilterCriteria {
    fn default() -> (r: PrecisionFilterCriteria)
        ensures
            no_conditions(r),
    {
        PrecisionFilterCriteria {
            keywords: Vec::new(),
            subject_scopes: Vec::new(),
            categories: Vec::new(),
            importance_min: None,
            time_hint: None,
            source_layers: Vec::new(),
            entity_scope: None,
            attention_weights: None,
        }
    }
}

/// There is no condition.
pub open spec fn no_conditions(c: PrecisionFilterCriteria) -> bool {
    c.keywords@.len() == 0 && c.subject_scopes@.len() == 0 && c.categories@.len() == 0
        && c.importance_min is None && c.time_hint is None && c.source_layers@.len() == 0
        && match c.entity_scope {
        Some(s) => s@ == ScopeView::All,
        None => true,
    }
}

impl PrecisionFilterCriteria {
    /// Whether there is no condition.
    pub fn is_empty(&self) -> (r: bool)
        ensures
            r == no_conditions(*self),
    {
        self.keywords.len() == 0 && self.subject_scopes.len() == 0 && self.categories.len() == 0
            && self.importance_min.is_none() && self.time_hint.is_none()
            && self.source_layers.len() == 0 && match &self.entity_scope {
            Some(EntityScope::All) => true,
            Some(_) => false,
            None => true,
        }
    }
}

// ---------------------------------------------------------------------------
// The conditions
// ---------------------------------------------------------------------------

/// The text under a key; empty where there is none.
pub open spec fn text_or_empty(m: ItemView, key: Seq<char>) -> Seq<char> {
    match text_at(m.metadata, key) {
        Some(s) => s,
        None => Seq::<char>::empty(),
    }
}

/// Whether the memory is in the scope.
pub open spec fn in_scope(m: ItemView, scope: ScopeView) -> bool {
    match scope {
        ScopeView::All => true,
        ScopeView::WithUser => text_at(m.metadata, "knowledge_source"@) == Some("direct"@),
        ScopeView::WithAgent(id) => text_or_empty(m, "speaker"@) == id || text_or_empty(
            m,
            "listener"@,
        ) == id,
    }
}

/// Whether one of the texts is equal, whatever the case.
pub open spec fn any_equal_lower(list: Seq<Seq<char>>, s: Seq<char>) -> bool {
    exists|i: int| 0 <= i < list.len() && lowercase(#[trigger] list[i]) == lowercase(s)
}

/// Whether one of the texts holds it, whatever the case.
pub open spec fn any_holds_lower(list: Seq<Seq<char>>, s: Seq<char>) -> bool {
    exists|i: int| 0 <= i < list.len() && has_sub(lowercase(#[trigger] list[i]), lowercase(s))
}

/// Whether the keyword is one of the memory's, or stands in its content or a tag.
pub open spec fn has_keyword(m: ItemView, kw: Seq<char>) -> bool {
    any_equal_lower(list_at(m.metadata, "keywords"@), kw) || has_sub(
        lowercase(m.content),
        lowercase(kw),
    ) || any_holds_lower(m.tags, kw)
}

/// Whether the memory has one of the keywords.
pub open spec fn has_a_keyword(m: ItemView, kws: Seq<Seq<char>>) -> bool {
    exists|i: int| 0 <= i < kws.len() && has_keyword(m, #[trigger] kws[i])
}

/// Whether one of the categories is one of the memory's, or a tag.
pub open spec fn has_a_category(m: ItemView, cats: Seq<Seq<char>>) -> bool {
    exists|i: int|
        0 <= i < cats.len() && (any_equal_lower(
            list_at(m.metadata, "categories"@),
            #[trigger] cats[i],
        ) || any_equal_lower(m.tags, cats[i]))
}

/// The subjects of a memory; its tags where it has none.
pub open spec fn subjects_of(m: ItemView) -> Seq<Seq<char>> {
    let s = list_at(m.metadata, "subject_scopes"@);
    if s.len() == 0 {
        m.tags
    } else {
        s
    }
}

/// Whether one of the subjects is one of the memory's.
pub open spec fn has_a_subject(m: ItemView, scopes: Seq<Seq<char>>) -> bool {
    exists|i: int| 0 <= i < scopes.len() && subjects_of(m).contains(#[trigger] scopes[i])
}

/// Whether the text under a key holds it, whatever the case.
pub open spec fn field_holds(m: ItemView, key: Seq<char>, s: Seq<char>) -> bool {
    match text_at(m.metadata, key) {
        Some(t) => has_sub(lowercase(t), lowercase(s)),
        None => false,
    }
}

/// Whether the hint stands in the part of the day, the date or the content.
pub open spec fn fits_time(m: ItemView, hint: Seq<char>) -> bool {
    field_holds(m, "time_of_day"@, hint) || field_holds(m, "date_label"@, hint) || has_sub(
        lowercase(m.content),
        lowercase(hint),
    )
}

/// Whether the memory passes a stage: at first every condition counts, then no
/// longer the importance, then no longer the categories, then no longer the
/// subjects, and at last none.
pub open spec fn allowed(stage: int, m: ItemView, c: PrecisionFilterCriteria) -> bool {
    stage >= 4 || ({
        &&& match c.entity_scope {
            Some(s) => in_scope(m, s@),
            None => true,
        }
        &&& (c.keywords@.len() > 0 ==> has_a_keyword(m, texts(c.keywords@)))
        &&& (c.source_layers@.len() > 0 ==> texts(c.source_layers@).contains(
            layer_of(m.granularity),
        ))
        &&& match c.time_hint {
            Some(h) => fits_time(m, h@),
            None => true,
        }
        &&& (stage <= 0 ==> match c.importance_min {
            Some(min) => m.importance >= min,
            None => true,
        })
        &&& (stage <= 1 && c.categories@.len() > 0 ==> has_a_category(m, texts(c.categories@)))
        &&& (stage <= 2 && c.subject_scopes@.len() > 0 ==> has_a_subject(
            m,
            texts(c.subject_scopes@),
        ))
    })
}

fn matches_entity_scope(m: &MemoryItem, scope: &EntityScope) -> (r: bool)
    ensures
        r == in_scope(m@, scope@),
{
    match scope {
        EntityScope::All => true,
        EntityScope::WithUser => match m.metadata.text("knowledge_source") {
            Some(s) => same(s.as_str(), "direct"),
            None => false,
        },
        EntityScope::WithAgent(id) => {
            let speaker = match m.metadata.text("speaker") {
                Some(s) => s,
                None => String::new(),
            };
            let listener = match m.metadata.text("listener") {
                Some(s) => s,
                None => String::new(),
            };
            same(speaker.as_str(), id.as_str()) || same(listener.as_str(), id.as_str())
        },
    }
}

fn find_equal_lower(list: &Vec<String>, s: &str) -> (r: bool)
    ensures
        r == any_equal_lower(texts(list@), s@),
{
    let l = lower(s);
    let ghost all = texts(list@);
    let mut i: usize = 0;
    while i < list.len()
        invariant
            i <= list@.len(),
            all == texts(list@),
            l@ == lowercase(s@),
            forall|k: int| 0 <= k < i ==> lowercase(#[trigger] all[k]) != lowercase(s@),
        decreases list@.len() - i,
    {
        assert(all[i as int] == list@[i as int]@);
        let t = lower(list[i].as_str());
        if same(t.as_str(), l.as_str()) {
            return true;
        }
        i += 1;
    }
    false
}

fn find_holding_lower(list: &Vec<String>, s: &str) -> (r: bool)
    ensures
        r == any_holds_lower(texts(list@), s@),
{
    let l = lower(s);
    let ghost all = texts(list@);
    let mut i: usize = 0;
    while i < list.len()
        invariant
            i <= list@.len(),
            all == texts(list@),
            l@ == lowercase(s@),
            forall|k: int| 0 <= k < i ==> !has_sub(lowercase(#[trigger] all[k]), lowercase(s@)),
        decreases list@.len() - i,
    {
        assert(all[i as int] == list@[i as int]@);
        let t = lower(list[i].as_str());
        if contains(t.as_str(), l.as_str()) {
            return true;
        }
        i += 1;
    }
    false
}

fn matches_keywords(m: &MemoryItem, keywords: &Vec<String>) -> (r: bool)
    ensures
        r == has_a_keyword(m@, texts(keywords@)),
{
    let mine = m.keywords();
    let content = lower(m.content.as_str());
    let ghost all = texts(keywords@);
    let mut i: usize = 0;
    while i < keywords.len()
        invariant
            i <= keywords@.len(),
            all == texts(keywords@),
            texts(mine@) == list_at(m@.metadata, "keywords"@),
            content@ == lowercase(m@.content),
            forall|k: int| 0 <= k < i ==> !has_keyword(m@, #[trigger] all[k]),
        decreases keywords@.len() - i,
    {
        assert(all[i as int] == keywords@[i as int]@);
        let kw = keywords[i].as_str();
        let l = lower(kw);
        if find_equal_lower(&mine, kw) || contains(content.as_str(), l.as_str())
            || find_holding_lower(&m.tags, kw) {
            return true;
        }
        i += 1;
    }
    false
}

fn matches_categories(m: &MemoryItem, categories: &Vec<String>) -> (r: bool)
    ensures
        r == has_a_category(m@, texts(categories@)),
{
    let mine = m.categories();
    let ghost all = texts(categories@);
    let mut i: usize = 0;
    while i < categories.len()
        invariant
            i <= categories@.len(),
            all == texts(categories@),
            texts(mine@) == list_at(m@.metadata, "categories"@),
            forall|k: int|
                0 <= k < i ==> !(any_equal_lower(
                    list_at(m@.metadata, "categories"@),
                    #[trigger] all[k],
                ) || any_equal_lower(m@.tags, all[k])),
        decreases categories@.len() - i,
    {
        assert(all[i as int] == categories@[i as int]@);
        let c = categories[i].as_str();
        if find_equal_lower(&mine, c) || find_equal_lower(&m.tags, c) {
            return true;
        }
        i += 1;
    }
    false
}

fn matches_subject_scopes(m: &MemoryItem, scopes: &Vec<String>) -> (r: bool)
    ensures
        r == has_a_subject(m@, texts(scopes@)),
{
    let mine = m.subject_scopes();
    assert(texts(mine@).len() == mine@.len());
    let ghost all = texts(scopes@);
    let mut i: usize = 0;
    while i < scopes.len()
        invariant
            i <= scopes@.len(),
            all == texts(scopes@),
            texts(mine@) == list_at(m@.metadata, "subject_scopes"@),
            texts(mine@).len() == mine@.len(),
            forall|k: int| 0 <= k < i ==> !subjects_of(m@).contains(#[trigger] all[k]),
        decreases scopes@.len() - i,
    {
        assert(all[i as int] == scopes@[i as int]@);
        let s = scopes[i].as_str();
        let found = if mine.len() == 0 {
            list_has(&m.tags, s)
        } else {
            list_has(&mine, s)
        };
        if found {
            return true;
        }
        i += 1;
    }
    false
}

fn field_has(m: &MemoryItem, key: &str, s: &str) -> (r: bool)
    ensures
        r == field_holds(m@, key@, s@),
{
    match m.metadata.text(key) {
        Some(t) => {
            let a = lower(t.as_str());
            let b = lower(s);
            contains(a.as_str(), b.as_str())
        },
        None => false,
    }
}

fn matches_time_hint(m: &MemoryItem, hint: &str) -> (r: bool)
    ensures
        r == fits_time(m@, hint@),
{
    let a = lower(m.content.as_str());
    let b = lower(hint);
    field_has(m, "time_of_day", hint) || field_has(m, "date_label", hint) || contains(
        a.as_str(),
        b.as_str(),
    )
}

/// Whether the memory passes a stage.
pub fn stage_allows(stage: usize, m: &MemoryItem, criteria: &PrecisionFilterCriteria) -> (r: bool)
    ensures
        r == allowed(stage as int, m@, *criteria),
{
    if stage >= 4 {
        return true;
    }
    if let Some(scope) = &criteria.entity_scope {
        if !matches_entity_scope(m, scope) {
            return false;
        }
    }
    if criteria.keywords.len() > 0 && !matches_keywords(m, &criteria.keywords) {
        return false;
    }
    if criteria.source_layers.len() > 0 && !list_has(&criteria.source_layers, m.source_layer()) {
        return false;
    }
    if let Some(hint) = &criteria.time_hint {
        if !matches_time_hint(m, hint.as_str()) {
            return false;
        }
    }
    if stage == 0 {
        if let Some(min) = criteria.importance_min {
            if m.importance < min {
                return false;
            }
        }
    }
    if stage <= 1 && criteria.categories.len() > 0 && !matches_categories(m, &criteria.categories) {
        return false;
    }
    if stage <= 2 && criteria.subject_scopes.len() > 0 && !matches_subject_scopes(
        m,
        &criteria.subject_scopes,
    ) {
        return false;
    }
    true
}

/// A later stage lets through whatever an earlier one does.
pub proof fn stages_only_widen(a: int, b: int, m: ItemView, c: PrecisionFilterCriteria)
    requires
        a <= b,
        allowed(a, m, c),
    ensures
        allowed(b, m, c),
{
}

/// The memories that pass a stage.
pub open spec fn passing(memories: Seq<ItemView>, stage: int, c: PrecisionFilterCriteria) -> Seq<
    ItemView,
> {
    memories.filter(|m: ItemView| allowed(stage, m, c))
}

/// The stage wins: it is the first that lets enough through, or the last.
pub open spec fn stage_wins(
    memories: Seq<ItemView>,
    c: PrecisionFilterCriteria,
    min_results: int,
    stage: int,
) -> bool {
    &&& 0 <= stage < STAGES
    &&& (stage == STAGES - 1 || passing(memories, stage, c).len() >= min_results)
    &&& forall|s: int|
        0 <= s < stage ==> (#[trigger] passing(memories, s, c)).len() < min_results
}

/// The number, or one for zero.
pub open spec fn at_least_one(n: usize) -> int {
    if n == 0 {
        1
    } else {
        n as int
    }
}

/// The memories that the winning stage lets through; all of them where there is no
/// condition.
pub fn apply_precision_filter(
    memories: &[MemoryItem],
    criteria: &PrecisionFilterCriteria,
    min_results: usize,
) -> (out: Vec<MemoryItem>)
    ensures
        no_conditions(*criteria) ==> item_views(out@) == item_views(memories@),
        !no_conditions(*criteria) ==> exists|stage: int| #[trigger]
            stage_wins(
                item_views(memories@),
                *criteria,
                at_least_one(min_results),
                stage,
            ) && item_views(out@) == passing(item_views(memories@), stage, *criteria),
{
    if criteria.is_empty() {
        return copy_items(memories);
    }
    let ladder = RelaxationLadder::new(min_results);
    let predicate = |stage: usize, m: &MemoryItem| -> (b: bool)
        ensures
            b == allowed(stage as int, m@, *criteria),
        { stage_allows(stage, m, criteria) };
    let out = ladder.run(memories, predicate);
    proof {
        let all = item_views(memories@);
        let (flags, stage) = choose|flags: Seq<Seq<bool>>, stage: int| #[trigger]
            winning(ladder.min_results as int, flags, stage) && item_views(out@) == kept(
                all,
                flags[stage],
            ) && forall|s: int|
                0 <= s <= stage ==> stage_flags(
                    predicate,
                    memories@,
                    s as usize,
                    #[trigger] flags[s],
                );
        assert forall|s: int| 0 <= s <= stage implies kept(all, #[trigger] flags[s]) == passing(
            all,
            s,
            *criteria,
        ) && passing(all, s, *criteria).len() == count_set(flags[s]) by {
            assert(stage_flags(predicate, memories@, s as usize, flags[s]));
            assert forall|i: int| 0 <= i < all.len() implies #[trigger] flags[s][i] == allowed(
                s,
                all[i],
                *criteria,
            ) by {
                assert(all[i] == memories@[i]@);
                assert(predicate.ensures((s as usize, &memories@[i]), flags[s][i]));
            }
            kept_is_filter(all, flags[s], |m: ItemView| allowed(s, m, *criteria));
            crate::select::kept_len(all, flags[s]);
        }
        assert forall|s: int| 0 <= s < stage implies (#[trigger] passing(all, s, *criteria)).len()
            < ladder.min_results by {
            assert(count_set(flags[s]) < ladder.min_results);
        }
        assert(kept(all, flags[stage]) == passing(all, stage, *criteria));
        assert(at_least_one(min_results) == ladder.min_results as int);
        assert(stage_wins(all, *criteria, at_least_one(min_results), stage));
        assert(item_views(out@) == passing(all, stage, *criteria));
    }
    out
}

/// The winning stage is determined.
pub proof fn winning_stage_is_unique(
    memories: Seq<ItemView>,
    c: PrecisionFilterCriteria,
    min_results: int,
    a: int,
    b: int,
)
    requires
        stage_wins(memories, c, min_results, a),
        stage_wins(memories, c, min_results, b),
    ensures
        a == b,
{
    if a < b {
        assert(passing(memories, a, c).len() < min_results);
    } else if b < a {
        assert(passing(memories, b, c).len() < min_results);
    }
}

/// The filter never leaves nothing of something: the last stage lets everything
/// through.
pub proof fn filter_is_never_empty(
    memories: Seq<ItemView>,
    c: PrecisionFilterCriteria,
    min_results: int,
    stage: int,
)
    requires
        stage_wins(memories, c, min_results, stage),
        min_results >= 1,
        memories.len() > 0,
    ensures
        passing(memories, stage, c).len() > 0,
{
    if stage == STAGES - 1 {
        let flags = Seq::new(memories.len(), |i: int| true);
        kept_is_filter(memories, flags, |m: ItemView| allowed(stage, m, c));
        crate::select::kept_len(memories, flags);
        let last = flags.drop_last();
        assert(count_set(flags) == count_set(last) + 1);
    }
}

// ---------------------------------------------------------------------------
// What concerns a character
// ---------------------------------------------------------------------------

/// Whether the memory says whose it is.
pub open spec fn says_whose(m: ItemView) -> bool {
    m.metadata.contains_key("speaker"@) || m.metadata.contains_key("listener"@)
        || m.metadata.contains_key("observer_id"@) || m.metadata.contains_key("knowledge_source"@)
}

/// Whether the memory concerns the character: it does not say whose it is, it comes
/// from a talk with the user, or the character took part or watched.
pub open spec fn concerns(m: ItemView, char_id: Seq<char>) -> bool {
    ||| !says_whose(m)
    ||| text_at(m.metadata, "knowledge_source"@) == Some("direct"@)
    ||| text_or_empty(m, "speaker"@) == char_id
    ||| text_or_empty(m, "listener"@) == char_id
    ||| text_at(m.metadata, "observer_id"@) == Some(char_id)
}

fn text_is(m: &MemoryItem, key: &str, s: &str) -> (r: bool)
    ensures
        r == (text_at(m@.metadata, key@) == Some(s@)),
{
    match m.metadata.text(key) {
        Some(t) => same(t.as_str(), s),
        None => false,
    }
}

fn text_or_empty_is(m: &MemoryItem, key: &str, s: &str) -> (r: bool)
    ensures
        r == (text_or_empty(m@, key@) == s@),
{
    let t = match m.metadata.text(key) {
        Some(t) => t,
        None => String::new(),
    };
    same(t.as_str(), s)
}

/// Whether the memory concerns the character.
pub fn is_relevant_to_entity(m: &MemoryItem, char_id: &str) -> (r: bool)
    ensures
        r == concerns(m@, char_id@),
{
    let says = m.metadata.get("speaker").is_some() || m.metadata.get("listener").is_some()
        || m.metadata.get("observer_id").is_some() || m.metadata.get("knowledge_source").is_some();
    !says || text_is(m, "knowledge_source", "direct") || text_or_empty_is(m, "speaker", char_id)
        || text_or_empty_is(m, "listener", char_id) || text_is(m, "observer_id", char_id)
}

/// The candidates that are not visible already.
pub fn exclude_visible_context(candidates: Vec<MemoryItem>, visible_ids: &Vec<String>) -> (out: Vec<
    MemoryItem,
>)
    ensures
        item_views(out@) == item_views(candidates@).filter(
            |m: ItemView| !texts(visible_ids@).contains(m.id),
        ),
{
    let ghost all = item_views(candidates@);
    let mut flags: Vec<bool> = Vec::new();
    let mut i: usize = 0;
    while i < candidates.len()
        invariant
            i <= candidates@.len(),
            all == item_views(candidates@),
            flags@.len() == i,
            forall|k: int|
                0 <= k < i ==> #[trigger] flags@[k] == !texts(visible_ids@).contains(all[k].id),
        decreases candidates@.len() - i,
    {
        assert(all[i as int] == candidates@[i as int]@);
        flags.push(!list_has(visible_ids, candidates[i].id.as_str()));
        i += 1;
    }
    proof {
        kept_is_filter(all, flags@, |m: ItemView| !texts(visible_ids@).contains(m.id));
        kept_map(candidates@, flags@, |m: MemoryItem| m@);
    }
    take_flagged(candidates, &flags)
}

// ---------------------------------------------------------------------------
// Ranking by weight and attention
// ---------------------------------------------------------------------------

/// Attention from which an entity counts, in millionths.
pub const ATTENTION_THRESHOLD: i64 = 300_000;

/// Largest bonus, in hundred-millionths.
pub const MAX_ATTENTION_BONUS: i128 = 50_000_000;

/// The attention on an entity; zero where there is none or too little to count.
pub open spec fn counted_attention(weights: Seq<(Seq<char>, i64)>, name: Seq<char>) -> int {
    match lookup(weights, name) {
        Some(w) => if w >= ATTENTION_THRESHOLD {
            w as int
        } else {
            0
        },
        None => 0,
    }
}

/// The attention on the first `n` names together.
pub open spec fn summed_attention(weights: Seq<(Seq<char>, i64)>, names: Seq<Seq<char>>, n: nat) -> int
    decreases n,
{
    if n == 0 {
        0
    } else {
        summed_attention(weights, names, (n - 1) as nat) + counted_attention(weights, names[n - 1])
    }
}

/// The attention on the text under a key.
pub open spec fn field_attention(weights: Seq<(Seq<char>, i64)>, m: ItemView, key: Seq<char>) -> int {
    match text_at(m.metadata, key) {
        Some(s) => counted_attention(weights, s),
        None => 0,
    }
}

/// The bonus of a memory in hundred-millionths: fifteen hundredths of the attention
/// on who speaks and who listens, a tenth of that on keywords and tags, at most one
/// half.
pub open spec fn bonus_of(weights: Seq<(Seq<char>, i64)>, m: ItemView) -> int {
    let kws = list_at(m.metadata, "keywords"@);
    let b = 15 * (field_attention(weights, m, "speaker"@) + field_attention(
        weights,
        m,
        "listener"@,
    )) + 10 * (summed_attention(weights, kws, kws.len()) + summed_attention(
        weights,
        m.tags,
        m.tags.len(),
    ));
    if b < MAX_ATTENTION_BONUS {
        b
    } else {
        MAX_ATTENTION_BONUS as int
    }
}

fn attention_on(weights: &Assoc<i64>, name: &str) -> (r: i128)
    ensures
        r == counted_attention(weights@, name@),
        0 <= r <= i64::MAX,
{
    match weights.get(name) {
        Some(w) => {
            if *w >= ATTENTION_THRESHOLD {
                *w as i128
            } else {
                0
            }
        },
        None => 0,
    }
}

fn attention_on_all(weights: &Assoc<i64>, names: &Vec<String>) -> (r: i128)
    ensures
        r == summed_attention(weights@, texts(names@), names@.len()),
        0 <= r <= usize::MAX * i64::MAX,
{
    let ghost all = texts(names@);
    let mut sum: i128 = 0;
    let mut i: usize = 0;
    let n: usize = names.len();
    while i < n
        invariant
            i <= n,
            n == names@.len(),
            all == texts(names@),
            sum == summed_attention(weights@, all, i as nat),
            0 <= sum <= i * i64::MAX,
        decreases n - i,
    {
        assert(all[i as int] == names@[i as int]@);
        let a: i128 = attention_on(weights, names[i].as_str());
        proof {
            assert(i * i64::MAX + i64::MAX == (i + 1) * i64::MAX) by (nonlinear_arith);
            assert((i + 1) * i64::MAX <= usize::MAX * i64::MAX) by (nonlinear_arith)
                requires
                    i + 1 <= usize::MAX,
            ;
        }
        sum = sum + a;
        i += 1;
    }
    assert(n * i64::MAX <= usize::MAX * i64::MAX) by (nonlinear_arith)
        requires
            n <= usize::MAX,
    ;
    sum
}

fn attention_on_field(weights: &Assoc<i64>, m: &MemoryItem, key: &str) -> (r: i128)
    ensures
        r == field_attention(weights@, m@, key@),
        0 <= r <= i64::MAX,
{
    match m.metadata.text(key) {
        Some(s) => attention_on(weights, s.as_str()),
        None => 0,
    }
}

/// The bonus of a memory, in hundred-millionths.
pub fn attention_bonus(m: &MemoryItem, weights: &Assoc<i64>) -> (r: i128)
    ensures
        r == bonus_of(weights@, m@),
        0 <= r <= MAX_ATTENTION_BONUS,
{
    let kws = m.keywords();
    let named: i128 = attention_on_field(weights, m, "speaker") + attention_on_field(
        weights,
        m,
        "listener",
    );
    let on_keywords: i128 = attention_on_all(weights, &kws);
    let on_tags: i128 = attention_on_all(weights, &m.tags);
    assert(texts(kws@).len() == kws@.len());
    assert(texts(m.tags@).len() == m.tags@.len());
    // Past this the bonus is at its largest, and the sum below stays small.
    if on_keywords >= MAX_ATTENTION_BONUS || on_tags >= MAX_ATTENTION_BONUS {
        return MAX_ATTENTION_BONUS;
    }
    let b: i128 = 15 * named + 10 * (on_keywords + on_tags);
    if b < MAX_ATTENTION_BONUS {
        b
    } else {
        MAX_ATTENTION_BONUS
    }
}

/// A weight that a bonus lifts: by half at most.
pub open spec fn lifted(weight: int, bonus: int) -> int {
    weight * (100_000_000 + bonus)
}

/// Attention never takes from a weight, and lifts it by half at most.
pub proof fn attention_lifts_by_half_at_most(weight: int, weights: Seq<(Seq<char>, i64)>, m: ItemView)
    requires
        weight >= 0,
    ensures
        lifted(weight, 0) <= lifted(weight, bonus_of(weights, m)),
        2 * lifted(weight, bonus_of(weights, m)) <= 3 * lifted(weight, 0),
{
    let kws = list_at(m.metadata, "keywords"@);
    lemma_attention_counts(weights, kws, kws.len());
    lemma_attention_counts(weights, m.tags, m.tags.len());
    let b = bonus_of(weights, m);
    assert(0 <= b <= 50_000_000);
    assert(weight * (100_000_000 + b) >= weight * 100_000_000 && 2 * (weight * (100_000_000 + b)) <= 3 * (weight
        * 100_000_000)) by (nonlinear_arith)
        requires
            weight >= 0,
            0 <= b <= 50_000_000,
    ;
}

proof fn lemma_attention_counts(weights: Seq<(Seq<char>, i64)>, names: Seq<Seq<char>>, n: nat)
    ensures
        summed_attention(weights, names, n) >= 0,
    decreases n,
{
    if n > 0 {
        lemma_attention_counts(weights, names, (n - 1) as nat);
    }
}

/// The keys by which memories are ranked: their weights, lifted by their bonuses.
pub open spec fn weight_keys(
    items: Seq<ItemView>,
    weights: Seq<i64>,
    attention: Option<Seq<(Seq<char>, i64)>>,
) -> Seq<i128> {
    Seq::new(
        items.len(),
        |i: int|
            lifted(
                weights[i] as int,
                match attention {
                    Some(a) => bonus_of(a, items[i]),
                    None => 0,
                },
            ) as i128,
    )
}

/// The memories of most weight; the memories as they are where they are few enough.
pub fn rank_and_truncate_with_attention(
    memories: Vec<MemoryItem>,
    weights: &Vec<i64>,
    limit: usize,
    attention: Option<&Assoc<i64>>,
) -> (out: Vec<MemoryItem>)
    requires
        memories@.len() == weights@.len(),
    ensures
        item_views(out@) == (if memories@.len() <= limit {
            item_views(memories@)
        } else {
            ranked(
                item_views(memories@),
                weight_keys(
                    item_views(memories@),
                    weights@,
                    match attention {
                        Some(a) => Some(a@),
                        None => None,
                    },
                ),
                limit as int,
            )
        }),
{
    if memories.len() <= limit {
        return memories;
    }
    let ghost all = item_views(memories@);
    let ghost att = match attention {
        Some(a) => Some(a@),
        None => None,
    };
    let ghost want = weight_keys(all, weights@, att);
    let mut keys: Vec<i128> = Vec::new();
    let mut i: usize = 0;
    while i < memories.len()
        invariant
            i <= memories@.len(),
            memories@.len() == weights@.len(),
            all == item_views(memories@),
            att == (match attention {
                Some(a) => Some(a@),
                None => None,
            }),
            want == weight_keys(all, weights@, att),
            keys@ == want.take(i as int),
        decreases memories@.len() - i,
    {
        assert(all[i as int] == memories@[i as int]@);
        let bonus: i128 = match attention {
            Some(a) => attention_bonus(&memories[i], a),
            None => 0,
        };
        let w: i128 = weights[i] as i128;
        assert(-20_000_000_000_000_000_000_000_000_000 <= w * (100_000_000 + bonus)
            <= 20_000_000_000_000_000_000_000_000_000) by (nonlinear_arith)
            requires
                -9_223_372_036_854_775_808 <= w <= 9_223_372_036_854_775_807,
                0 <= bonus <= 50_000_000,
        ;
        keys.push(w * (100_000_000 + bonus));
        i += 1;
        assert(want.take(i as int) =~= want.take(i - 1).push(want[i - 1]));
    }
    assert(want.take(i as int) =~= want);
    rank_items(memories.as_slice(), &keys, limit)
}

/// The memories of most weight.
pub fn rank_and_truncate(memories: Vec<MemoryItem>, weights: &Vec<i64>, limit: usize) -> (out: Vec<
    MemoryItem,
>)
    requires
        memories@.len() == weights@.len(),
    ensures
        item_views(out@) == (if memories@.len() <= limit {
            item_views(memories@)
        } else {
            ranked(
                item_views(memories@),
                weight_keys(item_views(memories@), weights@, None),
                limit as int,
            )
        }),
{
    rank_and_truncate_with_attention(memories, weights, limit, None)
}

} // verus!
