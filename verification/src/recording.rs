//! The decisions of recording a reflection: which recognised pattern is
//! recorded, how the stored pattern changes once the store has been asked
//! about it, and the replies when a step fails; and reading the id of a
//! reflection to forget.
use vstd::prelude::*;
use vstd::string::*;
use crate::pattern::PatternMatch;
use crate::tools::next_occurrences;

verus! {

// ---------------------------------------------------------------------------
// Recording a pattern

/// The pattern that a reflection records: the first match, if any.
pub fn recorded_pattern(matches: &Vec<PatternMatch>) -> (r: Option<PatternMatch>)
    ensures
        r is None <==> matches.len() == 0,
        r matches Some(m) ==> m@ == matches@[0]@,
{
    if matches.len() == 0 {
        None
    } else {
        let first = &matches[0];
        Some(
            PatternMatch {
                id: first.id.clone(),
                category: first.category.clone(),
                description: first.description.clone(),
            },
        )
    }
}

/// What the store is asked to do about the pattern a reflection records.
#[derive(Debug, Clone)]
pub enum PatternAction {
    /// Nothing was recognised: no pattern is recorded.
    NoPattern,
    /// The pattern `id` is known: it is saved again, seen `occurrences` times.
    Update { id: String, occurrences: u32 },
    /// The pattern is new: it is created from the match, seen once.
    Create { id: String, category: String, description: String, occurrences: u32 },
    /// Looking the pattern up failed: the request is answered with `message`.
    Reply { message: String },
}

/// The step of recording a pattern. `matches` are the patterns recognised in
/// the signals; when there is one, the store has been asked for the first
/// (see `recorded_pattern`) and `lookup` holds its answer: how often the
/// pattern was seen if it is known, or the reason the lookup failed.
pub fn pattern_step(matches: &Vec<PatternMatch>, lookup: Option<Result<Option<u32>, String>>) -> (a:
    PatternAction)
    requires
        matches.len() > 0 ==> lookup is Some,
        lookup matches Some(Ok(Some(k))) ==> k < u32::MAX,
    ensures
        matches.len() == 0 ==> a is NoPattern,
        matches.len() > 0 ==> match lookup {
            Some(Ok(Some(k))) => a matches PatternAction::Update { id, occurrences } && id@
                == matches@[0].id@ && occurrences == k + 1,
            Some(Ok(None)) => a matches PatternAction::Create {
                id,
                category,
                description,
                occurrences,
            } && id@ == matches@[0].id@ && category@ == matches@[0].category@ && description@
                == matches@[0].description@ && occurrences == 1,
            Some(Err(e)) => a matches PatternAction::Reply { message } && message@
                == "failed to get pattern: "@ + e@,
            None => false,
        },
{
    if matches.len() == 0 {
        return PatternAction::NoPattern;
    }
    let first = &matches[0];
    match lookup {
        Some(Ok(Some(k))) => PatternAction::Update {
            id: first.id.clone(),
            occurrences: next_occurrences(Some(k)),
        },
        Some(Ok(None)) => PatternAction::Create {
            id: first.id.clone(),
            category: first.category.clone(),
            description: first.description.clone(),
            occurrences: next_occurrences(None),
        },
        Some(Err(e)) => {
            let mut message = String::from_str("failed to get pattern: ");
            message.append(e.as_str());
            PatternAction::Reply { message }
        },
        None => PatternAction::NoPattern,
    }
}

/// The pattern id that the reflection carries after `action`.
pub fn recorded_pattern_id(action: &PatternAction) -> (r: Option<String>)
    ensures
        match action {
            PatternAction::Update { id, .. } => r matches Some(s) && s@ == id@,
            PatternAction::Create { id, .. } => r matches Some(s) && s@ == id@,
            _ => r is None,
        },
{
    match action {
        PatternAction::Update { id, .. } => Some(id.clone()),
        PatternAction::Create { id, .. } => Some(id.clone()),
        _ => None,
    }
}

/// How often the recorded pattern has been seen after `action`: zero when
/// nothing is saved.
pub fn recorded_occurrences(action: &PatternAction) -> (n: u32)
    ensures
        n == match action {
            PatternAction::Update { occurrences, .. } => *occurrences,
            PatternAction::Create { occurrences, .. } => *occurrences,
            _ => 0,
        },
{
    match action {
        PatternAction::Update { occurrences, .. } => *occurrences,
        PatternAction::Create { occurrences, .. } => *occurrences,
        _ => 0,
    }
}

/// The reply when saving the pattern of `action` fails with `error`.
pub fn pattern_save_failed(action: &PatternAction, error: &str) -> (m: String)
    requires
        action is Update || action is Create,
    ensures
        action is Update ==> m@ == "failed to update pattern: "@ + error@,
        action is Create ==> m@ == "failed to create pattern: "@ + error@,
{
    let mut m = if let PatternAction::Update { .. } = action {
        String::from_str("failed to update pattern: ")
    } else {
        String::from_str("failed to create pattern: ")
    };
    m.append(error);
    m
}

/// The reply when storing the reflection fails with `error`.
pub fn store_failed(error: &str) -> (m: String)
    ensures
        m@ == "failed to store reflection: "@ + error@,
{
    let mut m = String::from_str("failed to store reflection: ");
    m.append(error);
    m
}

// ---------------------------------------------------------------------------
// Reading a reflection id

/// What the uuid crate reads from `text`: the 128-bit value of the UUID, or
/// the text of its error.
pub uninterp spec fn uuid_parsed(text: Seq<char>) -> Result<u128, Seq<char>>;

/// The UUID that `text` spells, if it spells one.
pub open spec fn uuid_value(text: Seq<char>) -> Option<u128> {
    match uuid_parsed(text) {
        Ok(v) => Some(v),
        Err(_) => None,
    }
}

/// Calls `uuid::Uuid::parse_str`, giving the UUID as its 128-bit value or the
/// error's text.
#[verifier::external_body]
fn parse_uuid(text: &str) -> (r: Result<u128, String>)
    ensures
        match r {
            Ok(v) => uuid_parsed(text@) == Ok::<u128, Seq<char>>(v),
            Err(m) => uuid_parsed(text@) == Err::<u128, Seq<char>>(m@),
        },
{
    match uuid::Uuid::parse_str(text) {
        Ok(u) => Ok(u.as_u128()),
        Err(e) => Err(e.to_string()),
    }
}

/// The reflection that a forget request names: its id, or the reply
/// `invalid UUID: ` followed by why the text is not one.
pub fn forget_request(reflection_id: &str) -> (r: Result<u128, String>)
    ensures
        (r is Ok) <==> uuid_value(reflection_id@) is Some,
        r matches Ok(v) ==> uuid_value(reflection_id@) == Some(v),
        r matches Err(m) ==> (uuid_parsed(reflection_id@) matches Err(why) && m@
            == "invalid UUID: "@ + why),
{
    match parse_uuid(reflection_id) {
        Ok(v) => Ok(v),
        Err(why) => {
            let mut m = String::from_str("invalid UUID: ");
            m.append(why.as_str());
            Err(m)
        },
    }
}

} // verus!
