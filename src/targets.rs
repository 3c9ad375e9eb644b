//! The list of targets: a JSON object that maps each target's name to its
//! origin URL.
use vstd::prelude::*;
use crate::links::{url_host_of, Target, TargetError};

verus! {

/// What `serde_json` makes of `text`: `None` where it is not a JSON object,
/// else its entries in the order the map keeps them, each value's text where
/// the value is a JSON string.
pub uninterp spec fn json_string_entries_of(text: Seq<char>) -> Option<Seq<(Seq<char>, Option<Seq<char>>)>>;

/// The texts of an entry.
pub open spec fn entry_view(e: (String, Option<String>)) -> (Seq<char>, Option<Seq<char>>) {
    (e.0@, match e.1 {
        Some(s) => Some(s@),
        None => None,
    })
}

/// Relies on `serde_json::from_str` to parse `text` as a `serde_json::Value`,
/// on its `Object` variant for the map, and on `Value::as_str` for each value.
#[verifier::external_body]
fn json_string_entries(text: &str) -> (r: Option<Vec<(String, Option<String>)>>)
    ensures
        match r {
            None => json_string_entries_of(text@) is None,
            Some(v) => json_string_entries_of(text@) == Some(v@.map_values(|e: (String, Option<String>)| entry_view(e))),
        },
{
    match serde_json::from_str::<serde_json::Value>(text) {
        Ok(serde_json::Value::Object(m)) => Some(m.into_iter().map(|(k, v)| (k, v.as_str().map(str::to_string))).collect()),
        _ => None,
    }
}

/// Why the target list cannot be used.
#[derive(Debug, Clone, Copy, PartialEq, Eq, Structural)]
pub enum LoadError {
    /// The text is not a JSON object.
    Malformed,
    /// The value of the entry at this position is not a string.
    NotAString(usize),
    /// The origin of the entry at this position cannot scope a crawl.
    BadOrigin(usize, TargetError),
}

/// An entry that makes a target: its value is a string that parses as a URL
/// with a host.
pub open spec fn entry_ok(e: (Seq<char>, Option<Seq<char>>)) -> bool {
    e.1 is Some && url_host_of(e.1->0) is Some && url_host_of(e.1->0)->0 is Some
}

/// The error that the first entry `e` that fails `entry_ok`, at position `i`, gives.
pub open spec fn entry_error(e: (Seq<char>, Option<Seq<char>>), i: int) -> LoadError {
    if e.1 is None {
        LoadError::NotAString(i as usize)
    } else if url_host_of(e.1->0) is None {
        LoadError::BadOrigin(i as usize, TargetError::OriginUnparsable)
    } else {
        LoadError::BadOrigin(i as usize, TargetError::OriginWithoutHost)
    }
}

/// Reads the target list `json`: one target per entry, in the order of the
/// entries. Fails where the text is not a JSON object, and otherwise as
/// `targets_from_entries` does.
pub fn load_targets(json: &str) -> (r: Result<Vec<Target>, LoadError>)
    ensures
        json_string_entries_of(json@) is None <==> r == Err::<Vec<Target>, LoadError>(LoadError::Malformed),
        json_string_entries_of(json@) is Some ==> entries_give(json_string_entries_of(json@)->0, r),
{
    match json_string_entries(json) {
        None => Err(LoadError::Malformed),
        Some(v) => targets_from_entries(&v),
    }
}

/// One target per entry of `es`, in order; or the error of its first entry
/// whose value is not a string or not a URL with a host.
pub open spec fn entries_give(es: Seq<(Seq<char>, Option<Seq<char>>)>, r: Result<Vec<Target>, LoadError>) -> bool {
    match r {
        Ok(ts) => {
            &&& ts@.len() == es.len()
            &&& forall|i: int| 0 <= i < es.len() ==> entry_ok(#[trigger] es[i])
            &&& forall|i: int| 0 <= i < es.len() ==> {
                &&& (#[trigger] ts@[i]).name_view() == es[i].0
                &&& ts@[i].origin() == es[i].1->0
                &&& ts@[i].wf()
            }
        },
        Err(e) => exists|i: int| {
            &&& 0 <= i < es.len()
            &&& !entry_ok(#[trigger] es[i])
            &&& (forall|j: int| 0 <= j < i ==> entry_ok(es[j]))
            &&& e == entry_error(es[i], i)
        },
    }
}

/// Makes one target of each entry, in order; fails at the first entry whose
/// value is not a string or not a URL with a host.
pub fn targets_from_entries(entries: &Vec<(String, Option<String>)>) -> (r: Result<Vec<Target>, LoadError>)
    ensures
        entries_give(entries@.map_values(|e: (String, Option<String>)| entry_view(e)), r),
        r != Err::<Vec<Target>, LoadError>(LoadError::Malformed),
{
    let ghost es = entries@.map_values(|e: (String, Option<String>)| entry_view(e));
    let mut targets: Vec<Target> = Vec::new();
    let mut i: usize = 0;
    while i < entries.len()
        invariant
            i <= entries@.len(),
            es == entries@.map_values(|e: (String, Option<String>)| entry_view(e)),
            targets@.len() == i,
            forall|j: int| 0 <= j < i ==> entry_ok(#[trigger] es[j]),
            forall|j: int| 0 <= j < i ==> {
                &&& (#[trigger] targets@[j]).name_view() == es[j].0
                &&& targets@[j].origin() == es[j].1->0
                &&& targets@[j].wf()
            },
        decreases entries@.len() - i,
    {
        let entry = &entries[i];
        assert(es[i as int] == entry_view(entries@[i as int]));
        let url = match &entry.1 {
            None => {
                assert(es[i as int].1 is None);
                assert(!entry_ok(es[i as int]));
                return Err(LoadError::NotAString(i));
            },
            Some(u) => u.clone(),
        };
        match Target::new(entry.0.clone(), url) {
            Ok(t) => {
                targets.push(t);
            },
            Err(e) => {
                assert(!entry_ok(es[i as int]));
                return Err(LoadError::BadOrigin(i, e));
            },
        }
        i = i + 1;
    }
    Ok(targets)
}

} // verus!
