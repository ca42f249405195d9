//! Reading one component's availability calendar.
use vstd::prelude::*;
use vstd::string::StringExecFns;
use crate::date::{is_date_text, Date};
use crate::resolve::date_views;

verus! {

#[verifier::external_type_specification]
#[verifier::external_body]
pub struct ExJsonError(serde_json::Error);

/// Where the calendar of `component` for `target` is published.
pub open spec fn calendar_address(target: Seq<char>, component: Seq<char>) -> Seq<char> {
    "https://rust-lang.github.io/rustup-components-history/"@ + target + "/"@ + component
        + ".json"@
}

/// The members of the JSON object that `body` holds, in order: each key, with
/// its value when that value is a boolean; `None` when `body` is not a JSON
/// object.
pub uninterp spec fn calendar_entries(body: Seq<char>) -> Option<Seq<(Seq<char>, Option<bool>)>>;

/// Calendar entries, as text.
pub open spec fn entry_views(v: Seq<(String, Option<bool>)>) -> Seq<(Seq<char>, Option<bool>)> {
    v.map_values(|e: (String, Option<bool>)| (e.0@, e.1))
}

/// An entry that names an available date: its key is a well-formed date and
/// its value is `true`.
pub open spec fn marks_available(e: (Seq<char>, Option<bool>)) -> bool {
    e.1 == Some(true) && is_date_text(e.0)
}

/// The dates that a calendar marks as available, in the calendar's order.
pub open spec fn available(entries: Seq<(Seq<char>, Option<bool>)>) -> Seq<Seq<char>> {
    entries.filter(|e: (Seq<char>, Option<bool>)| marks_available(e)).map_values(
        |e: (Seq<char>, Option<bool>)| e.0,
    )
}

/// A calendar's keys are distinct.
pub open spec fn distinct_keys(entries: Seq<(Seq<char>, Option<bool>)>) -> bool {
    forall|i: int, j: int|
        0 <= i < entries.len() && 0 <= j < entries.len() && i != j ==> entries[i].0
            != entries[j].0
}

/// What the filter keeps comes from the calendar.
proof fn lemma_filter_from(entries: Seq<(Seq<char>, Option<bool>)>, x: (Seq<char>, Option<bool>))
    requires
        entries.filter(|e: (Seq<char>, Option<bool>)| marks_available(e)).contains(x),
    ensures
        entries.contains(x),
        marks_available(x),
    decreases entries.len(),
{
    reveal(Seq::filter);
    let pred = |e: (Seq<char>, Option<bool>)| marks_available(e);
    let front = entries.drop_last();
    let kept = entries.filter(pred);
    let j = choose|j: int| 0 <= j < kept.len() && kept[j] == x;
    if pred(entries.last()) && j == kept.len() - 1 {
        assert(entries[entries.len() - 1] == x);
    } else {
        assert(front.filter(pred)[j] == x);
        lemma_filter_from(front, x);
        let m = choose|m: int| 0 <= m < front.len() && front[m] == x;
        assert(entries[m] == x);
    }
}

/// A date is available exactly when some entry has it as key, the key is a
/// well-formed date, and the value is `true`.
pub proof fn lemma_available_exactly(entries: Seq<(Seq<char>, Option<bool>)>, d: Seq<char>)
    ensures
        available(entries).contains(d) <==> exists|i: int|
            0 <= i < entries.len() && entries[i].0 == d && #[trigger] marks_available(entries[i]),
{
    broadcast use vstd::seq_lib::group_filter_ensures;

    let pred = |e: (Seq<char>, Option<bool>)| marks_available(e);
    let kept = entries.filter(pred);
    if available(entries).contains(d) {
        let j = choose|j: int| 0 <= j < available(entries).len() && available(entries)[j] == d;
        assert(kept.contains(kept[j]));
        lemma_filter_from(entries, kept[j]);
        let m = choose|m: int| 0 <= m < entries.len() && entries[m] == kept[j];
        assert(entries[m].0 == d && marks_available(entries[m]));
    }
    if exists|i: int| 0 <= i < entries.len() && entries[i].0 == d && #[trigger] marks_available(entries[i]) {
        let i = choose|i: int|
            0 <= i < entries.len() && entries[i].0 == d && #[trigger] marks_available(entries[i]);
        assert(pred(entries[i]));
        assert(kept.contains(entries[i]));
        let j = choose|j: int| 0 <= j < kept.len() && kept[j] == entries[i];
        assert(available(entries)[j] == d);
    }
}

/// An entry whose value is anything but `true` gives no available date.
pub proof fn lemma_unavailable_value_dropped(entries: Seq<(Seq<char>, Option<bool>)>, i: int)
    requires
        distinct_keys(entries),
        0 <= i < entries.len(),
        entries[i].1 != Some(true),
    ensures
        !available(entries).contains(entries[i].0),
{
    lemma_available_exactly(entries, entries[i].0);
}

/// A key that is not a well-formed date is never an available date.
pub proof fn lemma_malformed_key_dropped(entries: Seq<(Seq<char>, Option<bool>)>, key: Seq<char>)
    requires
        !is_date_text(key),
    ensures
        !available(entries).contains(key),
{
    lemma_available_exactly(entries, key);
}

/// Whether a response status reports success.
pub open spec fn is_success(status: u16) -> bool {
    200 <= status <= 299
}

/// What came back for one calendar request.
#[derive(Debug)]
pub enum Response {
    /// The server answered with `status` and `body`.
    Received { status: u16, body: String },
    /// No answer was had: the request could not be sent, or timed out.
    Unreachable { message: String },
}

/// Why one component's calendar could not be had.
#[derive(Debug)]
pub enum FetchError {
    /// No response came from `url`.
    Transport { url: String, message: String },
    /// `url` answered with a status other than success.
    Remote { url: String, status: u16 },
    /// What `url` sent is not a JSON object.
    Decode { url: String },
}

/// The address of the calendar of `component` for `target`.
pub fn calendar_url(target: &str, component: &str) -> (r: String)
    ensures
        r@ == calendar_address(target@, component@),
{
    let mut u = "https://rust-lang.github.io/rustup-components-history/".to_owned();
    u.append(target);
    u.append("/");
    u.append(component);
    u.append(".json");
    u
}

/// Relies on serde_json::from_str into a serde_json::Map: reads `body` as one
/// JSON object, giving each member's key and, where its value is a JSON
/// boolean, that boolean. The keys of such a map are distinct.
#[verifier::external_body]
fn parse_object(body: &str) -> (r: Result<Vec<(String, Option<bool>)>, serde_json::Error>)
    ensures
        match r {
            Ok(v) => calendar_entries(body@) == Some(entry_views(v@)),
            Err(_) => calendar_entries(body@) is None,
        },
        r is Ok ==> distinct_keys(entry_views(r->Ok_0@)),
{
    let object: serde_json::Map<String, serde_json::Value> = serde_json::from_str(body)?;
    Ok(
        object.into_iter().map(
            |(k, v)|
                (k, match v {
                    serde_json::Value::Bool(b) => Some(b),
                    _ => None,
                }),
        ).collect(),
    )
}

/// The available dates of a calendar: the keys that are well-formed dates and
/// whose value is `true`, in the calendar's order. Other entries are skipped.
pub fn available_dates(entries: &Vec<(String, Option<bool>)>) -> (r: Vec<Date>)
    ensures
        date_views(r@) == available(entry_views(entries@)),
{
    let ghost ev = entry_views(entries@);
    let ghost pred = |e: (Seq<char>, Option<bool>)| marks_available(e);
    let mut r: Vec<Date> = Vec::new();
    let mut i: usize = 0;
    assert(ev.take(0).filter(pred) =~= Seq::<(Seq<char>, Option<bool>)>::empty());
    assert(date_views(r@) =~= available(ev.take(0)));
    while i < entries.len()
        invariant
            ev == entry_views(entries@),
            pred == (|e: (Seq<char>, Option<bool>)| marks_available(e)),
            0 <= i <= entries.len(),
            date_views(r@) == available(ev.take(i as int)),
        decreases entries.len() - i,
    {
        assert(ev.take(i + 1).drop_last() =~= ev.take(i as int));
        assert(ev.take(i + 1).last() == ev[i as int]);
        proof {
            reveal(Seq::filter);
        }
        let ghost prev = ev.take(i as int).filter(pred);
        assert(ev[i as int] == (entries@[i as int].0@, entries@[i as int].1));
        let ghost before = r@;
        let flag = entries[i].1;
        let found = match flag {
            Some(true) => Date::parse(entries[i].0.as_str()),
            _ => None,
        };
        match found {
            Some(d) => {
                r.push(d);
                assert(date_views(r@) =~= date_views(before).push(ev[i as int].0));
                assert(ev.take(i + 1).filter(pred) == prev.push(ev[i as int]));
                assert(available(ev.take(i + 1)) =~= available(ev.take(i as int)).push(
                    ev[i as int].0,
                ));
            },
            None => {
                assert(ev.take(i + 1).filter(pred) == prev);
            },
        }
        i = i + 1;
    }
    assert(ev.take(entries.len() as int) =~= ev);
    r
}

/// The available dates of the calendar that `body` holds; `None` when `body`
/// is not a JSON object.
pub fn calendar_dates(body: &str) -> (r: Option<Vec<Date>>)
    ensures
        match calendar_entries(body@) {
            None => r is None,
            Some(e) => r matches Some(v) && date_views(v@) == available(e),
        },
{
    match parse_object(body) {
        Ok(entries) => Some(available_dates(&entries)),
        Err(_) => None,
    }
}

/// The available dates that the response to a request for `url` gives, or why
/// it gives none.
pub fn read_response(url: &str, response: Response) -> (r: Result<Vec<Date>, FetchError>)
    ensures
        match response {
            Response::Unreachable { message } => r matches Err(
                FetchError::Transport { url: u, message: m },
            ) && u@ == url@ && m == message,
            Response::Received { status, body } => if !is_success(status) {
                r matches Err(FetchError::Remote { url: u, status: s }) && u@ == url@ && s == status
            } else {
                match calendar_entries(body@) {
                    None => r matches Err(FetchError::Decode { url: u }) && u@ == url@,
                    Some(e) => r matches Ok(v) && date_views(v@) == available(e),
                }
            },
        },
{
    match response {
        Response::Unreachable { message } => Err(FetchError::Transport { url: url.to_owned(), message }),
        Response::Received { status, body } => {
            if status < 200 || status > 299 {
                Err(FetchError::Remote { url: url.to_owned(), status })
            } else {
                match calendar_dates(body.as_str()) {
                    Some(v) => Ok(v),
                    None => Err(FetchError::Decode { url: url.to_owned() }),
                }
            }
        },
    }
}

} // verus!
