//! Whether a page came: what its landing, its load and a navigation's reply
//! say.
use vstd::prelude::*;

use crate::dialog::text_or_empty;
use crate::json::{
    field, field2, lemma_each_is_found, lemma_list_view, lemma_none_is_found, list_of, named_once,
    record_of, text_of, whole_of, Json, Value,
};
use crate::strings::{is_blank, same};

verus! {

/// The expression a page is asked for what it calls itself, and for the status
/// its document came with.
pub const LOADED: &'static str = "[document.title,\
((performance.getEntriesByType('navigation')[0]||{}).responseStatus||0)]";

/// What a page says of itself once it has loaded.
#[derive(Debug, PartialEq, Eq)]
pub struct Loaded {
    pub title: String,
    /// The status its document came with, when it came with one.
    pub status: Option<u32>,
}

/// What a [`Loaded`] is.
#[verifier::ext_equal]
pub struct Report {
    pub title: Seq<char>,
    pub status: Option<u32>,
}

impl View for Loaded {
    type V = Report;

    open spec fn view(&self) -> Report {
        Report { title: self.title@, status: self.status }
    }
}

/// Where a page's main frame has gone.
#[derive(Debug, PartialEq, Eq)]
pub struct Landing {
    /// The url it went to, or the one that did not come.
    pub url: String,
    /// Whether it came.
    pub came: bool,
}

/// What a [`Landing`] is.
#[verifier::ext_equal]
pub struct Arrival {
    pub url: Seq<char>,
    pub came: bool,
}

impl View for Landing {
    type V = Arrival;

    open spec fn view(&self) -> Arrival {
        Arrival { url: self.url@, came: self.came }
    }
}

/// The parameters of the evaluation that asks a page what it calls itself. The
/// list comes back by value: otherwise it would be a handle to an object in the
/// page.
pub open spec fn loaded_asked() -> Value {
    Value::Record(
        seq![("expression"@, Value::Text(LOADED@)), ("returnByValue"@, Value::Bool(true))],
    )
}

/// The parameters of the evaluation that asks a page what it calls itself.
pub fn loaded_params() -> (r: Json)
    ensures
        r@ == loaded_asked(),
{
    let fields = vec![
        ("expression", Json::string(LOADED)),
        ("returnByValue", Json::Bool(true)),
    ];
    proof {
        assert(record_of(fields@) =~= loaded_asked()->Record_0);
    }
    Json::object(fields)
}

/// The status a value is, when it is one.
pub open spec fn status_of(v: Value) -> Option<u32> {
    match whole_of(Some(v)) {
        Some(n) => if 0 < n <= 999 {
            Some(n as u32)
        } else {
            None
        },
        None => None,
    }
}

/// What a page said of itself.
pub open spec fn report_of(answer: Value) -> Option<Report> {
    match list_of(field2(answer, "result"@, "value"@)) {
        Some(items) => if items.len() > 0 && items[0] is Text {
            Some(
                Report {
                    title: items[0]->Text_0,
                    status: if items.len() > 1 {
                        status_of(items[1])
                    } else {
                        None
                    },
                },
            )
        } else {
            None
        },
        None => None,
    }
}

/// The status a value is, when it is one.
fn status_in(v: &Json) -> (r: Option<u32>)
    ensures
        r == status_of(v@),
{
    match v.as_i64() {
        Some(n) => if 0 < n && n <= 999 {
            Some(n as u32)
        } else {
            None
        },
        None => None,
    }
}

/// What a page said of itself; `None` for a page that did not say.
pub fn loaded(answer: &Json) -> (r: Option<Loaded>)
    ensures
        match r {
            Some(l) => report_of(answer@) == Some(l@),
            None => report_of(answer@) is None,
        },
{
    let value = match answer.get2("result", "value") {
        Some(v) => v,
        None => return None,
    };
    let items = match value.as_array() {
        Some(items) => items,
        None => return None,
    };
    proof {
        lemma_list_view(*items);
    }
    if items.len() == 0 {
        return None;
    }
    proof {
        assert(value@->List_0[0] == items@[0]@);
    }
    match items[0].as_str() {
        Some(title) => {
            let status = if items.len() > 1 {
                proof {
                    assert(value@->List_0[1] == items@[1]@);
                }
                status_in(&items[1])
            } else {
                None
            };
            Some(Loaded { title: title.to_owned(), status })
        },
        None => None,
    }
}

/// Where a `Page.frameNavigated` says the main frame has gone: of the engine's
/// own error page, the url that did not come. `None` for any other frame.
pub open spec fn arrival_of(params: Value) -> Option<Arrival> {
    match field(params, "frame"@) {
        Some(frame) => if field(frame, "parentId"@) is Some {
            None
        } else {
            match text_of(field(frame, "unreachableUrl"@)) {
                Some(url) => Some(Arrival { url, came: false }),
                None => match text_of(field(frame, "url"@)) {
                    Some(url) => Some(
                        Arrival { url: url + text_or_empty(frame, "urlFragment"@), came: true },
                    ),
                    None => None,
                },
            }
        },
        None => None,
    }
}

/// Where a `Page.frameNavigated` says the main frame has gone.
pub fn landing(params: &Json) -> (r: Option<Landing>)
    ensures
        match r {
            Some(l) => arrival_of(params@) == Some(l@),
            None => arrival_of(params@) is None,
        },
{
    let frame = match params.get("frame") {
        Some(frame) => frame,
        None => return None,
    };
    if frame.get("parentId").is_some() {
        return None;
    }
    match frame.text_at("unreachableUrl") {
        Some(url) => return Some(Landing { url: url.to_owned(), came: false }),
        None => {},
    }
    match frame.text_at("url") {
        Some(url) => {
            let mut whole = url.to_owned();
            match frame.text_at("urlFragment") {
                Some(fragment) => whole.append(fragment),
                None => {
                    proof {
                        assert(url@ + Seq::<char>::empty() =~= url@);
                    }
                },
            }
            Some(Landing { url: whole, came: true })
        },
        None => None,
    }
}

/// Why a navigation did not come, out of the reply to it. One that was given
/// up, because the person stayed or the url was a file, is no failure.
pub open spec fn failure_of(reply: Value) -> Option<Seq<char>> {
    match text_of(field(reply, "errorText"@)) {
        Some(code) => if code.len() == 0 || code == "net::ERR_ABORTED"@ {
            None
        } else {
            Some(code)
        },
        None => None,
    }
}

/// Why a navigation did not come, out of the reply to it.
pub fn failed(reply: &Json) -> (r: Option<String>)
    ensures
        match r {
            Some(code) => failure_of(reply@) == Some(code@),
            None => failure_of(reply@) is None,
        },
{
    match reply.text_at("errorText") {
        Some(code) => if is_blank(code) || same(code, "net::ERR_ABORTED") {
            None
        } else {
            Some(code.to_owned())
        },
        None => None,
    }
}

/// The url the engine's own history says a page is on.
pub open spec fn url_in_history(history: Value) -> Option<Seq<char>> {
    match (
        whole_of(field(history, "currentIndex"@)),
        list_of(field(history, "entries"@)),
    ) {
        (Some(i), Some(entries)) => if 0 <= i < entries.len() {
            text_of(field(entries[i as int], "url"@))
        } else {
            None
        },
        _ => None,
    }
}

/// The url the engine's own history says a page is on.
pub fn current_url(history: &Json) -> (r: Option<String>)
    ensures
        match r {
            Some(url) => url_in_history(history@) == Some(url@),
            None => url_in_history(history@) is None,
        },
{
    let i: i64 = match history.get("currentIndex") {
        Some(v) => match v.as_i64() {
            Some(i) => i,
            None => return None,
        },
        None => return None,
    };
    let list = match history.get("entries") {
        Some(v) => v,
        None => return None,
    };
    let entries = match list.as_array() {
        Some(entries) => entries,
        None => return None,
    };
    proof {
        lemma_list_view(*entries);
    }
    if i < 0 || i as u64 >= entries.len() as u64 {
        return None;
    }
    proof {
        assert(list@->List_0[i as int] == entries@[i as int]@);
    }
    match entries[i as usize].text_at("url") {
        Some(url) => Some(url.to_owned()),
        None => None,
    }
}

/// A page says its title and the status that it was served with, when that is
/// one.
pub proof fn law_a_page_says_its_title_and_its_status(title: Seq<char>, n: i64, status: Value)
    requires
        whole_of(Some(status)) == Some(n),
    ensures
        ({
            let items = seq![Value::Text(title), status];
            let inner = Value::Record(seq![("value"@, Value::List(items))]);
            report_of(Value::Record(seq![("result"@, inner)])) == Some(
                Report {
                    title,
                    status: if 1 <= n <= 999 {
                        Some(n as u32)
                    } else {
                        None
                    },
                },
            )
        }),
{
    let items = seq![Value::Text(title), status];
    let inner = seq![("value"@, Value::List(items))];
    let outer = seq![("result"@, Value::Record(inner))];
    assert(inner[0].0 == "value"@);
    assert(outer[0].0 == "result"@);
    lemma_each_is_found(inner);
    lemma_each_is_found(outer);
}

/// A page arrives at its address, with what comes behind the hash; one that could
/// not be reached arrives at the address that could not; and what arrives inside
/// another page is no arrival.
pub proof fn law_a_page_arrives_at_its_address(url: Seq<char>, hash: Seq<char>, parent: Value)
    ensures
        ({
            let of = |fields: Seq<(Seq<char>, Value)>|
                arrival_of(Value::Record(seq![("frame"@, Value::Record(fields))]));
            &&& of(seq![("url"@, Value::Text(url)), ("urlFragment"@, Value::Text(hash))]) == Some(
                Arrival { url: url + hash, came: true },
            )
            &&& of(seq![("url"@, Value::Text(url))]) == Some(Arrival { url, came: true })
            &&& of(
                seq![("url"@, Value::Text(hash)), ("unreachableUrl"@, Value::Text(url))],
            ) == Some(Arrival { url, came: false })
            &&& of(seq![("url"@, Value::Text(url)), ("parentId"@, parent)]) is None
        }),
{
    reveal_strlit("url");
    reveal_strlit("urlFragment");
    reveal_strlit("unreachableUrl");
    reveal_strlit("parentId");
    assert("url"@.len() == 3);
    assert("urlFragment"@.len() == 11);
    assert("unreachableUrl"@.len() == 14);
    assert("parentId"@.len() == 8);
    let a = seq![("url"@, Value::Text(url)), ("urlFragment"@, Value::Text(hash))];
    let b = seq![("url"@, Value::Text(url))];
    let c = seq![("url"@, Value::Text(hash)), ("unreachableUrl"@, Value::Text(url))];
    let d = seq![("url"@, Value::Text(url)), ("parentId"@, parent)];
    let (e, f, g, h) = (
        seq![("frame"@, Value::Record(a))],
        seq![("frame"@, Value::Record(b))],
        seq![("frame"@, Value::Record(c))],
        seq![("frame"@, Value::Record(d))],
    );
    assert(e[0].0 == "frame"@ && f[0].0 == "frame"@ && g[0].0 == "frame"@ && h[0].0 == "frame"@);
    lemma_each_is_found(e);
    lemma_each_is_found(f);
    lemma_each_is_found(g);
    lemma_each_is_found(h);
    assert(a[0].0 == "url"@ && a[1].0 == "urlFragment"@);
    assert(b[0].0 == "url"@);
    assert(c[0].0 == "url"@ && c[1].0 == "unreachableUrl"@);
    assert(d[0].0 == "url"@ && d[1].0 == "parentId"@);
    assert(named_once(a) && named_once(b) && named_once(c) && named_once(d));
    lemma_each_is_found(a);
    lemma_each_is_found(b);
    lemma_each_is_found(c);
    lemma_each_is_found(d);
    lemma_none_is_found(a, "parentId"@);
    lemma_none_is_found(a, "unreachableUrl"@);
    lemma_none_is_found(b, "parentId"@);
    lemma_none_is_found(b, "unreachableUrl"@);
    lemma_none_is_found(b, "urlFragment"@);
    lemma_none_is_found(c, "parentId"@);
    assert(url + Seq::<char>::empty() =~= url);
}

/// A navigation failed when the engine says why, unless it was only given up.
pub proof fn law_a_navigation_failed_when_the_engine_says_why(code: Seq<char>)
    ensures
        ({
            let reply = Value::Record(seq![("errorText"@, Value::Text(code))]);
            failure_of(reply) == if code == "net::ERR_ABORTED"@ || code.len() == 0 {
                None
            } else {
                Some(code)
            }
        }),
        failure_of(Value::Record(Seq::empty())) is None,
{
    let fields = seq![("errorText"@, Value::Text(code))];
    assert(fields[0].0 == "errorText"@);
    lemma_each_is_found(fields);
    lemma_none_is_found(Seq::empty(), "errorText"@);
}

/// The page that history stands at is the one at its index.
pub proof fn law_history_stands_at_its_index(before: Seq<Value>, after: Seq<Value>, url: Seq<char>, at: Value)
    requires
        whole_of(Some(at)) == Some(before.len() as i64),
        before.len() <= i64::MAX,
    ensures
        ({
            let entry = Value::Record(seq![("url"@, Value::Text(url))]);
            url_in_history(
                Value::Record(
                    seq![
                        ("currentIndex"@, at),
                        ("entries"@, Value::List(before + seq![entry] + after)),
                    ],
                ),
            ) == Some(url)
        }),
{
    let entry = seq![("url"@, Value::Text(url))];
    let fields = seq![
        ("currentIndex"@, at),
        ("entries"@, Value::List(before + seq![Value::Record(entry)] + after)),
    ];
    reveal_strlit("currentIndex");
    reveal_strlit("entries");
    assert("currentIndex"@.len() == 12);
    assert("entries"@.len() == 7);
    assert(entry[0].0 == "url"@);
    assert(fields[0].0 == "currentIndex"@ && fields[1].0 == "entries"@);
    assert(named_once(fields));
    lemma_each_is_found(entry);
    lemma_each_is_found(fields);
    assert((before + seq![Value::Record(entry)] + after)[before.len() as int] == Value::Record(
        entry,
    ));
}

/// What a page that loaded is asked comes back as values.
pub proof fn law_what_a_page_is_asked_comes_back()
    ensures
        text_of(field(loaded_asked(), "expression"@)) == Some(LOADED@),
        field(loaded_asked(), "returnByValue"@) == Some(Value::Bool(true)),
{
    let fields = loaded_asked()->Record_0;
    reveal_strlit("expression");
    reveal_strlit("returnByValue");
    assert("expression"@.len() == 10);
    assert("returnByValue"@.len() == 13);
    assert(fields[0].0 == "expression"@ && fields[1].0 == "returnByValue"@);
    assert(named_once(fields));
    lemma_each_is_found(fields);
}

}
