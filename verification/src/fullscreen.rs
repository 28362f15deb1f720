//! Whether the page in front has taken an element fullscreen, heard from the
//! page by one long-standing `Runtime.evaluate`, and the pane given to it whole
//! while it has.
//!
//! The engine sends no event for it, so the page is asked to answer when it
//! changes: a promise that resolves with `"in"` or `"out"` at the next
//! `fullscreenchange`. Two watches armed on one world are not both answered, so
//! the expression settles the one before it, with `"stale"`, before it starts to
//! wait.
use vstd::prelude::*;

use crate::double::double_of;
use crate::fit::{at_least_one, bounded_product, Cells, Metrics};
use crate::json::{
    field, field2, lemma_each_is_found, lemma_none_is_found, named_once, record_of, text_of, Json, Value,
};
use crate::strings::same;

verus! {

/// The watch, up to the state it expects.
pub const WATCH_HEAD: &'static str = "new Promise(function (resolve) {var held = self.__blinktermFullscreen;if \
(typeof held === 'function') held('stale');var done = false;var settle = \
function (word) {if (done) return; done = \
true;document.removeEventListener('fullscreenchange', change);if \
(self.__blinktermFullscreen === settle) self.__blinktermFullscreen = \
null;resolve(word);};var change = function () { \
settle(document.fullscreenElement ? 'in' : 'out'); \
};self.__blinktermFullscreen = settle;if (!!document.fullscreenElement !== ";

/// The watch, after the state it expects.
pub const WATCH_TAIL: &'static str = ") { change(); return; }document.addEventListener('fullscreenchange', \
change);})";

/// The watch that expects this state.
pub open spec fn watching(expected: bool) -> Seq<char> {
    WATCH_HEAD@ + (if expected {
        "true"@
    } else {
        "false"@
    }) + WATCH_TAIL@
}

/// The expression armed in the isolated world: resolves with `"in"` or
/// `"out"` at the next `fullscreenchange`, or at once with the current state
/// if `document.fullscreenElement` disagrees with `expected`, so that a watch
/// armed after the fact catches up without a change having to happen.
pub fn watch_expression(expected: bool) -> (r: String)
    ensures
        r@ == watching(expected),
{
    let mut out = WATCH_HEAD.to_owned();
    out.append(
        if expected {
            "true"
        } else {
            "false"
        },
    );
    out.append(WATCH_TAIL);
    out
}

/// `Runtime.evaluate` parameters for [`watch_expression`] in world
/// `context`: the promise awaited, the answer by value.
pub fn watch_params(context: i64, expected: bool) -> (r: Json)
    ensures
        r@ == watch_of(context, expected),
        r@ == Value::Record(
            seq![
                ("expression"@, Value::Text(watching(expected))),
                ("contextId"@, Value::Number(double_of(context as int))),
                ("awaitPromise"@, Value::Bool(true)),
                ("returnByValue"@, Value::Bool(true)),
            ],
        ),
{
    let fields = vec![
        ("expression", Json::string(watch_expression(expected).as_str())),
        ("contextId", Json::number(context)),
        ("awaitPromise", Json::Bool(true)),
        ("returnByValue", Json::Bool(true)),
    ];
    proof {
        assert(record_of(fields@) =~= seq![
            ("expression"@, Value::Text(watching(expected))),
            ("contextId"@, Value::Number(double_of(context as int))),
            ("awaitPromise"@, Value::Bool(true)),
            ("returnByValue"@, Value::Bool(true)),
        ]);
    }
    Json::object(fields)
}

/// The expression that leaves: `document.exitFullscreen()`, with its
/// promise's rejection swallowed, since leaving when not in is a rejection.
pub const EXIT: &'static str = "document.exitFullscreen().catch(function () {})";

/// The parameters of the `Runtime.evaluate` that leaves.
pub open spec fn leaving(context: Option<i64>) -> Value {
    let said = seq![("expression"@, Value::Text(EXIT@))];
    Value::Record(
        match context {
            Some(id) => said.push(
                ("contextId"@, Value::Number(double_of(id as int))),
            ),
            None => said,
        },
    )
}

/// `Runtime.evaluate` parameters for [`EXIT`]: in world `context` when one
/// is known, else in the page's main world.
pub fn exit_params(context: Option<i64>) -> (r: Json)
    ensures
        r@ == leaving(context),
{
    let mut fields = vec![("expression", Json::string(EXIT))];
    match context {
        Some(id) => fields.push(("contextId", Json::number(id))),
        None => {},
    }
    proof {
        assert(record_of(fields@) =~= leaving(context)->Record_0);
    }
    Json::object(fields)
}

/// What a watch's reply said.
#[derive(Debug, Clone, Copy, PartialEq, Eq, Structural)]
pub enum Heard {
    /// The page took an element fullscreen.
    In,
    /// It let it go.
    Out,
    /// The document went, or the reply was not one of the two words. Nothing
    /// is fullscreen after that, and a new watch needs a new world.
    Gone,
}

/// What a reply that came says.
pub open spec fn heard_in(reply: Value) -> Heard {
    if field(reply, "exceptionDetails"@) is Some {
        Heard::Gone
    } else if text_of(field2(reply, "result"@, "value"@)) == Some("in"@) {
        Heard::In
    } else if text_of(field2(reply, "result"@, "value"@)) == Some("out"@) {
        Heard::Out
    } else {
        Heard::Gone
    }
}

/// A watch's reply, read. Matched against the two words and never drawn.
pub fn heard(reply: &Result<Json, String>) -> (r: Heard)
    ensures
        r == (match *reply {
            Ok(v) => heard_in(v@),
            Err(_) => Heard::Gone,
        }),
{
    proof {
        reveal_strlit("in");
        reveal_strlit("out");
        assert("in"@.len() != "out"@.len());
    }
    match reply {
        Ok(v) => {
            if v.get("exceptionDetails").is_some() {
                return Heard::Gone;
            }
            match v.text_at2("result", "value") {
                Some(word) => if same(word, "in") {
                    Heard::In
                } else if same(word, "out") {
                    Heard::Out
                } else {
                    Heard::Gone
                },
                None => Heard::Gone,
            }
        },
        Err(_) => Heard::Gone,
    }
}

/// Where the picture goes and how big the page is: the pane less the status
/// row, or the whole pane.
#[derive(Debug, Clone, Copy, PartialEq, Eq, Structural)]
pub struct Layout {
    pub whole: bool,
}

impl Default for Layout {
    fn default() -> (r: Layout)
        ensures
            r == (Layout { whole: false }),
    {
        Layout { whole: false }
    }
}

impl Layout {
    /// The page's size in cells.
    pub open spec fn size(self, metrics: Metrics) -> Cells {
        Cells {
            cols: at_least_one(metrics.cols as int),
            rows: if self.whole {
                at_least_one(metrics.rows as int)
            } else {
                at_least_one(metrics.rows - 1)
            },
        }
    }

    /// The row of the pane that the page starts on, one-based.
    pub open spec fn first_row(self) -> int {
        if self.whole {
            1
        } else {
            2
        }
    }

    /// The row the picture starts on, one-based: 2 under the status row, 1
    /// with the whole pane.
    pub fn page_row(self) -> (r: u32)
        ensures
            r == self.first_row(),
            r == (if self.whole {
                1u32
            } else {
                2
            }),
    {
        if self.whole {
            1
        } else {
            2
        }
    }

    /// Rows reserved above the page: 1, or 0.
    pub fn reserved_rows(self) -> (r: u32)
        ensures
            r == self.first_row() - 1,
            r == (if self.whole {
                0u32
            } else {
                1
            }),
    {
        self.page_row() - 1
    }

    /// The page's size in cells, which is what the placement asks for.
    pub fn cells(self, metrics: Metrics) -> (r: Cells)
        ensures
            r == self.size(metrics),
    {
        Cells {
            cols: if metrics.cols == 0 {
                1
            } else {
                metrics.cols
            },
            rows: if self.whole {
                if metrics.rows == 0 {
                    1
                } else {
                    metrics.rows
                }
            } else {
                metrics.usable_rows()
            },
        }
    }

    /// The page's size in pixels: exactly its cells, so that the picture is
    /// never resampled into them.
    pub fn pixels(self, metrics: Metrics) -> (r: (u32, u32))
        ensures
            r == (
                bounded_product(self.size(metrics).cols, metrics.cell.0),
                bounded_product(self.size(metrics).rows, metrics.cell.1),
            ),
    {
        let cells = self.cells(metrics);
        (
            crate::fit::product(cells.cols, metrics.cell.0),
            crate::fit::product(cells.rows, metrics.cell.1),
        )
    }
}

/// The one rule: the whole pane when the page in front is fullscreen and
/// nothing owns the row. A dialog, the url bar and the allow line need the row,
/// and the page is given the shorter viewport again while they have it.
pub fn layout(fullscreen: bool, row_owned: bool) -> (r: Layout)
    ensures
        r.whole == takes_the_pane(fullscreen, row_owned),
        r == (Layout { whole: fullscreen && !row_owned }),
{
    Layout { whole: fullscreen && !row_owned }
}

/// The rows above the page and the page's own are the pane's, as long as the
/// pane has a row for each.
pub proof fn law_the_page_and_the_row_fill_the_pane(l: Layout, metrics: Metrics)
    requires
        metrics.rows >= 2,
    ensures
        l.size(metrics).rows + (if l.whole {
            0int
        } else {
            1
        }) == metrics.rows,
{
}

/// A page is never of nothing, however small the pane.
pub proof fn law_a_page_is_of_something(l: Layout, metrics: Metrics)
    ensures
        l.size(metrics).cols >= 1,
        l.size(metrics).rows >= 1,
{
}

/// The page starts on the row after those above it and ends on the last of the
/// pane: what is above it and what it takes are all there is.
pub proof fn law_the_page_ends_with_the_pane(l: Layout, metrics: Metrics)
    requires
        metrics.rows >= 2,
        metrics.cols >= 1,
    ensures
        l.first_row() + l.size(metrics).rows - 1 == metrics.rows,
        l.size(metrics).cols == metrics.cols,
        (Layout { whole: true }).first_row() == 1,
        (Layout { whole: false }).first_row() == 2,
{
}

/// The page says that it went in or that it came out; anything else, and any
/// failure, is that it is gone.
pub proof fn law_a_page_says_in_or_out(said: Value)
    ensures
        ({
            let reply = Value::Record(seq![("result"@, Value::Record(seq![("value"@, said)]))]);
            &&& heard_in(reply) == Heard::In <==> said == Value::Text("in"@)
            &&& heard_in(reply) == Heard::Out <==> said == Value::Text("out"@)
        }),
        heard_in(Value::Record(seq![("exceptionDetails"@, said)])) == Heard::Gone,
{
    reveal_strlit("in");
    reveal_strlit("out");
    reveal_strlit("result");
    reveal_strlit("exceptionDetails");
    assert("in"@.len() == 2);
    assert("out"@.len() == 3);
    assert("result"@.len() == 6);
    assert("exceptionDetails"@.len() == 16);
    let inner = seq![("value"@, said)];
    let outer = seq![("result"@, Value::Record(inner))];
    assert(inner[0].0 == "value"@);
    assert(outer[0].0 == "result"@);
    let threw = seq![("exceptionDetails"@, said)];
    assert(threw[0].0 == "exceptionDetails"@);
    lemma_each_is_found(inner);
    lemma_each_is_found(outer);
    lemma_each_is_found(threw);
    lemma_none_is_found(outer, "exceptionDetails"@);
}

/// Leaving is asked of the context that holds the page, when there is one.
pub proof fn law_leaving_is_asked_of_its_context(context: Option<i64>)
    ensures
        text_of(field(leaving(context), "expression"@)) == Some(EXIT@),
        field(leaving(context), "contextId"@) == match context {
            Some(id) => Some(Value::Number(double_of(id as int))),
            None => None,
        },
{
    let fields = leaving(context)->Record_0;
    reveal_strlit("expression");
    reveal_strlit("contextId");
    assert("expression"@.len() == 10);
    assert("contextId"@.len() == 9);
    assert(fields[0].0 == "expression"@);
    if context is Some {
        assert(fields[1].0 == "contextId"@);
    } else {
        lemma_none_is_found(fields, "contextId"@);
    }
    assert(named_once(fields));
    lemma_each_is_found(fields);
}

/// Whether the page takes the whole pane.
pub open spec fn takes_the_pane(fullscreen: bool, row_owned: bool) -> bool {
    fullscreen && !row_owned
}

/// What a page is watched with.
pub open spec fn watch_of(context: i64, expected: bool) -> Value {
    Value::Record(
        seq![
            ("expression"@, Value::Text(watching(expected))),
            ("contextId"@, Value::Number(double_of(context as int))),
            ("awaitPromise"@, Value::Bool(true)),
            ("returnByValue"@, Value::Bool(true)),
        ],
    )
}

/// A page takes the whole pane when it asked for it and nobody needs the row, and
/// gives the row back as soon as somebody does.
pub proof fn law_the_row_comes_back_when_it_is_needed(fullscreen: bool, row_owned: bool)
    ensures
        takes_the_pane(true, false),
        !takes_the_pane(fullscreen, true),
        !takes_the_pane(false, row_owned),
{
}

/// A page is watched in the world that is the program's, until it says that it
/// changed from what was last known.
pub proof fn law_a_page_is_watched_from_what_was_known(context: i64, expected: bool)
    ensures
        text_of(field(watch_of(context, expected), "expression"@)) == Some(
            WATCH_HEAD@ + (if expected {
                "true"@
            } else {
                "false"@
            }) + WATCH_TAIL@,
        ),
        field(watch_of(context, expected), "contextId"@) == Some(
            Value::Number(double_of(context as int)),
        ),
        field(watch_of(context, expected), "awaitPromise"@) == Some(Value::Bool(true)),
        field(watch_of(context, expected), "returnByValue"@) == Some(Value::Bool(true)),
{
    let fields = watch_of(context, expected)->Record_0;
    reveal_strlit("expression");
    reveal_strlit("contextId");
    reveal_strlit("awaitPromise");
    reveal_strlit("returnByValue");
    assert("expression"@.len() == 10);
    assert("contextId"@.len() == 9);
    assert("awaitPromise"@.len() == 12);
    assert("returnByValue"@.len() == 13);
    assert(fields[0].0 == "expression"@ && fields[1].0 == "contextId"@ && fields[2].0
        == "awaitPromise"@ && fields[3].0 == "returnByValue"@);
    assert(named_once(fields));
    lemma_each_is_found(fields);
}

}
