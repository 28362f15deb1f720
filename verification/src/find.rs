//! Find in page: a `find:` prompt on the row, and a script in a world of its
//! own that counts, highlights and scrolls.
//!
//! The script goes whole with every call, with the needle and the step as its
//! arguments: the needle is a JSON value, so a quote in it is a quote. A search
//! is sent and its answer collected later, and the keys typed meanwhile are
//! folded into one [`Ask`].
//!
//! Nothing here talks to the engine or the terminal: this holds the script,
//! builds the parameters, reads the replies, decides what a key means to the
//! prompt and what the row says about the answer.
use vstd::prelude::*;

use crate::double::double_of;
use crate::glass::lemma_first_piece;
use crate::input::{Key, KeyAction, KeyInput};
use crate::json::{
    field, field2, lemma_each_is_found, lemma_list_view, lemma_none_is_found, list_of, named_once,
    record_of, text_of, whole_of, Json, Value,
};
use crate::line::{Edit, Line, Typing};
use crate::strings::{
    chars_of, contains_word, decimal, decimal_string, holds, is_blank, is_digit, lemma_decimal, pieces,
    same,
};
use crate::text::{all_plain, lemma_decimal_is_plain, lemma_joined_is_plain};

verus! {

/// The name of the isolated world the script runs in, and the stem of the
/// highlights it registers.
pub const WORLD: &'static str = "blinkterm";

/// The most ranges the script highlights; every match is counted.
pub const MAX_HIGHLIGHTED: u32 = 10_000;

/// The script, as the `functionDeclaration` of a `Runtime.callFunctionOn`:
/// `function (needle, step)`, answering `[count, current, scrolled,
/// highlighted]`.
///
/// A new needle is searched from scratch and its current match is the first one
/// in the viewport, else the first below it, else the first on the page. The
/// same needle again moves the current match by `step`, wrapping either way. An
/// empty needle clears everything the script did.
pub const SCRIPT: &'static str = r#"function (needle, step) {
  // State lives on the isolated world's global, which the page cannot see.
  var W = globalThis, S = W.__blinktermFind;
  if (!S) S = W.__blinktermFind = { needle: '', ranges: [], at: -1, count: 0,
                                    sheets: [], all: new Map(), frames: [] };
  var NAME = 'blinkterm-find', CUR = 'blinkterm-find-current';
  var CSSTEXT = '::highlight(' + NAME + '){background-color:#ff0;color:#000}' +
                '::highlight(' + CUR + '){background-color:#f80;color:#000}';
  // Elements whose text is not the page's words.
  var SKIP = { SCRIPT: 1, STYLE: 1, NOSCRIPT: 1, TEMPLATE: 1, TEXTAREA: 1,
               TITLE: 1, HEAD: 1, SELECT: 1 };
  // Elements that do not break a run of text: a match may cross them.
  var INLINE = { A: 1, ABBR: 1, B: 1, BDI: 1, BDO: 1, BIG: 1, CITE: 1, CODE: 1,
    DATA: 1, DEL: 1, DFN: 1, EM: 1, FONT: 1, I: 1, INS: 1, KBD: 1, LABEL: 1,
    MARK: 1, Q: 1, RT: 1, RUBY: 1, S: 1, SAMP: 1, SMALL: 1, SPAN: 1, STRIKE: 1,
    STRONG: 1, SUB: 1, SUP: 1, TIME: 1, TT: 1, U: 1, VAR: 1, WBR: 1 };
  var MAX_RANGES = 10000, MAX_DEPTH = 8;

  // Lower-case without changing the length, so that an index into the
  // folded text is an index into the original: a character whose lower case
  // is longer (U+0130) is kept as it is.
  function fold(t) {
    var l = t.toLowerCase();
    if (l.length === t.length) return l;
    var o = '';
    for (var c of t) { var d = c.toLowerCase(); o += d.length === c.length ? d : c; }
    return o;
  }
  // The nearest ancestor that is not inline: two text nodes with different
  // ones are in different blocks, and a newline goes between them.
  function block(n) {
    var e = n.parentNode;
    while (e && e.nodeType === 1 && INLINE[e.tagName]) e = e.parentNode;
    return e;
  }
  function isWs(c) { return c === 32 || c === 9 || c === 10 || c === 13 || c === 12 || c === 0xa0; }

  // The visible text of `doc` and of the same-origin frames in it, as one
  // string with runs of whitespace as one space, plus for every character
  // which text node it came from and at what offset.
  function Out() { this.parts = []; this.len = 0; this.nodes = []; this.starts = []; this.off = new Int32Array(1 << 16); }
  Out.prototype.push = function (ch, n, i) {
    if (this.len === this.off.length) { var g = new Int32Array(this.len * 2); g.set(this.off); this.off = g; }
    this.off[this.len++] = n ? i : -1;
    this.parts.push(ch);
  };
  function collect(doc, depth, out, frames) {
    var root = doc.body || doc.documentElement;
    if (!root) return;
    var walker = doc.createTreeWalker(root, 1 | 4, { acceptNode: function (n) {
      if (n.nodeType === 1) {
        if (SKIP[n.tagName]) return 2;                                       // reject the subtree
        if (n.checkVisibility && !n.checkVisibility({ visibilityProperty: true })) return 2;
        return n.tagName === 'IFRAME' ? 1 : 3;                              // frames are visited; other elements only descended
      }
      return 1;
    } });
    var prevBlock = null, n;
    while ((n = walker.nextNode())) {
      if (n.nodeType === 1) {
        if (depth < MAX_DEPTH) {
          var cd = null;
          try { cd = n.contentDocument; } catch (e) { }                     // null across an origin
          if (cd) { frames.push(cd); collect(cd, depth + 1, out, frames); prevBlock = null; }
        }
        continue;
      }
      var data = n.data;
      if (!data) continue;
      var b = block(n);
      if (prevBlock && b !== prevBlock) out.push('\n', null, 0);
      prevBlock = b;
      out.nodes.push(n); out.starts.push(out.len);
      var ws = false;
      for (var i = 0; i < data.length; i++) {
        var c = data.charCodeAt(i);
        if (isWs(c)) { if (ws) continue; ws = true; out.push(' ', n, i); }
        else { ws = false; out.push(data[i], n, i); }
      }
    }
  }
  function nodeAt(out, idx) {
    var lo = 0, hi = out.starts.length - 1;
    while (lo < hi) { var m = (lo + hi + 1) >> 1; if (out.starts[m] <= idx) lo = m; else hi = m - 1; }
    return out.nodes[lo];
  }
  function build(needle) {
    var out = new Out(), frames = [];
    collect(W.document, 0, out, frames);
    var hay = fold(out.parts.join('')), nd = fold(needle);
    var ranges = [], count = 0, i = 0;
    while ((i = hay.indexOf(nd, i)) !== -1) {
      count++;
      if (ranges.length < MAX_RANGES) {
        var e = i + nd.length - 1, a = nodeAt(out, i), z = nodeAt(out, e);
        var r = a.ownerDocument.createRange();
        r.setStart(a, out.off[i]); r.setEnd(z, out.off[e] + 1);
        ranges.push(r);
      }
      i += nd.length;
    }
    S.frames = frames;
    return { ranges: ranges, count: count };
  }
  // One constructed stylesheet per document, adopted; put back if the page
  // took it away.
  function styled(doc) {
    var win = doc.defaultView; if (!win || !win.CSSStyleSheet) return;
    for (var k = 0; k < S.sheets.length; k++) if (S.sheets[k].doc === doc) {
      if (doc.adoptedStyleSheets.indexOf(S.sheets[k].sheet) === -1)
        doc.adoptedStyleSheets = doc.adoptedStyleSheets.concat([S.sheets[k].sheet]);
      return;
    }
    var sheet = new win.CSSStyleSheet(); sheet.replaceSync(CSSTEXT);
    doc.adoptedStyleSheets = doc.adoptedStyleSheets.concat([sheet]);
    S.sheets.push({ doc: doc, sheet: sheet });
  }
  function paint() {
    var api = !!(W.Highlight && W.CSS && W.CSS.highlights);
    var docs = [W.document].concat(S.frames);
    for (var d = 0; d < docs.length; d++) {
      var doc = docs[d], win = doc.defaultView;
      if (!win || !win.CSS || !win.CSS.highlights) continue;
      var mine = S.ranges.filter(function (r) { return r.startContainer.ownerDocument === doc; });
      if (!mine.length) { win.CSS.highlights.delete(NAME); win.CSS.highlights.delete(CUR); continue; }
      styled(doc);
      var all = S.all.get(doc);
      if (!all || all.needle !== S.needle) {
        var h = new win.Highlight(); for (var k = 0; k < mine.length; k++) h.add(mine[k]);
        all = { needle: S.needle, h: h }; S.all.set(doc, all);
      }
      if (win.CSS.highlights.get(NAME) !== all.h) win.CSS.highlights.set(NAME, all.h);
      var cur = S.ranges[S.at];
      if (cur && cur.startContainer.ownerDocument === doc) win.CSS.highlights.set(CUR, new win.Highlight(cur));
      else win.CSS.highlights.delete(CUR);
    }
    if (!api && S.at >= 0) {                                                // an engine before Chromium 105
      var cur2 = S.ranges[S.at], sel = cur2.startContainer.ownerDocument.getSelection();
      sel.removeAllRanges(); sel.addRange(cur2);
    }
    return api;
  }
  function clear() {
    var docs = [W.document].concat(S.frames);
    for (var d = 0; d < docs.length; d++) {
      var win = docs[d].defaultView; if (!win || !win.CSS || !win.CSS.highlights) continue;
      win.CSS.highlights.delete(NAME); win.CSS.highlights.delete(CUR);
    }
    for (var k = 0; k < S.sheets.length; k++) {
      var doc = S.sheets[k].doc, i = doc.adoptedStyleSheets.indexOf(S.sheets[k].sheet);
      if (i !== -1) { var a = doc.adoptedStyleSheets.slice(); a.splice(i, 1); doc.adoptedStyleSheets = a; }
    }
    S.sheets = []; S.ranges = []; S.needle = ''; S.at = -1; S.count = 0; S.all = new Map(); S.frames = [];
  }
  // The first match in view, else the first below the fold, else the first.
  function firstInView(ranges) {
    for (var k = 0; k < ranges.length; k++) {
      var b = ranges[k].getBoundingClientRect(), vh = ranges[k].startContainer.ownerDocument.defaultView.innerHeight;
      if (b.bottom >= 0 && b.top < vh) return k;
      if (b.top >= vh) return k;
    }
    return 0;
  }
  // Bring a match into view if it is not wholly there: its parent element
  // centred (which scrolls every scroller above it, frames included), then
  // the range itself if the parent is taller than the viewport.
  function reveal(r) {
    var win = r.startContainer.ownerDocument.defaultView;
    var b = r.getBoundingClientRect(), vh = win.innerHeight, vw = win.innerWidth;
    if (b.top >= 0 && b.bottom <= vh && b.left >= 0 && b.right <= vw && (b.width || b.height)) return false;
    var el = r.startContainer.parentElement;
    if (el) el.scrollIntoView({ block: 'center', inline: 'nearest' });
    b = r.getBoundingClientRect();
    if (b.top < 0 || b.bottom > vh) win.scrollBy(0, b.top - vh / 2 + b.height / 2);
    return true;
  }

  if (!needle) { clear(); return [0, 0, false, true]; }
  var scrolled = false;
  if (needle !== S.needle) {
    var got = build(needle);
    S.needle = needle; S.ranges = got.ranges; S.count = got.count;
    S.at = S.ranges.length ? firstInView(S.ranges) : -1;
  } else if (S.ranges.length) {
    var n = S.ranges.length; S.at = ((S.at + step) % n + n) % n;
  }
  var api = paint();
  if (S.at >= 0) scrolled = reveal(S.ranges[S.at]);
  return [S.count, S.at + 1, scrolled, api];
}"#;

/// The find prompt while it is open.
#[derive(Debug, PartialEq, Eq)]
pub struct Finder {
    /// What is being typed: the needle.
    pub line: Line,
    /// What the page last answered, once it has.
    pub matches: Option<Matches>,
}

/// What the page said about a needle.
#[derive(Debug, Clone, Copy, PartialEq, Eq, Structural)]
pub struct Matches {
    /// How many, exactly, however many were highlighted.
    pub count: u32,
    /// Which one is current, from one; 0 when there are none.
    pub current: u32,
    /// Whether the page could highlight at all.
    pub highlighted: bool,
}

/// What the page is to be sent: the needle as it is now, and how many matches
/// to move by.
#[derive(Debug, PartialEq, Eq)]
pub struct Ask {
    pub needle: String,
    pub step: i32,
}

/// What an [`Ask`] is.
#[verifier::ext_equal]
pub struct Wish {
    pub needle: Seq<char>,
    pub step: i32,
}

impl View for Ask {
    type V = Wish;

    open spec fn view(&self) -> Wish {
        Wish { needle: self.needle@, step: self.step }
    }
}

/// What an optional ask is.
pub open spec fn wish(ask: Option<Ask>) -> Option<Wish> {
    match ask {
        Some(a) => Some(a@),
        None => None,
    }
}

/// A sum, kept in the range of an `i32`.
pub open spec fn bounded_sum(a: i32, b: i32) -> i32 {
    if a + b > i32::MAX {
        i32::MAX
    } else if a + b < i32::MIN {
        i32::MIN
    } else {
        (a + b) as i32
    }
}

impl Wish {
    /// This with a newer wish folded in: the newer needle wins, and the steps
    /// through one needle add.
    pub open spec fn merged(self, newer: Wish) -> Wish {
        if newer.needle != self.needle {
            newer
        } else {
            Wish { needle: newer.needle, step: bounded_sum(self.step, newer.step) }
        }
    }
}

impl Ask {
    /// Fold a newer ask into one not yet sent: the newer needle always wins
    /// and the steps add, so `Enter Enter` while a search is out is one call
    /// that moves by two.
    pub fn merge(self, newer: Ask) -> (r: Ask)
        ensures
            r@ == self@.merged(newer@),
    {
        if !same(newer.needle.as_str(), self.needle.as_str()) {
            return newer;
        }
        let sum: i64 = self.step as i64 + newer.step as i64;
        let step: i32 = if sum > i32::MAX as i64 {
            i32::MAX
        } else if sum < i32::MIN as i64 {
            i32::MIN
        } else {
            sum as i32
        };
        Ask { needle: newer.needle, step }
    }
}

/// What one key did to the prompt.
#[derive(Debug, PartialEq, Eq)]
pub enum Step {
    /// The line changed, or the cursor moved, or nothing happened; `Some` if
    /// the page should be asked something as a result.
    Typing(Option<Ask>),
    /// Escape: close, and clear the page.
    Close,
    /// `ctrl+q`.
    Quit,
}

/// What a [`Step`] is.
pub enum Stride {
    Typing(Option<Wish>),
    Close,
    Quit,
}

impl View for Step {
    type V = Stride;

    open spec fn view(&self) -> Stride {
        match *self {
            Step::Typing(ask) => Stride::Typing(wish(ask)),
            Step::Close => Stride::Close,
            Step::Quit => Stride::Quit,
        }
    }
}

/// A move by `step` through the matches of the line as it is; none when there
/// is nothing in it.
pub open spec fn walked(line: Typing, step: i32) -> Option<Wish> {
    if line.text.len() == 0 {
        None
    } else {
        Some(Wish { needle: line.text, step })
    }
}

/// What one key does to the prompt: the line after it, and what it asks.
pub open spec fn strode(line: Typing, key: KeyInput) -> (Typing, Stride) {
    let back = if key.mods.has_shift() {
        (-1) as i32
    } else {
        1
    };
    if key.action == KeyAction::Release || key.key is Other {
        (line, Stride::Typing(None))
    } else if key.key == Key::Escape {
        (line, Stride::Close)
    } else if key.key == Key::Char('q') && key.mods.has_ctrl() {
        (line, Stride::Quit)
    } else if key.key == Key::Enter || ((key.key == Key::Char('g') || key.key == Key::Char('G'))
        && key.mods.has_ctrl() && !key.mods.has_alt()) {
        (line, Stride::Typing(walked(line, back)))
    } else {
        let (after, edit) = line.stepped(key);
        (
            after,
            Stride::Typing(
                match edit {
                    Edit::Previous => walked(after, (-1) as i32),
                    Edit::Next => walked(after, 1),
                    Edit::Typing => changed(line, after),
                    Edit::Inserted => changed(line, after),
                    _ => None,
                },
            ),
        )
    }
}

/// A search for the line as it is, when that is not what it was.
pub open spec fn changed(before: Typing, after: Typing) -> Option<Wish> {
    if after.text != before.text {
        Some(Wish { needle: after.text, step: 0 })
    } else {
        None
    }
}

/// What the row says about the matches of the line.
pub open spec fn counted(line: Typing, matches: Option<Matches>) -> Seq<char> {
    match matches {
        Some(m) => if line.text.len() == 0 {
            Seq::empty()
        } else if m.count == 0 {
            "no matches"@
        } else {
            decimal(m.current as nat) + "/"@ + decimal(m.count as nat)
        },
        None => Seq::empty(),
    }
}

impl Finder {
    /// The line can be typed into.
    pub open spec fn wf(self) -> bool {
        self.line.wf()
    }

    /// A prompt offering `remembered` whole, if there is one: the first key
    /// replaces it.
    pub fn open(remembered: &str) -> (r: Finder)
        ensures
            r.wf(),
            r.matches is None,
            r.line@ == (Typing {
                text: remembered@,
                cursor: remembered@.len() as int,
                whole: remembered@.len() > 0,
                hint: Seq::empty(),
            }),
    {
        let line = if is_blank(remembered) {
            proof {
                assert(remembered@ =~= Seq::empty());
            }
            Line::empty()
        } else {
            Line::selected(remembered)
        };
        Finder { line, matches: None }
    }

    /// The ask that opening with a remembered needle sends at once, so that
    /// its highlights come straight back; `None` for an empty line.
    pub fn initial(&self) -> (r: Option<Ask>)
        ensures
            wish(r) == walked(self.line@, 0),
    {
        self.walk(0)
    }

    /// What one key does.
    ///
    /// The prompt's own keys first: Escape closes, `ctrl+q` quits, `enter` and
    /// `ctrl+g` go to the next match and, with shift, the one before. Then the
    /// line's, where Up and Down are the previous match and the next, and any
    /// other key that changed the text is a search for it. A step on an empty
    /// needle asks nothing.
    pub fn step(&mut self, key: &KeyInput) -> (r: Step)
        requires
            old(self).wf(),
        ensures
            final(self).wf(),
            final(self).matches == old(self).matches,
            (final(self).line@, r@) == strode(old(self).line@, *key),
    {
        if key.action == KeyAction::Release {
            return Step::Typing(None);
        }
        let ctrl = key.mods.ctrl();
        let alt = key.mods.alt();
        let back: i32 = if key.mods.shift() {
            -1
        } else {
            1
        };
        match key.key {
            Key::Other(_) => return Step::Typing(None),
            Key::Escape => return Step::Close,
            Key::Enter => return Step::Typing(self.walk(back)),
            Key::Char(c) => {
                if c == 'q' && ctrl {
                    return Step::Quit;
                }
                if (c == 'g' || c == 'G') && ctrl && !alt {
                    return Step::Typing(self.walk(back));
                }
            },
            _ => {},
        }
        let before = self.line.text.clone();
        match self.line.step(key) {
            Edit::Previous => Step::Typing(self.walk(-1)),
            Edit::Next => Step::Typing(self.walk(1)),
            Edit::Typing | Edit::Inserted => if same(self.line.text.as_str(), before.as_str()) {
                Step::Typing(None)
            } else {
                Step::Typing(Some(Ask { needle: self.line.text.clone(), step: 0 }))
            },
            Edit::Go | Edit::Cancel | Edit::Quit => Step::Typing(None),
        }
    }

    /// What the right-hand end of the row says: `3/17`, `no matches`, or
    /// nothing while the needle is empty or the page has not answered yet.
    pub fn count_text(&self) -> (r: String)
        ensures
            r@ == counted(self.line@, self.matches),
    {
        match self.matches {
            Some(m) => if is_blank(self.line.text.as_str()) {
                String::new()
            } else if m.count == 0 {
                "no matches".to_owned()
            } else {
                let mut out = decimal_string(m.current as u64);
                out.append("/");
                out.append(decimal_string(m.count as u64).as_str());
                out
            },
            None => String::new(),
        }
    }

    /// A move by `step` through the matches of the line as it is.
    fn walk(&self, step: i32) -> (r: Option<Ask>)
        ensures
            wish(r) == walked(self.line@, step),
    {
        if is_blank(self.line.text.as_str()) {
            None
        } else {
            Some(Ask { needle: self.line.text.clone(), step })
        }
    }
}

/// `Page.createIsolatedWorld` parameters for `frame`: the world named
/// [`WORLD`], and no universal access.
pub fn world_params(frame: &str) -> (r: Json)
    ensures
        r@ == world_of(frame@),
        r@ == Value::Record(
            seq![("frameId"@, Value::Text(frame@)), ("worldName"@, Value::Text(WORLD@))],
        ),
{
    let fields = vec![("frameId", Json::string(frame)), ("worldName", Json::string(WORLD))];
    proof {
        assert(record_of(fields@) =~= seq![
            ("frameId"@, Value::Text(frame@)),
            ("worldName"@, Value::Text(WORLD@)),
        ]);
    }
    Json::object(fields)
}

/// The main frame's id in a `Page.getFrameTree` reply.
pub open spec fn main_frame_of(reply: Value) -> Option<Seq<char>> {
    match field2(reply, "frameTree"@, "frame"@) {
        Some(frame) => text_of(field(frame, "id"@)),
        None => None,
    }
}

/// The main frame's id out of a `Page.getFrameTree` reply.
pub fn main_frame(reply: &Json) -> (r: Option<String>)
    ensures
        match r {
            Some(id) => main_frame_of(reply@) == Some(id@),
            None => main_frame_of(reply@) is None,
        },
{
    match reply.get2("frameTree", "frame") {
        Some(frame) => match frame.text_at("id") {
            Some(id) => Some(id.to_owned()),
            None => None,
        },
        None => None,
    }
}

/// The world's id out of a `Page.createIsolatedWorld` reply.
pub fn context(reply: &Json) -> (r: Option<i64>)
    ensures
        r == whole_of(field(reply@, "executionContextId"@)),
{
    match reply.get("executionContextId") {
        Some(id) => id.as_i64(),
        None => None,
    }
}

/// `{"value": v}`: one argument of a call.
pub open spec fn argument(v: Value) -> Value {
    Value::Record(seq![("value"@, v)])
}

/// `Runtime.callFunctionOn` parameters that ask this in world `context`.
pub open spec fn call_of(context: i64, ask: Wish) -> Value {
    Value::Record(
        seq![
            ("functionDeclaration"@, Value::Text(SCRIPT@)),
            ("executionContextId"@, Value::Number(double_of(context as int))),
            (
                "arguments"@,
                Value::List(
                    seq![
                        argument(Value::Text(ask.needle)),
                        argument(Value::Number(double_of(ask.step as int))),
                    ],
                ),
            ),
            ("returnByValue"@, Value::Bool(true)),
        ],
    )
}

/// One argument of a call.
fn argument_json(value: Json) -> (r: Json)
    ensures
        r@ == argument(value@),
{
    let fields = vec![("value", value)];
    proof {
        assert(record_of(fields@) =~= seq![("value"@, value@)]);
    }
    Json::object(fields)
}

/// `Runtime.callFunctionOn` parameters: [`SCRIPT`] in world `context`, with
/// `ask`'s needle and step as arguments and the answer by value.
pub fn call_params(context: i64, ask: &Ask) -> (r: Json)
    ensures
        r@ == call_of(context, ask@),
{
    let arguments = vec![
        argument_json(Json::string(ask.needle.as_str())),
        argument_json(Json::number(ask.step as i64)),
    ];
    proof {
        lemma_list_view(arguments);
        assert(Json::Array(arguments)@->List_0 =~= seq![
            argument(Value::Text(ask@.needle)),
            argument(Value::Number(double_of(ask@.step as int))),
        ]);
    }
    let fields = vec![
        ("functionDeclaration", Json::string(SCRIPT)),
        ("executionContextId", Json::number(context)),
        ("arguments", Json::Array(arguments)),
        ("returnByValue", Json::Bool(true)),
    ];
    proof {
        assert(record_of(fields@) =~= call_of(context, ask@)->Record_0);
    }
    Json::object(fields)
}

/// The same with an empty needle: clear everything the script did.
pub fn clear_params(context: i64) -> (r: Json)
    ensures
        r@ == call_of(context, (Wish { needle: Seq::empty(), step: 0 })),
{
    call_params(context, &Ask { needle: String::new(), step: 0 })
}

/// The count that a value is, when it is a number from zero to the largest
/// `u32`.
pub open spec fn count_at(v: Value) -> Option<nat> {
    match v {
        Value::Number(n) => n.count(u32::MAX as nat),
        _ => None,
    }
}

/// The answer in a reply to a call of [`SCRIPT`], when it has that shape.
pub open spec fn matches_of(reply: Value) -> Option<Matches> {
    if field(reply, "exceptionDetails"@) is Some {
        None
    } else {
        match list_of(field2(reply, "result"@, "value"@)) {
            Some(items) => if items.len() == 4 && count_at(items[0]) is Some && count_at(
                items[1],
            ) is Some && items[2] is Bool && items[3] is Bool {
                Some(
                    Matches {
                        count: count_at(items[0])->0 as u32,
                        current: count_at(items[1])->0 as u32,
                        highlighted: items[3]->Bool_0,
                    },
                )
            } else {
                None
            },
            None => None,
        }
    }
}

/// The count that a value is.
fn count_json(v: &Json) -> (r: Option<u32>)
    ensures
        match r {
            Some(n) => count_at(v@) == Some(n as nat),
            None => count_at(v@) is None,
        },
{
    match v.as_number() {
        Some(n) => match n.counted(u32::MAX as u64) {
            Some(k) => Some(k as u32),
            None => None,
        },
        None => None,
    }
}

/// What a `Runtime.callFunctionOn` of [`SCRIPT`] answered: `[count, current,
/// scrolled, highlighted]`. `None` for a page that threw, or a reply of any
/// other shape. `scrolled` is not kept.
pub fn matches(reply: &Json) -> (r: Option<Matches>)
    ensures
        r == matches_of(reply@),
{
    if reply.get("exceptionDetails").is_some() {
        return None;
    }
    let items = match reply.get2("result", "value") {
        Some(v) => match v.as_array() {
            Some(items) => items,
            None => return None,
        },
        None => return None,
    };
    proof {
        lemma_list_view(*items);
    }
    if items.len() != 4 {
        return None;
    }
    match (
        count_json(&items[0]),
        count_json(&items[1]),
        items[2].as_bool(),
        items[3].as_bool(),
    ) {
        (Some(count), Some(current), Some(_), Some(highlighted)) => Some(
            Matches { count, current, highlighted },
        ),
        _ => None,
    }
}

/// Whether an error off the wire says the world went with its document, and is
/// a reason to make it again rather than to report.
pub fn stale_world(why: &str) -> (r: bool)
    ensures
        r == holds(why@, "Cannot find context with specified id"@),
{
    contains_word(chars_of(why).as_slice(), "Cannot find context with specified id")
}

/// Folding three asks gives the same whichever two are folded first, as long as
/// no step is cut off and the needle does not come back to what it was: what is
/// sent does not depend on when the asks met.
pub proof fn law_asks_fold_in_any_grouping(a: Wish, b: Wish, c: Wish)
    requires
        i32::MIN <= a.step + b.step <= i32::MAX,
        i32::MIN <= b.step + c.step <= i32::MAX,
        a.needle != c.needle || a.needle == b.needle,
    ensures
        a.merged(b).merged(c) == a.merged(b.merged(c)),
{
}

/// The newest needle is the one that is searched.
pub proof fn law_the_newest_needle_wins(older: Wish, newer: Wish)
    ensures
        older.merged(newer).needle == newer.needle,
        older.needle != newer.needle ==> older.merged(newer) == newer,
{
}

/// The page is asked about the line as it is after the key, and never about an
/// older one.
pub proof fn law_what_is_asked_is_what_is_typed(line: Typing, key: KeyInput)
    ensures
        strode(line, key).1 matches Stride::Typing(Some(asked)) ==> asked.needle == strode(
            line,
            key,
        ).0.text,
{
}

/// A key that moves without typing never starts a search, and an empty line
/// asks for nothing but to be cleared.
pub proof fn law_an_empty_line_steps_through_nothing(line: Typing, key: KeyInput)
    requires
        line.text.len() == 0,
        strode(line, key).0.text == line.text,
    ensures
        strode(line, key).1 !is Typing || strode(line, key).1 == Stride::Typing(None),
{
}

/// The count is numbers and this program's own words, whatever is searched:
/// nothing of a page is in it.
pub proof fn law_the_count_is_plain(line: Typing, matches: Option<Matches>)
    ensures
        all_plain(counted(line, matches)),
{
    reveal_strlit("no matches");
    reveal_strlit("/");
    match matches {
        Some(m) => {
            lemma_decimal_is_plain(m.current as nat);
            lemma_decimal_is_plain(m.count as nat);
            lemma_joined_is_plain(decimal(m.current as nat), "/"@);
            lemma_joined_is_plain(decimal(m.current as nat) + "/"@, decimal(m.count as nat));
        },
        None => {},
    }
}

/// Which key does what to the search: enter and control with g go on to the next
/// match, back with shift, as down and up do; a key that changes the line
/// searches anew; escape closes.
pub proof fn law_a_key_steps_through_the_matches(line: Typing, key: KeyInput)
    requires
        line.text.len() > 0,
        key.action != KeyAction::Release,
    ensures
        ({
            let (after, stride) = strode(line, key);
            let ctrl = key.mods.0 & 4u32 != 0;
            let alt = key.mods.0 & 2u32 != 0;
            let shift = key.mods.0 & 1u32 != 0;
            let again = key.key == Key::Enter || (ctrl && !alt && (key.key == Key::Char('g')
                || key.key == Key::Char('G')));
            let asks = |step: int|
                stride == Stride::Typing(Some(Wish { needle: line.text, step: step as i32 }));
            &&& again && !shift ==> asks(1) && after == line
            &&& again && shift ==> asks(-1) && after == line
            &&& key.key == Key::Down ==> asks(1) && after == line
            &&& key.key == Key::Up ==> asks(-1) && after == line
            &&& stride == Stride::Close <==> key.key == Key::Escape
            &&& stride == Stride::Quit <==> key.key == Key::Char('q') && ctrl
            &&& after.text != line.text ==> stride == Stride::Typing(
                Some(Wish { needle: after.text, step: 0 }),
            )
        }),
{
}

/// The page's script is given what to look for and how far to step, in the
/// world that is its own.
pub proof fn law_the_script_is_given_the_needle_and_the_step(context: i64, ask: Wish)
    ensures
        ({
            let call = call_of(context, ask);
            &&& text_of(field(call, "functionDeclaration"@)) == Some(SCRIPT@)
            &&& field(call, "executionContextId"@) == Some(
                Value::Number(double_of(context as int)),
            )
            &&& field(call, "returnByValue"@) == Some(Value::Bool(true))
            &&& list_of(field(call, "arguments"@)) matches Some(given) && given.len() == 2
                && text_of(field(given[0], "value"@)) == Some(ask.needle) && field(
                given[1],
                "value"@,
            ) == Some(Value::Number(double_of(ask.step as int)))
        }),
{
    let fields = call_of(context, ask)->Record_0;
    reveal_strlit("functionDeclaration");
    reveal_strlit("executionContextId");
    reveal_strlit("arguments");
    reveal_strlit("returnByValue");
    assert("functionDeclaration"@.len() == 19);
    assert("executionContextId"@.len() == 18);
    assert("arguments"@.len() == 9);
    assert("returnByValue"@.len() == 13);
    assert(fields[0].0 == "functionDeclaration"@);
    assert(fields[1].0 == "executionContextId"@);
    assert(fields[2].0 == "arguments"@);
    assert(fields[3].0 == "returnByValue"@);
    assert(named_once(fields));
    lemma_each_is_found(fields);
    let needle = argument(Value::Text(ask.needle))->Record_0;
    let step = argument(Value::Number(double_of(ask.step as int)))->Record_0;
    assert(needle[0].0 == "value"@);
    assert(step[0].0 == "value"@);
    lemma_each_is_found(needle);
    lemma_each_is_found(step);
}

/// The row says which match it is of how many, once there is an answer to what
/// the line holds, and says so when there are none.
pub proof fn law_the_count_says_which_of_how_many(line: Typing, m: Matches)
    requires
        line.text.len() > 0,
    ensures
        m.count > 0 ==> pieces(counted(line, Some(m)), '/') == seq![
            decimal(m.current as nat),
            decimal(m.count as nat),
        ],
        m.count == 0 ==> counted(line, Some(m)) == "no matches"@,
        counted(line, None).len() == 0,
{
    let (a, b) = (decimal(m.current as nat), decimal(m.count as nat));
    lemma_decimal(m.current as nat);
    lemma_decimal(m.count as nat);
    reveal_strlit("/");
    assert("/"@ =~= seq!['/']);
    assert(!a.contains('/')) by {
        if a.contains('/') {
            let i = choose|i: int| 0 <= i < a.len() && a[i] == '/';
            assert(is_digit(a[i]));
        }
    }
    assert(!b.contains('/')) by {
        if b.contains('/') {
            let i = choose|i: int| 0 <= i < b.len() && b[i] == '/';
            assert(is_digit(b[i]));
        }
    }
    lemma_first_piece(a, b, '/');
    lemma_first_piece(b, Seq::empty(), '/');
    assert(seq![a] + seq![b] =~= seq![a, b]);
}

/// The page answers with how many there are, which one is shown, and whether they
/// are marked; a script that threw answers nothing.
pub proof fn law_the_page_says_how_many_there_are(
    count: Value,
    current: Value,
    wrapped: bool,
    marked: bool,
)
    ensures
        ({
            let items = seq![count, current, Value::Bool(wrapped), Value::Bool(marked)];
            let inner = Value::Record(seq![("value"@, Value::List(items))]);
            let reply = Value::Record(seq![("result"@, inner)]);
            let threw = Value::Record(seq![("exceptionDetails"@, inner), ("result"@, inner)]);
            &&& matches_of(reply) is Some <==> count_at(count) is Some && count_at(current) is Some
            &&& matches_of(reply) matches Some(m) ==> count_at(count) == Some(m.count as nat)
                && count_at(current) == Some(m.current as nat) && m.highlighted == marked
            &&& matches_of(threw) is None
        }),
{
    let items = seq![count, current, Value::Bool(wrapped), Value::Bool(marked)];
    let inner = seq![("value"@, Value::List(items))];
    let outer = seq![("result"@, Value::Record(inner))];
    let threw = seq![
        ("exceptionDetails"@, Value::Record(inner)),
        ("result"@, Value::Record(inner)),
    ];
    reveal_strlit("value");
    reveal_strlit("result");
    reveal_strlit("exceptionDetails");
    assert("value"@.len() == 5);
    assert("result"@.len() == 6);
    assert("exceptionDetails"@.len() == 16);
    assert(inner[0].0 == "value"@);
    assert(outer[0].0 == "result"@);
    assert(threw[0].0 == "exceptionDetails"@);
    lemma_each_is_found(inner);
    lemma_each_is_found(outer);
    lemma_none_is_found(outer, "exceptionDetails"@);
}

/// A frame is the one at the head of the tree.
pub proof fn law_the_main_frame_heads_the_tree(id: Seq<char>, more: Value)
    ensures
        main_frame_of(
            Value::Record(
                seq![
                    (
                        "frameTree"@,
                        Value::Record(
                            seq![
                                ("frame"@, Value::Record(seq![("id"@, Value::Text(id))])),
                                ("childFrames"@, more),
                            ],
                        ),
                    ),
                ],
            ),
        ) == Some(id),
{
    let frame = seq![("id"@, Value::Text(id))];
    let tree = seq![("frame"@, Value::Record(frame)), ("childFrames"@, more)];
    let all = seq![("frameTree"@, Value::Record(tree))];
    reveal_strlit("frame");
    reveal_strlit("childFrames");
    assert("frame"@.len() == 5);
    assert("childFrames"@.len() == 11);
    assert(frame[0].0 == "id"@);
    assert(tree[0].0 == "frame"@);
    assert(tree[1].0 == "childFrames"@);
    assert(all[0].0 == "frameTree"@);
    assert(named_once(tree));
    lemma_each_is_found(frame);
    lemma_each_is_found(tree);
    lemma_each_is_found(all);
}

/// What a world of the program's own is asked for with.
pub open spec fn world_of(frame: Seq<char>) -> Value {
    Value::Record(seq![("frameId"@, Value::Text(frame)), ("worldName"@, Value::Text(WORLD@))])
}

/// A world is asked for in the frame it is for, by the program's own name.
pub proof fn law_a_world_is_made_in_its_frame(frame: Seq<char>)
    ensures
        text_of(field(world_of(frame), "frameId"@)) == Some(frame),
        text_of(field(world_of(frame), "worldName"@)) == Some("blinkterm"@),
{
    let fields = world_of(frame)->Record_0;
    reveal_strlit("frameId");
    reveal_strlit("worldName");
    assert("frameId"@.len() == 7);
    assert("worldName"@.len() == 9);
    assert(fields[0].0 == "frameId"@ && fields[1].0 == "worldName"@);
    assert(named_once(fields));
    lemma_each_is_found(fields);
}

}
