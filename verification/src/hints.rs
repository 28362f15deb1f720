//! Hints: a label on every clickable thing in view, typed to click it.
//!
//! The page's own script finds the things and draws the labels; which labels
//! there are, what a key does to them and what is sent to the page is decided
//! here.
use vstd::prelude::*;

use crate::double::{double_of, Double};
use crate::input::{Key, KeyAction, KeyInput};
use crate::json::{
    bool_of, field, field2, lemma_each_is_found, lemma_list_view, lemma_none_is_found, list_of,
    named_once, record_of, text_of, Json, Value,
};
use crate::strings::{
    chars_of, decimal, decimal_string, lemma_index_of, lower, lower_char, position, same,
    same_chars, starts, starts_with, string_of, trim, trim_chars,
};
use crate::text::{
    all_plain, law_sanitized_is_plain, lemma_decimal_is_plain, lemma_joined_is_plain,
    lemma_trimmed_is_plain, sanitize, sanitized,
};

verus! {

/// The letters labels are made of: the home row and the keys beside it, so
/// that a hand typing a label stays where it is.
pub const ALPHABET: &'static str = "sadfjklewcmpgh";

/// How many letters there are.
pub const BASE: usize = 14;

/// The most hints labelled.
pub const MAX_HINTS: usize = 2000;

/// The script, `function (what, labels, px)`, sent whole with every call.
///
/// `what` is `collect` (find the clickable elements in view and remember
/// them; answer `[[x, y, w, h, kind, cx, cy, href], ...]` in CSS pixels of the
/// top document's viewport, in reading order), `show` (`labels` one per hint
/// collected, drawn at `px`), `narrow` (`labels` is the prefix typed: the
/// rest are hidden) or `clear`.
pub const SCRIPT: &'static str = r#"function (what, labels, px) {
  var W = globalThis, S = W.__blinktermHints;
  if (!S) S = W.__blinktermHints = { hints: [], host: null, root: null, doc: null };
  var MAX_DEPTH = 8, MAX_HINTS = 2000;
  var SEL = 'a[href],button,input,select,textarea,summary,label,' +
    '[onclick],[contenteditable],[tabindex],[role=link],[role=button],[role=checkbox],' +
    '[role=radio],[role=tab],[role=menuitem],[role=menuitemcheckbox],[role=menuitemradio],' +
    '[role=option],[role=switch],[role=treeitem],[role=combobox],[role=slider],[role=textbox],' +
    'video[controls],audio[controls],details';
  var EDIT = { INPUT: 1, TEXTAREA: 1, SELECT: 1 };
  var NOEDIT = { button: 1, submit: 1, reset: 1, checkbox: 1, radio: 1, file: 1, image: 1, color: 1, range: 1 };

  function kindOf(e) {
    var t = e.tagName;
    if (t === 'A') return e.href && !/^javascript:/i.test(e.href) ? 'link' : 'click';
    if (t === 'INPUT') return NOEDIT[(e.type || 'text').toLowerCase()] ? 'click' : 'edit';
    if (t === 'TEXTAREA' || t === 'SELECT') return 'edit';
    if (e.isContentEditable) return 'edit';
    if (e.getAttribute('role') === 'textbox' || e.getAttribute('role') === 'combobox') return 'edit';
    return 'click';
  }
  // Every candidate in root (a document or a shadow root), open shadow
  // roots included, and same-origin frames with their offsets.
  function candidates(root, doc, off, clip, depth, out) {
    var els = root.querySelectorAll(SEL + ',*');
    for (var i = 0; i < els.length; i++) {
      var e = els[i];
      if (e.shadowRoot) candidates(e.shadowRoot, doc, off, clip, depth, out);
      if (e.tagName === 'IFRAME' || e.tagName === 'FRAME') {
        if (depth >= MAX_DEPTH) continue;
        var cd = null; try { cd = e.contentDocument; } catch (_) { }
        if (!cd) continue;
        var fr = e.getBoundingClientRect();
        var fo = [off[0] + fr.left + e.clientLeft, off[1] + fr.top + e.clientTop];
        // What of the frame is on the screen: its box, inside its parent's.
        var fc = [Math.max(clip[0], fo[0]), Math.max(clip[1], fo[1]),
                  Math.min(clip[2], fo[0] + e.clientWidth), Math.min(clip[3], fo[1] + e.clientHeight)];
        if (fc[2] - fc[0] < 2 || fc[3] - fc[1] < 2) continue;
        candidates(cd, cd, fo, fc, depth + 1, out);
        continue;
      }
      if (!e.matches(SEL)) {
        // A pointer-cursor element whose parent's cursor is not pointer:
        // the root of a region that is clickable by CSS alone.
        var cs;
        try { cs = getComputedStyle(e).cursor; } catch (_) { continue; }
        if (cs !== 'pointer') continue;
        var p = e.parentElement;
        if (p && getComputedStyle(p).cursor === 'pointer') continue;
        if (e.closest(SEL)) continue;
        // A pointer container around real controls (a card around its
        // link): the controls get the hints, the container does not.
        if (e.querySelector(SEL)) continue;
      }
      out.push({ e: e, doc: doc, off: off, clip: clip });
    }
  }
  function visible(c) {
    var e = c.e, doc = c.doc, win = doc.defaultView;
    if (e.disabled) return null;
    if (e.checkVisibility && !e.checkVisibility({ visibilityProperty: true, opacityProperty: true })) return null;
    var rects = e.getClientRects();
    if (!rects.length) return null;
    var vw = win.innerWidth, vh = win.innerHeight;
    // The first rect that is in the frame's viewport: an inline link that
    // wraps has several, and the label goes on the first visible one.
    for (var k = 0; k < rects.length; k++) {
      var r = rects[k];
      if (r.width < 1 || r.height < 1) continue;
      // Inside the frame's viewport, and inside what of the frame is on
      // the screen (clip, in the top document's coordinates).
      var x0 = Math.max(r.left, 0, c.clip[0] - c.off[0]), y0 = Math.max(r.top, 0, c.clip[1] - c.off[1]);
      var x1 = Math.min(r.right, vw, c.clip[2] - c.off[0]), y1 = Math.min(r.bottom, vh, c.clip[3] - c.off[1]);
      if (x1 - x0 < 2 || y1 - y0 < 2) continue;
      // Something else on top of it (a modal, a cookie banner, a sibling
      // absolutely positioned over it) means a click there would not reach
      // it. Asked at the visible part's centre; an element inside it, or
      // its label, counts.
      var cx = (x0 + x1) / 2, cy = (y0 + y1) / 2;
      // From the element's own root, so that an element in a shadow tree
      // is answered by the tree and not by its host.
      var top = e.getRootNode().elementFromPoint(cx, cy);
      if (top && top !== e && !e.contains(top) && !top.contains(e)) {
        if (!(top.tagName === 'LABEL' && top.control === e)) continue;
      }
      return [c.off[0] + x0, c.off[1] + y0, x1 - x0, y1 - y0, cx + c.off[0], cy + c.off[1]];
    }
    return null;
  }
  function collect() {
    var out = [];
    candidates(W.document, W.document, [0, 0], [0, 0, W.innerWidth, W.innerHeight], 0, out);
    var hints = [], seen = new Set();
    for (var i = 0; i < out.length && hints.length < MAX_HINTS; i++) {
      var e = out[i].e;
      if (seen.has(e)) continue;
      seen.add(e);
      var box = visible(out[i]);
      if (!box) continue;
      // A label whose control is also a hint: one hint, on the control.
      if (e.tagName === 'LABEL' && e.control) continue;
      hints.push({ e: e, doc: out[i].doc, box: box, kind: kindOf(e) });
    }
    // Reading order: top to bottom, then left to right, in rows of a
    // label's height so that a line of links reads across.
    var rowH = Math.max(8, px || 16);
    hints.sort(function (a, b) {
      var ra = Math.floor(a.box[1] / rowH), rb = Math.floor(b.box[1] / rowH);
      return ra - rb || a.box[0] - b.box[0];
    });
    S.hints = hints;
    return hints.map(function (h) {
      var href = '';
      if (h.kind === 'link') { try { href = String(h.e.href); } catch (_) { } }
      return [Math.round(h.box[0]), Math.round(h.box[1]), Math.round(h.box[2]), Math.round(h.box[3]), h.kind, Math.round(h.box[4]), Math.round(h.box[5]), href];
    });
  }
  function show(labels) {
    clear();
    var doc = W.document, html = doc.documentElement;
    if (!html) return 0;
    var host = doc.createElement('blinkterm-hints');
    host.setAttribute('style', 'all:initial!important;position:fixed!important;left:0!important;top:0!important;width:0!important;height:0!important;overflow:visible!important;z-index:2147483647!important;pointer-events:none!important');
    var root = host.attachShadow({ mode: 'closed' });
    var size = Math.max(6, (px || 16) * 0.7);
    var st = doc.createElement('style');
    st.textContent = '.h{position:fixed;display:block;box-sizing:border-box;font:bold ' + size + 'px/1.25 system-ui,sans-serif;' +
      'padding:0 ' + (size * 0.25) + 'px;color:#000;background:#ffd400;border:' + Math.max(1, size / 12) + 'px solid #806a00;' +
      'border-radius:' + (size * 0.2) + 'px;white-space:pre;letter-spacing:' + (size * 0.05) + 'px;box-shadow:0 0 ' + (size * 0.2) + 'px #0006;pointer-events:none}' +
      '.h span{color:#8a7400}';
    root.appendChild(st);
    var n = 0;
    for (var i = 0; i < S.hints.length && i < labels.length; i++) {
      var h = S.hints[i], d = doc.createElement('div');
      d.className = 'h';
      d.textContent = labels[i];
      // At the element's top-left, nudged inside the viewport.
      var x = Math.max(0, h.box[0] - size * 0.3), y = Math.max(0, h.box[1] - size * 0.3);
      d.style.left = x + 'px'; d.style.top = y + 'px';
      root.appendChild(d); n++;
    }
    html.appendChild(host);
    S.host = host; S.root = root; S.doc = doc;
    return n;
  }
  function narrow(prefix) {
    if (!S.root) return 0;
    var n = 0, ds = S.root.querySelectorAll('.h');
    for (var i = 0; i < ds.length; i++) {
      var d = ds[i], t = d.getAttribute('data-l') || d.textContent;
      d.setAttribute('data-l', t);
      if (t.indexOf(prefix) !== 0) { d.style.display = 'none'; continue; }
      d.style.display = 'block'; n++;
      d.textContent = '';
      var s = doc_span(S.doc, t.slice(0, prefix.length));
      d.appendChild(s); d.appendChild(S.doc.createTextNode(t.slice(prefix.length)));
    }
    return n;
  }
  function doc_span(doc, text) { var s = doc.createElement('span'); s.textContent = text; return s; }
  function clear() {
    if (S.host && S.host.parentNode) S.host.parentNode.removeChild(S.host);
    S.host = null; S.root = null;
    return true;
  }

  if (what === 'collect') return collect();
  if (what === 'show') return show(labels || []);
  if (what === 'narrow') return narrow(labels || '');
  if (what === 'clear') return clear();
  return null;
}"#;

/// What a hint is on: decides what typing its label does afterwards.
#[derive(Debug, Clone, Copy, PartialEq, Eq, Structural)]
pub enum Kind {
    /// `<a href>` to somewhere: `F` opens the href in a new tab.
    Link,
    /// A text field, a select, an editable region: clicking it is insert mode.
    Edit,
    /// Anything else clickable.
    Click,
}

/// One clickable thing, as the page reported it: CSS pixels of the top
/// document's viewport.
#[derive(Debug, PartialEq, Eq)]
pub struct Hint {
    pub kind: Kind,
    /// Where a click goes: the centre of the visible part.
    pub at: (Double, Double),
    /// The resolved href, plain text, for [`Kind::Link`]; empty otherwise.
    pub href: String,
}

/// What a [`Hint`] is.
#[verifier::ext_equal]
pub struct Spot {
    pub kind: Kind,
    pub at: (Double, Double),
    pub href: Seq<char>,
}

impl View for Hint {
    type V = Spot;

    open spec fn view(&self) -> Spot {
        Spot { kind: self.kind, at: self.at, href: self.href@ }
    }
}

impl Clone for Hint {
    fn clone(&self) -> (r: Hint)
        ensures
            r@ == self@,
    {
        Hint { kind: self.kind, at: self.at, href: self.href.clone() }
    }
}

/// What some hints are.
pub open spec fn spots(hints: Seq<Hint>) -> Seq<Spot> {
    hints.map_values(|h: Hint| h@)
}

/// The texts of some strings.
pub open spec fn texts(labels: Seq<String>) -> Seq<Seq<char>> {
    labels.map_values(|s: String| s@)
}

/// The hints of one showing, their labels, and what has been typed.
#[derive(Debug, PartialEq, Eq)]
pub struct Hints {
    pub hints: Vec<Hint>,
    /// One per hint, in the same order: [`labels`].
    pub labels: Vec<String>,
    /// The letters typed so far, lower case.
    pub typed: String,
    /// `F`: a link's href goes to a new tab.
    pub new_tab: bool,
}

/// What some [`Hints`] are.
#[verifier::ext_equal]
pub struct Showing {
    pub hints: Seq<Spot>,
    pub labels: Seq<Seq<char>>,
    pub typed: Seq<char>,
    pub new_tab: bool,
}

impl View for Hints {
    type V = Showing;

    open spec fn view(&self) -> Showing {
        Showing {
            hints: spots(self.hints@),
            labels: texts(self.labels@),
            typed: self.typed@,
            new_tab: self.new_tab,
        }
    }
}

/// What one key did to the labels.
#[derive(Debug, PartialEq, Eq)]
pub enum Typed {
    /// Nothing matched, or the key is not a letter or backspace: unchanged.
    Nothing,
    /// The prefix changed and this many labels still match: the page is told
    /// to narrow.
    Narrowed(usize),
    /// A label was typed whole: this hint.
    Chosen(Hint),
    /// Escape.
    Cancel,
}

/// What a [`Typed`] is.
pub enum Outcome {
    Nothing,
    Narrowed(nat),
    Chosen(Spot),
    Cancel,
}

impl View for Typed {
    type V = Outcome;

    open spec fn view(&self) -> Outcome {
        match *self {
            Typed::Nothing => Outcome::Nothing,
            Typed::Narrowed(n) => Outcome::Narrowed(n as nat),
            Typed::Chosen(hint) => Outcome::Chosen(hint@),
            Typed::Cancel => Outcome::Cancel,
        }
    }
}

// ---- labels ----

/// Fourteen to the `n`.
pub open spec fn pow14(n: nat) -> nat
    decreases n,
{
    if n == 0 {
        1
    } else {
        14 * pow14((n - 1) as nat)
    }
}

/// How long the labels of `n` hints are: the fewest letters that give each one
/// of its own.
pub open spec fn label_length(n: nat) -> nat
    decreases n,
{
    if n <= 14 {
        1
    } else {
        1 + label_length((n + 13) / 14)
    }
}

/// Label `i`, of this length: `i` in base fourteen, with the alphabet as its
/// digits.
pub open spec fn label(i: nat, length: nat) -> Seq<char>
    decreases length,
{
    if length == 0 {
        Seq::empty()
    } else {
        label(i / 14, (length - 1) as nat).push(ALPHABET@[(i % 14) as int])
    }
}

/// The labels of `n` hints.
pub open spec fn labels_of(n: nat) -> Seq<Seq<char>> {
    Seq::new(n, |i: int| label(i as nat, label_length(n)))
}

/// The alphabet is fourteen letters.
proof fn lemma_alphabet()
    ensures
        ALPHABET@ == seq![
            's', 'a', 'd', 'f', 'j', 'k', 'l', 'e', 'w', 'c', 'm', 'p', 'g', 'h',
        ],
        ALPHABET@.len() == 14,
{
    reveal_strlit("sadfjklewcmpgh");
    assert(ALPHABET@ =~= seq![
        's', 'a', 'd', 'f', 'j', 'k', 'l', 'e', 'w', 'c', 'm', 'p', 'g', 'h',
    ]);
}

/// Fourteen to the length is room for every label.
pub proof fn law_the_length_has_room(n: nat)
    ensures
        n <= pow14(label_length(n)),
        label_length(n) >= 1,
        label_length(n) > 1 ==> pow14((label_length(n) - 1) as nat) < n,
    decreases n,
{
    reveal_with_fuel(pow14, 2);
    if n > 14 {
        law_the_length_has_room((n + 13) / 14);
        let l = label_length((n + 13) / 14);
        assert(label_length(n) == 1 + l);
        assert(pow14(l + 1) == 14 * pow14(l));
        if l > 1 {
            assert(pow14(l) == 14 * pow14((l - 1) as nat));
        }
    }
}

/// A label has its length, and is letters of the alphabet.
pub proof fn law_a_label_is_of_the_alphabet(i: nat, length: nat)
    ensures
        label(i, length).len() == length,
        forall|k: int| 0 <= k < length ==> ALPHABET@.contains(#[trigger] label(i, length)[k]),
    decreases length,
{
    lemma_alphabet();
    if length > 0 {
        law_a_label_is_of_the_alphabet(i / 14, (length - 1) as nat);
        let rest = label(i / 14, (length - 1) as nat);
        assert forall|k: int| 0 <= k < length implies ALPHABET@.contains(
            #[trigger] label(i, length)[k],
        ) by {
            if k < length - 1 {
                assert(label(i, length)[k] == rest[k]);
            } else {
                assert(label(i, length)[k] == ALPHABET@[(i % 14) as int]);
            }
        }
    }
}

/// No two hints have one label.
pub proof fn law_labels_are_distinct(i: nat, j: nat, length: nat)
    requires
        i < pow14(length),
        j < pow14(length),
        label(i, length) == label(j, length),
    ensures
        i == j,
    decreases length,
{
    lemma_alphabet();
    if length > 0 {
        let a = label(i, length);
        let b = label(j, length);
        law_a_label_is_of_the_alphabet(i / 14, (length - 1) as nat);
        law_a_label_is_of_the_alphabet(j / 14, (length - 1) as nat);
        assert(a.drop_last() =~= label(i / 14, (length - 1) as nat));
        assert(b.drop_last() =~= label(j / 14, (length - 1) as nat));
        assert(pow14(length) == 14 * pow14((length - 1) as nat));
        law_labels_are_distinct(i / 14, j / 14, (length - 1) as nat);
        assert(a.last() == ALPHABET@[(i % 14) as int]);
        assert(b.last() == ALPHABET@[(j % 14) as int]);
        assert(i % 14 == j % 14);
    }
}

/// No label is the start of another, so that one typed whole is chosen the
/// moment its last letter is typed.
pub proof fn law_no_label_starts_another(n: nat, i: int, j: int)
    requires
        0 <= i < n,
        0 <= j < n,
        starts(labels_of(n)[i], labels_of(n)[j]),
    ensures
        i == j,
{
    let l = label_length(n);
    law_the_length_has_room(n);
    law_a_label_is_of_the_alphabet(i as nat, l);
    law_a_label_is_of_the_alphabet(j as nat, l);
    assert(label(i as nat, l) =~= label(j as nat, l));
    law_labels_are_distinct(i as nat, j as nat, l);
}

/// Labels for `n` hints: all of one length, from [`ALPHABET`], in order.
pub fn labels(n: usize) -> (r: Vec<String>)
    ensures
        texts(r@) == labels_of(n as nat),
{
    let alphabet = chars_of(ALPHABET);
    let mut length: usize = 1;
    let mut over: usize = n;
    while over > BASE
        invariant
            length + label_length(over as nat) == label_length(n as nat) + 1,
            length + over <= n + 1,
            length >= 1,
        decreases over,
    {
        over = (over - 1) / BASE + 1;
        length += 1;
    }
    let mut out: Vec<String> = Vec::new();
    let mut i: usize = 0;
    proof {
        lemma_alphabet();
    }
    while i < n
        invariant
            i <= n,
            out@.len() == i,
            alphabet@ == ALPHABET@,
            alphabet@.len() == 14,
            length == label_length(n as nat),
            forall|k: int| 0 <= k < i ==> #[trigger] out@[k]@ == label(k as nat, length as nat),
        decreases n - i,
    {
        let digits = label_chars(i, length, alphabet.as_slice());
        out.push(string_of(digits.as_slice()));
        i += 1;
    }
    proof {
        assert(texts(out@) =~= labels_of(n as nat));
    }
    out
}

/// Label `i`, of this length.
fn label_chars(i: usize, length: usize, alphabet: &[char]) -> (r: Vec<char>)
    requires
        alphabet@ == ALPHABET@,
        alphabet@.len() == 14,
    ensures
        r@ == label(i as nat, length as nat),
    decreases length,
{
    if length == 0 {
        return Vec::new();
    }
    let mut digits = label_chars(i / BASE, length - 1, alphabet);
    digits.push(alphabet[i % BASE]);
    digits
}

// ---- reading ----

/// The kind that the script has this name for.
pub open spec fn kind_named(name: Seq<char>) -> Kind {
    if name == "link"@ {
        Kind::Link
    } else if name == "edit"@ {
        Kind::Edit
    } else {
        Kind::Click
    }
}

/// The hint that an entry of a `collect` reply is; none when it is not the
/// eight values the script answers, or is nowhere on the page.
pub open spec fn spot_of(entry: Value) -> Option<Spot> {
    match entry {
        Value::List(v) => if v.len() == 8 && v[4] is Text && v[5] is Number && v[6] is Number
            && v[5]->Number_0.finite() && v[6]->Number_0.finite() {
            let kind = kind_named(v[4]->Text_0);
            Some(
                Spot {
                    kind,
                    at: (v[5]->Number_0, v[6]->Number_0),
                    href: match (kind, v[7]) {
                        (Kind::Link, Value::Text(href)) => trim(sanitized(href)),
                        _ => Seq::empty(),
                    },
                },
            )
        } else {
            None
        },
        _ => None,
    }
}

/// The hints that the entries of a `collect` reply are, in order.
pub open spec fn spots_of(entries: Seq<Value>) -> Seq<Spot>
    decreases entries.len(),
{
    if entries.len() == 0 {
        Seq::empty()
    } else {
        let before = spots_of(entries.drop_last());
        match spot_of(entries.last()) {
            Some(spot) => before.push(spot),
            None => before,
        }
    }
}

/// The first [`MAX_HINTS`] of some hints.
pub open spec fn at_most(spots: Seq<Spot>) -> Seq<Spot> {
    if spots.len() <= MAX_HINTS {
        spots
    } else {
        spots.take(MAX_HINTS as int)
    }
}

/// The entries of a `collect` reply, when it is one.
pub open spec fn entries_of(reply: Value) -> Option<Seq<Value>> {
    if field(reply, "exceptionDetails"@) is Some {
        None
    } else {
        list_of(field2(reply, "result"@, "value"@))
    }
}

/// A text sanitized and without the white space around it.
fn plain_href(href: &str) -> (r: String)
    ensures
        r@ == trim(sanitized(href@)),
{
    let clean = sanitize(href);
    let chars = chars_of(clean.as_str());
    string_of(trim_chars(chars.as_slice()))
}

/// The hint that an entry of a `collect` reply is.
fn hint_of(entry: &Json) -> (r: Option<Hint>)
    ensures
        match r {
            Some(hint) => spot_of(entry@) == Some(hint@),
            None => spot_of(entry@) is None,
        },
{
    let v = match entry.as_array() {
        Some(v) => v,
        None => return None,
    };
    proof {
        lemma_list_view(*v);
    }
    if v.len() != 8 {
        return None;
    }
    match (v[4].as_str(), v[5].as_number(), v[6].as_number()) {
        (Some(name), Some(x), Some(y)) => {
            if !x.is_finite() || !y.is_finite() {
                return None;
            }
            let kind = if same(name, "link") {
                Kind::Link
            } else if same(name, "edit") {
                Kind::Edit
            } else {
                Kind::Click
            };
            let href = match v[7].as_str() {
                Some(href) => if kind == Kind::Link {
                    plain_href(href)
                } else {
                    String::new()
                },
                None => String::new(),
            };
            Some(Hint { kind, at: (x, y), href })
        },
        _ => None,
    }
}

// ---- typing ----

/// How many of the labels start with what was typed.
pub open spec fn matching(labels: Seq<Seq<char>>, typed: Seq<char>) -> nat
    decreases labels.len(),
{
    if labels.len() == 0 {
        0
    } else {
        matching(labels.drop_last(), typed) + if starts(labels.last(), typed) {
            1nat
        } else {
            0nat
        }
    }
}

/// Where a label is: their number when it is none of them.
pub open spec fn place(labels: Seq<Seq<char>>, typed: Seq<char>) -> int
    decreases labels.len(),
{
    if labels.len() == 0 || labels[0] == typed {
        0
    } else {
        1 + place(labels.drop_first(), typed)
    }
}

/// The place with that label and none before it is [`place`].
proof fn lemma_place(labels: Seq<Seq<char>>, typed: Seq<char>, i: int)
    requires
        0 <= i <= labels.len(),
        i < labels.len() ==> labels[i] == typed,
        forall|j: int| 0 <= j < i ==> #[trigger] labels[j] != typed,
    ensures
        place(labels, typed) == i,
    decreases labels.len(),
{
    if labels.len() > 0 && labels[0] != typed {
        let rest = labels.drop_first();
        assert forall|j: int| 0 <= j < i - 1 implies #[trigger] rest[j] != typed by {
            assert(rest[j] == labels[j + 1]);
        }
        lemma_place(rest, typed, i - 1);
    } else if labels.len() > 0 && i > 0 {
        assert(labels[0] != typed);
    }
}

impl Showing {
    /// One label per hint.
    pub open spec fn valid(self) -> bool {
        self.labels.len() == self.hints.len()
    }

    /// How many labels still match what was typed.
    pub open spec fn remaining(self) -> nat {
        matching(self.labels, self.typed)
    }

    /// What a letter does.
    pub open spec fn lettered(self, c: char) -> (Showing, Outcome) {
        let typed = self.typed.push(c);
        let i = place(self.labels, typed);
        let n = matching(self.labels, typed);
        if !ALPHABET@.contains(c) {
            (self, Outcome::Nothing)
        } else if i < self.labels.len() {
            (Showing { typed, ..self }, Outcome::Chosen(self.hints[i]))
        } else if n == 0 {
            (self, Outcome::Nothing)
        } else {
            (Showing { typed, ..self }, Outcome::Narrowed(n))
        }
    }

    /// What a key does.
    pub open spec fn stepped(self, key: KeyInput) -> (Showing, Outcome) {
        let held = key.mods.has_ctrl() || key.mods.has_alt() || key.mods.has_super();
        if key.action == KeyAction::Release {
            (self, Outcome::Nothing)
        } else {
            match key.key {
                Key::Escape => (self, Outcome::Cancel),
                Key::Backspace => if held || self.typed.len() == 0 {
                    (self, Outcome::Nothing)
                } else {
                    let typed = self.typed.drop_last();
                    (Showing { typed, ..self }, Outcome::Narrowed(matching(self.labels, typed)))
                },
                Key::Char(c) => if held {
                    (self, Outcome::Nothing)
                } else {
                    self.lettered(
                        lower(
                            match key.text {
                                Some(t) => t,
                                None => c,
                            },
                        ),
                    )
                },
                _ => (self, Outcome::Nothing),
            }
        }
    }

    /// The words on the row.
    pub open spec fn said(self) -> Seq<char> {
        let n = self.remaining();
        decimal(n) + (if n == 1 {
            " hint"@
        } else {
            " hints"@
        }) + (if self.new_tab {
            " to a new tab"@
        } else {
            Seq::empty()
        })
    }
}

impl Hints {
    /// One label per hint.
    pub open spec fn wf(self) -> bool {
        self@.valid()
    }

    /// The hints out of a `collect` reply, labelled; `None` for a reply of
    /// another shape (a page that threw). An empty list is `Some`.
    ///
    /// An entry that is not the eight values the script answers is skipped
    /// rather than failing the rest.
    pub fn from_reply(reply: &Json, new_tab: bool) -> (r: Option<Hints>)
        ensures
            match entries_of(reply@) {
                Some(entries) => {
                    let found = at_most(spots_of(entries));
                    r matches Some(h) && h.wf() && h@ == (Showing {
                        hints: found,
                        labels: labels_of(found.len()),
                        typed: Seq::empty(),
                        new_tab,
                    })
                },
                None => r is None,
            },
    {
        if reply.get("exceptionDetails").is_some() {
            return None;
        }
        let entries = match reply.get2("result", "value") {
            Some(v) => match v.as_array() {
                Some(items) => items,
                None => return None,
            },
            None => return None,
        };
        proof {
            lemma_list_view(*entries);
        }
        let ghost all: Seq<Value> = Json::Array(*entries)@->List_0;
        let mut hints: Vec<Hint> = Vec::new();
        let mut i: usize = 0;
        proof {
            assert(all.take(0) =~= Seq::<Value>::empty());
            assert(spots(hints@) =~= Seq::<Spot>::empty());
        }
        while i < entries.len()
            invariant
                i <= entries@.len(),
                all.len() == entries@.len(),
                forall|k: int| 0 <= k < all.len() ==> #[trigger] all[k] == entries@[k]@,
                spots(hints@) == at_most(spots_of(all.take(i as int))),
            decreases entries@.len() - i,
        {
            proof {
                assert(all.take(i + 1).drop_last() =~= all.take(i as int));
                assert(all.take(i + 1).last() == entries@[i as int]@);
            }
            match hint_of(&entries[i]) {
                Some(hint) => {
                    let ghost before = spots(hints@);
                    let ghost whole = spots_of(all.take(i as int));
                    if hints.len() < MAX_HINTS {
                        let ghost spot = hint@;
                        hints.push(hint);
                        proof {
                            assert(spots(hints@) =~= before.push(spot));
                            assert(whole.len() < MAX_HINTS);
                            assert(at_most(whole.push(spot)) =~= before.push(spot));
                        }
                    } else {
                        proof {
                            assert(before.len() == hints@.len());
                            assert(at_most(whole.push(hint@)) =~= at_most(whole));
                        }
                    }
                },
                None => {},
            }
            i += 1;
        }
        proof {
            assert(all.take(i as int) =~= all);
        }
        let made = labels(hints.len());
        proof {
            assert(spots(hints@).len() == hints@.len());
        }
        Some(Hints { labels: made, hints, typed: String::new(), new_tab })
    }

    /// How many labels still match what was typed.
    pub fn remaining(&self) -> (r: usize)
        ensures
            r == self@.remaining(),
    {
        let typed = chars_of(self.typed.as_str());
        count_matching(&self.labels, typed.as_slice())
    }

    /// What a key does to the labels; a release does nothing.
    ///
    /// Typing is case-folded, so a shift held by mistake still matches; a
    /// letter that would leave no label matching is not taken, so one wrong
    /// key costs nothing and the next right one carries on.
    pub fn step(&mut self, key: &KeyInput) -> (r: Typed)
        requires
            old(self).wf(),
        ensures
            final(self).wf(),
            (final(self)@, r@) == old(self)@.stepped(*key),
    {
        if key.action == KeyAction::Release {
            return Typed::Nothing;
        }
        let held = key.mods.ctrl() || key.mods.alt() || key.mods.meta();
        match key.key {
            Key::Escape => Typed::Cancel,
            Key::Backspace => {
                let mut typed = chars_of(self.typed.as_str());
                if held || typed.len() == 0 {
                    return Typed::Nothing;
                }
                let gone = typed.pop();
                proof {
                    assert(typed@ =~= self.typed@.drop_last());
                }
                self.typed = string_of(typed.as_slice());
                Typed::Narrowed(self.remaining())
            },
            Key::Char(c) => if held {
                Typed::Nothing
            } else {
                self.letter(
                    lower_char(
                        match key.text {
                            Some(t) => t,
                            None => c,
                        },
                    ),
                )
            },
            _ => Typed::Nothing,
        }
    }

    /// What a letter does.
    fn letter(&mut self, c: char) -> (r: Typed)
        requires
            old(self).wf(),
        ensures
            final(self).wf(),
            (final(self)@, r@) == old(self)@.lettered(c),
    {
        let alphabet = chars_of(ALPHABET);
        let at = position(alphabet.as_slice(), c);
        proof {
            lemma_index_of(ALPHABET@, c);
        }
        if at == alphabet.len() {
            return Typed::Nothing;
        }
        proof {
            assert(ALPHABET@[at as int] == c);
        }
        let mut typed = chars_of(self.typed.as_str());
        typed.push(c);
        let mut i: usize = 0;
        let ghost labels = self@.labels;
        while i < self.labels.len()
            invariant
                i <= self.labels@.len(),
                labels == texts(self.labels@),
                *self == *old(self),
                self.wf(),
                typed@ == self@.typed.push(c),
                ALPHABET@.contains(c),
                forall|j: int| 0 <= j < i ==> #[trigger] labels[j] != typed@,
            decreases self.labels@.len() - i,
        {
            let label = chars_of(self.labels[i].as_str());
            if same_chars(label.as_slice(), typed.as_slice()) {
                proof {
                    assert(labels[i as int] == typed@);
                    lemma_place(labels, typed@, i as int);
                }
                let chosen = self.hints[i].clone();
                self.typed = string_of(typed.as_slice());
                proof {
                    assert(chosen@ == old(self)@.hints[i as int]);
                    assert(self@ =~= old(self)@.lettered(c).0);
                }
                return Typed::Chosen(chosen);
            }
            i += 1;
        }
        proof {
            lemma_place(labels, typed@, labels.len() as int);
        }
        let n = count_matching(&self.labels, typed.as_slice());
        if n == 0 {
            Typed::Nothing
        } else {
            self.typed = string_of(typed.as_slice());
            Typed::Narrowed(n)
        }
    }

    /// The words on the row: `12 hints`, `12 hints to a new tab`, `1 hint`.
    pub fn words(&self) -> (r: String)
        ensures
            r@ == self@.said(),
    {
        let n = self.remaining();
        let mut out = decimal_string(n as u64);
        out.append(
            if n == 1 {
                " hint"
            } else {
                " hints"
            },
        );
        if self.new_tab {
            out.append(" to a new tab");
        }
        proof {
            assert(out@ =~= self@.said());
        }
        out
    }
}

/// How many of the labels start with what was typed.
fn count_matching(labels: &Vec<String>, typed: &[char]) -> (n: usize)
    ensures
        n == matching(texts(labels@), typed@),
{
    let ghost all = texts(labels@);
    let mut n: usize = 0;
    let mut i: usize = 0;
    proof {
        assert(all.take(0) =~= Seq::<Seq<char>>::empty());
    }
    while i < labels.len()
        invariant
            i <= labels@.len(),
            n <= i,
            all == texts(labels@),
            n == matching(all.take(i as int), typed@),
        decreases labels@.len() - i,
    {
        let label = chars_of(labels[i].as_str());
        proof {
            assert(all.take(i + 1).drop_last() =~= all.take(i as int));
            assert(all.take(i + 1).last() == label@);
        }
        if starts_with(label.as_slice(), typed) {
            n += 1;
        }
        i += 1;
    }
    proof {
        assert(all.take(i as int) =~= all);
    }
    n
}

// ---- calling ----

/// `{"value": v}`: one argument of a call.
pub open spec fn argument(v: Value) -> Value {
    Value::Record(seq![("value"@, v)])
}

/// `Runtime.callFunctionOn` parameters for [`SCRIPT`] in world `context`.
pub open spec fn call_of(context: i64, what: Seq<char>, labels: Value, px: Double) -> Value {
    Value::Record(
        seq![
            ("functionDeclaration"@, Value::Text(SCRIPT@)),
            ("executionContextId"@, Value::Number(double_of(context as int))),
            (
                "arguments"@,
                Value::List(
                    seq![
                        argument(Value::Text(what)),
                        argument(labels),
                        argument(Value::Number(px)),
                    ],
                ),
            ),
            ("returnByValue"@, Value::Bool(true)),
        ],
    )
}

/// One argument of a call.
fn argument_json(value: Json) -> (r: Json)
    ensures
        r@ == argument(value@),
{
    let fields = vec![("value", value)];
    proof {
        assert(record_of(fields@) =~= seq![("value"@, value@)]);
    }
    Json::object(fields)
}

/// `Runtime.callFunctionOn` parameters for [`SCRIPT`] in world `context`,
/// its three arguments by value and the answer by value.
fn call_params(context: i64, what: &str, labels: Json, px: Double) -> (r: Json)
    ensures
        r@ == call_of(context, what@, labels@, px),
{
    let arguments = vec![
        argument_json(Json::string(what)),
        argument_json(labels),
        argument_json(Json::Number(px)),
    ];
    proof {
        lemma_list_view(arguments);
        assert(Json::Array(arguments)@->List_0 =~= seq![
            argument(Value::Text(what@)),
            argument(labels@),
            argument(Value::Number(px)),
        ]);
    }
    let fields = vec![
        ("functionDeclaration", Json::string(SCRIPT)),
        ("executionContextId", Json::number(context)),
        ("arguments", Json::Array(arguments)),
        ("returnByValue", Json::Bool(true)),
    ];
    proof {
        assert(record_of(fields@) =~= call_of(context, what@, labels@, px)->Record_0);
    }
    Json::object(fields)
}

/// Find the clickable things in view; `px` sets the height of a row of the
/// reading order.
pub fn collect_params(context: i64, px: Double) -> (r: Json)
    ensures
        r@ == call_of(context, "collect"@, Value::Null, px),
{
    call_params(context, "collect", Json::Null, px)
}

/// The list of some labels.
pub open spec fn label_list(labels: Seq<Seq<char>>) -> Value {
    Value::List(labels.map_values(|s: Seq<char>| Value::Text(s)))
}

/// Draw `labels`, one per hint the last collect found, a cell tall: `px` is
/// how many CSS pixels a terminal cell is.
pub fn show_params(context: i64, labels: &[String], px: Double) -> (r: Json)
    ensures
        r@ == call_of(context, "show"@, label_list(texts(labels@)), px),
{
    let mut items: Vec<Json> = Vec::new();
    let mut i: usize = 0;
    while i < labels.len()
        invariant
            i <= labels@.len(),
            items@.len() == i,
            forall|k: int| 0 <= k < i ==> #[trigger] items@[k]@ == Value::Text(labels@[k]@),
        decreases labels@.len() - i,
    {
        items.push(Json::string(labels[i].as_str()));
        i += 1;
    }
    proof {
        lemma_list_view(items);
        assert(Json::Array(items)@->List_0 =~= label_list(texts(labels@))->List_0);
    }
    call_params(context, "show", Json::Array(items), px)
}

/// Hide the labels that do not start with `typed`.
pub fn narrow_params(context: i64, typed: &str) -> (r: Json)
    ensures
        r@ == call_of(
            context,
            "narrow"@,
            Value::Text(typed@),
            double_of(0),
        ),
{
    call_params(context, "narrow", Json::string(typed), Double::of(0))
}

/// Take the labels off the page.
pub fn clear_params(context: i64) -> (r: Json)
    ensures
        r@ == call_of(context, "clear"@, Value::Null, double_of(0)),
{
    call_params(context, "clear", Json::Null, Double::of(0))
}

/// A whole number.
pub open spec fn whole(n: i64) -> Value {
    Value::Number(double_of(n as int))
}

/// The `Input.dispatchMouseEvent` parameters of one event of a click.
pub open spec fn clicked(
    kind: Seq<char>,
    at: (Double, Double),
    button: Seq<char>,
    buttons: i64,
) -> Value {
    let fields = seq![
        ("type"@, Value::Text(kind)),
        ("x"@, Value::Number(at.0)),
        ("y"@, Value::Number(at.1)),
        ("modifiers"@, whole(0)),
        ("button"@, Value::Text(button)),
        ("buttons"@, whole(buttons)),
    ];
    Value::Record(
        if kind != "mouseMoved"@ {
            fields.push(("clickCount"@, whole(1)))
        } else {
            fields
        },
    )
}

/// The `Input.dispatchMouseEvent` parameters of one event of a click.
fn click_event(kind: &str, at: (Double, Double), button: &str, buttons: i64) -> (r: Json)
    ensures
        r@ == clicked(kind@, at, button@, buttons),
{
    let mut fields = vec![
        ("type", Json::string(kind)),
        ("x", Json::Number(at.0)),
        ("y", Json::Number(at.1)),
        ("modifiers", Json::number(0)),
        ("button", Json::string(button)),
        ("buttons", Json::number(buttons)),
    ];
    if !same(kind, "mouseMoved") {
        fields.push(("clickCount", Json::number(1)));
    }
    proof {
        assert(record_of(fields@) =~= clicked(kind@, at, button@, buttons)->Record_0);
    }
    Json::object(fields)
}

/// The three `Input.dispatchMouseEvent` parameter sets of a left click at
/// `at` (CSS pixels): moved, pressed, released, in that order.
pub fn click_params(at: (Double, Double)) -> (r: [Json; 3])
    ensures
        r@[0]@ == clicked("mouseMoved"@, at, "none"@, 0),
        r@[1]@ == clicked("mousePressed"@, at, "left"@, 1),
        r@[2]@ == clicked("mouseReleased"@, at, "left"@, 0),
{
    [
        click_event("mouseMoved", at, "none", 0),
        click_event("mousePressed", at, "left", 1),
        click_event("mouseReleased", at, "left", 0),
    ]
}

/// The question asked after a click in normal mode: whether focus landed in
/// something editable, followed down through open shadow roots and
/// same-origin frames to the element that has it.
pub const FOCUSED: &'static str = "(function(){var e=document.activeElement;\
for(var i=0;i<16&&e;i++){if(e.shadowRoot&&e.shadowRoot.activeElement){e=e.shadowRoot.activeElement;continue}\
if(e.tagName==='IFRAME'||e.tagName==='FRAME'){var d=null;try{d=e.contentDocument}catch(_){}\
if(d&&d.activeElement){e=d.activeElement;continue}}break}\
if(!e)return false;var t=e.tagName;\
if(t==='INPUT')return!/^(button|submit|reset|checkbox|radio|file|image|color|range|hidden)$/i.test(e.type||'text');\
if(t==='TEXTAREA'||t==='SELECT')return true;if(e.isContentEditable)return true;\
var r=e.getAttribute&&e.getAttribute('role');return r==='textbox'||r==='combobox'})()";

/// The `Runtime.evaluate` parameters for [`FOCUSED`].
pub fn focused_params() -> (r: Json)
    ensures
        r@ == focus_asked(),
        r@ == Value::Record(
            seq![
                ("expression"@, Value::Text(FOCUSED@)),
                ("returnByValue"@, Value::Bool(true)),
            ],
        ),
{
    let fields = vec![
        ("expression", Json::string(FOCUSED)),
        ("returnByValue", Json::Bool(true)),
    ];
    proof {
        assert(record_of(fields@) =~= seq![
            ("expression"@, Value::Text(FOCUSED@)),
            ("returnByValue"@, Value::Bool(true)),
        ]);
    }
    Json::object(fields)
}

/// Read the answer to [`FOCUSED`]: `None` for anything but a boolean.
pub fn focused_editable(reply: &Json) -> (r: Option<bool>)
    ensures
        r == (if field(reply@, "exceptionDetails"@) is Some {
            None
        } else {
            bool_of(field2(reply@, "result"@, "value"@))
        }),
{
    if reply.get("exceptionDetails").is_some() {
        return None;
    }
    match reply.get2("result", "value") {
        Some(v) => v.as_bool(),
        None => None,
    }
}

// ---- laws ----

/// A shorter prefix matches no fewer labels.
proof fn lemma_shorter_matches_more(labels: Seq<Seq<char>>, typed: Seq<char>)
    requires
        typed.len() > 0,
    ensures
        matching(labels, typed.drop_last()) >= matching(labels, typed),
    decreases labels.len(),
{
    if labels.len() > 0 {
        lemma_shorter_matches_more(labels.drop_last(), typed);
        let l = labels.last();
        if starts(l, typed) {
            assert(starts(l, typed.drop_last())) by {
                assert(l.subrange(0, typed.len() as int).drop_last() =~= l.subrange(
                    0,
                    typed.len() - 1,
                ));
            }
        }
    }
}

/// A label that starts with what was typed is counted.
proof fn lemma_a_match_counts(labels: Seq<Seq<char>>, typed: Seq<char>, i: int)
    requires
        0 <= i < labels.len(),
        starts(labels[i], typed),
    ensures
        matching(labels, typed) > 0,
    decreases labels.len(),
{
    if i < labels.len() - 1 {
        assert(labels.drop_last()[i] == labels[i]);
        lemma_a_match_counts(labels.drop_last(), typed, i);
    }
}

/// Where [`place`] points is that label.
proof fn lemma_place_holds(labels: Seq<Seq<char>>, typed: Seq<char>)
    ensures
        0 <= place(labels, typed) <= labels.len(),
        place(labels, typed) < labels.len() ==> labels[place(labels, typed)] == typed,
    decreases labels.len(),
{
    if labels.len() > 0 && labels[0] != typed {
        lemma_place_holds(labels.drop_first(), typed);
    }
}

/// While some label matches, no key leaves none: one wrong key costs nothing.
pub proof fn law_some_label_always_matches(s: Showing, key: KeyInput)
    requires
        s.valid(),
        s.remaining() > 0,
    ensures
        s.stepped(key).0.remaining() > 0,
{
    if s.typed.len() > 0 {
        lemma_shorter_matches_more(s.labels, s.typed);
    }
    match key.key {
        Key::Char(c) => {
            let c = lower(
                match key.text {
                    Some(t) => t,
                    None => c,
                },
            );
            let typed = s.typed.push(c);
            lemma_place_holds(s.labels, typed);
            let i = place(s.labels, typed);
            if i < s.labels.len() {
                assert(starts(s.labels[i], typed)) by {
                    assert(typed.subrange(0, typed.len() as int) =~= typed);
                }
                lemma_a_match_counts(s.labels, typed, i);
            }
        },
        _ => {},
    }
}

/// Typing a label, letter by letter, narrows to it and then chooses the hint
/// under it, whatever the case of the letter.
pub proof fn law_typing_a_label_chooses_its_hint(s: Showing, i: int, c: char)
    requires
        s.valid(),
        s.labels == labels_of(s.hints.len()),
        0 <= i < s.hints.len(),
        s.typed.len() < s.labels[i].len(),
        s.typed == s.labels[i].take(s.typed.len() as int),
        lower(c) == s.labels[i][s.typed.len() as int],
    ensures
        ({
            let k = s.typed.len() as int;
            let (after, outcome) = s.lettered(lower(c));
            &&& after == Showing { typed: s.labels[i].take(k + 1), ..s }
            &&& if k + 1 == s.labels[i].len() {
                outcome == Outcome::Chosen(s.hints[i])
            } else {
                outcome is Narrowed && outcome->Narrowed_0 > 0
            }
        }),
{
    let n = s.hints.len();
    let l = label_length(n);
    let k = s.typed.len() as int;
    let c = lower(c);
    law_the_length_has_room(n);
    law_a_label_is_of_the_alphabet(i as nat, l);
    let whole = s.labels[i];
    let typed = s.typed.push(c);
    assert(whole == label(i as nat, l));
    assert(ALPHABET@.contains(whole[k]));
    assert(typed =~= whole.take(k + 1));
    assert(starts(whole, typed)) by {
        assert(whole.subrange(0, k + 1) =~= typed);
    }
    lemma_a_match_counts(s.labels, typed, i);
    if k + 1 == whole.len() {
        assert(typed =~= whole);
        assert forall|j: int| 0 <= j < i implies #[trigger] s.labels[j] != typed by {
            if s.labels[j] == typed {
                law_labels_are_distinct(i as nat, j as nat, l);
            }
        }
        lemma_place(s.labels, typed, i);
    } else {
        assert forall|j: int| 0 <= j < n implies #[trigger] s.labels[j] != typed by {
            law_a_label_is_of_the_alphabet(j as nat, l);
        }
        lemma_place(s.labels, typed, n as int);
    }
}

/// What the row says of the hints is a number and this program's own words.
pub proof fn law_what_is_said_is_plain(s: Showing)
    ensures
        all_plain(s.said()),
{
    reveal_strlit(" hint");
    reveal_strlit(" hints");
    reveal_strlit(" to a new tab");
    let n = s.remaining();
    let what = if n == 1 {
        " hint"@
    } else {
        " hints"@
    };
    let whither = if s.new_tab {
        " to a new tab"@
    } else {
        Seq::<char>::empty()
    };
    lemma_decimal_is_plain(n);
    lemma_joined_is_plain(decimal(n), what);
    lemma_joined_is_plain(decimal(n) + what, whither);
}

/// Where a hint points is plain text, whatever the page wrote there, and only a
/// link points anywhere.
pub proof fn law_where_a_hint_points_is_plain(entries: Seq<Value>, i: int)
    requires
        0 <= i < spots_of(entries).len(),
    ensures
        all_plain(spots_of(entries)[i].href),
        spots_of(entries)[i].kind !is Link ==> spots_of(entries)[i].href.len() == 0,
    decreases entries.len(),
{
    if i < spots_of(entries.drop_last()).len() {
        law_where_a_hint_points_is_plain(entries.drop_last(), i);
    } else {
        match entries.last() {
            Value::List(v) => match v[7] {
                Value::Text(href) => {
                    law_sanitized_is_plain(href);
                    lemma_trimmed_is_plain(sanitized(href));
                },
                _ => {},
            },
            _ => {},
        }
    }
}

/// A letter taken back leaves what was typed before it, and escape gives the
/// hints up; a key with a modifier held is not theirs.
pub proof fn law_a_letter_is_taken_back(s: Showing, c: char, key: KeyInput)
    requires
        key.action != KeyAction::Release,
        key.mods.0 & 4u32 == 0 && key.mods.0 & 2u32 == 0 && key.mods.0 & 8u32 == 0,
        key.key == Key::Backspace,
    ensures
        s.lettered(c).0.typed != s.typed ==> s.lettered(c).0.stepped(key) == (
            s,
            Outcome::Narrowed(s.remaining()),
        ),
        s.typed.len() == 0 ==> s.stepped(key) == (s, Outcome::Nothing),
{
    let after = s.lettered(c).0;
    if after.typed != s.typed {
        assert(after.typed == s.typed.push(c));
        assert(after.typed.drop_last() =~= s.typed);
    }
}

/// What a key does to the hints.
pub proof fn law_a_key_narrows_or_gives_up(s: Showing, key: KeyInput)
    ensures
        ({
            let held = key.mods.0 & 4u32 != 0 || key.mods.0 & 2u32 != 0 || key.mods.0 & 8u32 != 0;
            let (after, outcome) = s.stepped(key);
            &&& outcome == Outcome::Cancel <==> key.action != KeyAction::Release && key.key
                == Key::Escape
            &&& outcome == Outcome::Nothing ==> after == s
            &&& outcome is Chosen ==> key.key is Char && !held
            &&& after.hints == s.hints && after.labels == s.labels && after.new_tab == s.new_tab
            &&& key.action == KeyAction::Release || (held && key.key != Key::Escape) ==> outcome
                == Outcome::Nothing
            &&& key.action != KeyAction::Release && !held && key.key is Char && key.text is Some
                ==> (after, outcome) == s.lettered(lower(key.text->Some_0))
        }),
{
}

/// A hint is where the page says it is and of the kind it says, and a link is
/// the only kind that goes anywhere.
pub proof fn law_a_hint_is_where_the_page_says(
    left: Value,
    name: Seq<char>,
    x: Double,
    y: Double,
    href: Seq<char>,
)
    requires
        x.finite(),
        y.finite(),
    ensures
        ({
            let entry = Value::List(
                seq![
                    left,
                    left,
                    left,
                    left,
                    Value::Text(name),
                    Value::Number(x),
                    Value::Number(y),
                    Value::Text(href),
                ],
            );
            &&& spot_of(entry) matches Some(spot) && spot.at == (x, y) && (spot.kind == Kind::Link
                <==> name == "link"@) && (spot.kind == Kind::Edit <==> name == "edit"@) && (name
                == "link"@ ==> spot.href == trim(sanitized(href)))
        }),
{
    reveal_strlit("link");
    reveal_strlit("edit");
    assert("link"@.len() == 4);
    assert("edit"@.len() == 4);
    assert("link"@[0] != "edit"@[0]);
}

/// The hints are in the order in which the page gave them, and none is left out
/// but what is no hint.
pub proof fn law_the_hints_are_in_the_pages_order(a: Seq<Value>, b: Seq<Value>, entry: Value)
    ensures
        spots_of(a + b) == spots_of(a) + spots_of(b),
        spots_of(seq![entry]) == match spot_of(entry) {
            Some(spot) => seq![spot],
            None => Seq::empty(),
        },
        at_most(spots_of(a)).len() == if spots_of(a).len() <= 2000 {
            spots_of(a).len()
        } else {
            2000
        },
        at_most(spots_of(a)) == spots_of(a).take(at_most(spots_of(a)).len() as int),
    decreases b.len(),
{
    assert(seq![entry].drop_last() =~= Seq::<Value>::empty());
    assert(spots_of(seq![entry].drop_last()) =~= Seq::<Spot>::empty());
    assert(Seq::<Spot>::empty().push(
        match spot_of(entry) {
            Some(spot) => spot,
            None => arbitrary(),
        },
    ) =~= seq![
        match spot_of(entry) {
            Some(spot) => spot,
            None => arbitrary(),
        },
    ]);
    assert(spots_of(a) =~= spots_of(a).take(spots_of(a).len() as int));
    if b.len() == 0 {
        assert(a + b =~= a);
        assert(spots_of(a) + spots_of(b) =~= spots_of(a));
    } else {
        law_the_hints_are_in_the_pages_order(a, b.drop_last(), entry);
        assert((a + b).drop_last() =~= a + b.drop_last());
        assert(spots_of(a + b) =~= spots_of(a) + spots_of(b));
    }
}

/// A click is where it was told to be: the mouse goes there, the left button
/// goes down, and comes up.
pub proof fn law_a_click_is_on_its_spot(kind: Seq<char>, at: (Double, Double), button: Seq<char>, n: i64)
    ensures
        ({
            let told = clicked(kind, at, button, n);
            &&& text_of(field(told, "type"@)) == Some(kind)
            &&& field(told, "x"@) == Some(Value::Number(at.0))
            &&& field(told, "y"@) == Some(Value::Number(at.1))
            &&& field(told, "modifiers"@) == Some(Value::Number(double_of(0)))
            &&& text_of(field(told, "button"@)) == Some(button)
            &&& field(told, "buttons"@) == Some(Value::Number(double_of(n as int)))
            &&& field(told, "clickCount"@) == if kind == "mouseMoved"@ {
                None
            } else {
                Some(Value::Number(double_of(1)))
            }
        }),
{
    let fields = clicked(kind, at, button, n)->Record_0;
    reveal_strlit("type");
    reveal_strlit("x");
    reveal_strlit("y");
    reveal_strlit("modifiers");
    reveal_strlit("button");
    reveal_strlit("buttons");
    reveal_strlit("clickCount");
    assert("type"@.len() == 4);
    assert("x"@.len() == 1);
    assert("y"@.len() == 1);
    assert("modifiers"@.len() == 9);
    assert("button"@.len() == 6);
    assert("buttons"@.len() == 7);
    assert("clickCount"@.len() == 10);
    assert("x"@[0] != "y"@[0]);
    assert(fields[0].0 == "type"@);
    assert(fields[1].0 == "x"@);
    assert(fields[2].0 == "y"@);
    assert(fields[3].0 == "modifiers"@);
    assert(fields[4].0 == "button"@);
    assert(fields[5].0 == "buttons"@);
    if kind != "mouseMoved"@ {
        assert(fields[6].0 == "clickCount"@);
    } else {
        lemma_none_is_found(fields, "clickCount"@);
    }
    assert(named_once(fields));
    lemma_each_is_found(fields);
}

/// The script is told what to do, with the labels and the size, in the world
/// that is its own.
pub proof fn law_the_script_is_told_what_to_do(
    context: i64,
    what: Seq<char>,
    labels: Value,
    px: Double,
)
    ensures
        ({
            let call = call_of(context, what, labels, px);
            &&& text_of(field(call, "functionDeclaration"@)) == Some(SCRIPT@)
            &&& field(call, "executionContextId"@) == Some(
                Value::Number(double_of(context as int)),
            )
            &&& field(call, "returnByValue"@) == Some(Value::Bool(true))
            &&& list_of(field(call, "arguments"@)) matches Some(given) && given.len() == 3
                && text_of(field(given[0], "value"@)) == Some(what) && field(given[1], "value"@)
                == Some(labels) && field(given[2], "value"@) == Some(Value::Number(px))
        }),
{
    let fields = call_of(context, what, labels, px)->Record_0;
    reveal_strlit("functionDeclaration");
    reveal_strlit("executionContextId");
    reveal_strlit("arguments");
    reveal_strlit("returnByValue");
    assert("functionDeclaration"@.len() == 19);
    assert("executionContextId"@.len() == 18);
    assert("arguments"@.len() == 9);
    assert("returnByValue"@.len() == 13);
    assert(fields[0].0 == "functionDeclaration"@);
    assert(fields[1].0 == "executionContextId"@);
    assert(fields[2].0 == "arguments"@);
    assert(fields[3].0 == "returnByValue"@);
    assert(named_once(fields));
    lemma_each_is_found(fields);
    let first = argument(Value::Text(what))->Record_0;
    let second = argument(labels)->Record_0;
    let third = argument(Value::Number(px))->Record_0;
    assert(first[0].0 == "value"@ && second[0].0 == "value"@ && third[0].0 == "value"@);
    lemma_each_is_found(first);
    lemma_each_is_found(second);
    lemma_each_is_found(third);
}

/// The row says how many hints are left, and where the chosen one will open.
pub proof fn law_the_row_says_how_many_are_left(s: Showing)
    ensures
        ({
            let n = decimal(s.remaining());
            let word = if s.remaining() == 1 {
                " hint"@
            } else {
                " hints"@
            };
            &&& !s.new_tab ==> s.said() == n + word
            &&& s.new_tab ==> s.said() == n + word + " to a new tab"@
        }),
{
    if !s.new_tab {
        assert(s.said() =~= decimal(s.remaining()) + (if s.remaining() == 1 {
            " hint"@
        } else {
            " hints"@
        }));
    }
}

/// What a page is asked with whether something in it takes text.
pub open spec fn focus_asked() -> Value {
    Value::Record(
        seq![("expression"@, Value::Text(FOCUSED@)), ("returnByValue"@, Value::Bool(true))],
    )
}

/// Whether something takes text is asked by its script, and comes back as a word.
pub proof fn law_what_has_the_focus_is_asked()
    ensures
        text_of(field(focus_asked(), "expression"@)) == Some(FOCUSED@),
        bool_of(field(focus_asked(), "returnByValue"@)) == Some(true),
{
    let fields = focus_asked()->Record_0;
    reveal_strlit("expression");
    reveal_strlit("returnByValue");
    assert("expression"@.len() == 10);
    assert("returnByValue"@.len() == 13);
    assert(fields[0].0 == "expression"@ && fields[1].0 == "returnByValue"@);
    assert(named_once(fields));
    lemma_each_is_found(fields);
}

}
