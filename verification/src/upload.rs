//! A page's file input, on the status row: a path being typed.
//!
//! A click on a file input is a question the page is not stopped on. Sent, the
//! path goes to the input; escaped, the page is told `cancel`, as a chooser of
//! its own would tell it.
use vstd::prelude::*;

use crate::cdp::Event;
use crate::dialog::text_or_empty;
use crate::double::double_of;
use crate::input::KeyInput;
use crate::json::{
    field, lemma_each_is_found, lemma_list_view, named_once, record_of, text_of, whole_of, Json, Value,
};
use crate::line::{Edit, Line, Typing};
use crate::paths::{join, joined};
use crate::strings::{
    chars_of, is_blank, last_index_of, last_position, same, split_str, starts, starts_with_word,
};

verus! {

/// What tells a file input that nothing was chosen.
pub const CANCEL_FUNCTION: &'static str =
    "function(){this.dispatchEvent(new Event('cancel',{bubbles:true}))}";

/// The file input that was clicked.
#[derive(Debug, PartialEq, Eq)]
pub struct Chooser {
    pub backend_node_id: i64,
    /// Whether it takes more than one file.
    pub multiple: bool,
    pub frame_id: String,
}

/// A path being typed for a file input.
#[derive(Debug, PartialEq, Eq)]
pub struct Upload {
    pub chooser: Chooser,
    pub line: Line,
    /// The directory a path that is not from the root is below.
    pub base: String,
    /// What a tilde stands for.
    pub home: Option<String>,
}

/// What a key did to the path.
#[derive(Debug, Clone, Copy, PartialEq, Eq, Structural)]
pub enum Outcome {
    /// Nothing decided yet.
    Waiting,
    /// The path is to be sent.
    Send,
    /// Nothing is to be sent.
    Cancel,
    /// `ctrl+q`.
    Quit,
}

/// What an [`Upload`] is.
#[verifier::ext_equal]
pub struct Offer {
    pub node: i64,
    pub multiple: bool,
    pub frame: Seq<char>,
    pub line: Typing,
    pub base: Seq<char>,
    pub home: Option<Seq<char>>,
}

/// What an optional text is.
pub open spec fn maybe(s: Option<String>) -> Option<Seq<char>> {
    match s {
        Some(s) => Some(s@),
        None => None,
    }
}

impl View for Upload {
    type V = Offer;

    open spec fn view(&self) -> Offer {
        Offer {
            node: self.chooser.backend_node_id,
            multiple: self.chooser.multiple,
            frame: self.chooser.frame_id@,
            line: self.line@,
            base: self.base@,
            home: maybe(self.home),
        }
    }
}

/// Nothing typed yet.
pub open spec fn nothing_typed() -> Typing {
    Typing { text: Seq::empty(), cursor: 0, whole: false, hint: Seq::empty() }
}

impl Offer {
    /// What a key does to the path.
    pub open spec fn stepped(self, key: KeyInput) -> (Offer, Outcome) {
        let (line, edit) = self.line.stepped(key);
        (
            Offer { line, ..self },
            match edit {
                Edit::Go => if line.text.len() == 0 {
                    Outcome::Waiting
                } else {
                    Outcome::Send
                },
                Edit::Cancel => Outcome::Cancel,
                Edit::Quit => Outcome::Quit,
                _ => Outcome::Waiting,
            },
        )
    }

    /// The path that is typed, from the root when the base is.
    pub open spec fn path(self) -> Seq<char> {
        match self.home {
            Some(home) => if self.line.text == "~"@ {
                home
            } else if starts(self.line.text, "~/"@) {
                joined(home, self.line.text.skip(2))
            } else {
                joined(self.base, self.line.text)
            },
            None => joined(self.base, self.line.text),
        }
    }

    /// What the file input is sent.
    pub open spec fn replied(self) -> Value {
        Value::Record(
            seq![
                ("files"@, Value::List(seq![Value::Text(self.path())])),
                ("backendNodeId"@, Value::Number(double_of(self.node as int))),
            ],
        )
    }
}

/// The directory a path is in.
pub open spec fn directory_of(path: Seq<char>) -> Seq<char> {
    let i = last_index_of(path, '/');
    if i < 0 {
        "."@
    } else if i == 0 {
        "/"@
    } else {
        path.take(i)
    }
}

/// The file input in a `Page.fileChooserOpened`, when it names one.
pub open spec fn offer_of(params: Value, base: Seq<char>, home: Option<Seq<char>>) -> Option<
    Offer,
> {
    match whole_of(field(params, "backendNodeId"@)) {
        Some(node) => Some(
            Offer {
                node,
                multiple: text_of(field(params, "mode"@)) == Some("selectMultiple"@),
                frame: text_or_empty(params, "frameId"@),
                line: nothing_typed(),
                base,
                home,
            },
        ),
        None => None,
    }
}

impl Upload {
    /// The line can be typed into.
    pub open spec fn wf(self) -> bool {
        self.line.wf()
    }

    /// A path to be typed for a file input.
    pub fn new(chooser: Chooser, base: String, home: Option<String>) -> (r: Upload)
        ensures
            r.wf(),
            r@ == (Offer {
                node: chooser.backend_node_id,
                multiple: chooser.multiple,
                frame: chooser.frame_id@,
                line: nothing_typed(),
                base: base@,
                home: maybe(home),
            }),
    {
        Upload { chooser, line: Line::empty(), base, home }
    }

    /// Read a `Page.fileChooserOpened`; `None` for one that names no input.
    pub fn opened(params: &Json, base: &str, home: Option<&str>) -> (r: Option<Upload>)
        ensures
            match r {
                Some(u) => u.wf() && offer_of(
                    params@,
                    base@,
                    match home {
                        Some(h) => Some(h@),
                        None => None,
                    },
                ) == Some(u@),
                None => whole_of(field(params@, "backendNodeId"@)) is None,
            },
    {
        let backend_node_id: i64 = match params.get("backendNodeId") {
            Some(v) => match v.as_i64() {
                Some(node) => node,
                None => return None,
            },
            None => return None,
        };
        let frame_id = match params.text_at("frameId") {
            Some(id) => id.to_owned(),
            None => String::new(),
        };
        let multiple = params.says("mode", "selectMultiple");
        let home = match home {
            Some(h) => Some(h.to_owned()),
            None => None,
        };
        let chooser = Chooser { backend_node_id, multiple, frame_id };
        Some(Upload::new(chooser, base.to_owned(), home))
    }

    /// What one key does to the path. Enter on nothing sends nothing.
    pub fn step(&mut self, key: &KeyInput) -> (r: Outcome)
        requires
            old(self).wf(),
        ensures
            final(self).wf(),
            (final(self)@, r) == old(self)@.stepped(*key),
    {
        match self.line.step(key) {
            Edit::Go => if is_blank(self.line.text.as_str()) {
                Outcome::Waiting
            } else {
                Outcome::Send
            },
            Edit::Cancel => Outcome::Cancel,
            Edit::Quit => Outcome::Quit,
            _ => Outcome::Waiting,
        }
    }

    /// What the row says before the path.
    pub fn prompt(&self) -> (r: &'static str)
        ensures
            r@ == asked_for(self@.multiple),
            r@ == (if self@.multiple {
                "files:"@
            } else {
                "file:"@
            }),
    {
        if self.chooser.multiple {
            "files:"
        } else {
            "file:"
        }
    }

    /// The path that is typed.
    pub fn path(&self) -> (r: String)
        ensures
            r@ == self@.path(),
    {
        let typed = self.line.text.as_str();
        match &self.home {
            Some(home) => {
                if same(typed, "~") {
                    return home.clone();
                }
                let chars = chars_of(typed);
                if starts_with_word(chars.as_slice(), "~/") {
                    proof {
                        reveal_strlit("~/");
                    }
                    let rest = split_str(typed, 2).1;
                    return join(home.as_str(), rest);
                }
                join(self.base.as_str(), typed)
            },
            None => join(self.base.as_str(), typed),
        }
    }

    /// The parameters of the `DOM.setFileInputFiles` that sends the path.
    pub fn reply(&self) -> (r: Json)
        ensures
            r@ == self@.replied(),
    {
        let files = vec![Json::string(self.path().as_str())];
        proof {
            lemma_list_view(files);
            assert(Json::Array(files)@->List_0 =~= seq![Value::Text(self@.path())]);
        }
        let fields = vec![
            ("files", Json::Array(files)),
            ("backendNodeId", Json::number(self.chooser.backend_node_id)),
        ];
        proof {
            assert(record_of(fields@) =~= self@.replied()->Record_0);
        }
        Json::object(fields)
    }

    /// What the row says once the path has gone.
    pub fn sentence(&self) -> (r: String)
        ensures
            r@ == "sent "@ + self@.path(),
    {
        "sent ".to_owned().concat(self.path().as_str())
    }

    /// The directory the path is in, where the next prompt starts.
    pub fn last_dir(&self) -> (r: String)
        ensures
            r@ == directory_of(self@.path()),
    {
        let path = self.path();
        let chars = chars_of(path.as_str());
        match last_position(chars.as_slice(), '/') {
            Some(i) => if i == 0 {
                "/".to_owned()
            } else {
                split_str(path.as_str(), i).0.to_owned()
            },
            None => ".".to_owned(),
        }
    }
}

/// Where a file input's prompt starts: where the last file came from, else
/// where the program was started, else home, else the root.
pub fn start_dir(last: Option<&str>, cwd: Option<&str>, home: Option<&str>) -> (r: String)
    ensures
        r@ == started_in(given(last), given(cwd), given(home)),
        r@ == (match (last, cwd, home) {
            (Some(dir), _, _) => dir@,
            (None, Some(dir), _) => dir@,
            (None, None, Some(dir)) => dir@,
            (None, None, None) => "/"@,
        }),
{
    match last {
        Some(dir) => dir.to_owned(),
        None => match cwd {
            Some(dir) => dir.to_owned(),
            None => match home {
                Some(dir) => dir.to_owned(),
                None => "/".to_owned(),
            },
        },
    }
}

// ---- telling the page that nothing was chosen ----

/// `DOM.resolveNode` parameters for a file input.
pub open spec fn resolve_of(node: i64) -> Value {
    Value::Record(
        seq![("backendNodeId"@, Value::Number(double_of(node as int)))],
    )
}

/// `DOM.resolveNode` parameters for a file input.
pub fn resolve_params(node: i64) -> (r: Json)
    ensures
        r@ == resolve_of(node),
{
    let fields = vec![("backendNodeId", Json::number(node))];
    proof {
        assert(record_of(fields@) =~= resolve_of(node)->Record_0);
    }
    Json::object(fields)
}

/// What is put to the page, in order, once the input has been found: `cancel`
/// on it, and then its handle let go. Nothing when it was not found.
pub open spec fn cancel_of(reply: Value) -> Seq<(Seq<char>, Value)> {
    match crate::json::field2(reply, "object"@, "objectId"@) {
        Some(Value::Text(object)) => seq![
            (
                "Runtime.callFunctionOn"@,
                Value::Record(
                    seq![
                        ("objectId"@, Value::Text(object)),
                        ("functionDeclaration"@, Value::Text(CANCEL_FUNCTION@)),
                    ],
                ),
            ),
            (
                "Runtime.releaseObject"@,
                Value::Record(seq![("objectId"@, Value::Text(object))]),
            ),
        ],
        _ => Seq::empty(),
    }
}

/// What some commands are.
pub open spec fn orders(commands: Seq<(&'static str, Json)>) -> Seq<(Seq<char>, Value)> {
    commands.map_values(|c: (&'static str, Json)| (c.0@, c.1@))
}

/// What to put to the page that its file input was dismissed, out of the reply
/// that found the input.
pub fn cancel_chooser(reply: &Json) -> (r: Vec<(&'static str, Json)>)
    ensures
        orders(r@) == cancel_of(reply@),
{
    match reply.text_at2("object", "objectId") {
        Some(object) => {
            let call = vec![
                ("objectId", Json::string(object)),
                ("functionDeclaration", Json::string(CANCEL_FUNCTION)),
            ];
            let release = vec![("objectId", Json::string(object))];
            proof {
                assert(record_of(call@) =~= cancel_of(reply@)[0].1->Record_0);
                assert(record_of(release@) =~= cancel_of(reply@)[1].1->Record_0);
            }
            let r = vec![
                ("Runtime.callFunctionOn", Json::object(call)),
                ("Runtime.releaseObject", Json::object(release)),
            ];
            proof {
                assert(orders(r@) =~= cancel_of(reply@));
            }
            r
        },
        None => {
            let r: Vec<(&'static str, Json)> = Vec::new();
            proof {
                assert(orders(r@) =~= cancel_of(reply@));
            }
            r
        },
    }
}

// ---- laws ----

/// A path is sent only as it was typed: what is sent names one file, and the
/// input that asked.
pub proof fn law_one_path_goes_to_the_input_that_asked(offer: Offer)
    ensures
        field(offer.replied(), "backendNodeId"@) == Some(
            Value::Number(double_of(offer.node as int)),
        ),
        field(offer.replied(), "files"@) == Some(Value::List(seq![Value::Text(offer.path())])),
{
    reveal_strlit("files");
    reveal_strlit("backendNodeId");
    assert("files"@.len() != "backendNodeId"@.len());
    reveal_with_fuel(crate::json::lookup, 3);
    let fields = offer.replied()->Record_0;
    assert(fields.drop_first()[0] == fields[1]);
}

/// What is typed names a file as a shell would have it: from the root if it
/// starts there, under the home directory after a tilde, and otherwise under the
/// directory that the prompt started in.
pub proof fn law_a_path_is_read_as_a_shell_reads_it(offer: Offer, home: Seq<char>, rest: Seq<char>)
    requires
        home.len() > 0 && home.last() != '/',
        offer.base.len() > 0 && offer.base.last() != '/',
        rest.len() > 0 && rest[0] != '/' && rest[0] != '~',
    ensures
        ({
            let typed = |text: Seq<char>, at: Option<Seq<char>>|
                Offer { line: Typing { text, ..offer.line }, home: at, ..offer }.path();
            &&& typed(seq!['/'] + rest, Some(home)) == seq!['/'] + rest
            &&& typed(rest, Some(home)) == offer.base + seq!['/'] + rest
            &&& typed(rest, None) == offer.base + seq!['/'] + rest
            &&& typed(seq!['~'], Some(home)) == home
            &&& typed(seq!['~', '/'] + rest, Some(home)) == home + seq!['/'] + rest
            &&& typed(seq!['~'], None) == offer.base + seq!['/', '~']
        }),
{
    reveal_strlit("~");
    reveal_strlit("~/");
    reveal_strlit("/");
    assert("~"@ =~= seq!['~']);
    assert("~/"@ =~= seq!['~', '/']);
    assert("/"@ =~= seq!['/']);
    assert((seq!['~', '/'] + rest).skip(2) =~= rest);
    assert((seq!['~', '/'] + rest).take(2) =~= seq!['~', '/']);
    assert((seq!['~', '/'] + rest) != seq!['~']) by {
        assert((seq!['~', '/'] + rest).len() > 1);
    }
    assert((seq!['/'] + rest)[0] == '/');
    assert((seq!['/'] + rest) != seq!['~']) by {
        assert((seq!['/'] + rest)[0] == '/');
    }
    assert(rest != seq!['~']) by {
        assert(rest[0] != '~');
    }
    assert(offer.base + seq!['/'] + seq!['~'] =~= offer.base + seq!['/', '~']);
}

/// A path goes when there is one and the line is ended, and the chooser is given
/// up when the line is left.
pub proof fn law_a_path_goes_when_it_is_typed(offer: Offer, key: KeyInput)
    ensures
        ({
            let (after, outcome) = offer.stepped(key);
            let (line, edit) = offer.line.stepped(key);
            &&& after == Offer { line, ..offer }
            &&& outcome == Outcome::Send <==> edit == Edit::Go && line.text.len() > 0
            &&& outcome == Outcome::Cancel <==> edit == Edit::Cancel
            &&& outcome == Outcome::Quit <==> edit == Edit::Quit
        }),
{
}

/// The next prompt starts where this file lay: the directory and the name after
/// its last slash are the path.
pub proof fn law_a_file_lies_in_its_directory(dir: Seq<char>, name: Seq<char>)
    requires
        dir.len() > 0,
        !name.contains('/'),
    ensures
        directory_of(dir + seq!['/'] + name) == dir,
        directory_of(seq!['/'] + name) == seq!['/'],
        directory_of(name) == seq!['.'],
{
    reveal_strlit(".");
    reveal_strlit("/");
    assert("."@ =~= seq!['.']);
    assert("/"@ =~= seq!['/']);
    lemma_last_slash(dir, name);
    lemma_last_slash(Seq::empty(), name);
    assert(Seq::<char>::empty() + seq!['/'] + name =~= seq!['/'] + name);
    lemma_no_slash(name);
    assert((dir + seq!['/'] + name).take(dir.len() as int) =~= dir);
}

proof fn lemma_last_slash(dir: Seq<char>, name: Seq<char>)
    requires
        !name.contains('/'),
    ensures
        last_index_of(dir + seq!['/'] + name, '/') == dir.len(),
    decreases name.len(),
{
    let all = dir + seq!['/'] + name;
    if name.len() == 0 {
        assert(all.last() == '/');
    } else {
        assert(all.last() == name.last());
        assert(name[name.len() - 1] != '/');
        assert(all.drop_last() =~= dir + seq!['/'] + name.drop_last());
        assert(!name.drop_last().contains('/')) by {
            if name.drop_last().contains('/') {
                let i = choose|i: int| 0 <= i < name.drop_last().len() && name.drop_last()[i] == '/';
                assert(name[i] == '/');
            }
        }
        lemma_last_slash(dir, name.drop_last());
    }
}

proof fn lemma_no_slash(name: Seq<char>)
    requires
        !name.contains('/'),
    ensures
        last_index_of(name, '/') < 0,
    decreases name.len(),
{
    if name.len() > 0 {
        assert(name[name.len() - 1] != '/');
        assert(!name.drop_last().contains('/')) by {
            if name.drop_last().contains('/') {
                let i = choose|i: int| 0 <= i < name.drop_last().len() && name.drop_last()[i] == '/';
                assert(name[i] == '/');
            }
        }
        lemma_no_slash(name.drop_last());
    }
}

/// A chooser that is given up is told so, on the very object that the engine
/// resolved, which is then let go.
pub proof fn law_the_input_hears_that_it_was_given_up(reply: Value, object: Seq<char>)
    requires
        crate::json::field2(reply, "object"@, "objectId"@) == Some(Value::Text(object)),
    ensures
        cancel_of(reply).len() == 2,
        cancel_of(reply)[0].0 == "Runtime.callFunctionOn"@,
        text_of(field(cancel_of(reply)[0].1, "objectId"@)) == Some(object),
        text_of(field(cancel_of(reply)[0].1, "functionDeclaration"@)) == Some(CANCEL_FUNCTION@),
        cancel_of(reply)[1].0 == "Runtime.releaseObject"@,
        text_of(field(cancel_of(reply)[1].1, "objectId"@)) == Some(object),
{
    let call = cancel_of(reply)[0].1->Record_0;
    let release = cancel_of(reply)[1].1->Record_0;
    reveal_strlit("objectId");
    reveal_strlit("functionDeclaration");
    assert("objectId"@.len() == 8);
    assert("functionDeclaration"@.len() == 19);
    assert(call[0].0 == "objectId"@);
    assert(call[1].0 == "functionDeclaration"@);
    assert(release[0].0 == "objectId"@);
    assert(named_once(call) && named_once(release));
    lemma_each_is_found(call);
    lemma_each_is_found(release);
}

/// A chooser is of the input that the page named, and takes several files only
/// when the page said so.
pub proof fn law_a_chooser_is_the_inputs(params: Value, base: Seq<char>, home: Option<Seq<char>>)
    ensures
        offer_of(params, base, home) is Some <==> whole_of(field(params, "backendNodeId"@)) is Some,
        offer_of(params, base, home) matches Some(offer) ==> {
            &&& whole_of(field(params, "backendNodeId"@)) == Some(offer.node)
            &&& offer.multiple <==> text_of(field(params, "mode"@)) == Some("selectMultiple"@)
            &&& offer.line.text.len() == 0
            &&& offer.base == base && offer.home == home
        },
{
}

/// What a directory that may not be known is.
pub open spec fn given(dir: Option<&str>) -> Option<Seq<char>> {
    match dir {
        Some(dir) => Some(dir@),
        None => None,
    }
}

/// Where a path is looked for first.
pub open spec fn started_in(
    last: Option<Seq<char>>,
    cwd: Option<Seq<char>>,
    home: Option<Seq<char>>,
) -> Seq<char> {
    match (last, cwd, home) {
        (Some(dir), _, _) => dir,
        (None, Some(dir), _) => dir,
        (None, None, Some(dir)) => dir,
        (None, None, None) => "/"@,
    }
}

/// What the prompt says.
pub open spec fn asked_for(multiple: bool) -> Seq<char> {
    if multiple {
        "files:"@
    } else {
        "file:"@
    }
}

/// A path is looked for where the last one was, else where the program was
/// started, else at home, else at the root; and the prompt says how many are
/// taken.
pub proof fn law_a_path_is_looked_for_where_the_last_one_was(
    last: Seq<char>,
    cwd: Option<Seq<char>>,
    home: Option<Seq<char>>,
    here: Seq<char>,
    node: i64,
)
    ensures
        started_in(Some(last), cwd, home) == last,
        started_in(None, Some(here), home) == here,
        started_in(None, None, Some(here)) == here,
        started_in(None, None, None) == "/"@,
        asked_for(true) == "files:"@ && asked_for(false) == "file:"@,
        field(resolve_of(node), "backendNodeId"@) == Some(
            Value::Number(double_of(node as int)),
        ),
{
    let fields = resolve_of(node)->Record_0;
    assert(fields[0].0 == "backendNodeId"@);
    lemma_each_is_found(fields);
}

}
