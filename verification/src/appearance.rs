//! What a page is told about where it is being shown: light or dark.
//!
//! A headless engine has no desktop to ask, so it answers light. What does know
//! is the terminal, whose background is the colour the page is sitting in; its
//! answer is read as a colour, and a background darker than the middle of
//! perceptual lightness is a dark one. `--color-scheme light` or `dark` says it
//! outright instead, and a terminal that does not answer gets the engine's
//! light, unsaid.
use vstd::prelude::*;

use crate::json::{
    bool_of, field, lemma_each_is_found, lemma_list_view, list_of, named_once, record_of, text_of, Json,
    Value,
};
use crate::light::{dark, lemma_linear_bound, LINEAR, WHITE};
use crate::strings::{debug_of, quoted, same};

verus! {

/// Light or dark.
#[derive(Debug, Clone, Copy, PartialEq, Eq, Structural)]
pub enum Scheme {
    Light,
    Dark,
}

impl Scheme {
    /// The word `prefers-color-scheme` uses.
    pub open spec fn word(self) -> Seq<char> {
        match self {
            Scheme::Light => "light"@,
            Scheme::Dark => "dark"@,
        }
    }

    /// The word `prefers-color-scheme` uses.
    pub fn name(self) -> (r: &'static str)
        ensures
            r@ == self.word(),
    {
        match self {
            Scheme::Light => "light",
            Scheme::Dark => "dark",
        }
    }
}

/// `--color-scheme`: what the person said, or `Auto` for the terminal's.
#[derive(Debug, Clone, Copy, PartialEq, Eq, Structural)]
pub enum Choice {
    Auto,
    Light,
    Dark,
}

impl Default for Choice {
    fn default() -> (r: Choice)
        ensures
            r == Choice::Auto,
    {
        Choice::Auto
    }
}

/// The choice that a word is.
pub open spec fn choice_named(text: Seq<char>) -> Option<Choice> {
    if text == "auto"@ {
        Some(Choice::Auto)
    } else if text == "light"@ {
        Some(Choice::Light)
    } else if text == "dark"@ {
        Some(Choice::Dark)
    } else {
        None
    }
}

impl Choice {
    /// `--color-scheme`'s argument.
    pub fn parse(text: &str) -> (r: Result<Choice, String>)
        ensures
            match r {
                Ok(choice) => choice_named(text@) == Some(choice),
                Err(why) => choice_named(text@) is None && why@
                    == "--color-scheme is auto, light or dark, not "@ + quoted(text@),
            },
    {
        if same(text, "auto") {
            Ok(Choice::Auto)
        } else if same(text, "light") {
            Ok(Choice::Light)
        } else if same(text, "dark") {
            Ok(Choice::Dark)
        } else {
            let mut why = "--color-scheme is auto, light or dark, not ".to_owned();
            why.append(debug_of(text).as_str());
            Err(why)
        }
    }
}

/// Whether a background is a dark one.
///
/// So black, gruvbox's `#282828` and solarized's `#002b36` are dark; a mid-grey
/// `#808080` and solarized light's `#fdf6e3` are light.
pub fn is_dark(rgb: (u8, u8, u8)) -> (r: bool)
    ensures
        r == dark(rgb),
{
    proof {
        lemma_linear_bound(rgb.0 as int);
        lemma_linear_bound(rgb.1 as int);
        lemma_linear_bound(rgb.2 as int);
    }
    let red = LINEAR[rgb.0 as usize];
    let green = LINEAR[rgb.1 as usize];
    let blue = LINEAR[rgb.2 as usize];
    2126 * red + 7152 * green + 722 * blue < 1840 * WHITE
}

// ---- what a session is told ----

/// Everything a session is told about its appearance.
#[derive(Debug, Clone, Copy, PartialEq, Eq, Structural)]
pub struct Appearance {
    pub choice: Choice,
    /// What the terminal answered, once it has.
    pub terminal: Option<Scheme>,
    /// `--force-dark`.
    pub force_dark: bool,
}

/// The names and values of some commands.
pub open spec fn commands_of(commands: Seq<(&'static str, Json)>) -> Seq<(Seq<char>, Value)> {
    commands.map_values(|c: (&'static str, Json)| (c.0@, c.1@))
}

/// `Emulation.setEmulatedMedia`'s parameters for one scheme.
pub open spec fn media_of(scheme: Scheme) -> Value {
    Value::Record(
        seq![
            (
                "features"@,
                Value::List(
                    seq![
                        Value::Record(
                            seq![
                                ("name"@, Value::Text("prefers-color-scheme"@)),
                                ("value"@, Value::Text(scheme.word())),
                            ],
                        ),
                    ],
                ),
            ),
        ],
    )
}

/// `Emulation.setAutoDarkModeOverride`'s parameters.
pub open spec fn auto_dark_of(enabled: bool) -> Value {
    Value::Record(seq![("enabled"@, Value::Bool(enabled))])
}

impl Appearance {
    /// The scheme to tell a page: the flag's, else the terminal's, else none.
    pub open spec fn shown(self) -> Option<Scheme> {
        match self.choice {
            Choice::Light => Some(Scheme::Light),
            Choice::Dark => Some(Scheme::Dark),
            Choice::Auto => self.terminal,
        }
    }

    /// This once the terminal has said its background.
    pub open spec fn taught(self, rgb: (u8, u8, u8)) -> Appearance {
        Appearance {
            terminal: Some(
                if dark(rgb) {
                    Scheme::Dark
                } else {
                    Scheme::Light
                },
            ),
            ..self
        }
    }

    /// The commands for one session, in order.
    pub open spec fn told(self) -> Seq<(Seq<char>, Value)> {
        let media = match self.shown() {
            Some(scheme) => seq![("Emulation.setEmulatedMedia"@, media_of(scheme))],
            None => Seq::empty(),
        };
        if self.force_dark {
            media.push(("Emulation.setAutoDarkModeOverride"@, auto_dark_of(true)))
        } else {
            media
        }
    }

    /// What is known before the terminal has answered.
    pub fn new(choice: Choice, force_dark: bool) -> (r: Appearance)
        ensures
            r == (Appearance { choice, terminal: None, force_dark }),
    {
        Appearance { choice, terminal: None, force_dark }
    }

    /// The scheme to tell a page: the flag's, else the terminal's, else none,
    /// which is the engine's light, unsaid.
    pub fn scheme(&self) -> (r: Option<Scheme>)
        ensures
            r == self.shown(),
    {
        match self.choice {
            Choice::Light => Some(Scheme::Light),
            Choice::Dark => Some(Scheme::Dark),
            Choice::Auto => self.terminal,
        }
    }

    /// The terminal said its background is `rgb`. `true` if what pages are
    /// told has changed, which is when every session has to be told again.
    pub fn learned(&mut self, rgb: (u8, u8, u8)) -> (r: bool)
        ensures
            *final(self) == old(self).taught(rgb),
            r == (final(self).shown() != old(self).shown()),
    {
        let before = self.scheme();
        self.terminal = Some(
            if is_dark(rgb) {
                Scheme::Dark
            } else {
                Scheme::Light
            },
        );
        match (self.scheme(), before) {
            (Some(now), Some(then)) => now != then,
            (None, None) => false,
            _ => true,
        }
    }

    /// The commands for one session, in order: `setEmulatedMedia` when there
    /// is a scheme to say, `setAutoDarkModeOverride` when forcing. Nothing at
    /// all for a session that has nothing to be told.
    pub fn commands(&self) -> (r: Vec<(&'static str, Json)>)
        ensures
            commands_of(r@) == self.told(),
    {
        let mut out: Vec<(&'static str, Json)> = Vec::new();
        match self.scheme() {
            Some(scheme) => out.push(("Emulation.setEmulatedMedia", media_params(scheme))),
            None => {},
        }
        if self.force_dark {
            out.push(("Emulation.setAutoDarkModeOverride", auto_dark_params(true)));
        }
        proof {
            assert(commands_of(out@) =~= self.told());
        }
        out
    }
}

/// `Emulation.setEmulatedMedia`'s parameters for one scheme.
pub fn media_params(scheme: Scheme) -> (r: Json)
    ensures
        r@ == media_of(scheme),
{
    let feature = vec![
        ("name", Json::string("prefers-color-scheme")),
        ("value", Json::string(scheme.name())),
    ];
    proof {
        assert(record_of(feature@) =~= seq![
            ("name"@, Value::Text("prefers-color-scheme"@)),
            ("value"@, Value::Text(scheme.word())),
        ]);
    }
    let features = vec![Json::object(feature)];
    proof {
        lemma_list_view(features);
        assert(Json::Array(features)@->List_0 =~= seq![features@[0]@]);
    }
    let fields = vec![("features", Json::Array(features))];
    proof {
        assert(record_of(fields@) =~= media_of(scheme)->Record_0);
    }
    Json::object(fields)
}

/// `Emulation.setAutoDarkModeOverride`'s parameters.
pub fn auto_dark_params(enabled: bool) -> (r: Json)
    ensures
        r@ == auto_dark_of(enabled),
{
    let fields = vec![("enabled", Json::Bool(enabled))];
    proof {
        assert(record_of(fields@) =~= seq![("enabled"@, Value::Bool(enabled))]);
    }
    Json::object(fields)
}

/// The flag beats the terminal: with one given, no answer changes what pages
/// are told.
pub proof fn law_the_flag_beats_the_terminal(a: Appearance, rgb: (u8, u8, u8))
    requires
        a.choice != Choice::Auto,
    ensures
        a.taught(rgb).shown() == a.shown(),
        a.shown() is Some,
{
}

/// An answer that is as dark as the last changes nothing.
pub proof fn law_the_same_answer_twice_changes_nothing(
    a: Appearance,
    first: (u8, u8, u8),
    second: (u8, u8, u8),
)
    requires
        dark(first) == dark(second),
    ensures
        a.taught(first).taught(second) == a.taught(first),
{
}

/// Each choice goes by its name and nothing else does.
pub proof fn law_a_choice_goes_by_its_name(text: Seq<char>)
    ensures
        choice_named(text) == Some(Choice::Auto) <==> text == "auto"@,
        choice_named(text) == Some(Choice::Light) <==> text == "light"@,
        choice_named(text) == Some(Choice::Dark) <==> text == "dark"@,
{
    reveal_strlit("auto");
    reveal_strlit("light");
    reveal_strlit("dark");
    assert("auto"@.len() == 4);
    assert("light"@.len() == 5);
    assert("dark"@.len() == 4);
    assert("auto"@[0] != "dark"@[0]);
}

/// The page is shown as was chosen, or as the terminal is when nothing was; a
/// terminal that has not answered says nothing.
pub proof fn law_a_page_is_shown_as_chosen(force_dark: bool, terminal: Option<Scheme>, rgb: (u8, u8, u8))
    ensures
        (Appearance { choice: Choice::Light, terminal, force_dark }).shown() == Some(Scheme::Light),
        (Appearance { choice: Choice::Dark, terminal, force_dark }).shown() == Some(Scheme::Dark),
        (Appearance { choice: Choice::Auto, terminal, force_dark }).shown() == terminal,
        (Appearance { choice: Choice::Auto, terminal, force_dark }).taught(rgb).shown() == if dark(
            rgb,
        ) {
            Some(Scheme::Dark)
        } else {
            Some(Scheme::Light)
        },
{
}

/// The engine is told which scheme the page prefers, by the name that pages know
/// it by, and to darken pages only when it was asked to.
pub proof fn law_the_engine_is_told_the_scheme(a: Appearance)
    ensures
        ({
            let told = a.told();
            let n: int = if a.shown() is Some {
                1
            } else {
                0
            };
            &&& told.len() == n + (if a.force_dark {
                1int
            } else {
                0
            })
            &&& a.shown() matches Some(scheme) ==> {
                &&& told[0].0 == "Emulation.setEmulatedMedia"@
                &&& list_of(field(told[0].1, "features"@)) matches Some(features) && features.len()
                    == 1 && text_of(field(features[0], "name"@)) == Some("prefers-color-scheme"@)
                    && text_of(field(features[0], "value"@)) == Some(
                    if scheme == Scheme::Dark {
                        "dark"@
                    } else {
                        "light"@
                    },
                )
            }
            &&& a.force_dark ==> told[n].0 == "Emulation.setAutoDarkModeOverride"@ && bool_of(
                field(told[n].1, "enabled"@),
            ) == Some(true)
        }),
{
    if a.shown() is Some {
        let scheme = a.shown()->Some_0;
        let media = media_of(scheme)->Record_0;
        let feature = media[0].1->List_0[0]->Record_0;
        reveal_strlit("name");
        reveal_strlit("value");
        assert("name"@.len() == 4);
        assert("value"@.len() == 5);
        assert(media[0].0 == "features"@);
        assert(feature[0].0 == "name"@ && feature[1].0 == "value"@);
        assert(named_once(feature));
        lemma_each_is_found(media);
        lemma_each_is_found(feature);
    }
    let on = auto_dark_of(true)->Record_0;
    assert(on[0].0 == "enabled"@);
    lemma_each_is_found(on);
}

}
